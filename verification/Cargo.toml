[package]
name = "trie_index"
version = "0.1.0"
edition = "2021"
publish = false

[dependencies]
chrono = "=0.4.45"
rusty_ulid = "=2.0.1"
serde = "=1.0.229"
serde_derive = "=1.0.229"
serde_yaml = "=0.9.34"
walkdir = "=2.5.0"
