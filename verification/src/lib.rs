//! A content index built on a compressed prefix trie whose nodes are
//! directories: keys are inserted with incremental path compression
//! (splitting edges as new keys arrive) and found again by
//! longest-common-prefix descent. On top of the trie, an article store
//! indexes submissions three ways — by internal time-sortable key, by
//! user-chosen id, and by tag — and answers queries parsed from a small
//! query language.

pub mod article;
pub mod index;
pub mod prefix;
pub mod query;
pub mod scan;
pub mod text;
pub mod trie;
