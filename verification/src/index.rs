//! The article index: three directory tries (by internal key, by
//! user-facing id, by tag) plus a chronologically bucketed store for the
//! raw article bodies, composed behind one `update` / `search` interface.

use vstd::prelude::*;

pub use crate::trie::Error;

use crate::article::{
    datetime_to_filename, entries_map, get_property, is_meta_of_spec, keys_unique, same_article,
    set_property, stamp_filename, Article, PropertySet,
};
use crate::query::{parse_spec, Query, QueryModel, QueryParseError};
use crate::trie::{cat_labels, path_ok, TrieStore};

verus! {

/// One search hit: the reconstructed article and the index path of the
/// node that produced it.
pub struct Entry {
    pub article: Article,
    pub path: String,
}

impl Entry {
    /// The reconstructed article.
    pub fn article(&self) -> (r: Article)
        ensures
            same_article(&r, &self.article),
    {
        self.article.clone()
    }

    /// The raw body of the entry's article.
    pub fn body(&self) -> (r: Result<String, Error>)
        ensures
            r matches Ok(b) && b@ == self.article.body@,
    {
        Ok(self.article.body.clone())
    }
}

/// A single-pass sequence of search hits, already resolved against the
/// index; each `search` call opens a fresh one.
pub struct SearchIterator {
    pub entries: Vec<Entry>,
}

impl SearchIterator {
    /// Pops the next hit, front to back.
    pub fn next(&mut self) -> (r: Option<Entry>)
        ensures
            old(self).entries@.len() == 0 ==> r is None && final(self).entries@
                == old(self).entries@,
            old(self).entries@.len() > 0 ==> r == Some(old(self).entries@[0])
                && final(self).entries@ == old(self).entries@.drop_first(),
    {
        if self.entries.len() > 0 {
            let e = self.entries.remove(0);
            proof {
                assert(self.entries@ =~= old(self).entries@.drop_first());
            }
            Some(e)
        } else {
            None
        }
    }
}

/// No two stored articles share a key.
pub open spec fn meta_keys_unique(s: Seq<Article>) -> bool {
    forall|i: int, j: int|
        0 <= i < j < s.len() ==> (#[trigger] s[i].key@) != (#[trigger] s[j].key@)
}

/// The metadata map denoted by a list of stored articles (later entries
/// win).
pub open spec fn meta_map(s: Seq<Article>) -> Map<Seq<char>, Article>
    decreases s.len(),
{
    if s.len() == 0 {
        Map::empty()
    } else {
        meta_map(s.drop_last()).insert(s.last().key@, s.last())
    }
}

/// A key is in the metadata map exactly when some stored article has it.
pub proof fn lemma_meta_contains(s: Seq<Article>, k: Seq<char>)
    ensures
        meta_map(s).contains_key(k) <==> exists|i: int|
            0 <= i < s.len() && (#[trigger] s[i].key@) == k,
    decreases s.len(),
{
    if s.len() > 0 {
        lemma_meta_contains(s.drop_last(), k);
        if meta_map(s).contains_key(k) {
            if s.last().key@ == k {
                assert(s[s.len() - 1].key@ == k);
            } else {
                let i = choose|i: int|
                    0 <= i < s.len() - 1 && (#[trigger] s.drop_last()[i].key@) == k;
                assert(s[i].key@ == k);
            }
        }
        if exists|i: int| 0 <= i < s.len() && (#[trigger] s[i].key@) == k {
            let i = choose|i: int| 0 <= i < s.len() && (#[trigger] s[i].key@) == k;
            if i < s.len() - 1 {
                assert(s.drop_last()[i].key@ == k);
            }
        }
    }
}

/// With unique keys, the metadata map reads back each stored article.
pub proof fn lemma_meta_at(s: Seq<Article>, i: int)
    requires
        meta_keys_unique(s),
        0 <= i < s.len(),
    ensures
        meta_map(s).contains_key(s[i].key@),
        meta_map(s)[s[i].key@] == s[i],
    decreases s.len(),
{
    if i == s.len() - 1 {
    } else {
        assert(s.drop_last()[i] == s[i]);
        assert(meta_keys_unique(s.drop_last())) by {
            assert forall|p: int, q: int|
                0 <= p < q < s.drop_last().len() implies (#[trigger] s.drop_last()[p].key@)
                != (#[trigger] s.drop_last()[q].key@) by {
                assert(s.drop_last()[p] == s[p] && s.drop_last()[q] == s[q]);
            }
        }
        lemma_meta_at(s.drop_last(), i);
        assert(s[i].key@ != s.last().key@) by {
            assert(s[s.len() - 1].key@ == s.last().key@);
        }
    }
}

/// Updating the stored article at `i` to one with the same key rebinds
/// that key.
proof fn lemma_meta_update(s: Seq<Article>, i: int, m: Article)
    requires
        meta_keys_unique(s),
        0 <= i < s.len(),
        m.key@ == s[i].key@,
    ensures
        meta_map(s.update(i, m)) == meta_map(s).insert(m.key@, m),
    decreases s.len(),
{
    let s2 = s.update(i, m);
    if i == s.len() - 1 {
        assert(s2.drop_last() =~= s.drop_last());
        assert(s2.last() == m);
        assert(meta_map(s).insert(m.key@, m) =~= meta_map(s.drop_last()).insert(m.key@, m));
    } else {
        assert(meta_keys_unique(s.drop_last())) by {
            assert forall|p: int, q: int|
                0 <= p < q < s.drop_last().len() implies (#[trigger] s.drop_last()[p].key@)
                != (#[trigger] s.drop_last()[q].key@) by {
                assert(s.drop_last()[p] == s[p] && s.drop_last()[q] == s[q]);
            }
        }
        assert(s.drop_last()[i] == s[i]);
        lemma_meta_update(s.drop_last(), i, m);
        assert(s2.drop_last() =~= s.drop_last().update(i, m));
        assert(s2.last() == s.last());
        assert(m.key@ != s.last().key@) by {
            assert(s[i].key@ != s[s.len() - 1].key@);
        }
        assert(meta_map(s.drop_last()).insert(m.key@, m).insert(s.last().key@, s.last())
            =~= meta_map(s.drop_last()).insert(s.last().key@, s.last()).insert(m.key@, m));
    }
}

/// Replaces the stored article with `m`'s key if present, appends it
/// otherwise.
#[verifier::loop_isolation(false)]
fn upsert_meta(metas: &mut Vec<Article>, m: Article)
    requires
        meta_keys_unique(old(metas)@),
    ensures
        meta_keys_unique(final(metas)@),
        meta_map(final(metas)@) == meta_map(old(metas)@).insert(m.key@, m),
{
    let mut i: usize = 0;
    while i < metas.len()
        invariant
            i <= metas@.len(),
            metas@ == old(metas)@,
            forall|j: int| 0 <= j < i ==> (#[trigger] metas@[j].key@) != m.key@,
        decreases metas@.len() - i,
    {
        if metas[i].key == m.key {
            let ghost before = metas@;
            metas.set(i, m);
            proof {
                lemma_meta_update(before, i as int, metas@[i as int]);
                assert forall|p: int, q: int|
                    0 <= p < q < metas@.len() implies (#[trigger] metas@[p].key@)
                    != (#[trigger] metas@[q].key@) by {
                    if p != i {
                        assert(metas@[p] == before[p]);
                    }
                    if q != i {
                        assert(metas@[q] == before[q]);
                    }
                    assert(before[p].key@ != before[q].key@);
                    if p == i {
                        assert(metas@[p].key@ == before[i as int].key@);
                    }
                    if q == i {
                        assert(metas@[q].key@ == before[i as int].key@);
                    }
                }
            }
            return ;
        }
        i = i + 1;
    }
    let ghost before = metas@;
    metas.push(m);
    proof {
        assert(metas@.drop_last() =~= before);
        assert forall|p: int, q: int|
            0 <= p < q < metas@.len() implies (#[trigger] metas@[p].key@)
            != (#[trigger] metas@[q].key@) by {
            if q < metas@.len() - 1 {
                assert(metas@[p] == before[p] && metas@[q] == before[q]);
            } else {
                assert(metas@[p] == before[p]);
            }
        }
    }
}

/// Looks a stored article up by key.
#[verifier::loop_isolation(false)]
fn get_meta(metas: &Vec<Article>, key: &String) -> (r: Option<Article>)
    requires
        meta_keys_unique(metas@),
    ensures
        match r {
            Some(a) => meta_map(metas@).contains_key(key@) && same_article(
                &a,
                &meta_map(metas@)[key@],
            ),
            None => !meta_map(metas@).contains_key(key@),
        },
{
    let mut i: usize = 0;
    while i < metas.len()
        invariant
            i <= metas@.len(),
            forall|j: int| 0 <= j < i ==> (#[trigger] metas@[j].key@) != key@,
        decreases metas@.len() - i,
    {
        if metas[i].key == *key {
            proof {
                lemma_meta_at(metas@, i as int);
            }
            return Some(metas[i].clone());
        }
        i = i + 1;
    }
    proof {
        lemma_meta_contains(metas@, key@);
    }
    None
}

/// Joins node-path labels with `/`.
pub open spec fn joined(p: Seq<Seq<char>>) -> Seq<char>
    decreases p.len(),
{
    if p.len() == 0 {
        Seq::empty()
    } else if p.len() == 1 {
        p[0]
    } else {
        p[0] + seq!['/'] + joined(p.subrange(1, p.len() as int))
    }
}

/// Joins the labels of a node path into a relative directory path.
#[verifier::loop_isolation(false)]
pub fn join_path(p: &Vec<String>) -> (r: String)
    ensures
        r@ == joined(p@.map_values(|s: String| s@)),
{
    let mut s = String::new();
    if p.len() == 0 {
        return s;
    }
    let ghost m = p@.map_values(|x: String| x@);
    let mut i: usize = 1;
    s.append(p[0].as_str());
    proof {
        assert(s@ =~= m[0]);
        assert(joined_prefix_ok(m, 1, s@));
    }
    while i < p.len()
        invariant
            1 <= i <= p@.len(),
            m == p@.map_values(|x: String| x@),
            joined_prefix_ok(m, i as int, s@),
        decreases p@.len() - i,
    {
        s.append("/");
        s.append(p[i].as_str());
        proof {
            reveal_strlit("/");
            assert("/"@ =~= seq!['/']);
            lemma_joined_step(m, i as int, s@);
        }
        i = i + 1;
    }
    proof {
        lemma_joined_done(m, s@);
    }
    s
}

/// `acc` spells the join of the first `i` labels, in the sense that
/// completing it with the rest yields the full join.
pub(crate) open spec fn joined_prefix_ok(m: Seq<Seq<char>>, i: int, acc: Seq<char>) -> bool {
    &&& 1 <= i <= m.len()
    &&& (i == m.len() ==> acc == joined(m))
    &&& (i < m.len() ==> acc + seq!['/'] + joined(m.subrange(i, m.len() as int)) == joined(m))
}

/// One join step keeps the prefix property.
proof fn lemma_joined_step(m: Seq<Seq<char>>, i: int, acc2: Seq<char>)
    requires
        1 <= i < m.len(),
        exists|acc: Seq<char>|
            joined_prefix_ok(m, i, acc) && acc2 == acc + seq!['/'] + m[i],
    ensures
        joined_prefix_ok(m, i + 1, acc2),
{
    let acc = choose|acc: Seq<char>|
        joined_prefix_ok(m, i, acc) && acc2 == acc + seq!['/'] + m[i];
    let rest = m.subrange(i, m.len() as int);
    assert(rest[0] == m[i]);
    if i + 1 == m.len() {
        assert(rest.len() == 1);
        assert(joined(rest) == m[i]);
        assert(acc2 =~= acc + seq!['/'] + joined(rest));
    } else {
        let rest2 = m.subrange(i + 1, m.len() as int);
        assert(rest.subrange(1, rest.len() as int) =~= rest2);
        assert(joined(rest) == m[i] + seq!['/'] + joined(rest2));
        assert(acc2 + seq!['/'] + joined(rest2) =~= acc + seq!['/'] + joined(rest));
    }
}

/// At the end, the accumulator is the full join.
proof fn lemma_joined_done(m: Seq<Seq<char>>, acc: Seq<char>)
    requires
        m.len() >= 1,
        joined_prefix_ok(m, m.len() as int, acc),
    ensures
        acc == joined(m),
{
}

/// Concatenates node-path labels without a separator, spelling the key.
#[verifier::loop_isolation(false)]
pub fn concat_labels(p: &Vec<String>) -> (r: String)
    ensures
        r@ == cat_labels(p@.map_values(|s: String| s@)),
{
    let ghost m = p@.map_values(|x: String| x@);
    let mut s = String::new();
    let mut i: usize = 0;
    proof {
        assert(m.subrange(0, 0).len() == 0);
        assert(s@ =~= cat_labels(m.subrange(0, 0)));
    }
    while i < p.len()
        invariant
            i <= p@.len(),
            m == p@.map_values(|x: String| x@),
            s@ == cat_labels(m.subrange(0, i as int)),
        decreases p@.len() - i,
    {
        s.append(p[i].as_str());
        proof {
            lemma_cat_snoc(m, i as int);
        }
        i = i + 1;
    }
    proof {
        assert(m.subrange(0, m.len() as int) =~= m);
    }
    s
}

/// Concatenation over one more label.
proof fn lemma_cat_snoc(m: Seq<Seq<char>>, i: int)
    requires
        0 <= i < m.len(),
    ensures
        cat_labels(m.subrange(0, i + 1)) == cat_labels(m.subrange(0, i)) + m[i],
    decreases i,
{
    let a = m.subrange(0, i + 1);
    let b = m.subrange(0, i);
    if i == 0 {
        assert(a.subrange(1, a.len() as int).len() == 0);
        assert(a[0] == m[0]);
        assert(cat_labels(a) == m[0] + cat_labels(a.subrange(1, a.len() as int)));
        assert(cat_labels(a.subrange(1, a.len() as int)) =~= Seq::<char>::empty());
        assert(b.len() == 0);
        assert(cat_labels(a) =~= cat_labels(b) + m[0]);
    } else {
        let t = m.subrange(1, m.len() as int);
        lemma_cat_snoc(t, i - 1);
        assert(t.subrange(0, i) =~= a.subrange(1, a.len() as int));
        assert(t.subrange(0, i - 1) =~= b.subrange(1, b.len() as int));
        assert(t[i - 1] == m[i]);
        assert(a[0] == m[0] && b[0] == m[0]);
        assert(cat_labels(a) == m[0] + cat_labels(t.subrange(0, i)));
        assert(cat_labels(b) == m[0] + cat_labels(t.subrange(0, i - 1)));
        assert(cat_labels(a) =~= cat_labels(b) + m[i]);
    }
}

/// The local, directory-backed article index: one trie per axis and the
/// stored metadata and bodies. A single logical writer at a time is
/// assumed: `update` takes exclusive access, and its steps share no
/// transaction, so callers wanting concurrency must serialize around the
/// whole index.
pub struct Local {
    pub(crate) path: String,
    pub(crate) chrono_trie: TrieStore,
    pub(crate) key_trie: TrieStore,
    pub(crate) id_trie: TrieStore,
    pub(crate) tag_trie: TrieStore,
    pub(crate) metas: Vec<Article>,
    pub(crate) bodies: PropertySet,
}

impl Local {
    /// All four tries satisfy the prefix-free invariant, stored keys are
    /// unique, and every back-reference recorded in a trie resolves to
    /// stored metadata and a stored body.
    pub closed spec fn wf(&self) -> bool {
        &&& self.chrono_trie.wf()
        &&& self.key_trie.wf()
        &&& self.id_trie.wf()
        &&& self.tag_trie.wf()
        &&& meta_keys_unique(self.metas@)
        &&& keys_unique(self.bodies@)
        &&& forall|k: Seq<char>|
            (#[trigger] self.id_trie.payload_of(k)) matches Some(v) ==> meta_map(
                self.metas@,
            ).contains_key(v) && entries_map(self.bodies@).contains_key(v)
        &&& forall|k: Seq<char>|
            (#[trigger] self.chrono_trie.payload_of(k)) matches Some(v) ==> meta_map(
                self.metas@,
            ).contains_key(v) && entries_map(self.bodies@).contains_key(v)
        &&& forall|k: Seq<char>|
            (#[trigger] self.key_trie.payload_of(k)) is Some ==> meta_map(
                self.metas@,
            ).contains_key(k)
    }

    /// The key recorded for a user-facing id.
    pub closed spec fn id_key(&self, id: Seq<char>) -> Option<Seq<char>> {
        self.id_trie.payload_of(id)
    }

    /// The stored metadata, by key.
    pub closed spec fn metas_view(&self) -> Map<Seq<char>, Article> {
        meta_map(self.metas@)
    }

    /// The stored raw bodies, by key.
    pub closed spec fn bodies_view(&self) -> Map<Seq<char>, Seq<char>> {
        entries_map(self.bodies@)
    }

    /// The key recorded for a chronological bucket.
    pub closed spec fn chrono_payload(&self, b: Seq<char>) -> Option<Seq<char>> {
        self.chrono_trie.payload_of(b)
    }

    /// The marker recorded in the key trie.
    pub closed spec fn key_marker(&self, k: Seq<char>) -> Option<Seq<char>> {
        self.key_trie.payload_of(k)
    }

    /// The marker recorded in the tag trie.
    pub closed spec fn tag_marker(&self, t: Seq<char>) -> Option<Seq<char>> {
        self.tag_trie.payload_of(t)
    }

    /// The chronological buckets holding a body, oldest first.
    pub closed spec fn chrono_buckets(&self) -> Seq<Seq<char>> {
        self.chrono_trie.keys_in_order()
    }

    /// Does the chronological trie hold a node spelling `b`?
    pub closed spec fn chrono_chain(&self, b: Seq<char>) -> bool {
        self.chrono_trie.has_chain(b)
    }

    /// Does the key trie hold a node spelling `k`?
    pub closed spec fn key_chain(&self, k: Seq<char>) -> bool {
        self.key_trie.has_chain(k)
    }

    /// Does the id trie hold a node spelling `k`?
    pub closed spec fn id_chain(&self, k: Seq<char>) -> bool {
        self.id_trie.has_chain(k)
    }

    /// Does the tag trie hold a node spelling `t`?
    pub closed spec fn tag_chain(&self, t: Seq<char>) -> bool {
        self.tag_trie.has_chain(t)
    }

    /// The directory paths of the chronological trie, in traversal order.
    pub closed spec fn chrono_dirs(&self) -> Seq<Seq<char>> {
        self.chrono_trie.dirs_in_order()
    }

    /// The directory paths of the key trie, in traversal order.
    pub closed spec fn key_dirs(&self) -> Seq<Seq<char>> {
        self.key_trie.dirs_in_order()
    }

    /// The directory paths of the id trie, in traversal order.
    pub closed spec fn id_dirs(&self) -> Seq<Seq<char>> {
        self.id_trie.dirs_in_order()
    }

    /// The directory paths of the tag trie, in traversal order.
    pub closed spec fn tag_dirs(&self) -> Seq<Seq<char>> {
        self.tag_trie.dirs_in_order()
    }

    /// The on-disk shape of the chronological trie (under `articles/`).
    pub fn chrono_layout(&self) -> (r: Vec<String>)
        requires
            self.wf(),
        ensures
            r@.len() == self.chrono_dirs().len(),
            forall|t: int| 0 <= t < r@.len() ==> (#[trigger] r@[t])@ == self.chrono_dirs()[t],
    {
        self.chrono_trie.dir_paths()
    }

    /// The on-disk shape of the key trie (under `index/key/`).
    pub fn key_layout(&self) -> (r: Vec<String>)
        requires
            self.wf(),
        ensures
            r@.len() == self.key_dirs().len(),
            forall|t: int| 0 <= t < r@.len() ==> (#[trigger] r@[t])@ == self.key_dirs()[t],
    {
        self.key_trie.dir_paths()
    }

    /// The on-disk shape of the id trie (under `index/id/`).
    pub fn id_layout(&self) -> (r: Vec<String>)
        requires
            self.wf(),
        ensures
            r@.len() == self.id_dirs().len(),
            forall|t: int| 0 <= t < r@.len() ==> (#[trigger] r@[t])@ == self.id_dirs()[t],
    {
        self.id_trie.dir_paths()
    }

    /// The id-trie node path of a user id, when its chain exists.
    pub fn locate_id(&self, id: &str) -> (r: Option<Vec<String>>)
        requires
            self.wf(),
        ensures
            match r {
                Some(p) => self.id_chain(id@) && path_ok(p@, id@),
                None => !self.id_chain(id@),
            },
    {
        self.id_trie.locate(id)
    }

    /// The tag-trie node path of a tag, when its chain exists.
    pub fn locate_tag(&self, tag: &str) -> (r: Option<Vec<String>>)
        requires
            self.wf(),
        ensures
            match r {
                Some(p) => self.tag_chain(tag@) && path_ok(p@, tag@),
                None => !self.tag_chain(tag@),
            },
    {
        self.tag_trie.locate(tag)
    }

    /// The on-disk shape of the tag trie (under `index/tags/`).
    pub fn tag_layout(&self) -> (r: Vec<String>)
        requires
            self.wf(),
        ensures
            r@.len() == self.tag_dirs().len(),
            forall|t: int| 0 <= t < r@.len() ==> (#[trigger] r@[t])@ == self.tag_dirs()[t],
    {
        self.tag_trie.dir_paths()
    }

    /// Opens (models) an index rooted at `path`; starts empty.
    pub fn new(path: &str) -> (r: Result<Local, Error>)
        ensures
            r matches Ok(l) && l.wf() && (forall|k: Seq<char>| #[trigger] l.id_key(k) is None)
                && (forall|k: Seq<char>| #[trigger] l.chrono_payload(k) is None) && (forall|
                k: Seq<char>,
            | #[trigger] l.key_marker(k) is None) && (forall|k: Seq<char>| #[trigger]
                l.tag_marker(k) is None) && l.chrono_buckets().len() == 0
                && l.metas_view() == Map::<Seq<char>, Article>::empty() && l.bodies_view()
                == Map::<Seq<char>, Seq<char>>::empty(),
    {
        let l = Local {
            path: String::from_str(path),
            chrono_trie: TrieStore::new(),
            key_trie: TrieStore::new(),
            id_trie: TrieStore::new(),
            tag_trie: TrieStore::new(),
            metas: Vec::new(),
            bodies: Vec::new(),
        };
        proof {
            crate::trie::lemma_enumerate_exact(&l.chrono_trie);
            if l.chrono_buckets().len() > 0 {
                assert(l.chrono_buckets().contains(l.chrono_buckets()[0]));
            }
        }
        Ok(l)
    }
}

/// Conditions an `update` of `a` into `l` violates when it fails: every
/// path it inserts must be new and non-empty, and no two tags may
/// coincide.
pub open spec fn update_accepts(l: Local, a: Article) -> bool {
    &&& !l.chrono_chain(stamp_filename(a.created))
    &&& a.key@.len() > 0 && !l.key_chain(a.key@)
    &&& a.id@.len() > 0 && !l.id_chain(a.id@)
    &&& forall|i: int|
        0 <= i < a.tags@.len() ==> (#[trigger] a.tags@[i])@.len() > 0 && !l.tag_chain(
            a.tags@[i]@,
        )
    &&& forall|i: int, j: int|
        0 <= i < j < a.tags@.len() ==> (#[trigger] a.tags@[i])@ != (#[trigger] a.tags@[j])@
}

/// Conditions under which an `update` of `a` into `l` must succeed:
/// `update_accepts`, strengthened so that no tag is a prefix of another
/// (a tag equal to an intermediate node created by splitting a longer tag
/// would otherwise collide).
pub open spec fn update_must_succeed(l: Local, a: Article) -> bool {
    &&& update_accepts(l, a)
    &&& forall|i: int, j: int|
        0 <= i < a.tags@.len() && 0 <= j < a.tags@.len() && i != j ==> !crate::trie::is_prefix_of(
            (#[trigger] a.tags@[i])@,
            (#[trigger] a.tags@[j])@,
        )
}

impl Local {
    /// Rebuilds the entry for stored key `key`: its metadata with the raw
    /// body filled back in.
    fn resolve_entry(&self, key: &String, path: String) -> (r: Entry)
        requires
            self.wf(),
            self.metas_view().contains_key(key@),
            self.bodies_view().contains_key(key@),
        ensures
            entry_resolves(*self, key@, r),
    {
        let meta = get_meta(&self.metas, key).unwrap();
        let body = get_property(&self.bodies, key).unwrap();
        let mut a = meta;
        a.body = body;
        Entry { article: a, path }
    }

    /// Stores one article: the raw body goes into its chronological
    /// bucket, the metadata under the internal key, and a back-reference
    /// to the key under the user id and under every tag. The steps share
    /// no transaction: when one fails, the earlier ones remain done, and
    /// the error (a `Conflict` for an already-present path, an
    /// `InvariantViolation` for an empty one) is returned unchanged.
    #[verifier::loop_isolation(false)]
    pub fn update(&mut self, article: &Article) -> (r: Result<Entry, Error>)
        requires
            old(self).wf(),
        ensures
            final(self).wf(),
            forall|k: Seq<char>|
                k != article.id@ ==> #[trigger] final(self).id_key(k) == old(self).id_key(k),
            forall|b: Seq<char>|
                b != stamp_filename(article.created) ==> #[trigger] final(self).chrono_payload(b)
                    == old(self).chrono_payload(b),
            forall|k: Seq<char>|
                k != article.key@ ==> #[trigger] final(self).key_marker(k) == old(self).key_marker(k),
            forall|k: Seq<char>|
                k != article.key@ ==> (#[trigger] final(self).metas_view().contains_key(k) == old(self).metas_view().contains_key(k) && (old(self).metas_view().contains_key(k)
                    ==> final(self).metas_view()[k] == old(self).metas_view()[k])),
            forall|k: Seq<char>|
                k != article.key@ ==> (#[trigger] final(self).bodies_view().contains_key(k)
                    == old(self).bodies_view().contains_key(k) && (old(self).bodies_view().contains_key(k) ==> final(self).bodies_view()[k] == old(self).bodies_view()[k])),
            forall|t: Seq<char>|
                !article.tags@.map_values(|x: String| x@).contains(t) ==> #[trigger] final(self).tag_marker(t) == old(self).tag_marker(t),
            r is Ok ==> update_accepts(*old(self), *article),
            update_must_succeed(*old(self), *article) ==> r is Ok,
            // An invariant violation is always an empty path component.
            r == Err::<Entry, Error>(Error::InvariantViolation) ==> article.key@.len() == 0
                || article.id@.len() == 0 || (exists|i: int|
                0 <= i < article.tags@.len() && (#[trigger] article.tags@[i])@.len() == 0),
            // The steps share no transaction: whatever a completed step
            // wrote remains, whether or not a later step failed.
            !old(self).chrono_chain(stamp_filename(article.created)) ==> {
                &&& final(self).chrono_payload(stamp_filename(article.created)) == Some(
                    article.key@,
                )
                &&& final(self).bodies_view().contains_key(article.key@)
                &&& final(self).bodies_view()[article.key@] == article.body@
                &&& final(self).metas_view().contains_key(article.key@)
                &&& is_meta_of_spec(final(self).metas_view()[article.key@], *article)
            },
            !old(self).chrono_chain(stamp_filename(article.created)) && article.key@.len() > 0
                && !old(self).key_chain(article.key@) ==> final(self).key_marker(article.key@)
                == Some(article.key@),
            !old(self).chrono_chain(stamp_filename(article.created)) && article.key@.len() > 0
                && !old(self).key_chain(article.key@) && article.id@.len() > 0 && !old(
                self,
            ).id_chain(article.id@) ==> final(self).id_key(article.id@) == Some(article.key@),
            match r {
                Ok(e) => {
                    &&& final(self).chrono_payload(stamp_filename(article.created)) == Some(
                        article.key@,
                    )
                    &&& final(self).bodies_view().contains_key(article.key@)
                    &&& final(self).bodies_view()[article.key@] == article.body@
                    &&& final(self).metas_view().contains_key(article.key@)
                    &&& is_meta_of_spec(final(self).metas_view()[article.key@], *article)
                    &&& final(self).key_marker(article.key@) == Some(article.key@)
                    &&& final(self).id_key(article.id@) == Some(article.key@)
                    &&& forall|i: int|
                        0 <= i < article.tags@.len() ==> #[trigger] final(self).tag_marker(
                            article.tags@[i]@,
                        ) == Some(article.tags@[i]@)
                    &&& same_article(&e.article, article)
                    &&& exists|pv: Seq<String>|
                        #[trigger] path_ok(pv, article.id@) && e.path@ == "index/id/"@ + joined(
                            pv.map_values(|s: String| s@),
                        )
                },
                Err(er) => er == Error::Conflict || er == Error::InvariantViolation,
            },
    {
        // Step 1: the chronological bucket for the raw body.
        proof {
            crate::article::lemma_stamp_filename_nonempty(article.created);
        }
        let bucket = datetime_to_filename(&article.created);
        if let Err(e) = self.chrono_trie.insert(bucket.as_str(), article.key.as_str()) {
            return Err(e);
        }
        // Step 2: the raw body itself.
        set_property(&mut self.bodies, article.key.clone(), article.body.clone());
        // Step 3: the metadata (the article with its body left out).
        let mut meta = article.clone();
        meta.body = String::new();
        upsert_meta(&mut self.metas, meta);
        // Step 4: the key trie marks the key as stored.
        if let Err(e) = self.key_trie.insert(article.key.as_str(), article.key.as_str()) {
            return Err(e);
        }
        // Step 5: the id back-reference.
        let id_path = match self.id_trie.insert(article.id.as_str(), article.key.as_str()) {
            Ok(p) => p,
            Err(e) => {
                return Err(e);
            },
        };
        // The returned entry names the id-trie node directory.
        let mut entry_path = String::from_str("index/id/");
        entry_path.append(join_path(&id_path).as_str());
        // Step 6: one back-reference per tag.
        let ghost tv = article.tags@.map_values(|x: String| x@);
        let ghost mid = *self;
        let mut i: usize = 0;
        while i < article.tags.len()
            invariant
                i <= article.tags@.len(),
                tv == article.tags@.map_values(|x: String| x@),
                self.wf(),
                self.chrono_trie == mid.chrono_trie,
                self.key_trie == mid.key_trie,
                self.id_trie == mid.id_trie,
                self.metas == mid.metas,
                self.bodies == mid.bodies,
                self.path == mid.path,
                forall|j: int|
                    0 <= j < i ==> #[trigger] self.tag_marker(article.tags@[j]@) == Some(
                        article.tags@[j]@,
                    ),
                forall|t: Seq<char>|
                    !tv.contains(t) ==> #[trigger] self.tag_marker(t) == mid.tag_marker(t),
                forall|k: Seq<char>|
                    old(self).tag_chain(k) ==> #[trigger] self.tag_trie.has_chain(k),
                forall|k: Seq<char>|
                    #[trigger] self.tag_trie.has_chain(k) ==> old(self).tag_chain(k) || (exists|
                        j: int,
                    |
                        0 <= j < i && crate::trie::is_prefix_of(k, (#[trigger] article.tags@[j])@)),
                forall|j: int|
                    0 <= j < i ==> (#[trigger] article.tags@[j])@.len() > 0 && !old(
                        self,
                    ).tag_chain(article.tags@[j]@),
                forall|p: int, q: int|
                    0 <= p < q < i ==> (#[trigger] article.tags@[p])@ != (#[trigger] article.tags@[q])@,
            decreases article.tags@.len() - i,
        {
            let ghost pre = *self;
            let tag = &article.tags[i];
            match self.tag_trie.insert(tag.as_str(), tag.as_str()) {
                Ok(_) => {},
                Err(e) => {
                    proof {
                        assert forall|t2: Seq<char>|
                            !article.tags@.map_values(|x: String| x@).contains(t2)
                                implies #[trigger] self.tag_marker(t2) == old(self).tag_marker(
                            t2,
                        ) by {
                            assert(!tv.contains(t2));
                            assert(pre.tag_marker(t2) == mid.tag_marker(t2));
                            assert(mid.tag_marker(t2) == old(self).tag_marker(t2));
                        }
                        if update_must_succeed(*old(self), *article) {
                            if e == Error::InvariantViolation {
                                assert(article.tags@[i as int]@.len() == 0);
                                assert(false);
                            } else {
                                assert(pre.tag_trie.has_chain(article.tags@[i as int]@));
                                if !old(self).tag_chain(article.tags@[i as int]@) {
                                    let j = choose|j: int|
                                        0 <= j < i && crate::trie::is_prefix_of(
                                            article.tags@[i as int]@,
                                            (#[trigger] article.tags@[j])@,
                                        );
                                    assert(j != i);
                                }
                                assert(false);
                            }
                        }
                    }
                    return Err(e);
                },
            }
            proof {
                assert(tv.len() == article.tags@.len());
                assert(tv[i as int] == article.tags@[i as int]@);
                assert(tv.contains(tv[i as int])) by {
                    assert(0 <= (i as int) && (i as int) < tv.len());
                }
                assert(!pre.tag_trie.has_chain(article.tags@[i as int]@));
                assert(!old(self).tag_chain(article.tags@[i as int]@));
                assert forall|k: Seq<char>|
                    #[trigger] self.tag_trie.has_chain(k) implies old(self).tag_chain(k) || (
                exists|j: int|
                    0 <= j < i + 1 && crate::trie::is_prefix_of(
                        k,
                        (#[trigger] article.tags@[j])@,
                    )) by {
                    if !pre.tag_trie.has_chain(k) {
                        assert(crate::trie::is_prefix_of(k, article.tags@[i as int]@));
                    } else if !old(self).tag_chain(k) {
                        let j = choose|j: int|
                            0 <= j < i && crate::trie::is_prefix_of(
                                k,
                                (#[trigger] article.tags@[j])@,
                            );
                        assert(0 <= j < i + 1 && crate::trie::is_prefix_of(
                            k,
                            article.tags@[j]@,
                        ));
                    }
                }
                assert forall|p: int, q: int|
                    0 <= p < q < i + 1 implies (#[trigger] article.tags@[p])@
                    != (#[trigger] article.tags@[q])@ by {
                    if q == i {
                        assert(pre.tag_marker(article.tags@[p]@) == Some(article.tags@[p]@));
                        crate::trie::lemma_payload_implies_chain(
                            &pre.tag_trie,
                            article.tags@[p]@,
                        );
                    }
                }
                assert forall|j: int|
                    0 <= j < i + 1 implies #[trigger] self.tag_marker(article.tags@[j]@) == Some(
                    article.tags@[j]@,
                ) by {
                    if j < i && article.tags@[j]@ != article.tags@[i as int]@ {
                        assert(pre.tag_marker(article.tags@[j]@) == Some(article.tags@[j]@));
                    } else if j < i {
                        // The insert of an equal tag would have conflicted.
                        assert(pre.tag_marker(article.tags@[j]@) == Some(article.tags@[j]@));
                        crate::trie::lemma_payload_implies_chain(
                            &pre.tag_trie,
                            article.tags@[j]@,
                        );
                        assert(pre.tag_trie.has_chain(article.tags@[i as int]@));
                        assert(false);
                    }
                }
                assert forall|t2: Seq<char>|
                    !tv.contains(t2) implies #[trigger] self.tag_marker(t2) == mid.tag_marker(
                    t2,
                ) by {
                    assert(t2 != tv[i as int]);
                    assert(pre.tag_marker(t2) == mid.tag_marker(t2));
                }
            }
            i = i + 1;
        }
        proof {
            assert(path_ok(id_path@, article.id@));
        }
        Ok(Entry { article: article.clone(), path: entry_path })
    }

    /// Dispatches a query, per its shape: an id yields at most the one
    /// article whose id matches; a tag query is a declared but
    /// unimplemented axis and yields nothing; the empty query yields every
    /// stored article, in chronological-bucket order.
    #[verifier::loop_isolation(false)]
    pub fn search(&mut self, query: &Query) -> (r: Result<SearchIterator, Error>)
        requires
            old(self).wf(),
        ensures
            *final(self) == *old(self),
            match r {
                Ok(it) => {
                    &&& (query@.id matches Some(idv) ==> (match old(self).id_key(idv) {
                        Some(k) => it.entries@.len() == 1 && entry_resolves(
                            *old(self),
                            k,
                            it.entries@[0],
                        ),
                        None => it.entries@.len() == 0,
                    }))
                    &&& (query@.id is None && query@.tags.len() > 0 ==> it.entries@.len() == 0)
                    &&& (query@.id is None && query@.tags.len() == 0 ==> {
                        &&& it.entries@.len() == old(self).chrono_buckets().len()
                        &&& forall|t: int|
                            0 <= t < it.entries@.len() ==> bucket_entry_ok(
                                *old(self),
                                old(self).chrono_buckets()[t],
                                #[trigger] it.entries@[t],
                            )
                    })
                },
                Err(_) => false,
            },
    {
        match &query.id {
            Some(id) => {
                match self.id_trie.get_payload(id.as_str()) {
                    Some(key) => {
                        proof {
                            crate::trie::lemma_payload_implies_chain(&self.id_trie, id@);
                        }
                        let node_path = self.id_trie.locate(id.as_str()).unwrap();
                        let mut p = String::from_str("index/id/");
                        p.append(join_path(&node_path).as_str());
                        let e = self.resolve_entry(&key, p);
                        let mut entries: Vec<Entry> = Vec::new();
                        entries.push(e);
                        Ok(SearchIterator { entries })
                    },
                    None => Ok(SearchIterator { entries: Vec::new() }),
                }
            },
            None => {
                if query.tags.len() > 0 {
                    // Tag search is declared in the query model but not
                    // implemented by the traversal; it yields nothing.
                    Ok(SearchIterator { entries: Vec::new() })
                } else {
                    let paths = self.chrono_trie.enumerate();
                    let ghost kl = self.chrono_trie.keys_in_order();
                    let mut entries: Vec<Entry> = Vec::new();
                    let mut t: usize = 0;
                    proof {
                        crate::trie::lemma_enumerate_exact(&self.chrono_trie);
                    }
                    while t < paths.len()
                        invariant
                            t <= paths@.len(),
                            old(self).wf(),
                            *self == *old(self),
                            paths@.len() == kl.len(),
                            kl == self.chrono_trie.keys_in_order(),
                            forall|u: int|
                                0 <= u < paths@.len() ==> path_ok(
                                    (#[trigger] paths@[u])@,
                                    kl[u],
                                ),
                            forall|k: Seq<char>|
                                #[trigger] kl.contains(k) <==> self.chrono_trie.payload_of(
                                    k,
                                ) is Some,
                            entries@.len() == t,
                            forall|u: int|
                                0 <= u < t ==> bucket_entry_ok(
                                    *self,
                                    kl[u],
                                    #[trigger] entries@[u],
                                ),
                        decreases paths@.len() - t,
                    {
                        let bucket = concat_labels(&paths[t]);
                        proof {
                            assert(path_ok(paths@[t as int]@, kl[t as int]));
                            assert(bucket@ == kl[t as int]);
                            assert(kl.contains(kl[t as int]));
                            assert(self.chrono_trie.payload_of(bucket@) is Some);
                        }
                        let key = self.chrono_trie.get_payload(bucket.as_str()).unwrap();
                        proof {
                            assert(self.chrono_payload(kl[t as int]) == Some(key@));
                            assert(self.metas_view().contains_key(key@));
                            assert(self.bodies_view().contains_key(key@));
                        }
                        let mut p = String::from_str("articles/");
                        p.append(join_path(&paths[t]).as_str());
                        let e = self.resolve_entry(&key, p);
                        entries.push(e);
                        proof {
                            assert(entries@[t as int] == e);
                            assert(bucket_entry_ok(*self, kl[t as int], e));
                        }
                        t = t + 1;
                    }
                    proof {
                        assert(old(self).chrono_buckets() == kl);
                        assert forall|u: int|
                            0 <= u < entries@.len() implies bucket_entry_ok(
                            *old(self),
                            old(self).chrono_buckets()[u],
                            #[trigger] entries@[u],
                        ) by {
                            assert(bucket_entry_ok(*self, kl[u], entries@[u]));
                        }
                    }
                    Ok(SearchIterator { entries })
                }
            },
        }
    }

    /// The first hit of `search(query)`, surfacing `NotFound` when the
    /// sequence is empty: an id query resolves the referenced article or
    /// reports `NotFound`; a tag query has no hits; the empty query
    /// returns the article of the first chronological bucket.
    pub fn first(&mut self, query: &Query) -> (r: Result<Entry, Error>)
        requires
            old(self).wf(),
        ensures
            *final(self) == *old(self),
            query@.id matches Some(idv) ==> (match old(self).id_key(idv) {
                Some(k) => r matches Ok(e) && entry_resolves(*old(self), k, e),
                None => r == Err::<Entry, Error>(Error::NotFound),
            }),
            query@.id is None && query@.tags.len() > 0 ==> r == Err::<Entry, Error>(
                Error::NotFound,
            ),
            query@.id is None && query@.tags.len() == 0 ==> (if old(
                self,
            ).chrono_buckets().len() > 0 {
                r matches Ok(e) && bucket_entry_ok(
                    *old(self),
                    old(self).chrono_buckets()[0],
                    e,
                )
            } else {
                r == Err::<Entry, Error>(Error::NotFound)
            }),
    {
        match Local::search(self, query) {
            Ok(mut it) => match it.next() {
                Some(e) => Ok(e),
                None => Err(Error::NotFound),
            },
            Err(e) => Err(e),
        }
    }

    /// Finds the stored metadata of an internal key by walking the key
    /// trie; a missing key is `NotFound`.
    pub fn load_article(&self, key: &String) -> (r: Result<Article, Error>)
        requires
            self.wf(),
        ensures
            match r {
                Ok(a) => self.key_marker(key@) is Some && self.metas_view().contains_key(key@)
                    && same_article(&a, &self.metas_view()[key@]),
                Err(e) => e == Error::NotFound && self.key_marker(key@) is None,
            },
    {
        match self.key_trie.get_payload(key.as_str()) {
            Some(_) => Ok(get_meta(&self.metas, key).unwrap()),
            None => Err(Error::NotFound),
        }
    }

    /// Finds the stored raw body of an internal key; a missing body is
    /// `NotFound`.
    pub fn load_article_body(&self, key: &String) -> (r: Result<String, Error>)
        requires
            self.wf(),
        ensures
            match r {
                Ok(b) => self.bodies_view().contains_key(key@) && b@ == self.bodies_view()[key@],
                Err(e) => e == Error::NotFound && !self.bodies_view().contains_key(key@),
            },
    {
        match get_property(&self.bodies, key) {
            Some(b) => Ok(b),
            None => Err(Error::NotFound),
        }
    }
}

/// The polymorphic index interface: one backend stores articles and
/// answers queries, with a model of what a query yields. `has_hit` says
/// whether the backend holds a hit for the query, `resolves` whether an
/// entry is the query's first hit, `search_fails` whether the backend's
/// own storage fails the query; `search` and the derived `first` are
/// held to that model.
pub trait Index: Sized {
    /// The backend's own well-formedness, preserved by every operation.
    spec fn inv(&self) -> bool;

    /// Does the backend hold a hit for the query?
    spec fn has_hit(&self, q: QueryModel) -> bool;

    /// Is `e` the entry the backend resolves as the query's first hit?
    spec fn resolves(&self, q: QueryModel, e: Entry) -> bool;

    /// Does answering the query fail on the backend's storage?
    spec fn search_fails(&self, q: QueryModel) -> bool;

    fn update(&mut self, article: &Article) -> (r: Result<Entry, Error>)
        requires
            old(self).inv(),
        ensures
            final(self).inv(),
    ;

    fn search(&mut self, query: &Query) -> (r: Result<SearchIterator, Error>)
        requires
            old(self).inv(),
        ensures
            final(self).inv(),
            *final(self) == *old(self),
            r is Err <==> old(self).search_fails(query@),
            r matches Err(e) ==> e == Error::IOError,
            r matches Ok(it) ==> ((it.entries@.len() > 0) == old(self).has_hit(query@) && (
            it.entries@.len() > 0 ==> old(self).resolves(query@, it.entries@[0]))),
    ;

    /// The first hit of `search(query)`, surfacing `NotFound` when the
    /// sequence is empty; a failing search passes its error through.
    fn first(&mut self, query: &Query) -> (r: Result<Entry, Error>)
        requires
            old(self).inv(),
        ensures
            final(self).inv(),
            *final(self) == *old(self),
            r matches Ok(e) ==> old(self).has_hit(query@) && old(self).resolves(query@, e),
            (r == Err::<Entry, Error>(Error::NotFound)) <==> (!old(self).search_fails(query@)
                && !old(self).has_hit(query@)),
            r matches Err(e) ==> (e == Error::NotFound || (e == Error::IOError && old(
                self,
            ).search_fails(query@))),
    {
        match self.search(query) {
            Ok(mut it) => match it.next() {
                Some(e) => Ok(e),
                None => Err(Error::NotFound),
            },
            Err(e) => Err(e),
        }
    }
}

impl Index for Local {
    open spec fn inv(&self) -> bool {
        self.wf()
    }

    open spec fn has_hit(&self, q: QueryModel) -> bool {
        match q.id {
            Some(idv) => self.id_key(idv) is Some,
            None => q.tags.len() == 0 && self.chrono_buckets().len() > 0,
        }
    }

    open spec fn resolves(&self, q: QueryModel, e: Entry) -> bool {
        match q.id {
            Some(idv) => match self.id_key(idv) {
                Some(k) => entry_resolves(*self, k, e),
                None => false,
            },
            None => q.tags.len() == 0 && self.chrono_buckets().len() > 0 && bucket_entry_ok(
                *self,
                self.chrono_buckets()[0],
                e,
            ),
        }
    }

    open spec fn search_fails(&self, q: QueryModel) -> bool {
        false
    }

    fn update(&mut self, article: &Article) -> (r: Result<Entry, Error>) {
        Local::update(self, article)
    }

    fn search(&mut self, query: &Query) -> (r: Result<SearchIterator, Error>) {
        Local::search(self, query)
    }
}

/// The unfinished relational backend: it accepts articles and answers
/// every query with an empty sequence.
pub struct RelationalDB {}

impl RelationalDB {
    /// Opens (models) a relational index; never fails.
    pub fn new(_path: &str) -> (r: Result<RelationalDB, Error>)
        ensures
            r is Ok,
    {
        Ok(RelationalDB {  })
    }

    /// Accepts the article and hands back its entry; the stub stores
    /// nothing.
    pub fn update(&mut self, article: &Article) -> (r: Result<Entry, Error>)
        ensures
            r matches Ok(e) && same_article(&e.article, article) && e.path@.len() == 0,
    {
        Ok(Entry { article: article.clone(), path: String::new() })
    }

    /// Every query yields the empty sequence: the relational backend is
    /// an explicitly unfinished stub.
    pub fn search(&mut self, _query: &Query) -> (r: Result<SearchIterator, Error>)
        ensures
            *final(self) == *old(self),
            r matches Ok(it) && it.entries@.len() == 0,
    {
        Ok(SearchIterator { entries: Vec::new() })
    }
}

impl Index for RelationalDB {
    open spec fn inv(&self) -> bool {
        true
    }

    open spec fn has_hit(&self, q: QueryModel) -> bool {
        false
    }

    open spec fn resolves(&self, q: QueryModel, e: Entry) -> bool {
        false
    }

    open spec fn search_fails(&self, q: QueryModel) -> bool {
        false
    }

    fn update(&mut self, article: &Article) -> (r: Result<Entry, Error>) {
        RelationalDB::update(self, article)
    }

    fn search(&mut self, query: &Query) -> (r: Result<SearchIterator, Error>) {
        RelationalDB::search(self, query)
    }
}

/// What a lookup produced: a real entry, or the path of a fallback
/// template to serve instead.
pub enum Lookup {
    Found(Entry),
    Fallback(String),
}

/// Why a lookup failed: the query did not parse, or the index refused it.
#[derive(Debug)]
pub enum LookupError {
    Parse(QueryParseError),
    Index(Error),
}

/// The fallback template path for a query with an id:
/// `templates/<id>.html.hbs`.
pub fn load_fallback(query: &Query) -> (r: Result<String, Error>)
    ensures
        match r {
            Ok(p) => query@.id matches Some(idv) && p@ == "templates/"@ + idv + ".html.hbs"@,
            Err(e) => e == Error::NotFound && query@.id is None,
        },
{
    match &query.id {
        Some(id) => {
            let mut s = String::from_str("templates/");
            s.append(id.as_str());
            s.append(".html.hbs");
            Ok(s)
        },
        None => Err(Error::NotFound),
    }
}

/// Parses a query string and asks the index for its first hit; when the
/// index has none, falls back to the template named after the id.
pub fn lookup_article<I: Index>(index: &mut I, query_str: &str) -> (r: Result<
    Lookup,
    LookupError,
>)
    requires
        old(index).inv(),
    ensures
        final(index).inv(),
        (r matches Err(LookupError::Parse(e)) ==> parse_spec(query_str@) == Err::<
            QueryModel,
            QueryParseError,
        >(e)),
        (!(r matches Err(LookupError::Parse(_))) ==> parse_spec(query_str@) is Ok),
        (r matches Ok(Lookup::Fallback(p)) ==> parse_spec(query_str@) matches Ok(m) && m.id
            matches Some(idv) && p@ == "templates/"@ + idv + ".html.hbs"@),
        // A `NotFound` passes through only when no fallback exists, that
        // is, when the parsed query has no id.
        (r matches Err(LookupError::Index(e)) && e == Error::NotFound ==> (parse_spec(
            query_str@,
        ) matches Ok(m) && m.id is None)),
        // A found entry is the backend's first hit; the fallback is taken
        // exactly when the backend holds no hit and did not fail; any
        // other backend error passes through unchanged.
        (parse_spec(query_str@) matches Ok(m) ==> {
            &&& (r matches Ok(Lookup::Found(e)) ==> old(index).has_hit(m) && old(
                index,
            ).resolves(m, e))
            &&& (r matches Ok(Lookup::Fallback(p)) ==> !old(index).search_fails(m) && !old(
                index,
            ).has_hit(m))
            &&& (r matches Err(LookupError::Index(e)) ==> ((e == Error::NotFound && !old(
                index,
            ).search_fails(m) && !old(index).has_hit(m) && m.id is None) || (e == Error::IOError
                && old(index).search_fails(m))))
        }),
{
    let query = match Query::parse(query_str) {
        Ok(q) => q,
        Err(e) => {
            return Err(LookupError::Parse(e));
        },
    };
    match index.first(&query) {
        Ok(entry) => Ok(Lookup::Found(entry)),
        Err(e) => {
            if e == Error::NotFound {
                match load_fallback(&query) {
                    Ok(p) => Ok(Lookup::Fallback(p)),
                    Err(e2) => Err(LookupError::Index(e2)),
                }
            } else {
                Err(LookupError::Index(e))
            }
        },
    }
}

/// What the empty query walks is exactly the stored articles: the
/// chronological buckets a search visits are exactly the buckets holding
/// a back-reference, each exactly once, in increasing bucket order.
pub proof fn lemma_chrono_buckets_exact(l: &Local)
    requires
        l.wf(),
    ensures
        forall|b: Seq<char>|
            #[trigger] l.chrono_buckets().contains(b) <==> l.chrono_payload(b) is Some,
        forall|i: int, j: int|
            0 <= i < j < l.chrono_buckets().len() ==> #[trigger] l.chrono_buckets()[i]
                != #[trigger] l.chrono_buckets()[j],
        forall|i: int, j: int|
            0 <= i < j < l.chrono_buckets().len() ==> crate::trie::lex_lt(
                #[trigger] l.chrono_buckets()[i],
                #[trigger] l.chrono_buckets()[j],
            ),
{
    crate::trie::lemma_enumerate_exact(&l.chrono_trie);
    crate::trie::lemma_enumerate_sorted(&l.chrono_trie);
}

/// The bucket `b` holds a back-reference whose entry `e` resolves.
pub open spec fn bucket_entry_ok(l: Local, b: Seq<char>, e: Entry) -> bool {
    match l.chrono_payload(b) {
        Some(k) => entry_resolves(l, k, e),
        None => false,
    }
}

/// The entry for `k` reconstructs the stored metadata of `k` with the
/// stored raw body filled in.
pub open spec fn entry_resolves(l: Local, k: Seq<char>, e: Entry) -> bool {
    &&& l.metas_view().contains_key(k)
    &&& l.bodies_view().contains_key(k)
    &&& ({
        let m = l.metas_view()[k];
        &&& e.article.key@ == m.key@
        &&& e.article.id@ == m.id@
        &&& e.article.title@ == m.title@
        &&& e.article.properties@.map_values(|p: (String, String)| (p.0@, p.1@))
            == m.properties@.map_values(|p: (String, String)| (p.0@, p.1@))
        &&& e.article.tags@.map_values(|t: String| t@) == m.tags@.map_values(|t: String| t@)
        &&& e.article.created == m.created
    })
    &&& e.article.body@ == l.bodies_view()[k]
}

} // verus!
