//! The compressed prefix trie that backs every index.
//!
//! A `TrieStore` models a directory tree: every node is a directory whose
//! name is the node's edge label, and a node may carry a payload (a marker
//! file with a back-reference). Sibling labels never share a first
//! character, so descent by longest common prefix is deterministic, and
//! siblings are kept sorted by that first character.

use vstd::prelude::*;

use crate::prefix::{common_prefix, lcp_len, lemma_lcp_len};

verus! {

pub struct Node {
    pub(crate) label: String,
    pub(crate) payload: Option<String>,
    pub(crate) children: Vec<Node>,
}

/// A directory-backed compressed prefix trie.
pub struct TrieStore {
    pub(crate) roots: Vec<Node>,
}

/// The error taxonomy of the index core.
#[derive(Clone, Copy, Debug, PartialEq, Eq, Structural)]
pub enum Error {
    /// No entry matches the query.
    NotFound,
    /// The inserted key's full path already exists in the trie.
    Conflict,
    /// An underlying filesystem failure, reported by the unverified shell.
    IOError,
    /// An empty key or label was about to enter the trie.
    InvariantViolation,
}

/// Does `k` begin with the first character of `n`'s label? Since sibling
/// labels have pairwise distinct first characters, this selects the only
/// sibling that can be related to `k`.
pub(crate) open spec fn sel(n: Node, k: Seq<char>) -> bool {
    k.len() > 0 && n.label@.len() > 0 && k[0] == n.label@[0]
}

/// Sibling labels are sorted by (strictly increasing) first character.
pub(crate) open spec fn sorted_heads(cs: Seq<Node>) -> bool {
    forall|i: int, j: int|
        0 <= i < j < cs.len() ==> (#[trigger] cs[i].label@[0] as u32)
            < (#[trigger] cs[j].label@[0] as u32)
}

/// Well-formedness of a node: a non-empty edge label and a well-formed
/// subtree.
pub(crate) open spec fn node_wf(n: Node) -> bool
    decreases n,
{
    n.label@.len() > 0 && forest_wf(n.children@)
}

/// Well-formedness of a sibling list: every sibling is well-formed and the
/// labels are sorted by strictly increasing first character, which is
/// exactly the prefix-free-sibling invariant.
pub(crate) open spec fn forest_wf(cs: Seq<Node>) -> bool
    decreases cs,
{
    (forall|i: int| 0 <= i < cs.len() ==> node_wf(#[trigger] cs[i])) && sorted_heads(cs)
}

/// Is `k` the concatenation of edge labels along some root-to-node chain of
/// node `n`'s subtree (starting with `n`'s own label)?
pub(crate) open spec fn node_chain(n: Node, k: Seq<char>) -> bool
    decreases n,
{
    let lab = n.label@;
    k.len() >= lab.len() && k.take(lab.len() as int) == lab && (k.len() == lab.len()
        || forest_chain(n.children@, k.skip(lab.len() as int)))
}

/// Is `k` the concatenation of edge labels along some chain of the forest?
pub(crate) open spec fn forest_chain(cs: Seq<Node>, k: Seq<char>) -> bool
    decreases cs,
{
    if cs.len() == 0 {
        false
    } else if sel(cs[0], k) {
        node_chain(cs[0], k)
    } else {
        forest_chain(cs.subrange(1, cs.len() as int), k)
    }
}

/// The payload stored at the node whose chain is `k` inside `n`'s subtree.
pub(crate) open spec fn node_payload(n: Node, k: Seq<char>) -> Option<Seq<char>>
    decreases n,
{
    let lab = n.label@;
    if k.len() >= lab.len() && k.take(lab.len() as int) == lab {
        if k.len() == lab.len() {
            match n.payload {
                Some(p) => Some(p@),
                None => None,
            }
        } else {
            forest_payload(n.children@, k.skip(lab.len() as int))
        }
    } else {
        None
    }
}

/// The payload stored at the node whose chain is `k` inside the forest.
pub(crate) open spec fn forest_payload(cs: Seq<Node>, k: Seq<char>) -> Option<Seq<char>>
    decreases cs,
{
    if cs.len() == 0 {
        None
    } else if sel(cs[0], k) {
        node_payload(cs[0], k)
    } else {
        forest_payload(cs.subrange(1, cs.len() as int), k)
    }
}

/// Concatenation of a sequence of labels.
pub open spec fn cat_labels(p: Seq<Seq<char>>) -> Seq<char>
    decreases p,
{
    if p.len() == 0 {
        Seq::empty()
    } else {
        p[0] + cat_labels(p.subrange(1, p.len() as int))
    }
}

/// `k` is a (not necessarily proper) prefix of `w`.
pub open spec fn is_prefix_of(k: Seq<char>, w: Seq<char>) -> bool {
    k.len() <= w.len() && w.take(k.len() as int) == k
}

/// If the sibling at position `i` is selected for `k` and no earlier
/// sibling is, then the forest answers for `k` exactly as that sibling does.
pub(crate) proof fn lemma_sel_at(cs: Seq<Node>, i: int, k: Seq<char>)
    requires
        0 <= i < cs.len(),
        sel(cs[i], k),
        forall|j: int| 0 <= j < i ==> !sel(#[trigger] cs[j], k),
    ensures
        forest_chain(cs, k) == node_chain(cs[i], k),
        forest_payload(cs, k) == node_payload(cs[i], k),
    decreases cs.len(),
{
    if i == 0 {
    } else {
        let tail = cs.subrange(1, cs.len() as int);
        assert(!sel(cs[0], k));
        assert forall|j: int| 0 <= j < i - 1 implies !sel(#[trigger] tail[j], k) by {
            assert(tail[j] == cs[j + 1]);
        }
        lemma_sel_at(tail, i - 1, k);
    }
}

/// If no sibling is selected for `k`, the forest holds no chain and no
/// payload for `k`.
pub(crate) proof fn lemma_no_sel(cs: Seq<Node>, k: Seq<char>)
    requires
        forall|j: int| 0 <= j < cs.len() ==> !sel(#[trigger] cs[j], k),
    ensures
        !forest_chain(cs, k),
        forest_payload(cs, k) is None,
    decreases cs.len(),
{
    if cs.len() > 0 {
        let tail = cs.subrange(1, cs.len() as int);
        assert forall|j: int| 0 <= j < tail.len() implies !sel(#[trigger] tail[j], k) by {
            assert(tail[j] == cs[j + 1]);
        }
        lemma_no_sel(tail, k);
    }
}

/// Positions that are not selected for `k` may change freely without
/// affecting the forest's answer for `k`.
pub(crate) proof fn lemma_frame(cs1: Seq<Node>, cs2: Seq<Node>, k: Seq<char>)
    requires
        cs1.len() == cs2.len(),
        forall|j: int|
            0 <= j < cs1.len() ==> (#[trigger] cs2[j]) == cs1[j] || (!sel(cs1[j], k) && !sel(
                cs2[j],
                k,
            )),
    ensures
        forest_chain(cs2, k) == forest_chain(cs1, k),
        forest_payload(cs2, k) == forest_payload(cs1, k),
    decreases cs1.len(),
{
    if cs1.len() > 0 {
        let t1 = cs1.subrange(1, cs1.len() as int);
        let t2 = cs2.subrange(1, cs2.len() as int);
        assert forall|j: int|
            0 <= j < t1.len() implies (#[trigger] t2[j]) == t1[j] || (!sel(t1[j], k) && !sel(
            t2[j],
            k,
        )) by {
            assert(t1[j] == cs1[j + 1]);
            assert(t2[j] == cs2[j + 1]);
        }
        lemma_frame(t1, t2, k);
        assert(cs2[0] == cs1[0] || (!sel(cs1[0], k) && !sel(cs2[0], k)));
    }
}

/// Inserting a sibling `n` at position `pos`: keys not selected by `n` are
/// unaffected; keys selected by `n` alone are answered by `n`.
pub(crate) proof fn lemma_insert_sib(cs: Seq<Node>, pos: int, n: Node, k: Seq<char>)
    requires
        0 <= pos <= cs.len(),
    ensures
        !sel(n, k) ==> forest_chain(cs.insert(pos, n), k) == forest_chain(cs, k)
            && forest_payload(cs.insert(pos, n), k) == forest_payload(cs, k),
        sel(n, k) && (forall|j: int| 0 <= j < cs.len() ==> !sel(#[trigger] cs[j], k)) ==> (
        forest_chain(cs.insert(pos, n), k) == node_chain(n, k) && forest_payload(
            cs.insert(pos, n),
            k,
        ) == node_payload(n, k)),
    decreases cs.len(),
{
    let cs2 = cs.insert(pos, n);
    if sel(n, k) && (forall|j: int| 0 <= j < cs.len() ==> !sel(#[trigger] cs[j], k)) {
        assert forall|j: int| 0 <= j < pos implies !sel(#[trigger] cs2[j], k) by {
            assert(cs2[j] == cs[j]);
        }
        assert(cs2[pos] == n);
        lemma_sel_at(cs2, pos, k);
    }
    if !sel(n, k) {
        if cs.len() == 0 {
            assert(cs2.len() == 1 && cs2[0] == n);
            let t2 = cs2.subrange(1, 1);
            assert(t2.len() == 0);
            assert(forest_chain(cs2, k) == forest_chain(t2, k));
            assert(forest_payload(cs2, k) == forest_payload(t2, k));
        } else if pos == 0 {
            assert(cs2[0] == n);
            let t2 = cs2.subrange(1, cs2.len() as int);
            assert(t2 =~= cs);
            assert(forest_chain(cs2, k) == forest_chain(t2, k));
            assert(forest_payload(cs2, k) == forest_payload(t2, k));
        } else {
            assert(cs2[0] == cs[0]);
            let t1 = cs.subrange(1, cs.len() as int);
            let t2 = cs2.subrange(1, cs2.len() as int);
            assert(t2 =~= t1.insert(pos - 1, n));
            lemma_insert_sib(t1, pos - 1, n, k);
            if sel(cs[0], k) {
                assert(forest_chain(cs2, k) == node_chain(cs2[0], k));
                assert(forest_payload(cs2, k) == node_payload(cs2[0], k));
            } else {
                assert(forest_chain(cs2, k) == forest_chain(t2, k));
                assert(forest_payload(cs2, k) == forest_payload(t2, k));
                assert(forest_chain(cs, k) == forest_chain(t1, k));
                assert(forest_payload(cs, k) == forest_payload(t1, k));
            }
        }
    }
}

/// Replacing the sibling at `i` by one with the same first character and a
/// well-formed subtree preserves well-formedness.
pub(crate) proof fn lemma_wf_update(cs: Seq<Node>, i: int, n: Node)
    requires
        forest_wf(cs),
        0 <= i < cs.len(),
        node_wf(n),
        n.label@[0] == cs[i].label@[0],
    ensures
        forest_wf(cs.update(i, n)),
{
    let cs2 = cs.update(i, n);
    assert forall|j: int| 0 <= j < cs2.len() implies node_wf(#[trigger] cs2[j]) by {
        if j != i {
            assert(cs2[j] == cs[j]);
        }
    }
    assert forall|p: int, q: int|
        0 <= p < q < cs2.len() implies (#[trigger] cs2[p].label@[0] as u32)
        < (#[trigger] cs2[q].label@[0] as u32) by {
        assert((cs[p].label@[0] as u32) < (cs[q].label@[0] as u32));
        if p != i {
            assert(cs2[p] == cs[p]);
        }
        if q != i {
            assert(cs2[q] == cs[q]);
        }
    }
}

/// Inserting a well-formed sibling at its sorted position preserves
/// well-formedness.
pub(crate) proof fn lemma_wf_insert(cs: Seq<Node>, pos: int, n: Node)
    requires
        forest_wf(cs),
        0 <= pos <= cs.len(),
        node_wf(n),
        forall|j: int| 0 <= j < pos ==> (#[trigger] cs[j].label@[0] as u32) < (n.label@[0] as u32),
        forall|j: int|
            pos <= j < cs.len() ==> (n.label@[0] as u32) < (#[trigger] cs[j].label@[0] as u32),
    ensures
        forest_wf(cs.insert(pos, n)),
{
    let cs2 = cs.insert(pos, n);
    assert forall|j: int| 0 <= j < cs2.len() implies node_wf(#[trigger] cs2[j]) by {
        if j < pos {
            assert(cs2[j] == cs[j]);
        } else if j == pos {
            assert(cs2[j] == n);
        } else {
            assert(cs2[j] == cs[j - 1]);
        }
    }
    assert forall|p: int, q: int|
        0 <= p < q < cs2.len() implies (#[trigger] cs2[p].label@[0] as u32)
        < (#[trigger] cs2[q].label@[0] as u32) by {
        if p < pos {
            assert(cs2[p] == cs[p]);
        } else if p == pos {
            assert(cs2[p] == n);
        } else {
            assert(cs2[p] == cs[p - 1]);
        }
        if q < pos {
            assert(cs2[q] == cs[q]);
        } else if q == pos {
            assert(cs2[q] == n);
        } else {
            assert(cs2[q] == cs[q - 1]);
        }
    }
}

/// A chain is never empty.
pub(crate) proof fn lemma_chain_nonempty(cs: Seq<Node>, c: Seq<char>)
    requires
        forest_chain(cs, c),
    ensures
        c.len() > 0,
    decreases cs,
{
    if cs.len() > 0 && !sel(cs[0], c) {
        lemma_chain_nonempty(cs.subrange(1, cs.len() as int), c);
    }
}

/// A chain starts with some sibling's first label character.
pub(crate) proof fn lemma_chain_head(cs: Seq<Node>, c: Seq<char>)
    requires
        forest_chain(cs, c),
    ensures
        c.len() > 0,
        exists|i: int| 0 <= i < cs.len() && c[0] == (#[trigger] cs[i].label@[0]),
    decreases cs,
{
    lemma_chain_nonempty(cs, c);
    if sel(cs[0], c) {
        assert(c[0] == cs[0].label@[0]);
    } else {
        let t = cs.subrange(1, cs.len() as int);
        lemma_chain_head(t, c);
        let i = choose|i: int| 0 <= i < t.len() && c[0] == (#[trigger] t[i].label@[0]);
        assert(t[i] == cs[i + 1]);
        assert(c[0] == cs[i + 1].label@[0]);
    }
}

/// Every sibling's own label is a chain.
pub(crate) proof fn lemma_label_chain(cs: Seq<Node>, i: int)
    requires
        forest_wf(cs),
        0 <= i < cs.len(),
    ensures
        forest_chain(cs, cs[i].label@),
{
    let lab = cs[i].label@;
    assert(node_wf(cs[i]));
    assert(sel(cs[i], lab));
    lemma_sel_at_ro(cs, i, lab);
    assert(node_chain(cs[i], lab)) by {
        assert(lab.take(lab.len() as int) =~= lab);
    }
}

/// A chain of a sibling's subtree, with that sibling's label in front, is
/// a chain of the forest.
pub(crate) proof fn lemma_chain_lift(cs: Seq<Node>, i: int, c2: Seq<char>)
    requires
        forest_wf(cs),
        0 <= i < cs.len(),
        forest_chain(cs[i].children@, c2),
    ensures
        forest_chain(cs, cs[i].label@ + c2),
{
    let lab = cs[i].label@;
    let c = lab + c2;
    assert(node_wf(cs[i]));
    lemma_chain_nonempty(cs[i].children@, c2);
    assert(c.take(lab.len() as int) =~= lab);
    assert(c.skip(lab.len() as int) =~= c2);
    assert(node_chain(cs[i], c));
    assert(sel(cs[i], c)) by {
        assert(c[0] == lab[0]);
    }
    lemma_sel_at_ro(cs, i, c);
}

/// The chains gained by inserting `key`: exactly the key's own chain and
/// one further chain `q`, the split point. `q` is pinned: it is a prefix
/// of some existing chain unless it is the key itself, no existing chain
/// shares a longer prefix with the key, and it is the key itself only
/// when no chain shares the key's first character or some chain extends
/// the whole key.
pub(crate) open spec fn ins_chain_delta(
    cs1: Seq<Node>,
    cs2: Seq<Node>,
    key: Seq<char>,
    q: Seq<char>,
) -> bool {
    &&& is_prefix_of(q, key)
    &&& q.len() > 0
    &&& ((forall|j: int| 0 <= j < cs1.len() ==> (#[trigger] cs1[j].label@[0]) != key[0]) ==> q
        == key)
    &&& (q == key || (exists|c: Seq<char>|
        #[trigger] forest_chain(cs1, c) && is_prefix_of(q, c)))
    &&& (forall|c: Seq<char>, n: int|
        #![trigger forest_chain(cs1, c), c.take(n)]
        forest_chain(cs1, c) && 0 <= n <= c.len() && n <= key.len() && c.take(n) == key.take(n)
            ==> n <= q.len())
    &&& (q == key ==> (forall|c: Seq<char>|
        #[trigger] forest_chain(cs1, c) ==> c.len() == 0 || c[0] != key[0]) || (exists|
        c: Seq<char>,
    |
        #[trigger] forest_chain(cs1, c) && is_prefix_of(key, c)))
    &&& forall|k: Seq<char>|
        #[trigger] forest_chain(cs2, k) <==> (forest_chain(cs1, k) || k == key || k == q)
}

/// What a successful insertion of `key` with payload `pl` does to the
/// model of a sibling forest: the payload map gains exactly `key`, every
/// old chain survives, and the chain set grows by exactly the key and
/// one split point.
pub(crate) open spec fn ins_post(
    cs1: Seq<Node>,
    cs2: Seq<Node>,
    key: Seq<char>,
    pl: Seq<char>,
) -> bool {
    &&& forest_wf(cs2)
    &&& !forest_chain(cs1, key)
    &&& forest_chain(cs2, key)
    &&& forall|k: Seq<char>|
        #[trigger] forest_payload(cs2, k) == if k == key {
            Some(pl)
        } else {
            forest_payload(cs1, k)
        }
    &&& forall|k: Seq<char>| forest_chain(cs1, k) ==> #[trigger] forest_chain(cs2, k)
    &&& forall|k: Seq<char>|
        #[trigger] forest_chain(cs2, k) ==> forest_chain(cs1, k) || is_prefix_of(k, key)
    &&& exists|q: Seq<char>| ins_chain_delta(cs1, cs2, key, q)
}

/// Two forests with the same chains and payloads.
pub(crate) open spec fn model_eq(cs1: Seq<Node>, cs2: Seq<Node>) -> bool {
    &&& forall|k: Seq<char>| #[trigger] forest_chain(cs2, k) == forest_chain(cs1, k)
    &&& forall|k: Seq<char>| #[trigger] forest_payload(cs2, k) == forest_payload(cs1, k)
}

/// A node path: non-empty labels whose concatenation is `key`.
pub open spec fn path_ok(p: Seq<String>, key: Seq<char>) -> bool {
    &&& cat_labels(p.map_values(|s: String| s@)) == key
    &&& forall|i: int| 0 <= i < p.len() ==> (#[trigger] p[i])@.len() > 0
}

/// A one-node forest answers exactly as that node, when selected.
pub(crate) proof fn lemma_singleton(n: Node, k: Seq<char>)
    ensures
        forest_chain(seq![n], k) == (sel(n, k) && node_chain(n, k)),
        forest_payload(seq![n], k) == if sel(n, k) {
            node_payload(n, k)
        } else {
            None::<Seq<char>>
        },
{
    let cs = seq![n];
    assert(cs[0] == n);
    if !sel(n, k) {
        let t = cs.subrange(1, 1);
        assert(t.len() == 0);
        assert(forest_chain(cs, k) == forest_chain(t, k));
        assert(forest_payload(cs, k) == forest_payload(t, k));
        assert(!forest_chain(t, k));
        assert(forest_payload(t, k) is None);
    } else {
        assert(forest_chain(cs, k) == node_chain(cs[0], k));
        assert(forest_payload(cs, k) == node_payload(cs[0], k));
    }
}

/// A node whose label does not begin with `pre` holds nothing for keys
/// that extend `pre`, and conversely nothing for keys that do not.
pub(crate) proof fn lemma_not_prefixed(child: Node, pre: Seq<char>, w: Seq<char>)
    requires
        pre.len() <= child.label@.len(),
        child.label@.take(pre.len() as int) == pre,
        !is_prefix_of(pre, w),
    ensures
        node_payload(child, w) is None,
        !node_chain(child, w),
{
    let lab = child.label@;
    if w.len() >= lab.len() && w.take(lab.len() as int) == lab {
        assert(w.take(pre.len() as int) =~= pre) by {
            assert forall|j: int| 0 <= j < pre.len() implies w.take(pre.len() as int)[j] == pre[j]
            by {
                assert(w.take(lab.len() as int)[j] == lab[j]);
            }
        }
        assert(false);
    }
}

/// Splitting a node's label as `pre + suf` and re-rooting it under the cut:
/// the re-rooted node answers for `k` exactly as the whole node does for
/// `pre + k`.
pub(crate) proof fn lemma_reroot(child: Node, moved: Node, pre: Seq<char>, k: Seq<char>)
    requires
        child.label@ == pre + moved.label@,
        pre.len() > 0,
        moved.label@.len() > 0,
        moved.payload == child.payload,
        moved.children == child.children,
    ensures
        node_payload(child, pre + k) == if sel(moved, k) {
            node_payload(moved, k)
        } else {
            None::<Seq<char>>
        },
        node_chain(child, pre + k) == (sel(moved, k) && node_chain(moved, k)),
{
    let lab = child.label@;
    let suf = moved.label@;
    let w = pre + k;
    if k.len() == 0 {
        assert(w.len() < lab.len());
    } else if k[0] != suf[0] {
        if w.len() >= lab.len() && w.take(lab.len() as int) == lab {
            assert(w.take(lab.len() as int)[pre.len() as int] == lab[pre.len() as int]);
            assert(w[pre.len() as int] == k[0]);
            assert(lab[pre.len() as int] == suf[0]);
            assert(false);
        }
    } else {
        if k.len() < suf.len() {
            assert(w.len() < lab.len());
            assert(node_payload(moved, k) is None && !node_chain(moved, k));
        } else {
            assert(w.len() >= lab.len());
            assert(w.take(lab.len() as int) =~= pre + k.take(suf.len() as int));
            if k.take(suf.len() as int) == suf {
                assert(w.take(lab.len() as int) =~= lab);
                if k.len() == suf.len() {
                    assert(w.len() == lab.len());
                } else {
                    assert(w.len() > lab.len());
                    assert(w.skip(lab.len() as int) =~= k.skip(suf.len() as int));
                }
            } else {
                assert(w.take(lab.len() as int) != lab) by {
                    if w.take(lab.len() as int) == lab {
                        assert(k.take(suf.len() as int) =~= suf) by {
                            assert forall|j: int|
                                0 <= j < suf.len() implies k.take(suf.len() as int)[j] == suf[j]
                            by {
                                assert((pre + k.take(suf.len() as int))[pre.len() + j] == lab[
                                    pre.len() + j]);
                            }
                        }
                    }
                }
            }
        }
    }
}

/// In a well-formed forest, the sibling at `i` (once selected for `k`)
/// decides the forest's answer, before and after it is replaced by a node
/// with the same first character.
pub(crate) proof fn lemma_sel_update(cs: Seq<Node>, i: int, n2: Node, k: Seq<char>)
    requires
        forest_wf(cs),
        0 <= i < cs.len(),
        n2.label@.len() > 0,
        n2.label@[0] == cs[i].label@[0],
        sel(cs[i], k),
    ensures
        forest_chain(cs, k) == node_chain(cs[i], k),
        forest_payload(cs, k) == node_payload(cs[i], k),
        forest_chain(cs.update(i, n2), k) == node_chain(n2, k),
        forest_payload(cs.update(i, n2), k) == node_payload(n2, k),
{
    let cs2 = cs.update(i, n2);
    assert forall|j: int| 0 <= j < i implies !sel(#[trigger] cs[j], k) by {
        assert((cs[j].label@[0] as u32) < (cs[i].label@[0] as u32));
    }
    lemma_sel_at(cs, i, k);
    assert forall|j: int| 0 <= j < i implies !sel(#[trigger] cs2[j], k) by {
        assert(cs2[j] == cs[j]);
        assert((cs[j].label@[0] as u32) < (cs[i].label@[0] as u32));
    }
    assert(cs2[i] == n2);
    lemma_sel_at(cs2, i, k);
}

/// Replacing the sibling at `i` by one with the same head character leaves
/// every key that does not select it untouched.
pub(crate) proof fn lemma_unsel_update(cs: Seq<Node>, i: int, n2: Node, k: Seq<char>)
    requires
        0 <= i < cs.len(),
        cs[i].label@.len() > 0,
        n2.label@.len() > 0,
        n2.label@[0] == cs[i].label@[0],
        !sel(cs[i], k),
    ensures
        forest_chain(cs.update(i, n2), k) == forest_chain(cs, k),
        forest_payload(cs.update(i, n2), k) == forest_payload(cs, k),
{
    let cs2 = cs.update(i, n2);
    assert(cs2[i] == n2);
    assert(!sel(cs2[i], k));
    assert forall|j: int|
        0 <= j < cs.len() implies (#[trigger] cs2[j]) == cs[j] || (!sel(cs[j], k) && !sel(
        cs2[j],
        k,
    )) by {
        if j != i {
            assert(cs2[j] == cs[j]);
        }
    }
    lemma_frame(cs, cs2, k);
}

/// A key equal to `lab + rem` is the same thing as a key that extends the
/// label `lab` by exactly `rem`.
pub(crate) proof fn lemma_key_decompose(lab: Seq<char>, rem: Seq<char>, k: Seq<char>)
    ensures
        (k.len() >= lab.len() && k.take(lab.len() as int) == lab && k.skip(lab.len() as int)
            == rem) <==> k == lab + rem,
{
    if k.len() >= lab.len() && k.take(lab.len() as int) == lab && k.skip(lab.len() as int)
        == rem {
        assert(k =~= lab + rem);
    }
    if k == lab + rem {
        assert(k.take(lab.len() as int) =~= lab);
        assert(k.skip(lab.len() as int) =~= rem);
    }
}

/// A key that extends `lab` by a prefix of `rem` is a prefix of
/// `lab + rem`.
pub(crate) proof fn lemma_prefix_lift(lab: Seq<char>, rem: Seq<char>, k: Seq<char>)
    requires
        k.len() >= lab.len(),
        k.take(lab.len() as int) == lab,
        is_prefix_of(k.skip(lab.len() as int), rem),
    ensures
        is_prefix_of(k, lab + rem),
{
    let key = lab + rem;
    let k2 = k.skip(lab.len() as int);
    assert(key.take(k.len() as int) =~= k) by {
        assert forall|j: int| 0 <= j < k.len() implies key.take(k.len() as int)[j] == k[j] by {
            if j < lab.len() {
                assert(k.take(lab.len() as int)[j] == lab[j]);
            } else {
                assert(rem.take(k2.len() as int)[j - lab.len()] == k2[j - lab.len()]);
            }
        }
    }
}

/// Descending into the selected child: if inserting the key's remainder
/// into the child's subtree behaves like an insertion, then replacing the
/// child by the updated one behaves like inserting the whole key.
pub(crate) proof fn lemma_descend_ok(
    cs: Seq<Node>,
    i: int,
    child2: Node,
    key: Seq<char>,
    pl: Seq<char>,
)
    requires
        forest_wf(cs),
        0 <= i < cs.len(),
        child2.label == cs[i].label,
        child2.payload == cs[i].payload,
        key.len() > cs[i].label@.len(),
        key.take(cs[i].label@.len() as int) == cs[i].label@,
        ins_post(cs[i].children@, child2.children@, key.skip(cs[i].label@.len() as int), pl),
    ensures
        ins_post(cs, cs.update(i, child2), key, pl),
{
    let child = cs[i];
    let lab = child.label@;
    let n = lab.len() as int;
    let rem = key.skip(n);
    let cs2 = cs.update(i, child2);
    assert(node_wf(child) && lab.len() > 0);
    assert(node_wf(child2));
    lemma_wf_update(cs, i, child2);
    assert(key[0] == lab[0]) by {
        assert(key.take(n)[0] == lab[0]);
    }
    assert(sel(child, key));
    lemma_sel_update(cs, i, child2, key);
    lemma_key_decompose(lab, rem, key);
    assert(!node_chain(child, key));
    assert(node_chain(child2, key));
    let qsub = choose|q: Seq<char>| ins_chain_delta(cs[i].children@, child2.children@, rem, q);
    let qw = lab + qsub;
    assert(is_prefix_of(qw, key)) by {
        assert(qw.take(lab.len() as int) =~= lab);
        assert(qw.skip(lab.len() as int) =~= qsub);
        lemma_prefix_lift(lab, rem, qw);
        assert(lab + rem =~= key);
    }
    assert(qw[0] == lab[0]);
    assert forall|k: Seq<char>|
        #![trigger forest_payload(cs2, k)]
        #![trigger forest_chain(cs2, k)]
        forest_payload(cs2, k) == (if k == key {
            Some(pl)
        } else {
            forest_payload(cs, k)
        }) && (forest_chain(cs, k) ==> forest_chain(cs2, k)) && (forest_chain(cs2, k)
        ==> forest_chain(cs, k) || is_prefix_of(k, key)) && (forest_chain(cs2, k) <==> (
    forest_chain(cs, k) || k == key || k == qw)) by {
        lemma_key_decompose(lab, qsub, k);
        if sel(child, k) {
            lemma_sel_update(cs, i, child2, k);
            assert(forest_payload(cs, k) == node_payload(child, k));
            assert(forest_payload(cs2, k) == node_payload(child2, k));
            assert(forest_chain(cs, k) == node_chain(child, k));
            assert(forest_chain(cs2, k) == node_chain(child2, k));
            if k.len() >= lab.len() && k.take(n) == lab {
                if k.len() == lab.len() {
                    assert(k != key);
                    assert(node_payload(child2, k) == node_payload(child, k));
                    assert(node_chain(child2, k) == node_chain(child, k));
                } else {
                    let k2 = k.skip(n);
                    lemma_key_decompose(lab, rem, k);
                    assert(node_payload(child, k) == forest_payload(child.children@, k2));
                    assert(node_payload(child2, k) == forest_payload(child2.children@, k2));
                    assert(node_chain(child, k) == forest_chain(child.children@, k2));
                    assert(node_chain(child2, k) == forest_chain(child2.children@, k2));
                    assert(forest_payload(child2.children@, k2) == (if k2 == rem {
                        Some(pl)
                    } else {
                        forest_payload(child.children@, k2)
                    }));
                    if k2 == rem {
                        assert(k == lab + rem);
                        assert(k == key) by {
                            lemma_key_decompose(lab, rem, key);
                        }
                    } else {
                        assert(k != key);
                    }
                    if forest_chain(child.children@, k2) {
                        assert(forest_chain(child2.children@, k2));
                    }
                    if forest_chain(child2.children@, k2) && !forest_chain(
                        child.children@,
                        k2,
                    ) {
                        assert(is_prefix_of(k2, rem));
                        lemma_prefix_lift(lab, rem, k);
                        assert(lab + rem =~= key);
                    }
                    assert(forest_chain(child2.children@, k2) <==> (forest_chain(
                        child.children@,
                        k2,
                    ) || k2 == rem || k2 == qsub));
                    assert(k2 == qsub <==> k == qw);
                }
            } else {
                assert(node_payload(child, k) is None && node_payload(child2, k) is None);
                assert(!node_chain(child, k) && !node_chain(child2, k));
                assert(k != key);
                assert(k != qw) by {
                    if k == qw {
                        assert(k.take(lab.len() as int) =~= lab);
                    }
                }
            }
        } else {
            lemma_unsel_update(cs, i, child2, k);
            assert(k != key);
            assert(k != qw);
        }
    }
    assert(!(forall|j: int| 0 <= j < cs.len() ==> (#[trigger] cs[j].label@[0]) != key[0]))
        by {
        assert(cs[i].label@[0] == key[0]);
    }
    lemma_label_chain(cs, i);
    let noshare = (forall|c: Seq<char>|
        #[trigger] forest_chain(child.children@, c) ==> c.len() == 0 || c[0] != rem[0]);
    if qsub == rem && noshare {
        // The subtree held nothing sharing the remainder: only the key's
        // chain is new, and the split point is the consumed label itself,
        // an existing chain.
        let qv = lab;
        assert(qw == key) by {
            assert(lab + rem =~= key);
        }
        assert forall|k: Seq<char>|
            #[trigger] forest_chain(cs2, k) <==> (forest_chain(cs, k) || k == key || k == qv)
        by {
            assert(forest_chain(cs2, k) <==> (forest_chain(cs, k) || k == key || k == qw));
            if k == qv {
                assert(forest_chain(cs, lab));
            }
        }
        assert(is_prefix_of(qv, lab)) by {
            assert(lab.take(lab.len() as int) =~= lab);
        }
        assert(forest_chain(cs, lab) && is_prefix_of(qv, lab));
        assert(qv != key) by {
            assert(key.len() > lab.len());
        }
        assert forall|c: Seq<char>, m: int|
            #![trigger forest_chain(cs, c), c.take(m)]
            forest_chain(cs, c) && 0 <= m <= c.len() && m <= key.len() && c.take(m) == key.take(
                m,
            ) implies m <= qv.len() by {
            if m > lab.len() {
                assert(c.take(m)[0] == key.take(m)[0]);
                assert(c[0] == key[0]);
                assert(sel(cs[i], c));
                lemma_sel_at_ro(cs, i, c);
                assert(node_chain(cs[i], c));
                let c2 = c.skip(n);
                assert(forest_chain(child.children@, c2));
                assert(c2.len() > 0);
                assert(c2[0] == c[n]);
                assert(c[n] == key[n]) by {
                    assert(c.take(m)[n] == key.take(m)[n]);
                }
                assert(key[n] == rem[0]);
                assert(c2.len() == 0 || c2[0] != rem[0]);
                assert(false);
            }
        }
        assert(ins_chain_delta(cs, cs2, key, qv));
    } else {
        if qw != key {
            assert(qsub != rem) by {
                if qsub == rem {
                    assert(lab + rem =~= key);
                }
            }
            // The subtree's split point is a prefix of one of its
            // chains; lift that chain.
            let csub = choose|c: Seq<char>|
                #[trigger] forest_chain(child.children@, c) && is_prefix_of(qsub, c);
            lemma_chain_lift(cs, i, csub);
            assert(is_prefix_of(qw, lab + csub)) by {
                assert((lab + csub).take(qw.len() as int) =~= lab + csub.take(
                    qsub.len() as int,
                ));
                assert(csub.take(qsub.len() as int) == qsub);
            }
            assert(forest_chain(cs, lab + csub) && is_prefix_of(qw, lab + csub));
        } else {
            // The lifted point is the whole key; the subtree then held a
            // chain extending the whole remainder.
            assert(qsub == rem) by {
                assert((lab + qsub).skip(n) =~= qsub);
            }
            assert(!noshare);
            let csub = choose|c: Seq<char>|
                #[trigger] forest_chain(child.children@, c) && is_prefix_of(rem, c);
            lemma_chain_lift(cs, i, csub);
            assert(is_prefix_of(key, lab + csub)) by {
                assert((lab + csub).take(key.len() as int) =~= lab + csub.take(
                    rem.len() as int,
                ));
                assert(csub.take(rem.len() as int) == rem);
                assert(lab + rem =~= key);
            }
            assert(forest_chain(cs, lab + csub) && is_prefix_of(key, lab + csub));
        }
        assert forall|c: Seq<char>, m: int|
            #![trigger forest_chain(cs, c), c.take(m)]
            forest_chain(cs, c) && 0 <= m <= c.len() && m <= key.len() && c.take(m) == key.take(
                m,
            ) implies m <= qw.len() by {
            if m > lab.len() {
                assert(c.take(m)[0] == key.take(m)[0]);
                assert(c[0] == key[0]);
                assert(sel(cs[i], c));
                lemma_sel_at_ro(cs, i, c);
                assert(node_chain(cs[i], c));
                let c2 = c.skip(n);
                assert(forest_chain(child.children@, c2));
                assert(c2.take(m - n) =~= rem.take(m - n)) by {
                    assert forall|j: int|
                        #![trigger c2.take(m - n)[j]]
                        0 <= j < m - n implies c2.take(m - n)[j] == rem.take(m - n)[j] by {
                        assert(c.take(m)[n + j] == key.take(m)[n + j]);
                        assert(c2[j] == c[n + j]);
                        assert(rem[j] == key[n + j]);
                    }
                }
                assert(m - n <= qsub.len()) by {
                    assert(forest_chain(child.children@, c2) && 0 <= m - n <= c2.len() && m - n
                        <= rem.len() && c2.take(m - n) == rem.take(m - n));
                }
            }
        }
        assert(ins_chain_delta(cs, cs2, key, qw));
    }
    assert(exists|q: Seq<char>| ins_chain_delta(cs, cs2, key, q));
}

/// Descending into the selected child when the sub-insertion fails: the
/// forest's model is unchanged, and the key's chain already existed.
pub(crate) proof fn lemma_descend_err(cs: Seq<Node>, i: int, child2: Node, key: Seq<char>)
    requires
        forest_wf(cs),
        0 <= i < cs.len(),
        child2.label == cs[i].label,
        child2.payload == cs[i].payload,
        key.len() > cs[i].label@.len(),
        key.take(cs[i].label@.len() as int) == cs[i].label@,
        forest_wf(child2.children@),
        model_eq(cs[i].children@, child2.children@),
        forest_chain(cs[i].children@, key.skip(cs[i].label@.len() as int)),
    ensures
        forest_wf(cs.update(i, child2)),
        model_eq(cs, cs.update(i, child2)),
        forest_chain(cs, key),
{
    let child = cs[i];
    let lab = child.label@;
    let n = lab.len() as int;
    let cs2 = cs.update(i, child2);
    assert(node_wf(child) && lab.len() > 0);
    assert(node_wf(child2));
    lemma_wf_update(cs, i, child2);
    assert(key[0] == lab[0]) by {
        assert(key.take(n)[0] == lab[0]);
    }
    assert(sel(child, key));
    lemma_sel_update(cs, i, child2, key);
    assert(node_chain(child, key));
    assert forall|k: Seq<char>|
        #![trigger forest_payload(cs2, k)]
        #![trigger forest_chain(cs2, k)]
        forest_chain(cs2, k) == forest_chain(cs, k) && forest_payload(cs2, k) == forest_payload(
            cs,
            k,
        ) by {
        if sel(child, k) {
            lemma_sel_update(cs, i, child2, k);
            if k.len() >= lab.len() && k.take(n) == lab && k.len() > lab.len() {
                assert(forest_chain(child2.children@, k.skip(n)) == forest_chain(
                    child.children@,
                    k.skip(n),
                ));
                assert(forest_payload(child2.children@, k.skip(n)) == forest_payload(
                    child.children@,
                    k.skip(n),
                ));
            }
        } else {
            lemma_unsel_update(cs, i, child2, k);
        }
    }
}

/// Splitting the selected child exactly at the key: the new intermediate
/// node is labeled with the whole remaining key, carries the payload, and
/// holds the re-rooted old child.
pub(crate) proof fn lemma_split_final(
    cs: Seq<Node>,
    i: int,
    moved: Node,
    inter: Node,
    key: Seq<char>,
    pl: Seq<char>,
)
    requires
        forest_wf(cs),
        0 <= i < cs.len(),
        key.len() > 0,
        moved.label@.len() > 0,
        cs[i].label@ == key + moved.label@,
        moved.payload == cs[i].payload,
        moved.children == cs[i].children,
        inter.label@ == key,
        inter.payload matches Some(p) && p@ == pl,
        inter.children@ == seq![moved],
    ensures
        ins_post(cs, cs.update(i, inter), key, pl),
{
    let child = cs[i];
    let lab = child.label@;
    let cs2 = cs.update(i, inter);
    assert(node_wf(child));
    assert(node_wf(moved));
    assert(forest_wf(inter.children@)) by {
        assert(forall|j: int|
            0 <= j < inter.children@.len() ==> #[trigger] inter.children@[j] == moved);
    }
    assert(node_wf(inter));
    assert(lab[0] == key[0]) by {
        assert((key + moved.label@)[0] == key[0]);
    }
    lemma_wf_update(cs, i, inter);
    assert(sel(child, key));
    lemma_sel_update(cs, i, inter, key);
    assert(!node_chain(child, key));
    assert(node_chain(inter, key)) by {
        assert(key.take(key.len() as int) =~= key);
    }
    assert forall|k: Seq<char>|
        #![trigger forest_payload(cs2, k)]
        #![trigger forest_chain(cs2, k)]
        forest_payload(cs2, k) == (if k == key {
            Some(pl)
        } else {
            forest_payload(cs, k)
        }) && (forest_chain(cs, k) ==> forest_chain(cs2, k)) && (forest_chain(cs2, k)
        ==> forest_chain(cs, k) || is_prefix_of(k, key)) && (forest_chain(cs2, k) <==> (
    forest_chain(cs, k) || k == key)) by {
        if sel(child, k) {
            lemma_sel_update(cs, i, inter, k);
            if is_prefix_of(key, k) {
                let k2 = k.skip(key.len() as int);
                lemma_key_decompose(key, k2, k);
                assert(k == key + k2);
                if k.len() == key.len() {
                    assert(k =~= key);
                    assert(node_payload(inter, k) == Some(pl));
                    assert(is_prefix_of(k, key));
                } else {
                    assert(k2.len() > 0);
                    lemma_reroot(child, moved, key, k2);
                    lemma_singleton(moved, k2);
                    assert(node_payload(inter, k) == forest_payload(inter.children@, k2));
                    assert(node_chain(inter, k) == forest_chain(inter.children@, k2));
                    assert(forest_payload(inter.children@, k2) == node_payload(child, k));
                    assert(forest_chain(inter.children@, k2) == node_chain(child, k));
                    assert(k != key);
                }
            } else {
                assert(lab.take(key.len() as int) =~= key);
                lemma_not_prefixed(child, key, k);
                assert(node_payload(inter, k) is None && !node_chain(inter, k));
                assert(k != key);
            }
        } else {
            lemma_unsel_update(cs, i, inter, k);
            assert(k != key);
        }
    }
    assert(ins_chain_delta(cs, cs2, key, key)) by {
        assert(key.take(key.len() as int) =~= key);
        assert forall|k: Seq<char>|
            #[trigger] forest_chain(cs2, k) <==> (forest_chain(cs, k) || k == key || k == key)
        by {
            assert(forest_chain(cs2, k) <==> (forest_chain(cs, k) || k == key));
        }
        // The child's own label is a chain extending the whole key.
        lemma_label_chain(cs, i);
        assert(is_prefix_of(key, cs[i].label@)) by {
            assert(cs[i].label@.take(key.len() as int) =~= key);
        }
        assert(forest_chain(cs, cs[i].label@) && is_prefix_of(key, cs[i].label@));
    }
    assert(exists|q: Seq<char>| ins_chain_delta(cs, cs2, key, q));
}

/// Splitting the selected child strictly inside its label: the new
/// intermediate node is labeled with the common prefix and its subtree is
/// the re-rooted old child after inserting the key's remainder.
pub(crate) proof fn lemma_split_deep(
    cs: Seq<Node>,
    i: int,
    moved: Node,
    inter: Node,
    key: Seq<char>,
    pre: Seq<char>,
    rem: Seq<char>,
    pl: Seq<char>,
)
    requires
        forest_wf(cs),
        0 <= i < cs.len(),
        pre.len() > 0,
        rem.len() > 0,
        moved.label@.len() > 0,
        key == pre + rem,
        rem[0] != moved.label@[0],
        cs[i].label@ == pre + moved.label@,
        moved.payload == cs[i].payload,
        moved.children == cs[i].children,
        inter.label@ == pre,
        inter.payload is None,
        ins_post(seq![moved], inter.children@, rem, pl),
    ensures
        ins_post(cs, cs.update(i, inter), key, pl),
{
    let child = cs[i];
    let lab = child.label@;
    let cs2 = cs.update(i, inter);
    assert(node_wf(child));
    assert(node_wf(moved));
    assert(node_wf(inter));
    assert(lab[0] == pre[0]) by {
        assert((pre + moved.label@)[0] == pre[0]);
    }
    assert(key[0] == pre[0]) by {
        assert((pre + rem)[0] == pre[0]);
    }
    lemma_wf_update(cs, i, inter);
    assert(sel(child, key));
    lemma_sel_update(cs, i, inter, key);
    lemma_key_decompose(pre, rem, key);
    assert(!node_chain(child, key)) by {
        lemma_reroot(child, moved, pre, rem);
    }
    assert(node_chain(inter, key));
    assert(is_prefix_of(pre, key)) by {
        assert(key.take(pre.len() as int) =~= pre);
    }
    // The sub-insertion saw no sibling sharing the remainder's first
    // character, so its split point is the remainder itself.
    let qsub = choose|q: Seq<char>| ins_chain_delta(seq![moved], inter.children@, rem, q);
    assert(qsub == rem) by {
        assert forall|j: int|
            0 <= j < seq![moved].len() implies (#[trigger] seq![moved][j].label@[0]) != rem[0]
        by {
            assert(seq![moved][j] == moved);
        }
    }
    assert forall|k: Seq<char>|
        #![trigger forest_payload(cs2, k)]
        #![trigger forest_chain(cs2, k)]
        forest_payload(cs2, k) == (if k == key {
            Some(pl)
        } else {
            forest_payload(cs, k)
        }) && (forest_chain(cs, k) ==> forest_chain(cs2, k)) && (forest_chain(cs2, k)
        ==> forest_chain(cs, k) || is_prefix_of(k, key)) && (forest_chain(cs2, k) <==> (
    forest_chain(cs, k) || k == key || k == pre)) by {
        if sel(child, k) {
            lemma_sel_update(cs, i, inter, k);
            if is_prefix_of(pre, k) {
                let k2 = k.skip(pre.len() as int);
                lemma_key_decompose(pre, k2, k);
                assert(k == pre + k2);
                lemma_reroot(child, moved, pre, k2);
                lemma_singleton(moved, k2);
                if k.len() == pre.len() {
                    assert(k =~= pre);
                    assert(k2.len() == 0);
                    assert(node_payload(inter, k) is None);
                    assert(node_payload(child, k) is None);
                    assert(!node_chain(child, k));
                    assert(node_chain(inter, k));
                    assert(k != key);
                    assert(k == pre);
                } else {
                    assert(k2.len() > 0);
                    assert(node_payload(inter, k) == forest_payload(inter.children@, k2));
                    assert(node_chain(inter, k) == forest_chain(inter.children@, k2));
                    assert(forest_payload(inter.children@, k2) == (if k2 == rem {
                        Some(pl)
                    } else {
                        forest_payload(seq![moved], k2)
                    }));
                    if k2 == rem {
                        assert(k == key);
                    } else {
                        assert(k != key);
                        assert(forest_payload(seq![moved], k2) == node_payload(child, k));
                    }
                    if node_chain(child, k) {
                        assert(forest_chain(seq![moved], k2));
                        assert(forest_chain(inter.children@, k2));
                    }
                    if forest_chain(inter.children@, k2) {
                        if forest_chain(seq![moved], k2) {
                            assert(node_chain(child, k));
                        } else {
                            assert(is_prefix_of(k2, rem));
                            lemma_prefix_lift(pre, rem, k);
                        }
                    }
                    assert(forest_chain(inter.children@, k2) <==> (forest_chain(
                        seq![moved],
                        k2,
                    ) || k2 == rem || k2 == qsub));
                    assert(k2 == rem <==> k == key);
                    assert(k != pre);
                }
            } else {
                assert(lab.take(pre.len() as int) =~= pre);
                lemma_not_prefixed(child, pre, k);
                assert(node_payload(inter, k) is None && !node_chain(inter, k));
                assert(k != key);
                assert(k != pre) by {
                    if k == pre {
                        assert(k.take(pre.len() as int) =~= pre);
                    }
                }
            }
        } else {
            lemma_unsel_update(cs, i, inter, k);
            assert(k != key);
            assert(k != pre) by {
                assert(pre[0] == lab[0]);
            }
        }
    }
    assert(ins_chain_delta(cs, cs2, key, pre)) by {
        assert(cs[i].label@[0] == key[0]);
        assert(!(forall|j: int| 0 <= j < cs.len() ==> (#[trigger] cs[j].label@[0]) != key[0]));
        // The cut is a prefix of the child's own label, which is a chain.
        lemma_label_chain(cs, i);
        assert(is_prefix_of(pre, cs[i].label@)) by {
            assert(cs[i].label@.take(pre.len() as int) =~= pre);
        }
        assert(forest_chain(cs, cs[i].label@) && is_prefix_of(pre, cs[i].label@));
        assert(pre != key);
        // No chain shares more than the cut with the key: a longer share
        // would run into the child's label, whose next character differs
        // from the key's.
        assert forall|c: Seq<char>, n: int|
            #![trigger forest_chain(cs, c), c.take(n)]
            forest_chain(cs, c) && 0 <= n <= c.len() && n <= key.len() && c.take(n) == key.take(
                n,
            ) implies n <= pre.len() by {
            if n > pre.len() {
                assert(c.take(n)[0] == key.take(n)[0]);
                assert(c[0] == key[0]);
                assert(sel(cs[i], c));
                lemma_sel_at_ro(cs, i, c);
                assert(node_chain(cs[i], c));
                assert(c.take(lab.len() as int) == lab);
                assert(c[pre.len() as int] == lab[pre.len() as int]) by {
                    assert(c.take(lab.len() as int)[pre.len() as int] == lab[pre.len() as int]);
                }
                assert(lab[pre.len() as int] == moved.label@[0]);
                assert(c.take(n)[pre.len() as int] == key.take(n)[pre.len() as int]);
                assert(key[pre.len() as int] == rem[0]);
                assert(false);
            }
        }
    }
    assert(exists|q: Seq<char>| ins_chain_delta(cs, cs2, key, q));
}

/// Creating a fresh leaf under the root when no sibling is related to the
/// key.
pub(crate) proof fn lemma_leaf(cs: Seq<Node>, pos: int, leaf: Node, key: Seq<char>, pl: Seq<char>)
    requires
        forest_wf(cs),
        0 <= pos <= cs.len(),
        key.len() > 0,
        forall|j: int| 0 <= j < cs.len() ==> (#[trigger] cs[j].label@[0]) != key[0],
        leaf.label@ == key,
        leaf.payload matches Some(p) && p@ == pl,
        leaf.children@.len() == 0,
        forall|j: int| 0 <= j < pos ==> (#[trigger] cs[j].label@[0] as u32) < (key[0] as u32),
        forall|j: int|
            pos <= j < cs.len() ==> (key[0] as u32) < (#[trigger] cs[j].label@[0] as u32),
    ensures
        ins_post(cs, cs.insert(pos, leaf), key, pl),
{
    let cs2 = cs.insert(pos, leaf);
    assert(node_wf(leaf));
    lemma_wf_insert(cs, pos, leaf);
    assert forall|j: int| 0 <= j < cs.len() implies !sel(#[trigger] cs[j], key) by {}
    lemma_no_sel(cs, key);
    lemma_insert_sib(cs, pos, leaf, key);
    assert(sel(leaf, key));
    assert(node_chain(leaf, key)) by {
        assert(key.take(key.len() as int) =~= key);
    }
    assert forall|k: Seq<char>|
        #![trigger forest_payload(cs2, k)]
        #![trigger forest_chain(cs2, k)]
        forest_payload(cs2, k) == (if k == key {
            Some(pl)
        } else {
            forest_payload(cs, k)
        }) && (forest_chain(cs, k) ==> forest_chain(cs2, k)) && (forest_chain(cs2, k)
        ==> forest_chain(cs, k) || is_prefix_of(k, key)) && (forest_chain(cs2, k) <==> (
    forest_chain(cs, k) || k == key)) by {
        lemma_insert_sib(cs, pos, leaf, k);
        if sel(leaf, k) {
            assert forall|j: int| 0 <= j < cs.len() implies !sel(#[trigger] cs[j], k) by {}
            lemma_no_sel(cs, k);
            assert(forest_payload(cs2, k) == node_payload(leaf, k));
            assert(forest_chain(cs2, k) == node_chain(leaf, k));
            if k.len() >= key.len() && k.take(key.len() as int) == key {
                if k.len() == key.len() {
                    assert(k =~= key);
                    assert(is_prefix_of(k, key));
                } else {
                    assert(node_payload(leaf, k) == forest_payload(
                        leaf.children@,
                        k.skip(key.len() as int),
                    ));
                    assert(forest_payload(leaf.children@, k.skip(key.len() as int)) is None);
                    assert(!forest_chain(leaf.children@, k.skip(key.len() as int)));
                    assert(k != key);
                }
            } else {
                assert(node_payload(leaf, k) is None && !node_chain(leaf, k));
                assert(k != key);
            }
        } else {
            assert(k != key);
        }
    }
    assert(ins_chain_delta(cs, cs2, key, key)) by {
        assert(key.take(key.len() as int) =~= key);
        assert forall|k: Seq<char>|
            #[trigger] forest_chain(cs2, k) <==> (forest_chain(cs, k) || k == key || k == key)
        by {
            assert(forest_chain(cs2, k) <==> (forest_chain(cs, k) || k == key));
        }
        assert forall|c: Seq<char>|
            #[trigger] forest_chain(cs, c) implies c.len() == 0 || c[0] != key[0] by {
            lemma_chain_head(cs, c);
            let w = choose|w: int| 0 <= w < cs.len() && c[0] == (#[trigger] cs[w].label@[0]);
            assert(cs[w].label@[0] != key[0]);
        }
    }
    assert(exists|q: Seq<char>| ins_chain_delta(cs, cs2, key, q));
}

/// A sibling labeled exactly by the key witnesses the key's chain.
pub(crate) proof fn lemma_conflict(cs: Seq<Node>, i: int, key: Seq<char>)
    requires
        forest_wf(cs),
        0 <= i < cs.len(),
        key.len() > 0,
        cs[i].label@ == key,
    ensures
        forest_chain(cs, key),
{
    assert(sel(cs[i], key));
    assert forall|j: int| 0 <= j < i implies !sel(#[trigger] cs[j], key) by {
        assert((cs[j].label@[0] as u32) < (cs[i].label@[0] as u32));
    }
    lemma_sel_at(cs, i, key);
    assert(node_chain(cs[i], key)) by {
        assert(key.take(key.len() as int) =~= key);
    }
}

/// A one-node forest is well-formed when the node is.
pub(crate) proof fn lemma_wf_singleton(n: Node)
    requires
        node_wf(n),
    ensures
        forest_wf(seq![n]),
{
    let cs = seq![n];
    assert(forall|j: int| 0 <= j < cs.len() ==> #[trigger] cs[j] == n);
}

/// A single non-empty label is a node path for itself.
pub(crate) proof fn lemma_path_single(s: String, key: Seq<char>)
    requires
        s@ == key,
        key.len() > 0,
    ensures
        path_ok(seq![s], key),
{
    let p = seq![s];
    let m = p.map_values(|x: String| x@);
    assert(m.len() == 1);
    assert(m[0] == key);
    let t = m.subrange(1, 1);
    assert(t.len() == 0);
    assert(cat_labels(t) == Seq::<char>::empty());
    assert(cat_labels(m) == m[0] + cat_labels(t));
    assert(key + Seq::<char>::empty() =~= key);
    assert(forall|i: int| 0 <= i < p.len() ==> #[trigger] p[i] == s);
}

/// Prepending a label to a node path extends the key it spells.
pub(crate) proof fn lemma_path_cons(p: Seq<String>, s: String, rest: Seq<char>)
    requires
        path_ok(p, rest),
        s@.len() > 0,
    ensures
        path_ok(p.insert(0, s), s@ + rest),
{
    let p2 = p.insert(0, s);
    let m2 = p2.map_values(|x: String| x@);
    let m = p.map_values(|x: String| x@);
    assert(p2[0] == s);
    assert(m2[0] == s@);
    assert(m2.subrange(1, m2.len() as int) =~= m) by {
        assert forall|j: int|
            0 <= j < m.len() implies m2.subrange(1, m2.len() as int)[j] == m[j] by {
            assert(p2[j + 1] == p[j]);
            assert(m2[j + 1] == p2[j + 1]@);
            assert(m[j] == p[j]@);
        }
    }
    assert(cat_labels(m2) == m2[0] + cat_labels(m2.subrange(1, m2.len() as int)));
    assert(forall|i: int| 0 <= i < p.len() ==> (#[trigger] p[i])@.len() > 0);
    assert forall|i: int| 0 <= i < p2.len() implies (#[trigger] p2[i])@.len() > 0 by {
        if i > 0 {
            assert(p2[i] == p[i - 1]);
        }
    }
}

/// Does `n`'s label begin strictly before `key` does?
fn head_before(n: &Node, key: &str) -> (r: bool)
    requires
        n.label@.len() > 0,
        key@.len() > 0,
    ensures
        r == ((n.label@[0] as u32) < (key@[0] as u32)),
{
    (n.label.as_str().get_char(0) as u32) < (key.get_char(0) as u32)
}

/// Inserts `key` with `payload` into a sibling forest, keeping siblings
/// prefix-free and sorted; returns the updated forest together with the
/// node path of the key's node, or `Conflict` if the key's chain already
/// exists.
#[verifier::loop_isolation(false)]
fn insert_forest(nodes: Vec<Node>, key: &str, payload: &str) -> (res: (
    Vec<Node>,
    Result<Vec<String>, Error>,
))
    requires
        forest_wf(nodes@),
        key@.len() > 0,
    ensures
        match res.1 {
            Ok(path) => ins_post(nodes@, res.0@, key@, payload@) && path_ok(path@, key@),
            Err(e) => {
                &&& e == Error::Conflict
                &&& forest_chain(nodes@, key@)
                &&& forest_wf(res.0@)
                &&& model_eq(nodes@, res.0@)
            },
        },
    decreases key@.len(),
{
    let mut nodes = nodes;
    let ghost orig = nodes@;
    let mut i: usize = 0;
    while i < nodes.len()
        invariant
            forest_wf(nodes@),
            nodes@ == orig,
            key@.len() > 0,
            i <= nodes.len(),
            forall|j: int| 0 <= j < i ==> (#[trigger] nodes@[j].label@[0]) != key@[0],
        decreases nodes.len() - i,
    {
        let ghost lab = nodes@[i as int].label@;
        proof {
            assert(node_wf(orig[i as int]));
            lemma_lcp_len(lab, key@);
        }
        let ghost n = lcp_len(lab, key@) as int;
        let (pre, suf, rem) = common_prefix(nodes[i].label.as_str(), key);
        if pre.is_empty() {
            proof {
                assert(lab[0] != key@[0]) by {
                    if lab[0] == key@[0] {
                        assert(lcp_len(lab, key@) > 0);
                    }
                }
            }
            i = i + 1;
        } else if !suf.is_empty() {
            // The label and the key diverge inside the label: split it.
            let suf_owned = String::from_str(suf);
            let pre_owned = String::from_str(pre);
            let child = nodes.remove(i);
            let moved = Node {
                label: suf_owned,
                payload: child.payload,
                children: child.children,
            };
            proof {
                assert(moved.label@ == lab.skip(n));
                assert(pre@ == key@.take(n));
                assert(lab.take(n) =~= key@.take(n));
                assert(lab =~= lab.take(n) + lab.skip(n));
                assert(lab == pre@ + moved.label@);
                assert(node_wf(orig[i as int]));
            }
            let mut kids: Vec<Node> = Vec::new();
            kids.push(moved);
            proof {
                assert(kids@ =~= seq![moved]);
            }
            if rem.is_empty() {
                // The key ends at the cut: the new intermediate node is
                // the key's node.
                let inter = Node {
                    label: pre_owned,
                    payload: Some(String::from_str(payload)),
                    children: kids,
                };
                nodes.insert(i, inter);
                let mut path: Vec<String> = Vec::new();
                path.push(String::from_str(pre));
                proof {
                    assert(key@ =~= key@.take(n));
                    assert(inter.label@ == key@);
                    assert(nodes@ =~= orig.update(i as int, inter));
                    lemma_split_final(orig, i as int, moved, inter, key@, payload@);
                    assert(path@ =~= seq![path@[0]]);
                    lemma_path_single(path[0], key@);
                }
                return (nodes, Ok(path));
            } else {
                // Insert the key's remainder under the new intermediate
                // node; it cannot conflict, because the re-rooted child
                // and the remainder diverge at their first character.
                proof {
                    lemma_wf_singleton(moved);
                    assert(rem@ == key@.skip(n));
                    assert(rem@[0] == key@[n]);
                    assert(moved.label@[0] == lab[n]);
                    assert(rem@[0] != moved.label@[0]);
                }
                let (kids2, sub) = insert_forest(kids, rem, payload);
                match sub {
                    Ok(subpath) => {
                        let inter = Node { label: pre_owned, payload: None, children: kids2 };
                        nodes.insert(i, inter);
                        let mut path = subpath;
                        path.insert(0, String::from_str(pre));
                        proof {
                            assert(nodes@ =~= orig.update(i as int, inter));
                            assert(key@ =~= pre@ + rem@);
                            lemma_split_deep(
                                orig,
                                i as int,
                                moved,
                                inter,
                                key@,
                                pre@,
                                rem@,
                                payload@,
                            );
                            lemma_path_cons(subpath@, path[0], rem@);
                            assert(path@ =~= subpath@.insert(0, path@[0]));
                        }
                        return (nodes, Ok(path));
                    },
                    Err(e) => {
                        proof {
                            assert(forest_chain(seq![moved], rem@));
                            lemma_singleton(moved, rem@);
                            assert(!sel(moved, rem@));
                            assert(false);
                        }
                        return (nodes, Err(e));
                    },
                }
            }
        } else if !rem.is_empty() {
            // The label is fully consumed: descend into this child with
            // the key's remainder.
            proof {
                assert(n == lab.len());
                assert(lab =~= key@.take(n));
            }
            let child = nodes.remove(i);
            let Node { label: clabel, payload: cpayload, children: cchildren } = child;
            proof {
                assert(node_wf(orig[i as int]));
                assert(rem@ == key@.skip(n));
            }
            let (nc, sub) = insert_forest(cchildren, rem, payload);
            let lab_clone = clabel.clone();
            let child2 = Node { label: clabel, payload: cpayload, children: nc };
            nodes.insert(i, child2);
            proof {
                assert(nodes@ =~= orig.update(i as int, child2));
            }
            match sub {
                Ok(subpath) => {
                    let mut path = subpath;
                    path.insert(0, lab_clone);
                    proof {
                        lemma_descend_ok(orig, i as int, child2, key@, payload@);
                        assert(key@ =~= lab + rem@);
                        lemma_path_cons(subpath@, path[0], rem@);
                        assert(path@ =~= subpath@.insert(0, path@[0]));
                    }
                    return (nodes, Ok(path));
                },
                Err(e) => {
                    proof {
                        lemma_descend_err(orig, i as int, child2, key@);
                    }
                    return (nodes, Err(e));
                },
            }
        } else {
            // The label equals the whole remaining key: the chain already
            // exists.
            proof {
                assert(n == lab.len() && n == key@.len());
                assert(lab =~= key@);
                lemma_conflict(nodes@, i as int, key@);
            }
            return (nodes, Err(Error::Conflict));
        }
    }
    // No sibling is related to the key: create a fresh leaf at its sorted
    // position.
    let mut pos: usize = 0;
    while pos < nodes.len() && head_before(&nodes[pos], key)
        invariant
            forest_wf(nodes@),
            nodes@ == orig,
            key@.len() > 0,
            pos <= nodes.len(),
            forall|j: int| 0 <= j < pos ==> (#[trigger] nodes@[j].label@[0] as u32) < (key@[0]
                as u32),
            forall|j: int|
                0 <= j < nodes@.len() ==> (#[trigger] nodes@[j].label@[0]) != key@[0],
        decreases nodes.len() - pos,
    {
        proof {
            assert(node_wf(orig[pos as int]));
        }
        pos = pos + 1;
    }
    let leaf = Node {
        label: String::from_str(key),
        payload: Some(String::from_str(payload)),
        children: Vec::new(),
    };
    nodes.insert(pos, leaf);
    let mut path: Vec<String> = Vec::new();
    path.push(String::from_str(key));
    proof {
        assert forall|j: int|
            pos <= j < orig.len() implies (key@[0] as u32) < (#[trigger] orig[j].label@[0]
            as u32) by {
            assert((orig[pos as int].label@[0] as u32) <= (orig[j].label@[0] as u32)) by {
                if pos < j {
                    assert((orig[pos as int].label@[0] as u32) < (orig[j].label@[0] as u32));
                }
            }
            assert(!((orig[pos as int].label@[0] as u32) < (key@[0] as u32)));
            assert(orig[j].label@[0] != key@[0]);
            assert((orig[j].label@[0] as u32) != (key@[0] as u32)) by {
                if (orig[j].label@[0] as u32) == (key@[0] as u32) {
                    vstd::utf8::char_u32_cast(orig[j].label@[0], orig[j].label@[0] as u32);
                    vstd::utf8::char_u32_cast(key@[0], key@[0] as u32);
                }
            }
        }
        assert(leaf.children@.len() == 0);
        lemma_leaf(orig, pos as int, leaf, key@, payload@);
        assert(nodes@ =~= orig.insert(pos as int, leaf));
        assert(path@ =~= seq![path@[0]]);
        lemma_path_single(path[0], key@);
    }
    (nodes, Ok(path))
}

/// The keys carrying a payload in node `n`'s subtree, in pre-order (the
/// node's own key first, then each child's keys, children in label
/// order). Since siblings are sorted and prefix-free, this is exactly
/// lexicographic order of the keys.
pub(crate) open spec fn node_keys_list(n: Node) -> Seq<Seq<char>>
    decreases n,
{
    (if n.payload is Some {
        seq![n.label@]
    } else {
        Seq::empty()
    }) + forest_keys_list(n.children@).map_values(|k: Seq<char>| n.label@ + k)
}

/// The keys carrying a payload in a sibling forest, in traversal order.
pub(crate) open spec fn forest_keys_list(cs: Seq<Node>) -> Seq<Seq<char>>
    decreases cs,
{
    if cs.len() == 0 {
        Seq::empty()
    } else {
        node_keys_list(cs[0]) + forest_keys_list(cs.subrange(1, cs.len() as int))
    }
}

/// The directory paths of every node of `n`'s subtree (labels joined by
/// `/`), in pre-order.
pub(crate) open spec fn node_dirs(n: Node) -> Seq<Seq<char>>
    decreases n,
{
    seq![n.label@] + forest_dirs(n.children@).map_values(|d: Seq<char>| n.label@ + seq!['/'] + d)
}

/// The directory paths of a sibling forest, in traversal order.
pub(crate) open spec fn forest_dirs(cs: Seq<Node>) -> Seq<Seq<char>>
    decreases cs,
{
    if cs.len() == 0 {
        Seq::empty()
    } else {
        node_dirs(cs[0]) + forest_dirs(cs.subrange(1, cs.len() as int))
    }
}

/// Splitting a traversal after its first node.
pub(crate) proof fn lemma_list_snoc(cs: Seq<Node>, i: int)
    requires
        0 <= i < cs.len(),
    ensures
        forest_keys_list(cs.subrange(0, i + 1)) == forest_keys_list(cs.subrange(0, i))
            + node_keys_list(cs[i]),
        forest_dirs(cs.subrange(0, i + 1)) == forest_dirs(cs.subrange(0, i)) + node_dirs(cs[i]),
    decreases i,
{
    let a = cs.subrange(0, i + 1);
    let b = cs.subrange(0, i);
    if i == 0 {
        assert(a.subrange(1, a.len() as int).len() == 0);
        assert(forest_keys_list(a) == node_keys_list(a[0]) + forest_keys_list(
            a.subrange(1, a.len() as int),
        ));
        assert(forest_dirs(a) == node_dirs(a[0]) + forest_dirs(a.subrange(1, a.len() as int)));
        assert(a[0] == cs[0]);
        assert(b.len() == 0);
        assert(forest_keys_list(a) =~= forest_keys_list(b) + node_keys_list(cs[0]));
        assert(forest_dirs(a) =~= forest_dirs(b) + node_dirs(cs[0]));
    } else {
        let t = cs.subrange(1, cs.len() as int);
        lemma_list_snoc(t, i - 1);
        assert(t.subrange(0, i) =~= a.subrange(1, a.len() as int));
        assert(t.subrange(0, i - 1) =~= b.subrange(1, b.len() as int));
        assert(t[i - 1] == cs[i]);
        assert(a[0] == cs[0] && b[0] == cs[0]);
        assert(forest_keys_list(a) == node_keys_list(cs[0]) + forest_keys_list(
            t.subrange(0, i),
        ));
        assert(forest_keys_list(b) == node_keys_list(cs[0]) + forest_keys_list(
            t.subrange(0, i - 1),
        ));
        assert(forest_keys_list(a) =~= forest_keys_list(b) + node_keys_list(cs[i]));
        assert(forest_dirs(a) =~= forest_dirs(b) + node_dirs(cs[i]));
    }
}

/// Walks a sibling forest and returns the node path of every node that
/// carries a payload, in traversal order.
#[verifier::loop_isolation(false)]
fn forest_paths(nodes: &Vec<Node>) -> (r: Vec<Vec<String>>)
    requires
        forest_wf(nodes@),
    ensures
        r@.len() == forest_keys_list(nodes@).len(),
        forall|t: int|
            0 <= t < r@.len() ==> path_ok((#[trigger] r@[t])@, forest_keys_list(nodes@)[t]),
    decreases nodes@,
{
    let mut out: Vec<Vec<String>> = Vec::new();
    let mut i: usize = 0;
    while i < nodes.len()
        invariant
            i <= nodes.len(),
            out@.len() == forest_keys_list(nodes@.subrange(0, i as int)).len(),
            forall|t: int|
                0 <= t < out@.len() ==> path_ok(
                    (#[trigger] out@[t])@,
                    forest_keys_list(nodes@.subrange(0, i as int))[t],
                ),
        decreases nodes.len() - i,
    {
        let ghost base = forest_keys_list(nodes@.subrange(0, i as int));
        let ghost nk = node_keys_list(nodes@[i as int]);
        let ghost lab = nodes@[i as int].label@;
        proof {
            assert(node_wf(nodes@[i as int]));
            lemma_list_snoc(nodes@, i as int);
        }
        let hdr: bool = nodes[i].payload.is_some();
        if hdr {
            let mut single: Vec<String> = Vec::new();
            single.push(nodes[i].label.clone());
            proof {
                assert(single@ =~= seq![single@[0]]);
                lemma_path_single(single[0], lab);
                assert(nk[0] == lab);
            }
            out.push(single);
        }
        proof {
            assert(decreases_to!(nodes@ => nodes@[i as int].children@));
        }
        let mut sub = forest_paths(&nodes[i].children);
        let ghost sub0 = sub@;
        proof {
            vstd::std_specs::vec::axiom_spec_len(&sub);
        }
        let ghost ck = forest_keys_list(nodes@[i as int].children@);
        let ghost hn: int = if hdr {
            1
        } else {
            0
        };
        let mut j: usize = 0;
        while sub.len() > 0
            invariant
                j <= sub0.len(),
                sub0.len() <= usize::MAX,
                j + sub@.len() == sub0.len(),
                sub@ =~= sub0.skip(j as int),
                out@.len() == base.len() + hn + j,
                forall|t: int|
                    0 <= t < out@.len() ==> path_ok(
                        (#[trigger] out@[t])@,
                        forest_keys_list(nodes@.subrange(0, i as int + 1))[t],
                    ),
            decreases sub.len(),
        {
            let mut p = sub.remove(0);
            let ghost pview = p@;
            p.insert(0, nodes[i].label.clone());
            proof {
                assert(pview == sub0[j as int]@);
                assert(path_ok(pview, ck[j as int]));
                lemma_path_cons(pview, p[0], ck[j as int]);
                assert(p@ =~= pview.insert(0, p@[0]));
                assert(nk[hn + j] == lab + ck[j as int]) by {
                    assert(forest_keys_list(nodes@[i as int].children@).map_values(
                        |k: Seq<char>| lab + k,
                    )[j as int] == lab + ck[j as int]);
                }
                assert(forest_keys_list(nodes@.subrange(0, i as int + 1))[base.len() + hn + j]
                    == nk[hn + j]);
            }
            out.push(p);
            j = j + 1;
        }
        proof {
            assert(j == sub0.len());
            assert(out@.len() == base.len() + nk.len());
        }
        i = i + 1;
    }
    proof {
        assert(nodes@.subrange(0, nodes@.len() as int) =~= nodes@);
    }
    out
}
/// Walks a sibling forest and returns the directory path of every node
/// (labels joined by `/`), in traversal order.
#[verifier::loop_isolation(false)]
fn forest_dir_strings(nodes: &Vec<Node>) -> (r: Vec<String>)
    requires
        forest_wf(nodes@),
    ensures
        r@.len() == forest_dirs(nodes@).len(),
        forall|t: int| 0 <= t < r@.len() ==> (#[trigger] r@[t])@ == forest_dirs(nodes@)[t],
    decreases nodes@,
{
    let mut out: Vec<String> = Vec::new();
    let mut i: usize = 0;
    while i < nodes.len()
        invariant
            i <= nodes.len(),
            out@.len() == forest_dirs(nodes@.subrange(0, i as int)).len(),
            forall|t: int|
                0 <= t < out@.len() ==> (#[trigger] out@[t])@ == forest_dirs(
                    nodes@.subrange(0, i as int),
                )[t],
        decreases nodes.len() - i,
    {
        let ghost base = forest_dirs(nodes@.subrange(0, i as int));
        let ghost nd = node_dirs(nodes@[i as int]);
        let ghost lab = nodes@[i as int].label@;
        proof {
            assert(node_wf(nodes@[i as int]));
            lemma_list_snoc(nodes@, i as int);
        }
        out.push(nodes[i].label.clone());
        proof {
            assert(nd[0] == lab);
            assert(decreases_to!(nodes@ => nodes@[i as int].children@));
        }
        let mut sub = forest_dir_strings(&nodes[i].children);
        let ghost sub0 = sub@;
        proof {
            vstd::std_specs::vec::axiom_spec_len(&sub);
        }
        let ghost cd = forest_dirs(nodes@[i as int].children@);
        let mut j: usize = 0;
        while sub.len() > 0
            invariant
                j <= sub0.len(),
                sub0.len() <= usize::MAX,
                j + sub@.len() == sub0.len(),
                sub@ =~= sub0.skip(j as int),
                out@.len() == base.len() + 1 + j,
                forall|t: int|
                    0 <= t < out@.len() ==> (#[trigger] out@[t])@ == forest_dirs(
                        nodes@.subrange(0, i as int + 1),
                    )[t],
            decreases sub.len(),
        {
            let d = sub.remove(0);
            let mut joined = nodes[i].label.clone();
            joined.append("/");
            joined.append(d.as_str());
            proof {
                reveal_strlit("/");
                assert("/"@ =~= seq!['/']);
                assert(d@ == sub0[j as int]@);
                assert(joined@ == lab + seq!['/'] + cd[j as int]) by {
                    assert(d@ == cd[j as int]);
                    assert(lab + seq!['/'] + d@ =~= lab + ("/")@ + d@);
                }
                assert(nd[1 + j] == lab + seq!['/'] + cd[j as int]) by {
                    assert(forest_dirs(nodes@[i as int].children@).map_values(
                        |x: Seq<char>| lab + seq!['/'] + x,
                    )[j as int] == lab + seq!['/'] + cd[j as int]);
                }
                assert(forest_dirs(nodes@.subrange(0, i as int + 1))[base.len() + 1 + j] == nd[1
                    + j]);
            }
            out.push(joined);
            j = j + 1;
        }
        proof {
            assert(j == sub0.len());
            assert(out@.len() == base.len() + nd.len());
        }
        i = i + 1;
    }
    proof {
        assert(nodes@.subrange(0, nodes@.len() as int) =~= nodes@);
    }
    out
}

/// A node's traversal lists exactly the keys that carry a payload in its
/// subtree.
pub(crate) proof fn lemma_node_keys_exact(n: Node)
    requires
        node_wf(n),
    ensures
        forall|k: Seq<char>|
            #[trigger] node_keys_list(n).contains(k) <==> node_payload(n, k) is Some,
    decreases n,
{
    lemma_forest_keys_exact(n.children@);
    let lab = n.label@;
    let cl = forest_keys_list(n.children@);
    let mapped = cl.map_values(|k: Seq<char>| lab + k);
    let list = node_keys_list(n);
    let hdr: int = if n.payload is Some {
        1
    } else {
        0
    };
    assert forall|k: Seq<char>|
        #[trigger] list.contains(k) <==> node_payload(n, k) is Some by {
        if list.contains(k) {
            let t = choose|t: int| 0 <= t < list.len() && list[t] == k;
            if n.payload is Some && t == 0 {
                assert(k == lab);
                assert(k.take(lab.len() as int) =~= lab);
                assert(node_payload(n, k) is Some);
            } else {
                assert(list[t] == mapped[t - hdr]);
                let k2 = cl[t - hdr];
                assert(mapped[t - hdr] == lab + k2);
                assert(cl.contains(k2));
                assert(forest_payload(n.children@, k2) is Some);
                if k2.len() == 0 {
                    assert forall|j: int|
                        0 <= j < n.children@.len() implies !sel(
                        #[trigger] n.children@[j],
                        k2,
                    ) by {}
                    lemma_no_sel(n.children@, k2);
                    assert(false);
                }
                assert(k == lab + k2);
                lemma_key_decompose(lab, k2, k);
                assert(node_payload(n, k) == forest_payload(n.children@, k2));
            }
        }
        if node_payload(n, k) is Some {
            if k.len() >= lab.len() && k.take(lab.len() as int) == lab {
                if k.len() == lab.len() {
                    assert(k.take(lab.len() as int) =~= k);
                    assert(k == lab);
                    assert(n.payload is Some);
                    assert(list[0] == lab);
                    assert(list.contains(k));
                } else {
                    let k2 = k.skip(lab.len() as int);
                    assert(forest_payload(n.children@, k2) is Some);
                    assert(cl.contains(k2));
                    let u = choose|u: int| 0 <= u < cl.len() && cl[u] == k2;
                    assert(mapped[u] == lab + k2);
                    assert(lab + k2 =~= k);
                    assert(list[hdr + u] == k);
                    assert(list.contains(k));
                }
            } else {
                assert(node_payload(n, k) is None);
            }
        }
    }
}

/// A forest's traversal lists exactly the keys that carry a payload: what
/// `enumerate` yields is the set of keys ever successfully inserted.
pub(crate) proof fn lemma_forest_keys_exact(cs: Seq<Node>)
    requires
        forest_wf(cs),
    ensures
        forall|k: Seq<char>|
            #[trigger] forest_keys_list(cs).contains(k) <==> forest_payload(cs, k) is Some,
    decreases cs,
{
    if cs.len() == 0 {
        assert forall|k: Seq<char>|
            #[trigger] forest_keys_list(cs).contains(k) <==> forest_payload(cs, k) is Some by {
            assert(forest_keys_list(cs).len() == 0);
        }
    } else {
        let hd = cs[0];
        let tail = cs.subrange(1, cs.len() as int);
        assert(node_wf(hd));
        lemma_node_keys_exact(hd);
        assert(forest_wf(tail)) by {
            assert forall|j: int| 0 <= j < tail.len() implies node_wf(#[trigger] tail[j]) by {
                assert(tail[j] == cs[j + 1]);
            }
            assert forall|p: int, q: int|
                0 <= p < q < tail.len() implies (#[trigger] tail[p].label@[0] as u32)
                < (#[trigger] tail[q].label@[0] as u32) by {
                assert(tail[p] == cs[p + 1] && tail[q] == cs[q + 1]);
            }
        }
        lemma_forest_keys_exact(tail);
        let nl = node_keys_list(hd);
        let tl = forest_keys_list(tail);
        let list = forest_keys_list(cs);
        assert(list == nl + tl);
        assert forall|k: Seq<char>|
            #[trigger] list.contains(k) <==> forest_payload(cs, k) is Some by {
            // A key listed under the head node selects the head.
            if nl.contains(k) {
                assert(node_payload(hd, k) is Some);
                assert(k.take(hd.label@.len() as int)[0] == hd.label@[0]);
                assert(sel(hd, k));
            }
            if sel(hd, k) {
                assert(forest_payload(cs, k) == node_payload(hd, k));
                // No later sibling can hold a key that selects the head.
                if tl.contains(k) {
                    assert(forest_payload(tail, k) is Some);
                    if forall|j: int| 0 <= j < tail.len() ==> !sel(#[trigger] tail[j], k) {
                        lemma_no_sel(tail, k);
                        assert(false);
                    }
                    let j = choose|j: int| 0 <= j < tail.len() && sel(tail[j], k);
                    assert(tail[j] == cs[j + 1]);
                    assert((cs[0].label@[0] as u32) < (cs[j + 1].label@[0] as u32));
                    assert(false);
                }
                if node_payload(hd, k) is Some {
                    assert(nl.contains(k));
                    let t = choose|t: int| 0 <= t < nl.len() && nl[t] == k;
                    assert(list[t] == k);
                    assert(list.contains(k));
                }
                if list.contains(k) {
                    let t = choose|t: int| 0 <= t < list.len() && list[t] == k;
                    if t < nl.len() {
                        assert(nl[t] == k);
                        assert(nl.contains(k));
                    } else {
                        assert(tl[t - nl.len()] == k);
                        assert(tl.contains(k));
                        assert(false);
                    }
                }
            } else {
                assert(forest_payload(cs, k) == forest_payload(tail, k));
                if list.contains(k) {
                    let t = choose|t: int| 0 <= t < list.len() && list[t] == k;
                    if t < nl.len() {
                        assert(nl[t] == k);
                        assert(nl.contains(k));
                        assert(false);
                    } else {
                        assert(tl[t - nl.len()] == k);
                        assert(tl.contains(k));
                    }
                }
                if forest_payload(tail, k) is Some {
                    assert(tl.contains(k));
                    let t = choose|t: int| 0 <= t < tl.len() && tl[t] == k;
                    assert(list[nl.len() + t] == k);
                    assert(list.contains(k));
                }
            }
        }
    }
}

/// Read-only descent for `locate`: finds the node whose chain is exactly
/// `key` and returns its node path.
#[verifier::loop_isolation(false)]
fn locate_forest(nodes: &Vec<Node>, key: &str) -> (r: Option<Vec<String>>)
    requires
        forest_wf(nodes@),
        key@.len() > 0,
    ensures
        match r {
            Some(p) => forest_chain(nodes@, key@) && path_ok(p@, key@),
            None => !forest_chain(nodes@, key@),
        },
    decreases key@.len(),
{
    let mut i: usize = 0;
    while i < nodes.len()
        invariant
            i <= nodes.len(),
            forall|j: int| 0 <= j < i ==> (#[trigger] nodes@[j].label@[0]) != key@[0],
        decreases nodes.len() - i,
    {
        let ghost lab = nodes@[i as int].label@;
        proof {
            assert(node_wf(nodes@[i as int]));
            lemma_lcp_len(lab, key@);
        }
        let ghost n = lcp_len(lab, key@) as int;
        let (pre, suf, rem) = common_prefix(nodes[i].label.as_str(), key);
        if pre.is_empty() {
            proof {
                assert(lab[0] != key@[0]) by {
                    if lab[0] == key@[0] {
                        assert(lcp_len(lab, key@) > 0);
                    }
                }
            }
            i = i + 1;
        } else if !suf.is_empty() {
            // The key diverges inside this label: no node spells the key.
            proof {
                assert(sel(nodes@[i as int], key@));
                lemma_sel_at_ro(nodes@, i as int, key@);
                assert(!node_chain(nodes@[i as int], key@)) by {
                    if key@.len() >= lab.len() && key@.take(lab.len() as int) == lab {
                        assert(key@.take(lab.len() as int)[n] == lab[n]);
                    }
                }
            }
            return None;
        } else if !rem.is_empty() {
            proof {
                assert(n == lab.len());
                assert(lab =~= key@.take(n));
                assert(sel(nodes@[i as int], key@));
                lemma_sel_at_ro(nodes@, i as int, key@);
                assert(rem@ == key@.skip(n));
            }
            let sub = locate_forest(&nodes[i].children, rem);
            match sub {
                Some(subpath) => {
                    let mut path = subpath;
                    let ghost subview = path@;
                    path.insert(0, nodes[i].label.clone());
                    proof {
                        assert(key@ =~= lab + rem@);
                        lemma_path_cons(subview, path[0], rem@);
                        assert(path@ =~= subview.insert(0, path@[0]));
                    }
                    return Some(path);
                },
                None => {
                    return None;
                },
            }
        } else {
            proof {
                assert(n == lab.len() && n == key@.len());
                assert(lab =~= key@);
                lemma_conflict(nodes@, i as int, key@);
            }
            let mut path: Vec<String> = Vec::new();
            path.push(nodes[i].label.clone());
            proof {
                assert(path@ =~= seq![path@[0]]);
                lemma_path_single(path[0], key@);
            }
            return Some(path);
        }
    }
    proof {
        lemma_no_sel(nodes@, key@);
    }
    None
}

/// `lemma_sel_at`, with the earlier-siblings condition discharged from
/// sortedness.
pub(crate) proof fn lemma_sel_at_ro(cs: Seq<Node>, i: int, k: Seq<char>)
    requires
        forest_wf(cs),
        0 <= i < cs.len(),
        sel(cs[i], k),
    ensures
        forest_chain(cs, k) == node_chain(cs[i], k),
        forest_payload(cs, k) == node_payload(cs[i], k),
{
    assert forall|j: int| 0 <= j < i implies !sel(#[trigger] cs[j], k) by {
        assert((cs[j].label@[0] as u32) < (cs[i].label@[0] as u32));
    }
    lemma_sel_at(cs, i, k);
}

/// Read-only descent for `get_payload`.
#[verifier::loop_isolation(false)]
fn payload_forest(nodes: &Vec<Node>, key: &str) -> (r: Option<String>)
    requires
        forest_wf(nodes@),
        key@.len() > 0,
    ensures
        match r {
            Some(s) => forest_payload(nodes@, key@) == Some(s@),
            None => forest_payload(nodes@, key@) is None,
        },
    decreases key@.len(),
{
    let mut i: usize = 0;
    while i < nodes.len()
        invariant
            i <= nodes.len(),
            forall|j: int| 0 <= j < i ==> (#[trigger] nodes@[j].label@[0]) != key@[0],
        decreases nodes.len() - i,
    {
        let ghost lab = nodes@[i as int].label@;
        proof {
            assert(node_wf(nodes@[i as int]));
            lemma_lcp_len(lab, key@);
        }
        let ghost n = lcp_len(lab, key@) as int;
        let (pre, suf, rem) = common_prefix(nodes[i].label.as_str(), key);
        if pre.is_empty() {
            proof {
                assert(lab[0] != key@[0]) by {
                    if lab[0] == key@[0] {
                        assert(lcp_len(lab, key@) > 0);
                    }
                }
            }
            i = i + 1;
        } else if !suf.is_empty() {
            proof {
                assert(sel(nodes@[i as int], key@));
                lemma_sel_at_ro(nodes@, i as int, key@);
                assert(node_payload(nodes@[i as int], key@) is None) by {
                    if key@.len() >= lab.len() && key@.take(lab.len() as int) == lab {
                        assert(key@.take(lab.len() as int)[n] == lab[n]);
                    }
                }
            }
            return None;
        } else if !rem.is_empty() {
            proof {
                assert(n == lab.len());
                assert(lab =~= key@.take(n));
                assert(sel(nodes@[i as int], key@));
                lemma_sel_at_ro(nodes@, i as int, key@);
                assert(rem@ == key@.skip(n));
            }
            return payload_forest(&nodes[i].children, rem);
        } else {
            proof {
                assert(n == lab.len() && n == key@.len());
                assert(lab =~= key@);
                assert(sel(nodes@[i as int], key@));
                lemma_sel_at_ro(nodes@, i as int, key@);
                assert(key@.take(lab.len() as int) =~= lab);
            }
            match &nodes[i].payload {
                Some(s) => {
                    return Some(s.clone());
                },
                None => {
                    return None;
                },
            }
        }
    }
    proof {
        lemma_no_sel(nodes@, key@);
    }
    None
}

impl TrieStore {
    /// The prefix-free-sibling invariant, at every level of the trie.
    pub closed spec fn wf(&self) -> bool {
        forest_wf(self.roots@)
    }

    /// Does the trie contain a node whose root-to-node label concatenation
    /// is exactly `k`?
    pub closed spec fn has_chain(&self, k: Seq<char>) -> bool {
        forest_chain(self.roots@, k)
    }

    /// The payload recorded for key `k`, if any.
    pub closed spec fn payload_of(&self, k: Seq<char>) -> Option<Seq<char>> {
        forest_payload(self.roots@, k)
    }

    /// The set of keys that carry a payload.
    pub open spec fn keys(&self) -> Set<Seq<char>> {
        Set::new(|k: Seq<char>| self.payload_of(k) is Some)
    }

    /// The trie holds the same chains and payloads as `other`.
    pub open spec fn same_model(&self, other: &TrieStore) -> bool {
        &&& forall|k: Seq<char>| #[trigger] self.has_chain(k) == other.has_chain(k)
        &&& forall|k: Seq<char>| #[trigger] self.payload_of(k) == other.payload_of(k)
    }

    /// Inserts `key` into the trie, recording `payload` at its node, and
    /// returns the node path (the edge labels from the root down to the
    /// key's node). Splits an existing sibling when the key diverges
    /// inside its label. Fails with `Conflict` when the key's full path
    /// already exists, and with `InvariantViolation` on an empty key; in
    /// both cases the trie is unchanged.
    pub fn insert(&mut self, key: &str, payload: &str) -> (r: Result<Vec<String>, Error>)
        requires
            old(self).wf(),
        ensures
            final(self).wf(),
            match r {
                Ok(path) => {
                    &&& key@.len() > 0
                    &&& !old(self).has_chain(key@)
                    &&& final(self).has_chain(key@)
                    &&& path_ok(path@, key@)
                    &&& forall|k: Seq<char>|
                        #[trigger] final(self).payload_of(k) == if k == key@ {
                            Some(payload@)
                        } else {
                            old(self).payload_of(k)
                        }
                    &&& forall|k: Seq<char>|
                        old(self).has_chain(k) ==> #[trigger] final(self).has_chain(k)
                    &&& forall|k: Seq<char>|
                        #[trigger] final(self).has_chain(k) ==> old(self).has_chain(k)
                            || is_prefix_of(k, key@)
                    // The chain set grows by exactly the key and one
                    // pinned split point.
                    &&& exists|q: Seq<char>| chain_delta(*old(self), *final(self), key@, q)
                },
                Err(Error::Conflict) => key@.len() > 0 && old(self).has_chain(key@)
                    && final(self).same_model(&old(self)),
                Err(Error::InvariantViolation) => key@.len() == 0
                    && final(self).same_model(&old(self)),
                Err(_) => false,
            },
    {
        if key.is_empty() {
            return Err(Error::InvariantViolation);
        }
        let mut tmp: Vec<Node> = Vec::new();
        core::mem::swap(&mut tmp, &mut self.roots);
        let (out, r) = insert_forest(tmp, key, payload);
        self.roots = out;
        proof {
            if r is Ok {
                let q = choose|q: Seq<char>|
                    ins_chain_delta(old(self).roots@, self.roots@, key@, q);
                assert(chain_delta(*old(self), *self, key@, q)) by {
                    if forall|c: Seq<char>|
                        #[trigger] old(self).has_chain(c) ==> c.len() == 0 || c[0] != key@[0] {
                        assert forall|j: int|
                            0 <= j < old(self).roots@.len() implies (#[trigger] old(
                            self,
                        ).roots@[j].label@[0]) != key@[0] by {
                            lemma_label_chain(old(self).roots@, j);
                            assert(old(self).has_chain(old(self).roots@[j].label@));
                            assert(node_wf(old(self).roots@[j]));
                        }
                    }
                    if q != key@ {
                        let c = choose|c: Seq<char>|
                            #[trigger] forest_chain(old(self).roots@, c) && is_prefix_of(q, c);
                        assert(old(self).has_chain(c) && is_prefix_of(q, c));
                    } else {
                        if !(forall|c: Seq<char>|
                            #[trigger] forest_chain(old(self).roots@, c) ==> c.len() == 0
                                || c[0] != key@[0]) {
                            let c = choose|c: Seq<char>|
                                #[trigger] forest_chain(old(self).roots@, c) && is_prefix_of(
                                    key@,
                                    c,
                                );
                            assert(old(self).has_chain(c) && is_prefix_of(key@, c));
                        }
                    }
                }
            }
        }
        r
    }

    /// Walks the trie without mutating it: follows, at every level, the
    /// unique child whose label is a full prefix of the remaining key, and
    /// succeeds when the key is exactly consumed, returning the node path.
    pub fn locate(&self, key: &str) -> (r: Option<Vec<String>>)
        requires
            self.wf(),
        ensures
            match r {
                Some(p) => self.has_chain(key@) && path_ok(p@, key@),
                None => !self.has_chain(key@),
            },
    {
        if key.is_empty() {
            proof {
                lemma_no_sel(self.roots@, key@);
            }
            return None;
        }
        locate_forest(&self.roots, key)
    }

    /// Reads the payload recorded for `key`, if its node exists and
    /// carries one.
    pub fn get_payload(&self, key: &str) -> (r: Option<String>)
        requires
            self.wf(),
        ensures
            match r {
                Some(s) => self.payload_of(key@) == Some(s@),
                None => self.payload_of(key@) is None,
            },
    {
        if key.is_empty() {
            proof {
                lemma_no_sel(self.roots@, key@);
            }
            return None;
        }
        payload_forest(&self.roots, key)
    }

    /// The keys that carry a payload, in traversal (lexicographic) order.
    pub closed spec fn keys_in_order(&self) -> Seq<Seq<char>> {
        forest_keys_list(self.roots@)
    }

    /// The directory path of every node, in traversal order.
    pub closed spec fn dirs_in_order(&self) -> Seq<Seq<char>> {
        forest_dirs(self.roots@)
    }

    /// Walks the whole trie in label order at every level and returns the
    /// node path of every node that carries a payload. Each call opens a
    /// fresh traversal; the trie is not changed.
    pub fn enumerate(&self) -> (r: Vec<Vec<String>>)
        requires
            self.wf(),
        ensures
            r@.len() == self.keys_in_order().len(),
            forall|t: int|
                0 <= t < r@.len() ==> path_ok((#[trigger] r@[t])@, self.keys_in_order()[t]),
    {
        forest_paths(&self.roots)
    }

    /// The directory paths of all trie nodes (labels joined by `/`), in
    /// traversal order: the on-disk shape of the trie.
    pub fn dir_paths(&self) -> (r: Vec<String>)
        requires
            self.wf(),
        ensures
            r@.len() == self.dirs_in_order().len(),
            forall|t: int| 0 <= t < r@.len() ==> (#[trigger] r@[t])@ == self.dirs_in_order()[t],
    {
        forest_dir_strings(&self.roots)
    }

    /// Creates an empty trie.
    pub fn new() -> (t: TrieStore)
        ensures
            t.wf(),
            forall|k: Seq<char>| !t.has_chain(k),
            forall|k: Seq<char>| t.payload_of(k) is None,
    {
        let t = TrieStore { roots: Vec::new() };
        proof {
            assert forall|k: Seq<char>| !t.has_chain(k) && t.payload_of(k) is None by {
                assert(t.roots@.len() == 0);
            }
        }
        t
    }
}

/// Strict lexicographic order on character sequences, by code point; a
/// proper prefix comes before its extensions.
pub open spec fn lex_lt(a: Seq<char>, b: Seq<char>) -> bool
    decreases a.len(),
{
    if b.len() == 0 {
        false
    } else if a.len() == 0 {
        true
    } else if (a[0] as u32) < (b[0] as u32) {
        true
    } else if a[0] == b[0] {
        lex_lt(a.drop_first(), b.drop_first())
    } else {
        false
    }
}

/// Nothing is lexicographically below itself.
pub proof fn lemma_lex_irrefl(a: Seq<char>)
    ensures
        !lex_lt(a, a),
    decreases a.len(),
{
    if a.len() > 0 {
        lemma_lex_irrefl(a.drop_first());
    }
}

/// A sequence comes before its proper extensions.
pub proof fn lemma_lex_prefix(a: Seq<char>, k: Seq<char>)
    requires
        k.len() > 0,
    ensures
        lex_lt(a, a + k),
    decreases a.len(),
{
    let b = a + k;
    if a.len() == 0 {
    } else {
        assert(b[0] == a[0]);
        lemma_lex_prefix(a.drop_first(), k);
        assert(b.drop_first() =~= a.drop_first() + k);
    }
}

/// Prepending the same labels preserves the order.
pub proof fn lemma_lex_prepend(p: Seq<char>, x: Seq<char>, y: Seq<char>)
    requires
        lex_lt(x, y),
    ensures
        lex_lt(p + x, p + y),
    decreases p.len(),
{
    if p.len() == 0 {
        assert(p + x =~= x);
        assert(p + y =~= y);
    } else {
        let a = p + x;
        let b = p + y;
        assert(a[0] == p[0] && b[0] == p[0]);
        lemma_lex_prepend(p.drop_first(), x, y);
        assert(a.drop_first() =~= p.drop_first() + x);
        assert(b.drop_first() =~= p.drop_first() + y);
    }
}

/// A smaller first character decides the order.
pub proof fn lemma_lex_head(a: Seq<char>, b: Seq<char>)
    requires
        a.len() > 0,
        b.len() > 0,
        (a[0] as u32) < (b[0] as u32),
    ensures
        lex_lt(a, b),
{
}

/// Every key a node's traversal lists is non-empty and starts with the
/// node's first label character.
pub(crate) proof fn lemma_node_keys_heads(n: Node)
    requires
        n.label@.len() > 0,
    ensures
        forall|t: int|
            0 <= t < node_keys_list(n).len() ==> (#[trigger] node_keys_list(n)[t]).len() > 0
                && node_keys_list(n)[t][0] == n.label@[0],
{
    let lab = n.label@;
    let cl = forest_keys_list(n.children@);
    let mapped = cl.map_values(|k: Seq<char>| lab + k);
    let list = node_keys_list(n);
    let hdr: int = if n.payload is Some {
        1
    } else {
        0
    };
    assert forall|t: int|
        0 <= t < list.len() implies (#[trigger] list[t]).len() > 0 && list[t][0] == lab[0] by {
        if n.payload is Some && t == 0 {
            assert(list[0] == lab);
        } else {
            assert(list[t] == mapped[t - hdr]);
            assert(mapped[t - hdr] == lab + cl[t - hdr]);
            assert((lab + cl[t - hdr])[0] == lab[0]);
        }
    }
}

/// A well-formed forest's traversal lists its keys in strictly increasing
/// lexicographic order: each key appears exactly once, and an in-order
/// walk of the trie is a sorted walk of the keys.
pub(crate) proof fn lemma_forest_keys_sorted(cs: Seq<Node>)
    requires
        forest_wf(cs),
    ensures
        forall|i: int, j: int|
            0 <= i < j < forest_keys_list(cs).len() ==> lex_lt(
                #[trigger] forest_keys_list(cs)[i],
                #[trigger] forest_keys_list(cs)[j],
            ),
        forall|t: int|
            0 <= t < forest_keys_list(cs).len() ==> (#[trigger] forest_keys_list(cs)[t]).len() > 0
                && (exists|w: int|
                0 <= w < cs.len() && forest_keys_list(cs)[t][0] == (#[trigger] cs[w].label@[0])),
    decreases cs,
{
    if cs.len() == 0 {
    } else {
        let hd = cs[0];
        let tail = cs.subrange(1, cs.len() as int);
        assert(node_wf(hd));
        lemma_node_keys_sorted(hd);
        lemma_node_keys_heads(hd);
        assert(forest_wf(tail)) by {
            assert forall|j: int| 0 <= j < tail.len() implies node_wf(#[trigger] tail[j]) by {
                assert(tail[j] == cs[j + 1]);
            }
            assert forall|p: int, q: int|
                0 <= p < q < tail.len() implies (#[trigger] tail[p].label@[0] as u32)
                < (#[trigger] tail[q].label@[0] as u32) by {
                assert(tail[p] == cs[p + 1] && tail[q] == cs[q + 1]);
            }
        }
        lemma_forest_keys_sorted(tail);
        let nl = node_keys_list(hd);
        let tl = forest_keys_list(tail);
        let list = forest_keys_list(cs);
        assert(list == nl + tl);
        assert forall|t: int|
            0 <= t < list.len() implies (#[trigger] list[t]).len() > 0 && (exists|w: int|
            0 <= w < cs.len() && list[t][0] == (#[trigger] cs[w].label@[0])) by {
            if t < nl.len() {
                assert(list[t] == nl[t]);
                assert(list[t][0] == cs[0].label@[0]);
            } else {
                assert(list[t] == tl[t - nl.len()]);
                let w = choose|w: int|
                    0 <= w < tail.len() && tl[t - nl.len()][0] == (#[trigger] tail[w].label@[0]);
                assert(tail[w] == cs[w + 1]);
                assert(list[t][0] == cs[w + 1].label@[0]);
            }
        }
        assert forall|i: int, j: int|
            0 <= i < j < list.len() implies lex_lt(#[trigger] list[i], #[trigger] list[j]) by {
            if j < nl.len() {
                assert(list[i] == nl[i] && list[j] == nl[j]);
            } else if i >= nl.len() {
                assert(list[i] == tl[i - nl.len()] && list[j] == tl[j - nl.len()]);
            } else {
                assert(list[i] == nl[i] && list[j] == tl[j - nl.len()]);
                assert(nl[i].len() > 0 && nl[i][0] == hd.label@[0]);
                let w = choose|w: int|
                    0 <= w < tail.len() && tl[j - nl.len()][0] == (#[trigger] tail[w].label@[0]);
                assert(tail[w] == cs[w + 1]);
                assert((cs[0].label@[0] as u32) < (cs[w + 1].label@[0] as u32));
                assert(tl[j - nl.len()].len() > 0);
                lemma_lex_head(nl[i], tl[j - nl.len()]);
            }
        }
    }
}

/// A well-formed node's traversal lists its keys in strictly increasing
/// lexicographic order.
pub(crate) proof fn lemma_node_keys_sorted(n: Node)
    requires
        node_wf(n),
    ensures
        forall|i: int, j: int|
            0 <= i < j < node_keys_list(n).len() ==> lex_lt(
                #[trigger] node_keys_list(n)[i],
                #[trigger] node_keys_list(n)[j],
            ),
    decreases n,
{
    let lab = n.label@;
    let cl = forest_keys_list(n.children@);
    let mapped = cl.map_values(|k: Seq<char>| lab + k);
    let list = node_keys_list(n);
    let hdr: int = if n.payload is Some {
        1
    } else {
        0
    };
    lemma_forest_keys_sorted(n.children@);
    assert forall|i: int, j: int|
        0 <= i < j < list.len() implies lex_lt(#[trigger] list[i], #[trigger] list[j]) by {
        if n.payload is Some && i == 0 {
            assert(list[0] == lab);
            assert(list[j] == mapped[j - 1]);
            assert(mapped[j - 1] == lab + cl[j - 1]);
            assert(cl[j - 1].len() > 0);
            lemma_lex_prefix(lab, cl[j - 1]);
        } else {
            assert(list[i] == mapped[i - hdr] && list[j] == mapped[j - hdr]);
            assert(mapped[i - hdr] == lab + cl[i - hdr]);
            assert(mapped[j - hdr] == lab + cl[j - hdr]);
            assert(lex_lt(cl[i - hdr], cl[j - hdr]));
            lemma_lex_prepend(lab, cl[i - hdr], cl[j - hdr]);
        }
    }
}

/// A payload is always carried by an existing node.
pub(crate) proof fn lemma_forest_payload_chain(cs: Seq<Node>, k: Seq<char>)
    requires
        forest_payload(cs, k) is Some,
    ensures
        forest_chain(cs, k),
    decreases cs,
{
    if cs.len() == 0 {
    } else if sel(cs[0], k) {
        lemma_node_payload_chain(cs[0], k);
    } else {
        lemma_forest_payload_chain(cs.subrange(1, cs.len() as int), k);
    }
}

/// A payload is always carried by an existing node (single subtree).
pub(crate) proof fn lemma_node_payload_chain(n: Node, k: Seq<char>)
    requires
        node_payload(n, k) is Some,
    ensures
        node_chain(n, k),
    decreases n,
{
    let lab = n.label@;
    if k.len() > lab.len() {
        lemma_forest_payload_chain(n.children@, k.skip(lab.len() as int));
    }
}

/// Whatever carries a payload is locatable: a key with a recorded payload
/// has its chain in the trie.
pub proof fn lemma_payload_implies_chain(t: &TrieStore, k: Seq<char>)
    requires
        t.payload_of(k) is Some,
    ensures
        t.has_chain(k),
{
    lemma_forest_payload_chain(t.roots@, k);
}

/// How one successful insert of `key` turns `pre`'s chain set into
/// `post`'s: it grows by exactly the key's own chain and one split point
/// `q`. The split point is pinned: it is a non-empty prefix of the key;
/// unless it is the key itself it is a prefix of some pre-existing
/// chain; no pre-existing chain shares a longer prefix with the key; and
/// it is the key itself only in the two situations with nothing to split
/// — no chain shares the key's first character (a fresh leaf under the
/// root), or some chain extends the whole key (the key ends on an
/// existing path). This determines the final trie from the inserted
/// keys alone, independent of insertion order.
pub open spec fn chain_delta(
    pre: TrieStore,
    post: TrieStore,
    key: Seq<char>,
    q: Seq<char>,
) -> bool {
    &&& is_prefix_of(q, key)
    &&& q.len() > 0
    &&& ((forall|c: Seq<char>| #[trigger] pre.has_chain(c) ==> c.len() == 0 || c[0] != key[0])
        ==> q == key)
    &&& (q == key || (exists|c: Seq<char>| #[trigger] pre.has_chain(c) && is_prefix_of(q, c)))
    &&& (forall|c: Seq<char>, m: int|
        #![trigger pre.has_chain(c), c.take(m)]
        pre.has_chain(c) && 0 <= m <= c.len() && m <= key.len() && c.take(m) == key.take(m)
            ==> m <= q.len())
    &&& (q == key ==> (forall|c: Seq<char>|
        #[trigger] pre.has_chain(c) ==> c.len() == 0 || c[0] != key[0]) || (exists|c: Seq<char>|
        #[trigger] pre.has_chain(c) && is_prefix_of(key, c)))
    &&& (forall|k: Seq<char>|
        #[trigger] post.has_chain(k) <==> (pre.has_chain(k) || k == key || k == q))
}

/// Immediately after a successful `insert(key, payload)` turned `pre` into
/// `post`, the key's chain exists and its payload is the one just written;
/// by `locate`'s and `get_payload`'s contracts, both calls therefore
/// succeed on `key` and return that payload.
pub proof fn lemma_locate_after_insert(
    pre: &TrieStore,
    post: &TrieStore,
    key: Seq<char>,
    pl: Seq<char>,
)
    requires
        post.has_chain(key),
        forall|k: Seq<char>|
            #[trigger] post.payload_of(k) == if k == key {
                Some(pl)
            } else {
                pre.payload_of(k)
            },
    ensures
        post.has_chain(key),
        post.payload_of(key) == Some(pl),
{
    assert(post.payload_of(key) == Some(pl));
}

/// What `enumerate` yields after any sequence of inserts is exactly the
/// set of keys that carry a payload — that is, exactly the keys
/// successfully inserted, each of which appears in the traversal.
pub proof fn lemma_enumerate_exact(t: &TrieStore)
    requires
        t.wf(),
    ensures
        forall|k: Seq<char>| #[trigger] t.keys_in_order().contains(k) <==> t.payload_of(k) is Some,
        forall|k: Seq<char>| #[trigger] t.keys_in_order().contains(k) <==> t.keys().contains(k),
{
    lemma_forest_keys_exact(t.roots@);
}

/// `enumerate` yields its keys in strictly increasing lexicographic
/// order: each key appears exactly once, and the order is the
/// deterministic label order at every trie level.
pub proof fn lemma_enumerate_sorted(t: &TrieStore)
    requires
        t.wf(),
    ensures
        forall|i: int, j: int|
            0 <= i < j < t.keys_in_order().len() ==> lex_lt(
                #[trigger] t.keys_in_order()[i],
                #[trigger] t.keys_in_order()[j],
            ),
        forall|i: int, j: int|
            0 <= i < j < t.keys_in_order().len() ==> #[trigger] t.keys_in_order()[i]
                != #[trigger] t.keys_in_order()[j],
{
    lemma_forest_keys_sorted(t.roots@);
    assert forall|i: int, j: int|
        0 <= i < j < t.keys_in_order().len() implies #[trigger] t.keys_in_order()[i]
        != #[trigger] t.keys_in_order()[j] by {
        if t.keys_in_order()[i] == t.keys_in_order()[j] {
            lemma_lex_irrefl(t.keys_in_order()[i]);
        }
    }
}

} // verus!
