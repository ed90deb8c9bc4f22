//! Longest-common-prefix computation on strings.
//!
//! Every edit decision of the directory trie is driven by the longest common
//! prefix between a child's edge label and the remaining suffix of the key
//! being inserted or looked up.

use vstd::prelude::*;

verus! {

/// Length of the longest common prefix of two character sequences.
pub open spec fn lcp_len(a: Seq<char>, b: Seq<char>) -> nat
    decreases a.len(),
{
    if a.len() == 0 || b.len() == 0 || a[0] != b[0] {
        0
    } else {
        1 + lcp_len(a.drop_first(), b.drop_first())
    }
}

/// The defining properties of `lcp_len`: it is a common prefix length,
/// and it is maximal.
pub proof fn lemma_lcp_len(a: Seq<char>, b: Seq<char>)
    ensures
        lcp_len(a, b) <= a.len(),
        lcp_len(a, b) <= b.len(),
        forall|j: int| 0 <= j < lcp_len(a, b) ==> a[j] == b[j],
        lcp_len(a, b) < a.len() && lcp_len(a, b) < b.len() ==> a[lcp_len(a, b) as int]
            != b[lcp_len(a, b) as int],
    decreases a.len(),
{
    if a.len() == 0 || b.len() == 0 || a[0] != b[0] {
    } else {
        lemma_lcp_len(a.drop_first(), b.drop_first());
        let n = lcp_len(a, b);
        assert forall|j: int| 0 <= j < n implies a[j] == b[j] by {
            if j > 0 {
                assert(a.drop_first()[j - 1] == b.drop_first()[j - 1]);
            }
        }
        if n < a.len() && n < b.len() {
            assert(a.drop_first()[n - 1] != b.drop_first()[n - 1]);
        }
    }
}

/// Any index that satisfies the defining properties is `lcp_len`.
pub proof fn lemma_lcp_len_unique(a: Seq<char>, b: Seq<char>, n: int)
    requires
        0 <= n <= a.len(),
        n <= b.len(),
        forall|j: int| 0 <= j < n ==> a[j] == b[j],
        n < a.len() && n < b.len() ==> a[n] != b[n],
    ensures
        n == lcp_len(a, b),
    decreases a.len(),
{
    if n == 0 {
        if a.len() > 0 && b.len() > 0 && a[0] == b[0] {
            assert(false);
        }
    } else {
        assert(a[0] == b[0]);
        lemma_lcp_len_unique(a.drop_first(), b.drop_first(), n - 1);
    }
}

/// Splits `a` and `b` around their longest common prefix, returning
/// `(prefix, suffix of a, suffix of b)`, with the prefix taken from `b`.
pub fn common_prefix<'a, 'b>(a: &'a str, b: &'b str) -> (r: (&'b str, &'a str, &'b str))
    ensures
        r.0@ == b@.take(lcp_len(a@, b@) as int),
        r.1@ == a@.skip(lcp_len(a@, b@) as int),
        r.2@ == b@.skip(lcp_len(a@, b@) as int),
{
    let a_len = a.unicode_len();
    let b_len = b.unicode_len();
    let mut at: usize = 0;
    while at < a_len && at < b_len && a.get_char(at) == b.get_char(at)
        invariant
            at <= a_len <= a@.len(),
            at <= b_len <= b@.len(),
            a_len == a@.len(),
            b_len == b@.len(),
            forall|j: int| 0 <= j < at ==> a@[j] == b@[j],
        decreases a_len - at,
    {
        at = at + 1;
    }
    proof {
        lemma_lcp_len_unique(a@, b@, at as int);
    }
    (b.substring_char(0, at), a.substring_char(at, a_len), b.substring_char(at, b_len))
}

} // verus!
