//! The lexicographic order on the suffixes of a text, and the length of the
//! prefix that two suffixes share.
//!
//! A text is modelled as a `Seq<int>` of symbols. The suffix that starts
//! at position `a` is named by `a` alone; the position `t.len()` names the
//! empty suffix. No terminator is part of the text: a suffix that is a
//! proper prefix of another is the smaller one, as if an invisible symbol
//! below every real one closed the text.
use vstd::prelude::*;

verus! {

/// The suffix at `a` is strictly below the suffix at `b`.
pub open spec fn suffix_lt(t: Seq<int>, a: int, b: int) -> bool
    recommends
        0 <= a,
        0 <= b,
    decreases t.len() - a,
{
    if a < 0 || b < 0 {
        false
    } else if a >= t.len() {
        b < t.len()
    } else if b >= t.len() {
        false
    } else if t[a] != t[b] {
        t[a] < t[b]
    } else {
        suffix_lt(t, a + 1, b + 1)
    }
}

/// The suffixes at `a` and `b` agree on their first `l` symbols, and both
/// are at least `l` symbols long.
pub open spec fn common_prefix(t: Seq<int>, a: int, b: int, l: int) -> bool {
    &&& 0 <= l
    &&& a + l <= t.len()
    &&& b + l <= t.len()
    &&& forall|k: int| 0 <= k < l ==> t[a + k] == #[trigger] t[b + k]
}

/// `l` is the length of the longest prefix that the suffixes at `a` and
/// `b` share.
pub open spec fn is_longest_common_prefix(t: Seq<int>, a: int, b: int, l: int) -> bool {
    &&& common_prefix(t, a, b, l)
    &&& !common_prefix(t, a, b, l + 1)
}

/// The length of the longest common prefix, by direct comparison.
pub open spec fn lcp(t: Seq<int>, a: int, b: int) -> nat
    recommends
        0 <= a,
        0 <= b,
    decreases t.len() - a,
{
    if 0 <= a < t.len() && 0 <= b < t.len() && t[a] == t[b] {
        1 + lcp(t, a + 1, b + 1)
    } else {
        0
    }
}

/// No suffix is below itself.
pub proof fn lemma_suffix_lt_irreflexive(t: Seq<int>, a: int)
    ensures
        !suffix_lt(t, a, a),
    decreases t.len() - a,
{
    if 0 <= a < t.len() {
        lemma_suffix_lt_irreflexive(t, a + 1);
    }
}

/// Two suffixes are never below each other.
pub proof fn lemma_suffix_lt_asymmetric(t: Seq<int>, a: int, b: int)
    ensures
        !(suffix_lt(t, a, b) && suffix_lt(t, b, a)),
    decreases t.len() - a,
{
    if 0 <= a < t.len() && 0 <= b < t.len() && t[a] == t[b] {
        lemma_suffix_lt_asymmetric(t, a + 1, b + 1);
    }
}

/// The order is transitive.
pub proof fn lemma_suffix_lt_transitive(t: Seq<int>, a: int, b: int, c: int)
    requires
        suffix_lt(t, a, b),
        suffix_lt(t, b, c),
    ensures
        suffix_lt(t, a, c),
    decreases t.len() - a,
{
    if 0 <= a < t.len() && 0 <= b < t.len() && 0 <= c < t.len() && t[a] == t[b] && t[b] == t[c] {
        lemma_suffix_lt_transitive(t, a + 1, b + 1, c + 1);
    }
}

/// Two different suffixes are comparable.
pub proof fn lemma_suffix_lt_total(t: Seq<int>, a: int, b: int)
    requires
        0 <= a <= t.len(),
        0 <= b <= t.len(),
        a != b,
    ensures
        suffix_lt(t, a, b) || suffix_lt(t, b, a),
    decreases t.len() - a,
{
    if a < t.len() && b < t.len() && t[a] == t[b] {
        lemma_suffix_lt_total(t, a + 1, b + 1);
    }
}

/// The recursive length is a common prefix.
pub proof fn lemma_lcp_is_common_prefix(t: Seq<int>, a: int, b: int)
    requires
        0 <= a <= t.len(),
        0 <= b <= t.len(),
    ensures
        common_prefix(t, a, b, lcp(t, a, b) as int),
    decreases t.len() - a,
{
    if a < t.len() && b < t.len() && t[a] == t[b] {
        lemma_lcp_is_common_prefix(t, a + 1, b + 1);
        let l = lcp(t, a, b) as int;
        assert forall|k: int| 0 <= k < l implies t[a + k] == #[trigger] t[b + k] by {
            if k > 0 {
                assert(t[(a + 1) + (k - 1)] == t[(b + 1) + (k - 1)]);
            }
        }
    }
}

/// Every common prefix is at most as long as the recursive length.
pub proof fn lemma_common_prefix_bounded(t: Seq<int>, a: int, b: int, l: int)
    requires
        0 <= a,
        0 <= b,
        common_prefix(t, a, b, l),
    ensures
        l <= lcp(t, a, b),
    decreases l,
{
    if l > 0 {
        assert(t[a + 0] == t[b + 0]);
        assert forall|k: int| 0 <= k < l - 1 implies t[(a + 1) + k] == #[trigger] t[(b + 1) + k] by {
            assert(t[a + (k + 1)] == t[b + (k + 1)]);
        }
        lemma_common_prefix_bounded(t, a + 1, b + 1, l - 1);
    }
}

/// The longest common prefix is unique, and it is the recursive length.
pub proof fn lemma_longest_common_prefix_unique(t: Seq<int>, a: int, b: int, l: int)
    requires
        0 <= a <= t.len(),
        0 <= b <= t.len(),
    ensures
        is_longest_common_prefix(t, a, b, l) <==> l == lcp(t, a, b),
{
    let m = lcp(t, a, b) as int;
    lemma_lcp_is_common_prefix(t, a, b);
    if common_prefix(t, a, b, m + 1) {
        lemma_common_prefix_bounded(t, a, b, m + 1);
    }
    if is_longest_common_prefix(t, a, b, l) {
        lemma_common_prefix_bounded(t, a, b, l);
        if l < m {
            assert forall|k: int| 0 <= k < l + 1 implies t[a + k] == #[trigger] t[b + k] by {}
            assert(common_prefix(t, a, b, l + 1));
        }
    }
}

/// A suffix that lies between two others in the order shares with the
/// upper one at least what the lower one shares with it.
pub proof fn lemma_lcp_sandwich(t: Seq<int>, a: int, b: int, c: int)
    requires
        0 <= a,
        0 <= b,
        0 <= c,
        !suffix_lt(t, b, a),
        suffix_lt(t, b, c),
    ensures
        lcp(t, a, c) <= lcp(t, b, c),
    decreases t.len() - a,
{
    if a < t.len() && c < t.len() && t[a] == t[c] {
        assert(b < t.len());
        assert(t[b] == t[a]);
        lemma_lcp_sandwich(t, a + 1, b + 1, c + 1);
    }
}

} // verus!
