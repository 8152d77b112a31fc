//! The longest-common-prefix array of a suffix array, built in three ways.
//!
//! Entry `r` of the array is the number of symbols that the suffix of rank
//! `r` shares with the suffix of rank `r - 1`; entry 0 is 0.
use vstd::prelude::*;
use crate::index::{ArrayIndex, values, filled};
use crate::order::{
    suffix_lt,
    common_prefix,
    is_longest_common_prefix,
    lcp,
    lemma_lcp_is_common_prefix,
    lemma_longest_common_prefix_unique,
    lemma_lcp_sandwich,
    lemma_suffix_lt_irreflexive,
    lemma_suffix_lt_asymmetric,
};
use crate::permutation::{
    is_permutation,
    is_inverse,
    inverse_of,
    lemma_inverse_of,
    lemma_inverse_round_trip,
};
use crate::suffix_array::{
    SuffixArray,
    InverseSuffixArray,
    is_suffix_array,
    ascends_at,
    lemma_suffix_array_ascends,
    lemma_suffix_array_ranks,
};

verus! {

/// `l` is the longest-common-prefix array of the text `t` under the
/// ordering `sa` of its positions.
pub open spec fn is_lcp_array(t: Seq<int>, sa: Seq<int>, l: Seq<int>) -> bool {
    &&& l.len() == sa.len()
    &&& l.len() > 0 ==> l[0] == 0
    &&& forall|r: int|
        1 <= r < l.len() ==> is_longest_common_prefix(t, sa[r - 1], sa[r], #[trigger] l[r])
}

/// Only one array is the longest-common-prefix array of a text under a
/// given ordering: whichever way it is computed, the entries are the same.
pub proof fn lemma_lcp_array_unique(t: Seq<int>, sa: Seq<int>, l1: Seq<int>, l2: Seq<int>)
    requires
        forall|r: int| 0 <= r < sa.len() ==> 0 <= #[trigger] sa[r] <= t.len(),
        is_lcp_array(t, sa, l1),
        is_lcp_array(t, sa, l2),
    ensures
        l1 == l2,
{
    assert forall|r: int| 0 <= r < l1.len() implies l1[r] == l2[r] by {
        if r >= 1 {
            assert(is_longest_common_prefix(t, sa[r - 1], sa[r], l1[r]));
            assert(is_longest_common_prefix(t, sa[r - 1], sa[r], l2[r]));
            lemma_longest_common_prefix_unique(t, sa[r - 1], sa[r], l1[r]);
            lemma_longest_common_prefix_unique(t, sa[r - 1], sa[r], l2[r]);
        }
    }
    assert(l1 =~= l2);
}

/// Moving one position to the right in the text loses at most one symbol
/// of what a suffix shares with its predecessor in the suffix array.
pub proof fn lemma_predecessor_prefix(t: Seq<int>, sa: Seq<int>, rank: Seq<int>, i: int)
    requires
        is_suffix_array(t, sa),
        is_inverse(sa, rank),
        0 <= i,
        i + 1 < t.len(),
        rank[i] >= 1,
        rank[i + 1] >= 1,
    ensures
        lcp(t, sa[rank[i] - 1], i) <= lcp(t, sa[rank[i + 1] - 1], i + 1) + 1,
{
    lemma_inverse_round_trip(sa, rank);
    let r = rank[i];
    let j = sa[r - 1];
    assert(0 <= rank[i] < t.len() && sa[rank[i]] == i);
    assert(0 <= rank[i + 1] < t.len() && sa[rank[i + 1]] == i + 1);
    assert(0 <= j < t.len());
    if lcp(t, j, i) >= 2 {
        assert(t[j] == t[i]);
        assert(lcp(t, j + 1, i + 1) == lcp(t, j, i) - 1);
        assert(j + 1 < t.len());
        assert(ascends_at(t, sa, r - 1));
        assert(suffix_lt(t, j + 1, i + 1));
        let q = rank[i + 1];
        let k = sa[q - 1];
        assert(0 <= k < t.len());
        assert(ascends_at(t, sa, q - 1));
        let p = rank[j + 1];
        assert(0 <= p < t.len() && sa[p] == j + 1);
        lemma_suffix_array_ranks(t, sa, p, q);
        if p == q - 1 {
            lemma_suffix_lt_irreflexive(t, k);
        } else {
            lemma_suffix_array_ascends(t, sa, p, q - 1);
            lemma_suffix_lt_asymmetric(t, j + 1, k);
        }
        lemma_lcp_sandwich(t, j + 1, k, i + 1);
    }
}

/// An owned longest-common-prefix array.
#[derive(Debug)]
pub struct LcpArray<Idx: ArrayIndex> {
    lcp: Vec<Idx>,
}

impl<Idx: ArrayIndex> LcpArray<Idx> {
    /// The entries of the array.
    pub closed spec fn view(self) -> Seq<Idx> {
        self.lcp@
    }

    /// Returns a reference to the entries.
    pub fn inner(&self) -> (lcp: &[Idx])
        ensures
            lcp@ == self@,
    {
        self.lcp.as_slice()
    }

    /// Returns the entries as a vector.
    pub fn into_inner(self) -> (lcp: Vec<Idx>)
        ensures
            lcp@ == self@,
    {
        self.lcp
    }

    /// Goes through the test of a longest-common-prefix array against a
    /// suffix array and its text. It is for the suffix array of which this
    /// is the longest-common-prefix array, and for such a one the test
    /// passes. [`is_lcp_array_of`] decides, for any three, whether it is
    /// one.
    pub fn verify<T: ArrayIndex>(&self, sa: &SuffixArray<T, Idx>)
        requires
            is_lcp_array(values(sa.text_view()), values(sa@), values(self@)),
    {
        let is_lcp = is_lcp_array_of(sa.text(), sa.inner(), self.lcp.as_slice());
        assert(is_lcp);
    }
}

/// Decides whether `lcp` is the longest-common-prefix array of `text`
/// under the ordering `sa` of its positions, by comparing each listed
/// suffix with the one listed before it.
pub fn is_lcp_array_of<T: ArrayIndex, Idx: ArrayIndex>(text: &[T], sa: &[Idx], lcp: &[Idx]) -> (ok:
    bool)
    ensures
        ok == is_lcp_array(values(text@), values(sa@), values(lcp@)),
{
    let n = sa.len();
    let len = text.len();
    let ghost t = values(text@);
    let ghost s = values(sa@);
    let ghost l = values(lcp@);
    if lcp.len() != n {
        return false;
    }
    if n == 0 {
        return true;
    }
    if lcp[0].as_usize() != 0 {
        assert(l[0] == lcp@[0].value());
        return false;
    }
    assert(l[0] == lcp@[0].value());
    let mut r: usize = 1;
    while r < n
        invariant
            n == sa.len(),
            n == lcp.len(),
            len == text.len(),
            t == values(text@),
            s == values(sa@),
            l == values(lcp@),
            l[0] == 0,
            1 <= r,
            forall|k: int|
                1 <= k < r ==> is_longest_common_prefix(t, s[k - 1], s[k], #[trigger] l[k]),
        decreases n - r,
    {
        let a = sa[r - 1].as_usize();
        let b = sa[r].as_usize();
        let given = lcp[r].as_usize();
        assert(s[r - 1] == a && s[r as int] == b && l[r as int] == given);
        if a > len || b > len {
            assert(!is_longest_common_prefix(t, s[r - 1], s[r as int], l[r as int]));
            return false;
        }
        let shared = extend_common_prefix(text, a, b, 0);
        if given != shared {
            proof {
                lemma_longest_common_prefix_unique(t, a as int, b as int, given as int);
            }
            return false;
        }
        r += 1;
    }
    true
}

/// Counts the symbols that the suffixes at `a` and `b` share, given that
/// they share at least `known`.
pub fn extend_common_prefix<T: ArrayIndex>(text: &[T], a: usize, b: usize, known: usize) -> (l:
    usize)
    requires
        common_prefix(values(text@), a as int, b as int, known as int),
    ensures
        l == lcp(values(text@), a as int, b as int),
        is_longest_common_prefix(values(text@), a as int, b as int, l as int),
{
    let n = text.len();
    let ghost t = values(text@);
    let mut l: usize = known;
    while a + l < n && b + l < n && text[a + l].as_usize() == text[b + l].as_usize()
        invariant
            n == text.len(),
            t == values(text@),
            common_prefix(t, a as int, b as int, l as int),
        decreases n - l,
    {
        assert forall|k: int| 0 <= k < l + 1 implies t[a + k] == #[trigger] t[b + k] by {
            if k == l {
                assert(t[a + l] == text@[a + l].value());
                assert(t[b + l] == text@[b + l].value());
            }
        }
        l += 1;
    }
    proof {
        if common_prefix(t, a as int, b as int, l + 1) {
            assert(t[a + l] == t[b + l]);
            assert(t[a + l] == text@[a + l].value());
            assert(t[b + l] == text@[b + l].value());
        }
        lemma_longest_common_prefix_unique(t, a as int, b as int, l as int);
    }
    l
}

/// Computes the array by comparing each suffix with its predecessor in the
/// suffix array, symbol by symbol from the start.
pub fn naive<T: ArrayIndex, Idx: ArrayIndex>(sa: &SuffixArray<T, Idx>) -> (lcp: LcpArray<Idx>)
    ensures
        is_lcp_array(values(sa.text_view()), values(sa@), values(lcp@)),
{
    let text = sa.text();
    let order = sa.inner();
    let n = order.len();
    let ghost t = values(text@);
    let ghost s = values(order@);
    let mut out: Vec<Idx> = filled(n, Idx::from_usize(0));
    let mut r: usize = 1;
    while r < n
        invariant
            n == order.len(),
            n == text.len(),
            t == values(text@),
            s == values(order@),
            is_suffix_array(t, s),
            n <= Idx::max_index(),
            out.len() == n,
            1 <= r,
            n > 0 ==> out@[0].value() == 0,
            forall|k: int|
                1 <= k < r ==> is_longest_common_prefix(
                    t,
                    s[k - 1],
                    s[k],
                    (#[trigger] out@[k]).value() as int,
                ),
        decreases n - r,
    {
        let a = order[r - 1].as_usize();
        let b = order[r].as_usize();
        assert(s[r - 1] == a && s[r as int] == b);
        let l = extend_common_prefix(text, a, b, 0);
        out[r] = Idx::from_usize(l);
        r += 1;
    }
    LcpArray { lcp: out }
}

/// What the suffix at `i` shares with its predecessor in the suffix array;
/// nothing, if it has none.
pub open spec fn predecessor_prefix(t: Seq<int>, sa: Seq<int>, rank: Seq<int>, i: int) -> int {
    if rank[i] >= 1 {
        lcp(t, sa[rank[i] - 1], i) as int
    } else {
        0
    }
}

/// After the suffix at `i` has been compared with its predecessor, all but
/// one of the symbols that they share are known to be shared by the suffix
/// at `i + 1` and its predecessor.
proof fn lemma_carry_over(t: Seq<int>, sa: Seq<int>, rank: Seq<int>, i: int, l: int)
    requires
        is_suffix_array(t, sa),
        is_inverse(sa, rank),
        0 <= i,
        i + 1 < t.len(),
        0 <= l,
        l + 1 <= predecessor_prefix(t, sa, rank, i) || l == 0,
        rank[i + 1] >= 1,
    ensures
        common_prefix(t, sa[rank[i + 1] - 1], i + 1, l),
{
    lemma_inverse_round_trip(sa, rank);
    let q = rank[i + 1];
    let k = sa[q - 1];
    assert(0 <= q < t.len());
    assert(0 <= k < t.len());
    lemma_lcp_is_common_prefix(t, k, i + 1);
    if l > 0 {
        lemma_predecessor_prefix(t, sa, rank, i);
    }
}

/// Computes the array in text order with the help of the inverse suffix
/// array: what position `i` shares with its predecessor, less one symbol,
/// is where the comparison at position `i + 1` starts.
pub fn kasai<T: ArrayIndex, Idx: ArrayIndex>(isa: &InverseSuffixArray<T, Idx>) -> (lcp: LcpArray<
    Idx,
>)
    ensures
        is_lcp_array(values(isa.text_view()), values(isa.sa_view()), values(lcp@)),
{
    let sa = isa.sa();
    let text = sa.text();
    let order = sa.inner();
    let ranks = isa.inner();
    let n = order.len();
    let ghost t = values(text@);
    let ghost s = values(order@);
    let ghost rk = values(ranks@);
    proof {
        lemma_inverse_round_trip(s, rk);
    }
    let mut out: Vec<Idx> = filled(n, Idx::from_usize(0));
    let mut l: usize = 0;
    let mut i: usize = 0;
    while i < n
        invariant
            n == order.len(),
            n == text.len(),
            n == ranks.len(),
            t == values(text@),
            s == values(order@),
            rk == values(ranks@),
            is_suffix_array(t, s),
            is_inverse(s, rk),
            is_inverse(rk, s),
            n < Idx::max_index(),
            out.len() == n,
            i <= n,
            n > 0 ==> out@[0].value() == 0,
            forall|r: int|
                1 <= r < n && s[r] < i ==> (#[trigger] out@[r]).value() == lcp(t, s[r - 1], s[r]),
            i < n && rk[i as int] >= 1 ==> common_prefix(
                t,
                s[rk[i as int] - 1],
                i as int,
                l as int,
            ),
        decreases n - i,
    {
        let r = ranks[i].as_usize();
        assert(rk[i as int] == r);
        assert(r < n && s[r as int] == i);
        if r == 0 {
            l = 0;
        } else {
            let j = order[r - 1].as_usize();
            assert(s[r - 1] == j);
            l = extend_common_prefix(text, j, i, l);
            out[r] = Idx::from_usize(l);
            assert forall|q: int| 1 <= q < n && s[q] < i + 1 implies (#[trigger] out@[q]).value()
                == lcp(t, s[q - 1], s[q]) by {
                if q != r {
                    assert(s[q] != s[r as int]);
                }
            }
            if l > 0 {
                l -= 1;
            }
        }
        proof {
            if i + 1 < n && rk[i + 1] >= 1 {
                lemma_carry_over(t, s, rk, i as int, l as int);
            }
        }
        i += 1;
    }
    proof {
        let o = values(out@);
        assert forall|r: int| 1 <= r < o.len() implies is_longest_common_prefix(
            t,
            s[r - 1],
            s[r],
            #[trigger] o[r],
        ) by {
            assert(0 <= s[r] < n && 0 <= s[r - 1] < n);
            assert(out@[r].value() == lcp(t, s[r - 1], s[r]));
            lemma_longest_common_prefix_unique(t, s[r - 1], s[r], o[r]);
        }
    }
    LcpArray { lcp: out }
}

/// Computes the array without the inverse suffix array: a first pass notes
/// for each position its predecessor in the suffix array, a second pass in
/// text order replaces each note by the number of shared symbols, and a
/// third brings these numbers into the order of the suffix array.
pub fn phi<T: ArrayIndex, Idx: ArrayIndex>(sa: &SuffixArray<T, Idx>) -> (lcp: LcpArray<Idx>)
    ensures
        is_lcp_array(values(sa.text_view()), values(sa@), values(lcp@)),
{
    let text = sa.text();
    let order = sa.inner();
    let n = order.len();
    let ghost t = values(text@);
    let ghost s = values(order@);
    let ghost rk = inverse_of(s);
    proof {
        lemma_inverse_of(s);
        lemma_inverse_round_trip(s, rk);
    }
    // No position is its own length: `n` marks the suffix without predecessor.
    let mut by_position: Vec<Idx> = filled(n, Idx::from_usize(n));
    let mut r: usize = 1;
    while r < n
        invariant
            n == order.len(),
            s == values(order@),
            is_permutation(s),
            is_inverse(s, rk),
            is_inverse(rk, s),
            by_position.len() == n,
            1 <= r,
            forall|v: int|
                0 <= v < n ==> (#[trigger] by_position@[v]).value() == (if 1 <= rk[v] < r {
                    s[rk[v] - 1]
                } else {
                    n as int
                }),
        decreases n - r,
    {
        let p = order[r].as_usize();
        assert(s[r as int] == p);
        assert(rk[p as int] == r);
        assert(s[r - 1] == order@[r - 1].value());
        by_position[p] = order[r - 1];
        assert forall|v: int| 0 <= v < n implies (#[trigger] by_position@[v]).value() == (if 1
            <= rk[v] < r + 1 {
            s[rk[v] - 1]
        } else {
            n as int
        }) by {
            if v != p {
                assert(s[rk[v]] == v);
            }
        }
        r += 1;
    }
    let mut l: usize = 0;
    let mut i: usize = 0;
    while i < n
        invariant
            n == order.len(),
            n == text.len(),
            t == values(text@),
            s == values(order@),
            is_suffix_array(t, s),
            is_inverse(s, rk),
            is_inverse(rk, s),
            n < Idx::max_index(),
            by_position.len() == n,
            i <= n,
            forall|v: int|
                i <= v < n ==> (#[trigger] by_position@[v]).value() == (if 1 <= rk[v] {
                    s[rk[v] - 1]
                } else {
                    n as int
                }),
            forall|v: int|
                0 <= v < i ==> (#[trigger] by_position@[v]).value() == predecessor_prefix(
                    t,
                    s,
                    rk,
                    v,
                ),
            i < n && rk[i as int] >= 1 ==> common_prefix(
                t,
                s[rk[i as int] - 1],
                i as int,
                l as int,
            ),
        decreases n - i,
    {
        let j = by_position[i].as_usize();
        assert(0 <= rk[i as int] < n);
        if j >= n {
            assert(rk[i as int] == 0) by {
                if rk[i as int] >= 1 {
                    assert(0 <= s[rk[i as int] - 1] < n);
                }
            }
            l = 0;
        } else {
            l = extend_common_prefix(text, j, i, l);
        }
        by_position[i] = Idx::from_usize(l);
        if l > 0 {
            l -= 1;
        }
        proof {
            if i + 1 < n && rk[i + 1] >= 1 {
                lemma_carry_over(t, s, rk, i as int, l as int);
            }
        }
        i += 1;
    }
    let mut out: Vec<Idx> = filled(n, Idx::from_usize(0));
    let mut r: usize = 1;
    while r < n
        invariant
            n == order.len(),
            s == values(order@),
            is_permutation(s),
            is_inverse(s, rk),
            by_position.len() == n,
            out.len() == n,
            1 <= r,
            n > 0 ==> out@[0].value() == 0,
            forall|v: int|
                0 <= v < n ==> (#[trigger] by_position@[v]).value() == predecessor_prefix(
                    t,
                    s,
                    rk,
                    v,
                ),
            forall|q: int|
                1 <= q < r ==> (#[trigger] out@[q]).value() == lcp(t, s[q - 1], s[q]),
        decreases n - r,
    {
        let p = order[r].as_usize();
        assert(s[r as int] == p);
        assert(rk[p as int] == r);
        out[r] = by_position[p];
        r += 1;
    }
    proof {
        let o = values(out@);
        assert forall|q: int| 1 <= q < o.len() implies is_longest_common_prefix(
            t,
            s[q - 1],
            s[q],
            #[trigger] o[q],
        ) by {
            assert(0 <= s[q] < n && 0 <= s[q - 1] < n);
            assert(out@[q].value() == lcp(t, s[q - 1], s[q]));
            lemma_longest_common_prefix_unique(t, s[q - 1], s[q], o[q]);
        }
    }
    LcpArray { lcp: out }
}

} // verus!
