//! The reduced text: the left-most S positions of a text, each named by
//! the rank of the substring that it starts. Sorting the suffixes of the
//! reduced text sorts the suffixes at the left-most S positions.
use vstd::prelude::*;
use crate::order::{suffix_lt, lemma_suffix_lt_irreflexive, lemma_suffix_lt_asymmetric};
use crate::permutation::lemma_permutation_onto;
use crate::suffix_array::{is_suffix_array, lemma_suffix_array_ascends};
use crate::suffix_array::sais::keys::{
    le_s,
    tie_s,
    next_lms,
    lemma_le_s_strict,
    lemma_tie_s_substring,
    lemma_skip_common,
    lms_in_order,
};
use crate::suffix_array::sais::types::{is_lms, lms_count, lemma_lms_count_monotonic};

verus! {

/// The left-most S positions below `upto`, in the order of the text.
pub open spec fn lms_list(t: Seq<int>, upto: int) -> Seq<int>
    decreases upto,
{
    if upto <= 0 {
        Seq::empty()
    } else if is_lms(t, upto - 1) {
        lms_list(t, upto - 1).push(upto - 1)
    } else {
        lms_list(t, upto - 1)
    }
}

/// The list holds the left-most S positions, each at the index that is
/// the number of such positions before it.
pub proof fn lemma_lms_list(t: Seq<int>, upto: int)
    requires
        0 <= upto <= t.len(),
    ensures
        lms_list(t, upto).len() == lms_count(t, upto),
        forall|r: int|
            0 <= r < lms_list(t, upto).len() ==> {
                let p = #[trigger] lms_list(t, upto)[r];
                0 <= p < upto && is_lms(t, p) && lms_count(t, p) == r
            },
        forall|p: int|
            0 <= p < upto && #[trigger] is_lms(t, p) ==> lms_count(t, p) < lms_list(t, upto).len()
                && lms_list(t, upto)[lms_count(t, p) as int] == p,
    decreases upto,
{
    if upto > 0 {
        lemma_lms_list(t, upto - 1);
        let shorter = lms_list(t, upto - 1);
        let list = lms_list(t, upto);
        assert forall|r: int| 0 <= r < list.len() implies {
            let p = #[trigger] list[r];
            0 <= p < upto && is_lms(t, p) && lms_count(t, p) == r
        } by {
            if r < shorter.len() {
                assert(list[r] == shorter[r]);
            }
        }
        assert forall|p: int| 0 <= p < upto && #[trigger] is_lms(t, p) implies lms_count(t, p)
            < list.len() && list[lms_count(t, p) as int] == p by {
            if p < upto - 1 {
                assert(shorter[lms_count(t, p) as int] == p);
            }
        }
    }
}

/// The list ascends.
pub proof fn lemma_lms_list_ascends(t: Seq<int>, r: int, s: int)
    requires
        0 <= r < s < lms_list(t, t.len() as int).len(),
    ensures
        lms_list(t, t.len() as int)[r] < lms_list(t, t.len() as int)[s],
{
    let list = lms_list(t, t.len() as int);
    lemma_lms_list(t, t.len() as int);
    let p = list[r];
    let q = list[s];
    assert(lms_count(t, p) == r && lms_count(t, q) == s);
    if q <= p {
        lemma_lms_count_monotonic(t, q, p);
    }
}

/// Behind position `x`, the next left-most S position is the one whose
/// index in the list is the number of such positions up to `x`.
pub proof fn lemma_next_lms(t: Seq<int>, x: int)
    requires
        0 <= x < t.len(),
    ensures
        next_lms(t, x) == (if lms_count(t, x + 1) < lms_list(t, t.len() as int).len() {
            lms_list(t, t.len() as int)[lms_count(t, x + 1) as int]
        } else {
            t.len() as int
        }),
    decreases t.len() - x,
{
    let n = t.len() as int;
    lemma_lms_list(t, n);
    if x + 1 >= n {
    } else if is_lms(t, x + 1) {
    } else {
        lemma_next_lms(t, x + 1);
        assert(lms_count(t, x + 2) == lms_count(t, x + 1));
    }
}

/// The position in the text that the index `r` of the reduced text stands
/// for; the end of the one stands for the end of the other.
pub open spec fn unreduced(t: Seq<int>, r: int) -> int {
    if 0 <= r < lms_list(t, t.len() as int).len() {
        lms_list(t, t.len() as int)[r]
    } else {
        t.len() as int
    }
}

/// The names in `t1` rank the substrings that the left-most S positions of
/// `t` start: a smaller name goes with a substring that comes first, and
/// equal names go with substrings that are alike.
pub open spec fn names_fit(t: Seq<int>, t1: Seq<int>) -> bool {
    &&& t1.len() == lms_list(t, t.len() as int).len()
    &&& forall|r: int, s: int|
        0 <= r < t1.len() && 0 <= s < t1.len() && #[trigger] t1[r] < #[trigger] t1[s] ==> le_s(
            t,
            false,
            unreduced(t, r),
            unreduced(t, s),
        ) && !le_s(t, false, unreduced(t, s), unreduced(t, r))
    &&& forall|r: int, s: int|
        0 <= r < t1.len() && 0 <= s < t1.len() && r != s && #[trigger] t1[r] == #[trigger] t1[s]
            ==> tie_s(t, unreduced(t, r), unreduced(t, s))
}

/// Reduction keeps the order: two suffixes of the reduced text stand in
/// the order of the suffixes of the text that they stand for.
pub proof fn lemma_reduction(t: Seq<int>, t1: Seq<int>, a: int, b: int)
    requires
        names_fit(t, t1),
        0 <= a <= t1.len(),
        0 <= b <= t1.len(),
    ensures
        suffix_lt(t1, a, b) == suffix_lt(t, unreduced(t, a), unreduced(t, b)),
    decreases t1.len() - a,
{
    let n = t.len() as int;
    let m = t1.len() as int;
    let pos = lms_list(t, n);
    lemma_lms_list(t, n);
    let pa = unreduced(t, a);
    let pb = unreduced(t, b);
    if a < m {
        assert(pa == pos[a] && 0 <= pa < n);
    }
    if b < m {
        assert(pb == pos[b] && 0 <= pb < n);
    }
    if a < m && b < m {
        if a == b {
            lemma_suffix_lt_irreflexive(t, pa);
            lemma_suffix_lt_irreflexive(t1, a);
        } else if t1[a] < t1[b] {
            lemma_le_s_strict(t, pa, pb);
        } else if t1[b] < t1[a] {
            lemma_le_s_strict(t, pb, pa);
            lemma_suffix_lt_asymmetric(t, pa, pb);
        } else {
            assert(tie_s(t, pa, pb));
            assert(pa != pb) by {
                if a < b {
                    lemma_lms_list_ascends(t, a, b);
                } else {
                    lemma_lms_list_ascends(t, b, a);
                }
            }
            lemma_tie_s_substring(t, pa, pb);
            lemma_tie_s_substring(t, pb, pa);
            lemma_next_lms(t, pa);
            lemma_next_lms(t, pb);
            let d = next_lms(t, pa) - pa;
            assert(next_lms(t, pa) == unreduced(t, a + 1));
            assert(next_lms(t, pb) == unreduced(t, b + 1));
            lemma_skip_common(t, pa, pb, d);
            lemma_reduction(t, t1, a + 1, b + 1);
        }
    }
}

/// Sorting the reduced text sorts the left-most S positions: read through
/// the list of these positions, the suffix array of the reduced text
/// holds them in ascending order of their suffixes.
pub proof fn lemma_order_of_reduced(t: Seq<int>, t1: Seq<int>, sa1: Seq<int>, order: Seq<int>)
    requires
        names_fit(t, t1),
        is_suffix_array(t1, sa1),
        order.len() == sa1.len(),
        forall|x: int|
            0 <= x < order.len() ==> #[trigger] order[x] == lms_list(t, t.len() as int)[sa1[x]],
    ensures
        lms_in_order(t, order),
{
    let n = t.len() as int;
    let pos = lms_list(t, n);
    lemma_lms_list(t, n);
    assert forall|x: int| 0 <= x < order.len() implies is_lms(t, #[trigger] order[x]) by {
        assert(0 <= sa1[x] < pos.len());
    }
    assert forall|x: int, y: int| 0 <= x < y < order.len() implies #[trigger] suffix_lt(
        t,
        order[x],
        order[y],
    ) by {
        lemma_suffix_array_ascends(t1, sa1, x, y);
        assert(0 <= sa1[x] < pos.len() && 0 <= sa1[y] < pos.len());
        lemma_reduction(t, t1, sa1[x], sa1[y]);
    }
    assert forall|p: int| #[trigger] is_lms(t, p) implies order.contains(p) by {
        let r = lms_count(t, p) as int;
        assert(pos[r] == p);
        lemma_permutation_onto(sa1, r);
        let x = choose|x: int| 0 <= x < sa1.len() && sa1[x] == r;
        assert(order[x] == p);
    }
}

/// Every number below a symbol of `t1` is a symbol of `t1` too.
pub open spec fn dense(t1: Seq<int>) -> bool {
    forall|r: int, v: int|
        0 <= r < t1.len() && 0 <= v < #[trigger] t1[r] ==> #[trigger] t1.contains(v)
}

/// `t1` is the reduced text of `t`: it names the substrings that the
/// left-most S positions of `t` start by their ranks, counted from zero
/// and without gaps.
pub open spec fn is_reduced(t: Seq<int>, t1: Seq<int>) -> bool {
    &&& names_fit(t, t1)
    &&& forall|r: int| 0 <= r < t1.len() ==> 0 <= #[trigger] t1[r]
    &&& dense(t1)
}

/// The reduced text of `t`.
pub open spec fn reduced(t: Seq<int>) -> Seq<int> {
    choose|t1: Seq<int>| is_reduced(t, t1)
}

/// The largest of the first `upto` symbols of `t1`, or -1 if there are
/// none.
pub open spec fn max_symbol(t1: Seq<int>, upto: int) -> int
    decreases upto,
{
    if upto <= 0 {
        -1
    } else if t1[upto - 1] > max_symbol(t1, upto - 1) {
        t1[upto - 1]
    } else {
        max_symbol(t1, upto - 1)
    }
}

/// The number of names that a reduced text uses.
pub open spec fn name_count(t1: Seq<int>) -> int {
    max_symbol(t1, t1.len() as int) + 1
}

/// The largest symbol is a symbol, and no symbol is above it.
pub proof fn lemma_max_symbol(t1: Seq<int>, upto: int)
    requires
        0 <= upto <= t1.len(),
        forall|r: int| 0 <= r < t1.len() ==> 0 <= #[trigger] t1[r],
    ensures
        forall|r: int| 0 <= r < upto ==> #[trigger] t1[r] <= max_symbol(t1, upto),
        upto > 0 ==> exists|r: int| 0 <= r < upto && t1[r] == max_symbol(t1, upto),
    decreases upto,
{
    if upto > 0 {
        lemma_max_symbol(t1, upto - 1);
        if t1[upto - 1] > max_symbol(t1, upto - 1) {
            assert(t1[upto - 1] == max_symbol(t1, upto));
        } else {
            assert(0 <= t1[upto - 1]);
            let r = choose|r: int| 0 <= r < upto - 1 && t1[r] == max_symbol(t1, upto - 1);
            assert(t1[r] == max_symbol(t1, upto));
        }
    }
}

/// Of two reduced texts of one text, a symbol of the one that is at
/// least `v` goes with a symbol of the other that is at least `v`.
proof fn lemma_reduced_below(t: Seq<int>, a: Seq<int>, b: Seq<int>, r: int, v: int)
    requires
        is_reduced(t, a),
        is_reduced(t, b),
        0 <= r < a.len(),
        0 <= v <= a[r],
    ensures
        v <= b[r],
    decreases v,
{
    if v > 0 {
        assert(a.contains(v - 1));
        let s = choose|s: int| 0 <= s < a.len() && a[s] == v - 1;
        lemma_reduced_below(t, a, b, s, v - 1);
        assert(a[s] < a[r]);
        // the smaller name of `a` goes with a substring that comes first
        if b[r] < b[s] {
            assert(le_s(t, false, unreduced(t, r), unreduced(t, s)));
        } else if b[r] == b[s] {
            assert(tie_s(t, unreduced(t, r), unreduced(t, s)));
        }
    }
}

/// A text has only one reduced text.
pub proof fn lemma_reduced_unique(t: Seq<int>, a: Seq<int>, b: Seq<int>)
    requires
        is_reduced(t, a),
        is_reduced(t, b),
    ensures
        a == b,
{
    assert forall|r: int| 0 <= r < a.len() implies a[r] == b[r] by {
        lemma_reduced_below(t, a, b, r, a[r]);
        lemma_reduced_below(t, b, a, r, b[r]);
    }
    assert(a =~= b);
}

} // verus!
