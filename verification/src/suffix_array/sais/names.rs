//! Naming the substrings between the left-most S positions, once these
//! positions stand in the order of their substrings, and reading off the
//! reduced text.
use vstd::prelude::*;
use crate::index::{ArrayIndex, values, filled};
use crate::permutation::{
    is_inverse,
    lemma_inverse_round_trip,
    is_permutation,
    lemma_permutation_onto,
};
use crate::suffix_array::{is_suffix_array, ascends_at};
use crate::suffix_array::sais::counting::{lemma_distinct_bounded, lemma_covering_bounded};
use crate::suffix_array::sais::keys::{
    le_s,
    tie_s,
    tie_l,
    same_substring,
    lemma_le_s_transitive,
    lemma_tie_s_substring,
    lemma_substring_tie_s,
};
use crate::suffix_array::sais::layout::{lms_positions, lemma_lms_count};
use crate::suffix_array::sais::reduction::{
    lms_list,
    lemma_lms_list,
    unreduced,
    names_fit,
    is_reduced,
    reduced,
    name_count,
    lemma_max_symbol,
    lemma_reduced_unique,
};
use crate::suffix_array::sais::stages::{types_of, ordered_s};
use crate::suffix_array::sais::types::{
    is_s_type,
    is_lms,
    lms_count,
    lms_at,
    lemma_lms_count_monotonic,
    lemma_lms_count_half,
};

verus! {

/// `list` holds every left-most S position of `t` once, in the truncated
/// order of the pass from the right.
pub open spec fn lms_sorted(t: Seq<int>, list: Seq<int>) -> bool {
    &&& list.len() == lms_count(t, t.len() as int)
    &&& forall|x: int| 0 <= x < list.len() ==> is_lms(t, #[trigger] list[x])
    &&& forall|x: int, y: int| 0 <= x < y < list.len() ==> list[x] != list[y]
    &&& forall|x: int, y: int|
        0 <= x < y < list.len() ==> #[trigger] le_s(t, false, list[x], list[y])
    &&& forall|p: int| #[trigger] is_lms(t, p) ==> list.contains(p)
}

/// Moves the left-most S positions that `sa` holds to its front, keeping
/// their order, and empties the rest.
pub(crate) fn gather_lms<Idx: ArrayIndex>(
    types: &Vec<bool>,
    sa: &mut Vec<Idx>,
    Ghost(t): Ghost<Seq<int>>,
)
    requires
        types_of(t, types@),
        old(sa).len() == t.len(),
        t.len() < Idx::max_index(),
        is_permutation(values(old(sa)@)),
        ordered_s(t, false, values(old(sa)@)),
    ensures
        final(sa).len() == old(sa).len(),
        lms_sorted(t, values(final(sa)@).subrange(0, lms_count(t, t.len() as int) as int)),
        forall|x: int|
            lms_count(t, t.len() as int) <= x < t.len() ==> (#[trigger] final(sa)@[x]).value()
                == Idx::max_index(),
{
    let n = sa.len();
    let ghost orig = values(sa@);
    let ghost mut src: Seq<int> = Seq::empty();
    let mut found: usize = 0;
    let mut i: usize = 0;
    while i < n
        invariant
            n == sa.len(),
            n == t.len(),
            n < Idx::max_index(),
            types_of(t, types@),
            orig.len() == n,
            is_permutation(orig),
            found <= i <= n,
            src.len() == found,
            forall|k: int|
                0 <= k < found ==> 0 <= #[trigger] src[k] < i && sa@[k].value() == orig[src[k]]
                    && is_lms(t, orig[src[k]]),
            forall|k1: int, k2: int| 0 <= k1 < k2 < found ==> src[k1] < src[k2],
            forall|x: int| 0 <= x < i && is_lms(t, #[trigger] orig[x]) ==> src.contains(x),
            forall|x: int| i <= x < n ==> (#[trigger] sa@[x]).value() == orig[x],
        decreases n - i,
    {
        let v = sa[i];
        let p = v.as_usize();
        assert(orig[i as int] == p);
        assert(0 <= orig[i as int] < n);
        if lms_at(types, p) {
            sa[found] = v;
            proof {
                let longer = src.push(i as int);
                assert forall|x: int| 0 <= x < i + 1 && is_lms(
                    t,
                    #[trigger] orig[x],
                ) implies longer.contains(x) by {
                    if x < i {
                        let k = choose|k: int| 0 <= k < src.len() && src[k] == x;
                        assert(longer[k] == x);
                    } else {
                        assert(longer[found as int] == x);
                    }
                }
                src = longer;
            }
            found += 1;
        }
        i += 1;
    }
    let ghost front = values(sa@).subrange(0, found as int);
    proof {
        assert forall|k: int| 0 <= k < found implies front[k] == orig[src[k]] by {}
        assert forall|x: int, y: int| 0 <= x < y < front.len() implies front[x] != front[y] by {
            assert(src[x] < src[y]);
        }
        assert forall|x: int, y: int| 0 <= x < y < front.len() implies #[trigger] le_s(
            t,
            false,
            front[x],
            front[y],
        ) by {
            assert(src[x] < src[y]);
            assert(le_s(t, false, orig[src[x]], orig[src[y]]));
        }
        assert forall|p: int| #[trigger] is_lms(t, p) implies front.contains(p) by {
            lemma_permutation_onto(orig, p);
            let x = choose|x: int| 0 <= x < orig.len() && orig[x] == p;
            assert(src.contains(x));
            let k = choose|k: int| 0 <= k < src.len() && src[k] == x;
            assert(front[k] == p);
        }
        lemma_lms_count(t, n as int);
        assert(front.no_duplicates());
        assert forall|x: int| 0 <= x < front.len() implies 0 <= #[trigger] front[x] < n
            && lms_positions(t)(front[x]) by {
            assert(front[x] == orig[src[x]]);
        }
        lemma_distinct_bounded(front, lms_positions(t), n as int);
        assert forall|j: int| 0 <= j < n && #[trigger] lms_positions(t)(j) implies front.contains(
            j,
        ) by {
            assert(is_lms(t, j));
        }
        lemma_covering_bounded(front, lms_positions(t), n as int);
    }
    let empty = Idx::from_usize(Idx::max_usize());
    let mut x: usize = found;
    while x < n
        invariant
            n == sa.len(),
            found <= x <= n,
            empty.value() == Idx::max_index(),
            values(sa@).subrange(0, found as int) == front,
            forall|k: int| found <= k < x ==> (#[trigger] sa@[k]).value() == Idx::max_index(),
        decreases n - x,
    {
        sa[x] = empty;
        assert(values(sa@).subrange(0, found as int) =~= front);
        x += 1;
    }
}

/// Tells whether the substrings that start at two different left-most S
/// positions and run up to the next such position are alike in symbols
/// and types. A substring that runs into the end of the text is like no
/// other.
pub fn lms_substrings_equal<T: ArrayIndex>(text: &[T], types: &Vec<bool>, a: usize, b: usize) -> (equal:
    bool)
    requires
        a < text.len(),
        b < text.len(),
        a != b,
        types_of(values(text@), types@),
    ensures
        equal == tie_s(values(text@), a as int, b as int),
        is_s_type(values(text@), a as int) ==> equal == same_substring(
            values(text@),
            a as int,
            b as int,
        ),
{
    let n = text.len();
    let ghost t = values(text@);
    proof {
        if is_s_type(t, a as int) {
            if tie_s(t, a as int, b as int) {
                lemma_tie_s_substring(t, a as int, b as int);
            }
            if same_substring(t, a as int, b as int) {
                lemma_substring_tie_s(t, a as int, b as int);
            }
        }
    }
    let ghost mut in_l = false;
    let mut d: usize = 0;
    loop
        invariant
            n == text.len(),
            t == values(text@),
            types_of(t, types@),
            a != b,
            a + d <= n,
            b + d <= n,
            in_l == (d > 0 && !is_s_type(t, a + d - 1)),
            d > 0 ==> is_s_type(t, a + d - 1) == is_s_type(t, b + d - 1),
            is_s_type(t, a as int) ==> tie_s(t, a as int, b as int) == same_substring(
                t,
                a as int,
                b as int,
            ),
            tie_s(t, a as int, b as int) == (if in_l {
                tie_l(t, a + d, b + d)
            } else {
                tie_s(t, a + d, b + d)
            }),
        decreases n - d,
    {
        if a + d >= n || b + d >= n {
            return false;
        }
        let x = text[a + d].as_usize();
        let y = text[b + d].as_usize();
        assert(t[a + d] == x && t[b + d] == y);
        if x != y || types[a + d] != types[b + d] {
            return false;
        }
        if d > 0 && lms_at(types, a + d) {
            return true;
        }
        proof {
            let pa = a + d;
            let pb = b + d;
            if !is_s_type(t, pa) {
                assert(tie_l(t, pa, pb) == tie_l(t, pa + 1, pb + 1));
                in_l = true;
            } else {
                assert(!in_l);
                assert(tie_s(t, pa, pb) == tie_s(t, pa + 1, pb + 1));
            }
        }
        d += 1;
    }
}

/// The name that the substring at `list[x]` gets when the substrings are
/// named in the order of `list`: the number of times that the substring
/// changes from one entry to the next, up to `x`.
pub open spec fn names_of(t: Seq<int>, list: Seq<int>, x: int) -> int
    decreases x,
{
    if x <= 0 {
        0
    } else {
        names_of(t, list, x - 1) + if tie_s(t, list[x - 1], list[x]) {
            0int
        } else {
            1int
        }
    }
}

/// Names ascend along the list, by at most one from entry to entry.
pub proof fn lemma_names_monotonic(t: Seq<int>, list: Seq<int>, x: int, y: int)
    requires
        0 <= x <= y,
    ensures
        0 <= names_of(t, list, x) <= names_of(t, list, y) <= names_of(t, list, x) + (y - x),
        names_of(t, list, x) <= x,
    decreases y,
{
    if x < y {
        lemma_names_monotonic(t, list, x, y - 1);
    } else if x > 0 {
        lemma_names_monotonic(t, list, x - 1, x - 1);
    }
}

/// Along a sorted list, equal names go with substrings that are alike and
/// a smaller name with a substring that comes first.
pub proof fn lemma_names_order(t: Seq<int>, list: Seq<int>, x: int, y: int)
    requires
        lms_sorted(t, list),
        0 <= x <= y < list.len(),
    ensures
        names_of(t, list, x) == names_of(t, list, y) && x != y ==> tie_s(t, list[x], list[y]),
        names_of(t, list, x) < names_of(t, list, y) ==> le_s(t, false, list[x], list[y]) && !le_s(
            t,
            false,
            list[y],
            list[x],
        ),
    decreases y - x,
{
    if x < y {
        lemma_names_order(t, list, x, y - 1);
        lemma_names_monotonic(t, list, x, y - 1);
        assert(le_s(t, false, list[x], list[y]));
        assert(le_s(t, false, list[y - 1], list[y]));
        if x < y - 1 {
            assert(le_s(t, false, list[x], list[y - 1]));
        }
        if names_of(t, list, x) == names_of(t, list, y) {
            if x < y - 1 {
                lemma_le_s_transitive(t, list[y], list[y - 1], list[x]);
            }
        } else if le_s(t, false, list[y], list[x]) {
            if names_of(t, list, x) < names_of(t, list, y - 1) {
                lemma_le_s_transitive(t, list[y - 1], list[y], list[x]);
            } else if x < y - 1 {
                lemma_le_s_transitive(t, list[y], list[x], list[y - 1]);
            }
        }
    }
}

/// Every number up to the last name is the name of some entry.
pub proof fn lemma_names_dense(t: Seq<int>, list: Seq<int>, x: int, v: int)
    requires
        0 <= x,
        0 <= v <= names_of(t, list, x),
    ensures
        exists|y: int| 0 <= y <= x && names_of(t, list, y) == v,
    decreases x,
{
    if names_of(t, list, x) == v {
    } else {
        lemma_names_dense(t, list, x - 1, v);
    }
}

/// Where names were given along a sorted list and each stands in the
/// reduced text at the rank of its position, the names fit.
pub proof fn lemma_names_fit(t: Seq<int>, list: Seq<int>, t1: Seq<int>)
    requires
        lms_sorted(t, list),
        t1.len() == list.len(),
        forall|x: int|
            0 <= x < list.len() ==> #[trigger] t1[lms_count(t, list[x]) as int] == names_of(
                t,
                list,
                x,
            ),
    ensures
        names_fit(t, t1),
        forall|r: int| 0 <= r < t1.len() ==> 0 <= #[trigger] t1[r] <= names_of(t, list, list.len() - 1),
        names_of(t, list, list.len() - 1) + 1 == list.len() ==> is_permutation(t1),
{
    let n = t.len() as int;
    let m = list.len() as int;
    let pos = lms_list(t, n);
    lemma_lms_list(t, n);
    // each index of the reduced text goes with an index of the list
    assert forall|r: int| 0 <= r < m implies exists|x: int|
        0 <= x < m && list[x] == pos[r] && #[trigger] t1[r] == names_of(t, list, x) by {
        let p = pos[r];
        assert(is_lms(t, p));
        assert(list.contains(p));
        let x = choose|x: int| 0 <= x < list.len() && list[x] == p;
        assert(t1[lms_count(t, list[x]) as int] == names_of(t, list, x));
    }
    assert forall|r: int| 0 <= r < t1.len() implies 0 <= #[trigger] t1[r] <= names_of(
        t,
        list,
        list.len() - 1,
    ) by {
        let x = choose|x: int| 0 <= x < m && list[x] == pos[r] && t1[r] == names_of(t, list, x);
        lemma_names_monotonic(t, list, x, m - 1);
    }
    assert forall|r: int, s: int|
        0 <= r < t1.len() && 0 <= s < t1.len() && #[trigger] t1[r] < #[trigger] t1[s] implies le_s(
        t,
        false,
        unreduced(t, r),
        unreduced(t, s),
    ) && !le_s(t, false, unreduced(t, s), unreduced(t, r)) by {
        let x = choose|x: int| 0 <= x < m && list[x] == pos[r] && t1[r] == names_of(t, list, x);
        let y = choose|y: int| 0 <= y < m && list[y] == pos[s] && t1[s] == names_of(t, list, y);
        if y <= x {
            lemma_names_monotonic(t, list, y, x);
        } else {
            lemma_names_order(t, list, x, y);
        }
    }
    assert forall|r: int, s: int|
        0 <= r < t1.len() && 0 <= s < t1.len() && r != s && #[trigger] t1[r]
            == #[trigger] t1[s] implies tie_s(t, unreduced(t, r), unreduced(t, s)) by {
        let x = choose|x: int| 0 <= x < m && list[x] == pos[r] && t1[r] == names_of(t, list, x);
        let y = choose|y: int| 0 <= y < m && list[y] == pos[s] && t1[s] == names_of(t, list, y);
        assert(lms_count(t, pos[r]) == r && lms_count(t, pos[s]) == s);
        if x < y {
            lemma_names_order(t, list, x, y);
        } else {
            lemma_names_order(t, list, y, x);
        }
    }
    if names_of(t, list, list.len() - 1) + 1 == list.len() {
        assert forall|r: int, s: int| 0 <= r < s < t1.len() implies t1[r] != t1[s] by {
            let x = choose|x: int|
                0 <= x < m && list[x] == pos[r] && t1[r] == names_of(t, list, x);
            let y = choose|y: int|
                0 <= y < m && list[y] == pos[s] && t1[s] == names_of(t, list, y);
            assert(lms_count(t, pos[r]) == r && lms_count(t, pos[s]) == s);
            lemma_names_monotonic(t, list, 0, x);
            lemma_names_monotonic(t, list, x, m - 1);
            lemma_names_monotonic(t, list, 0, y);
            lemma_names_monotonic(t, list, y, m - 1);
        }
    }
}

/// Names given along a sorted list, each at the rank of its position,
/// make up the reduced text.
pub proof fn lemma_names_reduce(t: Seq<int>, list: Seq<int>, t1: Seq<int>)
    requires
        lms_sorted(t, list),
        list.len() >= 1,
        t1.len() == list.len(),
        forall|x: int|
            0 <= x < list.len() ==> #[trigger] t1[lms_count(t, list[x]) as int] == names_of(
                t,
                list,
                x,
            ),
    ensures
        is_reduced(t, t1),
        reduced(t) == t1,
        name_count(t1) == names_of(t, list, list.len() - 1) + 1,
{
    let n = t.len() as int;
    let m = list.len() as int;
    let last = names_of(t, list, m - 1);
    lemma_names_fit(t, list, t1);
    lemma_lms_list(t, n);
    assert forall|x: int| 0 <= x < m implies 0 <= lms_count(t, #[trigger] list[x]) < m by {
        assert(is_lms(t, list[x]));
    }
    assert forall|r: int, v: int| 0 <= r < t1.len() && 0 <= v < #[trigger] t1[r] implies #[trigger] t1.contains(
        v,
    ) by {
        lemma_names_dense(t, list, m - 1, v);
        let y = choose|y: int| 0 <= y <= m - 1 && names_of(t, list, y) == v;
        assert(t1[lms_count(t, list[y]) as int] == v);
    }
    assert(is_reduced(t, t1));
    lemma_reduced_unique(t, reduced(t), t1);
    lemma_max_symbol(t1, m);
    assert(t1[lms_count(t, list[m - 1]) as int] == last);
}

/// Two different left-most S positions are at least two positions apart.
pub proof fn lemma_lms_apart(t: Seq<int>, p: int, q: int)
    requires
        is_lms(t, p),
        is_lms(t, q),
        p != q,
    ensures
        p / 2 != q / 2,
{
    if p < q {
        assert(q != p + 1);
    } else {
        assert(p != q + 1);
    }
}

/// Names the substrings between the left-most S positions, which the
/// first `m` slots of `sa` hold in sorted order: equal substrings get
/// equal names, and names ascend with the order. The name of the
/// substring at position `p` is left in slot `m + p / 2`. Returns the
/// number of names given.
pub(crate) fn name_substrings<T: ArrayIndex, Idx: ArrayIndex>(
    text: &[T],
    types: &Vec<bool>,
    sa: &mut Vec<Idx>,
    m: usize,
) -> (names: usize)
    requires
        text.len() < Idx::max_index(),
        types_of(values(text@), types@),
        old(sa).len() == text.len(),
        1 <= m <= text.len(),
        lms_sorted(values(text@), values(old(sa)@).subrange(0, m as int)),
    ensures
        final(sa).len() == old(sa).len(),
        forall|x: int| 0 <= x < m ==> final(sa)@[x] == old(sa)@[x],
        forall|x: int|
            0 <= x < m ==> (#[trigger] final(sa)@[m + old(sa)@[x].value() / 2]).value()
                == names_of(values(text@), values(old(sa)@).subrange(0, m as int), x),
        names == names_of(values(text@), values(old(sa)@).subrange(0, m as int), m - 1) + 1,
        2 * m <= text.len(),
{
    let n = text.len();
    let ghost t = values(text@);
    let ghost list = values(sa@).subrange(0, m as int);
    proof {
        lemma_lms_count_half(t, n as int);
        assert(list.len() == m);
    }
    let mut name: usize = 0;
    let mut previous: usize = 0;
    let mut i: usize = 0;
    while i < m
        invariant
            n == text.len(),
            n < Idx::max_index(),
            t == values(text@),
            types_of(t, types@),
            sa.len() == n,
            old(sa).len() == n,
            1 <= m,
            2 * m <= n,
            i <= m,
            list == values(old(sa)@).subrange(0, m as int),
            lms_sorted(t, list),
            forall|x: int| 0 <= x < m ==> sa@[x] == old(sa)@[x],
            forall|x: int|
                0 <= x < i ==> (#[trigger] sa@[m + old(sa)@[x].value() / 2]).value() == names_of(
                    t,
                    list,
                    x,
                ),
            i > 0 ==> previous == list[i - 1] && name == names_of(t, list, i - 1),
            i == 0 ==> name == 0,
        decreases m - i,
    {
        let p = sa[i].as_usize();
        assert(list[i as int] == p);
        assert(is_lms(t, list[i as int]));
        if i > 0 {
            assert(is_lms(t, list[i - 1]));
            assert(list[i - 1] != list[i as int]);
            if !lms_substrings_equal(text, types, previous, p) {
                proof {
                    lemma_names_monotonic(t, list, i - 1, i - 1);
                }
                name += 1;
            }
        }
        assert(name == names_of(t, list, i as int));
        proof {
            lemma_names_monotonic(t, list, i as int, i as int);
        }
        previous = p;
        let ghost before = sa@;
        sa[m + p / 2] = Idx::from_usize(name);
        proof {
            assert forall|x: int| 0 <= x < i + 1 implies (#[trigger] sa@[m + old(sa)@[x].value()
                / 2]).value() == names_of(t, list, x) by {
                if x < i {
                    assert(list[x] == old(sa)@[x].value());
                    assert(is_lms(t, list[x]));
                    assert(list[x] != list[i as int]);
                    lemma_lms_apart(t, list[x], list[i as int]);
                    assert(before[m + old(sa)@[x].value() / 2].value() == names_of(t, list, x));
                } else {
                    assert(list[x] == old(sa)@[x].value());
                }
            }
        }
        i += 1;
    }
    proof {
        lemma_names_monotonic(t, list, m - 1, m - 1);
    }
    name + 1
}

/// Reads the names that `name_substrings` left behind, in the order of
/// the text.
pub(crate) fn reduced_text<Idx: ArrayIndex>(
    types: &Vec<bool>,
    sa: &Vec<Idx>,
    m: usize,
    Ghost(t): Ghost<Seq<int>>,
) -> (reduced: Vec<Idx>)
    requires
        types_of(t, types@),
        sa.len() == t.len(),
        m == lms_count(t, t.len() as int),
    ensures
        reduced.len() == m,
        forall|r: int|
            0 <= r < m ==> #[trigger] reduced@[r] == sa@[m + lms_list(t, t.len() as int)[r] / 2],
{
    let n = sa.len();
    let ghost pos = lms_list(t, n as int);
    proof {
        lemma_lms_list(t, n as int);
        lemma_lms_count_half(t, n as int);
    }
    let mut reduced: Vec<Idx> = filled(m, Idx::from_usize(0));
    let mut r: usize = 0;
    let mut p: usize = 0;
    while p < n
        invariant
            n == sa.len(),
            n == t.len(),
            types_of(t, types@),
            pos == lms_list(t, n as int),
            m == lms_count(t, n as int),
            pos.len() == m,
            2 * m <= n,
            p <= n,
            r == lms_count(t, p as int),
            r <= m,
            reduced.len() == m,
            forall|k: int| 0 <= k < r ==> #[trigger] reduced@[k] == sa@[m + pos[k] / 2],
        decreases n - p,
    {
        proof {
            lemma_lms_count_monotonic(t, p + 1, n as int);
            lemma_lms_list(t, n as int);
        }
        if lms_at(types, p) {
            assert(is_lms(t, p as int));
            assert(pos[r as int] == p);
            reduced[r] = sa[m + p / 2];
            r += 1;
        }
        p += 1;
    }
    reduced
}

/// The suffix array of a text in which every symbol below its length
/// occurs once: each symbol is the rank of its suffix.
pub fn sort_distinct<Idx: ArrayIndex>(text: &Vec<Idx>) -> (sa: Vec<Idx>)
    requires
        text.len() <= Idx::max_index(),
        is_permutation(values(text@)),
    ensures
        is_suffix_array(values(text@), values(sa@)),
{
    let m = text.len();
    let ghost t1 = values(text@);
    let mut sa: Vec<Idx> = filled(m, Idx::from_usize(0));
    let mut i: usize = 0;
    while i < m
        invariant
            m == text.len(),
            m <= Idx::max_index(),
            sa.len() == m,
            t1 == values(text@),
            is_permutation(t1),
            i <= m,
            forall|k: int| 0 <= k < i ==> sa@[#[trigger] t1[k]].value() == k,
        decreases m - i,
    {
        let c = text[i].as_usize();
        assert(t1[i as int] == c);
        sa[c] = Idx::from_usize(i);
        assert forall|k: int| 0 <= k < i + 1 implies sa@[#[trigger] t1[k]].value() == k by {
            if k < i {
                assert(t1[k] != t1[i as int]);
            }
        }
        i += 1;
    }
    proof {
        let s = values(sa@);
        assert(is_inverse(t1, s)) by {
            assert forall|k: int| 0 <= k < t1.len() implies 0 <= #[trigger] t1[k] < t1.len()
                && s[t1[k]] == k by {
                assert(sa@[t1[k]].value() == k);
            }
        }
        lemma_inverse_round_trip(t1, s);
        assert forall|x: int| 0 <= x < s.len() - 1 implies #[trigger] ascends_at(t1, s, x) by {
            assert(0 <= s[x] < m && t1[s[x]] == x);
            assert(0 <= s[x + 1] < m && t1[s[x + 1]] == x + 1);
        }
    }
    sa
}

/// Replaces each entry of `order`, a rank among the left-most S positions,
/// by the position of that rank, using `positions` as scratch space.
pub(crate) fn unmap<Idx: ArrayIndex>(
    types: &Vec<bool>,
    positions: &mut Vec<Idx>,
    order: &mut Vec<Idx>,
    Ghost(t): Ghost<Seq<int>>,
)
    requires
        types_of(t, types@),
        t.len() < Idx::max_index(),
        old(positions).len() == lms_count(t, t.len() as int),
        old(order).len() == old(positions).len(),
        forall|x: int| 0 <= x < old(order).len() ==> (#[trigger] old(order)@[x]).value() < old(
            order,
        ).len(),
    ensures
        final(order).len() == old(order).len(),
        final(positions).len() == old(positions).len(),
        forall|x: int|
            0 <= x < old(order).len() ==> (#[trigger] final(order)@[x]).value() == lms_list(
                t,
                t.len() as int,
            )[old(order)@[x].value() as int],
{
    let n = types.len() - 1;
    let m = positions.len();
    let ghost pos = lms_list(t, n as int);
    let mut r: usize = 0;
    let mut p: usize = 0;
    while p < n
        invariant
            n == t.len(),
            n < Idx::max_index(),
            types_of(t, types@),
            pos == lms_list(t, n as int),
            m == lms_count(t, n as int),
            m == positions.len(),
            p <= n,
            r == lms_count(t, p as int),
            r <= m,
            forall|k: int| 0 <= k < r ==> (#[trigger] positions@[k]).value() == pos[k],
        decreases n - p,
    {
        proof {
            lemma_lms_count_monotonic(t, p + 1, n as int);
            lemma_lms_list(t, n as int);
        }
        if lms_at(types, p) {
            assert(is_lms(t, p as int));
            assert(pos[r as int] == p);
            positions[r] = Idx::from_usize(p);
            r += 1;
        }
        p += 1;
    }
    let mut i: usize = 0;
    while i < m
        invariant
            m == positions.len(),
            m == order.len(),
            m == old(order).len(),
            i <= m,
            forall|k: int| 0 <= k < m ==> (#[trigger] positions@[k]).value() == pos[k],
            forall|x: int| i <= x < m ==> order@[x] == old(order)@[x],
            forall|x: int| 0 <= x < m ==> (#[trigger] old(order)@[x]).value() < m,
            forall|x: int|
                0 <= x < i ==> (#[trigger] order@[x]).value() == pos[old(order)@[x].value() as int],
        decreases m - i,
    {
        let rank = order[i].as_usize();
        assert(rank == old(order)@[i as int].value());
        order[i] = positions[rank];
        i += 1;
    }
}

} // verus!
