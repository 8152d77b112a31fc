//! Suffix-array construction by induced sorting.
//!
//! The left-most S positions of the text are sorted first, by naming the
//! substrings between them and sorting the text of names recursively. From
//! their order, one pass from the left puts all positions of type L in
//! place and one pass from the right all positions of type S.
use vstd::prelude::*;
use vstd::layout::size_of;
use crate::index::{ArrayIndex, values, filled};
use crate::suffix_array::is_suffix_array;
use crate::suffix_array::result::MemoryResult;
use crate::suffix_array::sais::buckets::{
    histogram,
    bucket_begins,
    bucket_ends,
    lemma_counts_total,
};
use crate::suffix_array::sais::induce_l::induce_l;
use crate::suffix_array::sais::induce_s::induce_s;
use crate::suffix_array::sais::seed::{seed_lms, seed_sorted};
use crate::suffix_array::sais::stages::{
    seeded,
    seeded_at,
    ordered_l,
    lemma_seeds_tie,
    lemma_ordered_is_suffix_array,
};
use crate::suffix_array::sais::layout::valid_text;
use crate::suffix_array::sais::names::{
    gather_lms,
    name_substrings,
    reduced_text,
    sort_distinct,
    unmap,
    names_of,
    lemma_names_fit,
    lemma_names_monotonic,
    lemma_names_reduce,
};
use crate::suffix_array::sais::reduction::{
    lms_list,
    lemma_lms_list,
    reduced,
    name_count,
    lemma_order_of_reduced,
};
use crate::suffix_array::sais::types::{
    classify,
    count_lms,
    is_lms,
    lms_count,
    lemma_lms_count_monotonic,
};

pub mod buckets;
pub mod counting;
pub mod induce_l;
pub mod induce_s;
pub mod keys;
pub mod layout;
pub mod names;
pub mod reduction;
pub mod seed;
pub mod stages;
pub mod types;

verus! {

/// An upper bound, in bytes, on the working memory that sorting a text of
/// `n` symbols over an alphabet of `sigma` symbols takes at index width
/// `width`: three tables over the alphabet, and nine index values for
/// each symbol, all levels of the recursion taken together.
pub open spec fn workspace(n: nat, sigma: nat, width: nat) -> nat {
    (3 * sigma + 9 * n) * width
}

/// The working memory, in bytes, that sorting the text `t` over an
/// alphabet of `sigma` symbols takes at index width `width`: one byte for
/// the type of each position and of the end; for a text of two symbols or
/// more three tables over the alphabet; where the text has left-most S
/// positions the reduced text and its suffix array; and where names
/// repeat what sorting the reduced text takes. (A reduced text is shorter
/// than its text; the definition says so only to be well-founded.)
pub open spec fn sort_memory(t: Seq<int>, sigma: nat, width: nat) -> nat
    decreases t.len(),
{
    let n = t.len();
    let m = lms_count(t, n as int);
    let t1 = reduced(t);
    let types = n + 1;
    let tables = 3 * (sigma * width);
    let lists = 2 * (m * width);
    if n == 0 {
        0
    } else if n == 1 {
        types
    } else if m == 0 {
        types + tables
    } else if name_count(t1) == m || name_count(t1) < 0 || t1.len() >= n {
        types + tables + lists
    } else {
        types + tables + lists + sort_memory(t1, name_count(t1) as nat, width)
    }
}

/// Empties every slot of `sa` from `from` on: the largest value of the
/// index type marks an empty slot.
pub fn clear_from<Idx: ArrayIndex>(sa: &mut Vec<Idx>, from: usize)
    requires
        from <= old(sa).len(),
    ensures
        final(sa).len() == old(sa).len(),
        forall|i: int| 0 <= i < from ==> final(sa)@[i] == old(sa)@[i],
        forall|i: int|
            from <= i < old(sa).len() ==> #[trigger] final(sa)@[i] == Idx::cast(
                Idx::max_index() as usize,
            ) && final(sa)@[i].value() == Idx::max_index(),
{
    let n = sa.len();
    proof {
        Idx::lemma_limits();
    }
    let empty = Idx::from_usize(Idx::max_usize());
    let mut i: usize = from;
    while i < n
        invariant
            sa.len() == n,
            old(sa).len() == n,
            empty.value() == Idx::max_index(),
            empty == Idx::cast(Idx::max_index() as usize),
            from <= i <= n,
            forall|k: int| 0 <= k < from ==> sa@[k] == old(sa)@[k],
            forall|k: int| from <= k < i ==> #[trigger] sa@[k] == empty,
        decreases n - i,
    {
        sa[i] = empty;
        i += 1;
    }
}

/// Sorts the suffixes of `text`, whose symbols are below `sigma`, by
/// induced sorting, and accounts for the working memory: the types, three
/// tables over the alphabet, and where the text has left-most S positions
/// the reduced text, its suffix array, and what sorting it takes.
pub fn induced_sort<T: ArrayIndex, Idx: ArrayIndex>(text: &[T], sigma: usize) -> (result:
    MemoryResult<Vec<Idx>>)
    requires
        text.len() < Idx::max_index(),
        valid_text(values(text@), sigma as nat),
        workspace(text.len() as nat, sigma as nat, size_of::<Idx>()) <= usize::MAX,
    ensures
        is_suffix_array(values(text@), values(result.value@)),
        result.memory == sort_memory(values(text@), sigma as nat, size_of::<Idx>()),
        text.len() == 0 ==> result.memory == 0,
        text.len() > 0 ==> 0 < result.memory <= workspace(
            text.len() as nat,
            sigma as nat,
            size_of::<Idx>(),
        ),
{
    sort_level(text, text.len(), sigma)
}

/// One level of the recursion: sorts the `n` suffixes of `text`.
fn sort_level<T: ArrayIndex, Idx: ArrayIndex>(text: &[T], n: usize, sigma: usize) -> (result:
    MemoryResult<Vec<Idx>>)
    requires
        n == text.len(),
        text.len() < Idx::max_index(),
        valid_text(values(text@), sigma as nat),
        workspace(text.len() as nat, sigma as nat, size_of::<Idx>()) <= usize::MAX,
    ensures
        is_suffix_array(values(text@), values(result.value@)),
        result.memory == sort_memory(values(text@), sigma as nat, size_of::<Idx>()),
        text.len() == 0 ==> result.memory == 0,
        text.len() > 0 ==> 0 < result.memory <= workspace(
            text.len() as nat,
            sigma as nat,
            size_of::<Idx>(),
        ),
    decreases n,
{
    let ghost w = size_of::<Idx>();
    let ghost t = values(text@);
    let ghost e = Idx::max_index() as int;
    let mut builder = MemoryResult::builder();
    if n == 0 {
        let nothing: Vec<Idx> = Vec::new();
        assert(is_suffix_array(t, values(nothing@)));
        return builder.build(nothing);
    }
    proof {
        broadcast use vstd::layout::layout_of_primitives;

        Idx::lemma_limits();
        lemma_workspace_steps(n as nat, sigma as nat, w, 0, 0);
    }
    builder.add_values::<bool>(n + 1);
    let types = classify(text);
    if n == 1 {
        let only: Vec<Idx> = filled(1, Idx::from_usize(0));
        assert(is_suffix_array(t, values(only@)));
        return builder.build(only);
    }
    builder.add_values::<Idx>(sigma);
    builder.add_values::<Idx>(sigma);
    builder.add_values::<Idx>(sigma);
    assert forall|i: int| 0 <= i < text.len() implies (#[trigger] text@[i]).value() < sigma by {
        assert(t[i] == text@[i].value());
    }
    let hist: Vec<Idx> = histogram(text, sigma);
    let mut begin: Vec<Idx> = filled(sigma, Idx::from_usize(0));
    let mut end: Vec<Idx> = filled(sigma, Idx::from_usize(0));
    let mut sa: Vec<Idx> = filled(n, Idx::from_usize(Idx::max_usize()));
    assert(values(hist@).len() == hist.len());
    proof {
        lemma_counts_total(t, sigma as nat, n as int);
    }
    let m = count_lms(text, &types);
    if m > 0 {
        // First round: sort the substrings between left-most S positions.
        bucket_ends(&hist, &mut end);
        seed_lms(text, &types, &mut end, &mut sa);
        proof {
            lemma_seeds_tie(t, sigma as nat, e, values(sa@));
        }
        bucket_begins(&hist, &mut begin);
        induce_l(text, &types, &mut begin, &mut sa, Ghost(false));
        bucket_ends(&hist, &mut end);
        induce_s(text, &types, &mut end, &mut sa, Ghost(false));
        gather_lms(&types, &mut sa, Ghost(t));
        // Second round: sort the left-most S suffixes through their names.
        let ghost gathered = values(sa@);
        let ghost list = gathered.subrange(0, m as int);
        let names = name_substrings(text, &types, &mut sa, m);
        proof {
            lemma_names_monotonic(t, list, m - 1, m - 1);
            lemma_workspace_steps(n as nat, sigma as nat, w, m as nat, names as nat);
        }
        builder.add_values::<Idx>(m);
        builder.add_values::<Idx>(m);
        let mut reduced: Vec<Idx> = reduced_text(&types, &sa, m, Ghost(t));
        let ghost t1 = values(reduced@);
        proof {
            lemma_lms_list(t, n as int);
            assert forall|x: int| 0 <= x < list.len() implies #[trigger] t1[lms_count(
                t,
                list[x],
            ) as int] == names_of(t, list, x) by {
                let r = lms_count(t, list[x]) as int;
                assert(is_lms(t, list[x]));
                assert(lms_list(t, n as int)[r] == list[x]);
                assert(reduced@[r] == sa@[m + lms_list(t, n as int)[r] / 2]);
                assert(list[x] == gathered[x]);
            }
            lemma_names_fit(t, list, t1);
            lemma_names_reduce(t, list, t1);
            assert(valid_text(t1, names as nat));
        }
        let mut order: Vec<Idx> = if names == m {
            sort_distinct(&reduced)
        } else {
            sort_level::<Idx, Idx>(reduced.as_slice(), m, names).add_to(&mut builder)
        };
        let ghost sa1 = values(order@);
        assert forall|x: int| 0 <= x < order.len() implies (#[trigger] order@[x]).value() < m by {
            assert(0 <= sa1[x] < m);
        }
        unmap(&types, &mut reduced, &mut order, Ghost(t));
        proof {
            assert forall|x: int| 0 <= x < order.len() implies #[trigger] values(order@)[x]
                == lms_list(t, t.len() as int)[sa1[x]] by {
                assert(values(order@)[x] == order@[x].value());
            }
            lemma_order_of_reduced(t, t1, sa1, values(order@));
        }
        clear_from(&mut sa, 0);
        bucket_ends(&hist, &mut end);
        seed_sorted(text, &order, &mut end, &mut sa);
    } else {
        proof {
            lemma_nothing_to_seed(t, sigma as nat, e, values(sa@));
        }
    }
    // Last round: induce the order of all suffixes.
    bucket_begins(&hist, &mut begin);
    induce_l(text, &types, &mut begin, &mut sa, Ghost(true));
    bucket_ends(&hist, &mut end);
    induce_s(text, &types, &mut end, &mut sa, Ghost(true));
    proof {
        lemma_ordered_is_suffix_array(t, sigma as nat, values(sa@));
    }
    builder.build(sa)
}

/// Where a text has no left-most S positions, empty slots are seeded.
proof fn lemma_nothing_to_seed(t: Seq<int>, sigma: nat, e: int, sa: Seq<int>)
    requires
        lms_count(t, t.len() as int) == 0,
        sa.len() == t.len(),
        t.len() <= e,
        forall|x: int| 0 <= x < sa.len() ==> sa[x] == e,
    ensures
        seeded(t, sigma, e, sa),
        ordered_l(t, true, e, sa),
{
    assert forall|j: int| 0 <= j < t.len() && #[trigger] is_lms(t, j) implies sa.contains(j) by {
        lemma_lms_count_monotonic(t, j + 1, t.len() as int);
    }
    assert forall|x: int| 0 <= x < sa.len() implies #[trigger] seeded_at(t, sigma, e, sa, x) by {}
}

/// The account of one level stays below the bound at every step, whatever
/// the size `m` and alphabet `k` of the reduced text.
proof fn lemma_workspace_steps(n: nat, sigma: nat, w: nat, m: nat, k: nat)
    requires
        1 <= n,
        1 <= w,
        2 * m <= n,
        k <= m,
    ensures
        n + 1 + 3 * (sigma * w) + 2 * (m * w) + workspace(m, k, w) <= workspace(n, sigma, w),
        n + 1 <= workspace(n, sigma, w),
        workspace(m, k, w) <= workspace(n, sigma, w),
{
    let x = n * w;
    let y = m * w;
    let z = k * w;
    let s = sigma * w;
    assert(n <= x) by (nonlinear_arith)
        requires
            1 <= w,
            x == n * w,
    ;
    assert(2 * y <= x) by (nonlinear_arith)
        requires
            2 * m <= n,
            x == n * w,
            y == m * w,
    ;
    assert(z <= y) by (nonlinear_arith)
        requires
            k <= m,
            z == k * w,
            y == m * w,
    ;
    assert(workspace(m, k, w) == 3 * z + 9 * y) by (nonlinear_arith)
        requires
            z == k * w,
            y == m * w,
            workspace(m, k, w) == (3 * k + 9 * m) * w,
    ;
    assert(workspace(n, sigma, w) == 3 * s + 9 * x) by (nonlinear_arith)
        requires
            s == sigma * w,
            x == n * w,
            workspace(n, sigma, w) == (3 * sigma + 9 * n) * w,
    ;
    assert(0 <= s && 0 <= y && 0 <= z) by (nonlinear_arith)
        requires
            s == sigma * w,
            y == m * w,
            z == k * w,
    ;
}

} // verus!
