//! How the suffix array is laid out: one bucket for each symbol, and in
//! each bucket the positions of type L before those of type S.
use vstd::prelude::*;
use crate::suffix_array::sais::buckets::{
    occurrences,
    counts,
    prefix_sum,
    bucket_begin,
    bucket_end,
    lemma_counts_total,
    lemma_prefix_sum_monotonic,
    lemma_bucket_bounds,
};
use crate::suffix_array::sais::counting::{
    count_where,
    lemma_count_where_split,
    lemma_count_where_implies,
};
use crate::suffix_array::sais::types::{is_s_type, is_lms, lms_count};

verus! {

/// Every symbol of `t` is one of `0..sigma`.
pub open spec fn valid_text(t: Seq<int>, sigma: nat) -> bool {
    forall|i: int| 0 <= i < t.len() ==> 0 <= #[trigger] t[i] < sigma
}

/// The positions of `t` that hold the symbol `c`.
pub open spec fn with_symbol(t: Seq<int>, c: int) -> spec_fn(int) -> bool {
    |i: int| t[i] == c
}

/// The positions of type L that hold the symbol `c`.
pub open spec fn l_with_symbol(t: Seq<int>, c: int) -> spec_fn(int) -> bool {
    |i: int| t[i] == c && !is_s_type(t, i)
}

/// The positions of type S that hold the symbol `c`.
pub open spec fn s_with_symbol(t: Seq<int>, c: int) -> spec_fn(int) -> bool {
    |i: int| t[i] == c && is_s_type(t, i)
}

/// The left-most S positions that hold the symbol `c`.
pub open spec fn lms_with_symbol(t: Seq<int>, c: int) -> spec_fn(int) -> bool {
    |i: int| t[i] == c && is_lms(t, i)
}

/// The left-most S positions.
pub open spec fn lms_positions(t: Seq<int>) -> spec_fn(int) -> bool {
    |i: int| is_lms(t, i)
}

/// Where, inside the bucket of `c`, the positions of type S begin.
pub open spec fn bucket_mid(t: Seq<int>, sigma: nat, c: int) -> int {
    bucket_begin(t, sigma, c) + count_where(l_with_symbol(t, c), t.len() as int)
}

/// The symbol whose bucket holds slot `x`.
pub open spec fn owner_of(t: Seq<int>, sigma: nat, x: int) -> int {
    choose|c: int|
        0 <= c < sigma && #[trigger] bucket_begin(t, sigma, c) <= x && x < bucket_end(t, sigma, c)
}

/// The two ways of counting a symbol agree.
pub proof fn lemma_occurrences_count(t: Seq<int>, c: int, upto: int)
    ensures
        occurrences(t, c, upto) == count_where(with_symbol(t, c), upto),
    decreases upto,
{
    if upto > 0 {
        lemma_occurrences_count(t, c, upto - 1);
    }
}

/// The two ways of counting left-most S positions agree.
pub proof fn lemma_lms_count(t: Seq<int>, upto: int)
    ensures
        lms_count(t, upto) == count_where(lms_positions(t), upto),
    decreases upto,
{
    if upto > 0 {
        lemma_lms_count(t, upto - 1);
    }
}

/// The middle of a bucket lies inside it; behind it there is room for
/// exactly the positions of type S, the left-most S positions among them.
pub proof fn lemma_bucket_mid(t: Seq<int>, sigma: nat, c: int)
    requires
        valid_text(t, sigma),
        0 <= c < sigma,
    ensures
        0 <= bucket_begin(t, sigma, c) <= bucket_mid(t, sigma, c) <= bucket_end(t, sigma, c)
            <= t.len(),
        bucket_end(t, sigma, c) - bucket_mid(t, sigma, c) == count_where(
            s_with_symbol(t, c),
            t.len() as int,
        ),
        count_where(lms_with_symbol(t, c), t.len() as int) <= bucket_end(t, sigma, c) - bucket_mid(
            t,
            sigma,
            c,
        ),
{
    let n = t.len() as int;
    lemma_bucket_bounds(t, sigma, c);
    lemma_occurrences_count(t, c, n);
    lemma_count_where_split(with_symbol(t, c), l_with_symbol(t, c), s_with_symbol(t, c), n);
    lemma_count_where_implies(lms_with_symbol(t, c), s_with_symbol(t, c), n);
}

/// The bucket of a smaller symbol ends before the bucket of a larger one
/// begins.
pub proof fn lemma_buckets_ordered(t: Seq<int>, sigma: nat, c1: int, c2: int)
    requires
        valid_text(t, sigma),
        0 <= c1 < c2 < sigma,
    ensures
        bucket_end(t, sigma, c1) <= bucket_begin(t, sigma, c2),
{
    let h = counts(t, sigma, t.len() as int);
    lemma_prefix_sum_monotonic(h, c1 + 1, c2);
}

/// Below each sum of the histogram there is a bucket for every slot.
proof fn lemma_owner_below(t: Seq<int>, sigma: nat, x: int, k: int)
    requires
        valid_text(t, sigma),
        0 <= k <= sigma,
        0 <= x < prefix_sum(counts(t, sigma, t.len() as int), k),
    ensures
        exists|c: int|
            0 <= c < k && #[trigger] bucket_begin(t, sigma, c) <= x && x < bucket_end(t, sigma, c),
    decreases k,
{
    let h = counts(t, sigma, t.len() as int);
    if k > 0 {
        if x >= prefix_sum(h, k - 1) {
            assert(bucket_begin(t, sigma, k - 1) <= x < bucket_end(t, sigma, k - 1));
        } else {
            lemma_owner_below(t, sigma, x, k - 1);
        }
    }
}

/// Every slot lies in the bucket of its owner.
pub proof fn lemma_owner(t: Seq<int>, sigma: nat, x: int)
    requires
        valid_text(t, sigma),
        0 <= x < t.len(),
    ensures
        0 <= owner_of(t, sigma, x) < sigma,
        bucket_begin(t, sigma, owner_of(t, sigma, x)) <= x < bucket_end(
            t,
            sigma,
            owner_of(t, sigma, x),
        ),
{
    lemma_counts_total(t, sigma, t.len() as int);
    lemma_owner_below(t, sigma, x, sigma as int);
}

/// A slot lies in one bucket only.
pub proof fn lemma_owner_unique(t: Seq<int>, sigma: nat, x: int, c: int)
    requires
        valid_text(t, sigma),
        0 <= c < sigma,
        bucket_begin(t, sigma, c) <= x < bucket_end(t, sigma, c),
    ensures
        owner_of(t, sigma, x) == c,
{
    lemma_bucket_bounds(t, sigma, c);
    lemma_owner(t, sigma, x);
    let o = owner_of(t, sigma, x);
    if o < c {
        lemma_buckets_ordered(t, sigma, o, c);
    } else if c < o {
        lemma_buckets_ordered(t, sigma, c, o);
    }
}

/// A position of type L holds a symbol that is not below the next one, and
/// where the two are equal the next position is of type L too.
pub proof fn lemma_l_type_next(t: Seq<int>, j: int)
    requires
        0 <= j,
        j + 1 < t.len(),
        !is_s_type(t, j),
    ensures
        t[j] >= t[j + 1],
        t[j] == t[j + 1] ==> !is_s_type(t, j + 1),
{
}

/// A position of type S is not the last, holds a symbol that is not above
/// the next one, and where the two are equal the next position is of type
/// S too.
pub proof fn lemma_s_type_next(t: Seq<int>, j: int)
    requires
        0 <= j < t.len(),
        is_s_type(t, j),
    ensures
        j + 1 < t.len(),
        t[j] <= t[j + 1],
        t[j] == t[j + 1] ==> is_s_type(t, j + 1),
{
}

} // verus!
