//! Buckets: for each symbol, the range of the suffix array that holds the
//! suffixes starting with it.
use vstd::prelude::*;
use crate::index::{ArrayIndex, values, filled};

verus! {

/// How often the symbol `c` occurs among the first `upto` symbols of `t`.
pub open spec fn occurrences(t: Seq<int>, c: int, upto: int) -> nat
    decreases upto,
{
    if upto <= 0 {
        0
    } else {
        occurrences(t, c, upto - 1) + if t[upto - 1] == c {
            1nat
        } else {
            0nat
        }
    }
}

/// The histogram of the first `upto` symbols of `t` over an alphabet of
/// `sigma` symbols.
pub open spec fn counts(t: Seq<int>, sigma: nat, upto: int) -> Seq<int> {
    Seq::new(sigma, |c: int| occurrences(t, c, upto) as int)
}

/// The sum of the first `c` entries of `h`.
pub open spec fn prefix_sum(h: Seq<int>, c: int) -> int
    decreases c,
{
    if c <= 0 {
        0
    } else {
        prefix_sum(h, c - 1) + h[c - 1]
    }
}

/// Where the bucket of symbol `c` begins: at the number of symbols of `t`
/// below `c`.
pub open spec fn bucket_begin(t: Seq<int>, sigma: nat, c: int) -> int {
    prefix_sum(counts(t, sigma, t.len() as int), c)
}

/// Where the bucket of symbol `c` ends: where the next one begins.
pub open spec fn bucket_end(t: Seq<int>, sigma: nat, c: int) -> int {
    prefix_sum(counts(t, sigma, t.len() as int), c + 1)
}

/// A symbol occurs at most as often as there are symbols.
pub proof fn lemma_occurrences_bounded(t: Seq<int>, c: int, upto: int)
    requires
        0 <= upto,
    ensures
        occurrences(t, c, upto) <= upto,
    decreases upto,
{
    if upto > 0 {
        lemma_occurrences_bounded(t, c, upto - 1);
    }
}

/// Sums of entries that are not negative grow with the number of entries.
pub proof fn lemma_prefix_sum_monotonic(h: Seq<int>, a: int, b: int)
    requires
        forall|c: int| 0 <= c < h.len() ==> 0 <= #[trigger] h[c],
        0 <= a <= b <= h.len(),
    ensures
        0 <= prefix_sum(h, a) <= prefix_sum(h, b),
    decreases b,
{
    if a < b {
        lemma_prefix_sum_monotonic(h, a, b - 1);
    } else if a > 0 {
        lemma_prefix_sum_monotonic(h, a - 1, a - 1);
    }
}

/// Raising one entry by one raises every sum that includes it by one.
proof fn lemma_prefix_sum_raise(h1: Seq<int>, h2: Seq<int>, at: int, c: int)
    requires
        h1.len() == h2.len(),
        0 <= at < h1.len(),
        0 <= c <= h1.len(),
        forall|k: int| 0 <= k < h1.len() && k != at ==> h2[k] == h1[k],
        h2[at] == h1[at] + 1,
    ensures
        prefix_sum(h2, c) == prefix_sum(h1, c) + if at < c {
            1int
        } else {
            0int
        },
    decreases c,
{
    if c > 0 {
        lemma_prefix_sum_raise(h1, h2, at, c - 1);
    }
}

/// The histogram of a text over its alphabet adds up to the length of the
/// text.
pub proof fn lemma_counts_total(t: Seq<int>, sigma: nat, upto: int)
    requires
        0 <= upto <= t.len(),
        forall|i: int| 0 <= i < t.len() ==> 0 <= #[trigger] t[i] < sigma,
    ensures
        prefix_sum(counts(t, sigma, upto), sigma as int) == upto,
    decreases upto,
{
    if upto > 0 {
        lemma_counts_total(t, sigma, upto - 1);
        lemma_prefix_sum_raise(
            counts(t, sigma, upto - 1),
            counts(t, sigma, upto),
            t[upto - 1],
            sigma as int,
        );
    } else {
        lemma_prefix_sum_zero(counts(t, sigma, upto), sigma as int);
    }
}

/// Entries that are all zero add up to zero.
proof fn lemma_prefix_sum_zero(h: Seq<int>, c: int)
    requires
        0 <= c <= h.len(),
        forall|k: int| 0 <= k < h.len() ==> #[trigger] h[k] == 0,
    ensures
        prefix_sum(h, c) == 0,
    decreases c,
{
    if c > 0 {
        lemma_prefix_sum_zero(h, c - 1);
    }
}

/// Every bucket lies inside the suffix array, begins where the one before
/// it ends, and is as long as its symbol is frequent.
pub proof fn lemma_bucket_bounds(t: Seq<int>, sigma: nat, c: int)
    requires
        forall|i: int| 0 <= i < t.len() ==> 0 <= #[trigger] t[i] < sigma,
        0 <= c < sigma,
    ensures
        0 <= bucket_begin(t, sigma, c) <= bucket_end(t, sigma, c) <= t.len(),
        bucket_end(t, sigma, c) == bucket_begin(t, sigma, c) + occurrences(t, c, t.len() as int),
{
    let h = counts(t, sigma, t.len() as int);
    lemma_counts_total(t, sigma, t.len() as int);
    lemma_prefix_sum_monotonic(h, c, c + 1);
    lemma_prefix_sum_monotonic(h, c + 1, sigma as int);
}

/// Counts how often each of the `sigma` symbols occurs in `text`.
pub fn histogram<T: ArrayIndex, Idx: ArrayIndex>(text: &[T], sigma: usize) -> (hist: Vec<Idx>)
    requires
        text.len() <= Idx::max_index(),
        forall|i: int| 0 <= i < text.len() ==> (#[trigger] text@[i]).value() < sigma,
    ensures
        values(hist@) == counts(values(text@), sigma as nat, text.len() as int),
{
    let n = text.len();
    let ghost t = values(text@);
    let mut hist: Vec<Idx> = filled(sigma, Idx::from_usize(0));
    assert(values(hist@) =~= counts(t, sigma as nat, 0));
    let mut i: usize = 0;
    while i < n
        invariant
            n == text.len(),
            n <= Idx::max_index(),
            t == values(text@),
            forall|k: int| 0 <= k < n ==> (#[trigger] text@[k]).value() < sigma,
            i <= n,
            hist.len() == sigma,
            values(hist@) == counts(t, sigma as nat, i as int),
        decreases n - i,
    {
        let c = text[i].as_usize();
        let old_count = hist[c].as_usize();
        let ghost before = values(hist@);
        proof {
            assert(t[i as int] == c);
            assert(before[c as int] == old_count);
            lemma_occurrences_bounded(t, c as int, i as int);
        }
        hist[c] = Idx::from_usize(old_count + 1);
        proof {
            let after = values(hist@);
            assert forall|k: int| 0 <= k < sigma implies after[k] == occurrences(
                t,
                k,
                i + 1,
            ) by {
                assert(before[k] == occurrences(t, k, i as int));
            }
            assert(after =~= counts(t, sigma as nat, i + 1));
        }
        i += 1;
    }
    hist
}

/// Sets each of `begin` to the start of the bucket of its symbol.
pub fn bucket_begins<Idx: ArrayIndex>(hist: &Vec<Idx>, begin: &mut Vec<Idx>)
    requires
        old(begin).len() == hist.len(),
        prefix_sum(values(hist@), hist.len() as int) <= Idx::max_index(),
    ensures
        final(begin).len() == hist.len(),
        forall|c: int|
            0 <= c < hist.len() ==> (#[trigger] final(begin)@[c]).value() == prefix_sum(
                values(hist@),
                c,
            ),
{
    let sigma = hist.len();
    let ghost h = values(hist@);
    let mut sum: usize = 0;
    let mut c: usize = 0;
    proof {
        Idx::lemma_limits();
    }
    while c < sigma
        invariant
            sigma == hist.len(),
            begin.len() == sigma,
            h == values(hist@),
            prefix_sum(h, sigma as int) <= Idx::max_index() <= usize::MAX,
            c <= sigma,
            sum == prefix_sum(h, c as int),
            forall|k: int| 0 <= k < c ==> (#[trigger] begin@[k]).value() == prefix_sum(h, k),
        decreases sigma - c,
    {
        proof {
            lemma_prefix_sum_monotonic(h, c as int, c as int);
            lemma_prefix_sum_monotonic(h, c + 1, sigma as int);
            assert(h[c as int] == hist@[c as int].value());
        }
        begin[c] = Idx::from_usize(sum);
        sum += hist[c].as_usize();
        c += 1;
    }
}

/// Sets each of `end` to the end of the bucket of its symbol.
pub fn bucket_ends<Idx: ArrayIndex>(hist: &Vec<Idx>, end: &mut Vec<Idx>)
    requires
        old(end).len() == hist.len(),
        prefix_sum(values(hist@), hist.len() as int) <= Idx::max_index(),
    ensures
        final(end).len() == hist.len(),
        forall|c: int|
            0 <= c < hist.len() ==> (#[trigger] final(end)@[c]).value() == prefix_sum(
                values(hist@),
                c + 1,
            ),
{
    let sigma = hist.len();
    let ghost h = values(hist@);
    let mut sum: usize = 0;
    let mut c: usize = 0;
    proof {
        Idx::lemma_limits();
    }
    while c < sigma
        invariant
            sigma == hist.len(),
            end.len() == sigma,
            h == values(hist@),
            prefix_sum(h, sigma as int) <= Idx::max_index() <= usize::MAX,
            c <= sigma,
            sum == prefix_sum(h, c as int),
            forall|k: int| 0 <= k < c ==> (#[trigger] end@[k]).value() == prefix_sum(h, k + 1),
        decreases sigma - c,
    {
        proof {
            lemma_prefix_sum_monotonic(h, c as int, c as int);
            lemma_prefix_sum_monotonic(h, c + 1, sigma as int);
            assert(h[c as int] == hist@[c as int].value());
        }
        sum += hist[c].as_usize();
        end[c] = Idx::from_usize(sum);
        c += 1;
    }
}

} // verus!
