//! The states that induced sorting passes through: the array seeded with
//! the left-most S positions, the array after the pass from the left, and
//! the array after the pass from the right.
use vstd::prelude::*;
use crate::permutation::is_permutation;
use crate::suffix_array::{is_suffix_array, ascends_at};
use crate::suffix_array::sais::keys::{le_l, le_s, lemma_le_s_full};
use crate::suffix_array::sais::layout::{
    valid_text,
    bucket_mid,
    owner_of,
    lemma_buckets_ordered,
    lemma_owner,
};
use crate::suffix_array::sais::types::{is_s_type, is_lms};

verus! {

/// `types` holds the type of every position of `t`, the end included.
pub open spec fn types_of(t: Seq<int>, types: Seq<bool>) -> bool {
    &&& types.len() == t.len() + 1
    &&& forall|i: int| 0 <= i <= t.len() ==> types[i] == is_s_type(t, i)
}

/// No position stands in two slots of `sa`; `e` marks an empty slot.
pub open spec fn no_repeats(sa: Seq<int>, e: int) -> bool {
    forall|x: int, y: int|
        0 <= x < y < sa.len() && sa[x] != e ==> #[trigger] sa[x] != #[trigger] sa[y]
}

/// What slot `x` holds after seeding: nothing before the middle of its
/// bucket, and behind it nothing or a left-most S position of the bucket.
pub open spec fn seeded_at(t: Seq<int>, sigma: nat, e: int, sa: Seq<int>, x: int) -> bool {
    let c = owner_of(t, sigma, x);
    if x < bucket_mid(t, sigma, c) {
        sa[x] == e
    } else {
        sa[x] == e || (0 <= sa[x] < t.len() && t[sa[x]] == c && is_lms(t, sa[x]))
    }
}

/// The state from which induction starts: every left-most S position
/// stands once in the back part of its bucket, and nothing else anywhere.
pub open spec fn seeded(t: Seq<int>, sigma: nat, e: int, sa: Seq<int>) -> bool {
    &&& sa.len() == t.len()
    &&& t.len() <= e
    &&& forall|x: int| 0 <= x < sa.len() ==> #[trigger] seeded_at(t, sigma, e, sa, x)
    &&& no_repeats(sa, e)
    &&& forall|j: int| 0 <= j < t.len() && #[trigger] is_lms(t, j) ==> sa.contains(j)
}

/// The positions that `sa` holds stand in the order of the pass from the
/// left.
pub open spec fn ordered_l(t: Seq<int>, full: bool, e: int, sa: Seq<int>) -> bool {
    forall|x: int, y: int|
        0 <= x < y < sa.len() && sa[x] != e && sa[y] != e ==> #[trigger] le_l(
            t,
            full,
            sa[x],
            sa[y],
        )
}

/// Seeds stand in the order of the pass from the left as soon as they
/// stand in their buckets, if left-most S positions with the same symbol
/// tie.
pub proof fn lemma_seeds_tie(t: Seq<int>, sigma: nat, e: int, sa: Seq<int>)
    requires
        valid_text(t, sigma),
        seeded(t, sigma, e, sa),
    ensures
        ordered_l(t, false, e, sa),
{
    assert forall|x: int, y: int| 0 <= x < y < sa.len() && sa[x] != e && sa[y] != e implies #[trigger] le_l(
        t,
        false,
        sa[x],
        sa[y],
    ) by {
        assert(seeded_at(t, sigma, e, sa, x));
        assert(seeded_at(t, sigma, e, sa, y));
        lemma_owner(t, sigma, x);
        lemma_owner(t, sigma, y);
        let ox = owner_of(t, sigma, x);
        let oy = owner_of(t, sigma, y);
        if oy < ox {
            lemma_buckets_ordered(t, sigma, oy, ox);
        }
    }
}

/// What slot `x` holds when the positions of type L are in place: such a
/// position before the middle of its bucket, and behind it nothing or a
/// left-most S position of the bucket.
pub open spec fn l_done_at(t: Seq<int>, sigma: nat, e: int, sa: Seq<int>, x: int) -> bool {
    let c = owner_of(t, sigma, x);
    if x < bucket_mid(t, sigma, c) {
        0 <= sa[x] < t.len() && t[sa[x]] == c && !is_s_type(t, sa[x])
    } else {
        sa[x] == e || (0 <= sa[x] < t.len() && t[sa[x]] == c && is_lms(t, sa[x]))
    }
}

/// The state after the pass from the left: every position of type L
/// stands once in the front part of its bucket.
pub open spec fn l_done(t: Seq<int>, sigma: nat, e: int, sa: Seq<int>) -> bool {
    &&& sa.len() == t.len()
    &&& t.len() <= e
    &&& forall|x: int| 0 <= x < sa.len() ==> #[trigger] l_done_at(t, sigma, e, sa, x)
    &&& no_repeats(sa, e)
    &&& forall|j: int| 0 <= j < t.len() && !#[trigger] is_s_type(t, j) ==> sa.contains(j)
}

/// The back parts of the buckets are as they were.
pub open spec fn backs_kept(t: Seq<int>, sigma: nat, before: Seq<int>, after: Seq<int>) -> bool {
    forall|x: int|
        0 <= x < t.len() && bucket_mid(t, sigma, owner_of(t, sigma, x)) <= x ==> #[trigger] after[x]
            == before[x]
}

/// What slot `x` holds when all positions are in place: a position with
/// the symbol of the bucket, of type L before the middle of the bucket and
/// of type S behind it.
pub open spec fn in_bucket_at(t: Seq<int>, sigma: nat, sa: Seq<int>, x: int) -> bool {
    let c = owner_of(t, sigma, x);
    t[sa[x]] == c && is_s_type(t, sa[x]) == (x >= bucket_mid(t, sigma, c))
}

/// The state after both passes: every position stands once in `sa`, in
/// the bucket of its symbol and in the part of the bucket for its type.
pub open spec fn sorted_into_buckets(t: Seq<int>, sigma: nat, sa: Seq<int>) -> bool {
    &&& sa.len() == t.len()
    &&& is_permutation(sa)
    &&& forall|x: int| 0 <= x < sa.len() ==> #[trigger] in_bucket_at(t, sigma, sa, x)
}

/// All positions stand in the order of the pass from the right.
pub open spec fn ordered_s(t: Seq<int>, full: bool, sa: Seq<int>) -> bool {
    forall|x: int, y: int| 0 <= x < y < sa.len() ==> #[trigger] le_s(t, full, sa[x], sa[y])
}

/// Positions that stand once each in the order of the suffixes form the
/// suffix array.
pub proof fn lemma_ordered_is_suffix_array(t: Seq<int>, sigma: nat, sa: Seq<int>)
    requires
        sorted_into_buckets(t, sigma, sa),
        ordered_s(t, true, sa),
    ensures
        is_suffix_array(t, sa),
{
    assert forall|i: int| 0 <= i < sa.len() - 1 implies #[trigger] ascends_at(t, sa, i) by {
        assert(le_s(t, true, sa[i], sa[i + 1]));
        assert(0 <= sa[i] < t.len() && 0 <= sa[i + 1] < t.len());
        lemma_le_s_full(t, sa[i], sa[i + 1]);
        assert(sa[i] != sa[i + 1]);
    }
}

} // verus!
