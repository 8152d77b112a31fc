//! The pass from the right, which puts the positions of type S in place.
use vstd::prelude::*;
use crate::index::{ArrayIndex, values};
use crate::suffix_array::sais::buckets::bucket_end;
use crate::suffix_array::sais::counting::{lemma_distinct_bounded, lemma_covering_bounded};
use crate::suffix_array::sais::keys::{le_l, le_s};
use crate::suffix_array::sais::layout::{
    valid_text,
    bucket_mid,
    owner_of,
    s_with_symbol,
    lemma_bucket_mid,
    lemma_buckets_ordered,
    lemma_owner,
    lemma_owner_unique,
    lemma_s_type_next,
};
use crate::suffix_array::sais::stages::{
    types_of,
    ordered_l,
    l_done_at,
    l_done,
    in_bucket_at,
    sorted_into_buckets,
    ordered_s,
};
use crate::suffix_array::sais::types::{is_s_type, is_lms};

verus! {

/// What slot `x` holds during the pass from the right.
pub open spec fn s_zone_at(
    t: Seq<int>,
    sigma: nat,
    before: Seq<int>,
    sa: Seq<int>,
    end: Seq<int>,
    x: int,
) -> bool {
    let c = owner_of(t, sigma, x);
    if x < end[c] {
        sa[x] == before[x]
    } else {
        0 <= sa[x] < t.len() && t[sa[x]] == c && is_s_type(t, sa[x])
    }
}

/// Slot `x` holds a position in its final place: it lies in the front
/// part of its bucket, or behind the pointer of its bucket.
pub open spec fn live(t: Seq<int>, sigma: nat, end: Seq<int>, x: int) -> bool {
    let c = owner_of(t, sigma, x);
    x < bucket_mid(t, sigma, c) || x >= end[c]
}

/// `at` tells for each position the live slot of `sa` that holds it, or
/// -1.
pub open spec fn tracks_live(
    t: Seq<int>,
    sigma: nat,
    sa: Seq<int>,
    end: Seq<int>,
    at: Seq<int>,
) -> bool {
    &&& at.len() == sa.len()
    &&& forall|x: int|
        0 <= x < sa.len() && #[trigger] live(t, sigma, end, x) ==> 0 <= sa[x] < sa.len()
            && at[sa[x]] == x
    &&& forall|j: int|
        0 <= j < at.len() ==> #[trigger] at[j] == -1 || (0 <= at[j] < sa.len() && live(
            t,
            sigma,
            end,
            at[j],
        ) && sa[at[j]] == j)
}

/// Which positions are in place when the pass from the right has seen the
/// slots from `i` on: those of type L, and each position of type S whose
/// right neighbour has been seen in its place.
pub open spec fn s_progress_at(t: Seq<int>, at: Seq<int>, i: int, j: int) -> bool {
    if !is_s_type(t, j) {
        at[j] != -1
    } else {
        j + 1 < t.len() && (at[j] != -1) == (at[j + 1] != -1 && at[j + 1] >= i)
    }
}

/// What holds during the pass from the right.
pub open spec fn s_inv(
    t: Seq<int>,
    sigma: nat,
    e: int,
    before: Seq<int>,
    sa: Seq<int>,
    end: Seq<int>,
    at: Seq<int>,
    i: int,
) -> bool {
    &&& l_done(t, sigma, e, before)
    &&& sa.len() == t.len()
    &&& end.len() == sigma
    &&& 0 <= i <= t.len()
    &&& forall|c: int|
        0 <= c < sigma ==> bucket_mid(t, sigma, c) <= #[trigger] end[c] <= bucket_end(t, sigma, c)
    &&& forall|x: int| 0 <= x < sa.len() ==> #[trigger] s_zone_at(t, sigma, before, sa, end, x)
    &&& tracks_live(t, sigma, sa, end, at)
    &&& forall|j: int| 0 <= j < t.len() ==> #[trigger] s_progress_at(t, at, i, j)
}

/// The slots of the positions of type L.
pub open spec fn l_slots_of(t: Seq<int>, sa: Seq<int>) -> Seq<int> {
    Seq::new(sa.len(), |j: int| if !is_s_type(t, j) && sa.contains(j) {
        choose|x: int| 0 <= x < sa.len() && sa[x] == j
    } else {
        -1
    })
}

/// The positions in live slots stand in the order of the pass from the
/// right.
pub open spec fn ordered_live(
    t: Seq<int>,
    sigma: nat,
    full: bool,
    sa: Seq<int>,
    end: Seq<int>,
) -> bool {
    forall|x: int, y: int|
        0 <= x < y < sa.len() && live(t, sigma, end, x) && live(t, sigma, end, y)
            ==> #[trigger] le_s(t, full, sa[x], sa[y])
}

/// The pass from the right starts from the state that the pass from the
/// left leaves, with the pointers at the ends of the buckets.
proof fn lemma_s_start(t: Seq<int>, sigma: nat, e: int, before: Seq<int>, end: Seq<int>)
    requires
        valid_text(t, sigma),
        l_done(t, sigma, e, before),
        end.len() == sigma,
        forall|c: int| 0 <= c < sigma ==> end[c] == bucket_end(t, sigma, c),
    ensures
        s_inv(t, sigma, e, before, before, end, l_slots_of(t, before), t.len() as int),
{
    let n = t.len() as int;
    let at = l_slots_of(t, before);
    assert forall|c: int| 0 <= c < sigma implies bucket_mid(t, sigma, c) <= #[trigger] end[c]
        <= bucket_end(t, sigma, c) by {
        lemma_bucket_mid(t, sigma, c);
    }
    assert forall|x: int| 0 <= x < before.len() implies #[trigger] s_zone_at(
        t,
        sigma,
        before,
        before,
        end,
        x,
    ) by {
        lemma_owner(t, sigma, x);
    }
    assert forall|x: int| 0 <= x < before.len() && #[trigger] live(t, sigma, end, x) implies 0
        <= before[x] < before.len() && at[before[x]] == x by {
        lemma_owner(t, sigma, x);
        assert(l_done_at(t, sigma, e, before, x));
        let j = before[x];
        assert(before.contains(j));
        let y = at[j];
        assert(0 <= y < before.len() && before[y] == j);
        if y < x {
            assert(before[y] != before[x]);
        } else if x < y {
            assert(before[x] != before[y]);
        }
    }
    assert forall|j: int| 0 <= j < at.len() implies #[trigger] at[j] == -1 || (0 <= at[j]
        < before.len() && live(t, sigma, end, at[j]) && before[at[j]] == j) by {
        if at[j] != -1 {
            let y = at[j];
            assert(0 <= y < before.len() && before[y] == j);
            assert(l_done_at(t, sigma, e, before, y));
        }
    }
    assert forall|j: int| 0 <= j < n implies #[trigger] s_progress_at(t, at, n, j) by {
        if is_s_type(t, j) {
            lemma_s_type_next(t, j);
            if at[j + 1] != -1 {
                assert(0 <= at[j + 1] < before.len());
            }
        } else {
            assert(before.contains(j));
        }
    }
}

/// There is room for one more position of type S behind the middle of its
/// bucket, the room lies before the slot that is being seen, and putting
/// the position there keeps what holds during the pass.
proof fn lemma_s_write(
    t: Seq<int>,
    sigma: nat,
    e: int,
    before: Seq<int>,
    sa: Seq<int>,
    end: Seq<int>,
    at: Seq<int>,
    i: int,
)
    requires
        valid_text(t, sigma),
        s_inv(t, sigma, e, before, sa, end, at, i),
        1 <= i,
        sa[i - 1] != e,
        sa[i - 1] >= 1,
        is_s_type(t, sa[i - 1] - 1),
    ensures
        ({
            let j = sa[i - 1] - 1;
            let c = t[j];
            let q = end[c] - 1;
            &&& 0 <= j < t.len()
            &&& 0 <= c < sigma
            &&& 0 <= bucket_mid(t, sigma, c) <= q < t.len()
            &&& q < i - 1
            &&& q < end[c] <= bucket_end(t, sigma, c)
            &&& live(t, sigma, end, i - 1)
            &&& at[j] == -1
            &&& s_inv(
                t,
                sigma,
                e,
                before,
                sa.update(q, j),
                end.update(c, q),
                at.update(j, q),
                i - 1,
            )
        }),
{
    let n = t.len() as int;
    let k = i - 1;
    let v = sa[k];
    let j = v - 1;
    let o = owner_of(t, sigma, k);
    lemma_owner(t, sigma, k);
    lemma_bucket_mid(t, sigma, o);
    assert(s_zone_at(t, sigma, before, sa, end, k));
    assert(l_done_at(t, sigma, e, before, k));
    assert(0 <= v < n);
    assert(0 <= j < n);
    // the slot that is being seen is live
    assert(live(t, sigma, end, k)) by {
        if bucket_mid(t, sigma, o) <= k < end[o] {
            assert(is_lms(t, v));
        }
    }
    assert(at[v] == k);
    assert(t[v] == o);
    let c = t[j];
    lemma_bucket_mid(t, sigma, c);
    lemma_s_type_next(t, j);
    assert(s_progress_at(t, at, i, j));
    assert(at[j] == -1);
    // room in the bucket
    let hi = bucket_end(t, sigma, c);
    let zone = sa.subrange(end[c], hi);
    assert forall|m: int| 0 <= m < zone.len() implies 0 <= #[trigger] zone[m] < n && t[zone[m]]
        == c && is_s_type(t, zone[m]) && at[zone[m]] == end[c] + m by {
        lemma_owner_unique(t, sigma, end[c] + m, c);
        assert(s_zone_at(t, sigma, before, sa, end, end[c] + m));
        assert(live(t, sigma, end, end[c] + m));
    }
    let more = zone.push(j);
    assert(more.no_duplicates()) by {
        assert forall|a: int, b: int| 0 <= a < more.len() && 0 <= b < more.len() && a
            != b implies more[a] != more[b] by {
            if a < zone.len() {
                assert(at[zone[a]] == end[c] + a);
            }
            if b < zone.len() {
                assert(at[zone[b]] == end[c] + b);
            }
        }
    }
    assert forall|m: int| 0 <= m < more.len() implies 0 <= #[trigger] more[m] < n && s_with_symbol(
        t,
        c,
    )(more[m]) by {
        if m < zone.len() {
            assert(more[m] == zone[m]);
        }
    }
    lemma_distinct_bounded(more, s_with_symbol(t, c), n);
    let q = end[c] - 1;
    assert(bucket_mid(t, sigma, c) <= q);
    lemma_owner_unique(t, sigma, q, c);
    // the room lies before the slot that is being seen
    assert(q < k) by {
        if c < o {
            lemma_buckets_ordered(t, sigma, c, o);
        }
    }
    let sa2 = sa.update(q, j);
    let end2 = end.update(c, q);
    let at2 = at.update(j, q);
    assert forall|x: int| 0 <= x < sa2.len() implies #[trigger] s_zone_at(
        t,
        sigma,
        before,
        sa2,
        end2,
        x,
    ) by {
        assert(s_zone_at(t, sigma, before, sa, end, x));
        lemma_owner(t, sigma, x);
    }
    assert(tracks_live(t, sigma, sa2, end2, at2)) by {
        assert forall|x: int| 0 <= x < sa2.len() && #[trigger] live(
            t,
            sigma,
            end2,
            x,
        ) implies 0 <= sa2[x] < sa2.len() && at2[sa2[x]] == x by {
            lemma_owner(t, sigma, x);
            if x != q {
                assert(live(t, sigma, end, x));
                assert(at[sa[x]] == x);
            }
        }
        assert forall|m: int| 0 <= m < at2.len() implies #[trigger] at2[m] == -1 || (0 <= at2[m]
            < sa2.len() && live(t, sigma, end2, at2[m]) && sa2[at2[m]] == m) by {
            if m != j && at[m] != -1 {
                let y = at[m];
                assert(live(t, sigma, end, y));
                lemma_owner(t, sigma, y);
            }
        }
    }
    assert forall|m: int| 0 <= m < n implies #[trigger] s_progress_at(t, at2, i - 1, m) by {
        assert(s_progress_at(t, at, i, m));
        if is_s_type(t, m) && m != j {
            if m + 1 != j && at[m + 1] == k {
                assert(sa[at[m + 1]] == m + 1);
            }
        }
    }
}

/// A slot that induces nothing is passed over.
proof fn lemma_s_skip(
    t: Seq<int>,
    sigma: nat,
    e: int,
    before: Seq<int>,
    sa: Seq<int>,
    end: Seq<int>,
    at: Seq<int>,
    i: int,
)
    requires
        s_inv(t, sigma, e, before, sa, end, at, i),
        1 <= i,
        sa[i - 1] == e || sa[i - 1] == 0 || !is_s_type(t, sa[i - 1] - 1),
    ensures
        s_inv(t, sigma, e, before, sa, end, at, i - 1),
{
    assert forall|m: int| 0 <= m < t.len() implies #[trigger] s_progress_at(t, at, i - 1, m) by {
        assert(s_progress_at(t, at, i, m));
        if is_s_type(t, m) && at[m + 1] == i - 1 {
            assert(sa[at[m + 1]] == m + 1);
        }
    }
}

/// When every slot has been seen, every position from `from` on is in
/// place.
proof fn lemma_s_all_placed(
    t: Seq<int>,
    sigma: nat,
    e: int,
    before: Seq<int>,
    sa: Seq<int>,
    end: Seq<int>,
    at: Seq<int>,
    from: int,
)
    requires
        s_inv(t, sigma, e, before, sa, end, at, 0),
        0 <= from <= t.len(),
    ensures
        forall|j: int| from <= j < t.len() ==> at[j] != -1,
    decreases t.len() - from,
{
    if from < t.len() {
        lemma_s_all_placed(t, sigma, e, before, sa, end, at, from + 1);
        assert(s_progress_at(t, at, 0, from));
        if is_s_type(t, from) {
            assert(at[from + 1] != -1);
            assert(0 <= at[from + 1]);
        }
    }
}

/// When every slot has been seen, all positions are in place.
proof fn lemma_s_done(
    t: Seq<int>,
    sigma: nat,
    e: int,
    before: Seq<int>,
    sa: Seq<int>,
    end: Seq<int>,
    at: Seq<int>,
)
    requires
        valid_text(t, sigma),
        s_inv(t, sigma, e, before, sa, end, at, 0),
    ensures
        sorted_into_buckets(t, sigma, sa),
{
    let n = t.len() as int;
    lemma_s_all_placed(t, sigma, e, before, sa, end, at, 0);
    assert forall|c: int| 0 <= c < sigma implies end[c] == bucket_mid(t, sigma, c) by {
        let hi = bucket_end(t, sigma, c);
        let zone = sa.subrange(end[c], hi);
        lemma_bucket_mid(t, sigma, c);
        assert forall|j: int| 0 <= j < n && #[trigger] s_with_symbol(t, c)(j) implies zone.contains(
            j,
        ) by {
            let y = at[j];
            assert(0 <= y < n && sa[y] == j && live(t, sigma, end, y));
            lemma_owner(t, sigma, y);
            assert(s_zone_at(t, sigma, before, sa, end, y));
            assert(l_done_at(t, sigma, e, before, y));
            assert(zone[y - end[c]] == j);
        }
        lemma_covering_bounded(zone, s_with_symbol(t, c), n);
    }
    assert forall|x: int| 0 <= x < n implies live(t, sigma, end, x) by {
        lemma_owner(t, sigma, x);
    }
    assert forall|x: int| 0 <= x < sa.len() implies 0 <= #[trigger] sa[x] < sa.len() by {
        assert(live(t, sigma, end, x));
    }
    assert forall|x: int, y: int| 0 <= x < y < sa.len() implies sa[x] != sa[y] by {
        assert(live(t, sigma, end, x));
        assert(live(t, sigma, end, y));
    }
    assert forall|x: int| 0 <= x < sa.len() implies #[trigger] in_bucket_at(t, sigma, sa, x) by {
        lemma_owner(t, sigma, x);
        assert(s_zone_at(t, sigma, before, sa, end, x));
        assert(l_done_at(t, sigma, e, before, x));
    }
}

/// Positions of type L that stand in the order of the pass from the left
/// stand in the order of the pass from the right.
proof fn lemma_s_start_ordered(
    t: Seq<int>,
    sigma: nat,
    e: int,
    full: bool,
    before: Seq<int>,
    end: Seq<int>,
)
    requires
        valid_text(t, sigma),
        l_done(t, sigma, e, before),
        ordered_l(t, full, e, before),
        end.len() == sigma,
        forall|c: int| 0 <= c < sigma ==> end[c] == bucket_end(t, sigma, c),
    ensures
        ordered_live(t, sigma, full, before, end),
{
    assert forall|x: int, y: int|
        0 <= x < y < before.len() && live(t, sigma, end, x) && live(
            t,
            sigma,
            end,
            y,
        ) implies #[trigger] le_s(t, full, before[x], before[y]) by {
        lemma_owner(t, sigma, x);
        lemma_owner(t, sigma, y);
        assert(l_done_at(t, sigma, e, before, x));
        assert(l_done_at(t, sigma, e, before, y));
        assert(le_l(t, full, before[x], before[y]));
    }
}

/// How the position that the pass from the right puts in place compares
/// with the position in another live slot.
proof fn lemma_s_rel(
    t: Seq<int>,
    sigma: nat,
    e: int,
    full: bool,
    before: Seq<int>,
    sa: Seq<int>,
    end: Seq<int>,
    at: Seq<int>,
    i: int,
    y: int,
)
    requires
        valid_text(t, sigma),
        s_inv(t, sigma, e, before, sa, end, at, i),
        1 <= i,
        sa[i - 1] != e,
        sa[i - 1] >= 1,
        is_s_type(t, sa[i - 1] - 1),
        ordered_live(t, sigma, full, sa, end),
        0 <= y < t.len(),
        live(t, sigma, end, y),
    ensures
        ({
            let j = sa[i - 1] - 1;
            let q = end[t[j]] - 1;
            &&& y != q
            &&& y < q ==> le_s(t, full, sa[y], j)
            &&& y > q ==> le_s(t, full, j, sa[y])
        }),
{
    let n = t.len() as int;
    lemma_s_write(t, sigma, e, before, sa, end, at, i);
    let k = i - 1;
    let j = sa[k] - 1;
    let c = t[j];
    let q = end[c] - 1;
    let b = sa[y];
    let o = owner_of(t, sigma, y);
    lemma_owner(t, sigma, y);
    lemma_bucket_mid(t, sigma, c);
    lemma_bucket_mid(t, sigma, o);
    assert(s_zone_at(t, sigma, before, sa, end, y));
    assert(l_done_at(t, sigma, e, before, y));
    assert(0 <= b < n && at[b] == y);
    assert(t[b] == o);
    if o < c {
        lemma_buckets_ordered(t, sigma, o, c);
    } else if c < o {
        lemma_buckets_ordered(t, sigma, c, o);
    } else if y > q {
        assert(s_progress_at(t, at, i, b));
        let seen = at[b + 1];
        assert(seen >= i);
        assert(live(t, sigma, end, seen) && sa[seen] == b + 1);
        assert(le_s(t, full, sa[k], sa[seen]));
    }
}

/// Putting a position in place keeps the order of the pass from the
/// right.
proof fn lemma_s_write_ordered(
    t: Seq<int>,
    sigma: nat,
    e: int,
    full: bool,
    before: Seq<int>,
    sa: Seq<int>,
    end: Seq<int>,
    at: Seq<int>,
    i: int,
)
    requires
        valid_text(t, sigma),
        s_inv(t, sigma, e, before, sa, end, at, i),
        1 <= i,
        sa[i - 1] != e,
        sa[i - 1] >= 1,
        is_s_type(t, sa[i - 1] - 1),
        ordered_live(t, sigma, full, sa, end),
    ensures
        ordered_live(
            t,
            sigma,
            full,
            sa.update(end[t[sa[i - 1] - 1]] - 1, sa[i - 1] - 1),
            end.update(t[sa[i - 1] - 1], end[t[sa[i - 1] - 1]] - 1),
        ),
{
    lemma_s_write(t, sigma, e, before, sa, end, at, i);
    let j = sa[i - 1] - 1;
    let c = t[j];
    let q = end[c] - 1;
    let sa2 = sa.update(q, j);
    let end2 = end.update(c, q);
    assert forall|x: int, y: int|
        0 <= x < y < sa2.len() && live(t, sigma, end2, x) && live(
            t,
            sigma,
            end2,
            y,
        ) implies #[trigger] le_s(t, full, sa2[x], sa2[y]) by {
        lemma_owner(t, sigma, x);
        lemma_owner(t, sigma, y);
        if x != q {
            assert(live(t, sigma, end, x));
        }
        if y != q {
            assert(live(t, sigma, end, y));
        }
        if x == q {
            lemma_s_rel(t, sigma, e, full, before, sa, end, at, i, y);
        } else if y == q {
            lemma_s_rel(t, sigma, e, full, before, sa, end, at, i, x);
        } else {
            assert(le_s(t, full, sa[x], sa[y]));
        }
    }
}

/// When every slot has been seen, all positions stand in the order of the
/// pass from the right.
proof fn lemma_s_done_ordered(
    t: Seq<int>,
    sigma: nat,
    e: int,
    full: bool,
    before: Seq<int>,
    sa: Seq<int>,
    end: Seq<int>,
    at: Seq<int>,
)
    requires
        valid_text(t, sigma),
        s_inv(t, sigma, e, before, sa, end, at, 0),
        ordered_live(t, sigma, full, sa, end),
    ensures
        ordered_s(t, full, sa),
{
    let n = t.len() as int;
    lemma_s_all_placed(t, sigma, e, before, sa, end, at, 0);
    assert forall|x: int| 0 <= x < n implies live(t, sigma, end, x) by {
        lemma_owner(t, sigma, x);
        let c = owner_of(t, sigma, x);
        lemma_bucket_mid(t, sigma, c);
        if !live(t, sigma, end, x) {
            lemma_s_done(t, sigma, e, before, sa, end, at);
            let j = sa[x];
            assert(0 <= j < n);
            let y = at[j];
            assert(live(t, sigma, end, y) && sa[y] == j);
            if x < y {
                assert(sa[x] != sa[y]);
            } else {
                assert(sa[y] != sa[x]);
            }
        }
    }
    assert forall|x: int, y: int| 0 <= x < y < sa.len() implies #[trigger] le_s(
        t,
        full,
        sa[x],
        sa[y],
    ) by {
        assert(live(t, sigma, end, x));
        assert(live(t, sigma, end, y));
    }
}

/// Scans `sa` from the right and puts each position of type S at the back
/// of its bucket as soon as the position after it has been seen in its
/// place. What the back parts of the buckets held before is overwritten.
pub(crate) fn induce_s<T: ArrayIndex, Idx: ArrayIndex>(
    text: &[T],
    types: &Vec<bool>,
    end: &mut Vec<Idx>,
    sa: &mut Vec<Idx>,
    Ghost(full): Ghost<bool>,
)
    requires
        ordered_l(values(text@), full, Idx::max_index() as int, values(old(sa)@)),
        text.len() < Idx::max_index(),
        types_of(values(text@), types@),
        valid_text(values(text@), old(end).len() as nat),
        old(sa).len() == text.len(),
        l_done(values(text@), old(end).len() as nat, Idx::max_index() as int, values(old(sa)@)),
        forall|c: int|
            0 <= c < old(end).len() ==> (#[trigger] old(end)@[c]).value() == bucket_end(
                values(text@),
                old(end).len() as nat,
                c,
            ),
    ensures
        final(sa).len() == old(sa).len(),
        final(end).len() == old(end).len(),
        sorted_into_buckets(values(text@), old(end).len() as nat, values(final(sa)@)),
        ordered_s(values(text@), full, values(final(sa)@)),
{
    let n = text.len();
    let empty = Idx::max_usize();
    let ghost t = values(text@);
    let ghost sigma = end.len() as nat;
    let ghost e = Idx::max_index() as int;
    let ghost before = values(sa@);
    let ghost mut at = l_slots_of(t, before);
    proof {
        lemma_s_start(t, sigma, e, before, values(end@));
        lemma_s_start_ordered(t, sigma, e, full, before, values(end@));
    }
    let mut i: usize = n;
    while i > 0
        invariant
            n == text.len(),
            n < Idx::max_index(),
            empty == Idx::max_index(),
            t == values(text@),
            sigma == end.len(),
            e == Idx::max_index(),
            types_of(t, types@),
            valid_text(t, sigma),
            sa.len() == n,
            i <= n,
            s_inv(t, sigma, e, before, values(sa@), values(end@), at, i as int),
            ordered_live(t, sigma, full, values(sa@), values(end@)),
        decreases i,
    {
        let ghost sa_before = values(sa@);
        let ghost end_before = values(end@);
        let v = sa[i - 1].as_usize();
        assert(sa_before[i - 1] == v);
        let mut written = false;
        proof {
            assert(s_zone_at(t, sigma, before, sa_before, end_before, i - 1));
            assert(l_done_at(t, sigma, e, before, i - 1));
        }
        if v != empty && v > 0 {
            let j = v - 1;
            if types[j] {
                proof {
                    lemma_s_write(t, sigma, e, before, sa_before, end_before, at, i as int);
                    lemma_s_write_ordered(
                        t,
                        sigma,
                        e,
                        full,
                        before,
                        sa_before,
                        end_before,
                        at,
                        i as int,
                    );
                }
                let c = text[j].as_usize();
                assert(c == t[j as int]);
                assert(end_before[c as int] == end@[c as int].value());
                let q = end[c].as_usize() - 1;
                sa[q] = Idx::from_usize(j);
                end[c] = Idx::from_usize(q);
                proof {
                    at = at.update(j as int, q as int);
                    assert(values(sa@) =~= sa_before.update(q as int, j as int));
                    assert(values(end@) =~= end_before.update(c as int, q as int));
                }
                written = true;
            }
        }
        proof {
            if !written {
                lemma_s_skip(t, sigma, e, before, sa_before, end_before, at, i as int);
            }
        }
        i -= 1;
    }
    proof {
        lemma_s_done(t, sigma, e, before, values(sa@), values(end@), at);
        lemma_s_done_ordered(t, sigma, e, full, before, values(sa@), values(end@), at);
    }
}

} // verus!
