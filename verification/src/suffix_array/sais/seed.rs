//! Seeding: putting the left-most S positions at the back of their
//! buckets, from where the two passes induce the places of all others.
use vstd::prelude::*;
use crate::index::{ArrayIndex, values};
use crate::order::{suffix_lt, lemma_suffix_lt_irreflexive};
use crate::suffix_array::sais::buckets::bucket_end;
use crate::suffix_array::sais::counting::lemma_distinct_bounded;
use crate::suffix_array::sais::keys::{le_l, lms_in_order};
use crate::suffix_array::sais::layout::{
    valid_text,
    bucket_mid,
    owner_of,
    lms_with_symbol,
    lemma_bucket_mid,
    lemma_buckets_ordered,
    lemma_owner,
    lemma_owner_unique,
};
use crate::suffix_array::sais::stages::{types_of, no_repeats, seeded_at, seeded, ordered_l};
use crate::suffix_array::sais::types::{is_lms, lms_at};

verus! {

/// What slot `x` holds while the left-most S positions below `p` are
/// seeded: nothing before the pointer of its bucket, a seed behind it.
pub open spec fn seed_zone_at(
    t: Seq<int>,
    sigma: nat,
    e: int,
    sa: Seq<int>,
    end: Seq<int>,
    p: int,
    x: int,
) -> bool {
    let c = owner_of(t, sigma, x);
    if x < end[c] {
        sa[x] == e
    } else {
        0 <= sa[x] < p && t[sa[x]] == c && is_lms(t, sa[x])
    }
}

/// What holds while the left-most S positions are seeded in the order of
/// the text, when those below `p` are done.
pub open spec fn seed_inv(
    t: Seq<int>,
    sigma: nat,
    e: int,
    sa: Seq<int>,
    end: Seq<int>,
    p: int,
) -> bool {
    &&& sa.len() == t.len()
    &&& end.len() == sigma
    &&& t.len() <= e
    &&& 0 <= p <= t.len()
    &&& forall|c: int|
        0 <= c < sigma ==> bucket_mid(t, sigma, c) <= #[trigger] end[c] <= bucket_end(t, sigma, c)
    &&& forall|x: int| 0 <= x < sa.len() ==> #[trigger] seed_zone_at(t, sigma, e, sa, end, p, x)
    &&& no_repeats(sa, e)
    &&& forall|j: int| 0 <= j < p && #[trigger] is_lms(t, j) ==> sa.contains(j)
}

/// Seeding starts from empty slots and pointers at the ends of the
/// buckets.
proof fn lemma_seed_start(t: Seq<int>, sigma: nat, e: int, sa: Seq<int>, end: Seq<int>)
    requires
        valid_text(t, sigma),
        sa.len() == t.len(),
        end.len() == sigma,
        t.len() <= e,
        forall|x: int| 0 <= x < sa.len() ==> sa[x] == e,
        forall|c: int| 0 <= c < sigma ==> end[c] == bucket_end(t, sigma, c),
    ensures
        seed_inv(t, sigma, e, sa, end, 0),
{
    assert forall|c: int| 0 <= c < sigma implies bucket_mid(t, sigma, c) <= #[trigger] end[c]
        <= bucket_end(t, sigma, c) by {
        lemma_bucket_mid(t, sigma, c);
    }
    assert forall|x: int| 0 <= x < sa.len() implies #[trigger] seed_zone_at(
        t,
        sigma,
        e,
        sa,
        end,
        0,
        x,
    ) by {
        lemma_owner(t, sigma, x);
    }
}

/// A position that is not a left-most S position is passed over.
proof fn lemma_seed_skip(t: Seq<int>, sigma: nat, e: int, sa: Seq<int>, end: Seq<int>, p: int)
    requires
        seed_inv(t, sigma, e, sa, end, p),
        p < t.len(),
        !is_lms(t, p),
    ensures
        seed_inv(t, sigma, e, sa, end, p + 1),
{
    assert forall|x: int| 0 <= x < sa.len() implies #[trigger] seed_zone_at(
        t,
        sigma,
        e,
        sa,
        end,
        p + 1,
        x,
    ) by {
        assert(seed_zone_at(t, sigma, e, sa, end, p, x));
    }
}

/// There is room for one more seed behind the middle of its bucket, and
/// putting it there keeps what holds during seeding.
proof fn lemma_seed_write(t: Seq<int>, sigma: nat, e: int, sa: Seq<int>, end: Seq<int>, p: int)
    requires
        valid_text(t, sigma),
        seed_inv(t, sigma, e, sa, end, p),
        p < t.len(),
        is_lms(t, p),
    ensures
        bucket_mid(t, sigma, t[p]) < end[t[p]],
        sa[end[t[p]] - 1] == e,
        seed_inv(t, sigma, e, sa.update(end[t[p]] - 1, p), end.update(t[p], end[t[p]] - 1), p + 1),
{
    let n = t.len() as int;
    let c = t[p];
    let hi = bucket_end(t, sigma, c);
    lemma_bucket_mid(t, sigma, c);
    assert(bucket_mid(t, sigma, c) <= end[c] <= hi);
    let zone = sa.subrange(end[c], hi);
    assert forall|k: int| 0 <= k < zone.len() implies 0 <= #[trigger] zone[k] < p && t[zone[k]]
        == c && is_lms(t, zone[k]) by {
        lemma_owner_unique(t, sigma, end[c] + k, c);
        assert(seed_zone_at(t, sigma, e, sa, end, p, end[c] + k));
    }
    let more = zone.push(p);
    assert(more.no_duplicates()) by {
        assert forall|a: int, b: int| 0 <= a < more.len() && 0 <= b < more.len() && a
            != b implies more[a] != more[b] by {
            if a < zone.len() {
                assert(0 <= zone[a] < p && zone[a] == sa[end[c] + a]);
            }
            if b < zone.len() {
                assert(0 <= zone[b] < p && zone[b] == sa[end[c] + b]);
            }
            if a < zone.len() && b < zone.len() {
                if a < b {
                    assert(sa[end[c] + a] != sa[end[c] + b]);
                } else {
                    assert(sa[end[c] + b] != sa[end[c] + a]);
                }
            }
        }
    }
    assert forall|k: int| 0 <= k < more.len() implies 0 <= #[trigger] more[k] < n
        && lms_with_symbol(t, c)(more[k]) by {
        if k < zone.len() {
            assert(more[k] == zone[k]);
        }
    }
    lemma_distinct_bounded(more, lms_with_symbol(t, c), n);
    let q = end[c] - 1;
    assert(bucket_mid(t, sigma, c) <= q);
    lemma_owner_unique(t, sigma, q, c);
    assert(seed_zone_at(t, sigma, e, sa, end, p, q));
    let sa2 = sa.update(q, p);
    let end2 = end.update(c, q);
    assert forall|x: int| 0 <= x < sa2.len() implies #[trigger] seed_zone_at(
        t,
        sigma,
        e,
        sa2,
        end2,
        p + 1,
        x,
    ) by {
        assert(seed_zone_at(t, sigma, e, sa, end, p, x));
        lemma_owner(t, sigma, x);
    }
    assert(no_repeats(sa2, e)) by {
        assert forall|x: int, y: int| 0 <= x < y < sa2.len() && sa2[x] != e implies #[trigger] sa2[x]
            != #[trigger] sa2[y] by {
            assert(seed_zone_at(t, sigma, e, sa, end, p, x));
            assert(seed_zone_at(t, sigma, e, sa, end, p, y));
            if x != q && y != q {
                assert(sa[x] != sa[y]);
            }
        }
    }
    assert forall|j: int| 0 <= j < p + 1 && #[trigger] is_lms(t, j) implies sa2.contains(j) by {
        if j == p {
            assert(sa2[q] == j);
        } else {
            assert(sa.contains(j));
            let x = choose|x: int| 0 <= x < sa.len() && sa[x] == j;
            assert(sa2[x] == j);
        }
    }
}

/// When all positions have been passed, the array is seeded.
proof fn lemma_seed_done(t: Seq<int>, sigma: nat, e: int, sa: Seq<int>, end: Seq<int>)
    requires
        valid_text(t, sigma),
        seed_inv(t, sigma, e, sa, end, t.len() as int),
    ensures
        seeded(t, sigma, e, sa),
{
    assert forall|x: int| 0 <= x < sa.len() implies #[trigger] seeded_at(t, sigma, e, sa, x) by {
        assert(seed_zone_at(t, sigma, e, sa, end, t.len() as int, x));
        lemma_owner(t, sigma, x);
    }
}

/// Puts every left-most S position at the back of its bucket, in the order
/// of the text: in each bucket the positions end up in descending order.
pub(crate) fn seed_lms<T: ArrayIndex, Idx: ArrayIndex>(
    text: &[T],
    types: &Vec<bool>,
    end: &mut Vec<Idx>,
    sa: &mut Vec<Idx>,
)
    requires
        text.len() < Idx::max_index(),
        types_of(values(text@), types@),
        valid_text(values(text@), old(end).len() as nat),
        old(sa).len() == text.len(),
        forall|x: int| 0 <= x < text.len() ==> (#[trigger] old(sa)@[x]).value() == Idx::max_index(),
        forall|c: int|
            0 <= c < old(end).len() ==> (#[trigger] old(end)@[c]).value() == bucket_end(
                values(text@),
                old(end).len() as nat,
                c,
            ),
    ensures
        final(sa).len() == old(sa).len(),
        final(end).len() == old(end).len(),
        seeded(
            values(text@),
            old(end).len() as nat,
            Idx::max_index() as int,
            values(final(sa)@),
        ),
{
    let n = text.len();
    let ghost t = values(text@);
    let ghost sigma = end.len() as nat;
    let ghost e = Idx::max_index() as int;
    proof {
        lemma_seed_start(t, sigma, e, values(sa@), values(end@));
    }
    let mut p: usize = 0;
    while p < n
        invariant
            n == text.len(),
            n < Idx::max_index(),
            t == values(text@),
            sigma == end.len(),
            e == Idx::max_index(),
            types_of(t, types@),
            valid_text(t, sigma),
            sa.len() == n,
            seed_inv(t, sigma, e, values(sa@), values(end@), p as int),
        decreases n - p,
    {
        if lms_at(types, p) {
            let ghost sa_before = values(sa@);
            let ghost end_before = values(end@);
            proof {
                assert(is_lms(t, p as int));
                lemma_seed_write(t, sigma, e, sa_before, end_before, p as int);
                lemma_bucket_mid(t, sigma, t[p as int]);
            }
            let c = text[p].as_usize();
            assert(c == t[p as int]);
            assert(end_before[c as int] == end@[c as int].value());
            let q = end[c].as_usize() - 1;
            sa[q] = Idx::from_usize(p);
            end[c] = Idx::from_usize(q);
            proof {
                assert(values(sa@) =~= sa_before.update(q as int, p as int));
                assert(values(end@) =~= end_before.update(c as int, q as int));
            }
        } else {
            proof {
                lemma_seed_skip(t, sigma, e, values(sa@), values(end@), p as int);
            }
        }
        p += 1;
    }
    proof {
        lemma_seed_done(t, sigma, e, values(sa@), values(end@));
    }
}

/// What slot `x` holds while the entries of `list` from `i` on are
/// seeded: nothing before the pointer of its bucket, behind it the entry
/// of `list` that `src` names.
pub open spec fn sorted_zone_at(
    t: Seq<int>,
    sigma: nat,
    e: int,
    list: Seq<int>,
    sa: Seq<int>,
    end: Seq<int>,
    src: Seq<int>,
    i: int,
    x: int,
) -> bool {
    let c = owner_of(t, sigma, x);
    if x < end[c] {
        sa[x] == e
    } else {
        i <= src[x] < list.len() && sa[x] == list[src[x]] && t[sa[x]] == c
    }
}

/// What holds while a sorted list of left-most S positions is seeded from
/// its end, when the entries from `i` on are done.
pub open spec fn sorted_seed_inv(
    t: Seq<int>,
    sigma: nat,
    e: int,
    list: Seq<int>,
    sa: Seq<int>,
    end: Seq<int>,
    src: Seq<int>,
    i: int,
) -> bool {
    &&& lms_in_order(t, list)
    &&& sa.len() == t.len()
    &&& src.len() == t.len()
    &&& end.len() == sigma
    &&& t.len() <= e
    &&& 0 <= i <= list.len()
    &&& forall|c: int|
        0 <= c < sigma ==> bucket_mid(t, sigma, c) <= #[trigger] end[c] <= bucket_end(t, sigma, c)
    &&& forall|x: int|
        0 <= x < sa.len() ==> #[trigger] sorted_zone_at(t, sigma, e, list, sa, end, src, i, x)
    &&& no_repeats(sa, e)
    &&& ordered_l(t, true, e, sa)
    &&& forall|y: int| i <= y < list.len() ==> sa.contains(#[trigger] list[y])
}

/// There is room for one more entry of the list behind the middle of its
/// bucket, and putting it there keeps what holds during seeding.
proof fn lemma_sorted_seed_write(
    t: Seq<int>,
    sigma: nat,
    e: int,
    list: Seq<int>,
    sa: Seq<int>,
    end: Seq<int>,
    src: Seq<int>,
    i: int,
)
    requires
        valid_text(t, sigma),
        sorted_seed_inv(t, sigma, e, list, sa, end, src, i),
        1 <= i,
    ensures
        ({
            let a = list[i - 1];
            let c = t[a];
            let q = end[c] - 1;
            &&& 0 <= a < t.len()
            &&& 0 <= c < sigma
            &&& 0 <= bucket_mid(t, sigma, c) <= q < t.len()
            &&& sorted_seed_inv(
                t,
                sigma,
                e,
                list,
                sa.update(q, a),
                end.update(c, q),
                src.update(q, i - 1),
                i - 1,
            )
        }),
{
    let n = t.len() as int;
    let a = list[i - 1];
    assert(is_lms(t, a));
    let c = t[a];
    let hi = bucket_end(t, sigma, c);
    lemma_bucket_mid(t, sigma, c);
    // every seed so far is above the new one
    assert forall|y: int| 0 <= y < n && #[trigger] sa[y] != e implies i <= src[y] < list.len()
        && sa[y] == list[src[y]] && suffix_lt(t, a, sa[y]) && t[sa[y]] == owner_of(t, sigma, y)
        && end[owner_of(t, sigma, y)] <= y by {
        assert(sorted_zone_at(t, sigma, e, list, sa, end, src, i, y));
        assert(suffix_lt(t, list[i - 1], list[src[y]]));
    }
    let zone = sa.subrange(end[c], hi);
    assert forall|k: int| 0 <= k < zone.len() implies 0 <= #[trigger] zone[k] < n && t[zone[k]]
        == c && is_lms(t, zone[k]) && zone[k] != a && zone[k] != e by {
        lemma_owner_unique(t, sigma, end[c] + k, c);
        assert(sorted_zone_at(t, sigma, e, list, sa, end, src, i, end[c] + k));
        let b = sa[end[c] + k];
        assert(is_lms(t, list[src[end[c] + k]]));
        assert(suffix_lt(t, list[i - 1], list[src[end[c] + k]]));
        lemma_suffix_lt_irreflexive(t, a);
    }
    let more = zone.push(a);
    assert(more.no_duplicates()) by {
        assert forall|u: int, v: int| 0 <= u < more.len() && 0 <= v < more.len() && u
            != v implies more[u] != more[v] by {
            if u < zone.len() {
                assert(zone[u] == sa[end[c] + u] && zone[u] != e);
            }
            if v < zone.len() {
                assert(zone[v] == sa[end[c] + v] && zone[v] != e);
            }
            if u < zone.len() && v < zone.len() {
                if u < v {
                    assert(sa[end[c] + u] != sa[end[c] + v]);
                } else {
                    assert(sa[end[c] + v] != sa[end[c] + u]);
                }
            }
        }
    }
    assert forall|k: int| 0 <= k < more.len() implies 0 <= #[trigger] more[k] < n
        && lms_with_symbol(t, c)(more[k]) by {
        if k < zone.len() {
            assert(more[k] == zone[k]);
        }
    }
    lemma_distinct_bounded(more, lms_with_symbol(t, c), n);
    let q = end[c] - 1;
    assert(bucket_mid(t, sigma, c) <= q);
    lemma_owner_unique(t, sigma, q, c);
    assert(sorted_zone_at(t, sigma, e, list, sa, end, src, i, q));
    assert(sa[q] == e);
    // every seed so far stands behind the room
    assert forall|y: int| 0 <= y < n && #[trigger] sa[y] != e implies q < y by {
        let o = owner_of(t, sigma, y);
        lemma_owner(t, sigma, y);
        assert(suffix_lt(t, a, sa[y]));
        if c < o {
            lemma_buckets_ordered(t, sigma, c, o);
        }
    }
    let sa2 = sa.update(q, a);
    let end2 = end.update(c, q);
    let src2 = src.update(q, i - 1);
    assert forall|x: int| 0 <= x < sa2.len() implies #[trigger] sorted_zone_at(
        t,
        sigma,
        e,
        list,
        sa2,
        end2,
        src2,
        i - 1,
        x,
    ) by {
        assert(sorted_zone_at(t, sigma, e, list, sa, end, src, i, x));
        lemma_owner(t, sigma, x);
    }
    assert(no_repeats(sa2, e)) by {
        assert forall|x: int, y: int| 0 <= x < y < sa2.len() && sa2[x] != e implies #[trigger] sa2[x]
            != #[trigger] sa2[y] by {
            lemma_suffix_lt_irreflexive(t, a);
            if x != q && y != q {
                assert(sa[x] != sa[y]);
            } else if x == q {
                if sa[y] != e {
                    assert(suffix_lt(t, a, sa[y]));
                }
            } else {
                assert(suffix_lt(t, a, sa[x]));
            }
        }
    }
    assert(ordered_l(t, true, e, sa2)) by {
        assert forall|x: int, y: int|
            0 <= x < y < sa2.len() && sa2[x] != e && sa2[y] != e implies #[trigger] le_l(
            t,
            true,
            sa2[x],
            sa2[y],
        ) by {
            if x != q && y != q {
                assert(le_l(t, true, sa[x], sa[y]));
            } else if x == q {
                assert(suffix_lt(t, a, sa[y]));
                assert(is_lms(t, list[src[y]]));
            }
        }
    }
    assert forall|y: int| i - 1 <= y < list.len() implies sa2.contains(#[trigger] list[y]) by {
        if y == i - 1 {
            assert(sa2[q] == list[y]);
        } else {
            assert(sa.contains(list[y]));
            let x = choose|x: int| 0 <= x < sa.len() && sa[x] == list[y];
            assert(is_lms(t, list[y]));
            assert(sa2[x] == list[y]);
        }
    }
}

/// Puts the left-most S positions, given in ascending order of their
/// suffixes, at the back of their buckets, the last one first: in each
/// bucket they end up in ascending order.
pub(crate) fn seed_sorted<T: ArrayIndex, Idx: ArrayIndex>(
    text: &[T],
    order: &Vec<Idx>,
    end: &mut Vec<Idx>,
    sa: &mut Vec<Idx>,
)
    requires
        text.len() < Idx::max_index(),
        valid_text(values(text@), old(end).len() as nat),
        old(sa).len() == text.len(),
        lms_in_order(values(text@), values(order@)),
        forall|x: int| 0 <= x < text.len() ==> (#[trigger] old(sa)@[x]).value() == Idx::max_index(),
        forall|c: int|
            0 <= c < old(end).len() ==> (#[trigger] old(end)@[c]).value() == bucket_end(
                values(text@),
                old(end).len() as nat,
                c,
            ),
    ensures
        final(sa).len() == old(sa).len(),
        final(end).len() == old(end).len(),
        seeded(
            values(text@),
            old(end).len() as nat,
            Idx::max_index() as int,
            values(final(sa)@),
        ),
        ordered_l(values(text@), true, Idx::max_index() as int, values(final(sa)@)),
{
    let n = text.len();
    let m = order.len();
    let ghost t = values(text@);
    let ghost sigma = end.len() as nat;
    let ghost e = Idx::max_index() as int;
    let ghost list = values(order@);
    let ghost mut src: Seq<int> = Seq::new(n as nat, |x: int| -1);
    proof {
        assert forall|c: int| 0 <= c < sigma implies bucket_mid(t, sigma, c) <= #[trigger] values(
            end@,
        )[c] <= bucket_end(t, sigma, c) by {
            lemma_bucket_mid(t, sigma, c);
        }
        assert forall|x: int| 0 <= x < n implies #[trigger] sorted_zone_at(
            t,
            sigma,
            e,
            list,
            values(sa@),
            values(end@),
            src,
            m as int,
            x,
        ) by {
            lemma_owner(t, sigma, x);
        }
    }
    let mut i: usize = m;
    while i > 0
        invariant
            n == text.len(),
            n < Idx::max_index(),
            m == order.len(),
            t == values(text@),
            sigma == end.len(),
            e == Idx::max_index(),
            list == values(order@),
            valid_text(t, sigma),
            sa.len() == n,
            i <= m,
            sorted_seed_inv(t, sigma, e, list, values(sa@), values(end@), src, i as int),
        decreases i,
    {
        let ghost sa_before = values(sa@);
        let ghost end_before = values(end@);
        proof {
            lemma_sorted_seed_write(t, sigma, e, list, sa_before, end_before, src, i as int);
        }
        let p = order[i - 1].as_usize();
        assert(list[i - 1] == p);
        let c = text[p].as_usize();
        assert(c == t[p as int]);
        assert(end_before[c as int] == end@[c as int].value());
        let q = end[c].as_usize() - 1;
        sa[q] = Idx::from_usize(p);
        end[c] = Idx::from_usize(q);
        proof {
            src = src.update(q as int, i - 1);
            assert(values(sa@) =~= sa_before.update(q as int, p as int));
            assert(values(end@) =~= end_before.update(c as int, q as int));
        }
        i -= 1;
    }
    proof {
        let s = values(sa@);
        assert forall|x: int| 0 <= x < s.len() implies #[trigger] seeded_at(t, sigma, e, s, x) by {
            assert(sorted_zone_at(t, sigma, e, list, s, values(end@), src, 0, x));
            lemma_owner(t, sigma, x);
            if s[x] != e {
                assert(is_lms(t, list[src[x]]));
            }
        }
        assert forall|j: int| 0 <= j < t.len() && #[trigger] is_lms(t, j) implies s.contains(j) by {
            assert(list.contains(j));
            let y = choose|y: int| 0 <= y < list.len() && list[y] == j;
            assert(s.contains(list[y]));
        }
    }
}

} // verus!
