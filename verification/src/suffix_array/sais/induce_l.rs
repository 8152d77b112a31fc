//! The pass from the left, which puts the positions of type L in place.
use vstd::prelude::*;
use crate::index::{ArrayIndex, values};
use crate::suffix_array::sais::buckets::bucket_begin;
use crate::suffix_array::sais::counting::{lemma_distinct_bounded, lemma_covering_bounded};
use crate::suffix_array::sais::keys::le_l;
use crate::suffix_array::sais::layout::{
    valid_text,
    bucket_mid,
    owner_of,
    l_with_symbol,
    lemma_bucket_mid,
    lemma_buckets_ordered,
    lemma_owner,
    lemma_owner_unique,
    lemma_l_type_next,
};
use crate::suffix_array::sais::stages::{
    types_of,
    no_repeats,
    seeded_at,
    seeded,
    ordered_l,
    l_done_at,
    l_done,
    backs_kept,
};
use crate::suffix_array::sais::types::{is_s_type, is_lms};

verus! {

/// `at` tells for each position the slot of `sa` that holds it, or -1.
pub open spec fn tracks(sa: Seq<int>, e: int, at: Seq<int>) -> bool {
    &&& at.len() == sa.len()
    &&& sa.len() <= e
    &&& forall|x: int|
        0 <= x < sa.len() && sa[x] != e ==> 0 <= #[trigger] sa[x] < sa.len() && at[sa[x]] == x
    &&& forall|j: int|
        0 <= j < at.len() ==> #[trigger] at[j] == -1 || (0 <= at[j] < sa.len() && sa[at[j]] == j)
}

/// What slot `x` holds during the pass from the left.
pub open spec fn l_zone_at(
    t: Seq<int>,
    sigma: nat,
    e: int,
    seed: Seq<int>,
    sa: Seq<int>,
    begin: Seq<int>,
    x: int,
) -> bool {
    let c = owner_of(t, sigma, x);
    if x < begin[c] {
        0 <= sa[x] < t.len() && t[sa[x]] == c && !is_s_type(t, sa[x])
    } else if x < bucket_mid(t, sigma, c) {
        sa[x] == e
    } else {
        sa[x] == seed[x]
    }
}

/// Which positions are in place when the pass from the left has seen the
/// slots before `i`: the seeds, and each position of type L whose right
/// neighbour has been seen. The end of the text counts as seen at slot -1.
pub open spec fn l_progress_at(t: Seq<int>, at: Seq<int>, i: int, j: int) -> bool {
    if is_s_type(t, j) {
        (at[j] != -1) == is_lms(t, j)
    } else if j + 1 == t.len() {
        (at[j] != -1) == (i >= 0)
    } else {
        (at[j] != -1) == (0 <= at[j + 1] < i)
    }
}

/// What holds during the pass from the left.
pub open spec fn l_inv(
    t: Seq<int>,
    sigma: nat,
    e: int,
    seed: Seq<int>,
    sa: Seq<int>,
    begin: Seq<int>,
    at: Seq<int>,
    i: int,
) -> bool {
    &&& seeded(t, sigma, e, seed)
    &&& sa.len() == t.len()
    &&& begin.len() == sigma
    &&& -1 <= i <= t.len()
    &&& forall|c: int|
        0 <= c < sigma ==> bucket_begin(t, sigma, c) <= #[trigger] begin[c] <= bucket_mid(
            t,
            sigma,
            c,
        )
    &&& forall|x: int| 0 <= x < sa.len() ==> #[trigger] l_zone_at(t, sigma, e, seed, sa, begin, x)
    &&& tracks(sa, e, at)
    &&& forall|j: int| 0 <= j < t.len() ==> #[trigger] l_progress_at(t, at, i, j)
}

/// The slots of the seeds.
pub open spec fn slots_of(sa: Seq<int>) -> Seq<int> {
    Seq::new(sa.len(), |j: int| if sa.contains(j) {
        choose|x: int| 0 <= x < sa.len() && sa[x] == j
    } else {
        -1
    })
}

/// The pass from the left starts from the seeded state, with the pointers
/// at the starts of the buckets.
proof fn lemma_l_start(t: Seq<int>, sigma: nat, e: int, seed: Seq<int>, begin: Seq<int>)
    requires
        valid_text(t, sigma),
        seeded(t, sigma, e, seed),
        begin.len() == sigma,
        forall|c: int| 0 <= c < sigma ==> begin[c] == bucket_begin(t, sigma, c),
    ensures
        l_inv(t, sigma, e, seed, seed, begin, slots_of(seed), -1),
{
    let at = slots_of(seed);
    assert forall|c: int| 0 <= c < sigma implies bucket_begin(t, sigma, c) <= #[trigger] begin[c]
        <= bucket_mid(t, sigma, c) by {
        lemma_bucket_mid(t, sigma, c);
    }
    assert forall|x: int| 0 <= x < seed.len() implies #[trigger] l_zone_at(
        t,
        sigma,
        e,
        seed,
        seed,
        begin,
        x,
    ) by {
        lemma_owner(t, sigma, x);
        assert(seeded_at(t, sigma, e, seed, x));
    }
    assert forall|x: int| 0 <= x < seed.len() && seed[x] != e implies 0 <= #[trigger] seed[x]
        < seed.len() && at[seed[x]] == x by {
        assert(seeded_at(t, sigma, e, seed, x));
        let j = seed[x];
        assert(seed.contains(j));
        let y = at[j];
        assert(0 <= y < seed.len() && seed[y] == j);
        if y < x {
            assert(seed[y] != seed[x]);
        } else if x < y {
            assert(seed[x] != seed[y]);
        }
    }
    assert forall|j: int| 0 <= j < t.len() implies #[trigger] l_progress_at(t, at, -1, j) by {
        if at[j] != -1 {
            let y = at[j];
            assert(seed[y] == j);
            assert(seeded_at(t, sigma, e, seed, y));
        }
        if is_lms(t, j) {
            assert(seed.contains(j));
        }
    }
}

/// The position that the pass from the left puts in place when it sees
/// slot `i`, where there is one.
pub open spec fn l_source(t: Seq<int>, sa: Seq<int>, i: int) -> int {
    if i == -1 {
        t.len() - 1
    } else {
        sa[i] - 1
    }
}

/// There is room for one more position of type L in front of the middle of
/// its bucket, the room lies ahead of the slot that is being seen, and
/// putting the position there keeps what holds during the pass.
proof fn lemma_l_write(
    t: Seq<int>,
    sigma: nat,
    e: int,
    seed: Seq<int>,
    sa: Seq<int>,
    begin: Seq<int>,
    at: Seq<int>,
    i: int,
)
    requires
        valid_text(t, sigma),
        t.len() >= 1,
        l_inv(t, sigma, e, seed, sa, begin, at, i),
        i < t.len(),
        i >= 0 ==> sa[i] != e && sa[i] >= 1,
        !is_s_type(t, l_source(t, sa, i)),
    ensures
        ({
            let j = l_source(t, sa, i);
            let c = t[j];
            let p = begin[c];
            &&& 0 <= j < t.len()
            &&& 0 <= c < sigma
            &&& 0 <= p < bucket_mid(t, sigma, c) <= t.len()
            &&& i < p
            &&& sa[p] == e
            &&& at[j] == -1
            &&& l_inv(
                t,
                sigma,
                e,
                seed,
                sa.update(p, j),
                begin.update(c, p + 1),
                at.update(j, p),
                i + 1,
            )
        }),
{
    let n = t.len() as int;
    let j = l_source(t, sa, i);
    if i >= 0 {
        assert(0 <= sa[i] < n && at[sa[i]] == i);
    }
    assert(0 <= j < n);
    let c = t[j];
    let p = begin[c];
    lemma_bucket_mid(t, sigma, c);
    assert(l_progress_at(t, at, i, j));
    assert(at[j] == -1);
    // room in the bucket
    let lo = bucket_begin(t, sigma, c);
    let zone = sa.subrange(lo, p);
    assert forall|k: int| 0 <= k < zone.len() implies 0 <= #[trigger] zone[k] < n && t[zone[k]]
        == c && !is_s_type(t, zone[k]) && at[zone[k]] == lo + k by {
        lemma_owner_unique(t, sigma, lo + k, c);
        assert(l_zone_at(t, sigma, e, seed, sa, begin, lo + k));
        assert(sa[lo + k] != e);
    }
    let more = zone.push(j);
    assert(more.no_duplicates()) by {
        assert forall|a: int, b: int| 0 <= a < more.len() && 0 <= b < more.len() && a
            != b implies more[a] != more[b] by {
            if a < zone.len() {
                assert(at[zone[a]] == lo + a);
            }
            if b < zone.len() {
                assert(at[zone[b]] == lo + b);
            }
        }
    }
    assert forall|k: int| 0 <= k < more.len() implies 0 <= #[trigger] more[k] < n && l_with_symbol(
        t,
        c,
    )(more[k]) by {
        if k < zone.len() {
            assert(more[k] == zone[k]);
        }
    }
    lemma_distinct_bounded(more, l_with_symbol(t, c), n);
    assert(p < bucket_mid(t, sigma, c));
    lemma_owner_unique(t, sigma, p, c);
    assert(l_zone_at(t, sigma, e, seed, sa, begin, p));
    assert(sa[p] == e);
    // the room lies ahead
    assert(i < p) by {
        if i >= 0 {
            let v = sa[i];
            let o = owner_of(t, sigma, i);
            lemma_owner(t, sigma, i);
            lemma_l_type_next(t, j);
            assert(l_zone_at(t, sigma, e, seed, sa, begin, i));
            if i >= bucket_mid(t, sigma, o) {
                assert(seeded_at(t, sigma, e, seed, i));
            }
            assert(t[v] == o);
            if o < c {
                lemma_buckets_ordered(t, sigma, o, c);
            }
        }
    }
    let sa2 = sa.update(p, j);
    let begin2 = begin.update(c, p + 1);
    let at2 = at.update(j, p);
    assert forall|x: int| 0 <= x < sa2.len() implies #[trigger] l_zone_at(
        t,
        sigma,
        e,
        seed,
        sa2,
        begin2,
        x,
    ) by {
        assert(l_zone_at(t, sigma, e, seed, sa, begin, x));
        lemma_owner(t, sigma, x);
    }
    assert(tracks(sa2, e, at2)) by {
        assert forall|x: int| 0 <= x < sa2.len() && sa2[x] != e implies 0 <= #[trigger] sa2[x]
            < sa2.len() && at2[sa2[x]] == x by {
            if x != p {
                assert(at[sa[x]] == x);
            }
        }
        assert forall|k: int| 0 <= k < at2.len() implies #[trigger] at2[k] == -1 || (0 <= at2[k]
            < sa2.len() && sa2[at2[k]] == k) by {
            if k != j {
                assert(at[k] == -1 || (0 <= at[k] < sa.len() && sa[at[k]] == k));
            }
        }
    }
    assert forall|k: int| 0 <= k < n implies #[trigger] l_progress_at(t, at2, i + 1, k) by {
        assert(l_progress_at(t, at, i, k));
        if !is_s_type(t, k) && k != j && k + 1 < n {
            if k + 1 != j && i >= 0 && at[k + 1] == i {
                assert(sa[at[k + 1]] == k + 1);
            }
        }
    }
}

/// A slot that induces nothing is passed over.
proof fn lemma_l_skip(
    t: Seq<int>,
    sigma: nat,
    e: int,
    seed: Seq<int>,
    sa: Seq<int>,
    begin: Seq<int>,
    at: Seq<int>,
    i: int,
)
    requires
        l_inv(t, sigma, e, seed, sa, begin, at, i),
        0 <= i < t.len(),
        sa[i] == e || sa[i] == 0 || is_s_type(t, sa[i] - 1),
    ensures
        l_inv(t, sigma, e, seed, sa, begin, at, i + 1),
{
    assert forall|k: int| 0 <= k < t.len() implies #[trigger] l_progress_at(t, at, i + 1, k) by {
        assert(l_progress_at(t, at, i, k));
        if !is_s_type(t, k) && k + 1 < t.len() && at[k + 1] == i {
            assert(sa[at[k + 1]] == k + 1);
        }
    }
}

/// When every slot has been seen, every position of type L from `from` on
/// is in place.
proof fn lemma_l_all_placed(
    t: Seq<int>,
    sigma: nat,
    e: int,
    seed: Seq<int>,
    sa: Seq<int>,
    begin: Seq<int>,
    at: Seq<int>,
    from: int,
)
    requires
        l_inv(t, sigma, e, seed, sa, begin, at, t.len() as int),
        0 <= from <= t.len(),
    ensures
        forall|j: int| from <= j < t.len() && !is_s_type(t, j) ==> at[j] != -1,
    decreases t.len() - from,
{
    if from < t.len() {
        lemma_l_all_placed(t, sigma, e, seed, sa, begin, at, from + 1);
        assert(l_progress_at(t, at, t.len() as int, from));
        if !is_s_type(t, from) && from + 1 < t.len() {
            assert(l_progress_at(t, at, t.len() as int, from + 1));
            assert(at[from + 1] != -1);
        }
    }
}

/// When every slot has been seen, the positions of type L are in place.
proof fn lemma_l_done(
    t: Seq<int>,
    sigma: nat,
    e: int,
    seed: Seq<int>,
    sa: Seq<int>,
    begin: Seq<int>,
    at: Seq<int>,
)
    requires
        valid_text(t, sigma),
        l_inv(t, sigma, e, seed, sa, begin, at, t.len() as int),
    ensures
        l_done(t, sigma, e, sa),
        backs_kept(t, sigma, seed, sa),
{
    let n = t.len() as int;
    lemma_l_all_placed(t, sigma, e, seed, sa, begin, at, 0);
    assert forall|c: int| 0 <= c < sigma implies begin[c] == bucket_mid(t, sigma, c) by {
        let lo = bucket_begin(t, sigma, c);
        let zone = sa.subrange(lo, begin[c]);
        lemma_bucket_mid(t, sigma, c);
        assert forall|j: int| 0 <= j < n && #[trigger] l_with_symbol(t, c)(j) implies zone.contains(
            j,
        ) by {
            let y = at[j];
            assert(0 <= y < n && sa[y] == j);
            lemma_owner(t, sigma, y);
            assert(l_zone_at(t, sigma, e, seed, sa, begin, y));
            if y >= bucket_mid(t, sigma, owner_of(t, sigma, y)) {
                assert(seeded_at(t, sigma, e, seed, y));
            }
            assert(zone[y - lo] == j);
        }
        lemma_covering_bounded(zone, l_with_symbol(t, c), n);
    }
    assert forall|x: int| 0 <= x < sa.len() implies #[trigger] l_done_at(t, sigma, e, sa, x) by {
        lemma_owner(t, sigma, x);
        assert(l_zone_at(t, sigma, e, seed, sa, begin, x));
        assert(seeded_at(t, sigma, e, seed, x));
    }
    assert(no_repeats(sa, e)) by {
        assert forall|x: int, y: int| 0 <= x < y < sa.len() && sa[x] != e implies #[trigger] sa[x]
            != #[trigger] sa[y] by {
            assert(at[sa[x]] == x);
            if sa[y] != e {
                assert(at[sa[y]] == y);
            }
        }
    }
    assert forall|j: int| 0 <= j < t.len() && !#[trigger] is_s_type(t, j) implies sa.contains(
        j,
    ) by {
        assert(sa[at[j]] == j);
    }
    assert forall|x: int|
        0 <= x < t.len() && bucket_mid(t, sigma, owner_of(t, sigma, x)) <= x implies #[trigger] sa[x]
        == seed[x] by {
        lemma_owner(t, sigma, x);
        assert(l_zone_at(t, sigma, e, seed, sa, begin, x));
    }
}

/// How the position that the pass from the left puts in place compares
/// with the position in another slot.
proof fn lemma_l_rel(
    t: Seq<int>,
    sigma: nat,
    e: int,
    full: bool,
    seed: Seq<int>,
    sa: Seq<int>,
    begin: Seq<int>,
    at: Seq<int>,
    i: int,
    y: int,
)
    requires
        valid_text(t, sigma),
        t.len() >= 1,
        l_inv(t, sigma, e, seed, sa, begin, at, i),
        i < t.len(),
        i >= 0 ==> sa[i] != e && sa[i] >= 1,
        !is_s_type(t, l_source(t, sa, i)),
        ordered_l(t, full, e, sa),
        0 <= y < t.len(),
        sa[y] != e,
    ensures
        ({
            let j = l_source(t, sa, i);
            let p = begin[t[j]];
            &&& y != p
            &&& y < p ==> le_l(t, full, sa[y], j)
            &&& y > p ==> le_l(t, full, j, sa[y])
        }),
{
    let n = t.len() as int;
    lemma_l_write(t, sigma, e, seed, sa, begin, at, i);
    let j = l_source(t, sa, i);
    let c = t[j];
    let p = begin[c];
    let b = sa[y];
    let o = owner_of(t, sigma, y);
    lemma_owner(t, sigma, y);
    lemma_bucket_mid(t, sigma, c);
    lemma_bucket_mid(t, sigma, o);
    assert(l_zone_at(t, sigma, e, seed, sa, begin, y));
    assert(0 <= b < n && at[b] == y);
    if y >= bucket_mid(t, sigma, o) {
        assert(seeded_at(t, sigma, e, seed, y));
    }
    assert(t[b] == o);
    if o < c {
        lemma_buckets_ordered(t, sigma, o, c);
    } else if c < o {
        lemma_buckets_ordered(t, sigma, c, o);
    } else if y < p {
        assert(l_progress_at(t, at, i, b));
        if b + 1 < n {
            let seen = at[b + 1];
            assert(0 <= seen < i);
            assert(sa[seen] == b + 1);
            assert(0 <= sa[i] < n);
            assert(le_l(t, full, sa[seen], sa[i]));
        }
    }
}

/// Putting a position in place keeps the order of the pass from the left.
proof fn lemma_l_write_ordered(
    t: Seq<int>,
    sigma: nat,
    e: int,
    full: bool,
    seed: Seq<int>,
    sa: Seq<int>,
    begin: Seq<int>,
    at: Seq<int>,
    i: int,
)
    requires
        valid_text(t, sigma),
        t.len() >= 1,
        l_inv(t, sigma, e, seed, sa, begin, at, i),
        i < t.len(),
        i >= 0 ==> sa[i] != e && sa[i] >= 1,
        !is_s_type(t, l_source(t, sa, i)),
        ordered_l(t, full, e, sa),
    ensures
        ordered_l(t, full, e, sa.update(begin[t[l_source(t, sa, i)]], l_source(t, sa, i))),
{
    lemma_l_write(t, sigma, e, seed, sa, begin, at, i);
    let j = l_source(t, sa, i);
    let p = begin[t[j]];
    let sa2 = sa.update(p, j);
    assert forall|x: int, y: int|
        0 <= x < y < sa2.len() && sa2[x] != e && sa2[y] != e implies #[trigger] le_l(
        t,
        full,
        sa2[x],
        sa2[y],
    ) by {
        if x == p {
            lemma_l_rel(t, sigma, e, full, seed, sa, begin, at, i, y);
        } else if y == p {
            lemma_l_rel(t, sigma, e, full, seed, sa, begin, at, i, x);
        } else {
            assert(le_l(t, full, sa[x], sa[y]));
        }
    }
}

/// Scans `sa` from the left and puts each position of type L in front of
/// its bucket as soon as the position after it has been seen; the last
/// position of the text comes first, because the empty suffix is the
/// least. The seeds stay where they are.
pub(crate) fn induce_l<T: ArrayIndex, Idx: ArrayIndex>(
    text: &[T],
    types: &Vec<bool>,
    begin: &mut Vec<Idx>,
    sa: &mut Vec<Idx>,
    Ghost(full): Ghost<bool>,
)
    requires
        ordered_l(values(text@), full, Idx::max_index() as int, values(old(sa)@)),
        1 <= text.len() < Idx::max_index(),
        types_of(values(text@), types@),
        valid_text(values(text@), old(begin).len() as nat),
        old(sa).len() == text.len(),
        seeded(values(text@), old(begin).len() as nat, Idx::max_index() as int, values(old(sa)@)),
        forall|c: int|
            0 <= c < old(begin).len() ==> (#[trigger] old(begin)@[c]).value() == bucket_begin(
                values(text@),
                old(begin).len() as nat,
                c,
            ),
    ensures
        final(sa).len() == old(sa).len(),
        final(begin).len() == old(begin).len(),
        l_done(
            values(text@),
            old(begin).len() as nat,
            Idx::max_index() as int,
            values(final(sa)@),
        ),
        backs_kept(
            values(text@),
            old(begin).len() as nat,
            values(old(sa)@),
            values(final(sa)@),
        ),
        ordered_l(values(text@), full, Idx::max_index() as int, values(final(sa)@)),
{
    let n = text.len();
    let empty = Idx::max_usize();
    let ghost t = values(text@);
    let ghost sigma = begin.len() as nat;
    let ghost e = Idx::max_index() as int;
    let ghost seed = values(sa@);
    let ghost mut at = slots_of(seed);
    proof {
        lemma_l_start(t, sigma, e, seed, values(begin@));
        lemma_l_write(t, sigma, e, seed, seed, values(begin@), at, -1);
        lemma_l_write_ordered(t, sigma, e, full, seed, seed, values(begin@), at, -1);
    }
    let last = n - 1;
    let first_symbol = text[last].as_usize();
    assert(first_symbol == t[last as int]);
    let ghost begin_before = values(begin@);
    assert(begin_before[first_symbol as int] == begin@[first_symbol as int].value());
    let first_slot = begin[first_symbol].as_usize();
    sa[first_slot] = Idx::from_usize(last);
    begin[first_symbol] = Idx::from_usize(first_slot + 1);
    proof {
        at = at.update(last as int, first_slot as int);
        assert(values(sa@) =~= seed.update(first_slot as int, last as int));
        assert(values(begin@) =~= begin_before.update(first_symbol as int, first_slot + 1));
    }
    let mut i: usize = 0;
    while i < n
        invariant
            n == text.len(),
            1 <= n < Idx::max_index(),
            empty == Idx::max_index(),
            t == values(text@),
            sigma == begin.len(),
            e == Idx::max_index(),
            types_of(t, types@),
            valid_text(t, sigma),
            sa.len() == n,
            i <= n,
            l_inv(t, sigma, e, seed, values(sa@), values(begin@), at, i as int),
            ordered_l(t, full, e, values(sa@)),
        decreases n - i,
    {
        let ghost sa_before = values(sa@);
        let ghost begin_before = values(begin@);
        let v = sa[i].as_usize();
        assert(sa_before[i as int] == v);
        let mut written = false;
        if v != empty && v > 0 {
            assert(0 <= sa_before[i as int] < n);
            let j = v - 1;
            if !types[j] {
                proof {
                    lemma_l_write(t, sigma, e, seed, sa_before, begin_before, at, i as int);
                    lemma_l_write_ordered(
                        t,
                        sigma,
                        e,
                        full,
                        seed,
                        sa_before,
                        begin_before,
                        at,
                        i as int,
                    );
                }
                let c = text[j].as_usize();
                assert(c == t[j as int]);
                assert(begin_before[c as int] == begin@[c as int].value());
                let p = begin[c].as_usize();
                sa[p] = Idx::from_usize(j);
                begin[c] = Idx::from_usize(p + 1);
                proof {
                    at = at.update(j as int, p as int);
                    assert(values(sa@) =~= sa_before.update(p as int, j as int));
                    assert(values(begin@) =~= begin_before.update(c as int, p + 1));
                }
                written = true;
            }
        }
        proof {
            if !written {
                lemma_l_skip(t, sigma, e, seed, sa_before, begin_before, at, i as int);
            }
        }
        i += 1;
    }
    proof {
        lemma_l_done(t, sigma, e, seed, values(sa@), values(begin@), at);
    }
}

} // verus!
