//! Recognising a suffix array in time linear in the length of the text.
//!
//! A permutation is the suffix array exactly if, for every two neighbours,
//! the first symbols ascend or are equal, and where they are equal the
//! suffixes that follow those symbols stand in the same order further on.
//! The ranks of the permutation decide the latter, so one pass suffices.
use vstd::prelude::*;
use crate::index::{ArrayIndex, values, filled};
use crate::order::suffix_lt;
use crate::permutation::{
    is_permutation,
    is_inverse,
    lemma_inverse_makes_permutation,
    lemma_inverse_round_trip,
    lemma_permutation_onto,
};
use crate::suffix_array::{
    is_suffix_array,
    ascending,
    ascends_at,
    suffix_less,
    lemma_suffix_array_ranks,
};

verus! {

/// The neighbours `sa[i]` and `sa[i + 1]` pass the local test: their first
/// symbols ascend, or are equal and the suffixes after them keep the order
/// in `rank` (the suffix that ends after its first symbol goes first).
pub open spec fn certified_at(t: Seq<int>, sa: Seq<int>, rank: Seq<int>, i: int) -> bool {
    let a = sa[i];
    let b = sa[i + 1];
    ||| t[a] < t[b]
    ||| {
        &&& t[a] == t[b]
        &&& (a + 1 == t.len() || (b + 1 < t.len() && rank[a + 1] < rank[b + 1]))
    }
}

/// Every pair of neighbours passes the local test.
pub open spec fn certified(t: Seq<int>, sa: Seq<int>, rank: Seq<int>) -> bool {
    forall|i: int| 0 <= i < sa.len() - 1 ==> #[trigger] certified_at(t, sa, rank, i)
}

/// The rank of the suffix that follows the first symbol of the suffix at
/// `p`; the empty suffix ranks below all others.
spec fn rank_after(t: Seq<int>, rank: Seq<int>, p: int) -> int {
    if p + 1 == t.len() {
        -1
    } else {
        rank[p + 1]
    }
}

/// Along a certified permutation first symbols never descend, and where
/// they stay equal the ranks of the remainders ascend.
proof fn lemma_certified_run(t: Seq<int>, sa: Seq<int>, rank: Seq<int>, i: int, j: int)
    requires
        sa.len() == t.len(),
        is_permutation(sa),
        is_permutation(rank),
        is_inverse(sa, rank),
        certified(t, sa, rank),
        0 <= i <= j < sa.len(),
    ensures
        t[sa[i]] <= t[sa[j]],
        t[sa[i]] == t[sa[j]] && i < j ==> rank_after(t, rank, sa[i]) < rank_after(t, rank, sa[j]),
    decreases j - i,
{
    if i < j {
        lemma_certified_run(t, sa, rank, i, j - 1);
        assert(certified_at(t, sa, rank, j - 1));
        let a = sa[j - 1];
        let b = sa[j];
        assert(0 <= a < t.len() && 0 <= b < t.len());
        assert(a != b);
        if t[sa[i]] == t[b] {
            if a + 1 == t.len() {
                assert(0 <= rank[b + 1]);
            }
        }
    }
}

/// In a certified permutation, rank order is suffix order.
proof fn lemma_certified_order(t: Seq<int>, sa: Seq<int>, rank: Seq<int>, x: int, y: int)
    requires
        sa.len() == t.len(),
        is_permutation(sa),
        is_permutation(rank),
        is_inverse(sa, rank),
        is_inverse(rank, sa),
        certified(t, sa, rank),
        0 <= x < t.len(),
        0 <= y < t.len(),
        rank[x] < rank[y],
    ensures
        suffix_lt(t, x, y),
    decreases t.len() - x,
{
    let i = rank[x];
    let j = rank[y];
    assert(sa[i] == x && sa[j] == y);
    lemma_certified_run(t, sa, rank, i, j);
    if t[x] == t[y] {
        assert(rank_after(t, rank, x) < rank_after(t, rank, y));
        if x + 1 < t.len() {
            assert(0 <= rank[x + 1]);
            assert(y + 1 < t.len());
            lemma_certified_order(t, sa, rank, x + 1, y + 1);
        } else {
            assert(y + 1 < t.len()) by {
                if y + 1 == t.len() {
                    assert(x == y);
                }
            }
            assert(suffix_lt(t, x + 1, y + 1));
        }
    }
}

/// A certified permutation is the suffix array.
pub proof fn lemma_certificate_sound(t: Seq<int>, sa: Seq<int>, rank: Seq<int>)
    requires
        sa.len() == t.len(),
        is_inverse(sa, rank),
        certified(t, sa, rank),
    ensures
        is_suffix_array(t, sa),
{
    lemma_inverse_makes_permutation(sa, rank);
    lemma_inverse_round_trip(sa, rank);
    assert forall|i: int| 0 <= i < sa.len() - 1 implies #[trigger] ascends_at(t, sa, i) by {
        let x = sa[i];
        let y = sa[i + 1];
        assert(0 <= x < t.len() && 0 <= y < t.len());
        assert(rank[x] == i && rank[y] == i + 1);
        lemma_certified_order(t, sa, rank, x, y);
    }
}

/// The suffix array passes the local test at every pair of neighbours.
pub proof fn lemma_certificate_complete(t: Seq<int>, sa: Seq<int>, rank: Seq<int>, i: int)
    requires
        is_suffix_array(t, sa),
        is_inverse(sa, rank),
        0 <= i < sa.len() - 1,
    ensures
        certified_at(t, sa, rank, i),
{
    lemma_inverse_round_trip(sa, rank);
    let a = sa[i];
    let b = sa[i + 1];
    assert(0 <= a < t.len() && 0 <= b < t.len());
    assert(ascends_at(t, sa, i));
    if t[a] == t[b] && a + 1 < t.len() {
        assert(suffix_lt(t, a + 1, b + 1));
        assert(b + 1 < t.len());
        let ra = rank[a + 1];
        let rb = rank[b + 1];
        assert(sa[ra] == a + 1 && sa[rb] == b + 1);
        lemma_suffix_array_ranks(t, sa, ra, rb);
    }
}

/// Decides whether each suffix that `sa` lists is below the next one
/// listed, by comparing the two symbol by symbol. An entry behind the end
/// of the text stands for the empty suffix.
pub fn suffixes_ascend<T: ArrayIndex, Idx: ArrayIndex>(text: &[T], sa: &[Idx]) -> (ok: bool)
    ensures
        ok == ascending(values(text@), values(sa@)),
{
    let n = text.len();
    let ghost t = values(text@);
    let ghost s = values(sa@);
    let mut i: usize = 1;
    while i < sa.len()
        invariant
            n == text.len(),
            t == values(text@),
            s == values(sa@),
            1 <= i,
            forall|k: int| 0 <= k < i - 1 ==> #[trigger] ascends_at(t, s, k),
        decreases sa.len() - i,
    {
        let a = sa[i - 1].as_usize();
        let b = sa[i].as_usize();
        assert(s[i - 1] == a && s[i as int] == b);
        let first = if a < n {
            a
        } else {
            n
        };
        let second = if b < n {
            b
        } else {
            n
        };
        assert(suffix_lt(t, a as int, b as int) == suffix_lt(t, first as int, second as int));
        if !suffix_less(text, first, second) {
            assert(!ascends_at(t, s, i - 1));
            return false;
        }
        i += 1;
    }
    true
}

/// Decides whether `sa` is the suffix array of `text`, in one pass over a
/// rank table of the same width as `sa`.
pub fn is_suffix_array_of<T: ArrayIndex, Idx: ArrayIndex>(text: &[T], sa: &[Idx]) -> (ok: bool)
    ensures
        ok == is_suffix_array(values(text@), values(sa@)),
{
    let n = text.len();
    if sa.len() != n {
        return false;
    }
    let ghost t = values(text@);
    let ghost s = values(sa@);
    if n > 0 && n - 1 > Idx::max_usize() {
        proof {
            // no entry can hold the last position
            if is_permutation(s) {
                lemma_permutation_onto(s, n - 1);
                let x = choose|x: int| 0 <= x < s.len() && s[x] == n - 1;
                sa@[x].lemma_value_bounded();
            }
        }
        return false;
    }
    let mut seen: Vec<bool> = filled(n, false);
    let mut rank: Vec<Idx> = filled(n, Idx::from_usize(0));
    let mut i: usize = 0;
    while i < n
        invariant
            n == text.len(),
            n == sa.len(),
            n == 0 || n - 1 <= Idx::max_index(),
            s == values(sa@),
            i <= n,
            rank.len() == n,
            seen.len() == n,
            forall|k: int|
                0 <= k < i ==> 0 <= #[trigger] s[k] < n && seen@[s[k]] && rank@[s[k]].value() == k,
            forall|v: int|
                0 <= v < n && #[trigger] seen@[v] ==> rank@[v].value() < i && s[rank@[v].value() as int]
                    == v,
        decreases n - i,
    {
        let v = sa[i].as_usize();
        assert(s[i as int] == v);
        if v >= n {
            return false;
        }
        if seen[v] {
            proof {
                let k = rank@[v as int].value() as int;
                assert(s[k] == s[i as int]);
            }
            return false;
        }
        seen[v] = true;
        rank[v] = Idx::from_usize(i);
        i += 1;
    }
    let ghost r = values(rank@);
    assert(is_inverse(s, r)) by {
        assert forall|k: int| 0 <= k < s.len() implies 0 <= #[trigger] s[k] < s.len() && r[s[k]]
            == k by {
            assert(rank@[s[k]].value() == k);
        }
    }
    let mut i: usize = 1;
    while i < n
        invariant
            n == text.len(),
            n == sa.len(),
            t == values(text@),
            s == values(sa@),
            r == values(rank@),
            rank.len() == n,
            is_inverse(s, r),
            1 <= i,
            forall|k: int| 0 <= k < i - 1 ==> #[trigger] certified_at(t, s, r, k),
        decreases n - i,
    {
        let a = sa[i - 1].as_usize();
        let b = sa[i].as_usize();
        assert(s[i - 1] == a && s[i as int] == b);
        assert(a < n && b < n);
        let x = text[a].as_usize();
        let y = text[b].as_usize();
        assert(t[a as int] == x && t[b as int] == y);
        let pass = if x != y {
            x < y
        } else if a + 1 == n {
            true
        } else if b + 1 == n {
            false
        } else {
            assert(r[a + 1] == rank@[a + 1].value() && r[b + 1] == rank@[b + 1].value());
            rank[a + 1].as_usize() < rank[b + 1].as_usize()
        };
        assert(pass == certified_at(t, s, r, i - 1));
        if !pass {
            proof {
                if is_suffix_array(t, s) {
                    lemma_certificate_complete(t, s, r, i - 1);
                }
            }
            return false;
        }
        i += 1;
    }
    proof {
        lemma_certificate_sound(t, s, r);
    }
    true
}

} // verus!
