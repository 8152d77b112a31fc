//! Counting the numbers below a bound that have a property, and what a
//! list without repetitions can hold of them.
use vstd::prelude::*;

verus! {

/// How many of the numbers `0..upto` have the property `p`.
pub open spec fn count_where(p: spec_fn(int) -> bool, upto: int) -> nat
    decreases upto,
{
    if upto <= 0 {
        0
    } else {
        count_where(p, upto - 1) + if p(upto - 1) {
            1nat
        } else {
            0nat
        }
    }
}

/// The numbers `0..upto` that have the property `p`.
pub open spec fn set_where(p: spec_fn(int) -> bool, upto: int) -> Set<int> {
    Set::new(|i: int| 0 <= i < upto && p(i))
}

/// The count is the size of the set.
pub proof fn lemma_set_where(p: spec_fn(int) -> bool, upto: int)
    requires
        0 <= upto,
    ensures
        set_where(p, upto).finite(),
        set_where(p, upto).len() == count_where(p, upto),
    decreases upto,
{
    if upto == 0 {
        assert(set_where(p, upto) =~= Set::empty());
    } else {
        lemma_set_where(p, upto - 1);
        if p(upto - 1) {
            assert(set_where(p, upto) =~= set_where(p, upto - 1).insert(upto - 1));
        } else {
            assert(set_where(p, upto) =~= set_where(p, upto - 1));
        }
    }
}

/// A stronger property is had by fewer numbers.
pub proof fn lemma_count_where_implies(p: spec_fn(int) -> bool, q: spec_fn(int) -> bool, upto: int)
    requires
        forall|i: int| 0 <= i < upto && #[trigger] p(i) ==> q(i),
    ensures
        count_where(p, upto) <= count_where(q, upto),
    decreases upto,
{
    if upto > 0 {
        lemma_count_where_implies(p, q, upto - 1);
    }
}

/// Where each number with `p` has exactly one of `q` and `r`, and no other
/// number has either, the counts of `q` and `r` add up to that of `p`.
pub proof fn lemma_count_where_split(
    p: spec_fn(int) -> bool,
    q: spec_fn(int) -> bool,
    r: spec_fn(int) -> bool,
    upto: int,
)
    requires
        forall|i: int| 0 <= i < upto ==> (q(i) || r(i)) == #[trigger] p(i),
        forall|i: int| 0 <= i < upto ==> !(#[trigger] q(i) && r(i)),
    ensures
        count_where(p, upto) == count_where(q, upto) + count_where(r, upto),
    decreases upto,
{
    if upto > 0 {
        lemma_count_where_split(p, q, r, upto - 1);
    }
}

/// A list without repetitions of numbers below `n` that all have the
/// property `p` is at most as long as there are such numbers.
pub proof fn lemma_distinct_bounded(s: Seq<int>, p: spec_fn(int) -> bool, n: int)
    requires
        0 <= n,
        s.no_duplicates(),
        forall|x: int| 0 <= x < s.len() ==> 0 <= #[trigger] s[x] < n && p(s[x]),
    ensures
        s.len() <= count_where(p, n),
{
    lemma_set_where(p, n);
    s.unique_seq_to_set();
    assert(s.to_set().subset_of(set_where(p, n))) by {
        assert forall|v: int| s.to_set().contains(v) implies set_where(p, n).contains(v) by {
            let x = choose|x: int| 0 <= x < s.len() && s[x] == v;
            assert(0 <= s[x] < n && p(s[x]));
        }
    }
    vstd::set_lib::lemma_len_subset(s.to_set(), set_where(p, n));
}

/// A list that holds every number below `n` with the property `p` is at
/// least as long as there are such numbers.
pub proof fn lemma_covering_bounded(s: Seq<int>, p: spec_fn(int) -> bool, n: int)
    requires
        0 <= n,
        forall|j: int| 0 <= j < n && #[trigger] p(j) ==> s.contains(j),
    ensures
        s.len() >= count_where(p, n),
{
    lemma_set_where(p, n);
    s.lemma_cardinality_of_set();
    vstd::seq_lib::seq_to_set_is_finite(s);
    assert(set_where(p, n).subset_of(s.to_set()));
    vstd::set_lib::lemma_len_subset(set_where(p, n), s.to_set());
}

} // verus!
