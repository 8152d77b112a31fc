//! Permutations of `0..n`, written as sequences, and their inverses.
use vstd::prelude::*;

verus! {

/// `p` holds each of the numbers `0..p.len()` exactly once.
pub open spec fn is_permutation(p: Seq<int>) -> bool {
    &&& forall|i: int| 0 <= i < p.len() ==> 0 <= #[trigger] p[i] < p.len()
    &&& forall|i: int, j: int| 0 <= i < j < p.len() ==> p[i] != p[j]
}

/// `q` undoes `p`: it sends each `p[i]` back to `i`.
pub open spec fn is_inverse(p: Seq<int>, q: Seq<int>) -> bool {
    &&& q.len() == p.len()
    &&& forall|i: int| 0 <= i < p.len() ==> 0 <= #[trigger] p[i] < p.len() && q[p[i]] == i
}

/// A permutation reaches every number below its length.
pub proof fn lemma_permutation_onto(p: Seq<int>, v: int)
    requires
        is_permutation(p),
        0 <= v < p.len(),
    ensures
        exists|i: int| 0 <= i < p.len() && p[i] == v,
{
    let n = p.len() as int;
    let image = p.to_set();
    let range = vstd::set_lib::set_int_range(0, n);
    assert(p.no_duplicates());
    p.unique_seq_to_set();
    vstd::seq_lib::seq_to_set_is_finite(p);
    vstd::set_lib::lemma_int_range(0, n);
    assert(image.subset_of(range)) by {
        assert forall|x: int| image.contains(x) implies range.contains(x) by {
            let i = choose|i: int| 0 <= i < p.len() && p[i] == x;
            assert(0 <= p[i] < n);
        }
    }
    vstd::set_lib::lemma_subset_equality(image, range);
    assert(range.contains(v));
    assert(image.contains(v));
    assert(p.contains(v));
}

/// Whatever undoes a sequence proves that the sequence repeats nothing.
pub proof fn lemma_inverse_makes_permutation(p: Seq<int>, q: Seq<int>)
    requires
        is_inverse(p, q),
    ensures
        is_permutation(p),
{
    assert forall|i: int, j: int| 0 <= i < j < p.len() implies p[i] != p[j] by {
        assert(q[p[i]] == i);
        assert(q[p[j]] == j);
    }
}

/// The inverse of a permutation is a permutation, and the permutation is in
/// turn its inverse.
pub proof fn lemma_inverse_round_trip(p: Seq<int>, q: Seq<int>)
    requires
        is_permutation(p),
        is_inverse(p, q),
    ensures
        is_permutation(q),
        is_inverse(q, p),
{
    assert forall|j: int| 0 <= j < q.len() implies 0 <= #[trigger] q[j] < q.len() && p[q[j]] == j by {
        lemma_permutation_onto(p, j);
        let i = choose|i: int| 0 <= i < p.len() && p[i] == j;
        assert(q[p[i]] == i);
    }
    lemma_inverse_makes_permutation(q, p);
}

/// The sequence that sends each number to the place where `p` holds it.
pub open spec fn inverse_of(p: Seq<int>) -> Seq<int> {
    Seq::new(p.len(), |v: int| choose|i: int| 0 <= i < p.len() && p[i] == v)
}

/// Every permutation has an inverse.
pub proof fn lemma_inverse_of(p: Seq<int>)
    requires
        is_permutation(p),
    ensures
        is_inverse(p, inverse_of(p)),
{
    let q = inverse_of(p);
    assert forall|i: int| 0 <= i < p.len() implies 0 <= #[trigger] p[i] < p.len() && q[p[i]]
        == i by {
        let v = p[i];
        let k = choose|k: int| 0 <= k < p.len() && p[k] == v;
        assert(q[v] == k);
        if k < i {
            assert(p[k] != p[i]);
        } else if i < k {
            assert(p[i] != p[k]);
        }
    }
}

} // verus!
