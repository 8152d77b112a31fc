//! Suffix arrays: what they are, how they are owned, and how they are built.
use vstd::prelude::*;
use crate::order::{suffix_lt, lemma_suffix_lt_transitive, lemma_suffix_lt_asymmetric, lemma_suffix_lt_irreflexive, lemma_suffix_lt_total};
use crate::permutation::{is_permutation, lemma_permutation_onto};
use crate::index::{ArrayIndex, ToIndex, values, filled};
use crate::permutation::{is_inverse, lemma_inverse_round_trip};
use crate::suffix_array::certify::{is_suffix_array_of, suffixes_ascend};
use crate::suffix_array::result::MemoryResult;
use crate::suffix_array::sais::{induced_sort, workspace, sort_memory};
use crate::suffix_array::sais::layout::valid_text;
use vstd::layout::size_of;

pub mod certify;
pub mod result;
pub mod sais;

verus! {

/// The suffix at `sa[i]` is strictly below the one at `sa[i + 1]`.
pub open spec fn ascends_at(t: Seq<int>, sa: Seq<int>, i: int) -> bool {
    suffix_lt(t, sa[i], sa[i + 1])
}

/// Each suffix that `sa` lists is strictly below the next one listed.
pub open spec fn ascending(t: Seq<int>, sa: Seq<int>) -> bool {
    forall|i: int| 0 <= i < sa.len() - 1 ==> #[trigger] ascends_at(t, sa, i)
}

/// `sa` is the suffix array of `t`: it lists every position of `t` once, in
/// ascending order of the suffixes.
pub open spec fn is_suffix_array(t: Seq<int>, sa: Seq<int>) -> bool {
    &&& sa.len() == t.len()
    &&& is_permutation(sa)
    &&& ascending(t, sa)
}

/// Along an ascending list every earlier entry is below every later one,
/// not only the next.
pub proof fn lemma_ascending_pairs(t: Seq<int>, sa: Seq<int>, i: int, j: int)
    requires
        ascending(t, sa),
        0 <= i < j < sa.len(),
    ensures
        suffix_lt(t, sa[i], sa[j]),
    decreases j - i,
{
    assert(ascends_at(t, sa, j - 1));
    if i < j - 1 {
        lemma_ascending_pairs(t, sa, i, j - 1);
        lemma_suffix_lt_transitive(t, sa[i], sa[j - 1], sa[j]);
    }
}

/// In a suffix array every earlier entry is below every later one, not only
/// the next.
pub proof fn lemma_suffix_array_ascends(t: Seq<int>, sa: Seq<int>, i: int, j: int)
    requires
        is_suffix_array(t, sa),
        0 <= i < j < sa.len(),
    ensures
        suffix_lt(t, sa[i], sa[j]),
{
    lemma_ascending_pairs(t, sa, i, j);
}

/// In a suffix array the smaller suffix stands first.
pub proof fn lemma_suffix_array_ranks(t: Seq<int>, sa: Seq<int>, i: int, j: int)
    requires
        is_suffix_array(t, sa),
        0 <= i < sa.len(),
        0 <= j < sa.len(),
        suffix_lt(t, sa[i], sa[j]),
    ensures
        i < j,
{
    if i == j {
        lemma_suffix_lt_irreflexive(t, sa[i]);
    } else if j < i {
        lemma_suffix_array_ascends(t, sa, j, i);
        lemma_suffix_lt_asymmetric(t, sa[i], sa[j]);
    }
}

/// Two suffix arrays of one text agree on their first `upto` entries.
proof fn lemma_suffix_arrays_agree(t: Seq<int>, sa1: Seq<int>, sa2: Seq<int>, upto: int)
    requires
        is_suffix_array(t, sa1),
        is_suffix_array(t, sa2),
        0 <= upto <= t.len(),
    ensures
        forall|k: int| 0 <= k < upto ==> sa1[k] == sa2[k],
    decreases upto,
{
    if upto > 0 {
        lemma_suffix_arrays_agree(t, sa1, sa2, upto - 1);
        let i = upto - 1;
        let x = sa1[i];
        let y = sa2[i];
        if x != y {
            // x stands later than i in sa2, and y later than i in sa1
            lemma_permutation_onto(sa2, x);
            let j = choose|j: int| 0 <= j < sa2.len() && sa2[j] == x;
            lemma_permutation_onto(sa1, y);
            let k = choose|k: int| 0 <= k < sa1.len() && sa1[k] == y;
            assert(j > i);
            assert(k > i);
            lemma_suffix_array_ascends(t, sa2, i, j);
            lemma_suffix_array_ascends(t, sa1, i, k);
            lemma_suffix_lt_asymmetric(t, x, y);
        }
    }
}

/// A text has exactly one suffix array: whatever builds one, at whatever
/// index width, arrives at the same sequence of positions.
pub proof fn lemma_suffix_array_unique(t: Seq<int>, sa1: Seq<int>, sa2: Seq<int>)
    requires
        is_suffix_array(t, sa1),
        is_suffix_array(t, sa2),
    ensures
        sa1 == sa2,
{
    lemma_suffix_arrays_agree(t, sa1, sa2, t.len() as int);
    assert(sa1 =~= sa2);
}

/// Compares the suffixes of `text` at `a` and `b` symbol by symbol.
pub fn suffix_less<T: ArrayIndex>(text: &[T], a: usize, b: usize) -> (below: bool)
    requires
        a <= text.len(),
        b <= text.len(),
    ensures
        below == suffix_lt(values(text@), a as int, b as int),
{
    let n = text.len();
    let mut i: usize = a;
    let mut j: usize = b;
    loop
        invariant
            n == text.len(),
            a <= i <= n,
            b <= j <= n,
            suffix_lt(values(text@), a as int, b as int) == suffix_lt(
                values(text@),
                i as int,
                j as int,
            ),
        decreases n - i,
    {
        if i >= n {
            return j < n;
        }
        if j >= n {
            return false;
        }
        let x = text[i].as_usize();
        let y = text[j].as_usize();
        if x != y {
            return x < y;
        }
        i += 1;
        j += 1;
    }
}

/// Sorts the positions of `text` by comparing their suffixes directly: one
/// position after the other is inserted into the sorted run of those
/// before it, at the place that a binary search finds.
pub fn sort_suffixes<T: ArrayIndex, Idx: ArrayIndex>(text: &[T]) -> (sa: Vec<Idx>)
    requires
        text.len() <= Idx::max_index(),
    ensures
        is_suffix_array(values(text@), values(sa@)),
{
    let n = text.len();
    let ghost t = values(text@);
    let mut sa: Vec<Idx> = Vec::new();
    let mut p: usize = 0;
    while p < n
        invariant
            n == text.len(),
            t == values(text@),
            n <= Idx::max_index(),
            p <= n,
            sa.len() == p,
            is_permutation(values(sa@)),
            ascending(t, values(sa@)),
        decreases n - p,
    {
        let ghost before = values(sa@);
        let mut lo: usize = 0;
        let mut hi: usize = p;
        while lo < hi
            invariant
                n == text.len(),
                t == values(text@),
                p < n,
                sa.len() == p,
                before == values(sa@),
                is_permutation(before),
                ascending(t, before),
                lo <= hi <= p,
                forall|x: int| 0 <= x < lo ==> suffix_lt(t, #[trigger] before[x], p as int),
                forall|x: int| hi <= x < p ==> suffix_lt(t, p as int, #[trigger] before[x]),
            decreases hi - lo,
        {
            let mid = lo + (hi - lo) / 2;
            let q = sa[mid].as_usize();
            assert(before[mid as int] == q);
            if suffix_less(text, p, q) {
                assert forall|x: int| mid <= x < p implies suffix_lt(
                    t,
                    p as int,
                    #[trigger] before[x],
                ) by {
                    if mid < x {
                        lemma_ascending_pairs(t, before, mid as int, x);
                        lemma_suffix_lt_transitive(t, p as int, before[mid as int], before[x]);
                    }
                }
                hi = mid;
            } else {
                assert forall|x: int| 0 <= x < mid + 1 implies suffix_lt(
                    t,
                    #[trigger] before[x],
                    p as int,
                ) by {
                    lemma_suffix_lt_total(t, p as int, before[mid as int]);
                    if x < mid {
                        lemma_ascending_pairs(t, before, x, mid as int);
                        lemma_suffix_lt_transitive(t, before[x], before[mid as int], p as int);
                    }
                }
                lo = mid + 1;
            }
        }
        sa.insert(lo, Idx::from_usize(p));
        proof {
            let after = values(sa@);
            assert(after =~= before.insert(lo as int, p as int));
            assert forall|x: int| 0 <= x < after.len() implies 0 <= #[trigger] after[x]
                < after.len() by {
                if x < lo {
                    assert(after[x] == before[x]);
                } else if x > lo {
                    assert(after[x] == before[x - 1]);
                }
            }
            assert forall|x: int, y: int| 0 <= x < y < after.len() implies after[x] != after[y] by {
                let bx = if x < lo { x } else { x - 1 };
                let by = if y < lo { y } else { y - 1 };
                if x != lo {
                    assert(after[x] == before[bx]);
                }
                if y != lo {
                    assert(after[y] == before[by]);
                }
            }
            assert forall|x: int| 0 <= x < after.len() - 1 implies #[trigger] ascends_at(
                t,
                after,
                x,
            ) by {
                if x + 1 < lo {
                    assert(ascends_at(t, before, x));
                } else if x + 1 == lo {
                    assert(after[x] == before[x]);
                } else if x == lo {
                    assert(after[x + 1] == before[x]);
                } else {
                    assert(ascends_at(t, before, x - 1));
                }
            }
        }
        p += 1;
    }
    sa
}

/// An owned suffix array, together with a reference to the text that it
/// sorts.
///
/// Every value of this type holds the suffix array of its text: as many
/// entries as the text has symbols, each position once, the suffixes in
/// ascending order.
#[derive(Debug)]
pub struct SuffixArray<'txt, T: ArrayIndex, Idx: ArrayIndex> {
    text: &'txt [T],
    sa: Vec<Idx>,
}

impl<'txt, T: ArrayIndex, Idx: ArrayIndex> Clone for SuffixArray<'txt, T, Idx> {
    fn clone(&self) -> (copy: Self)
        ensures
            copy@ == self@,
            copy.text_view() == self.text_view(),
    {
        proof {
            use_type_invariant(self);
        }
        SuffixArray { text: self.text, sa: vstd::slice::slice_to_vec(self.sa.as_slice()) }
    }
}

impl<'txt, T: ArrayIndex, Idx: ArrayIndex> SuffixArray<'txt, T, Idx> {
    #[verifier::type_invariant]
    spec fn well_formed(self) -> bool {
        &&& self.sa.len() < Idx::max_index()
        &&& is_suffix_array(values(self.text@), values(self.sa@))
    }

    /// The entries of the suffix array.
    pub closed spec fn view(self) -> Seq<Idx> {
        self.sa@
    }

    /// The symbols of the text.
    pub closed spec fn text_view(self) -> Seq<T> {
        self.text@
    }

    /// Returns a reference to the text.
    pub fn text(&self) -> (text: &'txt [T])
        ensures
            text@ == self.text_view(),
    {
        self.text
    }

    /// Returns a reference to the suffix array.
    pub fn inner(&self) -> (sa: &[Idx])
        ensures
            sa@ == self@,
            sa@.len() < Idx::max_index(),
            is_suffix_array(values(self.text_view()), values(sa@)),
    {
        proof {
            use_type_invariant(self);
        }
        self.sa.as_slice()
    }

    /// Returns the suffix array as a vector.
    pub fn into_inner(self) -> (sa: Vec<Idx>)
        ensures
            sa@ == self@,
            sa@.len() < Idx::max_index(),
            is_suffix_array(values(self.text_view()), values(sa@)),
    {
        proof {
            use_type_invariant(&self);
        }
        self.sa
    }

    /// Returns the inverse of the suffix array: for each position of the
    /// text, the rank of its suffix.
    pub fn inverse<'sa>(&'sa self) -> (isa: InverseSuffixArray<'sa, 'txt, T, Idx>)
        ensures
            isa.sa_view() == self@,
            isa.text_view() == self.text_view(),
            is_inverse(values(self@), values(isa@)),
            is_inverse(values(isa@), values(self@)),
    {
        proof {
            use_type_invariant(self);
        }
        let n = self.sa.len();
        let ghost s = values(self.sa@);
        let mut isa: Vec<Idx> = filled(n, Idx::from_usize(0));
        let mut i: usize = 0;
        while i < n
            invariant
                n == self.sa.len(),
                n < Idx::max_index(),
                s == values(self.sa@),
                is_permutation(s),
                i <= n,
                isa.len() == n,
                forall|k: int| 0 <= k < i ==> isa@[#[trigger] s[k]].value() == k,
            decreases n - i,
        {
            let p = self.sa[i].as_usize();
            assert(s[i as int] == p);
            isa[p] = i.to_index();
            assert forall|k: int| 0 <= k < i + 1 implies isa@[#[trigger] s[k]].value() == k by {
                if k < i {
                    assert(s[k] != s[i as int]);
                }
            }
            i += 1;
        }
        proof {
            assert(is_inverse(s, values(isa@))) by {
                assert forall|k: int| 0 <= k < s.len() implies 0 <= #[trigger] s[k] < s.len()
                    && values(isa@)[s[k]] == k by {
                    assert(isa@[s[k]].value() == k);
                }
            }
            lemma_inverse_round_trip(s, values(isa@));
        }
        InverseSuffixArray { sa: self, isa }
    }

    /// Goes through the two tests of a suffix array against `text`: that
    /// the suffixes ascend, and that every position is listed. It is for a
    /// text of which this array is the suffix array, and on such a text
    /// both tests pass. [`certify::is_suffix_array_of`] decides, for any
    /// text, whether it is one.
    pub fn verify(&self, text: &[T])
        requires
            is_suffix_array(values(text@), values(self@)),
    {
        let is_increasing = suffixes_ascend(text, self.sa.as_slice());
        assert(is_increasing);
        let is_complete = is_suffix_array_of(text, self.sa.as_slice());
        assert(is_complete);
    }
}

/// The inverse of a suffix array, together with a reference to the suffix
/// array that it inverts.
///
/// Every value of this type holds, for each position of the text, the
/// place of that position in the suffix array.
#[derive(Debug)]
pub struct InverseSuffixArray<'sa, 'txt, T: ArrayIndex, Idx: ArrayIndex> {
    sa: &'sa SuffixArray<'txt, T, Idx>,
    isa: Vec<Idx>,
}

impl<'sa, 'txt, T: ArrayIndex, Idx: ArrayIndex> Clone for InverseSuffixArray<'sa, 'txt, T, Idx> {
    fn clone(&self) -> (copy: Self)
        ensures
            copy@ == self@,
            copy.sa_view() == self.sa_view(),
            copy.text_view() == self.text_view(),
    {
        proof {
            use_type_invariant(self);
        }
        InverseSuffixArray { sa: self.sa, isa: vstd::slice::slice_to_vec(self.isa.as_slice()) }
    }
}

impl<'sa, 'txt, T: ArrayIndex, Idx: ArrayIndex> InverseSuffixArray<'sa, 'txt, T, Idx> {
    #[verifier::type_invariant]
    spec fn well_formed(self) -> bool {
        &&& is_inverse(values(self.sa.sa@), values(self.isa@))
        &&& is_inverse(values(self.isa@), values(self.sa.sa@))
    }

    /// The entries of the inverse suffix array.
    pub closed spec fn view(self) -> Seq<Idx> {
        self.isa@
    }

    /// The entries of the suffix array that this array inverts.
    pub closed spec fn sa_view(self) -> Seq<Idx> {
        self.sa.sa@
    }

    /// The symbols of the text.
    pub closed spec fn text_view(self) -> Seq<T> {
        self.sa.text@
    }

    /// Returns a reference to the suffix array.
    pub fn sa(&self) -> (sa: &'sa SuffixArray<'txt, T, Idx>)
        ensures
            sa@ == self.sa_view(),
            sa.text_view() == self.text_view(),
    {
        self.sa
    }

    /// Returns a reference to the inverse suffix array.
    pub fn inner(&self) -> (isa: &[Idx])
        ensures
            isa@ == self@,
            is_inverse(values(self.sa_view()), values(isa@)),
            is_inverse(values(isa@), values(self.sa_view())),
    {
        proof {
            use_type_invariant(self);
        }
        self.isa.as_slice()
    }

    /// Returns the inverse suffix array as a vector.
    pub fn into_inner(self) -> (isa: Vec<Idx>)
        ensures
            isa@ == self@,
            is_inverse(values(self.sa_view()), values(isa@)),
            is_inverse(values(isa@), values(self.sa_view())),
    {
        proof {
            use_type_invariant(&self);
        }
        self.isa
    }
}

/// Why a suffix array could not be built.
#[derive(Debug, Clone, Copy, PartialEq, Eq)]
pub enum ConstructionError {
    /// The index type cannot tell the positions of the text from the mark
    /// of an empty slot: the text is too long for it.
    IndexTooNarrow,
    /// The working memory that the text may take cannot be addressed.
    AllocationFailure,
}

/// The size of the alphabet of a byte text.
pub const BYTE_ALPHABET: usize = 256;

/// An upper bound, in bytes, on the working memory that [`sais`] accounts
/// for on a text of `n` bytes at index width `width`: the workspace of
/// induced sorting over the byte alphabet.
pub open spec fn workspace_bound(n: nat, width: nat) -> nat {
    workspace(n, BYTE_ALPHABET as nat, width)
}

/// Tells whether the working memory for `n` bytes at index width `width`
/// can be addressed.
fn workspace_fits(n: usize, width: usize) -> (fits: bool)
    requires
        1 <= width <= 8,
    ensures
        fits == (workspace_bound(n as nat, width as nat) <= usize::MAX),
{
    let cells: u128 = 768 + 9 * (n as u128);
    assert(cells * (width as u128) <= 0xffff_ffff_ffff_ffff_ffff) by (nonlinear_arith)
        requires
            cells <= 0xfff_ffff_ffff_ffff_ffff,
            width <= 8,
    ;
    let bytes: u128 = cells * (width as u128);
    bytes <= usize::MAX as u128
}

/// Builds the suffix array of `text` by induced sorting, at the index width
/// of `Idx`, and reports the working memory that was allocated on the way.
pub fn sais<'txt, Idx: ArrayIndex>(text: &'txt [u8]) -> (result: Result<
    MemoryResult<SuffixArray<'txt, u8, Idx>>,
    ConstructionError,
>)
    ensures
        match result {
            Ok(built) => {
                &&& text.len() < Idx::max_index()
                &&& workspace_bound(text.len() as nat, size_of::<Idx>()) <= usize::MAX
                &&& built.value.text_view() == text@
                &&& is_suffix_array(values(text@), values(built.value@))
                &&& built.memory == sort_memory(
                    values(text@),
                    BYTE_ALPHABET as nat,
                    size_of::<Idx>(),
                )
                &&& text.len() == 0 ==> built.memory == 0
                &&& text.len() > 0 ==> 0 < built.memory <= workspace_bound(
                    text.len() as nat,
                    size_of::<Idx>(),
                )
            },
            Err(ConstructionError::IndexTooNarrow) => text.len() >= Idx::max_index(),
            Err(ConstructionError::AllocationFailure) => {
                &&& text.len() < Idx::max_index()
                &&& workspace_bound(text.len() as nat, size_of::<Idx>()) > usize::MAX
            },
        },
{
    let n = text.len();
    if n >= Idx::max_usize() {
        return Err(ConstructionError::IndexTooNarrow);
    }
    let width = core::mem::size_of::<Idx>();
    proof {
        Idx::lemma_limits();
    }
    if !workspace_fits(n, width) {
        return Err(ConstructionError::AllocationFailure);
    }
    assert(valid_text(values(text@), BYTE_ALPHABET as nat)) by {
        assert forall|i: int| 0 <= i < text@.len() implies 0 <= #[trigger] values(text@)[i]
            < BYTE_ALPHABET by {
            assert(values(text@)[i] == text@[i].value());
        }
    }
    let mut builder = MemoryResult::builder();
    let sa: Vec<Idx> = induced_sort(text, BYTE_ALPHABET).add_to(&mut builder);
    Ok(builder.build(SuffixArray { text, sa }))
}

/// Builds the suffix array of `text` by sorting its suffixes directly.
pub fn naive<'txt, T: ArrayIndex, Idx: ArrayIndex>(text: &'txt [T]) -> (sa: SuffixArray<'txt, T, Idx>)
    requires
        text.len() < Idx::max_index(),
    ensures
        sa.text_view() == text@,
        is_suffix_array(values(text@), values(sa@)),
{
    let sa = sort_suffixes(text);
    SuffixArray { text, sa }
}

} // verus!
