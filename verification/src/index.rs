//! Unsigned integer types that can hold positions of a text.
use vstd::prelude::*;

verus! {

/// An unsigned integer type whose values stand for positions of a text,
/// for symbols of a reduced text, and for bucket pointers.
///
/// All reasoning goes through [`ArrayIndex::value`], the number a stored
/// value stands for once it is read back as a `usize`.
pub trait ArrayIndex: Copy + Sized {
    /// The number this value stands for.
    spec fn value(self) -> nat;

    /// The largest number that survives a round trip through `Self`.
    spec fn max_index() -> nat;

    /// The limit fits the machine word, and a value of this type occupies
    /// between one and eight bytes.
    proof fn lemma_limits()
        ensures
            255 <= Self::max_index() <= usize::MAX,
            1 <= vstd::layout::size_of::<Self>() <= 8,
    ;

    /// No value stands for a number above the limit.
    proof fn lemma_value_bounded(self)
        ensures
            self.value() <= Self::max_index(),
    ;

    /// Exec counterpart of [`ArrayIndex::max_index`].
    fn max_usize() -> (r: usize)
        ensures
            r == Self::max_index(),
    ;

    /// What a primitive cast makes of `value`.
    spec fn cast(value: usize) -> Self;

    /// Converts a `usize` to `Self` with a primitive cast; exact for every
    /// number up to the limit.
    fn from_usize(value: usize) -> (r: Self)
        ensures
            r == Self::cast(value),
            value <= Self::max_index() ==> r.value() == value,
    ;

    /// Reads the value back as a `usize`.
    fn as_usize(self) -> (r: usize)
        ensures
            r == self.value(),
    ;
}

impl ArrayIndex for u8 {
    open spec fn cast(value: usize) -> Self {
        value as u8
    }

    proof fn lemma_value_bounded(self) {
    }

    open spec fn value(self) -> nat {
        self as nat
    }

    open spec fn max_index() -> nat {
        0xff
    }

    proof fn lemma_limits() {
        broadcast use vstd::layout::layout_of_primitives;

    }

    fn max_usize() -> (r: usize) {
        0xff
    }

    fn from_usize(value: usize) -> (r: Self) {
        value as u8
    }

    fn as_usize(self) -> (r: usize) {
        self as usize
    }
}

impl ArrayIndex for u16 {
    open spec fn cast(value: usize) -> Self {
        value as u16
    }

    proof fn lemma_value_bounded(self) {
    }

    open spec fn value(self) -> nat {
        self as nat
    }

    open spec fn max_index() -> nat {
        0xffff
    }

    proof fn lemma_limits() {
        broadcast use vstd::layout::layout_of_primitives;

    }

    fn max_usize() -> (r: usize) {
        0xffff
    }

    fn from_usize(value: usize) -> (r: Self) {
        value as u16
    }

    fn as_usize(self) -> (r: usize) {
        self as usize
    }
}

impl ArrayIndex for u32 {
    open spec fn cast(value: usize) -> Self {
        value as u32
    }

    proof fn lemma_value_bounded(self) {
    }

    open spec fn value(self) -> nat {
        self as nat
    }

    open spec fn max_index() -> nat {
        0xffff_ffff
    }

    proof fn lemma_limits() {
        broadcast use vstd::layout::layout_of_primitives;

    }

    fn max_usize() -> (r: usize) {
        0xffff_ffff
    }

    fn from_usize(value: usize) -> (r: Self) {
        value as u32
    }

    fn as_usize(self) -> (r: usize) {
        self as usize
    }
}

impl ArrayIndex for u64 {
    open spec fn cast(value: usize) -> Self {
        value as u64
    }

    proof fn lemma_value_bounded(self) {
    }

    open spec fn value(self) -> nat {
        self as usize as nat
    }

    open spec fn max_index() -> nat {
        usize::MAX as nat
    }

    proof fn lemma_limits() {
        broadcast use vstd::layout::layout_of_primitives;

    }

    fn max_usize() -> (r: usize) {
        usize::MAX
    }

    fn from_usize(value: usize) -> (r: Self) {
        value as u64
    }

    fn as_usize(self) -> (r: usize) {
        self as usize
    }
}

impl ArrayIndex for usize {
    open spec fn cast(value: usize) -> Self {
        value
    }

    proof fn lemma_value_bounded(self) {
    }

    open spec fn value(self) -> nat {
        self as nat
    }

    open spec fn max_index() -> nat {
        usize::MAX as nat
    }

    proof fn lemma_limits() {
        broadcast use vstd::layout::layout_of_primitives;

    }

    fn max_usize() -> (r: usize) {
        usize::MAX
    }

    fn from_usize(value: usize) -> (r: Self) {
        value
    }

    fn as_usize(self) -> (r: usize) {
        self
    }
}

/// The numbers that a sequence of index values stands for.
pub open spec fn values<I: ArrayIndex>(s: Seq<I>) -> Seq<int> {
    Seq::new(s.len(), |i: int| s[i].value() as int)
}

/// Conversion of a `usize` into an index type.
pub trait ToIndex<Idx: ArrayIndex> {
    /// The number `self` stands for.
    spec fn number(self) -> usize;

    /// Converts `self` to a value of type `Idx` with a primitive cast;
    /// exact for every number up to the limit of `Idx`.
    fn to_index(self) -> (r: Idx)
        ensures
            r == Idx::cast(self.number()),
            self.number() <= Idx::max_index() ==> r.value() == self.number(),
    ;
}

impl<Idx: ArrayIndex> ToIndex<Idx> for usize {
    open spec fn number(self) -> usize {
        self
    }

    fn to_index(self) -> (r: Idx) {
        Idx::from_usize(self)
    }
}

/// A vector of `len` copies of `value`.
pub fn filled<X: Copy>(len: usize, value: X) -> (v: Vec<X>)
    ensures
        v@ == Seq::new(len as nat, |i: int| value),
{
    let mut v: Vec<X> = Vec::with_capacity(len);
    let mut i: usize = 0;
    while i < len
        invariant
            i <= len,
            v@ == Seq::new(i as nat, |k: int| value),
        decreases len - i,
    {
        v.push(value);
        assert(v@ =~= Seq::new((i + 1) as nat, |k: int| value));
        i += 1;
    }
    v
}

} // verus!
