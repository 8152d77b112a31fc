//! The two types of positions and the positions where induced sorting
//! starts.
//!
//! A position is of type S if its suffix is below the suffix one symbol
//! further on, and of type L otherwise. The empty suffix at the end of the
//! text counts as type S, so the last symbol is always of type L.
use vstd::prelude::*;
use crate::index::{ArrayIndex, values, filled};
use crate::order::suffix_lt;

verus! {

/// Position `i` of `t` is of type S.
pub open spec fn is_s_type(t: Seq<int>, i: int) -> bool
    decreases t.len() - i,
{
    if i >= t.len() {
        true
    } else if i + 1 == t.len() {
        false
    } else {
        t[i] < t[i + 1] || (t[i] == t[i + 1] && is_s_type(t, i + 1))
    }
}

/// Position `i` of `t` is a left-most S position: of type S, with a
/// position of type L before it.
pub open spec fn is_lms(t: Seq<int>, i: int) -> bool {
    1 <= i < t.len() && is_s_type(t, i) && !is_s_type(t, i - 1)
}

/// The number of left-most S positions below `upto`.
pub open spec fn lms_count(t: Seq<int>, upto: int) -> nat
    decreases upto,
{
    if upto <= 0 {
        0
    } else {
        lms_count(t, upto - 1) + if is_lms(t, upto - 1) {
            1nat
        } else {
            0nat
        }
    }
}

/// A position is of type S exactly if its suffix is below the next one.
pub proof fn lemma_s_type_is_ascent(t: Seq<int>, i: int)
    requires
        0 <= i < t.len(),
    ensures
        is_s_type(t, i) == suffix_lt(t, i, i + 1),
    decreases t.len() - i,
{
    if i + 1 < t.len() {
        lemma_s_type_is_ascent(t, i + 1);
        if t[i] == t[i + 1] {
            assert(suffix_lt(t, i, i + 1) == suffix_lt(t, i + 1, i + 2));
        }
    } else {
        assert(!suffix_lt(t, i, i + 1));
    }
}

/// Left-most S positions never touch, so at most every other position is
/// one.
pub proof fn lemma_lms_count_half(t: Seq<int>, upto: int)
    requires
        0 <= upto <= t.len(),
    ensures
        2 * lms_count(t, upto) <= upto,
        upto >= 1 && !is_lms(t, upto - 1) ==> 2 * lms_count(t, upto) <= upto - 1,
    decreases upto,
{
    if upto >= 1 {
        lemma_lms_count_half(t, upto - 1);
    }
}

/// The count grows with the bound.
pub proof fn lemma_lms_count_monotonic(t: Seq<int>, a: int, b: int)
    requires
        a <= b,
    ensures
        lms_count(t, a) <= lms_count(t, b),
    decreases b - a,
{
    if a < b {
        lemma_lms_count_monotonic(t, a, b - 1);
    }
}

/// Computes the type of every position, the end of the text included, from
/// right to left. `true` stands for type S.
pub fn classify<T: ArrayIndex>(text: &[T]) -> (types: Vec<bool>)
    requires
        text.len() < usize::MAX,
    ensures
        types@.len() == text.len() + 1,
        forall|i: int| 0 <= i <= text.len() ==> types@[i] == is_s_type(values(text@), i),
{
    let n = text.len();
    let ghost t = values(text@);
    let mut types: Vec<bool> = filled(n + 1, true);
    let mut i: usize = n;
    while i > 0
        invariant
            n == text.len(),
            t == values(text@),
            i <= n,
            types@.len() == n + 1,
            forall|k: int| i <= k <= n ==> types@[k] == is_s_type(t, k),
        decreases i,
    {
        i -= 1;
        let after = types[i + 1];
        assert(after == is_s_type(t, i + 1));
        let s = if i + 1 == n {
            false
        } else {
            let x = text[i].as_usize();
            let y = text[i + 1].as_usize();
            assert(t[i as int] == x && t[i + 1] == y);
            x < y || (x == y && after)
        };
        assert(s == is_s_type(t, i as int));
        types[i] = s;
    }
    types
}

/// Tells from the computed types whether `i` is a left-most S position.
pub fn lms_at(types: &Vec<bool>, i: usize) -> (lms: bool)
    requires
        i < types.len(),
    ensures
        lms == (i >= 1 && types@[i as int] && !types@[i - 1]),
{
    i >= 1 && types[i] && !types[i - 1]
}

/// Counts the left-most S positions of a text from its computed types.
pub fn count_lms<T: ArrayIndex>(text: &[T], types: &Vec<bool>) -> (m: usize)
    requires
        types@.len() == text.len() + 1,
        forall|i: int| 0 <= i <= text.len() ==> types@[i] == is_s_type(values(text@), i),
    ensures
        m == lms_count(values(text@), text.len() as int),
        2 * m <= text.len(),
{
    let n = text.len();
    let ghost t = values(text@);
    let mut m: usize = 0;
    let mut i: usize = 0;
    while i < n
        invariant
            n == text.len(),
            t == values(text@),
            types@.len() == n + 1,
            forall|k: int| 0 <= k <= n ==> types@[k] == is_s_type(t, k),
            i <= n,
            m == lms_count(t, i as int),
            m <= i,
        decreases n - i,
    {
        if lms_at(types, i) {
            m += 1;
        }
        i += 1;
    }
    proof {
        lemma_lms_count_half(t, n as int);
    }
    m
}

} // verus!
