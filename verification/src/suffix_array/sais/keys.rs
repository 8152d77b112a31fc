//! The orders in which induced sorting puts positions.
//!
//! Both orders compare two positions symbol by symbol, and where the
//! symbols are equal put type L before type S. The order of the pass from
//! the left stops at the first left-most S position that it meets. There
//! it either calls a tie, which orders positions by the substring up to
//! the next left-most S position, or it goes by the order of the
//! suffixes, which orders positions by their whole suffix.
use vstd::prelude::*;
use crate::order::{
    suffix_lt,
    lemma_suffix_lt_irreflexive,
    lemma_suffix_lt_asymmetric,
};
use crate::suffix_array::sais::types::{is_s_type, is_lms};

verus! {

/// The order of the pass from the left on positions of type L and on
/// left-most S positions: `a` does not come after `b`. With `full`, two
/// left-most S positions are ordered by their suffixes; without, they tie.
pub open spec fn le_l(t: Seq<int>, full: bool, a: int, b: int) -> bool
    decreases t.len() - a,
{
    if a < 0 || b < 0 || a >= t.len() || b >= t.len() {
        false
    } else if t[a] != t[b] {
        t[a] < t[b]
    } else if is_s_type(t, a) {
        is_s_type(t, b) && (!full || a == b || suffix_lt(t, a, b))
    } else if is_s_type(t, b) {
        true
    } else {
        a + 1 == t.len() || (b + 1 < t.len() && le_l(t, full, a + 1, b + 1))
    }
}

/// The order of the pass from the right on all positions: `a` does not
/// come after `b`.
pub open spec fn le_s(t: Seq<int>, full: bool, a: int, b: int) -> bool
    decreases t.len() - a,
{
    if a < 0 || b < 0 || a >= t.len() || b >= t.len() {
        false
    } else if t[a] != t[b] {
        t[a] < t[b]
    } else if !is_s_type(t, a) {
        is_s_type(t, b) || le_l(t, full, a, b)
    } else if !is_s_type(t, b) {
        false
    } else {
        le_s(t, full, a + 1, b + 1)
    }
}

/// Of two suffixes that start with the same symbol, one of type L is below
/// one of type S.
pub proof fn lemma_l_before_s(t: Seq<int>, a: int, b: int)
    requires
        0 <= a < t.len(),
        0 <= b < t.len(),
        t[a] == t[b],
        !is_s_type(t, a),
        is_s_type(t, b),
    ensures
        suffix_lt(t, a, b),
    decreases t.len() - a,
{
    assert(b + 1 < t.len());
    if a + 1 < t.len() {
        if t[a + 1] == t[b + 1] {
            lemma_l_before_s(t, a + 1, b + 1);
        }
        assert(suffix_lt(t, a + 1, b + 1));
    } else {
        assert(suffix_lt(t, a + 1, b + 1));
    }
}

/// With `full`, the order of the pass from the left is the order of the
/// suffixes.
pub proof fn lemma_le_l_full(t: Seq<int>, a: int, b: int)
    requires
        0 <= a < t.len(),
        0 <= b < t.len(),
        is_s_type(t, a) ==> is_lms(t, a),
        is_s_type(t, b) ==> is_lms(t, b),
    ensures
        le_l(t, true, a, b) == (a == b || suffix_lt(t, a, b)),
    decreases t.len() - a,
{
    lemma_suffix_lt_irreflexive(t, a);
    if t[a] == t[b] {
        if is_s_type(t, a) {
            if !is_s_type(t, b) {
                lemma_l_before_s(t, b, a);
                lemma_suffix_lt_asymmetric(t, a, b);
            }
        } else if is_s_type(t, b) {
            lemma_l_before_s(t, a, b);
        } else {
            if a + 1 < t.len() && b + 1 < t.len() {
                lemma_le_l_full(t, a + 1, b + 1);
                assert(suffix_lt(t, a, b) == suffix_lt(t, a + 1, b + 1));
            } else {
                assert(suffix_lt(t, a, b) == suffix_lt(t, a + 1, b + 1));
                lemma_suffix_lt_irreflexive(t, a + 1);
            }
        }
    }
}

/// With `full`, the order of the pass from the right is the order of the
/// suffixes.
pub proof fn lemma_le_s_full(t: Seq<int>, a: int, b: int)
    requires
        0 <= a < t.len(),
        0 <= b < t.len(),
    ensures
        le_s(t, true, a, b) == (a == b || suffix_lt(t, a, b)),
    decreases t.len() - a,
{
    lemma_suffix_lt_irreflexive(t, a);
    if t[a] == t[b] {
        if !is_s_type(t, a) {
            if is_s_type(t, b) {
                lemma_l_before_s(t, a, b);
            } else {
                lemma_le_l_both_l(t, a, b);
            }
        } else if !is_s_type(t, b) {
            lemma_l_before_s(t, b, a);
            lemma_suffix_lt_asymmetric(t, a, b);
        } else {
            lemma_le_s_full(t, a + 1, b + 1);
            assert(suffix_lt(t, a, b) == suffix_lt(t, a + 1, b + 1));
        }
    }
}

/// With `full`, two positions of type L with the same symbol are ordered
/// by their suffixes.
proof fn lemma_le_l_both_l(t: Seq<int>, a: int, b: int)
    requires
        0 <= a < t.len(),
        0 <= b < t.len(),
        t[a] == t[b],
        !is_s_type(t, a),
        !is_s_type(t, b),
    ensures
        le_l(t, true, a, b) == (a == b || suffix_lt(t, a, b)),
{
    if a + 1 < t.len() && b + 1 < t.len() {
        assert(is_s_type(t, a + 1) ==> is_lms(t, a + 1));
        assert(is_s_type(t, b + 1) ==> is_lms(t, b + 1));
        lemma_le_l_full(t, a + 1, b + 1);
        assert(suffix_lt(t, a, b) == suffix_lt(t, a + 1, b + 1));
    } else {
        assert(suffix_lt(t, a, b) == suffix_lt(t, a + 1, b + 1));
        lemma_suffix_lt_irreflexive(t, a + 1);
    }
}

/// The first left-most S position behind `p`, or the length of the text
/// if there is none.
pub open spec fn next_lms(t: Seq<int>, p: int) -> int
    decreases t.len() - p,
{
    if p + 1 >= t.len() {
        t.len() as int
    } else if is_lms(t, p + 1) {
        p + 1
    } else {
        next_lms(t, p + 1)
    }
}

/// The truncated order of the pass from the left is transitive.
pub proof fn lemma_le_l_transitive(t: Seq<int>, a: int, b: int, c: int)
    requires
        le_l(t, false, a, b),
        le_l(t, false, b, c),
    ensures
        le_l(t, false, a, c),
    decreases t.len() - a,
{
    if t[a] == t[b] && t[b] == t[c] && !is_s_type(t, a) && !is_s_type(t, b) && !is_s_type(t, c) {
        if a + 1 < t.len() {
            lemma_le_l_transitive(t, a + 1, b + 1, c + 1);
        }
    }
}

/// The truncated order of the pass from the right is transitive.
pub proof fn lemma_le_s_transitive(t: Seq<int>, a: int, b: int, c: int)
    requires
        le_s(t, false, a, b),
        le_s(t, false, b, c),
    ensures
        le_s(t, false, a, c),
    decreases t.len() - a,
{
    if t[a] == t[b] && t[b] == t[c] {
        if !is_s_type(t, a) {
            if !is_s_type(t, c) {
                lemma_le_l_transitive(t, a, b, c);
            }
        } else {
            lemma_le_s_transitive(t, a + 1, b + 1, c + 1);
        }
    }
}

/// Where the truncated order of the pass from the left tells two positions
/// apart, their suffixes stand in the same order.
pub proof fn lemma_le_l_strict(t: Seq<int>, a: int, b: int)
    requires
        le_l(t, false, a, b),
        !le_l(t, false, b, a),
    ensures
        suffix_lt(t, a, b),
    decreases t.len() - a,
{
    if t[a] == t[b] {
        if !is_s_type(t, a) {
            if is_s_type(t, b) {
                lemma_l_before_s(t, a, b);
            } else if a + 1 < t.len() {
                lemma_le_l_strict(t, a + 1, b + 1);
            } else {
                assert(suffix_lt(t, a + 1, b + 1));
            }
        }
    }
}

/// Where the truncated order of the pass from the right tells two
/// positions apart, their suffixes stand in the same order.
pub proof fn lemma_le_s_strict(t: Seq<int>, a: int, b: int)
    requires
        le_s(t, false, a, b),
        !le_s(t, false, b, a),
    ensures
        suffix_lt(t, a, b),
    decreases t.len() - a,
{
    if t[a] == t[b] {
        if !is_s_type(t, a) {
            if is_s_type(t, b) {
                lemma_l_before_s(t, a, b);
            } else {
                lemma_le_l_strict(t, a, b);
            }
        } else {
            lemma_le_s_strict(t, a + 1, b + 1);
        }
    }
}

/// The two positions tie in the truncated order of the pass from the left.
pub open spec fn tie_l(t: Seq<int>, a: int, b: int) -> bool {
    le_l(t, false, a, b) && le_l(t, false, b, a)
}

/// The two positions tie in the truncated order of the pass from the
/// right: the substrings from them up to the next left-most S position are
/// alike.
pub open spec fn tie_s(t: Seq<int>, a: int, b: int) -> bool {
    le_s(t, false, a, b) && le_s(t, false, b, a)
}

/// The substrings that start at `a` and `b` and run up to the next
/// left-most S position are alike: they are equally long, end before the
/// end of the text, and hold the same symbols and types.
pub open spec fn same_substring(t: Seq<int>, a: int, b: int) -> bool {
    &&& 0 <= a
    &&& 0 <= b
    &&& next_lms(t, a) < t.len()
    &&& next_lms(t, b) < t.len()
    &&& next_lms(t, b) - b == next_lms(t, a) - a
    &&& forall|k: int|
        0 <= k <= next_lms(t, a) - a ==> t[a + k] == #[trigger] t[b + k] && is_s_type(t, a + k)
            == is_s_type(t, b + k)
}

/// The next left-most S position lies behind the position that it is the
/// next of, and is a left-most S position unless it is the end of the
/// text.
pub proof fn lemma_next_lms_is_lms(t: Seq<int>, p: int)
    requires
        0 <= p,
    ensures
        p < next_lms(t, p) || next_lms(t, p) == t.len(),
        next_lms(t, p) <= t.len(),
        next_lms(t, p) < t.len() ==> is_lms(t, next_lms(t, p)),
    decreases t.len() - p,
{
    if p + 1 < t.len() && !is_lms(t, p + 1) {
        lemma_next_lms_is_lms(t, p + 1);
    }
}

/// Two different positions of type L that tie start substrings that are
/// alike.
pub proof fn lemma_tie_l_substring(t: Seq<int>, a: int, b: int)
    requires
        a != b,
        tie_l(t, a, b),
        !is_s_type(t, a),
    ensures
        same_substring(t, a, b),
        a < next_lms(t, a),
    decreases t.len() - a,
{
    assert(0 <= a < t.len() && 0 <= b < t.len());
    assert(t[a] == t[b]);
    assert(!is_s_type(t, b));
    assert(a + 1 < t.len() && b + 1 < t.len());
    assert(tie_l(t, a + 1, b + 1));
    assert(t[a + 1] == t[b + 1]);
    if is_s_type(t, a + 1) {
        assert(is_s_type(t, b + 1));
        assert(is_lms(t, a + 1) && is_lms(t, b + 1));
        assert(next_lms(t, a) == a + 1 && next_lms(t, b) == b + 1);
        assert forall|k: int| 0 <= k <= next_lms(t, a) - a implies t[a + k] == #[trigger] t[b
            + k] && is_s_type(t, a + k) == is_s_type(t, b + k) by {}
    } else {
        assert(!is_lms(t, a + 1));
        assert(!is_s_type(t, b + 1));
        assert(!is_lms(t, b + 1));
        lemma_tie_l_substring(t, a + 1, b + 1);
        assert(next_lms(t, a) == next_lms(t, a + 1) && next_lms(t, b) == next_lms(t, b + 1));
        assert forall|k: int| 0 <= k <= next_lms(t, a) - a implies t[a + k] == #[trigger] t[b
            + k] && is_s_type(t, a + k) == is_s_type(t, b + k) by {
            if k > 0 {
                assert(t[(a + 1) + (k - 1)] == t[(b + 1) + (k - 1)]);
            }
        }
    }
}

/// Two different positions of type S that tie start substrings that are
/// alike.
pub proof fn lemma_tie_s_substring(t: Seq<int>, a: int, b: int)
    requires
        a != b,
        tie_s(t, a, b),
        is_s_type(t, a),
    ensures
        same_substring(t, a, b),
        a < next_lms(t, a),
    decreases t.len() - a,
{
    assert(0 <= a < t.len() && 0 <= b < t.len());
    assert(t[a] == t[b]);
    assert(is_s_type(t, b));
    assert(a + 1 < t.len() && b + 1 < t.len());
    assert(tie_s(t, a + 1, b + 1));
    assert(!is_lms(t, a + 1) && !is_lms(t, b + 1));
    if is_s_type(t, a + 1) {
        lemma_tie_s_substring(t, a + 1, b + 1);
    } else {
        assert(!is_s_type(t, b + 1));
        assert(tie_l(t, a + 1, b + 1));
        lemma_tie_l_substring(t, a + 1, b + 1);
    }
    assert(next_lms(t, a) == next_lms(t, a + 1) && next_lms(t, b) == next_lms(t, b + 1));
    assert forall|k: int| 0 <= k <= next_lms(t, a) - a implies t[a + k] == #[trigger] t[b + k]
        && is_s_type(t, a + k) == is_s_type(t, b + k) by {
        if k > 0 {
            assert(t[(a + 1) + (k - 1)] == t[(b + 1) + (k - 1)]);
        }
    }
}

/// What is alike from `a` and `b` on is alike from the next positions on,
/// unless the substrings end there.
proof fn lemma_same_substring_next(t: Seq<int>, a: int, b: int)
    requires
        same_substring(t, a, b),
        a + 1 < t.len(),
        !is_lms(t, a + 1),
    ensures
        same_substring(t, a + 1, b + 1),
        b + 1 < t.len(),
        !is_lms(t, b + 1),
{
    lemma_next_lms_is_lms(t, a);
    lemma_next_lms_is_lms(t, b);
    let d = next_lms(t, a) - a;
    assert(next_lms(t, a) == next_lms(t, a + 1));
    assert(d >= 2);
    assert(t[a + 0] == t[b + 0] && is_s_type(t, a + 0) == is_s_type(t, b + 0));
    assert(t[a + 1] == t[b + 1] && is_s_type(t, a + 1) == is_s_type(t, b + 1));
    assert(next_lms(t, b) == next_lms(t, b + 1));
    assert forall|k: int| 0 <= k <= next_lms(t, a + 1) - (a + 1) implies t[(a + 1) + k]
        == #[trigger] t[(b + 1) + k] && is_s_type(t, (a + 1) + k) == is_s_type(t, (b + 1) + k) by {
        assert(t[a + (k + 1)] == t[b + (k + 1)]);
    }
}

/// Two positions of type L that start substrings that are alike tie.
pub proof fn lemma_substring_tie_l(t: Seq<int>, a: int, b: int)
    requires
        same_substring(t, a, b),
        !is_s_type(t, a),
    ensures
        tie_l(t, a, b),
    decreases t.len() - a,
{
    lemma_next_lms_is_lms(t, a);
    lemma_next_lms_is_lms(t, b);
    assert(a + 1 < t.len() && b + 1 < t.len());
    assert(t[a + 0] == t[b + 0] && is_s_type(t, a + 0) == is_s_type(t, b + 0));
    assert(t[a + 1] == t[b + 1] && is_s_type(t, a + 1) == is_s_type(t, b + 1));
    if is_lms(t, a + 1) {
        assert(next_lms(t, a) == a + 1);
        assert(next_lms(t, b) == b + 1);
        assert(is_s_type(t, b + 1));
        assert(le_l(t, false, a + 1, b + 1) && le_l(t, false, b + 1, a + 1));
    } else {
        lemma_same_substring_next(t, a, b);
        lemma_substring_tie_l(t, a + 1, b + 1);
    }
    assert(le_l(t, false, a, b));
    assert(le_l(t, false, b, a));
}

/// Two positions of type S that start substrings that are alike tie.
pub proof fn lemma_substring_tie_s(t: Seq<int>, a: int, b: int)
    requires
        same_substring(t, a, b),
        is_s_type(t, a),
    ensures
        tie_s(t, a, b),
    decreases t.len() - a,
{
    lemma_next_lms_is_lms(t, a);
    lemma_next_lms_is_lms(t, b);
    assert(t[a + 0] == t[b + 0] && is_s_type(t, a + 0) == is_s_type(t, b + 0));
    assert(a + 1 < t.len() && !is_lms(t, a + 1));
    lemma_same_substring_next(t, a, b);
    assert(t[(a + 1) + 0] == t[(b + 1) + 0] && is_s_type(t, (a + 1) + 0) == is_s_type(
        t,
        (b + 1) + 0,
    ));
    if is_s_type(t, a + 1) {
        lemma_substring_tie_s(t, a + 1, b + 1);
    } else {
        lemma_substring_tie_l(t, a + 1, b + 1);
        assert(le_s(t, false, a + 1, b + 1));
        assert(le_s(t, false, b + 1, a + 1));
    }
    assert(le_s(t, false, a, b));
    assert(le_s(t, false, b, a));
}

/// Suffixes that start alike are ordered as what follows the common start.
pub proof fn lemma_skip_common(t: Seq<int>, a: int, b: int, l: int)
    requires
        0 <= a,
        0 <= b,
        0 <= l,
        a + l <= t.len(),
        b + l <= t.len(),
        forall|k: int| 0 <= k < l ==> t[a + k] == #[trigger] t[b + k],
    ensures
        suffix_lt(t, a, b) == suffix_lt(t, a + l, b + l),
    decreases l,
{
    if l > 0 {
        assert(t[a + 0] == t[b + 0]);
        assert forall|k: int| 0 <= k < l - 1 implies t[(a + 1) + k] == #[trigger] t[(b + 1)
            + k] by {
            assert(t[a + (k + 1)] == t[b + (k + 1)]);
        }
        lemma_skip_common(t, a + 1, b + 1, l - 1);
    }
}

/// `list` holds every left-most S position of `t` once, in ascending
/// order of the suffixes.
pub open spec fn lms_in_order(t: Seq<int>, list: Seq<int>) -> bool {
    &&& forall|x: int| 0 <= x < list.len() ==> is_lms(t, #[trigger] list[x])
    &&& forall|x: int, y: int|
        0 <= x < y < list.len() ==> #[trigger] suffix_lt(t, list[x], list[y])
    &&& forall|p: int| #[trigger] is_lms(t, p) ==> list.contains(p)
}

} // verus!
