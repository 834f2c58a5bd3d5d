//! The mathematical model of cutting and wrapping, over the UTF-8 bytes of a text.
use vstd::prelude::*;
use vstd::utf8::{is_char_boundary, is_char_boundary_start_end_of_seq, valid_utf8};
use crate::unicode::{display_width, word_bounds};

verus! {

/// The text `b` occupies at most `w` columns.
pub open spec fn fits(b: Seq<u8>, w: int) -> bool {
    display_width(b) <= w
}

/// The first `i` bytes of `b` occupy at most `w` columns.
pub open spec fn head_fits(b: Seq<u8>, i: int, w: int) -> bool {
    fits(b.subrange(0, i), w)
}

/// A line may be broken at byte offset `i` of `b`: a word boundary that falls
/// between two characters.
pub open spec fn is_word_break(b: Seq<u8>, i: int) -> bool {
    &&& 0 <= i
    &&& word_bounds(b).contains(i as usize)
    &&& is_char_boundary(b, i)
}

/// Offset `i` is a candidate word cut of `b` under `w` columns: a word break
/// past the first two bytes and before the end, whose head fits.
pub open spec fn is_word_cut(b: Seq<u8>, w: int, i: int) -> bool {
    &&& 2 <= i < b.len()
    &&& is_word_break(b, i)
    &&& head_fits(b, i, w)
}

pub open spec fn has_word_cut(b: Seq<u8>, w: int) -> bool {
    exists|i: int| is_word_cut(b, w, i)
}

/// The first character boundary of `b` at or after `i` (the end of `b` if `i`
/// is past it).
pub open spec fn boundary_from(b: Seq<u8>, i: int) -> int
    decreases b.len() - i,
{
    if i >= b.len() {
        b.len() as int
    } else if is_char_boundary(b, i) {
        i
    } else {
        boundary_from(b, i + 1)
    }
}

/// The end of the character that starts at offset `i` of `b`.
pub open spec fn next_boundary(b: Seq<u8>, i: int) -> int {
    boundary_from(b, i + 1)
}

/// Offset `k` is the hard cut of `b` under `w` columns: every non-empty head of
/// `b` that ends on a character boundary at or before `k` fits, and the head
/// one character longer than `k` does not.
pub open spec fn is_hard_cut(b: Seq<u8>, w: int, k: int) -> bool {
    &&& 0 <= k <= b.len()
    &&& is_char_boundary(b, k)
    &&& forall|j: int| 0 < j <= k && is_char_boundary(b, j) ==> #[trigger] head_fits(b, j, w)
    &&& !head_fits(b, next_boundary(b, k), w)
}

/// Offset `k` is where a cut on character boundaries alone splits `b`.
pub open spec fn is_hard_split(b: Seq<u8>, w: int, k: int) -> bool {
    if fits(b, w) {
        k == b.len()
    } else {
        is_hard_cut(b, w, k)
    }
}

/// Offset `k` is where a cut that prefers word boundaries splits `b`: the
/// rightmost word cut when there is one, else the hard cut.
pub open spec fn is_split(b: Seq<u8>, w: int, k: int) -> bool {
    if fits(b, w) {
        k == b.len()
    } else if has_word_cut(b, w) {
        is_word_cut(b, w, k) && forall|i: int| #[trigger] is_word_cut(b, w, i) ==> i <= k
    } else {
        is_hard_cut(b, w, k)
    }
}

/// The offset at which `b` is split under `w` columns.
pub open spec fn split_offset(b: Seq<u8>, w: int) -> int {
    choose|k: int| is_split(b, w, k)
}

/// The offset at which `b` is split on character boundaries alone.
pub open spec fn hard_split_offset(b: Seq<u8>, w: int) -> int {
    choose|k: int| is_hard_split(b, w, k)
}

/// The lines of `b` wrapped to `w` columns: the text if it fits, else the head
/// of its split followed by the lines of the rest. `None` when a split makes
/// no progress.
pub open spec fn wrapped(b: Seq<u8>, w: int) -> Option<Seq<Seq<u8>>>
    decreases b.len(),
{
    if fits(b, w) {
        Some(seq![b])
    } else {
        let k = split_offset(b, w);
        if 0 < k <= b.len() {
            match wrapped(b.subrange(k, b.len() as int), w) {
                Some(rest) => Some(seq![b.subrange(0, k)] + rest),
                None => None,
            }
        } else {
            None
        }
    }
}

/// `boundary_from` is the first character boundary at or after `i`.
pub proof fn lemma_boundary_from(b: Seq<u8>, i: int)
    requires
        valid_utf8(b),
        0 <= i <= b.len(),
    ensures
        i <= boundary_from(b, i) <= b.len(),
        is_char_boundary(b, boundary_from(b, i)),
        forall|m: int| i <= m < boundary_from(b, i) ==> !is_char_boundary(b, m),
    decreases b.len() - i,
{
    is_char_boundary_start_end_of_seq(b);
    if i < b.len() && !is_char_boundary(b, i) {
        lemma_boundary_from(b, i + 1);
    }
}

/// Two offsets that are both hard cuts of `b` are the same.
pub proof fn lemma_hard_cut_unique(b: Seq<u8>, w: int, k1: int, k2: int)
    requires
        valid_utf8(b),
        is_hard_cut(b, w, k1),
        is_hard_cut(b, w, k2),
    ensures
        k1 == k2,
{
    lemma_hard_cut_order(b, w, k1, k2);
    lemma_hard_cut_order(b, w, k2, k1);
}

proof fn lemma_hard_cut_order(b: Seq<u8>, w: int, k1: int, k2: int)
    requires
        valid_utf8(b),
        is_hard_cut(b, w, k1),
        is_hard_cut(b, w, k2),
    ensures
        k2 <= k1,
{
    if k1 < k2 {
        lemma_boundary_from(b, k1 + 1);
        let nb = next_boundary(b, k1);
        assert(nb <= k2);
        assert(head_fits(b, nb, w));
    }
}

/// Two offsets at which `b` is split are the same.
pub proof fn lemma_split_unique(b: Seq<u8>, w: int, k1: int, k2: int)
    requires
        valid_utf8(b),
        is_split(b, w, k1),
        is_split(b, w, k2),
    ensures
        k1 == k2,
{
    if !fits(b, w) && !has_word_cut(b, w) {
        lemma_hard_cut_unique(b, w, k1, k2);
    }
}

/// Any offset at which `b` is split is `split_offset(b, w)`.
pub proof fn lemma_split_offset(b: Seq<u8>, w: int, k: int)
    requires
        valid_utf8(b),
        is_split(b, w, k),
    ensures
        split_offset(b, w) == k,
{
    lemma_split_unique(b, w, k, split_offset(b, w));
}

/// Any offset at which `b` is hard-split is `hard_split_offset(b, w)`.
pub proof fn lemma_hard_split_offset(b: Seq<u8>, w: int, k: int)
    requires
        valid_utf8(b),
        is_hard_split(b, w, k),
    ensures
        hard_split_offset(b, w) == k,
{
    let h = hard_split_offset(b, w);
    if !fits(b, w) {
        lemma_hard_cut_unique(b, w, k, h);
    }
}

/// The rightmost word cut of `b` below `hi`, given that one exists.
proof fn lemma_last_word_cut(b: Seq<u8>, w: int, hi: int) -> (k: int)
    requires
        exists|i: int| is_word_cut(b, w, i) && i < hi,
    ensures
        is_word_cut(b, w, k),
        k < hi,
        forall|i: int| is_word_cut(b, w, i) && i < hi ==> i <= k,
    decreases hi,
{
    if is_word_cut(b, w, hi - 1) {
        hi - 1
    } else {
        lemma_last_word_cut(b, w, hi - 1)
    }
}

/// Walking forward from the character boundary `c`, up to which every head
/// fits, reaches a hard cut of a text that does not fit.
proof fn lemma_hard_cut_from(b: Seq<u8>, w: int, c: int) -> (k: int)
    requires
        valid_utf8(b),
        !fits(b, w),
        0 <= c <= b.len(),
        is_char_boundary(b, c),
        forall|j: int| 0 < j <= c && is_char_boundary(b, j) ==> #[trigger] head_fits(b, j, w),
    ensures
        is_hard_cut(b, w, k),
    decreases b.len() - c,
{
    if c == b.len() {
        assert(b.subrange(0, c) == b);
        assert(next_boundary(b, c) == c);
        c
    } else {
        lemma_boundary_from(b, c + 1);
        let nb = next_boundary(b, c);
        if !head_fits(b, nb, w) {
            c
        } else {
            assert forall|j: int| 0 < j <= nb && is_char_boundary(b, j) implies #[trigger] head_fits(
                b,
                j,
                w,
            ) by {
                if j > c {
                    assert(j == nb);
                }
            }
            lemma_hard_cut_from(b, w, nb)
        }
    }
}

/// Every valid UTF-8 text has a split and a hard split under any budget.
pub proof fn lemma_split_exists(b: Seq<u8>, w: int)
    requires
        valid_utf8(b),
    ensures
        is_split(b, w, split_offset(b, w)),
        is_hard_split(b, w, hard_split_offset(b, w)),
{
    if !fits(b, w) {
        is_char_boundary_start_end_of_seq(b);
        let h = lemma_hard_cut_from(b, w, 0);
        assert(is_hard_split(b, w, h));
        if has_word_cut(b, w) {
            let k = lemma_last_word_cut(b, w, b.len() as int);
            assert(is_split(b, w, k));
        } else {
            assert(is_split(b, w, h));
        }
    } else {
        assert(is_split(b, w, b.len() as int));
        assert(is_hard_split(b, w, b.len() as int));
    }
}

} // verus!
