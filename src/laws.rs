//! Laws that relate measuring, cutting and wrapping, stated over the model.
use vstd::prelude::*;
use vstd::string::StringSliceAdditionalSpecFns;
use vstd::utf8::{encode_utf8_valid_utf8, is_char_boundary, valid_utf8, valid_utf8_split};
use crate::model::{
    fits, has_word_cut, hard_split_offset, head_fits, is_word_break, is_word_cut,
    lemma_split_exists, next_boundary, split_offset, wrapped,
};

verus! {

/// The lines of a wrapped text concatenate back to it, and each of them fits.
proof fn lemma_wrapped_lines(b: Seq<u8>, w: int)
    requires
        valid_utf8(b),
        wrapped(b, w) is Some,
    ensures
        wrapped(b, w)->Some_0.flatten() == b,
        forall|j: int|
            0 <= j < wrapped(b, w)->Some_0.len() ==> fits(#[trigger] wrapped(b, w)->Some_0[j], w),
    decreases b.len(),
{
    let lines = wrapped(b, w)->Some_0;
    if fits(b, w) {
        seq![b].lemma_flatten_one_element();
    } else {
        lemma_split_exists(b, w);
        let k = split_offset(b, w);
        let head = b.subrange(0, k);
        let rest_b = b.subrange(k, b.len() as int);
        valid_utf8_split(b, k);
        lemma_wrapped_lines(rest_b, w);
        let rest = wrapped(rest_b, w)->Some_0;
        assert(lines == seq![head] + rest);
        assert(lines.drop_first() == rest);
        assert(head + rest_b == b);
        assert(head_fits(b, k, w));
        assert forall|j: int| 0 <= j < lines.len() implies fits(#[trigger] lines[j], w) by {
            if j > 0 {
                assert(lines[j] == rest[j - 1]);
            }
        }
    }
}

/// Concatenating the lines that a text wraps into gives back the text, byte
/// for byte, whenever wrapping succeeds.
pub proof fn wrap_concatenation_law(t: &str, w: i32)
    requires
        w >= 1,
        wrapped(t.spec_bytes(), w as int) is Some,
    ensures
        wrapped(t.spec_bytes(), w as int)->Some_0.flatten() == t.spec_bytes(),
{
    encode_utf8_valid_utf8(t@);
    lemma_wrapped_lines(t.spec_bytes(), w as int);
}

/// Every line that a text wraps into occupies at most the budget: a character
/// wider than the budget makes wrapping fail instead of yielding a wider line.
pub proof fn wrap_budget_law(t: &str, w: i32)
    requires
        w >= 1,
        wrapped(t.spec_bytes(), w as int) is Some,
    ensures
        forall|j: int|
            0 <= j < wrapped(t.spec_bytes(), w as int)->Some_0.len() ==> fits(
                #[trigger] wrapped(t.spec_bytes(), w as int)->Some_0[j],
                w as int,
            ),
{
    encode_utf8_valid_utf8(t@);
    lemma_wrapped_lines(t.spec_bytes(), w as int);
}

/// A text that already fits wraps to itself as the only line, and both cuts
/// leave it whole with an empty rest.
pub proof fn fit_law(t: &str, w: i32)
    requires
        w >= 1,
        fits(t.spec_bytes(), w as int),
    ensures
        wrapped(t.spec_bytes(), w as int) == Some(seq![t.spec_bytes()]),
        split_offset(t.spec_bytes(), w as int) == t.spec_bytes().len(),
        hard_split_offset(t.spec_bytes(), w as int) == t.spec_bytes().len(),
{
    encode_utf8_valid_utf8(t@);
    lemma_split_exists(t.spec_bytes(), w as int);
}

/// When a word boundary fits within the budget, the cut falls on a word
/// boundary, the rightmost one that fits.
pub proof fn word_cut_preference_law(t: &str, w: i32)
    requires
        !fits(t.spec_bytes(), w as int),
        has_word_cut(t.spec_bytes(), w as int),
    ensures
        is_word_break(t.spec_bytes(), split_offset(t.spec_bytes(), w as int)),
        head_fits(t.spec_bytes(), split_offset(t.spec_bytes(), w as int), w as int),
        forall|i: int| #[trigger]
            is_word_cut(t.spec_bytes(), w as int, i) ==> i <= split_offset(
                t.spec_bytes(),
                w as int,
            ),
{
    encode_utf8_valid_utf8(t@);
    lemma_split_exists(t.spec_bytes(), w as int);
}

/// When no word boundary fits within the budget, the cut is the hard cut: its
/// head is the longest one on character boundaries whose every non-empty head
/// on character boundaries fits, and one more character would not fit.
pub proof fn hard_cut_fallback_law(t: &str, w: i32)
    requires
        !fits(t.spec_bytes(), w as int),
        !has_word_cut(t.spec_bytes(), w as int),
    ensures
        split_offset(t.spec_bytes(), w as int) == hard_split_offset(t.spec_bytes(), w as int),
        is_char_boundary(t.spec_bytes(), split_offset(t.spec_bytes(), w as int)),
        forall|j: int|
            0 < j <= split_offset(t.spec_bytes(), w as int) && is_char_boundary(t.spec_bytes(), j)
                ==> #[trigger] head_fits(t.spec_bytes(), j, w as int),
        !head_fits(
            t.spec_bytes(),
            next_boundary(t.spec_bytes(), split_offset(t.spec_bytes(), w as int)),
            w as int,
        ),
{
    encode_utf8_valid_utf8(t@);
    lemma_split_exists(t.spec_bytes(), w as int);
    crate::model::lemma_hard_cut_unique(
        t.spec_bytes(),
        w as int,
        split_offset(t.spec_bytes(), w as int),
        hard_split_offset(t.spec_bytes(), w as int),
    );
}

} // verus!
