//! The two Unicode services this library consumes: display width and word
//! boundaries. Both are named results of the text's UTF-8 bytes.
use vstd::prelude::*;
use vstd::string::StringSliceAdditionalSpecFns;

verus! {

/// The number of terminal columns the UTF-8 text `b` occupies.
pub uninterp spec fn display_width(b: Seq<u8>) -> nat;

/// The byte offsets at which the UTF-8 text `b` starts a word-bound segment
/// (the start of the text and each boundary between two segments).
pub uninterp spec fn word_bounds(b: Seq<u8>) -> Seq<usize>;

/// Relies on `unicode_width::UnicodeWidthStr::width`: the displayed width of a
/// string in columns, which depends on the string alone.
#[verifier::external_body]
pub(crate) fn str_display_width(s: &str) -> (r: usize)
    ensures
        r as nat == display_width(s.spec_bytes()),
{
    unicode_width::UnicodeWidthStr::width(s)
}

/// Relies on `unicode_segmentation::UnicodeSegmentation::split_word_bound_indices`:
/// the start offsets of the UAX #29 word-bound segments of a string, which
/// depend on the string alone.
#[verifier::external_body]
pub(crate) fn str_word_bounds(s: &str) -> (r: Vec<usize>)
    ensures
        r@ == word_bounds(s.spec_bytes()),
{
    unicode_segmentation::UnicodeSegmentation::split_word_bound_indices(s).map(|(i, _)| i).collect()
}

} // verus!
