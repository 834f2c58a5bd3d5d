//! Display-width-aware wrapping of Unicode text into fixed-width columns.
//!
//! Widths and word boundaries come from the Unicode tables of the
//! `unicode-width` and `unicode-segmentation` crates; the cutting and wrapping
//! built on them is verified against the model in [`model`].
use vstd::prelude::*;
use vstd::string::StringSliceAdditionalSpecFns;
use vstd::utf8::{
    encode_utf8_valid_utf8, is_char_boundary, is_char_boundary_start_end_of_seq, valid_utf8,
};

pub mod laws;
pub mod model;
pub mod text;
pub mod unicode;

use model::{
    fits, has_word_cut, head_fits, is_hard_cut, is_hard_split, is_split, is_word_cut,
    lemma_hard_split_offset, lemma_split_offset, next_boundary,
    hard_split_offset, split_offset, wrapped,
};
use text::{break_table, byte_len, fits_within, head_fits_within, next_char_boundary};
use unicode::{display_width, str_display_width, str_word_bounds};

verus! {

/// Why a text could not be wrapped.
#[derive(Clone, Copy, Debug, PartialEq, Eq, Structural)]
pub enum WrapError {
    /// The column budget is zero or negative.
    InvalidWidth,
    /// A single character is wider than the column budget, so no line can be cut.
    WidthTooSmall,
}

/// The UTF-8 bytes of each line.
pub open spec fn lines_bytes(lines: Seq<&str>) -> Seq<Seq<u8>> {
    lines.map_values(|l: &str| l.spec_bytes())
}

/// Measuring, cutting and wrapping text by display width.
pub trait UnicodeStr {
    /// The number of terminal columns the text occupies.
    fn width(&self) -> i32;

    /// The text as lines of at most `width` columns, cut preferably at word
    /// boundaries; their concatenation is the text. Fails on a budget below
    /// one column, and when a character is wider than the budget.
    fn wrap_to_width(&self, width: i32) -> Result<Vec<&str>, WrapError>;

    /// Splits the text into a head of at most `width` columns that ends at the
    /// rightmost suitable word boundary, and the rest; falls back to
    /// `cut_to_width_hard` when no word boundary fits.
    fn cut_to_width(&self, width: i32) -> (&str, &str);

    /// Splits the text into its longest head on character boundaries of at
    /// most `width` columns, and the rest.
    fn cut_to_width_hard(&self, width: i32) -> (&str, &str);
}

impl UnicodeStr for str {
    /// Saturates at `i32::MAX`.
    fn width(&self) -> (r: i32)
        ensures
            r as int == if display_width(self.spec_bytes()) <= i32::MAX {
                display_width(self.spec_bytes()) as int
            } else {
                i32::MAX as int
            },
    {
        let w = str_display_width(self);
        if w <= i32::MAX as usize {
            w as i32
        } else {
            i32::MAX
        }
    }

    fn wrap_to_width(&self, width: i32) -> (r: Result<Vec<&str>, WrapError>)
        ensures
            width <= 0 ==> r == Err::<Vec<&str>, WrapError>(WrapError::InvalidWidth),
            width > 0 ==> match wrapped(self.spec_bytes(), width as int) {
                Some(lines) => r is Ok && lines_bytes(r->Ok_0@) == lines,
                None => r == Err::<Vec<&str>, WrapError>(WrapError::WidthTooSmall),
            },
    {
        if width <= 0 {
            return Err(WrapError::InvalidWidth);
        }
        let ghost b = self.spec_bytes();
        let ghost w = width as int;
        let mut result: Vec<&str> = Vec::new();
        let mut cur: &str = self;
        loop
            invariant
                b == self.spec_bytes(),
                w == width as int,
                width > 0,
                wrapped(b, w) == match wrapped(cur.spec_bytes(), w) {
                    Some(rest) => Some(lines_bytes(result@) + rest),
                    None => None::<Seq<Seq<u8>>>,
                },
            decreases cur.spec_bytes().len(),
        {
            let ghost cb = cur.spec_bytes();
            if fits_within(cur, width) {
                proof {
                    assert(lines_bytes(result@.push(cur)) == lines_bytes(result@) + seq![cb]);
                }
                result.push(cur);
                return Ok(result);
            }
            let (line, rest) = cur.cut_to_width(width);
            proof {
                encode_utf8_valid_utf8(cur@);
                lemma_split_offset(cb, w, line.spec_bytes().len() as int);
            }
            if byte_len(line) == 0 {
                return Err(WrapError::WidthTooSmall);
            }
            proof {
                let k = line.spec_bytes().len() as int;
                let head = cb.subrange(0, k);
                assert(lines_bytes(result@.push(line)) == lines_bytes(result@) + seq![head]);
                match wrapped(rest.spec_bytes(), w) {
                    Some(tail) => {
                        let done = lines_bytes(result@);
                        assert(done + (seq![head] + tail) == (done + seq![head]) + tail);
                    },
                    None => {},
                }
            }
            result.push(line);
            cur = rest;
        }
    }

    fn cut_to_width(&self, width: i32) -> (r: (&str, &str))
        ensures
            is_split(self.spec_bytes(), width as int, r.0.spec_bytes().len() as int),
            r.0.spec_bytes() == self.spec_bytes().subrange(
                0,
                split_offset(self.spec_bytes(), width as int),
            ),
            r.1.spec_bytes() == self.spec_bytes().subrange(
                split_offset(self.spec_bytes(), width as int),
                self.spec_bytes().len() as int,
            ),
    {
        let ghost b = self.spec_bytes();
        let ghost w = width as int;
        proof {
            encode_utf8_valid_utf8(self@);
            is_char_boundary_start_end_of_seq(b);
        }
        let n = byte_len(self);
        if fits_within(self, width) {
            let r = self.split_at(n);
            proof {
                assert(b.subrange(0, n as int) == b);
                lemma_split_offset(b, w, n as int);
            }
            return r;
        }
        let bounds = str_word_bounds(self);
        let marks = break_table(n, &bounds);
        // Offsets 0 and 1 are never picked, so that a line never holds only its
        // first character or a single leading space.
        let mut i: usize = n;
        while i > 2
            invariant
                b == self.spec_bytes(),
                w == width as int,
                n == b.len(),
                valid_utf8(b),
                !fits(b, w),
                i <= n,
                marks@.len() == n,
                forall|m: int| 0 <= m < n ==> marks@[m] == bounds@.contains(m as usize),
                bounds@ == crate::unicode::word_bounds(b),
                forall|j: int| i <= j < n ==> !is_word_cut(b, w, j),
            decreases i,
        {
            i = i - 1;
            if marks[i] && self.is_char_boundary(i) && head_fits_within(self, i, width) {
                let r = self.split_at(i);
                proof {
                    assert(is_word_cut(b, w, i as int));
                    lemma_split_offset(b, w, i as int);
                }
                return r;
            }
        }
        let r = self.cut_to_width_hard(width);
        proof {
            assert(!has_word_cut(b, w));
            lemma_split_offset(b, w, r.0.spec_bytes().len() as int);
        }
        r
    }

    fn cut_to_width_hard(&self, width: i32) -> (r: (&str, &str))
        ensures
            is_hard_split(self.spec_bytes(), width as int, r.0.spec_bytes().len() as int),
            r.0.spec_bytes() == self.spec_bytes().subrange(
                0,
                hard_split_offset(self.spec_bytes(), width as int),
            ),
            r.1.spec_bytes() == self.spec_bytes().subrange(
                hard_split_offset(self.spec_bytes(), width as int),
                self.spec_bytes().len() as int,
            ),
    {
        let ghost b = self.spec_bytes();
        let ghost w = width as int;
        proof {
            encode_utf8_valid_utf8(self@);
            is_char_boundary_start_end_of_seq(b);
        }
        let n = byte_len(self);
        if fits_within(self, width) {
            let r = self.split_at(n);
            proof {
                assert(b.subrange(0, n as int) == b);
                lemma_hard_split_offset(b, w, n as int);
            }
            return r;
        }
        let mut current: usize = 0;
        loop
            invariant
                b == self.spec_bytes(),
                w == width as int,
                n == b.len(),
                valid_utf8(b),
                !fits(b, w),
                is_char_boundary(b, n as int),
                current <= n,
                is_char_boundary(b, current as int),
                forall|j: int|
                    0 < j <= current && is_char_boundary(b, j) ==> #[trigger] head_fits(b, j, w),
            ensures
                is_hard_cut(b, w, current as int),
            decreases n - current,
        {
            if current == n {
                proof {
                    assert(b.subrange(0, n as int) == b);
                    assert(next_boundary(b, n as int) == n);
                }
                break;
            }
            let next = next_char_boundary(self, current);
            if !head_fits_within(self, next, width) {
                break;
            }
            current = next;
        }
        proof {
            lemma_hard_split_offset(b, w, current as int);
        }
        self.split_at(current)
    }
}

} // verus!
