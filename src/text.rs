//! Executable building blocks over string slices: measuring a head, stepping
//! over one character, and the table of permitted word breaks.
use vstd::prelude::*;
use vstd::string::StringSliceAdditionalSpecFns;
use vstd::utf8::{
    encode_utf8_valid_utf8, is_char_boundary, is_char_boundary_start_end_of_seq, valid_utf8,
};
use crate::model::{boundary_from, fits, head_fits, lemma_boundary_from, next_boundary};
use crate::unicode::str_display_width;

verus! {

/// The number of bytes of `s`.
pub(crate) fn byte_len(s: &str) -> (n: usize)
    ensures
        n == s.spec_bytes().len(),
{
    s.as_bytes().len()
}

/// Whether `s` occupies at most `width` columns.
pub(crate) fn fits_within(s: &str, width: i32) -> (r: bool)
    ensures
        r == fits(s.spec_bytes(), width as int),
{
    let w = str_display_width(s);
    width >= 0 && w <= width as usize
}

/// Whether the first `i` bytes of `s` occupy at most `width` columns.
pub(crate) fn head_fits_within(s: &str, i: usize, width: i32) -> (r: bool)
    requires
        is_char_boundary(s.spec_bytes(), i as int),
    ensures
        r == head_fits(s.spec_bytes(), i as int, width as int),
{
    let (head, _) = s.split_at(i);
    proof {
        assert(head.spec_bytes() == s.spec_bytes().subrange(0, i as int));
    }
    fits_within(head, width)
}

/// The byte offset where the character that starts at offset `i` of `s` ends.
pub(crate) fn next_char_boundary(s: &str, i: usize) -> (r: usize)
    requires
        i < s.spec_bytes().len(),
    ensures
        r == next_boundary(s.spec_bytes(), i as int),
        i < r <= s.spec_bytes().len(),
        is_char_boundary(s.spec_bytes(), r as int),
        forall|m: int| i < m < r ==> !is_char_boundary(s.spec_bytes(), m),
{
    let ghost b = s.spec_bytes();
    proof {
        encode_utf8_valid_utf8(s@);
        is_char_boundary_start_end_of_seq(b);
        lemma_boundary_from(b, i + 1);
    }
    let n = byte_len(s);
    let mut j: usize = i + 1;
    while !s.is_char_boundary(j)
        invariant
            b == s.spec_bytes(),
            n == b.len(),
            valid_utf8(b),
            is_char_boundary(b, n as int),
            i < j <= n,
            boundary_from(b, i + 1) == boundary_from(b, j as int),
            forall|m: int| i < m < j ==> !is_char_boundary(b, m),
        decreases n - j,
    {
        j = j + 1;
    }
    j
}

/// One entry per byte offset of a text of `n` bytes: whether `bounds` holds
/// that offset.
pub fn break_table(n: usize, bounds: &Vec<usize>) -> (marks: Vec<bool>)
    ensures
        marks@.len() == n,
        forall|i: int| 0 <= i < n ==> marks@[i] == bounds@.contains(i as usize),
{
    let mut marks: Vec<bool> = Vec::new();
    let mut i: usize = 0;
    while i < n
        invariant
            i <= n,
            marks@.len() == i,
            forall|m: int| 0 <= m < i ==> !marks@[m],
        decreases n - i,
    {
        marks.push(false);
        i = i + 1;
    }
    let mut k: usize = 0;
    while k < bounds.len()
        invariant
            k <= bounds@.len(),
            marks@.len() == n,
            forall|m: int|
                0 <= m < n ==> marks@[m] == bounds@.subrange(0, k as int).contains(m as usize),
        decreases bounds@.len() - k,
    {
        let off = bounds[k];
        if off < n {
            marks.set(off, true);
        }
        proof {
            let before = bounds@.subrange(0, k as int);
            let after = bounds@.subrange(0, k + 1);
            assert(after == before.push(off));
            assert forall|m: int| 0 <= m < n implies marks@[m] == after.contains(m as usize) by {
                if m == off as int {
                    assert(after[k as int] == off);
                } else if before.contains(m as usize) {
                    let x = choose|x: int| 0 <= x < before.len() && before[x] == m as usize;
                    assert(after[x] == m as usize);
                } else {
                    assert forall|x: int| 0 <= x < after.len() implies after[x] != m as usize by {
                        if x < k {
                            assert(after[x] == before[x]);
                        }
                    }
                }
            }
        }
        k = k + 1;
    }
    proof {
        assert(bounds@.subrange(0, bounds@.len() as int) == bounds@);
    }
    marks
}

} // verus!
