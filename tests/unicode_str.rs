use unicode_str::text::break_table;
use unicode_str::{UnicodeStr, WrapError};

#[test]
fn width() {
    let s1 = "Hello";
    assert_eq!(s1.width(), 5);
}

#[test]
fn cut_to_width_hard() {
    let s1 = "Hello";
    let (a, b) = s1.cut_to_width_hard(3);
    assert_eq!(a, "Hel");
    assert_eq!(b, "lo");
}

#[test]
fn cut_to_width() {
    let s1 = "Hello World";
    let (a, b) = s1.cut_to_width(3);
    assert_eq!(a, "Hel");
    assert_eq!(b, "lo World");

    let (a, b) = s1.cut_to_width(10);
    assert_eq!(a, "Hello ");
    assert_eq!(b, "World");
}

#[test]
fn wrap_to_width() {
    let s1 = "Hello There, World";
    let result = s1.wrap_to_width(3);
    assert_eq!(result, Ok(vec!["Hel", "lo ", "The", "re,", " Wo", "rld"]));

    let result = s1.wrap_to_width(10);
    assert_eq!(result, Ok(vec!["Hello ", "There, ", "World"]));
}

#[test]
fn width_of_empty_text_is_zero() {
    assert_eq!("".width(), 0);
}

#[test]
fn width_counts_wide_characters_twice() {
    assert_eq!("日本語".width(), 6);
    assert_eq!("a日b".width(), 4);
}

#[test]
fn width_ignores_combining_marks() {
    assert_eq!("e\u{301}e\u{301}".width(), 2);
}

#[test]
fn hard_cut_keeps_wide_characters_whole() {
    let (a, b) = "日本語".cut_to_width_hard(3);
    assert_eq!(a, "日");
    assert_eq!(b, "本語");
}

#[test]
fn hard_cut_keeps_combining_marks_with_their_base() {
    let (a, b) = "e\u{301}e\u{301}e\u{301}".cut_to_width_hard(2);
    assert_eq!(a, "e\u{301}e\u{301}");
    assert_eq!(b, "e\u{301}");
}

#[test]
fn hard_cut_of_too_wide_character_is_empty() {
    let (a, b) = "日本".cut_to_width_hard(1);
    assert_eq!(a, "");
    assert_eq!(b, "日本");
}

#[test]
fn hard_cut_with_negative_budget_is_empty() {
    let (a, b) = "ab".cut_to_width_hard(-1);
    assert_eq!(a, "");
    assert_eq!(b, "ab");
}

#[test]
fn cuts_of_fitting_text_leave_it_whole() {
    assert_eq!("Hello".cut_to_width(5), ("Hello", ""));
    assert_eq!("Hello".cut_to_width_hard(5), ("Hello", ""));
    assert_eq!("".cut_to_width(0), ("", ""));
    assert_eq!("Hello".wrap_to_width(5), Ok(vec!["Hello"]));
    assert_eq!("Hello".wrap_to_width(80), Ok(vec!["Hello"]));
}

#[test]
fn word_cut_takes_rightmost_fitting_boundary() {
    let (a, b) = "one two three".cut_to_width(9);
    assert_eq!(a, "one two ");
    assert_eq!(b, "three");
}

#[test]
fn word_cut_never_picks_offset_one() {
    // The only boundary that fits is after the leading space, at offset 1.
    let (a, b) = " abcdef".cut_to_width(3);
    assert_eq!(a, " ab");
    assert_eq!(b, "cdef");
}

#[test]
fn unbroken_token_falls_back_to_hard_cut() {
    let s = "abcdefgh";
    assert_eq!(s.cut_to_width(5), s.cut_to_width_hard(5));
    assert_eq!(s.cut_to_width(5), ("abcde", "fgh"));
}

#[test]
fn word_cut_with_wide_characters() {
    let (a, b) = "日本 語です".cut_to_width(6);
    assert_eq!(a, "日本 ");
    assert_eq!(b, "語です");
}

#[test]
fn wrapped_lines_concatenate_to_the_text() {
    let s = "The quick (\"brown\")  fox jumps over the lazy dog";
    for w in 1..20 {
        let lines = s.wrap_to_width(w).unwrap();
        assert_eq!(lines.concat(), s);
        for l in &lines {
            assert!(l.width() <= w);
        }
    }
}

#[test]
fn wrap_rejects_non_positive_budget() {
    assert_eq!("Hello".wrap_to_width(0), Err(WrapError::InvalidWidth));
    assert_eq!("Hello".wrap_to_width(-3), Err(WrapError::InvalidWidth));
    assert_eq!("".wrap_to_width(0), Err(WrapError::InvalidWidth));
}

#[test]
fn wrap_reports_character_wider_than_budget() {
    assert_eq!("日本".wrap_to_width(1), Err(WrapError::WidthTooSmall));
    assert_eq!("ab日".wrap_to_width(1), Err(WrapError::WidthTooSmall));
}

#[test]
fn wrap_of_empty_text_is_one_empty_line() {
    assert_eq!("".wrap_to_width(3), Ok(vec![""]));
}

#[test]
fn wrap_with_wide_characters() {
    assert_eq!("日本語".wrap_to_width(4), Ok(vec!["日本", "語"]));
}

#[test]
fn break_table_marks_listed_offsets() {
    let marks = break_table(6, &vec![0, 2, 5, 9]);
    assert_eq!(marks, vec![true, false, true, false, false, true]);
    assert_eq!(break_table(0, &vec![0]), Vec::<bool>::new());
}
