//! Tests of line and column positions.

use analyzer_core::line_index::{LineCol, LineIndex};

#[test]
fn ascii_single_line() {
    let li = LineIndex::new("ledger count Field;");
    assert_eq!(li.line_col(0), LineCol { line: 0, col: 0 });
    assert_eq!(li.line_col(12), LineCol { line: 0, col: 12 });
    assert_eq!(li.offset(LineCol { line: 0, col: 12 }), Some(12));
}

#[test]
fn multiline_lf() {
    let li = LineIndex::new("abc\ndef\nghi");
    assert_eq!(li.line_col(4), LineCol { line: 1, col: 0 });
    assert_eq!(li.line_col(7), LineCol { line: 1, col: 3 });
    assert_eq!(li.line_col(8), LineCol { line: 2, col: 0 });
    assert_eq!(li.offset(LineCol { line: 2, col: 1 }), Some(9));
}

#[test]
fn crlf_line_endings() {
    let li = LineIndex::new("abc\r\ndef");
    assert_eq!(li.line_col(5), LineCol { line: 1, col: 0 });
    assert_eq!(li.offset(LineCol { line: 1, col: 0 }), Some(5));
}

#[test]
fn emoji_is_two_utf16_units() {
    let li = LineIndex::new("/* \u{1F600} */ ledger count Field;");
    assert_eq!(li.line_col(23), LineCol { line: 0, col: 21 });
    assert_eq!(li.offset(LineCol { line: 0, col: 21 }), Some(23));
}

#[test]
fn out_of_range_clamps() {
    let li = LineIndex::new("abc");
    assert_eq!(li.line_col(99), LineCol { line: 0, col: 3 });
    let li = LineIndex::new("ab\ncd");
    assert_eq!(li.offset(LineCol { line: 0, col: 99 }), Some(2));
    assert_eq!(li.offset(LineCol { line: 9, col: 0 }), None);
}

#[test]
fn every_boundary_leads_back_to_itself() {
    let text = "a\u{1F600}\r\n\u{e9}x\n\n";
    let li = LineIndex::new(text);
    for (i, c) in text.char_indices() {
        // Between the two characters of a line end there is no position.
        if c == '\n' && text[..i].ends_with('\r') {
            assert_eq!(li.offset(li.line_col(i as u32)), Some(i as u32 - 1));
        } else {
            assert_eq!(li.offset(li.line_col(i as u32)), Some(i as u32));
        }
    }
    let end = text.len() as u32;
    assert_eq!(li.line_col(end), LineCol { line: 3, col: 0 });
    assert_eq!(li.offset(LineCol { line: 3, col: 0 }), Some(end));
    assert_eq!(li.offset(LineCol { line: 4, col: 0 }), None);
}

#[test]
fn a_column_past_a_line_with_crlf_clamps_before_it() {
    let li = LineIndex::new("abc\r\ndef");
    assert_eq!(li.offset(LineCol { line: 0, col: 3 }), Some(3));
    assert_eq!(li.offset(LineCol { line: 0, col: 4 }), Some(3));
    assert_eq!(li.offset(LineCol { line: 0, col: 99 }), Some(3));
    assert_eq!(li.offset(LineCol { line: 1, col: 99 }), Some(8));
}
