//! Tests of the string helpers, of literals and of markers.

use analyzer_core::fixture::extract;
use analyzer_core::infer::parse_int_literal;
use analyzer_core::text::{
    collapse_ws, decimal_text, join_texts, slice_text, strip_prefix, trim, trim_end,
    trim_end_char, trim_start, trim_start_char,
};

#[test]
fn white_space_is_trimmed_and_collapsed() {
    let s = " \t a \u{a0}\u{2003} b\n\nc  ";
    assert_eq!(trim(s), "a \u{a0}\u{2003} b\n\nc");
    assert_eq!(trim_start(s), s.trim_start());
    assert_eq!(trim_end(s), s.trim_end());
    assert_eq!(collapse_ws(s), "a b c");
    assert_eq!(collapse_ws("  "), "");
    assert_eq!(trim("ab"), "ab");
}

#[test]
fn white_space_is_what_unicode_says() {
    let listed = |u: u32| {
        matches!(
            u,
            0x9..=0xd
                | 0x20
                | 0x85
                | 0xa0
                | 0x1680
                | 0x2000..=0x200a
                | 0x2028
                | 0x2029
                | 0x202f
                | 0x205f
                | 0x3000
        )
    };
    for u in 0..=0x10ffff {
        if let Some(c) = char::from_u32(u) {
            assert_eq!(trim(&c.to_string()).is_empty(), listed(u), "{u:x}");
        }
    }
}

#[test]
fn single_characters_are_trimmed() {
    assert_eq!(trim_end_char("a;;", ';'), "a");
    assert_eq!(trim_end_char(";a", ';'), ";a");
    assert_eq!(trim_start_char("///x/", '/'), "x/");
    assert_eq!(trim_start_char("//", '/'), "");
}

#[test]
fn numbers_are_written_and_read_in_decimal() {
    for n in [0u128, 7, 10, 99, 1_000, u128::MAX] {
        assert_eq!(decimal_text(n), n.to_string());
        assert_eq!(parse_int_literal(&decimal_text(n)), Some(n));
        assert_eq!(parse_int_literal(&format!("0x{n:x}")), Some(n));
        assert_eq!(parse_int_literal(&format!("0X{n:x}")), Some(n));
    }
}

#[test]
fn literals_are_decimal_or_hexadecimal() {
    assert_eq!(parse_int_literal(" 12 "), Some(12));
    assert_eq!(parse_int_literal("0xFf"), Some(255));
    assert_eq!(parse_int_literal("0X10"), Some(16));
    assert_eq!(parse_int_literal("340282366920938463463374607431768211456"), None);
    for bad in ["", "+", "+5", "0x", "0x+5", "n", "1_0", "-1", "0xg", "12a"] {
        assert_eq!(parse_int_literal(bad), None, "{bad}");
    }
}

#[test]
fn strings_are_joined_sliced_and_stripped() {
    let parts = vec!["a".to_string(), "".to_string(), "b".to_string()];
    assert_eq!(join_texts(&parts, ", "), "a, , b");
    assert_eq!(join_texts(&Vec::new(), ", "), "");
    assert_eq!(slice_text(&"h\u{e9}llo".chars().collect(), 1, 3), "\u{e9}l");
    assert_eq!(strip_prefix("In_x", "In_").as_deref(), Some("x"));
    assert_eq!(strip_prefix("x", "In_"), None);
}

#[test]
fn a_marker_is_taken_out_at_its_byte_offset() {
    assert_eq!(extract("a$0b$0"), ("ab$0".to_string(), 1));
    assert_eq!(extract("\u{e9}$0"), ("\u{e9}".to_string(), 2));
    assert_eq!(extract("$$0"), ("$".to_string(), 1));
}
