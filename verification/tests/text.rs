//! Strings: order, white space, splitting and decimal numbers.

use rkv::text::{
    char_list, compare_keys, compare_numbers, decimal_text, is_blank, split_on, trim, Side,
};

#[test]
fn keys_compare_by_bytes() {
    for (a, b) in [
        ("", "a"),
        ("a", "b"),
        ("a", "aa"),
        ("Z", "a"),
        ("z", "\u{e9}"),
        ("\u{e9}", "\u{20ac}"),
        ("\u{ffff}", "\u{10000}"),
    ] {
        assert!(a < b);
        assert_eq!(compare_keys(a, b), Side::Before);
        assert_eq!(compare_keys(b, a), Side::After);
        assert_eq!(compare_keys(a, a), Side::Same);
    }
}

#[test]
fn white_space_is_blank_and_trimmed() {
    assert!(is_blank(""));
    assert!(is_blank(" \t\r\n\u{a0}\u{3000}"));
    assert!(!is_blank(" x "));
    for s in ["", "  ", " a b ", "\u{3000}x\u{a0}", "x", "\u{200b}x"] {
        assert_eq!(trim(s), s.trim());
        assert_eq!(is_blank(s), s.trim().is_empty());
    }
}

#[test]
fn white_space_is_these_characters() {
    let listed = [
        0x9, 0xa, 0xb, 0xc, 0xd, 0x20, 0x85, 0xa0, 0x1680, 0x2000, 0x2001, 0x2002, 0x2003, 0x2004,
        0x2005, 0x2006, 0x2007, 0x2008, 0x2009, 0x200a, 0x2028, 0x2029, 0x202f, 0x205f, 0x3000,
    ];
    for c in '\0'..=char::MAX {
        let is_listed = listed.contains(&(c as u32));
        assert_eq!(is_blank(&c.to_string()), is_listed);
        assert_eq!(c.is_whitespace(), is_listed);
    }
}

#[test]
fn texts_split_at_each_separator() {
    for s in ["", ",", "a", "a,b", ",a,,b,", "\u{e9},\u{20ac}"] {
        let expected: Vec<String> = s.split(',').map(|p| p.to_string()).collect();
        assert_eq!(split_on(s, ','), expected);
    }
    assert_eq!(char_list("a\u{20ac}b"), ['a', '\u{20ac}', 'b']);
}

#[test]
fn numbers_are_written_in_decimal() {
    for n in [0, 7, 10, 99, 100, 1_700_000_000_000, u64::MAX] {
        assert_eq!(decimal_text(n), n.to_string());
    }
}

#[test]
fn leading_numbers_compare_by_value() {
    for (a, b) in [
        ("0", "1"),
        ("9", "10"),
        ("99.dat", "100.dat"),
        ("4-copy.dat", "5.dat"),
        ("099", "100"),
        ("x9", "1x"),
        ("18446744073709551615", "18446744073709551616"),
        ("99999999999999999999999999", "100000000000000000000000000"),
    ] {
        assert_eq!(compare_numbers(a, b), Side::Before);
        assert_eq!(compare_numbers(b, a), Side::After);
    }
    for (a, b) in [("", "0"), ("", "x"), ("7", "7"), ("007", "7"), ("7a", "7b"), ("\u{661}", "")] {
        assert_eq!(compare_numbers(a, b), Side::Same);
    }
}
