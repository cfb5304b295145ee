use while_lang::text::{format_decimal, parse_decimal, text_eq};

#[test]
fn equal_texts_are_equal() {
    assert!(text_eq("", ""));
    assert!(text_eq("while", "while"));
    assert!(text_eq("\u{e9}t\u{e9}", "\u{e9}t\u{e9}"));
}

#[test]
fn different_texts_are_different() {
    assert!(!text_eq("while", "whild"));
    assert!(!text_eq("if", "iff"));
    assert!(!text_eq("", "a"));
    assert!(!text_eq("e", "\u{e9}"));
}

#[test]
fn numerals_are_read() {
    assert_eq!(parse_decimal("0"), 0);
    assert_eq!(parse_decimal("7"), 7);
    assert_eq!(parse_decimal("007"), 7);
    assert_eq!(parse_decimal("1234567890"), 1234567890);
    assert_eq!(parse_decimal("4294967295"), 4294967295);
}

#[test]
fn numbers_are_written() {
    assert_eq!(format_decimal(0), "0");
    assert_eq!(format_decimal(9), "9");
    assert_eq!(format_decimal(10), "10");
    assert_eq!(format_decimal(4294967295), "4294967295");
    assert_eq!(format_decimal(18446744073709551615), "18446744073709551615");
}

#[test]
fn a_written_number_reads_back() {
    for n in [0u32, 1, 9, 10, 99, 100, 65535, 4294967295] {
        assert_eq!(parse_decimal(&format_decimal(n as u64)), n);
    }
}
