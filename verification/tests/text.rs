use mole::text::{
    decimal_text, is_blank, parse_i32, same_text, signed_text, split_fields, split_lines,
    starts_with, to_chars, to_lower, to_text, trim, trim_end,
};

#[test]
fn whitespace_is_what_the_standard_library_says() {
    for n in 0..=0x10ffffu32 {
        if let Some(c) = char::from_u32(n) {
            assert_eq!(is_blank(c), c.is_whitespace(), "{n:#x}");
        }
    }
}

#[test]
fn trimming_agrees_with_the_standard_library() {
    for s in ["", " ", "a", " a ", "\t\u{a0}a b\u{3000}\n", "a\r\n", "\u{200b}a"] {
        assert_eq!(trim(s), s.trim());
        assert_eq!(trim_end(s), s.trim_end());
    }
}

#[test]
fn lines_and_fields_agree_with_the_standard_library() {
    for s in ["", "\n", "a", "a\n", "a\nb", "a\r\nb\r\n", "a\n\nb", "\r\n", "a\rb\n", "a\r\r\nb"] {
        let lines: Vec<String> = split_lines(&to_chars(s)).iter().map(|v| to_text(v)).collect();
        assert_eq!(lines, s.lines().collect::<Vec<_>>(), "{s:?}");
    }
    for s in ["", "\t", "a", "a\t", "\ta", "a\t\tb", "a b\tc"] {
        let fields: Vec<String> =
            split_fields(&to_chars(s), '\t').iter().map(|v| to_text(v)).collect();
        assert_eq!(fields, s.split('\t').collect::<Vec<_>>(), "{s:?}");
    }
}

#[test]
fn numbers_agree_with_the_standard_library() {
    for s in [
        "", "0", "-0", "+0", "7", "-7", "+7", "007", "2147483647", "2147483648", "-2147483648",
        "-2147483649", "99999999999999999999", "-", "+", "--1", "1 ", " 1", "1.0", "1e3", "\u{661}",
    ] {
        assert_eq!(parse_i32(&to_chars(s)), s.parse::<i32>().ok(), "{s:?}");
    }
    for n in [0, 1, 9, 10, -1, -10, i32::MAX, i32::MIN] {
        assert_eq!(signed_text(n), n.to_string());
    }
    for n in [0, 10, 4294967295, u64::MAX] {
        assert_eq!(decimal_text(n), n.to_string());
    }
}

#[test]
fn only_ascii_letters_are_lowered() {
    for n in 0..0x500u32 {
        if let Some(c) = char::from_u32(n) {
            assert_eq!(to_lower(c), c.to_ascii_lowercase());
        }
    }
}

#[test]
fn prefixes_and_equality() {
    assert!(starts_with("abc", ""));
    assert!(starts_with("abc", "abc"));
    assert!(!starts_with("abc", "abcd"));
    assert!(!starts_with("abc", "b"));
    assert!(same_text("\u{e9}", "\u{e9}"));
    assert!(!same_text("e", "\u{e9}"));
}
