//! The small helpers on characters and numbers.

use xmlcarve::number::{parse_unsigned, push_decimal, push_signed};
use xmlcarve::text;

#[test]
fn white_space_is_what_unicode_says() {
    for c in (0..=0x10ffff_u32).filter_map(char::from_u32) {
        assert_eq!(text::is_whitespace(c), c.is_whitespace(), "{:?}", c);
    }
}

#[test]
fn trimming_agrees_with_std() {
    for s in ["", " ", "a", " a b ", "\u{3000}x\u{85}", "\n\t \n"] {
        let chars: Vec<char> = s.chars().collect();
        assert_eq!(text::string_of(text::trimmed(&chars)), s.trim());
        assert_eq!(text::string_of(text::trimmed_start(&chars)), s.trim_start());
    }
}

#[test]
fn numbers_are_read_like_std_does() {
    for s in [
        "", "0", "+", "+7", "-7", "007", "18446744073709551615", "18446744073709551616", "1_0",
        " 1", "٣",
    ] {
        let chars: Vec<char> = s.chars().collect();
        assert_eq!(parse_unsigned(&chars, 10, u64::MAX), s.parse().ok(), "{s:?}");
        assert_eq!(
            parse_unsigned(&chars, 16, u64::from(u32::MAX)),
            u32::from_str_radix(s, 16).ok().map(u64::from),
            "{s:?}"
        );
    }
}

#[test]
fn numbers_are_written_like_std_does() {
    for n in [0, 7, 10, 99, 100, 1234567890, u64::MAX] {
        let mut s = String::from("n=");
        push_decimal(&mut s, n);
        assert_eq!(s, format!("n={n}"));
    }
    for n in [0, -1, 1, i64::MIN, i64::MAX] {
        let mut s = String::new();
        push_signed(&mut s, n);
        assert_eq!(s, n.to_string());
    }
}
