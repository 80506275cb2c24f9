use ignition::text::{chars_of, has_prefix, is_whitespace_char, lowercase_ascii, string_of, to_ascii_lower, trim_chars};

fn trimmed(s: &str) -> String {
    string_of(&trim_chars(&chars_of(s)))
}

#[test]
fn trimming_like_str_trim() {
    for s in ["", "  ", " a b ", "\u{2003}x\u{85}", "\u{200B}y", "é  "] {
        assert_eq!(trimmed(s), s.trim());
    }
    assert_eq!(trimmed(&trimmed(" \t q \n")), "q");
}

#[test]
fn whitespace_like_char_is_whitespace() {
    for c in ['\t', '\n', '\u{b}', '\u{c}', '\r', ' ', '\u{85}', '\u{a0}', '\u{1680}', '\u{2000}', '\u{200a}', '\u{2028}', '\u{2029}', '\u{202f}', '\u{205f}', '\u{3000}', 'a', '\u{200b}', '\u{180e}', '\u{feff}'] {
        assert_eq!(is_whitespace_char(c), c.is_whitespace(), "{c:?}");
    }
}

#[test]
fn ascii_lowercase() {
    assert_eq!(to_ascii_lower('Q'), 'q');
    assert_eq!(to_ascii_lower('É'), 'É');
    assert_eq!(string_of(&lowercase_ascii(&chars_of("AbC-É"))), "abc-É");
    assert!(has_prefix(&chars_of("https://x"), &chars_of("https://")));
    assert!(!has_prefix(&chars_of("http"), &chars_of("https")));
}
