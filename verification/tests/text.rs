use emacs_i3::text::{is_white_space_char, split_words, str_eq, trimmed_len};

#[test]
fn white_space_matches_std_for_every_char() {
    for code in 0u32..=0x10ffff {
        if let Some(c) = char::from_u32(code) {
            assert_eq!(is_white_space_char(c), c.is_whitespace(), "{:?}", c);
        }
    }
}

#[test]
fn words_match_split_whitespace() {
    for s in ["", "  ", "a", " a  b\tc\n", "focus\u{00a0}left", "x\u{3000}y ", "\u{2028}z"] {
        let expected: Vec<String> = s.split_whitespace().map(|w| w.to_owned()).collect();
        assert_eq!(split_words(s), expected);
    }
}

#[test]
fn trimming_matches_trim_end() {
    for s in ["", "nil\n", "nil \t\r\n", " x ", "\u{2029}"] {
        assert_eq!(trimmed_len(s), s.trim_end().chars().count());
    }
}

#[test]
fn string_equality() {
    assert!(str_eq("abc", "abc"));
    assert!(!str_eq("abc", "abd"));
    assert!(!str_eq("ab", "abc"));
}
