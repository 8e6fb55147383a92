use marmita::text::{
    chars_of, decimal_len, find_in, is_whitespace, push_decimal, push_zero_padded, range_has_ws,
    skip_ws, skip_ws_back, str_is, string_of,
};

#[test]
fn whitespace_is_unicode_white_space() {
    for c in ['\t', '\n', '\u{0B}', '\u{0C}', '\r', ' ', '\u{85}', '\u{A0}', '\u{1680}', '\u{2000}', '\u{200A}', '\u{2028}', '\u{2029}', '\u{202F}', '\u{205F}', '\u{3000}'] {
        assert!(is_whitespace(c));
    }
    for c in ['a', '0', '\u{200B}', '\u{FEFF}', '\u{1F}'] {
        assert!(!is_whitespace(c));
    }
    for u in 0u32..0x3100 {
        if let Some(c) = char::from_u32(u) {
            assert_eq!(is_whitespace(c), c.is_whitespace());
        }
    }
}

#[test]
fn trimming_indices() {
    let cs = chars_of("  ab c \t");
    let lo = skip_ws(&cs, 0, cs.len());
    let hi = skip_ws_back(&cs, lo, cs.len());
    assert_eq!(string_of(&cs, lo, hi), "ab c");
    assert!(range_has_ws(&cs, lo, hi));
    assert!(!range_has_ws(&cs, lo, lo + 2));
}

#[test]
fn finding_characters() {
    let cs = chars_of("key: value: more");
    assert_eq!(find_in(&cs, 0, cs.len(), ':'), 3);
    assert_eq!(find_in(&cs, 4, cs.len(), ':'), 10);
    assert_eq!(find_in(&cs, 0, 3, ':'), 3);
}

#[test]
fn comparing_words() {
    assert!(str_is("origin", "origin"));
    assert!(!str_is("origin ", "origin"));
    assert!(!str_is("", "x"));
    assert!(str_is("", ""));
}

#[test]
fn decimal_numbers() {
    let mut s = String::from("n=");
    push_decimal(&mut s, 0);
    assert_eq!(s, "n=0");
    let mut s = String::new();
    push_decimal(&mut s, u64::MAX);
    assert_eq!(s, u64::MAX.to_string());
    assert_eq!(decimal_len(u64::MAX), 20);
    assert_eq!(decimal_len(9), 1);
    assert_eq!(decimal_len(10), 2);
    let mut s = String::new();
    push_zero_padded(&mut s, 7, 3);
    push_zero_padded(&mut s, 12345, 2);
    assert_eq!(s, "00712345");
}
