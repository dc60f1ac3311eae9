use doubleclick_dictionary_data::text::{chars_of, compare_text, is_blank, is_whitespace, parse_usize, TextOrder};

#[test]
fn blank_means_only_white_space() {
    assert!(is_blank(""));
    assert!(is_blank(" \t\n\u{a0}\u{3000}"));
    assert!(!is_blank(" a "));
}

#[test]
fn texts_compare_by_code_point() {
    assert!(matches!(compare_text("en", "fi"), TextOrder::Less));
    assert!(matches!(compare_text("fi", "en"), TextOrder::Greater));
    assert!(matches!(compare_text("en", "en"), TextOrder::Equal));
    assert!(matches!(compare_text("en", "en:"), TextOrder::Less));
    assert!(matches!(compare_text("é", "z"), TextOrder::Greater));
    assert!(matches!(compare_text("", "a"), TextOrder::Less));
}

#[test]
fn parses_unsigned_integers_like_std() {
    for text in ["0", "8192", "+16", "007", "18446744073709551615", "", "+", "-1", "1 ", "1_0"] {
        assert_eq!(parse_usize(text), text.parse::<usize>().ok(), "{text:?}");
    }
    assert_eq!(parse_usize("99999999999999999999"), None);
}

#[test]
fn splits_text_into_characters() {
    assert_eq!(chars_of("a€b"), vec!['a', '€', 'b']);
}

#[test]
fn white_space_agrees_with_std() {
    for c in (0u32..=0x10FFFF).filter_map(char::from_u32) {
        assert_eq!(is_whitespace(c), c.is_whitespace(), "{:X}", c as u32);
    }
}
