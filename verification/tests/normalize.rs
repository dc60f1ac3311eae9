use doubleclick_dictionary_data::normalize::{lookup_key, shard_index};

#[test]
fn normalizes_case_apostrophes_and_unicode() {
    assert_eq!(lookup_key("en", "DON’T"), Some("en:don't".to_owned()));
    assert_eq!(lookup_key("en", "Cafe\u{301}"), Some("en:café".to_owned()));
    assert_eq!(lookup_key("en", "two words"), None);
}

#[test]
fn hashing_is_stable() {
    assert_eq!(shard_index("en:hello", 8192), 616);
}

#[test]
fn lookup_key_accepts_inner_separators_only() {
    assert_eq!(lookup_key("en", "well-known"), Some("en:well-known".to_owned()));
    assert_eq!(lookup_key("en", "o'clock"), Some("en:o'clock".to_owned()));
    assert_eq!(lookup_key("en", "-well"), None);
    assert_eq!(lookup_key("en", "well-"), None);
    assert_eq!(lookup_key("en", "well--known"), None);
    assert_eq!(lookup_key("en", "well-'known"), None);
    assert_eq!(lookup_key("en", ""), None);
    assert_eq!(lookup_key("en", "abc1"), None);
}

#[test]
fn lookup_key_limits_word_length() {
    let sixty_four = "a".repeat(64);
    let sixty_five = "a".repeat(65);
    assert_eq!(lookup_key("fi", &sixty_four), Some(format!("fi:{sixty_four}")));
    assert_eq!(lookup_key("fi", &sixty_five), None);
}

#[test]
fn lookup_key_keeps_combining_marks_inside_words() {
    // A combining acute accent that NFC cannot compose stays after the letter.
    assert_eq!(lookup_key("en", "x\u{301}y"), Some("en:x\u{301}y".to_owned()));
    // A combining mark cannot start a word.
    assert_eq!(lookup_key("en", "\u{301}x"), None);
    // Nor follow a separator.
    assert_eq!(lookup_key("en", "a-\u{301}b"), None);
}

#[test]
fn lookup_key_lowercases_to_several_characters() {
    // U+0130 lowercases to "i" followed by a combining dot above.
    assert_eq!(lookup_key("tr", "\u{130}z"), Some("tr:i\u{307}z".to_owned()));
    assert_eq!(lookup_key("de", "STRASSE"), Some("de:strasse".to_owned()));
}

#[test]
fn shard_index_is_the_hash_modulo_a_power_of_two() {
    let full = shard_index("en:hello", 1usize << 31);
    for count in [1usize, 2, 4, 64, 1024, 8192, 16384] {
        let shard = shard_index("en:hello", count);
        assert!(shard < count);
        assert_eq!(shard, full % count);
    }
    assert_eq!(shard_index("", 1usize << 31), 2_166_136_261usize % (1usize << 31));
}

use doubleclick_dictionary_data::normalize::{is_word, join_straightened, key_for_normalized};

#[test]
fn word_pattern_follows_the_given_classes() {
    let w: Vec<char> = "ab-c".chars().collect();
    assert!(is_word(&w, &vec![true, true, false, true], &vec![false; 4]));
    assert!(!is_word(&w, &vec![true, true, false, false], &vec![false; 4]));
    let m: Vec<char> = "a~b".chars().collect();
    assert!(is_word(&m, &vec![true, false, true], &vec![false, true, false]));
    assert!(!is_word(&m, &vec![true, false, true], &vec![false, false, false]));
    assert!(!is_word(&vec![], &vec![], &vec![]));
}

#[test]
fn joins_lowercase_parts_with_straight_apostrophes() {
    let parts = vec![vec!['d'], vec!['o'], vec!['n'], vec!['\u{2019}'], vec!['i', '\u{307}']];
    assert_eq!(join_straightened(&parts), vec!['d', 'o', 'n', '\'', 'i', '\u{307}']);
}

#[test]
fn builds_keys_from_normalized_words() {
    let w: Vec<char> = "don't".chars().collect();
    let letters = vec![true, true, true, false, true];
    assert_eq!(key_for_normalized("en", &w, &letters, &vec![false; 5]), Some("en:don't".to_owned()));
    assert_eq!(key_for_normalized("en", &w, &vec![true; 5], &vec![false; 5]), Some("en:don't".to_owned()));
    assert_eq!(key_for_normalized("en", &w, &vec![false; 5], &vec![false; 5]), None);
}
