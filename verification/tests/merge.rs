use doubleclick_dictionary_data::merge::{group_fragments, merge_fragment, ShardEntries};
use doubleclick_dictionary_data::model::{Definition, EntryFragment, Meaning};

fn definition(text: &str) -> Definition {
    Definition { text: text.to_owned(), example: None }
}

fn fragment(shard: usize, key: &str, word: &str, phonetic: Option<&str>, pos: &str, defs: &[&str]) -> EntryFragment {
    EntryFragment {
        shard,
        key: key.to_owned(),
        word: word.to_owned(),
        phonetic: phonetic.map(str::to_owned),
        source_url: format!("https://en.wiktionary.org/wiki/{word}"),
        meaning: Meaning {
            part_of_speech: pos.to_owned(),
            definitions: defs.iter().map(|d| definition(d)).collect(),
        },
    }
}

fn keys(entries: &ShardEntries) -> Vec<&str> {
    entries.items.iter().map(|item| item.key.as_str()).collect()
}

#[test]
fn variants_of_a_key_stay_separate() {
    let mut entries = ShardEntries::new();
    merge_fragment(&mut entries, fragment(0, "en:hello", "Hello", Some("/həˈləʊ/"), "interjection", &["A greeting."]));
    merge_fragment(&mut entries, fragment(0, "en:hello", "hello", None, "noun", &["An utterance of hello."]));
    assert_eq!(keys(&entries), ["en:hello"]);
    let variants = &entries.items[0].variants;
    assert_eq!(variants.len(), 2);
    assert_eq!(variants[0].word, "Hello");
    assert_eq!(variants[0].meanings.len(), 1);
    assert_eq!(variants[0].phonetic.as_deref(), Some("/həˈləʊ/"));
    assert_eq!(variants[1].word, "hello");
    assert_eq!(variants[1].meanings.len(), 1);
    assert_eq!(entries.entry_count(), 2);
}

#[test]
fn keys_stay_sorted() {
    let mut entries = ShardEntries::new();
    for key in ["en:pear", "en:apple", "fi:omena", "en:zebra", "en:apple", "de:apfel"] {
        merge_fragment(&mut entries, fragment(0, key, &key[3..], None, "noun", &["x"]));
    }
    assert_eq!(keys(&entries), ["de:apfel", "en:apple", "en:pear", "en:zebra", "fi:omena"]);
    assert_eq!(entries.entry_count(), 5);
}

#[test]
fn same_word_merges_meanings_and_definitions() {
    let mut entries = ShardEntries::new();
    merge_fragment(&mut entries, fragment(1, "en:run", "run", None, "verb", &["To move fast.", "To operate."]));
    merge_fragment(&mut entries, fragment(1, "en:run", "run", Some("/ɹʌn/"), "verb", &["To operate.", "To flow.", "To manage.", "To extend."]));
    merge_fragment(&mut entries, fragment(1, "en:run", "run", Some("/other/"), "noun", &["A jog."]));
    let entry = &entries.items[0].variants[0];
    assert_eq!(entries.items[0].variants.len(), 1);
    assert_eq!(entry.phonetic.as_deref(), Some("/ɹʌn/"));
    assert_eq!(entry.meanings.len(), 2);
    let verb: Vec<&str> = entry.meanings[0].definitions.iter().map(|d| d.text.as_str()).collect();
    assert_eq!(verb, ["To move fast.", "To operate.", "To flow.", "To manage."]);
    assert_eq!(entry.meanings[1].part_of_speech, "noun");
}

#[test]
fn meanings_are_limited_to_six() {
    let mut entries = ShardEntries::new();
    for pos in ["noun", "verb", "adj", "adv", "pron", "prep", "conj", "intj"] {
        merge_fragment(&mut entries, fragment(2, "en:so", "so", None, pos, &["Sense."]));
    }
    let meanings: Vec<&str> =
        entries.items[0].variants[0].meanings.iter().map(|m| m.part_of_speech.as_str()).collect();
    assert_eq!(meanings, ["noun", "verb", "adj", "adv", "pron", "prep"]);
}

#[test]
fn groups_by_increasing_shard_in_input_order() {
    let fragments = vec![
        fragment(3, "en:hello", "Hello", Some("/a/"), "interjection", &["A greeting."]),
        fragment(1, "en:cat", "cat", None, "noun", &["A feline."]),
        fragment(3, "en:hello", "hello", None, "noun", &["An utterance of hello."]),
        fragment(3, "en:hello", "Hello", Some("/b/"), "interjection", &["Another."]),
        fragment(1, "en:bat", "bat", None, "noun", &["A flying mammal."]),
    ];
    let groups = group_fragments(fragments);
    let shards: Vec<usize> = groups.iter().map(|g| g.shard).collect();
    assert_eq!(shards, [1, 3]);
    assert_eq!(keys(&groups[0].entries), ["en:bat", "en:cat"]);
    let hello = &groups[1].entries.items[0].variants;
    assert_eq!(hello.len(), 2);
    assert_eq!(hello[0].word, "Hello");
    assert_eq!(hello[0].phonetic.as_deref(), Some("/a/"));
    assert_eq!(hello[0].meanings[0].definitions.len(), 2);
    assert_eq!(groups[0].entries.entry_count() + groups[1].entries.entry_count(), 4);
    assert!(group_fragments(Vec::new()).is_empty());
}

#[test]
fn parts_of_speech_stay_distinct_within_an_entry() {
    let mut entries = ShardEntries::new();
    for pos in ["noun", "verb", "noun", "verb", "adj", "noun"] {
        merge_fragment(&mut entries, fragment(0, "en:fast", "fast", None, pos, &[pos]));
    }
    let meanings: Vec<&str> =
        entries.items[0].variants[0].meanings.iter().map(|m| m.part_of_speech.as_str()).collect();
    assert_eq!(meanings, ["noun", "verb", "adj"]);
    assert_eq!(entries.checked_entry_count(), Some(1));
    assert_eq!(ShardEntries::new().checked_entry_count(), Some(0));
}
