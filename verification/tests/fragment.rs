use doubleclick_dictionary_data::cli::{Argument, Config};
use doubleclick_dictionary_data::fragment::{to_fragment, wiktionary_page_url};
use doubleclick_dictionary_data::model::{RawEntry, RawExample, RawSense, RawSound};
use doubleclick_dictionary_data::normalize::shard_index;

#[test]
fn encodes_wiktionary_page_urls() {
    assert_eq!(
        wiktionary_page_url("Café au lait/#"),
        "https://en.wiktionary.org/wiki/Caf%C3%A9_au_lait%2F%23",
    );
}

#[test]
fn page_urls_keep_unreserved_bytes() {
    assert_eq!(wiktionary_page_url("A-z_0.9~"), "https://en.wiktionary.org/wiki/A-z_0.9~");
    assert_eq!(wiktionary_page_url(""), "https://en.wiktionary.org/wiki/");
}

fn config(languages: &[&str], shard_count: usize) -> Config {
    Config {
        input: Argument::Text("input.jsonl".to_owned()),
        output: Argument::Text("output".to_owned()),
        languages: languages.iter().map(|l| l.to_string()).collect(),
        shard_count,
        source_date: "2026-09-01".to_owned(),
    }
}

fn example(text: Option<&str>, kind: Option<&str>, reference: Option<&str>) -> RawExample {
    RawExample {
        text: text.map(str::to_owned),
        kind: kind.map(str::to_owned),
        reference: reference.map(str::to_owned),
    }
}

fn sense(glosses: &[&str], examples: Vec<RawExample>) -> RawSense {
    RawSense { glosses: glosses.iter().map(|g| g.to_string()).collect(), examples }
}

fn raw(word: &str, lang: &str, pos: &str, senses: Vec<RawSense>, ipas: &[Option<&str>]) -> RawEntry {
    RawEntry {
        word: word.to_owned(),
        lang_code: lang.to_owned(),
        pos: pos.to_owned(),
        senses,
        sounds: ipas.iter().map(|i| RawSound { ipa: i.map(str::to_owned) }).collect(),
    }
}

#[test]
fn fragment_takes_ordinary_examples_and_first_transcription() {
    let record = raw(
        "Hello",
        "en",
        "interjection",
        vec![sense(
            &["A greeting."],
            vec![
                example(Some("Quoted hello."), Some("quotation"), Some("Example Author")),
                example(Some("Hello there."), Some("example"), None),
            ],
        )],
        &[None, Some("/həˈləʊ/"), Some("/hɛˈloʊ/")],
    );
    let fragment = to_fragment(record, &config(&["en"], 4)).unwrap();
    assert_eq!(fragment.key, "en:hello");
    assert_eq!(fragment.shard, shard_index("en:hello", 4));
    assert_eq!(fragment.word, "Hello");
    assert_eq!(fragment.phonetic.as_deref(), Some("/həˈləʊ/"));
    assert_eq!(fragment.source_url, "https://en.wiktionary.org/wiki/Hello");
    assert_eq!(fragment.meaning.part_of_speech, "interjection");
    assert_eq!(fragment.meaning.definitions.len(), 1);
    assert_eq!(fragment.meaning.definitions[0].text, "A greeting.");
    assert_eq!(fragment.meaning.definitions[0].example.as_deref(), Some("Hello there."));
}

#[test]
fn fragment_skips_quotations_references_and_missing_texts() {
    let record = raw(
        "cat",
        "en",
        "noun",
        vec![sense(
            &["A feline."],
            vec![
                example(None, Some("example"), None),
                example(Some("With ref."), None, Some("Someone")),
                example(Some("A quote."), Some("quotation"), None),
            ],
        )],
        &[],
    );
    let fragment = to_fragment(record, &config(&["en"], 8)).unwrap();
    assert!(fragment.meaning.definitions[0].example.is_none());
    assert!(fragment.phonetic.is_none());
}

#[test]
fn fragment_uses_first_non_blank_gloss_and_keeps_four_definitions() {
    let senses = vec![
        sense(&["  ", "\t", "First."], vec![]),
        sense(&[], vec![]),
        sense(&[" "], vec![]),
        sense(&["Second."], vec![]),
        sense(&["Third."], vec![]),
        sense(&["Fourth."], vec![]),
        sense(&["Fifth."], vec![]),
    ];
    let fragment = to_fragment(raw("dog", "en", "noun", senses, &[]), &config(&["en"], 8)).unwrap();
    let texts: Vec<&str> = fragment.meaning.definitions.iter().map(|d| d.text.as_str()).collect();
    assert_eq!(texts, ["First.", "Second.", "Third.", "Fourth."]);
}

#[test]
fn fragment_requires_language_key_and_definition() {
    let cfg = config(&["en"], 4);
    let defined = || vec![sense(&["Hello."], vec![])];
    assert!(to_fragment(raw("bonjour", "fr", "interjection", defined(), &[]), &cfg).is_none());
    assert!(to_fragment(raw("two words", "en", "noun", defined(), &[]), &cfg).is_none());
    assert!(to_fragment(raw("", "", "hard-redirect", vec![], &[]), &cfg).is_none());
    assert!(to_fragment(raw("hello", "en", "noun", vec![sense(&[" "], vec![])], &[]), &cfg).is_none());
    assert!(to_fragment(raw("bonjour", "fr", "interjection", defined(), &[]), &config(&["en", "fr"], 4)).is_some());
}
