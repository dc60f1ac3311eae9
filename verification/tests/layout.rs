use doubleclick_dictionary_data::cli::{Argument, Config};
use doubleclick_dictionary_data::layout::{
    assets_ignore, backup_name, check_output_root, check_publish, count_groups, check_schema_directory, headers, partition_count,
    partition_file_name, path_error, route_record, schema_version, shard_file_name, staging_name, version_directory,
    versions_to_remove, wiktionary_notice, BuildStats, OutputRootRefusal, PublishMode, PublishRefusal, SchemaRefusal,
    MARKER_TEXT, OUTPUT_MARKER,
    ROOT_MARKER, SCHEMA_VERSION,
};
use doubleclick_dictionary_data::merge::group_fragments;
use doubleclick_dictionary_data::model::{RawEntry, RawExample, RawSense, RawSound};
use doubleclick_dictionary_data::normalize::shard_index;

#[test]
fn reads_schema_versions_from_directory_names() {
    assert_eq!(schema_version("v2"), Some(2));
    assert_eq!(schema_version("v007"), Some(7));
    assert_eq!(schema_version("v4294967295"), Some(u32::MAX));
    assert_eq!(schema_version("v4294967296"), None);
    assert_eq!(schema_version("v"), None);
    assert_eq!(schema_version("2"), None);
    assert_eq!(schema_version("v2a"), None);
    assert_eq!(schema_version("v+2"), None);
    assert_eq!(schema_version("shards"), None);
}

#[test]
fn refuses_unmarked_or_newer_schemas() {
    assert!(check_schema_directory(SCHEMA_VERSION, true).is_ok());
    assert!(check_schema_directory(0, true).is_ok());
    assert!(matches!(check_schema_directory(1, false), Err(SchemaRefusal::Unmarked)));
    assert!(matches!(check_schema_directory(3, false), Err(SchemaRefusal::Unmarked)));
    assert!(matches!(check_schema_directory(3, true), Err(SchemaRefusal::Newer(3))));
}

#[test]
fn keeps_the_two_newest_schemas() {
    assert!(versions_to_remove(&vec![]).is_empty());
    assert!(versions_to_remove(&vec![0, 2]).is_empty());
    assert_eq!(versions_to_remove(&vec![1, 0, 2]), [1]);
    // Removed newest first: v2 (position 3), v1 (position 2), v0 (position 0).
    assert_eq!(versions_to_remove(&vec![0, 5, 1, 2, 3]), [3, 2, 0]);
    assert_eq!(versions_to_remove(&vec![7, 1, 9, 4, 8, 2]), [0, 3, 5, 1]);
}

#[test]
fn partitions_are_bounded() {
    assert_eq!(partition_count(4), 4);
    assert_eq!(partition_count(256), 256);
    assert_eq!(partition_count(8192), 256);
}

fn config() -> Config {
    Config {
        input: Argument::Text("input.jsonl".to_owned()),
        output: Argument::Text("output".to_owned()),
        languages: vec!["en".to_owned()],
        shard_count: 8192,
        source_date: "2026-09-01".to_owned(),
    }
}

fn record(word: &str, lang: &str) -> RawEntry {
    RawEntry {
        word: word.to_owned(),
        lang_code: lang.to_owned(),
        pos: "noun".to_owned(),
        senses: vec![RawSense { glosses: vec!["Sense.".to_owned()], examples: vec![] }],
        sounds: vec![],
    }
}

#[test]
fn routes_records_to_partitions_and_counts_them() {
    let mut stats = BuildStats { entries: 0, shards: 0, accepted_records: 0, skipped_records: 0 };
    let cfg = config();
    let (partition, fragment) = route_record(record("hello", "en"), &cfg, 256, &mut stats).unwrap();
    assert_eq!(fragment.shard, 616);
    assert_eq!(partition, 616 % 256);
    assert!(route_record(record("bonjour", "fr"), &cfg, 256, &mut stats).is_none());
    assert!(route_record(record("two words", "en"), &cfg, 256, &mut stats).is_none());
    assert_eq!(stats.accepted_records, 1);
    assert_eq!(stats.skipped_records, 2);
}

#[test]
fn fixed_files_have_their_content() {
    assert_eq!(assets_ignore(), format!("{ROOT_MARKER}\n**/{OUTPUT_MARKER}\n.assetsignore\n"));
    assert!(headers().starts_with("/:version/shards/*\n"));
    assert!(headers().contains("/:version/metadata.json"));
    let notice = wiktionary_notice();
    assert!(notice.contains("Changes were made"));
    assert!(notice.contains("CC BY-SA 4.0"));
}

#[test]
fn output_root_must_be_a_marked_or_empty_directory() {
    assert!(check_output_root(true, true, false).is_ok());
    assert!(check_output_root(true, false, true).is_ok());
    assert!(matches!(check_output_root(false, false, true), Err(OutputRootRefusal::NotADirectory)));
    assert!(matches!(check_output_root(true, false, false), Err(OutputRootRefusal::NotVersionedRoot)));
}

fn text(s: &str) -> Option<String> {
    Some(s.to_owned())
}

#[test]
fn assembles_the_shards_of_a_small_input() {
    let records = vec![
        RawEntry {
            word: "Hello".to_owned(),
            lang_code: "en".to_owned(),
            pos: "interjection".to_owned(),
            senses: vec![RawSense {
                glosses: vec!["A greeting.".to_owned()],
                examples: vec![
                    RawExample { text: text("Quoted hello."), kind: text("quotation"), reference: text("Example Author") },
                    RawExample { text: text("Hello there."), kind: text("example"), reference: None },
                ],
            }],
            sounds: vec![RawSound { ipa: text("/həˈləʊ/") }],
        },
        RawEntry {
            word: "hello".to_owned(),
            lang_code: "en".to_owned(),
            pos: "noun".to_owned(),
            senses: vec![RawSense { glosses: vec!["An utterance of hello.".to_owned()], examples: vec![] }],
            sounds: vec![],
        },
        record("bonjour", "fr"),
        RawEntry {
            word: String::new(),
            lang_code: String::new(),
            pos: "hard-redirect".to_owned(),
            senses: vec![],
            sounds: vec![],
        },
    ];
    let mut cfg = config();
    cfg.shard_count = 4;
    let partitions = partition_count(cfg.shard_count);
    let mut stats = BuildStats { entries: 0, shards: 0, accepted_records: 0, skipped_records: 0 };
    let mut spilled: Vec<Vec<_>> = (0..partitions).map(|_| Vec::new()).collect();
    for raw in records {
        if let Some((partition, fragment)) = route_record(raw, &cfg, partitions, &mut stats) {
            spilled[partition].push(fragment);
        }
    }
    assert_eq!(stats.accepted_records, 2);
    assert_eq!(stats.skipped_records, 2);

    let shard = shard_index("en:hello", 4);
    let mut found = false;
    for fragments in spilled {
        let groups = group_fragments(fragments);
        assert!(count_groups(&mut stats, &groups));
        for group in groups {
            assert_eq!(group.shard, shard);
            let item = &group.entries.items[0];
            assert_eq!(item.key, "en:hello");
            let variants = &item.variants;
            assert_eq!(variants.len(), 2);
            assert_eq!(variants[0].word, "Hello");
            assert_eq!(variants[0].meanings.len(), 1);
            assert_eq!(variants[0].phonetic.as_deref(), Some("/həˈləʊ/"));
            assert_eq!(variants[0].meanings[0].definitions[0].example.as_deref(), Some("Hello there."));
            assert_eq!(variants[0].source_url, "https://en.wiktionary.org/wiki/Hello");
            assert_eq!(variants[1].word, "hello");
            assert_eq!(variants[1].meanings.len(), 1);
            found = true;
        }
    }
    assert!(found);
    assert_eq!(stats.entries, 2);
    assert_eq!(stats.shards, 1);
}

#[test]
fn names_version_directories() {
    assert_eq!(version_directory(SCHEMA_VERSION), "v2");
    assert_eq!(version_directory(0), "v0");
    assert_eq!(version_directory(10), "v10");
    assert_eq!(version_directory(u32::MAX), "v4294967295");
    for version in [0, 1, 2, 9, 10, 99, 100, 12345, u32::MAX] {
        assert_eq!(schema_version(&version_directory(version)), Some(version));
    }
}

#[test]
fn names_shard_files_in_padded_hex() {
    assert_eq!(shard_file_name(0), "0000.json");
    assert_eq!(shard_file_name(10), "000a.json");
    assert_eq!(shard_file_name(616), "0268.json");
    assert_eq!(shard_file_name(8191), "1fff.json");
    assert_eq!(shard_file_name(0x12345), "12345.json");
    for shard in [0usize, 3, 255, 4096, 16383] {
        assert_eq!(shard_file_name(shard), format!("{shard:04x}.json"));
    }
}

#[test]
fn hello_lives_in_the_documented_shard_file() {
    let shard = shard_index("en:hello", 8192);
    assert_eq!(format!("{}/shards/{}", version_directory(SCHEMA_VERSION), shard_file_name(shard)), "v2/shards/0268.json");
}

#[test]
fn names_partition_files_in_padded_decimal() {
    assert_eq!(partition_file_name(0), "000.jsonl");
    assert_eq!(partition_file_name(7), "007.jsonl");
    assert_eq!(partition_file_name(255), "255.jsonl");
    assert_eq!(partition_file_name(1234), "1234.jsonl");
    for partition in [0usize, 1, 42, 99, 100, 255] {
        assert_eq!(partition_file_name(partition), format!("{partition:03}.jsonl"));
    }
}

#[test]
fn names_staging_and_backup_directories() {
    assert_eq!(staging_name("v2", 4321), ".v2-4321.tmp");
    assert_eq!(backup_name("v2", 0), ".v2-0.old");
    assert_eq!(staging_name("out put", u32::MAX), ".out put-4294967295.tmp");
}

#[test]
fn formats_file_system_errors() {
    assert_eq!(
        path_error("open input", "/tmp/input.jsonl", "No such file or directory (os error 2)"),
        "could not open input /tmp/input.jsonl: No such file or directory (os error 2)"
    );
    assert_eq!(MARKER_TEXT, "generated by doubleclick-dictionary-data\n");
}

#[test]
fn explains_refused_directories() {
    assert_eq!(
        SchemaRefusal::Newer(3).message("output/v3"),
        "refusing to replace newer schema v3 with v2"
    );
    assert_eq!(
        SchemaRefusal::Unmarked.message("output/v1"),
        "refusing to manage output/v1 because it was not generated by this tool"
    );
    assert_eq!(
        OutputRootRefusal::NotADirectory.message("out.txt"),
        "--output must name a directory: out.txt"
    );
    assert_eq!(
        OutputRootRefusal::NotVersionedRoot.message("home"),
        "refusing to use home because it was not created as a versioned output root"
    );
}

#[test]
fn publishes_only_over_generated_output() {
    assert!(matches!(check_publish(false, false, false), Ok(PublishMode::Move)));
    assert!(matches!(check_publish(true, true, false), Ok(PublishMode::Replace)));
    assert!(matches!(check_publish(true, false, false), Err(PublishRefusal::NotGenerated)));
    assert!(matches!(check_publish(true, true, true), Err(PublishRefusal::StaleBackup)));
    assert_eq!(
        PublishRefusal::NotGenerated.message("output/v2", ""),
        "refusing to replace output/v2 because it was not generated by this tool"
    );
    assert_eq!(
        PublishRefusal::StaleBackup.message("output/v2", "output/.v2-7.old"),
        "stale backup exists at output/.v2-7.old"
    );
}

#[test]
fn counts_the_shards_and_entries_of_groups() {
    let mut cfg = config();
    cfg.shard_count = 1;
    let mut stats = BuildStats { entries: 3, shards: 2, accepted_records: 5, skipped_records: 1 };
    let fragments: Vec<_> = ["hello", "Hello", "world"]
        .iter()
        .map(|w| route_record(record(w, "en"), &cfg, 1, &mut stats).unwrap().1)
        .collect();
    let groups = group_fragments(fragments);
    assert_eq!(groups.len(), 1);
    assert!(count_groups(&mut stats, &groups));
    assert_eq!(stats.shards, 3);
    assert_eq!(stats.entries, 6);
    assert_eq!(stats.accepted_records, 8);
    let mut full = BuildStats { entries: usize::MAX, shards: 0, accepted_records: 0, skipped_records: 0 };
    assert!(!count_groups(&mut full, &groups));
    assert_eq!(full.entries, usize::MAX);
    assert_eq!(full.shards, 0);
    assert!(count_groups(&mut full, &Vec::new()));
}
