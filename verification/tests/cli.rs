use doubleclick_dictionary_data::cli::{Argument, Config};

fn text_args(args: &[&str]) -> Vec<Argument> {
    args.iter().map(|a| Argument::Text(a.to_string())).collect()
}

#[test]
fn parses_repeated_languages() {
    let args = text_args(&[
        "--input", "input.jsonl.gz", "--output", "dist", "--language", "en",
        "--language", "fi", "--source-date", "2026-09-01", "--shards", "1024",
    ]);

    let config = Config::parse(args).unwrap().unwrap();
    assert_eq!(config.shard_count, 1024);
    assert_eq!(config.languages.into_iter().collect::<Vec<_>>(), ["en", "fi"]);
}

#[test]
fn rejects_non_power_of_two_shard_count() {
    let args = text_args(&[
        "--input", "input.jsonl", "--output", "dist", "--language", "en",
        "--source-date", "2026-09-01", "--shards", "1000",
    ]);

    assert!(Config::parse(args).is_err());
}

fn error_of(args: Vec<Argument>) -> String {
    match Config::parse(args) {
        Err(message) => message,
        Ok(_) => panic!("expected an error"),
    }
}

#[test]
fn languages_are_sorted_and_deduplicated() {
    let args = text_args(&[
        "--language", "sv", "--input", "in", "--language", "de", "--output", "out",
        "--language", "sv", "--language", "en", "--source-date", "2026-08-05",
    ]);
    let config = Config::parse(args).unwrap().unwrap();
    assert_eq!(config.languages, ["de", "en", "sv"]);
    assert_eq!(config.shard_count, 8192);
    assert_eq!(config.source_date, "2026-08-05");
    assert!(matches!(config.input, Argument::Text(ref t) if t == "in"));
    assert!(matches!(config.output, Argument::Text(ref t) if t == "out"));
}

#[test]
fn help_stops_reading() {
    assert!(Config::parse(text_args(&["--help"])).unwrap().is_none());
    assert!(Config::parse(text_args(&["-h", "--bogus"])).unwrap().is_none());
    assert_eq!(error_of(text_args(&["--bogus", "-h"])), "unknown argument: --bogus");
}

#[test]
fn reports_each_kind_of_error() {
    assert_eq!(error_of(text_args(&["--input"])), "--input requires a value");
    assert_eq!(error_of(text_args(&["--shards", "12x"])), "--shards must be an integer");
    assert_eq!(error_of(text_args(&["--shards", "-4"])), "--shards must be an integer");
    assert_eq!(
        error_of(text_args(&["--shards", "0"])),
        "--shards must be a power of two between 1 and 16384"
    );
    assert_eq!(
        error_of(text_args(&["--shards", "32768"])),
        "--shards must be a power of two between 1 and 16384"
    );
    assert_eq!(error_of(text_args(&[])), "--input is required");
    assert_eq!(error_of(text_args(&["--input", "a"])), "--output is required");
    assert_eq!(
        error_of(text_args(&["--input", "a", "--output", "b"])),
        "at least one --language is required"
    );
    assert_eq!(
        error_of(text_args(&["--input", "a", "--output", "b", "--language", "en"])),
        "--source-date is required"
    );
    assert_eq!(error_of(vec![Argument::Raw(vec![0xff])]), "arguments must be valid UTF-8");
    assert_eq!(
        error_of(vec![Argument::Text("--language".to_owned()), Argument::Raw(vec![0xff])]),
        "--language must be valid UTF-8"
    );
}

#[test]
fn paths_may_be_raw_bytes_and_shards_may_have_a_plus() {
    let args = vec![
        Argument::Text("--input".to_owned()),
        Argument::Raw(vec![b'i', 0xff]),
        Argument::Text("--output".to_owned()),
        Argument::Text("out".to_owned()),
        Argument::Text("--language".to_owned()),
        Argument::Text("en".to_owned()),
        Argument::Text("--source-date".to_owned()),
        Argument::Text("2026-09-01".to_owned()),
        Argument::Text("--shards".to_owned()),
        Argument::Text("+1".to_owned()),
    ];
    let config = Config::parse(args).unwrap().unwrap();
    assert!(matches!(config.input, Argument::Raw(ref b) if b == &[b'i', 0xff]));
    assert_eq!(config.shard_count, 1);
}

#[test]
fn usage_names_every_option() {
    let usage = Config::usage();
    for option in ["--input", "--output", "--language", "--source-date", "--shards"] {
        assert!(usage.contains(option));
    }
    assert!(usage.starts_with("Usage: doubleclick-dictionary-data \\\n"));
}
