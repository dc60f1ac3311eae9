# doubleclick_dictionary_data

Builds compact, deterministic dictionary shards from Wiktextract JSONL for the
Double-click Dictionary extension. The library in `src/` is verified with Verus;
`app/` holds the command-line program and the file-system side of a build.

- `src/normalize.rs`: lookup keys (NFC, lowercase, straight apostrophes, word
  pattern) and shard selection by 32-bit FNV-1a.
- `src/fragment.rs`: from an input record to the fragment of an entry, and
  Wiktionary page URLs.
- `src/merge.rs`: merging fragments into the entries of a shard, and grouping
  fragments by shard.
- `src/cli.rs`: the command line.
- `src/layout.rs`: schema versions, partitions, the names of the files and
  directories of the output, its fixed files, and the messages of refused
  output directories.
- `src/text.rs`: text helpers (characters, order, blank text, decimal and
  hexadecimal numbers).
- `src/unicode.rs`: the Unicode properties and normalization taken from std and
  `unicode_normalization`.
- `src/model.rs`: the records and their views.
