//! From an input record to the fragment of a dictionary entry.
use vstd::prelude::*;
use vstd::string::StringSliceAdditionalSpecFns;
use crate::cli::Config;
use crate::model::{
    definitions_view, examples_view, senses_view, sounds_view, opt_text, RawExample, RawSense, RawSound,
    Definition, EntryFragment, Meaning, RawEntry, SpecDefinition, SpecEntryFragment, SpecMeaning,
    SpecRawEntry, SpecRawExample, SpecRawSense,
};
use crate::normalize::{fnv1a, lookup_key, lookup_key_spec, shard_index, shard_index_spec};
use crate::text::{is_blank, is_blank_text, push_char, text_views};

verus! {

/// The most definitions that one meaning keeps.
pub const MAX_DEFINITIONS_PER_MEANING: usize = 4;

/// Bytes that stand for themselves in a page URL.
pub open spec fn is_unreserved_byte(b: u8) -> bool {
    (0x41 <= b <= 0x5a) || (0x61 <= b <= 0x7a) || (0x30 <= b <= 0x39) || b == 0x2d || b == 0x2e
        || b == 0x5f || b == 0x7e
}

/// An upper-case hexadecimal digit.
pub open spec fn hex_digit_spec(n: u8) -> char {
    if n < 10 {
        (0x30 + n) as char
    } else {
        (0x41 + n - 10) as char
    }
}

/// How one byte of the word is written in the page URL: unreserved bytes as
/// themselves, a space as `_`, anything else percent-encoded.
pub open spec fn escape_byte(b: u8) -> Seq<char> {
    if is_unreserved_byte(b) {
        seq![b as char]
    } else if b == 0x20 {
        seq!['_']
    } else {
        seq!['%', hex_digit_spec(b / 16), hex_digit_spec(b % 16)]
    }
}

pub open spec fn escape_bytes(bytes: Seq<u8>) -> Seq<char>
    decreases bytes.len(),
{
    if bytes.len() == 0 {
        Seq::empty()
    } else {
        escape_bytes(bytes.drop_last()) + escape_byte(bytes.last())
    }
}

pub open spec fn wiki_prefix() -> Seq<char> {
    "https://en.wiktionary.org/wiki/"@
}

/// The Wiktionary page of a word.
pub open spec fn page_url_spec(word: Seq<char>) -> Seq<char> {
    wiki_prefix() + escape_bytes(vstd::utf8::encode_utf8(word))
}

/// A character that a page URL keeps as it is: an ASCII letter or digit,
/// `-`, `.`, `_` or `~`.
pub open spec fn is_url_safe_char(c: char) -> bool {
    ('A' <= c <= 'Z') || ('a' <= c <= 'z') || ('0' <= c <= '9') || c == '-' || c == '.' || c == '_'
        || c == '~'
}

proof fn lemma_escape_safe_bytes(bytes: Seq<u8>, word: Seq<char>)
    requires
        bytes.len() == word.len(),
        forall|i: int| 0 <= i < word.len() ==> is_url_safe_char(#[trigger] word[i]),
        forall|i: int| 0 <= i < word.len() ==> #[trigger] bytes[i] == word[i] as u8,
    ensures
        escape_bytes(bytes) == word,
    decreases bytes.len(),
{
    if bytes.len() > 0 {
        let n = bytes.len() - 1;
        lemma_escape_safe_bytes(bytes.drop_last(), word.drop_last());
        let c = word[n];
        assert(is_url_safe_char(c));
        assert(bytes[n] == c as u8);
        assert((c as u8) as char == c);
        assert(escape_byte(bytes[n]) == seq![c]);
        assert(word =~= word.drop_last() + seq![c]);
    }
}

/// A word made only of ASCII letters, digits, `-`, `.`, `_` and `~` appears
/// unchanged in its page URL, after the Wiktionary prefix.
pub proof fn lemma_url_keeps_plain_words(word: Seq<char>)
    requires
        forall|i: int| 0 <= i < word.len() ==> is_url_safe_char(#[trigger] word[i]),
    ensures
        page_url_spec(word) == "https://en.wiktionary.org/wiki/"@ + word,
{
    assert(vstd::utf8::is_ascii_chars(word)) by {
        assert forall|i: int| 0 <= i < word.len() implies '\0' <= #[trigger] word[i] <= '\u{7f}' by {
            assert(is_url_safe_char(word[i]));
        }
    }
    vstd::utf8::is_ascii_chars_encode_utf8(word);
    let bytes = vstd::utf8::encode_utf8(word);
    assert forall|i: int| 0 <= i < word.len() implies #[trigger] bytes[i] == word[i] as u8 by {
        assert(word[i] as u8 == vstd::utf8::encode_utf8(word)[i]);
    }
    lemma_escape_safe_bytes(bytes, word);
}

/// The value of an upper-case hexadecimal digit.
pub open spec fn hex_value(c: char) -> int {
    if '0' <= c <= '9' {
        c as int - '0' as int
    } else {
        c as int - 'A' as int + 10
    }
}

pub open spec fn is_upper_hex_digit(c: char) -> bool {
    ('0' <= c <= '9') || ('A' <= c <= 'F')
}

/// A space becomes `_`, and any other byte that a page URL does not keep
/// becomes `%` and two upper-case hexadecimal digits that give the byte back.
pub proof fn lemma_escaped_bytes_decode(b: u8)
    requires
        !is_url_safe_char(b as char),
    ensures
        b == 0x20 ==> escape_byte(b) == seq!['_'],
        b != 0x20 ==> {
            let e = escape_byte(b);
            &&& e.len() == 3
            &&& e[0] == '%'
            &&& is_upper_hex_digit(e[1]) && is_upper_hex_digit(e[2])
            &&& hex_value(e[1]) * 16 + hex_value(e[2]) == b
        },
{
    assert(!is_unreserved_byte(b));
}

fn hex_digit(n: u8) -> (c: char)
    requires
        n < 16,
    ensures
        c == hex_digit_spec(n),
{
    if n < 10 {
        (0x30 + n) as char
    } else {
        (0x41 + n - 10) as char
    }
}

/// The URL of the English Wiktionary page of `word`: the UTF-8 bytes of the
/// word with unreserved bytes kept, spaces as `_`, and everything else
/// percent-encoded in upper-case hex.
pub fn wiktionary_page_url(word: &str) -> (url: String)
    ensures
        url@ == page_url_spec(word@),
{
    let mut url = "https://en.wiktionary.org/wiki/".to_owned();
    let bytes = word.as_bytes();
    let mut i: usize = 0;
    while i < bytes.len()
        invariant
            i <= bytes@.len(),
            bytes@ == word.spec_bytes(),
            url@ == wiki_prefix() + escape_bytes(bytes@.take(i as int)),
        decreases bytes@.len() - i,
    {
        let b = bytes[i];
        let ghost before = url@;
        if (0x41 <= b && b <= 0x5a) || (0x61 <= b && b <= 0x7a) || (0x30 <= b && b <= 0x39) || b
            == 0x2d || b == 0x2e || b == 0x5f || b == 0x7e {
            push_char(&mut url, b as char);
        } else if b == 0x20 {
            push_char(&mut url, '_');
        } else {
            push_char(&mut url, '%');
            push_char(&mut url, hex_digit(b / 16));
            push_char(&mut url, hex_digit(b % 16));
        }
        assert(url@ == before + escape_byte(b));
        assert(bytes@.take((i + 1) as int).drop_last() =~= bytes@.take(i as int));
        i += 1;
    }
    assert(bytes@.take(i as int) =~= bytes@);
    url
}

/// The first gloss that is not blank.
pub open spec fn first_gloss(glosses: Seq<Seq<char>>) -> Option<Seq<char>>
    decreases glosses.len(),
{
    if glosses.len() == 0 {
        None
    } else if !is_blank_text(glosses[0]) {
        Some(glosses[0])
    } else {
        first_gloss(glosses.drop_first())
    }
}

/// The definition text of a sense is its first gloss that is not all white
/// space: every gloss before it is blank. There is none exactly when every
/// gloss is blank.
pub proof fn lemma_first_gloss_is_first_non_blank(glosses: Seq<Seq<char>>)
    ensures
        first_gloss(glosses) is None <==> forall|i: int|
            0 <= i < glosses.len() ==> is_blank_text(#[trigger] glosses[i]),
        first_gloss(glosses) matches Some(t) ==> exists|i: int|
            0 <= i < glosses.len() && #[trigger] glosses[i] == t && !is_blank_text(t) && forall|j: int|
                0 <= j < i ==> is_blank_text(#[trigger] glosses[j]),
    decreases glosses.len(),
{
    if glosses.len() > 0 {
        let rest = glosses.drop_first();
        lemma_first_gloss_is_first_non_blank(rest);
        if is_blank_text(glosses[0]) {
            if first_gloss(rest) is None {
                assert forall|i: int| 0 <= i < glosses.len() implies is_blank_text(#[trigger] glosses[i]) by {
                    if i > 0 {
                        assert(glosses[i] == rest[i - 1]);
                    }
                }
            } else {
                let t = first_gloss(rest)->0;
                let i = choose|i: int|
                    0 <= i < rest.len() && #[trigger] rest[i] == t && !is_blank_text(t) && forall|j: int|
                        0 <= j < i ==> is_blank_text(#[trigger] rest[j]);
                assert(glosses[i + 1] == t);
                assert forall|j: int| 0 <= j < i + 1 implies is_blank_text(#[trigger] glosses[j]) by {
                    if j > 0 {
                        assert(glosses[j] == rest[j - 1]);
                    }
                }
            }
        } else {
            assert(glosses[0] == first_gloss(glosses)->0);
        }
    }
}

/// An ordinary usage example: neither a quotation nor a referenced one.
pub open spec fn is_ordinary_example(e: SpecRawExample) -> bool {
    !(e.kind == Some("quotation"@) || e.reference is Some)
}

/// The text of the first ordinary example that has a text.
pub open spec fn first_example_text(examples: Seq<SpecRawExample>) -> Option<Seq<char>>
    decreases examples.len(),
{
    if examples.len() == 0 {
        None
    } else if is_ordinary_example(examples[0]) && examples[0].text is Some {
        examples[0].text
    } else {
        first_example_text(examples.drop_first())
    }
}

/// The example text of a sense is that of its first example that has a text
/// and is neither a quotation nor referenced: every example before it lacks
/// one of these. There is none exactly when no example has all three.
pub proof fn lemma_first_example_is_first_ordinary(examples: Seq<SpecRawExample>)
    ensures
        first_example_text(examples) is None <==> forall|i: int|
            0 <= i < examples.len() ==> !({
                let e = #[trigger] examples[i];
                e.text is Some && e.kind != Some("quotation"@) && e.reference is None
            }),
        first_example_text(examples) matches Some(t) ==> exists|i: int|
            0 <= i < examples.len() && (#[trigger] examples[i]).text == Some(t) && examples[i].kind
                != Some("quotation"@) && examples[i].reference is None && forall|j: int|
                0 <= j < i ==> !({
                    let e = #[trigger] examples[j];
                    e.text is Some && e.kind != Some("quotation"@) && e.reference is None
                }),
    decreases examples.len(),
{
    if examples.len() > 0 {
        let rest = examples.drop_first();
        lemma_first_example_is_first_ordinary(rest);
        let e0 = examples[0];
        if !(e0.text is Some && e0.kind != Some("quotation"@) && e0.reference is None) {
            assert(first_example_text(examples) == first_example_text(rest));
            assert forall|i: int| 0 < i < examples.len() implies examples[i] == rest[i - 1] by {}
            if let Some(t) = first_example_text(rest) {
                let i = choose|i: int|
                    0 <= i < rest.len() && (#[trigger] rest[i]).text == Some(t) && rest[i].kind
                        != Some("quotation"@) && rest[i].reference is None && forall|j: int|
                        0 <= j < i ==> !({
                            let e = #[trigger] rest[j];
                            e.text is Some && e.kind != Some("quotation"@) && e.reference is None
                        });
                assert(examples[i + 1] == rest[i]);
            }
        }
    }
}

/// The transcription of a record is the first one among its sounds: every
/// sound before it has none. There is none exactly when no sound has one.
pub proof fn lemma_first_phonetic_is_first_present(sounds: Seq<Option<Seq<char>>>)
    ensures
        first_phonetic(sounds) is None <==> forall|i: int| 0 <= i < sounds.len() ==> (#[trigger] sounds[i]) is None,
        first_phonetic(sounds) matches Some(t) ==> exists|i: int|
            0 <= i < sounds.len() && #[trigger] sounds[i] == Some(t) && forall|j: int|
                0 <= j < i ==> (#[trigger] sounds[j]) is None,
    decreases sounds.len(),
{
    if sounds.len() > 0 {
        let rest = sounds.drop_first();
        lemma_first_phonetic_is_first_present(rest);
        if sounds[0] is None {
            assert forall|i: int| 0 < i < sounds.len() implies sounds[i] == rest[i - 1] by {}
            if let Some(t) = first_phonetic(rest) {
                let i = choose|i: int|
                    0 <= i < rest.len() && #[trigger] rest[i] == Some(t) && forall|j: int|
                        0 <= j < i ==> (#[trigger] rest[j]) is None;
                assert(sounds[i + 1] == rest[i]);
            }
        }
    }
}

/// The definition a sense gives, if it has a non-blank gloss.
pub open spec fn sense_definition(sense: SpecRawSense) -> Option<SpecDefinition> {
    match first_gloss(sense.glosses) {
        Some(text) => Some(SpecDefinition { text, example: first_example_text(sense.examples) }),
        None => None,
    }
}

/// The definitions of all senses that give one, in order.
pub open spec fn sense_definitions(senses: Seq<SpecRawSense>) -> Seq<SpecDefinition>
    decreases senses.len(),
{
    if senses.len() == 0 {
        Seq::empty()
    } else {
        match sense_definition(senses[0]) {
            Some(d) => seq![d] + sense_definitions(senses.drop_first()),
            None => sense_definitions(senses.drop_first()),
        }
    }
}

/// The first definitions, at most `MAX_DEFINITIONS_PER_MEANING` of them.
pub open spec fn selected_definitions(senses: Seq<SpecRawSense>) -> Seq<SpecDefinition> {
    let all = sense_definitions(senses);
    if all.len() > MAX_DEFINITIONS_PER_MEANING {
        all.take(MAX_DEFINITIONS_PER_MEANING as int)
    } else {
        all
    }
}

/// The first transcription among the sounds.
pub open spec fn first_phonetic(sounds: Seq<Option<Seq<char>>>) -> Option<Seq<char>>
    decreases sounds.len(),
{
    if sounds.len() == 0 {
        None
    } else if sounds[0] is Some {
        sounds[0]
    } else {
        first_phonetic(sounds.drop_first())
    }
}

/// The fragment an input record gives: none when its language is not
/// selected, its word has no lookup key, or no sense has a definition.
pub open spec fn to_fragment_spec(
    raw: SpecRawEntry,
    languages: Seq<Seq<char>>,
    shard_count: usize,
) -> Option<SpecEntryFragment> {
    if !languages.contains(raw.lang_code) {
        None
    } else {
        match lookup_key_spec(raw.lang_code, raw.word) {
            None => None,
            Some(key) => {
                let definitions = selected_definitions(raw.senses);
                if definitions.len() == 0 {
                    None
                } else {
                    Some(
                        SpecEntryFragment {
                            shard: shard_index_spec(key, shard_count),
                            key,
                            word: raw.word,
                            phonetic: first_phonetic(raw.sounds),
                            source_url: page_url_spec(raw.word),
                            meaning: SpecMeaning { part_of_speech: raw.pos, definitions },
                        },
                    )
                }
            },
        }
    }
}

fn clone_text(s: &Option<String>) -> (r: Option<String>)
    ensures
        opt_text(r) == opt_text(*s),
{
    match s {
        Some(t) => Some(t.clone()),
        None => None,
    }
}

fn find_gloss(glosses: &Vec<String>) -> (r: Option<String>)
    ensures
        opt_text(r) == first_gloss(text_views(glosses@)),
{
    let ghost all = text_views(glosses@);
    let mut i: usize = 0;
    assert(all.skip(0) =~= all);
    while i < glosses.len()
        invariant
            i <= glosses@.len(),
            all == text_views(glosses@),
            first_gloss(all) == first_gloss(all.skip(i as int)),
        decreases glosses@.len() - i,
    {
        assert(all.skip(i as int).drop_first() =~= all.skip(i + 1));
        assert(all.skip(i as int)[0] == glosses@[i as int]@);
        if !is_blank(glosses[i].as_str()) {
            return Some(glosses[i].clone());
        }
        i += 1;
    }
    None
}

fn is_quotation(kind: &Option<String>) -> (r: bool)
    ensures
        r == (opt_text(*kind) == Some("quotation"@)),
{
    match kind {
        Some(k) => {
            let q = "quotation".to_owned();
            *k == q
        },
        None => false,
    }
}

fn find_example(examples: &Vec<RawExample>) -> (r: Option<String>)
    ensures
        opt_text(r) == first_example_text(examples_view(examples@)),
{
    let ghost all = examples_view(examples@);
    let mut i: usize = 0;
    assert(all.skip(0) =~= all);
    while i < examples.len()
        invariant
            i <= examples@.len(),
            all == examples_view(examples@),
            first_example_text(all) == first_example_text(all.skip(i as int)),
        decreases examples@.len() - i,
    {
        assert(all.skip(i as int).drop_first() =~= all.skip(i + 1));
        assert(all.skip(i as int)[0] == examples@[i as int]@);
        let example = &examples[i];
        let quoted = is_quotation(&example.kind) || example.reference.is_some();
        if !quoted && example.text.is_some() {
            return clone_text(&example.text);
        }
        i += 1;
    }
    None
}

fn find_phonetic(sounds: &Vec<RawSound>) -> (r: Option<String>)
    ensures
        opt_text(r) == first_phonetic(sounds_view(sounds@)),
{
    let ghost all = sounds_view(sounds@);
    let mut i: usize = 0;
    assert(all.skip(0) =~= all);
    while i < sounds.len()
        invariant
            i <= sounds@.len(),
            all == sounds_view(sounds@),
            first_phonetic(all) == first_phonetic(all.skip(i as int)),
        decreases sounds@.len() - i,
    {
        assert(all.skip(i as int).drop_first() =~= all.skip(i + 1));
        assert(all.skip(i as int)[0] == opt_text(sounds@[i as int].ipa));
        if sounds[i].ipa.is_some() {
            return clone_text(&sounds[i].ipa);
        }
        i += 1;
    }
    None
}

fn collect_definitions(senses: &Vec<RawSense>) -> (r: Vec<Definition>)
    ensures
        definitions_view(r@) == selected_definitions(
            senses_view(senses@),
        ),
{
    let ghost all = senses_view(senses@);
    let mut out: Vec<Definition> = Vec::new();
    let mut i: usize = 0;
    assert(all.skip(0) =~= all);
    assert(definitions_view(out@) =~= Seq::<SpecDefinition>::empty());
    while i < senses.len() && out.len() < MAX_DEFINITIONS_PER_MEANING
        invariant
            i <= senses@.len(),
            all == senses_view(senses@),
            out@.len() <= MAX_DEFINITIONS_PER_MEANING,
            sense_definitions(all) == definitions_view(out@) + sense_definitions(
                all.skip(i as int),
            ),
        decreases senses@.len() - i,
    {
        assert(all.skip(i as int).drop_first() =~= all.skip(i + 1));
        assert(all.skip(i as int)[0] == senses@[i as int]@);
        let sense = &senses[i];
        let ghost before = definitions_view(out@);
        match find_gloss(&sense.glosses) {
            Some(text) => {
                let example = find_example(&sense.examples);
                out.push(Definition { text, example });
                assert(definitions_view(out@) =~= before.push(
                    sense_definition(senses@[i as int]@).unwrap(),
                ));
                assert(sense_definitions(all) =~= definitions_view(out@)
                    + sense_definitions(all.skip(i + 1)));
            },
            None => {},
        }
        i += 1;
    }
    proof {
        let got = definitions_view(out@);
        if out.len() < MAX_DEFINITIONS_PER_MEANING {
            assert(all.skip(i as int) =~= Seq::<SpecRawSense>::empty());
            assert(sense_definitions(all) =~= got);
        } else {
            assert((got + sense_definitions(all.skip(i as int))).take(
                MAX_DEFINITIONS_PER_MEANING as int,
            ) =~= got);
        }
    }
    out
}

/// The fragment an input record gives, if any: the record's language must
/// be selected, its word must have a lookup key, and at least one sense must
/// have a non-blank gloss. It keeps the first four such definitions (each
/// with its first ordinary usage example), the first transcription, and the
/// word's Wiktionary URL.
pub fn to_fragment(raw: RawEntry, config: &Config) -> (r: Option<EntryFragment>)
    requires
        config.shard_count > 0,
    ensures
        r is Some == to_fragment_spec(raw@, config.language_codes(), config.shard_count) is Some,
        r matches Some(f) ==> Some(f@) == to_fragment_spec(
            raw@,
            config.language_codes(),
            config.shard_count,
        ),
{
    let ghost codes = config.language_codes();
    let mut selected = false;
    let mut i: usize = 0;
    while i < config.languages.len()
        invariant
            i <= config.languages@.len(),
            codes == config.language_codes(),
            selected == exists|j: int| 0 <= j < i && codes[j] == raw.lang_code@,
        decreases config.languages@.len() - i,
    {
        if config.languages[i] == raw.lang_code {
            selected = true;
        }
        assert(codes[i as int] == config.languages@[i as int]@);
        i += 1;
    }
    if !selected {
        return None;
    }
    assert(codes.contains(raw.lang_code@));
    let key = match lookup_key(raw.lang_code.as_str(), raw.word.as_str()) {
        Some(k) => k,
        None => return None,
    };
    let definitions = collect_definitions(&raw.senses);
    if definitions.len() == 0 {
        return None;
    }
    let phonetic = find_phonetic(&raw.sounds);
    let source_url = wiktionary_page_url(raw.word.as_str());
    let shard = shard_index(key.as_str(), config.shard_count);
    let r = EntryFragment {
        shard,
        key,
        word: raw.word,
        phonetic,
        source_url,
        meaning: Meaning { part_of_speech: raw.pos, definitions },
    };
    Some(r)
}

/// A fragment has one to `MAX_DEFINITIONS_PER_MEANING` definitions, the
/// lookup key of its word, and a shard below the shard count.
pub proof fn lemma_fragment_shape(raw: SpecRawEntry, languages: Seq<Seq<char>>, shard_count: usize)
    requires
        shard_count > 0,
    ensures
        to_fragment_spec(raw, languages, shard_count) matches Some(f) ==> {
            &&& 1 <= f.meaning.definitions.len() <= MAX_DEFINITIONS_PER_MEANING
            &&& f.shard < shard_count
            &&& Some(f.key) == lookup_key_spec(raw.lang_code, raw.word)
            &&& f.word == raw.word
            &&& languages.contains(raw.lang_code)
        },
{
    if let Some(f) = to_fragment_spec(raw, languages, shard_count) {
        let h = fnv1a(vstd::utf8::encode_utf8(f.key)) as usize;
        let mask = (shard_count - 1) as usize;
        assert(h & mask <= mask) by (bit_vector);
    }
}

} // verus!
