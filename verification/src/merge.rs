//! Combining fragments into the entries of a shard.
use vstd::prelude::*;
use crate::fragment::MAX_DEFINITIONS_PER_MEANING;
use crate::normalize::shard_index_spec;
use crate::text::{
    compare_text, lemma_text_less_irreflexive, lemma_text_less_transitive, text_less, TextOrder,
};
use crate::model::{
    definitions_view, entries_view, meanings_view, opt_text, Definition, DictionaryEntry,
    EntryFragment, Meaning, SpecDefinition, SpecDictionaryEntry, SpecEntryFragment, SpecMeaning,
};

verus! {

/// The most meanings (parts of speech) that one entry keeps.
pub const MAX_MEANINGS: usize = 6;

pub open spec fn has_definition_text(defs: Seq<SpecDefinition>, text: Seq<char>) -> bool {
    exists|k: int| 0 <= k < defs.len() && (#[trigger] defs[k]).text == text
}

/// Adds the incoming definitions in order, skipping those whose text is
/// already there, and stopping once the meaning holds
/// `MAX_DEFINITIONS_PER_MEANING` definitions.
pub open spec fn merge_definitions(
    existing: Seq<SpecDefinition>,
    incoming: Seq<SpecDefinition>,
) -> Seq<SpecDefinition>
    decreases incoming.len(),
{
    if incoming.len() == 0 || existing.len() == MAX_DEFINITIONS_PER_MEANING {
        existing
    } else {
        let next = if has_definition_text(existing, incoming[0].text) {
            existing
        } else {
            existing.push(incoming[0])
        };
        merge_definitions(next, incoming.drop_first())
    }
}

/// `i` is the first meaning with the given part of speech.
pub open spec fn is_first_meaning_for(meanings: Seq<SpecMeaning>, pos: Seq<char>, i: int) -> bool {
    &&& 0 <= i < meanings.len()
    &&& meanings[i].part_of_speech == pos
    &&& forall|j: int| 0 <= j < i ==> (#[trigger] meanings[j]).part_of_speech != pos
}

pub open spec fn has_meaning_for(meanings: Seq<SpecMeaning>, pos: Seq<char>) -> bool {
    exists|i: int| 0 <= i < meanings.len() && (#[trigger] meanings[i]).part_of_speech == pos
}

/// Adds a meaning: its definitions join the first meaning with the same part
/// of speech; otherwise it is appended while there are fewer than
/// `MAX_MEANINGS` meanings, and dropped after that.
pub open spec fn merge_meanings(meanings: Seq<SpecMeaning>, meaning: SpecMeaning) -> Seq<
    SpecMeaning,
> {
    if has_meaning_for(meanings, meaning.part_of_speech) {
        let i = choose|i: int| is_first_meaning_for(meanings, meaning.part_of_speech, i);
        meanings.update(
            i,
            SpecMeaning {
                part_of_speech: meanings[i].part_of_speech,
                definitions: merge_definitions(meanings[i].definitions, meaning.definitions),
            },
        )
    } else if meanings.len() < MAX_MEANINGS {
        meanings.push(meaning)
    } else {
        meanings
    }
}

/// Merges a fragment's transcription and meaning into an existing entry of
/// the same word; the entry keeps its own transcription when it has one.
pub open spec fn merge_entry(
    entry: SpecDictionaryEntry,
    phonetic: Option<Seq<char>>,
    meaning: SpecMeaning,
) -> SpecDictionaryEntry {
    SpecDictionaryEntry {
        word: entry.word,
        phonetic: if entry.phonetic is Some {
            entry.phonetic
        } else {
            phonetic
        },
        source_url: entry.source_url,
        meanings: merge_meanings(entry.meanings, meaning),
    }
}

/// The entry a fragment starts when its word has none yet.
pub open spec fn new_entry(fragment: SpecEntryFragment) -> SpecDictionaryEntry {
    SpecDictionaryEntry {
        word: fragment.word,
        phonetic: fragment.phonetic,
        source_url: fragment.source_url,
        meanings: seq![fragment.meaning],
    }
}

pub open spec fn is_first_variant_for(
    variants: Seq<SpecDictionaryEntry>,
    word: Seq<char>,
    i: int,
) -> bool {
    &&& 0 <= i < variants.len()
    &&& variants[i].word == word
    &&& forall|j: int| 0 <= j < i ==> (#[trigger] variants[j]).word != word
}

pub open spec fn has_variant_for(variants: Seq<SpecDictionaryEntry>, word: Seq<char>) -> bool {
    exists|i: int| 0 <= i < variants.len() && (#[trigger] variants[i]).word == word
}

/// Adds a fragment to the spelling variants of its key: it merges into the
/// first variant with exactly the same word, or else becomes a new variant
/// at the end.
pub open spec fn merge_variants(
    variants: Seq<SpecDictionaryEntry>,
    fragment: SpecEntryFragment,
) -> Seq<SpecDictionaryEntry> {
    if has_variant_for(variants, fragment.word) {
        let i = choose|i: int| is_first_variant_for(variants, fragment.word, i);
        variants.update(i, merge_entry(variants[i], fragment.phonetic, fragment.meaning))
    } else {
        variants.push(new_entry(fragment))
    }
}

proof fn lemma_first_variant_exists(variants: Seq<SpecDictionaryEntry>, word: Seq<char>)
    requires
        has_variant_for(variants, word),
    ensures
        exists|i: int| is_first_variant_for(variants, word, i),
    decreases variants.len(),
{
    let rest = variants.drop_last();
    if has_variant_for(rest, word) {
        lemma_first_variant_exists(rest, word);
        let i = choose|i: int| is_first_variant_for(rest, word, i);
        assert forall|j: int| 0 <= j < i implies (#[trigger] variants[j]).word != word by {
            assert(variants[j] == rest[j]);
        }
        assert(is_first_variant_for(variants, word, i));
    } else {
        let k = choose|k: int| 0 <= k < variants.len() && (#[trigger] variants[k]).word == word;
        if k < variants.len() - 1 {
            assert(rest[k].word == word);
        }
        assert forall|j: int| 0 <= j < variants.len() - 1 implies (#[trigger] variants[j]).word
            != word by {
            assert(variants[j] == rest[j]);
        }
        assert(is_first_variant_for(variants, word, variants.len() - 1));
    }
}

/// Merging a fragment into variants adds at most one variant.
pub proof fn lemma_merge_variants_len(variants: Seq<SpecDictionaryEntry>, fragment: SpecEntryFragment)
    ensures
        merge_variants(variants, fragment).len() == variants.len() + (if has_variant_for(
            variants,
            fragment.word,
        ) {
            0int
        } else {
            1int
        }),
{
    if has_variant_for(variants, fragment.word) {
        lemma_first_variant_exists(variants, fragment.word);
    }
}

proof fn lemma_first_meaning_exists(meanings: Seq<SpecMeaning>, pos: Seq<char>)
    requires
        has_meaning_for(meanings, pos),
    ensures
        exists|i: int| is_first_meaning_for(meanings, pos, i),
    decreases meanings.len(),
{
    let rest = meanings.drop_last();
    if has_meaning_for(rest, pos) {
        lemma_first_meaning_exists(rest, pos);
        let i = choose|i: int| is_first_meaning_for(rest, pos, i);
        assert forall|j: int| 0 <= j < i implies (#[trigger] meanings[j]).part_of_speech
            != pos by {
            assert(meanings[j] == rest[j]);
        }
        assert(is_first_meaning_for(meanings, pos, i));
    } else {
        let k = choose|k: int|
            0 <= k < meanings.len() && (#[trigger] meanings[k]).part_of_speech == pos;
        if k < meanings.len() - 1 {
            assert(rest[k].part_of_speech == pos);
        }
        assert forall|j: int| 0 <= j < meanings.len() - 1 implies (#[trigger] meanings[j]).part_of_speech
            != pos by {
            assert(meanings[j] == rest[j]);
        }
        assert(is_first_meaning_for(meanings, pos, meanings.len() - 1));
    }
}

/// Merging never takes a meaning past `MAX_DEFINITIONS_PER_MEANING`
/// definitions, and keeps the definitions it had, in front.
pub proof fn lemma_merge_definitions_bounded(
    existing: Seq<SpecDefinition>,
    incoming: Seq<SpecDefinition>,
)
    requires
        existing.len() <= MAX_DEFINITIONS_PER_MEANING,
    ensures
        merge_definitions(existing, incoming).len() <= MAX_DEFINITIONS_PER_MEANING,
        existing.len() <= merge_definitions(existing, incoming).len(),
        merge_definitions(existing, incoming).take(existing.len() as int) == existing,
    decreases incoming.len(),
{
    if incoming.len() == 0 || existing.len() == MAX_DEFINITIONS_PER_MEANING {
        assert(existing.take(existing.len() as int) =~= existing);
    } else {
        let next = if has_definition_text(existing, incoming[0].text) {
            existing
        } else {
            existing.push(incoming[0])
        };
        lemma_merge_definitions_bounded(next, incoming.drop_first());
        let r = merge_definitions(next, incoming.drop_first());
        assert(r.take(existing.len() as int) =~= next.take(existing.len() as int));
        assert(next.take(existing.len() as int) =~= existing);
    }
}

/// No two definitions have the same text.
pub open spec fn texts_distinct(defs: Seq<SpecDefinition>) -> bool {
    forall|i: int, j: int| 0 <= i < j < defs.len() ==> (#[trigger] defs[i]).text != (#[trigger] defs[j]).text
}

/// Merging definitions keeps the existing ones in front and only appends
/// incoming ones; an appended definition never repeats the text of any
/// definition already held, so a meaning whose texts were distinct keeps
/// them distinct.
pub proof fn lemma_merge_definitions_skips_known_texts(
    existing: Seq<SpecDefinition>,
    incoming: Seq<SpecDefinition>,
)
    ensures
        ({
            let r = merge_definitions(existing, incoming);
            &&& existing.len() <= r.len()
            &&& forall|i: int| 0 <= i < existing.len() ==> r[i] == existing[i]
            &&& forall|i: int, j: int|
                0 <= i < j < r.len() && existing.len() <= j ==> (#[trigger] r[i]).text != (
                #[trigger] r[j]).text
            &&& forall|j: int|
                existing.len() <= j < r.len() ==> exists|k: int|
                    0 <= k < incoming.len() && #[trigger] incoming[k] == #[trigger] r[j]
            &&& texts_distinct(existing) ==> texts_distinct(r)
        }),
    decreases incoming.len(),
{
    let r = merge_definitions(existing, incoming);
    if incoming.len() == 0 || existing.len() == MAX_DEFINITIONS_PER_MEANING {
    } else {
        let known = has_definition_text(existing, incoming[0].text);
        let next = if known {
            existing
        } else {
            existing.push(incoming[0])
        };
        let rest = incoming.drop_first();
        lemma_merge_definitions_skips_known_texts(next, rest);
        assert(r == merge_definitions(next, rest));
        if !known {
            assert forall|i: int| 0 <= i < existing.len() implies existing[i].text != incoming[0].text by {
                if existing[i].text == incoming[0].text {
                    assert(has_definition_text(existing, incoming[0].text));
                }
            }
        }
        assert forall|i: int, j: int|
            0 <= i < j < r.len() && existing.len() <= j implies (#[trigger] r[i]).text != (
            #[trigger] r[j]).text by {
            if j < next.len() {
                assert(r[j] == next[j]);
                assert(r[i] == next[i]);
            }
        }
        assert forall|j: int| existing.len() <= j < r.len() implies exists|k: int|
            0 <= k < incoming.len() && #[trigger] incoming[k] == #[trigger] r[j] by {
            if j < next.len() {
                assert(r[j] == incoming[0]);
            } else {
                let k = choose|k: int| 0 <= k < rest.len() && #[trigger] rest[k] == r[j];
                assert(incoming[k + 1] == r[j]);
            }
        }
        if texts_distinct(existing) {
            assert(texts_distinct(next));
        }
    }
}

/// No two variants of a key have the same word.
pub open spec fn words_distinct(variants: Seq<SpecDictionaryEntry>) -> bool {
    forall|i: int, j: int|
        0 <= i < j < variants.len() ==> (#[trigger] variants[i]).word != (#[trigger] variants[j]).word
}

/// Every variant has at most `MAX_MEANINGS` meanings of at most
/// `MAX_DEFINITIONS_PER_MEANING` definitions each.
pub open spec fn within_limits(variants: Seq<SpecDictionaryEntry>) -> bool {
    forall|i: int|
        0 <= i < variants.len() ==> {
            &&& (#[trigger] variants[i]).meanings.len() <= MAX_MEANINGS
            &&& forall|m: int|
                0 <= m < variants[i].meanings.len()
                    ==> (#[trigger] variants[i].meanings[m]).definitions.len()
                    <= MAX_DEFINITIONS_PER_MEANING
        }
}

/// No two meanings have the same part of speech.
pub open spec fn meanings_distinct(meanings: Seq<SpecMeaning>) -> bool {
    forall|i: int, j: int|
        0 <= i < j < meanings.len() ==> (#[trigger] meanings[i]).part_of_speech != (
        #[trigger] meanings[j]).part_of_speech
}

/// Within each variant, the meanings have distinct parts of speech.
pub open spec fn parts_of_speech_distinct(variants: Seq<SpecDictionaryEntry>) -> bool {
    forall|i: int| 0 <= i < variants.len() ==> meanings_distinct(#[trigger] variants[i].meanings)
}

/// The shape every shard keeps: distinct words per key, distinct parts of
/// speech per entry, and the limits on meanings and definitions.
pub open spec fn shard_well_kept(entries: Map<Seq<char>, Seq<SpecDictionaryEntry>>) -> bool {
    forall|k: Seq<char>|
        #[trigger] entries.dom().contains(k) ==> words_distinct(entries[k]) && within_limits(
            entries[k],
        ) && parts_of_speech_distinct(entries[k])
}

/// Merging a meaning keeps the parts of speech of the meanings distinct: its
/// definitions join the meaning of the same part of speech, or it is added
/// under a part of speech not yet there.
proof fn lemma_merge_meanings_distinct(meanings: Seq<SpecMeaning>, meaning: SpecMeaning)
    requires
        meanings_distinct(meanings),
    ensures
        meanings_distinct(merge_meanings(meanings, meaning)),
{
    let pos = meaning.part_of_speech;
    let merged = merge_meanings(meanings, meaning);
    if has_meaning_for(meanings, pos) {
        lemma_first_meaning_exists(meanings, pos);
        let i = choose|i: int| is_first_meaning_for(meanings, pos, i);
        assert forall|a: int, b: int| 0 <= a < b < merged.len() implies (
        #[trigger] merged[a]).part_of_speech != (#[trigger] merged[b]).part_of_speech by {
            assert(merged[a].part_of_speech == meanings[a].part_of_speech);
            assert(merged[b].part_of_speech == meanings[b].part_of_speech);
        }
    } else if meanings.len() < MAX_MEANINGS {
        assert forall|a: int, b: int| 0 <= a < b < merged.len() implies (
        #[trigger] merged[a]).part_of_speech != (#[trigger] merged[b]).part_of_speech by {
            if b == meanings.len() {
                assert(merged[a] == meanings[a]);
            } else {
                assert(merged[a] == meanings[a]);
                assert(merged[b] == meanings[b]);
            }
        }
    }
}

proof fn lemma_merge_meanings_bounded(meanings: Seq<SpecMeaning>, meaning: SpecMeaning)
    requires
        meanings.len() <= MAX_MEANINGS,
        forall|m: int|
            0 <= m < meanings.len() ==> (#[trigger] meanings[m]).definitions.len()
                <= MAX_DEFINITIONS_PER_MEANING,
        meaning.definitions.len() <= MAX_DEFINITIONS_PER_MEANING,
    ensures
        merge_meanings(meanings, meaning).len() <= MAX_MEANINGS,
        forall|m: int|
            0 <= m < merge_meanings(meanings, meaning).len() ==> (#[trigger] merge_meanings(
                meanings,
                meaning,
            )[m]).definitions.len() <= MAX_DEFINITIONS_PER_MEANING,
{
    if has_meaning_for(meanings, meaning.part_of_speech) {
        lemma_first_meaning_exists(meanings, meaning.part_of_speech);
        let i = choose|i: int| is_first_meaning_for(meanings, meaning.part_of_speech, i);
        lemma_merge_definitions_bounded(meanings[i].definitions, meaning.definitions);
    }
}

/// Merging a fragment whose meaning has at most `MAX_DEFINITIONS_PER_MEANING`
/// definitions keeps a shard well kept (distinct words per key, distinct
/// parts of speech per entry, the limits on meanings and definitions), keeps
/// every word that had an entry under a key, and leaves a variant with the
/// fragment's word under the fragment's key.
pub proof fn lemma_merge_keeps_shard_well_kept(
    entries: Map<Seq<char>, Seq<SpecDictionaryEntry>>,
    fragment: SpecEntryFragment,
)
    requires
        shard_well_kept(entries),
        fragment.meaning.definitions.len() <= MAX_DEFINITIONS_PER_MEANING,
    ensures
        shard_well_kept(merge_into_shard(entries, fragment)),
        has_variant_for(merge_into_shard(entries, fragment)[fragment.key], fragment.word),
        forall|key: Seq<char>, word: Seq<char>|
            #[trigger] has_variant_for(variants_for(entries, key), word) ==> has_variant_for(
                variants_for(merge_into_shard(entries, fragment), key),
                word,
            ),
{
    assert forall|key: Seq<char>, word: Seq<char>|
        #[trigger] has_variant_for(variants_for(entries, key), word) implies has_variant_for(
            variants_for(merge_into_shard(entries, fragment), key),
            word,
        ) by {
        lemma_merge_keeps_variants(entries, fragment, key, word);
    }
    let vs = variants_for(entries, fragment.key);
    assert(words_distinct(vs) && within_limits(vs) && parts_of_speech_distinct(vs));
    let merged = merge_variants(vs, fragment);
    if has_variant_for(vs, fragment.word) {
        lemma_first_variant_exists(vs, fragment.word);
        let i = choose|i: int| is_first_variant_for(vs, fragment.word, i);
        lemma_merge_meanings_bounded(vs[i].meanings, fragment.meaning);
        lemma_merge_meanings_distinct(vs[i].meanings, fragment.meaning);
        assert(parts_of_speech_distinct(merged)) by {
            assert forall|a: int| 0 <= a < merged.len() implies meanings_distinct(
                #[trigger] merged[a].meanings,
            ) by {
                if a != i {
                    assert(merged[a] == vs[a]);
                }
            }
        }
        assert(merged[i].word == fragment.word);
        assert(words_distinct(merged)) by {
            assert forall|a: int, b: int| 0 <= a < b < merged.len() implies (
            #[trigger] merged[a]).word != (#[trigger] merged[b]).word by {
                assert(vs[a].word != vs[b].word);
            }
        }
        assert(within_limits(merged)) by {
            assert forall|a: int| 0 <= a < merged.len() implies {
                &&& (#[trigger] merged[a]).meanings.len() <= MAX_MEANINGS
                &&& forall|m: int|
                    0 <= m < merged[a].meanings.len()
                        ==> (#[trigger] merged[a].meanings[m]).definitions.len()
                        <= MAX_DEFINITIONS_PER_MEANING
            } by {
                if a != i {
                    assert(merged[a] == vs[a]);
                }
            }
        }
    } else {
        let n = new_entry(fragment);
        assert(merged[vs.len() as int] == n);
        assert(parts_of_speech_distinct(merged)) by {
            assert forall|a: int| 0 <= a < merged.len() implies meanings_distinct(
                #[trigger] merged[a].meanings,
            ) by {
                if a < vs.len() {
                    assert(merged[a] == vs[a]);
                } else {
                    assert(merged[a].meanings =~= seq![fragment.meaning]);
                }
            }
        }
        assert(words_distinct(merged)) by {
            assert forall|a: int, b: int| 0 <= a < b < merged.len() implies (
            #[trigger] merged[a]).word != (#[trigger] merged[b]).word by {
                if b == vs.len() {
                    assert(merged[a] == vs[a]);
                } else {
                    assert(vs[a].word != vs[b].word);
                }
            }
        }
        assert(within_limits(merged)) by {
            assert forall|a: int| 0 <= a < merged.len() implies {
                &&& (#[trigger] merged[a]).meanings.len() <= MAX_MEANINGS
                &&& forall|m: int|
                    0 <= m < merged[a].meanings.len()
                        ==> (#[trigger] merged[a].meanings[m]).definitions.len()
                        <= MAX_DEFINITIONS_PER_MEANING
            } by {
                if a < vs.len() {
                    assert(merged[a] == vs[a]);
                } else {
                    assert(merged[a].meanings =~= seq![fragment.meaning]);
                }
            }
        }
    }
    let result = merge_into_shard(entries, fragment);
    assert forall|k: Seq<char>| #[trigger] result.dom().contains(k) implies words_distinct(result[k])
        && within_limits(result[k]) && parts_of_speech_distinct(result[k]) by {
        if k != fragment.key {
            assert(entries.dom().contains(k));
        }
    }
}

/// Merging a fragment drops no variant: a word that had an entry under a
/// key still has one there afterwards, so spellings that share a lookup key
/// stay separate variants of it.
pub proof fn lemma_merge_keeps_variants(
    entries: Map<Seq<char>, Seq<SpecDictionaryEntry>>,
    fragment: SpecEntryFragment,
    key: Seq<char>,
    word: Seq<char>,
)
    requires
        has_variant_for(variants_for(entries, key), word),
    ensures
        has_variant_for(variants_for(merge_into_shard(entries, fragment), key), word),
{
    if key == fragment.key {
        let vs = variants_for(entries, key);
        let merged = merge_variants(vs, fragment);
        let k = choose|k: int| 0 <= k < vs.len() && (#[trigger] vs[k]).word == word;
        if has_variant_for(vs, fragment.word) {
            lemma_first_variant_exists(vs, fragment.word);
            let i = choose|i: int| is_first_variant_for(vs, fragment.word, i);
            assert(merged[k].word == word);
        } else {
            assert(merged[k] == vs[k]);
        }
        assert(variants_for(merge_into_shard(entries, fragment), key) == merged);
    } else {
        assert(variants_for(merge_into_shard(entries, fragment), key) == variants_for(entries, key));
    }
}

fn has_text(defs: &Vec<Definition>, text: &String) -> (r: bool)
    ensures
        r == has_definition_text(definitions_view(defs@), text@),
{
    let ghost view = definitions_view(defs@);
    let mut i: usize = 0;
    while i < defs.len()
        invariant
            i <= defs@.len(),
            view == definitions_view(defs@),
            forall|k: int| 0 <= k < i ==> (#[trigger] view[k]).text != text@,
        decreases defs@.len() - i,
    {
        if defs[i].text == *text {
            assert(view[i as int].text == text@);
            return true;
        }
        i += 1;
    }
    false
}

fn merge_definitions_into(defs: &mut Vec<Definition>, incoming: Vec<Definition>)
    ensures
        definitions_view(final(defs)@) == merge_definitions(
            definitions_view(old(defs)@),
            definitions_view(incoming@),
        ),
{
    let ghost all_incoming = incoming@;
    let mut incoming = incoming;
    while incoming.len() > 0 && defs.len() != MAX_DEFINITIONS_PER_MEANING
        invariant
            merge_definitions(definitions_view(defs@), definitions_view(incoming@))
                == merge_definitions(
                definitions_view(old(defs)@),
                definitions_view(all_incoming),
            ),
        decreases incoming@.len(),
    {
        let ghost before = definitions_view(defs@);
        let ghost rest = definitions_view(incoming@);
        let definition = incoming.remove(0);
        assert(definitions_view(incoming@) =~= rest.drop_first());
        if !has_text(defs, &definition.text) {
            defs.push(definition);
            assert(definitions_view(defs@) =~= before.push(rest[0]));
        }
    }
}

fn merge_into_entry(entry: &mut DictionaryEntry, phonetic: Option<String>, meaning: Meaning)
    ensures
        final(entry)@ == merge_entry(old(entry)@, opt_text(phonetic), meaning@),
{
    if entry.phonetic.is_none() {
        entry.phonetic = phonetic;
    }
    let ghost meanings = meanings_view(entry.meanings@);
    let ghost pos = meaning@.part_of_speech;
    let mut i: usize = 0;
    let mut found = false;
    while i < entry.meanings.len() && !found
        invariant
            i <= entry.meanings@.len(),
            meanings == meanings_view(entry.meanings@),
            pos == meaning@.part_of_speech,
            found ==> i < meanings.len() && meanings[i as int].part_of_speech == pos,
            forall|j: int| 0 <= j < i ==> (#[trigger] meanings[j]).part_of_speech != pos,
        decreases entry.meanings@.len() - i, if found { 0int } else { 1int },
    {
        if entry.meanings[i].part_of_speech == meaning.part_of_speech {
            found = true;
        } else {
            assert(meanings[i as int].part_of_speech != pos);
            i += 1;
        }
    }
    if found {
        assert(is_first_meaning_for(meanings, pos, i as int));
        assert(has_meaning_for(meanings, pos));
        let ghost chosen = choose|k: int| is_first_meaning_for(meanings, pos, k);
        assert(chosen == i);
        let ghost old_definitions = definitions_view(entry.meanings@[i as int].definitions@);
        let slot = &mut entry.meanings[i];
        merge_definitions_into(&mut slot.definitions, meaning.definitions);
        assert(meanings_view(entry.meanings@) =~= merge_meanings(meanings, meaning@));
    } else {
        assert(!has_meaning_for(meanings, pos));
        if entry.meanings.len() < MAX_MEANINGS {
            entry.meanings.push(meaning);
            assert(meanings_view(entry.meanings@) =~= meanings.push(meaning@));
        }
    }
}

fn merge_into_variants(variants: &mut Vec<DictionaryEntry>, fragment: EntryFragment)
    ensures
        entries_view(final(variants)@) == merge_variants(entries_view(old(variants)@), fragment@),
{
    let ghost entries = entries_view(variants@);
    let ghost f = fragment@;
    let mut i: usize = 0;
    let mut found = false;
    while i < variants.len() && !found
        invariant
            i <= variants@.len(),
            entries == entries_view(variants@),
            f == fragment@,
            found ==> i < entries.len() && entries[i as int].word == f.word,
            forall|j: int| 0 <= j < i ==> (#[trigger] entries[j]).word != f.word,
        decreases variants@.len() - i, if found { 0int } else { 1int },
    {
        if variants[i].word == fragment.word {
            found = true;
        } else {
            assert(entries[i as int].word != f.word);
            i += 1;
        }
    }
    if found {
        assert(is_first_variant_for(entries, f.word, i as int));
        assert(has_variant_for(entries, f.word));
        let ghost chosen = choose|k: int| is_first_variant_for(entries, f.word, k);
        assert(chosen == i);
        let EntryFragment { shard: _, key: _, word: _, phonetic, source_url: _, meaning } = fragment;
        merge_into_entry(&mut variants[i], phonetic, meaning);
        assert(entries_view(variants@) =~= merge_variants(entries, f));
    } else {
        assert(!has_variant_for(entries, f.word));
        let EntryFragment { shard: _, key: _, word, phonetic, source_url, meaning } = fragment;
        let mut meanings: Vec<Meaning> = Vec::new();
        meanings.push(meaning);
        variants.push(DictionaryEntry { word, phonetic, source_url, meanings });
        assert(meanings_view(meanings@) =~= seq![f.meaning]);
        assert(entries_view(variants@) =~= entries.push(new_entry(f)));
    }
}

/// A lookup key with its spelling variants.
pub struct KeyedVariants {
    pub key: String,
    pub variants: Vec<DictionaryEntry>,
}

/// The entries of one shard, by lookup key.
pub struct ShardEntries {
    /// The keys in increasing order (see `text_less`), each once.
    pub items: Vec<KeyedVariants>,
}

/// Keys strictly increasing, hence each key once.
pub open spec fn keys_increasing(items: Seq<KeyedVariants>) -> bool {
    forall|i: int, j: int|
        0 <= i < j < items.len() ==> text_less(#[trigger] items[i].key@, #[trigger] items[j].key@)
}

pub open spec fn has_key(items: Seq<KeyedVariants>, key: Seq<char>) -> bool {
    exists|i: int| 0 <= i < items.len() && (#[trigger] items[i]).key@ == key
}

/// The position of `key`, when present.
pub open spec fn key_index(items: Seq<KeyedVariants>, key: Seq<char>) -> int {
    choose|i: int| 0 <= i < items.len() && (#[trigger] items[i]).key@ == key
}

/// The map from each key to its variants.
pub open spec fn items_map(items: Seq<KeyedVariants>) -> Map<Seq<char>, Seq<SpecDictionaryEntry>> {
    Map::new(
        |k: Seq<char>| has_key(items, k),
        |k: Seq<char>| entries_view(items[key_index(items, k)].variants@),
    )
}

impl View for ShardEntries {
    type V = Map<Seq<char>, Seq<SpecDictionaryEntry>>;

    open spec fn view(&self) -> Map<Seq<char>, Seq<SpecDictionaryEntry>> {
        items_map(self.items@)
    }
}

impl ShardEntries {
    pub open spec fn wf(&self) -> bool {
        keys_increasing(self.items@)
    }

    /// A shard with no entries.
    pub fn new() -> (r: ShardEntries)
        ensures
            r.wf(),
            r@ == Map::<Seq<char>, Seq<SpecDictionaryEntry>>::empty(),
            r.total() == 0,
    {
        let r = ShardEntries { items: Vec::new() };
        assert(r@ =~= Map::<Seq<char>, Seq<SpecDictionaryEntry>>::empty());
        r
    }
}

/// The number of dictionary entries (variants over all keys).
pub open spec fn total_variants(items: Seq<KeyedVariants>) -> nat
    decreases items.len(),
{
    if items.len() == 0 {
        0
    } else {
        total_variants(items.drop_last()) + items.last().variants@.len()
    }
}

proof fn lemma_total_update(items: Seq<KeyedVariants>, p: int, item: KeyedVariants)
    requires
        0 <= p < items.len(),
    ensures
        total_variants(items.update(p, item)) + items[p].variants@.len() == total_variants(items)
            + item.variants@.len(),
    decreases items.len(),
{
    if p < items.len() - 1 {
        assert(items.update(p, item).drop_last() =~= items.drop_last().update(p, item));
        lemma_total_update(items.drop_last(), p, item);
    } else {
        assert(items.update(p, item).drop_last() =~= items.drop_last());
    }
}

proof fn lemma_total_insert(items: Seq<KeyedVariants>, p: int, item: KeyedVariants)
    requires
        0 <= p <= items.len(),
    ensures
        total_variants(items.insert(p, item)) == total_variants(items) + item.variants@.len(),
    decreases items.len(),
{
    if p < items.len() {
        assert(items.insert(p, item).drop_last() =~= items.drop_last().insert(p, item));
        lemma_total_insert(items.drop_last(), p, item);
    } else {
        assert(items.insert(p, item).drop_last() =~= items);
    }
}

impl ShardEntries {
    /// The number of dictionary entries of the shard.
    pub open spec fn total(&self) -> nat {
        total_variants(self.items@)
    }

    /// Counts the dictionary entries of the shard (the variants of all keys).
    pub fn entry_count(&self) -> (r: usize)
        requires
            self.total() <= usize::MAX,
        ensures
            r == self.total(),
    {
        let mut count: usize = 0;
        let mut i: usize = 0;
        while i < self.items.len()
            invariant
                i <= self.items@.len(),
                self.total() <= usize::MAX,
                count == total_variants(self.items@.take(i as int)),
            decreases self.items@.len() - i,
        {
            assert(self.items@.take(i + 1).drop_last() =~= self.items@.take(i as int));
            proof {
                lemma_total_prefix(self.items@, i + 1);
            }
            count = count + self.items[i].variants.len();
            i += 1;
        }
        assert(self.items@.take(i as int) =~= self.items@);
        count
    }
}

impl ShardEntries {
    /// Counts the dictionary entries of the shard, or `None` when the count
    /// does not fit in a `usize`.
    pub fn checked_entry_count(&self) -> (r: Option<usize>)
        ensures
            r matches Some(n) ==> n == self.total(),
            r is None <==> self.total() > usize::MAX,
    {
        let mut count: usize = 0;
        let mut i: usize = 0;
        while i < self.items.len()
            invariant
                i <= self.items@.len(),
                count == total_variants(self.items@.take(i as int)),
            decreases self.items@.len() - i,
        {
            assert(self.items@.take(i + 1).drop_last() =~= self.items@.take(i as int));
            match count.checked_add(self.items[i].variants.len()) {
                Some(next) => {
                    count = next;
                },
                None => {
                    proof {
                        lemma_total_prefix(self.items@, i + 1);
                    }
                    return None;
                },
            }
            i += 1;
        }
        assert(self.items@.take(i as int) =~= self.items@);
        Some(count)
    }
}

proof fn lemma_total_prefix(items: Seq<KeyedVariants>, n: int)
    requires
        0 <= n <= items.len(),
    ensures
        total_variants(items.take(n)) <= total_variants(items),
    decreases items.len(),
{
    if n < items.len() {
        assert(items.drop_last().take(n) =~= items.take(n));
        lemma_total_prefix(items.drop_last(), n);
    } else {
        assert(items.take(n) =~= items);
    }
}

/// The variants stored under `key`, none when the key is absent.
pub open spec fn variants_for(
    entries: Map<Seq<char>, Seq<SpecDictionaryEntry>>,
    key: Seq<char>,
) -> Seq<SpecDictionaryEntry> {
    if entries.dom().contains(key) {
        entries[key]
    } else {
        Seq::empty()
    }
}

/// Adds a fragment to the entries of a shard, under its key.
pub open spec fn merge_into_shard(
    entries: Map<Seq<char>, Seq<SpecDictionaryEntry>>,
    fragment: SpecEntryFragment,
) -> Map<Seq<char>, Seq<SpecDictionaryEntry>> {
    entries.insert(fragment.key, merge_variants(variants_for(entries, fragment.key), fragment))
}

proof fn lemma_items_map_at(items: Seq<KeyedVariants>, i: int)
    requires
        keys_increasing(items),
        0 <= i < items.len(),
    ensures
        items_map(items).dom().contains(items[i].key@),
        items_map(items)[items[i].key@] == entries_view(items[i].variants@),
{
    let k = items[i].key@;
    assert(has_key(items, k));
    let j = key_index(items, k);
    if j < i {
        assert(text_less(items[j].key@, items[i].key@));
        lemma_text_less_irreflexive(k);
    } else if i < j {
        assert(text_less(items[i].key@, items[j].key@));
        lemma_text_less_irreflexive(k);
    }
    assert(j == i);
    assert(items_map(items)[k] == entries_view(items[j].variants@));
}

/// Replacing the variants of the key at `p` changes the map at that key only.
proof fn lemma_items_map_update(old_items: Seq<KeyedVariants>, new_items: Seq<KeyedVariants>, p: int)
    requires
        keys_increasing(old_items),
        0 <= p < old_items.len(),
        new_items.len() == old_items.len(),
        new_items[p].key@ == old_items[p].key@,
        forall|j: int| 0 <= j < old_items.len() && j != p ==> new_items[j] == old_items[j],
    ensures
        keys_increasing(new_items),
        items_map(new_items) == items_map(old_items).insert(
            old_items[p].key@,
            entries_view(new_items[p].variants@),
        ),
{
    let key = old_items[p].key@;
    let expected = items_map(old_items).insert(key, entries_view(new_items[p].variants@));
    assert forall|j: int| 0 <= j < new_items.len() implies #[trigger] new_items[j].key@
        == old_items[j].key@ by {
        if j != p {
            assert(new_items[j] == old_items[j]);
        }
    }
    assert(keys_increasing(new_items));
    assert forall|k: Seq<char>| #[trigger] has_key(new_items, k) == has_key(old_items, k) by {
        if has_key(new_items, k) {
            let j = choose|j: int| 0 <= j < new_items.len() && (#[trigger] new_items[j]).key@ == k;
            assert(old_items[j].key@ == k);
        }
        if has_key(old_items, k) {
            let j = choose|j: int| 0 <= j < old_items.len() && (#[trigger] old_items[j]).key@ == k;
            assert(new_items[j].key@ == k);
        }
    }
    assert forall|k: Seq<char>| #[trigger] has_key(new_items, k) implies items_map(new_items)[k]
        == expected[k] by {
        let j = choose|j: int| 0 <= j < new_items.len() && (#[trigger] new_items[j]).key@ == k;
        lemma_items_map_at(new_items, j);
        lemma_items_map_at(old_items, j);
        if j != p {
            if j < p {
                assert(text_less(old_items[j].key@, key));
            } else {
                assert(text_less(key, old_items[j].key@));
            }
            if k == key {
                lemma_text_less_irreflexive(k);
            }
        }
    }
    lemma_items_map_at(old_items, p);
    assert(items_map(new_items) =~= expected);
}

/// Inserting a new key at its place in the order adds that key to the map.
proof fn lemma_items_map_insert(old_items: Seq<KeyedVariants>, p: int, item: KeyedVariants)
    requires
        keys_increasing(old_items),
        0 <= p <= old_items.len(),
        forall|j: int| 0 <= j < p ==> text_less(#[trigger] old_items[j].key@, item.key@),
        forall|j: int| p <= j < old_items.len() ==> text_less(item.key@, #[trigger] old_items[j].key@),
    ensures
        !has_key(old_items, item.key@),
        keys_increasing(old_items.insert(p, item)),
        items_map(old_items.insert(p, item)) == items_map(old_items).insert(
            item.key@,
            entries_view(item.variants@),
        ),
{
    let key = item.key@;
    let new_items = old_items.insert(p, item);
    let expected = items_map(old_items).insert(key, entries_view(item.variants@));
    if has_key(old_items, key) {
        let j = choose|j: int| 0 <= j < old_items.len() && (#[trigger] old_items[j]).key@ == key;
        lemma_text_less_irreflexive(key);
    }
    assert forall|i: int, j: int| 0 <= i < j < new_items.len() implies text_less(
        #[trigger] new_items[i].key@,
        #[trigger] new_items[j].key@,
    ) by {
        if i < p && j > p {
            lemma_text_less_transitive(new_items[i].key@, key, new_items[j].key@);
        }
    }
    assert forall|k: Seq<char>| #[trigger] has_key(new_items, k) == (has_key(old_items, k) || k
        == key) by {
        if has_key(new_items, k) {
            let j = choose|j: int| 0 <= j < new_items.len() && (#[trigger] new_items[j]).key@ == k;
            if j < p {
                assert(old_items[j].key@ == k);
            } else if j > p {
                assert(old_items[j - 1].key@ == k);
            }
        }
        if has_key(old_items, k) {
            let j = choose|j: int| 0 <= j < old_items.len() && (#[trigger] old_items[j]).key@ == k;
            if j < p {
                assert(new_items[j].key@ == k);
            } else {
                assert(new_items[j + 1].key@ == k);
            }
        }
        if k == key {
            assert(new_items[p].key@ == k);
        }
    }
    assert forall|k: Seq<char>| #[trigger] has_key(new_items, k) implies items_map(new_items)[k]
        == expected[k] by {
        let j = choose|j: int| 0 <= j < new_items.len() && (#[trigger] new_items[j]).key@ == k;
        lemma_items_map_at(new_items, j);
        if j < p {
            lemma_items_map_at(old_items, j);
        } else if j > p {
            lemma_items_map_at(old_items, j - 1);
        }
    }
    assert(items_map(new_items) =~= expected);
}

/// Adds a fragment to the entries of a shard: under its key, the fragment
/// merges into the variant with the same word, or becomes a new variant.
pub fn merge_fragment(entries: &mut ShardEntries, fragment: EntryFragment)
    requires
        old(entries).wf(),
    ensures
        final(entries).wf(),
        final(entries)@ == merge_into_shard(old(entries)@, fragment@),
        old(entries).total() <= final(entries).total() <= old(entries).total() + 1,
{
    let ghost old_items = entries.items@;
    let ghost f = fragment@;
    let mut p: usize = 0;
    let mut found = false;
    let mut beyond = false;
    while p < entries.items.len() && !found && !beyond
        invariant
            entries.items@ == old_items,
            keys_increasing(old_items),
            f == fragment@,
            p <= old_items.len(),
            found ==> p < old_items.len() && old_items[p as int].key@ == f.key,
            beyond ==> p < old_items.len() && text_less(f.key, old_items[p as int].key@),
            !(found && beyond),
            forall|j: int| 0 <= j < p ==> text_less(#[trigger] old_items[j].key@, f.key),
        decreases old_items.len() - p, if found || beyond { 0int } else { 1int },
    {
        match compare_text(entries.items[p].key.as_str(), fragment.key.as_str()) {
            TextOrder::Less => {
                p += 1;
            },
            TextOrder::Equal => {
                found = true;
            },
            TextOrder::Greater => {
                beyond = true;
            },
        }
    }
    let ghost old_map = items_map(old_items);
    if found {
        proof {
            lemma_items_map_at(old_items, p as int);
        }
        let ghost old_variants = entries_view(old_items[p as int].variants@);
        merge_into_variants(&mut entries.items[p].variants, fragment);
        proof {
            let new_items = entries.items@;
            lemma_items_map_update(old_items, new_items, p as int);
            assert(new_items =~= old_items.update(p as int, new_items[p as int]));
            lemma_total_update(old_items, p as int, new_items[p as int]);
            lemma_merge_variants_len(old_variants, f);
        }
    } else {
        proof {
            assert forall|j: int| p <= j < old_items.len() implies text_less(
                f.key,
                #[trigger] old_items[j].key@,
            ) by {
                if j > p {
                    lemma_text_less_transitive(f.key, old_items[p as int].key@, old_items[j].key@);
                }
            }
        }
        let mut variants: Vec<DictionaryEntry> = Vec::new();
        let key = fragment.key.clone();
        assert(entries_view(variants@) =~= Seq::<SpecDictionaryEntry>::empty());
        merge_into_variants(&mut variants, fragment);
        let item = KeyedVariants { key, variants };
        proof {
            lemma_items_map_insert(old_items, p as int, item);
            lemma_total_insert(old_items, p as int, item);
            lemma_merge_variants_len(Seq::<SpecDictionaryEntry>::empty(), f);
        }
        entries.items.insert(p, item);
    }
}

/// The entries that a sequence of fragments merges into, in order.
pub open spec fn merged_entries(fragments: Seq<SpecEntryFragment>) -> Map<
    Seq<char>,
    Seq<SpecDictionaryEntry>,
>
    decreases fragments.len(),
{
    if fragments.len() == 0 {
        Map::empty()
    } else {
        merge_into_shard(merged_entries(fragments.drop_last()), fragments.last())
    }
}

/// The fragments that belong to one shard, in their order.
pub open spec fn fragments_of_shard(fragments: Seq<SpecEntryFragment>, shard: usize) -> Seq<
    SpecEntryFragment,
> {
    fragments.filter(|f: SpecEntryFragment| f.shard == shard)
}

proof fn lemma_no_fragments_of_shard(fragments: Seq<SpecEntryFragment>, shard: usize)
    requires
        forall|j: int| 0 <= j < fragments.len() ==> (#[trigger] fragments[j]).shard != shard,
    ensures
        fragments_of_shard(fragments, shard) =~= Seq::<SpecEntryFragment>::empty(),
    decreases fragments.len(),
{
    reveal(Seq::filter);
    if fragments.len() > 0 {
        lemma_no_fragments_of_shard(fragments.drop_last(), shard);
    }
}

proof fn lemma_fragments_of_shard_step(fragments: Seq<SpecEntryFragment>, shard: usize)
    requires
        fragments.len() > 0,
    ensures
        fragments_of_shard(fragments, shard) == (if fragments.last().shard == shard {
            fragments_of_shard(fragments.drop_last(), shard).push(fragments.last())
        } else {
            fragments_of_shard(fragments.drop_last(), shard)
        }),
{
    reveal(Seq::filter);
}

/// The keys that the entries of a shard hold are the keys of the fragments
/// of that shard.
pub proof fn lemma_shard_keys(fragments: Seq<SpecEntryFragment>, shard: usize, key: Seq<char>)
    ensures
        merged_entries(fragments_of_shard(fragments, shard)).dom().contains(key) <==> exists|i: int|
            0 <= i < fragments.len() && (#[trigger] fragments[i]).shard == shard && fragments[i].key
                == key,
    decreases fragments.len(),
{
    if fragments.len() == 0 {
        lemma_no_fragments_of_shard(fragments, shard);
    } else {
        let rest = fragments.drop_last();
        let last = fragments.last();
        lemma_shard_keys(rest, shard, key);
        lemma_fragments_of_shard_step(fragments, shard);
        let before = fragments_of_shard(rest, shard);
        if last.shard == shard {
            assert(before.push(last).drop_last() =~= before);
        }
        if exists|i: int| 0 <= i < rest.len() && (#[trigger] rest[i]).shard == shard && rest[i].key == key {
            let i = choose|i: int| 0 <= i < rest.len() && (#[trigger] rest[i]).shard == shard && rest[i].key == key;
            assert(fragments[i] == rest[i]);
        }
        if exists|i: int| 0 <= i < fragments.len() && (#[trigger] fragments[i]).shard == shard && fragments[i].key
            == key {
            let i = choose|i: int|
                0 <= i < fragments.len() && (#[trigger] fragments[i]).shard == shard && fragments[i].key == key;
            if i < rest.len() {
                assert(rest[i] == fragments[i]);
            }
        }
    }
}

/// The group of the shard of `key` holds `key`.
pub open spec fn held_in_its_shard(groups: Seq<ShardGroup>, key: Seq<char>, shard_count: usize) -> bool {
    exists|a: int|
        0 <= a < groups.len() && (#[trigger] groups[a]).shard == shard_index_spec(key, shard_count)
            && groups[a].entries@.dom().contains(key)
}

/// The lookup contract. When each fragment's shard is the shard of its key,
/// a group holds only keys whose shard is the group's, and the key of every
/// fragment is held by the group of that key's shard: reading the shard
/// that the hash of a key names finds every entry of the key.
pub proof fn lemma_keys_live_in_their_shard(
    groups: Seq<ShardGroup>,
    fragments: Seq<SpecEntryFragment>,
    shard_count: usize,
)
    requires
        groups_match(groups, fragments),
        forall|i: int|
            0 <= i < fragments.len() ==> (#[trigger] fragments[i]).shard == shard_index_spec(
                fragments[i].key,
                shard_count,
            ),
    ensures
        forall|a: int, key: Seq<char>|
            0 <= a < groups.len() && (#[trigger] groups[a].entries@.dom().contains(key))
                ==> groups[a].shard == shard_index_spec(key, shard_count),
        forall|i: int|
            0 <= i < fragments.len() ==> held_in_its_shard(
                groups,
                (#[trigger] fragments[i]).key,
                shard_count,
            ),
{
    assert forall|a: int, key: Seq<char>|
        0 <= a < groups.len() && (#[trigger] groups[a].entries@.dom().contains(key)) implies groups[a].shard
        == shard_index_spec(key, shard_count) by {
        lemma_shard_keys(fragments, groups[a].shard, key);
        let i = choose|i: int|
            0 <= i < fragments.len() && (#[trigger] fragments[i]).shard == groups[a].shard
                && fragments[i].key == key;
    }
    assert forall|i: int| 0 <= i < fragments.len() implies held_in_its_shard(
        groups,
        (#[trigger] fragments[i]).key,
        shard_count,
    ) by {
        let s = fragments[i].shard;
        assert(has_shard(fragments, s));
        assert(has_group(groups, s));
        let a = choose|a: int| 0 <= a < groups.len() && (#[trigger] groups[a]).shard == s;
        lemma_shard_keys(fragments, s, fragments[i].key);
    }
}

/// A shard that merges fragments of at most `MAX_DEFINITIONS_PER_MEANING`
/// definitions each is well kept: distinct words per key, distinct parts of
/// speech per entry, at most `MAX_MEANINGS` meanings per entry and
/// `MAX_DEFINITIONS_PER_MEANING` definitions per meaning.
pub proof fn lemma_merged_entries_well_kept(fragments: Seq<SpecEntryFragment>)
    requires
        forall|i: int|
            0 <= i < fragments.len() ==> (#[trigger] fragments[i]).meaning.definitions.len()
                <= MAX_DEFINITIONS_PER_MEANING,
    ensures
        shard_well_kept(merged_entries(fragments)),
    decreases fragments.len(),
{
    if fragments.len() > 0 {
        let rest = fragments.drop_last();
        assert forall|i: int| 0 <= i < rest.len() implies (
        #[trigger] rest[i]).meaning.definitions.len() <= MAX_DEFINITIONS_PER_MEANING by {
            assert(rest[i] == fragments[i]);
        }
        lemma_merged_entries_well_kept(rest);
        lemma_merge_keeps_shard_well_kept(merged_entries(rest), fragments.last());
    }
}

/// The entries of one shard.
pub struct ShardGroup {
    pub shard: usize,
    pub entries: ShardEntries,
}

pub open spec fn fragment_views(v: Seq<EntryFragment>) -> Seq<SpecEntryFragment> {
    v.map_values(|f: EntryFragment| f@)
}

pub open spec fn has_group(groups: Seq<ShardGroup>, shard: usize) -> bool {
    exists|a: int| 0 <= a < groups.len() && (#[trigger] groups[a]).shard == shard
}

pub open spec fn has_shard(fragments: Seq<SpecEntryFragment>, shard: usize) -> bool {
    exists|i: int| 0 <= i < fragments.len() && (#[trigger] fragments[i]).shard == shard
}

/// The groups are by increasing shard, each shard once, and each group
/// holds the merged fragments of its shard.
pub open spec fn groups_match(groups: Seq<ShardGroup>, fragments: Seq<SpecEntryFragment>) -> bool {
    &&& forall|a: int, b: int|
        0 <= a < b < groups.len() ==> (#[trigger] groups[a]).shard < (#[trigger] groups[b]).shard
    &&& forall|a: int|
        0 <= a < groups.len() ==> (#[trigger] groups[a]).entries.wf() && groups[a].entries@
            == merged_entries(fragments_of_shard(fragments, groups[a].shard))
    &&& forall|s: usize|
        #![trigger has_group(groups, s)]
        #![trigger has_shard(fragments, s)]
        has_group(groups, s) <==> has_shard(fragments, s)
}

/// Groups fragments by shard, in increasing shard order, merging the
/// fragments of each shard in their order.
pub fn group_fragments(fragments: Vec<EntryFragment>) -> (groups: Vec<ShardGroup>)
    ensures
        groups_match(groups@, fragment_views(fragments@)),
        forall|a: int|
            0 <= a < groups@.len() ==> (#[trigger] groups@[a]).entries.total() <= fragments@.len(),
{
    let ghost count = fragments@.len();
    let ghost all = fragment_views(fragments@);
    let mut groups: Vec<ShardGroup> = Vec::new();
    for fragment in it: fragments
        invariant
            all == fragment_views(it.seq()),
            count == it.seq().len(),
            groups_match(groups@, all.take(it.index() as int)),
            forall|a: int|
                0 <= a < groups@.len() ==> (#[trigger] groups@[a]).entries.total() <= it.index(),
    {
        let ghost i = it.index() as int;
        let ghost done = all.take(i);
        let ghost f = fragment@;
        assert(all[i] == f);
        assert(all.take(i + 1).drop_last() =~= done);
        let shard = fragment.shard;
        let mut g: usize = 0;
        let mut found = false;
        let mut beyond = false;
        while g < groups.len() && !found && !beyond
            invariant
                g <= groups@.len(),
                found ==> g < groups@.len() && groups@[g as int].shard == shard,
                beyond ==> g < groups@.len() && shard < groups@[g as int].shard,
                !(found && beyond),
                forall|a: int| 0 <= a < g ==> (#[trigger] groups@[a]).shard < shard,
            decreases groups@.len() - g, if found || beyond { 0int } else { 1int },
        {
            if groups[g].shard == shard {
                found = true;
            } else if groups[g].shard > shard {
                beyond = true;
            } else {
                g += 1;
            }
        }
        let ghost old_groups = groups@;
        if found {
            merge_fragment(&mut groups[g].entries, fragment);
            assert(groups_match(groups@, all.take(i + 1))) by {
                assert forall|a: int| 0 <= a < groups@.len() implies (#[trigger] groups@[a]).entries.wf()
                    && groups@[a].entries@ == merged_entries(
                    fragments_of_shard(all.take(i + 1), groups@[a].shard),
                ) by {
                    lemma_fragments_of_shard_step(all.take(i + 1), groups@[a].shard);
                    if a != g {
                        assert(groups@[a] == old_groups[a]);
                    } else {
                        let fs = fragments_of_shard(all.take(i + 1), shard);
                        assert(fs.drop_last() =~= fragments_of_shard(done, shard));
                    }
                }
                assert forall|s: usize|
                    #[trigger] has_group(groups@, s) <==> has_shard(all.take(i + 1), s) by {
                    if has_group(groups@, s) {
                        let a = choose|a: int| 0 <= a < groups@.len() && (#[trigger] groups@[a]).shard == s;
                        assert(old_groups[a].shard == s);
                        assert(has_group(old_groups, s));
                        assert(has_shard(done, s));
                        let j = choose|j: int| 0 <= j < i && (#[trigger] done[j]).shard == s;
                        assert(all.take(i + 1)[j] == done[j]);
                    }
                    if has_shard(all.take(i + 1), s) {
                        let j = choose|j: int| 0 <= j < i + 1 && (#[trigger] all.take(i + 1)[j]).shard == s;
                        if j < i {
                            assert(done[j] == all.take(i + 1)[j]);
                            assert(has_shard(done, s));
                            assert(has_group(old_groups, s));
                            let a = choose|a: int| 0 <= a < old_groups.len() && (#[trigger] old_groups[a]).shard == s;
                            assert(groups@[a].shard == s);
                        } else {
                            assert(groups@[g as int].shard == s);
                        }
                    }
                }
            }
        } else {
            let mut entries = ShardEntries::new();
            merge_fragment(&mut entries, fragment);
            groups.insert(g, ShardGroup { shard, entries });
            assert(!has_shard(done, shard)) by {
                if has_shard(done, shard) {
                    assert(has_group(old_groups, shard));
                    let a = choose|a: int|
                        0 <= a < old_groups.len() && (#[trigger] old_groups[a]).shard == shard;
                    if a >= g {
                        assert(beyond);
                        if a > g {
                            assert(old_groups[g as int].shard < old_groups[a].shard);
                        }
                    }
                }
            }
            proof {
                lemma_no_fragments_of_shard(done, shard);
                lemma_fragments_of_shard_step(all.take(i + 1), shard);
                let fs = fragments_of_shard(all.take(i + 1), shard);
                assert(fs.drop_last() =~= fragments_of_shard(done, shard));
                assert(fs.drop_last() =~= Seq::<SpecEntryFragment>::empty());
                assert(merged_entries(fs.drop_last()) == Map::<
                    Seq<char>,
                    Seq<SpecDictionaryEntry>,
                >::empty());
            }
            assert(groups_match(groups@, all.take(i + 1))) by {
                assert forall|a: int, b: int| 0 <= a < b < groups@.len() implies (
                #[trigger] groups@[a]).shard < (#[trigger] groups@[b]).shard by {
                    if b < g {
                        assert(groups@[a] == old_groups[a]);
                        assert(groups@[b] == old_groups[b]);
                    } else if b == g {
                        assert(groups@[a] == old_groups[a]);
                    } else if a < g {
                        assert(groups@[a] == old_groups[a]);
                        assert(groups@[b] == old_groups[b - 1]);
                        if b - 1 > g {
                            assert(old_groups[g as int].shard < old_groups[b - 1].shard);
                        }
                    } else if a == g {
                        assert(groups@[b] == old_groups[b - 1]);
                        if b - 1 > g {
                            assert(old_groups[g as int].shard < old_groups[b - 1].shard);
                        }
                    } else {
                        assert(groups@[a] == old_groups[a - 1]);
                        assert(groups@[b] == old_groups[b - 1]);
                    }
                }
                assert forall|a: int| 0 <= a < groups@.len() implies (#[trigger] groups@[a]).entries.wf()
                    && groups@[a].entries@ == merged_entries(
                    fragments_of_shard(all.take(i + 1), groups@[a].shard),
                ) by {
                    lemma_fragments_of_shard_step(all.take(i + 1), groups@[a].shard);
                    if a != g {
                        let o = if a < g { a } else { a - 1 };
                        assert(groups@[a] == old_groups[o]);
                        assert(old_groups[o].shard != shard);
                    }
                }
                assert forall|s: usize|
                    #[trigger] has_group(groups@, s) <==> has_shard(all.take(i + 1), s) by {
                    if has_group(groups@, s) {
                        let a = choose|a: int| 0 <= a < groups@.len() && (#[trigger] groups@[a]).shard == s;
                        if a == g {
                            assert(all.take(i + 1)[i] == f);
                        } else {
                            let o = if a < g { a } else { a - 1 };
                            assert(groups@[a] == old_groups[o]);
                            assert(has_group(old_groups, s));
                            assert(has_shard(done, s));
                            let j = choose|j: int| 0 <= j < i && (#[trigger] done[j]).shard == s;
                            assert(all.take(i + 1)[j] == done[j]);
                        }
                    }
                    if has_shard(all.take(i + 1), s) {
                        let j = choose|j: int| 0 <= j < i + 1 && (#[trigger] all.take(i + 1)[j]).shard == s;
                        if j < i {
                            assert(done[j] == all.take(i + 1)[j]);
                            assert(has_shard(done, s));
                            assert(has_group(old_groups, s));
                            let a = choose|a: int| 0 <= a < old_groups.len() && (#[trigger] old_groups[a]).shard == s;
                            if a < g {
                                assert(groups@[a] == old_groups[a]);
                            } else {
                                assert(groups@[a + 1] == old_groups[a]);
                            }
                        } else {
                            assert(groups@[g as int].shard == s);
                        }
                    }
                }
            }
        }
    }
    assert(all.take(all.len() as int) =~= all);
    assert(fragment_views(fragments@).len() == count);
    groups
}

} // verus!
