//! The records read from the extracted dictionary data and the entries
//! written to the shards.
use vstd::prelude::*;
use crate::text::text_views;

verus! {

/// One input record, as extracted from Wiktionary.
pub struct RawEntry {
    pub word: String,
    pub lang_code: String,
    pub pos: String,
    pub senses: Vec<RawSense>,
    pub sounds: Vec<RawSound>,
}

/// One sense of an input record: its glosses and its usage examples.
pub struct RawSense {
    pub glosses: Vec<String>,
    pub examples: Vec<RawExample>,
}

/// A usage example; `kind` is its `type` field and `reference` its `ref` field.
pub struct RawExample {
    pub text: Option<String>,
    pub kind: Option<String>,
    pub reference: Option<String>,
}

/// A pronunciation of an input record.
pub struct RawSound {
    pub ipa: Option<String>,
}

/// A definition with an optional ordinary usage example.
pub struct Definition {
    pub text: String,
    pub example: Option<String>,
}

/// The definitions of one part of speech.
pub struct Meaning {
    pub part_of_speech: String,
    pub definitions: Vec<Definition>,
}

/// One spelling variant of a lookup key, as written to a shard.
pub struct DictionaryEntry {
    pub word: String,
    pub phonetic: Option<String>,
    pub source_url: String,
    pub meanings: Vec<Meaning>,
}

/// The part of one accepted input record that goes to a shard.
pub struct EntryFragment {
    pub shard: usize,
    pub key: String,
    pub word: String,
    pub phonetic: Option<String>,
    pub source_url: String,
    pub meaning: Meaning,
}

pub ghost struct SpecRawExample {
    pub text: Option<Seq<char>>,
    pub kind: Option<Seq<char>>,
    pub reference: Option<Seq<char>>,
}

pub ghost struct SpecRawSense {
    pub glosses: Seq<Seq<char>>,
    pub examples: Seq<SpecRawExample>,
}

pub ghost struct SpecRawEntry {
    pub word: Seq<char>,
    pub lang_code: Seq<char>,
    pub pos: Seq<char>,
    pub senses: Seq<SpecRawSense>,
    pub sounds: Seq<Option<Seq<char>>>,
}

pub ghost struct SpecDefinition {
    pub text: Seq<char>,
    pub example: Option<Seq<char>>,
}

pub ghost struct SpecMeaning {
    pub part_of_speech: Seq<char>,
    pub definitions: Seq<SpecDefinition>,
}

pub ghost struct SpecDictionaryEntry {
    pub word: Seq<char>,
    pub phonetic: Option<Seq<char>>,
    pub source_url: Seq<char>,
    pub meanings: Seq<SpecMeaning>,
}

pub ghost struct SpecEntryFragment {
    pub shard: usize,
    pub key: Seq<char>,
    pub word: Seq<char>,
    pub phonetic: Option<Seq<char>>,
    pub source_url: Seq<char>,
    pub meaning: SpecMeaning,
}

pub open spec fn opt_text(s: Option<String>) -> Option<Seq<char>> {
    match s {
        Some(t) => Some(t@),
        None => None,
    }
}

pub open spec fn examples_view(v: Seq<RawExample>) -> Seq<SpecRawExample> {
    v.map_values(|e: RawExample| e@)
}

pub open spec fn senses_view(v: Seq<RawSense>) -> Seq<SpecRawSense> {
    v.map_values(|s: RawSense| s@)
}

pub open spec fn sounds_view(v: Seq<RawSound>) -> Seq<Option<Seq<char>>> {
    v.map_values(|s: RawSound| opt_text(s.ipa))
}

pub open spec fn definitions_view(v: Seq<Definition>) -> Seq<SpecDefinition> {
    v.map_values(|d: Definition| d@)
}

pub open spec fn meanings_view(v: Seq<Meaning>) -> Seq<SpecMeaning> {
    v.map_values(|m: Meaning| m@)
}

pub open spec fn entries_view(v: Seq<DictionaryEntry>) -> Seq<SpecDictionaryEntry> {
    v.map_values(|e: DictionaryEntry| e@)
}

impl View for RawExample {
    type V = SpecRawExample;

    open spec fn view(&self) -> SpecRawExample {
        SpecRawExample {
            text: opt_text(self.text),
            kind: opt_text(self.kind),
            reference: opt_text(self.reference),
        }
    }
}

impl View for RawSense {
    type V = SpecRawSense;

    open spec fn view(&self) -> SpecRawSense {
        SpecRawSense {
            glosses: text_views(self.glosses@),
            examples: examples_view(self.examples@),
        }
    }
}

impl View for RawEntry {
    type V = SpecRawEntry;

    open spec fn view(&self) -> SpecRawEntry {
        SpecRawEntry {
            word: self.word@,
            lang_code: self.lang_code@,
            pos: self.pos@,
            senses: senses_view(self.senses@),
            sounds: sounds_view(self.sounds@),
        }
    }
}

impl View for Definition {
    type V = SpecDefinition;

    open spec fn view(&self) -> SpecDefinition {
        SpecDefinition { text: self.text@, example: opt_text(self.example) }
    }
}

impl View for Meaning {
    type V = SpecMeaning;

    open spec fn view(&self) -> SpecMeaning {
        SpecMeaning {
            part_of_speech: self.part_of_speech@,
            definitions: definitions_view(self.definitions@),
        }
    }
}

impl View for DictionaryEntry {
    type V = SpecDictionaryEntry;

    open spec fn view(&self) -> SpecDictionaryEntry {
        SpecDictionaryEntry {
            word: self.word@,
            phonetic: opt_text(self.phonetic),
            source_url: self.source_url@,
            meanings: meanings_view(self.meanings@),
        }
    }
}

impl View for EntryFragment {
    type V = SpecEntryFragment;

    open spec fn view(&self) -> SpecEntryFragment {
        SpecEntryFragment {
            shard: self.shard,
            key: self.key@,
            word: self.word@,
            phonetic: opt_text(self.phonetic),
            source_url: self.source_url@,
            meaning: self.meaning@,
        }
    }
}

} // verus!
