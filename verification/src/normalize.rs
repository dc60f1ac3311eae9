//! Lookup keys and shard selection.
use vstd::prelude::*;
use vstd::arithmetic::power2::pow2;
use vstd::string::StringSliceAdditionalSpecFns;
use crate::text::{chars_of, push_char};
use crate::unicode::{
    is_alphabetic, is_alphabetic_char, is_combining_mark, is_combining_mark_char, lowercase,
    lowercase_of, nfc_form, nfc_string,
};

verus! {

/// The longest word, in characters, that gets a lookup key.
pub const MAX_WORD_CHARS: usize = 64;

/// FNV-1a offset basis (32 bit).
pub const FNV_OFFSET_BASIS: u32 = 2166136261;

/// FNV-1a prime (32 bit).
pub const FNV_PRIME: u32 = 16777619;

/// Curly apostrophes become straight ones in lookup keys.
pub open spec fn straighten(c: char) -> char {
    if c == '\u{2019}' {
        '\''
    } else {
        c
    }
}

/// The parts joined in order, with apostrophes straightened.
pub open spec fn straightened_concat(parts: Seq<Seq<char>>) -> Seq<char>
    decreases parts.len(),
{
    if parts.len() == 0 {
        Seq::empty()
    } else {
        straightened_concat(parts.drop_last()) + parts.last().map_values(|c: char| straighten(c))
    }
}

/// The normalized form of a word: NFC, then each character lowercased (a
/// character may lowercase to several), then straight apostrophes.
pub open spec fn normalized_word(word: Seq<char>) -> Seq<char> {
    straightened_concat(nfc_form(word).map_values(|c: char| lowercase_of(c)))
}

/// What each character of a candidate word is taken to be.
pub enum CharRole {
    Letter,
    Mark,
    Separator,
    Invalid,
}

pub open spec fn is_separator_char(c: char) -> bool {
    c == '\'' || c == '-'
}

/// Whether position `i` starts a new segment: the word start, or right after
/// a separator. `letters[i]` and `marks[i]` say whether character `i` is
/// alphabetic and whether it is a combining mark.
pub open spec fn after_separator(w: Seq<char>, letters: Seq<bool>, marks: Seq<bool>, i: int) -> bool
    decreases i, 0int,
{
    if i <= 0 {
        true
    } else {
        char_role(w, letters, marks, i - 1) is Separator
    }
}

/// A letter is any alphabetic character; a combining mark counts only inside
/// a segment; an apostrophe or hyphen separates two segments and must be
/// followed by a letter.
pub open spec fn char_role(w: Seq<char>, letters: Seq<bool>, marks: Seq<bool>, i: int) -> CharRole
    decreases i, 1int,
{
    if i < 0 {
        CharRole::Invalid
    } else if letters[i] {
        CharRole::Letter
    } else if marks[i] && !after_separator(w, letters, marks, i) {
        CharRole::Mark
    } else if is_separator_char(w[i]) && !after_separator(w, letters, marks, i) && i + 1 < w.len()
        && letters[i + 1] {
        CharRole::Separator
    } else {
        CharRole::Invalid
    }
}

/// A word gets a key when it has 1 to 64 characters and every character has
/// a valid role.
pub open spec fn is_word_pattern(w: Seq<char>, letters: Seq<bool>, marks: Seq<bool>) -> bool {
    &&& 0 < w.len() <= MAX_WORD_CHARS
    &&& forall|i: int| 0 <= i < w.len() ==> !(#[trigger] char_role(w, letters, marks, i) is Invalid)
}

/// Which characters of `w` are alphabetic.
pub open spec fn letters_of(w: Seq<char>) -> Seq<bool> {
    w.map_values(|c: char| is_alphabetic_char(c))
}

/// Which characters of `w` are combining marks.
pub open spec fn marks_of(w: Seq<char>) -> Seq<bool> {
    w.map_values(|c: char| is_combining_mark_char(c))
}

pub open spec fn is_valid_word(w: Seq<char>) -> bool {
    is_word_pattern(w, letters_of(w), marks_of(w))
}

/// The key of an already normalized word, given which of its characters are
/// letters and which are combining marks.
pub open spec fn key_spec(
    language: Seq<char>,
    normalized: Seq<char>,
    letters: Seq<bool>,
    marks: Seq<bool>,
) -> Option<Seq<char>> {
    if is_word_pattern(normalized, letters, marks) {
        Some(language + seq![':'] + normalized)
    } else {
        None
    }
}

/// The lookup key of `word` in `language`, if the normalized word is valid.
pub open spec fn lookup_key_spec(language: Seq<char>, word: Seq<char>) -> Option<Seq<char>> {
    let normalized = normalized_word(word);
    key_spec(language, normalized, letters_of(normalized), marks_of(normalized))
}

proof fn lemma_after_separator_at_end(w: Seq<char>, letters: Seq<bool>, marks: Seq<bool>)
    ensures
        after_separator(w, letters, marks, w.len() as int) <==> w.len() == 0,
{
    if w.len() > 0 {
        assert(!(char_role(w, letters, marks, w.len() - 1) is Separator));
    }
}

/// Letter segments joined by single apostrophes or hyphens form a word, however
/// many separators there are: a separator counts when the characters on both
/// sides of it are letters.
pub proof fn lemma_separated_letters_are_words(w: Seq<char>, letters: Seq<bool>, marks: Seq<bool>)
    requires
        letters.len() == w.len(),
        marks.len() == w.len(),
        0 < w.len() <= MAX_WORD_CHARS,
        forall|i: int|
            0 <= i < w.len() ==> #[trigger] letters[i] || ((w[i] == '\'' || w[i] == '-') && 0 < i
                < w.len() - 1 && letters[i - 1] && letters[i + 1]),
    ensures
        is_word_pattern(w, letters, marks),
{
    assert forall|i: int| 0 <= i < w.len() implies !(#[trigger] char_role(w, letters, marks, i) is Invalid) by {
        if !letters[i] {
            assert(letters[i - 1]);
            assert(char_role(w, letters, marks, i - 1) is Letter);
            assert(!after_separator(w, letters, marks, i));
        }
    }
}

/// A word starts with a letter, and each of its characters is a letter, a
/// combining mark, or an apostrophe or hyphen that follows a letter or mark
/// and comes before a letter.
pub proof fn lemma_word_shape(w: Seq<char>, letters: Seq<bool>, marks: Seq<bool>)
    requires
        letters.len() == w.len(),
        marks.len() == w.len(),
        is_word_pattern(w, letters, marks),
    ensures
        0 < w.len() <= MAX_WORD_CHARS,
        letters[0],
        forall|i: int|
            0 <= i < w.len() ==> #[trigger] letters[i] || marks[i] || ((w[i] == '\'' || w[i] == '-')
                && 0 < i < w.len() - 1 && letters[i + 1] && (letters[i - 1] || marks[i - 1])),
{
    assert(!(char_role(w, letters, marks, 0) is Invalid));
    assert forall|i: int| 0 <= i < w.len() implies #[trigger] letters[i] || marks[i] || ((w[i] == '\''
        || w[i] == '-') && 0 < i < w.len() - 1 && letters[i + 1] && (letters[i - 1] || marks[i
        - 1])) by {
        assert(!(char_role(w, letters, marks, i) is Invalid));
        if !letters[i] && !marks[i] {
            assert(!after_separator(w, letters, marks, i));
            assert(!(char_role(w, letters, marks, i - 1) is Invalid));
        }
    }
}

/// Whether `w` is a word, given which of its characters are letters and
/// which are combining marks.
pub fn is_word(w: &Vec<char>, letters: &Vec<bool>, marks: &Vec<bool>) -> (r: bool)
    requires
        letters@.len() == w@.len(),
        marks@.len() == w@.len(),
    ensures
        r == is_word_pattern(w@, letters@, marks@),
{
    let n = w.len();
    let mut has_letter = false;
    let mut previous_was_separator = true;
    let mut i: usize = 0;
    while i < n
        invariant
            n == w@.len(),
            letters@.len() == n,
            marks@.len() == n,
            i <= n,
            i <= MAX_WORD_CHARS,
            previous_was_separator == after_separator(w@, letters@, marks@, i as int),
            has_letter == (i > 0),
            forall|j: int| 0 <= j < i ==> !(#[trigger] char_role(w@, letters@, marks@, j) is Invalid),
        decreases n - i,
    {
        if i >= MAX_WORD_CHARS {
            return false;
        }
        let c = w[i];
        assert(after_separator(w@, letters@, marks@, i + 1) == (char_role(
            w@,
            letters@,
            marks@,
            i as int,
        ) is Separator));
        if letters[i] {
            has_letter = true;
            previous_was_separator = false;
            i += 1;
            continue;
        }
        if marks[i] && has_letter && !previous_was_separator {
            i += 1;
            continue;
        }
        if (c == '\'' || c == '-') && !previous_was_separator && i + 1 < n && letters[i + 1] {
            previous_was_separator = true;
            i += 1;
            continue;
        }
        assert(char_role(w@, letters@, marks@, i as int) is Invalid);
        return false;
    }
    proof {
        lemma_after_separator_at_end(w@, letters@, marks@);
    }
    has_letter && !previous_was_separator
}

/// Joins lowercase mappings into one word, straightening apostrophes.
pub fn join_straightened(parts: &Vec<Vec<char>>) -> (r: Vec<char>)
    ensures
        r@ == straightened_concat(parts@.map_values(|p: Vec<char>| p@)),
{
    let ghost views = parts@.map_values(|p: Vec<char>| p@);
    let mut out: Vec<char> = Vec::new();
    let mut i: usize = 0;
    while i < parts.len()
        invariant
            i <= parts@.len(),
            views == parts@.map_values(|p: Vec<char>| p@),
            out@ == straightened_concat(views.take(i as int)),
        decreases parts@.len() - i,
    {
        let part = &parts[i];
        let ghost before = out@;
        let mut j: usize = 0;
        while j < part.len()
            invariant
                j <= part@.len(),
                out@ == before + part@.take(j as int).map_values(|c: char| straighten(c)),
            decreases part@.len() - j,
        {
            let c = part[j];
            let straight = if c == '\u{2019}' { '\'' } else { c };
            out.push(straight);
            j += 1;
            assert(part@.take(j as int).map_values(|c: char| straighten(c)) =~= part@.take(
                (j - 1) as int,
            ).map_values(|c: char| straighten(c)).push(straight));
        }
        assert(part@.take(j as int) =~= part@);
        assert(views.take((i + 1) as int).drop_last() =~= views.take(i as int));
        i += 1;
    }
    assert(views.take(i as int) =~= views);
    out
}

/// `"{language}:{normalized}"` when the normalized word matches the word
/// pattern, given which of its characters are letters and combining marks.
pub fn key_for_normalized(
    language: &str,
    normalized: &Vec<char>,
    letters: &Vec<bool>,
    marks: &Vec<bool>,
) -> (r: Option<String>)
    requires
        letters@.len() == normalized@.len(),
        marks@.len() == normalized@.len(),
    ensures
        r is Some == key_spec(language@, normalized@, letters@, marks@) is Some,
        r matches Some(k) ==> Some(k@) == key_spec(language@, normalized@, letters@, marks@),
{
    if !is_word(normalized, letters, marks) {
        return None;
    }
    let mut key = language.to_owned();
    key.append(":");
    let mut i: usize = 0;
    while i < normalized.len()
        invariant
            i <= normalized@.len(),
            key@ == language@ + ":"@ + normalized@.take(i as int),
        decreases normalized@.len() - i,
    {
        push_char(&mut key, normalized[i]);
        i += 1;
        assert(normalized@.take(i as int) =~= normalized@.take((i - 1) as int).push(
            normalized@[i - 1],
        ));
    }
    proof {
        reveal_strlit(":");
        assert(normalized@.take(i as int) =~= normalized@);
    }
    Some(key)
}

/// Normalizes `word` (NFC, lowercase, straight apostrophes) and returns
/// `"{language}:{normalized}"` when the normalized word is a valid word.
pub fn lookup_key(language: &str, word: &str) -> (r: Option<String>)
    ensures
        r is Some == lookup_key_spec(language@, word@) is Some,
        r matches Some(k) ==> Some(k@) == lookup_key_spec(language@, word@),
{
    let composed = nfc_string(word);
    let chars = chars_of(composed.as_str());
    let mut parts: Vec<Vec<char>> = Vec::new();
    let mut i: usize = 0;
    while i < chars.len()
        invariant
            i <= chars@.len(),
            chars@ == nfc_form(word@),
            parts@.len() == i,
            parts@.map_values(|p: Vec<char>| p@) == chars@.take(i as int).map_values(
                |c: char| lowercase_of(c),
            ),
        decreases chars@.len() - i,
    {
        let lower = lowercase(chars[i]);
        let ghost before = parts@;
        parts.push(lower);
        assert(parts@[i as int]@ == lowercase_of(chars@[i as int]));
        let ghost old_views = before.map_values(|p: Vec<char>| p@);
        let ghost done = chars@.take(i as int).map_values(|c: char| lowercase_of(c));
        i += 1;
        let ghost views = parts@.map_values(|p: Vec<char>| p@);
        let ghost target = chars@.take(i as int).map_values(|c: char| lowercase_of(c));
        assert forall|k: int| 0 <= k < i implies views[k] == target[k] by {
            if k < i - 1 {
                assert(parts@[k] == before[k]);
                assert(old_views[k] == done[k]);
            }
        }
        assert(views =~= target);
    }
    assert(chars@.take(i as int) =~= chars@);
    let normalized = join_straightened(&parts);
    let mut letters: Vec<bool> = Vec::new();
    let mut marks: Vec<bool> = Vec::new();
    let mut j: usize = 0;
    while j < normalized.len()
        invariant
            j <= normalized@.len(),
            letters@ == letters_of(normalized@).take(j as int),
            marks@ == marks_of(normalized@).take(j as int),
        decreases normalized@.len() - j,
    {
        letters.push(is_alphabetic(normalized[j]));
        marks.push(is_combining_mark(normalized[j]));
        j += 1;
        assert(letters@ =~= letters_of(normalized@).take(j as int));
        assert(marks@ =~= marks_of(normalized@).take(j as int));
    }
    assert(letters@ =~= letters_of(normalized@));
    assert(marks@ =~= marks_of(normalized@));
    key_for_normalized(language, &normalized, &letters, &marks)
}

/// 32-bit FNV-1a over a byte sequence.
pub open spec fn fnv1a(bytes: Seq<u8>) -> u32
    decreases bytes.len(),
{
    if bytes.len() == 0 {
        FNV_OFFSET_BASIS
    } else {
        let h = fnv1a(bytes.drop_last()) ^ (bytes.last() as u32);
        ((h as nat * FNV_PRIME as nat) % 0x1_0000_0000) as u32
    }
}

/// The shard of a key: FNV-1a of the key's UTF-8 bytes, masked by `shard_count - 1`.
pub open spec fn shard_index_spec(key: Seq<char>, shard_count: usize) -> usize {
    (fnv1a(vstd::utf8::encode_utf8(key)) as usize) & ((shard_count - 1) as usize)
}

/// Hashes `key` with 32-bit FNV-1a and masks the hash by `shard_count - 1`.
pub fn shard_index(key: &str, shard_count: usize) -> (r: usize)
    requires
        shard_count > 0,
    ensures
        r == shard_index_spec(key@, shard_count),
        r < shard_count,
{
    let bytes = key.as_bytes();
    let mut hash: u32 = FNV_OFFSET_BASIS;
    let mut i: usize = 0;
    while i < bytes.len()
        invariant
            i <= bytes@.len(),
            bytes@ == key.spec_bytes(),
            hash == fnv1a(bytes@.take(i as int)),
        decreases bytes@.len() - i,
    {
        hash = hash ^ (bytes[i] as u32);
        hash = hash.wrapping_mul(FNV_PRIME);
        assert(bytes@.take((i + 1) as int).drop_last() =~= bytes@.take(i as int));
        i += 1;
    }
    assert(bytes@.take(i as int) =~= bytes@);
    let mask = shard_count - 1;
    let h = hash as usize;
    assert(h & mask <= mask) by (bit_vector);
    h & mask
}

/// A power of two: 1, 2, 4, 8, ...
pub open spec fn is_power_of_two(n: nat) -> bool {
    exists|k: nat| pow2(k) == n
}

/// For a power-of-two shard count, masking the hash is taking it modulo the
/// shard count: a key's shard is FNV-1a of its UTF-8 bytes modulo the number
/// of shards.
pub proof fn lemma_shard_index_is_hash_modulo(key: Seq<char>, shard_count: usize)
    requires
        is_power_of_two(shard_count as nat),
    ensures
        shard_index_spec(key, shard_count) == (fnv1a(vstd::utf8::encode_utf8(key)) as usize)
            % shard_count,
{
    let k = choose|k: nat| pow2(k) == shard_count as nat;
    vstd::arithmetic::power2::lemma2_to64();
    if k >= usize::BITS {
        let bits = usize::BITS as nat;
        if k > bits {
            vstd::arithmetic::power2::lemma_pow2_strictly_increases(bits, k);
        }
        assert(pow2(bits) > usize::MAX);
        assert(false);
    }
    let h = fnv1a(vstd::utf8::encode_utf8(key)) as usize;
    vstd::bits::lemma_usize_low_bits_mask_is_mod(h, k);
    vstd::arithmetic::power2::lemma_pow2_pos(k);
    assert(vstd::bits::low_bits_mask(k) as usize == (shard_count - 1) as usize);
    assert(pow2(k) as usize == shard_count);
}

} // verus!
