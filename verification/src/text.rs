use vstd::prelude::*;

verus! {

/// Appends one character to a string.
///
/// Trusted: calls `String::push`, which std documents as appending the
/// given `char` to the end of the string.
#[verifier::external_body]
pub(crate) fn push_char(s: &mut String, c: char)
    ensures
        final(s)@ == old(s)@.push(c),
{
    s.push(c);
}

/// Whether `c` has the Unicode `White_Space` property, which std's
/// `char::is_whitespace` tests: tab to carriage return, space, next line,
/// no-break space, ogham space mark, the spaces from en quad to hair space,
/// line and paragraph separators, narrow no-break space, medium mathematical
/// space, and ideographic space.
pub open spec fn is_whitespace_char(c: char) -> bool {
    ||| ('\u{9}' <= c <= '\u{d}')
    ||| c == ' '
    ||| c == '\u{85}'
    ||| c == '\u{a0}'
    ||| c == '\u{1680}'
    ||| ('\u{2000}' <= c <= '\u{200a}')
    ||| c == '\u{2028}'
    ||| c == '\u{2029}'
    ||| c == '\u{202f}'
    ||| c == '\u{205f}'
    ||| c == '\u{3000}'
}

/// Whether `c` is white space (the Unicode `White_Space` property).
pub fn is_whitespace(c: char) -> (r: bool)
    ensures
        r == is_whitespace_char(c),
{
    ('\u{9}' <= c && c <= '\u{d}') || c == ' ' || c == '\u{85}' || c == '\u{a0}' || c
        == '\u{1680}' || ('\u{2000}' <= c && c <= '\u{200a}') || c == '\u{2028}' || c
        == '\u{2029}' || c == '\u{202f}' || c == '\u{205f}' || c == '\u{3000}'
}

/// The characters of a string slice, in order.
pub fn chars_of(s: &str) -> (out: Vec<char>)
    ensures
        out@ == s@,
{
    let mut out: Vec<char> = Vec::new();
    for c in it: s.chars()
        invariant
            out@ == it.seq().take(it.index() as int),
            it.seq() == s@,
    {
        out.push(c);
    }
    out
}

/// A text is blank when all its characters are white space
/// (so that trimming it leaves nothing).
pub open spec fn is_blank_text(s: Seq<char>) -> bool {
    forall|i: int| 0 <= i < s.len() ==> is_whitespace_char(#[trigger] s[i])
}

/// Whether trimming `s` leaves the empty string.
pub fn is_blank(s: &str) -> (r: bool)
    ensures
        r == is_blank_text(s@),
{
    let chars = chars_of(s);
    let mut i: usize = 0;
    while i < chars.len()
        invariant
            i <= chars@.len(),
            chars@ == s@,
            forall|j: int| 0 <= j < i ==> is_whitespace_char(#[trigger] s@[j]),
        decreases chars@.len() - i,
    {
        if !is_whitespace(chars[i]) {
            return false;
        }
        i += 1;
    }
    true
}

/// The order of `String`s: lexicographic by code point (which is the order
/// of their UTF-8 bytes).
pub open spec fn text_less(a: Seq<char>, b: Seq<char>) -> bool
    decreases a.len(),
{
    if a.len() == 0 {
        b.len() > 0
    } else if b.len() == 0 {
        false
    } else if a[0] != b[0] {
        (a[0] as u32) < (b[0] as u32)
    } else {
        text_less(a.drop_first(), b.drop_first())
    }
}

proof fn lemma_char_code_injective(c: char, d: char)
    requires
        (c as u32) == (d as u32),
    ensures
        c == d,
{
    vstd::utf8::char_u32_cast(c, c as u32);
    vstd::utf8::char_u32_cast(d, d as u32);
}

pub proof fn lemma_text_less_irreflexive(a: Seq<char>)
    ensures
        !text_less(a, a),
    decreases a.len(),
{
    if a.len() > 0 {
        lemma_text_less_irreflexive(a.drop_first());
    }
}

pub proof fn lemma_text_less_transitive(a: Seq<char>, b: Seq<char>, c: Seq<char>)
    requires
        text_less(a, b),
        text_less(b, c),
    ensures
        text_less(a, c),
    decreases a.len(),
{
    if a.len() > 0 && b.len() > 0 && c.len() > 0 && a[0] == b[0] && b[0] == c[0] {
        lemma_text_less_transitive(a.drop_first(), b.drop_first(), c.drop_first());
    }
}

/// Two different texts are ordered one way or the other.
pub proof fn lemma_text_less_total(a: Seq<char>, b: Seq<char>)
    requires
        a != b,
    ensures
        text_less(a, b) || text_less(b, a),
    decreases a.len(),
{
    if a.len() > 0 && b.len() > 0 && a[0] == b[0] {
        if a.drop_first() == b.drop_first() {
            assert(a =~= seq![a[0]] + a.drop_first());
            assert(b =~= seq![b[0]] + b.drop_first());
        }
        lemma_text_less_total(a.drop_first(), b.drop_first());
    } else if a.len() > 0 && b.len() > 0 {
        if (a[0] as u32) == (b[0] as u32) {
            lemma_char_code_injective(a[0], b[0]);
        }
    } else if a.len() == 0 && b.len() == 0 {
        assert(a =~= b);
    }
}

pub proof fn lemma_text_less_asymmetric(a: Seq<char>, b: Seq<char>)
    requires
        text_less(a, b),
    ensures
        !text_less(b, a),
{
    if text_less(b, a) {
        lemma_text_less_transitive(a, b, a);
        lemma_text_less_irreflexive(a);
    }
}

/// How two texts compare.
pub enum TextOrder {
    Less,
    Equal,
    Greater,
}

/// Compares two texts in the order of `text_less`.
pub fn compare_text(a: &str, b: &str) -> (r: TextOrder)
    ensures
        r is Less <==> text_less(a@, b@),
        r is Equal <==> a@ == b@,
        r is Greater <==> text_less(b@, a@),
{
    let x = chars_of(a);
    let y = chars_of(b);
    let mut i: usize = 0;
    proof {
        assert(x@.skip(0) =~= x@);
        assert(y@.skip(0) =~= y@);
    }
    while i < x.len() && i < y.len()
        invariant
            x@ == a@,
            y@ == b@,
            i <= x@.len(),
            i <= y@.len(),
            x@.take(i as int) == y@.take(i as int),
            text_less(a@, b@) == text_less(x@.skip(i as int), y@.skip(i as int)),
            text_less(b@, a@) == text_less(y@.skip(i as int), x@.skip(i as int)),
        decreases x@.len() - i,
    {
        let c = x[i];
        let d = y[i];
        assert(x@.skip(i as int)[0] == c);
        assert(y@.skip(i as int)[0] == d);
        if (c as u32) < (d as u32) {
            proof {
                lemma_text_less_asymmetric(x@.skip(i as int), y@.skip(i as int));
                if a@ == b@ {
                    lemma_text_less_irreflexive(a@);
                }
            }
            return TextOrder::Less;
        }
        if (d as u32) < (c as u32) {
            proof {
                lemma_text_less_asymmetric(y@.skip(i as int), x@.skip(i as int));
                if a@ == b@ {
                    lemma_text_less_irreflexive(a@);
                }
            }
            return TextOrder::Greater;
        }
        proof {
            lemma_char_code_injective(c, d);
        }
        assert(x@.skip(i as int).drop_first() =~= x@.skip(i + 1));
        assert(y@.skip(i as int).drop_first() =~= y@.skip(i + 1));
        assert(x@.take(i + 1) =~= x@.take(i as int).push(c));
        assert(y@.take(i + 1) =~= y@.take(i as int).push(d));
        i += 1;
    }
    if x.len() == y.len() {
        assert(x@ =~= x@.take(i as int));
        assert(y@ =~= y@.take(i as int));
        proof {
            lemma_text_less_irreflexive(a@);
        }
        TextOrder::Equal
    } else if i == x.len() {
        assert(x@.skip(i as int).len() == 0);
        assert(a@ != b@);
        TextOrder::Less
    } else {
        assert(y@.skip(i as int).len() == 0);
        assert(a@.len() != b@.len());
        TextOrder::Greater
    }
}

pub open spec fn is_decimal_digit(c: char) -> bool {
    '0' <= c <= '9'
}

pub open spec fn all_decimal_digits(s: Seq<char>) -> bool {
    forall|i: int| 0 <= i < s.len() ==> is_decimal_digit(#[trigger] s[i])
}

/// The number that a string of decimal digits denotes.
pub open spec fn decimal_value(digits: Seq<char>) -> nat
    decreases digits.len(),
{
    if digits.len() == 0 {
        0
    } else {
        decimal_value(digits.drop_last()) * 10 + ((digits.last() as u32) - 48) as nat
    }
}

proof fn lemma_decimal_value_prefix(digits: Seq<char>, n: int)
    requires
        0 <= n <= digits.len(),
        all_decimal_digits(digits),
    ensures
        decimal_value(digits.take(n)) <= decimal_value(digits),
    decreases digits.len(),
{
    if n < digits.len() {
        assert(digits.drop_last().take(n) =~= digits.take(n));
        lemma_decimal_value_prefix(digits.drop_last(), n);
    } else {
        assert(digits.take(n) =~= digits);
    }
}

/// The value of a string of decimal digits, when it fits in a `u64`.
pub fn decimal_u64(digits: &Vec<char>) -> (r: Option<u64>)
    requires
        all_decimal_digits(digits@),
    ensures
        r matches Some(v) ==> v == decimal_value(digits@),
        r is None <==> decimal_value(digits@) > u64::MAX,
{
    let mut value: u64 = 0;
    let mut i: usize = 0;
    while i < digits.len()
        invariant
            i <= digits@.len(),
            all_decimal_digits(digits@),
            value == decimal_value(digits@.take(i as int)),
        decreases digits@.len() - i,
    {
        let c = digits[i];
        assert(is_decimal_digit(c));
        let d = (c as u32 - 48) as u64;
        assert(digits@.take(i + 1).drop_last() =~= digits@.take(i as int));
        match value.checked_mul(10) {
            Some(tens) => match tens.checked_add(d) {
                Some(next) => {
                    value = next;
                },
                None => {
                    proof {
                        lemma_decimal_value_prefix(digits@, i + 1);
                    }
                    return None;
                },
            },
            None => {
                proof {
                    lemma_decimal_value_prefix(digits@, i + 1);
                }
                return None;
            },
        }
        i += 1;
    }
    assert(digits@.take(i as int) =~= digits@);
    Some(value)
}

/// What `str::parse::<usize>` accepts: an optional `+` and one or more
/// decimal digits whose value fits in a `usize`.
pub open spec fn parse_usize_spec(s: Seq<char>) -> Option<usize> {
    let digits = if s.len() > 0 && s[0] == '+' {
        s.drop_first()
    } else {
        s
    };
    if digits.len() > 0 && all_decimal_digits(digits) && decimal_value(digits) <= usize::MAX {
        Some(decimal_value(digits) as usize)
    } else {
        None
    }
}

/// Parses an unsigned decimal integer as `str::parse::<usize>` does.
pub fn parse_usize(s: &str) -> (r: Option<usize>)
    ensures
        r == parse_usize_spec(s@),
{
    let chars = chars_of(s);
    let mut digits: Vec<char> = Vec::new();
    let start: usize = if chars.len() > 0 && chars[0] == '+' { 1 } else { 0 };
    let mut i: usize = start;
    while i < chars.len()
        invariant
            start <= i <= chars@.len(),
            chars@ == s@,
            digits@ == chars@.subrange(start as int, i as int),
        decreases chars@.len() - i,
    {
        digits.push(chars[i]);
        i += 1;
        assert(digits@ =~= chars@.subrange(start as int, i as int));
    }
    let ghost expected = if s@.len() > 0 && s@[0] == '+' {
        s@.drop_first()
    } else {
        s@
    };
    assert(digits@ =~= expected);
    assert(parse_usize_spec(s@) == (if expected.len() > 0 && all_decimal_digits(expected)
        && decimal_value(expected) <= usize::MAX {
        Some(decimal_value(expected) as usize)
    } else {
        None
    }));
    if digits.len() == 0 {
        return None;
    }
    let mut k: usize = 0;
    while k < digits.len()
        invariant
            k <= digits@.len(),
            digits@ == expected,
            expected.len() > 0,
            parse_usize_spec(s@) == (if all_decimal_digits(expected) && decimal_value(expected)
                <= usize::MAX {
                Some(decimal_value(expected) as usize)
            } else {
                None
            }),
            forall|j: int| 0 <= j < k ==> is_decimal_digit(#[trigger] digits@[j]),
        decreases digits@.len() - k,
    {
        if !('0' <= digits[k] && digits[k] <= '9') {
            assert(!is_decimal_digit(digits@[k as int]));
            assert(!all_decimal_digits(expected));
            return None;
        }
        k += 1;
    }
    match decimal_u64(&digits) {
        Some(v) => {
            if v <= usize::MAX as u64 {
                Some(v as usize)
            } else {
                None
            }
        },
        None => None,
    }
}

/// The character of a digit below 16: `0` to `9`, then `a` to `f`.
pub open spec fn digit_char(d: nat) -> char {
    if d < 10 {
        (48 + d) as char
    } else {
        (87 + d) as char
    }
}

/// `n` in decimal, with no leading zeros (`0` for zero).
pub open spec fn decimal_spec(n: nat) -> Seq<char>
    decreases n,
{
    if n < 10 {
        seq![digit_char(n)]
    } else {
        decimal_spec(n / 10) + seq![digit_char(n % 10)]
    }
}

/// `n` in lower-case hexadecimal, with no leading zeros (`0` for zero).
pub open spec fn hex_spec(n: nat) -> Seq<char>
    decreases n,
{
    if n < 16 {
        seq![digit_char(n)]
    } else {
        hex_spec(n / 16) + seq![digit_char(n % 16)]
    }
}

/// The digits of `n` in base `radix`, ten or sixteen.
pub open spec fn digits_spec(n: nat, radix: nat) -> Seq<char> {
    if radix == 16 {
        hex_spec(n)
    } else {
        decimal_spec(n)
    }
}

/// `digits` with zeros in front, to at least `width` characters.
pub open spec fn zero_padded(digits: Seq<char>, width: nat) -> Seq<char> {
    if digits.len() < width {
        Seq::new((width - digits.len()) as nat, |_i: int| '0') + digits
    } else {
        digits
    }
}

fn digit(d: u8) -> (c: char)
    requires
        d < 16,
    ensures
        c == digit_char(d as nat),
{
    if d < 10 {
        (48 + d) as char
    } else {
        (87 + d) as char
    }
}

/// Appends `n` in base `radix` (ten or sixteen), with no leading zeros.
pub fn push_digits(s: &mut String, n: u64, radix: u64)
    requires
        radix == 10 || radix == 16,
    ensures
        final(s)@ == old(s)@ + digits_spec(n as nat, radix as nat),
    decreases n,
{
    if n >= radix {
        assert(n / radix < n) by (nonlinear_arith)
            requires
                n >= radix,
                radix >= 10,
        ;
        push_digits(s, n / radix, radix);
    }
    let d = (n % radix) as u8;
    push_char(s, digit(d));
}

/// Appends `n` in base `radix` (ten or sixteen), with zeros in front to at
/// least `width` characters.
pub fn push_padded_digits(s: &mut String, n: u64, radix: u64, width: usize)
    requires
        radix == 10 || radix == 16,
    ensures
        final(s)@ == old(s)@ + zero_padded(digits_spec(n as nat, radix as nat), width as nat),
{
    let mut digits = String::new();
    push_digits(&mut digits, n, radix);
    let ghost d = digits_spec(n as nat, radix as nat);
    assert(digits@ =~= d);
    let len = chars_of(digits.as_str()).len();
    let ghost before = s@;
    if len < width {
        let mut k: usize = 0;
        while k < width - len
            invariant
                len < width,
                k <= width - len,
                s@ == before + Seq::new(k as nat, |_i: int| '0'),
            decreases width - len - k,
        {
            push_char(s, '0');
            k += 1;
            assert(s@ =~= before + Seq::new(k as nat, |_i: int| '0'));
        }
    }
    s.append(digits.as_str());
    assert(s@ =~= before + zero_padded(d, width as nat));
}

/// The decimal form of `n` is a non-empty string of decimal digits whose
/// value is `n`.
pub proof fn lemma_decimal_spec_value(n: nat)
    ensures
        decimal_spec(n).len() > 0,
        all_decimal_digits(decimal_spec(n)),
        decimal_value(decimal_spec(n)) == n,
    decreases n,
{
    let s = decimal_spec(n);
    let d = n % 10;
    assert((digit_char(d) as u32) == 48 + d);
    if n >= 10 {
        lemma_decimal_spec_value(n / 10);
        assert(s.drop_last() =~= decimal_spec(n / 10));
        assert(s.last() == digit_char(d));
        assert(decimal_value(s) == (n / 10) * 10 + d);
    } else {
        assert(s.drop_last() =~= Seq::<char>::empty());
        assert(decimal_value(s.drop_last()) == 0);
        assert(s.last() == digit_char(d));
    }
}

/// Texts in strictly increasing order, hence each once.
pub open spec fn texts_increasing(s: Seq<Seq<char>>) -> bool {
    forall|i: int, j: int| 0 <= i < j < s.len() ==> text_less(#[trigger] s[i], #[trigger] s[j])
}

pub open spec fn text_views(v: Seq<String>) -> Seq<Seq<char>> {
    v.map_values(|t: String| t@)
}

/// Adds a text to an increasing list of texts, keeping it increasing; a
/// text already there is not added again.
pub fn insert_sorted(list: &mut Vec<String>, text: String)
    requires
        texts_increasing(text_views(old(list)@)),
    ensures
        texts_increasing(text_views(final(list)@)),
        text_views(final(list)@).to_set() == text_views(old(list)@).to_set().insert(text@),
{
    let ghost before = text_views(list@);
    let mut p: usize = 0;
    let mut found = false;
    let mut beyond = false;
    while p < list.len() && !found && !beyond
        invariant
            before == text_views(list@),
            texts_increasing(before),
            p <= before.len(),
            found ==> p < before.len() && before[p as int] == text@,
            beyond ==> p < before.len() && text_less(text@, before[p as int]),
            forall|j: int| 0 <= j < p ==> text_less(#[trigger] before[j], text@),
        decreases before.len() - p, if found || beyond { 0int } else { 1int },
    {
        match compare_text(list[p].as_str(), text.as_str()) {
            TextOrder::Less => {
                p += 1;
            },
            TextOrder::Equal => {
                found = true;
            },
            TextOrder::Greater => {
                beyond = true;
            },
        }
    }
    if found {
        assert(before.to_set().insert(text@) =~= before.to_set()) by {
            assert(before.contains(text@));
        }
        return;
    }
    let ghost t = text@;
    list.insert(p, text);
    let ghost after = text_views(list@);
    assert(after =~= before.insert(p as int, t));
    assert forall|j: int| p <= j < before.len() implies text_less(t, #[trigger] before[j]) by {
        if j > p {
            lemma_text_less_transitive(t, before[p as int], before[j]);
        }
    }
    assert forall|i: int, j: int| 0 <= i < j < after.len() implies text_less(
        #[trigger] after[i],
        #[trigger] after[j],
    ) by {
        if j < p {
        } else if j == p {
        } else if i < p {
            assert(after[j] == before[j - 1]);
            lemma_text_less_transitive(after[i], t, after[j]);
        } else if i == p {
            assert(after[j] == before[j - 1]);
        } else {
            assert(after[i] == before[i - 1]);
            assert(after[j] == before[j - 1]);
        }
    }
    assert(after.to_set() =~= before.to_set().insert(t)) by {
        assert forall|x: Seq<char>| after.contains(x) <==> before.to_set().insert(t).contains(x) by {
            if after.contains(x) {
                let k = choose|k: int| 0 <= k < after.len() && after[k] == x;
                if k < p {
                    assert(before[k] == x);
                } else if k > p {
                    assert(before[k - 1] == x);
                }
            }
            if before.contains(x) {
                let k = choose|k: int| 0 <= k < before.len() && before[k] == x;
                if k < p {
                    assert(after[k] == x);
                } else {
                    assert(after[k + 1] == x);
                }
            }
            if x == t {
                assert(after[p as int] == x);
            }
        }
    }
}

} // verus!
