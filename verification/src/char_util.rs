//! Character classification and regularization.
//!
//! Every downstream index of the segmenter is a character index, so the
//! regularizer maps code point to code point and keeps the character count.

use vstd::prelude::*;

verus! {

/// The class of one input code point.
#[derive(Debug, PartialEq, Eq, Copy, Clone, Structural)]
pub enum CharType {
    USELESS,
    ARABIC,
    ENGLISH,
    CHINESE,
    OtherCjk,
}

/// Han ideographs: CJK Unified Ideographs, CJK Compatibility Ideographs,
/// and CJK Unified Ideographs Extension A.
pub open spec fn is_chinese_code(u: int) -> bool {
    ||| (0x4E00 <= u && u <= 0x9FFF)
    ||| (0xF900 <= u && u <= 0xFAFF)
    ||| (0x3400 <= u && u <= 0x4DBF)
}

/// CJK but not Han: half/full-width forms, Hangul, Hiragana, Katakana.
pub open spec fn is_other_cjk_code(u: int) -> bool {
    ||| (0xFF00 <= u && u <= 0xFFEF)
    ||| (0xAC00 <= u && u <= 0xD7AF)
    ||| (0x1100 <= u && u <= 0x11FF)
    ||| (0x3130 <= u && u <= 0x318F)
    ||| (0x3040 <= u && u <= 0x309F)
    ||| (0x30A0 <= u && u <= 0x30FF)
    ||| (0x31F0 <= u && u <= 0x31FF)
}

/// The class assigned to each code point: digits are ARABIC, ASCII letters
/// ENGLISH, Han ideographs CHINESE, other CJK scripts OtherCjk, the rest
/// USELESS.
pub open spec fn char_type_of(c: char) -> CharType {
    let u = c as u32 as int;
    if 0x30 <= u && u <= 0x39 {
        CharType::ARABIC
    } else if (0x61 <= u && u <= 0x7A) || (0x41 <= u && u <= 0x5A) {
        CharType::ENGLISH
    } else if is_chinese_code(u) {
        CharType::CHINESE
    } else if is_other_cjk_code(u) {
        CharType::OtherCjk
    } else {
        CharType::USELESS
    }
}

/// Relies on unicode_blocks::CJK_UNIFIED_IDEOGRAPHS.contains: the block
/// spans U+4E00..=U+9FFF.
#[verifier::external_body]
fn in_cjk_unified_ideographs(c: char) -> (r: bool)
    ensures
        r == (0x4E00 <= c as u32 && c as u32 <= 0x9FFF),
{
    unicode_blocks::CJK_UNIFIED_IDEOGRAPHS.contains(c)
}

/// Relies on unicode_blocks::CJK_COMPATIBILITY_IDEOGRAPHS.contains: the
/// block spans U+F900..=U+FAFF.
#[verifier::external_body]
fn in_cjk_compatibility_ideographs(c: char) -> (r: bool)
    ensures
        r == (0xF900 <= c as u32 && c as u32 <= 0xFAFF),
{
    unicode_blocks::CJK_COMPATIBILITY_IDEOGRAPHS.contains(c)
}

/// Relies on unicode_blocks::CJK_UNIFIED_IDEOGRAPHS_EXTENSION_A.contains:
/// the block spans U+3400..=U+4DBF.
#[verifier::external_body]
fn in_cjk_unified_ideographs_extension_a(c: char) -> (r: bool)
    ensures
        r == (0x3400 <= c as u32 && c as u32 <= 0x4DBF),
{
    unicode_blocks::CJK_UNIFIED_IDEOGRAPHS_EXTENSION_A.contains(c)
}

/// Relies on unicode_blocks::HALFWIDTH_AND_FULLWIDTH_FORMS.contains: the
/// block spans U+FF00..=U+FFEF.
#[verifier::external_body]
fn in_halfwidth_and_fullwidth_forms(c: char) -> (r: bool)
    ensures
        r == (0xFF00 <= c as u32 && c as u32 <= 0xFFEF),
{
    unicode_blocks::HALFWIDTH_AND_FULLWIDTH_FORMS.contains(c)
}

/// Relies on unicode_blocks::HANGUL_SYLLABLES.contains: the block spans
/// U+AC00..=U+D7AF.
#[verifier::external_body]
fn in_hangul_syllables(c: char) -> (r: bool)
    ensures
        r == (0xAC00 <= c as u32 && c as u32 <= 0xD7AF),
{
    unicode_blocks::HANGUL_SYLLABLES.contains(c)
}

/// Relies on unicode_blocks::HANGUL_JAMO.contains: the block spans
/// U+1100..=U+11FF.
#[verifier::external_body]
fn in_hangul_jamo(c: char) -> (r: bool)
    ensures
        r == (0x1100 <= c as u32 && c as u32 <= 0x11FF),
{
    unicode_blocks::HANGUL_JAMO.contains(c)
}

/// Relies on unicode_blocks::HANGUL_COMPATIBILITY_JAMO.contains: the block
/// spans U+3130..=U+318F.
#[verifier::external_body]
fn in_hangul_compatibility_jamo(c: char) -> (r: bool)
    ensures
        r == (0x3130 <= c as u32 && c as u32 <= 0x318F),
{
    unicode_blocks::HANGUL_COMPATIBILITY_JAMO.contains(c)
}

/// Relies on unicode_blocks::HIRAGANA.contains: the block spans
/// U+3040..=U+309F.
#[verifier::external_body]
fn in_hiragana(c: char) -> (r: bool)
    ensures
        r == (0x3040 <= c as u32 && c as u32 <= 0x309F),
{
    unicode_blocks::HIRAGANA.contains(c)
}

/// Relies on unicode_blocks::KATAKANA.contains: the block spans
/// U+30A0..=U+30FF.
#[verifier::external_body]
fn in_katakana(c: char) -> (r: bool)
    ensures
        r == (0x30A0 <= c as u32 && c as u32 <= 0x30FF),
{
    unicode_blocks::KATAKANA.contains(c)
}

/// Relies on unicode_blocks::KATAKANA_PHONETIC_EXTENSIONS.contains: the
/// block spans U+31F0..=U+31FF.
#[verifier::external_body]
fn in_katakana_phonetic_extensions(c: char) -> (r: bool)
    ensures
        r == (0x31F0 <= c as u32 && c as u32 <= 0x31FF),
{
    unicode_blocks::KATAKANA_PHONETIC_EXTENSIONS.contains(c)
}

impl From<char> for CharType {
    /// Classify one code point by Unicode block membership.
    fn from(input: char) -> (r: Self) {
        let u = input as u32;
        if u >= 0x30 && u <= 0x39 {
            CharType::ARABIC
        } else if (u >= 0x61 && u <= 0x7A) || (u >= 0x41 && u <= 0x5A) {
            CharType::ENGLISH
        } else if in_cjk_unified_ideographs(input) || in_cjk_compatibility_ideographs(input)
            || in_cjk_unified_ideographs_extension_a(input) {
            CharType::CHINESE
        } else if in_halfwidth_and_fullwidth_forms(input) || in_hangul_syllables(input)
            || in_hangul_jamo(input) || in_hangul_compatibility_jamo(input)
            || in_hiragana(input) || in_katakana(input)
            || in_katakana_phonetic_extensions(input) {
            CharType::OtherCjk
        } else {
            CharType::USELESS
        }
    }
}

impl vstd::std_specs::convert::FromSpecImpl<char> for CharType {
    open spec fn obeys_from_spec() -> bool {
        true
    }

    open spec fn from_spec(c: char) -> CharType {
        char_type_of(c)
    }
}

/// One regularization step on a code point: the full-width space becomes a
/// plain space, full-width ASCII becomes half-width, and an upper-case ASCII
/// letter (also one that was just folded from full width) becomes lower case.
pub open spec fn regular_code(u: int) -> int {
    let v = if u == 0x3000 {
        0x20
    } else if 0xFF01 <= u && u <= 0xFF5E {
        u - 0xFEE0
    } else {
        u
    };
    if 0x41 <= v && v <= 0x5A {
        v + 0x20
    } else {
        v
    }
}

/// The regularized form of one character.
pub open spec fn regular_char(c: char) -> char {
    regular_code(c as u32 as int) as char
}

/// The regularized form of a whole character sequence; the length is kept.
pub open spec fn regular_seq(s: Seq<char>) -> Seq<char> {
    s.map_values(|c: char| regular_char(c))
}

/// Relies on char::from_u32: Some exactly for Unicode scalar values, that
/// is everything up to 0x10FFFF except the surrogate range.
#[verifier::external_body]
fn char_from_u32(u: u32) -> (r: Option<char>)
    ensures
        r is Some <==> (u < 0xD800 || (0xE000 <= u && u <= 0x10FFFF)),
        r matches Some(c) ==> c == u as char && c as u32 == u,
{
    char::from_u32(u)
}

/// Regularize one character: full width to half width, upper case to lower
/// case; every other code point passes through.
pub fn regularize(input: char) -> (r: char)
    ensures
        r == regular_char(input),
{
    let u = input as u32;
    let v: u32 = if u == 0x3000 {
        0x20
    } else if u >= 0xFF01 && u <= 0xFF5E {
        u - 0xFEE0
    } else {
        u
    };
    let w: u32 = if v >= 0x41 && v <= 0x5A {
        v + 0x20
    } else {
        v
    };
    match char_from_u32(w) {
        Some(c) => c,
        None => vstd::pervasive::unreached(),
    }
}

/// Regularize a whole string character by character.
pub fn regularize_str(input: &str) -> (r: String)
    ensures
        r@ == regular_seq(input@),
{
    let n = input.unicode_len();
    let mut out = String::new();
    let mut i: usize = 0;
    while i < n
        invariant
            i <= n,
            n == input@.len(),
            out@ == regular_seq(input@).take(i as int),
        decreases n - i,
    {
        let c = input.get_char(i);
        let rc = regularize(c);
        push_char(&mut out, rc);
        proof {
            assert(out@ =~= regular_seq(input@).take(i + 1));
        }
        i += 1;
    }
    proof {
        assert(out@ =~= regular_seq(input@));
    }
    out
}

/// Relies on String::push: appends one character at the end.
#[verifier::external_body]
fn push_char(s: &mut String, c: char)
    ensures
        final(s)@ == old(s)@.push(c),
{
    s.push(c);
}

/// What `utf8_slice` returns: empty when the bounds are reversed or begin is
/// past the end, otherwise the characters from `begin` up to `end` clipped to
/// the string's character count.
pub open spec fn spec_utf8_slice(s: Seq<char>, begin: int, end: int) -> Seq<char> {
    if end < begin || begin >= s.len() {
        Seq::empty()
    } else if end >= s.len() {
        s.subrange(begin, s.len() as int)
    } else {
        s.subrange(begin, end)
    }
}

/// The substring over the character range `[begin, end)`, clipped to the
/// string; character indices, not byte indices.
pub fn utf8_slice<'a>(s: &'a str, begin: usize, end: usize) -> (r: &'a str)
    ensures
        r@ == spec_utf8_slice(s@, begin as int, end as int),
{
    if end < begin {
        let e = "";
        proof {
            reveal_strlit("");
            assert(e@ =~= Seq::<char>::empty());
        }
        return e;
    }
    let n = s.unicode_len();
    if begin >= n {
        let e = "";
        proof {
            reveal_strlit("");
            assert(e@ =~= Seq::<char>::empty());
        }
        e
    } else {
        let e = if end > n {
            n
        } else {
            end
        };
        s.substring_char(begin, e)
    }
}

/// The substring from character `begin` to the end.
pub fn utf8_from<'a>(s: &'a str, begin: usize) -> (r: &'a str)
    ensures
        r@ == spec_utf8_slice(s@, begin as int, s@.len() as int),
{
    let n = utf8_len(s);
    utf8_slice(s, begin, n)
}

/// The substring of the first `end` characters.
pub fn utf8_till<'a>(s: &'a str, end: usize) -> (r: &'a str)
    ensures
        r@ == spec_utf8_slice(s@, 0, end as int),
{
    utf8_slice(s, 0, end)
}

/// The character count of a string.
pub fn utf8_len(s: &str) -> (r: usize)
    ensures
        r == s@.len(),
{
    s.unicode_len()
}

/// The characters of a string collected into a vector.
pub fn chars_of(s: &str) -> (r: Vec<char>)
    ensures
        r@ == s@,
{
    let n = s.unicode_len();
    let mut out: Vec<char> = Vec::new();
    let mut i: usize = 0;
    while i < n
        invariant
            i <= n,
            n == s@.len(),
            out@ == s@.take(i as int),
        decreases n - i,
    {
        out.push(s.get_char(i));
        proof {
            assert(out@ =~= s@.take(i + 1));
        }
        i += 1;
    }
    proof {
        assert(out@ =~= s@);
    }
    out
}

/// Regularizing one character twice gives the same character as doing it
/// once.
pub proof fn lemma_regular_char_idempotent(c: char)
    ensures
        regular_char(regular_char(c)) == regular_char(c),
{
    let u = c as u32 as int;
    let r = regular_code(u);
    assert(0 <= u <= 0xD7FF || 0xE000 <= u <= 0x10FFFF);
    assert(r == regular_code(u));
    assert(0 <= r <= 0xD7FF || 0xE000 <= r <= 0x10FFFF);
    assert((r as char) as u32 as int == r);
    assert(regular_code(r) == r);
}

/// Regularizing an already-regularized sequence is a no-op: the characters,
/// and so the character count, stay the same.
pub proof fn lemma_regularize_idempotent(s: Seq<char>)
    ensures
        regular_seq(regular_seq(s)) == regular_seq(s),
{
    assert forall|i: int| 0 <= i < s.len() implies regular_seq(regular_seq(s))[i] == regular_seq(
        s,
    )[i] by {
        lemma_regular_char_idempotent(s[i]);
    }
    assert(regular_seq(regular_seq(s)) =~= regular_seq(s));
}

} // verus!
