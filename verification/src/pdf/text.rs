//! Reading the text a page draws: glyph names, `/ToUnicode` CMaps, and the
//! encoding used when replacement text is redrawn in a substituted font.

use vstd::prelude::*;
use vstd::string::StringSliceAdditionalSpecFns;

use std::collections::HashMap;

use crate::pdf::unicode::{
    char_from_u32, chars_of, decode_utf16_strict, encode_utf16, encode_utf16_units,
    from_utf16_strict, is_scalar_value,
};

verus! {

broadcast use crate::pdf::object::group_deep;

/// Bytes read one character per byte.
pub open spec fn ascii_text(bytes: Seq<u8>) -> Seq<char> {
    bytes.map_values(|b: u8| b as char)
}

pub open spec fn is_hex_digit(b: u8) -> bool {
    (0x30 <= b <= 0x39) || (0x41 <= b <= 0x46) || (0x61 <= b <= 0x66)
}

pub open spec fn hex_digit_value(b: u8) -> nat {
    if 0x30 <= b <= 0x39 {
        (b - 0x30) as nat
    } else if 0x41 <= b <= 0x46 {
        (b - 0x41 + 10) as nat
    } else {
        (b - 0x61 + 10) as nat
    }
}

pub open spec fn all_hex(digits: Seq<u8>) -> bool {
    forall|i: int| 0 <= i < digits.len() ==> is_hex_digit(#[trigger] digits[i])
}

/// The number a run of hexadecimal digits spells, most significant first.
pub open spec fn hex_number(digits: Seq<u8>) -> nat
    decreases digits.len(),
{
    if digits.len() == 0 {
        0
    } else {
        hex_number(digits.drop_last()) * 16 + hex_digit_value(digits.last())
    }
}

pub open spec fn is_ascii_alphanumeric(b: u8) -> bool {
    (0x30 <= b <= 0x39) || (0x41 <= b <= 0x5A) || (0x61 <= b <= 0x7A)
}

/// The hexadecimal part of a `uniXXXX` or `uXXXX[XX]` glyph name: what
/// follows `uni` when the name starts that way, and otherwise what follows a
/// leading `u`.
pub open spec fn code_point_digits(name: Seq<u8>) -> Option<Seq<u8>> {
    if name.len() >= 3 && name[0] == 0x75 && name[1] == 0x6E && name[2] == 0x69 {
        Some(name.subrange(3, name.len() as int))
    } else if name.len() >= 1 && name[0] == 0x75 {
        Some(name.subrange(1, name.len() as int))
    } else {
        None
    }
}

/// The named glyphs this reader knows, by their Adobe Glyph List names.
pub open spec fn named_glyph(name: Seq<u8>) -> Option<char> {
    let text = ascii_text(name);
    if text == "space"@ {
        Some(' ')
    } else if text == "exclam"@ {
        Some('!')
    } else if text == "quotedbl"@ {
        Some('"')
    } else if text == "numbersign"@ {
        Some('#')
    } else if text == "dollar"@ {
        Some('$')
    } else if text == "percent"@ {
        Some('%')
    } else if text == "ampersand"@ {
        Some('&')
    } else if text == "quotesingle"@ {
        Some('\'')
    } else if text == "parenleft"@ {
        Some('(')
    } else if text == "parenright"@ {
        Some(')')
    } else if text == "asterisk"@ {
        Some('*')
    } else if text == "plus"@ {
        Some('+')
    } else if text == "comma"@ {
        Some(',')
    } else if text == "hyphen"@ {
        Some('-')
    } else if text == "minus"@ {
        Some('-')
    } else if text == "period"@ {
        Some('.')
    } else if text == "slash"@ {
        Some('/')
    } else if text == "zero"@ {
        Some('0')
    } else if text == "one"@ {
        Some('1')
    } else if text == "two"@ {
        Some('2')
    } else if text == "three"@ {
        Some('3')
    } else if text == "four"@ {
        Some('4')
    } else if text == "five"@ {
        Some('5')
    } else if text == "six"@ {
        Some('6')
    } else if text == "seven"@ {
        Some('7')
    } else if text == "eight"@ {
        Some('8')
    } else if text == "nine"@ {
        Some('9')
    } else if text == "colon"@ {
        Some(':')
    } else if text == "semicolon"@ {
        Some(';')
    } else if text == "less"@ {
        Some('<')
    } else if text == "equal"@ {
        Some('=')
    } else if text == "greater"@ {
        Some('>')
    } else if text == "question"@ {
        Some('?')
    } else if text == "at"@ {
        Some('@')
    } else if text == "bracketleft"@ {
        Some('[')
    } else if text == "backslash"@ {
        Some('\\')
    } else if text == "bracketright"@ {
        Some(']')
    } else if text == "asciicircum"@ {
        Some('^')
    } else if text == "underscore"@ {
        Some('_')
    } else if text == "grave"@ {
        Some('`')
    } else if text == "braceleft"@ {
        Some('{')
    } else if text == "bar"@ {
        Some('|')
    } else if text == "braceright"@ {
        Some('}')
    } else if text == "asciitilde"@ {
        Some('~')
    } else if text == "quoteleft"@ {
        Some('\'')
    } else if text == "quoteright"@ {
        Some('\'')
    } else if text == "quotedblleft"@ {
        Some('\u{201C}')
    } else if text == "quotedblright"@ {
        Some('\u{201D}')
    } else if text == "endash"@ {
        Some('\u{2013}')
    } else if text == "emdash"@ {
        Some('\u{2014}')
    } else if text == "bullet"@ {
        Some('\u{2022}')
    } else if text == "eacute"@ {
        Some('\u{00E9}')
    } else if text == "egrave"@ {
        Some('\u{00E8}')
    } else if text == "agrave"@ {
        Some('\u{00E0}')
    } else if text == "ccedilla"@ {
        Some('\u{00E7}')
    } else if text == "adieresis"@ {
        Some('\u{00E4}')
    } else if text == "odieresis"@ {
        Some('\u{00F6}')
    } else if text == "udieresis"@ {
        Some('\u{00FC}')
    } else if text == "germandbls"@ {
        Some('\u{00DF}')
    } else if text == "degree"@ {
        Some('\u{00B0}')
    } else if text == "copyright"@ {
        Some('\u{00A9}')
    } else if text == "registered"@ {
        Some('\u{00AE}')
    } else if text == "trademark"@ {
        Some('\u{2122}')
    } else {
        None
    }
}

/// The character a glyph name in a `/Differences` array stands for.
///
/// `uniXXXX` and `uXXXX[XX]` spell the code point in hexadecimal (at least four
/// digits; a number that is not a character, or does not fit 32 bits, names
/// nothing); a single ASCII letter or digit names itself; and a fixed set of
/// Adobe Glyph List names covers what real documents use in practice.
pub open spec fn glyph_char(name: Seq<u8>) -> Option<char> {
    let digits = code_point_digits(name);
    if digits is Some && digits->0.len() >= 4 && all_hex(digits->0) {
        let value = hex_number(digits->0);
        if value <= u32::MAX && is_scalar_value(value as int) {
            Some(value as char)
        } else {
            None
        }
    } else if name.len() == 1 && is_ascii_alphanumeric(name[0]) {
        Some(name[0] as char)
    } else {
        named_glyph(name)
    }
}

/// Whether `bytes`, read one character per byte, spell exactly `text`.
fn spells(bytes: &[u8], text: &str) -> (r: bool)
    ensures
        r == (ascii_text(bytes@) == text@),
{
    let chars = chars_of(text);
    if chars.len() != bytes.len() {
        assert(ascii_text(bytes@).len() != text@.len());
        return false;
    }
    let mut index: usize = 0;
    while index < bytes.len()
        invariant
            0 <= index <= bytes@.len(),
            chars@ == text@,
            chars@.len() == bytes@.len(),
            forall|j: int| 0 <= j < index ==> (bytes@[j] as char) == chars@[j],
        decreases bytes@.len() - index,
    {
        if bytes[index] as char != chars[index] {
            assert(ascii_text(bytes@)[index as int] != text@[index as int]);
            return false;
        }
        index = index + 1;
    }
    assert(ascii_text(bytes@) =~= text@);
    true
}

fn hex_digit(b: u8) -> (r: Option<u32>)
    ensures
        r is Some <==> is_hex_digit(b),
        r matches Some(v) ==> v == hex_digit_value(b) && v < 16,
{
    if 0x30 <= b && b <= 0x39 {
        Some((b - 0x30) as u32)
    } else if 0x41 <= b && b <= 0x46 {
        Some((b - 0x41 + 10) as u32)
    } else if 0x61 <= b && b <= 0x66 {
        Some((b - 0x61 + 10) as u32)
    } else {
        None
    }
}

proof fn lemma_hex_number_monotone(digits: Seq<u8>, k: int)
    requires
        0 <= k <= digits.len(),
        all_hex(digits),
    ensures
        hex_number(digits.subrange(0, k)) <= hex_number(digits),
    decreases digits.len() - k,
{
    if k < digits.len() {
        lemma_hex_number_monotone(digits, k + 1);
        let next = digits.subrange(0, k + 1);
        assert(next.drop_last() =~= digits.subrange(0, k));
    } else {
        assert(digits.subrange(0, k) =~= digits);
    }
}

/// The value of a run of hexadecimal digits, or `None` once it no longer fits
/// 32 bits.
fn hex_u32(digits: &[u8]) -> (r: Option<u32>)
    requires
        all_hex(digits@),
    ensures
        r is Some <==> hex_number(digits@) <= u32::MAX,
        r matches Some(v) ==> v == hex_number(digits@),
{
    let mut value: u32 = 0;
    let mut index: usize = 0;
    while index < digits.len()
        invariant
            0 <= index <= digits@.len(),
            all_hex(digits@),
            value == hex_number(digits@.subrange(0, index as int)),
        decreases digits@.len() - index,
    {
        let digit = match hex_digit(digits[index]) {
            Some(d) => d,
            None => {
                assert(false);
                0
            },
        };
        let ghost next = digits@.subrange(0, index + 1);
        assert(next.drop_last() =~= digits@.subrange(0, index as int));
        if value > (u32::MAX - digit) / 16 {
            proof {
                assert(hex_number(next) == value * 16 + digit);
                assert(value * 16 + digit > u32::MAX) by (nonlinear_arith)
                    requires
                        value > (u32::MAX - digit) / 16,
                        digit < 16,
                ;
                lemma_hex_number_monotone(digits@, index + 1);
            }
            return None;
        }
        assert(value * 16 + digit <= u32::MAX) by (nonlinear_arith)
            requires
                value <= (u32::MAX - digit) / 16,
                digit < 16,
        ;
        value = value * 16 + digit;
        index = index + 1;
    }
    assert(digits@.subrange(0, digits@.len() as int) =~= digits@);
    Some(value)
}

fn all_hex_digits(digits: &[u8]) -> (r: bool)
    ensures
        r == all_hex(digits@),
{
    let mut index: usize = 0;
    while index < digits.len()
        invariant
            0 <= index <= digits@.len(),
            forall|j: int| 0 <= j < index ==> is_hex_digit(#[trigger] digits@[j]),
        decreases digits@.len() - index,
    {
        if hex_digit(digits[index]).is_none() {
            return false;
        }
        index = index + 1;
    }
    true
}

/// A copy of `bytes[from..to]`.
fn slice_bytes(bytes: &[u8], from: usize, to: usize) -> (r: Vec<u8>)
    requires
        from <= to <= bytes@.len(),
    ensures
        r@ == bytes@.subrange(from as int, to as int),
{
    let mut out: Vec<u8> = Vec::new();
    let mut index = from;
    while index < to
        invariant
            from <= index <= to,
            to <= bytes@.len(),
            out@ == bytes@.subrange(from as int, index as int),
        decreases to - index,
    {
        out.push(bytes[index]);
        index = index + 1;
        assert(out@ =~= bytes@.subrange(from as int, index as int));
    }
    out
}

/// A copy of `bytes[from..]`.
fn tail(bytes: &[u8], from: usize) -> (r: Vec<u8>)
    requires
        from <= bytes@.len(),
    ensures
        r@ == bytes@.subrange(from as int, bytes@.len() as int),
{
    slice_bytes(bytes, from, bytes.len())
}

/// Resolves the glyph names that actually appear in `/Differences` arrays.
///
/// The full Adobe Glyph List runs to thousands of entries; the names below plus
/// the `uniXXXX` form cover what real documents use in practice.
pub fn glyph_name_to_char(name: &[u8]) -> (r: Option<char>)
    ensures
        r == glyph_char(name@),
{
    let digits = if name.len() >= 3 && name[0] == 0x75 && name[1] == 0x6E && name[2] == 0x69 {
        Some(tail(name, 3))
    } else if name.len() >= 1 && name[0] == 0x75 {
        Some(tail(name, 1))
    } else {
        None
    };
    if let Some(hex) = &digits {
        if hex.len() >= 4 && all_hex_digits(hex.as_slice()) {
            return match hex_u32(hex.as_slice()) {
                Some(value) => char_from_u32(value),
                None => None,
            };
        }
    }
    if name.len() == 1 {
        let only = name[0];
        if (0x30 <= only && only <= 0x39) || (0x41 <= only && only <= 0x5A) || (0x61 <= only
            && only <= 0x7A) {
            return Some(only as char);
        }
    }
    named_glyph_char(name)
}

fn named_glyph_char(name: &[u8]) -> (r: Option<char>)
    ensures
        r == named_glyph(name@),
{
    if spells(name, "space") {
        Some(' ')
    } else if spells(name, "exclam") {
        Some('!')
    } else if spells(name, "quotedbl") {
        Some('"')
    } else if spells(name, "numbersign") {
        Some('#')
    } else if spells(name, "dollar") {
        Some('$')
    } else if spells(name, "percent") {
        Some('%')
    } else if spells(name, "ampersand") {
        Some('&')
    } else if spells(name, "quotesingle") {
        Some('\'')
    } else if spells(name, "parenleft") {
        Some('(')
    } else if spells(name, "parenright") {
        Some(')')
    } else if spells(name, "asterisk") {
        Some('*')
    } else if spells(name, "plus") {
        Some('+')
    } else if spells(name, "comma") {
        Some(',')
    } else if spells(name, "hyphen") {
        Some('-')
    } else if spells(name, "minus") {
        Some('-')
    } else if spells(name, "period") {
        Some('.')
    } else if spells(name, "slash") {
        Some('/')
    } else if spells(name, "zero") {
        Some('0')
    } else if spells(name, "one") {
        Some('1')
    } else if spells(name, "two") {
        Some('2')
    } else if spells(name, "three") {
        Some('3')
    } else if spells(name, "four") {
        Some('4')
    } else if spells(name, "five") {
        Some('5')
    } else if spells(name, "six") {
        Some('6')
    } else if spells(name, "seven") {
        Some('7')
    } else if spells(name, "eight") {
        Some('8')
    } else if spells(name, "nine") {
        Some('9')
    } else if spells(name, "colon") {
        Some(':')
    } else if spells(name, "semicolon") {
        Some(';')
    } else if spells(name, "less") {
        Some('<')
    } else if spells(name, "equal") {
        Some('=')
    } else if spells(name, "greater") {
        Some('>')
    } else if spells(name, "question") {
        Some('?')
    } else if spells(name, "at") {
        Some('@')
    } else if spells(name, "bracketleft") {
        Some('[')
    } else if spells(name, "backslash") {
        Some('\\')
    } else if spells(name, "bracketright") {
        Some(']')
    } else if spells(name, "asciicircum") {
        Some('^')
    } else if spells(name, "underscore") {
        Some('_')
    } else if spells(name, "grave") {
        Some('`')
    } else if spells(name, "braceleft") {
        Some('{')
    } else if spells(name, "bar") {
        Some('|')
    } else if spells(name, "braceright") {
        Some('}')
    } else if spells(name, "asciitilde") {
        Some('~')
    } else if spells(name, "quoteleft") {
        Some('\'')
    } else if spells(name, "quoteright") {
        Some('\'')
    } else if spells(name, "quotedblleft") {
        Some('\u{201C}')
    } else if spells(name, "quotedblright") {
        Some('\u{201D}')
    } else if spells(name, "endash") {
        Some('\u{2013}')
    } else if spells(name, "emdash") {
        Some('\u{2014}')
    } else if spells(name, "bullet") {
        Some('\u{2022}')
    } else if spells(name, "eacute") {
        Some('\u{00E9}')
    } else if spells(name, "egrave") {
        Some('\u{00E8}')
    } else if spells(name, "agrave") {
        Some('\u{00E0}')
    } else if spells(name, "ccedilla") {
        Some('\u{00E7}')
    } else if spells(name, "adieresis") {
        Some('\u{00E4}')
    } else if spells(name, "odieresis") {
        Some('\u{00F6}')
    } else if spells(name, "udieresis") {
        Some('\u{00FC}')
    } else if spells(name, "germandbls") {
        Some('\u{00DF}')
    } else if spells(name, "degree") {
        Some('\u{00B0}')
    } else if spells(name, "copyright") {
        Some('\u{00A9}')
    } else if spells(name, "registered") {
        Some('\u{00AE}')
    } else if spells(name, "trademark") {
        Some('\u{2122}')
    } else {
        None
    }
}


// ---------------------------------------------------------------------------
// /ToUnicode CMaps
// ---------------------------------------------------------------------------

/// The first position at or after `from` where `needle` occurs in `hay`.
pub open spec fn find_from(hay: Seq<u8>, needle: Seq<u8>, from: int) -> Option<int>
    decreases hay.len() + 1 - from,
{
    if from < 0 || from + needle.len() > hay.len() {
        None
    } else if hay.subrange(from, from + needle.len()) == needle {
        Some(from)
    } else {
        find_from(hay, needle, from + 1)
    }
}

pub proof fn lemma_find_from_bounds(hay: Seq<u8>, needle: Seq<u8>, from: int)
    ensures
        find_from(hay, needle, from) matches Some(at) ==> from <= at && at + needle.len()
            <= hay.len() && hay.subrange(at, at + needle.len()) == needle,
    decreases hay.len() + 1 - from,
{
    if !(from < 0 || from + needle.len() > hay.len()) && hay.subrange(from, from + needle.len())
        != needle {
        lemma_find_from_bounds(hay, needle, from + 1);
    }
}

pub proof fn lemma_first_delimiter_bounds(b: Seq<u8>, from: int)
    ensures
        first_delimiter(b, from) matches Some(at) ==> from <= at < b.len() && is_delimiter(b[at]),
    decreases b.len() - from,
{
    if !(from < 0 || from >= b.len()) && !is_delimiter(b[from]) {
        lemma_first_delimiter_bounds(b, from + 1);
    }
}

pub proof fn lemma_hex_run_bounds(tokens: Seq<SpecToken>, from: int)
    requires
        0 <= from,
    ensures
        from + hex_run(tokens, from) <= if from <= tokens.len() {
            tokens.len() as int
        } else {
            from
        },
    decreases tokens.len() - from,
{
    if from < tokens.len() && tokens[from] is Hex {
        lemma_hex_run_bounds(tokens, from + 1);
    }
}

/// The text of every section that starts after `marker`, up to the next `end`
/// (or to the end of the text when no `end` follows). The search for the next
/// section resumes at that `end`.
pub open spec fn sections(text: Seq<u8>, marker: Seq<u8>, end: Seq<u8>) -> Seq<Seq<u8>>
    decreases text.len(),
{
    if marker.len() == 0 {
        Seq::empty()
    } else {
        match find_from(text, marker, 0) {
            None => Seq::empty(),
            Some(start) => {
                proof {
                    lemma_find_from_bounds(text, marker, 0);
                }
                let after = text.subrange(start + marker.len(), text.len() as int);
                let section = match find_from(after, end, 0) {
                    Some(stop) => after.subrange(0, stop),
                    None => after,
                };
                proof {
                    lemma_find_from_bounds(after, end, 0);
                }
                seq![section] + sections(
                    after.subrange(section.len() as int, after.len() as int),
                    marker,
                    end,
                )
            },
        }
    }
}

/// The byte length of the Unicode whitespace character that `b` starts with
/// (0 when it starts with anything else), reading `b` as UTF-8.
pub open spec fn leading_space(b: Seq<u8>) -> nat {
    if b.len() >= 1 && (b[0] == 0x20 || (0x09 <= b[0] <= 0x0D)) {
        1
    } else if b.len() >= 2 && b[0] == 0xC2 && (b[1] == 0x85 || b[1] == 0xA0) {
        2
    } else if b.len() >= 3 && (b[0] == 0xE1 && b[1] == 0x9A && b[2] == 0x80 || b[0] == 0xE2 && b[1]
        == 0x80 && (0x80 <= b[2] <= 0x8A || b[2] == 0xA8 || b[2] == 0xA9 || b[2] == 0xAF) || b[0]
        == 0xE2 && b[1] == 0x81 && b[2] == 0x9F || b[0] == 0xE3 && b[1] == 0x80 && b[2] == 0x80) {
        3
    } else {
        0
    }
}

/// The byte length of the Unicode whitespace character that `b` ends with.
pub open spec fn trailing_space(b: Seq<u8>) -> nat {
    let n = b.len();
    if n >= 1 && (b[n - 1] == 0x20 || (0x09 <= b[n - 1] <= 0x0D)) {
        1
    } else if n >= 2 && leading_space(b.subrange(n - 2, n as int)) == 2 {
        2
    } else if n >= 3 && leading_space(b.subrange(n - 3, n as int)) == 3 {
        3
    } else {
        0
    }
}

/// `b` without the Unicode whitespace it starts with.
pub open spec fn trim_start(b: Seq<u8>) -> Seq<u8>
    decreases b.len(),
{
    if leading_space(b) == 0 {
        b
    } else {
        trim_start(b.subrange(leading_space(b) as int, b.len() as int))
    }
}

/// `b` without the Unicode whitespace it ends with.
pub open spec fn trim_end(b: Seq<u8>) -> Seq<u8>
    decreases b.len(),
{
    if trailing_space(b) == 0 {
        b
    } else {
        trim_end(b.subrange(0, b.len() - trailing_space(b)))
    }
}

/// `str::trim`, on the UTF-8 bytes of a string.
pub open spec fn trim(b: Seq<u8>) -> Seq<u8> {
    trim_end(trim_start(b))
}

pub open spec fn is_delimiter(b: u8) -> bool {
    b == 0x3C || b == 0x5B || b == 0x5D
}

/// The first position at or after `from` holding `<`, `[` or `]`.
pub open spec fn first_delimiter(b: Seq<u8>, from: int) -> Option<int>
    decreases b.len() - from,
{
    if from < 0 || from >= b.len() {
        None
    } else if is_delimiter(b[from]) {
        Some(from)
    } else {
        first_delimiter(b, from + 1)
    }
}

/// A token from a CMap section.
pub enum CMapToken {
    /// The trimmed text between `<` and `>`.
    Hex(Vec<u8>),
    ArrayStart,
    ArrayEnd,
}

/// A CMap token as a value.
pub enum SpecToken {
    Hex(Seq<u8>),
    ArrayStart,
    ArrayEnd,
}

pub open spec fn token_view(token: CMapToken) -> SpecToken {
    match token {
        CMapToken::Hex(text) => SpecToken::Hex(text@),
        CMapToken::ArrayStart => SpecToken::ArrayStart,
        CMapToken::ArrayEnd => SpecToken::ArrayEnd,
    }
}

/// Splits a CMap section into hex strings and array brackets: each `<…>`
/// becomes its trimmed contents, each `[` and `]` a bracket. Anything else is
/// skipped, and an unclosed `<` ends the section.
///
/// The brackets matter: a `bfrange` destination may be either a single value
/// or a bracketed list of them.
pub open spec fn tokens(b: Seq<u8>) -> Seq<SpecToken>
    decreases b.len(),
{
    match first_delimiter(b, 0) {
        None => Seq::empty(),
        Some(at) => {
            proof {
                lemma_first_delimiter_bounds(b, 0);
            }
            let rest = b.subrange(at + 1, b.len() as int);
            if b[at] == 0x5B {
                seq![SpecToken::ArrayStart] + tokens(rest)
            } else if b[at] == 0x5D {
                seq![SpecToken::ArrayEnd] + tokens(rest)
            } else {
                match find_from(rest, seq![0x3Eu8], 0) {
                    None => Seq::empty(),
                    Some(close) => {
                        proof {
                            lemma_find_from_bounds(rest, seq![0x3Eu8], 0);
                        }
                        seq![SpecToken::Hex(trim(rest.subrange(0, close)))] + tokens(
                        rest.subrange(close + 1, rest.len() as int),
                    )
                    },
                }
            }
        },
    }
}

/// `u32::from_str_radix(text, 16)`: an optional `+`, then one or more
/// hexadecimal digits whose value fits 32 bits.
pub open spec fn hex_code(text: Seq<u8>) -> Option<u32> {
    let digits = if text.len() > 0 && text[0] == 0x2B {
        text.subrange(1, text.len() as int)
    } else {
        text
    };
    if digits.len() > 0 && all_hex(digits) && hex_number(digits) <= u32::MAX {
        Some(hex_number(digits) as u32)
    } else {
        None
    }
}

/// `u16::from_str_radix` on one four-byte group: an optional `+`, then the
/// remaining bytes all hexadecimal digits.
pub open spec fn unit_of_group(group: Seq<u8>) -> Option<u16> {
    let digits = if group.len() > 0 && group[0] == 0x2B {
        group.subrange(1, group.len() as int)
    } else {
        group
    };
    if digits.len() > 0 && all_hex(digits) {
        Some(hex_number(digits) as u16)
    } else {
        None
    }
}

/// The UTF-16 units a CMap destination spells: the text is read in groups of
/// four bytes, a short group at the end is dropped, and a group that is not a
/// number is skipped.
pub open spec fn hex_units(text: Seq<u8>) -> Seq<u16>
    decreases text.len(),
{
    if text.len() < 4 {
        Seq::empty()
    } else {
        let rest = hex_units(text.subrange(4, text.len() as int));
        match unit_of_group(text.subrange(0, 4)) {
            Some(unit) => seq![unit] + rest,
            None => rest,
        }
    }
}

/// A CMap destination as text: its UTF-16 units decoded, or nothing when it
/// spells no units or an unpaired surrogate.
pub open spec fn hex_text(text: Seq<u8>) -> Option<Seq<char>> {
    let units = hex_units(text);
    if units.len() == 0 {
        None
    } else {
        decode_utf16_strict(units)
    }
}

/// The destination of a `bfrange` entry `offset` places after its first:
/// the last UTF-16 unit of the destination advanced by `offset`, as long as
/// that stays a 16-bit unit and the result still decodes.
pub open spec fn hex_text_offset(text: Seq<u8>, offset: u32) -> Option<Seq<char>> {
    match hex_text(text) {
        None => None,
        Some(decoded) => if offset == 0 {
            Some(decoded)
        } else {
            let units = encode_utf16(decoded);
            if units.len() == 0 || offset > u16::MAX || units.last() + offset > u16::MAX {
                None
            } else {
                decode_utf16_strict(units.update(units.len() - 1, (units.last() + offset) as u16))
            }
        },
    }
}

/// The hex tokens of a section, in order.
pub open spec fn hex_tokens(tokens: Seq<SpecToken>) -> Seq<Seq<u8>>
    decreases tokens.len(),
{
    if tokens.len() == 0 {
        Seq::empty()
    } else {
        let rest = hex_tokens(tokens.subrange(1, tokens.len() as int));
        match tokens[0] {
            SpecToken::Hex(text) => seq![text] + rest,
            _ => rest,
        }
    }
}

/// The mappings a `bfchar` section states: its hex tokens taken in pairs of
/// source code and destination text, keeping the pairs where both read.
pub open spec fn bfchar_entries(hex: Seq<Seq<u8>>) -> Seq<(u32, Seq<char>)>
    decreases hex.len(),
{
    if hex.len() < 2 {
        Seq::empty()
    } else {
        let rest = bfchar_entries(hex.subrange(2, hex.len() as int));
        match (hex_code(hex[0]), hex_text(hex[1])) {
            (Some(code), Some(text)) => seq![(code, text)] + rest,
            _ => rest,
        }
    }
}

/// The span a `bfrange` covers past its first code, capped so that a malformed
/// file naming an enormous range costs bounded work.
pub open spec fn range_span(first: u32, last: u32) -> u32 {
    let span = if last >= first { (last - first) as u32 } else { 0 };
    if span > 65535 { 65535 } else { span }
}

/// The mappings of a `bfrange` entry with a single destination, for offsets
/// `offset` to `span`.
pub open spec fn range_entries(first: u32, destination: Seq<u8>, offset: u32, span: u32) -> Seq<
    (u32, Seq<char>),
>
    decreases span - offset,
{
    if offset > span {
        Seq::empty()
    } else {
        let rest = if offset == span {
            Seq::empty()
        } else {
            range_entries(first, destination, (offset + 1) as u32, span)
        };
        match hex_text_offset(destination, offset) {
            Some(text) => seq![(wrap32(first + offset), text)] + rest,
            None => rest,
        }
    }
}

/// The number of hex tokens at the front of `tokens`.
pub open spec fn hex_run(tokens: Seq<SpecToken>, from: int) -> nat
    decreases tokens.len() - from,
{
    if from < 0 || from >= tokens.len() {
        0
    } else if tokens[from] is Hex {
        1 + hex_run(tokens, from + 1)
    } else {
        0
    }
}

/// The mappings of a `bfrange` entry with a bracketed list of destinations,
/// starting at token `cursor`, for the `offset`-th code onwards.
pub open spec fn list_entries(tokens: Seq<SpecToken>, first: u32, cursor: int, offset: u32) -> Seq<
    (u32, Seq<char>),
>
    decreases tokens.len() - cursor,
{
    if cursor < 0 || cursor >= tokens.len() {
        Seq::empty()
    } else {
        match tokens[cursor] {
            SpecToken::Hex(destination) => {
                let rest = list_entries(
                    tokens,
                    first,
                    cursor + 1,
                    wrap32(offset + 1),
                );
                match hex_text(destination) {
                    Some(text) => seq![(wrap32(first + offset), text)] + rest,
                    None => rest,
                }
            },
            _ => Seq::empty(),
        }
    }
}

/// The mappings a `bfrange` section states, from token `index` on:
/// `<lo> <hi> <dst>` maps the range by advancing the destination, and
/// `<lo> <hi> [<dst> …]` maps it entry by entry. Anything that does not read
/// is stepped over.
pub open spec fn bfrange_entries(tokens: Seq<SpecToken>, index: int) -> Seq<(u32, Seq<char>)>
    decreases tokens.len() - index, 1int,
{
    if index < 0 || index >= tokens.len() {
        Seq::empty()
    } else if !(tokens[index] is Hex) || index + 1 >= tokens.len() || !(tokens[index + 1] is Hex) {
        bfrange_entries(tokens, index + 1)
    } else {
        let low = tokens[index]->Hex_0;
        let high = tokens[index + 1]->Hex_0;
        match (hex_code(low), hex_code(high)) {
            (Some(first), Some(last)) => {
                if index + 2 < tokens.len() && tokens[index + 2] is Hex {
                    range_entries(first, tokens[index + 2]->Hex_0, 0, range_span(first, last))
                        + bfrange_entries(tokens, index + 3)
                } else if index + 2 < tokens.len() && tokens[index + 2] is ArrayStart {
                    let cursor = index + 3 + hex_run(tokens, index + 3);
                    proof {
                        lemma_hex_run_bounds(tokens, index + 3);
                    }
                    let next = if cursor < tokens.len() && tokens[cursor] is ArrayEnd {
                        cursor + 1
                    } else {
                        cursor
                    };
                    list_entries(tokens, first, index + 3, 0) + bfrange_entries(tokens, next)
                } else {
                    bfrange_entries(tokens, index + 2)
                }
            },
            _ => bfrange_entries(tokens, index + 2),
        }
    }
}

/// The mappings stated by a sequence of sections, in order.
pub open spec fn bfchar_section_entries(sections: Seq<Seq<u8>>) -> Seq<(u32, Seq<char>)>
    decreases sections.len(),
{
    if sections.len() == 0 {
        Seq::empty()
    } else {
        bfchar_entries(hex_tokens(tokens(sections[0]))) + bfchar_section_entries(
            sections.subrange(1, sections.len() as int),
        )
    }
}

pub open spec fn bfrange_section_entries(sections: Seq<Seq<u8>>) -> Seq<(u32, Seq<char>)>
    decreases sections.len(),
{
    if sections.len() == 0 {
        Seq::empty()
    } else {
        bfrange_entries(tokens(sections[0]), 0) + bfrange_section_entries(
            sections.subrange(1, sections.len() as int),
        )
    }
}

/// The mappings applied one after another: a later one for a code replaces an
/// earlier one.
pub open spec fn apply_entries(map: Map<u32, Seq<char>>, entries: Seq<(u32, Seq<char>)>) -> Map<
    u32,
    Seq<char>,
>
    decreases entries.len(),
{
    if entries.len() == 0 {
        map
    } else {
        apply_entries(
            map.insert(entries[0].0, entries[0].1),
            entries.subrange(1, entries.len() as int),
        )
    }
}

/// Every mapping a CMap states: all `bfchar` sections first, then all
/// `bfrange` sections, each in order.
pub open spec fn cmap_entries(text: Seq<u8>) -> Seq<(u32, Seq<char>)> {
    bfchar_section_entries(sections(text, "beginbfchar".spec_bytes(), "endbfchar".spec_bytes()))
        + bfrange_section_entries(
        sections(text, "beginbfrange".spec_bytes(), "endbfrange".spec_bytes()),
    )
}

/// `x` as a `u32`, wrapping once past `u32::MAX`.
pub open spec fn wrap32(x: int) -> u32 {
    if x > u32::MAX {
        (x - 0x1_0000_0000) as u32
    } else {
        x as u32
    }
}

/// The mappings of a `HashMap` of strings, as text.
pub open spec fn text_map(m: Map<u32, String>) -> Map<u32, Seq<char>> {
    m.map_values(|s: String| s@)
}

pub proof fn lemma_apply_entries_append(
    map: Map<u32, Seq<char>>,
    a: Seq<(u32, Seq<char>)>,
    b: Seq<(u32, Seq<char>)>,
)
    ensures
        apply_entries(map, a + b) == apply_entries(apply_entries(map, a), b),
    decreases a.len(),
{
    if a.len() > 0 {
        assert((a + b).subrange(1, (a + b).len() as int) =~= a.subrange(1, a.len() as int) + b);
        lemma_apply_entries_append(map.insert(a[0].0, a[0].1), a.subrange(1, a.len() as int), b);
    } else {
        assert(a + b =~= b);
    }
}

pub proof fn lemma_apply_entries_cons(
    map: Map<u32, Seq<char>>,
    entry: (u32, Seq<char>),
    rest: Seq<(u32, Seq<char>)>,
)
    ensures
        apply_entries(map, seq![entry] + rest) == apply_entries(map.insert(entry.0, entry.1), rest),
{
    assert((seq![entry] + rest).subrange(1, rest.len() + 1int) =~= rest);
}

pub proof fn lemma_text_map_insert(m: Map<u32, String>, k: u32, v: String)
    ensures
        text_map(m.insert(k, v)) == text_map(m).insert(k, v@),
{
    assert(text_map(m.insert(k, v)) =~= text_map(m).insert(k, v@));
}


/// The first position at or after `from` where `needle` occurs in `hay`.
fn find_bytes(hay: &[u8], needle: &[u8], from: usize) -> (r: Option<usize>)
    ensures
        match r {
            Some(at) => find_from(hay@, needle@, from as int) == Some(at as int),
            None => find_from(hay@, needle@, from as int) is None,
        },
{
    if needle.len() == 0 {
        if from <= hay.len() {
            assert(hay@.subrange(from as int, from as int) =~= needle@);
            return Some(from);
        }
        return None;
    }
    let mut at = from;
    while at < hay.len() && hay.len() - at >= needle.len()
        invariant
            from <= at,
            needle@.len() > 0,
            find_from(hay@, needle@, from as int) == find_from(hay@, needle@, at as int),
        decreases hay@.len() + 1 - at,
    {
        let mut matched = true;
        let mut k: usize = 0;
        assert(hay@.subrange(at as int, at as int) =~= needle@.subrange(0, 0));
        while k < needle.len()
            invariant
                0 <= k <= needle@.len(),
                at + needle@.len() <= hay@.len(),
                hay@.len() == hay.len(),
                matched == (hay@.subrange(at as int, at + k) == needle@.subrange(0, k as int)),
            decreases needle@.len() - k,
        {
            if hay[at + k] != needle[k] {
                if matched {
                    assert(hay@.subrange(at as int, at + k + 1)[k as int] != needle@.subrange(0, k + 1)[k as int]);
                }
                matched = false;
            }
            proof {
                if matched {
                    assert(hay@.subrange(at as int, at + k + 1) =~= needle@.subrange(0, k + 1));
                } else {
                    if hay@.subrange(at as int, at + k + 1) == needle@.subrange(0, k + 1) {
                        assert(hay@.subrange(at as int, at + k) =~= needle@.subrange(0, k as int));
                    }
                }
            }
            k = k + 1;
        }
        assert(needle@.subrange(0, needle@.len() as int) =~= needle@);
        if matched {
            return Some(at);
        }
        at = at + 1;
    }
    None
}

/// Returns the text of every section between `marker` and `end`.
pub fn cmap_sections(text: &[u8], marker: &[u8], end: &[u8]) -> (r: Vec<Vec<u8>>)
    ensures
        r@.map_values(|v: Vec<u8>| v@) == sections(text@, marker@, end@),
{
    let mut out: Vec<Vec<u8>> = Vec::new();
    if marker.len() == 0 {
        assert(out@.map_values(|v: Vec<u8>| v@) =~= Seq::<Seq<u8>>::empty());
        return out;
    }
    let mut rest = tail(text, 0);
    assert(rest@ =~= text@);
    loop
        invariant
            marker@.len() > 0,
            sections(text@, marker@, end@) == out@.map_values(|v: Vec<u8>| v@) + sections(
                rest@,
                marker@,
                end@,
            ),
        decreases rest@.len(),
    {
        let start = match find_bytes(rest.as_slice(), marker, 0) {
            Some(start) => start,
            None => {
                assert(out@.map_values(|v: Vec<u8>| v@) + Seq::<Seq<u8>>::empty() =~= out@.map_values(
                    |v: Vec<u8>| v@,
                ));
                return out;
            },
        };
        proof {
            lemma_find_from_bounds(rest@, marker@, 0);
            assert(rest@.len() == rest.len());
        }
        let after = tail(rest.as_slice(), start + marker.len());
        let section = match find_bytes(after.as_slice(), end, 0) {
            Some(stop) => {
                proof {
                    lemma_find_from_bounds(after@, end@, 0);
                }
                slice_bytes(after.as_slice(), 0, stop)
            },
            None => tail(after.as_slice(), 0),
        };
        assert(after@.subrange(0, after@.len() as int) =~= after@);
        let next = tail(after.as_slice(), section.len());
        let ghost prefix = out@.map_values(|v: Vec<u8>| v@);
        let ghost piece = section@;
        out.push(section);
        assert(out@.map_values(|v: Vec<u8>| v@) =~= prefix.push(piece));
        assert(prefix + (seq![piece] + sections(next@, marker@, end@)) =~= prefix.push(piece)
            + sections(next@, marker@, end@));
        rest = next;
    }
}

/// The byte length of the Unicode whitespace character at `b[at..]`.
fn space_at(b: &[u8], at: usize, to: usize) -> (r: usize)
    requires
        at <= to <= b@.len(),
    ensures
        r == leading_space(b@.subrange(at as int, to as int)),
{
    let ghost w = b@.subrange(at as int, to as int);
    let n = to - at;
    if n >= 1 && (b[at] == 0x20 || (0x09 <= b[at] && b[at] <= 0x0D)) {
        1
    } else if n >= 2 && b[at] == 0xC2 && (b[at + 1] == 0x85 || b[at + 1] == 0xA0) {
        2
    } else if n >= 3 && (b[at] == 0xE1 && b[at + 1] == 0x9A && b[at + 2] == 0x80 || b[at] == 0xE2
        && b[at + 1] == 0x80 && (0x80 <= b[at + 2] && b[at + 2] <= 0x8A || b[at + 2] == 0xA8
        || b[at + 2] == 0xA9 || b[at + 2] == 0xAF) || b[at] == 0xE2 && b[at + 1] == 0x81 && b[at
        + 2] == 0x9F || b[at] == 0xE3 && b[at + 1] == 0x80 && b[at + 2] == 0x80) {
        3
    } else {
        0
    }
}

/// `str::trim` on UTF-8 bytes: drops Unicode whitespace at both ends.
fn trim_bytes(b: &[u8]) -> (r: Vec<u8>)
    ensures
        r@ == trim(b@),
{
    let mut start: usize = 0;
    assert(b@.subrange(0, b@.len() as int) =~= b@);
    loop
        invariant
            start <= b@.len(),
            trim_start(b@) == trim_start(b@.subrange(start as int, b@.len() as int)),
        ensures
            start <= b@.len(),
            trim_start(b@) == b@.subrange(start as int, b@.len() as int),
        decreases b@.len() - start,
    {
        let n = space_at(b, start, b.len());
        if n == 0 {
            break;
        }
        assert(b@.subrange(start as int, b@.len() as int).subrange(n as int, b@.len() - start)
            =~= b@.subrange(start + n, b@.len() as int));
        start = start + n;
    }
    let mut stop = b.len();
    assert(b@.subrange(start as int, b@.len() as int).subrange(0, b@.len() - start) =~= b@.subrange(
        start as int,
        b@.len() as int,
    ));
    loop
        invariant
            start <= stop <= b@.len(),
            trim(b@) == trim_end(b@.subrange(start as int, stop as int)),
        ensures
            start <= stop <= b@.len(),
            trim(b@) == b@.subrange(start as int, stop as int),
        decreases stop - start,
    {
        let ghost w = b@.subrange(start as int, stop as int);
        let n = if stop - start >= 1 && (b[stop - 1] == 0x20 || (0x09 <= b[stop - 1] && b[stop - 1]
            <= 0x0D)) {
            1
        } else if stop - start >= 2 && space_at(b, stop - 2, stop) == 2 {
            proof {
                assert(w.subrange(w.len() - 2, w.len() as int) =~= b@.subrange(stop - 2, stop as int));
            }
            2
        } else if stop - start >= 3 && space_at(b, stop - 3, stop) == 3 {
            proof {
                assert(w.subrange(w.len() - 3, w.len() as int) =~= b@.subrange(stop - 3, stop as int));
            }
            3
        } else {
            proof {
                if w.len() >= 2 {
                    assert(w.subrange(w.len() - 2, w.len() as int) =~= b@.subrange(stop - 2, stop as int));
                }
                if w.len() >= 3 {
                    assert(w.subrange(w.len() - 3, w.len() as int) =~= b@.subrange(stop - 3, stop as int));
                }
            }
            0
        };
        assert(n == trailing_space(w));
        if n == 0 {
            break;
        }
        assert(w.subrange(0, w.len() - n) =~= b@.subrange(start as int, stop - n));
        stop = stop - n;
    }
    slice_bytes(b, start, stop)
}

/// Splits a CMap section into hex strings and array brackets.
///
/// The brackets matter: a `bfrange` destination may be either a single value or
/// a bracketed list of them, and a parser that flattens the list loses track of
/// where one entry ends and the next begins — which silently corrupts every
/// mapping after the first list.
pub fn cmap_tokens(section: &[u8]) -> (r: Vec<CMapToken>)
    ensures
        r@.map_values(|t: CMapToken| token_view(t)) == tokens(section@),
{
    let mut out: Vec<CMapToken> = Vec::new();
    let mut rest = tail(section, 0);
    assert(rest@ =~= section@);
    loop
        invariant
            tokens(section@) == out@.map_values(|t: CMapToken| token_view(t)) + tokens(rest@),
        decreases rest@.len(),
    {
        let ghost done = out@.map_values(|t: CMapToken| token_view(t));
        let mut at: usize = 0;
        while at < rest.len() && !(rest[at] == 0x3C || rest[at] == 0x5B || rest[at] == 0x5D)
            invariant
                0 <= at <= rest@.len(),
                first_delimiter(rest@, 0) == first_delimiter(rest@, at as int),
            decreases rest@.len() - at,
        {
            at = at + 1;
        }
        if at >= rest.len() {
            assert(done + Seq::<SpecToken>::empty() =~= done);
            return out;
        }
        let next;
        if rest[at] == 0x5B {
            out.push(CMapToken::ArrayStart);
            next = tail(rest.as_slice(), at + 1);
            assert(out@.map_values(|t: CMapToken| token_view(t)) =~= done.push(SpecToken::ArrayStart));
            assert(done + (seq![SpecToken::ArrayStart] + tokens(next@)) =~= done.push(
                SpecToken::ArrayStart,
            ) + tokens(next@));
        } else if rest[at] == 0x5D {
            out.push(CMapToken::ArrayEnd);
            next = tail(rest.as_slice(), at + 1);
            assert(out@.map_values(|t: CMapToken| token_view(t)) =~= done.push(SpecToken::ArrayEnd));
            assert(done + (seq![SpecToken::ArrayEnd] + tokens(next@)) =~= done.push(
                SpecToken::ArrayEnd,
            ) + tokens(next@));
        } else {
            let after = tail(rest.as_slice(), at + 1);
            let close_mark: [u8; 1] = [0x3E];
            assert(close_mark@ =~= seq![0x3Eu8]);
            let close = match find_bytes(after.as_slice(), close_mark.as_slice(), 0) {
                Some(close) => close,
                None => {
                    assert(done + Seq::<SpecToken>::empty() =~= done);
                    return out;
                },
            };
            proof {
                lemma_find_from_bounds(after@, seq![0x3Eu8], 0);
            }
            let raw = slice_bytes(after.as_slice(), 0, close);
            let hex = trim_bytes(raw.as_slice());
            let ghost token = SpecToken::Hex(hex@);
            out.push(CMapToken::Hex(hex));
            next = tail(after.as_slice(), close + 1);
            assert(out@.map_values(|t: CMapToken| token_view(t)) =~= done.push(token));
            assert(done + (seq![token] + tokens(next@)) =~= done.push(token) + tokens(next@));
        }
        rest = next;
    }
}

/// `u32::from_str_radix(text, 16).ok()`.
pub fn hex_to_code(text: &[u8]) -> (r: Option<u32>)
    ensures
        r == hex_code(text@),
{
    let digits = if text.len() > 0 && text[0] == 0x2B {
        tail(text, 1)
    } else {
        tail(text, 0)
    };
    assert(text@.subrange(0, text@.len() as int) =~= text@);
    if digits.len() > 0 && all_hex_digits(digits.as_slice()) {
        hex_u32(digits.as_slice())
    } else {
        None
    }
}

/// The UTF-16 units a CMap destination spells, four bytes per unit.
fn hex_to_units(text: &[u8]) -> (r: Vec<u16>)
    ensures
        r@ == hex_units(text@),
{
    let mut out: Vec<u16> = Vec::new();
    let mut at: usize = 0;
    assert(text@.subrange(0, text@.len() as int) =~= text@);
    while text.len() - at >= 4
        invariant
            at <= text@.len(),
            hex_units(text@) == out@ + hex_units(text@.subrange(at as int, text@.len() as int)),
        decreases text@.len() - at,
    {
        let ghost rest = text@.subrange(at as int, text@.len() as int);
        let group = slice_bytes(text, at, at + 4);
        assert(group@ =~= rest.subrange(0, 4));
        assert(rest.subrange(4, rest.len() as int) =~= text@.subrange(at + 4, text@.len() as int));
        let digits = if group[0] == 0x2B {
            tail(group.as_slice(), 1)
        } else {
            tail(group.as_slice(), 0)
        };
        assert(group@.subrange(0, group@.len() as int) =~= group@);
        if digits.len() > 0 && all_hex_digits(digits.as_slice()) {
            proof {
                assert(hex_number(digits@) < 0x10000) by {
                    lemma_hex_number_bound(digits@);
                    lemma_pow16_small(digits@.len());
                }
            }
            let value = match hex_u32(digits.as_slice()) {
                Some(v) => v,
                None => {
                    assert(false);
                    0
                },
            };
            let ghost before = out@;
            out.push(value as u16);
            assert(before + (seq![value as u16] + hex_units(text@.subrange(at + 4, text@.len() as int)))
                =~= out@ + hex_units(text@.subrange(at + 4, text@.len() as int)));
        }
        at = at + 4;
    }
    assert(hex_units(text@.subrange(at as int, text@.len() as int)) =~= Seq::<u16>::empty());
    assert(out@ + Seq::<u16>::empty() =~= out@);
    out
}

proof fn lemma_hex_number_bound(digits: Seq<u8>)
    requires
        all_hex(digits),
    ensures
        hex_number(digits) < pow16(digits.len()),
    decreases digits.len(),
{
    if digits.len() > 0 {
        let front = digits.drop_last();
        assert(all_hex(front)) by {
            assert forall|i: int| 0 <= i < front.len() implies is_hex_digit(#[trigger] front[i]) by {
                assert(front[i] == digits[i]);
            }
        }
        lemma_hex_number_bound(front);
        assert(is_hex_digit(digits[digits.len() - 1]));
        let a = hex_number(front);
        let p = pow16(front.len());
        assert(a * 16 + 15 < p * 16) by (nonlinear_arith)
            requires
                a < p,
        ;
    }
}

proof fn lemma_pow16_small(n: nat)
    requires
        n <= 4,
    ensures
        pow16(n) <= 0x10000,
{
    reveal_with_fuel(pow16, 5);
    if n == 0 {
    } else if n == 1 {
    } else if n == 2 {
    } else if n == 3 {
    } else {
        assert(pow16(4) == 0x10000);
    }
}

/// 16 to the power `n`.
pub open spec fn pow16(n: nat) -> nat
    decreases n,
{
    if n == 0 {
        1
    } else {
        16 * pow16((n - 1) as nat)
    }
}

/// Decodes a CMap destination: a hex string of UTF-16BE code units.
pub fn utf16_hex_to_text(text: &[u8]) -> (r: Option<String>)
    ensures
        match r {
            Some(s) => hex_text(text@) == Some(s@),
            None => hex_text(text@) is None,
        },
{
    let units = hex_to_units(text);
    if units.len() == 0 {
        return None;
    }
    from_utf16_strict(&units)
}

/// Decodes a CMap destination and advances its last code unit by `offset`,
/// which is how a `bfrange` spells consecutive destinations.
pub fn utf16_hex_offset(text: &[u8], offset: u32) -> (r: Option<String>)
    ensures
        match r {
            Some(s) => hex_text_offset(text@, offset) == Some(s@),
            None => hex_text_offset(text@, offset) is None,
        },
{
    let decoded = match utf16_hex_to_text(text) {
        Some(decoded) => decoded,
        None => return None,
    };
    if offset == 0 {
        return Some(decoded);
    }
    let chars = chars_of(decoded.as_str());
    let mut units = encode_utf16_units(&chars);
    if units.len() == 0 || offset > 0xFFFF {
        return None;
    }
    let last_index = units.len() - 1;
    let last = units[last_index];
    if last as u32 + offset > 0xFFFF {
        return None;
    }
    units.set(last_index, (last as u32 + offset) as u16);
    from_utf16_strict(&units)
}

/// The contents of the hex tokens, in order.
fn hex_strings(tokens: &Vec<CMapToken>) -> (r: Vec<Vec<u8>>)
    ensures
        r@.map_values(|v: Vec<u8>| v@) == hex_tokens(tokens@.map_values(|t: CMapToken| token_view(t))),
{
    let ghost all = tokens@.map_values(|t: CMapToken| token_view(t));
    let mut out: Vec<Vec<u8>> = Vec::new();
    let mut index: usize = 0;
    assert(all.subrange(0, all.len() as int) =~= all);
    while index < tokens.len()
        invariant
            index <= tokens@.len(),
            all == tokens@.map_values(|t: CMapToken| token_view(t)),
            hex_tokens(all) == out@.map_values(|v: Vec<u8>| v@) + hex_tokens(
                all.subrange(index as int, all.len() as int),
            ),
        decreases tokens@.len() - index,
    {
        let ghost rest = all.subrange(index as int, all.len() as int);
        assert(rest.subrange(1, rest.len() as int) =~= all.subrange(index + 1, all.len() as int));
        let ghost before = out@.map_values(|v: Vec<u8>| v@);
        match &tokens[index] {
            CMapToken::Hex(text) => {
                let copy = tail(text.as_slice(), 0);
                assert(text@.subrange(0, text@.len() as int) =~= text@);
                out.push(copy);
                assert(out@.map_values(|v: Vec<u8>| v@) =~= before.push(text@));
                assert(before + (seq![text@] + hex_tokens(all.subrange(index + 1, all.len() as int)))
                    =~= before.push(text@) + hex_tokens(all.subrange(index + 1, all.len() as int)));
            },
            _ => {},
        }
        index = index + 1;
    }
    assert(hex_tokens(all.subrange(index as int, all.len() as int)) =~= Seq::<Seq<u8>>::empty());
    assert(out@.map_values(|v: Vec<u8>| v@) + Seq::<Seq<u8>>::empty() =~= out@.map_values(
        |v: Vec<u8>| v@,
    ));
    out
}

/// Applies the pairs of one `bfchar` section.
fn apply_bfchar(map: &mut HashMap<u32, String>, section: &[u8])
    ensures
        text_map(final(map)@) == apply_entries(
            text_map(old(map)@),
            bfchar_entries(hex_tokens(tokens(section@))),
        ),
{
    broadcast use vstd::std_specs::hash::group_hash_axioms;

    let toks = cmap_tokens(section);
    let hex = hex_strings(&toks);
    let ghost all = hex@.map_values(|v: Vec<u8>| v@);
    let ghost start = text_map(map@);
    assert(all.subrange(0, all.len() as int) =~= all);
    let mut k: usize = 0;
    while k < hex.len() && hex.len() - k >= 2
        invariant
            k <= hex@.len(),
            all == hex@.map_values(|v: Vec<u8>| v@),
            all == hex_tokens(tokens(section@)),
            apply_entries(text_map(map@), bfchar_entries(all.subrange(k as int, all.len() as int)))
                == apply_entries(start, bfchar_entries(all)),
        decreases hex@.len() - k,
    {
        let ghost rest = all.subrange(k as int, all.len() as int);
        assert(rest.subrange(2, rest.len() as int) =~= all.subrange(k + 2, all.len() as int));
        assert(rest[0] == hex@[k as int]@);
        assert(rest[1] == hex@[k + 1]@);
        let code = hex_to_code(hex[k].as_slice());
        let text = utf16_hex_to_text(hex[k + 1].as_slice());
        match (code, text) {
            (Some(code), Some(text)) => {
                proof {
                    lemma_text_map_insert(map@, code, text);
                    lemma_apply_entries_cons(
                        text_map(map@),
                        (code, text@),
                        bfchar_entries(all.subrange(k + 2, all.len() as int)),
                    );
                }
                map.insert(code, text);
            },
            _ => {},
        }
        k = k + 2;
    }
    assert(bfchar_entries(all.subrange(k as int, all.len() as int)) =~= Seq::<
        (u32, Seq<char>),
    >::empty());
}

/// Applies a `bfrange` entry with one destination: each code from `first` to
/// `first + span` maps to the destination advanced by its offset.
fn apply_range(map: &mut HashMap<u32, String>, first: u32, destination: &[u8], span: u32)
    requires
        first + span <= u32::MAX,
    ensures
        text_map(final(map)@) == apply_entries(
            text_map(old(map)@),
            range_entries(first, destination@, 0, span),
        ),
{
    broadcast use vstd::std_specs::hash::group_hash_axioms;

    let ghost start = text_map(map@);
    let mut offset: u32 = 0;
    loop
        invariant
            offset <= span,
            first + span <= u32::MAX,
            start == text_map(old(map)@),
            apply_entries(text_map(map@), range_entries(first, destination@, offset, span))
                == apply_entries(start, range_entries(first, destination@, 0, span)),
        decreases span - offset,
    {
        let ghost rest = if offset == span {
            Seq::<(u32, Seq<char>)>::empty()
        } else {
            range_entries(first, destination@, (offset + 1) as u32, span)
        };
        match utf16_hex_offset(destination, offset) {
            Some(text) => {
                proof {
                    lemma_text_map_insert(map@, (first + offset) as u32, text);
                    assert(wrap32(first + offset) == first + offset);
                    lemma_apply_entries_cons(
                        text_map(map@),
                        ((first + offset) as u32, text@),
                        rest,
                    );
                }
                map.insert(first + offset, text);
            },
            None => {},
        }
        if offset == span {
            assert(apply_entries(text_map(map@), rest) == text_map(map@));
            return;
        }
        offset = offset + 1;
    }
}

/// Applies a `bfrange` entry with a bracketed list of destinations starting
/// at token `cursor`, and returns the position after the list's last entry.
fn apply_list(map: &mut HashMap<u32, String>, tokens: &Vec<CMapToken>, first: u32, cursor: usize) -> (r:
    usize)
    ensures
        r == cursor + hex_run(tokens@.map_values(|t: CMapToken| token_view(t)), cursor as int),
        text_map(final(map)@) == apply_entries(
            text_map(old(map)@),
            list_entries(tokens@.map_values(|t: CMapToken| token_view(t)), first, cursor as int, 0),
        ),
{
    broadcast use vstd::std_specs::hash::group_hash_axioms;

    let ghost all = tokens@.map_values(|t: CMapToken| token_view(t));
    let ghost start = text_map(map@);
    let mut at = cursor;
    let mut offset: u32 = 0;
    loop
        invariant
            cursor <= at,
            start == text_map(old(map)@),
            all == tokens@.map_values(|t: CMapToken| token_view(t)),
            hex_run(all, cursor as int) == (at - cursor) + hex_run(all, at as int),
            apply_entries(text_map(map@), list_entries(all, first, at as int, offset))
                == apply_entries(start, list_entries(all, first, cursor as int, 0)),
        decreases tokens@.len() - at,
    {
        if at >= tokens.len() {
            assert(apply_entries(text_map(map@), list_entries(all, first, at as int, offset))
                == text_map(map@));
            return at;
        }
        let ghost rest = list_entries(all, first, at + 1, wrap32(offset + 1));
        match &tokens[at] {
            CMapToken::Hex(destination) => {
                assert(all[at as int] == SpecToken::Hex(destination@));
                match utf16_hex_to_text(destination.as_slice()) {
                    Some(text) => {
                        proof {
                            lemma_text_map_insert(map@, first.wrapping_add(offset), text);
                            lemma_apply_entries_cons(
                                text_map(map@),
                                (wrap32(first + offset), text@),
                                rest,
                            );
                        }
                        map.insert(first.wrapping_add(offset), text);
                    },
                    None => {},
                }
                at = at + 1;
                offset = offset.wrapping_add(1);
            },
            _ => {
                assert(!(all[at as int] is Hex));
                assert(apply_entries(text_map(map@), list_entries(all, first, at as int, offset))
                    == text_map(map@));
                return at;
            },
        }
    }
}

/// Applies the entries of one `bfrange` section.
fn apply_bfrange(map: &mut HashMap<u32, String>, section: &[u8])
    ensures
        text_map(final(map)@) == apply_entries(text_map(old(map)@), bfrange_entries(tokens(section@), 0)),
{
    let toks = cmap_tokens(section);
    let ghost all = toks@.map_values(|t: CMapToken| token_view(t));
    let ghost start = text_map(map@);
    let mut index: usize = 0;
    while index < toks.len()
        invariant
            all == toks@.map_values(|t: CMapToken| token_view(t)),
            all == tokens(section@),
            apply_entries(text_map(map@), bfrange_entries(all, index as int)) == apply_entries(
                start,
                bfrange_entries(all, 0),
            ),
        decreases toks@.len() - index,
    {
        if index + 1 >= toks.len() {
            index = index + 1;
            continue;
        }
        let (low, high) = match (&toks[index], &toks[index + 1]) {
            (CMapToken::Hex(low), CMapToken::Hex(high)) => (low, high),
            _ => {
                index = index + 1;
                continue;
            },
        };
        let (first, last) = match (hex_to_code(low.as_slice()), hex_to_code(high.as_slice())) {
            (Some(first), Some(last)) => (first, last),
            _ => {
                index = index + 2;
                continue;
            },
        };
        let mut span: u32 = if last >= first {
            last - first
        } else {
            0
        };
        if span > 65535 {
            span = 65535;
        }
        assert(span == range_span(first, last));
        if index + 2 >= toks.len() {
            index = index + 2;
            continue;
        }
        match &toks[index + 2] {
            CMapToken::Hex(destination) => {
                let ghost before = text_map(map@);
                apply_range(map, first, destination.as_slice(), span);
                proof {
                    lemma_apply_entries_append(
                        before,
                        range_entries(first, destination@, 0, span),
                        bfrange_entries(all, index + 3),
                    );
                }
                index = index + 3;
            },
            CMapToken::ArrayStart => {
                let ghost before = text_map(map@);
                proof {
                    lemma_hex_run_bounds(all, index + 3);
                }
                let cursor = apply_list(map, &toks, first, index + 3);
                let next = if cursor < toks.len() {
                    match &toks[cursor] {
                        CMapToken::ArrayEnd => cursor + 1,
                        _ => cursor,
                    }
                } else {
                    cursor
                };
                proof {
                    lemma_apply_entries_append(
                        before,
                        list_entries(all, first, index + 3, 0),
                        bfrange_entries(all, next as int),
                    );
                }
                index = next;
            },
            CMapToken::ArrayEnd => {
                index = index + 2;
            },
        }
    }
}

/// Extracts the `bfchar` and `bfrange` mappings from a CMap.
///
/// This reads only what a `/ToUnicode` map needs rather than implementing
/// PostScript, but it does respect both `bfrange` destination forms. Every
/// `bfchar` section is read before any `bfrange` section, and a later mapping
/// for a code replaces an earlier one.
pub fn parse_cmap(text: &str) -> (r: HashMap<u32, String>)
    ensures
        text_map(r@) == apply_entries(Map::empty(), cmap_entries(text.spec_bytes())),
{
    broadcast use vstd::std_specs::hash::group_hash_axioms;

    let bytes = text.as_bytes();
    let mut map: HashMap<u32, String> = HashMap::new();
    let char_sections = cmap_sections(bytes, "beginbfchar".as_bytes(), "endbfchar".as_bytes());
    let range_sections = cmap_sections(bytes, "beginbfrange".as_bytes(), "endbfrange".as_bytes());
    let ghost chars = char_sections@.map_values(|v: Vec<u8>| v@);
    let ghost ranges = range_sections@.map_values(|v: Vec<u8>| v@);
    let ghost target = apply_entries(Map::empty(), cmap_entries(bytes@));
    assert(text_map(map@) =~= Map::empty());
    assert(chars.subrange(0, chars.len() as int) =~= chars);
    assert(ranges.subrange(0, ranges.len() as int) =~= ranges);
    let mut i: usize = 0;
    while i < char_sections.len()
        invariant
            i <= char_sections@.len(),
            chars == char_sections@.map_values(|v: Vec<u8>| v@),
            apply_entries(
                text_map(map@),
                bfchar_section_entries(chars.subrange(i as int, chars.len() as int))
                    + bfrange_section_entries(ranges),
            ) == target,
        decreases char_sections@.len() - i,
    {
        let ghost rest = chars.subrange(i as int, chars.len() as int);
        let ghost later = bfchar_section_entries(chars.subrange(i + 1, chars.len() as int))
            + bfrange_section_entries(ranges);
        assert(rest.subrange(1, rest.len() as int) =~= chars.subrange(i + 1, chars.len() as int));
        let ghost here = bfchar_entries(hex_tokens(tokens(rest[0])));
        assert(here + bfchar_section_entries(chars.subrange(i + 1, chars.len() as int))
            + bfrange_section_entries(ranges) =~= here + later);
        let ghost before = text_map(map@);
        apply_bfchar(&mut map, char_sections[i].as_slice());
        proof {
            lemma_apply_entries_append(before, here, later);
        }
        i = i + 1;
    }
    assert(bfchar_section_entries(chars.subrange(i as int, chars.len() as int))
        + bfrange_section_entries(ranges) =~= bfrange_section_entries(ranges));
    let mut j: usize = 0;
    while j < range_sections.len()
        invariant
            j <= range_sections@.len(),
            ranges == range_sections@.map_values(|v: Vec<u8>| v@),
            apply_entries(
                text_map(map@),
                bfrange_section_entries(ranges.subrange(j as int, ranges.len() as int)),
            ) == target,
        decreases range_sections@.len() - j,
    {
        let ghost rest = ranges.subrange(j as int, ranges.len() as int);
        let ghost later = bfrange_section_entries(ranges.subrange(j + 1, ranges.len() as int));
        assert(rest.subrange(1, rest.len() as int) =~= ranges.subrange(j + 1, ranges.len() as int));
        let ghost here = bfrange_entries(tokens(rest[0]), 0);
        let ghost before = text_map(map@);
        apply_bfrange(&mut map, range_sections[j].as_slice());
        proof {
            lemma_apply_entries_append(before, here, later);
        }
        j = j + 1;
    }
    map
}

/// Re-encodes replacement text for the substituted Helvetica, which uses
/// WinAnsi: Latin-1 characters pass through as single bytes, anything else
/// becomes `?`.
pub fn encode_win_ansi(text: &str) -> (r: Vec<u8>)
    ensures
        r@ == text@.map_values(|c: char| win_ansi_byte(c)),
{
    let chars = chars_of(text);
    let mut out: Vec<u8> = Vec::new();
    let mut index: usize = 0;
    while index < chars.len()
        invariant
            index <= chars@.len(),
            chars@ == text@,
            out@ == text@.subrange(0, index as int).map_values(|c: char| win_ansi_byte(c)),
        decreases chars@.len() - index,
    {
        let c = chars[index];
        let code = c as u32;
        let byte: u8 = if code < 256 {
            code as u8
        } else {
            0x3F
        };
        out.push(byte);
        index = index + 1;
        assert(out@ =~= text@.subrange(0, index as int).map_values(|c: char| win_ansi_byte(c)));
    }
    assert(text@.subrange(0, text@.len() as int) =~= text@);
    out
}

/// The WinAnsi byte written for `c`.
pub open spec fn win_ansi_byte(c: char) -> u8 {
    if (c as u32) < 256 {
        (c as u32) as u8
    } else {
        0x3F
    }
}

} // verus!
