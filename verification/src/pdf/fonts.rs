//! What a font's character codes stand for: reading the strings a page draws
//! as text, and writing replacement text back in the same font. How wide the
//! glyphs are is fractional, and measured by the caller.

use vstd::prelude::*;

use std::collections::HashMap;

use vstd::string::StringSliceAdditionalSpecFns;

use crate::pdf::document::{document_objects, key, resolve, resolved};
use crate::pdf::forms::{text_from_utf8_lossy, utf8_lossy};
use crate::pdf::object::{stream_to_lopdf, PdfDict, PdfObject, PdfStream};
use crate::pdf::text::{apply_entries, cmap_entries, glyph_char, glyph_name_to_char, parse_cmap, text_map};
use crate::pdf::unicode::{char_from_u32, chars_of, push_char};
use crate::request::{all_digits, digit_value};

verus! {

broadcast use crate::pdf::object::group_deep;

/// How a font's character codes read as text and are written back.
pub struct FontCoding {
    /// True for Type0 fonts, whose codes are two bytes rather than one.
    pub two_byte: bool,
    /// Character code to the text it represents.
    pub to_unicode: HashMap<u32, String>,
    /// The reverse, for writing text back: a character (by its scalar value)
    /// to the byte that draws it. Empty when the font cannot be written to
    /// directly.
    pub from_unicode: HashMap<u32, u8>,
    /// True when the font program travels inside the PDF.
    ///
    /// Embedded fonts are almost always subsets holding only the glyphs the
    /// document already uses, so a character that has an encoding may still
    /// have no outline to draw.
    pub embedded: bool,
}

/// The character codes a string's bytes spell: one per byte, or for a
/// two-byte font one per pair, big-endian, with a lone last byte as a code of
/// its own.
pub open spec fn font_codes(two_byte: bool, bytes: Seq<u8>) -> Seq<u32> {
    if two_byte {
        Seq::new(
            ((bytes.len() + 1) / 2) as nat,
            |i: int|
                if 2 * i + 1 < bytes.len() {
                    (bytes[2 * i] * 256 + bytes[2 * i + 1]) as u32
                } else {
                    bytes[2 * i] as u32
                },
        )
    } else {
        bytes.map_values(|b: u8| b as u32)
    }
}

/// The text the codes stand for: each code's text in turn, and U+FFFD for a
/// code the font does not map, so the text keeps the length of what is drawn.
pub open spec fn decoded(map: Map<u32, Seq<char>>, codes: Seq<u32>) -> Seq<char>
    decreases codes.len(),
{
    if codes.len() == 0 {
        Seq::empty()
    } else {
        decoded(map, codes.drop_last()) + if map.contains_key(codes.last()) {
            map[codes.last()]
        } else {
            seq!['\u{FFFD}']
        }
    }
}

/// Every character of `text` has a byte in `map`.
pub open spec fn spellable(map: Map<u32, u8>, text: Seq<char>) -> bool {
    forall|i: int| 0 <= i < text.len() ==> map.contains_key(#[trigger] text[i] as u32)
}

/// `text` in the font's own bytes: `None` when the font cannot be written to
/// at all, or when some character has no byte.
pub open spec fn encoded(map: Map<u32, u8>, text: Seq<char>) -> Option<Seq<u8>> {
    if map.len() == 0 || !spellable(map, text) {
        None
    } else {
        Some(text.map_values(|c: char| map[c as u32]))
    }
}

/// The printable ASCII codes, 32 to 126.
pub open spec fn printable(code: u32) -> bool {
    32 <= code <= 126
}

impl FontCoding {
    /// Splits raw string bytes into character codes.
    pub fn codes(&self, bytes: &[u8]) -> (r: Vec<u32>)
        ensures
            r@ == font_codes(self.two_byte, bytes@),
    {
        let mut out: Vec<u32> = Vec::new();
        let mut at: usize = 0;
        if self.two_byte {
            let count = bytes.len() / 2 + bytes.len() % 2;
            let mut i: usize = 0;
            while i < count
                invariant
                    count == (bytes@.len() + 1) / 2,
                    bytes@.len() <= usize::MAX,
                    i <= count,
                    out@ =~= font_codes(true, bytes@).subrange(0, i as int),
                decreases count - i,
            {
                assert(2 * i < bytes@.len());
                let at = 2 * i;
                let code: u32 = if at + 1 < bytes.len() {
                    (bytes[at] as u32) * 256 + bytes[at + 1] as u32
                } else {
                    bytes[at] as u32
                };
                out.push(code);
                i = i + 1;
            }
        } else {
            while at < bytes.len()
                invariant
                    at <= bytes@.len(),
                    out@ =~= bytes@.subrange(0, at as int).map_values(|b: u8| b as u32),
                decreases bytes@.len() - at,
            {
                out.push(bytes[at] as u32);
                at = at + 1;
            }
            assert(bytes@.subrange(0, bytes@.len() as int) =~= bytes@);
        }
        out
    }

    /// The text a string's bytes stand for in this font.
    pub fn decode(&self, bytes: &[u8]) -> (r: String)
        ensures
            r@ == decoded(text_map(self.to_unicode@), font_codes(self.two_byte, bytes@)),
    {
        broadcast use vstd::std_specs::hash::group_hash_axioms;

        let codes = self.codes(bytes);
        let ghost map = text_map(self.to_unicode@);
        let mut out = String::new();
        let mut k: usize = 0;
        while k < codes.len()
            invariant
                k <= codes@.len(),
                map == text_map(self.to_unicode@),
                out@ == decoded(map, codes@.subrange(0, k as int)),
            decreases codes@.len() - k,
        {
            assert(codes@.subrange(0, k + 1).drop_last() =~= codes@.subrange(0, k as int));
            match self.to_unicode.get(&codes[k]) {
                Some(text) => {
                    out.append(text.as_str());
                },
                // An unmapped code still occupies space; a placeholder keeps
                // the text the same length as what is drawn.
                None => {
                    push_char(&mut out, '\u{FFFD}');
                    assert(seq!['\u{FFFD}'] =~= Seq::<char>::empty().push('\u{FFFD}'));
                },
            }
            k = k + 1;
        }
        assert(codes@.subrange(0, codes@.len() as int) =~= codes@);
        out
    }

    /// This font's bytes for `text`, or `None` if any character has no code.
    pub fn encode(&self, text: &str) -> (r: Option<Vec<u8>>)
        ensures
            match r {
                Some(bytes) => encoded(self.from_unicode@, text@) == Some(bytes@),
                None => encoded(self.from_unicode@, text@) is None,
            },
    {
        broadcast use vstd::std_specs::hash::group_hash_axioms;

        if self.from_unicode.len() == 0 {
            return None;
        }
        let chars = crate::pdf::unicode::chars_of(text);
        let mut out: Vec<u8> = Vec::new();
        let mut k: usize = 0;
        while k < chars.len()
            invariant
                k <= chars@.len(),
                chars@ == text@,
                spellable(self.from_unicode@, text@.subrange(0, k as int)),
                out@ =~= text@.subrange(0, k as int).map_values(|c: char| self.from_unicode@[c as u32]),
            decreases chars@.len() - k,
        {
            match self.from_unicode.get(&(chars[k] as u32)) {
                Some(byte) => {
                    out.push(*byte);
                },
                None => {
                    assert(!spellable(self.from_unicode@, text@));
                    return None;
                },
            }
            k = k + 1;
            assert(spellable(self.from_unicode@, text@.subrange(0, k as int))) by {
                assert forall|i: int| 0 <= i < k implies self.from_unicode@.contains_key(
                    #[trigger] text@.subrange(0, k as int)[i] as u32,
                ) by {
                    if i < k - 1 {
                        assert(text@.subrange(0, k as int)[i] == text@.subrange(0, k - 1)[i]);
                    }
                }
            }
        }
        assert(text@.subrange(0, text@.len() as int) =~= text@);
        Some(out)
    }

    /// A stand-in for a font that could not be read: printable ASCII, each
    /// code its own character, both ways, so a malformed resource costs
    /// accuracy rather than losing the whole page.
    pub fn fallback() -> (r: FontCoding)
        ensures
            !r.two_byte,
            !r.embedded,
            text_map(r.to_unicode@) == Map::new(|code: u32| printable(code), |code: u32| seq![code as char]),
            r.from_unicode@ == Map::new(|code: u32| printable(code), |code: u32| code as u8),
    {
        broadcast use vstd::std_specs::hash::group_hash_axioms;

        let mut to_unicode: HashMap<u32, String> = HashMap::new();
        let mut from_unicode: HashMap<u32, u8> = HashMap::new();
        let mut code: u32 = 32;
        while code <= 126
            invariant
                32 <= code <= 127,
                text_map(to_unicode@) == Map::new(|c: u32| 32 <= c < code, |c: u32| seq![c as char]),
                from_unicode@ == Map::new(|c: u32| 32 <= c < code, |c: u32| c as u8),
            decreases 127 - code,
        {
            let c = match char_from_u32(code) {
                Some(c) => c,
                None => ' ',
            };
            let mut text = String::new();
            push_char(&mut text, c);
            assert(text@ =~= seq![code as char]);
            proof {
                crate::pdf::text::lemma_text_map_insert(to_unicode@, code, text);
            }
            to_unicode.insert(code, text);
            from_unicode.insert(code, code as u8);
            code = code + 1;
            assert(text_map(to_unicode@) =~= Map::new(|c: u32| 32 <= c < code, |c: u32| seq![c as char]));
            assert(from_unicode@ =~= Map::new(|c: u32| 32 <= c < code, |c: u32| c as u8));
        }
        assert(text_map(to_unicode@) =~= Map::new(|c: u32| printable(c), |c: u32| seq![c as char]));
        assert(from_unicode@ =~= Map::new(|c: u32| printable(c), |c: u32| c as u8));
        FontCoding { two_byte: false, to_unicode, from_unicode, embedded: false }
    }
}


/// What `Stream::decompressed_content` gives for a stream with this
/// dictionary and these stored bytes: the bytes with the stream's filters
/// undone, or `None` where decoding fails.
pub uninterp spec fn stream_decoded(dict: Seq<(Seq<u8>, PdfObject)>, content: Seq<u8>) -> Option<Seq<u8>>;

/// The bytes a stream's content reads as: decoded, or as stored where
/// decoding fails.
pub open spec fn stream_bytes(stream: PdfStream) -> Seq<u8> {
    match stream_decoded(stream.dict@, stream.content@) {
        Some(bytes) => bytes,
        None => stream.content@,
    }
}

/// `Stream::decompressed_content`, falling back to the stored bytes where
/// decoding fails.
#[verifier::external_body]
pub(crate) fn content_bytes(stream: PdfStream) -> (r: Vec<u8>)
    ensures
        r@ == match stream_decoded(stream.dict@, stream.content@) {
            Some(bytes) => bytes,
            None => stream.content@,
        },
{
    let stream = stream_to_lopdf(stream);
    match stream.decompressed_content() {
        Ok(bytes) => bytes,
        Err(_) => stream.content,
    }
}

/// A `/ToUnicode` entry, read: the stream it names (references followed),
/// its bytes as text (lossy UTF-8), parsed as a CMap.
pub open spec fn to_unicode_map(objects: Map<(u32, u16), PdfObject>, entry: Option<PdfObject>) -> Option<
    Map<u32, Seq<char>>,
> {
    match entry {
        Some(value) => match resolved(objects, value) {
            PdfObject::Stream(stream) => Some(
                apply_entries(Map::empty(), cmap_entries(vstd::utf8::encode_utf8(utf8_lossy(stream_bytes(stream))))),
            ),
            _ => None,
        },
        None => None,
    }
}

/// Reads a font's `/ToUnicode` entry into a code-to-text map.
pub fn read_to_unicode(doc: &lopdf::Document, entry: Option<PdfObject>) -> (r: Option<HashMap<u32, String>>)
    ensures
        match r {
            Some(map) => to_unicode_map(document_objects(*doc), entry) == Some(text_map(map@)),
            None => to_unicode_map(document_objects(*doc), entry) is None,
        },
{
    let value = match entry {
        Some(value) => value,
        None => return None,
    };
    let stream = match resolve(doc, value) {
        PdfObject::Stream(stream) => stream,
        _ => return None,
    };
    let bytes = content_bytes(stream);
    let text = text_from_utf8_lossy(bytes.as_slice());
    Some(parse_cmap(text.as_str()))
}

/// The characters WinAnsiEncoding puts in 0x80–0x9F, where Latin-1 has
/// controls; U+FFFD where it puts none.
pub open spec fn win_ansi_high(i: int) -> char {
    if i == 0 { '\u{20AC}' }
    else if i == 2 { '\u{201A}' }
    else if i == 3 { '\u{0192}' }
    else if i == 4 { '\u{201E}' }
    else if i == 5 { '\u{2026}' }
    else if i == 6 { '\u{2020}' }
    else if i == 7 { '\u{2021}' }
    else if i == 8 { '\u{02C6}' }
    else if i == 9 { '\u{2030}' }
    else if i == 10 { '\u{0160}' }
    else if i == 11 { '\u{2039}' }
    else if i == 12 { '\u{0152}' }
    else if i == 14 { '\u{017D}' }
    else if i == 17 { '\u{2018}' }
    else if i == 18 { '\u{2019}' }
    else if i == 19 { '\u{201C}' }
    else if i == 20 { '\u{201D}' }
    else if i == 21 { '\u{2022}' }
    else if i == 22 { '\u{2013}' }
    else if i == 23 { '\u{2014}' }
    else if i == 24 { '\u{02DC}' }
    else if i == 25 { '\u{2122}' }
    else if i == 26 { '\u{0161}' }
    else if i == 27 { '\u{203A}' }
    else if i == 28 { '\u{0153}' }
    else if i == 30 { '\u{017E}' }
    else if i == 31 { '\u{0178}' }
    else { '\u{FFFD}' }
}

fn win_ansi_high_char(i: u32) -> (r: char)
    ensures
        r == win_ansi_high(i as int),
{
    match i {
        0 => '\u{20AC}',
        2 => '\u{201A}',
        3 => '\u{0192}',
        4 => '\u{201E}',
        5 => '\u{2026}',
        6 => '\u{2020}',
        7 => '\u{2021}',
        8 => '\u{02C6}',
        9 => '\u{2030}',
        10 => '\u{0160}',
        11 => '\u{2039}',
        12 => '\u{0152}',
        14 => '\u{017D}',
        17 => '\u{2018}',
        18 => '\u{2019}',
        19 => '\u{201C}',
        20 => '\u{201D}',
        21 => '\u{2022}',
        22 => '\u{2013}',
        23 => '\u{2014}',
        24 => '\u{02DC}',
        25 => '\u{2122}',
        26 => '\u{0161}',
        27 => '\u{203A}',
        28 => '\u{0153}',
        30 => '\u{017E}',
        31 => '\u{0178}',
        _ => '\u{FFFD}',
    }
}

/// The character each byte of a simple font stands for before any
/// `/Differences`: WinAnsi in 0x80–0x9F, Latin-1 elsewhere.
pub open spec fn base_table() -> Seq<char> {
    Seq::new(256, |code: int| if 0x80 <= code <= 0x9F { win_ansi_high(code - 0x80) } else { code as char })
}

fn base_table_chars() -> (r: Vec<char>)
    ensures
        r@ == base_table(),
{
    let mut table: Vec<char> = Vec::new();
    let mut code: u32 = 0;
    while code < 256
        invariant
            code <= 256,
            table@ =~= base_table().subrange(0, code as int),
        decreases 256 - code,
    {
        let c = if 0x80 <= code && code <= 0x9F {
            win_ansi_high_char(code - 0x80)
        } else {
            match char_from_u32(code) {
                Some(c) => c,
                None => '\u{FFFD}',
            }
        };
        table.push(c);
        code = code + 1;
    }
    table
}

/// The value of a run of decimal digits, saturating at `usize::MAX`.
pub open spec fn saturating_value(digits: Seq<char>) -> nat
    decreases digits.len(),
{
    if digits.len() == 0 {
        0
    } else {
        let v = saturating_value(digits.drop_last()) * 10 + digit_value(digits.last());
        if v > usize::MAX { usize::MAX as nat } else { v as nat }
    }
}

/// Where a decimal text's point is, or its length where it has none, looking
/// from `i` on.
pub open spec fn point_from(text: Seq<char>, i: int) -> int
    decreases text.len() - i,
{
    if i < 0 || i >= text.len() {
        text.len() as int
    } else if text[i] == '.' {
        i
    } else {
        point_from(text, i + 1)
    }
}

/// What `as usize` makes of the real number a decimal text writes (as `f32`'s
/// `Display` writes it): a negative number is 0, `inf` the largest index, and
/// otherwise the whole part, saturating; `NaN` is 0.
pub open spec fn real_index(text: Seq<char>) -> usize {
    let whole = text.subrange(0, point_from(text, 0));
    if text.len() > 0 && text[0] == '-' {
        0
    } else if text == "inf"@ {
        usize::MAX
    } else if whole.len() > 0 && all_digits(whole) {
        saturating_value(whole) as usize
    } else {
        0
    }
}

proof fn lemma_point_from_bounds(text: Seq<char>, i: int)
    requires
        0 <= i <= text.len(),
    ensures
        i <= point_from(text, i) <= text.len(),
    decreases text.len() - i,
{
    if i < text.len() && text[i] != '.' {
        lemma_point_from_bounds(text, i + 1);
    }
}

/// The index a real number stands for where `/Differences` gives one.
fn real_as_index(number: &crate::pdf::object::RealText) -> (r: usize)
    ensures
        r == real_index(number.spec_text()),
{
    let text = number.text();
    let chars = chars_of(text.as_str());
    if chars.len() > 0 && chars[0] == '-' {
        return 0;
    }
    proof {
        reveal_strlit("inf");
    }
    if chars.len() == 3 && chars[0] == 'i' && chars[1] == 'n' && chars[2] == 'f' {
        assert(chars@ =~= "inf"@);
        return usize::MAX;
    }
    assert(text@ != "inf"@);
    let ghost all = chars@;
    let mut value: usize = 0;
    let mut i: usize = 0;
    while i < chars.len() && chars[i] != '.'
        invariant
            i <= all.len(),
            all == chars@,
            all == text@,
            all == number.spec_text(),
            !(all.len() > 0 && all[0] == '-'),
            all != "inf"@,
            point_from(all, 0) == point_from(all, i as int),
            all_digits(all.subrange(0, i as int)),
            value == saturating_value(all.subrange(0, i as int)),
        decreases all.len() - i,
    {
        let c = chars[i];
        if !('0' <= c && c <= '9') {
            proof {
                lemma_point_from_bounds(all, i + 1);
                let whole = all.subrange(0, point_from(all, 0));
                assert(whole[i as int] == c);
                assert(!all_digits(whole));
                assert(!(all.len() > 0 && all[0] == '-'));
            }
            return 0;
        }
        let d = (c as u32 - '0' as u32) as usize;
        assert(all.subrange(0, i + 1).drop_last() =~= all.subrange(0, i as int));
        if value > (usize::MAX - d) / 10 {
            proof {
                assert(value * 10 + d > usize::MAX) by (nonlinear_arith)
                    requires
                        value > (usize::MAX - d) / 10,
                        d <= 9,
                ;
            }
            value = usize::MAX;
        } else {
            proof {
                assert(value * 10 + d <= usize::MAX) by (nonlinear_arith)
                    requires
                        value <= (usize::MAX - d) / 10,
                        d <= 9,
                ;
            }
            value = value * 10 + d;
        }
        i = i + 1;
    }
    assert(point_from(all, i as int) == i as int);
    if i == 0 {
        return 0;
    }
    value
}

/// A `/Differences` array applied to a code table, one entry at a time from
/// `code`: a number moves to that code, a glyph name the library knows sets
/// the character at the current code (inside the table) and steps on, and
/// anything else is skipped. Entries are read through references.
pub open spec fn differences_applied(
    objects: Map<(u32, u16), PdfObject>,
    items: Seq<PdfObject>,
    table: Seq<char>,
    code: usize,
) -> Seq<char>
    decreases items.len(),
{
    if items.len() == 0 {
        table
    } else {
        let rest = items.drop_first();
        match resolved(objects, items[0]) {
            PdfObject::Integer(start) => differences_applied(objects, rest, table, start as usize),
            PdfObject::Real(start) => differences_applied(objects, rest, table, real_index(start.spec_text())),
            PdfObject::Name(name) => differences_applied(
                objects,
                rest,
                if code < table.len() && glyph_char(name@) is Some {
                    table.update(code as int, glyph_char(name@)->0)
                } else {
                    table
                },
                if code == usize::MAX { 0 } else { (code + 1) as usize },
            ),
            _ => differences_applied(objects, rest, table, code),
        }
    }
}

/// Applying `/Differences` keeps the table's length.
pub proof fn lemma_differences_length(
    objects: Map<(u32, u16), PdfObject>,
    items: Seq<PdfObject>,
    table: Seq<char>,
    code: usize,
)
    ensures
        differences_applied(objects, items, table, code).len() == table.len(),
    decreases items.len(),
{
    if items.len() > 0 {
        let rest = items.drop_first();
        match resolved(objects, items[0]) {
            PdfObject::Integer(start) => lemma_differences_length(objects, rest, table, start as usize),
            PdfObject::Real(start) => lemma_differences_length(objects, rest, table, real_index(start.spec_text())),
            PdfObject::Name(name) => lemma_differences_length(
                objects,
                rest,
                if code < table.len() && glyph_char(name@) is Some {
                    table.update(code as int, glyph_char(name@)->0)
                } else {
                    table
                },
                if code == usize::MAX { 0 } else { (code + 1) as usize },
            ),
            _ => lemma_differences_length(objects, rest, table, code),
        }
    }
}

/// Applies a `/Differences` array to a code table.
fn apply_differences(doc: &lopdf::Document, items: Vec<PdfObject>, table: &mut Vec<char>)
    ensures
        final(table)@ == differences_applied(document_objects(*doc), items@, old(table)@, 0),
{
    let ghost objects = document_objects(*doc);
    let ghost all = items@;
    let ghost start = table@;
    let mut rest = items;
    let mut code: usize = 0;
    let mut k: usize = 0;
    let count = rest.len();
    while k < count
        invariant
            count == all.len(),
            k <= count,
            rest@ == all.subrange(k as int, all.len() as int),
            objects == document_objects(*doc),
            differences_applied(objects, all, start, 0) == differences_applied(objects, rest@, table@, code),
        decreases count - k,
    {
        let entry = rest.remove(0);
        assert(rest@ =~= all.subrange(k + 1, all.len() as int));
        match resolve(doc, entry) {
            PdfObject::Integer(first) => {
                code = first as usize;
            },
            PdfObject::Real(first) => {
                code = real_as_index(&first);
            },
            PdfObject::Name(name) => {
                if code < table.len() {
                    if let Some(c) = glyph_name_to_char(name.as_slice()) {
                        table.set(code, c);
                    }
                }
                code = code.wrapping_add(1);
            },
            _ => {},
        }
        k = k + 1;
    }
}

/// A `/FontDescriptor` entry says the font program travels in the file: it
/// resolves to a dictionary with `/FontFile`, `/FontFile2` or `/FontFile3`.
pub open spec fn descriptor_embedded(objects: Map<(u32, u16), PdfObject>, entry: Option<PdfObject>) -> bool {
    match entry {
        Some(value) => match resolved(objects, value) {
            PdfObject::Dictionary(descriptor) => descriptor.lookup("FontFile".spec_bytes()) is Some
                || descriptor.lookup("FontFile2".spec_bytes()) is Some || descriptor.lookup(
                "FontFile3".spec_bytes(),
            ) is Some,
            _ => false,
        },
        None => false,
    }
}

fn is_embedded(doc: &lopdf::Document, entry: Option<PdfObject>) -> (r: bool)
    ensures
        r == descriptor_embedded(document_objects(*doc), entry),
{
    match entry {
        Some(value) => match resolve(doc, value) {
            PdfObject::Dictionary(descriptor) => descriptor.has("FontFile".as_bytes()) || descriptor.has(
                "FontFile2".as_bytes(),
            ) || descriptor.has("FontFile3".as_bytes()),
            _ => false,
        },
        None => false,
    }
}

/// The code table of a simple font with this `/Encoding` entry: the base
/// table, with the encoding dictionary's `/Differences` applied.
pub open spec fn simple_table(objects: Map<(u32, u16), PdfObject>, encoding: Option<PdfObject>) -> Seq<char> {
    match encoding {
        Some(value) => match resolved(objects, value) {
            PdfObject::Dictionary(dict) => match dict.lookup("Differences".spec_bytes()) {
                Some(differences) => match resolved(objects, differences) {
                    PdfObject::Array(items) => differences_applied(objects, items@, base_table(), 0),
                    _ => base_table(),
                },
                None => base_table(),
            },
            _ => base_table(),
        },
        None => base_table(),
    }
}

fn simple_table_chars(doc: &lopdf::Document, encoding: Option<PdfObject>) -> (r: Vec<char>)
    ensures
        r@ == simple_table(document_objects(*doc), encoding),
        r@.len() == 256,
{
    let mut table = base_table_chars();
    if let Some(value) = encoding {
        if let PdfObject::Dictionary(dict) = resolve(doc, value) {
            if let Some(differences) = dict.into_value("Differences".as_bytes()) {
                if let PdfObject::Array(items) = resolve(doc, differences) {
                    proof {
                        lemma_differences_length(document_objects(*doc), items@, table@, 0);
                    }
                    apply_differences(doc, items, &mut table);
                }
            }
        }
    }
    table
}

/// What a code table reads as: each code to its character, where it has one.
pub open spec fn table_text(table: Seq<char>) -> Map<u32, Seq<char>> {
    Map::new(
        |code: u32| code < table.len() && table[code as int] != '\u{FFFD}',
        |code: u32| seq![table[code as int]],
    )
}

/// What a code table writes with: each character (by scalar value) to the
/// first code that stands for it.
pub open spec fn first_codes(table: Seq<char>) -> Map<u32, u8>
    decreases table.len(),
{
    if table.len() == 0 {
        Map::empty()
    } else {
        let earlier = first_codes(table.drop_last());
        let c = table.last();
        if c == '\u{FFFD}' || earlier.contains_key(c as u32) {
            earlier
        } else {
            earlier.insert(c as u32, (table.len() - 1) as u8)
        }
    }
}

/// The coding of a simple font, whose codes are single bytes: the table the
/// `/Encoding` gives, read both ways (the first code wins for writing), with
/// a `/ToUnicode` map, where there is one, authoritative for reading.
pub fn simple_coding(
    doc: &lopdf::Document,
    encoding: Option<PdfObject>,
    to_unicode: Option<PdfObject>,
    descriptor: Option<PdfObject>,
) -> (r: FontCoding)
    ensures
        !r.two_byte,
        r.embedded == descriptor_embedded(document_objects(*doc), descriptor),
        text_map(r.to_unicode@) == match to_unicode_map(document_objects(*doc), to_unicode) {
            Some(map) => table_text(simple_table(document_objects(*doc), encoding)).union_prefer_right(map),
            None => table_text(simple_table(document_objects(*doc), encoding)),
        },
        r.from_unicode@ == first_codes(simple_table(document_objects(*doc), encoding)),
{
    broadcast use vstd::std_specs::hash::group_hash_axioms;

    let table = simple_table_chars(doc, encoding);
    let ghost t = table@;
    let mut reading = match read_to_unicode(doc, to_unicode) {
        Some(map) => map,
        None => HashMap::new(),
    };
    let ghost overrides = text_map(reading@);
    let mut writing: HashMap<u32, u8> = HashMap::new();
    let mut code: usize = 0;
    assert(table_text(t.subrange(0, 0)) =~= Map::empty());
    assert(text_map(reading@) =~= table_text(t.subrange(0, 0)).union_prefer_right(overrides));
    assert(writing@ =~= first_codes(t.subrange(0, 0)));
    while code < table.len()
        invariant
            t == table@,
            t.len() == 256,
            code <= t.len(),
            text_map(reading@) == table_text(t.subrange(0, code as int)).union_prefer_right(overrides),
            writing@ == first_codes(t.subrange(0, code as int)),
        decreases t.len() - code,
    {
        let c = table[code];
        let ghost before = text_map(reading@);
        let ghost prefix = t.subrange(0, code as int);
        let ghost next = t.subrange(0, code + 1);
        assert(next.drop_last() =~= prefix);
        assert(next[code as int] == c);
        assert(forall|k: int| 0 <= k < code ==> next[k] == prefix[k]);
        assert(table_text(next) =~= if c != '\u{FFFD}' {
            table_text(prefix).insert(code as u32, seq![c])
        } else {
            table_text(prefix)
        });
        let ghost held = reading@;
        assert(before == text_map(held));
        assert(!table_text(prefix).contains_key(code as u32));
        assert(before.contains_key(code as u32) == overrides.contains_key(code as u32));
        assert(held.contains_key(code as u32) == before.contains_key(code as u32));
        if c != '\u{FFFD}' {
            if !reading.contains_key(&(code as u32)) {
                let mut text = String::new();
                push_char(&mut text, c);
                assert(text@ =~= seq![c]);
                proof {
                    crate::pdf::text::lemma_text_map_insert(reading@, code as u32, text);
                }
                reading.insert(code as u32, text);
                assert(text_map(reading@) =~= table_text(next).union_prefer_right(overrides));
            } else {
                assert(text_map(reading@) =~= table_text(next).union_prefer_right(overrides));
            }
            if !writing.contains_key(&(c as u32)) {
                writing.insert(c as u32, code as u8);
            }
        } else {
            assert(text_map(reading@) =~= table_text(next).union_prefer_right(overrides));
        }
        code = code + 1;
    }
    assert(t.subrange(0, 256) =~= t);
    FontCoding { two_byte: false, to_unicode: reading, from_unicode: writing, embedded: is_embedded(doc, descriptor) }
}

/// The `/FontDescriptor` of a composite font's descendant: the first entry of
/// `/DescendantFonts` (references followed) when it is a dictionary.
pub open spec fn descendant_descriptor(objects: Map<(u32, u16), PdfObject>, descendants: Option<PdfObject>) -> Option<
    PdfObject,
> {
    match descendants {
        Some(value) => match resolved(objects, value) {
            PdfObject::Array(items) => if items@.len() > 0 {
                match resolved(objects, items@[0]) {
                    PdfObject::Dictionary(descendant) => descendant.lookup("FontDescriptor".spec_bytes()),
                    _ => None,
                }
            } else {
                None
            },
            _ => None,
        },
        None => None,
    }
}

/// The coding of a composite (Type0) font: two-byte codes, read through its
/// `/ToUnicode` map, and never written to directly (its glyph mapping would
/// have to be rebuilt).
pub fn type0_coding(doc: &lopdf::Document, to_unicode: Option<PdfObject>, descendants: Option<PdfObject>) -> (r:
    FontCoding)
    ensures
        r.two_byte,
        r.from_unicode@.len() == 0,
        r.embedded == descriptor_embedded(
            document_objects(*doc),
            descendant_descriptor(document_objects(*doc), descendants),
        ),
        text_map(r.to_unicode@) == match to_unicode_map(document_objects(*doc), to_unicode) {
            Some(map) => map,
            None => Map::empty(),
        },
{
    broadcast use vstd::std_specs::hash::group_hash_axioms;

    let reading = match read_to_unicode(doc, to_unicode) {
        Some(map) => map,
        None => HashMap::new(),
    };
    assert(text_map(Map::<u32, String>::empty()) =~= Map::empty());
    let writing: HashMap<u32, u8> = HashMap::new();
    let descriptor = match descendants {
        Some(value) => match resolve(doc, value) {
            PdfObject::Array(items) => {
                let mut items = items;
                if items.len() > 0 {
                    match resolve(doc, items.remove(0)) {
                        PdfObject::Dictionary(descendant) => descendant.into_value("FontDescriptor".as_bytes()),
                        _ => None,
                    }
                } else {
                    None
                }
            },
            _ => None,
        },
        None => None,
    };
    FontCoding { two_byte: true, to_unicode: reading, from_unicode: writing, embedded: is_embedded(doc, descriptor) }
}

/// A font is composite when its `/Subtype` is the name `Type0`.
pub open spec fn is_type0(font: PdfDict) -> bool {
    font.lookup("Subtype".spec_bytes()) matches Some(PdfObject::Name(name)) && name@ == "Type0".spec_bytes()
}

/// `coding` is how `font` reads and writes: for a composite font, two-byte
/// codes read through its `/ToUnicode` map and no way to write; for a simple
/// font, the table its `/Encoding` gives, with `/ToUnicode` authoritative for
/// reading; and whether its descriptor embeds the program.
pub open spec fn reads_font(objects: Map<(u32, u16), PdfObject>, font: PdfDict, coding: FontCoding) -> bool {
    let cmap = to_unicode_map(objects, font.lookup("ToUnicode".spec_bytes()));
    if is_type0(font) {
        &&& coding.two_byte
        &&& coding.from_unicode@.len() == 0
        &&& coding.embedded == descriptor_embedded(
            objects,
            descendant_descriptor(objects, font.lookup("DescendantFonts".spec_bytes())),
        )
        &&& text_map(coding.to_unicode@) == match cmap {
            Some(map) => map,
            None => Map::empty(),
        }
    } else {
        let table = simple_table(objects, font.lookup("Encoding".spec_bytes()));
        &&& !coding.two_byte
        &&& coding.embedded == descriptor_embedded(objects, font.lookup("FontDescriptor".spec_bytes()))
        &&& text_map(coding.to_unicode@) == match cmap {
            Some(map) => table_text(table).union_prefer_right(map),
            None => table_text(table),
        }
        &&& coding.from_unicode@ == first_codes(table)
    }
}

proof fn lemma_font_keys()
    ensures
        "ToUnicode".spec_bytes().len() == 9,
        "DescendantFonts".spec_bytes().len() == 15,
        "Encoding".spec_bytes().len() == 8,
        "FontDescriptor".spec_bytes().len() == 14,
{
    reveal_strlit("ToUnicode");
    reveal_strlit("DescendantFonts");
    reveal_strlit("Encoding");
    reveal_strlit("FontDescriptor");
    crate::pdf::document::lemma_ascii_bytes("ToUnicode");
    crate::pdf::document::lemma_ascii_bytes("DescendantFonts");
    crate::pdf::document::lemma_ascii_bytes("Encoding");
    crate::pdf::document::lemma_ascii_bytes("FontDescriptor");
}

/// Reads how a font's codes map to text and back.
pub fn read_font_coding(doc: &lopdf::Document, font: PdfDict) -> (r: FontCoding)
    ensures
        reads_font(document_objects(*doc), font, r),
{
    broadcast use crate::pdf::object::lemma_lookup_after_set;

    proof {
        lemma_font_keys();
    }
    let ghost original = font;
    let composite = match font.get("Subtype".as_bytes()) {
        Some(PdfObject::Name(name)) => crate::pdf::object::same_bytes(name.as_slice(), "Type0".as_bytes()),
        _ => false,
    };
    let mut font = font;
    let to_unicode = font.take_value("ToUnicode".as_bytes());
    if composite {
        let descendants = font.take_value("DescendantFonts".as_bytes());
        assert(descendants == original.lookup("DescendantFonts".spec_bytes()));
        type0_coding(doc, to_unicode, descendants)
    } else {
        let encoding = font.take_value("Encoding".as_bytes());
        let descriptor = font.take_value("FontDescriptor".as_bytes());
        assert(encoding == original.lookup("Encoding".spec_bytes()));
        assert(descriptor == original.lookup("FontDescriptor".spec_bytes()));
        simple_coding(doc, encoding, to_unicode, descriptor)
    }
}

/// A character WinAnsiEncoding puts in 0x80–0x9F lies above Latin-1.
proof fn lemma_win_ansi_high_range(i: int)
    requires
        0 <= i < 32,
    ensures
        win_ansi_high(i) == '\u{FFFD}' || 0xFF < (win_ansi_high(i) as u32),
{
}

/// Of a table's codes, none stands for `ch`: `ch` is none of its keys for
/// writing.
proof fn lemma_first_codes_without(table: Seq<char>, ch: char)
    requires
        forall|j: int| 0 <= j < table.len() ==> table[j] != ch,
    ensures
        !first_codes(table).contains_key(ch as u32),
    decreases table.len(),
{
    if table.len() > 0 {
        lemma_first_codes_without(table.drop_last(), ch);
        let last = table.last();
        if last as u32 == ch as u32 {
            vstd::utf8::char_u32_cast(last, last as u32);
            vstd::utf8::char_u32_cast(ch, ch as u32);
        }
    }
}

/// The first code standing for a character is the one it is written with.
proof fn lemma_first_code(table: Seq<char>, c: int)
    requires
        0 <= c < table.len() <= 256,
        table[c] != '\u{FFFD}',
        forall|j: int| 0 <= j < c ==> table[j] != table[c],
    ensures
        first_codes(table).contains_key(table[c] as u32),
        first_codes(table)[table[c] as u32] == c as u8,
    decreases table.len(),
{
    if table.len() == c + 1 {
        lemma_first_codes_without(table.drop_last(), table[c]);
    } else {
        lemma_first_code(table.drop_last(), c);
    }
}

/// In the base table, no code before `c` stands for what `c` stands for.
proof fn lemma_base_first(c: int)
    requires
        0 <= c < 256,
        base_table()[c] != '\u{FFFD}',
    ensures
        forall|j: int| 0 <= j < c ==> base_table()[j] != base_table()[c],
{
    assert forall|j: int| 0 <= j < c implies base_table()[j] != base_table()[c] by {
        if 0x80 <= j <= 0x9F {
            lemma_win_ansi_high_range(j - 0x80);
        }
        if 0x80 <= c <= 0x9F {
            lemma_win_ansi_high_range(c - 0x80);
        }
    }
}

/// A simple font with neither `/Encoding` nor `/ToUnicode` reads and writes
/// its bytes as WinAnsiEncoding: each code of 0x80–0x9F as the table of the
/// PDF specification lists it (0x81, 0x8D, 0x8F, 0x90 and 0x9D stand for
/// nothing), every other byte as the Latin-1 character of that number, and
/// each of those characters is written with its own code.
pub proof fn law_a_plain_simple_font_reads_win_ansi(
    objects: Map<(u32, u16), PdfObject>,
    font: PdfDict,
    coding: FontCoding,
)
    requires
        !is_type0(font),
        font.lookup("Encoding".spec_bytes()) is None,
        font.lookup("ToUnicode".spec_bytes()) is None,
        reads_font(objects, font, coding),
    ensures
        !coding.two_byte,
        forall|code: u32|
            #![trigger text_map(coding.to_unicode@).contains_key(code)]
            code < 0x80 || 0xA0 <= code <= 0xFF ==> text_map(coding.to_unicode@).contains_key(code)
                && text_map(coding.to_unicode@)[code] == seq![code as char]
                && coding.from_unicode@.contains_key(code) && coding.from_unicode@[code] == code as u8,
        forall|code: u32| 0xFF < code ==> !#[trigger] text_map(coding.to_unicode@).contains_key(code),
        text_map(coding.to_unicode@).contains_key(0x80u32) && text_map(coding.to_unicode@)[0x80u32] == seq!['\u{20AC}'],
        text_map(coding.to_unicode@).contains_key(0x82u32) && text_map(coding.to_unicode@)[0x82u32] == seq!['\u{201A}'],
        text_map(coding.to_unicode@).contains_key(0x83u32) && text_map(coding.to_unicode@)[0x83u32] == seq!['\u{0192}'],
        text_map(coding.to_unicode@).contains_key(0x84u32) && text_map(coding.to_unicode@)[0x84u32] == seq!['\u{201E}'],
        text_map(coding.to_unicode@).contains_key(0x85u32) && text_map(coding.to_unicode@)[0x85u32] == seq!['\u{2026}'],
        text_map(coding.to_unicode@).contains_key(0x86u32) && text_map(coding.to_unicode@)[0x86u32] == seq!['\u{2020}'],
        text_map(coding.to_unicode@).contains_key(0x87u32) && text_map(coding.to_unicode@)[0x87u32] == seq!['\u{2021}'],
        text_map(coding.to_unicode@).contains_key(0x88u32) && text_map(coding.to_unicode@)[0x88u32] == seq!['\u{02C6}'],
        text_map(coding.to_unicode@).contains_key(0x89u32) && text_map(coding.to_unicode@)[0x89u32] == seq!['\u{2030}'],
        text_map(coding.to_unicode@).contains_key(0x8Au32) && text_map(coding.to_unicode@)[0x8Au32] == seq!['\u{0160}'],
        text_map(coding.to_unicode@).contains_key(0x8Bu32) && text_map(coding.to_unicode@)[0x8Bu32] == seq!['\u{2039}'],
        text_map(coding.to_unicode@).contains_key(0x8Cu32) && text_map(coding.to_unicode@)[0x8Cu32] == seq!['\u{0152}'],
        text_map(coding.to_unicode@).contains_key(0x8Eu32) && text_map(coding.to_unicode@)[0x8Eu32] == seq!['\u{017D}'],
        text_map(coding.to_unicode@).contains_key(0x91u32) && text_map(coding.to_unicode@)[0x91u32] == seq!['\u{2018}'],
        text_map(coding.to_unicode@).contains_key(0x92u32) && text_map(coding.to_unicode@)[0x92u32] == seq!['\u{2019}'],
        text_map(coding.to_unicode@).contains_key(0x93u32) && text_map(coding.to_unicode@)[0x93u32] == seq!['\u{201C}'],
        text_map(coding.to_unicode@).contains_key(0x94u32) && text_map(coding.to_unicode@)[0x94u32] == seq!['\u{201D}'],
        text_map(coding.to_unicode@).contains_key(0x95u32) && text_map(coding.to_unicode@)[0x95u32] == seq!['\u{2022}'],
        text_map(coding.to_unicode@).contains_key(0x96u32) && text_map(coding.to_unicode@)[0x96u32] == seq!['\u{2013}'],
        text_map(coding.to_unicode@).contains_key(0x97u32) && text_map(coding.to_unicode@)[0x97u32] == seq!['\u{2014}'],
        text_map(coding.to_unicode@).contains_key(0x98u32) && text_map(coding.to_unicode@)[0x98u32] == seq!['\u{02DC}'],
        text_map(coding.to_unicode@).contains_key(0x99u32) && text_map(coding.to_unicode@)[0x99u32] == seq!['\u{2122}'],
        text_map(coding.to_unicode@).contains_key(0x9Au32) && text_map(coding.to_unicode@)[0x9Au32] == seq!['\u{0161}'],
        text_map(coding.to_unicode@).contains_key(0x9Bu32) && text_map(coding.to_unicode@)[0x9Bu32] == seq!['\u{203A}'],
        text_map(coding.to_unicode@).contains_key(0x9Cu32) && text_map(coding.to_unicode@)[0x9Cu32] == seq!['\u{0153}'],
        text_map(coding.to_unicode@).contains_key(0x9Eu32) && text_map(coding.to_unicode@)[0x9Eu32] == seq!['\u{017E}'],
        text_map(coding.to_unicode@).contains_key(0x9Fu32) && text_map(coding.to_unicode@)[0x9Fu32] == seq!['\u{0178}'],
        !text_map(coding.to_unicode@).contains_key(0x81u32),
        !text_map(coding.to_unicode@).contains_key(0x8Du32),
        !text_map(coding.to_unicode@).contains_key(0x8Fu32),
        !text_map(coding.to_unicode@).contains_key(0x90u32),
        !text_map(coding.to_unicode@).contains_key(0x9Du32),
        coding.from_unicode@.contains_key(0x20ACu32) && coding.from_unicode@[0x20ACu32] == 0x80u8,
        coding.from_unicode@.contains_key(0x201Au32) && coding.from_unicode@[0x201Au32] == 0x82u8,
        coding.from_unicode@.contains_key(0x0192u32) && coding.from_unicode@[0x0192u32] == 0x83u8,
        coding.from_unicode@.contains_key(0x201Eu32) && coding.from_unicode@[0x201Eu32] == 0x84u8,
        coding.from_unicode@.contains_key(0x2026u32) && coding.from_unicode@[0x2026u32] == 0x85u8,
        coding.from_unicode@.contains_key(0x2020u32) && coding.from_unicode@[0x2020u32] == 0x86u8,
        coding.from_unicode@.contains_key(0x2021u32) && coding.from_unicode@[0x2021u32] == 0x87u8,
        coding.from_unicode@.contains_key(0x02C6u32) && coding.from_unicode@[0x02C6u32] == 0x88u8,
        coding.from_unicode@.contains_key(0x2030u32) && coding.from_unicode@[0x2030u32] == 0x89u8,
        coding.from_unicode@.contains_key(0x0160u32) && coding.from_unicode@[0x0160u32] == 0x8Au8,
        coding.from_unicode@.contains_key(0x2039u32) && coding.from_unicode@[0x2039u32] == 0x8Bu8,
        coding.from_unicode@.contains_key(0x0152u32) && coding.from_unicode@[0x0152u32] == 0x8Cu8,
        coding.from_unicode@.contains_key(0x017Du32) && coding.from_unicode@[0x017Du32] == 0x8Eu8,
        coding.from_unicode@.contains_key(0x2018u32) && coding.from_unicode@[0x2018u32] == 0x91u8,
        coding.from_unicode@.contains_key(0x2019u32) && coding.from_unicode@[0x2019u32] == 0x92u8,
        coding.from_unicode@.contains_key(0x201Cu32) && coding.from_unicode@[0x201Cu32] == 0x93u8,
        coding.from_unicode@.contains_key(0x201Du32) && coding.from_unicode@[0x201Du32] == 0x94u8,
        coding.from_unicode@.contains_key(0x2022u32) && coding.from_unicode@[0x2022u32] == 0x95u8,
        coding.from_unicode@.contains_key(0x2013u32) && coding.from_unicode@[0x2013u32] == 0x96u8,
        coding.from_unicode@.contains_key(0x2014u32) && coding.from_unicode@[0x2014u32] == 0x97u8,
        coding.from_unicode@.contains_key(0x02DCu32) && coding.from_unicode@[0x02DCu32] == 0x98u8,
        coding.from_unicode@.contains_key(0x2122u32) && coding.from_unicode@[0x2122u32] == 0x99u8,
        coding.from_unicode@.contains_key(0x0161u32) && coding.from_unicode@[0x0161u32] == 0x9Au8,
        coding.from_unicode@.contains_key(0x203Au32) && coding.from_unicode@[0x203Au32] == 0x9Bu8,
        coding.from_unicode@.contains_key(0x0153u32) && coding.from_unicode@[0x0153u32] == 0x9Cu8,
        coding.from_unicode@.contains_key(0x017Eu32) && coding.from_unicode@[0x017Eu32] == 0x9Eu8,
        coding.from_unicode@.contains_key(0x0178u32) && coding.from_unicode@[0x0178u32] == 0x9Fu8,
{
    let table = base_table();
    assert(simple_table(objects, font.lookup("Encoding".spec_bytes())) == table);
    assert forall|code: u32| 0 <= code < 256 && table[code as int] != '\u{FFFD}' implies
        coding.from_unicode@.contains_key(table[code as int] as u32) && coding.from_unicode@[table[code as int] as u32] == code as u8 by {
        lemma_base_first(code as int);
        lemma_first_code(table, code as int);
    }    assert(table[0x80] == '\u{20AC}');
    lemma_base_first(0x80);
    lemma_first_code(table, 0x80);
    assert(table[0x82] == '\u{201A}');
    lemma_base_first(0x82);
    lemma_first_code(table, 0x82);
    assert(table[0x83] == '\u{0192}');
    lemma_base_first(0x83);
    lemma_first_code(table, 0x83);
    assert(table[0x84] == '\u{201E}');
    lemma_base_first(0x84);
    lemma_first_code(table, 0x84);
    assert(table[0x85] == '\u{2026}');
    lemma_base_first(0x85);
    lemma_first_code(table, 0x85);
    assert(table[0x86] == '\u{2020}');
    lemma_base_first(0x86);
    lemma_first_code(table, 0x86);
    assert(table[0x87] == '\u{2021}');
    lemma_base_first(0x87);
    lemma_first_code(table, 0x87);
    assert(table[0x88] == '\u{02C6}');
    lemma_base_first(0x88);
    lemma_first_code(table, 0x88);
    assert(table[0x89] == '\u{2030}');
    lemma_base_first(0x89);
    lemma_first_code(table, 0x89);
    assert(table[0x8A] == '\u{0160}');
    lemma_base_first(0x8A);
    lemma_first_code(table, 0x8A);
    assert(table[0x8B] == '\u{2039}');
    lemma_base_first(0x8B);
    lemma_first_code(table, 0x8B);
    assert(table[0x8C] == '\u{0152}');
    lemma_base_first(0x8C);
    lemma_first_code(table, 0x8C);
    assert(table[0x8E] == '\u{017D}');
    lemma_base_first(0x8E);
    lemma_first_code(table, 0x8E);
    assert(table[0x91] == '\u{2018}');
    lemma_base_first(0x91);
    lemma_first_code(table, 0x91);
    assert(table[0x92] == '\u{2019}');
    lemma_base_first(0x92);
    lemma_first_code(table, 0x92);
    assert(table[0x93] == '\u{201C}');
    lemma_base_first(0x93);
    lemma_first_code(table, 0x93);
    assert(table[0x94] == '\u{201D}');
    lemma_base_first(0x94);
    lemma_first_code(table, 0x94);
    assert(table[0x95] == '\u{2022}');
    lemma_base_first(0x95);
    lemma_first_code(table, 0x95);
    assert(table[0x96] == '\u{2013}');
    lemma_base_first(0x96);
    lemma_first_code(table, 0x96);
    assert(table[0x97] == '\u{2014}');
    lemma_base_first(0x97);
    lemma_first_code(table, 0x97);
    assert(table[0x98] == '\u{02DC}');
    lemma_base_first(0x98);
    lemma_first_code(table, 0x98);
    assert(table[0x99] == '\u{2122}');
    lemma_base_first(0x99);
    lemma_first_code(table, 0x99);
    assert(table[0x9A] == '\u{0161}');
    lemma_base_first(0x9A);
    lemma_first_code(table, 0x9A);
    assert(table[0x9B] == '\u{203A}');
    lemma_base_first(0x9B);
    lemma_first_code(table, 0x9B);
    assert(table[0x9C] == '\u{0153}');
    lemma_base_first(0x9C);
    lemma_first_code(table, 0x9C);
    assert(table[0x9E] == '\u{017E}');
    lemma_base_first(0x9E);
    lemma_first_code(table, 0x9E);
    assert(table[0x9F] == '\u{0178}');
    lemma_base_first(0x9F);
    lemma_first_code(table, 0x9F);
}

} // verus!
