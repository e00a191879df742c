//! AcroForm support: field text encoding, appearance strings, discovery,
//! filling, and field maintenance.

use vstd::prelude::*;

use vstd::string::{StringExecFns, StringSliceAdditionalSpecFns};

use crate::decimal::{signed_decimal, signed_decimal_text};
use crate::error::{field_not_found, invalid_input, pdf_error, AppError, AppResult};
use crate::pdf::document::{
    page_ids as page_list, add_object, document_objects as objects_of, drop_object, page_at, page_count_of, catalog_id, dict_for_update, dictionary_error, key, lemma_dict_of_target, put_object,
    with_dict, document_max_id, page_tree, catalog_ref, dict_of, dict_target, document_objects, document_trailer, get_dictionary,
    page_ids, resolve, resolved, stored, trailer_of, ids_bounded, chains_kept, is_name, is_integer_array, is_empty_dictionary, lemma_ascii_bytes, found_at,
};
use crate::pdf::object::{
    copy_bytes, deep_distinct, dict_deep, entry_value, remove_entry, same_bytes, set_entry, ObjectId, PdfDict, PdfObject,
    TextFormat,
};
use crate::pdf::unicode::{
    chars_of, decode_utf16_lossy, encode_utf16, from_utf16_lossy, lemma_encode_utf16_step, push_char,
    utf16_of, utf16_units,
};

verus! {

broadcast use crate::pdf::object::group_deep;

/// The big-endian 16-bit units of `bytes`, two bytes each; an odd byte at the
/// end is ignored.
pub open spec fn be_units(bytes: Seq<u8>) -> Seq<u16> {
    Seq::new(bytes.len() / 2, |i: int| (bytes[2 * i] * 256 + bytes[2 * i + 1]) as u16)
}

/// The bytes of `units`, each written big-endian.
pub open spec fn be_bytes(units: Seq<u16>) -> Seq<u8> {
    Seq::new(units.len() * 2, |i: int| if i % 2 == 0 {
        (units[i / 2] / 256) as u8
    } else {
        (units[i / 2] % 256) as u8
    })
}

/// Whether `bytes` open with the UTF-16BE byte-order mark `FE FF`.
pub open spec fn has_utf16_bom(bytes: Seq<u8>) -> bool {
    bytes.len() >= 2 && bytes[0] == 0xFE && bytes[1] == 0xFF
}

/// A PDF text string read as text: UTF-16BE after a byte-order mark, and
/// otherwise one character per byte (PDFDocEncoding agrees with Latin-1
/// across the range that matters here).
pub open spec fn pdf_text_to_chars(bytes: Seq<u8>) -> Seq<char> {
    if has_utf16_bom(bytes) {
        decode_utf16_lossy(be_units(bytes.subrange(2, bytes.len() as int)))
    } else {
        bytes.map_values(|b: u8| b as char)
    }
}

/// Whether every character of `text` fits in one Latin-1 byte.
pub open spec fn is_latin1(text: Seq<char>) -> bool {
    forall|i: int| 0 <= i < text.len() ==> (text[i] as u32) < 0x100
}

/// A text written as a PDF text string: one byte per character when every
/// character is Latin-1, and otherwise a byte-order mark followed by UTF-16BE.
pub open spec fn chars_to_pdf_text(text: Seq<char>) -> Seq<u8> {
    if is_latin1(text) {
        text.map_values(|c: char| c as u32 as u8)
    } else {
        seq![0xFEu8, 0xFFu8] + be_bytes(encode_utf16(text))
    }
}

/// PDF text strings are either UTF-16BE (with a BOM) or PDFDocEncoding.
pub fn decode_pdf_text(bytes: &[u8]) -> (r: String)
    ensures
        r@ == pdf_text_to_chars(bytes@),
{
    if bytes.len() >= 2 && bytes[0] == 0xFE && bytes[1] == 0xFF {
        let ghost body = bytes@.subrange(2, bytes@.len() as int);
        let mut units: Vec<u16> = Vec::new();
        let mut at: usize = 2;
        while bytes.len() - at >= 2
            invariant
                2 <= at <= bytes@.len(),
                (at - 2) % 2 == 0,
                body == bytes@.subrange(2, bytes@.len() as int),
                units@ == be_units(body).subrange(0, (at - 2) / 2),
            decreases bytes@.len() - at,
        {
            let unit: u16 = (bytes[at] as u16) * 256 + bytes[at + 1] as u16;
            units.push(unit);
            at = at + 2;
            assert(units@ =~= be_units(body).subrange(0, (at - 2) / 2));
        }
        assert(units@ =~= be_units(body));
        from_utf16_lossy(&units)
    } else {
        let mut out = String::new();
        let mut index: usize = 0;
        while index < bytes.len()
            invariant
                0 <= index <= bytes@.len(),
                out@ == bytes@.subrange(0, index as int).map_values(|b: u8| b as char),
            decreases bytes@.len() - index,
        {
            push_char(&mut out, bytes[index] as char);
            index = index + 1;
            assert(out@ =~= bytes@.subrange(0, index as int).map_values(|b: u8| b as char));
        }
        assert(bytes@.subrange(0, bytes@.len() as int) =~= bytes@);
        out
    }
}

/// Encodes a string as a PDF text string, using UTF-16BE when the text
/// contains anything Latin-1 cannot represent.
pub fn encode_pdf_text(text: &str) -> (r: Vec<u8>)
    ensures
        r@ == chars_to_pdf_text(text@),
{
    let chars = chars_of(text);
    let mut latin1 = true;
    let mut index: usize = 0;
    while index < chars.len()
        invariant
            0 <= index <= chars@.len(),
            latin1 == is_latin1(chars@.subrange(0, index as int)),
        decreases chars@.len() - index,
    {
        if chars[index] as u32 >= 0x100 {
            latin1 = false;
        }
        index = index + 1;
        proof {
            let done = chars@.subrange(0, index as int);
            if !latin1 {
                if is_latin1(done) {
                    let prefix = chars@.subrange(0, index - 1);
                    if !is_latin1(prefix) {
                        let k = choose|k: int| 0 <= k < prefix.len() && !((prefix[k] as u32) < 0x100);
                        assert(done[k] == prefix[k]);
                    } else {
                        assert(done[index - 1] == chars@[index - 1]);
                    }
                }
            } else {
                assert forall|k: int| 0 <= k < done.len() implies (done[k] as u32) < 0x100 by {
                    if k < index - 1 {
                        assert(done[k] == chars@.subrange(0, index - 1)[k]);
                    }
                }
            }
        }
    }
    assert(chars@.subrange(0, chars@.len() as int) =~= chars@);

    let mut out: Vec<u8> = Vec::new();
    if latin1 {
        let mut index: usize = 0;
        while index < chars.len()
            invariant
                0 <= index <= chars@.len(),
                is_latin1(chars@),
                out@ == chars@.subrange(0, index as int).map_values(|c: char| c as u32 as u8),
            decreases chars@.len() - index,
        {
            out.push(chars[index] as u32 as u8);
            index = index + 1;
            assert(out@ =~= chars@.subrange(0, index as int).map_values(|c: char| c as u32 as u8));
        }
        out
    } else {
        out.push(0xFE);
        out.push(0xFF);
        let ghost bom = seq![0xFEu8, 0xFFu8];
        assert(out@ =~= bom + be_bytes(encode_utf16(chars@.subrange(0, 0))));
        let mut index: usize = 0;
        while index < chars.len()
            invariant
                0 <= index <= chars@.len(),
                bom == seq![0xFEu8, 0xFFu8],
                out@ == bom + be_bytes(encode_utf16(chars@.subrange(0, index as int))),
            decreases chars@.len() - index,
        {
            let (high, low) = utf16_units(chars[index]);
            let ghost before = encode_utf16(chars@.subrange(0, index as int));
            proof {
                lemma_encode_utf16_step(chars@, index as int);
            }
            out.push((high / 256) as u8);
            out.push((high % 256) as u8);
            match low {
                Some(low) => {
                    out.push((low / 256) as u8);
                    out.push((low % 256) as u8);
                    assert(be_bytes(before + seq![high, low]) =~= be_bytes(before) + seq![
                        (high / 256) as u8,
                        (high % 256) as u8,
                        (low / 256) as u8,
                        (low % 256) as u8,
                    ]);
                },
                None => {
                    assert(be_bytes(before + seq![high]) =~= be_bytes(before) + seq![
                        (high / 256) as u8,
                        (high % 256) as u8,
                    ]);
                },
            }
            index = index + 1;
            assert(out@ =~= bom + be_bytes(encode_utf16(chars@.subrange(0, index as int))));
        }
        out
    }
}

proof fn lemma_one_char_round_trips(c: char, rest: Seq<u16>)
    ensures
        decode_utf16_lossy(utf16_of(c) + rest) == seq![c] + decode_utf16_lossy(rest),
{
    let units = utf16_of(c) + rest;
    let v = c as u32;
    if v < 0x10000 {
        assert(!(0xD800 <= v <= 0xDFFF));
        assert(units.subrange(1, units.len() as int) =~= rest);
        assert(units[0] == v as u16);
        assert((v as u16) as char == c);
    } else {
        let high = (0xD800 + (v - 0x10000) / 0x400) as u16;
        let low = (0xDC00 + (v - 0x10000) % 0x400) as u16;
        assert(v <= 0x10FFFF);
        assert(units[0] == high && units[1] == low);
        assert(units.subrange(2, units.len() as int) =~= rest);
        assert(pair_value_is(high, low, v)) by (nonlinear_arith)
            requires
                0x10000 <= v <= 0x10FFFF,
                high == 0xD800 + (v - 0x10000) / 0x400,
                low == 0xDC00 + (v - 0x10000) % 0x400,
        ;
        assert((v as char) == c);
    }
}

proof fn lemma_latin1_char_byte(c: char)
    requires
        (c as u32) < 0x100,
    ensures
        (c as u32 as u8) as char == c,
{
    let v = c as u32;
    assert((v as u8) as u32 == v);
}

spec fn pair_value_is(high: u16, low: u16, v: u32) -> bool {
    &&& 0xD800 <= high <= 0xDBFF
    &&& 0xDC00 <= low <= 0xDFFF
    &&& 0x10000 + (high - 0xD800) * 0x400 + (low - 0xDC00) == v
}

proof fn lemma_utf16_round_trips(text: Seq<char>)
    ensures
        decode_utf16_lossy(encode_utf16(text)) == text,
    decreases text.len(),
{
    if text.len() > 0 {
        let tail = text.subrange(1, text.len() as int);
        lemma_utf16_round_trips(tail);
        lemma_one_char_round_trips(text[0], encode_utf16(tail));
        assert(seq![text[0]] + tail =~= text);
    } else {
        assert(text =~= Seq::<char>::empty());
    }
}

proof fn lemma_be_round_trips(units: Seq<u16>)
    ensures
        be_units(be_bytes(units)) == units,
{
    let bytes = be_bytes(units);
    assert forall|i: int| 0 <= i < units.len() implies #[trigger] be_units(bytes)[i] == units[i] by {
        assert(bytes[2 * i] == (units[i] / 256) as u8);
        assert(bytes[2 * i + 1] == (units[i] % 256) as u8);
    }
    assert(be_units(bytes) =~= units);
}

/// Whether the text would be stored one byte per character and begin with the
/// two characters whose bytes spell a UTF-16 byte-order mark (`þÿ`). Such a
/// text reads back as UTF-16, which is the one case where a value does not
/// survive being written.
pub open spec fn mistaken_for_utf16(text: Seq<char>) -> bool {
    is_latin1(text) && text.len() >= 2 && text[0] as u32 == 0xFE && text[1] as u32 == 0xFF
}

/// A text written as a PDF text string reads back as the same text — except
/// for Latin-1 text that itself begins with `þÿ`, whose first two bytes are
/// indistinguishable from a UTF-16 byte-order mark.
pub proof fn law_pdf_text_round_trips(text: Seq<char>)
    requires
        !mistaken_for_utf16(text),
    ensures
        pdf_text_to_chars(chars_to_pdf_text(text)) == text,
{
    let bytes = chars_to_pdf_text(text);
    if is_latin1(text) {
        if has_utf16_bom(bytes) {
            assert(text[0] as u32 == 0xFE && text[1] as u32 == 0xFF);
        }
        assert forall|i: int| 0 <= i < text.len() implies (text[i] as u32 as u8) as char
            == text[i] by {
            lemma_latin1_char_byte(text[i]);
        }
        assert(bytes.map_values(|b: u8| b as char) =~= text);
    } else {
        let body = bytes.subrange(2, bytes.len() as int);
        assert(body =~= be_bytes(encode_utf16(text)));
        lemma_be_round_trips(encode_utf16(text));
        lemma_utf16_round_trips(text);
    }
}


/// Guards against a malformed file whose field tree forms a cycle.
pub const MAX_FIELD_DEPTH: usize = 32;

// Field flag bits from the PDF spec (1-based bit numbers in the spec, so the
// shift is one less than the documented bit position).
pub const FLAG_READ_ONLY: i64 = 1;
pub const FLAG_REQUIRED: i64 = 2;
pub const FLAG_MULTILINE: i64 = 4096;
pub const FLAG_PASSWORD: i64 = 8192;
pub const FLAG_PUSHBUTTON: i64 = 65536;
pub const FLAG_RADIO: i64 = 32768;
pub const FLAG_COMBO: i64 = 131072;

#[derive(Clone, Copy, Debug, PartialEq, Eq, Structural)]
pub enum FieldKind {
    Text,
    Checkbox,
    Radio,
    PushButton,
    Choice,
    Signature,
    Unknown,
}

/// `String::from_utf8_lossy`: the characters `bytes` encode, each malformed
/// sequence replaced by U+FFFD.
pub uninterp spec fn utf8_lossy(bytes: Seq<u8>) -> Seq<char>;

/// `String::from_utf8_lossy(bytes).into_owned()`. Its documentation promises
/// that valid UTF-8 comes through unchanged; what replaces each malformed
/// sequence is named, not stated.
#[verifier::external_body]
pub fn text_from_utf8_lossy(bytes: &[u8]) -> (r: String)
    ensures
        r@ == utf8_lossy(bytes@),
        vstd::utf8::valid_utf8(bytes@) ==> r@ == vstd::utf8::decode_utf8(bytes@),
{
    String::from_utf8_lossy(bytes).into_owned()
}

/// The form dictionary: the catalog's `/AcroForm`, resolved.
pub open spec fn acro_form(objects: Map<ObjectId, PdfObject>, trailer: PdfDict) -> Option<PdfDict> {
    match catalog_ref(trailer) {
        None => None,
        Some(catalog_id) => match dict_of(objects, catalog_id) {
            None => None,
            Some(catalog) => match catalog.lookup("AcroForm".spec_bytes()) {
                None => None,
                Some(form) => match resolved(objects, form) {
                    PdfObject::Dictionary(dict) => Some(dict),
                    _ => None,
                },
            },
        },
    }
}

pub fn acro_form_dict(doc: &lopdf::Document) -> (r: Option<PdfDict>)
    ensures
        r == acro_form(document_objects(*doc), document_trailer(*doc)),
{
    let catalog_id = match trailer_of(doc).into_value("Root".as_bytes()) {
        Some(PdfObject::Reference(id)) => id,
        _ => return None,
    };
    let catalog = match get_dictionary(doc, catalog_id) {
        Some(catalog) => catalog,
        None => return None,
    };
    let form = match catalog.into_value("AcroForm".as_bytes()) {
        Some(form) => form,
        None => return None,
    };
    match resolve(doc, form) {
        PdfObject::Dictionary(dict) => Some(dict),
        _ => None,
    }
}

/// The form's `/Fields`, resolved, is a non-empty array.
pub open spec fn spec_has_acro_form(objects: Map<ObjectId, PdfObject>, trailer: PdfDict) -> bool {
    match acro_form(objects, trailer) {
        Some(form) => match form.lookup("Fields".spec_bytes()) {
            Some(fields) => match resolved(objects, fields) {
                PdfObject::Array(items) => items@.len() > 0,
                _ => false,
            },
            None => false,
        },
        None => false,
    }
}

pub fn has_acro_form(doc: &lopdf::Document) -> (r: bool)
    ensures
        r == spec_has_acro_form(document_objects(*doc), document_trailer(*doc)),
{
    let form = match acro_form_dict(doc) {
        Some(form) => form,
        None => return false,
    };
    let fields = match form.into_value("Fields".as_bytes()) {
        Some(fields) => fields,
        None => return false,
    };
    match resolve(doc, fields) {
        PdfObject::Array(items) => items.len() > 0,
        _ => false,
    }
}

/// Resolves an attribute that a field may inherit from an ancestor field,
/// looking at most `steps` dictionaries up the `/Parent` chain.
pub open spec fn field_attr_from(
    objects: Map<ObjectId, PdfObject>,
    current: ObjectId,
    key: Seq<u8>,
    steps: nat,
) -> Option<PdfObject>
    decreases steps,
{
    if steps == 0 {
        None
    } else {
        match dict_of(objects, current) {
            None => None,
            Some(dict) => match dict.lookup(key) {
                Some(value) => Some(resolved(objects, value)),
                None => match dict.lookup("Parent".spec_bytes()) {
                    Some(PdfObject::Reference(parent)) => field_attr_from(
                        objects,
                        parent,
                        key,
                        (steps - 1) as nat,
                    ),
                    _ => None,
                },
            },
        }
    }
}

pub open spec fn spec_field_attr(objects: Map<ObjectId, PdfObject>, field_id: ObjectId, key: Seq<u8>) -> Option<PdfObject> {
    field_attr_from(objects, field_id, key, MAX_FIELD_DEPTH as nat)
}

pub fn field_attr(doc: &lopdf::Document, field_id: ObjectId, key: &[u8]) -> (r: Option<PdfObject>)
    ensures
        r == spec_field_attr(document_objects(*doc), field_id, key@),
{
    let ghost objects = document_objects(*doc);
    let mut current = field_id;
    let mut steps: usize = MAX_FIELD_DEPTH;
    while steps > 0
        invariant
            objects == document_objects(*doc),
            spec_field_attr(objects, field_id, key@) == field_attr_from(objects, current, key@, steps as nat),
        decreases steps,
    {
        let dict = match get_dictionary(doc, current) {
            Some(dict) => dict,
            None => return None,
        };
        if dict.has(key) {
            return match dict.into_value(key) {
                Some(value) => Some(resolve(doc, value)),
                None => None,
            };
        }
        match dict.get("Parent".as_bytes()) {
            Some(PdfObject::Reference(parent)) => {
                current = *parent;
            },
            _ => return None,
        }
        steps = steps - 1;
    }
    None
}

pub open spec fn spec_field_flags(objects: Map<ObjectId, PdfObject>, field_id: ObjectId) -> i64 {
    match spec_field_attr(objects, field_id, "Ff".spec_bytes()) {
        Some(PdfObject::Integer(flags)) => flags,
        _ => 0,
    }
}

pub fn field_flags(doc: &lopdf::Document, field_id: ObjectId) -> (r: i64)
    ensures
        r == spec_field_flags(document_objects(*doc), field_id),
{
    match field_attr(doc, field_id, "Ff".as_bytes()) {
        Some(PdfObject::Integer(flags)) => flags,
        _ => 0,
    }
}

pub open spec fn spec_classify(objects: Map<ObjectId, PdfObject>, field_id: ObjectId) -> FieldKind {
    match spec_field_attr(objects, field_id, "FT".spec_bytes()) {
        Some(PdfObject::Name(name)) => {
            let flags = spec_field_flags(objects, field_id);
            if name@ == "Tx".spec_bytes() {
                FieldKind::Text
            } else if name@ == "Sig".spec_bytes() {
                FieldKind::Signature
            } else if name@ == "Ch".spec_bytes() {
                FieldKind::Choice
            } else if name@ == "Btn".spec_bytes() {
                if flags & FLAG_PUSHBUTTON != 0 {
                    FieldKind::PushButton
                } else if flags & FLAG_RADIO != 0 {
                    FieldKind::Radio
                } else {
                    FieldKind::Checkbox
                }
            } else {
                FieldKind::Unknown
            }
        },
        _ => FieldKind::Unknown,
    }
}

pub fn classify(doc: &lopdf::Document, field_id: ObjectId) -> (r: FieldKind)
    ensures
        r == spec_classify(document_objects(*doc), field_id),
{
    let name = match field_attr(doc, field_id, "FT".as_bytes()) {
        Some(PdfObject::Name(name)) => name,
        _ => return FieldKind::Unknown,
    };
    let flags = field_flags(doc, field_id);
    if same_bytes(name.as_slice(), "Tx".as_bytes()) {
        FieldKind::Text
    } else if same_bytes(name.as_slice(), "Sig".as_bytes()) {
        FieldKind::Signature
    } else if same_bytes(name.as_slice(), "Ch".as_bytes()) {
        FieldKind::Choice
    } else if same_bytes(name.as_slice(), "Btn".as_bytes()) {
        if flags & FLAG_PUSHBUTTON != 0 {
            FieldKind::PushButton
        } else if flags & FLAG_RADIO != 0 {
            FieldKind::Radio
        } else {
            FieldKind::Checkbox
        }
    } else {
        FieldKind::Unknown
    }
}

/// The field type names differ from one another.
proof fn lemma_field_type_names()
    ensures
        "Btn".spec_bytes() != "Tx".spec_bytes(),
        "Btn".spec_bytes() != "Sig".spec_bytes(),
        "Btn".spec_bytes() != "Ch".spec_bytes(),
{
    reveal_strlit("Btn");
    reveal_strlit("Tx");
    reveal_strlit("Sig");
    reveal_strlit("Ch");
    crate::pdf::document::lemma_ascii_bytes("Btn");
    crate::pdf::document::lemma_ascii_bytes("Tx");
    crate::pdf::document::lemma_ascii_bytes("Sig");
    crate::pdf::document::lemma_ascii_bytes("Ch");
    assert("Btn".spec_bytes()[0] != "Sig".spec_bytes()[0]);
}

/// A button field (`/FT /Btn`) is told apart by its `/Ff` bits (PDF 32000-1,
/// 12.7.4.2): the push-button bit (1 << 16) makes a push button; otherwise the
/// radio bit (1 << 15) makes a radio group; with neither it is a checkbox.
pub proof fn law_button_fields_are_told_apart_by_their_flags(objects: Map<ObjectId, PdfObject>, field: ObjectId)
    requires
        spec_field_attr(objects, field, "FT".spec_bytes()) matches Some(PdfObject::Name(name)) && name@
            == "Btn".spec_bytes(),
    ensures
        spec_field_flags(objects, field) & 0x10000 != 0 ==> spec_classify(objects, field) == FieldKind::PushButton,
        spec_field_flags(objects, field) & 0x10000 == 0 && spec_field_flags(objects, field) & 0x8000 != 0
            ==> spec_classify(objects, field) == FieldKind::Radio,
        spec_field_flags(objects, field) & 0x10000 == 0 && spec_field_flags(objects, field) & 0x8000 == 0
            ==> spec_classify(objects, field) == FieldKind::Checkbox,
{
    lemma_field_type_names();
}

/// A field's own `/T` entry, resolved, as text.
pub open spec fn spec_partial_name(objects: Map<ObjectId, PdfObject>, field_id: ObjectId) -> Option<Seq<char>> {
    match dict_of(objects, field_id) {
        Some(dict) => match dict.lookup("T".spec_bytes()) {
            Some(title) => match resolved(objects, title) {
                PdfObject::Text(bytes, _) => Some(pdf_text_to_chars(bytes@)),
                _ => None,
            },
            None => None,
        },
        None => None,
    }
}

pub fn partial_name(doc: &lopdf::Document, field_id: ObjectId) -> (r: Option<String>)
    ensures
        match r {
            Some(name) => spec_partial_name(document_objects(*doc), field_id) == Some(name@),
            None => spec_partial_name(document_objects(*doc), field_id) is None,
        },
{
    let dict = match get_dictionary(doc, field_id) {
        Some(dict) => dict,
        None => return None,
    };
    let title = match dict.into_value("T".as_bytes()) {
        Some(title) => title,
        None => return None,
    };
    match resolve(doc, title) {
        PdfObject::Text(bytes, _) => Some(decode_pdf_text(bytes.as_slice())),
        _ => None,
    }
}


/// The text a value object renders as, with `fuel` bounding how deeply nested
/// arrays are followed (each element is resolved, so a malformed file could
/// otherwise nest without end).
pub open spec fn value_text(objects: Map<ObjectId, PdfObject>, object: PdfObject, fuel: nat) -> Option<
    Seq<char>,
>
    decreases fuel, 0nat,
{
    if fuel == 0 {
        None
    } else {
        match resolved(objects, object) {
            PdfObject::Text(bytes, _) => Some(pdf_text_to_chars(bytes@)),
            PdfObject::Name(bytes) => Some(utf8_lossy(bytes@)),
            PdfObject::Integer(number) => Some(signed_decimal(number as int)),
            PdfObject::Real(number) => Some(number.spec_text()),
            PdfObject::Boolean(flag) => Some(
                if flag {
                    "true"@
                } else {
                    "false"@
                },
            ),
            PdfObject::Array(items) => Some(
                joined(present_values(objects, items@, (fuel - 1) as nat), ", "@),
            ),
            _ => None,
        }
    }
}

/// The texts of the values among `items` that have one, in order.
pub open spec fn present_values(objects: Map<ObjectId, PdfObject>, items: Seq<PdfObject>, fuel: nat) -> Seq<
    Seq<char>,
>
    decreases fuel, items.len() + 1,
{
    if items.len() == 0 {
        Seq::empty()
    } else {
        let rest = present_values(objects, items.subrange(1, items.len() as int), fuel);
        match value_text(objects, items[0], fuel) {
            Some(text) => seq![text] + rest,
            None => rest,
        }
    }
}

/// `parts.join(separator)`.
pub open spec fn joined(parts: Seq<Seq<char>>, separator: Seq<char>) -> Seq<char>
    decreases parts.len(),
{
    if parts.len() == 0 {
        Seq::empty()
    } else if parts.len() == 1 {
        parts[0]
    } else {
        parts[0] + separator + joined(parts.subrange(1, parts.len() as int), separator)
    }
}

/// How deep `value_to_string` follows nested arrays: further than any stack
/// could.
pub const VALUE_DEPTH: u64 = 0xFFFF_FFFF_FFFF_FFFF;

/// Renders a field value object as display text.
pub fn value_to_string(doc: &lopdf::Document, object: PdfObject) -> (r: Option<String>)
    ensures
        match r {
            Some(text) => value_text(document_objects(*doc), object, VALUE_DEPTH as nat) == Some(text@),
            None => value_text(document_objects(*doc), object, VALUE_DEPTH as nat) is None,
        },
{
    value_text_within(doc, object, VALUE_DEPTH)
}

fn value_text_within(doc: &lopdf::Document, object: PdfObject, fuel: u64) -> (r: Option<String>)
    ensures
        match r {
            Some(text) => value_text(document_objects(*doc), object, fuel as nat) == Some(text@),
            None => value_text(document_objects(*doc), object, fuel as nat) is None,
        },
    decreases fuel,
{
    if fuel == 0 {
        return None;
    }
    match resolve(doc, object) {
        PdfObject::Text(bytes, _) => Some(decode_pdf_text(bytes.as_slice())),
        PdfObject::Name(bytes) => Some(text_from_utf8_lossy(bytes.as_slice())),
        PdfObject::Integer(number) => Some(signed_decimal_text(number)),
        PdfObject::Real(number) => Some(number.text()),
        PdfObject::Boolean(flag) => Some(
            if flag {
                String::from_str("true")
            } else {
                String::from_str("false")
            },
        ),
        PdfObject::Array(items) => {
            let ghost objects = document_objects(*doc);
            let ghost all = items@;
            let mut rest = items;
            let mut parts: Vec<String> = Vec::new();
            let ghost mut taken: Seq<PdfObject> = Seq::empty();
            while rest.len() > 0
                invariant
                    objects == document_objects(*doc),
                    all == taken + rest@,
                    fuel > 0,
                    present_values(objects, all, (fuel - 1) as nat) == parts@.map_values(
                        |p: String| p@,
                    ) + present_values(objects, rest@, (fuel - 1) as nat),
                decreases rest@.len(),
            {
                let ghost before = rest@;
                let item = rest.remove(0);
                assert(before.subrange(1, before.len() as int) =~= rest@);
                let ghost prefix = parts@.map_values(|p: String| p@);
                match value_text_within(doc, item, fuel - 1) {
                    Some(text) => {
                        parts.push(text);
                        assert(parts@.map_values(|p: String| p@) =~= prefix.push(text@));
                        assert(prefix + (seq![text@] + present_values(objects, rest@, (fuel - 1) as nat))
                            =~= prefix.push(text@) + present_values(objects, rest@, (fuel - 1) as nat));
                    },
                    None => {},
                }
                proof {
                    taken = taken.push(item);
                    assert(all =~= taken + rest@);
                }
            }
            assert(parts@.map_values(|p: String| p@) + Seq::<Seq<char>>::empty() =~= parts@.map_values(
                |p: String| p@,
            ));
            Some(join_strings(&parts, ", "))
        },
        _ => None,
    }
}

/// `parts.join(separator)`.
pub fn join_strings(parts: &Vec<String>, separator: &str) -> (r: String)
    ensures
        r@ == joined(parts@.map_values(|p: String| p@), separator@),
{
    let ghost all = parts@.map_values(|p: String| p@);
    if parts.len() == 0 {
        return String::new();
    }
    let n = parts.len();
    let mut out = parts[n - 1].clone();
    let mut k: usize = n - 1;
    assert(all.subrange(n - 1, n as int) =~= seq![all[n - 1]]);
    while k > 0
        invariant
            k < n,
            n == parts@.len(),
            all == parts@.map_values(|p: String| p@),
            out@ == joined(all.subrange(k as int, n as int), separator@),
        decreases k,
    {
        k = k - 1;
        let mut piece = parts[k].clone();
        piece.append(separator);
        piece.append(out.as_str());
        let ghost tail_parts = all.subrange(k as int, n as int);
        assert(tail_parts.subrange(1, tail_parts.len() as int) =~= all.subrange(k + 1, n as int));
        out = piece;
    }
    assert(all.subrange(0, n as int) =~= all);
    out
}


/// `char::is_whitespace`: the Unicode `White_Space` characters.
pub open spec fn is_white(c: char) -> bool {
    ||| '\u{9}' <= c <= '\u{d}'
    ||| c == ' '
    ||| c == '\u{85}'
    ||| c == '\u{a0}'
    ||| c == '\u{1680}'
    ||| '\u{2000}' <= c <= '\u{200a}'
    ||| c == '\u{2028}'
    ||| c == '\u{2029}'
    ||| c == '\u{202f}'
    ||| c == '\u{205f}'
    ||| c == '\u{3000}'
}

fn white(c: char) -> (r: bool)
    ensures
        r == is_white(c),
{
    ('\u{9}' <= c && c <= '\u{d}') || c == ' ' || c == '\u{85}' || c == '\u{a0}' || c == '\u{1680}'
        || ('\u{2000}' <= c && c <= '\u{200a}') || c == '\u{2028}' || c == '\u{2029}' || c
        == '\u{202f}' || c == '\u{205f}' || c == '\u{3000}'
}

/// `str::split_whitespace` from position `i`, with the word in progress.
pub open spec fn words_from(text: Seq<char>, i: int, current: Seq<char>) -> Seq<Seq<char>>
    decreases text.len() - i,
{
    if i < 0 || i >= text.len() {
        if current.len() > 0 {
            seq![current]
        } else {
            Seq::empty()
        }
    } else if is_white(text[i]) {
        (if current.len() > 0 {
            seq![current]
        } else {
            Seq::empty()
        }) + words_from(text, i + 1, Seq::empty())
    } else {
        words_from(text, i + 1, current.push(text[i]))
    }
}

/// `str::split_whitespace`: the maximal runs of non-white characters.
pub open spec fn words(text: Seq<char>) -> Seq<Seq<char>> {
    words_from(text, 0, Seq::empty())
}

pub fn split_whitespace(text: &str) -> (r: Vec<String>)
    ensures
        r@.map_values(|w: String| w@) == words(text@),
{
    let chars = chars_of(text);
    let mut out: Vec<String> = Vec::new();
    let mut current = String::new();
    let mut in_word = false;
    let mut i: usize = 0;
    while i < chars.len()
        invariant
            i <= chars@.len(),
            chars@ == text@,
            in_word == (current@.len() > 0),
            words(text@) == out@.map_values(|w: String| w@) + words_from(text@, i as int, current@),
        decreases chars@.len() - i,
    {
        let c = chars[i];
        let ghost done = out@.map_values(|w: String| w@);
        if white(c) {
            if in_word {
                let ghost word = current@;
                out.push(current);
                current = String::new();
                in_word = false;
                assert(out@.map_values(|w: String| w@) =~= done.push(word));
                assert(done + (seq![word] + words_from(text@, i + 1, Seq::empty())) =~= done.push(
                    word,
                ) + words_from(text@, i + 1, Seq::empty()));
            } else {
                assert(Seq::<Seq<char>>::empty() + words_from(text@, i + 1, Seq::empty()) =~= words_from(
                    text@,
                    i + 1,
                    Seq::empty(),
                ));
                assert(current@ =~= Seq::<char>::empty());
            }
        } else {
            push_char(&mut current, c);
            in_word = true;
        }
        i = i + 1;
    }
    if in_word {
        let ghost done = out@.map_values(|w: String| w@);
        let ghost word = current@;
        out.push(current);
        assert(out@.map_values(|w: String| w@) =~= done + seq![word]);
    } else {
        assert(out@.map_values(|w: String| w@) + Seq::<Seq<char>>::empty() =~= out@.map_values(
            |w: String| w@,
        ));
    }
    out
}

/// Where the first `Tf` operator stands among `tokens`.
pub open spec fn tf_position(tokens: Seq<Seq<char>>) -> Option<int>
    decreases tokens.len(),
{
    if tokens.len() == 0 {
        None
    } else if tokens[0] == "Tf"@ {
        Some(0)
    } else {
        match tf_position(tokens.subrange(1, tokens.len() as int)) {
            Some(i) => Some(i + 1),
            None => None,
        }
    }
}

fn find_tf(tokens: &Vec<String>) -> (r: Option<usize>)
    ensures
        match r {
            Some(i) => i < tokens@.len() && tf_position(tokens@.map_values(|w: String| w@)) == Some(
                i as int,
            ),
            None => tf_position(tokens@.map_values(|w: String| w@)) is None,
        },
{
    let ghost all = tokens@.map_values(|w: String| w@);
    let mut i: usize = 0;
    assert(all.subrange(0, all.len() as int) =~= all);
    while i < tokens.len()
        invariant
            i <= tokens@.len(),
            all == tokens@.map_values(|w: String| w@),
            tf_position(all) == match tf_position(all.subrange(i as int, all.len() as int)) {
                Some(j) => Some(j + i),
                None => None,
            },
        decreases tokens@.len() - i,
    {
        let ghost rest = all.subrange(i as int, all.len() as int);
        assert(rest.subrange(1, rest.len() as int) =~= all.subrange(i + 1, all.len() as int));
        if same_text_of(tokens[i].as_str(), "Tf") {
            return Some(i);
        }
        i = i + 1;
    }
    None
}

/// Character-for-character equality of two strings.
pub(crate) fn same_text_of(a: &str, b: &str) -> (r: bool)
    ensures
        r == (a@ == b@),
{
    let x = chars_of(a);
    let y = chars_of(b);
    if x.len() != y.len() {
        return false;
    }
    let mut i: usize = 0;
    while i < x.len()
        invariant
            i <= x@.len(),
            x@.len() == y@.len(),
            x@ == a@,
            y@ == b@,
            forall|j: int| 0 <= j < i ==> x@[j] == y@[j],
        decreases x@.len() - i,
    {
        if x[i] != y[i] {
            return false;
        }
        i = i + 1;
    }
    assert(x@ =~= y@);
    true
}

/// The operand just before the first `Tf` of an appearance string.
pub open spec fn spec_font_size_token(appearance: Seq<char>) -> Option<Seq<char>> {
    let tokens = words(appearance);
    match tf_position(tokens) {
        Some(op) => if op >= 1 {
            Some(tokens[op - 1])
        } else {
            None
        },
        None => None,
    }
}

/// The size operand of `/DA`: the token immediately before `Tf`. Reading it
/// as a number is left to the caller.
pub fn font_size_token(appearance: &str) -> (r: Option<String>)
    ensures
        match r {
            Some(token) => spec_font_size_token(appearance@) == Some(token@),
            None => spec_font_size_token(appearance@) is None,
        },
{
    let tokens = split_whitespace(appearance);
    match find_tf(&tokens) {
        Some(op) => if op >= 1 {
            Some(tokens[op - 1].clone())
        } else {
            None
        },
        None => None,
    }
}

/// An appearance string with its size operand replaced by `size`; with no
/// appearance, or none with a size to replace, a Helvetica one of that size.
pub open spec fn spec_appearance_with_size(appearance: Option<Seq<char>>, size: Seq<char>) -> Seq<char> {
    let fresh = "/Helv "@ + size + " Tf 0 g"@;
    match appearance {
        Some(existing) => {
            let tokens = words(existing);
            match tf_position(tokens) {
                Some(op) => if op >= 1 {
                    joined(tokens.update(op - 1, size), " "@)
                } else {
                    fresh
                },
                None => fresh,
            }
        },
        None => fresh,
    }
}

/// Rewrites an appearance string with a new size, preserving font and colour.
/// `size` is the size as `/DA` should spell it.
pub fn appearance_with_size(appearance: Option<&str>, size: &str) -> (r: String)
    ensures
        r@ == spec_appearance_with_size(
            match appearance {
                Some(text) => Some(text@),
                None => None,
            },
            size@,
        ),
{
    if let Some(existing) = appearance {
        let mut tokens = split_whitespace(existing);
        if let Some(op) = find_tf(&tokens) {
            if op >= 1 {
                let ghost before = tokens@.map_values(|w: String| w@);
                tokens.set(op - 1, String::from_str(size));
                assert(tokens@.map_values(|w: String| w@) =~= before.update(op - 1, size@));
                return join_strings(&tokens, " ");
            }
        }
    }
    let mut fresh = String::from_str("/Helv ");
    fresh.append(size);
    fresh.append(" Tf 0 g");
    fresh
}


/// A word as `split_whitespace` yields one: not empty, no white character.
pub open spec fn is_word(w: Seq<char>) -> bool {
    w.len() > 0 && forall|k: int| 0 <= k < w.len() ==> !is_white(#[trigger] w[k])
}

/// A run of non-white characters joins the word in progress.
proof fn lemma_word_run(t: Seq<char>, i: int, j: int, current: Seq<char>)
    requires
        0 <= i <= j <= t.len(),
        forall|k: int| i <= k < j ==> !is_white(#[trigger] t[k]),
    ensures
        words_from(t, i, current) == words_from(t, j, current + t.subrange(i, j)),
    decreases j - i,
{
    if i < j {
        lemma_word_run(t, i + 1, j, current.push(t[i]));
        assert(current.push(t[i]) + t.subrange(i + 1, j) =~= current + t.subrange(i, j));
    } else {
        assert(current + t.subrange(i, j) =~= current);
    }
}

/// Splitting a text that is `parts` joined by single spaces gives back
/// `parts`, when each is a word.
proof fn lemma_words_of_joined(t: Seq<char>, i: int, parts: Seq<Seq<char>>)
    requires
        0 <= i <= t.len(),
        parts.len() >= 1,
        forall|k: int| 0 <= k < parts.len() ==> is_word(#[trigger] parts[k]),
        t.subrange(i, t.len() as int) == joined(parts, " "@),
    ensures
        words_from(t, i, Seq::empty()) == parts,
    decreases parts.len(),
{
    let w = parts[0];
    assert(is_word(w));
    let end = i + w.len();
    if parts.len() == 1 {
        assert(t.subrange(i, t.len() as int) == w);
        assert forall|k: int| i <= k < t.len() implies !is_white(#[trigger] t[k]) by {
            assert(t[k] == t.subrange(i, t.len() as int)[k - i]);
        }
        lemma_word_run(t, i, t.len() as int, Seq::empty());
        assert(Seq::<char>::empty() + t.subrange(i, t.len() as int) =~= w);
    } else {
        let rest = parts.subrange(1, parts.len() as int);
        let tail = t.subrange(i, t.len() as int);
        assert(tail == w + " "@ + joined(rest, " "@));
        assert(" "@.len() == 1 && " "@[0] == ' ') by {
            reveal_strlit(" ");
        }
        assert forall|k: int| i <= k < end implies !is_white(#[trigger] t[k]) by {
            assert(t[k] == tail[k - i]);
            assert(tail[k - i] == w[k - i]);
        }
        lemma_word_run(t, i, end, Seq::empty());
        assert(Seq::<char>::empty() + t.subrange(i, end) =~= w) by {
            assert forall|k: int| 0 <= k < w.len() implies t.subrange(i, end)[k] == w[k] by {
                assert(t[i + k] == tail[k]);
            }
        }
        assert(t[end] == tail[w.len() as int]);
        assert(is_white(t[end]));
        assert(t.subrange(end + 1, t.len() as int) =~= joined(rest, " "@)) by {
            assert forall|k: int| 0 <= k < t.len() - (end + 1) implies t.subrange(end + 1, t.len() as int)[k]
                == joined(rest, " "@)[k] by {
                assert(t[end + 1 + k] == tail[w.len() + 1 + k]);
            }
        }
        assert forall|k: int| 0 <= k < rest.len() implies is_word(#[trigger] rest[k]) by {
            assert(rest[k] == parts[k + 1]);
        }
        lemma_words_of_joined(t, end + 1, rest);
        assert(seq![w] + rest =~= parts);
    }
}

/// Every word `split_whitespace` yields is a word, given the one in progress
/// has no white character.
proof fn lemma_words_are_words(t: Seq<char>, i: int, current: Seq<char>)
    requires
        forall|k: int| 0 <= k < current.len() ==> !is_white(#[trigger] current[k]),
    ensures
        forall|k: int| 0 <= k < words_from(t, i, current).len() ==> is_word(#[trigger] words_from(t, i, current)[k]),
    decreases t.len() - i,
{
    if i < 0 || i >= t.len() {
        if current.len() > 0 {
            assert(words_from(t, i, current) == seq![current]);
            assert(is_word(current));
        } else {
            assert(words_from(t, i, current).len() == 0);
        }
    } else if is_white(t[i]) {
        lemma_words_are_words(t, i + 1, Seq::empty());
        let head: Seq<Seq<char>> = if current.len() > 0 { seq![current] } else { Seq::empty() };
        let all = words_from(t, i, current);
        assert(all == head + words_from(t, i + 1, Seq::empty()));
        assert forall|k: int| 0 <= k < all.len() implies is_word(#[trigger] all[k]) by {
            if k < head.len() {
                assert(all[k] == current);
            } else {
                assert(all[k] == words_from(t, i + 1, Seq::empty())[k - head.len()]);
            }
        }
    } else {
        let next = current.push(t[i]);
        assert forall|k: int| 0 <= k < next.len() implies !is_white(#[trigger] next[k]) by {
            if k < current.len() {
                assert(next[k] == current[k]);
            }
        }
        lemma_words_are_words(t, i + 1, next);
        assert(words_from(t, i, current) == words_from(t, i + 1, next));
    }
}

/// Where `tf_position` lands: on the first `Tf`.
proof fn lemma_tf_position(tokens: Seq<Seq<char>>)
    ensures
        match tf_position(tokens) {
            Some(p) => 0 <= p < tokens.len() && tokens[p] == "Tf"@ && forall|q: int|
                0 <= q < p ==> tokens[q] != "Tf"@,
            None => forall|q: int| 0 <= q < tokens.len() ==> tokens[q] != "Tf"@,
        },
    decreases tokens.len(),
{
    if tokens.len() > 0 && tokens[0] != "Tf"@ {
        let rest = tokens.subrange(1, tokens.len() as int);
        lemma_tf_position(rest);
        assert forall|q: int| 1 <= q < tokens.len() implies tokens[q] == rest[q - 1] by {}
    }
}

/// Reading the size operand back out of an appearance string gives the size
/// it was just rewritten with, whatever the string held before: a size is a
/// single word, and not the `Tf` operator itself.
pub proof fn law_a_written_size_reads_back(appearance: Option<Seq<char>>, size: Seq<char>)
    requires
        is_word(size),
        size != "Tf"@,
    ensures
        spec_font_size_token(spec_appearance_with_size(appearance, size)) == Some(size),
{
    reveal_strlit("Tf");
    reveal_strlit("/Helv");
    reveal_strlit("/Helv ");
    reveal_strlit(" Tf 0 g");
    reveal_strlit("0");
    reveal_strlit("g");
    let fresh_parts = seq!["/Helv"@, size, "Tf"@, "0"@, "g"@];
    let fresh = "/Helv "@ + size + " Tf 0 g"@;
    let rewritten = match appearance {
        Some(existing) => match tf_position(words(existing)) {
            Some(op) => op >= 1,
            None => false,
        },
        None => false,
    };
    if rewritten {
        let existing = appearance->0;
        let tokens = words(existing);
        lemma_words_are_words(existing, 0, Seq::empty());
        lemma_tf_position(tokens);
        let op = tf_position(tokens)->0;
        let updated = tokens.update(op - 1, size);
        assert forall|k: int| 0 <= k < updated.len() implies is_word(#[trigger] updated[k]) by {
            if k != op - 1 {
                assert(updated[k] == tokens[k]);
            }
        }
        let text = joined(updated, " "@);
        assert(text.subrange(0, text.len() as int) =~= text);
        lemma_words_of_joined(text, 0, updated);
        lemma_tf_position(updated);
        assert(updated[op] == "Tf"@);
        assert(tf_position(updated) == Some(op));
    } else {
        assert(fresh =~= joined(fresh_parts, " "@)) by {
            reveal_strlit(" ");
            reveal_with_fuel(joined, 5);
            assert(fresh_parts.subrange(1, 5) =~= seq![size, "Tf"@, "0"@, "g"@]);
            assert(fresh_parts.subrange(1, 5).subrange(1, 4) =~= seq!["Tf"@, "0"@, "g"@]);
            assert(fresh_parts.subrange(1, 5).subrange(1, 4).subrange(1, 3) =~= seq!["0"@, "g"@]);
            assert(fresh_parts.subrange(1, 5).subrange(1, 4).subrange(1, 3).subrange(1, 2) =~= seq!["g"@]);
        }
        assert forall|k: int| 0 <= k < fresh_parts.len() implies is_word(#[trigger] fresh_parts[k]) by {
            if k == 0 {
                assert(fresh_parts[0] == "/Helv"@);
            }
        }
        assert(fresh.subrange(0, fresh.len() as int) =~= fresh);
        lemma_words_of_joined(fresh, 0, fresh_parts);
        lemma_tf_position(fresh_parts);
        assert(fresh_parts[2] == "Tf"@);
        assert(fresh_parts[0] != "Tf"@);
        assert(tf_position(fresh_parts) == Some(2int));
    }
}

/// The default-appearance string that governs a field's text: its own
/// (possibly inherited) `/DA`, else the form-wide one.
///
/// `/DA` looks like `/Helv 12 Tf 0 g`: a font, a size, the `Tf` operator, then
/// colour. A size of `0` is the spec's way of saying "auto-size to fit".
pub open spec fn spec_appearance_string(
    objects: Map<ObjectId, PdfObject>,
    trailer: PdfDict,
    field_id: ObjectId,
) -> Option<Seq<char>> {
    let object = match spec_field_attr(objects, field_id, "DA".spec_bytes()) {
        Some(own) => Some(own),
        None => match acro_form(objects, trailer) {
            Some(form) => match form.lookup("DA".spec_bytes()) {
                Some(value) => Some(resolved(objects, value)),
                None => None,
            },
            None => None,
        },
    };
    match object {
        Some(PdfObject::Text(bytes, _)) => Some(pdf_text_to_chars(bytes@)),
        _ => None,
    }
}

pub fn appearance_string(doc: &lopdf::Document, field_id: ObjectId) -> (r: Option<String>)
    ensures
        match r {
            Some(text) => spec_appearance_string(document_objects(*doc), document_trailer(*doc), field_id)
                == Some(text@),
            None => spec_appearance_string(document_objects(*doc), document_trailer(*doc), field_id) is None,
        },
{
    let object = match field_attr(doc, field_id, "DA".as_bytes()) {
        Some(own) => Some(own),
        None => match acro_form_dict(doc) {
            Some(form) => match form.into_value("DA".as_bytes()) {
                Some(value) => Some(resolve(doc, value)),
                None => None,
            },
            None => None,
        },
    };
    match object {
        Some(PdfObject::Text(bytes, _)) => Some(decode_pdf_text(bytes.as_slice())),
        _ => None,
    }
}

/// The keys of a normal-appearance dictionary that name "on" states: all but
/// `Off`.
pub open spec fn on_state_names(entries: Seq<(Seq<u8>, PdfObject)>) -> Seq<Seq<char>>
    decreases entries.len(),
{
    if entries.len() == 0 {
        Seq::empty()
    } else {
        let rest = on_state_names(entries.subrange(1, entries.len() as int));
        let state = utf8_lossy(entries[0].0);
        if state == "Off"@ {
            rest
        } else {
            seq![state] + rest
        }
    }
}

/// The on-state names a checkbox or radio widget accepts, taken from its
/// normal-appearance dictionary.
pub open spec fn spec_on_states(objects: Map<ObjectId, PdfObject>, widget_id: ObjectId) -> Seq<Seq<char>> {
    match dict_of(objects, widget_id) {
        Some(widget) => match widget.lookup("AP".spec_bytes()) {
            Some(appearance) => match resolved(objects, appearance) {
                PdfObject::Dictionary(appearance) => match appearance.lookup("N".spec_bytes()) {
                    Some(normal) => match resolved(objects, normal) {
                        PdfObject::Dictionary(normal) => on_state_names(normal@),
                        _ => Seq::empty(),
                    },
                    None => Seq::empty(),
                },
                _ => Seq::empty(),
            },
            None => Seq::empty(),
        },
        None => Seq::empty(),
    }
}

pub fn widget_on_states(doc: &lopdf::Document, widget_id: ObjectId) -> (r: Vec<String>)
    ensures
        r@.map_values(|s: String| s@) == spec_on_states(document_objects(*doc), widget_id),
{
    let empty: Vec<String> = Vec::new();
    assert(empty@.map_values(|s: String| s@) =~= Seq::<Seq<char>>::empty());
    let widget = match get_dictionary(doc, widget_id) {
        Some(widget) => widget,
        None => return empty,
    };
    let appearance = match widget.into_value("AP".as_bytes()) {
        Some(appearance) => appearance,
        None => return empty,
    };
    let appearance = match resolve(doc, appearance) {
        PdfObject::Dictionary(appearance) => appearance,
        _ => return empty,
    };
    let normal = match appearance.into_value("N".as_bytes()) {
        Some(normal) => normal,
        None => return empty,
    };
    let normal = match resolve(doc, normal) {
        PdfObject::Dictionary(normal) => normal,
        _ => return empty,
    };
    let ghost all = normal@;
    let mut out: Vec<String> = Vec::new();
    let mut i: usize = normal.entries.len();
    assert(all.subrange(all.len() as int, all.len() as int) =~= Seq::<(Seq<u8>, PdfObject)>::empty());
    while i > 0
        invariant
            i <= normal.entries@.len(),
            all == normal@,
            out@.map_values(|s: String| s@) == on_state_names(all.subrange(i as int, all.len() as int)),
        decreases i,
    {
        i = i - 1;
        let state = text_from_utf8_lossy(normal.entries[i].0.as_slice());
        let ghost rest = all.subrange(i as int, all.len() as int);
        assert(rest.subrange(1, rest.len() as int) =~= all.subrange(i + 1, all.len() as int));
        assert(rest[0].0 == normal.entries@[i as int].0@);
        if !same_text_of(state.as_str(), "Off") {
            let ghost before = out@.map_values(|s: String| s@);
            out.insert(0, state);
            assert(out@.map_values(|s: String| s@) =~= seq![state@] + before);
        }
    }
    assert(all.subrange(0, all.len() as int) =~= all);
    out
}


/// The display text of one `/Opt` entry: a plain value, or the last element
/// of an `[export_value, display_text]` pair.
pub open spec fn option_text(objects: Map<ObjectId, PdfObject>, entry: PdfObject) -> Option<Seq<char>> {
    match resolved(objects, entry) {
        PdfObject::Array(pair) => if pair@.len() > 0 {
            value_text(objects, pair@.last(), VALUE_DEPTH as nat)
        } else {
            None
        },
        other => value_text(objects, other, VALUE_DEPTH as nat),
    }
}

/// The texts of the entries that have one, in order.
pub open spec fn option_texts(objects: Map<ObjectId, PdfObject>, entries: Seq<PdfObject>) -> Seq<Seq<char>>
    decreases entries.len(),
{
    if entries.len() == 0 {
        Seq::empty()
    } else {
        let rest = option_texts(objects, entries.subrange(1, entries.len() as int));
        match option_text(objects, entries[0]) {
            Some(text) => seq![text] + rest,
            None => rest,
        }
    }
}

pub open spec fn spec_choice_options(objects: Map<ObjectId, PdfObject>, field_id: ObjectId) -> Seq<Seq<char>> {
    match spec_field_attr(objects, field_id, "Opt".spec_bytes()) {
        Some(PdfObject::Array(entries)) => option_texts(objects, entries@),
        _ => Seq::empty(),
    }
}

pub fn choice_options(doc: &lopdf::Document, field_id: ObjectId) -> (r: Vec<String>)
    ensures
        r@.map_values(|s: String| s@) == spec_choice_options(document_objects(*doc), field_id),
{
    let ghost objects = document_objects(*doc);
    let mut out: Vec<String> = Vec::new();
    let entries = match field_attr(doc, field_id, "Opt".as_bytes()) {
        Some(PdfObject::Array(entries)) => entries,
        _ => {
            assert(out@.map_values(|s: String| s@) =~= Seq::<Seq<char>>::empty());
            return out;
        },
    };
    let ghost all = entries@;
    let mut i: usize = entries.len();
    let mut rest = entries;
    assert(all.subrange(all.len() as int, all.len() as int) =~= Seq::<PdfObject>::empty());
    while i > 0
        invariant
            i == rest@.len(),
            i <= all.len(),
            rest@ == all.subrange(0, i as int),
            objects == document_objects(*doc),
            out@.map_values(|s: String| s@) == option_texts(objects, all.subrange(i as int, all.len() as int)),
        decreases i,
    {
        let entry = rest.pop().unwrap();
        i = i - 1;
        let ghost tail_entries = all.subrange(i as int, all.len() as int);
        assert(tail_entries.subrange(1, tail_entries.len() as int) =~= all.subrange(i + 1, all.len() as int));
        assert(rest@ =~= all.subrange(0, i as int));
        let text = match resolve(doc, entry) {
            PdfObject::Array(pair) => {
                let mut pair = pair;
                match pair.pop() {
                    Some(last) => value_to_string(doc, last),
                    None => None,
                }
            },
            other => value_to_string(doc, other),
        };
        if let Some(text) = text {
            let ghost before = out@.map_values(|s: String| s@);
            out.insert(0, text);
            assert(out@.map_values(|s: String| s@) =~= seq![text@] + before);
        }
    }
    assert(all.subrange(0, all.len() as int) =~= all);
    out
}

/// The references in `items` whose target dictionary has (`with_title`) or
/// lacks a `/T` entry, in order.
pub open spec fn titled_kids(
    objects: Map<ObjectId, PdfObject>,
    items: Seq<PdfObject>,
    with_title: bool,
) -> Seq<ObjectId>
    decreases items.len(),
{
    if items.len() == 0 {
        Seq::empty()
    } else {
        let rest = titled_kids(objects, items.subrange(1, items.len() as int), with_title);
        match items[0] {
            PdfObject::Reference(kid) => match dict_of(objects, kid) {
                Some(dict) => if dict.lookup("T".spec_bytes()) is Some == with_title {
                    seq![kid] + rest
                } else {
                    rest
                },
                None => rest,
            },
            _ => rest,
        }
    }
}

/// A field's `/Kids`, resolved, as an array.
pub open spec fn kids_of(objects: Map<ObjectId, PdfObject>, field_id: ObjectId) -> Option<Seq<PdfObject>> {
    match dict_of(objects, field_id) {
        Some(dict) => match dict.lookup("Kids".spec_bytes()) {
            Some(kids) => match resolved(objects, kids) {
                PdfObject::Array(items) => Some(items@),
                _ => None,
            },
            None => None,
        },
        None => None,
    }
}

/// The kids that are fields themselves: those with a `/T` entry. Children
/// without one are widget annotations.
pub open spec fn spec_child_fields(objects: Map<ObjectId, PdfObject>, field_id: ObjectId) -> Seq<ObjectId> {
    match kids_of(objects, field_id) {
        Some(items) => titled_kids(objects, items, true),
        None => Seq::empty(),
    }
}

/// The references among `items` whose dictionary has (`with_title`) or lacks
/// `/T`.
fn titled_references(doc: &lopdf::Document, items: Vec<PdfObject>, with_title: bool) -> (r: Vec<ObjectId>)
    ensures
        r@ == titled_kids(document_objects(*doc), items@, with_title),
{
    let ghost objects = document_objects(*doc);
    let ghost all = items@;
    let mut out: Vec<ObjectId> = Vec::new();
    let mut k: usize = 0;
    assert(all.subrange(0, all.len() as int) =~= all);
    while k < items.len()
        invariant
            k <= items@.len(),
            all == items@,
            objects == document_objects(*doc),
            titled_kids(objects, all, with_title) == out@ + titled_kids(
                objects,
                all.subrange(k as int, all.len() as int),
                with_title,
            ),
        decreases items@.len() - k,
    {
        let ghost rest = all.subrange(k as int, all.len() as int);
        assert(rest.subrange(1, rest.len() as int) =~= all.subrange(k + 1, all.len() as int));
        if let PdfObject::Reference(kid) = &items[k] {
            let kid = *kid;
            if let Some(dict) = get_dictionary(doc, kid) {
                if dict.has("T".as_bytes()) == with_title {
                    let ghost before = out@;
                    out.push(kid);
                    assert(before + (seq![kid] + titled_kids(objects, all.subrange(k + 1, all.len() as int), with_title))
                        =~= out@ + titled_kids(objects, all.subrange(k + 1, all.len() as int), with_title));
                }
            }
        }
        k = k + 1;
    }
    assert(titled_kids(objects, all.subrange(k as int, all.len() as int), with_title) =~= Seq::<ObjectId>::empty());
    assert(out@ + Seq::<ObjectId>::empty() =~= out@);
    out
}

fn kids_array(doc: &lopdf::Document, field_id: ObjectId) -> (r: Option<Vec<PdfObject>>)
    ensures
        match r {
            Some(items) => kids_of(document_objects(*doc), field_id) == Some(items@),
            None => kids_of(document_objects(*doc), field_id) is None,
        },
{
    let dict = match get_dictionary(doc, field_id) {
        Some(dict) => dict,
        None => return None,
    };
    let kids = match dict.into_value("Kids".as_bytes()) {
        Some(kids) => kids,
        None => return None,
    };
    match resolve(doc, kids) {
        PdfObject::Array(items) => Some(items),
        _ => None,
    }
}

pub fn child_fields(doc: &lopdf::Document, field_id: ObjectId) -> (r: Vec<ObjectId>)
    ensures
        r@ == spec_child_fields(document_objects(*doc), field_id),
{
    match kids_array(doc, field_id) {
        Some(items) => titled_references(doc, items, true),
        None => Vec::new(),
    }
}

/// Widget annotations belonging to a terminal field: its kids without `/T`,
/// or, when there are none, the field itself if it has a `/Rect` — a field
/// with a single widget usually merges the two dictionaries.
pub open spec fn spec_field_widgets(objects: Map<ObjectId, PdfObject>, field_id: ObjectId) -> Seq<ObjectId> {
    match dict_of(objects, field_id) {
        None => Seq::empty(),
        Some(dict) => {
            let widgets = match kids_of(objects, field_id) {
                Some(items) => titled_kids(objects, items, false),
                None => Seq::empty(),
            };
            if widgets.len() > 0 {
                widgets
            } else if dict.lookup("Rect".spec_bytes()) is Some {
                seq![field_id]
            } else {
                Seq::empty()
            }
        },
    }
}

pub fn field_widgets(doc: &lopdf::Document, field_id: ObjectId) -> (r: Vec<ObjectId>)
    ensures
        r@ == spec_field_widgets(document_objects(*doc), field_id),
{
    let dict = match get_dictionary(doc, field_id) {
        Some(dict) => dict,
        None => return Vec::new(),
    };
    let widgets = match kids_array(doc, field_id) {
        Some(items) => titled_references(doc, items, false),
        None => Vec::new(),
    };
    if widgets.len() > 0 {
        return widgets;
    }
    let mut out: Vec<ObjectId> = Vec::new();
    if dict.has("Rect".as_bytes()) {
        out.push(field_id);
        assert(out@ =~= seq![field_id]);
    }
    out
}

/// A number object: `as_float` accepts integers and reals.
pub open spec fn is_number(object: PdfObject) -> bool {
    object is Integer || object is Real
}

/// A widget's `/Rect`, resolved: four numbers, each resolved. Turning them
/// into coordinates is left to the caller.
pub open spec fn spec_widget_rect(objects: Map<ObjectId, PdfObject>, widget_id: ObjectId) -> Option<Seq<PdfObject>> {
    match dict_of(objects, widget_id) {
        Some(dict) => match dict.lookup("Rect".spec_bytes()) {
            Some(rect) => match resolved(objects, rect) {
                PdfObject::Array(items) => {
                    let corners = items@.map_values(|item: PdfObject| resolved(objects, item));
                    if items@.len() == 4 && forall|i: int| 0 <= i < 4 ==> is_number(#[trigger] corners[i]) {
                        Some(corners)
                    } else {
                        None
                    }
                },
                _ => None,
            },
            None => None,
        },
        None => None,
    }
}

pub fn widget_rect(doc: &lopdf::Document, widget_id: ObjectId) -> (r: Option<Vec<PdfObject>>)
    ensures
        match r {
            Some(corners) => spec_widget_rect(document_objects(*doc), widget_id) == Some(corners@),
            None => spec_widget_rect(document_objects(*doc), widget_id) is None,
        },
{
    let ghost objects = document_objects(*doc);
    let dict = match get_dictionary(doc, widget_id) {
        Some(dict) => dict,
        None => return None,
    };
    let rect = match dict.into_value("Rect".as_bytes()) {
        Some(rect) => rect,
        None => return None,
    };
    let items = match resolve(doc, rect) {
        PdfObject::Array(items) => items,
        _ => return None,
    };
    if items.len() != 4 {
        return None;
    }
    let ghost all = items@;
    let ghost corners = all.map_values(|item: PdfObject| resolved(objects, item));
    let mut rest = items;
    let mut out: Vec<PdfObject> = Vec::new();
    let mut k: usize = 0;
    assert(spec_widget_rect(objects, widget_id) == if forall|i: int|
        0 <= i < 4 ==> is_number(#[trigger] corners[i]) {
        Some(corners)
    } else {
        None
    });
    while k < 4
        invariant
            k <= 4,
            all.len() == 4,
            spec_widget_rect(objects, widget_id) == if forall|i: int|
                0 <= i < 4 ==> is_number(#[trigger] corners[i]) {
                Some(corners)
            } else {
                None
            },
            objects == document_objects(*doc),
            corners == all.map_values(|item: PdfObject| resolved(objects, item)),
            rest@ == all.subrange(k as int, 4),
            out@ == corners.subrange(0, k as int),
            forall|i: int| 0 <= i < k ==> is_number(#[trigger] corners[i]),
        decreases 4 - k,
    {
        let ghost before = rest@;
        let item = rest.remove(0);
        assert(rest@ =~= all.subrange(k + 1, 4));
        assert(item == all[k as int]);
        let value = resolve(doc, item);
        let number = match value {
            PdfObject::Integer(_) | PdfObject::Real(_) => true,
            _ => false,
        };
        if !number {
            assert(!is_number(corners[k as int]));
            return None;
        }
        out.push(value);
        k = k + 1;
        assert(out@ =~= corners.subrange(0, k as int));
    }
    assert(corners.subrange(0, 4) =~= corners);
    Some(out)
}


/// The 0-based index a page id maps to: where it last stands in the page list,
/// as collecting `(id, index)` pairs into a map keeps the last.
pub open spec fn page_index_of(pages: Seq<ObjectId>, id: ObjectId) -> Option<usize>
    decreases pages.len(),
{
    if pages.len() == 0 {
        None
    } else if pages.last() == id {
        Some((pages.len() - 1) as usize)
    } else {
        page_index_of(pages.drop_last(), id)
    }
}

pub fn page_index(pages: &[ObjectId], id: ObjectId) -> (r: Option<usize>)
    ensures
        r == page_index_of(pages@, id),
{
    let mut n = pages.len();
    assert(pages@.subrange(0, n as int) =~= pages@);
    while n > 0
        invariant
            n <= pages@.len(),
            page_index_of(pages@, id) == page_index_of(pages@.subrange(0, n as int), id),
        decreases n,
    {
        let ghost head = pages@.subrange(0, n as int);
        assert(head.drop_last() =~= pages@.subrange(0, n - 1));
        if pages[n - 1].0 == id.0 && pages[n - 1].1 == id.1 {
            return Some(n - 1);
        }
        n = n - 1;
    }
    None
}

/// The page's `/Annots`, resolved, lists a reference to `widget_id`.
pub open spec fn annots_name(objects: Map<ObjectId, PdfObject>, page_id: ObjectId, widget_id: ObjectId) -> bool {
    match dict_of(objects, page_id) {
        Some(page) => match page.lookup("Annots".spec_bytes()) {
            Some(annots) => match resolved(objects, annots) {
                PdfObject::Array(items) => items@.contains(PdfObject::Reference(widget_id)),
                _ => false,
            },
            None => false,
        },
        None => false,
    }
}

/// The first page, from position `i` on, whose `/Annots` lists the widget.
pub open spec fn annotated_page_from(
    objects: Map<ObjectId, PdfObject>,
    pages: Seq<ObjectId>,
    widget_id: ObjectId,
    i: int,
) -> Option<usize>
    decreases pages.len() - i,
{
    if i < 0 || i >= pages.len() {
        None
    } else if annots_name(objects, pages[i], widget_id) {
        page_index_of(pages, pages[i])
    } else {
        annotated_page_from(objects, pages, widget_id, i + 1)
    }
}

/// The page a widget sits on: the one its `/P` names, if that is a page;
/// else a page whose `/Annots` lists it.
pub open spec fn spec_widget_page(objects: Map<ObjectId, PdfObject>, pages: Seq<ObjectId>, widget_id: ObjectId) -> Option<usize> {
    match dict_of(objects, widget_id) {
        None => None,
        Some(dict) => {
            let own = match dict.lookup("P".spec_bytes()) {
                Some(PdfObject::Reference(page)) => page_index_of(pages, page),
                _ => None,
            };
            match own {
                Some(index) => Some(index),
                None => annotated_page_from(objects, pages, widget_id, 0),
            }
        },
    }
}

/// Whether `items` holds a reference to `id`.
fn lists_reference(items: &Vec<PdfObject>, id: ObjectId) -> (r: bool)
    ensures
        r == items@.contains(PdfObject::Reference(id)),
{
    let mut k: usize = 0;
    while k < items.len()
        invariant
            k <= items@.len(),
            forall|j: int| 0 <= j < k ==> items@[j] != PdfObject::Reference(id),
        decreases items@.len() - k,
    {
        if let PdfObject::Reference(entry) = &items[k] {
            if entry.0 == id.0 && entry.1 == id.1 {
                assert(items@[k as int] == PdfObject::Reference(id));
                return true;
            }
        }
        k = k + 1;
    }
    false
}

fn page_lists_widget(doc: &lopdf::Document, page_id: ObjectId, widget_id: ObjectId) -> (r: bool)
    ensures
        r == annots_name(document_objects(*doc), page_id, widget_id),
{
    let page = match get_dictionary(doc, page_id) {
        Some(page) => page,
        None => return false,
    };
    let annots = match page.into_value("Annots".as_bytes()) {
        Some(annots) => annots,
        None => return false,
    };
    match resolve(doc, annots) {
        PdfObject::Array(items) => lists_reference(&items, widget_id),
        _ => false,
    }
}

/// The page a widget sits on. Pages are searched in page order when the
/// widget's own `/P` does not settle it.
pub fn widget_page(doc: &lopdf::Document, widget_id: ObjectId, pages: &[ObjectId]) -> (r: Option<usize>)
    ensures
        r == spec_widget_page(document_objects(*doc), pages@, widget_id),
{
    let ghost objects = document_objects(*doc);
    let dict = match get_dictionary(doc, widget_id) {
        Some(dict) => dict,
        None => return None,
    };
    if let Some(PdfObject::Reference(page)) = dict.get("P".as_bytes()) {
        if let Some(index) = page_index(pages, *page) {
            return Some(index);
        }
    }
    let mut i: usize = 0;
    while i < pages.len()
        invariant
            i <= pages@.len(),
            objects == document_objects(*doc),
            spec_widget_page(objects, pages@, widget_id) == annotated_page_from(
                objects,
                pages@,
                widget_id,
                0,
            ),
            annotated_page_from(objects, pages@, widget_id, 0) == annotated_page_from(
                objects,
                pages@,
                widget_id,
                i as int,
            ),
        decreases pages@.len() - i,
    {
        if page_lists_widget(doc, pages[i], widget_id) {
            return page_index(pages, pages[i]);
        }
        i = i + 1;
    }
    None
}


/// One terminal field as `list_fields` reports it.
pub struct FormField {
    /// Fully qualified name (`parent.child`), the identifier used to set values.
    pub name: String,
    pub kind: FieldKind,
    /// Current value rendered as text. `None` when unset.
    pub value: Option<String>,
    /// 0-based page the first widget sits on, if it could be resolved.
    pub page_index: Option<usize>,
    /// The first widget's `/Rect`: four numbers in PDF user space (origin
    /// bottom-left), in either corner order.
    pub rect: Option<Vec<PdfObject>>,
    pub read_only: bool,
    pub required: bool,
    pub multiline: bool,
    pub password: bool,
    pub max_length: Option<i64>,
    /// The text size operand of the field's appearance string (`0` means
    /// auto-size). `None` means the field declares no appearance.
    pub font_size: Option<String>,
    /// Selectable values: choice options, or a checkbox/radio's "on" states.
    pub options: Vec<String>,
}

/// A [`FormField`] as values.
pub struct FieldView {
    pub name: Seq<char>,
    pub kind: FieldKind,
    pub value: Option<Seq<char>>,
    pub page_index: Option<usize>,
    pub rect: Option<Seq<PdfObject>>,
    pub read_only: bool,
    pub required: bool,
    pub multiline: bool,
    pub password: bool,
    pub max_length: Option<i64>,
    pub font_size: Option<Seq<char>>,
    pub options: Seq<Seq<char>>,
}

pub open spec fn text_of(text: Option<String>) -> Option<Seq<char>> {
    match text {
        Some(t) => Some(t@),
        None => None,
    }
}

impl FormField {
    pub open spec fn view(&self) -> FieldView {
        FieldView {
            name: self.name@,
            kind: self.kind,
            value: text_of(self.value),
            page_index: self.page_index,
            rect: match self.rect {
                Some(corners) => Some(corners@),
                None => None,
            },
            read_only: self.read_only,
            required: self.required,
            multiline: self.multiline,
            password: self.password,
            max_length: self.max_length,
            font_size: text_of(self.font_size),
            options: self.options@.map_values(|o: String| o@),
        }
    }
}

/// The on-states of every widget, in widget order.
pub open spec fn all_on_states(objects: Map<ObjectId, PdfObject>, widgets: Seq<ObjectId>) -> Seq<Seq<char>>
    decreases widgets.len(),
{
    if widgets.len() == 0 {
        Seq::empty()
    } else {
        spec_on_states(objects, widgets[0]) + all_on_states(
            objects,
            widgets.subrange(1, widgets.len() as int),
        )
    }
}

/// A fully qualified name: the partial name under `prefix`, joined by `.`.
pub open spec fn qualified_name(prefix: Seq<char>, part: Option<Seq<char>>) -> Seq<char> {
    match part {
        Some(part) => if prefix.len() == 0 {
            part
        } else {
            prefix + "."@ + part
        },
        None => prefix,
    }
}

/// The field `list_fields` reports for the terminal field `field_id` named
/// `name`.
pub open spec fn terminal_field(
    objects: Map<ObjectId, PdfObject>,
    trailer: PdfDict,
    pages: Seq<ObjectId>,
    field_id: ObjectId,
    name: Seq<char>,
) -> FieldView {
    let kind = spec_classify(objects, field_id);
    let flags = spec_field_flags(objects, field_id);
    let widgets = spec_field_widgets(objects, field_id);
    FieldView {
        name: name,
        kind: kind,
        value: match spec_field_attr(objects, field_id, "V".spec_bytes()) {
            Some(value) => value_text(objects, value, VALUE_DEPTH as nat),
            None => None,
        },
        page_index: if widgets.len() > 0 {
            spec_widget_page(objects, pages, widgets[0])
        } else {
            None
        },
        rect: if widgets.len() > 0 {
            spec_widget_rect(objects, widgets[0])
        } else {
            None
        },
        read_only: flags & FLAG_READ_ONLY != 0,
        required: flags & FLAG_REQUIRED != 0,
        multiline: kind == FieldKind::Text && flags & FLAG_MULTILINE != 0,
        password: kind == FieldKind::Text && flags & FLAG_PASSWORD != 0,
        max_length: match spec_field_attr(objects, field_id, "MaxLen".spec_bytes()) {
            Some(PdfObject::Integer(max)) => Some(max),
            _ => None,
        },
        font_size: match spec_appearance_string(objects, trailer, field_id) {
            Some(appearance) => spec_font_size_token(appearance),
            None => None,
        },
        options: match kind {
            FieldKind::Choice => spec_choice_options(objects, field_id),
            FieldKind::Checkbox | FieldKind::Radio => all_on_states(objects, widgets),
            _ => Seq::empty(),
        },
    }
}

/// Every terminal field at or under `field_id`, in tree order, at most
/// [`MAX_FIELD_DEPTH`] levels below the roots.
pub open spec fn fields_under(
    objects: Map<ObjectId, PdfObject>,
    trailer: PdfDict,
    pages: Seq<ObjectId>,
    field_id: ObjectId,
    prefix: Seq<char>,
    depth: nat,
) -> Seq<FieldView>
    decreases MAX_FIELD_DEPTH + 1 - depth, 0nat,
{
    if depth > MAX_FIELD_DEPTH {
        Seq::empty()
    } else {
        let name = qualified_name(prefix, spec_partial_name(objects, field_id));
        let children = spec_child_fields(objects, field_id);
        if children.len() > 0 {
            fields_under_all(objects, trailer, pages, children, name, depth + 1)
        } else {
            seq![terminal_field(objects, trailer, pages, field_id, name)]
        }
    }
}

pub open spec fn fields_under_all(
    objects: Map<ObjectId, PdfObject>,
    trailer: PdfDict,
    pages: Seq<ObjectId>,
    fields: Seq<ObjectId>,
    prefix: Seq<char>,
    depth: nat,
) -> Seq<FieldView>
    decreases MAX_FIELD_DEPTH + 1 - depth, fields.len() + 1,
{
    if fields.len() == 0 || depth > MAX_FIELD_DEPTH + 1 {
        Seq::empty()
    } else {
        fields_under(objects, trailer, pages, fields[0], prefix, depth) + fields_under_all(
            objects,
            trailer,
            pages,
            fields.subrange(1, fields.len() as int),
            prefix,
            depth,
        )
    }
}

/// The references among the form's `/Fields` (resolved), in order.
pub open spec fn references_in(items: Seq<PdfObject>) -> Seq<ObjectId>
    decreases items.len(),
{
    if items.len() == 0 {
        Seq::empty()
    } else {
        let rest = references_in(items.subrange(1, items.len() as int));
        match items[0] {
            PdfObject::Reference(id) => seq![id] + rest,
            _ => rest,
        }
    }
}

/// The form's root fields, if the form has a `/Fields` array.
pub open spec fn root_fields(objects: Map<ObjectId, PdfObject>, trailer: PdfDict) -> Option<Seq<ObjectId>> {
    match acro_form(objects, trailer) {
        Some(form) => match form.lookup("Fields".spec_bytes()) {
            Some(fields) => match resolved(objects, fields) {
                PdfObject::Array(items) => Some(references_in(items@)),
                _ => None,
            },
            None => None,
        },
        None => None,
    }
}

/// Every terminal field of the form, in tree order.
pub open spec fn spec_list_fields(objects: Map<ObjectId, PdfObject>, trailer: PdfDict) -> Seq<FieldView> {
    match root_fields(objects, trailer) {
        Some(roots) => fields_under_all(
            objects,
            trailer,
            page_tree(objects, trailer),
            roots,
            Seq::empty(),
            0,
        ),
        None => Seq::empty(),
    }
}

fn reference_ids(items: Vec<PdfObject>) -> (r: Vec<ObjectId>)
    ensures
        r@ == references_in(items@),
{
    let ghost all = items@;
    let mut out: Vec<ObjectId> = Vec::new();
    let mut k: usize = 0;
    assert(all.subrange(0, all.len() as int) =~= all);
    while k < items.len()
        invariant
            k <= items@.len(),
            all == items@,
            references_in(all) == out@ + references_in(all.subrange(k as int, all.len() as int)),
        decreases items@.len() - k,
    {
        let ghost rest = all.subrange(k as int, all.len() as int);
        assert(rest.subrange(1, rest.len() as int) =~= all.subrange(k + 1, all.len() as int));
        if let PdfObject::Reference(id) = &items[k] {
            let ghost before = out@;
            out.push(*id);
            assert(before + (seq![*id] + references_in(all.subrange(k + 1, all.len() as int))) =~= out@
                + references_in(all.subrange(k + 1, all.len() as int)));
        }
        k = k + 1;
    }
    assert(references_in(all.subrange(k as int, all.len() as int)) =~= Seq::<ObjectId>::empty());
    assert(out@ + Seq::<ObjectId>::empty() =~= out@);
    out
}

pub fn form_root_fields(doc: &lopdf::Document) -> (r: Option<Vec<ObjectId>>)
    ensures
        match r {
            Some(roots) => root_fields(document_objects(*doc), document_trailer(*doc)) == Some(roots@),
            None => root_fields(document_objects(*doc), document_trailer(*doc)) is None,
        },
{
    let form = match acro_form_dict(doc) {
        Some(form) => form,
        None => return None,
    };
    let fields = match form.into_value("Fields".as_bytes()) {
        Some(fields) => fields,
        None => return None,
    };
    match resolve(doc, fields) {
        PdfObject::Array(items) => Some(reference_ids(items)),
        _ => None,
    }
}

fn qualify(prefix: &String, part: Option<String>) -> (r: String)
    ensures
        r@ == qualified_name(prefix@, text_of(part)),
{
    match part {
        Some(part) => {
            if chars_of(prefix.as_str()).len() == 0 {
                part
            } else {
                let mut name = prefix.clone();
                name.append(".");
                name.append(part.as_str());
                name
            }
        },
        None => prefix.clone(),
    }
}

fn terminal_form_field(doc: &lopdf::Document, pages: &[ObjectId], field_id: ObjectId, name: String) -> (r: FormField)
    ensures
        r.view() == terminal_field(
            document_objects(*doc),
            document_trailer(*doc),
            pages@,
            field_id,
            name@,
        ),
{
    let ghost objects = document_objects(*doc);
    let kind = classify(doc, field_id);
    let flags = field_flags(doc, field_id);
    let widgets = field_widgets(doc, field_id);
    let options = match kind {
        FieldKind::Choice => choice_options(doc, field_id),
        FieldKind::Checkbox | FieldKind::Radio => {
            let mut all: Vec<String> = Vec::new();
            let mut k: usize = 0;
            assert(widgets@.subrange(0, widgets@.len() as int) =~= widgets@);
            assert(all@.map_values(|s: String| s@) + all_on_states(objects, widgets@) =~= all_on_states(
                objects,
                widgets@,
            ));
            while k < widgets.len()
                invariant
                    k <= widgets@.len(),
                    objects == document_objects(*doc),
                    all_on_states(objects, widgets@) == all@.map_values(|s: String| s@) + all_on_states(
                        objects,
                        widgets@.subrange(k as int, widgets@.len() as int),
                    ),
                decreases widgets@.len() - k,
            {
                let ghost rest = widgets@.subrange(k as int, widgets@.len() as int);
                assert(rest.subrange(1, rest.len() as int) =~= widgets@.subrange(k + 1, widgets@.len() as int));
                let states = widget_on_states(doc, widgets[k]);
                let ghost before = all@.map_values(|s: String| s@);
                let mut j: usize = 0;
                while j < states.len()
                    invariant
                        j <= states@.len(),
                        all@.map_values(|s: String| s@) == before + states@.map_values(|s: String| s@).subrange(0, j as int),
                    decreases states@.len() - j,
                {
                    let ghost prev = all@;
                    all.push(states[j].clone());
                    assert(all@ == prev.push(states@[j as int]));
                    assert(all@.map_values(|s: String| s@) =~= prev.map_values(|s: String| s@).push(
                        states@[j as int]@,
                    ));
                    j = j + 1;
                    assert(states@.map_values(|s: String| s@).subrange(0, j as int) =~= states@.map_values(
                        |s: String| s@,
                    ).subrange(0, j - 1).push(states@[j - 1]@));
                    assert(all@.map_values(|s: String| s@) =~= before + states@.map_values(|s: String| s@).subrange(0, j as int));
                }
                assert(states@.map_values(|s: String| s@).subrange(0, states@.len() as int) =~= states@.map_values(|s: String| s@));
                assert(before + (spec_on_states(objects, widgets@[k as int]) + all_on_states(
                    objects,
                    widgets@.subrange(k + 1, widgets@.len() as int),
                )) =~= all@.map_values(|s: String| s@) + all_on_states(
                    objects,
                    widgets@.subrange(k + 1, widgets@.len() as int),
                ));
                k = k + 1;
            }
            assert(all_on_states(objects, widgets@.subrange(k as int, widgets@.len() as int)) =~= Seq::<Seq<char>>::empty());
            assert(all@.map_values(|s: String| s@) + Seq::<Seq<char>>::empty() =~= all@.map_values(|s: String| s@));
            all
        },
        _ => {
            let none: Vec<String> = Vec::new();
            assert(none@.map_values(|s: String| s@) =~= Seq::<Seq<char>>::empty());
            none
        },
    };
    let value = match field_attr(doc, field_id, "V".as_bytes()) {
        Some(value) => value_to_string(doc, value),
        None => None,
    };
    let page_index = if widgets.len() > 0 {
        widget_page(doc, widgets[0], pages)
    } else {
        None
    };
    let rect = if widgets.len() > 0 {
        widget_rect(doc, widgets[0])
    } else {
        None
    };
    let max_length = match field_attr(doc, field_id, "MaxLen".as_bytes()) {
        Some(PdfObject::Integer(max)) => Some(max),
        _ => None,
    };
    let font_size = match appearance_string(doc, field_id) {
        Some(appearance) => font_size_token(appearance.as_str()),
        None => None,
    };
    FormField {
        name,
        kind,
        value,
        page_index,
        rect,
        read_only: flags & FLAG_READ_ONLY != 0,
        required: flags & FLAG_REQUIRED != 0,
        multiline: kind == FieldKind::Text && flags & FLAG_MULTILINE != 0,
        password: kind == FieldKind::Text && flags & FLAG_PASSWORD != 0,
        max_length,
        font_size,
        options,
    }
}


pub open spec fn field_views(fields: Seq<FormField>) -> Seq<FieldView> {
    fields.map_values(|f: FormField| f.view())
}

fn collect_fields(
    doc: &lopdf::Document,
    field_id: ObjectId,
    prefix: String,
    pages: &[ObjectId],
    out: &mut Vec<FormField>,
    depth: usize,
)
    requires
        depth <= MAX_FIELD_DEPTH + 1,
    ensures
        field_views(final(out)@) == field_views(old(out)@) + fields_under(
            document_objects(*doc),
            document_trailer(*doc),
            pages@,
            field_id,
            prefix@,
            depth as nat,
        ),
    decreases MAX_FIELD_DEPTH + 1 - depth,
{
    let ghost objects = document_objects(*doc);
    let ghost trailer = document_trailer(*doc);
    if depth > MAX_FIELD_DEPTH {
        assert(field_views(out@) + Seq::<FieldView>::empty() =~= field_views(out@));
        return;
    }
    let name = qualify(&prefix, partial_name(doc, field_id));
    let children = child_fields(doc, field_id);
    if children.len() > 0 {
        let ghost start = field_views(out@);
        let mut k: usize = 0;
        assert(children@.subrange(0, children@.len() as int) =~= children@);
        while k < children.len()
            invariant
                k <= children@.len(),
                depth <= MAX_FIELD_DEPTH,
                objects == document_objects(*doc),
                trailer == document_trailer(*doc),
                start + fields_under_all(objects, trailer, pages@, children@, name@, (depth + 1) as nat)
                    == field_views(out@) + fields_under_all(
                    objects,
                    trailer,
                    pages@,
                    children@.subrange(k as int, children@.len() as int),
                    name@,
                    (depth + 1) as nat,
                ),
            decreases children@.len() - k,
        {
            let ghost rest = children@.subrange(k as int, children@.len() as int);
            assert(rest.subrange(1, rest.len() as int) =~= children@.subrange(k + 1, children@.len() as int));
            let ghost before = field_views(out@);
            collect_fields(doc, children[k], name.clone(), pages, out, depth + 1);
            assert(before + (fields_under(objects, trailer, pages@, rest[0], name@, (depth + 1) as nat)
                + fields_under_all(objects, trailer, pages@, rest.subrange(1, rest.len() as int), name@, (depth + 1) as nat))
                =~= field_views(out@) + fields_under_all(objects, trailer, pages@, rest.subrange(1, rest.len() as int), name@, (depth + 1) as nat));
            k = k + 1;
        }
        assert(fields_under_all(objects, trailer, pages@, children@.subrange(k as int, children@.len() as int), name@, (depth + 1) as nat)
            =~= Seq::<FieldView>::empty());
        assert(field_views(out@) + Seq::<FieldView>::empty() =~= field_views(out@));
        return;
    }
    let ghost before = out@;
    out.push(terminal_form_field(doc, pages, field_id, name));
    assert(field_views(out@) =~= field_views(before).push(out@.last().view()));
}

/// Enumerates every terminal field in the document, in tree order.
pub fn list_fields(doc: &lopdf::Document) -> (r: Vec<FormField>)
    ensures
        field_views(r@) == spec_list_fields(document_objects(*doc), document_trailer(*doc)),
{
    let ghost objects = document_objects(*doc);
    let ghost trailer = document_trailer(*doc);
    let mut out: Vec<FormField> = Vec::new();
    let roots = match form_root_fields(doc) {
        Some(roots) => roots,
        None => {
            assert(field_views(out@) =~= Seq::<FieldView>::empty());
            return out;
        },
    };
    let pages = page_ids(doc);
    let mut k: usize = 0;
    assert(roots@.subrange(0, roots@.len() as int) =~= roots@);
    assert(field_views(out@) + fields_under_all(objects, trailer, pages@, roots@, Seq::empty(), 0)
        =~= fields_under_all(objects, trailer, pages@, roots@, Seq::empty(), 0));
    while k < roots.len()
        invariant
            k <= roots@.len(),
            objects == document_objects(*doc),
            trailer == document_trailer(*doc),
            pages@ == page_tree(objects, trailer),
            fields_under_all(objects, trailer, pages@, roots@, Seq::empty(), 0) == field_views(out@)
                + fields_under_all(
                objects,
                trailer,
                pages@,
                roots@.subrange(k as int, roots@.len() as int),
                Seq::empty(),
                0,
            ),
        decreases roots@.len() - k,
    {
        let ghost rest = roots@.subrange(k as int, roots@.len() as int);
        assert(rest.subrange(1, rest.len() as int) =~= roots@.subrange(k + 1, roots@.len() as int));
        let ghost before = field_views(out@);
        let empty = String::new();
        collect_fields(doc, roots[k], empty, pages.as_slice(), &mut out, 0);
        assert(before + (fields_under(objects, trailer, pages@, rest[0], Seq::empty(), 0)
            + fields_under_all(objects, trailer, pages@, rest.subrange(1, rest.len() as int), Seq::empty(), 0))
            =~= field_views(out@) + fields_under_all(objects, trailer, pages@, rest.subrange(1, rest.len() as int), Seq::empty(), 0));
        k = k + 1;
    }
    assert(fields_under_all(objects, trailer, pages@, roots@.subrange(k as int, roots@.len() as int), Seq::empty(), 0)
        =~= Seq::<FieldView>::empty());
    assert(field_views(out@) + Seq::<FieldView>::empty() =~= field_views(out@));
    out
}

/// The terminal field at or under `field_id` whose qualified name is
/// `target`, searching in tree order at most [`MAX_FIELD_DEPTH`] levels down.
pub open spec fn search_from(
    objects: Map<ObjectId, PdfObject>,
    field_id: ObjectId,
    prefix: Seq<char>,
    target: Seq<char>,
    depth: nat,
) -> Option<ObjectId>
    decreases MAX_FIELD_DEPTH + 1 - depth, 0nat,
{
    if depth > MAX_FIELD_DEPTH {
        None
    } else {
        let name = qualified_name(prefix, spec_partial_name(objects, field_id));
        let children = spec_child_fields(objects, field_id);
        if children.len() == 0 {
            if name == target {
                Some(field_id)
            } else {
                None
            }
        } else {
            search_all(objects, children, name, target, depth + 1)
        }
    }
}

pub open spec fn search_all(
    objects: Map<ObjectId, PdfObject>,
    fields: Seq<ObjectId>,
    prefix: Seq<char>,
    target: Seq<char>,
    depth: nat,
) -> Option<ObjectId>
    decreases MAX_FIELD_DEPTH + 1 - depth, fields.len() + 1,
{
    if fields.len() == 0 || depth > MAX_FIELD_DEPTH + 1 {
        None
    } else {
        match search_from(objects, fields[0], prefix, target, depth) {
            Some(found) => Some(found),
            None => search_all(objects, fields.subrange(1, fields.len() as int), prefix, target, depth),
        }
    }
}

/// The terminal field named `name`, if the form has one.
pub open spec fn spec_find_field(objects: Map<ObjectId, PdfObject>, trailer: PdfDict, name: Seq<char>) -> Option<ObjectId> {
    match root_fields(objects, trailer) {
        Some(roots) => search_all(objects, roots, Seq::empty(), name, 0),
        None => None,
    }
}

fn search_field(
    doc: &lopdf::Document,
    field_id: ObjectId,
    prefix: String,
    target: &str,
    depth: usize,
) -> (r: Option<ObjectId>)
    requires
        depth <= MAX_FIELD_DEPTH + 1,
    ensures
        r == search_from(document_objects(*doc), field_id, prefix@, target@, depth as nat),
    decreases MAX_FIELD_DEPTH + 1 - depth,
{
    let ghost objects = document_objects(*doc);
    if depth > MAX_FIELD_DEPTH {
        return None;
    }
    let name = qualify(&prefix, partial_name(doc, field_id));
    let children = child_fields(doc, field_id);
    if children.len() == 0 {
        return if same_text_of(name.as_str(), target) {
            Some(field_id)
        } else {
            None
        };
    }
    let mut k: usize = 0;
    assert(children@.subrange(0, children@.len() as int) =~= children@);
    while k < children.len()
        invariant
            k <= children@.len(),
            depth <= MAX_FIELD_DEPTH,
            objects == document_objects(*doc),
            search_from(objects, field_id, prefix@, target@, depth as nat) == search_all(
                objects,
                children@,
                name@,
                target@,
                (depth + 1) as nat,
            ),
            search_all(objects, children@, name@, target@, (depth + 1) as nat) == search_all(
                objects,
                children@.subrange(k as int, children@.len() as int),
                name@,
                target@,
                (depth + 1) as nat,
            ),
        decreases children@.len() - k,
    {
        let ghost rest = children@.subrange(k as int, children@.len() as int);
        assert(rest.subrange(1, rest.len() as int) =~= children@.subrange(k + 1, children@.len() as int));
        if let Some(found) = search_field(doc, children[k], name.clone(), target, depth + 1) {
            return Some(found);
        }
        k = k + 1;
    }
    None
}

/// Locates a terminal field by fully qualified name.
pub fn find_field(doc: &lopdf::Document, name: &str) -> (r: Option<ObjectId>)
    ensures
        r == spec_find_field(document_objects(*doc), document_trailer(*doc), name@),
{
    let ghost objects = document_objects(*doc);
    let roots = match form_root_fields(doc) {
        Some(roots) => roots,
        None => return None,
    };
    let mut k: usize = 0;
    assert(roots@.subrange(0, roots@.len() as int) =~= roots@);
    while k < roots.len()
        invariant
            k <= roots@.len(),
            objects == document_objects(*doc),
            spec_find_field(objects, document_trailer(*doc), name@) == search_all(
                objects,
                roots@,
                Seq::empty(),
                name@,
                0,
            ),
            search_all(objects, roots@, Seq::empty(), name@, 0) == search_all(
                objects,
                roots@.subrange(k as int, roots@.len() as int),
                Seq::empty(),
                name@,
                0,
            ),
        decreases roots@.len() - k,
    {
        let ghost rest = roots@.subrange(k as int, roots@.len() as int);
        assert(rest.subrange(1, rest.len() as int) =~= roots@.subrange(k + 1, roots@.len() as int));
        if let Some(found) = search_field(doc, roots[k], String::new(), name, 0) {
            return Some(found);
        }
        k = k + 1;
    }
    None
}


/// `entries` and `other` hold the same values under every key but `key`.
pub open spec fn same_but(entries: Seq<(Seq<u8>, PdfObject)>, other: Seq<(Seq<u8>, PdfObject)>, key: Seq<u8>) -> bool {
    forall|k: Seq<u8>| k != key ==> entry_value(entries, k) == entry_value(other, k)
}

/// What `set_need_appearances(value)` does to the objects: sets
/// `/NeedAppearances` on the form the catalog's `/AcroForm` names, or inside
/// the catalog when the form is written there inline.
pub open spec fn need_appearances_set(
    before: Map<ObjectId, PdfObject>,
    after: Map<ObjectId, PdfObject>,
    catalog: PdfDict,
    catalog_id: ObjectId,
    value: bool,
) -> bool {
    match catalog.lookup("AcroForm".spec_bytes()) {
        Some(PdfObject::Reference(form_id)) => match dict_target(before, form_id) {
            Some((target, form)) => with_dict(
                before,
                after,
                target,
                set_entry(form@, "NeedAppearances".spec_bytes(), PdfObject::Boolean(value)),
            ),
            None => after == before,
        },
        Some(PdfObject::Dictionary(form)) => match dict_target(before, catalog_id) {
            Some((target, found)) => {
                &&& after.dom() == before.dom()
                &&& forall|id: ObjectId| id != target && #[trigger] before.contains_key(id) ==> after[id] == before[id]
                &&& after[target] matches PdfObject::Dictionary(updated) && updated@.len() == found@.len()
                    && same_but(updated@, found@, "AcroForm".spec_bytes()) && match updated.lookup("AcroForm".spec_bytes()) {
                    Some(PdfObject::Dictionary(inline)) => match found.lookup("AcroForm".spec_bytes()) {
                        Some(PdfObject::Dictionary(old_form)) => inline@ == set_entry(
                            old_form@,
                            "NeedAppearances".spec_bytes(),
                            PdfObject::Boolean(value),
                        ),
                        _ => false,
                    },
                    _ => false,
                }
            },
            None => after == before,
        },
        _ => after == before,
    }
}

/// Asks viewers to rebuild field appearances from their values.
pub fn set_need_appearances(doc: &mut lopdf::Document, value: bool) -> (r: AppResult<()>)
    ensures
        document_trailer(*final(doc)) == document_trailer(*old(doc)),
        document_max_id(*final(doc)) == document_max_id(*old(doc)),
        value_kept(document_objects(*old(doc)), document_objects(*final(doc))),
        entry_kept(document_objects(*old(doc)), document_objects(*final(doc)), "AS".spec_bytes()),
        entry_kept(document_objects(*old(doc)), document_objects(*final(doc)), "AP".spec_bytes()),
        match catalog_ref(document_trailer(*old(doc))) {
            None => *final(doc) == *old(doc) && invalid_input(r, "Document has no /Root catalog."@),
            Some(catalog_id) => match dict_of(document_objects(*old(doc)), catalog_id) {
                None => *final(doc) == *old(doc) && pdf_error(r),
                Some(catalog) => r is Ok && need_appearances_set(
                    document_objects(*old(doc)),
                    document_objects(*final(doc)),
                    catalog,
                    catalog_id,
                    value,
                ),
            },
        },
{
    broadcast use crate::pdf::object::lemma_lookup_after_set;

    let ghost objects = document_objects(*doc);
    proof {
        lemma_field_keys();
        reveal_strlit("V");
        assert(value_kept(objects, objects));
        lemma_entry_kept_refl(objects, "AS".spec_bytes());
        lemma_entry_kept_refl(objects, "AP".spec_bytes());
    }
    let catalog_id = catalog_id(doc)?;
    let catalog = match get_dictionary(doc, catalog_id) {
        Some(catalog) => catalog,
        None => {
            proof {
                lemma_dict_of_target(objects, catalog_id);
            }
            return Err(AppError::Pdf(dictionary_error(doc, catalog_id)));
        },
    };
    let ghost catalog_view = catalog;
    match catalog.into_value("AcroForm".as_bytes()) {
        Some(PdfObject::Reference(form_id)) => {
            if let Some((target, mut form)) = dict_for_update(doc, form_id) {
                form.set(key("NeedAppearances"), PdfObject::Boolean(value));
                proof {
                    crate::pdf::document::lemma_target_stored(objects, form_id);
                    lemma_value_kept_after_store(objects, target, form);
                    lemma_entry_kept_after_store(objects, target, form, "AS".spec_bytes());
                    lemma_entry_kept_after_store(objects, target, form, "AP".spec_bytes());
                }
                put_object(doc, target, PdfObject::Dictionary(form));
            }
            assert(need_appearances_set(objects, document_objects(*doc), catalog_view, catalog_id, value));
        },
        Some(PdfObject::Dictionary(_)) => {
            proof {
                lemma_dict_of_target(objects, catalog_id);
                crate::pdf::document::lemma_target_stored(objects, catalog_id);
            }
            if let Some((target, mut found)) = dict_for_update(doc, catalog_id) {
                let ghost found_view = found;
                match found.take_value("AcroForm".as_bytes()) {
                    Some(PdfObject::Dictionary(mut form)) => {
                        let ghost old_form = form;
                        form.set(key("NeedAppearances"), PdfObject::Boolean(value));
                        let ghost taken = found;
                        found.set(key("AcroForm"), PdfObject::Dictionary(form));
                        proof {
                            lemma_same_after_replacing(found_view@, taken@, found@, "AcroForm".spec_bytes(),
                                PdfObject::Dictionary(form));
                            assert(entry_value(found@, "V".spec_bytes()) == entry_value(taken@, "V".spec_bytes()));
                            lemma_value_kept_after_store(objects, target, found);
                            assert(entry_value(found@, "AS".spec_bytes()) == entry_value(found_view@, "AS".spec_bytes()));
                            assert(entry_value(found@, "AP".spec_bytes()) == entry_value(found_view@, "AP".spec_bytes()));
                            lemma_entry_kept_after_store(objects, target, found, "AS".spec_bytes());
                            lemma_entry_kept_after_store(objects, target, found, "AP".spec_bytes());
                        }
                        put_object(doc, target, PdfObject::Dictionary(found));
                        assert(found_view == catalog_view);
                        assert(found_view.lookup("AcroForm".spec_bytes()) == Some(PdfObject::Dictionary(old_form)));
                        assert(found.lookup("AcroForm".spec_bytes()) == Some(PdfObject::Dictionary(form)));
                        assert(document_objects(*doc).dom() =~= objects.dom());
                        assert(document_objects(*doc)[target] == PdfObject::Dictionary(found));
                        assert(need_appearances_set(objects, document_objects(*doc), catalog_view, catalog_id, value));
                    },
                    _ => {},
                }
            }
            assert(need_appearances_set(objects, document_objects(*doc), catalog_view, catalog_id, value));
        },
        _ => {
            assert(need_appearances_set(objects, document_objects(*doc), catalog_view, catalog_id, value));
        },
    }
    Ok(())
}

/// Taking a present key's value out and setting another under it keeps every
/// other entry, the length, and reads back the new value.
pub proof fn lemma_same_after_replacing(
    original: Seq<(Seq<u8>, PdfObject)>,
    taken: Seq<(Seq<u8>, PdfObject)>,
    after: Seq<(Seq<u8>, PdfObject)>,
    key: Seq<u8>,
    value: PdfObject,
)
    requires
        entry_value(original, key) is Some,
        taken == set_entry(original, key, PdfObject::Null),
        after == set_entry(taken, key, value),
    ensures
        after.len() == original.len(),
        same_but(after, original, key),
        entry_value(after, key) == Some(value),
{
    crate::pdf::object::lemma_key_index(original, key);
    let i = crate::pdf::object::key_index(original, key).unwrap();
    assert(taken[i].0 == key);
    crate::pdf::object::lemma_key_index(taken, key);
    assert forall|k: Seq<u8>| k != key implies entry_value(after, k) == entry_value(original, k) by {
        crate::pdf::object::lemma_set_entry_keeps_others(original, key, PdfObject::Null, k);
        crate::pdf::object::lemma_set_entry_keeps_others(taken, key, value, k);
    }
    crate::pdf::object::lemma_set_entry_reads_back(taken, key, value);
}


/// The inputs that clear a checkbox or radio group: `""`, `"Off"` and
/// `"false"`; anything else ticks a checkbox.
pub open spec fn is_off_value(value: Seq<char>) -> bool {
    value == ""@ || value == "Off"@ || value == "false"@
}

/// The state a checkbox or radio group is set to for `value`: `Off` for the
/// clearing inputs; for a radio, the matching export value (`None` when no
/// widget offers it); for a checkbox, its first on-state, or `On`.
pub open spec fn button_state(kind: FieldKind, value: Seq<char>, states: Seq<Seq<char>>) -> Option<Seq<char>> {
    if is_off_value(value) {
        Some("Off"@)
    } else if kind == FieldKind::Radio {
        if states.contains(value) {
            Some(value)
        } else {
            None
        }
    } else if states.len() > 0 {
        Some(states[0])
    } else {
        Some("On"@)
    }
}

pub open spec fn quoted(text: Seq<char>) -> Seq<char> {
    "\""@ + text + "\""@
}

pub open spec fn read_only_message(name: Seq<char>) -> Seq<char> {
    "Field "@ + quoted(name) + " is read-only."@
}

pub open spec fn unrecognized_message(name: Seq<char>) -> Seq<char> {
    "Field "@ + quoted(name) + " has an unrecognized type."@
}

pub open spec fn invalid_option_message(value: Seq<char>, name: Seq<char>, states: Seq<Seq<char>>) -> Seq<char> {
    quoted(value) + " is not a valid option for "@ + quoted(name) + ". Valid: "@ + if states.len() == 0 {
        "<none found>"@
    } else {
        joined(states, ", "@)
    }
}

fn quote(text: &str) -> (r: String)
    ensures
        r@ == quoted(text@),
{
    let mut out = String::from_str("\"");
    out.append(text);
    out.append("\"");
    out
}

/// The contract's `is_off_value`, computed.
fn clears(value: &str) -> (r: bool)
    ensures
        r == is_off_value(value@),
{
    same_text_of(value, "") || same_text_of(value, "Off") || same_text_of(value, "false")
}

/// Whether `states` holds `value`.
fn holds_state(states: &Vec<String>, value: &str) -> (r: bool)
    ensures
        r == states@.map_values(|s: String| s@).contains(value@),
{
    let ghost all = states@.map_values(|s: String| s@);
    let mut k: usize = 0;
    while k < states.len()
        invariant
            k <= states@.len(),
            all == states@.map_values(|s: String| s@),
            forall|j: int| 0 <= j < k ==> all[j] != value@,
        decreases states@.len() - k,
    {
        if same_text_of(states[k].as_str(), value) {
            assert(all[k as int] == value@);
            return true;
        }
        k = k + 1;
    }
    false
}

/// Every dictionary lookup that succeeded in `before` succeeds in `after`.
pub open spec fn dicts_kept(before: Map<ObjectId, PdfObject>, after: Map<ObjectId, PdfObject>) -> bool {
    forall|id: ObjectId| #[trigger] dict_of(before, id) is Some ==> dict_of(after, id) is Some
}

/// The dictionary a lookup found.
pub open spec fn found_dict(found: Option<(ObjectId, PdfDict)>) -> PdfDict {
    match found {
        Some((_, dict)) => dict,
        None => arbitrary(),
    }
}

/// Every dictionary lookup that succeeded still does, at the same place, and
/// what it finds holds the same `/V`.
pub open spec fn value_kept(before: Map<ObjectId, PdfObject>, after: Map<ObjectId, PdfObject>) -> bool {
    forall|id: ObjectId| #[trigger] dict_target(before, id) is Some ==> {
        &&& dict_target(after, id) is Some
        &&& crate::pdf::document::found_at(dict_target(after, id)) == crate::pdf::document::found_at(dict_target(before, id))
        &&& found_dict(dict_target(after, id)).lookup("V".spec_bytes()) == found_dict(dict_target(before, id)).lookup(
            "V".spec_bytes(),
        )
    }
}

/// Storing back, where it was found, a dictionary with the same `/V` keeps
/// every lookup and every `/V`.
proof fn lemma_value_kept_after_store(before: Map<ObjectId, PdfObject>, at: ObjectId, replacement: PdfDict)
    requires
        before.contains_key(at),
        before[at] is Dictionary,
        replacement.lookup("V".spec_bytes()) == before[at]->Dictionary_0.lookup("V".spec_bytes()),
    ensures
        value_kept(before, before.insert(at, PdfObject::Dictionary(replacement))),
{
    assert forall|id: ObjectId| #[trigger] dict_target(before, id) is Some implies {
        &&& dict_target(before.insert(at, PdfObject::Dictionary(replacement)), id) is Some
        &&& crate::pdf::document::found_at(dict_target(before.insert(at, PdfObject::Dictionary(replacement)), id))
            == crate::pdf::document::found_at(dict_target(before, id))
        &&& found_dict(dict_target(before.insert(at, PdfObject::Dictionary(replacement)), id)).lookup(
            "V".spec_bytes(),
        ) == found_dict(dict_target(before, id)).lookup("V".spec_bytes())
    } by {
        crate::pdf::document::lemma_dict_target_after_replace(before, id, at, replacement);
        crate::pdf::document::lemma_target_stored(before, id);
    }
}

/// Value lookups kept across two steps are kept across both.
proof fn lemma_value_kept_trans(
    a: Map<ObjectId, PdfObject>,
    b: Map<ObjectId, PdfObject>,
    c: Map<ObjectId, PdfObject>,
)
    requires
        value_kept(a, b),
        value_kept(b, c),
    ensures
        value_kept(a, c),
{
    assert forall|id: ObjectId| #[trigger] dict_target(a, id) is Some implies {
        &&& dict_target(c, id) is Some
        &&& crate::pdf::document::found_at(dict_target(c, id)) == crate::pdf::document::found_at(dict_target(a, id))
        &&& found_dict(dict_target(c, id)).lookup("V".spec_bytes()) == found_dict(dict_target(a, id)).lookup(
            "V".spec_bytes(),
        )
    } by {
        assert(dict_target(b, id) is Some);
    }
}

/// Every dictionary lookup that succeeded still does, at the same place, and
/// what it finds holds the same entry under `key`.
pub open spec fn entry_kept(before: Map<ObjectId, PdfObject>, after: Map<ObjectId, PdfObject>, key: Seq<u8>) -> bool {
    forall|id: ObjectId| #[trigger] dict_target(before, id) is Some ==> {
        &&& dict_target(after, id) is Some
        &&& crate::pdf::document::found_at(dict_target(after, id)) == crate::pdf::document::found_at(dict_target(before, id))
        &&& found_dict(dict_target(after, id)).lookup(key) == found_dict(dict_target(before, id)).lookup(key)
    }
}

/// Storing back, where it was found, a dictionary with the same entry under
/// `key` keeps every lookup and every such entry.
proof fn lemma_entry_kept_after_store(
    before: Map<ObjectId, PdfObject>,
    at: ObjectId,
    replacement: PdfDict,
    key: Seq<u8>,
)
    requires
        before.contains_key(at),
        before[at] is Dictionary,
        replacement.lookup(key) == before[at]->Dictionary_0.lookup(key),
    ensures
        entry_kept(before, before.insert(at, PdfObject::Dictionary(replacement)), key),
{
    assert forall|id: ObjectId| #[trigger] dict_target(before, id) is Some implies {
        &&& dict_target(before.insert(at, PdfObject::Dictionary(replacement)), id) is Some
        &&& crate::pdf::document::found_at(dict_target(before.insert(at, PdfObject::Dictionary(replacement)), id))
            == crate::pdf::document::found_at(dict_target(before, id))
        &&& found_dict(dict_target(before.insert(at, PdfObject::Dictionary(replacement)), id)).lookup(key)
            == found_dict(dict_target(before, id)).lookup(key)
    } by {
        crate::pdf::document::lemma_dict_target_after_replace(before, id, at, replacement);
        crate::pdf::document::lemma_target_stored(before, id);
    }
}

/// Entries kept across two steps are kept across both.
proof fn lemma_entry_kept_trans(
    a: Map<ObjectId, PdfObject>,
    b: Map<ObjectId, PdfObject>,
    c: Map<ObjectId, PdfObject>,
    key: Seq<u8>,
)
    requires
        entry_kept(a, b, key),
        entry_kept(b, c, key),
    ensures
        entry_kept(a, c, key),
{
    assert forall|id: ObjectId| #[trigger] dict_target(a, id) is Some implies {
        &&& dict_target(c, id) is Some
        &&& crate::pdf::document::found_at(dict_target(c, id)) == crate::pdf::document::found_at(dict_target(a, id))
        &&& found_dict(dict_target(c, id)).lookup(key) == found_dict(dict_target(a, id)).lookup(key)
    } by {
        assert(dict_target(b, id) is Some);
    }
}

/// Nothing changed keeps every entry.
proof fn lemma_entry_kept_refl(a: Map<ObjectId, PdfObject>, key: Seq<u8>)
    ensures
        entry_kept(a, a, key),
{
}

/// A map that `with_dict` describes is the earlier one with the dictionary
/// stored at `target`.
proof fn lemma_with_dict_is_insert(
    before: Map<ObjectId, PdfObject>,
    after: Map<ObjectId, PdfObject>,
    target: ObjectId,
    entries: Seq<(Seq<u8>, PdfObject)>,
)
    requires
        before.contains_key(target),
        with_dict(before, after, target, entries),
    ensures
        after == before.insert(target, after[target]),
        after[target] is Dictionary,
        after[target]->Dictionary_0@ == entries,
{
    assert(after =~= before.insert(target, after[target]));
}

/// Each widget of a button field resolves to a dictionary whose appearances
/// are written in it: `/AP`, where there is one, is a dictionary, and so is
/// its `/N`.
#[verifier::opaque]
pub open spec fn appearances_inline(objects: Map<ObjectId, PdfObject>, widgets: Seq<ObjectId>) -> bool {
    forall|j: int|
        0 <= j < widgets.len() ==> match #[trigger] dict_of(objects, widgets[j]) {
            Some(widget) => match widget.lookup("AP".spec_bytes()) {
                Some(PdfObject::Dictionary(appearance)) => match appearance.lookup("N".spec_bytes()) {
                    Some(normal) => normal is Dictionary,
                    None => true,
                },
                Some(_) => false,
                None => true,
            },
            None => false,
        }
}

/// Each widget shows, as its `/AS`, the state `target` where it offers it and
/// `Off` where it does not.
#[verifier::opaque]
pub open spec fn widgets_show(
    before: Map<ObjectId, PdfObject>,
    after: Map<ObjectId, PdfObject>,
    widgets: Seq<ObjectId>,
    target: Seq<char>,
) -> bool {
    forall|j: int|
        0 <= j < widgets.len() ==> is_name(
            found_dict(#[trigger] dict_target(after, widgets[j])).lookup("AS".spec_bytes()),
            shown_state(spec_on_states(before, widgets[j]), target),
        )
}

/// A widget whose appearances are written in it offers the same states while
/// its `/AP` entry is kept.
proof fn lemma_on_states_kept(a: Map<ObjectId, PdfObject>, b: Map<ObjectId, PdfObject>, widget: ObjectId)
    requires
        dict_target(a, widget) is Some,
        dict_target(b, widget) is Some,
        found_dict(dict_target(b, widget)).lookup("AP".spec_bytes()) == found_dict(dict_target(a, widget)).lookup(
            "AP".spec_bytes(),
        ),
        match found_dict(dict_target(a, widget)).lookup("AP".spec_bytes()) {
            Some(PdfObject::Dictionary(appearance)) => match appearance.lookup("N".spec_bytes()) {
                Some(normal) => normal is Dictionary,
                None => true,
            },
            Some(_) => false,
            None => true,
        },
    ensures
        spec_on_states(b, widget) == spec_on_states(a, widget),
{
    crate::pdf::document::lemma_dict_of_target(a, widget);
    crate::pdf::document::lemma_dict_of_target(b, widget);
}

/// Widgets `0..=k` show their states once widget `k` is shown, where the
/// earlier ones already did and the widgets' appearances are written in them.
proof fn lemma_show_step(
    objects: Map<ObjectId, PdfObject>,
    cur: Map<ObjectId, PdfObject>,
    next: Map<ObjectId, PdfObject>,
    widgets: Seq<ObjectId>,
    k: int,
    target: Seq<char>,
)
    requires
        0 <= k < widgets.len(),
        appearances_inline(objects, widgets),
        entry_kept(objects, cur, "AP".spec_bytes()),
        entry_kept(cur, next, "AP".spec_bytes()),
        forall|j: int|
            0 <= j < k ==> is_name(
                found_dict(#[trigger] dict_target(cur, widgets[j])).lookup("AS".spec_bytes()),
                shown_state(spec_on_states(objects, widgets[j]), target),
            ),
        match dict_target(cur, widgets[k]) {
            None => next == cur,
            Some((at, widget)) => exists|state: Vec<u8>|
                state@ == shown_state(spec_on_states(cur, widgets[k]), target) && #[trigger] with_dict(
                    cur,
                    next,
                    at,
                    set_entry(widget@, "AS".spec_bytes(), PdfObject::Name(state)),
                ),
        },
    ensures
        entry_kept(objects, next, "AP".spec_bytes()),
        forall|j: int|
            0 <= j <= k ==> is_name(
                found_dict(#[trigger] dict_target(next, widgets[j])).lookup("AS".spec_bytes()),
                shown_state(spec_on_states(objects, widgets[j]), target),
            ),
{
    broadcast use crate::pdf::object::lemma_lookup_after_set;

    reveal(appearances_inline);
    lemma_entry_kept_trans(objects, cur, next, "AP".spec_bytes());
    let w = widgets[k];
    assert(dict_of(objects, widgets[k]) is Some);
    crate::pdf::document::lemma_dict_of_target(objects, w);
    assert(dict_target(objects, w) is Some);
    assert(dict_target(cur, w) is Some);
    let (at, widget) = dict_target(cur, w)->0;
    let state = choose|state: Vec<u8>|
        state@ == shown_state(spec_on_states(cur, w), target) && #[trigger] with_dict(
            cur,
            next,
            at,
            set_entry(widget@, "AS".spec_bytes(), PdfObject::Name(state)),
        );
    crate::pdf::document::lemma_target_stored(cur, w);
    lemma_with_dict_is_insert(cur, next, at, set_entry(widget@, "AS".spec_bytes(), PdfObject::Name(state)));
    let d = next[at]->Dictionary_0;
    assert(d.lookup("AS".spec_bytes()) == Some(PdfObject::Name(state)));
    lemma_on_states_kept(objects, cur, w);
    crate::pdf::document::lemma_target_stored(objects, w);
    assert forall|j: int| 0 <= j <= k implies is_name(
        found_dict(#[trigger] dict_target(next, widgets[j])).lookup("AS".spec_bytes()),
        shown_state(spec_on_states(objects, widgets[j]), target),
    ) by {
        let v = widgets[j];
        assert(dict_of(objects, widgets[j]) is Some);
        crate::pdf::document::lemma_dict_of_target(objects, v);
        assert(dict_target(cur, v) is Some);
        crate::pdf::document::lemma_dict_target_after_replace(cur, v, at, d);
        if crate::pdf::document::found_at(dict_target(cur, v)) == at {
            crate::pdf::document::lemma_target_stored(objects, v);
            assert(dict_of(objects, v) == dict_of(objects, w));
        }
    }
}

/// The state a widget offering `states` shows for `target`: the target when
/// it offers it, else `Off`.
pub open spec fn shown_state(states: Seq<Seq<char>>, target: Seq<char>) -> Seq<u8> {
    if states.contains(target) {
        vstd::utf8::encode_utf8(target)
    } else {
        "Off".spec_bytes()
    }
}

/// Sets `name` as the value `/AS` of one widget shows: the target state if the
/// widget offers it, else `Off`.
fn show_state(doc: &mut lopdf::Document, widget_id: ObjectId, target: &String)
    ensures
        dicts_kept(document_objects(*old(doc)), document_objects(*final(doc))),
        entry_kept(document_objects(*old(doc)), document_objects(*final(doc)), "AP".spec_bytes()),
        value_kept(document_objects(*old(doc)), document_objects(*final(doc))),
        document_trailer(*final(doc)) == document_trailer(*old(doc)),
        document_max_id(*final(doc)) == document_max_id(*old(doc)),
        match dict_target(document_objects(*old(doc)), widget_id) {
            None => *final(doc) == *old(doc),
            Some((at, widget)) => exists|state: Vec<u8>|
                state@ == shown_state(spec_on_states(document_objects(*old(doc)), widget_id), target@)
                    && #[trigger] with_dict(
                    document_objects(*old(doc)),
                    document_objects(*final(doc)),
                    at,
                    set_entry(widget@, "AS".spec_bytes(), PdfObject::Name(state)),
                ),
        },
{
    broadcast use crate::pdf::object::lemma_lookup_after_set;

    let ghost before = document_objects(*doc);
    let widget_states = widget_on_states(doc, widget_id);
    let state = if holds_state(&widget_states, target.as_str()) {
        PdfObject::Name(copy_bytes(target.as_str().as_bytes()))
    } else {
        PdfObject::Name(key("Off"))
    };
    if let Some((found, mut widget)) = dict_for_update(doc, widget_id) {
        let ghost original = widget;
        let ghost state_object = state;
        widget.set(key("AS"), state);
        proof {
            crate::pdf::document::lemma_target_stored(before, widget_id);
            assert forall|id: ObjectId| #[trigger] dict_of(before, id) is Some implies dict_of(
                before.insert(found, PdfObject::Dictionary(widget)),
                id,
            ) is Some by {
                crate::pdf::document::lemma_dicts_stay(before, found, widget, id);
            }
            lemma_field_keys();
            reveal_strlit("AS");
            assert(entry_value(widget@, "V".spec_bytes()) == entry_value(original@, "V".spec_bytes()));
            lemma_value_kept_after_store(before, found, widget);
            assert(widget.lookup("AP".spec_bytes()) == original.lookup("AP".spec_bytes()));
            lemma_entry_kept_after_store(before, found, widget, "AP".spec_bytes());
        }
        put_object(doc, found, PdfObject::Dictionary(widget));
        proof {
            let written = state_object->Name_0;
            assert(with_dict(before, document_objects(*doc), found, set_entry(original@, "AS".spec_bytes(), PdfObject::Name(written))));
        }
    } else {
        proof {
            lemma_entry_kept_refl(before, "AP".spec_bytes());
        }
    }
}

/// The dictionary `field` resolves to holds, as its `/V`, `value` written as
/// a text string.
pub open spec fn text_filled(objects: Map<ObjectId, PdfObject>, field: ObjectId, value: Seq<char>) -> bool {
    &&& dict_target(objects, field) is Some
    &&& is_text(found_dict(dict_target(objects, field)).lookup("V".spec_bytes()), chars_to_pdf_text(value))
}

/// The value `list_fields` reports for the terminal field `field`.
pub open spec fn field_value(objects: Map<ObjectId, PdfObject>, field: ObjectId) -> Option<Seq<char>> {
    match spec_field_attr(objects, field, "V".spec_bytes()) {
        Some(value) => value_text(objects, value, VALUE_DEPTH as nat),
        None => None,
    }
}

/// What is written is what is read: once `set_field_value` has filled a text
/// or choice field, the value `list_fields` reports for that field is the
/// text that was written, character for character. (A Latin-1 text that
/// begins with `þÿ` is written byte for byte and then reads as UTF-16.)
pub proof fn law_a_filled_value_reads_back(objects: Map<ObjectId, PdfObject>, field: ObjectId, value: Seq<char>)
    requires
        text_filled(objects, field, value),
        !mistaken_for_utf16(value),
    ensures
        field_value(objects, field) == Some(value),
{
    lemma_dict_of_target(objects, field);
    law_pdf_text_round_trips(value);
    let text = found_dict(dict_target(objects, field)).lookup("V".spec_bytes())->0;
    assert(resolved(objects, text) == text);
    assert(spec_field_attr(objects, field, "V".spec_bytes()) == Some(text));
}

/// Has each widget show `target` as its `/AS` where it offers it and `Off`
/// where it does not, then asks viewers to rebuild appearances. `objects` is
/// the document as it was before the field's value was written, which only
/// the `/V` differs from.
fn show_button_states(
    doc: &mut lopdf::Document,
    widgets: &Vec<ObjectId>,
    target: &String,
    Ghost(objects): Ghost<Map<ObjectId, PdfObject>>,
)
    requires
        dicts_kept(objects, document_objects(*old(doc))),
        entry_kept(objects, document_objects(*old(doc)), "AP".spec_bytes()),
        catalog_ref(document_trailer(*old(doc))) is Some,
        dict_of(objects, catalog_ref(document_trailer(*old(doc)))->0) is Some,
    ensures
        value_kept(document_objects(*old(doc)), document_objects(*final(doc))),
        document_trailer(*final(doc)) == document_trailer(*old(doc)),
        document_max_id(*final(doc)) == document_max_id(*old(doc)),
        appearances_inline(objects, widgets@) ==> widgets_show(objects, document_objects(*final(doc)), widgets@, target@),
{
    let ghost start = document_objects(*doc);
    let ghost trailer = document_trailer(*doc);
    let ghost inline = appearances_inline(objects, widgets@);
    proof {
        assert(value_kept(start, start));
        assert forall|j: int| 0 <= j < 0 implies is_name(
            found_dict(#[trigger] dict_target(start, widgets@[j])).lookup("AS".spec_bytes()),
            shown_state(spec_on_states(objects, widgets@[j]), target@),
        ) by {}
    }
    // /AS selects which appearance state each widget displays. For a
    // radio group only the matching widget turns on.
    let mut k: usize = 0;
    while k < widgets.len()
        invariant
            k <= widgets@.len(),
            inline == appearances_inline(objects, widgets@),
            dicts_kept(objects, document_objects(*doc)),
            dicts_kept(start, document_objects(*doc)),
            value_kept(start, document_objects(*doc)),
            entry_kept(objects, document_objects(*doc), "AP".spec_bytes()),
            inline ==> forall|j: int|
                0 <= j < k ==> is_name(
                    found_dict(#[trigger] dict_target(document_objects(*doc), widgets@[j])).lookup("AS".spec_bytes()),
                    shown_state(spec_on_states(objects, widgets@[j]), target@),
                ),
            document_trailer(*doc) == trailer,
            document_max_id(*doc) == document_max_id(*old(doc)),
        decreases widgets@.len() - k,
    {
        let ghost current = document_objects(*doc);
        show_state(doc, widgets[k], target);
        proof {
            lemma_value_kept_trans(start, current, document_objects(*doc));
            if inline {
                lemma_show_step(objects, current, document_objects(*doc), widgets@, k as int, target@);
            } else {
                lemma_entry_kept_trans(objects, current, document_objects(*doc), "AP".spec_bytes());
            }
        }
        k = k + 1;
    }
    let ghost shown = document_objects(*doc);
    let done = set_need_appearances(doc, true);
    assert(done is Ok);
    proof {
        lemma_value_kept_trans(start, shown, document_objects(*doc));
        if inline {
            reveal(appearances_inline);
            reveal(widgets_show);
            let after = document_objects(*doc);
            assert forall|j: int| 0 <= j < widgets@.len() implies is_name(
                found_dict(#[trigger] dict_target(after, widgets@[j])).lookup("AS".spec_bytes()),
                shown_state(spec_on_states(objects, widgets@[j]), target@),
            ) by {
                assert(dict_of(objects, widgets@[j]) is Some);
                crate::pdf::document::lemma_dict_of_target(objects, widgets@[j]);
                assert(dict_target(shown, widgets@[j]) is Some);
                assert(is_name(
                    found_dict(dict_target(shown, widgets@[j])).lookup("AS".spec_bytes()),
                    shown_state(spec_on_states(objects, widgets@[j]), target@),
                ));
            }
            assert(widgets_show(objects, after, widgets@, target@));
        }
    }
}

/// Writes a button field's value, the state `target`, and has its widgets
/// show it.
fn write_button_value(doc: &mut lopdf::Document, field_id: ObjectId, widgets: &Vec<ObjectId>, target: &String) -> (r:
    AppResult<()>)
    requires
        spec_has_acro_form(document_objects(*old(doc)), document_trailer(*old(doc))),
    ensures
        document_trailer(*final(doc)) == document_trailer(*old(doc)),
        document_max_id(*final(doc)) == document_max_id(*old(doc)),
        match dict_target(document_objects(*old(doc)), field_id) {
            None => *final(doc) == *old(doc) && pdf_error(r),
            Some(_) => r is Ok && dict_target(document_objects(*final(doc)), field_id) is Some && is_name(
                found_dict(dict_target(document_objects(*final(doc)), field_id)).lookup("V".spec_bytes()),
                vstd::utf8::encode_utf8(target@),
            ) && (appearances_inline(document_objects(*old(doc)), widgets@) ==> widgets_show(
                document_objects(*old(doc)),
                document_objects(*final(doc)),
                widgets@,
                target@,
            )),
        },
{
    let ghost objects = document_objects(*doc);
    let ghost trailer = document_trailer(*doc);
    let (found, mut dict) = match dict_for_update(doc, field_id) {
        Some(found) => found,
        None => return Err(AppError::Pdf(dictionary_error(doc, field_id))),
    };
    let ghost original = dict;
    let state_name = PdfObject::Name(copy_bytes(target.as_str().as_bytes()));
    let ghost state_object = state_name;
    dict.set(key("V"), state_name);
    proof {
        crate::pdf::document::lemma_target_stored(objects, field_id);
        crate::pdf::document::lemma_dict_target_after_replace(objects, field_id, found, dict);
        crate::pdf::object::lemma_set_entry_reads_back(original@, "V".spec_bytes(), state_object);
        crate::pdf::document::lemma_target_stored(objects, field_id);
        assert forall|id: ObjectId| #[trigger] dict_of(objects, id) is Some implies dict_of(
            objects.insert(found, PdfObject::Dictionary(dict)),
            id,
        ) is Some by {
            crate::pdf::document::lemma_dicts_stay(objects, found, dict, id);
        }
        assert("AP".spec_bytes() != "V".spec_bytes()) by {
            lemma_field_keys();
        }
        crate::pdf::object::lemma_set_entry_keeps_others(original@, "V".spec_bytes(), state_object, "AP".spec_bytes());
        lemma_entry_kept_after_store(objects, found, dict, "AP".spec_bytes());
    }
    put_object(doc, found, PdfObject::Dictionary(dict));
    let ghost stored_state = document_objects(*doc);
    proof {
        assert(value_kept(stored_state, stored_state));
        lemma_form_catalog(objects, trailer);
    }
    show_button_states(doc, widgets, target, Ghost(objects));
    proof {
        assert(dict_target(stored_state, field_id) is Some);
        assert(appearances_inline(objects, widgets@) ==> widgets_show(
            objects,
            document_objects(*doc),
            widgets@,
            target@,
        ));
    }
    Ok(())
}

/// What setting `name` to `value` does to `before`, giving `after` and `r`:
/// the errors and when each comes, and what each kind of field takes.
pub open spec fn field_value_set(
    before: lopdf::Document,
    after: lopdf::Document,
    name: Seq<char>,
    value: Seq<char>,
    r: AppResult<()>,
) -> bool {
    let objects = document_objects(before);
    let trailer = document_trailer(before);
    if !spec_has_acro_form(objects, trailer) {
        after == before && r == Err::<(), AppError>(AppError::NoAcroForm)
    } else {
        match spec_find_field(objects, trailer, name) {
            None => after == before && field_not_found(r, name),
            Some(field) => {
                let kind = spec_classify(objects, field);
                let states = all_on_states(objects, spec_field_widgets(objects, field));
                if spec_field_flags(objects, field) & FLAG_READ_ONLY != 0 {
                    after == before && invalid_input(r, read_only_message(name))
                } else if kind == FieldKind::Signature {
                    after == before && invalid_input(
                        r,
                        "Signature fields cannot be filled as text."@,
                    )
                } else if kind == FieldKind::PushButton {
                    after == before && invalid_input(r, "Push buttons hold no value."@)
                } else if kind == FieldKind::Unknown {
                    after == before && invalid_input(r, unrecognized_message(name))
                } else if kind == FieldKind::Text || kind == FieldKind::Choice {
                    match dict_target(objects, field) {
                        None => after == before && pdf_error(r),
                        Some((target, dict)) => r is Ok && text_filled(
                            document_objects(after),
                            field,
                            value,
                        ) && exists|mid: Map<ObjectId, PdfObject>, text: Vec<u8>|
                            text@ == chars_to_pdf_text(value) && with_dict(
                                objects,
                                mid,
                                target,
                                remove_entry(
                                    set_entry(
                                        dict@,
                                        "V".spec_bytes(),
                                        PdfObject::Text(text, TextFormat::Literal),
                                    ),
                                    "AP".spec_bytes(),
                                ),
                            ) && need_appearances_set(
                                mid,
                                document_objects(after),
                                dict_of(mid, catalog_ref(trailer)->0)->0,
                                catalog_ref(trailer)->0,
                                true,
                            ),
                    }
                } else {
                    match button_state(kind, value, states) {
                        None => after == before && invalid_input(
                            r,
                            invalid_option_message(value, name, states),
                        ),
                        Some(state) => match dict_target(objects, field) {
                            None => after == before && pdf_error(r),
                            // The field's value becomes the state's name, and
                            // each widget shows that state where it offers it
                            // and `Off` where it does not.
                            Some(_) => r is Ok && dict_target(document_objects(after), field) is Some
                                && is_name(
                                found_dict(dict_target(document_objects(after), field)).lookup(
                                    "V".spec_bytes(),
                                ),
                                vstd::utf8::encode_utf8(state),
                            ) && (appearances_inline(objects, spec_field_widgets(objects, field)) ==> widgets_show(
                                objects,
                                document_objects(after),
                                spec_field_widgets(objects, field),
                                state,
                            )),
                        },
                    }
                }
            },
        }
    }
}

/// A radio group (a button field with the radio bit 1 << 15 and not the
/// push-button bit 1 << 16 in its `/Ff`, not read-only) takes exactly the
/// export values its widgets offer: set to one of them, other than the
/// clearing inputs, it succeeds, its value becomes that state's name, and
/// (where the widgets' appearances are written in them) exactly the widgets
/// offering that state show it while every other widget shows `Off`; set to
/// anything no widget offers, it is refused as invalid and the document is
/// left as it was.
pub proof fn law_a_radio_group_takes_only_its_export_values(
    before: lopdf::Document,
    after: lopdf::Document,
    name: Seq<char>,
    value: Seq<char>,
    r: AppResult<()>,
    field: ObjectId,
)
    requires
        field_value_set(before, after, name, value, r),
        spec_has_acro_form(document_objects(before), document_trailer(before)),
        spec_find_field(document_objects(before), document_trailer(before), name) == Some(field),
        spec_field_attr(document_objects(before), field, "FT".spec_bytes()) matches Some(PdfObject::Name(ft))
            && ft@ == "Btn".spec_bytes(),
        spec_field_flags(document_objects(before), field) & 0x8000 != 0,
        spec_field_flags(document_objects(before), field) & 0x10000 == 0,
        spec_field_flags(document_objects(before), field) & 0x1 == 0,
        dict_target(document_objects(before), field) is Some,
        value != ""@ && value != "Off"@ && value != "false"@,
    ensures
        all_on_states(document_objects(before), spec_field_widgets(document_objects(before), field)).contains(value)
            ==> r is Ok && is_name(
            found_dict(dict_target(document_objects(after), field)).lookup("V".spec_bytes()),
            vstd::utf8::encode_utf8(value),
        ),
        !all_on_states(document_objects(before), spec_field_widgets(document_objects(before), field)).contains(value)
            ==> after == before && r matches Err(AppError::InvalidInput(_)),
        all_on_states(document_objects(before), spec_field_widgets(document_objects(before), field)).contains(value)
            && appearances_inline(document_objects(before), spec_field_widgets(document_objects(before), field))
            ==> forall|j: int|
            0 <= j < spec_field_widgets(document_objects(before), field).len() ==> is_name(
                found_dict(
                    #[trigger] dict_target(
                        document_objects(after),
                        spec_field_widgets(document_objects(before), field)[j],
                    ),
                ).lookup("AS".spec_bytes()),
                if spec_on_states(document_objects(before), spec_field_widgets(document_objects(before), field)[j]).contains(
                    value,
                ) {
                    vstd::utf8::encode_utf8(value)
                } else {
                    "Off".spec_bytes()
                },
            ),
{
    reveal(widgets_show);
    law_button_fields_are_told_apart_by_their_flags(document_objects(before), field);
    assert(spec_classify(document_objects(before), field) == FieldKind::Radio);
}

/// Sets a field's value. `value` is interpreted per field kind:
///
/// * text / choice — used verbatim
/// * checkbox      — any of `"", "Off", "off", "false", "0"` clears it;
///                   anything else ticks it
/// * radio         — must match one of the group's export values
pub fn set_field_value(doc: &mut lopdf::Document, name: &str, value: &str) -> (r: AppResult<()>)
    ensures
        field_value_set(*old(doc), *final(doc), name@, value@, r),
        document_trailer(*final(doc)) == document_trailer(*old(doc)),
        document_max_id(*final(doc)) == document_max_id(*old(doc)),
{
    let ghost objects = document_objects(*doc);
    let ghost trailer = document_trailer(*doc);
    if !has_acro_form(doc) {
        return Err(AppError::NoAcroForm);
    }
    let field_id = match find_field(doc, name) {
        Some(field_id) => field_id,
        None => return Err(AppError::FieldNotFound(String::from_str(name))),
    };
    let kind = classify(doc, field_id);
    if field_flags(doc, field_id) & FLAG_READ_ONLY != 0 {
        let mut message = String::from_str("Field ");
        message.append(quote(name).as_str());
        message.append(" is read-only.");
        return Err(AppError::InvalidInput(message));
    }
    match kind {
        FieldKind::Text | FieldKind::Choice => {
            let encoded = encode_pdf_text(value);
            let (target, mut dict) = match dict_for_update(doc, field_id) {
                Some(found) => found,
                None => return Err(AppError::Pdf(dictionary_error(doc, field_id))),
            };
            let ghost text = encoded;
            let ghost original = dict;
            dict.set(key("V"), PdfObject::Text(encoded, TextFormat::Literal));
            let ghost with_value = dict;
            // A stale appearance stream would otherwise mask the new value.
            dict.remove("AP".as_bytes());
            proof {
                lemma_field_keys();
                crate::pdf::object::lemma_set_entry_reads_back(
                    original@,
                    "V".spec_bytes(),
                    PdfObject::Text(text, TextFormat::Literal),
                );
                crate::pdf::object::lemma_set_keeps_distinct(
                    original@,
                    "V".spec_bytes(),
                    PdfObject::Text(text, TextFormat::Literal),
                );
                crate::pdf::object::lemma_remove_keeps_others(with_value@, "AP".spec_bytes(), "V".spec_bytes());
                crate::pdf::document::lemma_target_stored(objects, field_id);
                crate::pdf::document::lemma_dict_target_after_replace(objects, field_id, target, dict);
                assert forall|id: ObjectId| #[trigger] dict_of(objects, id) is Some implies dict_of(
                    objects.insert(target, PdfObject::Dictionary(dict)),
                    id,
                ) is Some by {
                    crate::pdf::document::lemma_dicts_stay(objects, target, dict, id);
                }
            }
            put_object(doc, target, PdfObject::Dictionary(dict));
            let ghost mid = document_objects(*doc);
            proof {
                lemma_form_catalog(objects, trailer);
                assert(dict_of(mid, catalog_ref(trailer)->0) is Some);
            }
            let done = set_need_appearances(doc, true);
            assert(done is Ok);
            proof {
                assert(dict_target(mid, field_id) is Some);
                assert(text_filled(document_objects(*doc), field_id, value@));
                assert(with_dict(
                    objects,
                    mid,
                    target,
                    remove_entry(
                        set_entry(original@, "V".spec_bytes(), PdfObject::Text(text, TextFormat::Literal)),
                        "AP".spec_bytes(),
                    ),
                ));
                assert(need_appearances_set(
                    mid,
                    document_objects(*doc),
                    dict_of(mid, catalog_ref(trailer)->0)->0,
                    catalog_ref(trailer)->0,
                    true,
                ));
            }
            Ok(())
        },
        FieldKind::Checkbox | FieldKind::Radio => {
            let widgets = field_widgets(doc, field_id);
            let mut states: Vec<String> = Vec::new();
            let mut k: usize = 0;
            assert(widgets@.subrange(0, widgets@.len() as int) =~= widgets@);
            assert(states@.map_values(|s: String| s@) + all_on_states(objects, widgets@) =~= all_on_states(
                objects,
                widgets@,
            ));
            while k < widgets.len()
                invariant
                    k <= widgets@.len(),
                    objects == document_objects(*doc),
                    widgets@ == spec_field_widgets(objects, field_id),
                    all_on_states(objects, widgets@) == states@.map_values(|s: String| s@) + all_on_states(
                        objects,
                        widgets@.subrange(k as int, widgets@.len() as int),
                    ),
                decreases widgets@.len() - k,
            {
                let ghost rest = widgets@.subrange(k as int, widgets@.len() as int);
                assert(rest.subrange(1, rest.len() as int) =~= widgets@.subrange(k + 1, widgets@.len() as int));
                let found = widget_on_states(doc, widgets[k]);
                let ghost before = states@.map_values(|s: String| s@);
                let mut j: usize = 0;
                while j < found.len()
                    invariant
                        j <= found@.len(),
                        states@.map_values(|s: String| s@) == before + found@.map_values(|s: String| s@).subrange(0, j as int),
                    decreases found@.len() - j,
                {
                    let ghost prev = states@;
                    states.push(found[j].clone());
                    assert(states@.map_values(|s: String| s@) =~= prev.map_values(|s: String| s@).push(found@[j as int]@));
                    j = j + 1;
                    assert(found@.map_values(|s: String| s@).subrange(0, j as int) =~= found@.map_values(
                        |s: String| s@,
                    ).subrange(0, j - 1).push(found@[j - 1]@));
                }
                assert(found@.map_values(|s: String| s@).subrange(0, found@.len() as int) =~= found@.map_values(|s: String| s@));
                assert(before + (spec_on_states(objects, widgets@[k as int]) + all_on_states(
                    objects,
                    widgets@.subrange(k + 1, widgets@.len() as int),
                )) =~= states@.map_values(|s: String| s@) + all_on_states(
                    objects,
                    widgets@.subrange(k + 1, widgets@.len() as int),
                ));
                k = k + 1;
            }
            assert(all_on_states(objects, widgets@.subrange(k as int, widgets@.len() as int)) =~= Seq::<Seq<char>>::empty());
            assert(states@.map_values(|s: String| s@) + Seq::<Seq<char>>::empty() =~= states@.map_values(|s: String| s@));
            let ghost state_texts = states@.map_values(|s: String| s@);
            let target = if clears(value) {
                String::from_str("Off")
            } else if kind == FieldKind::Radio {
                if holds_state(&states, value) {
                    String::from_str(value)
                } else {
                    let mut message = quote(value);
                    message.append(" is not a valid option for ");
                    message.append(quote(name).as_str());
                    message.append(". Valid: ");
                    if states.len() == 0 {
                        message.append("<none found>");
                    } else {
                        message.append(join_strings(&states, ", ").as_str());
                    }
                    return Err(AppError::InvalidInput(message));
                }
            } else if states.len() > 0 {
                states[0].clone()
            } else {
                String::from_str("On")
            };
            proof {
                assert(Some(target@) == button_state(kind, value@, state_texts));
            }
            write_button_value(doc, field_id, &widgets, &target)
        },
        FieldKind::Signature => {
            Err(AppError::InvalidInput(String::from_str("Signature fields cannot be filled as text.")))
        },
        FieldKind::PushButton => Err(AppError::InvalidInput(String::from_str("Push buttons hold no value."))),
        FieldKind::Unknown => {
            let mut message = String::from_str("Field ");
            message.append(quote(name).as_str());
            message.append(" has an unrecognized type.");
            Err(AppError::InvalidInput(message))
        },
    }
}

/// A form is reached through a catalog the trailer names and that is a
/// dictionary.
pub proof fn lemma_form_catalog(objects: Map<ObjectId, PdfObject>, trailer: PdfDict)
    requires
        spec_has_acro_form(objects, trailer),
    ensures
        catalog_ref(trailer) is Some,
        dict_of(objects, catalog_ref(trailer)->0) is Some,
{
}


/// `str::trim`: `text` without its leading and trailing whitespace.
pub open spec fn trimmed(text: Seq<char>) -> Seq<char> {
    let start = trim_front(text, 0);
    let stop = trim_back(text, text.len() as int);
    if stop <= start {
        Seq::empty()
    } else {
        text.subrange(start, stop)
    }
}

/// The first position at or after `i` that is not whitespace (or the end).
pub open spec fn trim_front(text: Seq<char>, i: int) -> int
    decreases text.len() - i,
{
    if i < 0 || i >= text.len() {
        text.len() as int
    } else if is_white(text[i]) {
        trim_front(text, i + 1)
    } else {
        i
    }
}

/// One past the last position before `j` that is not whitespace (or 0).
pub open spec fn trim_back(text: Seq<char>, j: int) -> int
    decreases j,
{
    if j <= 0 || j > text.len() {
        0
    } else if is_white(text[j - 1]) {
        trim_back(text, j - 1)
    } else {
        j
    }
}

proof fn lemma_trim_back_at_most(text: Seq<char>, j: int)
    ensures
        trim_back(text, j) <= if j < 0 { 0 } else { j },
    decreases j,
{
    if j > 0 && j <= text.len() && is_white(text[j - 1]) {
        lemma_trim_back_at_most(text, j - 1);
    }
}

proof fn lemma_trim_front_bounds(text: Seq<char>, i: int)
    requires
        0 <= i <= text.len(),
    ensures
        i <= trim_front(text, i) <= text.len(),
    decreases text.len() - i,
{
    if i < text.len() && is_white(text[i]) {
        lemma_trim_front_bounds(text, i + 1);
    }
}

/// `text.trim()`.
pub fn trim_text(text: &str) -> (r: String)
    ensures
        r@ == trimmed(text@),
{
    let chars = chars_of(text);
    proof {
        lemma_trim_front_bounds(text@, 0);
    }
    let mut start: usize = 0;
    while start < chars.len() && white(chars[start])
        invariant
            start <= chars@.len(),
            chars@ == text@,
            trim_front(text@, 0) == trim_front(text@, start as int),
        decreases chars@.len() - start,
    {
        start = start + 1;
    }
    let mut stop: usize = chars.len();
    while stop > start && white(chars[stop - 1])
        invariant
            start <= stop <= chars@.len(),
            chars@ == text@,
            start == trim_front(text@, 0),
            trim_back(text@, text@.len() as int) == trim_back(text@, stop as int),
        decreases stop,
    {
        stop = stop - 1;
    }
    proof {
        lemma_trim_back_at_most(text@, stop as int);
    }
    let mut out = String::new();
    let mut i: usize = start;
    while i < stop
        invariant
            start <= i <= stop,
            stop <= chars@.len(),
            chars@ == text@,
            out@ == text@.subrange(start as int, i as int),
        decreases stop - i,
    {
        push_char(&mut out, chars[i]);
        i = i + 1;
        assert(out@ =~= text@.subrange(start as int, i as int));
    }
    if stop == start {
        assert(out@ =~= Seq::<char>::empty());
    }
    out
}

/// Whether `text` holds the character `c`.
fn has_char(text: &str, c: char) -> (r: bool)
    ensures
        r == text@.contains(c),
{
    let chars = chars_of(text);
    let mut i: usize = 0;
    while i < chars.len()
        invariant
            i <= chars@.len(),
            chars@ == text@,
            forall|j: int| 0 <= j < i ==> text@[j] != c,
        decreases chars@.len() - i,
    {
        if chars[i] == c {
            assert(text@[i as int] == c);
            return true;
        }
        i = i + 1;
    }
    false
}

/// Some listed field is named `name`.
pub open spec fn lists_name(fields: Seq<FieldView>, name: Seq<char>) -> bool {
    exists|i: int| 0 <= i < fields.len() && #[trigger] fields[i].name == name
}

fn any_named(fields: &Vec<FormField>, name: &str) -> (r: bool)
    ensures
        r == lists_name(field_views(fields@), name@),
{
    let ghost views = field_views(fields@);
    let mut k: usize = 0;
    while k < fields.len()
        invariant
            k <= fields@.len(),
            views == field_views(fields@),
            forall|j: int| 0 <= j < k ==> views[j].name != name@,
        decreases fields@.len() - k,
    {
        if same_text_of(fields[k].name.as_str(), name) {
            assert(views[k as int].name == name@);
            return true;
        }
        k = k + 1;
    }
    false
}

pub open spec fn font_size_message() -> Seq<char> {
    "Font size must be between 0 (auto) and 144."@
}

/// `dict` draws its text with the appearance string whose encoded bytes are
/// `da`, and carries no baked appearance.
pub open spec fn sized_appearance(dict: PdfDict, da: Seq<u8>) -> bool {
    &&& dict.lookup("DA".spec_bytes()) matches Some(PdfObject::Text(bytes, TextFormat::Literal)) && bytes@ == da
    &&& dict.lookup("AP".spec_bytes()) is None
}

/// A dictionary was found, and it is `sized_appearance`.
pub open spec fn found_sized(found: Option<PdfDict>, da: Seq<u8>) -> bool {
    found matches Some(dict) && sized_appearance(dict, da)
}

/// The objects that may carry a field's `/DA`: the field and its widgets.
pub open spec fn appearance_holder(objects: Map<ObjectId, PdfObject>, field: ObjectId, id: ObjectId) -> bool {
    id == field || spec_field_widgets(objects, field).contains(id)
}

/// `dict` with its appearance string set to `appearance` and its baked
/// appearance dropped.
fn with_appearance(dict: PdfDict, appearance: &str) -> (r: PdfDict)
    requires
        crate::pdf::object::keys_distinct(dict@),
    ensures
        sized_appearance(r, chars_to_pdf_text(appearance@)),
        dict_deep(dict) ==> dict_deep(r),
{
    broadcast use crate::pdf::object::lemma_lookup_after_set;

    let mut dict = dict;
    let ghost original = dict;
    let encoded = PdfObject::Text(encode_pdf_text(appearance), TextFormat::Literal);
    let ghost value = encoded;
    dict.set(key("DA"), encoded);
    let ghost with_da = dict;
    dict.remove("AP".as_bytes());
    proof {
        lemma_field_keys();
        crate::pdf::object::lemma_set_keeps_distinct(original@, "DA".spec_bytes(), value);
        crate::pdf::object::lemma_remove_drops(with_da@, "AP".spec_bytes());
        crate::pdf::object::lemma_remove_keeps_others(with_da@, "AP".spec_bytes(), "DA".spec_bytes());
    }
    dict
}

/// Storing a sized dictionary where `targets[k]` finds its dictionary keeps
/// every dictionary found, and every target up to `k` sized.
proof fn lemma_sized_kept(
    before: Map<ObjectId, PdfObject>,
    objects: Map<ObjectId, PdfObject>,
    targets: Seq<ObjectId>,
    k: int,
    found: ObjectId,
    dict: PdfDict,
    da: Seq<u8>,
)
    requires
        0 <= k < targets.len(),
        dict_target(before, targets[k]) matches Some((at, _)) && at == found,
        before.contains_key(found),
        before[found] is Dictionary,
        sized_appearance(dict, da),
        dicts_kept(objects, before),
        forall|j: int| 0 <= j < k && dict_of(objects, #[trigger] targets[j]) is Some
            ==> found_sized(dict_of(before, targets[j]), da),
    ensures
        dicts_kept(objects, before.insert(found, PdfObject::Dictionary(dict))),
        forall|j: int| 0 <= j <= k && dict_of(objects, #[trigger] targets[j]) is Some
            ==> found_sized(dict_of(before.insert(found, PdfObject::Dictionary(dict)), targets[j]), da),
{
    let after = before.insert(found, PdfObject::Dictionary(dict));
    assert forall|id: ObjectId| #[trigger] dict_of(objects, id) is Some implies dict_of(after, id) is Some by {
        crate::pdf::document::lemma_dicts_stay(before, found, dict, id);
    }
    assert forall|j: int| 0 <= j <= k && dict_of(objects, #[trigger] targets[j]) is Some implies
        found_sized(dict_of(after, targets[j]), da) by {
        lemma_dict_of_target(before, targets[j]);
        crate::pdf::document::lemma_dict_of_after_replace(before, targets[j], found, dict);
    }
}

/// Sets a field's text size. `size` is the size as `/DA` should spell it, or
/// `None` for a size outside 0 (auto) to 144.
///
/// The new appearance string is written on the field and on every widget,
/// since either may carry `/DA`, and any baked appearance is dropped.
#[verifier::rlimit(40)]
#[verifier::spinoff_prover]
pub fn set_field_font_size(doc: &mut lopdf::Document, name: &str, size: Option<&str>) -> (r: AppResult<()>)
    ensures
        document_trailer(*final(doc)) == document_trailer(*old(doc)),
        document_max_id(*final(doc)) == document_max_id(*old(doc)),
        match size {
            None => *final(doc) == *old(doc) && invalid_input(r, font_size_message()),
            Some(spelled) => match spec_find_field(objects_of(*old(doc)), document_trailer(*old(doc)), name@) {
                None => *final(doc) == *old(doc) && field_not_found(r, name@),
                Some(field) => {
                    let da = chars_to_pdf_text(
                        spec_appearance_with_size(
                            spec_appearance_string(objects_of(*old(doc)), document_trailer(*old(doc)), field),
                            spelled@,
                        ),
                    );
                    &&& r is Ok
                    &&& dicts_kept(objects_of(*old(doc)), objects_of(*final(doc)))
                    &&& forall|id: ObjectId|
                        appearance_holder(objects_of(*old(doc)), field, id) && dict_of(objects_of(*old(doc)), id) is Some
                            ==> found_sized(#[trigger] dict_of(objects_of(*final(doc)), id), da)
                },
            },
        },
{
    let size = match size {
        Some(size) => size,
        None => return Err(AppError::InvalidInput(String::from_str("Font size must be between 0 (auto) and 144."))),
    };
    let ghost objects = objects_of(*doc);
    let ghost trailer = document_trailer(*doc);
    let field_id = match find_field(doc, name) {
        Some(field_id) => field_id,
        None => return Err(AppError::FieldNotFound(String::from_str(name))),
    };
    let current = appearance_string(doc, field_id);
    let updated = match current {
        Some(text) => appearance_with_size(Some(text.as_str()), size),
        None => appearance_with_size(None, size),
    };
    let ghost da = chars_to_pdf_text(updated@);
    let mut targets = field_widgets(doc, field_id);
    let ghost widgets = targets@;
    let mut listed = false;
    let mut k: usize = 0;
    while k < targets.len()
        invariant
            targets@ == widgets,
            listed ==> widgets.contains(field_id),
            !listed ==> forall|j: int| 0 <= j < k ==> widgets[j] != field_id,
            k <= widgets.len(),
        decreases targets@.len() - k,
    {
        if targets[k].0 == field_id.0 && targets[k].1 == field_id.1 {
            assert(widgets[k as int] == field_id);
            listed = true;
        }
        k = k + 1;
    }
    if !listed {
        targets.push(field_id);
    }
    proof {
        lemma_holders_listed(objects, field_id, widgets, targets@);
    }
    let mut k: usize = 0;
    while k < targets.len()
        invariant
            k <= targets@.len(),
            dicts_kept(objects, objects_of(*doc)),
            document_trailer(*doc) == trailer,
            document_max_id(*doc) == document_max_id(*old(doc)),
            da == chars_to_pdf_text(updated@),
            forall|j: int| 0 <= j < k && dict_of(objects, #[trigger] targets@[j]) is Some
                ==> found_sized(dict_of(objects_of(*doc), targets@[j]), da),
        decreases targets@.len() - k,
    {
        let ghost before = objects_of(*doc);
        if let Some((found, dict)) = dict_for_update(doc, targets[k]) {
            // The baked appearance no longer matches the requested size.
            let dict = with_appearance(dict, updated.as_str());
            proof {
                crate::pdf::document::lemma_target_stored(before, targets[k as int]);
                lemma_sized_kept(before, objects, targets@, k as int, found, dict, da);
            }
            put_object(doc, found, PdfObject::Dictionary(dict));
        } else {
            proof {
                lemma_dict_of_target(before, targets[k as int]);
            }
        }
        k = k + 1;
    }
    proof {
        lemma_holders_sized(objects, objects_of(*doc), field_id, targets@, da);
    }
    Ok(())
}

/// The field and its widgets are all among `targets`: the widgets, with the
/// field added when it is not one of them.
proof fn lemma_holders_listed(
    objects: Map<ObjectId, PdfObject>,
    field: ObjectId,
    widgets: Seq<ObjectId>,
    targets: Seq<ObjectId>,
)
    requires
        widgets == spec_field_widgets(objects, field),
        targets == widgets || targets == widgets.push(field) && !widgets.contains(field),
        targets == widgets ==> widgets.contains(field),
    ensures
        forall|id: ObjectId| appearance_holder(objects, field, id) ==> #[trigger] targets.contains(id),
{
    assert forall|id: ObjectId| appearance_holder(objects, field, id) implies #[trigger] targets.contains(id) by {
        if id == field {
            if targets != widgets {
                assert(targets[widgets.len() as int] == field);
            }
        } else {
            let j = choose|j: int| 0 <= j < widgets.len() && widgets[j] == id;
            assert(targets[j] == id);
        }
    }
}

/// What holds of every target holds of the field and each of its widgets.
proof fn lemma_holders_sized(
    objects: Map<ObjectId, PdfObject>,
    after: Map<ObjectId, PdfObject>,
    field: ObjectId,
    targets: Seq<ObjectId>,
    da: Seq<u8>,
)
    requires
        forall|id: ObjectId| appearance_holder(objects, field, id) ==> #[trigger] targets.contains(id),
        forall|j: int| 0 <= j < targets.len() && dict_of(objects, #[trigger] targets[j]) is Some
            ==> found_sized(dict_of(after, targets[j]), da),
    ensures
        forall|id: ObjectId| appearance_holder(objects, field, id) && dict_of(objects, id) is Some
            ==> found_sized(#[trigger] dict_of(after, id), da),
{
    assert forall|id: ObjectId| appearance_holder(objects, field, id) && dict_of(objects, id) is Some implies
        found_sized(#[trigger] dict_of(after, id), da) by {
        assert(targets.contains(id));
        let j = choose|j: int| 0 <= j < targets.len() && targets[j] == id;
        assert(dict_of(objects, targets[j]) is Some);
    }
}

/// The form the catalog's `/AcroForm` names by reference, if it does.
pub open spec fn form_reference(objects: Map<ObjectId, PdfObject>, catalog_id: ObjectId) -> Option<ObjectId> {
    match dict_of(objects, catalog_id) {
        Some(catalog) => match catalog.lookup("AcroForm".spec_bytes()) {
            Some(PdfObject::Reference(id)) => Some(id),
            _ => None,
        },
        None => None,
    }
}

fn form_reference_of(doc: &lopdf::Document, catalog_id: ObjectId) -> (r: Option<ObjectId>)
    ensures
        r == form_reference(objects_of(*doc), catalog_id),
{
    match get_dictionary(doc, catalog_id) {
        Some(catalog) => match catalog.into_value("AcroForm".as_bytes()) {
            Some(PdfObject::Reference(id)) => Some(id),
            _ => None,
        },
        None => None,
    }
}


/// `/Fields` is none of the other keys a new form is given.
proof fn lemma_form_keys()
    ensures
        "Fields".spec_bytes() != "DR".spec_bytes(),
        "Fields".spec_bytes() != "DA".spec_bytes(),
        "Fields".spec_bytes() != "NeedAppearances".spec_bytes(),
{
    reveal_strlit("Fields");
    reveal_strlit("DR");
    reveal_strlit("DA");
    reveal_strlit("NeedAppearances");
    crate::pdf::document::lemma_ascii_bytes("Fields");
    crate::pdf::document::lemma_ascii_bytes("DR");
    crate::pdf::document::lemma_ascii_bytes("DA");
    crate::pdf::document::lemma_ascii_bytes("NeedAppearances");
}

/// The two object numbers `add_object` takes next hold nothing yet.
pub open spec fn next_two_unused(objects: Map<ObjectId, PdfObject>, max_id: u32) -> bool {
    &&& !objects.contains_key(((max_id + 1) as u32, 0u16))
    &&& !objects.contains_key(((max_id + 2) as u32, 0u16))
}

/// `after` holds every object `before` does, unchanged, but for the catalog's
/// dictionary, which now names `form` as its `/AcroForm`.
pub open spec fn catalog_linked(
    before: Map<ObjectId, PdfObject>,
    after: Map<ObjectId, PdfObject>,
    catalog: ObjectId,
    form: ObjectId,
) -> bool {
    let at = found_at(dict_target(before, catalog));
    let dict = found_dict(dict_target(before, catalog));
    &&& forall|id: ObjectId| #[trigger] before.contains_key(id) && id != at ==> after.contains_key(id) && after[id] == before[id]
    &&& after.contains_key(at)
    &&& after[at] matches PdfObject::Dictionary(linked) && linked@ == set_entry(
        dict@,
        "AcroForm".spec_bytes(),
        PdfObject::Reference(form),
    )
}

/// The form dictionary the catalog holds inline, if it does.
pub open spec fn inline_form(objects: Map<ObjectId, PdfObject>, catalog_id: ObjectId) -> Option<PdfDict> {
    match dict_of(objects, catalog_id) {
        Some(catalog) => match catalog.lookup("AcroForm".spec_bytes()) {
            Some(PdfObject::Dictionary(form)) => Some(form),
            _ => None,
        },
        None => None,
    }
}

/// `form` lists the fields `inline` did, or, where it had no `/Fields`, an
/// empty list.
pub open spec fn fields_carried(inline: Option<PdfDict>, form: Option<PdfDict>) -> bool {
    form matches Some(form) && match inline {
        Some(earlier) if earlier.lookup("Fields".spec_bytes()) is Some => form.lookup("Fields".spec_bytes())
            == earlier.lookup("Fields".spec_bytes()),
        _ => form.lookup("Fields".spec_bytes()) matches Some(PdfObject::Array(items)) && items@.len() == 0,
    }
}

/// Ensures the catalog has an `/AcroForm` with a `/Fields` array and a default
/// resource dictionary containing Helvetica. Returns the AcroForm object id.
///
/// An `/AcroForm` the catalog names by reference is used as it is; otherwise a
/// fresh one is built (after a Helvetica font object), carrying over an inline
/// one if present, and the catalog pointed at it.
pub fn ensure_acro_form(doc: &mut lopdf::Document) -> (r: AppResult<ObjectId>)
    requires
        catalog_ref(document_trailer(*old(doc))) matches Some(catalog_id) && form_reference(
            objects_of(*old(doc)),
            catalog_id,
        ) is None ==> document_max_id(*old(doc)) + 2 <= u32::MAX,
    ensures
        document_trailer(*final(doc)) == document_trailer(*old(doc)),
        match catalog_ref(document_trailer(*old(doc))) {
            None => *final(doc) == *old(doc) && invalid_input(r, "Document has no /Root catalog."@),
            Some(catalog_id) => match form_reference(objects_of(*old(doc)), catalog_id) {
                Some(form_id) => *final(doc) == *old(doc) && r == Ok::<ObjectId, AppError>(form_id),
                None => {
                    &&& document_max_id(*final(doc)) == document_max_id(*old(doc)) + 2
                    &&& (r == Ok::<ObjectId, AppError>(((document_max_id(*old(doc)) + 2) as u32, 0u16))
                        || pdf_error(r))
                    // The new form is a dictionary of its own, and the catalog names it.
                    &&& r is Ok ==> dict_target(objects_of(*final(doc)), r->Ok_0) is Some
                        && form_reference(objects_of(*final(doc)), catalog_id) == Some(r->Ok_0)
                    // Owed success: the catalog is a dictionary and the two numbers
                    // taken next are unused.
                    &&& dict_of(objects_of(*old(doc)), catalog_id) is Some && next_two_unused(
                        objects_of(*old(doc)),
                        document_max_id(*old(doc)),
                    ) ==> r is Ok
                    // On a well-numbered document whose catalog is a dictionary, it
                    // is made, and every dictionary lookup keeps working.
                    &&& ids_bounded(objects_of(*old(doc)), document_max_id(*old(doc))) ==> {
                        &&& ids_bounded(objects_of(*final(doc)), document_max_id(*final(doc)))
                        &&& chains_kept(objects_of(*old(doc)), objects_of(*final(doc)))
                        &&& dict_of(objects_of(*old(doc)), catalog_id) is Some ==> r is Ok
                        // The new form keeps an inline form's `/Fields`, or starts an
                        // empty list.
                        &&& dict_of(objects_of(*old(doc)), catalog_id) is Some ==> fields_carried(
                            inline_form(objects_of(*old(doc)), catalog_id),
                            dict_of(objects_of(*final(doc)), r->Ok_0),
                        )
                        // Of the objects the document held, only the catalog changed:
                        // it names the new form.
                        &&& dict_of(objects_of(*old(doc)), catalog_id) is Some ==> catalog_linked(
                            objects_of(*old(doc)),
                            objects_of(*final(doc)),
                            catalog_id,
                            r->Ok_0,
                        )
                        // The two new objects: the font, and the form, stored as a
                        // dictionary.
                        &&& dict_of(objects_of(*old(doc)), catalog_id) is Some ==> {
                            &&& objects_of(*final(doc)).dom() == objects_of(*old(doc)).dom().insert(
                                ((document_max_id(*old(doc)) + 1) as u32, 0u16),
                            ).insert(r->Ok_0)
                            &&& objects_of(*final(doc))[r->Ok_0] matches PdfObject::Dictionary(made)
                                && fields_carried(inline_form(objects_of(*old(doc)), catalog_id), Some(made))
                        }
                    }
                },
            },
        },
{
    broadcast use crate::pdf::object::lemma_lookup_after_set;

    let catalog_id = catalog_id(doc)?;
    if let Some(form_id) = form_reference_of(doc, catalog_id) {
        return Ok(form_id);
    }
    let ghost o0 = objects_of(*doc);
    let ghost m0 = document_max_id(*doc);
    let inline = match get_dictionary(doc, catalog_id) {
        Some(catalog) => match catalog.into_value("AcroForm".as_bytes()) {
            Some(PdfObject::Dictionary(form)) => Some(form),
            _ => None,
        },
        None => None,
    };
    assert(inline == inline_form(o0, catalog_id));
    let mut font = PdfDict::new();
    font.set(key("Type"), PdfObject::Name(key("Font")));
    font.set(key("Subtype"), PdfObject::Name(key("Type1")));
    font.set(key("BaseFont"), PdfObject::Name(key("Helvetica")));
    font.set(key("Encoding"), PdfObject::Name(key("WinAnsiEncoding")));
    let ghost font_object = PdfObject::Dictionary(font);
    let helvetica = add_object(doc, PdfObject::Dictionary(font));
    let ghost o1 = objects_of(*doc);

    let mut fonts = PdfDict::new();
    fonts.set(key("Helv"), PdfObject::Reference(helvetica));
    let mut resources = PdfDict::new();
    resources.set(key("Font"), PdfObject::Dictionary(fonts));

    let mut form = match inline {
        Some(form) => form,
        None => PdfDict::new(),
    };
    let ghost carried = form;
    if !form.has("Fields".as_bytes()) {
        form.set(key("Fields"), PdfObject::Array(Vec::new()));
    }
    let ghost listed = form;
    form.set(key("DR"), PdfObject::Dictionary(resources));
    form.set(key("DA"), PdfObject::Text(key("/Helv 0 Tf 0 g"), TextFormat::Literal));
    form.set(key("NeedAppearances"), PdfObject::Boolean(true));
    proof {
        lemma_form_keys();
        assert(form.lookup("Fields".spec_bytes()) == listed.lookup("Fields".spec_bytes()));
        assert(fields_carried(inline, Some(form)));
    }
    let ghost form_object = PdfObject::Dictionary(form);
    let form_id = add_object(doc, PdfObject::Dictionary(form));
    let ghost o2 = objects_of(*doc);
    proof {
        if ids_bounded(o0, m0) {
            crate::pdf::document::lemma_add_keeps(o0, m0, font_object);
            crate::pdf::document::lemma_add_keeps(o1, (m0 + 1) as u32, form_object);
            crate::pdf::document::lemma_chains_kept_trans(o0, o1, o2);
            if dict_of(o0, catalog_id) is Some {
                lemma_dict_of_target(o0, catalog_id);
                assert(dict_target(o2, catalog_id) is Some);
            }
        }
        assert(dict_target(o2, form_id) == Some((form_id, form)));
        if next_two_unused(o0, m0) && dict_of(o0, catalog_id) is Some {
            crate::pdf::document::lemma_fresh_keeps_chains(o0, helvetica, font_object);
            crate::pdf::document::lemma_fresh_keeps_chains(o1, form_id, form_object);
            crate::pdf::document::lemma_chains_kept_trans(o0, o1, o2);
            lemma_dict_of_target(o0, catalog_id);
            assert(dict_target(o2, catalog_id) is Some);
        }
    }

    let (target, mut catalog) = match dict_for_update(doc, catalog_id) {
        Some(found) => found,
        None => return Err(AppError::Pdf(dictionary_error(doc, catalog_id))),
    };
    let ghost before = catalog;
    catalog.set(key("AcroForm"), PdfObject::Reference(form_id));
    proof {
        crate::pdf::document::lemma_target_stored(o2, catalog_id);
        crate::pdf::document::lemma_replace_keeps_chains(o2, target, catalog);
        crate::pdf::document::lemma_dict_target_after_replace(o2, form_id, target, catalog);
        crate::pdf::document::lemma_dict_after_replace(o2, catalog_id, target, before, catalog);
        if ids_bounded(o0, m0) {
            crate::pdf::document::lemma_chains_kept_trans(o0, o2, o2.insert(target, PdfObject::Dictionary(catalog)));
            lemma_dict_of_target(o0, catalog_id);
            crate::pdf::document::lemma_target_stored(o0, catalog_id);
            if dict_of(o0, catalog_id) is Some {
                assert(target != form_id);
                lemma_dict_of_target(o2.insert(target, PdfObject::Dictionary(catalog)), form_id);
                assert(target != helvetica);
                assert(o2[target] == o0[target]);
                assert(before == found_dict(dict_target(o0, catalog_id)));
                let after = o2.insert(target, PdfObject::Dictionary(catalog));
                assert forall|id: ObjectId| #[trigger] o0.contains_key(id) && id != target implies after.contains_key(id)
                    && after[id] == o0[id] by {
                    assert(id != helvetica && id != form_id);
                }
                assert(o0.contains_key(target));
                assert(after.dom() =~= o0.dom().insert(helvetica).insert(form_id));
                assert(after[form_id] == PdfObject::Dictionary(form));
            }
        }
    }
    put_object(doc, target, PdfObject::Dictionary(catalog));
    Ok(form_id)
}


/// A checkbox's two appearance streams, as the caller draws them: the
/// bounding box (four numbers) and the content of the ticked and the clear
/// state.
pub struct CheckboxArt {
    pub bbox: Vec<PdfObject>,
    pub ticked: Vec<u8>,
    pub clear: Vec<u8>,
}

/// Where and what to create. `rect` is in PDF user space, origin bottom-left,
/// lower-left corner first.
pub struct NewField {
    pub page_index: usize,
    pub name: String,
    pub kind: FieldKind,
    /// The widget rectangle's four numbers; `None` when it is too small to be
    /// usable (under one point across or high).
    pub rect: Option<Vec<PdfObject>>,
    /// The text size as `/DA` writes it; `0` selects auto-size.
    pub font_size: String,
    pub multiline: bool,
    pub required: bool,
    pub max_length: Option<i64>,
    /// Options for a choice field; ignored otherwise.
    pub options: Vec<String>,
    /// The appearance of a checkbox; ignored otherwise.
    pub checkbox: CheckboxArt,
}

pub open spec fn dotted_name_message() -> Seq<char> {
    "Field names cannot contain '.' — it separates parent and child names."@
}

pub open spec fn duplicate_message(name: Seq<char>) -> Seq<char> {
    "A field named "@ + quoted(name) + " already exists."@
}

/// The Debug name of a field kind.
pub open spec fn kind_name(kind: FieldKind) -> Seq<char> {
    match kind {
        FieldKind::Text => "Text"@,
        FieldKind::Checkbox => "Checkbox"@,
        FieldKind::Radio => "Radio"@,
        FieldKind::PushButton => "PushButton"@,
        FieldKind::Choice => "Choice"@,
        FieldKind::Signature => "Signature"@,
        FieldKind::Unknown => "Unknown"@,
    }
}

fn kind_text(kind: FieldKind) -> (r: String)
    ensures
        r@ == kind_name(kind),
{
    match kind {
        FieldKind::Text => String::from_str("Text"),
        FieldKind::Checkbox => String::from_str("Checkbox"),
        FieldKind::Radio => String::from_str("Radio"),
        FieldKind::PushButton => String::from_str("PushButton"),
        FieldKind::Choice => String::from_str("Choice"),
        FieldKind::Signature => String::from_str("Signature"),
        FieldKind::Unknown => String::from_str("Unknown"),
    }
}

/// `create_field` can create fields of this kind.
pub open spec fn creatable(kind: FieldKind) -> bool {
    kind == FieldKind::Text || kind == FieldKind::Checkbox || kind == FieldKind::Choice || kind
        == FieldKind::Signature
}

/// The checks `create_field` makes before it changes anything all pass.
pub open spec fn creation_accepted(doc: lopdf::Document, name: Seq<char>, has_rect: bool, page_index: usize) -> bool {
    &&& trimmed(name).len() > 0
    &&& !name.contains('.')
    &&& has_rect
    &&& page_index < page_count_of(doc)
    &&& !lists_name(spec_list_fields(objects_of(doc), document_trailer(doc)), name)
}

/// The lengths and leading bytes of the keys a new field's objects use,
/// which tell them all apart.
proof fn lemma_field_keys()
    ensures
        "Type".spec_bytes().len() == 4 && "Type".spec_bytes()[0] == 0x54,
        "Subtype".spec_bytes().len() == 7,
        "T".spec_bytes().len() == 1 && "T".spec_bytes()[0] == 0x54,
        "Rect".spec_bytes().len() == 4 && "Rect".spec_bytes()[0] == 0x52,
        "F".spec_bytes().len() == 1 && "F".spec_bytes()[0] == 0x46,
        "P".spec_bytes().len() == 1 && "P".spec_bytes()[0] == 0x50,
        "V".spec_bytes().len() == 1 && "V".spec_bytes()[0] == 0x56,
        "N".spec_bytes().len() == 1,
        "DA".spec_bytes().len() == 2 && "DA".spec_bytes()[0] == 0x44,
        "FT".spec_bytes().len() == 2 && "FT".spec_bytes()[0] == 0x46 && "FT".spec_bytes()[1] == 0x54,
        "Ff".spec_bytes().len() == 2 && "Ff".spec_bytes()[0] == 0x46 && "Ff".spec_bytes()[1] == 0x66,
        "AS".spec_bytes().len() == 2 && "AS".spec_bytes()[0] == 0x41 && "AS".spec_bytes()[1] == 0x53,
        "AP".spec_bytes().len() == 2 && "AP".spec_bytes()[0] == 0x41 && "AP".spec_bytes()[1] == 0x50,
        "MK".spec_bytes().len() == 2 && "MK".spec_bytes()[0] == 0x4D,
        "BC".spec_bytes().len() == 2 && "BC".spec_bytes()[0] == 0x42,
        "CA".spec_bytes().len() == 2 && "CA".spec_bytes()[0] == 0x43,
        "Opt".spec_bytes().len() == 3,
        "Yes".spec_bytes().len() == 3 && "Yes".spec_bytes()[0] == 0x59,
        "Off".spec_bytes().len() == 3 && "Off".spec_bytes()[0] == 0x4F,
        "BBox".spec_bytes().len() == 4 && "BBox".spec_bytes()[0] == 0x42,
        "MaxLen".spec_bytes().len() == 6 && "MaxLen".spec_bytes()[0] == 0x4D,
        "Annots".spec_bytes().len() == 6 && "Annots".spec_bytes()[0] == 0x41,
        "Fields".spec_bytes().len() == 6 && "Fields".spec_bytes()[0] == 0x46,
        "AcroForm".spec_bytes().len() == 8,
        "Resources".spec_bytes().len() == 9,
        "NeedAppearances".spec_bytes().len() == 15,
{
    reveal_strlit("Type");
    reveal_strlit("Subtype");
    reveal_strlit("T");
    reveal_strlit("Rect");
    reveal_strlit("F");
    reveal_strlit("P");
    reveal_strlit("V");
    reveal_strlit("N");
    reveal_strlit("DA");
    reveal_strlit("FT");
    reveal_strlit("Ff");
    reveal_strlit("AS");
    reveal_strlit("AP");
    reveal_strlit("MK");
    reveal_strlit("BC");
    reveal_strlit("CA");
    reveal_strlit("Opt");
    reveal_strlit("Yes");
    reveal_strlit("Off");
    reveal_strlit("BBox");
    reveal_strlit("MaxLen");
    reveal_strlit("Annots");
    reveal_strlit("Fields");
    reveal_strlit("AcroForm");
    reveal_strlit("Resources");
    reveal_strlit("NeedAppearances");
    lemma_ascii_bytes("Type");
    lemma_ascii_bytes("Subtype");
    lemma_ascii_bytes("T");
    lemma_ascii_bytes("Rect");
    lemma_ascii_bytes("F");
    lemma_ascii_bytes("P");
    lemma_ascii_bytes("V");
    lemma_ascii_bytes("N");
    lemma_ascii_bytes("DA");
    lemma_ascii_bytes("FT");
    lemma_ascii_bytes("Ff");
    lemma_ascii_bytes("AS");
    lemma_ascii_bytes("AP");
    lemma_ascii_bytes("MK");
    lemma_ascii_bytes("BC");
    lemma_ascii_bytes("CA");
    lemma_ascii_bytes("Opt");
    lemma_ascii_bytes("Yes");
    lemma_ascii_bytes("Off");
    lemma_ascii_bytes("BBox");
    lemma_ascii_bytes("MaxLen");
    lemma_ascii_bytes("Annots");
    lemma_ascii_bytes("Fields");
    lemma_ascii_bytes("AcroForm");
    lemma_ascii_bytes("Resources");
    lemma_ascii_bytes("NeedAppearances");
}

/// `object` is a literal string holding `bytes`.
pub open spec fn is_text(object: Option<PdfObject>, bytes: Seq<u8>) -> bool {
    object matches Some(PdfObject::Text(held, format)) && held@ == bytes && format is Literal
}

/// `copy` is what `copy_object` makes of `original`: the same integer, a real
/// with the same decimal text, or `Null` for anything that is not a number.
pub open spec fn copied_number(copy: PdfObject, original: PdfObject) -> bool {
    match original {
        PdfObject::Integer(n) => copy == PdfObject::Integer(n),
        PdfObject::Real(number) => copy matches PdfObject::Real(held) && held.spec_text() == number.spec_text(),
        _ => copy == PdfObject::Null,
    }
}

pub open spec fn copied_numbers(copies: Seq<PdfObject>, originals: Seq<PdfObject>) -> bool {
    &&& copies.len() == originals.len()
    &&& forall|i: int| 0 <= i < copies.len() ==> copied_number(#[trigger] copies[i], originals[i])
}

/// The `/FT` a new field of this kind gets.
pub open spec fn field_type(kind: FieldKind) -> Seq<u8> {
    match kind {
        FieldKind::Text => "Tx".spec_bytes(),
        FieldKind::Checkbox => "Btn".spec_bytes(),
        FieldKind::Choice => "Ch".spec_bytes(),
        _ => "Sig".spec_bytes(),
    }
}

/// The `/Ff` flags a new field gets: required, multiline (text fields only),
/// and combo box (choice fields).
pub open spec fn creation_flags(spec: NewField) -> i64 {
    ((if spec.required { FLAG_REQUIRED } else { 0 }) + (if spec.kind == FieldKind::Text && spec.multiline {
        FLAG_MULTILINE
    } else {
        0
    }) + (if spec.kind == FieldKind::Choice { FLAG_COMBO } else { 0 })) as i64
}

/// The `/DA` a new field gets: Helvetica at the requested size, black.
pub open spec fn creation_appearance(spec: NewField) -> Seq<u8> {
    vstd::utf8::encode_utf8("/Helv "@ + spec.font_size@ + " Tf 0 g"@)
}

/// A checkbox's `/MK`: a black border and the ZapfDingbats check glyph.
pub open spec fn is_check_characteristics(object: Option<PdfObject>) -> bool {
    object matches Some(PdfObject::Dictionary(mk)) && mk@.len() == 2 && is_integer_array(
        mk.lookup("BC".spec_bytes()),
        seq![0i64],
    ) && is_text(mk.lookup("CA".spec_bytes()), "4".spec_bytes())
}

/// A checkbox's `/AP`: normal appearances `Yes` and `Off`.
pub open spec fn is_check_appearances(object: Option<PdfObject>, on: ObjectId, off: ObjectId) -> bool {
    match object {
        Some(PdfObject::Dictionary(ap)) => ap@.len() == 1 && match ap.lookup("N".spec_bytes()) {
            Some(PdfObject::Dictionary(normal)) => {
                &&& normal@.len() == 2
                &&& normal.lookup("Yes".spec_bytes()) == Some(PdfObject::Reference(on))
                &&& normal.lookup("Off".spec_bytes()) == Some(PdfObject::Reference(off))
            },
            _ => false,
        },
        _ => false,
    }
}

/// A choice field's `/Opt`: each option as a text string, in order.
pub open spec fn is_option_array(object: Option<PdfObject>, options: Seq<String>) -> bool {
    object matches Some(PdfObject::Array(items)) && items@.len() == options.len() && forall|i: int|
        0 <= i < options.len() ==> is_text(Some(#[trigger] items@[i]), chars_to_pdf_text(options[i]@))
}

/// What a new field's widget dictionary holds, read key by key: a merged
/// field and widget annotation on `page`, named, placed and styled as `spec`
/// asks, with the entries its kind needs (`on` and `off` are a checkbox's
/// appearance streams).
pub open spec fn widget_has(
    entries: Seq<(Seq<u8>, PdfObject)>,
    spec: NewField,
    page: ObjectId,
    on: ObjectId,
    off: ObjectId,
) -> bool {
    let flags = creation_flags(spec);
    &&& is_name(entry_value(entries, "Type".spec_bytes()), "Annot".spec_bytes())
    &&& is_name(entry_value(entries, "Subtype".spec_bytes()), "Widget".spec_bytes())
    &&& is_text(entry_value(entries, "T".spec_bytes()), chars_to_pdf_text(spec.name@))
    &&& entry_value(entries, "Rect".spec_bytes()) matches Some(PdfObject::Array(corners)) && spec.rect matches Some(
        rect,
    ) && copied_numbers(corners@, rect@)
    &&& entry_value(entries, "F".spec_bytes()) == Some(PdfObject::Integer(4))
    &&& entry_value(entries, "P".spec_bytes()) == Some(PdfObject::Reference(page))
    &&& is_text(entry_value(entries, "DA".spec_bytes()), creation_appearance(spec))
    &&& is_name(entry_value(entries, "FT".spec_bytes()), field_type(spec.kind))
    &&& if flags != 0 {
        entry_value(entries, "Ff".spec_bytes()) == Some(PdfObject::Integer(flags))
    } else {
        entry_value(entries, "Ff".spec_bytes()) is None
    }
    &&& match spec.kind {
        FieldKind::Text => {
            &&& is_text(entry_value(entries, "V".spec_bytes()), Seq::empty())
            &&& match spec.max_length {
                Some(max) => entry_value(entries, "MaxLen".spec_bytes()) == Some(PdfObject::Integer(max)),
                None => entry_value(entries, "MaxLen".spec_bytes()) is None,
            }
        },
        FieldKind::Checkbox => {
            &&& is_name(entry_value(entries, "V".spec_bytes()), "Off".spec_bytes())
            &&& is_name(entry_value(entries, "AS".spec_bytes()), "Off".spec_bytes())
            &&& is_check_characteristics(entry_value(entries, "MK".spec_bytes()))
            &&& is_check_appearances(entry_value(entries, "AP".spec_bytes()), on, off)
        },
        FieldKind::Choice => {
            &&& is_text(entry_value(entries, "V".spec_bytes()), Seq::empty())
            &&& is_option_array(entry_value(entries, "Opt".spec_bytes()), spec.options@)
        },
        _ => true,
    }
}

/// The `/Ff` flags a dictionary's entries hold: the integer stored there, or
/// 0 where there is none.
pub open spec fn stored_flags(entries: Seq<(Seq<u8>, PdfObject)>) -> i64 {
    match entry_value(entries, "Ff".spec_bytes()) {
        Some(PdfObject::Integer(flags)) => flags,
        _ => 0,
    }
}

proof fn lemma_flag_bits(a: i64, b: i64, c: i64, x: i64)
    by (bit_vector)
    requires
        a == 0 || a == 2,
        b == 0 || b == 4096,
        c == 0 || c == 131072,
        x == a + b + c,
    ensures
        (x & 131072 != 0) == (c != 0),
        (x & 4096 != 0) == (b != 0),
        (x & 2 != 0) == (a != 0),
        x & 32768 == 0,
        x & 65536 == 0,
{
}

/// A field made by `create_field` says what it is in its `/Ff` bits (PDF
/// 32000-1, 12.7.4): a choice field is a drop-down, with the combo bit
/// (1 << 17) set; the required bit (1 << 1) is set exactly when the field is
/// required; the multiline bit (1 << 12) exactly for a multiline text field;
/// and a checkbox has neither the radio (1 << 15) nor the push-button
/// (1 << 16) bit, so it reads back as a checkbox.
pub proof fn law_a_new_field_carries_its_kind_in_its_flags(
    before: lopdf::Document,
    after: lopdf::Document,
    spec: NewField,
    page: ObjectId,
)
    requires
        field_created(before, after, spec, page),
    ensures
        objects_of(after)[(document_max_id(after), 0u16)] is Dictionary,
        ({
            let flags = stored_flags(objects_of(after)[(document_max_id(after), 0u16)]->Dictionary_0@);
            &&& (flags & 0x20000 != 0) == (spec.kind == FieldKind::Choice)
            &&& (flags & 0x2 != 0) == spec.required
            &&& (flags & 0x1000 != 0) == (spec.kind == FieldKind::Text && spec.multiline)
            &&& flags & 0x8000 == 0
            &&& flags & 0x10000 == 0
        }),
{
    let entries = objects_of(after)[(document_max_id(after), 0u16)]->Dictionary_0@;
    let a: i64 = if spec.required { 2 } else { 0 };
    let b: i64 = if spec.kind == FieldKind::Text && spec.multiline { 4096 } else { 0 };
    let c: i64 = if spec.kind == FieldKind::Choice { 131072 } else { 0 };
    assert(creation_flags(spec) == a + b + c);
    assert(stored_flags(entries) == creation_flags(spec));
    lemma_flag_bits(a, b, c, creation_flags(spec));
}

/// How many entries a new field's widget has.
pub open spec fn widget_count(spec: NewField) -> nat {
    8 + match spec.kind {
        FieldKind::Text => if spec.max_length is Some { 2nat } else { 1nat },
        FieldKind::Checkbox => 4nat,
        FieldKind::Choice => 2nat,
        _ => 0nat,
    } + if creation_flags(spec) != 0 { 1nat } else { 0nat }
}

/// A checkbox appearance: a form XObject with this bounding box (numbers
/// copied), no resources, and this content.
pub open spec fn is_appearance_stream(object: PdfObject, bbox: Seq<PdfObject>, content: Seq<u8>) -> bool {
    match object {
        PdfObject::Stream(stream) => {
            &&& stream.content@ == content
            &&& stream.dict@.len() == 4
            &&& is_name(stream.dict.lookup("Type".spec_bytes()), "XObject".spec_bytes())
            &&& is_name(stream.dict.lookup("Subtype".spec_bytes()), "Form".spec_bytes())
            &&& stream.dict.lookup("BBox".spec_bytes()) matches Some(PdfObject::Array(corners))
                && copied_numbers(corners@, bbox)
            &&& is_empty_dictionary(stream.dict.lookup("Resources".spec_bytes()))
        },
        _ => false,
    }
}

/// A copy of a number object (an integer or a real), as stored in a `/Rect` or
/// `/BBox`; anything else copies as `Null`.
fn copy_object(object: &PdfObject) -> (r: PdfObject)
    ensures
        copied_number(r, *object),
{
    match object {
        PdfObject::Integer(number) => PdfObject::Integer(*number),
        PdfObject::Real(number) => PdfObject::Real(number.copy()),
        _ => PdfObject::Null,
    }
}

/// Copies of a list of numbers.
fn copy_numbers(items: &Vec<PdfObject>) -> (r: Vec<PdfObject>)
    ensures
        copied_numbers(r@, items@),
        forall|i: int| 0 <= i < r@.len() ==> #[trigger] deep_distinct(r@[i]),
{
    let mut out: Vec<PdfObject> = Vec::new();
    let mut k: usize = 0;
    while k < items.len()
        invariant
            k <= items@.len(),
            out@.len() == k,
            forall|i: int| 0 <= i < k ==> copied_number(#[trigger] out@[i], items@[i]),
            forall|i: int| 0 <= i < k ==> #[trigger] deep_distinct(out@[i]),
        decreases items@.len() - k,
    {
        out.push(copy_object(&items[k]));
        k = k + 1;
    }
    out
}

/// A stream holding a checkbox appearance, added as a new object.
fn appearance_stream(doc: &mut lopdf::Document, bbox: &Vec<PdfObject>, content: &Vec<u8>) -> (r: ObjectId)
    requires
        document_max_id(*old(doc)) < u32::MAX,
    ensures
        r == ((document_max_id(*old(doc)) + 1) as u32, 0u16),
        document_max_id(*final(doc)) == document_max_id(*old(doc)) + 1,
        document_trailer(*final(doc)) == document_trailer(*old(doc)),
        objects_of(*final(doc)) == objects_of(*old(doc)).insert(r, objects_of(*final(doc))[r]),
        is_appearance_stream(objects_of(*final(doc))[r], bbox@, content@),
{
    broadcast use crate::pdf::object::lemma_lookup_after_set, crate::pdf::object::lemma_len_after_set;

    proof {
        lemma_field_keys();
        reveal_strlit("Type");
        reveal_strlit("Subtype");
    }
    let mut dict = PdfDict::new();
    dict.set(key("Type"), PdfObject::Name(key("XObject")));
    dict.set(key("Subtype"), PdfObject::Name(key("Form")));
    dict.set(key("BBox"), PdfObject::Array(copy_numbers(bbox)));
    dict.set(key("Resources"), PdfObject::Dictionary(PdfDict::new()));
    let stream = crate::pdf::object::PdfStream {
        dict,
        content: copy_bytes(content.as_slice()),
        allows_compression: true,
        start_position: None,
    };
    add_object(doc, PdfObject::Stream(stream))
}

/// The widget dictionary of a new field on `page`; `on` and `off` are a
/// checkbox's appearance streams.
#[verifier::rlimit(40)]
fn new_widget(spec: &NewField, page: ObjectId, on: ObjectId, off: ObjectId) -> (w: PdfDict)
    requires
        creatable(spec.kind),
        spec.rect is Some,
    ensures
        widget_has(w@, *spec, page, on, off),
        w@.len() == widget_count(*spec),
        dict_deep(w),
{
    broadcast use crate::pdf::object::lemma_lookup_after_set, crate::pdf::object::lemma_len_after_set;

    proof {
        lemma_field_keys();
    }
    let mut flags: i64 = 0;
    if spec.required {
        flags = flags | FLAG_REQUIRED;
        assert((0i64 | 2i64) == 2i64) by (bit_vector);
    }
    let rect = match &spec.rect {
        Some(rect) => rect,
        None => return PdfDict::new(),
    };
    let mut appearance = String::from_str("/Helv ");
    appearance.append(spec.font_size.as_str());
    appearance.append(" Tf 0 g");

    let mut widget = PdfDict::new();
    widget.set(key("Type"), PdfObject::Name(key("Annot")));
    widget.set(key("Subtype"), PdfObject::Name(key("Widget")));
    widget.set(key("T"), PdfObject::Text(encode_pdf_text(spec.name.as_str()), TextFormat::Literal));
    widget.set(key("Rect"), PdfObject::Array(copy_numbers(rect)));
    // Bit 3 (value 4) = Print: without it the field never appears on paper.
    widget.set(key("F"), PdfObject::Integer(4));
    widget.set(key("P"), PdfObject::Reference(page));
    widget.set(key("DA"), PdfObject::Text(copy_bytes(appearance.as_str().as_bytes()), TextFormat::Literal));

    match spec.kind {
        FieldKind::Text => {
            widget.set(key("FT"), PdfObject::Name(key("Tx")));
            if spec.multiline {
                let before = flags;
                flags = flags | FLAG_MULTILINE;
                assert(before == 0 || before == 2);
                assert((0i64 | 4096i64) == 4096i64) by (bit_vector);
                assert((2i64 | 4096i64) == 4098i64) by (bit_vector);
            }
            if let Some(max) = spec.max_length {
                widget.set(key("MaxLen"), PdfObject::Integer(max));
            }
            widget.set(key("V"), PdfObject::Text(Vec::new(), TextFormat::Literal));
        },
        FieldKind::Checkbox => {
            widget.set(key("FT"), PdfObject::Name(key("Btn")));
            widget.set(key("V"), PdfObject::Name(key("Off")));
            widget.set(key("AS"), PdfObject::Name(key("Off")));
            // ZapfDingbats "4" is the conventional check glyph.
            let mut border: Vec<PdfObject> = Vec::new();
            border.push(PdfObject::Integer(0));
            let mut characteristics = PdfDict::new();
            characteristics.set(key("BC"), PdfObject::Array(border));
            characteristics.set(key("CA"), PdfObject::Text(key("4"), TextFormat::Literal));
            widget.set(key("MK"), PdfObject::Dictionary(characteristics));
            // Declare the two appearance states so viewers know the on-value.
            let mut normal = PdfDict::new();
            normal.set(key("Yes"), PdfObject::Reference(on));
            normal.set(key("Off"), PdfObject::Reference(off));
            let mut appearances = PdfDict::new();
            appearances.set(key("N"), PdfObject::Dictionary(normal));
            widget.set(key("AP"), PdfObject::Dictionary(appearances));
        },
        FieldKind::Choice => {
            widget.set(key("FT"), PdfObject::Name(key("Ch")));
            let before = flags;
            flags = flags | FLAG_COMBO;
            assert(before == 0 || before == 2);
            assert((0i64 | 131072i64) == 131072i64) by (bit_vector);
            assert((2i64 | 131072i64) == 131074i64) by (bit_vector);
            let mut options: Vec<PdfObject> = Vec::new();
            let mut k: usize = 0;
            while k < spec.options.len()
                invariant
                    k <= spec.options@.len(),
                    options@.len() == k,
                    forall|i: int| 0 <= i < k ==> is_text(Some(#[trigger] options@[i]), chars_to_pdf_text(spec.options@[i]@)),
                    forall|i: int| 0 <= i < k ==> #[trigger] deep_distinct(options@[i]),
                decreases spec.options@.len() - k,
            {
                options.push(PdfObject::Text(encode_pdf_text(spec.options[k].as_str()), TextFormat::Literal));
                k = k + 1;
            }
            widget.set(key("Opt"), PdfObject::Array(options));
            widget.set(key("V"), PdfObject::Text(Vec::new(), TextFormat::Literal));
        },
        _ => {
            widget.set(key("FT"), PdfObject::Name(key("Sig")));
        },
    }
    assert(flags == creation_flags(*spec));
    if flags != 0 {
        widget.set(key("Ff"), PdfObject::Integer(flags));
    }
    widget
}

/// `object` is an array whose last item refers to `item`.
pub open spec fn ends_with_reference(object: Option<PdfObject>, item: ObjectId) -> bool {
    match object {
        Some(PdfObject::Array(items)) => items@.len() > 0 && items@.last() == PdfObject::Reference(item),
        _ => false,
    }
}

/// The array under `list` in `after` is the one `before` held (or a new one,
/// where it held no array) with a reference to `item` added at the end.
pub open spec fn appended_to(before: PdfDict, after: PdfDict, list: Seq<u8>, item: ObjectId) -> bool {
    match after.lookup(list) {
        Some(PdfObject::Array(items)) => items@.len() > 0 && items@.last() == PdfObject::Reference(item)
            && match before.lookup(list) {
            Some(PdfObject::Array(earlier)) => items@.drop_last() == earlier@,
            _ => items@.len() == 1,
        },
        _ => false,
    }
}

/// `after` is the page dictionary `before` with the widget `item` added to
/// its `/Annots`, and every other entry as it was.
pub open spec fn annotation_linked(before: PdfDict, after: PdfDict, item: ObjectId) -> bool {
    &&& appended_to(before, after, "Annots".spec_bytes(), item)
    &&& forall|k: Seq<u8>| k != "Annots".spec_bytes() ==> #[trigger] entry_value(after@, k) == entry_value(before@, k)
}

/// `after` is the form dictionary `before` with the field `item` added to its
/// `/Fields` and `/NeedAppearances` set, and every other entry as it was.
pub open spec fn field_linked(before: PdfDict, after: PdfDict, item: ObjectId) -> bool {
    &&& appended_to(before, after, "Fields".spec_bytes(), item)
    &&& after.lookup("NeedAppearances".spec_bytes()) == Some(PdfObject::Boolean(true))
    &&& forall|k: Seq<u8>|
        k != "Fields".spec_bytes() && k != "NeedAppearances".spec_bytes() ==> #[trigger] entry_value(after@, k)
            == entry_value(before@, k)
}

/// `doc` after storing a changed dictionary where `holder` was found.
pub open spec fn dict_updated(
    before: lopdf::Document,
    after: lopdf::Document,
    at: ObjectId,
) -> bool {
    &&& objects_of(after) == objects_of(before).insert(at, objects_of(after)[at])
    &&& objects_of(after)[at] is Dictionary
    &&& document_trailer(after) == document_trailer(before)
    &&& document_max_id(after) == document_max_id(before)
}

/// Adds the widget `widget` to the `/Annots` of the page dictionary `page`
/// resolves to; a missing or non-array `/Annots` starts a new array.
fn link_annotation(doc: &mut lopdf::Document, page: ObjectId, widget: ObjectId) -> (r: AppResult<()>)
    ensures
        match dict_target(objects_of(*old(doc)), page) {
            None => *final(doc) == *old(doc) && pdf_error(r),
            Some((at, dict)) => r is Ok && dict_updated(*old(doc), *final(doc), at) && annotation_linked(
                dict,
                objects_of(*final(doc))[at]->Dictionary_0,
                widget,
            ),
        },
{
    broadcast use crate::pdf::object::lemma_lookup_after_set;

    let (target, mut page_dict) = match dict_for_update(doc, page) {
        Some(found) => found,
        None => return Err(AppError::Pdf(dictionary_error(doc, page))),
    };
    let ghost before = page_dict;
    let taken = page_dict.take_value("Annots".as_bytes());
    let ghost middle = page_dict;
    let mut annots = match taken {
        Some(PdfObject::Array(items)) => items,
        _ => Vec::new(),
    };
    let ghost earlier = annots@;
    annots.push(PdfObject::Reference(widget));
    let ghost list = annots;
    assert(list@.drop_last() =~= earlier);
    page_dict.set(key("Annots"), PdfObject::Array(annots));
    let ghost after = page_dict;
    assert(after.lookup("Annots".spec_bytes()) == Some(PdfObject::Array(list)));
    assert(appended_to(before, after, "Annots".spec_bytes(), widget));
    assert forall|k: Seq<u8>| k != "Annots".spec_bytes() implies #[trigger] entry_value(after@, k) == entry_value(
        before@,
        k,
    ) by {
        assert(entry_value(after@, k) == entry_value(middle@, k));
    }
    put_object(doc, target, PdfObject::Dictionary(page_dict));
    assert(objects_of(*doc)[target] == PdfObject::Dictionary(after));
    Ok(())
}

/// Adds the field `field` to the `/Fields` of the form dictionary `form`
/// resolves to, and asks viewers to rebuild appearances.
fn link_field(doc: &mut lopdf::Document, form: ObjectId, field: ObjectId) -> (r: AppResult<()>)
    ensures
        match dict_target(objects_of(*old(doc)), form) {
            None => *final(doc) == *old(doc) && pdf_error(r),
            Some((at, dict)) => r is Ok && dict_updated(*old(doc), *final(doc), at) && field_linked(
                dict,
                objects_of(*final(doc))[at]->Dictionary_0,
                field,
            ),
        },
{
    broadcast use crate::pdf::object::lemma_lookup_after_set;

    proof {
        lemma_field_keys();
    }
    let (target, mut form_dict) = match dict_for_update(doc, form) {
        Some(found) => found,
        None => return Err(AppError::Pdf(dictionary_error(doc, form))),
    };
    let ghost before = form_dict;
    let taken = form_dict.take_value("Fields".as_bytes());
    let ghost middle = form_dict;
    let mut fields = match taken {
        Some(PdfObject::Array(items)) => items,
        _ => Vec::new(),
    };
    let ghost earlier = fields@;
    fields.push(PdfObject::Reference(field));
    let ghost list = fields;
    assert(list@.drop_last() =~= earlier);
    form_dict.set(key("Fields"), PdfObject::Array(fields));
    let ghost listed = form_dict;
    form_dict.set(key("NeedAppearances"), PdfObject::Boolean(true));
    let ghost after = form_dict;
    assert(after.lookup("Fields".spec_bytes()) == Some(PdfObject::Array(list)));
    assert(appended_to(before, after, "Fields".spec_bytes(), field));
    assert forall|k: Seq<u8>|
        k != "Fields".spec_bytes() && k != "NeedAppearances".spec_bytes() implies #[trigger] entry_value(
        after@,
        k,
    ) == entry_value(before@, k) by {
        assert(entry_value(after@, k) == entry_value(listed@, k));
        assert(entry_value(listed@, k) == entry_value(middle@, k));
    }
    put_object(doc, target, PdfObject::Dictionary(form_dict));
    assert(objects_of(*doc)[target] == PdfObject::Dictionary(after));
    Ok(())
}

/// The form the catalog names lists `widget` last among its fields, and asks
/// viewers to rebuild appearances.
pub open spec fn form_lists(objects: Map<ObjectId, PdfObject>, trailer: PdfDict, widget: ObjectId) -> bool {
    match catalog_ref(trailer) {
        Some(catalog) => match form_reference(objects, catalog) {
            Some(form) => match dict_target(objects, form) {
                Some((_, dict)) => ends_with_reference(dict.lookup("Fields".spec_bytes()), widget) && dict.lookup(
                    "NeedAppearances".spec_bytes(),
                ) == Some(PdfObject::Boolean(true)),
                None => false,
            },
            None => false,
        },
        None => false,
    }
}

/// What a successful `create_field` leaves in `after`: the widget, numbered
/// last, holding what `spec` asks for on `page`; a checkbox's two appearance
/// streams just before it; the widget last in the page's `/Annots`; and, on a
/// well-numbered document, last in the form's `/Fields`.
pub open spec fn field_created(before: lopdf::Document, after: lopdf::Document, spec: NewField, page: ObjectId) -> bool {
    let objects = objects_of(after);
    let last = document_max_id(after);
    let widget: ObjectId = (last, 0u16);
    let on: ObjectId = ((last - 2) as u32, 0u16);
    let off: ObjectId = ((last - 1) as u32, 0u16);
    &&& last > document_max_id(before)
    &&& objects.contains_key(widget)
    &&& objects[widget] is Dictionary && widget_has(objects[widget]->Dictionary_0@, spec, page, on, off)
    &&& spec.kind == FieldKind::Checkbox ==> is_appearance_stream(objects[on], spec.checkbox.bbox@, spec.checkbox.ticked@)
        && is_appearance_stream(objects[off], spec.checkbox.bbox@, spec.checkbox.clear@)
    &&& match dict_target(objects, page) {
        Some((_, dict)) => ends_with_reference(dict.lookup("Annots".spec_bytes()), widget),
        None => false,
    }
    &&& ids_bounded(objects_of(before), document_max_id(before)) ==> form_lists(objects, document_trailer(before), widget)
}

/// The document is well-numbered, its catalog and `page` resolve to
/// dictionaries, and so does its form if the catalog names one: nothing
/// stands in the way of adding a field there.
pub open spec fn field_can_be_created(doc: lopdf::Document, page: ObjectId) -> bool {
    let objects = objects_of(doc);
    &&& ids_bounded(objects, document_max_id(doc))
    &&& dict_target(objects, page) is Some
    &&& match catalog_ref(document_trailer(doc)) {
        Some(catalog) => dict_of(objects, catalog) is Some && match form_reference(objects, catalog) {
            Some(form) => dict_target(objects, form) is Some,
            None => true,
        },
        None => false,
    }
}

/// The array under `list` in `after` is `earlier` (a new one, where `earlier`
/// is no array) with a reference to `item` added at the end.
pub open spec fn list_grown(earlier: Option<PdfObject>, after: PdfDict, list: Seq<u8>, item: ObjectId) -> bool {
    match after.lookup(list) {
        Some(PdfObject::Array(items)) => items@.len() > 0 && items@.last() == PdfObject::Reference(item)
            && match earlier {
            Some(PdfObject::Array(before)) => items@.drop_last() == before@,
            _ => items@.len() == 1,
        },
        _ => false,
    }
}

/// The `/Fields` a new field is added after: the form's, where the catalog
/// names one, otherwise those of a form it holds inline.
pub open spec fn earlier_fields(objects: Map<ObjectId, PdfObject>, catalog: ObjectId) -> Option<PdfObject> {
    match form_reference(objects, catalog) {
        Some(form) => match dict_of(objects, form) {
            Some(dict) => dict.lookup("Fields".spec_bytes()),
            None => None,
        },
        None => match inline_form(objects, catalog) {
            Some(dict) => dict.lookup("Fields".spec_bytes()),
            None => None,
        },
    }
}

/// Of the objects `before` held, the one that changes when a field is linked
/// in besides the page: the form's dictionary, or, where the form is new, the
/// catalog's.
pub open spec fn form_holder(before: Map<ObjectId, PdfObject>, catalog: ObjectId) -> ObjectId {
    match form_reference(before, catalog) {
        Some(form) => found_at(dict_target(before, form)),
        None => found_at(dict_target(before, catalog)),
    }
}

/// `after` is `before` with the widget `widget` linked in as a new field on
/// `page`: the page's `/Annots` and the form's `/Fields` are the earlier lists
/// with the widget added at the end, and every other object the document held
/// is as it was.
pub open spec fn field_linked_in(
    before: Map<ObjectId, PdfObject>,
    after: Map<ObjectId, PdfObject>,
    catalog: ObjectId,
    page: ObjectId,
    widget: ObjectId,
) -> bool {
    let page_at = found_at(dict_target(before, page));
    &&& form_reference(after, catalog) is Some
    &&& list_grown(
        found_dict(dict_target(before, page)).lookup("Annots".spec_bytes()),
        found_dict(dict_target(after, page)),
        "Annots".spec_bytes(),
        widget,
    )
    &&& list_grown(
        earlier_fields(before, catalog),
        found_dict(dict_target(after, form_reference(after, catalog)->0)),
        "Fields".spec_bytes(),
        widget,
    )
    &&& forall|id: ObjectId|
        #[trigger] before.contains_key(id) && id != page_at && id != form_holder(before, catalog) ==> after.contains_key(id)
            && after[id] == before[id]
}

/// A dictionary that was `original`, or `original` with only `/AcroForm`
/// set, reads `key` as `original` does, for any other key.
proof fn lemma_catalog_key_kept(
    o0: Map<ObjectId, PdfObject>,
    o1: Map<ObjectId, PdfObject>,
    catalog: ObjectId,
    form: ObjectId,
    at: ObjectId,
    key: Seq<u8>,
)
    requires
        o0.contains_key(at),
        o0[at] is Dictionary,
        dict_target(o0, catalog) is Some,
        catalog_linked(o0, o1, catalog, form),
        key != "AcroForm".spec_bytes(),
    ensures
        o1[at] is Dictionary,
        o1[at]->Dictionary_0.lookup(key) == o0[at]->Dictionary_0.lookup(key),
{
    if at == found_at(dict_target(o0, catalog)) {
        crate::pdf::document::lemma_target_stored(o0, catalog);
        crate::pdf::object::lemma_lookup_after_set(
            found_dict(dict_target(o0, catalog))@,
            "AcroForm".spec_bytes(),
            PdfObject::Reference(form),
            key,
        );
    } else {
        assert(o0.contains_key(at) && at != found_at(dict_target(o0, catalog)));
    }
}

/// Every object `o0` held is unchanged in `o5` but those at `pt` and the
/// form's holder.
#[verifier::spinoff_prover]
proof fn lemma_others_kept(
    o0: Map<ObjectId, PdfObject>,
    o1: Map<ObjectId, PdfObject>,
    o3: Map<ObjectId, PdfObject>,
    o4: Map<ObjectId, PdfObject>,
    o5: Map<ObjectId, PdfObject>,
    catalog: ObjectId,
    form: ObjectId,
    pt: ObjectId,
    ft: ObjectId,
    pd2: PdfDict,
    fd2: PdfDict,
)
    requires
        form_reference(o0, catalog) is Some ==> o1 == o0 && form_reference(o0, catalog) == Some(form)
            && found_at(dict_target(o0, form)) == ft,
        form_reference(o0, catalog) is None ==> catalog_linked(o0, o1, catalog, form) && !o0.contains_key(form) && ft == form,
        forall|id: ObjectId| #[trigger] o1.contains_key(id) ==> o3.contains_key(id) && o3[id] == o1[id],
        o4 == o3.insert(pt, PdfObject::Dictionary(pd2)),
        o5 == o4.insert(ft, PdfObject::Dictionary(fd2)),
    ensures
        forall|id: ObjectId|
            #[trigger] o0.contains_key(id) && id != pt && id != form_holder(o0, catalog) ==> o5.contains_key(id)
                && o5[id] == o0[id],
{
    assert forall|id: ObjectId|
        #[trigger] o0.contains_key(id) && id != pt && id != form_holder(o0, catalog) implies o5.contains_key(id)
            && o5[id] == o0[id] by {
        if form_reference(o0, catalog) is None {
            assert(id != form);
        }
        assert(o1.contains_key(id) && o1[id] == o0[id]);
        assert(o3.contains_key(id) && o3[id] == o1[id]);
    }
}

/// The page's final `/Annots` is its original one with the widget added.
#[verifier::spinoff_prover]
proof fn lemma_annots_grown(
    o0: Map<ObjectId, PdfObject>,
    o1: Map<ObjectId, PdfObject>,
    o3: Map<ObjectId, PdfObject>,
    catalog: ObjectId,
    form: ObjectId,
    page: ObjectId,
    widget: ObjectId,
    pt: ObjectId,
    pd: PdfDict,
    pd2: PdfDict,
    ft: ObjectId,
    fd: PdfDict,
    fd2: PdfDict,
    last: PdfDict,
)
    requires
        dict_target(o0, page) is Some,
        found_at(dict_target(o0, page)) == pt,
        dict_of(o0, catalog) is Some,
        form_reference(o0, catalog) is Some ==> o1 == o0,
        form_reference(o0, catalog) is None ==> catalog_linked(o0, o1, catalog, form),
        o1.contains_key(pt) ==> o3.contains_key(pt) && o3[pt] == o1[pt],
        o3[pt] == PdfObject::Dictionary(pd),
        annotation_linked(pd, pd2, widget),
        ft == pt ==> fd == pd2 && field_linked(fd, fd2, widget),
        last == (if ft == pt { fd2 } else { pd2 }),
    ensures
        list_grown(found_dict(dict_target(o0, page)).lookup("Annots".spec_bytes()), last, "Annots".spec_bytes(), widget),
{
    lemma_field_keys();
    lemma_dict_of_target(o0, catalog);
    crate::pdf::document::lemma_target_stored(o0, page);
    if form_reference(o0, catalog) is None {
        lemma_catalog_key_kept(o0, o1, catalog, form, pt, "Annots".spec_bytes());
    }
    assert(pd.lookup("Annots".spec_bytes()) == found_dict(dict_target(o0, page)).lookup("Annots".spec_bytes()));
    if ft == pt {
        assert(entry_value(fd2@, "Annots".spec_bytes()) == entry_value(fd@, "Annots".spec_bytes()));
    }
    assert(last.lookup("Annots".spec_bytes()) == pd2.lookup("Annots".spec_bytes()));
}

/// An empty array.
pub open spec fn empty_list(object: Option<PdfObject>) -> bool {
    object matches Some(PdfObject::Array(items)) && items@.len() == 0
}

/// The form's final `/Fields` is the earlier list with the widget added.
#[verifier::spinoff_prover]
#[verifier::rlimit(50)]
proof fn lemma_fields_grown(
    o0: Map<ObjectId, PdfObject>,
    o1: Map<ObjectId, PdfObject>,
    o3: Map<ObjectId, PdfObject>,
    catalog: ObjectId,
    form: ObjectId,
    widget: ObjectId,
    pt: ObjectId,
    pd: PdfDict,
    pd2: PdfDict,
    ft: ObjectId,
    fd: PdfDict,
    fd2: PdfDict,
)
    requires
        dict_of(o0, catalog) is Some,
        form_reference(o0, catalog) is Some ==> o1 == o0 && form_reference(o0, catalog) == Some(form)
            && dict_target(o0, form) is Some && found_at(dict_target(o0, form)) == ft,
        form_reference(o0, catalog) is None ==> {
            &&& ft == form
            &&& o1.contains_key(form)
            &&& o1[form] matches PdfObject::Dictionary(made) && fields_carried(inline_form(o0, catalog), Some(made))
        },
        o1.contains_key(ft) ==> o3.contains_key(ft) && o3[ft] == o1[ft],
        o3[pt] == PdfObject::Dictionary(pd),
        annotation_linked(pd, pd2, widget),
        fd == (if ft == pt { pd2 } else { o3[ft]->Dictionary_0 }),
        ft != pt ==> o3[ft] is Dictionary,
        field_linked(fd, fd2, widget),
    ensures
        list_grown(earlier_fields(o0, catalog), fd2, "Fields".spec_bytes(), widget),
{
    let held = o3[ft]->Dictionary_0.lookup("Fields".spec_bytes());
    assert(fd.lookup("Fields".spec_bytes()) == held) by {
        lemma_field_keys();
        if ft == pt {
            assert(entry_value(pd2@, "Fields".spec_bytes()) == entry_value(pd@, "Fields".spec_bytes()));
        }
    }
    let earlier = earlier_fields(o0, catalog);
    // The list the link found is the earlier one, or, for a new form that
    // carried none over, an empty one: either way the widget ends up last
    // after the earlier entries.
    assert(held == earlier || (!(earlier matches Some(PdfObject::Array(_))) && empty_list(held))) by {
        if form_reference(o0, catalog) is Some {
            crate::pdf::document::lemma_target_stored(o0, form);
            lemma_dict_of_target(o0, form);
            assert(o3[ft] == o0[ft]);
        } else {
            assert(o3[ft] == o1[ft]);
        }
    }
}

/// Linking a widget into the page's `/Annots` and the form's `/Fields`, in
/// that order, after the form was ensured and the new objects added, is
/// [`field_linked_in`].
#[verifier::spinoff_prover]
proof fn lemma_field_linked_in(
    o0: Map<ObjectId, PdfObject>,
    o1: Map<ObjectId, PdfObject>,
    o3: Map<ObjectId, PdfObject>,
    o4: Map<ObjectId, PdfObject>,
    o5: Map<ObjectId, PdfObject>,
    catalog: ObjectId,
    form: ObjectId,
    page: ObjectId,
    widget: ObjectId,
    pt: ObjectId,
    pd: PdfDict,
    pd2: PdfDict,
    ft: ObjectId,
    fd: PdfDict,
    fd2: PdfDict,
)
    requires
        dict_target(o0, page) is Some,
        found_at(dict_target(o0, page)) == pt,
        dict_of(o0, catalog) is Some,
        form_reference(o0, catalog) is Some ==> o1 == o0 && form_reference(o0, catalog) == Some(form)
            && dict_target(o0, form) is Some && found_at(dict_target(o0, form)) == ft,
        form_reference(o0, catalog) is None ==> {
            &&& catalog_linked(o0, o1, catalog, form)
            &&& !o0.contains_key(form)
            &&& ft == form
            &&& o1.contains_key(form)
            &&& o1[form] matches PdfObject::Dictionary(made) && fields_carried(inline_form(o0, catalog), Some(made))
        },
        forall|id: ObjectId| #[trigger] o1.contains_key(id) ==> o3.contains_key(id) && o3[id] == o1[id],
        o3.contains_key(pt),
        o3[pt] == PdfObject::Dictionary(pd),
        o4 == o3.insert(pt, PdfObject::Dictionary(pd2)),
        annotation_linked(pd, pd2, widget),
        o4.contains_key(ft),
        o4[ft] == PdfObject::Dictionary(fd),
        o5 == o4.insert(ft, PdfObject::Dictionary(fd2)),
        field_linked(fd, fd2, widget),
        dict_target(o5, page) == Some((pt, if ft == pt { fd2 } else { pd2 })),
        form_reference(o5, catalog) == Some(form),
        dict_target(o5, form) == Some((ft, fd2)),
    ensures
        field_linked_in(o0, o5, catalog, page, widget),
{
    assert(o1.contains_key(pt) ==> o3.contains_key(pt) && o3[pt] == o1[pt]);
    assert(o1.contains_key(ft) ==> o3.contains_key(ft) && o3[ft] == o1[ft]);
    if ft == pt {
        assert(fd == pd2);
    } else {
        assert(o4[ft] == o3[ft]);
    }
    lemma_annots_grown(o0, o1, o3, catalog, form, page, widget, pt, pd, pd2, ft, fd, fd2, if ft == pt { fd2 } else { pd2 });
    lemma_fields_grown(o0, o1, o3, catalog, form, widget, pt, pd, pd2, ft, fd, fd2);
    lemma_others_kept(o0, o1, o3, o4, o5, catalog, form, pt, ft, pd2, fd2);
}

/// The catalog keeps naming its form after a dictionary is stored back with
/// only other keys changed.
proof fn lemma_form_reference_kept(
    before: Map<ObjectId, PdfObject>,
    at: ObjectId,
    replacement: PdfDict,
    catalog: ObjectId,
    touched: Set<Seq<u8>>,
)
    requires
        before.contains_key(at),
        before[at] is Dictionary,
        dict_of(before, catalog) is Some,
        !touched.contains("AcroForm".spec_bytes()),
        forall|k: Seq<u8>| !touched.contains(k) ==> #[trigger] entry_value(replacement@, k) == entry_value(
            before[at]->Dictionary_0@,
            k,
        ),
    ensures
        form_reference(before.insert(at, PdfObject::Dictionary(replacement)), catalog) == form_reference(before, catalog),
{
    lemma_dict_of_target(before, catalog);
    crate::pdf::document::lemma_target_stored(before, catalog);
    crate::pdf::document::lemma_dict_of_after_replace(before, catalog, at, replacement);
    assert(entry_value(replacement@, "AcroForm".spec_bytes()) == entry_value(
        before[at]->Dictionary_0@,
        "AcroForm".spec_bytes(),
    ));
}

/// The catalog keeps naming its form after an object is stored under an
/// unused id.
proof fn lemma_form_reference_fresh(
    before: Map<ObjectId, PdfObject>,
    fresh: ObjectId,
    value: PdfObject,
    catalog: ObjectId,
)
    requires
        !before.contains_key(fresh),
        dict_of(before, catalog) is Some,
    ensures
        form_reference(before.insert(fresh, value), catalog) == form_reference(before, catalog),
        dict_of(before.insert(fresh, value), catalog) is Some,
{
    lemma_dict_of_target(before, catalog);
    crate::pdf::document::lemma_dict_target_after_fresh(before, catalog, fresh, value);
}

/// Widget entries survive the page and form links, which touch other keys.
proof fn lemma_widget_kept(
    before: Seq<(Seq<u8>, PdfObject)>,
    after: Seq<(Seq<u8>, PdfObject)>,
    spec: NewField,
    page: ObjectId,
    on: ObjectId,
    off: ObjectId,
    touched: Set<Seq<u8>>,
)
    requires
        widget_has(before, spec, page, on, off),
        touched.subset_of(set!["Annots".spec_bytes(), "Fields".spec_bytes(), "NeedAppearances".spec_bytes()]),
        forall|k: Seq<u8>| !touched.contains(k) ==> #[trigger] entry_value(after, k) == entry_value(before, k),
    ensures
        widget_has(after, spec, page, on, off),
{
    lemma_field_keys();
    assert(!touched.contains("Type".spec_bytes()));
    assert(!touched.contains("Subtype".spec_bytes()));
    assert(!touched.contains("T".spec_bytes()));
    assert(!touched.contains("Rect".spec_bytes()));
    assert(!touched.contains("F".spec_bytes()));
    assert(!touched.contains("P".spec_bytes()));
    assert(!touched.contains("DA".spec_bytes()));
    assert(!touched.contains("FT".spec_bytes()));
    assert(!touched.contains("Ff".spec_bytes()));
    assert(!touched.contains("V".spec_bytes()));
    assert(!touched.contains("MaxLen".spec_bytes()));
    assert(!touched.contains("AS".spec_bytes()));
    assert(!touched.contains("MK".spec_bytes()));
    assert(!touched.contains("AP".spec_bytes()));
    assert(!touched.contains("Opt".spec_bytes()));
}

/// The error for a kind of field that cannot be created.
pub open spec fn unsupported_message(kind: FieldKind) -> Seq<char> {
    "Creating "@ + kind_name(kind) + " fields is not supported yet."@
}

/// `after` is `before` with only its form ensured: unchanged where the
/// catalog names a form already; otherwise the catalog names a new form, the
/// two new objects (a font and the form, carrying an inline form's `/Fields`)
/// are all that was added, and nothing else the document held changed.
pub open spec fn form_only_ensured(before: lopdf::Document, after: lopdf::Document) -> bool {
    let objects = objects_of(before);
    let catalog = catalog_ref(document_trailer(before))->0;
    let form: ObjectId = ((document_max_id(before) + 2) as u32, 0u16);
    match form_reference(objects, catalog) {
        Some(_) => after == before,
        None => {
            &&& document_trailer(after) == document_trailer(before)
            &&& document_max_id(after) == document_max_id(before) + 2
            &&& catalog_linked(objects, objects_of(after), catalog, form)
            &&& objects_of(after).dom() == objects.dom().insert(((document_max_id(before) + 1) as u32, 0u16)).insert(
                form,
            )
            &&& objects_of(after)[form] matches PdfObject::Dictionary(made) && fields_carried(
                inline_form(objects, catalog),
                Some(made),
            )
        },
    }
}

/// Adds a field of `spec`'s kind on `page` once the checks on its name,
/// rectangle, page and uniqueness have passed.
#[verifier::rlimit(60)]
#[verifier::spinoff_prover]
fn build_field(doc: &mut lopdf::Document, spec: &NewField, page: ObjectId) -> (r: AppResult<()>)
    requires
        spec.rect is Some,
        document_max_id(*old(doc)) + 5 <= u32::MAX,
    ensures
        document_trailer(*final(doc)) == document_trailer(*old(doc)),
        r is Ok ==> creatable(spec.kind) && field_created(*old(doc), *final(doc), *spec, page),
        !creatable(spec.kind) && catalog_ref(document_trailer(*old(doc))) is Some ==> r is Err,
        creatable(spec.kind) && field_can_be_created(*old(doc), page) ==> r is Ok,
        creatable(spec.kind) && field_can_be_created(*old(doc), page) ==> field_linked_in(
            objects_of(*old(doc)),
            objects_of(*final(doc)),
            catalog_ref(document_trailer(*old(doc)))->0,
            page,
            (document_max_id(*final(doc)), 0u16),
        ),
        !creatable(spec.kind) && field_can_be_created(*old(doc), page) ==> invalid_input(
            r,
            unsupported_message(spec.kind),
        ) && form_only_ensured(*old(doc), *final(doc)),
{
    let ghost o0 = objects_of(*doc);
    let ghost m0 = document_max_id(*doc);
    let ghost trailer = document_trailer(*doc);
    let ghost can_create = field_can_be_created(*doc, page);
    let form_id = ensure_acro_form(doc)?;
    let ghost o1 = objects_of(*doc);
    let ghost m1 = document_max_id(*doc);
    let ghost catalog = catalog_ref(trailer)->0;
    proof {
        assert(form_reference(o1, catalog) == Some(form_id));
        assert(dict_target(o1, form_id) is Some || (form_reference(o0, catalog) is Some && o1 == o0));
        if ids_bounded(o0, m0) {
            assert(ids_bounded(o1, m1) && chains_kept(o0, o1));
        }
    }

    // Only these kinds can be created; the form is ensured before the kind is
    // looked at, so an unsupported kind still leaves the document with one.
    let (on, off) = match spec.kind {
        FieldKind::Checkbox => {
            let on = appearance_stream(doc, &spec.checkbox.bbox, &spec.checkbox.ticked);
            let off = appearance_stream(doc, &spec.checkbox.bbox, &spec.checkbox.clear);
            (on, off)
        },
        FieldKind::Text | FieldKind::Choice | FieldKind::Signature => ((0u32, 0u16), (0u32, 0u16)),
        FieldKind::Radio | FieldKind::PushButton | FieldKind::Unknown => {
            let mut message = String::from_str("Creating ");
            message.append(kind_text(spec.kind).as_str());
            message.append(" fields is not supported yet.");
            return Err(AppError::InvalidInput(message));
        },
    };
    let ghost o2 = objects_of(*doc);
    let ghost m2 = document_max_id(*doc);
    proof {
        if ids_bounded(o1, m1) {
            if spec.kind == FieldKind::Checkbox {
                let mid = o1.insert(on, o2[on]);
                crate::pdf::document::lemma_add_keeps(o1, m1, o2[on]);
                crate::pdf::document::lemma_add_keeps(mid, (m1 + 1) as u32, o2[off]);
                assert(o2 == mid.insert(off, o2[off]));
                crate::pdf::document::lemma_chains_kept_trans(o1, mid, o2);
                if ids_bounded(o0, m0) {
                    lemma_form_reference_fresh(o1, on, o2[on], catalog);
                    lemma_form_reference_fresh(mid, off, o2[off], catalog);
                }
            } else {
                assert(o2 == o1);
            }
        }
    }

    let widget = new_widget(spec, page, on, off);
    let ghost widget_object = PdfObject::Dictionary(widget);
    let widget_id = add_object(doc, PdfObject::Dictionary(widget));
    let ghost o3 = objects_of(*doc);
    proof {
        if ids_bounded(o2, m2) {
            crate::pdf::document::lemma_add_keeps(o2, m2, widget_object);
            if ids_bounded(o0, m0) {
                lemma_form_reference_fresh(o2, widget_id, widget_object, catalog);
            }
        }
        if spec.kind == FieldKind::Checkbox {
            assert(o3[on] == o2[on] && o3[off] == o2[off]);
        }
    }

    // Link it into the page's annotation list...
    link_annotation(doc, page, widget_id)?;
    let ghost o4 = objects_of(*doc);
    proof {
        crate::pdf::document::lemma_target_stored(o3, page);
        let (pt, pd) = dict_target(o3, page)->0;
        let pd2 = o4[pt]->Dictionary_0;
        crate::pdf::document::lemma_replace_keeps_chains(o3, pt, pd2);
        crate::pdf::document::lemma_dict_target_after_replace(o3, page, pt, pd2);
        if pt == widget_id {
            lemma_widget_kept(pd@, pd2@, *spec, page, on, off, set!["Annots".spec_bytes()]);
        }
        lemma_field_keys();
        if ids_bounded(o0, m0) {
            lemma_form_reference_kept(o3, pt, pd2, catalog, set!["Annots".spec_bytes()]);
        }
    }

    // ...and into the form's field list.
    link_field(doc, form_id, widget_id)?;
    let ghost o5 = objects_of(*doc);
    proof {
        crate::pdf::document::lemma_target_stored(o4, form_id);
        let (ft, fd) = dict_target(o4, form_id)->0;
        let fd2 = o5[ft]->Dictionary_0;
        crate::pdf::document::lemma_dict_target_after_replace(o4, page, ft, fd2);
        crate::pdf::document::lemma_dict_target_after_replace(o4, form_id, ft, fd2);
        if ft == widget_id {
            lemma_widget_kept(fd@, fd2@, *spec, page, on, off, set!["Fields".spec_bytes(), "NeedAppearances".spec_bytes()]);
        }
        lemma_field_keys();
        if ids_bounded(o0, m0) {
            lemma_form_reference_kept(o4, ft, fd2, catalog, set!["Fields".spec_bytes(), "NeedAppearances".spec_bytes()]);
        }
        if creatable(spec.kind) && can_create {
            let (pt, pd) = dict_target(o3, page)->0;
            let pd2 = o4[pt]->Dictionary_0;
            lemma_dict_of_target(o0, catalog);
            // The new objects took numbers the document did not use.
            assert forall|id: ObjectId| #[trigger] o1.contains_key(id) implies o3.contains_key(id) && o3[id] == o1[id] by {
                assert(id.0 <= m1);
            }
            // Every lookup that worked still works, at the same place.
            crate::pdf::document::lemma_add_keeps(o2, m2, widget_object);
            crate::pdf::document::lemma_chains_kept_trans(o0, o1, o2);
            crate::pdf::document::lemma_chains_kept_trans(o0, o2, o3);
            crate::pdf::document::lemma_replace_keeps_chains(o3, pt, pd2);
            crate::pdf::document::lemma_chains_kept_trans(o0, o3, o4);
            if form_reference(o0, catalog) is None {
                assert(o1[form_id] is Dictionary);
                assert(found_at(dict_target(o1, form_id)) == form_id);
                crate::pdf::document::lemma_chains_kept_trans(o1, o2, o3);
                crate::pdf::document::lemma_chains_kept_trans(o1, o3, o4);
            }
            lemma_field_linked_in(o0, o1, o3, o4, o5, catalog, form_id, page, widget_id, pt, pd, pd2, ft, fd, fd2);
        }
    }
    Ok(())
}

/// Creates a merged field/widget annotation on a page.
pub fn create_field(doc: &mut lopdf::Document, spec: &NewField) -> (r: AppResult<()>)
    requires
        creation_accepted(*old(doc), spec.name@, spec.rect is Some, spec.page_index) ==> document_max_id(*old(doc)) + 5 <= u32::MAX,
    ensures
        ({
            let name = spec.name@;
            let page = page_at(*old(doc), spec.page_index as int);
            if trimmed(name).len() == 0 {
                *final(doc) == *old(doc) && invalid_input(r, "Field name cannot be empty."@)
            } else if name.contains('.') {
                *final(doc) == *old(doc) && invalid_input(r, dotted_name_message())
            } else if spec.rect is None {
                *final(doc) == *old(doc) && invalid_input(r, "Field rectangle is too small to be usable."@)
            } else if spec.page_index >= page_count_of(*old(doc)) {
                *final(doc) == *old(doc) && r == Err::<(), AppError>(AppError::PageOutOfRange(spec.page_index))
            } else if lists_name(spec_list_fields(objects_of(*old(doc)), document_trailer(*old(doc))), name) {
                *final(doc) == *old(doc) && invalid_input(r, duplicate_message(name))
            } else {
                &&& document_trailer(*final(doc)) == document_trailer(*old(doc))
                &&& r is Ok ==> creatable(spec.kind) && field_created(*old(doc), *final(doc), *spec, page)
                &&& !creatable(spec.kind) && catalog_ref(document_trailer(*old(doc))) is Some ==> r is Err
                &&& creatable(spec.kind) && field_can_be_created(*old(doc), page) ==> r is Ok
                // On such a document the widget is added last to the page's
                // `/Annots` and the form's `/Fields`, and nothing else the
                // document held changes.
                &&& creatable(spec.kind) && field_can_be_created(*old(doc), page) ==> field_linked_in(
                    objects_of(*old(doc)),
                    objects_of(*final(doc)),
                    catalog_ref(document_trailer(*old(doc)))->0,
                    page,
                    (document_max_id(*final(doc)), 0u16),
                )
                // A kind that cannot be created is refused once the form is
                // ensured.
                &&& !creatable(spec.kind) && field_can_be_created(*old(doc), page) ==> invalid_input(
                    r,
                    unsupported_message(spec.kind),
                ) && form_only_ensured(*old(doc), *final(doc))
            }
        }),
{
    let name = spec.name.as_str();
    if chars_of(trim_text(name).as_str()).len() == 0 {
        return Err(AppError::InvalidInput(String::from_str("Field name cannot be empty.")));
    }
    if has_char(name, '.') {
        return Err(AppError::InvalidInput(String::from_str(
            "Field names cannot contain '.' — it separates parent and child names.",
        )));
    }
    if spec.rect.is_none() {
        return Err(AppError::InvalidInput(String::from_str("Field rectangle is too small to be usable.")));
    }
    let pages = page_ids(doc);
    if spec.page_index >= pages.len() {
        return Err(AppError::PageOutOfRange(spec.page_index));
    }
    let page_id = pages[spec.page_index];
    if any_named(&list_fields(doc), name) {
        let mut message = String::from_str("A field named ");
        message.append(quote(name).as_str());
        message.append(" already exists.");
        return Err(AppError::InvalidInput(message));
    }
    build_field(doc, spec, page_id)
}


pub open spec fn no_widget_message(name: Seq<char>) -> Seq<char> {
    "Field "@ + quoted(name) + " has no widget to move."@
}

/// Moves or resizes a field's widget: `rect` (four numbers, lower-left corner
/// first) becomes the first widget's `/Rect`; `None` stands for a rectangle
/// too small to be usable.
///
/// Only the first widget is touched: a field with several widgets (a radio
/// group) has no single position to set.
pub fn set_field_rect(doc: &mut lopdf::Document, name: &str, rect: Option<Vec<PdfObject>>) -> (r: AppResult<()>)
    requires
        // The corners are numbers, or at least hold no dictionary with a
        // repeated key (which `lopdf` could not store as given).
        rect matches Some(corners) ==> forall|i: int| 0 <= i < corners@.len() ==> #[trigger] deep_distinct(corners@[i]),
    ensures
        document_trailer(*final(doc)) == document_trailer(*old(doc)),
        document_max_id(*final(doc)) == document_max_id(*old(doc)),
        match rect {
            None => *final(doc) == *old(doc) && invalid_input(r, "Field rectangle is too small to be usable."@),
            Some(corners) => match spec_find_field(objects_of(*old(doc)), document_trailer(*old(doc)), name@) {
                None => *final(doc) == *old(doc) && field_not_found(r, name@),
                Some(field) => {
                    let widgets = spec_field_widgets(objects_of(*old(doc)), field);
                    if widgets.len() == 0 {
                        *final(doc) == *old(doc) && invalid_input(r, no_widget_message(name@))
                    } else {
                        match dict_target(objects_of(*old(doc)), widgets[0]) {
                            None => *final(doc) == *old(doc) && pdf_error(r),
                            Some((target, widget)) => r is Ok && with_dict(
                                objects_of(*old(doc)),
                                objects_of(*final(doc)),
                                target,
                                set_entry(widget@, "Rect".spec_bytes(), PdfObject::Array(corners)),
                            ),
                        }
                    }
                },
            },
        },
{
    let corners = match rect {
        Some(corners) => corners,
        None => return Err(AppError::InvalidInput(String::from_str("Field rectangle is too small to be usable."))),
    };
    let field_id = match find_field(doc, name) {
        Some(field_id) => field_id,
        None => return Err(AppError::FieldNotFound(String::from_str(name))),
    };
    let widgets = field_widgets(doc, field_id);
    if widgets.len() == 0 {
        let mut message = String::from_str("Field ");
        message.append(quote(name).as_str());
        message.append(" has no widget to move.");
        return Err(AppError::InvalidInput(message));
    }
    let widget_id = widgets[0];
    let (target, mut dict) = match dict_for_update(doc, widget_id) {
        Some(found) => found,
        None => return Err(AppError::Pdf(dictionary_error(doc, widget_id))),
    };
    dict.set(key("Rect"), PdfObject::Array(corners));
    put_object(doc, target, PdfObject::Dictionary(dict));
    Ok(())
}

/// The position of the last `.` in `name`.
pub open spec fn last_dot(name: Seq<char>) -> Option<int>
    decreases name.len(),
{
    if name.len() == 0 {
        None
    } else if name.last() == '.' {
        Some(name.len() - 1)
    } else {
        last_dot(name.drop_last())
    }
}

/// The fully qualified name a rename gives: the old name's parent prefix, if
/// it has one, followed by the new partial name.
pub open spec fn renamed(name: Seq<char>, partial: Seq<char>) -> Seq<char> {
    match last_dot(name) {
        Some(i) => name.subrange(0, i) + "."@ + partial,
        None => partial,
    }
}

fn renamed_text(name: &str, partial: &String) -> (r: String)
    ensures
        r@ == renamed(name@, partial@),
{
    let chars = chars_of(name);
    let mut n = chars.len();
    assert(name@.subrange(0, n as int) =~= name@);
    while n > 0
        invariant
            n <= chars@.len(),
            chars@ == name@,
            last_dot(name@) == last_dot(name@.subrange(0, n as int)),
        decreases n,
    {
        assert(name@.subrange(0, n as int).drop_last() =~= name@.subrange(0, n - 1));
        if chars[n - 1] == '.' {
            let mut out = String::new();
            let mut i: usize = 0;
            while i < n - 1
                invariant
                    i <= n - 1,
                    n <= chars@.len(),
                    chars@ == name@,
                    out@ == name@.subrange(0, i as int),
                decreases n - 1 - i,
            {
                push_char(&mut out, chars[i]);
                i = i + 1;
                assert(out@ =~= name@.subrange(0, i as int));
            }
            out.append(".");
            out.append(partial.as_str());
            return out;
        }
        n = n - 1;
    }
    partial.clone()
}

/// Renames a field.
///
/// `new_partial_name`, trimmed, replaces the field's own `/T` entry. For a
/// field nested under a parent the fully qualified name keeps its prefix, so
/// renaming `address.city` to `town` yields `address.town`.
pub fn rename_field(doc: &mut lopdf::Document, name: &str, new_partial_name: &str) -> (r: AppResult<()>)
    ensures
        document_trailer(*final(doc)) == document_trailer(*old(doc)),
        document_max_id(*final(doc)) == document_max_id(*old(doc)),
        ({
            let partial = trimmed(new_partial_name@);
            let qualified = renamed(name@, partial);
            let objects = objects_of(*old(doc));
            if partial.len() == 0 {
                *final(doc) == *old(doc) && invalid_input(r, "Field name cannot be empty."@)
            } else if partial.contains('.') {
                *final(doc) == *old(doc) && invalid_input(r, dotted_name_message())
            } else {
                match spec_find_field(objects, document_trailer(*old(doc)), name@) {
                    None => *final(doc) == *old(doc) && field_not_found(r, name@),
                    Some(field) => if qualified != name@ && lists_name(
                        spec_list_fields(objects, document_trailer(*old(doc))),
                        qualified,
                    ) {
                        *final(doc) == *old(doc) && invalid_input(r, duplicate_message(qualified))
                    } else {
                        match dict_target(objects, field) {
                            None => *final(doc) == *old(doc) && pdf_error(r),
                            Some((target, dict)) => r is Ok && exists|title: Vec<u8>|
                                title@ == chars_to_pdf_text(partial) && with_dict(
                                    objects,
                                    objects_of(*final(doc)),
                                    target,
                                    set_entry(dict@, "T".spec_bytes(), PdfObject::Text(title, TextFormat::Literal)),
                                ),
                        }
                    },
                }
            }
        }),
{
    let partial = trim_text(new_partial_name);
    if chars_of(partial.as_str()).len() == 0 {
        return Err(AppError::InvalidInput(String::from_str("Field name cannot be empty.")));
    }
    if has_char(partial.as_str(), '.') {
        return Err(AppError::InvalidInput(String::from_str(
            "Field names cannot contain '.' — it separates parent and child names.",
        )));
    }
    let field_id = match find_field(doc, name) {
        Some(field_id) => field_id,
        None => return Err(AppError::FieldNotFound(String::from_str(name))),
    };
    // Preserve any parent prefix when checking for a collision.
    let qualified = renamed_text(name, &partial);
    if !same_text_of(qualified.as_str(), name) && any_named(&list_fields(doc), qualified.as_str()) {
        let mut message = String::from_str("A field named ");
        message.append(quote(qualified.as_str()).as_str());
        message.append(" already exists.");
        return Err(AppError::InvalidInput(message));
    }
    let (target, mut dict) = match dict_for_update(doc, field_id) {
        Some(found) => found,
        None => return Err(AppError::Pdf(dictionary_error(doc, field_id))),
    };
    let title = encode_pdf_text(partial.as_str());
    let ghost title_view = title;
    let ghost original = dict;
    dict.set(key("T"), PdfObject::Text(title, TextFormat::Literal));
    put_object(doc, target, PdfObject::Dictionary(dict));
    assert(with_dict(
        objects_of(*old(doc)),
        objects_of(*doc),
        target,
        set_entry(original@, "T".spec_bytes(), PdfObject::Text(title_view, TextFormat::Literal)),
    ));
    Ok(())
}

/// `items` without the references to any of `doomed`, in order.
pub open spec fn without_references(items: Seq<PdfObject>, doomed: Seq<ObjectId>) -> Seq<PdfObject>
    decreases items.len(),
{
    if items.len() == 0 {
        Seq::empty()
    } else {
        let rest = without_references(items.subrange(1, items.len() as int), doomed);
        match items[0] {
            PdfObject::Reference(id) => if doomed.contains(id) {
                rest
            } else {
                seq![items[0]] + rest
            },
            _ => seq![items[0]] + rest,
        }
    }
}

fn filter_references(items: Vec<PdfObject>, doomed: &Vec<ObjectId>) -> (r: Vec<PdfObject>)
    ensures
        r@ == without_references(items@, doomed@),
        (forall|i: int| 0 <= i < items@.len() ==> #[trigger] deep_distinct(items@[i])) ==> forall|i: int|
            0 <= i < r@.len() ==> #[trigger] deep_distinct(r@[i]),
{
    let ghost all = items@;
    let mut out: Vec<PdfObject> = Vec::new();
    let mut rest = items;
    assert(all.subrange(0, all.len() as int) =~= all);
    let ghost mut done: int = 0;
    while rest.len() > 0
        invariant
            0 <= done <= all.len(),
            rest@ == all.subrange(done, all.len() as int),
            without_references(all, doomed@) == out@ + without_references(rest@, doomed@),
            (forall|i: int| 0 <= i < all.len() ==> #[trigger] deep_distinct(all[i])) ==> forall|i: int|
                0 <= i < out@.len() ==> #[trigger] deep_distinct(out@[i]),
        decreases rest@.len(),
    {
        let ghost before = rest@;
        let item = rest.remove(0);
        assert(before.subrange(1, before.len() as int) =~= rest@);
        assert(item == all[done]);
        proof {
            done = done + 1;
            assert(rest@ =~= all.subrange(done, all.len() as int));
        }
        let keep = match &item {
            PdfObject::Reference(id) => !holds_id(doomed, *id),
            _ => true,
        };
        if keep {
            let ghost prev = out@;
            out.push(item);
            assert(prev + (seq![item] + without_references(rest@, doomed@)) =~= out@ + without_references(rest@, doomed@));
        }
    }
    assert(out@ + Seq::<PdfObject>::empty() =~= out@);
    out
}

fn holds_id(ids: &Vec<ObjectId>, id: ObjectId) -> (r: bool)
    ensures
        r == ids@.contains(id),
{
    let mut k: usize = 0;
    while k < ids.len()
        invariant
            k <= ids@.len(),
            forall|j: int| 0 <= j < k ==> ids@[j] != id,
        decreases ids@.len() - k,
    {
        if ids[k].0 == id.0 && ids[k].1 == id.1 {
            assert(ids@[k as int] == id);
            return true;
        }
        k = k + 1;
    }
    false
}

/// The form the catalog's `/AcroForm` names by reference.
pub fn acro_form_id(doc: &lopdf::Document) -> (r: Option<ObjectId>)
    ensures
        r == match catalog_ref(document_trailer(*doc)) {
            Some(catalog_id) => form_reference(objects_of(*doc), catalog_id),
            None => None,
        },
{
    match trailer_of(doc).into_value("Root".as_bytes()) {
        Some(PdfObject::Reference(catalog_id)) => form_reference_of(doc, catalog_id),
        _ => None,
    }
}

/// The objects `delete_field` removes for `field`: its widgets, and the field
/// itself when it is not one of them.
pub open spec fn deleted_ids(objects: Map<ObjectId, PdfObject>, field: ObjectId) -> Seq<ObjectId> {
    let widgets = spec_field_widgets(objects, field);
    if widgets.contains(field) {
        widgets
    } else {
        widgets.push(field)
    }
}

/// Where the form's field list lives, when the catalog and the form are
/// stored as dictionaries of their own and `/Fields` is an array: the
/// catalog, the form, and the list.
pub open spec fn form_fields(objects: Map<ObjectId, PdfObject>, trailer: PdfDict) -> Option<
    (ObjectId, ObjectId, Seq<PdfObject>),
> {
    match catalog_ref(trailer) {
        Some(catalog) => match crate::pdf::document::stored(objects, catalog) {
            Some(PdfObject::Dictionary(catalog_dict)) => match catalog_dict.lookup("AcroForm".spec_bytes()) {
                Some(PdfObject::Reference(form)) => match crate::pdf::document::stored(objects, form) {
                    Some(PdfObject::Dictionary(form_dict)) => match form_dict.lookup("Fields".spec_bytes()) {
                        Some(PdfObject::Array(items)) => Some((catalog, form, items@)),
                        _ => None,
                    },
                    _ => None,
                },
                _ => None,
            },
            _ => None,
        },
        None => None,
    }
}

/// The catalog, stored as a dictionary, names `form` as its `/AcroForm`, and
/// the form, stored as a dictionary, lists `fields`.
pub open spec fn form_field_list(objects: Map<ObjectId, PdfObject>, catalog: ObjectId, form: ObjectId, fields: Seq<PdfObject>) -> bool {
    &&& crate::pdf::document::stored(objects, catalog) matches Some(PdfObject::Dictionary(catalog_dict))
    &&& catalog_dict.lookup("AcroForm".spec_bytes()) == Some(PdfObject::Reference(form))
    &&& crate::pdf::document::stored(objects, form) matches Some(PdfObject::Dictionary(form_dict))
    &&& form_dict.lookup("Fields".spec_bytes()) matches Some(PdfObject::Array(items))
    &&& items@ == fields
}

/// `objects` still holds the catalog and the form as dictionaries with the
/// same `/AcroForm` and `/Fields` entries as `before` does.
pub open spec fn form_kept(
    before: Map<ObjectId, PdfObject>,
    objects: Map<ObjectId, PdfObject>,
    catalog: ObjectId,
    form: ObjectId,
) -> bool {
    &&& objects.contains_key(catalog) && objects[catalog] is Dictionary
    &&& objects.contains_key(form) && objects[form] is Dictionary
    &&& objects[catalog]->Dictionary_0.lookup("AcroForm".spec_bytes())
        == before[catalog]->Dictionary_0.lookup("AcroForm".spec_bytes())
    &&& objects[form]->Dictionary_0.lookup("Fields".spec_bytes())
        == before[form]->Dictionary_0.lookup("Fields".spec_bytes())
}

/// Storing a dictionary over another, with `/AcroForm` and `/Fields` as they
/// were, keeps the form where it was.
proof fn lemma_form_kept_after_store(
    before: Map<ObjectId, PdfObject>,
    objects: Map<ObjectId, PdfObject>,
    catalog: ObjectId,
    form: ObjectId,
    target: ObjectId,
    replacement: PdfDict,
)
    requires
        form_kept(before, objects, catalog, form),
        objects.contains_key(target),
        objects[target] is Dictionary,
        replacement.lookup("AcroForm".spec_bytes()) == objects[target]->Dictionary_0.lookup("AcroForm".spec_bytes()),
        replacement.lookup("Fields".spec_bytes()) == objects[target]->Dictionary_0.lookup("Fields".spec_bytes()),
    ensures
        form_kept(before, objects.insert(target, PdfObject::Dictionary(replacement)), catalog, form),
{
}

/// The annotation list a dictionary holds as an array.
pub open spec fn annots_of(dict: PdfDict) -> Option<Seq<PdfObject>> {
    match dict.lookup("Annots".spec_bytes()) {
        Some(PdfObject::Array(items)) => Some(items@),
        _ => None,
    }
}

/// The annotation list of a page stored as a dictionary of its own.
pub open spec fn page_annots(objects: Map<ObjectId, PdfObject>, page: ObjectId) -> Option<Seq<PdfObject>> {
    match crate::pdf::document::stored(objects, page) {
        Some(PdfObject::Dictionary(dict)) => annots_of(dict),
        _ => None,
    }
}

/// A page of `before` with an annotation list, and not itself deleted.
pub open spec fn unlinkable(before: Map<ObjectId, PdfObject>, doomed: Seq<ObjectId>, page: ObjectId) -> bool {
    page_annots(before, page) is Some && !doomed.contains(page)
}

/// The page's list in `objects` is the one it had in `before`, or that list
/// without references to `doomed`.
pub open spec fn annots_on_the_way(
    before: Map<ObjectId, PdfObject>,
    objects: Map<ObjectId, PdfObject>,
    doomed: Seq<ObjectId>,
    page: ObjectId,
) -> bool {
    unlinkable(before, doomed, page) ==> page_annots(objects, page) == page_annots(before, page)
        || page_annots(objects, page) == Some(without_references(page_annots(before, page)->0, doomed))
}

/// The page's list in `objects` is the one it had in `before` without
/// references to `doomed`.
pub open spec fn annots_unlinked(
    before: Map<ObjectId, PdfObject>,
    objects: Map<ObjectId, PdfObject>,
    doomed: Seq<ObjectId>,
    page: ObjectId,
) -> bool {
    unlinkable(before, doomed, page) ==> page_annots(objects, page) == Some(
        without_references(page_annots(before, page)->0, doomed),
    )
}

/// Dropping references twice drops nothing more, and a list that loses
/// nothing is left as it was.
proof fn lemma_without_references(items: Seq<PdfObject>, doomed: Seq<ObjectId>)
    ensures
        without_references(without_references(items, doomed), doomed) == without_references(items, doomed),
        without_references(items, doomed).len() <= items.len(),
        without_references(items, doomed).len() == items.len() ==> without_references(items, doomed) == items,
    decreases items.len(),
{
    if items.len() > 0 {
        let rest = items.subrange(1, items.len() as int);
        lemma_without_references(rest, doomed);
        let kept = without_references(rest, doomed);
        let keeps_first = match items[0] {
            PdfObject::Reference(id) => !doomed.contains(id),
            _ => true,
        };
        if keeps_first {
            let whole = seq![items[0]] + kept;
            assert(whole[0] == items[0]);
            assert(whole.subrange(1, whole.len() as int) =~= kept);
            if kept.len() == rest.len() {
                assert(whole =~= items);
            }
        }
    }
}

/// Storing a dictionary at `target` keeps every page on its way, and every
/// page unlinked so far unlinked, as long as a page stored there keeps its
/// list or receives it without references to `doomed`.
proof fn lemma_annots_after_store(
    before: Map<ObjectId, PdfObject>,
    objects: Map<ObjectId, PdfObject>,
    doomed: Seq<ObjectId>,
    target: ObjectId,
    replacement: PdfDict,
)
    requires
        forall|page: ObjectId| #[trigger] annots_on_the_way(before, objects, doomed, page),
        unlinkable(before, doomed, target) ==> annots_of(replacement) == page_annots(objects, target)
            || annots_of(replacement) == Some(without_references(page_annots(before, target)->0, doomed)),
    ensures
        forall|page: ObjectId| #[trigger] annots_on_the_way(
            before,
            objects.insert(target, PdfObject::Dictionary(replacement)),
            doomed,
            page,
        ),
        forall|page: ObjectId|
            annots_unlinked(before, objects, doomed, page) && (page != target || annots_of(replacement)
                == page_annots(objects, target)) ==> #[trigger] annots_unlinked(
                before,
                objects.insert(target, PdfObject::Dictionary(replacement)),
                doomed,
                page,
            ),
        annots_of(replacement) == Some(without_references(page_annots(before, target)->0, doomed)) ==> annots_unlinked(
            before,
            objects.insert(target, PdfObject::Dictionary(replacement)),
            doomed,
            target,
        ),
{
    let updated = objects.insert(target, PdfObject::Dictionary(replacement));
    assert(page_annots(updated, target) == annots_of(replacement));
    assert forall|page: ObjectId| #[trigger] annots_on_the_way(before, updated, doomed, page) by {
        assert(annots_on_the_way(before, objects, doomed, page));
        if page != target {
            assert(page_annots(updated, page) == page_annots(objects, page));
        }
    }
    assert forall|page: ObjectId|
        annots_unlinked(before, objects, doomed, page) && (page != target || annots_of(replacement)
            == page_annots(objects, target)) implies #[trigger] annots_unlinked(before, updated, doomed, page) by {
        if page != target {
            assert(page_annots(updated, page) == page_annots(objects, page));
        }
    }
}

/// Removes a field and every widget it owns: they leave every page's
/// `/Annots`, the form's `/Fields`, and the document.
pub fn delete_field(doc: &mut lopdf::Document, name: &str) -> (r: AppResult<()>)
    ensures
        document_trailer(*final(doc)) == document_trailer(*old(doc)),
        document_max_id(*final(doc)) == document_max_id(*old(doc)),
        match spec_find_field(objects_of(*old(doc)), document_trailer(*old(doc)), name@) {
            None => *final(doc) == *old(doc) && field_not_found(r, name@),
            Some(field) => {
                let deleted = deleted_ids(objects_of(*old(doc)), field);
                &&& r is Ok
                &&& forall|i: int| 0 <= i < deleted.len() ==> !objects_of(*final(doc)).contains_key(#[trigger] deleted[i])
                // The form's field list no longer names them, where the form
                // itself survives.
                &&& form_fields(objects_of(*old(doc)), document_trailer(*old(doc))) matches Some((catalog, form, fields))
                    ==> (!deleted.contains(catalog) && !deleted.contains(form) ==> form_fields(
                    objects_of(*final(doc)),
                    document_trailer(*old(doc)),
                ) == Some((catalog, form, without_references(fields, deleted))))
                // Each page's annotation list no longer names them, where the
                // page is stored as a dictionary of its own.
                &&& forall|page: ObjectId|
                    page_tree(objects_of(*old(doc)), document_trailer(*old(doc))).contains(page)
                        ==> #[trigger] annots_unlinked(objects_of(*old(doc)), objects_of(*final(doc)), deleted, page)
            },
        },
{
    broadcast use crate::pdf::object::lemma_lookup_after_set;

    let ghost objects = objects_of(*doc);
    let ghost trailer = document_trailer(*doc);
    let field_id = match find_field(doc, name) {
        Some(field_id) => field_id,
        None => return Err(AppError::FieldNotFound(String::from_str(name))),
    };
    let mut doomed = field_widgets(doc, field_id);
    let ghost widgets = doomed@;
    if !holds_id(&doomed, field_id) {
        doomed.push(field_id);
    }
    assert(doomed@ == deleted_ids(objects, field_id));
    assert(doomed@.contains(field_id)) by {
        if !widgets.contains(field_id) {
            assert(doomed@.last() == field_id);
        }
    }
    let ghost located = form_fields(objects, trailer);
    let ghost catalog_at = match located {
        Some((c, _, _)) => c,
        None => field_id,
    };
    let ghost form_at = match located {
        Some((_, f, _)) => f,
        None => field_id,
    };

    // Unlink from every page's /Annots.
    let pages = page_list(doc);
    let mut k: usize = 0;
    while k < pages.len()
        invariant
            k <= pages@.len(),
            pages@ == page_tree(objects, trailer),
            document_trailer(*doc) == trailer,
            document_max_id(*doc) == document_max_id(*old(doc)),
            located is Some ==> form_kept(objects, objects_of(*doc), catalog_at, form_at),
            forall|page: ObjectId| #[trigger] annots_on_the_way(objects, objects_of(*doc), doomed@, page),
            forall|j: int| 0 <= j < k ==> #[trigger] annots_unlinked(objects, objects_of(*doc), doomed@, pages@[j]),
        decreases pages@.len() - k,
    {
        let page_id = pages[k];
        let ghost current = objects_of(*doc);
        proof {
            assert(annots_on_the_way(objects, current, doomed@, page_id));
            lemma_without_references(page_annots(objects, page_id)->0, doomed@);
        }
        k = k + 1;
        let page = match get_dictionary(doc, page_id) {
            Some(page) => page,
            None => continue,
        };
        let annots = match page.into_value("Annots".as_bytes()) {
            Some(PdfObject::Array(items)) => items,
            _ => continue,
        };
        let before = annots.len();
        let ghost listed = annots@;
        let filtered = filter_references(annots, &doomed);
        proof {
            lemma_without_references(listed, doomed@);
        }
        if filtered.len() != before {
            if let Some((target, mut dict)) = dict_for_update(doc, page_id) {
                let ghost original = dict;
                let value = PdfObject::Array(filtered);
                let ghost written = value;
                dict.set(key("Annots"), value);
                proof {
                    lemma_unlink_keys();
                    crate::pdf::object::lemma_lookup_after_set(original@, "Annots".spec_bytes(), written, "AcroForm".spec_bytes());
                    crate::pdf::object::lemma_lookup_after_set(original@, "Annots".spec_bytes(), written, "Fields".spec_bytes());
                    crate::pdf::object::lemma_lookup_after_set(original@, "Annots".spec_bytes(), written, "Annots".spec_bytes());
                    crate::pdf::document::lemma_target_stored(current, page_id);
                    lemma_dict_of_target(current, page_id);
                    if located is Some {
                        lemma_form_kept_after_store(objects, current, catalog_at, form_at, target, dict);
                    }
                    assert(annots_on_the_way(objects, current, doomed@, target));
                    lemma_without_references(page_annots(objects, target)->0, doomed@);
                    lemma_annots_after_store(objects, current, doomed@, target, dict);
                    assert forall|j: int| 0 <= j < k implies #[trigger] annots_unlinked(
                        objects,
                        current.insert(target, PdfObject::Dictionary(dict)),
                        doomed@,
                        pages@[j],
                    ) by {
                        if j < k - 1 {
                            assert(annots_unlinked(objects, current, doomed@, pages@[j]));
                        }
                    }
                }
                put_object(doc, target, PdfObject::Dictionary(dict));
            }
        }
    }

    // Unlink from /AcroForm /Fields.
    let ghost mid = objects_of(*doc);
    if let Some(form_id) = acro_form_id(doc) {
        if let Some(form) = get_dictionary(doc, form_id) {
            if let Some(PdfObject::Array(fields)) = form.into_value("Fields".as_bytes()) {
                let filtered = filter_references(fields, &doomed);
                if let Some((target, mut dict)) = dict_for_update(doc, form_id) {
                    let ghost kept = filtered@;
                    let ghost original = dict;
                    dict.set(key("Fields"), PdfObject::Array(filtered));
                    proof {
                        lemma_unlink_keys();
                        crate::pdf::document::lemma_target_stored(mid, form_id);
                        if located is Some && form_id == form_at {
                            assert(target == form_at);
                            assert(dict.lookup("Fields".spec_bytes()) == Some(PdfObject::Array(filtered)));
                        }
                        assert(annots_of(dict) == annots_of(original));
                        lemma_annots_after_store(objects, mid, doomed@, target, dict);
                        assert forall|j: int| 0 <= j < pages@.len() implies #[trigger] annots_unlinked(
                            objects,
                            mid.insert(target, PdfObject::Dictionary(dict)),
                            doomed@,
                            pages@[j],
                        ) by {
                            assert(annots_unlinked(objects, mid, doomed@, pages@[j]));
                        }
                    }
                    put_object(doc, target, PdfObject::Dictionary(dict));
                }
            }
        }
    }
    let ghost unlinked = objects_of(*doc);
    assert(forall|j: int| 0 <= j < pages@.len() ==> #[trigger] annots_unlinked(objects, unlinked, doomed@, pages@[j]));
    let ghost listed = match located {
        Some((_, _, fields)) => fields,
        None => Seq::empty(),
    };
    assert(located is Some ==> form_field_list(unlinked, catalog_at, form_at, without_references(listed, doomed@)));

    let mut k: usize = 0;
    while k < doomed.len()
        invariant
            k <= doomed@.len(),
            forall|j: int| 0 <= j < k ==> !objects_of(*doc).contains_key(#[trigger] doomed@[j]),
            forall|id: ObjectId| !doomed@.contains(id) ==> crate::pdf::document::stored(objects_of(*doc), id)
                == crate::pdf::document::stored(unlinked, id),
            document_trailer(*doc) == document_trailer(*old(doc)),
            document_max_id(*doc) == document_max_id(*old(doc)),
        decreases doomed@.len() - k,
    {
        drop_object(doc, doomed[k]);
        k = k + 1;
    }
    assert forall|i: int| 0 <= i < widgets.len() implies !objects_of(*doc).contains_key(#[trigger] widgets[i]) by {
        assert(doomed@[i] == widgets[i]);
    }
    let ghost j = choose|j: int| 0 <= j < doomed@.len() && doomed@[j] == field_id;
    assert(!objects_of(*doc).contains_key(doomed@[j]));
    assert forall|page: ObjectId| page_tree(objects, trailer).contains(page) implies #[trigger] annots_unlinked(
        objects,
        objects_of(*doc),
        doomed@,
        page,
    ) by {
        let at = choose|at: int| 0 <= at < pages@.len() && pages@[at] == page;
        assert(annots_unlinked(objects, unlinked, doomed@, pages@[at]));
        if unlinkable(objects, doomed@, page) {
            assert(crate::pdf::document::stored(objects_of(*doc), page) == crate::pdf::document::stored(unlinked, page));
        }
    }
    Ok(())
}

/// The keys unlinking writes differ from the ones that locate the form.
proof fn lemma_unlink_keys()
    ensures
        "Annots".spec_bytes() != "AcroForm".spec_bytes(),
        "Annots".spec_bytes() != "Fields".spec_bytes(),
        "Fields".spec_bytes() != "AcroForm".spec_bytes(),
{
    reveal_strlit("Annots");
    reveal_strlit("AcroForm");
    reveal_strlit("Fields");
    crate::pdf::document::lemma_ascii_bytes("Annots");
    crate::pdf::document::lemma_ascii_bytes("AcroForm");
    crate::pdf::document::lemma_ascii_bytes("Fields");
    assert("Annots".spec_bytes()[1] != "AcroForm".spec_bytes()[1]);
    assert("Annots".spec_bytes()[0] != "Fields".spec_bytes()[0]);
    assert("Fields".spec_bytes()[0] != "AcroForm".spec_bytes()[0]);
}

} // verus!
