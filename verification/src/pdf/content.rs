//! Content-stream operations as the text editor reads and rewrites them: what
//! a show-text operator draws, how its string is swapped or emptied, which
//! font is in effect, and the resources a page draws with. Positions and
//! sizes are fractional and left to the caller.

use vstd::prelude::*;

use vstd::string::{StringExecFns, StringSliceAdditionalSpecFns};

use crate::error::{AppError, AppResult};
use crate::pdf::document::{
    add_object, deref_from, dereference, dict_for_update, dict_of, dict_target, document_max_id, document_objects,
    document_trailer, get_dictionary, get_object, ids_bounded, key, object_at, object_of, put_object, stored, with_dict,
};
use crate::pdf::fonts::{content_bytes, stream_bytes};
use crate::pdf::object::{dict_from_lopdf, keyed, object_from_lopdf, object_to_lopdf, PdfStream};
use crate::pdf::forms::{copied_number, same_text_of};
use crate::pdf::object::{copy_bytes, deep_distinct, dict_deep, set_entry, ObjectId, PdfDict, PdfObject, TextFormat};

verus! {

broadcast use crate::pdf::object::group_deep;

/// `lopdf`'s content-stream operation, carried unopened.
#[verifier::external_type_specification]
#[verifier::external_body]
pub struct ExOperation(lopdf::content::Operation);

/// One content-stream operation: an operator and its operands.
pub struct ContentOp {
    pub operator: String,
    pub operands: Vec<PdfObject>,
}

/// A piece of what a show-text operator draws: a string, or a kerning number
/// that nudges the pen without drawing.
pub enum Shown {
    Text(Vec<u8>),
    Adjust(PdfObject),
}

/// The first element, if there is one.
pub open spec fn first_of<T>(s: Seq<T>) -> Option<T> {
    if s.len() > 0 {
        Some(s[0])
    } else {
        None
    }
}

/// The last element, if there is one.
pub open spec fn last_of<T>(s: Seq<T>) -> Option<T> {
    if s.len() > 0 {
        Some(s.last())
    } else {
        None
    }
}

/// `part` is a string piece holding `bytes`.
pub open spec fn text_piece(part: Shown, bytes: Seq<u8>) -> bool {
    match part {
        Shown::Text(held) => held@ == bytes,
        _ => false,
    }
}

/// `object` is an array holding `items`.
pub open spec fn is_array_of(object: PdfObject, items: Seq<PdfObject>) -> bool {
    match object {
        PdfObject::Array(held) => held@ == items,
        _ => false,
    }
}

/// `object` is the empty literal string.
pub open spec fn is_empty_string(object: PdfObject) -> bool {
    match object {
        PdfObject::Text(bytes, format) => bytes@.len() == 0 && format is Literal,
        _ => false,
    }
}

/// `part` is what a `TJ` array item contributes.
pub open spec fn array_part(item: PdfObject, part: Shown) -> bool {
    match item {
        PdfObject::Text(bytes, _) => text_piece(part, bytes@),
        _ => match part {
            Shown::Adjust(number) => copied_number(number, item),
            _ => false,
        },
    }
}

/// The items of a `TJ` array that draw or kern: strings and numbers.
pub open spec fn drawn(item: PdfObject) -> bool {
    item is Text || item is Integer || item is Real
}

/// The drawable pieces of a `TJ` array, in order: `parts` lists exactly its
/// strings and numbers.
pub open spec fn array_parts(items: Seq<PdfObject>, parts: Seq<Shown>) -> bool
    decreases items.len(),
{
    if items.len() == 0 {
        parts.len() == 0
    } else if drawn(items.last()) {
        parts.len() > 0 && array_part(items.last(), parts.last()) && array_parts(
            items.drop_last(),
            parts.drop_last(),
        )
    } else {
        array_parts(items.drop_last(), parts)
    }
}

/// `parts` is a single string piece holding what `operand` holds, or nothing
/// where `operand` is not a string.
pub open spec fn string_part(operand: Option<PdfObject>, parts: Seq<Shown>) -> bool {
    match operand {
        Some(PdfObject::Text(bytes, _)) => parts.len() == 1 && text_piece(parts[0], bytes@),
        _ => parts.len() == 0,
    }
}

/// The pieces a show-text operation draws: the string operand of `Tj`, the
/// last operand of `'` and `"`, the strings and kerning numbers of a `TJ`
/// array; nothing for anything else.
pub open spec fn shown_as(op: ContentOp, parts: Seq<Shown>) -> bool {
    let operator = op.operator@;
    let operands = op.operands@;
    if operator == "Tj"@ {
        string_part(first_of(operands), parts)
    } else if operator == "'"@ || operator == "\""@ {
        string_part(last_of(operands), parts)
    } else if operator == "TJ"@ {
        match first_of(operands) {
            Some(PdfObject::Array(items)) => array_parts(items@, parts),
            _ => parts.len() == 0,
        }
    } else {
        parts.len() == 0
    }
}

/// A string piece copied from `operand`, if it is a string.
fn string_piece(operand: Option<&PdfObject>) -> (r: Vec<Shown>)
    ensures
        string_part(
            match operand {
                Some(o) => Some(*o),
                None => None,
            },
            r@,
        ),
{
    let mut parts: Vec<Shown> = Vec::new();
    if let Some(PdfObject::Text(bytes, _)) = operand {
        parts.push(Shown::Text(copy_bytes(bytes.as_slice())));
    }
    parts
}

/// Flattens a show-text operator's operands into drawable pieces.
pub fn shown_parts(op: &ContentOp) -> (r: Vec<Shown>)
    ensures
        shown_as(*op, r@),
{
    let operator = op.operator.as_str();
    if same_text_of(operator, "Tj") {
        string_piece(if op.operands.len() > 0 { Some(&op.operands[0]) } else { None })
    } else if same_text_of(operator, "'") || same_text_of(operator, "\"") {
        // The string is the last operand: ' takes only it, " takes two
        // numbers before it.
        let n = op.operands.len();
        string_piece(if n > 0 { Some(&op.operands[n - 1]) } else { None })
    } else if same_text_of(operator, "TJ") {
        let mut parts: Vec<Shown> = Vec::new();
        if op.operands.len() > 0 {
            if let PdfObject::Array(items) = &op.operands[0] {
                let mut k: usize = 0;
                while k < items.len()
                    invariant
                        k <= items@.len(),
                        array_parts(items@.subrange(0, k as int), parts@),
                    decreases items@.len() - k,
                {
                    let ghost before = parts@;
                    let ghost done = items@.subrange(0, k + 1);
                    assert(done.drop_last() =~= items@.subrange(0, k as int));
                    assert(done.last() == items@[k as int]);
                    match &items[k] {
                        PdfObject::Text(bytes, _) => {
                            parts.push(Shown::Text(copy_bytes(bytes.as_slice())));
                        },
                        PdfObject::Integer(value) => {
                            parts.push(Shown::Adjust(PdfObject::Integer(*value)));
                        },
                        PdfObject::Real(value) => {
                            parts.push(Shown::Adjust(PdfObject::Real(value.copy())));
                        },
                        _ => {},
                    }
                    assert(parts@.len() > before.len() ==> parts@.drop_last() =~= before);
                    k = k + 1;
                }
                assert(items@.subrange(0, items@.len() as int) =~= items@);
            }
        }
        parts
    } else {
        Vec::new()
    }
}

/// What `replace_shown_text` leaves: the operator kept; a `TJ` array collapsed
/// to the one new string; the last operand of `'` and `"` replaced; for any
/// other operator, the new string as its only operand.
pub open spec fn replaced_with(before: ContentOp, after: ContentOp, text: PdfObject) -> bool {
    let operator = before.operator@;
    &&& after.operator@ == operator
    &&& if operator == "TJ"@ {
        after.operands@.len() == 1 && is_array_of(after.operands@[0], seq![text])
    } else if operator == "'"@ || operator == "\""@ {
        if before.operands@.len() > 0 {
            after.operands@ == before.operands@.update(before.operands@.len() - 1, text)
        } else {
            after.operands@ == before.operands@
        }
    } else {
        after.operands@ == seq![text]
    }
}

/// Swaps the string a show-text operator draws, keeping the operator itself.
///
/// A `TJ` array collapses to a single string: its numbers are kerning between
/// the old glyphs, which means nothing once the text has changed.
pub fn replace_shown_text(op: &mut ContentOp, bytes: Vec<u8>)
    ensures
        replaced_with(*old(op), *final(op), PdfObject::Text(bytes, TextFormat::Literal)),
{
    let ghost text = PdfObject::Text(bytes, TextFormat::Literal);
    put_string(op, PdfObject::Text(bytes, TextFormat::Literal), true);
    assert(replaced_with(*old(op), *op, text));
}

/// What `clear_shown_text` leaves: the operator kept; a `TJ` array emptied;
/// the last operand of `'` and `"` an empty string; for any other operator,
/// an empty string as its only operand.
pub open spec fn cleared_as(before: ContentOp, after: ContentOp) -> bool {
    let operator = before.operator@;
    &&& after.operator@ == operator
    &&& if operator == "TJ"@ {
        after.operands@.len() == 1 && is_array_of(after.operands@[0], Seq::empty())
    } else if operator == "'"@ || operator == "\""@ {
        if before.operands@.len() > 0 {
            after.operands@.len() == before.operands@.len() && after.operands@.drop_last()
                == before.operands@.drop_last() && is_empty_string(after.operands@.last())
        } else {
            after.operands@ == before.operands@
        }
    } else {
        after.operands@.len() == 1 && is_empty_string(after.operands@[0])
    }
}

/// Empties a show-text operator without removing it.
///
/// The operator is kept because `'` and `"` also start a new line, and
/// dropping one would move everything drawn after it.
pub fn clear_shown_text(op: &mut ContentOp)
    ensures
        cleared_as(*old(op), *final(op)),
{
    let ghost before = *op;
    let empty = PdfObject::Text(Vec::new(), TextFormat::Literal);
    let ghost text = empty;
    put_string(op, empty, false);
    assert(before.operands@.len() > 0 ==> before.operands@.update(before.operands@.len() - 1, text).drop_last()
        =~= before.operands@.drop_last());
}

/// Puts `text` where the operator's string goes: for `TJ`, an array holding
/// it (or an empty array where `keep` is false); the last operand of `'` and
/// `"`; otherwise the only operand.
fn put_string(op: &mut ContentOp, text: PdfObject, keep: bool)
    ensures
        final(op).operator@ == old(op).operator@,
        old(op).operator@ == "TJ"@ ==> final(op).operands@.len() == 1 && is_array_of(
            final(op).operands@[0],
            if keep { seq![text] } else { Seq::empty() },
        ),
        (old(op).operator@ == "'"@ || old(op).operator@ == "\""@) && old(op).operator@ != "TJ"@ ==> if old(op).operands@.len() > 0 {
            final(op).operands@ == old(op).operands@.update(old(op).operands@.len() - 1, text)
        } else {
            final(op).operands@ == old(op).operands@
        },
        !(old(op).operator@ == "TJ"@ || old(op).operator@ == "'"@ || old(op).operator@ == "\""@) ==> final(op).operands@
            == seq![text],
{
    let operator = op.operator.as_str();
    if same_text_of(operator, "TJ") {
        let mut items: Vec<PdfObject> = Vec::new();
        if keep {
            items.push(text);
        }
        let mut operands: Vec<PdfObject> = Vec::new();
        operands.push(PdfObject::Array(items));
        op.operands = operands;
    } else if same_text_of(operator, "'") || same_text_of(operator, "\"") {
        let n = op.operands.len();
        if n > 0 {
            op.operands.set(n - 1, text);
        }
    } else {
        let mut operands: Vec<PdfObject> = Vec::new();
        operands.push(text);
        op.operands = operands;
    }
}

/// The font resource name a `Tf` operation selects: its first operand, when
/// that is a name.
pub open spec fn selected_font(op: ContentOp) -> Seq<u8> {
    match first_of(op.operands@) {
        Some(PdfObject::Name(name)) => name@,
        _ => Seq::empty(),
    }
}

/// The font in effect before operation `upto`: what the last `Tf` before it
/// selects, or nothing.
pub open spec fn font_in_effect(ops: Seq<ContentOp>, upto: int) -> Seq<u8>
    decreases upto,
{
    if upto <= 0 || upto > ops.len() {
        Seq::empty()
    } else if ops[upto - 1].operator@ == "Tf"@ {
        selected_font(ops[upto - 1])
    } else {
        font_in_effect(ops, upto - 1)
    }
}

/// The resource name of the font in effect at an operation, by replaying the
/// `Tf` operators that precede it.
pub fn font_name_at(ops: &[ContentOp], operation: usize) -> (r: Vec<u8>)
    ensures
        r@ == font_in_effect(ops@, if operation <= ops@.len() { operation as int } else { ops@.len() as int }),
{
    let upto = if operation <= ops.len() {
        operation
    } else {
        ops.len()
    };
    let mut current: Vec<u8> = Vec::new();
    let mut k: usize = 0;
    while k < upto
        invariant
            k <= upto <= ops@.len(),
            current@ == font_in_effect(ops@, k as int),
        decreases upto - k,
    {
        if same_text_of(ops[k].operator.as_str(), "Tf") {
            current = match ops[k].operands.first() {
                Some(PdfObject::Name(name)) => copy_bytes(name.as_slice()),
                _ => Vec::new(),
            };
        }
        k = k + 1;
    }
    current
}

/// What `Document::get_page_resources(page)` gives: the page's own
/// `/Resources` when it is a dictionary written inline, and the ids of the
/// `/Resources` dictionaries named by reference on the page and on each
/// ancestor, nearest first; `None` where it fails.
pub uninterp spec fn resource_sources(objects: Map<ObjectId, PdfObject>, page: ObjectId) -> Option<
    (Option<PdfDict>, Seq<ObjectId>),
>;

/// `Document::get_page_resources`.
#[verifier::external_body]
fn page_resource_sources(doc: &lopdf::Document, page: ObjectId) -> (r: Option<(Option<PdfDict>, Vec<ObjectId>)>)
    ensures
        match r {
            Some((inline, ids)) => resource_sources(document_objects(*doc), page) == Some((inline, ids@)),
            None => resource_sources(document_objects(*doc), page) is None,
        },
{
    match doc.get_page_resources(page) {
        Ok((inline, ids)) => Some((inline.cloned().map(dict_from_lopdf), ids)),
        Err(_) => None,
    }
}

/// `base` with each of `entries` set in turn.
pub open spec fn entries_set(
    base: Seq<(Seq<u8>, PdfObject)>,
    entries: Seq<(Seq<u8>, PdfObject)>,
) -> Seq<(Seq<u8>, PdfObject)>
    decreases entries.len(),
{
    if entries.len() == 0 {
        base
    } else {
        set_entry(entries_set(base, entries.drop_last()), entries.last().0, entries.last().1)
    }
}

/// `base` with the entries of each dictionary `ids` names set in turn; an id
/// that names no dictionary adds nothing.
pub open spec fn merged_from(
    objects: Map<ObjectId, PdfObject>,
    base: Seq<(Seq<u8>, PdfObject)>,
    ids: Seq<ObjectId>,
) -> Seq<(Seq<u8>, PdfObject)>
    decreases ids.len(),
{
    if ids.len() == 0 {
        base
    } else {
        let earlier = merged_from(objects, base, ids.drop_last());
        match dict_of(objects, ids.last()) {
            Some(dict) => entries_set(earlier, dict@),
            None => earlier,
        }
    }
}

/// The resources a page draws with: the dictionaries its ancestors and it
/// name by reference, merged in that order, then what it states inline,
/// nearest winning; nothing where they cannot be found.
pub open spec fn page_resources_of(objects: Map<ObjectId, PdfObject>, page: ObjectId) -> Seq<
    (Seq<u8>, PdfObject),
> {
    match resource_sources(objects, page) {
        Some((inline, ids)) => {
            let referenced = merged_from(objects, Seq::empty(), ids);
            match inline {
                Some(dict) => entries_set(referenced, dict@),
                None => referenced,
            }
        },
        None => Seq::empty(),
    }
}

/// Sets every entry of `dict` on `target`, in order.
fn set_all(target: &mut PdfDict, dict: PdfDict)
    ensures
        final(target)@ == entries_set(old(target)@, dict@),
{
    let ghost all = dict@;
    let ghost start = target@;
    let mut entries = dict.entries;
    let count = entries.len();
    let mut k: usize = 0;
    assert(all.subrange(0, 0) =~= Seq::<(Seq<u8>, PdfObject)>::empty());
    while k < count
        invariant
            count == all.len(),
            k <= count,
            keyed(entries@) == all.subrange(k as int, all.len() as int),
            target@ == entries_set(start, all.subrange(0, k as int)),
        decreases count - k,
    {
        let ghost rest = entries@;
        assert(keyed(rest).len() == rest.len());
        assert(rest.len() == count - k);
        assert(keyed(rest)[0] == (rest[0].0@, rest[0].1));
        let (name, value) = entries.remove(0);
        assert(entries@ =~= rest.subrange(1, rest.len() as int));
        assert forall|i: int| 0 <= i < entries@.len() implies #[trigger] keyed(entries@)[i] == all[k + 1 + i] by {
            assert(keyed(rest)[i + 1] == (rest[i + 1].0@, rest[i + 1].1));
            assert(keyed(rest)[i + 1] == all.subrange(k as int, all.len() as int)[i + 1]);
        }
        assert(keyed(entries@) =~= all.subrange(k + 1, all.len() as int));
        assert(all[k as int] == (name@, value));
        assert(all.subrange(0, k + 1).drop_last() =~= all.subrange(0, k as int));
        target.set(name, value);
        k = k + 1;
    }
    assert(all.subrange(0, all.len() as int) =~= all);
}

/// The resources a page draws with, including any it inherits.
pub fn page_resources(doc: &lopdf::Document, page: ObjectId) -> (r: PdfDict)
    ensures
        r@ == page_resources_of(document_objects(*doc), page),
{
    let (inline, ids) = match page_resource_sources(doc, page) {
        Some(found) => found,
        None => return PdfDict::new(),
    };
    let ghost objects = document_objects(*doc);
    let mut merged = PdfDict::new();
    // Referenced dictionaries come from ancestors; anything the page states
    // inline is nearer and wins.
    let mut k: usize = 0;
    while k < ids.len()
        invariant
            k <= ids@.len(),
            objects == document_objects(*doc),
            merged@ == merged_from(objects, Seq::empty(), ids@.subrange(0, k as int)),
        decreases ids@.len() - k,
    {
        assert(ids@.subrange(0, k + 1).drop_last() =~= ids@.subrange(0, k as int));
        if let Some(dict) = get_dictionary(doc, ids[k]) {
            set_all(&mut merged, dict);
        }
        k = k + 1;
    }
    assert(ids@.subrange(0, ids@.len() as int) =~= ids@);
    if let Some(dict) = inline {
        set_all(&mut merged, dict);
    }
    merged
}

/// An operation as values: its operator's characters and its operands.
pub open spec fn op_view(op: ContentOp) -> (Seq<char>, Seq<PdfObject>) {
    (op.operator@, op.operands@)
}

pub open spec fn ops_view(ops: Seq<ContentOp>) -> Seq<(Seq<char>, Seq<PdfObject>)> {
    ops.map_values(|op: ContentOp| op_view(op))
}

/// The operations `Content::decode` reads from `bytes`, or `None` where it
/// fails.
pub uninterp spec fn decoded_operations(bytes: Seq<u8>) -> Option<Seq<(Seq<char>, Seq<PdfObject>)>>;

/// The bytes `Content::encode` writes for `ops`, or `None` where it fails.
pub uninterp spec fn encoded_operations(ops: Seq<(Seq<char>, Seq<PdfObject>)>) -> Option<Seq<u8>>;

/// The bytes `Document::get_page_content` gives for a page: its content
/// streams, decoded and joined.
pub uninterp spec fn page_content_bytes(objects: Map<ObjectId, PdfObject>, page: ObjectId) -> Seq<u8>;

/// An `lopdf` operation into the model, one value for one.
#[verifier::external_body]
pub(crate) fn op_from_lopdf(op: lopdf::content::Operation) -> (r: ContentOp) {
    ContentOp { operator: op.operator, operands: op.operands.into_iter().map(object_from_lopdf).collect() }
}

/// A model operation back into `lopdf`'s, one value for one.
#[verifier::external_body]
pub(crate) fn op_to_lopdf(op: ContentOp) -> (r: lopdf::content::Operation) {
    lopdf::content::Operation { operator: op.operator, operands: op.operands.into_iter().map(object_to_lopdf).collect() }
}

/// `Content::decode`.
#[verifier::external_body]
fn decode_operations(bytes: &[u8]) -> (r: Option<Vec<ContentOp>>)
    ensures
        match r {
            Some(ops) => decoded_operations(bytes@) == Some(ops_view(ops@)),
            None => decoded_operations(bytes@) is None,
        },
{
    lopdf::content::Content::decode(bytes).ok().map(|content| content.operations.into_iter().map(op_from_lopdf).collect())
}

/// `Content::encode`; a failure comes back as `lopdf`'s message.
#[verifier::external_body]
fn encode_operations(ops: Vec<ContentOp>) -> (r: Result<Vec<u8>, String>)
    ensures
        match r {
            Ok(bytes) => encoded_operations(ops_view(ops@)) == Some(bytes@),
            Err(_) => encoded_operations(ops_view(ops@)) is None,
        },
{
    let content = lopdf::content::Content { operations: ops.into_iter().map(op_to_lopdf).collect::<Vec<_>>() };
    content.encode().map_err(|error| error.to_string())
}

/// `Document::get_page_content`.
#[verifier::external_body]
fn page_content(doc: &lopdf::Document, page: ObjectId) -> (r: Vec<u8>)
    ensures
        r@ == page_content_bytes(document_objects(*doc), page),
{
    doc.get_page_content(page)
}

/// The operations of the stream a run lives in: the page's own content when
/// `stream` is `None`, else the stream object `stream` resolves to.
pub open spec fn stream_operations(
    objects: Map<ObjectId, PdfObject>,
    page: ObjectId,
    stream: Option<ObjectId>,
) -> Option<Seq<(Seq<char>, Seq<PdfObject>)>> {
    match stream {
        None => decoded_operations(page_content_bytes(objects, page)),
        Some(id) => match object_of(objects, id) {
            Some(PdfObject::Stream(found)) => decoded_operations(stream_bytes(found)),
            _ => None,
        },
    }
}

/// `error` reports a rendering problem with this text.
pub open spec fn is_render(error: AppError, text: Seq<char>) -> bool {
    match error {
        AppError::Render(message) => message@ == text,
        _ => false,
    }
}

/// `r` is a rendering error with this text.
pub open spec fn rendering_failed<T>(r: AppResult<T>, text: Seq<char>) -> bool {
    match r {
        Err(error) => is_render(error, text),
        Ok(_) => false,
    }
}

pub open spec fn unreadable_message() -> Seq<char> {
    "This page's contents could not be read."@
}

/// The decoded operations of the stream a run lives in.
pub fn stream_content(doc: &lopdf::Document, page: ObjectId, stream: Option<ObjectId>) -> (r: AppResult<
    Vec<ContentOp>,
>)
    ensures
        match r {
            Ok(ops) => stream_operations(document_objects(*doc), page, stream) == Some(ops_view(ops@)),
            Err(error) => stream_operations(document_objects(*doc), page, stream) is None && is_render(
                error,
                unreadable_message(),
            ),
        },
{
    let decoded = match stream {
        None => decode_operations(page_content(doc, page).as_slice()),
        Some(id) => match get_object(doc, id) {
            Some(PdfObject::Stream(found)) => decode_operations(content_bytes(found).as_slice()),
            _ => None,
        },
    };
    match decoded {
        Some(ops) => Ok(ops),
        None => Err(AppError::Render(String::from_str("This page's contents could not be read."))),
    }
}

/// `Document::get_object_mut(id)` then `as_stream_mut`: where the stream is
/// stored once references are followed, and the stream.
pub open spec fn stream_target(objects: Map<ObjectId, PdfObject>, id: ObjectId) -> Option<(ObjectId, PdfStream)> {
    match stored(objects, id) {
        Some(object) => match deref_from(objects, object, None, 0) {
            Some((last, PdfObject::Stream(found))) => Some(
                (
                    match last {
                        Some(target) => target,
                        None => id,
                    },
                    found,
                ),
            ),
            _ => None,
        },
        None => None,
    }
}

fn stream_for_update(doc: &lopdf::Document, id: ObjectId) -> (r: Option<(ObjectId, PdfStream)>)
    ensures
        r == stream_target(document_objects(*doc), id),
        r matches Some((_, found)) ==> dict_deep(found.dict),
{
    match object_at(doc, id) {
        Some(object) => match dereference(doc, object) {
            Some((last, PdfObject::Stream(found))) => {
                let target = match last {
                    Some(target) => target,
                    None => id,
                };
                Some((target, found))
            },
            _ => None,
        },
        None => None,
    }
}

/// A stream's content replaced by plain bytes: its filters dropped (they no
/// longer describe it), `/Length` set, the bytes stored.
pub open spec fn plainly_rewritten(before: PdfStream, after: PdfStream, bytes: Seq<u8>) -> bool {
    &&& after.content@ == bytes
    &&& after.dict@ == set_entry(
        crate::pdf::object::remove_entry(
            crate::pdf::object::remove_entry(before.dict@, "Filter".spec_bytes()),
            "DecodeParms".spec_bytes(),
        ),
        "Length".spec_bytes(),
        PdfObject::Integer(bytes.len() as i64),
    )
    &&& after.allows_compression == before.allows_compression
    &&& after.start_position == before.start_position
}

/// What `write_content` leaves: a new stream of `bytes` (with `/Length`),
/// numbered next, and the page's `/Contents` pointing at it where the page
/// is a dictionary.
pub open spec fn content_replaced(
    before: Map<ObjectId, PdfObject>,
    after: Map<ObjectId, PdfObject>,
    max_id: u32,
    page: ObjectId,
    bytes: Seq<u8>,
) -> bool {
    let id: ObjectId = ((max_id + 1) as u32, 0u16);
    let added = before.insert(id, after[id]);
    &&& after.contains_key(id)
    &&& match after[id] {
        PdfObject::Stream(stream) => stream.content@ == bytes && stream.dict@ == seq![
            ("Length".spec_bytes(), PdfObject::Integer(bytes.len() as i64)),
        ],
        _ => false,
    }
    &&& match dict_target(added, page) {
        Some((at, dict)) => with_dict(
            added,
            after,
            at,
            set_entry(dict@, "Contents".spec_bytes(), PdfObject::Reference(id)),
        ),
        None => after == added,
    }
}

/// Replaces a page's content with a single stream holding `bytes`.
pub fn write_content(doc: &mut lopdf::Document, page: ObjectId, bytes: Vec<u8>) -> (r: AppResult<()>)
    requires
        document_max_id(*old(doc)) < u32::MAX,
    ensures
        r is Ok,
        document_max_id(*final(doc)) == document_max_id(*old(doc)) + 1,
        document_trailer(*final(doc)) == document_trailer(*old(doc)),
        content_replaced(
            document_objects(*old(doc)),
            document_objects(*final(doc)),
            document_max_id(*old(doc)),
            page,
            bytes@,
        ),
{
    let ghost before = document_objects(*doc);
    let ghost content = bytes@;
    let length = bytes.len() as i64;
    let mut dict = PdfDict::new();
    dict.set(key("Length"), PdfObject::Integer(length));
    let stream = PdfStream { dict, content: bytes, allows_compression: true, start_position: None };
    let stream_id = add_object(doc, PdfObject::Stream(stream));
    let ghost added = document_objects(*doc);
    assert(added == before.insert(stream_id, added[stream_id]));
    if let Some((target, mut page_dict)) = dict_for_update(doc, page) {
        page_dict.set(key("Contents"), PdfObject::Reference(stream_id));
        proof {
            crate::pdf::document::lemma_target_stored(added, page);
        }
        put_object(doc, target, PdfObject::Dictionary(page_dict));
        assert(document_objects(*doc)[stream_id] == added[stream_id]);
    }
    Ok(())
}

/// Writes operations back to the stream they came from: the page's own
/// content (replaced by one new stream) when `stream` is `None`, else the
/// stream object `stream` resolves to, rewritten in place.
pub fn write_stream_content(
    doc: &mut lopdf::Document,
    page: ObjectId,
    stream: Option<ObjectId>,
    ops: Vec<ContentOp>,
) -> (r: AppResult<()>)
    requires
        document_max_id(*old(doc)) < u32::MAX,
    ensures
        match encoded_operations(ops_view(ops@)) {
            None => *final(doc) == *old(doc) && r matches Err(AppError::Render(_)),
            Some(bytes) => match stream {
                None => r is Ok && document_max_id(*final(doc)) == document_max_id(*old(doc)) + 1
                    && document_trailer(*final(doc)) == document_trailer(*old(doc)) && content_replaced(
                    document_objects(*old(doc)),
                    document_objects(*final(doc)),
                    document_max_id(*old(doc)),
                    page,
                    bytes,
                ),
                Some(id) => match stream_target(document_objects(*old(doc)), id) {
                    None => *final(doc) == *old(doc) && rendering_failed(r, "That text could not be rewritten."@),
                    Some((at, found)) => {
                        &&& r is Ok
                        &&& document_objects(*final(doc)) == document_objects(*old(doc)).insert(
                            at,
                            document_objects(*final(doc))[at],
                        )
                        &&& document_objects(*final(doc))[at] matches PdfObject::Stream(rewritten)
                            && plainly_rewritten(found, rewritten, bytes)
                        &&& document_max_id(*final(doc)) == document_max_id(*old(doc))
                        &&& document_trailer(*final(doc)) == document_trailer(*old(doc))
                    },
                },
            },
        },
{
    let bytes = match encode_operations(ops) {
        Ok(bytes) => bytes,
        Err(error) => {
            let mut message = String::from_str("Could not rewrite the page: ");
            message.append(error.as_str());
            return Err(AppError::Render(message));
        },
    };
    match stream {
        None => write_content(doc, page, bytes),
        Some(id) => {
            let (target, mut existing) = match stream_for_update(doc, id) {
                Some(found) => found,
                None => return Err(AppError::Render(String::from_str("That text could not be rewritten."))),
            };
            // The replacement is plain text, so any filter the original
            // carried no longer describes it.
            existing.dict.remove("Filter".as_bytes());
            existing.dict.remove("DecodeParms".as_bytes());
            let length = bytes.len() as i64;
            existing.content = bytes;
            existing.dict.set(key("Length"), PdfObject::Integer(length));
            put_object(doc, target, PdfObject::Stream(existing));
            Ok(())
        },
    }
}

/// The resource name the redraw path uses for its substituted font.
pub open spec fn helvetica_resource() -> Seq<u8> {
    "NxHelv".spec_bytes()
}

/// The standard Helvetica font dictionary, WinAnsi-encoded.
pub open spec fn is_helvetica(object: PdfObject) -> bool {
    match object {
        PdfObject::Dictionary(font) => {
            &&& font@.len() == 4
            &&& crate::pdf::document::is_name(font.lookup("Type".spec_bytes()), "Font".spec_bytes())
            &&& crate::pdf::document::is_name(font.lookup("Subtype".spec_bytes()), "Type1".spec_bytes())
            &&& crate::pdf::document::is_name(font.lookup("BaseFont".spec_bytes()), "Helvetica".spec_bytes())
            &&& crate::pdf::document::is_name(font.lookup("Encoding".spec_bytes()), "WinAnsiEncoding".spec_bytes())
        },
        _ => false,
    }
}

/// The resources a page states itself: its `/Resources` dictionary, inline
/// or by reference; nothing where there is none.
pub open spec fn own_resources(objects: Map<ObjectId, PdfObject>, page: ObjectId) -> Seq<(Seq<u8>, PdfObject)> {
    match dict_of(objects, page) {
        Some(dict) => match dict.lookup("Resources".spec_bytes()) {
            Some(PdfObject::Dictionary(resources)) => resources@,
            Some(PdfObject::Reference(id)) => match dict_of(objects, id) {
                Some(resources) => resources@,
                None => Seq::empty(),
            },
            _ => Seq::empty(),
        },
        None => Seq::empty(),
    }
}

/// The fonts a resource dictionary declares: its `/Font`, resolved, when it
/// is a dictionary.
pub open spec fn declared_fonts(objects: Map<ObjectId, PdfObject>, resources: Seq<(Seq<u8>, PdfObject)>) -> Seq<
    (Seq<u8>, PdfObject),
> {
    match crate::pdf::object::entry_value(resources, "Font".spec_bytes()) {
        Some(value) => match crate::pdf::document::resolved(objects, value) {
            PdfObject::Dictionary(fonts) => fonts@,
            _ => Seq::empty(),
        },
        None => Seq::empty(),
    }
}

/// `page` (the dictionary `before` resolved `page_id` to) with its resources
/// made `resources` plus Helvetica, under [`helvetica_resource`], in its
/// `/Font`.
pub open spec fn helvetica_added(
    objects: Map<ObjectId, PdfObject>,
    page: PdfDict,
    after: PdfDict,
    resources: Seq<(Seq<u8>, PdfObject)>,
    font: ObjectId,
) -> bool {
    match after.lookup("Resources".spec_bytes()) {
        Some(PdfObject::Dictionary(updated)) => match updated.lookup("Font".spec_bytes()) {
            Some(PdfObject::Dictionary(fonts)) => {
                &&& after@ == set_entry(page@, "Resources".spec_bytes(), PdfObject::Dictionary(updated))
                &&& updated@ == set_entry(resources, "Font".spec_bytes(), PdfObject::Dictionary(fonts))
                &&& fonts@ == set_entry(
                    declared_fonts(objects, resources),
                    helvetica_resource(),
                    PdfObject::Reference(font),
                )
            },
            _ => false,
        },
        _ => false,
    }
}

fn helvetica_font() -> (r: PdfDict)
    ensures
        is_helvetica(PdfObject::Dictionary(r)),
        dict_deep(r),
{
    broadcast use crate::pdf::object::lemma_lookup_after_set, crate::pdf::object::lemma_len_after_set;

    proof {
        reveal_strlit("Type");
        reveal_strlit("Subtype");
        reveal_strlit("BaseFont");
        reveal_strlit("Encoding");
        crate::pdf::document::lemma_ascii_bytes("Type");
        crate::pdf::document::lemma_ascii_bytes("Subtype");
        crate::pdf::document::lemma_ascii_bytes("BaseFont");
        crate::pdf::document::lemma_ascii_bytes("Encoding");
        assert("BaseFont".spec_bytes()[0] != "Encoding".spec_bytes()[0]);
    }
    let mut font = PdfDict::new();
    font.set(key("Type"), PdfObject::Name(key("Font")));
    font.set(key("Subtype"), PdfObject::Name(key("Type1")));
    font.set(key("BaseFont"), PdfObject::Name(key("Helvetica")));
    font.set(key("Encoding"), PdfObject::Name(key("WinAnsiEncoding")));
    font
}

/// The resource name under which the redraw path's Helvetica is declared.
pub fn helvetica_resource_name() -> (r: Vec<u8>)
    ensures
        r@ == helvetica_resource(),
{
    copy_bytes("NxHelv".as_bytes())
}

/// Adds Helvetica to the document and to a page's resources, returning the
/// font object.
pub fn ensure_helvetica(doc: &mut lopdf::Document, page: ObjectId) -> (r: AppResult<ObjectId>)
    requires
        document_max_id(*old(doc)) < u32::MAX,
    ensures
        r == Ok::<ObjectId, AppError>(((document_max_id(*old(doc)) + 1) as u32, 0u16)),
        document_max_id(*final(doc)) == document_max_id(*old(doc)) + 1,
        document_trailer(*final(doc)) == document_trailer(*old(doc)),
        // On a well-numbered document whose page resolves to a dictionary:
        ({
            let objects = document_objects(*old(doc));
            let font: ObjectId = ((document_max_id(*old(doc)) + 1) as u32, 0u16);
            let added = objects.insert(font, document_objects(*final(doc))[font]);
            ids_bounded(objects, document_max_id(*old(doc))) && dict_target(objects, page) is Some ==> {
                &&& is_helvetica(document_objects(*final(doc))[font])
                &&& match dict_target(added, page) {
                    Some((at, dict)) => {
                        &&& document_objects(*final(doc)) == added.insert(at, document_objects(*final(doc))[at])
                        &&& document_objects(*final(doc))[at] matches PdfObject::Dictionary(updated)
                            && helvetica_added(added, dict, updated, own_resources(added, page), font)
                    },
                    None => false,
                }
            }
        }),
{
    broadcast use crate::pdf::object::lemma_lookup_after_set;

    let ghost before = document_objects(*doc);
    let ghost max_before = document_max_id(*doc);
    let helvetica = helvetica_font();
    let ghost helvetica_object = PdfObject::Dictionary(helvetica);
    let font_id = add_object(doc, PdfObject::Dictionary(helvetica));
    let ghost added = document_objects(*doc);
    assert(added == before.insert(font_id, added[font_id]));
    proof {
        if ids_bounded(before, max_before) && dict_target(before, page) is Some {
            crate::pdf::document::lemma_add_keeps(before, max_before, helvetica_object);
            crate::pdf::document::lemma_target_stored(before, page);
            assert(dict_target(added, page) is Some);
            assert(crate::pdf::document::found_at(dict_target(added, page)) != font_id);
        }
    }

    let existing = match get_dictionary(doc, page) {
        Some(page_dict) => page_dict.into_value("Resources".as_bytes()),
        None => None,
    };
    let mut resources = match existing {
        Some(PdfObject::Dictionary(dict)) => dict,
        Some(PdfObject::Reference(id)) => match get_dictionary(doc, id) {
            Some(dict) => dict,
            None => PdfDict::new(),
        },
        _ => PdfDict::new(),
    };
    let ghost own = resources@;
    assert(own == own_resources(added, page));
    let fonts_entry = match resources.get("Font".as_bytes()) {
        Some(PdfObject::Reference(id)) => resolve_copy(doc, *id),
        Some(PdfObject::Dictionary(_)) => {
            let mut taken = PdfDict::new();
            let ghost held = resources@;
            if let Some(PdfObject::Dictionary(inner)) = resources.take_value("Font".as_bytes()) {
                taken = inner;
            }
            proof {
                crate::pdf::object::lemma_set_twice(held, "Font".spec_bytes(), PdfObject::Null, arbitrary());
                assert forall|v: PdfObject| set_entry(resources@, "Font".spec_bytes(), v) == set_entry(
                    held,
                    "Font".spec_bytes(),
                    v,
                ) by {
                    crate::pdf::object::lemma_set_twice(held, "Font".spec_bytes(), PdfObject::Null, v);
                }
            }
            taken
        },
        _ => PdfDict::new(),
    };
    let mut font_dict = fonts_entry;
    assert(font_dict@ == declared_fonts(added, own));
    font_dict.set(helvetica_resource_name(), PdfObject::Reference(font_id));
    let ghost fonts_view = font_dict;
    resources.set(key("Font"), PdfObject::Dictionary(font_dict));
    let ghost resources_view = resources;

    let ghost good = ids_bounded(before, max_before) && dict_target(before, page) is Some;
    if let Some((target, mut page_dict)) = dict_for_update(doc, page) {
        let ghost original = page_dict;
        page_dict.set(key("Resources"), PdfObject::Dictionary(resources));
        proof {
            crate::pdf::document::lemma_target_stored(added, page);
            crate::pdf::document::lemma_dict_of_target(added, page);
        }
        put_object(doc, target, PdfObject::Dictionary(page_dict));
        proof {
            if good {
                assert(target != font_id);
                assert(document_objects(*doc)[font_id] == helvetica_object);
                assert(is_helvetica(helvetica_object));
                assert(fonts_view@ == set_entry(declared_fonts(added, own), helvetica_resource(), PdfObject::Reference(font_id)));
                assert(resources_view@ == set_entry(own, "Font".spec_bytes(), PdfObject::Dictionary(fonts_view)));
                assert(page_dict.lookup("Resources".spec_bytes()) == Some(PdfObject::Dictionary(resources_view)));
                assert(resources_view.lookup("Font".spec_bytes()) == Some(PdfObject::Dictionary(fonts_view)));
                assert(helvetica_added(added, original, page_dict, own_resources(added, page), font_id));
            }
        }
    }
    Ok(font_id)
}

/// The dictionary `id` resolves to, or an empty one.
fn resolve_copy(doc: &lopdf::Document, id: ObjectId) -> (r: PdfDict)
    ensures
        r@ == match crate::pdf::document::resolved(document_objects(*doc), PdfObject::Reference(id)) {
            PdfObject::Dictionary(dict) => dict@,
            _ => Seq::empty(),
        },
        dict_deep(r),
{
    match crate::pdf::document::resolve(doc, PdfObject::Reference(id)) {
        PdfObject::Dictionary(dict) => dict,
        _ => PdfDict::new(),
    }
}

} // verus!
