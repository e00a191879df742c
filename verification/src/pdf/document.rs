//! Document lifecycle and page-tree operations, all on top of `lopdf`.
//!
//! Page indices crossing the library boundary are **0-based**. `lopdf` numbers
//! pages from 1, so that conversion happens here and nowhere else.

use vstd::prelude::*;

use vstd::string::{StringExecFns, StringSliceAdditionalSpecFns};

use crate::decimal::{decimal, decimal_text};
use crate::error::{invalid_input, pdf_error, AppError, AppResult};
use crate::pdf::forms::{found_dict, has_acro_form, spec_has_acro_form};
use crate::pdf::object::{
    copy_bytes, deep_distinct, dict_deep, keys_distinct, same_bytes, lemma_set_entry_reads_back, lemma_lookup_distinct, lemma_set_new_key, dict_from_lopdf, dict_to_lopdf, object_from_lopdf, object_to_lopdf, set_entry,
    ObjectId, PdfDict, PdfObject,
};

verus! {

broadcast use crate::pdf::object::group_deep;

/// The `lopdf` document model, carried through the library unopened; what
/// the library reads and writes of it goes through the functions below.
#[verifier::external_type_specification]
#[verifier::external_body]
pub struct ExDocument(lopdf::Document);

/// The indirect objects `doc` holds (`Document::objects`), in the model.
pub uninterp spec fn document_objects(doc: lopdf::Document) -> Map<ObjectId, PdfObject>;

/// `doc`'s trailer dictionary (`Document::trailer`), in the model.
pub uninterp spec fn document_trailer(doc: lopdf::Document) -> PdfDict;

/// The highest object number `doc` has handed out (`Document::max_id`).
pub uninterp spec fn document_max_id(doc: lopdf::Document) -> u32;

/// The PDF version `doc` declares (`Document::version`).
pub uninterp spec fn document_version(doc: lopdf::Document) -> Seq<char>;

/// The bytes `lopdf`'s writer produces for `doc`, or `None` where writing
/// fails.
pub uninterp spec fn pdf_bytes(doc: lopdf::Document) -> Option<Seq<u8>>;

/// The page objects `lopdf`'s page-tree walk (`Document::get_pages`) finds,
/// in page order.
pub uninterp spec fn page_tree(objects: Map<ObjectId, PdfObject>, trailer: PdfDict) -> Seq<ObjectId>;

/// The objects, trailer, highest object number and declared version
/// `Document::load_mem` reads from `bytes`, or `None` where it fails. The crate
/// builds `lopdf` without its `rayon` feature, so the reader parses the
/// cross-reference entries one after another in their order and adds the
/// objects of object streams in that order too: what it reads depends on the
/// bytes alone.
pub uninterp spec fn parsed_pdf(bytes: Seq<u8>) -> Option<
    (Map<ObjectId, PdfObject>, PdfDict, u32, Seq<char>),
>;

/// The objects and trailer after `Document::delete_pages(numbers)`.
pub uninterp spec fn pages_removed(
    objects: Map<ObjectId, PdfObject>,
    trailer: PdfDict,
    numbers: Seq<u32>,
) -> (Map<ObjectId, PdfObject>, PdfDict);

/// The objects after `Document::prune_objects`.
pub uninterp spec fn pruned_objects(objects: Map<ObjectId, PdfObject>, trailer: PdfDict) -> Map<
    ObjectId,
    PdfObject,
>;

/// The objects, trailer and highest object number after
/// `Document::renumber_objects_with(start)`.
pub uninterp spec fn renumbered(
    objects: Map<ObjectId, PdfObject>,
    trailer: PdfDict,
    start: u32,
) -> (Map<ObjectId, PdfObject>, PdfDict, u32);

/// The object stored under `id`, if any.
pub open spec fn stored(objects: Map<ObjectId, PdfObject>, id: ObjectId) -> Option<PdfObject> {
    if objects.contains_key(id) {
        Some(objects[id])
    } else {
        None
    }
}

/// The object `Document::objects` holds under `id`, converted to the model.
#[verifier::external_body]
pub(crate) fn object_at(doc: &lopdf::Document, id: ObjectId) -> (r: Option<PdfObject>)
    ensures
        r == stored(document_objects(*doc), id),
        // A `lopdf` dictionary is an `IndexMap`: no key occurs twice, at any
        // depth.
        r matches Some(PdfObject::Dictionary(dict)) ==> keys_distinct(dict@),
        r matches Some(object) ==> deep_distinct(object),
{
    doc.objects.get(&id).cloned().map(object_from_lopdf)
}

/// Stores `object` under `id` in `Document::objects`, replacing what was there.
/// `lopdf` keeps a dictionary as an `IndexMap`, which merges a repeated key;
/// the `requires` asks for an object with none, so it is stored as it is.
#[verifier::external_body]
pub(crate) fn put_object(doc: &mut lopdf::Document, id: ObjectId, object: PdfObject)
    requires
        deep_distinct(object),
    ensures
        document_objects(*final(doc)) == document_objects(*old(doc)).insert(id, object),
        document_trailer(*final(doc)) == document_trailer(*old(doc)),
        document_max_id(*final(doc)) == document_max_id(*old(doc)),
        document_version(*final(doc)) == document_version(*old(doc)),
{
    doc.objects.insert(id, object_to_lopdf(object));
}

/// Removes the object stored under `id` from `Document::objects`.
#[verifier::external_body]
pub(crate) fn drop_object(doc: &mut lopdf::Document, id: ObjectId)
    ensures
        document_objects(*final(doc)) == document_objects(*old(doc)).remove(id),
        document_trailer(*final(doc)) == document_trailer(*old(doc)),
        document_max_id(*final(doc)) == document_max_id(*old(doc)),
        document_version(*final(doc)) == document_version(*old(doc)),
{
    doc.objects.remove(&id);
}

/// `Document::add_object`: takes the next object number, generation 0, and
/// stores `object` under it. It panics once the numbers are used up, which the
/// `requires` rules out; as with `put_object`, the object has no repeated key.
#[verifier::external_body]
pub(crate) fn add_object(doc: &mut lopdf::Document, object: PdfObject) -> (r: ObjectId)
    requires
        document_max_id(*old(doc)) < u32::MAX,
        deep_distinct(object),
    ensures
        r == ((document_max_id(*old(doc)) + 1) as u32, 0u16),
        document_max_id(*final(doc)) == document_max_id(*old(doc)) + 1,
        document_objects(*final(doc)) == document_objects(*old(doc)).insert(r, object),
        document_trailer(*final(doc)) == document_trailer(*old(doc)),
        document_version(*final(doc)) == document_version(*old(doc)),
{
    doc.add_object(object_to_lopdf(object))
}

/// A copy of `Document::trailer`.
#[verifier::external_body]
pub(crate) fn trailer_of(doc: &lopdf::Document) -> (r: PdfDict)
    ensures
        r == document_trailer(*doc),
        dict_deep(r),
{
    dict_from_lopdf(doc.trailer.clone())
}

/// Replaces `Document::trailer`, given a dictionary with no repeated key (which
/// `lopdf` would merge).
#[verifier::external_body]
pub(crate) fn put_trailer(doc: &mut lopdf::Document, trailer: PdfDict)
    requires
        dict_deep(trailer),
    ensures
        document_trailer(*final(doc)) == trailer,
        document_objects(*final(doc)) == document_objects(*old(doc)),
        document_max_id(*final(doc)) == document_max_id(*old(doc)),
        document_version(*final(doc)) == document_version(*old(doc)),
{
    doc.trailer = dict_to_lopdf(trailer);
}

/// `Document::max_id`.
#[verifier::external_body]
pub(crate) fn max_id_of(doc: &lopdf::Document) -> (r: u32)
    ensures
        r == document_max_id(*doc),
{
    doc.max_id
}

/// Sets `Document::max_id`.
#[verifier::external_body]
pub(crate) fn put_max_id(doc: &mut lopdf::Document, max_id: u32)
    ensures
        document_max_id(*final(doc)) == max_id,
        document_objects(*final(doc)) == document_objects(*old(doc)),
        document_trailer(*final(doc)) == document_trailer(*old(doc)),
        document_version(*final(doc)) == document_version(*old(doc)),
{
    doc.max_id = max_id;
}

/// The number of objects `Document::objects` holds.
#[verifier::external_body]
pub(crate) fn object_count(doc: &lopdf::Document) -> (r: usize)
    ensures
        r == document_objects(*doc).dom().len(),
{
    doc.objects.len()
}

/// A copy of `Document::version`.
#[verifier::external_body]
pub(crate) fn version_of(doc: &lopdf::Document) -> (r: String)
    ensures
        r@ == document_version(*doc),
{
    doc.version.clone()
}

/// Assigns `Document::version`; the objects, trailer and object numbering
/// are untouched.
#[verifier::external_body]
fn put_version(doc: &mut lopdf::Document, version: &str)
    ensures
        document_version(*final(doc)) == version@,
        document_objects(*final(doc)) == document_objects(*old(doc)),
        document_trailer(*final(doc)) == document_trailer(*old(doc)),
        document_max_id(*final(doc)) == document_max_id(*old(doc)),
{
    doc.version = version.to_string();
}

/// `Document::with_version`: a document with no objects, an empty trailer and
/// no object number handed out yet.
#[verifier::external_body]
pub(crate) fn new_document(version: &str) -> (r: lopdf::Document)
    ensures
        forall|id: ObjectId| !document_objects(r).contains_key(id),
        document_trailer(r).entries@.len() == 0,
        document_max_id(r) == 0,
        document_version(r) == version@,
{
    lopdf::Document::with_version(version)
}

/// `Document::new_object_id`: takes the next object number, generation 0,
/// storing nothing under it. It panics once the numbers are used up, which the
/// `requires` rules out.
#[verifier::external_body]
pub(crate) fn new_object_id(doc: &mut lopdf::Document) -> (r: ObjectId)
    requires
        document_max_id(*old(doc)) < u32::MAX,
    ensures
        r == ((document_max_id(*old(doc)) + 1) as u32, 0u16),
        document_max_id(*final(doc)) == document_max_id(*old(doc)) + 1,
        document_objects(*final(doc)) == document_objects(*old(doc)),
        document_trailer(*final(doc)) == document_trailer(*old(doc)),
        document_version(*final(doc)) == document_version(*old(doc)),
{
    doc.new_object_id()
}

/// The ids `Document::objects` holds, each once.
#[verifier::external_body]
pub(crate) fn object_ids(doc: &lopdf::Document) -> (r: Vec<ObjectId>)
    ensures
        r@.no_duplicates(),
        forall|id: ObjectId| r@.contains(id) <==> document_objects(*doc).contains_key(id),
{
    doc.objects.keys().copied().collect()
}

/// Page object ids in presentation order (index 0 == first page), from
/// `Document::get_pages`.
#[verifier::external_body]
pub fn page_ids(doc: &lopdf::Document) -> (r: Vec<ObjectId>)
    ensures
        r@ == page_tree(document_objects(*doc), document_trailer(*doc)),
{
    doc.get_pages().into_values().collect()
}

/// The walk `Document::delete_pages` makes from a deleted page: up the
/// `/Parent` links (the object stored under each id, no reference followed),
/// lowering each node's `/Count` by one. From `id`, with `steps` nodes left, it
/// ends, and meets no `/Count` that `removals` such lowerings would take below
/// `i64::MIN`.
pub open spec fn parent_walk_safe(objects: Map<ObjectId, PdfObject>, id: ObjectId, steps: nat, removals: nat) -> bool
    decreases steps,
{
    match stored(objects, id) {
        Some(PdfObject::Dictionary(dict)) => steps > 0 && (dict.lookup("Count".spec_bytes()) matches Some(
            PdfObject::Integer(count),
        ) ==> count >= i64::MIN + removals) && match dict.lookup("Parent".spec_bytes()) {
            Some(PdfObject::Reference(parent)) => parent_walk_safe(objects, parent, (steps - 1) as nat, removals),
            _ => true,
        },
        _ => true,
    }
}

/// The walk from the page stored under `page`: from its `/Parent`, if it has
/// one, through at most as many nodes as the document holds objects.
pub open spec fn page_walk_safe(objects: Map<ObjectId, PdfObject>, page: ObjectId, removals: nat) -> bool {
    match stored(objects, page) {
        Some(PdfObject::Dictionary(dict)) => match dict.lookup("Parent".spec_bytes()) {
            Some(PdfObject::Reference(parent)) => parent_walk_safe(objects, parent, objects.dom().len(), removals),
            _ => true,
        },
        _ => true,
    }
}

/// `Document::delete_pages(numbers)` returns: from every page it deletes, the
/// walk up the tree ends without taking a `/Count` below `i64::MIN`. (On a
/// `/Parent` cycle it would not end; on such a count it would overflow.)
pub open spec fn deletion_safe(objects: Map<ObjectId, PdfObject>, trailer: PdfDict, numbers: Seq<u32>) -> bool {
    let pages = page_tree(objects, trailer);
    forall|j: int|
        0 <= j < numbers.len() && 1 <= #[trigger] numbers[j] <= pages.len() ==> page_walk_safe(
            objects,
            pages[numbers[j] - 1],
            numbers.len(),
        )
}

/// `Document::delete_pages` with 1-based page numbers. The `requires` leaves
/// out the trees on which its walk up the `/Parent` links would not end or
/// would overflow a `/Count`.
#[verifier::external_body]
fn lopdf_delete_pages(doc: &mut lopdf::Document, numbers: &[u32])
    requires
        deletion_safe(document_objects(*old(doc)), document_trailer(*old(doc)), numbers@),
    ensures
        (document_objects(*final(doc)), document_trailer(*final(doc))) == pages_removed(
            document_objects(*old(doc)),
            document_trailer(*old(doc)),
            numbers@,
        ),
        document_max_id(*final(doc)) == document_max_id(*old(doc)),
        document_version(*final(doc)) == document_version(*old(doc)),
{
    doc.delete_pages(numbers);
}

/// The walk `Document::delete_pages` makes up from `id`, checked.
fn check_parent_walk(doc: &lopdf::Document, id: ObjectId, removals: usize) -> (r: bool)
    ensures
        r == parent_walk_safe(document_objects(*doc), id, document_objects(*doc).dom().len(), removals as nat),
{
    let ghost objects = document_objects(*doc);
    let mut current = id;
    let mut steps: usize = object_count(doc);
    loop
        invariant
            objects == document_objects(*doc),
            parent_walk_safe(objects, id, objects.dom().len(), removals as nat) == parent_walk_safe(
                objects,
                current,
                steps as nat,
                removals as nat,
            ),
        decreases steps,
    {
        let dict = match object_at(doc, current) {
            Some(PdfObject::Dictionary(dict)) => dict,
            _ => return true,
        };
        if steps == 0 {
            return false;
        }
        if let Some(PdfObject::Integer(count)) = dict.get("Count".as_bytes()) {
            if (*count as i128) < (i64::MIN as i128) + (removals as i128) {
                return false;
            }
        }
        match dict.get("Parent".as_bytes()) {
            Some(PdfObject::Reference(parent)) => {
                current = *parent;
            },
            _ => return true,
        }
        steps = steps - 1;
    }
}

/// Whether `Document::delete_pages` can delete the pages numbered `numbers`
/// (from 1) and return: see [`deletion_safe`].
pub fn can_delete_pages(doc: &lopdf::Document, numbers: &[u32]) -> (r: bool)
    ensures
        r == deletion_safe(document_objects(*doc), document_trailer(*doc), numbers@),
{
    let ghost objects = document_objects(*doc);
    let ghost pages_seq = page_tree(objects, document_trailer(*doc));
    let pages = page_ids(doc);
    let mut j: usize = 0;
    while j < numbers.len()
        invariant
            j <= numbers@.len(),
            objects == document_objects(*doc),
            pages@ == pages_seq,
            pages_seq == page_tree(objects, document_trailer(*doc)),
            forall|t: int|
                0 <= t < j && 1 <= #[trigger] numbers@[t] <= pages_seq.len() ==> page_walk_safe(
                    objects,
                    pages_seq[numbers@[t] - 1],
                    numbers@.len(),
                ),
        decreases numbers@.len() - j,
    {
        let number = numbers[j];
        if 1 <= number && (number as usize) <= pages.len() {
            let page = pages[(number - 1) as usize];
            let safe = match object_at(doc, page) {
                Some(PdfObject::Dictionary(dict)) => match dict.get("Parent".as_bytes()) {
                    Some(PdfObject::Reference(parent)) => check_parent_walk(doc, *parent, numbers.len()),
                    _ => true,
                },
                _ => true,
            };
            if !safe {
                assert(!page_walk_safe(objects, pages_seq[numbers@[j as int] - 1], numbers@.len()));
                return false;
            }
        }
        j = j + 1;
    }
    true
}

/// `Document::prune_objects`: drops every object the trailer cannot reach.
#[verifier::external_body]
fn lopdf_prune(doc: &mut lopdf::Document)
    ensures
        document_objects(*final(doc)) == pruned_objects(
            document_objects(*old(doc)),
            document_trailer(*old(doc)),
        ),
        document_trailer(*final(doc)) == document_trailer(*old(doc)),
        document_max_id(*final(doc)) == document_max_id(*old(doc)),
        document_version(*final(doc)) == document_version(*old(doc)),
{
    doc.prune_objects();
}

/// `Document::renumber_objects_with(start)`. It counts object numbers up from
/// `start` in a `u32`, one per object (so every number it gives is at least
/// `start`), and ends by storing one less than where
/// it stopped; the `requires` keeps both steps in range, as it would otherwise
/// panic.
#[verifier::external_body]
fn lopdf_renumber(doc: &mut lopdf::Document, start: u32)
    requires
        1 <= start,
        start + document_objects(*old(doc)).dom().len() <= u32::MAX,
    ensures
        (document_objects(*final(doc)), document_trailer(*final(doc)), document_max_id(
            *final(doc),
        )) == renumbered(document_objects(*old(doc)), document_trailer(*old(doc)), start),
        // Every object is numbered from `start` up.
        forall|id: ObjectId| #[trigger] document_objects(*final(doc)).contains_key(id) ==> id.0 >= start,
        document_version(*final(doc)) == document_version(*old(doc)),
{
    doc.renumber_objects_with(start);
}

/// Serializes `doc` to PDF bytes with `Document::save_to` into a fresh
/// `Vec<u8>`. Writing leaves the objects as they were; it does refresh the
/// trailer's cross-reference entries and takes an object number for the
/// cross-reference stream, and those changes are not stated.
#[verifier::external_body]
pub(crate) fn serialize(doc: &mut lopdf::Document) -> (r: Result<Vec<u8>, std::io::Error>)
    ensures
        match pdf_bytes(*old(doc)) {
            Some(written) => r matches Ok(bytes) && bytes@ == written,
            None => r is Err,
        },
        document_objects(*final(doc)) == document_objects(*old(doc)),
{
    let mut buffer = Vec::new();
    doc.save_to(&mut buffer).map(|_| buffer)
}

/// `<lopdf::Document as Clone>::clone`: an independent copy, equal in every
/// part the library reads.
#[verifier::external_body]
pub(crate) fn copy_document(doc: &lopdf::Document) -> (r: lopdf::Document)
    ensures
        document_objects(r) == document_objects(*doc),
        document_trailer(r) == document_trailer(*doc),
        document_max_id(r) == document_max_id(*doc),
        document_version(r) == document_version(*doc),
        pdf_bytes(r) == pdf_bytes(*doc),
{
    doc.clone()
}

/// Parses PDF bytes with `Document::load_mem`: the document read, as
/// [`parsed_pdf`] names it, or its error. Whether the reader can panic on some
/// malformed input is not excluded here: its parser was not audited for it.
#[verifier::external_body]
pub(crate) fn load(bytes: &[u8]) -> (r: Result<lopdf::Document, lopdf::Error>)
    ensures
        match r {
            Ok(doc) => parsed_pdf(bytes@) == Some(
                (
                    document_objects(doc),
                    document_trailer(doc),
                    document_max_id(doc),
                    document_version(doc),
                ),
            ),
            Err(_) => parsed_pdf(bytes@) is None,
        },
{
    lopdf::Document::load_mem(bytes)
}

/// The version an opened document declares: the one its file gives, or 1.7
/// where the file gives none.
pub open spec fn opened_version(declared: Seq<char>) -> Seq<char> {
    if declared.len() == 0 { "1.7"@ } else { declared }
}

/// Parses the bytes of a PDF file into a document. Some files in the wild
/// carry no version marker at all; those are taken as version 1.7.
pub fn open(bytes: &[u8]) -> (r: AppResult<lopdf::Document>)
    ensures
        r is Ok <==> parsed_pdf(bytes@) is Some,
        r matches Ok(doc) ==> parsed_pdf(bytes@) matches Some((objects, trailer, max_id, declared))
            && document_objects(doc) == objects && document_trailer(doc) == trailer
            && document_max_id(doc) == max_id && document_version(doc) == opened_version(declared),
        r matches Err(e) ==> e is Pdf,
{
    let mut doc = match load(bytes) {
        Ok(doc) => doc,
        Err(error) => return Err(AppError::Pdf(error)),
    };
    let declared = version_of(&doc);
    if declared.as_str().is_empty() {
        proof {
            reveal_strlit("1.7");
        }
        put_version(&mut doc, "1.7");
    }
    Ok(doc)
}

/// PDF permits any multiple of 90, including negatives. Fold to 0/90/180/270.
pub open spec fn spec_normalize_rotation(degrees: int) -> int {
    let wrapped = degrees % 360;
    (wrapped / 90) * 90
}

pub fn normalize_rotation(degrees: i64) -> (r: i64)
    ensures
        r == spec_normalize_rotation(degrees as int),
        r == 0 || r == 90 || r == 180 || r == 270,
{
    let wrapped = degrees % 360;
    let positive = if wrapped < 0 { wrapped + 360 } else { wrapped };
    (positive / 90) * 90
}


/// How many references `Document::dereference` follows before it gives up.
pub const DEREF_LIMIT: usize = 128;

/// Guards against a malformed file whose `/Parent` chain forms a cycle.
pub const MAX_TREE_DEPTH: usize = 64;

/// `Document::dereference`, having already followed `count` references and
/// last reached `last`: references are followed until something else is
/// reached; a missing object, or more than [`DEREF_LIMIT`] steps, fails.
pub open spec fn deref_from(
    objects: Map<ObjectId, PdfObject>,
    object: PdfObject,
    last: Option<ObjectId>,
    count: nat,
) -> Option<(Option<ObjectId>, PdfObject)>
    decreases DEREF_LIMIT - count,
{
    match object {
        PdfObject::Reference(id) => {
            if !objects.contains_key(id) || count + 1 > DEREF_LIMIT {
                None
            } else {
                deref_from(objects, objects[id], Some(id), count + 1)
            }
        },
        _ => Some((last, object)),
    }
}

/// The object `object` stands for: references followed, or the reference
/// itself where they lead nowhere.
pub open spec fn resolved(objects: Map<ObjectId, PdfObject>, object: PdfObject) -> PdfObject {
    match deref_from(objects, object, None, 0) {
        Some((_, target)) => target,
        None => object,
    }
}

/// `Document::get_object(id)`: the object stored under `id`, references
/// followed.
pub open spec fn object_of(objects: Map<ObjectId, PdfObject>, id: ObjectId) -> Option<PdfObject> {
    match stored(objects, id) {
        Some(object) => match deref_from(objects, object, None, 0) {
            Some((_, target)) => Some(target),
            None => None,
        },
        None => None,
    }
}

/// `Document::get_dictionary(id)`.
pub open spec fn dict_of(objects: Map<ObjectId, PdfObject>, id: ObjectId) -> Option<PdfDict> {
    match object_of(objects, id) {
        Some(PdfObject::Dictionary(dict)) => Some(dict),
        _ => None,
    }
}

/// `Document::get_object_mut(id)` followed by `as_dict_mut`: the id the
/// dictionary is stored under once references are followed, and the
/// dictionary.
pub open spec fn dict_target(objects: Map<ObjectId, PdfObject>, id: ObjectId) -> Option<
    (ObjectId, PdfDict),
> {
    match stored(objects, id) {
        Some(object) => match deref_from(objects, object, None, 0) {
            Some((last, PdfObject::Dictionary(dict))) => Some(
                (
                    match last {
                        Some(target) => target,
                        None => id,
                    },
                    dict,
                ),
            ),
            _ => None,
        },
        None => None,
    }
}

/// `Document::dereference`.
pub fn dereference(doc: &lopdf::Document, object: PdfObject) -> (r: Option<
    (Option<ObjectId>, PdfObject),
>)
    ensures
        r == deref_from(document_objects(*doc), object, None, 0),
        object is Reference ==> (r matches Some((_, PdfObject::Dictionary(dict))) ==> keys_distinct(dict@)),
        object is Reference || deep_distinct(object) ==> (r matches Some((_, found)) ==> deep_distinct(found)),
{
    let ghost objects = document_objects(*doc);
    let mut current = object;
    let mut last: Option<ObjectId> = None;
    let mut count: usize = 0;
    loop
        invariant
            count <= DEREF_LIMIT,
            objects == document_objects(*doc),
            deref_from(objects, object, None, 0) == deref_from(objects, current, last, count as nat),
            count == 0 ==> current == object,
            count > 0 ==> (current matches PdfObject::Dictionary(dict) ==> keys_distinct(dict@)),
            count > 0 || deep_distinct(object) ==> deep_distinct(current),
        decreases DEREF_LIMIT - count,
    {
        let id = match current {
            PdfObject::Reference(id) => id,
            _ => return Some((last, current)),
        };
        let next = match object_at(doc, id) {
            Some(next) => next,
            None => return None,
        };
        if count + 1 > DEREF_LIMIT {
            return None;
        }
        current = next;
        last = Some(id);
        count = count + 1;
    }
}

/// Follows a `/Reference` to the object it names.
///
/// `Document::dereference` returns both the resolving object id and a `Result`.
/// Every call site here wants only the object, and wants a dangling reference
/// to behave like the reference itself rather than abort the operation — a
/// slightly broken PDF should still open.
pub fn resolve(doc: &lopdf::Document, object: PdfObject) -> (r: PdfObject)
    ensures
        r == resolved(document_objects(*doc), object),
        object is Reference || deep_distinct(object) ==> deep_distinct(r),
{
    match object {
        PdfObject::Reference(id) => match dereference(doc, PdfObject::Reference(id)) {
            Some((_, target)) => target,
            None => PdfObject::Reference(id),
        },
        other => other,
    }
}

/// `Document::get_object`.
pub fn get_object(doc: &lopdf::Document, id: ObjectId) -> (r: Option<PdfObject>)
    ensures
        r == object_of(document_objects(*doc), id),
        r matches Some(object) ==> deep_distinct(object),
{
    match object_at(doc, id) {
        Some(object) => match dereference(doc, object) {
            Some((_, target)) => Some(target),
            None => None,
        },
        None => None,
    }
}

/// `Document::get_dictionary`.
pub fn get_dictionary(doc: &lopdf::Document, id: ObjectId) -> (r: Option<PdfDict>)
    ensures
        r == dict_of(document_objects(*doc), id),
        r matches Some(dict) ==> dict_deep(dict),
{
    match get_object(doc, id) {
        Some(PdfObject::Dictionary(dict)) => Some(dict),
        _ => None,
    }
}

/// `Document::get_object_mut(id)` then `as_dict_mut`: where the dictionary
/// lives, and a copy of it to edit and store back.
pub fn dict_for_update(doc: &lopdf::Document, id: ObjectId) -> (r: Option<(ObjectId, PdfDict)>)
    ensures
        r == dict_target(document_objects(*doc), id),
        r matches Some((_, dict)) ==> keys_distinct(dict@) && dict_deep(dict),
{
    match object_at(doc, id) {
        Some(object) => match dereference(doc, object) {
            Some((last, PdfObject::Dictionary(dict))) => {
                let target = match last {
                    Some(target) => target,
                    None => id,
                };
                Some((target, dict))
            },
            _ => None,
        },
        None => None,
    }
}

/// The error `lopdf` reports for `get_object_mut(id).and_then(as_dict_mut)`
/// where it fails: `Document::get_dictionary(id)` fails the same way, on the
/// same path.
#[verifier::external_body]
pub(crate) fn dictionary_error(doc: &lopdf::Document, id: ObjectId) -> (r: lopdf::Error)
    requires
        dict_target(document_objects(*doc), id) is None,
{
    doc.get_dictionary(id).err().unwrap_or(lopdf::Error::ObjectNotFound(id))
}

/// `get_dictionary(id)` and `get_object_mut(id)` then `as_dict_mut` find a
/// dictionary in the same cases, and the same dictionary.
pub proof fn lemma_dict_of_target(objects: Map<ObjectId, PdfObject>, id: ObjectId)
    ensures
        dict_of(objects, id) is Some <==> dict_target(objects, id) is Some,
        dict_target(objects, id) matches Some((_, dict)) ==> dict_of(objects, id) == Some(dict),
{
}

/// Replacing a stored dictionary by another keeps every lookup that found a
/// dictionary finding one, by the same path.
pub proof fn lemma_deref_keeps_dicts(
    objects: Map<ObjectId, PdfObject>,
    object: PdfObject,
    last: Option<ObjectId>,
    count: nat,
    target: ObjectId,
    replacement: PdfDict,
)
    requires
        objects.contains_key(target),
        objects[target] is Dictionary,
        deref_from(objects, object, last, count) matches Some((_, found)) && found is Dictionary,
    ensures
        deref_from(objects.insert(target, PdfObject::Dictionary(replacement)), object, last, count) matches Some(
            (_, found),
        ) && found is Dictionary,
    decreases DEREF_LIMIT - count,
{
    let updated = objects.insert(target, PdfObject::Dictionary(replacement));
    if let PdfObject::Reference(id) = object {
        assert(objects.contains_key(id) && count + 1 <= DEREF_LIMIT);
        assert(deref_from(objects, objects[id], Some(id), count + 1) == deref_from(objects, object, last, count));
        if id != target {
            assert(updated[id] == objects[id]);
            lemma_deref_keeps_dicts(objects, objects[id], Some(id), count + 1, target, replacement);
            assert(deref_from(updated, object, last, count) == deref_from(updated, updated[id], Some(id), count + 1));
        } else {
            assert(updated[id] == PdfObject::Dictionary(replacement));
            assert(deref_from(updated, object, last, count) == deref_from(updated, updated[id], Some(id), count + 1));
        }
    }
}

/// Replacing a stored dictionary by another keeps `get_dictionary` finding a
/// dictionary wherever it found one.
pub proof fn lemma_dicts_stay(
    objects: Map<ObjectId, PdfObject>,
    target: ObjectId,
    replacement: PdfDict,
    id: ObjectId,
)
    requires
        objects.contains_key(target),
        objects[target] is Dictionary,
        dict_of(objects, id) is Some,
    ensures
        dict_of(objects.insert(target, PdfObject::Dictionary(replacement)), id) is Some,
{
    let updated = objects.insert(target, PdfObject::Dictionary(replacement));
    if id == target {
        assert(updated[id] == PdfObject::Dictionary(replacement));
    } else {
        assert(updated[id] == objects[id]);
        lemma_deref_keeps_dicts(objects, objects[id], None, 0, target, replacement);
    }
}

/// A key's bytes, as a fresh `Vec`.
pub fn key(text: &str) -> (r: Vec<u8>)
    ensures
        r@ == text.spec_bytes(),
{
    copy_bytes(text.as_bytes())
}

/// `objects` with the dictionary at `target` replaced by one holding
/// `entries`.
pub open spec fn with_dict(
    before: Map<ObjectId, PdfObject>,
    after: Map<ObjectId, PdfObject>,
    target: ObjectId,
    entries: Seq<(Seq<u8>, PdfObject)>,
) -> bool {
    &&& after.dom() == before.dom().insert(target)
    &&& forall|id: ObjectId| id != target && #[trigger] before.contains_key(id) ==> after[id] == before[id]
    &&& after[target] matches PdfObject::Dictionary(dict) && dict@ == entries
}

pub open spec fn page_count_of(doc: lopdf::Document) -> nat {
    page_tree(document_objects(doc), document_trailer(doc)).len()
}

pub fn page_count(doc: &lopdf::Document) -> (r: usize)
    ensures
        r == page_count_of(*doc),
{
    page_ids(doc).len()
}

pub open spec fn page_at(doc: lopdf::Document, index: int) -> ObjectId {
    page_tree(document_objects(doc), document_trailer(doc))[index]
}

fn page_id_at(doc: &lopdf::Document, index: usize) -> (r: AppResult<ObjectId>)
    ensures
        match r {
            Ok(id) => index < page_count_of(*doc) && id == page_at(*doc, index as int),
            Err(AppError::PageOutOfRange(i)) => i == index && index >= page_count_of(*doc),
            Err(_) => false,
        },
{
    let ids = page_ids(doc);
    if index < ids.len() {
        Ok(ids[index])
    } else {
        Err(AppError::PageOutOfRange(index))
    }
}


/// Walks up `/Parent` links, at most `steps` dictionaries, for an attribute
/// the page may inherit.
pub open spec fn inherited_from(
    objects: Map<ObjectId, PdfObject>,
    current: ObjectId,
    key: Seq<u8>,
    steps: nat,
) -> Option<PdfObject>
    decreases steps,
{
    if steps == 0 {
        None
    } else {
        match dict_of(objects, current) {
            None => None,
            Some(dict) => match dict.lookup(key) {
                Some(value) => Some(value),
                None => match dict.lookup("Parent".spec_bytes()) {
                    Some(PdfObject::Reference(parent)) => inherited_from(
                        objects,
                        parent,
                        key,
                        (steps - 1) as nat,
                    ),
                    _ => None,
                },
            },
        }
    }
}

/// Walks up `/Parent` links to resolve an attribute the page may inherit.
pub fn inherited(doc: &lopdf::Document, page_id: ObjectId, key: &[u8]) -> (r: Option<PdfObject>)
    ensures
        r == inherited_from(document_objects(*doc), page_id, key@, MAX_TREE_DEPTH as nat),
        r matches Some(value) ==> deep_distinct(value),
{
    let ghost objects = document_objects(*doc);
    let mut current = page_id;
    let mut steps: usize = MAX_TREE_DEPTH;
    while steps > 0
        invariant
            objects == document_objects(*doc),
            inherited_from(objects, page_id, key@, MAX_TREE_DEPTH as nat) == inherited_from(
                objects,
                current,
                key@,
                steps as nat,
            ),
        decreases steps,
    {
        let dict = match get_dictionary(doc, current) {
            Some(dict) => dict,
            None => return None,
        };
        if dict.has(key) {
            return dict.into_value(key);
        }
        match dict.get("Parent".as_bytes()) {
            Some(PdfObject::Reference(parent)) => {
                current = *parent;
            },
            _ => return None,
        }
        steps = steps - 1;
    }
    None
}

/// The page's rotation as `rotation` reads it: the inherited `/Rotate`
/// integer, normalized, or 0.
pub open spec fn page_rotation(objects: Map<ObjectId, PdfObject>, page_id: ObjectId) -> i64 {
    match inherited_from(objects, page_id, "Rotate".spec_bytes(), MAX_TREE_DEPTH as nat) {
        Some(PdfObject::Integer(degrees)) => spec_normalize_rotation(degrees as int) as i64,
        _ => 0,
    }
}

pub fn rotation(doc: &lopdf::Document, page_id: ObjectId) -> (r: i64)
    ensures
        r == page_rotation(document_objects(*doc), page_id),
        r == 0 || r == 90 || r == 180 || r == 270,
{
    match inherited(doc, page_id, "Rotate".as_bytes()) {
        Some(PdfObject::Integer(degrees)) => normalize_rotation(degrees),
        _ => 0,
    }
}

/// The annotation `entry` names a widget: it resolves to a dictionary whose
/// `/Subtype` is the name `Widget`.
pub open spec fn is_widget(objects: Map<ObjectId, PdfObject>, entry: PdfObject) -> bool {
    match resolved(objects, entry) {
        PdfObject::Dictionary(annot) => match annot.lookup("Subtype".spec_bytes()) {
            Some(PdfObject::Name(name)) => name@ == "Widget".spec_bytes(),
            _ => false,
        },
        _ => false,
    }
}

/// Whether a page's `/Annots` array lists any widget annotation.
pub open spec fn has_widgets(objects: Map<ObjectId, PdfObject>, page_id: ObjectId) -> bool {
    match dict_of(objects, page_id) {
        Some(page) => match page.lookup("Annots".spec_bytes()) {
            Some(annots) => match resolved(objects, annots) {
                PdfObject::Array(items) => exists|i: int|
                    0 <= i < items@.len() && #[trigger] is_widget(objects, items@[i]),
                _ => false,
            },
            None => false,
        },
        None => false,
    }
}

/// The `/Subtype` of `annot` is the name `Widget`.
fn names_widget(annot: &PdfDict) -> (r: bool)
    ensures
        r == match annot.lookup("Subtype".spec_bytes()) {
            Some(PdfObject::Name(name)) => name@ == "Widget".spec_bytes(),
            _ => false,
        },
{
    match annot.get("Subtype".as_bytes()) {
        Some(PdfObject::Name(name)) => same_bytes(name.as_slice(), "Widget".as_bytes()),
        _ => false,
    }
}

fn is_widget_entry(doc: &lopdf::Document, entry: &PdfObject) -> (r: bool)
    ensures
        r == is_widget(document_objects(*doc), *entry),
{
    match entry {
        PdfObject::Reference(id) => match resolve(doc, PdfObject::Reference(*id)) {
            PdfObject::Dictionary(annot) => names_widget(&annot),
            _ => false,
        },
        PdfObject::Dictionary(annot) => names_widget(annot),
        _ => false,
    }
}

pub fn page_has_widgets(doc: &lopdf::Document, page_id: ObjectId) -> (r: bool)
    ensures
        r == has_widgets(document_objects(*doc), page_id),
{
    let ghost objects = document_objects(*doc);
    let page = match get_dictionary(doc, page_id) {
        Some(page) => page,
        None => return false,
    };
    let ghost page_view = page;
    let annots = match page.into_value("Annots".as_bytes()) {
        Some(annots) => annots,
        None => return false,
    };
    let ghost annots_view = annots;
    let items = match resolve(doc, annots) {
        PdfObject::Array(items) => items,
        _ => return false,
    };
    assert(dict_of(objects, page_id) == Some(page_view));
    assert(page_view.lookup("Annots".spec_bytes()) == Some(annots_view));
    assert(resolved(objects, annots_view) == PdfObject::Array(items));
    let mut index: usize = 0;
    while index < items.len()
        invariant
            objects == document_objects(*doc),
            has_widgets(objects, page_id) == exists|i: int|
                0 <= i < items@.len() && #[trigger] is_widget(objects, items@[i]),
            index <= items@.len(),
            forall|j: int| 0 <= j < index ==> !is_widget(objects, #[trigger] items@[j]),
        decreases items@.len() - index,
    {
        if is_widget_entry(doc, &items[index]) {
            assert(is_widget(objects, items@[index as int]));
            return true;
        }
        index = index + 1;
    }
    false
}


/// Following references to a dictionary still ends there, at the new value,
/// once that dictionary is replaced by another.
pub proof fn lemma_deref_after_replace(
    objects: Map<ObjectId, PdfObject>,
    object: PdfObject,
    last: Option<ObjectId>,
    count: nat,
    target: ObjectId,
    dict: PdfDict,
    replacement: PdfDict,
)
    requires
        object is Reference,
        deref_from(objects, object, last, count) == Some(
            (Some(target), PdfObject::Dictionary(dict)),
        ),
        objects.contains_key(target),
        objects[target] == PdfObject::Dictionary(dict),
    ensures
        deref_from(objects.insert(target, PdfObject::Dictionary(replacement)), object, last, count)
            == Some((Some(target), PdfObject::Dictionary(replacement))),
    decreases DEREF_LIMIT - count,
{
    let updated = objects.insert(target, PdfObject::Dictionary(replacement));
    let id = object->Reference_0;
    assert(objects.contains_key(id) && count + 1 <= DEREF_LIMIT);
    assert(deref_from(objects, objects[id], Some(id), count + 1) == Some(
        (Some(target), PdfObject::Dictionary(dict)),
    ));
    if id != target {
        assert(updated[id] == objects[id]);
        if objects[id] is Reference {
            lemma_deref_after_replace(objects, objects[id], Some(id), count + 1, target, dict, replacement);
            assert(deref_from(updated, updated[id], Some(id), count + 1) == Some(
                (Some(target), PdfObject::Dictionary(replacement)),
            ));
        } else {
            assert(deref_from(objects, objects[id], Some(id), count + 1) == Some(
                (Some(id), objects[id]),
            ));
        }
    } else {
        assert(updated[id] == PdfObject::Dictionary(replacement));
        assert(deref_from(updated, updated[id], Some(id), count + 1) == Some(
            (Some(target), PdfObject::Dictionary(replacement)),
        ));
    }
    assert(updated.contains_key(id));
}

/// After the dictionary `dict_target(objects, id)` finds is replaced, the same
/// lookup finds the replacement.
pub proof fn lemma_dict_after_replace(
    objects: Map<ObjectId, PdfObject>,
    id: ObjectId,
    target: ObjectId,
    dict: PdfDict,
    replacement: PdfDict,
)
    requires
        dict_target(objects, id) == Some((target, dict)),
    ensures
        dict_of(objects.insert(target, PdfObject::Dictionary(replacement)), id) == Some(replacement),
{
    let updated = objects.insert(target, PdfObject::Dictionary(replacement));
    let object = objects[id];
    if object is Reference {
        lemma_deref_lands(objects, object, None, 0);
        lemma_deref_after_replace(objects, object, None, 0, target, dict, replacement);
        assert(updated.contains_key(id));
        if id == target {
        } else {
            assert(updated[id] == object);
        }
    }
}

/// Where following references ends with an id, that id holds what was found.
pub proof fn lemma_deref_lands(
    objects: Map<ObjectId, PdfObject>,
    object: PdfObject,
    last: Option<ObjectId>,
    count: nat,
)
    ensures
        deref_from(objects, object, last, count) matches Some((Some(at), found)) ==> (
        objects.contains_key(at) && objects[at] == found && !(found is Reference)) || (last == Some(
            at,
        ) && object == found && !(found is Reference)),
        deref_from(objects, object, last, count) matches Some((reached, _)) ==> reached is Some || (
        last is None && !(object is Reference)),
    decreases DEREF_LIMIT - count,
{
    if let PdfObject::Reference(id) = object {
        if objects.contains_key(id) && count + 1 <= DEREF_LIMIT {
            lemma_deref_lands(objects, objects[id], Some(id), count + 1);
        }
    }
}

/// Rotates one page by `delta` degrees (a multiple of 90), clockwise.
///
/// The new rotation is written on the page dictionary itself, replacing any
/// rotation the page inherited.
pub fn rotate_page(doc: &mut lopdf::Document, index: usize, delta: i64) -> (r: AppResult<()>)
    requires
        delta % 90 == 0 && index < page_count_of(*old(doc)) ==> page_rotation(
            document_objects(*old(doc)),
            page_at(*old(doc), index as int),
        ) + delta <= i64::MAX,
    ensures
        delta % 90 != 0 ==> *final(doc) == *old(doc) && invalid_input(
            r,
            "Rotation must be a multiple of 90 degrees."@,
        ),
        delta % 90 == 0 && index >= page_count_of(*old(doc)) ==> *final(doc) == *old(doc) && r
            == Err::<(), AppError>(AppError::PageOutOfRange(index)),
        delta % 90 == 0 && index < page_count_of(*old(doc)) ==> {
            let objects = document_objects(*old(doc));
            let page = page_at(*old(doc), index as int);
            match dict_target(objects, page) {
                None => *final(doc) == *old(doc) && pdf_error(r),
                Some((target, dict)) => {
                    &&& r is Ok
                    &&& with_dict(
                        objects,
                        document_objects(*final(doc)),
                        target,
                        set_entry(
                            dict@,
                            "Rotate".spec_bytes(),
                            PdfObject::Integer(
                                spec_normalize_rotation(page_rotation(objects, page) + delta) as i64,
                            ),
                        ),
                    )
                    &&& document_trailer(*final(doc)) == document_trailer(*old(doc))
                    &&& document_max_id(*final(doc)) == document_max_id(*old(doc))
                    &&& page_rotation(document_objects(*final(doc)), page) == spec_normalize_rotation(
                        page_rotation(objects, page) + delta,
                    )
                },
            }
        },
{
    if delta % 90 != 0 {
        return Err(AppError::InvalidInput(String::from_str("Rotation must be a multiple of 90 degrees.")));
    }
    let page_id = page_id_at(doc, index)?;
    let next = normalize_rotation(rotation(doc, page_id) + delta);
    let (target, mut dict) = match dict_for_update(doc, page_id) {
        Some(found) => found,
        None => return Err(AppError::Pdf(dictionary_error(doc, page_id))),
    };
    let ghost before = document_objects(*doc);
    let ghost found = dict;
    dict.set(key("Rotate"), PdfObject::Integer(next));
    proof {
        lemma_dict_after_replace(before, page_id, target, found, dict);
        lemma_set_entry_reads_back(found@, "Rotate".spec_bytes(), PdfObject::Integer(next));
    }
    put_object(doc, target, PdfObject::Dictionary(dict));
    Ok(())
}


/// The first index, in the order given, that names no page.
pub open spec fn first_out_of_range(indices: Seq<usize>, total: nat) -> Option<usize>
    decreases indices.len(),
{
    if indices.len() == 0 {
        None
    } else if indices[0] >= total {
        Some(indices[0])
    } else {
        first_out_of_range(indices.subrange(1, indices.len() as int), total)
    }
}

/// The 1-based numbers of the pages below `n` that `indices` names, each once,
/// in ascending order.
pub open spec fn named_page_numbers(indices: Seq<usize>, n: nat) -> Seq<u32>
    decreases n,
{
    if n == 0 {
        Seq::empty()
    } else {
        let below = named_page_numbers(indices, (n - 1) as nat);
        if indices.contains((n - 1) as usize) {
            below.push(n as u32)
        } else {
            below
        }
    }
}

fn first_bad_index(indices: &[usize], total: usize) -> (r: Option<usize>)
    ensures
        r == first_out_of_range(indices@, total as nat),
{
    let mut k: usize = 0;
    assert(indices@.subrange(0, indices@.len() as int) =~= indices@);
    while k < indices.len()
        invariant
            k <= indices@.len(),
            first_out_of_range(indices@, total as nat) == first_out_of_range(
                indices@.subrange(k as int, indices@.len() as int),
                total as nat,
            ),
        decreases indices@.len() - k,
    {
        let ghost rest = indices@.subrange(k as int, indices@.len() as int);
        assert(rest.subrange(1, rest.len() as int) =~= indices@.subrange(k + 1, indices@.len() as int));
        if indices[k] >= total {
            return Some(indices[k]);
        }
        k = k + 1;
    }
    None
}

/// Marks, for each position below `total`, whether `indices` names it.
fn named_positions(indices: &[usize], total: usize) -> (r: Vec<bool>)
    requires
        first_out_of_range(indices@, total as nat) is None,
    ensures
        r@.len() == total,
        forall|i: int| 0 <= i < total ==> r@[i] == indices@.contains(i as usize),
{
    let mut flags: Vec<bool> = Vec::new();
    let mut i: usize = 0;
    while i < total
        invariant
            i <= total,
            flags@.len() == i,
            forall|j: int| 0 <= j < i ==> !flags@[j],
        decreases total - i,
    {
        flags.push(false);
        i = i + 1;
    }
    proof {
        lemma_all_in_range(indices@, total as nat);
    }
    let mut k: usize = 0;
    while k < indices.len()
        invariant
            k <= indices@.len(),
            flags@.len() == total,
            forall|j: int| 0 <= j < indices@.len() ==> indices@[j] < total,
            forall|i: int|
                0 <= i < total ==> flags@[i] == indices@.subrange(0, k as int).contains(i as usize),
        decreases indices@.len() - k,
    {
        let index = indices[k];
        flags.set(index, true);
        k = k + 1;
        assert forall|i: int| 0 <= i < total implies flags@[i] == indices@.subrange(
            0,
            k as int,
        ).contains(i as usize) by {
            let before = indices@.subrange(0, k - 1);
            let after = indices@.subrange(0, k as int);
            assert(after =~= before.push(index));
            if after.contains(i as usize) && i != index {
                let j = choose|j: int| 0 <= j < after.len() && after[j] == i as usize;
                assert(j < before.len());
                assert(before[j] == i as usize);
            }
            if i == index {
                assert(after[k - 1] == index);
            }
        }
    }
    assert(indices@.subrange(0, indices@.len() as int) =~= indices@);
    flags
}

proof fn lemma_all_in_range(indices: Seq<usize>, total: nat)
    requires
        first_out_of_range(indices, total) is None,
    ensures
        forall|j: int| 0 <= j < indices.len() ==> indices[j] < total,
    decreases indices.len(),
{
    if indices.len() > 0 {
        let rest = indices.subrange(1, indices.len() as int);
        lemma_all_in_range(rest, total);
        assert forall|j: int| 0 <= j < indices.len() implies indices[j] < total by {
            if j > 0 {
                assert(indices[j] == rest[j - 1]);
            }
        }
    }
}

pub fn delete_pages(doc: &mut lopdf::Document, indices: &[usize]) -> (r: AppResult<()>)
    requires
        // `lopdf`'s deletion loops forever on a `/Parent` cycle and overflows
        // a `/Count` at `i64::MIN`; such a tree is left out.
        ({
            let total = page_count_of(*old(doc));
            let numbers = named_page_numbers(indices@, total);
            first_out_of_range(indices@, total) is None && numbers.len() < total ==> deletion_safe(
                document_objects(*old(doc)),
                document_trailer(*old(doc)),
                numbers,
            )
        }),
    ensures
        ({
            let total = page_count_of(*old(doc));
            let numbers = named_page_numbers(indices@, total);
            match first_out_of_range(indices@, total) {
                Some(bad) => *final(doc) == *old(doc) && r == Err::<(), AppError>(
                    AppError::PageOutOfRange(bad),
                ),
                None => if numbers.len() >= total {
                    *final(doc) == *old(doc) && invalid_input(
                        r,
                        "A document must keep at least one page."@,
                    )
                } else {
                    &&& r is Ok
                    &&& (document_objects(*final(doc)), document_trailer(*final(doc)))
                        == pages_removed(
                        document_objects(*old(doc)),
                        document_trailer(*old(doc)),
                        numbers,
                    )
                    &&& document_max_id(*final(doc)) == document_max_id(*old(doc))
                },
            }
        }),
{
    let total = page_count(doc);
    if let Some(bad) = first_bad_index(indices, total) {
        return Err(AppError::PageOutOfRange(bad));
    }
    let flags = named_positions(indices, total);
    let mut numbers: Vec<u32> = Vec::new();
    let mut i: usize = 0;
    while i < total
        invariant
            i <= total,
            flags@.len() == total,
            forall|j: int| 0 <= j < total ==> flags@[j] == indices@.contains(j as usize),
            numbers@ == named_page_numbers(indices@, i as nat),
            numbers@.len() <= i,
        decreases total - i,
    {
        if flags[i] {
            numbers.push((i + 1) as u32);
        }
        i = i + 1;
    }
    if numbers.len() >= total {
        return Err(AppError::InvalidInput(String::from_str("A document must keep at least one page.")));
    }
    lopdf_delete_pages(doc, numbers.as_slice());
    Ok(())
}


/// The error `lopdf`'s `Object::as_dict` reports for an object that is not a
/// dictionary.
#[verifier::external_body]
pub(crate) fn not_a_dictionary(object: PdfObject) -> (r: lopdf::Error)
    requires
        !(object is Dictionary),
{
    object_to_lopdf(object).as_dict().err().unwrap_or(lopdf::Error::ObjectNotFound((0, 0)))
}

/// The catalog `/Root` names in the trailer.
pub open spec fn catalog_ref(trailer: PdfDict) -> Option<ObjectId> {
    match trailer.lookup("Root".spec_bytes()) {
        Some(PdfObject::Reference(id)) => Some(id),
        _ => None,
    }
}

pub fn catalog_id(doc: &lopdf::Document) -> (r: AppResult<ObjectId>)
    ensures
        match catalog_ref(document_trailer(*doc)) {
            Some(id) => r == Ok::<ObjectId, AppError>(id),
            None => invalid_input(r, "Document has no /Root catalog."@),
        },
{
    match trailer_of(doc).into_value("Root".as_bytes()) {
        Some(PdfObject::Reference(id)) => Ok(id),
        _ => Err(AppError::InvalidInput(String::from_str("Document has no /Root catalog."))),
    }
}

/// What `root_pages_id` finds: the trailer's `/Root`, resolved, must be a
/// dictionary whose `/Pages` is a reference.
pub open spec fn pages_root_result(objects: Map<ObjectId, PdfObject>, trailer: PdfDict, r: AppResult<ObjectId>) -> bool {
    match trailer.lookup("Root".spec_bytes()) {
        None => invalid_input(r, "Document has no /Root catalog."@),
        Some(catalog) => match resolved(objects, catalog) {
            PdfObject::Dictionary(dict) => match dict.lookup("Pages".spec_bytes()) {
                Some(PdfObject::Reference(id)) => r == Ok::<ObjectId, AppError>(id),
                _ => invalid_input(r, "Catalog has no /Pages tree."@),
            },
            _ => pdf_error(r),
        },
    }
}

pub fn root_pages_id(doc: &lopdf::Document) -> (r: AppResult<ObjectId>)
    ensures
        pages_root_result(document_objects(*doc), document_trailer(*doc), r),
{
    let catalog = match trailer_of(doc).into_value("Root".as_bytes()) {
        Some(catalog) => catalog,
        None => return Err(AppError::InvalidInput(String::from_str("Document has no /Root catalog."))),
    };
    let dict = match resolve(doc, catalog) {
        PdfObject::Dictionary(dict) => dict,
        other => return Err(AppError::Pdf(not_a_dictionary(other))),
    };
    match dict.into_value("Pages".as_bytes()) {
        Some(PdfObject::Reference(id)) => Ok(id),
        _ => Err(AppError::InvalidInput(String::from_str("Catalog has no /Pages tree."))),
    }
}

/// Attributes a page may inherit from an ancestor node in the page tree, in
/// the order they are pushed down.
pub open spec fn inheritable_key(i: int) -> Seq<u8> {
    if i == 0 {
        "Resources".spec_bytes()
    } else if i == 1 {
        "MediaBox".spec_bytes()
    } else if i == 2 {
        "CropBox".spec_bytes()
    } else {
        "Rotate".spec_bytes()
    }
}

fn inheritable(i: usize) -> (r: &'static str)
    requires
        i < 4,
    ensures
        r.spec_bytes() == inheritable_key(i as int),
{
    if i == 0 {
        "Resources"
    } else if i == 1 {
        "MediaBox"
    } else if i == 2 {
        "CropBox"
    } else {
        "Rotate"
    }
}

/// Whether the page's own dictionary holds `key`.
pub open spec fn holds_own(objects: Map<ObjectId, PdfObject>, page_id: ObjectId, key: Seq<u8>) -> bool {
    match dict_of(objects, page_id) {
        Some(dict) => dict.lookup(key) is Some,
        None => false,
    }
}

/// Of the first `n` inheritable attributes, in order, those the page lacks
/// and an ancestor supplies, with the value found.
pub open spec fn missing_upto(objects: Map<ObjectId, PdfObject>, page_id: ObjectId, n: nat) -> Seq<
    (Seq<u8>, PdfObject),
>
    decreases n,
{
    if n == 0 {
        Seq::empty()
    } else {
        let key = inheritable_key(n - 1);
        let earlier = missing_upto(objects, page_id, (n - 1) as nat);
        if !holds_own(objects, page_id, key) && inherited_from(objects, page_id, key, MAX_TREE_DEPTH as nat) is Some {
            earlier.push((key, inherited_from(objects, page_id, key, MAX_TREE_DEPTH as nat)->0))
        } else {
            earlier
        }
    }
}

/// The four inheritable keys are different from one another.
proof fn lemma_inheritable_keys_differ(a: int, b: int)
    requires
        0 <= a < 4,
        0 <= b < 4,
        a != b,
    ensures
        inheritable_key(a) != inheritable_key(b),
{
    reveal_strlit("Resources");
    reveal_strlit("MediaBox");
    reveal_strlit("CropBox");
    reveal_strlit("Rotate");
    lemma_ascii_bytes("Resources");
    lemma_ascii_bytes("MediaBox");
    lemma_ascii_bytes("CropBox");
    lemma_ascii_bytes("Rotate");
}

/// One of the four inheritable keys.
pub open spec fn is_inheritable(key: Seq<u8>) -> bool {
    key == inheritable_key(0) || key == inheritable_key(1) || key == inheritable_key(2) || key == inheritable_key(3)
}

/// `/Pages` is none of the inheritable keys.
proof fn lemma_pages_not_inheritable()
    ensures
        !is_inheritable("Pages".spec_bytes()),
{
    reveal_strlit("Resources");
    reveal_strlit("MediaBox");
    reveal_strlit("CropBox");
    reveal_strlit("Rotate");
    reveal_strlit("Pages");
    lemma_ascii_bytes("Resources");
    lemma_ascii_bytes("MediaBox");
    lemma_ascii_bytes("CropBox");
    lemma_ascii_bytes("Rotate");
    lemma_ascii_bytes("Pages");
}

/// The attributes `missing_upto` lists carry different keys, none of them
/// one of the inheritable keys from `n` on.
proof fn lemma_missing_keys(objects: Map<ObjectId, PdfObject>, page_id: ObjectId, n: nat)
    requires
        n <= 4,
    ensures
        keys_distinct(missing_upto(objects, page_id, n)),
        forall|i: int, q: int|
            0 <= i < missing_upto(objects, page_id, n).len() && n <= q < 4 ==> #[trigger] missing_upto(
                objects,
                page_id,
                n,
            )[i].0 != #[trigger] inheritable_key(q),
        forall|i: int|
            0 <= i < missing_upto(objects, page_id, n).len() ==> is_inheritable(
                #[trigger] missing_upto(objects, page_id, n)[i].0,
            ),
    decreases n,
{
    if n > 0 {
        lemma_missing_keys(objects, page_id, (n - 1) as nat);
        let earlier = missing_upto(objects, page_id, (n - 1) as nat);
        let all = missing_upto(objects, page_id, n);
        assert forall|q: int| n <= q < 4 implies inheritable_key(n - 1) != #[trigger] inheritable_key(q) by {
            lemma_inheritable_keys_differ(n - 1, q);
        }
        if all.len() > earlier.len() {
            assert forall|i: int| 0 <= i < earlier.len() implies all[i] == earlier[i] by {}
            assert(all[earlier.len() as int].0 == inheritable_key(n - 1));
            assert forall|i: int, j: int| 0 <= i < j < all.len() implies #[trigger] all[i].0 != #[trigger] all[j].0 by {
                if j == earlier.len() {
                    assert(earlier[i].0 != inheritable_key(n - 1));
                } else {
                    assert(earlier[i].0 != earlier[j].0);
                }
            }
        }
    }
}

/// Pages whose dictionaries are the same lack, and inherit, the same
/// attributes.
proof fn lemma_missing_same_dict(objects: Map<ObjectId, PdfObject>, a: ObjectId, b: ObjectId, n: nat)
    requires
        dict_of(objects, a) == dict_of(objects, b),
    ensures
        missing_upto(objects, a, n) == missing_upto(objects, b, n),
    decreases n,
{
    if n > 0 {
        lemma_missing_same_dict(objects, a, b, (n - 1) as nat);
        let key = inheritable_key(n - 1);
        assert(inherited_from(objects, a, key, MAX_TREE_DEPTH as nat) == inherited_from(
            objects,
            b,
            key,
            MAX_TREE_DEPTH as nat,
        ));
    }
}

/// Replacing a dictionary by another leaves the shape of every walk along
/// references as it was: where it failed, where it ended, and whether it
/// ended at a dictionary.
proof fn lemma_deref_shape_after_replace(
    objects: Map<ObjectId, PdfObject>,
    object: PdfObject,
    last: Option<ObjectId>,
    count: nat,
    target: ObjectId,
    replacement: PdfDict,
)
    requires
        objects.contains_key(target),
        objects[target] is Dictionary,
    ensures
        ({
            let updated = objects.insert(target, PdfObject::Dictionary(replacement));
            match deref_from(objects, object, last, count) {
                None => deref_from(updated, object, last, count) is None,
                Some((reached, found)) => deref_from(updated, object, last, count) matches Some(
                    (reached_after, found_after),
                ) && reached_after == reached && (found_after is Dictionary <==> found is Dictionary),
            }
        }),
    decreases DEREF_LIMIT - count,
{
    let updated = objects.insert(target, PdfObject::Dictionary(replacement));
    if let PdfObject::Reference(id) = object {
        if objects.contains_key(id) && count + 1 <= DEREF_LIMIT {
            assert(updated.contains_key(id));
            assert(deref_from(objects, object, last, count) == deref_from(objects, objects[id], Some(id), count + 1));
            assert(deref_from(updated, object, last, count) == deref_from(updated, updated[id], Some(id), count + 1));
            if id == target {
                assert(updated[id] == PdfObject::Dictionary(replacement));
                assert(objects[id] is Dictionary);
                assert(deref_from(objects, objects[id], Some(id), count + 1) == Some((Some(id), objects[id])));
                assert(deref_from(updated, updated[id], Some(id), count + 1) == Some((Some(id), updated[id])));
            } else {
                assert(updated[id] == objects[id]);
                lemma_deref_shape_after_replace(objects, objects[id], Some(id), count + 1, target, replacement);
            }
        } else {
            assert(updated.contains_key(id) == objects.contains_key(id));
        }
    }
}

/// Replacing a dictionary by another leaves every lookup that found no
/// dictionary finding none.
proof fn lemma_no_dict_after_replace(
    objects: Map<ObjectId, PdfObject>,
    id: ObjectId,
    target: ObjectId,
    replacement: PdfDict,
)
    requires
        objects.contains_key(target),
        objects[target] is Dictionary,
        dict_target(objects, id) is None,
    ensures
        dict_target(objects.insert(target, PdfObject::Dictionary(replacement)), id) is None,
{
    let updated = objects.insert(target, PdfObject::Dictionary(replacement));
    assert(updated.contains_key(id) == objects.contains_key(id));
    if objects.contains_key(id) {
        if id == target {
            assert(updated[id] == PdfObject::Dictionary(replacement));
            assert(objects[id] is Dictionary);
        } else {
            assert(updated[id] == objects[id]);
            lemma_deref_shape_after_replace(objects, objects[id], None, 0, target, replacement);
        }
    }
}

/// `dict` holds each of `entries` under its key.
pub open spec fn has_entries(dict: PdfDict, entries: Seq<(Seq<u8>, PdfObject)>) -> bool {
    forall|i: int| 0 <= i < entries.len() ==> dict.lookup(#[trigger] entries[i].0) == Some(entries[i].1)
}

/// Whether one of `entries` has `key`.
pub open spec fn names_key(entries: Seq<(Seq<u8>, PdfObject)>, key: Seq<u8>) -> bool {
    exists|i: int| 0 <= i < entries.len() && #[trigger] entries[i].0 == key
}

/// The inheritable attributes `page_id` lacks and an ancestor supplies.
fn missing_attributes(doc: &lopdf::Document, page_id: ObjectId) -> (r: Vec<(Vec<u8>, PdfObject)>)
    ensures
        crate::pdf::object::keyed(r@) == missing_upto(document_objects(*doc), page_id, 4),
        forall|i: int| 0 <= i < r@.len() ==> #[trigger] deep_distinct(r@[i].1),
{
    let mut attributes: Vec<(Vec<u8>, PdfObject)> = Vec::new();
    let mut i: usize = 0;
    assert(crate::pdf::object::keyed(attributes@) =~= missing_upto(document_objects(*doc), page_id, 0));
    while i < 4
        invariant
            i <= 4,
            crate::pdf::object::keyed(attributes@) == missing_upto(document_objects(*doc), page_id, i as nat),
            forall|j: int| 0 <= j < attributes@.len() ==> #[trigger] deep_distinct(attributes@[j].1),
        decreases 4 - i,
    {
        let ghost before = attributes@;
        let name = inheritable(i);
        let already_present = match get_dictionary(doc, page_id) {
            Some(dict) => dict.has(name.as_bytes()),
            None => false,
        };
        if !already_present {
            if let Some(value) = inherited(doc, page_id, name.as_bytes()) {
                let entry = (key(name), value);
                let ghost seen = (entry.0@, entry.1);
                attributes.push(entry);
                assert(crate::pdf::object::keyed(attributes@) =~= crate::pdf::object::keyed(before).push(seen));
            }
        }
        i = i + 1;
    }
    attributes
}

/// After attributes were pushed down onto `page_id`: its dictionary, found
/// where it was, holds each attribute it lacked and inherited, and every other
/// key as before.
pub open spec fn pushed_down(
    before: Map<ObjectId, PdfObject>,
    after: Map<ObjectId, PdfObject>,
    page_id: ObjectId,
) -> bool {
    let missing = missing_upto(before, page_id, 4);
    &&& dict_target(after, page_id) is Some
    &&& found_at(dict_target(after, page_id)) == found_at(dict_target(before, page_id))
    &&& has_entries(found_dict(dict_target(after, page_id)), missing)
    &&& forall|key: Seq<u8>| !names_key(missing, key) ==> #[trigger] found_dict(dict_target(after, page_id)).lookup(key)
        == found_dict(dict_target(before, page_id)).lookup(key)
}

/// Whether `id` is where one of the first `n` pages keeps its dictionary.
pub open spec fn written_upto(objects: Map<ObjectId, PdfObject>, page_ids: Seq<ObjectId>, n: int, id: ObjectId) -> bool {
    exists|j: int| 0 <= j < n && found_at(#[trigger] dict_target(objects, page_ids[j])) == id
}

/// Two pages whose dictionaries are found at the same place have the same
/// dictionary, and lack and inherit the same attributes.
proof fn lemma_same_place(objects: Map<ObjectId, PdfObject>, a: ObjectId, b: ObjectId)
    requires
        dict_target(objects, a) is Some,
        dict_target(objects, b) is Some,
        found_at(dict_target(objects, a)) == found_at(dict_target(objects, b)),
    ensures
        found_dict(dict_target(objects, a)) == found_dict(dict_target(objects, b)),
        missing_upto(objects, a, 4) == missing_upto(objects, b, 4),
{
    lemma_target_stored(objects, a);
    lemma_target_stored(objects, b);
    lemma_dict_of_target(objects, a);
    lemma_dict_of_target(objects, b);
    lemma_missing_same_dict(objects, a, b, 4);
}

/// Copies inheritable attributes from ancestors onto each page dictionary.
///
/// Every attribute is resolved against the tree as it stands before any page
/// is written, then written.
fn push_down_inherited(doc: &mut lopdf::Document, page_ids: &[ObjectId]) -> (r: AppResult<()>)
    ensures
        r is Ok <==> forall|k: int|
            0 <= k < page_ids@.len() ==> #[trigger] dict_target(document_objects(*old(doc)), page_ids@[k]) is Some,
        r is Err ==> pdf_error(r),
        r is Ok ==> forall|k: int|
            0 <= k < page_ids@.len() ==> pushed_down(
                document_objects(*old(doc)),
                document_objects(*final(doc)),
                #[trigger] page_ids@[k],
            ),
        r is Ok ==> chains_kept(document_objects(*old(doc)), document_objects(*final(doc))),
        r is Ok ==> forall|root: ObjectId|
            pages_root_result(document_objects(*old(doc)), document_trailer(*old(doc)), Ok::<ObjectId, AppError>(root))
                ==> #[trigger] pages_root_result(
                document_objects(*final(doc)),
                document_trailer(*old(doc)),
                Ok::<ObjectId, AppError>(root),
            ),
        r is Ok ==> forall|id: ObjectId|
            #[trigger] document_objects(*final(doc)).contains_key(id) && !written_upto(
                document_objects(*old(doc)),
                page_ids@,
                page_ids@.len() as int,
                id,
            ) ==> document_objects(*final(doc))[id] == document_objects(*old(doc))[id],
        document_objects(*final(doc)).dom() == document_objects(*old(doc)).dom(),
        document_trailer(*final(doc)) == document_trailer(*old(doc)),
        document_max_id(*final(doc)) == document_max_id(*old(doc)),
{
    let ghost objects = document_objects(*doc);
    let ghost ids = page_ids@;
    let mut resolved_attributes: Vec<Vec<(Vec<u8>, PdfObject)>> = Vec::new();
    let mut k: usize = 0;
    while k < page_ids.len()
        invariant
            k <= ids.len(),
            ids == page_ids@,
            objects == document_objects(*doc),
            resolved_attributes@.len() == k,
            forall|j: int|
                0 <= j < k ==> crate::pdf::object::keyed(#[trigger] resolved_attributes@[j]@) == missing_upto(
                    objects,
                    ids[j],
                    4,
                ),
            forall|j: int, t: int|
                0 <= j < k && 0 <= t < resolved_attributes@[j]@.len() ==> #[trigger] deep_distinct(
                    resolved_attributes@[j]@[t].1,
                ),
        decreases ids.len() - k,
    {
        resolved_attributes.push(missing_attributes(doc, page_ids[k]));
        k = k + 1;
    }
    let ghost all = resolved_attributes@;
    let mut pending = resolved_attributes;
    let mut k: usize = 0;
    assert(pending@.subrange(0, all.len() as int) =~= all);
    while k < page_ids.len()
        invariant
            k <= ids.len(),
            ids == page_ids@,
            all.len() == ids.len(),
            pending@ == all.subrange(k as int, all.len() as int),
            forall|j: int|
                0 <= j < all.len() ==> crate::pdf::object::keyed(#[trigger] all[j]@) == missing_upto(
                    objects,
                    ids[j],
                    4,
                ),
            forall|j: int, t: int| 0 <= j < all.len() && 0 <= t < all[j]@.len() ==> #[trigger] deep_distinct(all[j]@[t].1),
            objects == document_objects(*old(doc)),
            document_objects(*doc).dom() == objects.dom(),
            document_trailer(*doc) == document_trailer(*old(doc)),
            document_max_id(*doc) == document_max_id(*old(doc)),
            chains_kept(objects, document_objects(*doc)),
            forall|root: ObjectId|
                pages_root_result(objects, document_trailer(*old(doc)), Ok::<ObjectId, AppError>(root))
                    ==> #[trigger] pages_root_result(
                    document_objects(*doc),
                    document_trailer(*old(doc)),
                    Ok::<ObjectId, AppError>(root),
                ),
            forall|id: ObjectId|
                dict_target(objects, id) is None ==> #[trigger] dict_target(document_objects(*doc), id) is None,
            forall|j: int| 0 <= j < k ==> #[trigger] dict_target(objects, ids[j]) is Some,
            forall|j: int| 0 <= j < k ==> pushed_down(objects, document_objects(*doc), #[trigger] ids[j]),
            forall|id: ObjectId|
                #[trigger] document_objects(*doc).contains_key(id) && !written_upto(objects, ids, k as int, id)
                    ==> document_objects(*doc)[id] == objects[id],
        decreases ids.len() - k,
    {
        let ghost cur = document_objects(*doc);
        let attributes = pending.remove(0);
        assert(pending@ =~= all.subrange(k + 1, all.len() as int));
        let page_id = page_ids[k];
        let ghost m = crate::pdf::object::keyed(attributes@);
        assert(m == missing_upto(objects, page_id, 4));
        let (target, mut dict) = match dict_for_update(doc, page_id) {
            Some(found) => found,
            None => {
                assert(dict_target(objects, page_ids@[k as int]) is None);
                return Err(AppError::Pdf(dictionary_error(doc, page_id)));
            },
        };
        let ghost start = dict@;
        proof {
            lemma_target_stored(cur, page_id);
            lemma_target_stored(objects, page_id);
            lemma_missing_keys(objects, page_id, 4);
            assert(dict_target(objects, ids[k as int]) is Some);
        }
        let mut rest = attributes;
        let ghost mut i: int = 0;
        assert(crate::pdf::object::keyed(rest@) =~= m.subrange(0, m.len() as int));
        while rest.len() > 0
            invariant
                0 <= i <= m.len(),
                crate::pdf::object::keyed(rest@) == m.subrange(i, m.len() as int),
                keys_distinct(m),
                keys_distinct(dict@),
                dict_deep(dict),
                forall|t: int| 0 <= t < rest@.len() ==> #[trigger] deep_distinct(rest@[t].1),
                forall|t: int| 0 <= t < i ==> dict.lookup(#[trigger] m[t].0) == Some(m[t].1),
                forall|key: Seq<u8>|
                    !names_key(m.subrange(0, i), key) ==> #[trigger] dict.lookup(key) == crate::pdf::object::entry_value(
                        start,
                        key,
                    ),
            decreases rest@.len(),
        {
            let ghost before = dict@;
            let ghost before_dict = dict;
            let ghost before_rest = rest@;
            let (name, value) = rest.remove(0);
            proof {
                assert(crate::pdf::object::keyed(before_rest)[0] == m.subrange(i, m.len() as int)[0]);
                assert(crate::pdf::object::keyed(before_rest)[0] == (before_rest[0].0@, before_rest[0].1));
                assert(before_rest.len() > 0);
                assert(crate::pdf::object::keyed(before_rest).len() == before_rest.len());
                assert(m.subrange(i, m.len() as int).len() > 0);
                assert(i < m.len());
                assert(m.subrange(i, m.len() as int)[0] == m[i]);
                assert(name@ == before_rest[0].0@);
                assert(value == before_rest[0].1);
                assert(name@ == m[i].0 && value == m[i].1);
                assert forall|t: int| 0 <= t < rest@.len() implies #[trigger] crate::pdf::object::keyed(rest@)[t]
                    == crate::pdf::object::keyed(before_rest)[t + 1] by {
                    assert(rest@[t] == before_rest[t + 1]);
                    assert(crate::pdf::object::keyed(before_rest)[t + 1] == (before_rest[t + 1].0@, before_rest[t + 1].1));
                }
                assert(crate::pdf::object::keyed(rest@) =~= m.subrange(i + 1, m.len() as int));
                crate::pdf::object::lemma_set_keeps_distinct(before, name@, value);
            }
            dict.set(name, value);
            proof {
                assert forall|t: int| 0 <= t < i + 1 implies dict.lookup(#[trigger] m[t].0) == Some(m[t].1) by {
                    crate::pdf::object::lemma_lookup_after_set(before, m[i].0, m[i].1, m[t].0);
                    if t < i {
                        assert(m[t].0 != m[i].0);
                    }
                }
                assert forall|key: Seq<u8>| !names_key(m.subrange(0, i + 1), key) implies #[trigger] dict.lookup(key)
                    == crate::pdf::object::entry_value(start, key) by {
                    crate::pdf::object::lemma_lookup_after_set(before, m[i].0, m[i].1, key);
                    assert(m.subrange(0, i + 1)[i].0 == m[i].0);
                    assert(key != m[i].0);
                    if names_key(m.subrange(0, i), key) {
                        let w = choose|w: int| 0 <= w < i && #[trigger] m.subrange(0, i)[w].0 == key;
                        assert(m.subrange(0, i + 1)[w].0 == key);
                        assert(false);
                    }
                    assert(before_dict.lookup(key) == crate::pdf::object::entry_value(start, key));
                }
                i = i + 1;
            }
        }
        proof {
            assert(i == m.len());
            assert(m.subrange(0, i) =~= m);
        }
        let ghost written = dict;
        put_object(doc, target, PdfObject::Dictionary(dict));
        proof {
            let new = document_objects(*doc);
            assert(new == cur.insert(target, PdfObject::Dictionary(written)));
            assert(new.dom() =~= objects.dom());
            lemma_replace_keeps_chains(cur, target, written);
            lemma_chains_kept_trans(objects, cur, new);
            assert(written.lookup("Pages".spec_bytes()) == crate::pdf::object::entry_value(start, "Pages".spec_bytes())) by {
                lemma_pages_not_inheritable();
                if names_key(m, "Pages".spec_bytes()) {
                    let w = choose|w: int| 0 <= w < m.len() && #[trigger] m[w].0 == "Pages".spec_bytes();
                    assert(is_inheritable(m[w].0));
                }
            }
            assert forall|root: ObjectId|
                pages_root_result(objects, document_trailer(*old(doc)), Ok::<ObjectId, AppError>(root))
                    implies #[trigger] pages_root_result(new, document_trailer(*old(doc)), Ok::<ObjectId, AppError>(root)) by {
                assert(pages_root_result(cur, document_trailer(*old(doc)), Ok::<ObjectId, AppError>(root)));
                lemma_root_kept(cur, document_trailer(*old(doc)), root, target, written);
            }
            assert forall|id: ObjectId| dict_target(objects, id) is None implies #[trigger] dict_target(new, id) is None by {
                lemma_no_dict_after_replace(cur, id, target, written);
            }
            let old_k = found_dict(dict_target(objects, page_id));
            assert(found_at(dict_target(objects, page_id)) == target);
            // The dictionary that was at `target` holds, outside the pushed keys, what
            // the page's own dictionary held.
            assert forall|key: Seq<u8>| !names_key(m, key) implies #[trigger] crate::pdf::object::entry_value(start, key)
                == old_k.lookup(key) by {
                if written_upto(objects, ids, k as int, target) {
                    let w = choose|w: int| 0 <= w < k && found_at(#[trigger] dict_target(objects, ids[w])) == target;
                    assert(pushed_down(objects, cur, ids[w]));
                    lemma_target_stored(cur, ids[w]);
                    lemma_same_place(objects, ids[w], page_id);
                    assert(found_dict(dict_target(cur, ids[w])).lookup(key) == found_dict(dict_target(objects, ids[w])).lookup(key));
                } else {
                    assert(cur.contains_key(target));
                    assert(cur[target] == objects[target]);
                }
            }
            assert forall|j: int| 0 <= j < k + 1 implies pushed_down(objects, new, #[trigger] ids[j]) by {
                if j < k {
                    assert(pushed_down(objects, cur, ids[j]));
                } else {
                    assert(ids[j] == page_id);
                }
                lemma_dict_target_after_replace(cur, ids[j], target, written);
                if found_at(dict_target(cur, ids[j])) == target {
                    lemma_same_place(objects, ids[j], page_id);
                    assert forall|key: Seq<u8>| !names_key(missing_upto(objects, ids[j], 4), key) implies #[trigger] found_dict(
                        dict_target(new, ids[j]),
                    ).lookup(key) == found_dict(dict_target(objects, ids[j])).lookup(key) by {
                        assert(crate::pdf::object::entry_value(start, key) == old_k.lookup(key));
                    }
                } else {
                    assert(j < k);
                    assert forall|key: Seq<u8>| !names_key(missing_upto(objects, ids[j], 4), key) implies #[trigger] found_dict(
                        dict_target(new, ids[j]),
                    ).lookup(key) == found_dict(dict_target(objects, ids[j])).lookup(key) by {
                        assert(found_dict(dict_target(cur, ids[j])).lookup(key) == found_dict(dict_target(objects, ids[j])).lookup(key));
                    }
                }
            }
            assert forall|id: ObjectId| #[trigger] new.contains_key(id) && !written_upto(objects, ids, k + 1, id) implies new[id] == objects[id] by {
                assert(found_at(dict_target(objects, ids[k as int])) == target);
                if written_upto(objects, ids, k as int, id) {
                    let w = choose|w: int| 0 <= w < k && found_at(#[trigger] dict_target(objects, ids[w])) == id;
                    assert(0 <= w < k + 1);
                }
                assert(id != target);
            }
        }
        k = k + 1;
    }
    Ok(())
}

/// The id `dict_target` finds is one the document stores.
pub proof fn lemma_target_stored(objects: Map<ObjectId, PdfObject>, id: ObjectId)
    ensures
        dict_target(objects, id) matches Some((target, dict)) ==> objects.contains_key(target)
            && objects[target] == PdfObject::Dictionary(dict),
{
    if objects.contains_key(id) {
        lemma_deref_lands(objects, objects[id], None, 0);
    }
}

/// The first thing wrong with `order` as a new page order, scanning it from
/// the front: an index that names no page, or one named a second time.
pub enum OrderProblem {
    OutOfRange(usize),
    Repeated(usize),
}

pub open spec fn order_problem_from(order: Seq<usize>, total: nat, k: int) -> Option<OrderProblem>
    decreases order.len() - k,
{
    if k < 0 || k >= order.len() {
        None
    } else if order[k] >= total {
        Some(OrderProblem::OutOfRange(order[k]))
    } else if order.subrange(0, k).contains(order[k]) {
        Some(OrderProblem::Repeated(order[k]))
    } else {
        order_problem_from(order, total, k + 1)
    }
}

pub open spec fn order_problem(order: Seq<usize>, total: nat) -> Option<OrderProblem> {
    order_problem_from(order, total, 0)
}

/// The message for an order of the wrong length.
pub open spec fn length_message(total: nat, given: nat) -> Seq<char> {
    "Expected an order for all "@ + decimal(total) + " pages, got "@ + decimal(given) + "."@
}

/// The message for an index named twice.
pub open spec fn repeat_message(index: nat) -> Seq<char> {
    "Page "@ + decimal(index) + " appears more than once in the new order."@
}

/// The problem `order_problem` describes, found by one pass with a table of
/// the indices already seen.
fn find_order_problem(order: &[usize], total: usize) -> (r: Option<OrderProblem>)
    ensures
        r == order_problem(order@, total as nat),
{
    let mut seen: Vec<bool> = Vec::new();
    let mut i: usize = 0;
    while i < total
        invariant
            i <= total,
            seen@.len() == i,
            forall|j: int| 0 <= j < i ==> !seen@[j],
        decreases total - i,
    {
        seen.push(false);
        i = i + 1;
    }
    let mut k: usize = 0;
    while k < order.len()
        invariant
            k <= order@.len(),
            seen@.len() == total,
            order_problem(order@, total as nat) == order_problem_from(order@, total as nat, k as int),
            forall|j: int| 0 <= j < total ==> seen@[j] == order@.subrange(0, k as int).contains(j as usize),
        decreases order@.len() - k,
    {
        let index = order[k];
        if index >= total {
            return Some(OrderProblem::OutOfRange(index));
        }
        if seen[index] {
            return Some(OrderProblem::Repeated(index));
        }
        seen.set(index, true);
        let ghost before = order@.subrange(0, k as int);
        k = k + 1;
        assert forall|j: int| 0 <= j < total implies seen@[j] == order@.subrange(0, k as int).contains(
            j as usize,
        ) by {
            let after = order@.subrange(0, k as int);
            assert(after =~= before.push(index));
            if after.contains(j as usize) && j != index {
                let w = choose|w: int| 0 <= w < after.len() && after[w] == j as usize;
                assert(w < before.len());
                assert(before[w] == j as usize);
            }
            if j == index {
                assert(after[k - 1] == index);
            }
        }
    }
    None
}

/// The children a single `Pages` node lists to show `pages` in `order`.
pub open spec fn reordered_kids(order: Seq<usize>, pages: Seq<ObjectId>) -> Seq<PdfObject> {
    Seq::new(order.len(), |k: int| PdfObject::Reference(pages[order[k] as int]))
}

/// The dictionary found lists `kids` as its children and counts `total`
/// pages.
pub open spec fn lists_pages(found: Option<PdfDict>, kids: Seq<PdfObject>, total: int) -> bool {
    &&& found matches Some(node)
    &&& node.lookup("Kids".spec_bytes()) matches Some(PdfObject::Array(items)) && items@ == kids
    &&& found->0.lookup("Count".spec_bytes()) == Some(PdfObject::Integer(total as i64))
}

/// Rewrites the page tree so pages appear in `order` (a permutation of 0..n).
///
/// This flattens any nested page tree into a single `Pages` node. Inheritable
/// attributes are pushed down onto each page first so nothing is lost. On
/// success the document is what pruning unreachable objects leaves of one
/// whose page-tree root lists the pages in the new order.
#[verifier::rlimit(30)]
pub fn reorder_pages(doc: &mut lopdf::Document, order: &[usize]) -> (r: AppResult<()>)
    ensures
        ({
            let total = page_count_of(*old(doc));
            if order@.len() != total {
                *final(doc) == *old(doc) && invalid_input(r, length_message(total, order@.len()))
            } else {
                match order_problem(order@, total) {
                    Some(OrderProblem::OutOfRange(index)) => *final(doc) == *old(doc) && r
                        == Err::<(), AppError>(AppError::PageOutOfRange(index)),
                    Some(OrderProblem::Repeated(index)) => *final(doc) == *old(doc) && invalid_input(
                        r,
                        repeat_message(index as nat),
                    ),
                    None => {
                        &&& tree_writable(document_objects(*old(doc)), document_trailer(*old(doc))) ==> r is Ok
                        &&& r is Err ==> pdf_error(r) || invalid_input(r, "Document has no /Root catalog."@)
                            || invalid_input(r, "Catalog has no /Pages tree."@)
                        &&& r is Ok ==> {
                            &&& document_trailer(*final(doc)) == document_trailer(*old(doc))
                            &&& document_max_id(*final(doc)) == document_max_id(*old(doc))
                            &&& exists|written: Map<ObjectId, PdfObject>, root: ObjectId|
                                #![trigger pruned_objects(written, document_trailer(*old(doc))), dict_of(written, root)]
                                document_objects(*final(doc)) == pruned_objects(written, document_trailer(*old(doc)))
                                    && pages_root_result(written, document_trailer(*old(doc)), Ok(root))
                                    && lists_pages(
                                    dict_of(written, root),
                                    reordered_kids(
                                        order@,
                                        page_tree(document_objects(*old(doc)), document_trailer(*old(doc))),
                                    ),
                                    total as int,
                                )
                        }
                    },
                }
            }
        }),
{
    broadcast use crate::pdf::object::lemma_lookup_after_set;

    let ids = page_ids(doc);
    let total = ids.len();
    if order.len() != total {
        let mut message = String::from_str("Expected an order for all ");
        message.append(decimal_text(total as u64).as_str());
        message.append(" pages, got ");
        message.append(decimal_text(order.len() as u64).as_str());
        message.append(".");
        return Err(AppError::InvalidInput(message));
    }
    match find_order_problem(order, total) {
        Some(OrderProblem::OutOfRange(index)) => return Err(AppError::PageOutOfRange(index)),
        Some(OrderProblem::Repeated(index)) => {
            let mut message = String::from_str("Page ");
            message.append(decimal_text(index as u64).as_str());
            message.append(" appears more than once in the new order.");
            return Err(AppError::InvalidInput(message));
        },
        None => {},
    }
    let ghost trailer = document_trailer(*doc);
    let ghost objects0 = document_objects(*doc);
    let mut chosen: Vec<ObjectId> = Vec::new();
    let mut k: usize = 0;
    while k < order.len()
        invariant
            k <= order@.len(),
            order@.len() == ids@.len(),
            order_problem(order@, ids@.len() as nat) is None,
            chosen@.len() == k,
            forall|j: int| 0 <= j < k ==> #[trigger] chosen@[j] == ids@[order@[j] as int],
        decreases order@.len() - k,
    {
        proof {
            lemma_no_problem_in_range(order@, ids@.len() as nat, k as int);
        }
        chosen.push(ids[order[k]]);
        k = k + 1;
    }
    assert(page_refs(chosen@) =~= reordered_kids(order@, ids@));
    proof {
        if tree_writable(objects0, trailer) {
            assert forall|j: int| 0 <= j < chosen@.len() implies #[trigger] dict_target(objects0, chosen@[j]) is Some by {
                lemma_no_problem_in_range(order@, ids@.len() as nat, j);
                assert(dict_target(objects0, page_tree(objects0, trailer)[order@[j] as int]) is Some);
            }
        }
    }
    relist_pages(doc, chosen.as_slice())?;
    let ghost written = document_objects(*doc);
    let ghost root = pages_root(written, trailer)->0;
    assert(pages_root_result(written, trailer, Ok::<ObjectId, AppError>(root)));
    assert(lists_pages(dict_of(written, root), reordered_kids(order@, ids@), total as int));
    lopdf_prune(doc);
    Ok(())
}

/// What listing `pages` as the page tree needs: each of them, and the root
/// node the catalog names, found as dictionaries.
pub open spec fn relistable(objects: Map<ObjectId, PdfObject>, trailer: PdfDict, pages: Seq<ObjectId>) -> bool {
    &&& forall|k: int| 0 <= k < pages.len() ==> #[trigger] dict_target(objects, pages[k]) is Some
    &&& pages_root(objects, trailer) matches Some(root) && dict_target(objects, root) is Some
}

/// Makes `pages`, in this order, the whole page tree: their inheritable
/// attributes are pushed down onto them, each is parented directly to the
/// tree's root, and the root lists exactly them and counts them. (Pages no
/// longer listed are left for pruning.)
pub fn relist_pages(doc: &mut lopdf::Document, pages: &[ObjectId]) -> (r: AppResult<()>)
    ensures
        relistable(document_objects(*old(doc)), document_trailer(*old(doc)), pages@) ==> r is Ok,
        r is Err ==> pdf_error(r) || invalid_input(r, "Document has no /Root catalog."@) || invalid_input(
            r,
            "Catalog has no /Pages tree."@,
        ),
        r is Ok ==> {
            &&& document_trailer(*final(doc)) == document_trailer(*old(doc))
            &&& document_max_id(*final(doc)) == document_max_id(*old(doc))
            &&& pages_root(document_objects(*final(doc)), document_trailer(*old(doc))) matches Some(root)
                && lists_pages(
                dict_of(document_objects(*final(doc)), root),
                page_refs(pages@),
                pages@.len() as int,
            )
        },
{
    broadcast use crate::pdf::object::lemma_lookup_after_set;

    let ghost trailer = document_trailer(*doc);
    let ghost objects0 = document_objects(*doc);
    let ghost writable = relistable(objects0, trailer, pages@);
    push_down_inherited(doc, pages)?;
    let ghost pushed = document_objects(*doc);
    proof {
        if writable {
            let root = pages_root(objects0, trailer)->0;
            assert(pages_root_result(objects0, trailer, Ok::<ObjectId, AppError>(root)));
            assert(pages_root_result(pushed, trailer, Ok::<ObjectId, AppError>(root)));
            assert(dict_target(pushed, root) is Some);
        }
    }
    let root_id = root_pages_id(doc)?;
    proof {
        if writable {
            let root = pages_root(objects0, trailer)->0;
            assert(pages_root_result(pushed, trailer, Ok::<ObjectId, AppError>(root)));
            assert(root_id == root);
        }
    }
    let mut kids: Vec<PdfObject> = Vec::new();
    let mut k: usize = 0;
    while k < pages.len()
        invariant
            k <= pages@.len(),
            kids@ == page_refs(pages@).subrange(0, k as int),
        decreases pages@.len() - k,
    {
        kids.push(PdfObject::Reference(pages[k]));
        k = k + 1;
        assert(kids@ =~= page_refs(pages@).subrange(0, k as int));
    }
    assert(kids@ =~= page_refs(pages@));
    let mut k: usize = 0;
    while k < pages.len()
        invariant
            document_trailer(*doc) == trailer,
            document_max_id(*doc) == document_max_id(*old(doc)),
            pages_root_result(document_objects(*doc), trailer, Ok::<ObjectId, AppError>(root_id)),
            chains_kept(pushed, document_objects(*doc)),
            writable ==> dict_target(pushed, root_id) is Some,
        decreases pages@.len() - k,
    {
        let ghost before = document_objects(*doc);
        if let Some((target, mut dict)) = dict_for_update(doc, pages[k]) {
            let ghost original = dict;
            dict.set(key("Parent"), PdfObject::Reference(root_id));
            proof {
                lemma_tree_keys();
                crate::pdf::object::lemma_lookup_after_set(
                    original@,
                    "Parent".spec_bytes(),
                    PdfObject::Reference(root_id),
                    "Pages".spec_bytes(),
                );
                lemma_target_stored(before, pages@[k as int]);
                lemma_root_kept(before, trailer, root_id, target, dict);
                lemma_replace_keeps_chains(before, target, dict);
                lemma_chains_kept_trans(pushed, before, before.insert(target, PdfObject::Dictionary(dict)));
            }
            put_object(doc, target, PdfObject::Dictionary(dict));
        }
        k = k + 1;
    }
    let ghost before = document_objects(*doc);
    let (target, mut tree) = match dict_for_update(doc, root_id) {
        Some(found) => found,
        None => {
            assert(!writable);
            return Err(AppError::Pdf(dictionary_error(doc, root_id)));
        },
    };
    let ghost original_tree = tree;
    let count = pages.len() as i64;
    tree.set(key("Kids"), PdfObject::Array(kids));
    tree.set(key("Count"), PdfObject::Integer(count));
    proof {
        lemma_tree_keys();
        assert(tree.lookup("Pages".spec_bytes()) == original_tree.lookup("Pages".spec_bytes()));
        lemma_target_stored(before, root_id);
        lemma_root_kept(before, trailer, root_id, target, tree);
        lemma_dict_of_target(before, root_id);
        lemma_dict_of_after_replace(before, root_id, target, tree);
    }
    put_object(doc, target, PdfObject::Dictionary(tree));
    let ghost written = document_objects(*doc);
    assert(pages_root_result(written, trailer, Ok::<ObjectId, AppError>(root_id)));
    assert(lists_pages(dict_of(written, root_id), page_refs(pages@), pages@.len() as int));
    Ok(())
}

/// The page-tree keys written here differ from one another and from `/Pages`.
proof fn lemma_tree_keys()
    ensures
        "Parent".spec_bytes() != "Pages".spec_bytes(),
        "Kids".spec_bytes() != "Pages".spec_bytes(),
        "Count".spec_bytes() != "Pages".spec_bytes(),
        "Kids".spec_bytes() != "Count".spec_bytes(),
{
    reveal_strlit("Parent");
    reveal_strlit("Kids");
    reveal_strlit("Count");
    reveal_strlit("Pages");
    lemma_ascii_bytes("Parent");
    lemma_ascii_bytes("Kids");
    lemma_ascii_bytes("Count");
    lemma_ascii_bytes("Pages");
    assert("Kids".spec_bytes()[0] != "Pages".spec_bytes()[0]);
    assert("Count".spec_bytes()[0] != "Pages".spec_bytes()[0]);
    assert("Kids".spec_bytes()[0] != "Count".spec_bytes()[0]);
}

/// The root of the page tree the catalog names, where the trailer's `/Root`
/// resolves to a dictionary whose `/Pages` is a reference.
pub open spec fn pages_root(objects: Map<ObjectId, PdfObject>, trailer: PdfDict) -> Option<ObjectId> {
    match trailer.lookup("Root".spec_bytes()) {
        Some(catalog) => match resolved(objects, catalog) {
            PdfObject::Dictionary(dict) => match dict.lookup("Pages".spec_bytes()) {
                Some(PdfObject::Reference(id)) => Some(id),
                _ => None,
            },
            _ => None,
        },
        None => None,
    }
}

/// What rewriting the page tree needs: every page, and the root node the
/// catalog names, found as dictionaries.
pub open spec fn tree_writable(objects: Map<ObjectId, PdfObject>, trailer: PdfDict) -> bool {
    &&& forall|k: int|
        0 <= k < page_tree(objects, trailer).len() ==> #[trigger] dict_target(objects, page_tree(objects, trailer)[k]) is Some
    &&& pages_root(objects, trailer) matches Some(root) && dict_target(objects, root) is Some
}

/// Replacing a stored dictionary by one with the same `/Pages` entry keeps
/// where the page tree's root is found.
proof fn lemma_root_kept(
    objects: Map<ObjectId, PdfObject>,
    trailer: PdfDict,
    root: ObjectId,
    target: ObjectId,
    replacement: PdfDict,
)
    requires
        pages_root_result(objects, trailer, Ok::<ObjectId, AppError>(root)),
        objects.contains_key(target),
        objects[target] is Dictionary,
        replacement.lookup("Pages".spec_bytes()) == objects[target]->Dictionary_0.lookup("Pages".spec_bytes()),
    ensures
        pages_root_result(
            objects.insert(target, PdfObject::Dictionary(replacement)),
            trailer,
            Ok::<ObjectId, AppError>(root),
        ),
{
    let updated = objects.insert(target, PdfObject::Dictionary(replacement));
    let catalog = trailer.lookup("Root".spec_bytes())->0;
    if let PdfObject::Reference(id) = catalog {
        assert(objects.contains_key(id));
        lemma_chain_after_replace(objects, id, 1, target, replacement);
        lemma_deref_lands(objects, objects[id], Some(id), 1);
        assert(updated.contains_key(id));
    }
}

/// An order with no problem names only pages that exist.
pub proof fn lemma_no_problem_in_range(order: Seq<usize>, total: nat, k: int)
    requires
        order_problem(order, total) is None,
        0 <= k < order.len(),
    ensures
        order[k] < total,
{
    lemma_no_problem_from(order, total, 0, k);
}

proof fn lemma_no_problem_from(order: Seq<usize>, total: nat, from: int, k: int)
    requires
        order_problem_from(order, total, from) is None,
        0 <= from <= k < order.len(),
    ensures
        order[k] < total,
        !order.subrange(0, k).contains(order[k]),
    decreases k - from,
{
    if from < k {
        lemma_no_problem_from(order, total, from + 1, k);
    }
}


/// The page order after moving the page at `from` to `to`, every other page
/// keeping its relative place.
pub open spec fn moved_order(total: nat, from: nat, to: nat) -> Seq<usize> {
    Seq::new(
        total,
        |i: int|
            if i == to {
                from as usize
            } else if from <= to && from <= i < to {
                (i + 1) as usize
            } else if to < from && to < i <= from {
                (i - 1) as usize
            } else {
                i as usize
            },
    )
}

/// A multiple of 90 folds to its remainder by 360, itself a multiple of 90.
proof fn lemma_normalize_quarter_turns(d: int)
    requires
        d % 90 == 0,
    ensures
        spec_normalize_rotation(d) == d % 360,
        (d % 360) % 90 == 0,
{
    let q = d / 90;
    assert(d == 90 * q);
    assert((90 * q) % 360 == 90 * (q % 4)) by (nonlinear_arith);
    assert((90 * (q % 4)) / 90 == q % 4) by (nonlinear_arith);
    assert((90 * (q % 4)) % 90 == 0) by (nonlinear_arith);
}

/// Turning a page by `first` and then by `second` leaves it where one turn by
/// their sum does: rotations accumulate, and a full turn is no turn at all.
#[verifier::spinoff_prover]
pub proof fn law_rotations_accumulate(rotation: int, first: int, second: int)
    requires
        rotation % 90 == 0,
        first % 90 == 0,
        second % 90 == 0,
    ensures
        spec_normalize_rotation(spec_normalize_rotation(rotation + first) + second) == spec_normalize_rotation(
            rotation + first + second,
        ),
        spec_normalize_rotation(rotation + 360) == spec_normalize_rotation(rotation),
{
    let once = rotation + first;
    lemma_normalize_quarter_turns(once);
    let folded = once % 360;
    lemma_normalize_quarter_turns(folded + second);
    lemma_normalize_quarter_turns(once + second);
    assert((folded + second) % 360 == (once + second) % 360) by {
        vstd::arithmetic::div_mod::lemma_add_mod_noop_right(second, once, 360);
        assert(folded + second == second + once % 360);
        assert(once + second == second + once);
    }
    lemma_normalize_quarter_turns(rotation + 360);
    lemma_normalize_quarter_turns(rotation);
    assert((rotation + 360) % 360 == rotation % 360) by {
        vstd::arithmetic::div_mod::lemma_mod_add_multiples_vanish(rotation, 360);
        assert(rotation + 360 == 360 + rotation);
    }
}

/// A moved order names every page exactly once, so `reorder_pages` accepts
/// it: moving a page can never fail on the order it asks for.
pub proof fn law_a_moved_order_is_a_permutation(total: nat, from: nat, to: nat)
    requires
        from < total,
        to < total,
        total <= usize::MAX,
    ensures
        moved_order(total, from, to).len() == total,
        moved_order(total, from, to)[to as int] == from,
        order_problem(moved_order(total, from, to), total) is None,
{
    let order = moved_order(total, from, to);
    assert forall|i: int, j: int| 0 <= i < j < total implies order[i] != order[j] by {}
    lemma_distinct_has_no_problem(order, total, 0);
}

proof fn lemma_distinct_has_no_problem(order: Seq<usize>, total: nat, k: int)
    requires
        0 <= k <= order.len(),
        forall|i: int| 0 <= i < order.len() ==> order[i] < total,
        forall|i: int, j: int| 0 <= i < j < order.len() ==> order[i] != order[j],
    ensures
        order_problem_from(order, total, k) is None,
    decreases order.len() - k,
{
    if k < order.len() {
        if order.subrange(0, k).contains(order[k]) {
            let w = choose|w: int| 0 <= w < k && order.subrange(0, k)[w] == order[k];
            assert(order[w] == order[k]);
        }
        lemma_distinct_has_no_problem(order, total, k + 1);
    }
}

/// Convenience wrapper: move a single page to a new index.
pub fn move_page(doc: &mut lopdf::Document, from: usize, to: usize) -> (r: AppResult<()>)
    ensures
        ({
            let total = page_count_of(*old(doc));
            if from >= total {
                *final(doc) == *old(doc) && r == Err::<(), AppError>(AppError::PageOutOfRange(from))
            } else if to >= total {
                *final(doc) == *old(doc) && r == Err::<(), AppError>(AppError::PageOutOfRange(to))
            } else {
                &&& tree_writable(document_objects(*old(doc)), document_trailer(*old(doc))) ==> r is Ok
                &&& r is Err ==> pdf_error(r) || invalid_input(r, "Document has no /Root catalog."@)
                    || invalid_input(r, "Catalog has no /Pages tree."@)
                &&& r is Ok ==> {
                    &&& document_trailer(*final(doc)) == document_trailer(*old(doc))
                    &&& document_max_id(*final(doc)) == document_max_id(*old(doc))
                    &&& exists|written: Map<ObjectId, PdfObject>, root: ObjectId|
                        #![trigger pruned_objects(written, document_trailer(*old(doc))), dict_of(written, root)]
                        document_objects(*final(doc)) == pruned_objects(written, document_trailer(*old(doc)))
                            && pages_root_result(written, document_trailer(*old(doc)), Ok(root))
                            && lists_pages(
                            dict_of(written, root),
                            reordered_kids(
                                moved_order(total, from as nat, to as nat),
                                page_tree(document_objects(*old(doc)), document_trailer(*old(doc))),
                            ),
                            total as int,
                        )
                }
            }
        }),
{
    let total = page_count(doc);
    if from >= total {
        return Err(AppError::PageOutOfRange(from));
    }
    if to >= total {
        return Err(AppError::PageOutOfRange(to));
    }
    let mut order: Vec<usize> = Vec::new();
    let mut i: usize = 0;
    while i < total
        invariant
            i <= total,
            order@ == Seq::new(i as nat, |j: int| j as usize),
        decreases total - i,
    {
        order.push(i);
        i = i + 1;
        assert(order@ =~= Seq::new(i as nat, |j: int| j as usize));
    }
    let page = order.remove(from);
    order.insert(to, page);
    proof {
        assert(order@ =~= moved_order(total as nat, from as nat, to as nat));
        law_a_moved_order_is_a_permutation(total as nat, from as nat, to as nat);
    }
    reorder_pages(doc, order.as_slice())
}


/// `name` as a name object.
fn name_object(name: &str) -> (r: PdfObject)
    ensures
        r matches PdfObject::Name(bytes) && bytes@ == name.spec_bytes(),
{
    PdfObject::Name(key(name))
}

/// `object` is the name `text`.
pub open spec fn is_name(object: Option<PdfObject>, text: Seq<u8>) -> bool {
    object matches Some(PdfObject::Name(bytes)) && bytes@ == text
}

/// `object` is an array of these integers, in order.
pub open spec fn is_integer_array(object: Option<PdfObject>, values: Seq<i64>) -> bool {
    object matches Some(PdfObject::Array(items)) && items@.len() == values.len() && forall|i: int|
        0 <= i < values.len() ==> items@[i] == PdfObject::Integer(values[i])
}

/// `object` is an array of references to these objects, in order.
pub open spec fn is_reference_array(object: Option<PdfObject>, ids: Seq<ObjectId>) -> bool {
    object matches Some(PdfObject::Array(items)) && items@.len() == ids.len() && forall|i: int|
        0 <= i < ids.len() ==> items@[i] == PdfObject::Reference(ids[i])
}

/// `object` is an empty dictionary.
pub open spec fn is_empty_dictionary(object: Option<PdfObject>) -> bool {
    match object {
        Some(PdfObject::Dictionary(dict)) => dict@.len() == 0,
        _ => false,
    }
}

/// The page `blank` builds, under the page tree node `pages_id`.
pub open spec fn is_blank_page(object: PdfObject, pages_id: ObjectId) -> bool {
    match object {
        PdfObject::Dictionary(page) => {
            &&& page@.len() == 4
            &&& is_name(page.lookup("Type".spec_bytes()), "Page".spec_bytes())
            &&& page.lookup("Parent".spec_bytes()) == Some(PdfObject::Reference(pages_id))
            &&& is_integer_array(page.lookup("MediaBox".spec_bytes()), seq![0i64, 0, 612, 792])
            &&& is_empty_dictionary(page.lookup("Resources".spec_bytes()))
        },
        _ => false,
    }
}

/// The page tree node `blank` builds, listing the single page `page_id`.
pub open spec fn is_single_page_tree(object: PdfObject, page_id: ObjectId) -> bool {
    match object {
        PdfObject::Dictionary(pages) => {
            &&& pages@.len() == 3
            &&& is_name(pages.lookup("Type".spec_bytes()), "Pages".spec_bytes())
            &&& is_reference_array(pages.lookup("Kids".spec_bytes()), seq![page_id])
            &&& pages.lookup("Count".spec_bytes()) == Some(PdfObject::Integer(1))
        },
        _ => false,
    }
}

/// A catalog naming the page tree `pages_id`.
pub open spec fn is_catalog(object: PdfObject, pages_id: ObjectId) -> bool {
    match object {
        PdfObject::Dictionary(catalog) => {
            &&& catalog@.len() == 2
            &&& is_name(catalog.lookup("Type".spec_bytes()), "Catalog".spec_bytes())
            &&& catalog.lookup("Pages".spec_bytes()) == Some(PdfObject::Reference(pages_id))
        },
        _ => false,
    }
}

/// The document `blank` builds: a catalog at 3, a single-node page tree at 1
/// and one US Letter page at 2.
pub open spec fn is_blank_document(doc: lopdf::Document) -> bool {
    let objects = document_objects(doc);
    let pages_id: ObjectId = (1, 0);
    let page_id: ObjectId = (2, 0);
    let catalog_id: ObjectId = (3, 0);
    &&& document_version(doc) == "1.7"@
    &&& document_max_id(doc) == 3
    &&& objects.dom() == set![pages_id, page_id, catalog_id]
    &&& is_blank_page(objects[page_id], pages_id)
    &&& is_single_page_tree(objects[pages_id], page_id)
    &&& is_catalog(objects[catalog_id], pages_id)
    &&& document_trailer(doc)@.len() == 1
    &&& document_trailer(doc).lookup("Root".spec_bytes()) == Some(PdfObject::Reference(catalog_id))
}

/// Builds a valid, empty single-page document (US Letter).
#[verifier::spinoff_prover]
pub fn blank() -> (r: AppResult<lopdf::Document>)
    ensures
        r matches Ok(doc) && is_blank_document(doc),
{
    let mut doc = new_document("1.7");
    let pages_id = new_object_id(&mut doc);

    let mut media_box: Vec<PdfObject> = Vec::new();
    media_box.push(PdfObject::Integer(0));
    media_box.push(PdfObject::Integer(0));
    media_box.push(PdfObject::Integer(612));
    media_box.push(PdfObject::Integer(792));

    proof {
        lemma_literal_keys();
        reveal_strlit("Root");
    }
    let mut page = PdfDict::new();
    page.set_new(key("Type"), name_object("Page"));
    page.set_new(key("Parent"), PdfObject::Reference(pages_id));
    page.set_new(key("MediaBox"), PdfObject::Array(media_box));
    page.set_new(key("Resources"), PdfObject::Dictionary(PdfDict::new()));
    let ghost page_view = page;
    let page_id = add_object(&mut doc, PdfObject::Dictionary(page));

    let mut kids: Vec<PdfObject> = Vec::new();
    kids.push(PdfObject::Reference(page_id));
    let mut pages = PdfDict::new();
    pages.set_new(key("Type"), name_object("Pages"));
    pages.set_new(key("Kids"), PdfObject::Array(kids));
    pages.set_new(key("Count"), PdfObject::Integer(1));
    let ghost pages_view = pages;
    put_object(&mut doc, pages_id, PdfObject::Dictionary(pages));

    let mut catalog = PdfDict::new();
    catalog.set_new(key("Type"), name_object("Catalog"));
    catalog.set_new(key("Pages"), PdfObject::Reference(pages_id));
    let ghost catalog_view = catalog;
    let catalog_id = add_object(&mut doc, PdfObject::Dictionary(catalog));

    let mut trailer = trailer_of(&doc);
    trailer.set_new(key("Root"), PdfObject::Reference(catalog_id));
    let ghost trailer_view = trailer;
    put_trailer(&mut doc, trailer);
    proof {
        assert(document_objects(doc).dom() =~= set![pages_id, page_id, catalog_id]);
        let p = page_view@;
        lemma_lookup_distinct(p, 0);
        lemma_lookup_distinct(p, 1);
        lemma_lookup_distinct(p, 2);
        lemma_lookup_distinct(p, 3);
        let t = pages_view@;
        lemma_lookup_distinct(t, 0);
        lemma_lookup_distinct(t, 1);
        lemma_lookup_distinct(t, 2);
        let c = catalog_view@;
        lemma_lookup_distinct(c, 0);
        lemma_lookup_distinct(c, 1);
        lemma_lookup_distinct(trailer_view@, 0);
        let objects = document_objects(doc);
        assert(document_version(doc) == "1.7"@);
        assert(document_max_id(doc) == 3);
        assert(objects[page_id] == PdfObject::Dictionary(page_view));
        assert(is_blank_page(objects[page_id], pages_id));
        assert(is_single_page_tree(objects[pages_id], page_id));
        assert(objects[catalog_id] == PdfObject::Dictionary(catalog_view));
        assert(catalog_view.lookup("Type".spec_bytes()) == Some(catalog_view@[0].1));
        assert(catalog_view.lookup("Pages".spec_bytes()) == Some(catalog_view@[1].1));
        assert(is_catalog(objects[catalog_id], pages_id));
        assert(document_trailer(doc)@.len() == 1);
    }
    Ok(doc)
}

/// The bytes of an ASCII string are its characters, one byte each.
pub proof fn lemma_ascii_bytes(text: &str)
    requires
        vstd::string::is_ascii(text),
    ensures
        text.spec_bytes().len() == text@.len(),
        forall|i: int| 0 <= i < text@.len() ==> text.spec_bytes()[i] == text@[i] as u8,
{
    vstd::string::is_ascii_spec_bytes(text);
}

/// The keys `blank` writes are all different from one another.
proof fn lemma_literal_keys()
    ensures
        "Type".spec_bytes() != "Parent".spec_bytes(),
        "Type".spec_bytes() != "MediaBox".spec_bytes(),
        "Type".spec_bytes() != "Resources".spec_bytes(),
        "Parent".spec_bytes() != "MediaBox".spec_bytes(),
        "Parent".spec_bytes() != "Resources".spec_bytes(),
        "MediaBox".spec_bytes() != "Resources".spec_bytes(),
        "Type".spec_bytes() != "Kids".spec_bytes(),
        "Type".spec_bytes() != "Count".spec_bytes(),
        "Kids".spec_bytes() != "Count".spec_bytes(),
        "Type".spec_bytes() != "Pages".spec_bytes(),
{
    reveal_strlit("Type");
    reveal_strlit("Parent");
    reveal_strlit("MediaBox");
    reveal_strlit("Resources");
    reveal_strlit("Kids");
    reveal_strlit("Count");
    reveal_strlit("Pages");
    lemma_ascii_bytes("Type");
    lemma_ascii_bytes("Parent");
    lemma_ascii_bytes("MediaBox");
    lemma_ascii_bytes("Resources");
    lemma_ascii_bytes("Kids");
    lemma_ascii_bytes("Count");
    lemma_ascii_bytes("Pages");
    assert("Type".spec_bytes()[0] != "Kids".spec_bytes()[0]);
    assert("Type".spec_bytes()[0] != "Count".spec_bytes()[0]);
}


/// References to `ids`, in order.
pub open spec fn page_refs(ids: Seq<ObjectId>) -> Seq<PdfObject> {
    ids.map_values(|id: ObjectId| PdfObject::Reference(id))
}

/// The dictionary found lists `prior` followed by references to `added`, and
/// counts them all.
pub open spec fn lists_appended(found: Option<PdfDict>, prior: Seq<PdfObject>, added: Seq<ObjectId>) -> bool {
    lists_pages(found, prior + page_refs(added), (prior.len() + added.len()) as int)
}

/// The pages `other` brings once its objects are numbered from `start`.
pub open spec fn appended_pages(other: lopdf::Document, start: u32) -> Seq<ObjectId> {
    let moved = renumbered(document_objects(other), document_trailer(other), start);
    page_tree(moved.0, moved.1)
}

/// What appending `other` to `doc` needs: `doc`'s objects numbered at most
/// its `max_id`, the root of its page tree found as a dictionary, and every
/// page of `other` (as renumbered) found as a dictionary.
pub open spec fn appendable(doc: lopdf::Document, other: lopdf::Document) -> bool {
    let objects = document_objects(doc);
    let moved = renumbered(document_objects(other), document_trailer(other), (document_max_id(doc) + 1) as u32);
    let pages = appended_pages(other, (document_max_id(doc) + 1) as u32);
    &&& ids_bounded(objects, document_max_id(doc))
    &&& pages_root(objects, document_trailer(doc)) matches Some(root) && dict_target(objects, root) is Some
    &&& forall|k: int| 0 <= k < pages.len() ==> #[trigger] dict_target(moved.0, pages[k]) is Some
}

/// Following references from an object the document stores, through a chain
/// that succeeds, is unchanged in a map that keeps every stored object.
proof fn lemma_chain_in_extension(
    objects: Map<ObjectId, PdfObject>,
    larger: Map<ObjectId, PdfObject>,
    object: PdfObject,
    last: Option<ObjectId>,
    count: nat,
)
    requires
        forall|id: ObjectId| #[trigger] objects.contains_key(id) ==> larger.contains_key(id) && larger[id] == objects[id],
        deref_from(objects, object, last, count) is Some,
    ensures
        deref_from(larger, object, last, count) == deref_from(objects, object, last, count),
    decreases DEREF_LIMIT - count,
{
    if let PdfObject::Reference(id) = object {
        assert(objects.contains_key(id) && count + 1 <= DEREF_LIMIT);
        lemma_chain_in_extension(objects, larger, objects[id], Some(id), count + 1);
    }
}

/// Storing objects under ids the document does not use keeps every
/// dictionary lookup.
proof fn lemma_extension_keeps_chains(objects: Map<ObjectId, PdfObject>, larger: Map<ObjectId, PdfObject>)
    requires
        forall|id: ObjectId| #[trigger] objects.contains_key(id) ==> larger.contains_key(id) && larger[id] == objects[id],
    ensures
        chains_kept(objects, larger),
{
    assert forall|id: ObjectId| #[trigger] dict_target(objects, id) is Some implies dict_target(larger, id) is Some
        && found_at(dict_target(larger, id)) == found_at(dict_target(objects, id)) by {
        assert(objects.contains_key(id));
        lemma_chain_in_extension(objects, larger, objects[id], None, 0);
    }
}

/// Appends every page of `other` to the end of `doc`.
///
/// Object ids in `other` are renumbered above `doc`'s highest id so the two
/// object graphs cannot collide. The merged file's own catalog, outlines and
/// tree nodes are left unreachable, and pruned.
pub fn append_document(doc: &mut lopdf::Document, other: lopdf::Document) -> (r: AppResult<()>)
    requires
        document_max_id(*old(doc)) < u32::MAX,
        document_max_id(*old(doc)) + 1 + document_objects(other).dom().len() <= u32::MAX,
    ensures
        document_max_id(*final(doc)) == renumbered(
            document_objects(other),
            document_trailer(other),
            (document_max_id(*old(doc)) + 1) as u32,
        ).2,
        document_trailer(*final(doc)) == document_trailer(*old(doc)),
        r is Err ==> pdf_error(r) || invalid_input(r, "Document has no /Root catalog."@)
            || invalid_input(r, "Catalog has no /Pages tree."@),
        // Owed success: a well-numbered document whose page tree's root is a
        // dictionary, receiving pages that are all dictionaries.
        appendable(*old(doc), other) ==> r is Ok,
        // On success the root of the document's page tree, in the state that
        // pruning then cleans up, lists its earlier children followed by every
        // appended page, and counts them all.
        r is Ok ==> exists|written: Map<ObjectId, PdfObject>, root: ObjectId, prior: Seq<PdfObject>|
            #![trigger lists_appended(dict_of(written, root), prior, appended_pages(other, (document_max_id(*old(doc)) + 1) as u32))]
            document_objects(*final(doc)) == pruned_objects(written, document_trailer(*old(doc)))
                && pages_root_result(document_objects(*old(doc)), document_trailer(*old(doc)), Ok(root))
                && lists_appended(
                dict_of(written, root),
                prior,
                appended_pages(other, (document_max_id(*old(doc)) + 1) as u32),
            ),
{
    broadcast use crate::pdf::object::lemma_lookup_after_set;

    let ghost objects0 = document_objects(*doc);
    let ghost good = appendable(*doc, other);
    let offset = max_id_of(doc) + 1;
    let ghost original_other = other;
    let mut other = other;
    lopdf_renumber(&mut other, offset);
    put_max_id(doc, max_id_of(&other));

    let incoming = page_ids(&other);
    assert(incoming@ == appended_pages(original_other, offset));
    let ghost moved = document_objects(other);
    proof {
        if good {
            assert forall|k: int| 0 <= k < incoming@.len() implies #[trigger] dict_target(moved, incoming@[k]) is Some by {
                assert(dict_target(moved, appended_pages(original_other, offset)[k]) is Some);
            }
        }
    }
    push_down_inherited(&mut other, incoming.as_slice())?;
    proof {
        if good {
            let root = pages_root(objects0, document_trailer(*doc))->0;
            assert(pages_root_result(objects0, document_trailer(*doc), Ok::<ObjectId, AppError>(root)));
        }
    }
    let root_id = root_pages_id(doc)?;
    proof {
        if good {
            let root = pages_root(objects0, document_trailer(*doc))->0;
            assert(pages_root_result(objects0, document_trailer(*doc), Ok::<ObjectId, AppError>(root)));
            assert(root_id == root);
        }
    }

    // Move every object across; page dictionaries get re-parented below.
    let ids = object_ids(&other);
    let mut k: usize = 0;
    while k < ids.len()
        invariant
            document_trailer(*doc) == document_trailer(*old(doc)),
            document_max_id(*doc) == document_max_id(other),
            offset >= 1,
            good ==> ids_bounded(objects0, (offset - 1) as u32),
            forall|id: ObjectId| #[trigger] document_objects(other).contains_key(id) ==> id.0 >= offset,
            forall|id: ObjectId| ids@.contains(id) ==> #[trigger] document_objects(other).contains_key(id),
            good ==> forall|id: ObjectId|
                #[trigger] objects0.contains_key(id) ==> document_objects(*doc).contains_key(id)
                    && document_objects(*doc)[id] == objects0[id],
        decreases ids@.len() - k,
    {
        if let Some(object) = object_at(&other, ids[k]) {
            proof {
                assert(ids@.contains(ids@[k as int]));
                assert(document_objects(other).contains_key(ids@[k as int]));
                assert(ids@[k as int].0 >= offset);
                if good {
                    assert(!objects0.contains_key(ids@[k as int]));
                }
            }
            put_object(doc, ids[k], object);
        }
        k = k + 1;
    }
    proof {
        if good {
            lemma_extension_keeps_chains(objects0, document_objects(*doc));
        }
    }
    let ghost copied = document_objects(*doc);
    let mut k: usize = 0;
    while k < incoming.len()
        invariant
            document_trailer(*doc) == document_trailer(*old(doc)),
            document_max_id(*doc) == document_max_id(other),
            good ==> chains_kept(objects0, document_objects(*doc)),
        decreases incoming@.len() - k,
    {
        let ghost before_set = document_objects(*doc);
        if let Some((target, mut dict)) = dict_for_update(doc, incoming[k]) {
            dict.set(key("Parent"), PdfObject::Reference(root_id));
            proof {
                lemma_target_stored(before_set, incoming@[k as int]);
                lemma_replace_keeps_chains(before_set, target, dict);
                if good {
                    lemma_chains_kept_trans(objects0, before_set, before_set.insert(target, PdfObject::Dictionary(dict)));
                }
            }
            put_object(doc, target, PdfObject::Dictionary(dict));
        }
        k = k + 1;
    }

    let ghost before = document_objects(*doc);
    let (target, mut pages) = match dict_for_update(doc, root_id) {
        Some(found) => found,
        None => {
            assert(!good);
            return Err(AppError::Pdf(dictionary_error(doc, root_id)));
        },
    };
    let mut kids = match pages.take_value("Kids".as_bytes()) {
        Some(PdfObject::Array(items)) => items,
        _ => Vec::new(),
    };
    let ghost prior = kids@;
    let mut k: usize = 0;
    while k < incoming.len()
        invariant
            k <= incoming@.len(),
            kids@ == prior + page_refs(incoming@.subrange(0, k as int)),
        decreases incoming@.len() - k,
    {
        kids.push(PdfObject::Reference(incoming[k]));
        k = k + 1;
        assert(page_refs(incoming@.subrange(0, k as int)) =~= page_refs(incoming@.subrange(0, k - 1)).push(
            PdfObject::Reference(incoming@[k - 1]),
        ));
        assert(kids@ =~= prior + page_refs(incoming@.subrange(0, k as int)));
    }
    assert(incoming@.subrange(0, incoming@.len() as int) =~= incoming@);
    let count = kids.len() as i64;
    let ghost listed = kids@;
    pages.set(key("Kids"), PdfObject::Array(kids));
    pages.set(key("Count"), PdfObject::Integer(count));
    proof {
        lemma_tree_keys();
        lemma_target_stored(before, root_id);
        lemma_dict_of_target(before, root_id);
        lemma_dict_of_after_replace(before, root_id, target, pages);
    }
    put_object(doc, target, PdfObject::Dictionary(pages));
    let ghost written = document_objects(*doc);
    assert(lists_appended(dict_of(written, root_id), prior, incoming@));
    lopdf_prune(doc);
    Ok(())
}

/// The pages `indices` names, each once, in ascending order.
pub open spec fn named_pages(indices: Seq<usize>, n: nat) -> Seq<usize>
    decreases n,
{
    if n == 0 {
        Seq::empty()
    } else {
        let below = named_pages(indices, (n - 1) as nat);
        if indices.contains((n - 1) as usize) {
            below.push((n - 1) as usize)
        } else {
            below
        }
    }
}

/// The 1-based numbers of the pages below `n` that `indices` does not name.
pub open spec fn unnamed_page_numbers(indices: Seq<usize>, n: nat) -> Seq<u32>
    decreases n,
{
    if n == 0 {
        Seq::empty()
    } else {
        let below = unnamed_page_numbers(indices, (n - 1) as nat);
        if indices.contains((n - 1) as usize) {
            below
        } else {
            below.push(n as u32)
        }
    }
}

/// `doc` writes out to bytes that read back in as a document.
pub open spec fn reloads(doc: lopdf::Document) -> bool {
    pdf_bytes(doc) matches Some(bytes) && parsed_pdf(bytes) is Some
}

/// The pages of the copy of `doc` read back from its bytes that `indices`
/// names, in that order.
pub open spec fn chosen_pages(copy: (Map<ObjectId, PdfObject>, PdfDict), indices: Seq<usize>) -> Seq<ObjectId> {
    Seq::new(indices.len(), |k: int| page_tree(copy.0, copy.1)[indices[k] as int])
}

/// The copy of `doc` read back from its bytes: its objects and trailer.
pub open spec fn reloaded(doc: lopdf::Document) -> (Map<ObjectId, PdfObject>, PdfDict) {
    let parsed = parsed_pdf(pdf_bytes(doc)->0)->0;
    (parsed.0, parsed.1)
}

/// The copy once the pages `indices` does not name are deleted from it.
pub open spec fn trimmed(doc: lopdf::Document, indices: Seq<usize>) -> (Map<ObjectId, PdfObject>, PdfDict) {
    let copy = reloaded(doc);
    let unwanted = unnamed_page_numbers(indices, page_count_of(doc));
    if unwanted.len() > 0 {
        pages_removed(copy.0, copy.1, unwanted)
    } else {
        copy
    }
}

/// What extracting `indices` from `doc` needs once the indices are valid: the
/// document reads back with as many pages, the copy's page tree can be walked
/// to delete the pages not wanted, and afterwards the wanted pages and the
/// tree's root are found as dictionaries.
pub open spec fn extractable(doc: lopdf::Document, indices: Seq<usize>) -> bool {
    let copy = reloaded(doc);
    let unwanted = unnamed_page_numbers(indices, page_count_of(doc));
    let after = trimmed(doc, indices);
    &&& reloads(doc)
    &&& page_tree(copy.0, copy.1).len() == page_count_of(doc)
    &&& (unwanted.len() > 0 ==> deletion_safe(copy.0, copy.1, unwanted))
    &&& relistable(after.0, after.1, chosen_pages(copy, indices))
}

/// `extract` holds the pages `indices` names of the copy of `doc` read back
/// from its bytes, in that order: it is what pruning leaves of a state whose
/// page-tree root lists exactly those pages and counts them.
pub open spec fn extracted(doc: lopdf::Document, indices: Seq<usize>, extract: lopdf::Document) -> bool {
    let copy = reloaded(doc);
    &&& reloads(doc)
    &&& page_tree(copy.0, copy.1).len() == page_count_of(doc)
    &&& document_trailer(extract) == trimmed(doc, indices).1
    &&& exists|written: Map<ObjectId, PdfObject>|
        #![trigger pruned_objects(written, document_trailer(extract))]
        document_objects(extract) == pruned_objects(written, document_trailer(extract)) && (pages_root(
            written,
            document_trailer(extract),
        ) matches Some(root) && lists_pages(
            dict_of(written, root),
            page_refs(chosen_pages(copy, indices)),
            indices.len() as int,
        ))
}

/// Produces a new document containing only `indices`, in the order given.
///
/// The copy goes through bytes so that it owns an independent object graph;
/// the pages not wanted are then deleted, and the page tree made to list the
/// wanted ones in the order asked for.
pub fn extract_pages(doc: &lopdf::Document, indices: &[usize]) -> (r: AppResult<lopdf::Document>)
    ensures
        indices@.len() == 0 ==> invalid_input(r, "Select at least one page to extract."@),
        indices@.len() > 0 ==> match first_out_of_range(indices@, page_count_of(*doc)) {
            Some(bad) => r matches Err(AppError::PageOutOfRange(index)) && index == bad,
            None => {
                let named = named_pages(indices@, page_count_of(*doc));
                if named.len() != indices@.len() {
                    // A page named twice.
                    invalid_input(r, length_message(named.len(), indices@.len()))
                } else {
                    &&& extractable(*doc, indices@) ==> r is Ok
                    &&& r matches Ok(extract) ==> extracted(*doc, indices@, extract)
                }
            },
        },
{
    if indices.len() == 0 {
        return Err(AppError::InvalidInput(String::from_str("Select at least one page to extract.")));
    }
    let total = page_count(doc);
    if let Some(bad) = first_bad_index(indices, total) {
        return Err(AppError::PageOutOfRange(bad));
    }

    let keep = named_positions(indices, total);
    let mut drop_list: Vec<u32> = Vec::new();
    let mut sorted: Vec<usize> = Vec::new();
    let mut i: usize = 0;
    while i < total
        invariant
            i <= total,
            keep@.len() == total,
            forall|j: int| 0 <= j < total ==> keep@[j] == indices@.contains(j as usize),
            drop_list@ == unnamed_page_numbers(indices@, i as nat),
            sorted@ == named_pages(indices@, i as nat),
            sorted@.len() <= i,
            forall|j: int| 0 <= j < sorted@.len() ==> sorted@[j] < i,
        decreases total - i,
    {
        if keep[i] {
            sorted.push(i);
        } else {
            drop_list.push((i + 1) as u32);
        }
        i = i + 1;
    }
    if sorted.len() != indices.len() {
        // A page named twice: the deleted copy would hold fewer pages than
        // the order asks for.
        let mut message = String::from_str("Expected an order for all ");
        message.append(decimal_text(sorted.len() as u64).as_str());
        message.append(" pages, got ");
        message.append(decimal_text(indices.len() as u64).as_str());
        message.append(".");
        return Err(AppError::InvalidInput(message));
    }

    let mut source = copy_document(doc);
    let buffer = match serialize(&mut source) {
        Ok(buffer) => buffer,
        Err(error) => return Err(AppError::Io(error)),
    };
    let mut copy = match load(buffer.as_slice()) {
        Ok(copy) => copy,
        Err(error) => return Err(AppError::Pdf(error)),
    };
    let ghost copied = (document_objects(copy), document_trailer(copy));
    assert(copied == reloaded(*doc));

    // The copy's pages, before any is deleted; the wanted ones in order.
    let pages = page_ids(&copy);
    if pages.len() != total {
        return Err(AppError::InvalidInput(String::from_str("The document did not read back as it was written.")));
    }
    let mut chosen: Vec<ObjectId> = Vec::new();
    let mut k: usize = 0;
    while k < indices.len()
        invariant
            k <= indices@.len(),
            pages@.len() == total,
            first_out_of_range(indices@, total as nat) is None,
            chosen@.len() == k,
            forall|j: int| 0 <= j < k ==> #[trigger] chosen@[j] == pages@[indices@[j] as int],
        decreases indices@.len() - k,
    {
        proof {
            lemma_all_in_range(indices@, total as nat);
        }
        chosen.push(pages[indices[k]]);
        k = k + 1;
    }
    assert(chosen@ =~= chosen_pages(copied, indices@));

    if drop_list.len() > 0 {
        if !can_delete_pages(&copy, drop_list.as_slice()) {
            return Err(AppError::InvalidInput(String::from_str("The document's page tree is malformed.")));
        }
        lopdf_delete_pages(&mut copy, drop_list.as_slice());
    }
    assert((document_objects(copy), document_trailer(copy)) == trimmed(*doc, indices@));
    relist_pages(&mut copy, chosen.as_slice())?;
    let ghost written = document_objects(copy);
    lopdf_prune(&mut copy);
    assert(document_objects(copy) == pruned_objects(written, document_trailer(copy)));
    Ok(copy)
}



/// Every object the document stores is numbered at most its highest object
/// number, as `lopdf` keeps it for the documents it builds, so the number
/// `add_object` takes next names nothing yet.
pub open spec fn ids_bounded(objects: Map<ObjectId, PdfObject>, max_id: u32) -> bool {
    forall|id: ObjectId| #[trigger] objects.contains_key(id) ==> id.0 <= max_id
}

/// Each `dict_target` that finds a dictionary in `before` still finds one in
/// `after`, at the same place.
pub open spec fn chains_kept(before: Map<ObjectId, PdfObject>, after: Map<ObjectId, PdfObject>) -> bool {
    forall|id: ObjectId| #[trigger] dict_target(before, id) is Some ==> dict_target(after, id) is Some
        && found_at(dict_target(after, id)) == found_at(dict_target(before, id))
}

/// Where a dictionary lookup ended.
pub open spec fn found_at(found: Option<(ObjectId, PdfDict)>) -> ObjectId {
    match found {
        Some((at, _)) => at,
        None => (0u32, 0u16),
    }
}

/// Following references from `id` (already `count` steps in) through a chain
/// that ends at a dictionary ends at the same place once some dictionary is
/// replaced by another; what is found there is the replacement if the chain
/// ends at the replaced one.
proof fn lemma_chain_after_replace(
    objects: Map<ObjectId, PdfObject>,
    id: ObjectId,
    count: nat,
    target: ObjectId,
    replacement: PdfDict,
)
    requires
        objects.contains_key(id),
        objects.contains_key(target),
        objects[target] is Dictionary,
        deref_from(objects, objects[id], Some(id), count) matches Some((_, found)) && found is Dictionary,
    ensures
        ({
            let updated = objects.insert(target, PdfObject::Dictionary(replacement));
            match deref_from(objects, objects[id], Some(id), count) {
                Some((reached, found)) => deref_from(updated, updated[id], Some(id), count) == Some(
                    (reached, if reached == Some(target) { PdfObject::Dictionary(replacement) } else { found }),
                ),
                None => false,
            }
        }),
    decreases DEREF_LIMIT - count,
{
    let updated = objects.insert(target, PdfObject::Dictionary(replacement));
    if id == target {
        assert(updated[id] == PdfObject::Dictionary(replacement));
    } else {
        assert(updated[id] == objects[id]);
        if let PdfObject::Reference(next) = objects[id] {
            assert(objects.contains_key(next) && count + 1 <= DEREF_LIMIT);
            lemma_chain_after_replace(objects, next, count + 1, target, replacement);
            assert(updated.contains_key(next));
        }
    }
}

/// Replacing a dictionary by another leaves every `dict_target` that found a
/// dictionary pointing at the same place; the one that found the replaced
/// dictionary now finds the replacement.
pub proof fn lemma_dict_target_after_replace(
    objects: Map<ObjectId, PdfObject>,
    id: ObjectId,
    target: ObjectId,
    replacement: PdfDict,
)
    requires
        objects.contains_key(target),
        objects[target] is Dictionary,
        dict_target(objects, id) is Some,
    ensures
        ({
            let updated = objects.insert(target, PdfObject::Dictionary(replacement));
            match dict_target(objects, id) {
                Some((at, dict)) => dict_target(updated, id) == Some(
                    (at, if at == target { replacement } else { dict }),
                ),
                None => false,
            }
        }),
{
    let updated = objects.insert(target, PdfObject::Dictionary(replacement));
    assert(updated.contains_key(id));
    match objects[id] {
        PdfObject::Reference(next) => {
            assert(objects.contains_key(next));
            lemma_chain_after_replace(objects, next, 1, target, replacement);
            lemma_deref_lands(objects, objects[next], Some(next), 1);
            if id == target {
            } else {
                assert(updated[id] == objects[id]);
            }
        },
        _ => {
            if id == target {
                assert(updated[id] == PdfObject::Dictionary(replacement));
            } else {
                assert(updated[id] == objects[id]);
            }
        },
    }
}

/// `dict_of` after the same replacement.
pub proof fn lemma_dict_of_after_replace(
    objects: Map<ObjectId, PdfObject>,
    id: ObjectId,
    target: ObjectId,
    replacement: PdfDict,
)
    requires
        objects.contains_key(target),
        objects[target] is Dictionary,
        dict_of(objects, id) is Some,
    ensures
        ({
            let updated = objects.insert(target, PdfObject::Dictionary(replacement));
            match dict_target(objects, id) {
                Some((at, dict)) => dict_of(updated, id) == Some(if at == target { replacement } else { dict }),
                None => false,
            }
        }),
{
    lemma_dict_of_target(objects, id);
    lemma_dict_target_after_replace(objects, id, target, replacement);
    lemma_dict_of_target(objects.insert(target, PdfObject::Dictionary(replacement)), id);
}

/// Following references through a chain that succeeds is unchanged once an
/// object is stored under an id the document did not use.
proof fn lemma_chain_after_fresh(
    objects: Map<ObjectId, PdfObject>,
    id: ObjectId,
    count: nat,
    fresh: ObjectId,
    value: PdfObject,
)
    requires
        objects.contains_key(id),
        !objects.contains_key(fresh),
        deref_from(objects, objects[id], Some(id), count) is Some,
    ensures
        ({
            let updated = objects.insert(fresh, value);
            deref_from(updated, updated[id], Some(id), count) == deref_from(objects, objects[id], Some(id), count)
        }),
    decreases DEREF_LIMIT - count,
{
    let updated = objects.insert(fresh, value);
    assert(updated[id] == objects[id]);
    if let PdfObject::Reference(next) = objects[id] {
        assert(objects.contains_key(next) && count + 1 <= DEREF_LIMIT);
        lemma_chain_after_fresh(objects, next, count + 1, fresh, value);
        assert(updated.contains_key(next));
    }
}

/// `dict_target` and `dict_of` are unchanged where they succeed once an object
/// is stored under an unused id.
pub proof fn lemma_dict_target_after_fresh(
    objects: Map<ObjectId, PdfObject>,
    id: ObjectId,
    fresh: ObjectId,
    value: PdfObject,
)
    requires
        !objects.contains_key(fresh),
        dict_target(objects, id) is Some,
    ensures
        dict_target(objects.insert(fresh, value), id) == dict_target(objects, id),
        dict_of(objects.insert(fresh, value), id) == dict_of(objects, id),
{
    let updated = objects.insert(fresh, value);
    lemma_dict_of_target(objects, id);
    assert(updated[id] == objects[id]);
    if let PdfObject::Reference(next) = objects[id] {
        assert(objects.contains_key(next));
        lemma_chain_after_fresh(objects, next, 1, fresh, value);
        assert(updated.contains_key(next));
    }
}

/// Lookups kept across two steps are kept across both.
pub proof fn lemma_chains_kept_trans(
    a: Map<ObjectId, PdfObject>,
    b: Map<ObjectId, PdfObject>,
    c: Map<ObjectId, PdfObject>,
)
    requires
        chains_kept(a, b),
        chains_kept(b, c),
    ensures
        chains_kept(a, c),
{
    assert forall|id: ObjectId| #[trigger] dict_target(a, id) is Some implies dict_target(c, id) is Some
        && found_at(dict_target(c, id)) == found_at(dict_target(a, id)) by {
        assert(dict_target(b, id) is Some);
    }
}

/// Adding an object under the next number keeps the numbering bounded and
/// every dictionary lookup.
pub proof fn lemma_add_keeps(objects: Map<ObjectId, PdfObject>, max_id: u32, value: PdfObject)
    requires
        ids_bounded(objects, max_id),
        max_id < u32::MAX,
    ensures
        ids_bounded(objects.insert(((max_id + 1) as u32, 0u16), value), (max_id + 1) as u32),
        chains_kept(objects, objects.insert(((max_id + 1) as u32, 0u16), value)),
        !objects.contains_key(((max_id + 1) as u32, 0u16)),
{
    lemma_fresh_keeps_chains(objects, ((max_id + 1) as u32, 0u16), value);
}

/// Storing an object under an unused id keeps every dictionary lookup.
pub proof fn lemma_fresh_keeps_chains(objects: Map<ObjectId, PdfObject>, fresh: ObjectId, value: PdfObject)
    requires
        !objects.contains_key(fresh),
    ensures
        chains_kept(objects, objects.insert(fresh, value)),
{
    assert forall|id: ObjectId| #[trigger] dict_target(objects, id) is Some implies dict_target(
        objects.insert(fresh, value),
        id,
    ) is Some && found_at(dict_target(objects.insert(fresh, value), id)) == found_at(dict_target(objects, id)) by {
        lemma_dict_target_after_fresh(objects, id, fresh, value);
    }
}

/// Replacing a dictionary by another keeps every dictionary lookup.
pub proof fn lemma_replace_keeps_chains(objects: Map<ObjectId, PdfObject>, target: ObjectId, replacement: PdfDict)
    requires
        objects.contains_key(target),
        objects[target] is Dictionary,
    ensures
        chains_kept(objects, objects.insert(target, PdfObject::Dictionary(replacement))),
{
    assert forall|id: ObjectId| #[trigger] dict_target(objects, id) is Some implies dict_target(
        objects.insert(target, PdfObject::Dictionary(replacement)),
        id,
    ) is Some && found_at(dict_target(objects.insert(target, PdfObject::Dictionary(replacement)), id))
        == found_at(dict_target(objects, id)) by {
        lemma_dict_target_after_replace(objects, id, target, replacement);
    }
}

/// A number object: an integer or a real.
pub open spec fn is_number(object: PdfObject) -> bool {
    object is Integer || object is Real
}

/// The page's effective `/MediaBox`: inherited through `/Parent`, references
/// followed, as its four number objects in file order. `None` where there is
/// none, or where it is not an array of four numbers.
pub open spec fn spec_media_box(objects: Map<ObjectId, PdfObject>, page_id: ObjectId) -> Option<
    Seq<PdfObject>,
> {
    match inherited_from(objects, page_id, "MediaBox".spec_bytes(), MAX_TREE_DEPTH as nat) {
        Some(object) => match resolved(objects, object) {
            PdfObject::Array(items) => if items@.len() == 4 && forall|i: int|
                0 <= i < 4 ==> is_number(#[trigger] resolved(objects, items@[i])) {
                Some(Seq::new(4, |i: int| resolved(objects, items@[i])))
            } else {
                None
            },
            _ => None,
        },
        None => None,
    }
}

/// The page's effective `/MediaBox` as its four number objects, or `None`
/// (the caller then assumes US Letter).
pub fn media_box(doc: &lopdf::Document, page_id: ObjectId) -> (r: Option<Vec<PdfObject>>)
    ensures
        match r {
            Some(corners) => spec_media_box(document_objects(*doc), page_id) == Some(corners@),
            None => spec_media_box(document_objects(*doc), page_id) is None,
        },
{
    let ghost objects = document_objects(*doc);
    let object = match inherited(doc, page_id, "MediaBox".as_bytes()) {
        Some(object) => object,
        None => return None,
    };
    let ghost found = object;
    let items = match resolve(doc, object) {
        PdfObject::Array(items) => items,
        _ => return None,
    };
    if items.len() != 4 {
        return None;
    }
    let ghost all = items@;
    let mut rest = items;
    let mut corners: Vec<PdfObject> = Vec::new();
    let mut k: usize = 0;
    while k < 4
        invariant
            k <= 4,
            all.len() == 4,
            rest@ == all.subrange(k as int, 4),
            objects == document_objects(*doc),
            inherited_from(objects, page_id, "MediaBox".spec_bytes(), MAX_TREE_DEPTH as nat) == Some(found),
            resolved(objects, found) matches PdfObject::Array(listed) && listed@ == all,
            corners@ == Seq::new(k as nat, |i: int| resolved(objects, all[i])),
            forall|i: int| 0 <= i < k ==> is_number(#[trigger] resolved(objects, all[i])),
        decreases 4 - k,
    {
        let entry = rest.remove(0);
        assert(entry == all[k as int]);
        let value = resolve(doc, entry);
        match value {
            PdfObject::Integer(n) => corners.push(PdfObject::Integer(n)),
            PdfObject::Real(number) => corners.push(PdfObject::Real(number)),
            _ => {
                assert(!is_number(resolved(objects, all[k as int])));
                return None;
            },
        }
        assert(corners@ =~= Seq::new((k + 1) as nat, |i: int| resolved(objects, all[i])));
        assert(rest@ =~= all.subrange(k + 1, 4));
        k = k + 1;
    }
    Some(corners)
}

/// What the page strip shows of one page. The size in points is computed
/// from `media_box` by the caller; a quarter turn swaps width and height.
pub struct PageInfo {
    /// 0-based index in the current page order.
    pub index: usize,
    /// The effective MediaBox's four numbers; `None` means US Letter.
    pub media_box: Option<Vec<PdfObject>>,
    /// Clockwise rotation in degrees: 0, 90, 180, or 270.
    pub rotation: i64,
    /// Whether this page carries any form-field widgets.
    pub has_form_fields: bool,
}

/// What the tab bar and page strip show of one open document.
pub struct DocumentInfo {
    /// Identifies the tab; also namespaces its page-image URLs.
    pub id: u64,
    pub name: String,
    pub path: Option<String>,
    pub page_count: usize,
    pub dirty: bool,
    pub revision: u64,
    pub pdf_version: String,
    pub has_acro_form: bool,
    pub pages: Vec<PageInfo>,
}

/// `info` describes page `index` of `doc`.
pub open spec fn describes_page(doc: lopdf::Document, index: int, info: PageInfo) -> bool {
    let objects = document_objects(doc);
    let page = page_at(doc, index);
    &&& info.index == index
    &&& match info.media_box {
        Some(corners) => spec_media_box(objects, page) == Some(corners@),
        None => spec_media_box(objects, page) is None,
    }
    &&& info.rotation == page_rotation(objects, page)
    &&& info.has_form_fields == has_widgets(objects, page)
}

/// Summarizes a document for the UI: the caller's own bookkeeping as given,
/// and for each page, in order, its box, rotation and whether it has fields.
pub fn describe(
    doc: &lopdf::Document,
    id: u64,
    name: String,
    path: Option<String>,
    dirty: bool,
    revision: u64,
) -> (r: DocumentInfo)
    ensures
        r.id == id,
        r.name == name,
        r.path == path,
        r.dirty == dirty,
        r.revision == revision,
        r.page_count == page_count_of(*doc),
        r.pdf_version@ == document_version(*doc),
        r.has_acro_form == spec_has_acro_form(document_objects(*doc), document_trailer(*doc)),
        r.pages@.len() == page_count_of(*doc),
        forall|i: int| 0 <= i < r.pages@.len() ==> describes_page(*doc, i, #[trigger] r.pages@[i]),
{
    let ids = page_ids(doc);
    let mut pages: Vec<PageInfo> = Vec::new();
    let mut index: usize = 0;
    while index < ids.len()
        invariant
            index <= ids@.len(),
            ids@ == page_tree(document_objects(*doc), document_trailer(*doc)),
            pages@.len() == index,
            forall|i: int| 0 <= i < index ==> describes_page(*doc, i, #[trigger] pages@[i]),
        decreases ids@.len() - index,
    {
        let page = ids[index];
        let info = PageInfo {
            index,
            media_box: media_box(doc, page),
            rotation: rotation(doc, page),
            has_form_fields: page_has_widgets(doc, page),
        };
        pages.push(info);
        index = index + 1;
    }
    DocumentInfo {
        id,
        name,
        path,
        page_count: ids.len(),
        dirty,
        revision,
        pdf_version: version_of(doc),
        has_acro_form: has_acro_form(doc),
        pages,
    }
}

} // verus!
