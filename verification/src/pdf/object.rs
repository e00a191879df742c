//! The PDF object model the library reasons about.
//!
//! It mirrors `lopdf::Object` value for value, with one difference: a real
//! number is held as the decimal text a PDF file writes for it. The library
//! never does arithmetic on reals; it only carries them from one dictionary
//! to another, so their text is all it needs.

use vstd::prelude::*;

verus! {

/// `lopdf`'s object, as it stands in the documents `lopdf` loads and writes.
#[verifier::external_type_specification]
#[verifier::external_body]
pub struct ExObject(lopdf::Object);

/// `lopdf`'s dictionary.
#[verifier::external_type_specification]
#[verifier::external_body]
pub struct ExDictionary(lopdf::Dictionary);

/// `lopdf`'s stream object.
#[verifier::external_type_specification]
#[verifier::external_body]
pub struct ExStream(lopdf::Stream);

/// How `lopdf` writes a string object.
#[verifier::external_type_specification]
#[verifier::external_body]
pub struct ExStringFormat(lopdf::StringFormat);

/// An indirect object's number and generation.
pub type ObjectId = (u32, u16);

/// How a string object is written in the file.
pub enum TextFormat {
    Literal,
    Hexadecimal,
}

/// A PDF object.
pub enum PdfObject {
    Null,
    Boolean(bool),
    Integer(i64),
    /// A real number, as the decimal text a PDF file writes for it.
    Real(RealText),
    Name(Vec<u8>),
    /// A string object: its bytes and how it is written.
    Text(Vec<u8>, TextFormat),
    Array(Vec<PdfObject>),
    Dictionary(PdfDict),
    Stream(PdfStream),
    Reference(ObjectId),
}

/// A real number's decimal text, exactly as `f32`'s `Display` writes it.
///
/// Only the conversion from `lopdf` builds one, which is what keeps the text
/// canonical: turning it back into a number and writing it again gives the
/// same text.
pub struct RealText {
    text: String,
}

impl RealText {
    /// The decimal text.
    pub closed spec fn spec_text(&self) -> Seq<char> {
        self.text@
    }

    /// A copy of this real.
    pub fn copy(&self) -> (r: RealText)
        ensures
            r.spec_text() == self.spec_text(),
    {
        RealText { text: self.text.clone() }
    }

    /// A copy of the decimal text.
    pub fn text(&self) -> (r: String)
        ensures
            r@ == self.spec_text(),
    {
        self.text.clone()
    }
}

/// A dictionary: its entries in insertion order.
pub struct PdfDict {
    pub entries: Vec<(Vec<u8>, PdfObject)>,
}

/// A stream object: its dictionary and its (possibly encoded) bytes.
pub struct PdfStream {
    pub dict: PdfDict,
    pub content: Vec<u8>,
    pub allows_compression: bool,
    pub start_position: Option<usize>,
}

/// A dictionary's entries as values: each key by its bytes.
pub open spec fn keyed(entries: Seq<(Vec<u8>, PdfObject)>) -> Seq<(Seq<u8>, PdfObject)> {
    entries.map_values(|entry: (Vec<u8>, PdfObject)| (entry.0@, entry.1))
}

impl View for PdfDict {
    type V = Seq<(Seq<u8>, PdfObject)>;

    open spec fn view(&self) -> Seq<(Seq<u8>, PdfObject)> {
        keyed(self.entries@)
    }
}

/// The position of the first entry whose key is `key`.
pub open spec fn key_index(entries: Seq<(Seq<u8>, PdfObject)>, key: Seq<u8>) -> Option<int>
    decreases entries.len(),
{
    if entries.len() == 0 {
        None
    } else if entries[0].0 == key {
        Some(0)
    } else {
        match key_index(entries.subrange(1, entries.len() as int), key) {
            Some(i) => Some(i + 1),
            None => None,
        }
    }
}

pub proof fn lemma_key_index(entries: Seq<(Seq<u8>, PdfObject)>, key: Seq<u8>)
    ensures
        match key_index(entries, key) {
            Some(i) => 0 <= i < entries.len() && entries[i].0 == key && forall|j: int|
                0 <= j < i ==> entries[j].0 != key,
            None => forall|j: int| 0 <= j < entries.len() ==> entries[j].0 != key,
        },
    decreases entries.len(),
{
    if entries.len() > 0 && entries[0].0 != key {
        let rest = entries.subrange(1, entries.len() as int);
        lemma_key_index(rest, key);
        assert forall|j: int| 1 <= j < entries.len() implies entries[j] == rest[j - 1] by {}
    }
}

/// The value stored under `key`.
pub open spec fn entry_value(entries: Seq<(Seq<u8>, PdfObject)>, key: Seq<u8>) -> Option<PdfObject> {
    match key_index(entries, key) {
        Some(i) => Some(entries[i].1),
        None => None,
    }
}

/// The entries after `lopdf::Dictionary::set(key, value)`, which is
/// `IndexMap::insert`: a present key keeps its place and takes the new value,
/// a new key goes last.
pub open spec fn set_entry(entries: Seq<(Seq<u8>, PdfObject)>, key: Seq<u8>, value: PdfObject) -> Seq<
    (Seq<u8>, PdfObject),
> {
    match key_index(entries, key) {
        Some(i) => entries.update(i, (key, value)),
        None => entries.push((key, value)),
    }
}

/// The entries after `lopdf::Dictionary::remove(key)`, which is
/// `IndexMap::swap_remove`: the last entry takes the removed one's place.
pub open spec fn remove_entry(entries: Seq<(Seq<u8>, PdfObject)>, key: Seq<u8>) -> Seq<
    (Seq<u8>, PdfObject),
> {
    match key_index(entries, key) {
        Some(i) => entries.update(i, entries.last()).drop_last(),
        None => entries,
    }
}

/// Setting a key the entries do not hold appends it.
pub proof fn lemma_set_new_key(entries: Seq<(Seq<u8>, PdfObject)>, key: Seq<u8>, value: PdfObject)
    requires
        forall|j: int| 0 <= j < entries.len() ==> entries[j].0 != key,
    ensures
        set_entry(entries, key, value) == entries.push((key, value)),
{
    lemma_key_index(entries, key);
}

/// In entries whose keys are all different, each key reads its own value.
pub proof fn lemma_lookup_distinct(entries: Seq<(Seq<u8>, PdfObject)>, i: int)
    requires
        0 <= i < entries.len(),
        forall|j: int| 0 <= j < entries.len() && j != i ==> entries[j].0 != entries[i].0,
    ensures
        entry_value(entries, entries[i].0) == Some(entries[i].1),
{
    lemma_key_index(entries, entries[i].0);
}

/// A set key reads back the value set.
pub proof fn lemma_set_entry_reads_back(
    entries: Seq<(Seq<u8>, PdfObject)>,
    key: Seq<u8>,
    value: PdfObject,
)
    ensures
        entry_value(set_entry(entries, key, value), key) == Some(value),
{
    lemma_key_index(entries, key);
    let after = set_entry(entries, key, value);
    lemma_key_index(after, key);
    match key_index(entries, key) {
        Some(i) => {
            assert(after[i].0 == key);
        },
        None => {
            assert(after[entries.len() as int].0 == key);
        },
    }
}

/// Setting one key leaves every other key's value as it was.
pub proof fn lemma_set_entry_keeps_others(
    entries: Seq<(Seq<u8>, PdfObject)>,
    key: Seq<u8>,
    value: PdfObject,
    other: Seq<u8>,
)
    requires
        other != key,
    ensures
        entry_value(set_entry(entries, key, value), other) == entry_value(entries, other),
{
    lemma_key_index(entries, key);
    lemma_key_index(entries, other);
    let after = set_entry(entries, key, value);
    lemma_key_index(after, other);
    match key_index(entries, other) {
        Some(j) => {
            assert(after[j].0 == other);
        },
        None => {
            if key_index(after, other) is Some {
                let j = key_index(after, other).unwrap();
                assert(after[j].0 == other);
            }
        },
    }
}

/// Reading a key after `set_entry`: the value just set for that key, and
/// every other key as before.
pub broadcast proof fn lemma_lookup_after_set(
    entries: Seq<(Seq<u8>, PdfObject)>,
    key: Seq<u8>,
    value: PdfObject,
    other: Seq<u8>,
)
    ensures
        #[trigger] entry_value(set_entry(entries, key, value), other) == if other == key {
            Some(value)
        } else {
            entry_value(entries, other)
        },
{
    if other == key {
        lemma_set_entry_reads_back(entries, key, value);
    } else {
        lemma_set_entry_keeps_others(entries, key, value, other);
    }
}

/// `set_entry` adds an entry exactly when the key was absent.
pub broadcast proof fn lemma_len_after_set(entries: Seq<(Seq<u8>, PdfObject)>, key: Seq<u8>, value: PdfObject)
    ensures
        #[trigger] set_entry(entries, key, value).len() == if entry_value(entries, key) is None {
            entries.len() + 1int
        } else {
            entries.len() as int
        },
{
    lemma_key_index(entries, key);
}

/// Setting a key twice is setting it once, to the second value.
pub proof fn lemma_set_twice(entries: Seq<(Seq<u8>, PdfObject)>, key: Seq<u8>, first: PdfObject, second: PdfObject)
    ensures
        set_entry(set_entry(entries, key, first), key, second) == set_entry(entries, key, second),
{
    lemma_key_index(entries, key);
    let once = set_entry(entries, key, first);
    lemma_key_index(once, key);
    match key_index(entries, key) {
        Some(i) => {
            assert(once[i].0 == key);
            assert(forall|j: int| 0 <= j < i ==> once[j] == entries[j]);
            if key_index(once, key) != Some(i) {
                let found = key_index(once, key);
                assert(found is Some);
            }
            assert(set_entry(once, key, second) =~= entries.update(i, (key, second)));
        },
        None => {
            assert(once[entries.len() as int].0 == key);
            assert(forall|j: int| 0 <= j < entries.len() ==> once[j] == entries[j]);
            assert(set_entry(once, key, second) =~= entries.push((key, second)));
        },
    }
}

/// No key occurs twice, as in the `IndexMap` a `lopdf` dictionary is.
pub open spec fn keys_distinct(entries: Seq<(Seq<u8>, PdfObject)>) -> bool {
    forall|i: int, j: int| 0 <= i < j < entries.len() ==> #[trigger] entries[i].0 != #[trigger] entries[j].0
}

/// Every dictionary in `object`, nested ones included, has distinct keys, as
/// an `lopdf` dictionary (an `IndexMap`) always has: an object `lopdf` can
/// hold without merging entries.
pub open spec fn deep_distinct(object: PdfObject) -> bool
    decreases object,
{
    match object {
        PdfObject::Array(items) => items_deep(items@),
        PdfObject::Dictionary(dict) => keys_distinct(dict@) && entries_deep(dict.entries@),
        PdfObject::Stream(stream) => keys_distinct(stream.dict@) && entries_deep(stream.dict.entries@),
        _ => true,
    }
}

/// Every item is [`deep_distinct`], checked from the last one back.
pub open spec fn items_deep(items: Seq<PdfObject>) -> bool
    decreases items,
{
    if items.len() == 0 {
        true
    } else {
        deep_distinct(items[items.len() - 1]) && items_deep(items.subrange(0, items.len() - 1))
    }
}

/// Every stored value is [`deep_distinct`], checked from the last one back.
pub open spec fn entries_deep(entries: Seq<(Vec<u8>, PdfObject)>) -> bool
    decreases entries,
{
    if entries.len() == 0 {
        true
    } else {
        deep_distinct(entries[entries.len() - 1].1) && entries_deep(entries.subrange(0, entries.len() - 1))
    }
}

/// [`items_deep`] says each item is [`deep_distinct`].
pub proof fn lemma_items_deep(items: Seq<PdfObject>)
    ensures
        items_deep(items) == forall|i: int| 0 <= i < items.len() ==> #[trigger] deep_distinct(items[i]),
    decreases items.len(),
{
    if items.len() > 0 {
        let rest = items.subrange(0, items.len() - 1);
        lemma_items_deep(rest);
        assert(items_deep(items) == (deep_distinct(items[items.len() - 1]) && items_deep(rest)));
        assert forall|i: int| 0 <= i < rest.len() implies #[trigger] rest[i] == items[i] by {}
        if forall|i: int| 0 <= i < items.len() ==> #[trigger] deep_distinct(items[i]) {
            assert forall|i: int| 0 <= i < rest.len() implies #[trigger] deep_distinct(rest[i]) by {
                assert(rest[i] == items[i]);
            }
        }
        if items_deep(items) {
            assert forall|i: int| 0 <= i < items.len() implies #[trigger] deep_distinct(items[i]) by {
                if i < items.len() - 1 {
                    assert(rest[i] == items[i]);
                }
            }
        }
    }
}

/// [`entries_deep`] says each stored value is [`deep_distinct`].
pub proof fn lemma_entries_values(entries: Seq<(Vec<u8>, PdfObject)>)
    ensures
        entries_deep(entries) == forall|i: int| 0 <= i < entries.len() ==> #[trigger] deep_distinct(entries[i].1),
    decreases entries.len(),
{
    if entries.len() > 0 {
        let rest = entries.subrange(0, entries.len() - 1);
        lemma_entries_values(rest);
        assert(entries_deep(entries) == (deep_distinct(entries[entries.len() - 1].1) && entries_deep(rest)));
        assert forall|i: int| 0 <= i < rest.len() implies #[trigger] rest[i] == entries[i] by {}
        if forall|i: int| 0 <= i < entries.len() ==> #[trigger] deep_distinct(entries[i].1) {
            assert forall|i: int| 0 <= i < rest.len() implies #[trigger] deep_distinct(rest[i].1) by {
                assert(rest[i] == entries[i]);
            }
        }
        if entries_deep(entries) {
            assert forall|i: int| 0 <= i < entries.len() implies #[trigger] deep_distinct(entries[i].1) by {
                if i < entries.len() - 1 {
                    assert(rest[i] == entries[i]);
                }
            }
        }
    }
}

/// Every value in `entries` is [`deep_distinct`].
pub open spec fn values_deep(entries: Seq<(Seq<u8>, PdfObject)>) -> bool {
    forall|i: int| 0 <= i < entries.len() ==> #[trigger] deep_distinct(entries[i].1)
}

/// A dictionary `lopdf` holds as it is: distinct keys, and values whose
/// dictionaries have distinct keys.
pub open spec fn dict_deep(dict: PdfDict) -> bool {
    keys_distinct(dict@) && values_deep(dict@)
}

/// [`dict_deep`] is [`deep_distinct`] of the dictionary.
pub broadcast proof fn lemma_dict_deep(dict: PdfDict)
    ensures
        #[trigger] deep_distinct(PdfObject::Dictionary(dict)) == dict_deep(dict),
{
    lemma_entries_deep(dict);
}

/// [`entries_deep`] of a dictionary's entries is [`values_deep`] of its view.
pub proof fn lemma_entries_deep(dict: PdfDict)
    ensures
        entries_deep(dict.entries@) == values_deep(dict@),
{
    lemma_entries_values(dict.entries@);
    assert forall|i: int| 0 <= i < dict.entries@.len() implies dict.entries@[i].1 == #[trigger] dict@[i].1 by {}
    if values_deep(dict@) {
        assert forall|i: int| 0 <= i < dict.entries@.len() implies #[trigger] deep_distinct(dict.entries@[i].1) by {
            assert(dict.entries@[i].1 == dict@[i].1);
        }
    }
    if entries_deep(dict.entries@) {
        assert forall|i: int| 0 <= i < dict@.len() implies #[trigger] deep_distinct(dict@[i].1) by {
            assert(dict@.len() == dict.entries@.len());
            assert(dict.entries@[i].1 == dict@[i].1);
            assert(deep_distinct(dict.entries@[i].1));
        }
    }
}

/// A stream is [`deep_distinct`] exactly when its dictionary is [`dict_deep`].
pub broadcast proof fn lemma_stream_deep(stream: PdfStream)
    ensures
        #[trigger] deep_distinct(PdfObject::Stream(stream)) == dict_deep(stream.dict),
{
    lemma_entries_deep(stream.dict);
}

/// An array is [`deep_distinct`] when each of its items is.
pub broadcast proof fn lemma_array_deep(items: Vec<PdfObject>)
    ensures
        #[trigger] deep_distinct(PdfObject::Array(items)) == forall|i: int|
            0 <= i < items@.len() ==> #[trigger] deep_distinct(items@[i]),
{
    lemma_items_deep(items@);
}

/// A value read out of a dictionary `lopdf` holds as it is has no repeated key
/// either.
pub broadcast proof fn lemma_lookup_deep(dict: PdfDict, key: Seq<u8>)
    requires
        dict_deep(dict),
    ensures
        #[trigger] dict.lookup(key) matches Some(value) ==> deep_distinct(value),
{
    lemma_key_index(dict@, key);
}

/// Removing a key keeps a dictionary one `lopdf` holds as it is.
pub proof fn lemma_remove_keeps_deep(entries: Seq<(Seq<u8>, PdfObject)>, key: Seq<u8>)
    requires
        keys_distinct(entries),
        values_deep(entries),
    ensures
        keys_distinct(remove_entry(entries, key)),
        values_deep(remove_entry(entries, key)),
{
    lemma_key_index(entries, key);
    if let Some(k) = key_index(entries, key) {
        let after = remove_entry(entries, key);
        let n = entries.len() - 1;
        assert forall|i: int| 0 <= i < after.len() implies after[i] == (if i == k { entries[n] } else { entries[i] }) by {}
        assert forall|a: int, b: int| 0 <= a < b < after.len() implies #[trigger] after[a].0 != #[trigger] after[b].0 by {
            if a == k {
                assert(entries[n].0 != entries[b].0);
            } else if b == k {
                assert(entries[a].0 != entries[n].0);
            } else {
                assert(entries[a].0 != entries[b].0);
            }
        }
        assert forall|i: int| 0 <= i < after.len() implies #[trigger] deep_distinct(after[i].1) by {
            if i == k {
                assert(deep_distinct(entries[n].1));
            } else {
                assert(deep_distinct(entries[i].1));
            }
        }
    }
}

/// The groups of facts about [`deep_distinct`] the library uses.
pub broadcast group group_deep {
    lemma_dict_deep,
    lemma_stream_deep,
    lemma_array_deep,
    lemma_lookup_deep,
}

/// Setting a value keeps a dictionary one `lopdf` holds as it is.
pub proof fn lemma_set_keeps_deep(entries: Seq<(Seq<u8>, PdfObject)>, key: Seq<u8>, value: PdfObject)
    requires
        keys_distinct(entries),
        values_deep(entries),
        deep_distinct(value),
    ensures
        keys_distinct(set_entry(entries, key, value)),
        values_deep(set_entry(entries, key, value)),
{
    lemma_set_keeps_distinct(entries, key, value);
    lemma_key_index(entries, key);
    let after = set_entry(entries, key, value);
    assert forall|i: int| 0 <= i < after.len() implies #[trigger] deep_distinct(after[i].1) by {
        match key_index(entries, key) {
            Some(k) => {
                if i != k {
                    assert(after[i] == entries[i]);
                }
            },
            None => {
                if i < entries.len() {
                    assert(after[i] == entries[i]);
                }
            },
        }
    }
}

/// Setting a key keeps the keys distinct.
pub proof fn lemma_set_keeps_distinct(entries: Seq<(Seq<u8>, PdfObject)>, key: Seq<u8>, value: PdfObject)
    requires
        keys_distinct(entries),
    ensures
        keys_distinct(set_entry(entries, key, value)),
{
    lemma_key_index(entries, key);
    let after = set_entry(entries, key, value);
    match key_index(entries, key) {
        Some(i) => {
            assert forall|a: int, b: int| 0 <= a < b < after.len() implies #[trigger] after[a].0 != #[trigger] after[b].0 by {
                if a == i {
                    assert(entries[b].0 != entries[i].0);
                } else if b == i {
                    assert(entries[a].0 != entries[i].0);
                } else {
                    assert(entries[a].0 != entries[b].0);
                }
            }
        },
        None => {
            assert forall|a: int, b: int| 0 <= a < b < after.len() implies #[trigger] after[a].0 != #[trigger] after[b].0 by {
                if b == entries.len() {
                    assert(after[a].0 == entries[a].0);
                } else {
                    assert(entries[a].0 != entries[b].0);
                }
            }
        },
    }
}

/// Removing a key from distinct keys leaves every other key's value.
pub proof fn lemma_remove_keeps_others(entries: Seq<(Seq<u8>, PdfObject)>, key: Seq<u8>, other: Seq<u8>)
    requires
        keys_distinct(entries),
        other != key,
    ensures
        entry_value(remove_entry(entries, key), other) == entry_value(entries, other),
{
    lemma_key_index(entries, key);
    lemma_key_index(entries, other);
    match key_index(entries, key) {
        Some(i) => {
            let after = entries.update(i, entries.last()).drop_last();
            lemma_key_index(after, other);
            let n = entries.len() - 1;
            match key_index(entries, other) {
                Some(j) => {
                    // `other` sits at `j`, or at `i` once the last entry moved there.
                    let at = if j == n { i } else { j };
                    assert(after[at].0 == other);
                    assert forall|m: int| 0 <= m < after.len() && m != at implies after[m].0 != other by {
                        if m == i {
                            assert(entries[n].0 != other || n == j);
                        } else {
                            assert(entries[m].0 != entries[j].0 || m == j);
                        }
                    }
                    match key_index(after, other) {
                        Some(found) => {
                            assert(found == at);
                        },
                        None => {
                            assert(false);
                        },
                    }
                },
                None => {
                    assert forall|m: int| 0 <= m < after.len() implies after[m].0 != other by {
                        if m == i {
                            assert(entries[n].0 != other);
                        }
                    }
                },
            }
        },
        None => {},
    }
}

/// Removing a key from distinct keys leaves no value under it.
pub proof fn lemma_remove_drops(entries: Seq<(Seq<u8>, PdfObject)>, key: Seq<u8>)
    requires
        keys_distinct(entries),
    ensures
        entry_value(remove_entry(entries, key), key) is None,
{
    lemma_key_index(entries, key);
    if let Some(i) = key_index(entries, key) {
        let after = entries.update(i, entries.last()).drop_last();
        let n = entries.len() - 1;
        assert forall|m: int| 0 <= m < after.len() implies after[m].0 != key by {
            if m == i {
                assert(entries[n].0 != entries[i].0);
            } else {
                assert(entries[m].0 != entries[i].0);
            }
        }
        lemma_key_index(after, key);
    }
}

impl PdfDict {
    /// The value stored under `key`.
    pub open spec fn lookup(self, key: Seq<u8>) -> Option<PdfObject> {
        entry_value(self@, key)
    }

    pub fn new() -> (r: PdfDict)
        ensures
            r@ == Seq::<(Seq<u8>, PdfObject)>::empty(),
            dict_deep(r),
    {
        let r = PdfDict { entries: Vec::new() };
        assert(r@ =~= Seq::<(Seq<u8>, PdfObject)>::empty());
        r
    }

    /// The position of `key`, if the dictionary holds it.
    pub fn position(&self, key: &[u8]) -> (r: Option<usize>)
        ensures
            match r {
                Some(i) => i < self@.len() && key_index(self@, key@) == Some(i as int),
                None => key_index(self@, key@) is None,
            },
    {
        let ghost all = self@;
        let mut index: usize = 0;
        assert(all.subrange(0, all.len() as int) =~= all);
        while index < self.entries.len()
            invariant
                index <= self.entries@.len(),
                all == self@,
                key_index(all, key@) == match key_index(
                    all.subrange(index as int, all.len() as int),
                    key@,
                ) {
                    Some(i) => Some(i + index),
                    None => None,
                },
            decreases self.entries@.len() - index,
        {
            let ghost rest = all.subrange(index as int, all.len() as int);
            assert(rest.subrange(1, rest.len() as int) =~= all.subrange(
                index + 1,
                all.len() as int,
            ));
            if same_bytes(self.entries[index].0.as_slice(), key) {
                return Some(index);
            }
            index = index + 1;
        }
        None
    }

    pub fn get(&self, key: &[u8]) -> (r: Option<&PdfObject>)
        ensures
            dict_deep(*self) ==> (r matches Some(value) ==> deep_distinct(*value)),
            match r {
                Some(v) => self.lookup(key@) == Some(*v),
                None => self.lookup(key@) is None,
            },
    {
        match self.position(key) {
            Some(i) => Some(&self.entries[i].1),
            None => None,
        }
    }

    pub fn has(&self, key: &[u8]) -> (r: bool)
        ensures
            r == self.lookup(key@) is Some,
    {
        self.position(key).is_some()
    }

    /// `lopdf::Dictionary::set`.
    pub fn set(&mut self, key: Vec<u8>, value: PdfObject)
        ensures
            final(self)@ == set_entry(old(self)@, key@, value),
            dict_deep(*old(self)) && deep_distinct(value) ==> dict_deep(*final(self)),
    {
        proof {
            if dict_deep(*self) && deep_distinct(value) {
                lemma_set_keeps_deep(self@, key@, value);
            }
        }
        let ghost before = self@;
        match self.position(key.as_slice()) {
            Some(i) => {
                self.entries.set(i, (key, value));
                assert(self@ =~= before.update(i as int, (key@, value)));
            },
            None => {
                self.entries.push((key, value));
                assert(self@ =~= before.push((key@, value)));
            },
        }
    }

    /// `set` for a key the dictionary does not hold yet: the entry goes last.
    pub fn set_new(&mut self, key: Vec<u8>, value: PdfObject)
        requires
            forall|j: int| 0 <= j < old(self)@.len() ==> old(self)@[j].0 != key@,
        ensures
            final(self)@ == old(self)@.push((key@, value)),
            dict_deep(*old(self)) && deep_distinct(value) ==> dict_deep(*final(self)),
    {
        proof {
            lemma_set_new_key(self@, key@, value);
        }
        self.set(key, value);
    }

    /// Takes the value stored under `key` out, leaving `Null` in its place so
    /// that the entry keeps its position for a later `set`.
    pub fn take_value(&mut self, key: &[u8]) -> (r: Option<PdfObject>)
        ensures
            dict_deep(*old(self)) ==> dict_deep(*final(self)) && (r matches Some(value) ==> deep_distinct(value)),
            r == old(self).lookup(key@),
            final(self)@.len() == old(self)@.len(),
            forall|j: int| 0 <= j < old(self)@.len() ==> #[trigger] final(self)@[j].0 == old(self)@[j].0,
            r is Some ==> final(self)@ == set_entry(old(self)@, key@, PdfObject::Null),
            r is None ==> final(self)@ == old(self)@,
    {
        match self.position(key) {
            Some(i) => {
                proof {
                    lemma_key_index(self@, key@);
                }
                let ghost before = self@;
                let entry = self.entries.remove(i);
                let (name, value) = entry;
                self.entries.insert(i, (name, PdfObject::Null));
                assert(self@ =~= before.update(i as int, (key@, PdfObject::Null)));
                proof {
                    if keys_distinct(before) && values_deep(before) {
                        lemma_set_keeps_deep(before, key@, PdfObject::Null);
                        assert(set_entry(before, key@, PdfObject::Null) == self@);
                    }
                }
                Some(value)
            },
            None => None,
        }
    }

    /// `lopdf::Dictionary::remove`.
    pub fn remove(&mut self, key: &[u8])
        ensures
            final(self)@ == remove_entry(old(self)@, key@),
            dict_deep(*old(self)) ==> dict_deep(*final(self)),
    {
        proof {
            if dict_deep(*self) {
                lemma_remove_keeps_deep(self@, key@);
            }
        }
        match self.position(key) {
            Some(i) => {
                let ghost before = self@;
                let last = self.entries.pop().unwrap();
                if i < self.entries.len() {
                    self.entries.set(i, last);
                }
                assert(self@ =~= before.update(i as int, before.last()).drop_last());
            },
            None => {},
        }
    }

    /// Takes the value stored under `key` out of the dictionary.
    pub fn into_value(self, key: &[u8]) -> (r: Option<PdfObject>)
        ensures
            r == self.lookup(key@),
            dict_deep(self) ==> (r matches Some(value) ==> deep_distinct(value)),
    {
        match self.position(key) {
            Some(i) => {
                let mut entries = self.entries;
                let entry = entries.remove(i);
                Some(entry.1)
            },
            None => None,
        }
    }
}

/// Byte-for-byte equality.
pub fn same_bytes(a: &[u8], b: &[u8]) -> (r: bool)
    ensures
        r == (a@ == b@),
{
    if a.len() != b.len() {
        return false;
    }
    let mut index: usize = 0;
    while index < a.len()
        invariant
            index <= a@.len(),
            a@.len() == b@.len(),
            forall|j: int| 0 <= j < index ==> a@[j] == b@[j],
        decreases a@.len() - index,
    {
        if a[index] != b[index] {
            return false;
        }
        index = index + 1;
    }
    assert(a@ =~= b@);
    true
}

/// A fresh copy of `bytes`.
pub fn copy_bytes(bytes: &[u8]) -> (r: Vec<u8>)
    ensures
        r@ == bytes@,
{
    let mut out: Vec<u8> = Vec::new();
    let mut index: usize = 0;
    while index < bytes.len()
        invariant
            index <= bytes@.len(),
            out@ == bytes@.subrange(0, index as int),
        decreases bytes@.len() - index,
    {
        out.push(bytes[index]);
        index = index + 1;
        assert(out@ =~= bytes@.subrange(0, index as int));
    }
    assert(bytes@.subrange(0, bytes@.len() as int) =~= bytes@);
    out
}


/// Converts an `lopdf` object into the model, one value for one. A real
/// becomes the text `Display` writes for it.
#[verifier::external_body]
pub fn object_from_lopdf(object: lopdf::Object) -> (r: PdfObject)
    ensures
        // Every `lopdf` dictionary is an `IndexMap`: no key occurs twice.
        deep_distinct(r),
{
    match object {
        lopdf::Object::Null => PdfObject::Null,
        lopdf::Object::Boolean(flag) => PdfObject::Boolean(flag),
        lopdf::Object::Integer(number) => PdfObject::Integer(number),
        lopdf::Object::Real(number) => PdfObject::Real(RealText { text: format!("{number}") }),
        lopdf::Object::Name(name) => PdfObject::Name(name),
        lopdf::Object::String(bytes, format) => PdfObject::Text(bytes, format_from_lopdf(format)),
        lopdf::Object::Array(items) => PdfObject::Array(items.into_iter().map(object_from_lopdf).collect()),
        lopdf::Object::Dictionary(dict) => PdfObject::Dictionary(dict_from_lopdf(dict)),
        lopdf::Object::Stream(stream) => PdfObject::Stream(stream_from_lopdf(stream)),
        lopdf::Object::Reference(id) => PdfObject::Reference(id),
    }
}

/// Converts a model object back into `lopdf`'s, one value for one. A real's
/// text is parsed back into the number it was written from.
#[verifier::external_body]
pub(crate) fn object_to_lopdf(object: PdfObject) -> (r: lopdf::Object) {
    match object {
        PdfObject::Null => lopdf::Object::Null,
        PdfObject::Boolean(flag) => lopdf::Object::Boolean(flag),
        PdfObject::Integer(number) => lopdf::Object::Integer(number),
        PdfObject::Real(number) => lopdf::Object::Real(number.text.parse().unwrap_or_default()),
        PdfObject::Name(name) => lopdf::Object::Name(name),
        PdfObject::Text(bytes, format) => lopdf::Object::String(bytes, format_to_lopdf(format)),
        PdfObject::Array(items) => lopdf::Object::Array(items.into_iter().map(object_to_lopdf).collect()),
        PdfObject::Dictionary(dict) => lopdf::Object::Dictionary(dict_to_lopdf(dict)),
        PdfObject::Stream(stream) => lopdf::Object::Stream(stream_to_lopdf(stream)),
        PdfObject::Reference(id) => lopdf::Object::Reference(id),
    }
}

/// `lopdf::StringFormat` into the model.
#[verifier::external_body]
fn format_from_lopdf(format: lopdf::StringFormat) -> (r: TextFormat) {
    match format {
        lopdf::StringFormat::Literal => TextFormat::Literal,
        lopdf::StringFormat::Hexadecimal => TextFormat::Hexadecimal,
    }
}

/// The model's string format into `lopdf::StringFormat`.
#[verifier::external_body]
fn format_to_lopdf(format: TextFormat) -> (r: lopdf::StringFormat) {
    match format {
        TextFormat::Literal => lopdf::StringFormat::Literal,
        TextFormat::Hexadecimal => lopdf::StringFormat::Hexadecimal,
    }
}

/// An `lopdf::Dictionary` into the model, entries in the same order.
#[verifier::external_body]
pub(crate) fn dict_from_lopdf(dict: lopdf::Dictionary) -> (r: PdfDict)
    ensures
        dict_deep(r),
{
    PdfDict { entries: dict.into_iter().map(|(key, value)| (key, object_from_lopdf(value))).collect() }
}

/// A model dictionary into an `lopdf::Dictionary`, entries in the same order.
#[verifier::external_body]
pub(crate) fn dict_to_lopdf(dict: PdfDict) -> (r: lopdf::Dictionary) {
    dict.entries.into_iter().map(|(key, value)| (key, object_to_lopdf(value))).collect()
}

/// An `lopdf::Stream` into the model, field for field.
#[verifier::external_body]
fn stream_from_lopdf(stream: lopdf::Stream) -> (r: PdfStream)
    ensures
        dict_deep(r.dict),
{
    PdfStream {
        dict: dict_from_lopdf(stream.dict),
        content: stream.content,
        allows_compression: stream.allows_compression,
        start_position: stream.start_position,
    }
}

/// A model stream into an `lopdf::Stream`, field for field.
#[verifier::external_body]
pub(crate) fn stream_to_lopdf(stream: PdfStream) -> (r: lopdf::Stream) {
    lopdf::Stream {
        dict: dict_to_lopdf(stream.dict),
        content: stream.content,
        allows_compression: stream.allows_compression,
        start_position: stream.start_position,
    }
}

} // verus!
