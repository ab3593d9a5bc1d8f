//! A collaborative editing session: the yrs document that holds the diagram, the peers'
//! updates it takes in after checking them, and the encodings it hands out.
use vstd::prelude::*;

use yrs::Array as YrsArray;
use yrs::Map as YrsMap;
use yrs::{Any, Doc, OffsetKind, Options, Out, ReadTxn, StateVector, Transact, Update};

use crate::identity::{
    check_shape_identities, has_shape, identity_fault, identity_view, provenance_fault, unique_shapes,
    ShapeIdentity,
};
use crate::model::{EditCtx, EditError, EditOrigin, EditResult, ShapeReceipt};
use crate::orders::{clean, contains_str, item_view, keys_view, lemma_repaired_clean, repaired, staying, staying_flags, stays};
use crate::remote::{page_field_name, page_field_text, shape_field_name, shape_field_text, topology_error};
use crate::shape_tree::{origin_named, ShapeOrigin};
use crate::session_ids::{client_id_is_valid, validate_client_id};
use crate::text::{owned, push_str, str_eq};

use crate::updates::{decode_state_vector_v1, state_vector_refusal};

verus! {

#[verifier::external_type_specification]
#[verifier::external_body]
pub struct ExDoc(Doc);

#[verifier::external_type_specification]
#[verifier::external_body]
pub struct ExUpdate(Update);

/// What the root map `root` of a document holds, as plain values: for each entry that is a
/// map, its fields; a field reads as its text when it is a string, and as its integer value when
/// it is a number that holds one.
pub uninterp spec fn doc_entries(doc: Doc, root: Seq<char>) -> Map<
    Seq<char>,
    Map<Seq<char>, (Option<Seq<char>>, Option<i64>)>,
>;

/// What the map-valued field `field` of each map entry of root map `root` holds: by entry, the
/// nested entries that are maps, with their fields read as in [`doc_entries`].
pub uninterp spec fn doc_nested(doc: Doc, root: Seq<char>, field: Seq<char>) -> Map<
    Seq<char>,
    Map<Seq<char>, Map<Seq<char>, (Option<Seq<char>>, Option<i64>)>>,
>;

/// The fields of root map `root` itself, read as in [`doc_entries`].
pub uninterp spec fn doc_root_fields(doc: Doc, root: Seq<char>) -> Map<
    Seq<char>,
    (Option<Seq<char>>, Option<i64>),
>;

/// The fields of root map `root` that hold binary buffers, by their bytes.
pub uninterp spec fn doc_root_buffers(doc: Doc, root: Seq<char>) -> Map<Seq<char>, Seq<u8>>;

/// What the root array `root` holds, each item read as in [`doc_entries`]; `None` where the
/// document has no such array.
pub uninterp spec fn doc_array(doc: Doc, root: Seq<char>) -> Option<Seq<(Option<Seq<char>>, Option<i64>)>>;

/// What the array-valued field `field` of map entry `key` of root map `root` holds, each item
/// read as in [`doc_entries`]; `None` where there is no such array.
pub uninterp spec fn doc_nested_array(doc: Doc, root: Seq<char>, key: Seq<char>, field: Seq<char>) -> Option<
    Seq<(Option<Seq<char>>, Option<i64>)>,
>;

pub open spec fn items_view(items: Seq<(Option<String>, Option<i64>)>) -> Seq<(Option<Seq<char>>, Option<i64>)> {
    items.map_values(|item: (Option<String>, Option<i64>)| (item_view(item.0), item.1))
}

pub open spec fn field_view(value: Option<(Option<String>, Option<i64>)>) -> Option<
    (Option<Seq<char>>, Option<i64>),
> {
    match value {
        Some((text, number)) => Some((item_view(text), number)),
        None => None,
    }
}

/// No key is listed twice.
pub open spec fn unique_keys(keys: Seq<String>) -> bool {
    forall|i: int, j: int| 0 <= i < j < keys.len() ==> #[trigger] keys[i]@ != #[trigger] keys[j]@
}

/// yrs's `Doc::with_options`: a fresh document whose client ID is `client_id` and whose text
/// offsets count UTF-16 units. The contract claims that it holds no entries.
#[verifier::external_body]
fn new_doc(client_id: u64) -> (doc: Doc)
    requires
        client_id < 0x20_0000_0000_0000u64,
    ensures
        forall|root: Seq<char>| #[trigger] doc_entries(doc, root).dom() == Set::<Seq<char>>::empty(),
        forall|root: Seq<char>, field: Seq<char>| #[trigger] doc_nested(doc, root, field).dom()
            == Set::<Seq<char>>::empty(),
{
    let mut options = Options::with_client_id(yrs::ClientID::new(client_id));
    options.offset_kind = OffsetKind::Utf16;
    Doc::with_options(options)
}

/// yrs's `encode_state_as_update_v1`, `Update::decode_v1` and `apply_update`: a new document
/// (client `client_id`, UTF-16 offsets) holding everything `doc` holds. The contract claims
/// that on success the copy reads as `doc` does. Decoding what yrs itself encoded from a
/// document meets no input its decoder panics on.
#[verifier::external_body]
fn copy_doc(doc: &Doc, client_id: u64) -> (result: Result<Doc, String>)
    requires
        client_id < 0x20_0000_0000_0000u64,
    ensures
        result matches Ok(copy) ==> (forall|root: Seq<char>| #[trigger] doc_entries(copy, root)
            == doc_entries(*doc, root)) && (forall|root: Seq<char>, field: Seq<char>|
            #[trigger] doc_nested(copy, root, field) == doc_nested(*doc, root, field)),
{
    let state = doc.transact().encode_state_as_update_v1(&StateVector::default());
    let update = <Update as yrs::updates::decoder::Decode>::decode_v1(&state).map_err(|e| e.to_string())?;
    let mut options = Options::with_client_id(yrs::ClientID::new(client_id));
    options.offset_kind = OffsetKind::Utf16;
    let copy = Doc::with_options(options);
    copy.transact_mut().apply_update(update).map_err(|e| e.to_string())?;
    Ok(copy)
}

/// yrs's `TransactionMut::apply_update` in a transaction whose origin is `origin`. Nothing is
/// stated of what the merge leaves in the document: that depends on the document's whole
/// history of changes, which the plain model read here does not hold.
#[verifier::external_body]
fn merge_update(doc: &mut Doc, update: Update, origin: &str) -> (result: Result<(), String>) {
    doc.transact_mut_with(origin).apply_update(update).map_err(|e| e.to_string())
}

/// yrs's `Map::iter` over the root map `root`: the keys of its entries that are maps, each once.
/// The contract also claims that these are the entries whose nested maps [`doc_nested`] reads.
#[verifier::external_body]
fn entry_keys(doc: &Doc, root: &str) -> (keys: Vec<String>)
    ensures
        unique_keys(keys@),
        forall|key: Seq<char>| #[trigger] keys_view(keys@).contains(key) <==> doc_entries(*doc, root@).dom().contains(key),
        forall|key: Seq<char>, field: Seq<char>| #[trigger] doc_nested(*doc, root@, field).dom().contains(key)
            <==> keys_view(keys@).contains(key),
        forall|key: Seq<char>, field: Seq<char>| #[trigger] doc_nested_array(*doc, root@, key, field) is Some
            ==> keys_view(keys@).contains(key),
{
    let txn = doc.transact();
    let mut keys = Vec::new();
    if let Some(map) = txn.get_map(root) {
        for (key, value) in map.iter(&txn) {
            if let Out::YMap(_) = value {
                keys.push(key.to_owned());
            }
        }
    }
    keys
}

/// yrs's `Map::get`: field `field` of entry `key` of root map `root`, as its text (a string)
/// or its integer value (a number that holds one).
#[verifier::external_body]
fn entry_field(doc: &Doc, root: &str, key: &str, field: &str) -> (value: Option<(Option<String>, Option<i64>)>)
    ensures
        field_view(value) == (if doc_entries(*doc, root@).dom().contains(key@) && doc_entries(
            *doc,
            root@,
        )[key@].dom().contains(field@) {
            Some(doc_entries(*doc, root@)[key@][field@])
        } else {
            None
        }),
{
    let txn = doc.transact();
    let Some(map) = txn.get_map(root) else { return None };
    let Some(Out::YMap(entry)) = map.get(&txn, key) else { return None };
    match entry.get(&txn, field)? {
        Out::Any(Any::String(text)) => Some((Some(text.to_string()), None)),
        Out::Any(Any::Number(number)) => Some((None, number.as_i64())),
        _ => Some((None, None)),
    }
}

/// yrs's `Map::iter` over the map-valued field `field` of entry `key` of root map `root`: the
/// keys of its entries that are maps, each once.
#[verifier::external_body]
fn nested_keys(doc: &Doc, root: &str, key: &str, field: &str) -> (keys: Vec<String>)
    ensures
        unique_keys(keys@),
        forall|nested: Seq<char>| #[trigger] keys_view(keys@).contains(nested) <==> (doc_nested(
            *doc,
            root@,
            field@,
        ).dom().contains(key@) && doc_nested(*doc, root@, field@)[key@].dom().contains(nested)),
{
    let txn = doc.transact();
    let mut keys = Vec::new();
    let Some(map) = txn.get_map(root) else { return keys };
    let Some(Out::YMap(entry)) = map.get(&txn, key) else { return keys };
    if let Some(Out::YMap(map)) = entry.get(&txn, field) {
        for (nested, value) in map.iter(&txn) {
            if let Out::YMap(_) = value {
                keys.push(nested.to_owned());
            }
        }
    }
    keys
}

/// yrs's `Map::get`: field `name` of nested entry `nested` of the map-valued field `field` of
/// entry `key` of root map `root`, read as in [`entry_field`].
#[verifier::external_body]
fn nested_field(doc: &Doc, root: &str, key: &str, field: &str, nested: &str, name: &str) -> (value: Option<(Option<String>, Option<i64>)>)
    ensures
        field_view(value) == (if doc_nested(*doc, root@, field@).dom().contains(key@) && doc_nested(
            *doc,
            root@,
            field@,
        )[key@].dom().contains(nested@) && doc_nested(*doc, root@, field@)[key@][nested@].dom().contains(name@) {
            Some(doc_nested(*doc, root@, field@)[key@][nested@][name@])
        } else {
            None
        }),
{
    let txn = doc.transact();
    let Some(map) = txn.get_map(root) else { return None };
    let Some(Out::YMap(entry)) = map.get(&txn, key) else { return None };
    let Some(Out::YMap(inner)) = entry.get(&txn, field) else { return None };
    let Some(Out::YMap(item)) = inner.get(&txn, nested) else { return None };
    match item.get(&txn, name)? {
        Out::Any(Any::String(text)) => Some((Some(text.to_string()), None)),
        Out::Any(Any::Number(number)) => Some((None, number.as_i64())),
        _ => Some((None, None)),
    }
}

/// yrs's `Map::get` on root map `root`: its field `field`, read as in [`entry_field`].
#[verifier::external_body]
fn root_field(doc: &Doc, root: &str, field: &str) -> (value: Option<(Option<String>, Option<i64>)>)
    ensures
        field_view(value) == (if doc_root_fields(*doc, root@).dom().contains(field@) {
            Some(doc_root_fields(*doc, root@)[field@])
        } else {
            None
        }),
{
    let txn = doc.transact();
    let Some(map) = txn.get_map(root) else { return None };
    match map.get(&txn, field)? {
        Out::Any(Any::String(text)) => Some((Some(text.to_string()), None)),
        Out::Any(Any::Number(number)) => Some((None, number.as_i64())),
        _ => Some((None, None)),
    }
}

/// yrs's `Map::get` on root map `root`: the bytes of its field `field` where that is a binary
/// buffer.
#[verifier::external_body]
fn root_buffer(doc: &Doc, root: &str, field: &str) -> (bytes: Option<Vec<u8>>)
    ensures
        match bytes {
            Some(b) => doc_root_buffers(*doc, root@).dom().contains(field@) && doc_root_buffers(*doc, root@)[field@] == b@,
            None => !doc_root_buffers(*doc, root@).dom().contains(field@),
        },
{
    let txn = doc.transact();
    let Some(map) = txn.get_map(root) else { return None };
    match map.get(&txn, field)? {
        Out::Any(Any::Buffer(bytes)) => Some(bytes.to_vec()),
        _ => None,
    }
}

/// The metadata fields a peer may not change.
pub open spec fn metadata_field_name(k: int) -> Seq<char> {
    if k == 0 {
        "fingerprint"@
    } else if k == 1 {
        "packageJson"@
    } else {
        "packageBytes"@
    }
}

fn metadata_field_text(k: usize) -> (name: &'static str)
    ensures
        name@ == metadata_field_name(k as int),
{
    if k == 0 {
        "fingerprint"
    } else if k == 1 {
        "packageJson"
    } else {
        "packageBytes"
    }
}

/// Whether `after` changes the `k`-th metadata field.
pub open spec fn metadata_changed(before: Doc, after: Doc, k: int) -> bool {
    let name = metadata_field_name(k);
    let meta = "vsdx:meta"@;
    ||| doc_root_fields(before, meta).dom().contains(name) != doc_root_fields(after, meta).dom().contains(name)
    ||| (doc_root_fields(before, meta).dom().contains(name) && doc_root_fields(before, meta)[name]
        != doc_root_fields(after, meta)[name])
    ||| doc_root_buffers(before, meta).dom().contains(name) != doc_root_buffers(after, meta).dom().contains(name)
    ||| (doc_root_buffers(before, meta).dom().contains(name) && doc_root_buffers(before, meta)[name]
        != doc_root_buffers(after, meta)[name])
}

/// The diagram's metadata (its package fingerprint, JSON and bytes) stays as it was.
pub open spec fn keeps_metadata(before: Doc, after: Doc) -> bool {
    forall|k: int| 0 <= k < 3 ==> !#[trigger] metadata_changed(before, after, k)
}

fn same_vec(x: &Vec<u8>, y: &Vec<u8>) -> (same: bool)
    ensures
        same == (x@ == y@),
{
    if x.len() != y.len() {
        return false;
    }
    let mut i: usize = 0;
    while i < x.len()
        invariant
            i <= x@.len(),
            x@.len() == y@.len(),
            forall|t: int| 0 <= t < i ==> x@[t] == y@[t],
        decreases x@.len() - i,
    {
        if x[i] != y[i] {
            assert(x@[i as int] != y@[i as int]);
            return false;
        }
        i = i + 1;
    }
    assert(x@ == y@);
    true
}

fn same_bytes(a: &Option<Vec<u8>>, b: &Option<Vec<u8>>) -> (same: bool)
    ensures
        same == (match (*a, *b) {
            (Some(x), Some(y)) => x@ == y@,
            (None, None) => true,
            _ => false,
        }),
{
    match (a, b) {
        (Some(x), Some(y)) => same_vec(x, y),
        (None, None) => true,
        _ => false,
    }
}

/// Refuses a merged document that changes the diagram's metadata, naming the first field it
/// changes.
fn check_metadata(before: &Doc, after: &Doc) -> (result: EditResult<()>)
    ensures
        result is Ok <==> keeps_metadata(*before, *after),
        result matches Err(error) ==> exists|k: int|
            0 <= k < 3 && #[trigger] metadata_changed(*before, *after, k) && (error matches EditError::InvalidState(m)
                && m@ == "remote update changes immutable diagram metadata "@ + metadata_field_name(k)),
{
    let mut k: usize = 0;
    while k < 3
        invariant
            k <= 3,
            forall|q: int| 0 <= q < k ==> !#[trigger] metadata_changed(*before, *after, q),
        decreases 3 - k,
    {
        let name = metadata_field_text(k);
        let same = same_field(root_field(before, "vsdx:meta", name), root_field(after, "vsdx:meta", name))
            && same_bytes(&root_buffer(before, "vsdx:meta", name), &root_buffer(after, "vsdx:meta", name));
        if !same {
            let mut message = owned("remote update changes immutable diagram metadata ");
            push_str(&mut message, name);
            assert(metadata_changed(*before, *after, k as int));
            return Err(EditError::InvalidState(message));
        }
        k = k + 1;
    }
    Ok(())
}

/// yrs's `Array::iter` over the root array `root`: its items, read as in [`entry_field`]. A yrs
/// array's length is a `u32`.
#[verifier::external_body]
fn array_items(doc: &Doc, root: &str) -> (items: Option<Vec<(Option<String>, Option<i64>)>>)
    ensures
        match items {
            Some(v) => doc_array(*doc, root@) == Some(items_view(v@)) && v@.len() <= u32::MAX,
            None => doc_array(*doc, root@) is None,
        },
{
    let txn = doc.transact();
    let array = txn.get_array(root)?;
    let mut items = Vec::new();
    for value in array.iter(&txn) {
        items.push(match value {
            Out::Any(Any::String(text)) => (Some(text.to_string()), None),
            Out::Any(Any::Number(number)) => (None, number.as_i64()),
            _ => (None, None),
        });
    }
    Some(items)
}

/// yrs's `Array::remove_range` and `Array::insert`, in one transaction whose origin is `origin`:
/// the item at `from` of root array `root` leaves it, and the text `item` is inserted at `to`.
/// Nothing else in the document changes.
#[verifier::external_body]
fn move_array_item(doc: &mut Doc, root: &str, from: u32, to: u32, item: &str, origin: &[u8])
    requires
        doc_array(*old(doc), root@) matches Some(items) && from < items.len() && to < items.len(),
    ensures
        doc_array(*final(doc), root@) == Some(doc_array(*old(doc), root@).unwrap().remove(from as int).insert(
            to as int,
            (Some(item@), None::<i64>),
        )),
        forall|other: Seq<char>| other != root@ ==> #[trigger] doc_array(*final(doc), other) == doc_array(*old(doc), other),
        forall|r: Seq<char>| #[trigger] doc_entries(*final(doc), r) == doc_entries(*old(doc), r),
        forall|r: Seq<char>, f: Seq<char>| #[trigger] doc_nested(*final(doc), r, f) == doc_nested(*old(doc), r, f),
        forall|r: Seq<char>| #[trigger] doc_root_fields(*final(doc), r) == doc_root_fields(*old(doc), r),
        forall|r: Seq<char>| #[trigger] doc_root_buffers(*final(doc), r) == doc_root_buffers(*old(doc), r),
        forall|r: Seq<char>, k: Seq<char>, f: Seq<char>| #[trigger] doc_nested_array(*final(doc), r, k, f) == doc_nested_array(*old(doc), r, k, f),
{
    let mut txn = doc.transact_mut_with(origin);
    let Some(array) = txn.get_array(root) else { return };
    array.remove_range(&mut txn, from, 1);
    array.insert(&mut txn, to, item);
}

/// yrs's `Array::remove_range` in a transaction whose origin is `origin`: the item at `index`
/// of root array `root` leaves it. Nothing else in the document changes.
#[verifier::external_body]
fn remove_array_item(doc: &mut Doc, root: &str, index: u32, origin: &[u8])
    requires
        doc_array(*old(doc), root@) matches Some(items) && index < items.len(),
    ensures
        doc_array(*final(doc), root@) == Some(doc_array(*old(doc), root@).unwrap().remove(index as int)),
        forall|other: Seq<char>| other != root@ ==> #[trigger] doc_array(*final(doc), other) == doc_array(*old(doc), other),
        forall|r: Seq<char>| #[trigger] doc_entries(*final(doc), r) == doc_entries(*old(doc), r),
        forall|r: Seq<char>, f: Seq<char>| #[trigger] doc_nested(*final(doc), r, f) == doc_nested(*old(doc), r, f),
        forall|r: Seq<char>| #[trigger] doc_root_fields(*final(doc), r) == doc_root_fields(*old(doc), r),
        forall|r: Seq<char>| #[trigger] doc_root_buffers(*final(doc), r) == doc_root_buffers(*old(doc), r),
        forall|r: Seq<char>, k: Seq<char>, f: Seq<char>| #[trigger] doc_nested_array(*final(doc), r, k, f) == doc_nested_array(*old(doc), r, k, f),
{
    let mut txn = doc.transact_mut_with(origin);
    let Some(array) = txn.get_array(root) else { return };
    array.remove_range(&mut txn, index, 1);
}

/// yrs's `Array::iter` over the array-valued field `field` of map entry `key` of root map
/// `root`: its items, read as in [`entry_field`]. A yrs array's length is a `u32`.
#[verifier::external_body]
fn nested_array_items(doc: &Doc, root: &str, key: &str, field: &str) -> (items: Option<Vec<(Option<String>, Option<i64>)>>)
    ensures
        match items {
            Some(v) => doc_nested_array(*doc, root@, key@, field@) == Some(items_view(v@)) && v@.len() <= u32::MAX,
            None => doc_nested_array(*doc, root@, key@, field@) is None,
        },
{
    let txn = doc.transact();
    let Some(Out::YMap(entry)) = txn.get_map(root)?.get(&txn, key) else { return None };
    let Some(Out::YArray(array)) = entry.get(&txn, field) else { return None };
    let mut items = Vec::new();
    for value in array.iter(&txn) {
        items.push(match value {
            Out::Any(Any::String(text)) => (Some(text.to_string()), None),
            Out::Any(Any::Number(number)) => (None, number.as_i64()),
            _ => (None, None),
        });
    }
    Some(items)
}

/// yrs's `Array::remove_range` in a transaction whose origin is `origin`: the item at `index`
/// of the array-valued field `field` of map entry `key` of root map `root` leaves it. Nothing
/// else in the document changes.
#[verifier::external_body]
fn remove_nested_array_item(doc: &mut Doc, root: &str, key: &str, field: &str, index: u32, origin: &[u8])
    requires
        doc_nested_array(*old(doc), root@, key@, field@) matches Some(items) && index < items.len(),
    ensures
        doc_nested_array(*final(doc), root@, key@, field@) == Some(
            doc_nested_array(*old(doc), root@, key@, field@).unwrap().remove(index as int),
        ),
        forall|r: Seq<char>, k: Seq<char>, f: Seq<char>| !(r == root@ && k == key@ && f == field@)
            ==> #[trigger] doc_nested_array(*final(doc), r, k, f) == doc_nested_array(*old(doc), r, k, f),
        forall|r: Seq<char>| #[trigger] doc_array(*final(doc), r) == doc_array(*old(doc), r),
        forall|r: Seq<char>| #[trigger] doc_entries(*final(doc), r) == doc_entries(*old(doc), r),
        forall|r: Seq<char>, f: Seq<char>| #[trigger] doc_nested(*final(doc), r, f) == doc_nested(*old(doc), r, f),
        forall|r: Seq<char>| #[trigger] doc_root_fields(*final(doc), r) == doc_root_fields(*old(doc), r),
        forall|r: Seq<char>| #[trigger] doc_root_buffers(*final(doc), r) == doc_root_buffers(*old(doc), r),
{
    let mut txn = doc.transact_mut_with(origin);
    let Some(map) = txn.get_map(root) else { return };
    let Some(Out::YMap(entry)) = map.get(&txn, key) else { return };
    let Some(Out::YArray(array)) = entry.get(&txn, field) else { return };
    array.remove_range(&mut txn, index, 1);
}

/// The session document's shapes, by shape key, with their fields.
pub open spec fn shapes_of(doc: Doc) -> Map<Seq<char>, Map<Seq<char>, (Option<Seq<char>>, Option<i64>)>> {
    doc_entries(doc, "vsdx:sheets"@)
}

/// The session document's cells, by shape key and then cell key, with their fields.
pub open spec fn cells_of(doc: Doc) -> Map<
    Seq<char>,
    Map<Seq<char>, Map<Seq<char>, (Option<Seq<char>>, Option<i64>)>>,
> {
    doc_nested(doc, "vsdx:sheets"@, "cells"@)
}

pub open spec fn text_of(value: Option<(Option<Seq<char>>, Option<i64>)>) -> Option<Seq<char>> {
    match value {
        Some(read) => read.0,
        None => None,
    }
}

pub open spec fn integer_of(value: Option<(Option<Seq<char>>, Option<i64>)>) -> Option<i64> {
    match value {
        Some(read) => read.1,
        None => None,
    }
}

/// Field `field` of shape `shape`.
pub open spec fn shape_field(doc: Doc, shape: Seq<char>, field: Seq<char>) -> Option<
    (Option<Seq<char>>, Option<i64>),
> {
    if shapes_of(doc).dom().contains(shape) && shapes_of(doc)[shape].dom().contains(field) {
        Some(shapes_of(doc)[shape][field])
    } else {
        None
    }
}

/// Whether shape `shape` has the cell `cell`.
pub open spec fn has_cell(doc: Doc, shape: Seq<char>, cell: Seq<char>) -> bool {
    cells_of(doc).dom().contains(shape) && cells_of(doc)[shape].dom().contains(cell)
}

/// Field `field` of cell `cell` of shape `shape`.
pub open spec fn cell_field(doc: Doc, shape: Seq<char>, cell: Seq<char>, field: Seq<char>) -> Option<
    (Option<Seq<char>>, Option<i64>),
> {
    if has_cell(doc, shape, cell) && cells_of(doc)[shape][cell].dom().contains(field) {
        Some(cells_of(doc)[shape][cell][field])
    } else {
        None
    }
}

/// A shape's identity: its page, its parent, its provenance and its package source ID.
pub open spec fn model_identity(doc: Doc, shape: Seq<char>) -> (
    Option<Seq<char>>,
    Option<Seq<char>>,
    Option<Seq<char>>,
    Option<i64>,
) {
    (
        text_of(shape_field(doc, shape, "pageId"@)),
        text_of(shape_field(doc, shape, "parentId"@)),
        text_of(shape_field(doc, shape, "origin"@)),
        integer_of(shape_field(doc, shape, "sourceId"@)),
    )
}

/// Every shape both documents hold keeps its identity, and every shape only `after` holds was
/// added in a session.
pub open spec fn keeps_identities(before: Doc, after: Doc) -> bool {
    &&& forall|k: Seq<char>|
        #[trigger] shapes_of(before).dom().contains(k) && shapes_of(after).dom().contains(k)
            ==> model_identity(before, k) == model_identity(after, k)
    &&& forall|k: Seq<char>|
        #[trigger] shapes_of(after).dom().contains(k) && !shapes_of(before).dom().contains(k)
            ==> text_of(shape_field(after, k, "origin"@)) == Some("added"@)
}

/// What `after` does wrong to the save baseline of cell `cell` of shape `shape`, if anything:
/// while the shape survives, the baseline may neither change nor go.
pub open spec fn baseline_fault(before: Doc, after: Doc, shape: Seq<char>, cell: Seq<char>) -> Option<
    Seq<char>,
> {
    match text_of(cell_field(before, shape, cell, "baselineFormula"@)) {
        Some(baseline) => if !shapes_of(after).dom().contains(shape) {
            None
        } else {
            match text_of(cell_field(after, shape, cell, "baselineFormula"@)) {
                Some(now) => if now == baseline {
                    None
                } else {
                    Some("remote update changes the save baseline of "@ + shape + "/"@ + cell)
                },
                None => Some(
                    "remote update removes the save baseline of "@ + shape + "/"@ + cell
                        + " while its shape survives"@,
                ),
            }
        },
        None => None,
    }
}

/// Every save baseline survives unchanged while its shape does.
pub open spec fn keeps_baselines(before: Doc, after: Doc) -> bool {
    forall|shape: Seq<char>, cell: Seq<char>| #[trigger] baseline_fault(before, after, shape, cell) is None
}

/// A cell `after` adds to a shape that came from the package holds a cached value.
pub open spec fn untrusted_value(before: Doc, after: Doc, shape: Seq<char>, cell: Seq<char>) -> bool {
    &&& has_cell(after, shape, cell)
    &&& !has_cell(before, shape, cell)
    &&& text_of(shape_field(after, shape, "origin"@)) != Some("added"@)
    &&& cell_field(after, shape, cell, "value"@) is Some
}

/// No cell `after` adds to a package shape brings a cached value.
pub open spec fn trusts_new_values(before: Doc, after: Doc) -> bool {
    forall|shape: Seq<char>, cell: Seq<char>| !#[trigger] untrusted_value(before, after, shape, cell)
}

/// What a merged document must hold for a peer's update to be taken in: a page order; the
/// earlier document's metadata, pages and their fixed fields; an added origin on every new
/// shape; the fixed fields, shape order and cells of every kept shape; every shape's identity
/// and provenance; the save baselines; and no cached value in a cell new to a package shape.
pub open spec fn admits_update(before: Doc, after: Doc) -> bool {
    &&& page_order(after) is Some
    &&& keeps_metadata(before, after)
    &&& keeps_pages(before, after)
    &&& keeps_fixed_shapes(before, after)
    &&& keeps_identities(before, after)
    &&& keeps_baselines(before, after)
    &&& trusts_new_values(before, after)
}

fn text_value(value: Option<(Option<String>, Option<i64>)>) -> (text: Option<String>)
    ensures
        item_view(text) == text_of(field_view(value)),
{
    match value {
        Some((text, _)) => text,
        None => None,
    }
}

fn integer_value(value: Option<(Option<String>, Option<i64>)>) -> (number: Option<i64>)
    ensures
        number == integer_of(field_view(value)),
{
    match value {
        Some((_, number)) => number,
        None => None,
    }
}

/// The identities of the document's shapes, each shape once.
fn read_identities(doc: &Doc) -> (records: Vec<(String, ShapeIdentity)>)
    ensures
        unique_shapes(records@),
        forall|k: Seq<char>| #[trigger] has_shape(records@, k) <==> shapes_of(*doc).dom().contains(k),
        forall|i: int|
            0 <= i < records@.len() ==> identity_view(#[trigger] records@[i].1) == model_identity(
                *doc,
                records@[i].0@,
            ),
{
    let keys = entry_keys(doc, "vsdx:sheets");
    let mut records: Vec<(String, ShapeIdentity)> = Vec::new();
    let mut i: usize = 0;
    while i < keys.len()
        invariant
            i <= keys@.len(),
            records@.len() == i,
            unique_keys(keys@),
            forall|k: Seq<char>| #[trigger] keys_view(keys@).contains(k) <==> shapes_of(*doc).dom().contains(k),
            forall|t: int| 0 <= t < i ==> #[trigger] records@[t].0@ == keys@[t]@,
            forall|t: int|
                0 <= t < i ==> identity_view(#[trigger] records@[t].1) == model_identity(
                    *doc,
                    records@[t].0@,
                ),
        decreases keys@.len() - i,
    {
        let key = keys[i].as_str();
        let identity = ShapeIdentity {
            page_id: text_value(entry_field(doc, "vsdx:sheets", key, "pageId")),
            parent_id: text_value(entry_field(doc, "vsdx:sheets", key, "parentId")),
            origin: text_value(entry_field(doc, "vsdx:sheets", key, "origin")),
            source_id: integer_value(entry_field(doc, "vsdx:sheets", key, "sourceId")),
        };
        records.push((owned(key), identity));
        i = i + 1;
    }
    proof {
        assert forall|k: Seq<char>| #[trigger] has_shape(records@, k) <==> shapes_of(*doc).dom().contains(k) by {
            assert(keys_view(keys@).len() == keys@.len());
            if has_shape(records@, k) {
                let t = choose|t: int| 0 <= t < records@.len() && #[trigger] records@[t].0@ == k;
                assert(keys_view(keys@)[t] == k);
                assert(keys_view(keys@).contains(k));
            }
            if shapes_of(*doc).dom().contains(k) {
                assert(keys_view(keys@).contains(k));
                let t = choose|t: int| 0 <= t < keys_view(keys@).len() && keys_view(keys@)[t] == k;
                assert(keys_view(keys@)[t] == keys@[t]@);
                assert(records@[t].0@ == k);
            }
        }
        assert forall|a: int, b: int| 0 <= a < b < records@.len() implies #[trigger] records@[a].0@
            != #[trigger] records@[b].0@ by {
            assert(keys@[a]@ != keys@[b]@);
        }
    }
    records
}

/// Refuses a merged document that changes a save baseline, or drops one while its shape
/// survives; the error names the first offence found.
fn check_baselines(before: &Doc, after: &Doc) -> (result: EditResult<()>)
    ensures
        result is Ok <==> keeps_baselines(*before, *after),
        result matches Err(error) ==> (error matches EditError::InvalidState(m) && exists|
            shape: Seq<char>,
            cell: Seq<char>,
        | baseline_fault(*before, *after, shape, cell) == Some(m@)),
{
    let shapes = entry_keys(before, "vsdx:sheets");
    let survivors = entry_keys(after, "vsdx:sheets");
    let mut i: usize = 0;
    while i < shapes.len()
        invariant
            i <= shapes@.len(),
            forall|k: Seq<char>, f: Seq<char>| #[trigger] doc_nested(*before, "vsdx:sheets"@, f).dom().contains(k)
                <==> keys_view(shapes@).contains(k),
            forall|k: Seq<char>| #[trigger] keys_view(survivors@).contains(k) <==> shapes_of(*after).dom().contains(k),
            forall|t: int, c: Seq<char>|
                0 <= t < i ==> #[trigger] baseline_fault(*before, *after, shapes@[t]@, c) is None,
        decreases shapes@.len() - i,
    {
        let shape = shapes[i].as_str();
        let cells = nested_keys(before, "vsdx:sheets", shape, "cells");
        let mut j: usize = 0;
        while j < cells.len()
            invariant
                i < shapes@.len(),
                shape@ == shapes@[i as int]@,
                j <= cells@.len(),
                forall|k: Seq<char>| #[trigger] keys_view(survivors@).contains(k) <==> shapes_of(*after).dom().contains(k),
                forall|c: Seq<char>| #[trigger] keys_view(cells@).contains(c) <==> has_cell(*before, shape@, c),
                forall|u: int| 0 <= u < j ==> #[trigger] baseline_fault(*before, *after, shape@, cells@[u]@) is None,
            decreases cells@.len() - j,
        {
            let cell = cells[j].as_str();
            let baseline = text_value(nested_field(before, "vsdx:sheets", shape, "cells", cell, "baselineFormula"));
            if let Some(baseline) = baseline {
                if contains_str(&survivors, shape) {
                    let now = text_value(nested_field(after, "vsdx:sheets", shape, "cells", cell, "baselineFormula"));
                    match now {
                        Some(now) => {
                            if !str_eq(now.as_str(), baseline.as_str()) {
                                let mut message = owned("remote update changes the save baseline of ");
                                push_str(&mut message, shape);
                                push_str(&mut message, "/");
                                push_str(&mut message, cell);
                                assert(text_of(cell_field(*after, shape@, cell@, "baselineFormula"@)) == Some(now@));
                                assert(text_of(cell_field(*before, shape@, cell@, "baselineFormula"@)) == Some(baseline@));
                                assert(now@ != baseline@);
                                assert(baseline_fault(*before, *after, shape@, cell@) == Some(message@));
                                return Err(EditError::InvalidState(message));
                            }
                        },
                        None => {
                            let mut message = owned("remote update removes the save baseline of ");
                            push_str(&mut message, shape);
                            push_str(&mut message, "/");
                            push_str(&mut message, cell);
                            push_str(&mut message, " while its shape survives");
                            return Err(EditError::InvalidState(message));
                        },
                    }
                }
            }
            j = j + 1;
        }
        proof {
            assert forall|c: Seq<char>| #[trigger] baseline_fault(*before, *after, shapes@[i as int]@, c) is None by {
                if has_cell(*before, shape@, c) {
                    assert(keys_view(cells@).contains(c));
                    let u = choose|u: int| 0 <= u < keys_view(cells@).len() && keys_view(cells@)[u] == c;
                    assert(keys_view(cells@)[u] == cells@[u]@);
                    assert(baseline_fault(*before, *after, shape@, cells@[u]@) is None);
                }
            }
        }
        i = i + 1;
    }
    proof {
        assert forall|shape: Seq<char>, cell: Seq<char>| #[trigger] baseline_fault(*before, *after, shape, cell) is None by {
            if cells_of(*before).dom().contains(shape) {
                assert(keys_view(shapes@).contains(shape));
                let t = choose|t: int| 0 <= t < keys_view(shapes@).len() && keys_view(shapes@)[t] == shape;
                assert(keys_view(shapes@)[t] == shapes@[t]@);
                assert(baseline_fault(*before, *after, shapes@[t]@, cell) is None);
            }
        }
    }
    Ok(())
}

/// Refuses a merged document in which a cell new to a package shape holds a cached value.
fn check_new_values(before: &Doc, after: &Doc) -> (result: EditResult<()>)
    ensures
        result is Ok <==> trusts_new_values(*before, *after),
        result is Err ==> (result matches Err(EditError::InvalidState(m)) && m@
            == "remote update adds untrusted cached cell value"@),
{
    let shapes = entry_keys(after, "vsdx:sheets");
    let mut i: usize = 0;
    while i < shapes.len()
        invariant
            i <= shapes@.len(),
            forall|k: Seq<char>, f: Seq<char>| #[trigger] doc_nested(*after, "vsdx:sheets"@, f).dom().contains(k)
                <==> keys_view(shapes@).contains(k),
            forall|t: int, c: Seq<char>|
                0 <= t < i ==> !#[trigger] untrusted_value(*before, *after, shapes@[t]@, c),
        decreases shapes@.len() - i,
    {
        let shape = shapes[i].as_str();
        let origin = text_value(entry_field(after, "vsdx:sheets", shape, "origin"));
        let session_owned = match origin {
            Some(origin) => str_eq(origin.as_str(), "added"),
            None => false,
        };
        let known = nested_keys(before, "vsdx:sheets", shape, "cells");
        let cells = nested_keys(after, "vsdx:sheets", shape, "cells");
        let mut j: usize = 0;
        while j < cells.len()
            invariant
                i < shapes@.len(),
                shape@ == shapes@[i as int]@,
                j <= cells@.len(),
                session_owned == (text_of(shape_field(*after, shape@, "origin"@)) == Some("added"@)),
                forall|c: Seq<char>| #[trigger] keys_view(known@).contains(c) <==> has_cell(*before, shape@, c),
                forall|c: Seq<char>| #[trigger] keys_view(cells@).contains(c) <==> has_cell(*after, shape@, c),
                forall|u: int| 0 <= u < j ==> !#[trigger] untrusted_value(*before, *after, shape@, cells@[u]@),
            decreases cells@.len() - j,
        {
            let cell = cells[j].as_str();
            proof {
                assert(keys_view(cells@)[j as int] == cell@);
            }
            if !session_owned && nested_field(after, "vsdx:sheets", shape, "cells", cell, "value").is_some()
                && !contains_str(&known, cell) {
                assert(untrusted_value(*before, *after, shape@, cell@));
                return Err(EditError::InvalidState(owned("remote update adds untrusted cached cell value")));
            }
            j = j + 1;
        }
        proof {
            assert forall|c: Seq<char>| !#[trigger] untrusted_value(*before, *after, shapes@[i as int]@, c) by {
                if has_cell(*after, shape@, c) {
                    assert(keys_view(cells@).contains(c));
                    let u = choose|u: int| 0 <= u < keys_view(cells@).len() && keys_view(cells@)[u] == c;
                    assert(keys_view(cells@)[u] == cells@[u]@);
                    assert(!untrusted_value(*before, *after, shape@, cells@[u]@));
                }
            }
        }
        i = i + 1;
    }
    proof {
        assert forall|shape: Seq<char>, cell: Seq<char>| !#[trigger] untrusted_value(*before, *after, shape, cell) by {
            if cells_of(*after).dom().contains(shape) {
                assert(keys_view(shapes@).contains(shape));
                let t = choose|t: int| 0 <= t < keys_view(shapes@).len() && keys_view(shapes@)[t] == shape;
                assert(keys_view(shapes@)[t] == shapes@[t]@);
                assert(!untrusted_value(*before, *after, shapes@[t]@, cell));
            }
        }
    }
    Ok(())
}

/// The session document's pages, by page key, with their fields.
pub open spec fn pages_of(doc: Doc) -> Map<Seq<char>, Map<Seq<char>, (Option<Seq<char>>, Option<i64>)>> {
    doc_entries(doc, "vsdx:pages"@)
}

/// Field `field` of page `page`.
pub open spec fn page_field(doc: Doc, page: Seq<char>, field: Seq<char>) -> Option<
    (Option<Seq<char>>, Option<i64>),
> {
    if pages_of(doc).dom().contains(page) && pages_of(doc)[page].dom().contains(field) {
        Some(pages_of(doc)[page][field])
    } else {
        None
    }
}

/// What `after` does to page `page` that a peer may not do: drop it (`(true, key)`), or change
/// its `k`-th fixed field.
pub open spec fn fixed_page_fault(before: Doc, after: Doc, page: Seq<char>, k: int) -> Option<
    (bool, Seq<char>),
> {
    if !pages_of(before).dom().contains(page) {
        None
    } else if !pages_of(after).dom().contains(page) {
        Some((true, page))
    } else if 0 <= k < 3 && page_field(before, page, page_field_name(k)) != page_field(
        after,
        page,
        page_field_name(k),
    ) {
        Some((false, "remote update changes immutable page "@ + page_field_name(k)))
    } else {
        None
    }
}

/// What is wrong with a shape only `after` holds, if anything: it must record that a session
/// added it.
pub open spec fn added_origin_fault(before: Doc, after: Doc, shape: Seq<char>) -> Option<Seq<char>> {
    if shapes_of(after).dom().contains(shape) && !shapes_of(before).dom().contains(shape) {
        match text_of(shape_field(after, shape, "origin"@)) {
            None => Some("missing origin"@),
            Some(text) => match origin_named(text) {
                None => Some("invalid shape origin"@),
                Some(ShapeOrigin::Original) => Some("remote update adds a shape with original identity"@),
                Some(ShapeOrigin::Added) => None,
            },
        }
    } else {
        None
    }
}

/// The pages stay the same pages with the same fixed fields, and every shape only `after`
/// holds records that a session added it.
pub open spec fn keeps_pages(before: Doc, after: Doc) -> bool {
    &&& forall|page: Seq<char>, k: int| #[trigger] fixed_page_fault(before, after, page, k) is None
    &&& forall|page: Seq<char>|
        #[trigger] pages_of(after).dom().contains(page) ==> pages_of(before).dom().contains(page)
    &&& forall|shape: Seq<char>| #[trigger] added_origin_fault(before, after, shape) is None
}

/// Refuses a merged document that drops, adds or rewrites a page, or holds a new shape that
/// does not record that a session added it.
fn check_pages(before: &Doc, after: &Doc) -> (result: EditResult<()>)
    ensures
        result is Ok <==> keeps_pages(*before, *after),
        result is Err ==> (result matches Err(EditError::InvalidState(_)) || result matches Err(
            EditError::PageNotFound(_),
        )),
{
    let pages = entry_keys(before, "vsdx:pages");
    let kept = entry_keys(after, "vsdx:pages");
    let mut i: usize = 0;
    while i < pages.len()
        invariant
            i <= pages@.len(),
            forall|k: Seq<char>| #[trigger] keys_view(pages@).contains(k) <==> pages_of(*before).dom().contains(k),
            forall|k: Seq<char>| #[trigger] keys_view(kept@).contains(k) <==> pages_of(*after).dom().contains(k),
            forall|t: int, k: int| 0 <= t < i ==> #[trigger] fixed_page_fault(*before, *after, pages@[t]@, k) is None,
        decreases pages@.len() - i,
    {
        let page = pages[i].as_str();
        proof {
            assert(keys_view(pages@)[i as int] == page@);
            assert(keys_view(pages@).contains(page@));
        }
        if !contains_str(&kept, page) {
            assert(fixed_page_fault(*before, *after, page@, 0) is Some);
            return Err(EditError::PageNotFound(owned(page)));
        }
        let mut k: usize = 0;
        while k < 3
            invariant
                k <= 3,
                pages_of(*before).dom().contains(page@),
                pages_of(*after).dom().contains(page@),
                forall|q: int| 0 <= q < k ==> #[trigger] fixed_page_fault(*before, *after, page@, q) is None,
            decreases 3 - k,
        {
            let name = page_field_text(k);
            if !same_field(entry_field(before, "vsdx:pages", page, name), entry_field(after, "vsdx:pages", page, name)) {
                let mut message = owned("remote update changes immutable page ");
                push_str(&mut message, name);
                assert(fixed_page_fault(*before, *after, page@, k as int) is Some);
                return Err(EditError::InvalidState(message));
            }
            k = k + 1;
        }
        proof {
            assert forall|q: int| #[trigger] fixed_page_fault(*before, *after, pages@[i as int]@, q) is None by {
                if 0 <= q < 3 {
                    assert(fixed_page_fault(*before, *after, page@, q) is None);
                }
            }
        }
        i = i + 1;
    }
    let mut i: usize = 0;
    while i < kept.len()
        invariant
            i <= kept@.len(),
            forall|k: Seq<char>| #[trigger] keys_view(pages@).contains(k) <==> pages_of(*before).dom().contains(k),
            forall|k: Seq<char>| #[trigger] keys_view(kept@).contains(k) <==> pages_of(*after).dom().contains(k),
            forall|t: int| 0 <= t < i ==> pages_of(*before).dom().contains(#[trigger] kept@[t]@),
        decreases kept@.len() - i,
    {
        let page = kept[i].as_str();
        proof {
            assert(keys_view(kept@)[i as int] == page@);
            assert(keys_view(kept@).contains(page@));
        }
        if !contains_str(&pages, page) {
            return Err(EditError::InvalidState(owned("remote update changes immutable page topology")));
        }
        i = i + 1;
    }
    let shapes = entry_keys(after, "vsdx:sheets");
    let known = entry_keys(before, "vsdx:sheets");
    let mut i: usize = 0;
    while i < shapes.len()
        invariant
            i <= shapes@.len(),
            forall|k: Seq<char>| #[trigger] keys_view(shapes@).contains(k) <==> shapes_of(*after).dom().contains(k),
            forall|k: Seq<char>| #[trigger] keys_view(known@).contains(k) <==> shapes_of(*before).dom().contains(k),
            forall|t: int| 0 <= t < i ==> #[trigger] added_origin_fault(*before, *after, shapes@[t]@) is None,
        decreases shapes@.len() - i,
    {
        let shape = shapes[i].as_str();
        proof {
            assert(keys_view(shapes@)[i as int] == shape@);
            assert(keys_view(shapes@).contains(shape@));
        }
        if !contains_str(&known, shape) {
            match text_value(entry_field(after, "vsdx:sheets", shape, "origin")) {
                None => {
                    assert(added_origin_fault(*before, *after, shape@) is Some);
                    return Err(EditError::InvalidState(owned("missing origin")));
                },
                Some(origin) => {
                    if str_eq(origin.as_str(), "original") {
                        assert(added_origin_fault(*before, *after, shape@) is Some);
                        return Err(EditError::InvalidState(owned("remote update adds a shape with original identity")));
                    } else if !str_eq(origin.as_str(), "added") {
                        return Err(EditError::InvalidState(owned("invalid shape origin")));
                    }
                },
            }
        }
        i = i + 1;
    }
    proof {
        assert forall|page: Seq<char>, k: int| #[trigger] fixed_page_fault(*before, *after, page, k) is None by {
            if pages_of(*before).dom().contains(page) {
                assert(keys_view(pages@).contains(page));
                let t = choose|t: int| 0 <= t < keys_view(pages@).len() && keys_view(pages@)[t] == page;
                assert(keys_view(pages@)[t] == pages@[t]@);
                assert(fixed_page_fault(*before, *after, pages@[t]@, k) is None);
            }
        }
        assert forall|page: Seq<char>| #[trigger] pages_of(*after).dom().contains(page)
            implies pages_of(*before).dom().contains(page) by {
            assert(keys_view(kept@).contains(page));
            let t = choose|t: int| 0 <= t < keys_view(kept@).len() && keys_view(kept@)[t] == page;
            assert(keys_view(kept@)[t] == kept@[t]@);
        }
        assert forall|shape: Seq<char>| #[trigger] added_origin_fault(*before, *after, shape) is None by {
            if shapes_of(*after).dom().contains(shape) {
                assert(keys_view(shapes@).contains(shape));
                let t = choose|t: int| 0 <= t < keys_view(shapes@).len() && keys_view(shapes@)[t] == shape;
                assert(keys_view(shapes@)[t] == shapes@[t]@);
                assert(added_origin_fault(*before, *after, shapes@[t]@) is None);
            }
        }
    }
    Ok(())
}

/// The `k`-th fixed field of a shape both documents hold, if `after` changes it.
pub open spec fn fixed_field_fault(before: Doc, after: Doc, shape: Seq<char>, k: int) -> Option<
    (bool, Seq<char>),
> {
    if 0 <= k < 9 && shape_field(before, shape, shape_field_name(k)) != shape_field(
        after,
        shape,
        shape_field_name(k),
    ) {
        Some((false, "remote update changes immutable shape "@ + shape_field_name(k)))
    } else {
        None
    }
}

/// What `after` does to cell `cell` of a shape both documents hold, if it does what a peer may
/// not: drop the cell (`(true, key)`), or change its row type, cached value or baseline formula.
pub open spec fn fixed_cell_fault(before: Doc, after: Doc, shape: Seq<char>, cell: Seq<char>) -> Option<
    (bool, Seq<char>),
> {
    if !has_cell(before, shape, cell) {
        None
    } else if !has_cell(after, shape, cell) {
        Some((true, cell))
    } else if cell_field(before, shape, cell, "rowType"@) != cell_field(after, shape, cell, "rowType"@) {
        Some((false, "remote update changes immutable geometry row type"@))
    } else if cell_field(before, shape, cell, "value"@) != cell_field(after, shape, cell, "value"@) {
        Some((false, "remote update changes untrusted cached cell value"@))
    } else if cell_field(before, shape, cell, "baselineFormula"@) != cell_field(
        after,
        shape,
        cell,
        "baselineFormula"@,
    ) {
        Some((false, "remote update changes immutable cell baseline formula"@))
    } else {
        None
    }
}

/// Whether `after` leaves a shape that had a shape order (`shapes`) without one.
pub open spec fn order_removed(before: Doc, after: Doc, shape: Seq<char>) -> bool {
    doc_nested_array(before, "vsdx:sheets"@, shape, "shapes"@) is Some && doc_nested_array(
        after,
        "vsdx:sheets"@,
        shape,
        "shapes"@,
    ) is None
}

/// Every shape both documents hold keeps its fixed fields, its shape order where it had one,
/// and every cell it had, with that cell's row type, cached value and baseline formula.
pub open spec fn keeps_fixed_shapes(before: Doc, after: Doc) -> bool {
    &&& forall|shape: Seq<char>, k: int|
        shapes_of(before).dom().contains(shape) && shapes_of(after).dom().contains(shape)
            ==> #[trigger] fixed_field_fault(before, after, shape, k) is None
    &&& forall|shape: Seq<char>|
        shapes_of(before).dom().contains(shape) && shapes_of(after).dom().contains(shape)
            ==> !#[trigger] order_removed(before, after, shape)
    &&& forall|shape: Seq<char>, cell: Seq<char>|
        shapes_of(before).dom().contains(shape) && shapes_of(after).dom().contains(shape)
            ==> #[trigger] fixed_cell_fault(before, after, shape, cell) is None
}

fn same_field(a: Option<(Option<String>, Option<i64>)>, b: Option<(Option<String>, Option<i64>)>) -> (same: bool)
    ensures
        same == (field_view(a) == field_view(b)),
{
    match (a, b) {
        (Some((ta, na)), Some((tb, nb))) => {
            let texts = match (ta, tb) {
                (Some(x), Some(y)) => str_eq(x.as_str(), y.as_str()),
                (None, None) => true,
                _ => false,
            };
            texts && na == nb
        },
        (None, None) => true,
        _ => false,
    }
}

/// Refuses a merged document that changes what a peer may not change of a shape both documents
/// hold: its fixed fields, and its cells with their row types, cached values and baseline
/// formulas. A dropped cell is named by its key.
fn check_fixed_shapes(before: &Doc, after: &Doc) -> (result: EditResult<()>)
    ensures
        result is Ok <==> keeps_fixed_shapes(*before, *after),
        result matches Err(error) ==> (exists|shape: Seq<char>, k: int|
            #[trigger] fixed_field_fault(*before, *after, shape, k) matches Some(fault) && topology_error(error, fault))
            || (exists|shape: Seq<char>| #[trigger] order_removed(*before, *after, shape) && (error matches EditError::InvalidState(m)
                && m@ == "remote update removes required shape order"@))
            || (exists|shape: Seq<char>, cell: Seq<char>|
            #[trigger] fixed_cell_fault(*before, *after, shape, cell) matches Some(fault) && topology_error(error, fault)),
{
    let shapes = entry_keys(before, "vsdx:sheets");
    let survivors = entry_keys(after, "vsdx:sheets");
    let mut i: usize = 0;
    while i < shapes.len()
        invariant
            i <= shapes@.len(),
            forall|k: Seq<char>| #[trigger] keys_view(shapes@).contains(k) <==> shapes_of(*before).dom().contains(k),
            forall|k: Seq<char>| #[trigger] keys_view(survivors@).contains(k) <==> shapes_of(*after).dom().contains(k),
            forall|t: int, k: int|
                0 <= t < i && shapes_of(*after).dom().contains(shapes@[t]@) ==> #[trigger] fixed_field_fault(*before, *after, shapes@[t]@, k) is None,
            forall|t: int|
                0 <= t < i && shapes_of(*after).dom().contains(shapes@[t]@) ==> !#[trigger] order_removed(*before, *after, shapes@[t]@),
            forall|t: int, c: Seq<char>|
                0 <= t < i && shapes_of(*after).dom().contains(shapes@[t]@) ==> #[trigger] fixed_cell_fault(*before, *after, shapes@[t]@, c) is None,
        decreases shapes@.len() - i,
    {
        let shape = shapes[i].as_str();
        proof {
            assert(keys_view(shapes@)[i as int] == shape@);
            assert(keys_view(shapes@).contains(shape@));
        }
        if contains_str(&survivors, shape) {
            assert(shapes_of(*before).dom().contains(shape@));
            assert(shapes_of(*after).dom().contains(shape@));
            let mut k: usize = 0;
            while k < 9
                invariant
                    k <= 9,
                    shapes_of(*before).dom().contains(shape@),
                    shapes_of(*after).dom().contains(shape@),
                    forall|q: int| 0 <= q < k ==> #[trigger] fixed_field_fault(*before, *after, shape@, q) is None,
                decreases 9 - k,
            {
                let name = shape_field_text(k);
                if !same_field(entry_field(before, "vsdx:sheets", shape, name), entry_field(after, "vsdx:sheets", shape, name)) {
                    let mut message = owned("remote update changes immutable shape ");
                    push_str(&mut message, name);
                    let error = EditError::InvalidState(message);
                    assert(fixed_field_fault(*before, *after, shape@, k as int) == Some((false, message@)));
                    assert(topology_error(error, (false, message@)));
                    return Err(error);
                }
                k = k + 1;
            }
            if nested_array_items(before, "vsdx:sheets", shape, "shapes").is_some()
                && nested_array_items(after, "vsdx:sheets", shape, "shapes").is_none() {
                assert(order_removed(*before, *after, shape@));
                return Err(EditError::InvalidState(owned("remote update removes required shape order")));
            }
            assert(!order_removed(*before, *after, shapes@[i as int]@));
            let cells = nested_keys(before, "vsdx:sheets", shape, "cells");
            let kept = nested_keys(after, "vsdx:sheets", shape, "cells");
            let mut j: usize = 0;
            while j < cells.len()
                invariant
                    j <= cells@.len(),
                    shapes_of(*before).dom().contains(shape@),
                    shapes_of(*after).dom().contains(shape@),
                    forall|c: Seq<char>| #[trigger] keys_view(cells@).contains(c) <==> has_cell(*before, shape@, c),
                    forall|c: Seq<char>| #[trigger] keys_view(kept@).contains(c) <==> has_cell(*after, shape@, c),
                    forall|u: int| 0 <= u < j ==> #[trigger] fixed_cell_fault(*before, *after, shape@, cells@[u]@) is None,
                decreases cells@.len() - j,
            {
                let cell = cells[j].as_str();
                proof {
                    assert(keys_view(cells@)[j as int] == cell@);
                    assert(keys_view(cells@).contains(cell@));
                }
                if !contains_str(&kept, cell) {
                    let error = EditError::PageNotFound(owned(cell));
                    assert(fixed_cell_fault(*before, *after, shape@, cell@) == Some((true, cell@)));
                    assert(topology_error(error, (true, cell@)));
                    return Err(error);
                }
                if !same_field(
                    nested_field(before, "vsdx:sheets", shape, "cells", cell, "rowType"),
                    nested_field(after, "vsdx:sheets", shape, "cells", cell, "rowType"),
                ) {
                    let message = owned("remote update changes immutable geometry row type");
                    let error = EditError::InvalidState(message);
                    assert(fixed_cell_fault(*before, *after, shape@, cell@) == Some((false, message@)));
                    assert(topology_error(error, (false, message@)));
                    return Err(error);
                }
                if !same_field(
                    nested_field(before, "vsdx:sheets", shape, "cells", cell, "value"),
                    nested_field(after, "vsdx:sheets", shape, "cells", cell, "value"),
                ) {
                    let message = owned("remote update changes untrusted cached cell value");
                    let error = EditError::InvalidState(message);
                    assert(fixed_cell_fault(*before, *after, shape@, cell@) == Some((false, message@)));
                    assert(topology_error(error, (false, message@)));
                    return Err(error);
                }
                if !same_field(
                    nested_field(before, "vsdx:sheets", shape, "cells", cell, "baselineFormula"),
                    nested_field(after, "vsdx:sheets", shape, "cells", cell, "baselineFormula"),
                ) {
                    let message = owned("remote update changes immutable cell baseline formula");
                    let error = EditError::InvalidState(message);
                    assert(fixed_cell_fault(*before, *after, shape@, cell@) == Some((false, message@)));
                    assert(topology_error(error, (false, message@)));
                    return Err(error);
                }
                assert(fixed_cell_fault(*before, *after, shape@, cell@) is None);
                j = j + 1;
            }
            proof {
                assert forall|c: Seq<char>| #[trigger] fixed_cell_fault(*before, *after, shapes@[i as int]@, c) is None by {
                    if has_cell(*before, shape@, c) {
                        assert(keys_view(cells@).contains(c));
                        let u = choose|u: int| 0 <= u < keys_view(cells@).len() && keys_view(cells@)[u] == c;
                        assert(keys_view(cells@)[u] == cells@[u]@);
                        assert(fixed_cell_fault(*before, *after, shape@, cells@[u]@) is None);
                    }
                }
                assert forall|q: int| #[trigger] fixed_field_fault(*before, *after, shapes@[i as int]@, q) is None by {
                    if 0 <= q < 9 {
                        assert(fixed_field_fault(*before, *after, shape@, q) is None);
                    }
                }
            }
        }
        i = i + 1;
    }
    proof {
        assert forall|shape: Seq<char>, k: int|
            shapes_of(*before).dom().contains(shape) && shapes_of(*after).dom().contains(shape)
                implies #[trigger] fixed_field_fault(*before, *after, shape, k) is None by {
            assert(keys_view(shapes@).contains(shape));
            let t = choose|t: int| 0 <= t < keys_view(shapes@).len() && keys_view(shapes@)[t] == shape;
            assert(keys_view(shapes@)[t] == shapes@[t]@);
            assert(fixed_field_fault(*before, *after, shapes@[t]@, k) is None);
        }
        assert forall|shape: Seq<char>|
            shapes_of(*before).dom().contains(shape) && shapes_of(*after).dom().contains(shape)
                implies !#[trigger] order_removed(*before, *after, shape) by {
            assert(keys_view(shapes@).contains(shape));
            let t = choose|t: int| 0 <= t < keys_view(shapes@).len() && keys_view(shapes@)[t] == shape;
            assert(keys_view(shapes@)[t] == shapes@[t]@);
            assert(!order_removed(*before, *after, shapes@[t]@));
        }
        assert forall|shape: Seq<char>, cell: Seq<char>|
            shapes_of(*before).dom().contains(shape) && shapes_of(*after).dom().contains(shape)
                implies #[trigger] fixed_cell_fault(*before, *after, shape, cell) is None by {
            assert(keys_view(shapes@).contains(shape));
            let t = choose|t: int| 0 <= t < keys_view(shapes@).len() && keys_view(shapes@)[t] == shape;
            assert(keys_view(shapes@)[t] == shapes@[t]@);
            assert(fixed_cell_fault(*before, *after, shapes@[t]@, cell) is None);
        }
    }
    Ok(())
}

/// Refuses a merged document that rewrites a shape's identity or holds a shape no session
/// added.
fn check_identities(before: &Doc, after: &Doc) -> (result: EditResult<()>)
    ensures
        result is Ok <==> keeps_identities(*before, *after),
        result is Err ==> result matches Err(EditError::InvalidState(_)),
{
    let old_shapes = read_identities(before);
    let new_shapes = read_identities(after);
    let result = check_shape_identities(&old_shapes, &new_shapes);
    proof {
        let b = old_shapes@;
        let a = new_shapes@;
        if result is Ok {
            assert forall|k: Seq<char>|
                #[trigger] shapes_of(*before).dom().contains(k) && shapes_of(*after).dom().contains(k)
                    implies model_identity(*before, k) == model_identity(*after, k) by {
                assert(has_shape(b, k));
                let i = choose|i: int| 0 <= i < b.len() && #[trigger] b[i].0@ == k;
                assert(identity_fault(b[i], a) is None);
                assert(has_shape(a, k));
                let j = choose|j: int| 0 <= j < a.len() && #[trigger] a[j].0@ == k;
                assert(identity_view(a[j].1) == model_identity(*after, a[j].0@));
                assert(identity_view(b[i].1) == model_identity(*before, b[i].0@));
            }
            assert forall|k: Seq<char>|
                #[trigger] shapes_of(*after).dom().contains(k) && !shapes_of(*before).dom().contains(k)
                    implies text_of(shape_field(*after, k, "origin"@)) == Some("added"@) by {
                assert(has_shape(a, k));
                assert(!has_shape(b, k));
                let j = choose|j: int| 0 <= j < a.len() && #[trigger] a[j].0@ == k;
                assert(provenance_fault(a[j], b) is None);
                assert(identity_view(a[j].1) == model_identity(*after, a[j].0@));
            }
        } else {
            if exists|i: int| 0 <= i < b.len() && #[trigger] identity_fault(b[i], a) is Some {
                let i = choose|i: int| 0 <= i < b.len() && #[trigger] identity_fault(b[i], a) is Some;
                let k = b[i].0@;
                assert(has_shape(b, k));
                assert(has_shape(a, k));
                let j = choose|j: int| 0 <= j < a.len() && #[trigger] a[j].0@ == k;
                assert(identity_view(a[j].1) == model_identity(*after, a[j].0@));
                assert(identity_view(b[i].1) == model_identity(*before, b[i].0@));
                assert(shapes_of(*before).dom().contains(k) && shapes_of(*after).dom().contains(k));
                assert(model_identity(*before, k) != model_identity(*after, k));
            } else {
                assert(exists|j: int| 0 <= j < a.len() && #[trigger] provenance_fault(a[j], b) is Some);
                let j = choose|j: int| 0 <= j < a.len() && #[trigger] provenance_fault(a[j], b) is Some;
                let k = a[j].0@;
                assert(has_shape(a, k));
                assert(identity_view(a[j].1) == model_identity(*after, a[j].0@));
                assert(shapes_of(*after).dom().contains(k) && !shapes_of(*before).dom().contains(k));
            }
        }
    }
    result
}

/// yrs's `ReadTxn::state_vector` and `StateVector::encode_v1`. Nothing is stated of the bytes.
#[verifier::external_body]
fn state_vector_bytes(doc: &Doc) -> (bytes: Vec<u8>) {
    yrs::updates::encoder::Encode::encode_v1(&doc.transact().state_vector())
}

/// yrs's `ReadTxn::encode_state_as_update_v1` from the empty state vector: the whole document
/// as one update. Nothing is stated of the bytes.
#[verifier::external_body]
fn state_bytes(doc: &Doc) -> (bytes: Vec<u8>) {
    doc.transact().encode_state_as_update_v1(&StateVector::default())
}

/// yrs's `ReadTxn::encode_diff_v1`: what `doc` holds beyond `vector`. Nothing is stated of the
/// bytes.
#[verifier::external_body]
fn diff_bytes(doc: &Doc, vector: &StateVector) -> (bytes: Vec<u8>) {
    doc.transact().encode_diff_v1(vector)
}

/// The plain text stored for shape `shape`: empty where none is.
pub open spec fn story_of(doc: Doc, shape: Seq<char>) -> Seq<char> {
    if doc_root_fields(doc, "vsdx:stories"@).dom().contains(shape) {
        match doc_root_fields(doc, "vsdx:stories"@)[shape].0 {
            Some(text) => text,
            None => Seq::empty(),
        }
    } else {
        Seq::empty()
    }
}

/// The session document's page order.
pub open spec fn page_order(doc: Doc) -> Option<Seq<(Option<Seq<char>>, Option<i64>)>> {
    doc_array(doc, "vsdx:page-order"@)
}

/// The first position of `order` that holds the text `page`.
pub open spec fn first_position(order: Seq<(Option<Seq<char>>, Option<i64>)>, page: Seq<char>) -> Option<int> {
    if exists|i: int| 0 <= i < order.len() && #[trigger] order[i].0 == Some(page) {
        Some(choose|i: int| 0 <= i < order.len() && #[trigger] order[i].0 == Some(page) && forall|j: int| 0 <= j < i ==> order[j].0 != Some(page))
    } else {
        None
    }
}

/// Everything the session's document holds but its page order is as in `before`.
pub open spec fn same_but_page_order(before: Doc, after: Doc) -> bool {
    &&& forall|other: Seq<char>| other != "vsdx:page-order"@ ==> #[trigger] doc_array(after, other) == doc_array(before, other)
    &&& forall|r: Seq<char>| #[trigger] doc_entries(after, r) == doc_entries(before, r)
    &&& forall|r: Seq<char>, f: Seq<char>| #[trigger] doc_nested(after, r, f) == doc_nested(before, r, f)
    &&& forall|r: Seq<char>| #[trigger] doc_root_fields(after, r) == doc_root_fields(before, r)
    &&& forall|r: Seq<char>| #[trigger] doc_root_buffers(after, r) == doc_root_buffers(before, r)
    &&& forall|r: Seq<char>, k: Seq<char>, f: Seq<char>| #[trigger] doc_nested_array(after, r, k, f) == doc_nested_array(before, r, k, f)
}

/// The first position of `items` that holds the text `text`.
fn first_text_position(items: &Vec<(Option<String>, Option<i64>)>, text: &str) -> (position: Option<usize>)
    ensures
        match position {
            Some(i) => i < items@.len() && first_position(items_view(items@), text@) == Some(i as int),
            None => first_position(items_view(items@), text@) is None,
        },
{
    let ghost view = items_view(items@);
    let mut i: usize = 0;
    while i < items.len()
        invariant
            i <= items@.len(),
            view == items_view(items@),
            forall|j: int| 0 <= j < i ==> view[j].0 != Some(text@),
        decreases items@.len() - i,
    {
        let found = match &items[i].0 {
            Some(t) => str_eq(t.as_str(), text),
            None => false,
        };
        if found {
            assert(view[i as int].0 == Some(text@));
            assert(first_position(view, text@) == Some(i as int));
            return Some(i);
        }
        i = i + 1;
    }
    assert(!exists|k: int| 0 <= k < view.len() && #[trigger] view[k].0 == Some(text@));
    None
}

/// Moving the item at `from` of a page order to `to`, and then the item now at `to` back to
/// `from`, restores the order: a page reordered and reordered back is where it was.
pub proof fn lemma_reorder_round_trip(order: Seq<(Option<Seq<char>>, Option<i64>)>, from: int, to: int)
    requires
        0 <= from < order.len(),
        0 <= to < order.len(),
    ensures
        order.remove(from).insert(to, order[from]).remove(to).insert(from, order[from]) == order,
{
    let moved = order.remove(from).insert(to, order[from]);
    assert(moved.remove(to) =~= order.remove(from));
    assert(order.remove(from).insert(from, order[from]) =~= order);
}

/// The texts of a list's items (`None` for an item that is no string).
pub open spec fn texts_of(items: Seq<(Option<Seq<char>>, Option<i64>)>) -> Seq<Option<Seq<char>>> {
    items.map_values(|item: (Option<Seq<char>>, Option<i64>)| item.0)
}

/// The items from the `k`-th on that `keep` marks, in order.
pub open spec fn kept_from(items: Seq<(Option<Seq<char>>, Option<i64>)>, keep: Seq<bool>, k: int) -> Seq<
    (Option<Seq<char>>, Option<i64>),
>
    decreases items.len() - k,
{
    if k < 0 || k >= items.len() {
        Seq::empty()
    } else if keep[k] {
        seq![items[k]] + kept_from(items, keep, k + 1)
    } else {
        kept_from(items, keep, k + 1)
    }
}

proof fn lemma_kept_is_staying_for(
    items: Seq<(Option<Seq<char>>, Option<i64>)>,
    keep: Seq<bool>,
    keys: Option<Seq<Seq<char>>>,
    n: int,
)
    requires
        0 <= n <= items.len(),
        keep.len() == items.len(),
        forall|t: int| 0 <= t < items.len() ==> #[trigger] keep[t] == stays(texts_of(items), t, keys),
    ensures
        staying(texts_of(items), n, keys) + texts_of(kept_from(items, keep, n)) == staying(
            texts_of(items),
            items.len() as int,
            keys,
        ),
    decreases items.len() - n,
{
    if n < items.len() {
        lemma_kept_is_staying_for(items, keep, keys, n + 1);
        let texts = texts_of(items);
        if keep[n] {
            assert(texts_of(kept_from(items, keep, n)) =~= seq![texts[n]] + texts_of(kept_from(items, keep, n + 1)));
            assert(staying(texts, n + 1, keys) == staying(texts, n, keys).push(texts[n]));
            assert(staying(texts, n, keys) + texts_of(kept_from(items, keep, n)) =~= staying(texts, n + 1, keys)
                + texts_of(kept_from(items, keep, n + 1)));
        } else {
            assert(staying(texts, n + 1, keys) == staying(texts, n, keys));
        }
    } else {
        assert(texts_of(kept_from(items, keep, n)) =~= Seq::<Option<Seq<char>>>::empty());
        assert(staying(texts_of(items), n, keys) + Seq::<Option<Seq<char>>>::empty() =~= staying(texts_of(items), n, keys));
    }
}

fn copy_text(text: &Option<String>) -> (copy: Option<String>)
    ensures
        item_view(copy) == item_view(*text),
{
    match text {
        Some(t) => Some(owned(t.as_str())),
        None => None,
    }
}

/// Repairs the page order after a merge: of the entries naming one page, only the last stays.
/// A document without a page order is refused.
fn normalize_page_order(doc: &mut Doc, origin: &[u8]) -> (result: Result<(), ()>)
    ensures
        match page_order(*old(doc)) {
            None => result is Err && *final(doc) == *old(doc),
            Some(items) => result is Ok && same_but_page_order(*old(doc), *final(doc)) && (page_order(
                *final(doc),
            ) matches Some(now) && texts_of(now) == repaired(texts_of(items), None)),
        },
{
    let items = match array_items(doc, "vsdx:page-order") {
        Some(items) => items,
        None => return Err(()),
    };
    let ghost fv = items_view(items@);
    let mut texts: Vec<Option<String>> = Vec::new();
    let mut t: usize = 0;
    while t < items.len()
        invariant
            t <= items@.len(),
            texts@.len() == t,
            fv == items_view(items@),
            forall|u: int| 0 <= u < t ==> item_view(#[trigger] texts@[u]) == fv[u].0,
        decreases items@.len() - t,
    {
        texts.push(copy_text(&items[t].0));
        t = t + 1;
    }
    assert(crate::orders::items_view(texts@) =~= texts_of(fv));
    let keep = staying_flags(&texts, None);
    let ghost start = *doc;
    let mut i: usize = items.len();
    while i > 0
        invariant
            i <= items@.len(),
            items@.len() <= u32::MAX,
            fv.len() == items@.len(),
            keep@.len() == fv.len(),
            forall|u: int| 0 <= u < fv.len() ==> #[trigger] keep@[u] == stays(texts_of(fv), u, None),
            page_order(*doc) == Some(fv.take(i as int) + kept_from(fv, keep@, i as int)),
            same_but_page_order(start, *doc),
        decreases i,
    {
        i = i - 1;
        let ghost current = fv.take(i as int + 1) + kept_from(fv, keep@, i as int + 1);
        if !keep[i] {
            remove_array_item(doc, "vsdx:page-order", i as u32, origin);
            assert(current.remove(i as int) =~= fv.take(i as int) + kept_from(fv, keep@, i as int));
        } else {
            assert(current =~= fv.take(i as int) + kept_from(fv, keep@, i as int));
        }
    }
    proof {
        lemma_kept_is_staying_for(fv, keep@, None, 0);
        assert(fv.take(0) + kept_from(fv, keep@, 0) =~= kept_from(fv, keep@, 0));
        assert(staying(texts_of(fv), 0, None) =~= Seq::<Option<Seq<char>>>::empty());
        assert(Seq::<Option<Seq<char>>>::empty() + texts_of(kept_from(fv, keep@, 0)) =~= texts_of(kept_from(fv, keep@, 0)));
    }
    Ok(())
}

/// Everything `after` holds is as in `before`, but the array-valued field `field` of entry
/// `key` of root map `root`.
pub open spec fn same_but_nested_array(before: Doc, after: Doc, root: Seq<char>, key: Seq<char>, field: Seq<char>) -> bool {
    &&& forall|r: Seq<char>, k: Seq<char>, f: Seq<char>| !(r == root && k == key && f == field)
        ==> #[trigger] doc_nested_array(after, r, k, f) == doc_nested_array(before, r, k, f)
    &&& forall|r: Seq<char>| #[trigger] doc_array(after, r) == doc_array(before, r)
    &&& forall|r: Seq<char>| #[trigger] doc_entries(after, r) == doc_entries(before, r)
    &&& forall|r: Seq<char>, f: Seq<char>| #[trigger] doc_nested(after, r, f) == doc_nested(before, r, f)
    &&& forall|r: Seq<char>| #[trigger] doc_root_fields(after, r) == doc_root_fields(before, r)
    &&& forall|r: Seq<char>| #[trigger] doc_root_buffers(after, r) == doc_root_buffers(before, r)
}

/// A shape order names each shape at most once, and only shapes the document holds.
pub open spec fn names_shapes_once(items: Seq<Option<Seq<char>>>, shapes: Set<Seq<char>>) -> bool {
    &&& forall|p: int, q: int|
        0 <= p < q < items.len() && items[p] is Some ==> #[trigger] items[p] != #[trigger] items[q]
    &&& forall|p: int| 0 <= p < items.len() && items[p] is Some ==> shapes.contains(#[trigger] items[p].unwrap())
}

/// Repairs the shape order (`shapes`) of entry `key` of root map `root`: an entry naming no
/// shape in `shape_keys`, or a shape a later entry names, leaves it.
fn normalize_nested_order(doc: &mut Doc, root: &str, key: &str, shape_keys: &Vec<String>, origin: &[u8])
    ensures
        match doc_nested_array(*old(doc), root@, key@, "shapes"@) {
            None => *final(doc) == *old(doc),
            Some(items) => same_but_nested_array(*old(doc), *final(doc), root@, key@, "shapes"@) && (doc_nested_array(
                *final(doc),
                root@,
                key@,
                "shapes"@,
            ) matches Some(now) && texts_of(now) == repaired(texts_of(items), Some(keys_view(shape_keys@)))),
        },
{
    let items = match nested_array_items(doc, root, key, "shapes") {
        Some(items) => items,
        None => return,
    };
    let ghost fv = items_view(items@);
    let ghost keys = Some(keys_view(shape_keys@));
    let mut texts: Vec<Option<String>> = Vec::new();
    let mut t: usize = 0;
    while t < items.len()
        invariant
            t <= items@.len(),
            texts@.len() == t,
            fv == items_view(items@),
            forall|u: int| 0 <= u < t ==> item_view(#[trigger] texts@[u]) == fv[u].0,
        decreases items@.len() - t,
    {
        texts.push(copy_text(&items[t].0));
        t = t + 1;
    }
    assert(crate::orders::items_view(texts@) =~= texts_of(fv));
    let keep = staying_flags(&texts, Some(shape_keys));
    let ghost start = *doc;
    let mut i: usize = items.len();
    while i > 0
        invariant
            i <= items@.len(),
            items@.len() <= u32::MAX,
            fv.len() == items@.len(),
            keep@.len() == fv.len(),
            forall|u: int| 0 <= u < fv.len() ==> #[trigger] keep@[u] == stays(texts_of(fv), u, keys),
            doc_nested_array(*doc, root@, key@, "shapes"@) == Some(fv.take(i as int) + kept_from(fv, keep@, i as int)),
            same_but_nested_array(start, *doc, root@, key@, "shapes"@),
        decreases i,
    {
        i = i - 1;
        let ghost current = fv.take(i as int + 1) + kept_from(fv, keep@, i as int + 1);
        if !keep[i] {
            remove_nested_array_item(doc, root, key, "shapes", i as u32, origin);
            assert(current.remove(i as int) =~= fv.take(i as int) + kept_from(fv, keep@, i as int));
        } else {
            assert(current =~= fv.take(i as int) + kept_from(fv, keep@, i as int));
        }
    }
    proof {
        lemma_kept_is_staying_for(fv, keep@, keys, 0);
        assert(fv.take(0) + kept_from(fv, keep@, 0) =~= kept_from(fv, keep@, 0));
        assert(staying(texts_of(fv), 0, keys) =~= Seq::<Option<Seq<char>>>::empty());
        assert(Seq::<Option<Seq<char>>>::empty() + texts_of(kept_from(fv, keep@, 0)) =~= texts_of(kept_from(fv, keep@, 0)));
    }
}

/// Repairs the shape orders of every entry of root map `root`; see [`normalize_nested_order`].
fn normalize_shape_orders(doc: &mut Doc, root: &str, shape_keys: &Vec<String>, origin: &[u8])
    ensures
        forall|k: Seq<char>| #[trigger] doc_nested_array(*old(doc), root@, k, "shapes"@) matches Some(items)
            ==> (doc_nested_array(*final(doc), root@, k, "shapes"@) matches Some(now) && texts_of(now)
                == repaired(texts_of(items), Some(keys_view(shape_keys@)))),
        forall|k: Seq<char>| #[trigger] doc_nested_array(*old(doc), root@, k, "shapes"@) is None
            ==> doc_nested_array(*final(doc), root@, k, "shapes"@) is None,
        forall|r: Seq<char>, k: Seq<char>, f: Seq<char>| !(r == root@ && f == "shapes"@)
            ==> #[trigger] doc_nested_array(*final(doc), r, k, f) == doc_nested_array(*old(doc), r, k, f),
        forall|r: Seq<char>| #[trigger] doc_array(*final(doc), r) == doc_array(*old(doc), r),
        forall|r: Seq<char>| #[trigger] doc_entries(*final(doc), r) == doc_entries(*old(doc), r),
        forall|r: Seq<char>, f: Seq<char>| #[trigger] doc_nested(*final(doc), r, f) == doc_nested(*old(doc), r, f),
        forall|r: Seq<char>| #[trigger] doc_root_fields(*final(doc), r) == doc_root_fields(*old(doc), r),
        forall|r: Seq<char>| #[trigger] doc_root_buffers(*final(doc), r) == doc_root_buffers(*old(doc), r),
{
    let keys = entry_keys(doc, root);
    let ghost start = *doc;
    let ghost wanted = Some(keys_view(shape_keys@));
    let mut i: usize = 0;
    while i < keys.len()
        invariant
            i <= keys@.len(),
            unique_keys(keys@),
            wanted == Some(keys_view(shape_keys@)),
            forall|k: Seq<char>, f: Seq<char>| #[trigger] doc_nested_array(start, root@, k, f) is Some
                ==> keys_view(keys@).contains(k),
            forall|t: int| 0 <= t < i ==> (#[trigger] doc_nested_array(start, root@, keys@[t]@, "shapes"@) matches Some(items)
                ==> (doc_nested_array(*doc, root@, keys@[t]@, "shapes"@) matches Some(now) && texts_of(now)
                    == repaired(texts_of(items), wanted))),
            forall|t: int| 0 <= t < i ==> (#[trigger] doc_nested_array(start, root@, keys@[t]@, "shapes"@) is None
                ==> doc_nested_array(*doc, root@, keys@[t]@, "shapes"@) is None),
            forall|r: Seq<char>, k: Seq<char>, f: Seq<char>|
                !(r == root@ && f == "shapes"@ && (exists|t: int| 0 <= t < i && keys@[t]@ == k))
                ==> #[trigger] doc_nested_array(*doc, r, k, f) == doc_nested_array(start, r, k, f),
            forall|r: Seq<char>| #[trigger] doc_array(*doc, r) == doc_array(start, r),
            forall|r: Seq<char>| #[trigger] doc_entries(*doc, r) == doc_entries(start, r),
            forall|r: Seq<char>, f: Seq<char>| #[trigger] doc_nested(*doc, r, f) == doc_nested(start, r, f),
            forall|r: Seq<char>| #[trigger] doc_root_fields(*doc, r) == doc_root_fields(start, r),
            forall|r: Seq<char>| #[trigger] doc_root_buffers(*doc, r) == doc_root_buffers(start, r),
        decreases keys@.len() - i,
    {
        let key = keys[i].as_str();
        let ghost before = *doc;
        proof {
            assert forall|t: int| 0 <= t < i implies keys@[t]@ != key@ by {
                assert(keys@[t]@ != keys@[i as int]@);
            }
            assert(doc_nested_array(before, root@, key@, "shapes"@) == doc_nested_array(start, root@, key@, "shapes"@));
        }
        normalize_nested_order(doc, root, key, shape_keys, origin);
        proof {
            assert forall|r: Seq<char>, k: Seq<char>, f: Seq<char>|
                !(r == root@ && f == "shapes"@ && (exists|t: int| 0 <= t < i + 1 && keys@[t]@ == k))
                implies #[trigger] doc_nested_array(*doc, r, k, f) == doc_nested_array(start, r, k, f) by {
                if r == root@ && f == "shapes"@ && k == key@ {
                    assert(keys@[i as int]@ == k);
                }
                if !(r == root@ && f == "shapes"@ && (exists|t: int| 0 <= t < i && keys@[t]@ == k)) {
                    if doc_nested_array(before, root@, key@, "shapes"@) is Some {
                        assert(doc_nested_array(*doc, r, k, f) == doc_nested_array(before, r, k, f));
                    }
                }
            }
            assert forall|t: int| 0 <= t < i + 1 implies (#[trigger] doc_nested_array(start, root@, keys@[t]@, "shapes"@) matches Some(items)
                ==> (doc_nested_array(*doc, root@, keys@[t]@, "shapes"@) matches Some(now) && texts_of(now)
                    == repaired(texts_of(items), wanted))) by {
                if t < i {
                    assert(keys@[t]@ != key@);
                    if doc_nested_array(before, root@, key@, "shapes"@) is Some {
                        assert(doc_nested_array(*doc, root@, keys@[t]@, "shapes"@) == doc_nested_array(before, root@, keys@[t]@, "shapes"@));
                    }
                }
            }
            assert forall|t: int| 0 <= t < i + 1 implies (#[trigger] doc_nested_array(start, root@, keys@[t]@, "shapes"@) is None
                ==> doc_nested_array(*doc, root@, keys@[t]@, "shapes"@) is None) by {
                if t < i {
                    assert(keys@[t]@ != key@);
                    if doc_nested_array(before, root@, key@, "shapes"@) is Some {
                        assert(doc_nested_array(*doc, root@, keys@[t]@, "shapes"@) == doc_nested_array(before, root@, keys@[t]@, "shapes"@));
                    }
                }
            }
        }
        i = i + 1;
    }
    proof {
        assert forall|k: Seq<char>| #[trigger] doc_nested_array(start, root@, k, "shapes"@) is Some
            implies (doc_nested_array(*doc, root@, k, "shapes"@) matches Some(now) && texts_of(now)
                == repaired(texts_of(doc_nested_array(start, root@, k, "shapes"@).unwrap()), wanted)) by {
            assert(keys_view(keys@).contains(k));
            let t = choose|t: int| 0 <= t < keys_view(keys@).len() && keys_view(keys@)[t] == k;
            assert(keys_view(keys@)[t] == keys@[t]@);
        }
        assert forall|k: Seq<char>| #[trigger] doc_nested_array(start, root@, k, "shapes"@) is None
            implies doc_nested_array(*doc, root@, k, "shapes"@) is None by {
            if exists|t: int| 0 <= t < keys@.len() && keys@[t]@ == k {
                let t = choose|t: int| 0 <= t < keys@.len() && keys@[t]@ == k;
                assert(doc_nested_array(start, root@, keys@[t]@, "shapes"@) is None);
            } else {
                assert(doc_nested_array(*doc, root@, k, "shapes"@) == doc_nested_array(start, root@, k, "shapes"@));
            }
        }
    }
}

/// Every shape order of the document's pages and shapes names each shape at most once, and
/// only shapes the document holds.
pub open spec fn shape_orders_clean(doc: Doc) -> bool {
    forall|r: Seq<char>, k: Seq<char>|
        (r == "vsdx:pages"@ || r == "vsdx:sheets"@) && #[trigger] doc_nested_array(doc, r, k, "shapes"@) is Some
            ==> names_shapes_once(texts_of(doc_nested_array(doc, r, k, "shapes"@).unwrap()), shapes_of(doc).dom())
}

proof fn lemma_repaired_names_shapes_once(items: Seq<Option<Seq<char>>>, keys: Seq<Seq<char>>, shapes: Set<Seq<char>>)
    requires
        forall|id: Seq<char>| keys.contains(id) ==> shapes.contains(id),
    ensures
        names_shapes_once(repaired(items, Some(keys)), shapes),
{
    lemma_repaired_clean(items, Some(keys));
    let out = repaired(items, Some(keys));
    assert forall|p: int| 0 <= p < out.len() && out[p] is Some implies shapes.contains(#[trigger] out[p].unwrap()) by {
        assert(crate::orders::admitted(out[p].unwrap(), Some(keys)));
    }
}

/// The origin a transaction carries for an edit: the session's client ID (big-endian) for a
/// local edit, and a label for the others.
fn origin_bytes(context: &EditCtx, client_id: u64) -> Vec<u8> {
    match context.origin {
        EditOrigin::Local => {
            let mut bytes: Vec<u8> = Vec::new();
            let mut shift: u64 = 64;
            while shift > 0
                invariant
                    shift <= 64,
                    shift % 8 == 0,
                decreases shift,
            {
                shift = shift - 8;
                bytes.push(((client_id >> shift) & 0xff) as u8);
            }
            bytes
        },
        EditOrigin::Agent => label_bytes("vsdx:agent"),
        EditOrigin::Remote => label_bytes("vsdx:remote"),
        EditOrigin::System => label_bytes("vsdx:system"),
    }
}

/// The bytes of an ASCII label.
fn label_bytes(label: &str) -> Vec<u8> {
    let chars = crate::text::chars_of(label);
    let mut bytes: Vec<u8> = Vec::new();
    let mut i: usize = 0;
    while i < chars.len()
        invariant
            i <= chars@.len(),
        decreases chars@.len() - i,
    {
        bytes.push(((chars[i] as u32) & 0xff) as u8);
        i = i + 1;
    }
    bytes
}

/// A collaborative session: the yrs document that holds the diagram, under the session's
/// client ID.
pub struct DiagramSession {
    doc: Doc,
    client_id: u64,
}

impl DiagramSession {
    /// The session writes under a usable client ID.
    pub closed spec fn wf(self) -> bool {
        client_id_is_valid(self.client_id)
    }

    /// The document the session edits.
    pub closed spec fn document(self) -> Doc {
        self.doc
    }

    /// The client ID the session writes under.
    pub closed spec fn owner(self) -> u64 {
        self.client_id
    }

    /// Opens a session on a document that a peer sent whole, as a decoded update, under
    /// `client_id`. An unusable client ID is refused first; an update the document cannot take
    /// is refused as invalid.
    pub fn open_from_update(update: Update, client_id: u64) -> (result: EditResult<Self>)
        ensures
            !client_id_is_valid(client_id) ==> result == Err::<Self, EditError>(
                EditError::InvalidClientId(client_id),
            ),
            client_id_is_valid(client_id) ==> (result is Ok || result matches Err(
                EditError::InvalidUpdate(_),
            )),
            result matches Ok(session) ==> session.owner() == client_id && session.wf(),
    {
        validate_client_id(client_id)?;
        let mut doc = new_doc(client_id);
        match merge_update(&mut doc, update, "vsdx:hydrate") {
            Ok(()) => Ok(DiagramSession { doc, client_id }),
            Err(reason) => Err(EditError::InvalidUpdate(reason)),
        }
    }

    /// The client ID the session writes under.
    pub fn client_id(&self) -> (client_id: u64)
        ensures
            client_id == self.owner(),
    {
        self.client_id
    }

    /// The plain text of shape `shape_id` on page `page_id`: a missing page is refused by its
    /// key, a missing shape, or one on another page, by the shape's.
    pub fn shape_text(&self, page_id: &str, shape_id: &str) -> (result: EditResult<String>)
        ensures
            !pages_of(self.document()).dom().contains(page_id@) ==> (result matches Err(
                EditError::PageNotFound(key),
            ) && key@ == page_id@),
            pages_of(self.document()).dom().contains(page_id@) && (!shapes_of(self.document()).dom().contains(shape_id@)
                || text_of(shape_field(self.document(), shape_id@, "pageId"@)) != Some(page_id@))
                ==> (result matches Err(EditError::ShapeNotFound(key)) && key@ == shape_id@),
            pages_of(self.document()).dom().contains(page_id@) && shapes_of(self.document()).dom().contains(shape_id@)
                && text_of(shape_field(self.document(), shape_id@, "pageId"@)) == Some(page_id@)
                ==> (result matches Ok(text) && text@ == story_of(self.document(), shape_id@)),
    {
        let pages = entry_keys(&self.doc, "vsdx:pages");
        if !contains_str(&pages, page_id) {
            return Err(EditError::PageNotFound(owned(page_id)));
        }
        let shapes = entry_keys(&self.doc, "vsdx:sheets");
        if !contains_str(&shapes, shape_id) {
            return Err(EditError::ShapeNotFound(owned(shape_id)));
        }
        match text_value(entry_field(&self.doc, "vsdx:sheets", shape_id, "pageId")) {
            Some(page) => {
                if !str_eq(page.as_str(), page_id) {
                    return Err(EditError::ShapeNotFound(owned(shape_id)));
                }
            },
            None => {
                return Err(EditError::ShapeNotFound(owned(shape_id)));
            },
        }
        match root_field(&self.doc, "vsdx:stories", shape_id) {
            Some((Some(text), _)) => Ok(text),
            _ => Ok(String::new()),
        }
    }

    /// Moves page `page_id` to position `to_index` of the page order. A position past the end
    /// is refused with the order's length, a page the order does not hold by its key; the
    /// receipt gives the page's old and new positions. Nothing but the page order changes.
    pub fn reorder_page(&mut self, context: &EditCtx, page_id: &str, to_index: u32) -> (result: EditResult<ShapeReceipt>)
        ensures
            final(self).owner() == old(self).owner(),
            final(self).wf() == old(self).wf(),
            result is Err ==> *final(self) == *old(self),
            match page_order(old(self).document()) {
                None => result matches Err(EditError::InvalidState(m)) && m@ == "missing page order"@,
                Some(order) => if to_index >= order.len() {
                    result == Err::<ShapeReceipt, EditError>(EditError::OutOfBounds { index: to_index, length: order.len() as u32 })
                } else {
                    match first_position(order, page_id@) {
                        None => result matches Err(EditError::PageNotFound(key)) && key@ == page_id@,
                        Some(from) => result matches Ok(receipt) && {
                            &&& receipt.page_id@ == page_id@
                            &&& receipt.shape_id@ == page_id@
                            &&& receipt.from_index == Some(from as u32)
                            &&& receipt.to_index == Some(to_index)
                            &&& page_order(final(self).document()) == Some(order.remove(from).insert(
                                to_index as int,
                                (Some(page_id@), None::<i64>),
                            ))
                            &&& same_but_page_order(old(self).document(), final(self).document())
                        },
                    }
                },
            },
    {
        let order = match array_items(&self.doc, "vsdx:page-order") {
            Some(order) => order,
            None => return Err(EditError::InvalidState(owned("missing page order"))),
        };
        let length = order.len() as u32;
        if to_index >= length {
            return Err(EditError::OutOfBounds { index: to_index, length });
        }
        let from = match first_text_position(&order, page_id) {
            Some(from) => from,
            None => return Err(EditError::PageNotFound(owned(page_id))),
        };
        let origin = origin_bytes(context, self.client_id);
        move_array_item(&mut self.doc, "vsdx:page-order", from as u32, to_index, page_id, origin.as_slice());
        Ok(ShapeReceipt {
            page_id: owned(page_id),
            shape_id: owned(page_id),
            from_index: Some(from as u32),
            to_index: Some(to_index),
        })
    }

    /// The session's state vector, encoded for a peer.
    pub fn encode_state_vector_v1(&self) -> Vec<u8> {
        state_vector_bytes(&self.doc)
    }

    /// The whole document as one encoded update.
    pub fn encode_state_as_update_v1(&self) -> Vec<u8> {
        state_bytes(&self.doc)
    }

    /// What the session holds beyond a peer's encoded state vector. A state vector that
    /// [`decode_state_vector_v1`] refuses is refused with its reason.
    pub fn encode_diff_v1(&self, remote: &[u8]) -> (result: EditResult<Vec<u8>>)
        ensures
            match state_vector_refusal(remote@) {
                Some(reason) => result matches Err(EditError::InvalidStateVector(m)) && m@ == reason,
                None => result is Ok,
            },
    {
        match decode_state_vector_v1(remote) {
            Ok(vector) => Ok(diff_bytes(&self.doc, &vector)),
            Err(reason) => Err(EditError::InvalidStateVector(reason)),
        }
    }

    /// Takes in a peer's decoded update. The update is merged into a copy of the document
    /// first, and the copy's page order and shape orders are repaired so that they name each
    /// page or shape once, and only shapes the copy holds. The copy must have a page order and
    /// keep the diagram's metadata, the pages and their fixed fields, and the fixed fields,
    /// shape order and cells of every shape both hold; every shape only it holds must record
    /// that a session added it; it must keep every shape's identity and every save baseline
    /// while its shape survives, and give no cell new to a package shape a cached value. Only
    /// then does the copy become the session's document. A refused update leaves the session
    /// as it was.
    pub fn apply_update(&mut self, update: Update) -> (result: EditResult<()>)
        requires
            old(self).wf(),
        ensures
            final(self).wf(),
            result is Err ==> *final(self) == *old(self),
            final(self).owner() == old(self).owner(),
            result is Ok ==> admits_update(old(self).document(), final(self).document()),
            result is Ok ==> clean(texts_of(page_order(final(self).document()).unwrap()), None),
            result is Ok ==> shape_orders_clean(final(self).document()),
            result matches Err(error) && !(error is InvalidUpdate) ==> exists|staged: Doc|
                !#[trigger] admits_update(old(self).document(), staged),
    {
        let mut staged = match copy_doc(&self.doc, self.client_id) {
            Ok(copy) => copy,
            Err(reason) => return Err(EditError::InvalidUpdate(reason)),
        };
        if let Err(reason) = merge_update(&mut staged, update, "vsdx:remote") {
            return Err(EditError::InvalidUpdate(reason));
        }
        let ghost merged = staged;
        let remote = label_bytes("vsdx:remote");
        if normalize_page_order(&mut staged, remote.as_slice()).is_err() {
            assert(!admits_update(self.document(), merged));
            return Err(EditError::InvalidState(owned("missing vsdx:page-order array")));
        }
        proof {
            lemma_repaired_clean(texts_of(page_order(merged).unwrap()), None);
        }
        let ghost ordered = staged;
        let sheet_keys = entry_keys(&staged, "vsdx:sheets");
        normalize_shape_orders(&mut staged, "vsdx:pages", &sheet_keys, remote.as_slice());
        let ghost mid = staged;
        normalize_shape_orders(&mut staged, "vsdx:sheets", &sheet_keys, remote.as_slice());
        proof {
            let keyseq = keys_view(sheet_keys@);
            reveal_strlit("vsdx:pages");
            reveal_strlit("vsdx:sheets");
            assert("vsdx:pages"@ != "vsdx:sheets"@) by {
                assert("vsdx:pages"@[5] != "vsdx:sheets"@[5]);
            }
            assert(shapes_of(staged) == shapes_of(ordered));
            assert forall|id: Seq<char>| keyseq.contains(id) implies shapes_of(staged).dom().contains(id) by {}
            assert forall|r: Seq<char>, k: Seq<char>|
                (r == "vsdx:pages"@ || r == "vsdx:sheets"@) && #[trigger] doc_nested_array(staged, r, k, "shapes"@) is Some
                implies names_shapes_once(texts_of(doc_nested_array(staged, r, k, "shapes"@).unwrap()), shapes_of(staged).dom()) by {
                if r == "vsdx:pages"@ {
                    assert(doc_nested_array(staged, r, k, "shapes"@) == doc_nested_array(mid, r, k, "shapes"@));
                    let items = doc_nested_array(ordered, r, k, "shapes"@).unwrap();
                    lemma_repaired_names_shapes_once(texts_of(items), keyseq, shapes_of(staged).dom());
                } else {
                    let items = doc_nested_array(mid, r, k, "shapes"@).unwrap();
                    lemma_repaired_names_shapes_once(texts_of(items), keyseq, shapes_of(staged).dom());
                }
            }
        }
        let checked = match check_metadata(&self.doc, &staged) {
            Ok(()) => match check_pages(&self.doc, &staged) {
            Ok(()) => match check_fixed_shapes(&self.doc, &staged) {
                Ok(()) => match check_identities(&self.doc, &staged) {
                    Ok(()) => match check_baselines(&self.doc, &staged) {
                        Ok(()) => check_new_values(&self.doc, &staged),
                        Err(error) => Err(error),
                    },
                    Err(error) => Err(error),
                },
                Err(error) => Err(error),
            },
            Err(error) => Err(error),
            },
            Err(error) => Err(error),
        };
        if let Err(error) = checked {
            assert(!admits_update(self.document(), staged));
            return Err(error);
        }
        self.doc = staged;
        Ok(())
    }
}

} // verus!
