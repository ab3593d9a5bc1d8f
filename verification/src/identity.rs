//! What a peer's update may not do to the shapes themselves: rewrite a shape's identity, or add
//! a shape that no session made.
use vstd::prelude::*;

use crate::model::{EditError, EditResult};
use crate::orders::{item_view, keys_view};
use crate::text::{owned, push_str, str_eq};

verus! {

/// The identity of a shape in the session document: its page, its parent, its provenance
/// (`origin`), and its package source ID.
#[derive(Clone, Debug)]
pub struct ShapeIdentity {
    pub page_id: Option<String>,
    pub parent_id: Option<String>,
    pub origin: Option<String>,
    pub source_id: Option<i64>,
}

pub open spec fn identity_view(identity: ShapeIdentity) -> (
    Option<Seq<char>>,
    Option<Seq<char>>,
    Option<Seq<char>>,
    Option<i64>,
) {
    (
        item_view(identity.page_id),
        item_view(identity.parent_id),
        item_view(identity.origin),
        identity.source_id,
    )
}

/// Whether `records` has an entry for shape `key`.
pub open spec fn has_shape(records: Seq<(String, ShapeIdentity)>, key: Seq<char>) -> bool {
    exists|i: int| 0 <= i < records.len() && #[trigger] records[i].0@ == key
}

/// The identity `records` gives shape `key`.
pub open spec fn identity_of(records: Seq<(String, ShapeIdentity)>, key: Seq<char>) -> ShapeIdentity
    recommends
        has_shape(records, key),
{
    records[choose|i: int| 0 <= i < records.len() && #[trigger] records[i].0@ == key].1
}

/// No shape is listed twice.
pub open spec fn unique_shapes(records: Seq<(String, ShapeIdentity)>) -> bool {
    forall|i: int, j: int|
        0 <= i < j < records.len() ==> #[trigger] records[i].0@ != #[trigger] records[j].0@
}

/// A shape both documents hold keeps its identity.
pub open spec fn identity_fault(
    record: (String, ShapeIdentity),
    after: Seq<(String, ShapeIdentity)>,
) -> Option<Seq<char>> {
    if has_shape(after, record.0@) && identity_view(identity_of(after, record.0@))
        != identity_view(record.1) {
        Some("remote update changes the identity of shape "@ + record.0@)
    } else {
        None
    }
}

/// A shape only the merged document holds must have been added in a session.
pub open spec fn provenance_fault(
    record: (String, ShapeIdentity),
    before: Seq<(String, ShapeIdentity)>,
) -> Option<Seq<char>> {
    if !has_shape(before, record.0@) && item_view(record.1.origin) != Some("added"@) {
        Some("remote update adds shape "@ + record.0@ + " without session provenance"@)
    } else {
        None
    }
}

/// The first changed identity among `before`'s shapes from the `k`-th on.
pub open spec fn first_identity_fault(
    before: Seq<(String, ShapeIdentity)>,
    after: Seq<(String, ShapeIdentity)>,
    k: int,
) -> Option<Seq<char>>
    decreases before.len() - k,
{
    if k < 0 || k >= before.len() {
        None
    } else {
        match identity_fault(before[k], after) {
            Some(message) => Some(message),
            None => first_identity_fault(before, after, k + 1),
        }
    }
}

/// The first shape without provenance among `after`'s shapes from the `k`-th on.
pub open spec fn first_provenance_fault(
    after: Seq<(String, ShapeIdentity)>,
    before: Seq<(String, ShapeIdentity)>,
    k: int,
) -> Option<Seq<char>>
    decreases after.len() - k,
{
    if k < 0 || k >= after.len() {
        None
    } else {
        match provenance_fault(after[k], before) {
            Some(message) => Some(message),
            None => first_provenance_fault(after, before, k + 1),
        }
    }
}

/// What the identity check reports first: a changed identity, in `before`'s order, then a shape
/// without provenance, in `after`'s order.
pub open spec fn identities_fault(
    before: Seq<(String, ShapeIdentity)>,
    after: Seq<(String, ShapeIdentity)>,
) -> Option<Seq<char>> {
    match first_identity_fault(before, after, 0) {
        Some(message) => Some(message),
        None => first_provenance_fault(after, before, 0),
    }
}

/// The position of shape `key` in `records`.
fn find_shape(records: &Vec<(String, ShapeIdentity)>, key: &str) -> (result: Option<usize>)
    ensures
        match result {
            Some(i) => i < records@.len() && records@[i as int].0@ == key@,
            None => !has_shape(records@, key@),
        },
{
    let mut i: usize = 0;
    while i < records.len()
        invariant
            i <= records@.len(),
            forall|t: int| 0 <= t < i ==> #[trigger] records@[t].0@ != key@,
        decreases records@.len() - i,
    {
        if str_eq(records[i].0.as_str(), key) {
            return Some(i);
        }
        i = i + 1;
    }
    None
}

fn same_text(a: &Option<String>, b: &Option<String>) -> (result: bool)
    ensures
        result == (item_view(*a) == item_view(*b)),
{
    match (a, b) {
        (Some(x), Some(y)) => str_eq(x.as_str(), y.as_str()),
        (None, None) => true,
        _ => false,
    }
}

fn same_identity(a: &ShapeIdentity, b: &ShapeIdentity) -> (result: bool)
    ensures
        result == (identity_view(*a) == identity_view(*b)),
{
    same_text(&a.page_id, &b.page_id) && same_text(&a.parent_id, &b.parent_id) && same_text(
        &a.origin,
        &b.origin,
    ) && a.source_id == b.source_id
}

fn is_added(origin: &Option<String>) -> (result: bool)
    ensures
        result == (item_view(*origin) == Some("added"@)),
{
    match origin {
        Some(o) => str_eq(o.as_str(), "added"),
        None => false,
    }
}

/// Refuses a peer's update that rewrites a shape's identity (page, parent, origin, source ID)
/// or adds a shape that no session made: `before` and `after` list each document's shapes by
/// key. The first offence is named: a changed identity, in `before`'s order, before a shape
/// without provenance, in `after`'s order.
pub fn check_shape_identities(
    before: &Vec<(String, ShapeIdentity)>,
    after: &Vec<(String, ShapeIdentity)>,
) -> (result: EditResult<()>)
    requires
        unique_shapes(after@),
    ensures
        result is Ok <==> (forall|i: int|
            0 <= i < before@.len() ==> #[trigger] identity_fault(before@[i], after@) is None) && (
        forall|j: int| 0 <= j < after@.len() ==> #[trigger] provenance_fault(after@[j], before@) is None),
        match identities_fault(before@, after@) {
            Some(message) => result matches Err(EditError::InvalidState(m)) && m@ == message,
            None => result is Ok,
        },
{
    let mut k: usize = 0;
    while k < before.len()
        invariant
            k <= before@.len(),
            unique_shapes(after@),
            first_identity_fault(before@, after@, 0) == first_identity_fault(before@, after@, k as int),
            forall|i: int| 0 <= i < k ==> #[trigger] identity_fault(before@[i], after@) is None,
        decreases before@.len() - k,
    {
        let key = &before[k].0;
        match find_shape(after, key.as_str()) {
            Some(i) => {
                assert(identity_of(after@, key@) == after@[i as int].1);
                if !same_identity(&after[i].1, &before[k].1) {
                    let mut message = owned("remote update changes the identity of shape ");
                    push_str(&mut message, key.as_str());
                    return Err(EditError::InvalidState(message));
                }
            },
            None => {},
        }
        k = k + 1;
    }
    let mut k: usize = 0;
    while k < after.len()
        invariant
            k <= after@.len(),
            first_identity_fault(before@, after@, 0) is None,
            first_provenance_fault(after@, before@, 0) == first_provenance_fault(after@, before@, k as int),
            forall|i: int| 0 <= i < before@.len() ==> #[trigger] identity_fault(before@[i], after@) is None,
            forall|j: int| 0 <= j < k ==> #[trigger] provenance_fault(after@[j], before@) is None,
        decreases after@.len() - k,
    {
        let key = &after[k].0;
        if find_shape(before, key.as_str()).is_none() && !is_added(&after[k].1.origin) {
            let mut message = owned("remote update adds shape ");
            push_str(&mut message, key.as_str());
            push_str(&mut message, " without session provenance");
            return Err(EditError::InvalidState(message));
        }
        k = k + 1;
    }
    Ok(())
}

/// The shapes a peer's update deletes: those `before` holds and `after` does not, in `before`'s
/// order.
pub fn removed_shapes(
    before: &Vec<(String, ShapeIdentity)>,
    after: &Vec<(String, ShapeIdentity)>,
) -> (result: Vec<String>)
    ensures
        forall|key: Seq<char>|
            #[trigger] keys_view(result@).contains(key) <==> (has_shape(before@, key) && !has_shape(
                after@,
                key,
            )),
{
    let mut out: Vec<String> = Vec::new();
    let mut k: usize = 0;
    while k < before.len()
        invariant
            k <= before@.len(),
            forall|key: Seq<char>|
                #[trigger] keys_view(out@).contains(key) <==> ((exists|i: int|
                    0 <= i < k && #[trigger] before@[i].0@ == key) && !has_shape(after@, key)),
        decreases before@.len() - k,
    {
        let key = &before[k].0;
        let ghost old_out = keys_view(out@);
        let gone = find_shape(after, key.as_str()).is_none();
        if gone {
            out.push(owned(key.as_str()));
        }
        proof {
            if gone {
                assert(keys_view(out@) == old_out.push(key@));
            } else {
                assert(keys_view(out@) == old_out);
            }
            assert forall|s: Seq<char>| #[trigger] keys_view(out@).contains(s) <==> ((exists|i: int|
                0 <= i < k + 1 && #[trigger] before@[i].0@ == s) && !has_shape(after@, s)) by {
                if gone {
                    assert(old_out.push(key@).contains(s) <==> (old_out.contains(s) || s == key@)) by {
                        if s == key@ {
                            assert(old_out.push(key@)[old_out.len() as int] == s);
                        }
                        if old_out.contains(s) {
                            let t = choose|t: int| 0 <= t < old_out.len() && old_out[t] == s;
                            assert(old_out.push(key@)[t] == s);
                        }
                        if old_out.push(key@).contains(s) && s != key@ {
                            let t = choose|t: int| 0 <= t < old_out.push(key@).len() && old_out.push(key@)[t] == s;
                            assert(old_out[t] == s);
                        }
                    }
                }
                if (exists|i: int| 0 <= i < k + 1 && #[trigger] before@[i].0@ == s) && s != key@ {
                    let i = choose|i: int| 0 <= i < k + 1 && #[trigger] before@[i].0@ == s;
                    assert(i < k);
                }
                if s == key@ {
                    assert(before@[k as int].0@ == s);
                }
            }
        }
        k = k + 1;
    }
    out
}

} // verus!
