//! The checks a paste makes against the live document before it writes, and the glue it
//! carries into the pasted copy.
use vstd::prelude::*;

use crate::cell_records::Whole;
use crate::connect::{endpoint_named, glue_target_ok, glue_text_ok, valid_glue_target, glue_text_valid, GlueEndpoint};
use crate::model::{invalid_state, EditError, EditResult, ParseLimits, ShapeTreeGlue};
use crate::allocate::{allocated, allocation_order, largest_original, materialized_source_ids, original_ids, SourceEntry};
use crate::connect::sources_view;
use crate::paste::{
    copy_keys, draft_source_page, first_page, keys_collide, pages_differ, referenced,
    referenced_ids, source_pages, tree_copy_keys, FlatTreeNode,
};
use crate::policy::{page_number_of, session_page_number};
use crate::schema::{page_lookup, pages_wf, sheet_position, sheets_described, SchemaPage, ShapeDetails};
use crate::shape_tree::{field_text, find_shape, Field, Sheets};
use crate::text::{decimal, owned, push_decimal, push_str, str_eq};

verus! {

/// The refusal for copying a shape its source refuses to have copied.
pub open spec fn copy_refused_message(source_id: Seq<char>, reason: Seq<char>) -> Seq<char> {
    "cannot copy shape "@ + source_id + " with "@ + reason
}

/// One pasted node's check against its live source, from the page and numeric page found so
/// far: the node must name its source; a live source may not refuse copying, must record its
/// page, and must share the page and numeric source page (its stored one, else its page's
/// number) of the sources before it; a source no longer live may not carry a refusal in the
/// draft. Gives the page and numeric page after it, or the refusal.
pub open spec fn source_step(
    state: (Option<Seq<char>>, Option<u32>),
    source: Option<String>,
    draft_refusal: Option<String>,
    sheets: &Sheets,
    details: Seq<ShapeDetails>,
) -> Result<(Option<Seq<char>>, Option<u32>), Seq<char>> {
    match source {
        None => Err("missing copy source"@),
        Some(source_id) => match sheets.shape_of(source_id@) {
            Some(shape) => {
                let detail = details[sheet_position(sheets, source_id@)];
                if detail.copy_refusal is Text {
                    Err(copy_refused_message(source_id@, field_text(detail.copy_refusal).unwrap()))
                } else {
                    match field_text(shape.page_id) {
                        None => Err("copy source is missing its page"@),
                        Some(owner) => if state.0 is Some && state.0 != Some(owner) {
                            Err("paste sources span multiple pages"@)
                        } else {
                            let numeric = match detail.copy_source_page_id {
                                Whole::Other => Err(
                                    "copySourcePageId is not an unsigned 32-bit integer"@,
                                ),
                                Whole::Value(page) => Ok(page),
                                Whole::Absent => match page_number_of(owner) {
                                    Some(page) => Ok(page),
                                    None => Err("copy source is missing its page"@),
                                },
                            };
                            match numeric {
                                Err(message) => Err(message),
                                Ok(page) => if state.1 is Some && state.1 != Some(page) {
                                    Err("paste sources span multiple pages"@)
                                } else {
                                    Ok((Some(owner), Some(page)))
                                },
                            }
                        },
                    }
                }
            },
            None => match draft_refusal {
                Some(reason) => Err(copy_refused_message(source_id@, reason@)),
                None => Ok(state),
            },
        },
    }
}

/// The numeric page the live sources from the `k`-th node on come from, given the page and
/// numeric page found before them.
pub open spec fn source_fold(
    nodes: Seq<FlatTreeNode>,
    k: int,
    state: (Option<Seq<char>>, Option<u32>),
    sheets: &Sheets,
    details: Seq<ShapeDetails>,
) -> Result<Option<u32>, Seq<char>>
    decreases nodes.len() - k,
{
    if k < 0 || k >= nodes.len() {
        Ok(state.1)
    } else {
        match source_step(
            state,
            nodes[k].draft.source_shape_id,
            nodes[k].draft.copy_refusal,
            sheets,
            details,
        ) {
            Err(message) => Err(message),
            Ok(next) => source_fold(nodes, k + 1, next, sheets, details),
        }
    }
}

/// Checks a pasted subtree's nodes against their live sources in the sheets map (`details`
/// describes each sheets entry, position by position) and gives the one numeric page the live
/// sources come from, if any is live.
pub fn paste_source_page(nodes: &[FlatTreeNode], sheets: &Sheets, details: &Vec<ShapeDetails>) -> (result:
    EditResult<Option<u32>>)
    requires
        sheets_described(sheets, details@),
    ensures
        match source_fold(nodes@, 0, (None, None), sheets, details@) {
            Ok(page) => result == Ok::<Option<u32>, EditError>(page),
            Err(message) => result matches Err(EditError::InvalidState(m)) && m@ == message,
        },
{
    let mut page_id: Option<String> = None;
    let mut numeric: Option<u32> = None;
    let mut k: usize = 0;
    while k < nodes.len()
        invariant
            sheets_described(sheets, details@),
            k <= nodes@.len(),
            source_fold(nodes@, 0, (None, None), sheets, details@) == source_fold(
                nodes@,
                k as int,
                (crate::cell_records::text_view(page_id), numeric),
                sheets,
                details@,
            ),
        decreases nodes@.len() - k,
    {
        let node = &nodes[k];
        let source_id = match &node.draft.source_shape_id {
            Some(source_id) => source_id,
            None => {
                return Err(invalid_state("missing copy source"));
            },
        };
        match find_shape(sheets, source_id.as_str()) {
            Some(o) => {
                proof {
                    let p = sheet_position(sheets, source_id@);
                    assert(sheets.entries@[o as int].key@ == source_id@);
                    assert(0 <= p < sheets.entries@.len() && sheets.entries@[p].key@ == source_id@);
                    assert(p == o as int);
                }
                let detail = &details[o];
                if let Field::Text(reason) = &detail.copy_refusal {
                    let mut message = owned("cannot copy shape ");
                    push_str(&mut message, source_id.as_str());
                    push_str(&mut message, " with ");
                    push_str(&mut message, reason.as_str());
                    return Err(EditError::InvalidState(message));
                }
                let shape = match &sheets.entries[o].shape {
                    Some(shape) => shape,
                    None => {
                        return Err(invalid_state("copy source is missing its page"));
                    },
                };
                let owner = match &shape.page_id {
                    Field::Text(owner) => owner,
                    _ => {
                        return Err(invalid_state("copy source is missing its page"));
                    },
                };
                match &page_id {
                    Some(expected) => {
                        if !str_eq(expected.as_str(), owner.as_str()) {
                            return Err(invalid_state("paste sources span multiple pages"));
                        }
                    },
                    None => {},
                }
                let page = match detail.copy_source_page_id {
                    Whole::Other => {
                        return Err(
                            invalid_state("copySourcePageId is not an unsigned 32-bit integer"),
                        );
                    },
                    Whole::Value(page) => page,
                    Whole::Absent => session_page_number(owner.as_str())?,
                };
                match numeric {
                    Some(expected) => {
                        if expected != page {
                            return Err(invalid_state("paste sources span multiple pages"));
                        }
                    },
                    None => {},
                }
                page_id = Some(owner.clone());
                numeric = Some(page);
            },
            None => {
                if let Some(reason) = &node.draft.copy_refusal {
                    let mut message = owned("cannot copy shape ");
                    push_str(&mut message, source_id.as_str());
                    push_str(&mut message, " with ");
                    push_str(&mut message, reason.as_str());
                    return Err(EditError::InvalidState(message));
                }
            },
        }
        k = k + 1;
    }
    Ok(numeric)
}

/// A glue record a paste carries into its copy: the endpoint, the fresh IDs of the pasted
/// connector and target, and the target cell.
#[derive(Clone, Debug, PartialEq, Eq)]
pub struct CarriedGlue {
    pub endpoint: GlueEndpoint,
    pub connector_id: String,
    pub target_id: String,
    pub to_cell: String,
}

pub open spec fn carried_view(glue: CarriedGlue) -> (GlueEndpoint, Seq<char>, Seq<char>, Seq<char>) {
    (glue.endpoint, glue.connector_id@, glue.target_id@, glue.to_cell@)
}

/// The pasted node was copied from `source`.
pub open spec fn names_source(node: FlatTreeNode, source: Seq<char>) -> bool {
    node.draft.source_shape_id matches Some(s) && s@ == source
}

/// The position of the first pasted node whose copy source is `source`.
pub open spec fn located(nodes: Seq<FlatTreeNode>, source: Seq<char>) -> Option<int> {
    if exists|i: int| 0 <= i < nodes.len() && #[trigger] names_source(nodes[i], source) {
        Some(
            choose|i: int|
                0 <= i < nodes.len() && #[trigger] names_source(nodes[i], source) && forall|j: int|
                    0 <= j < i ==> !names_source(nodes[j], source),
        )
    } else {
        None
    }
}

/// One draft glue record's step, from the endpoints `seen` and the glue `carried` so far: the
/// record must name an endpoint and a valid target cell, and its connector endpoint may not be
/// glued already; it is carried where its connector and target are both pasted nodes, under
/// their fresh IDs.
pub open spec fn carry_step(
    record: ShapeTreeGlue,
    seen: Seq<(Seq<char>, GlueEndpoint)>,
    carried: Seq<(GlueEndpoint, Seq<char>, Seq<char>, Seq<char>)>,
    nodes: Seq<FlatTreeNode>,
    fresh: Seq<Seq<char>>,
    max_attribute_bytes: usize,
) -> Result<(Seq<(Seq<char>, GlueEndpoint)>, Seq<(GlueEndpoint, Seq<char>, Seq<char>, Seq<char>)>), Seq<char>> {
    match endpoint_named(record.endpoint@) {
        None => Err("connector glue has no endpoint"@),
        Some(endpoint) => if !glue_target_ok(record.to_cell@) || !glue_text_ok(
            record.to_cell@,
            max_attribute_bytes,
        ) {
            Err("connector glue has an invalid target cell"@)
        } else if seen.contains((record.connector_source@, endpoint)) {
            Err("connector glue duplicates an endpoint"@)
        } else {
            let seen = seen.push((record.connector_source@, endpoint));
            match (located(nodes, record.connector_source@), located(nodes, record.target_source@)) {
                (Some(c), Some(t)) => Ok((seen, carried.push((endpoint, fresh[c], fresh[t], record.to_cell@)))),
                _ => Ok((seen, carried)),
            }
        },
    }
}

/// The glue carried from the `k`-th draft glue record on, after `carried`, with the endpoints
/// `seen` so far.
pub open spec fn carry_fold(
    glue: Seq<ShapeTreeGlue>,
    k: int,
    seen: Seq<(Seq<char>, GlueEndpoint)>,
    carried: Seq<(GlueEndpoint, Seq<char>, Seq<char>, Seq<char>)>,
    nodes: Seq<FlatTreeNode>,
    fresh: Seq<Seq<char>>,
    max_attribute_bytes: usize,
) -> Result<Seq<(GlueEndpoint, Seq<char>, Seq<char>, Seq<char>)>, Seq<char>>
    decreases glue.len() - k,
{
    if k < 0 || k >= glue.len() {
        Ok(carried)
    } else {
        match carry_step(glue[k], seen, carried, nodes, fresh, max_attribute_bytes) {
            Err(message) => Err(message),
            Ok((seen, carried)) => carry_fold(glue, k + 1, seen, carried, nodes, fresh, max_attribute_bytes),
        }
    }
}

/// The carried entry `entry` is draft glue record `record` moved onto the paste: the same
/// endpoint and target cell, from the fresh ID of the pasted connector to the fresh ID of the
/// pasted target.
#[verifier::opaque]
pub open spec fn carries(
    entry: (GlueEndpoint, Seq<char>, Seq<char>, Seq<char>),
    record: ShapeTreeGlue,
    nodes: Seq<FlatTreeNode>,
    fresh: Seq<Seq<char>>,
) -> bool {
    &&& endpoint_named(record.endpoint@) == Some(entry.0)
    &&& located(nodes, record.connector_source@) matches Some(c) && entry.1 == fresh[c]
    &&& located(nodes, record.target_source@) matches Some(t) && entry.2 == fresh[t]
    &&& entry.3 == record.to_cell@
}

/// Every entry of `list` carries one of the first `n` draft records.
pub open spec fn carried_from(
    list: Seq<(GlueEndpoint, Seq<char>, Seq<char>, Seq<char>)>,
    glue: Seq<ShapeTreeGlue>,
    n: int,
    nodes: Seq<FlatTreeNode>,
    fresh: Seq<Seq<char>>,
) -> bool {
    forall|p: int| 0 <= p < list.len() ==> exists|j: int| 0 <= j < n && carries(#[trigger] list[p], glue[j], nodes, fresh)
}

/// Every one of the first `n` draft records between two pasted nodes is carried by an entry of
/// `list`.
pub open spec fn all_carried(
    list: Seq<(GlueEndpoint, Seq<char>, Seq<char>, Seq<char>)>,
    glue: Seq<ShapeTreeGlue>,
    n: int,
    nodes: Seq<FlatTreeNode>,
    fresh: Seq<Seq<char>>,
) -> bool {
    forall|j: int| 0 <= j < n && (#[trigger] located(nodes, glue[j].connector_source@)) is Some
        && located(nodes, glue[j].target_source@) is Some ==> exists|p: int|
            0 <= p < list.len() && carries(list[p], glue[j], nodes, fresh)
}

/// How many of the first `n` draft records join two pasted nodes.
pub open spec fn pasted_count(glue: Seq<ShapeTreeGlue>, n: int, nodes: Seq<FlatTreeNode>) -> nat
    decreases n,
{
    if n <= 0 || n > glue.len() {
        0
    } else if located(nodes, glue[n - 1].connector_source@) is Some && located(nodes, glue[n - 1].target_source@) is Some {
        pasted_count(glue, n - 1, nodes) + 1
    } else {
        pasted_count(glue, n - 1, nodes)
    }
}

proof fn lemma_carry_push(
    carried: Seq<(GlueEndpoint, Seq<char>, Seq<char>, Seq<char>)>,
    e: (GlueEndpoint, Seq<char>, Seq<char>, Seq<char>),
    glue: Seq<ShapeTreeGlue>,
    k: int,
    nodes: Seq<FlatTreeNode>,
    fresh: Seq<Seq<char>>,
)
    requires
        0 <= k < glue.len(),
        carried_from(carried, glue, k, nodes, fresh),
        all_carried(carried, glue, k, nodes, fresh),
        carries(e, glue[k], nodes, fresh),
    ensures
        carried_from(carried.push(e), glue, k + 1, nodes, fresh),
        all_carried(carried.push(e), glue, k + 1, nodes, fresh),
{
    let c2 = carried.push(e);
    assert forall|p: int| 0 <= p < c2.len() implies exists|j: int|
        0 <= j < k + 1 && carries(#[trigger] c2[p], glue[j], nodes, fresh) by {
        if p < carried.len() {
            assert(c2[p] == carried[p]);
            let j = choose|j: int| 0 <= j < k && carries(carried[p], glue[j], nodes, fresh);
            assert(carries(c2[p], glue[j], nodes, fresh));
        } else {
            assert(c2[p] == e);
        }
    }
    assert forall|j: int| 0 <= j < k + 1 && (#[trigger] located(nodes, glue[j].connector_source@)) is Some
        && located(nodes, glue[j].target_source@) is Some implies exists|p: int|
            0 <= p < c2.len() && carries(c2[p], glue[j], nodes, fresh) by {
        if j < k {
            let p = choose|p: int| 0 <= p < carried.len() && carries(carried[p], glue[j], nodes, fresh);
            assert(c2[p] == carried[p]);
        } else {
            assert(c2[carried.len() as int] == e);
        }
    }
}

proof fn lemma_carry_skip(
    carried: Seq<(GlueEndpoint, Seq<char>, Seq<char>, Seq<char>)>,
    glue: Seq<ShapeTreeGlue>,
    k: int,
    nodes: Seq<FlatTreeNode>,
    fresh: Seq<Seq<char>>,
)
    requires
        0 <= k < glue.len(),
        carried_from(carried, glue, k, nodes, fresh),
        all_carried(carried, glue, k, nodes, fresh),
        !(located(nodes, glue[k].connector_source@) is Some && located(nodes, glue[k].target_source@) is Some),
    ensures
        carried_from(carried, glue, k + 1, nodes, fresh),
        all_carried(carried, glue, k + 1, nodes, fresh),
{
    assert forall|p: int| 0 <= p < carried.len() implies exists|j: int|
        0 <= j < k + 1 && carries(#[trigger] carried[p], glue[j], nodes, fresh) by {
        let j = choose|j: int| 0 <= j < k && carries(carried[p], glue[j], nodes, fresh);
    }
}

proof fn lemma_carry_fold_carries(
    glue: Seq<ShapeTreeGlue>,
    k: int,
    seen: Seq<(Seq<char>, GlueEndpoint)>,
    carried: Seq<(GlueEndpoint, Seq<char>, Seq<char>, Seq<char>)>,
    nodes: Seq<FlatTreeNode>,
    fresh: Seq<Seq<char>>,
    max_attribute_bytes: usize,
)
    requires
        0 <= k <= glue.len(),
        carried_from(carried, glue, k, nodes, fresh),
        all_carried(carried, glue, k, nodes, fresh),
        carried.len() == pasted_count(glue, k, nodes),
    ensures
        carry_fold(glue, k, seen, carried, nodes, fresh, max_attribute_bytes) matches Ok(list) ==> carried_from(
            list,
            glue,
            glue.len() as int,
            nodes,
            fresh,
        ) && all_carried(list, glue, glue.len() as int, nodes, fresh) && list.len() == pasted_count(
            glue,
            glue.len() as int,
            nodes,
        ),
    decreases glue.len() - k,
{
    if k < glue.len() {
        match carry_step(glue[k], seen, carried, nodes, fresh, max_attribute_bytes) {
            Err(_) => {},
            Ok((seen2, carried2)) => {
                let record = glue[k];
                match (located(nodes, record.connector_source@), located(nodes, record.target_source@)) {
                    (Some(c), Some(t)) => {
                        let e = (endpoint_named(record.endpoint@).unwrap(), fresh[c], fresh[t], record.to_cell@);
                        assert(carried2 == carried.push(e));
                        assert(carries(e, glue[k], nodes, fresh)) by {
                            reveal(carries);
                        }
                        lemma_carry_push(carried, e, glue, k, nodes, fresh);
                    },
                    _ => {
                        assert(carried2 == carried);
                        lemma_carry_skip(carried, glue, k, nodes, fresh);
                    },
                }
                lemma_carry_fold_carries(glue, k + 1, seen2, carried2, nodes, fresh, max_attribute_bytes);
            },
        }
    }
}

/// The glue a paste carries is exactly the draft's glue between pasted nodes, each record
/// moved onto the copy unchanged but for the fresh IDs: every carried entry keeps the endpoint,
/// target cell, connector and target of a draft record, and every draft record whose connector
/// and target are both pasted is carried, once: there are as many entries as such records.
pub proof fn lemma_carried_glue_keeps_records(
    glue: Seq<ShapeTreeGlue>,
    nodes: Seq<FlatTreeNode>,
    fresh: Seq<Seq<char>>,
    max_attribute_bytes: usize,
)
    ensures
        carry_fold(glue, 0, Seq::empty(), Seq::empty(), nodes, fresh, max_attribute_bytes) matches Ok(list) ==> carried_from(
            list,
            glue,
            glue.len() as int,
            nodes,
            fresh,
        ) && all_carried(list, glue, glue.len() as int, nodes, fresh) && list.len() == pasted_count(
            glue,
            glue.len() as int,
            nodes,
        ),
{
    lemma_carry_fold_carries(glue, 0, Seq::empty(), Seq::empty(), nodes, fresh, max_attribute_bytes);
}

pub open spec fn seen_view(seen: Seq<(String, GlueEndpoint)>) -> Seq<(Seq<char>, GlueEndpoint)> {
    seen.map_values(|e: (String, GlueEndpoint)| (e.0@, e.1))
}

pub open spec fn carried_views(carried: Seq<CarriedGlue>) -> Seq<(GlueEndpoint, Seq<char>, Seq<char>, Seq<char>)> {
    carried.map_values(|g: CarriedGlue| carried_view(g))
}

/// The position of the first node whose copy source is `source`.
fn locate(nodes: &[FlatTreeNode], source: &str) -> (result: Option<usize>)
    ensures
        match result {
            Some(c) => c < nodes@.len() && located(nodes@, source@) == Some(c as int),
            None => located(nodes@, source@) is None,
        },
{
    let mut i: usize = 0;
    while i < nodes.len()
        invariant
            i <= nodes@.len(),
            forall|j: int| 0 <= j < i ==> !#[trigger] names_source(nodes@[j], source@),
        decreases nodes@.len() - i,
    {
        if let Some(s) = &nodes[i].draft.source_shape_id {
            if str_eq(s.as_str(), source) {
                proof {
                    assert(names_source(nodes@[i as int], source@));
                    assert(forall|j: int| 0 <= j < i ==> !names_source(nodes@[j], source@));
                    let c = choose|c: int|
                        0 <= c < nodes@.len() && #[trigger] names_source(nodes@[c], source@)
                            && forall|j: int| 0 <= j < c ==> !names_source(nodes@[j], source@);
                    if c < i as int {
                        assert(!names_source(nodes@[c], source@));
                    } else if c > i as int {
                        assert(!names_source(nodes@[i as int], source@));
                    }
                }
                return Some(i);
            }
        }
        i = i + 1;
    }
    None
}

/// Whether `seen` holds the connector endpoint.
pub(crate) fn seen_endpoint(seen: &Vec<(String, GlueEndpoint)>, connector: &str, endpoint: GlueEndpoint) -> (result: bool)
    ensures
        result == seen_view(seen@).contains((connector@, endpoint)),
{
    let ghost view = seen_view(seen@);
    let mut i: usize = 0;
    while i < seen.len()
        invariant
            i <= seen@.len(),
            view == seen_view(seen@),
            forall|j: int| 0 <= j < i ==> view[j] != (connector@, endpoint),
        decreases seen@.len() - i,
    {
        if seen[i].1 == endpoint && str_eq(seen[i].0.as_str(), connector) {
            assert(view[i as int] == (connector@, endpoint));
            return true;
        }
        i = i + 1;
    }
    proof {
        if view.contains((connector@, endpoint)) {
            let j = choose|j: int| 0 <= j < view.len() && view[j] == (connector@, endpoint);
            assert(view[j] != (connector@, endpoint));
        }
    }
    false
}

/// Takes one draft glue record's step.
#[verifier::spinoff_prover]
#[verifier::rlimit(60)]
fn carry_one(
    record: &ShapeTreeGlue,
    nodes: &[FlatTreeNode],
    fresh: &Vec<String>,
    limits: &ParseLimits,
    seen: &mut Vec<(String, GlueEndpoint)>,
    carried: &mut Vec<CarriedGlue>,
) -> (result: EditResult<()>)
    requires
        fresh@.len() == nodes@.len(),
    ensures
        match carry_step(
            *record,
            seen_view(old(seen)@),
            carried_views(old(carried)@),
            nodes@,
            fresh@.map_values(|id: String| id@),
            limits.max_attribute_bytes,
        ) {
            Ok((s, c)) => result is Ok && seen_view(final(seen)@) == s && carried_views(final(carried)@) == c,
            Err(message) => result matches Err(EditError::InvalidState(m)) && m@ == message,
        },
{
    let ghost ids = fresh@.map_values(|id: String| id@);
    let endpoint = match GlueEndpoint::parse(record.endpoint.as_str()) {
        Some(endpoint) => endpoint,
        None => {
            return Err(invalid_state("connector glue has no endpoint"));
        },
    };
    if !valid_glue_target(record.to_cell.as_str()) || !glue_text_valid(
        record.to_cell.as_str(),
        limits.max_attribute_bytes,
    ) {
        return Err(invalid_state("connector glue has an invalid target cell"));
    }
    if seen_endpoint(seen, record.connector_source.as_str(), endpoint) {
        return Err(invalid_state("connector glue duplicates an endpoint"));
    }
    let ghost seen0 = seen_view(seen@);
    seen.push((record.connector_source.clone(), endpoint));
    assert(seen_view(seen@) =~= seen0.push((record.connector_source@, endpoint)));
    let connector = locate(nodes, record.connector_source.as_str());
    let target = locate(nodes, record.target_source.as_str());
    match (connector, target) {
        (Some(c), Some(t)) => {
            let ghost before = carried_views(carried@);
            assert(ids[c as int] == fresh@[c as int]@);
            assert(ids[t as int] == fresh@[t as int]@);
            carried.push(
                CarriedGlue {
                    endpoint,
                    connector_id: fresh[c].clone(),
                    target_id: fresh[t].clone(),
                    to_cell: record.to_cell.clone(),
                },
            );
            assert(carried_views(carried@) =~= before.push(
                (endpoint, ids[c as int], ids[t as int], record.to_cell@),
            ));
        },
        _ => {},
    }
    Ok(())
}

/// The draft glue a paste carries into its copy: `nodes` are the pasted nodes and `fresh` the
/// IDs they are given, position by position; `limits` bound a target cell's text. A record
/// without an endpoint or with an invalid target cell, and a connector endpoint glued twice,
/// refuse the paste; a record whose connector or target is not pasted is dropped.
pub fn carried_tree_glue(
    glue: &Vec<ShapeTreeGlue>,
    nodes: &[FlatTreeNode],
    fresh: &Vec<String>,
    limits: &ParseLimits,
) -> (result: EditResult<Vec<CarriedGlue>>)
    requires
        fresh@.len() == nodes@.len(),
    ensures
        match carry_fold(
            glue@,
            0,
            Seq::empty(),
            Seq::empty(),
            nodes@,
            fresh@.map_values(|id: String| id@),
            limits.max_attribute_bytes,
        ) {
            Ok(carried) => result matches Ok(list) && carried_views(list@) == carried,
            Err(message) => result matches Err(EditError::InvalidState(m)) && m@ == message,
        },
{
    let ghost ids = fresh@.map_values(|id: String| id@);
    let mut seen: Vec<(String, GlueEndpoint)> = Vec::new();
    let mut carried: Vec<CarriedGlue> = Vec::new();
    let mut k: usize = 0;
    assert(seen_view(seen@) =~= Seq::<(Seq<char>, GlueEndpoint)>::empty());
    assert(carried_views(carried@) =~= Seq::<(GlueEndpoint, Seq<char>, Seq<char>, Seq<char>)>::empty());
    while k < glue.len()
        invariant
            fresh@.len() == nodes@.len(),
            ids == fresh@.map_values(|id: String| id@),
            k <= glue@.len(),
            carry_fold(glue@, 0, Seq::empty(), Seq::empty(), nodes@, ids, limits.max_attribute_bytes)
                == carry_fold(
                glue@,
                k as int,
                seen_view(seen@),
                carried_views(carried@),
                nodes@,
                ids,
                limits.max_attribute_bytes,
            ),
        decreases glue@.len() - k,
    {
        carry_one(&glue[k], nodes, fresh, limits, &mut seen, &mut carried)?;
        k = k + 1;
    }
    Ok(carried)
}

/// The largest of `values`, or `default` where there are none.
pub open spec fn largest_or(values: Seq<u32>, default: u32) -> u32
    decreases values.len(),
{
    if values.len() == 0 {
        default
    } else {
        let rest = largest_or(values.drop_last(), values.last());
        if values.len() == 1 || values.last() >= rest {
            values.last()
        } else {
            rest
        }
    }
}

/// The source IDs of the shapes a page holds, as allocated.
pub open spec fn allocated_values(allocated: Seq<(String, u32)>) -> Seq<u32> {
    allocated.map_values(|entry: (String, u32)| entry.1)
}

proof fn lemma_largest_or_step(values: Seq<u32>, default: u32, x: u32)
    ensures
        largest_or(values.push(x), default) == if values.len() == 0 {
            x
        } else if x >= largest_or(values, default) {
            x
        } else {
            largest_or(values, default)
        },
    decreases values.len(),
{
    assert(values.push(x).drop_last() =~= values);
    if values.len() > 0 {
        lemma_largest_or_default(values, default, x);
    }
}

proof fn lemma_largest_or_default(values: Seq<u32>, a: u32, b: u32)
    requires
        values.len() > 0,
    ensures
        largest_or(values, a) == largest_or(values, b),
    decreases values.len(),
{
}

/// The source IDs a paste's `count` nodes are written with: one past the largest source ID the
/// page's shapes are allocated (the page's bound where it has none), counting up.
pub fn paste_source_ids(allocated: &Vec<(String, u32)>, bound: u32, count: usize) -> (result:
    EditResult<Vec<u32>>)
    ensures
        ({
            let top = largest_or(allocated_values(allocated@), bound);
            if top + count > u32::MAX {
                result matches Err(EditError::InvalidState(m)) && m@
                    == "cannot allocate a materialized source ID"@
            } else {
                result matches Ok(ids) && ids@ == Seq::new(count as nat, |i: int| (top + i + 1) as u32)
            }
        }),
{
    let mut top: u32 = bound;
    let mut i: usize = 0;
    while i < allocated.len()
        invariant
            i <= allocated@.len(),
            top == largest_or(allocated_values(allocated@).take(i as int), bound),
        decreases allocated@.len() - i,
    {
        proof {
            assert(allocated_values(allocated@).take(i + 1) =~= allocated_values(allocated@).take(
                i as int,
            ).push(allocated@[i as int].1));
            lemma_largest_or_step(allocated_values(allocated@).take(i as int), bound, allocated@[i as int].1);
        }
        if i == 0 || allocated[i].1 >= top {
            top = allocated[i].1;
        }
        i = i + 1;
    }
    assert(allocated_values(allocated@).take(allocated@.len() as int) =~= allocated_values(allocated@));
    let mut ids: Vec<u32> = Vec::new();
    let mut next: u32 = top;
    let mut k: usize = 0;
    while k < count
        invariant
            top == largest_or(allocated_values(allocated@), bound),
            k <= count,
            next == top + k,
            ids@ == Seq::new(k as nat, |j: int| (top + j + 1) as u32),
        decreases count - k,
    {
        if next == u32::MAX {
            return Err(invalid_state("cannot allocate a materialized source ID"));
        }
        next = next + 1;
        ids.push(next);
        k = k + 1;
        assert(ids@ =~= Seq::new(k as nat, |j: int| (top + j + 1) as u32));
    }
    Ok(ids)
}

/// The ID of the `position`-th pasted node: the page, the author's client ID and the clock it
/// has reached, and the position.
pub open spec fn fresh_id(page_id: Seq<char>, client_id: u64, sequence: u32, position: nat) -> Seq<char> {
    page_id + ":shape:added:"@ + decimal(client_id as nat) + ":"@ + decimal(sequence as nat) + ":"@
        + decimal(position)
}

/// A paste gives each of its nodes an identity of its own: two positions never get the same
/// fresh ID.
pub proof fn lemma_fresh_ids_distinct(page_id: Seq<char>, client_id: u64, sequence: u32, i: nat, j: nat)
    requires
        i != j,
    ensures
        fresh_id(page_id, client_id, sequence, i) != fresh_id(page_id, client_id, sequence, j),
{
    let prefix = page_id + ":shape:added:"@ + decimal(client_id as nat) + ":"@ + decimal(sequence as nat) + ":"@;
    let a = fresh_id(page_id, client_id, sequence, i);
    let b = fresh_id(page_id, client_id, sequence, j);
    assert(a =~= prefix + decimal(i));
    assert(b =~= prefix + decimal(j));
    crate::renumber::lemma_decimal_digits(i);
    crate::renumber::lemma_decimal_digits(j);
    if a == b {
        assert(a.subrange(prefix.len() as int, a.len() as int) =~= decimal(i));
        assert(b.subrange(prefix.len() as int, b.len() as int) =~= decimal(j));
        assert(decimal(i) == decimal(j));
    }
}

/// The fresh IDs of a paste's `count` nodes.
pub fn fresh_shape_ids(page_id: &str, client_id: u64, sequence: u32, count: usize) -> (result: Vec<
    String,
>)
    ensures
        result@.len() == count,
        forall|i: int| 0 <= i < count ==> #[trigger] result@[i]@ == fresh_id(page_id@, client_id, sequence, i as nat),
{
    let mut prefix = owned(page_id);
    push_str(&mut prefix, ":shape:added:");
    push_decimal(&mut prefix, client_id);
    push_str(&mut prefix, ":");
    push_decimal(&mut prefix, sequence as u64);
    push_str(&mut prefix, ":");
    let mut ids: Vec<String> = Vec::new();
    let mut k: usize = 0;
    while k < count
        invariant
            k <= count,
            prefix@ == page_id@ + ":shape:added:"@ + decimal(client_id as nat) + ":"@ + decimal(
                sequence as nat,
            ) + ":"@,
            ids@.len() == k,
            forall|i: int| 0 <= i < k ==> #[trigger] ids@[i]@ == fresh_id(page_id@, client_id, sequence, i as nat),
        decreases count - k,
    {
        let mut id = owned(prefix.as_str());
        push_decimal(&mut id, k as u64);
        ids.push(id);
        k = k + 1;
    }
    ids
}

/// The identities a paste remaps, each to the source ID its node is written with: the nodes
/// that answer to an identity, in order.
pub open spec fn remap_pairs(keys: Seq<Option<u32>>, ids: Seq<u32>) -> Seq<(u32, u32)>
    decreases keys.len(),
{
    if keys.len() == 0 || ids.len() < keys.len() {
        Seq::empty()
    } else {
        let rest = remap_pairs(keys.drop_last(), ids.take(keys.len() - 1));
        match keys.last() {
            Some(key) => rest.push((key, ids[keys.len() - 1])),
            None => rest,
        }
    }
}

/// Pairs each pasted node's identity with the source ID it is written with.
pub fn paste_remap(keys: &Vec<Option<u32>>, ids: &Vec<u32>) -> (result: Vec<(u32, u32)>)
    requires
        ids@.len() == keys@.len(),
    ensures
        result@ == remap_pairs(keys@, ids@),
{
    let mut pairs: Vec<(u32, u32)> = Vec::new();
    let mut k: usize = 0;
    while k < keys.len()
        invariant
            ids@.len() == keys@.len(),
            k <= keys@.len(),
            pairs@ == remap_pairs(keys@.take(k as int), ids@.take(k as int)),
        decreases keys@.len() - k,
    {
        proof {
            assert(keys@.take(k + 1).drop_last() =~= keys@.take(k as int));
            assert(ids@.take(k + 1).take(k as int) =~= ids@.take(k as int));
        }
        if let Some(key) = keys[k] {
            pairs.push((key, ids[k]));
        }
        k = k + 1;
    }
    assert(keys@.take(keys@.len() as int) =~= keys@);
    assert(ids@.take(ids@.len() as int) =~= ids@);
    pairs
}

/// Some pasted formula references a sheet the paste does not remap.
pub open spec fn foreign_reference(nodes: Seq<FlatTreeNode>, remap: Seq<(u32, u32)>) -> bool {
    exists|id: u32| #[trigger] referenced(nodes, id) && !remap.map_values(|p: (u32, u32)| p.0).contains(id)
}

/// Refuses a paste onto another page than its sources' whose formulas reference a shape
/// outside the copy; the target page must be a `page:N` session page.
#[verifier::loop_isolation(false)]
pub fn check_paste_references(
    nodes: &[FlatTreeNode],
    page_id: &str,
    source_page: Option<u32>,
    remap: &Vec<(u32, u32)>,
) -> (result: EditResult<()>)
    ensures
        match page_number_of(page_id@) {
            None => result matches Err(EditError::InvalidState(m)) && m@ == "copy source is missing its page"@,
            Some(page) => if source_page != Some(page) && foreign_reference(nodes@, remap@) {
                result matches Err(EditError::InvalidState(m)) && m@
                    == "paste references a shape outside the copy on another page"@
            } else {
                result is Ok
            },
        },
{
    let page = session_page_number(page_id)?;
    if source_page == Some(page) {
        return Ok(());
    }
    let ids = referenced_ids(nodes);
    let ghost keys = remap@.map_values(|p: (u32, u32)| p.0);
    let mut i: usize = 0;
    while i < ids.len()
        invariant
            i <= ids@.len(),
            keys == remap@.map_values(|p: (u32, u32)| p.0),
            forall|id: u32| ids@.contains(id) <==> referenced(nodes@, id),
            forall|j: int| 0 <= j < i ==> keys.contains(#[trigger] ids@[j]),
        decreases ids@.len() - i,
    {
        let id = ids[i];
        let mut known = false;
        let mut j: usize = 0;
        while j < remap.len()
            invariant
                j <= remap@.len(),
                keys == remap@.map_values(|p: (u32, u32)| p.0),
                known <==> exists|t: int| 0 <= t < j && keys[t] == id,
            decreases remap@.len() - j,
        {
            assert(keys[j as int] == remap@[j as int].0);
            if remap[j].0 == id {
                known = true;
            }
            j = j + 1;
        }
        if !known {
            proof {
                assert(ids@.contains(id));
                assert(referenced(nodes@, id));
                if keys.contains(id) {
                    let t = choose|t: int| 0 <= t < keys.len() && keys[t] == id;
                    assert(false);
                }
                assert(referenced(nodes@, id) && !remap@.map_values(|p: (u32, u32)| p.0).contains(id));
            }
            return Err(invalid_state("paste references a shape outside the copy on another page"));
        }
        proof {
            let t = choose|t: int| 0 <= t < j && keys[t] == id;
            assert(keys.contains(id));
        }
        i = i + 1;
    }
    proof {
        assert forall|id: u32| #[trigger] referenced(nodes@, id) implies keys.contains(id) by {
            assert(ids@.contains(id));
            let j = choose|j: int| 0 <= j < ids@.len() && ids@[j] == id;
            assert(keys.contains(ids@[j]));
        }
    }
    Ok(())
}

/// What a paste writes: each node's fresh ID, source ID and copy identity, in pre-order; the
/// source page the copy records; the identities it remaps to the new source IDs; and the glue
/// it carries.
#[derive(Clone, Debug, PartialEq, Eq)]
pub struct PastePlan {
    pub fresh_ids: Vec<String>,
    pub source_ids: Vec<u32>,
    pub copy_keys: Vec<Option<u32>>,
    pub source_page: Option<u32>,
    pub remap: Vec<(u32, u32)>,
    pub glue: Vec<CarriedGlue>,
}

pub type PlanView = (
    Seq<Seq<char>>,
    Seq<u32>,
    Seq<Option<u32>>,
    Option<u32>,
    Seq<(u32, u32)>,
    Seq<(GlueEndpoint, Seq<char>, Seq<char>, Seq<char>)>,
);

pub open spec fn plan_view(plan: PastePlan) -> PlanView {
    (
        plan.fresh_ids@.map_values(|id: String| id@),
        plan.source_ids@,
        plan.copy_keys@,
        plan.source_page,
        plan.remap@,
        carried_views(plan.glue@),
    )
}

/// Why a paste is refused: an invalid state with its message, or a page that is not found.
pub enum PasteFault {
    State(Seq<char>),
    Missing(Seq<char>),
}

pub open spec fn paste_fault_error(error: EditError, fault: PasteFault) -> bool {
    match fault {
        PasteFault::State(message) => error matches EditError::InvalidState(m) && m@ == message,
        PasteFault::Missing(key) => error matches EditError::PageNotFound(k) && k@ == key,
    }
}

/// The session ID of numeric page `n`.
pub open spec fn page_key(n: u32) -> Seq<char> {
    "page:"@ + decimal(n as nat)
}

/// The plan for pasting `nodes` (a copied subtree in pre-order, its root's draft glue `glue`)
/// onto page `page_id`, or why the paste is refused, in the order the checks run: distinct copy
/// identities; the target page with its shape order; the live sources (else the draft's
/// pages) on one page, which must exist; the shape count limit; the page's source ID bound;
/// source IDs past the page's allocated ones; no reference outside the copy when pasting onto
/// another page; the carried glue; and a first node to answer for the paste.
pub open spec fn paste_outcome(
    nodes: Seq<FlatTreeNode>,
    glue: Seq<ShapeTreeGlue>,
    page_id: Seq<char>,
    pages: Seq<(String, Option<SchemaPage>)>,
    sheets: &Sheets,
    details: Seq<ShapeDetails>,
    entries: Seq<SourceEntry>,
    client_id: u64,
    sequence: u32,
    max_shapes: usize,
    max_attribute_bytes: usize,
) -> Result<PlanView, PasteFault> {
    let state = |message: Seq<char>| Err::<PlanView, PasteFault>(PasteFault::State(message));
    if keys_collide(copy_keys(nodes)) {
        state("paste draft contains duplicate copy sources"@)
    } else {
        let keys = copy_keys(nodes);
        match page_lookup(pages, page_id) {
            None => Err(PasteFault::Missing(page_id)),
            Some(page) => if page.record.shapes is None {
                state("missing shapes array"@)
            } else {
                match source_fold(nodes, 0, (None, None), sheets, details) {
                    Err(message) => state(message),
                    Ok(live) => if live is None && pages_differ(source_pages(nodes)) {
                        state("paste sources span multiple pages"@)
                    } else {
                        let source_page = if live is Some {
                            live
                        } else {
                            first_page(source_pages(nodes))
                        };
                        if source_page matches Some(n) && page_lookup(pages, page_key(n)) is None {
                            state("paste source page is missing"@)
                        } else if sheets.entries@.len() + nodes.len() > max_shapes {
                            state("shape count exceeds maximum"@)
                        } else {
                            match page.max_source_id {
                                Whole::Other => state("maxSourceId is not an unsigned 32-bit integer"@),
                                Whole::Absent => state("missing page source ID bound"@),
                                Whole::Value(bound) => match allocated(
                                    allocation_order(entries),
                                    original_ids(entries).to_set(),
                                    largest_original(entries, bound),
                                ) {
                                    None => state("cannot allocate a materialized source ID"@),
                                    Some(taken) => {
                                        let top = largest_or(
                                            taken.map_values(|e: (Seq<char>, u32)| e.1),
                                            bound,
                                        );
                                        if top + nodes.len() > u32::MAX {
                                            state("cannot allocate a materialized source ID"@)
                                        } else {
                                            let ids = Seq::new(
                                                nodes.len(),
                                                |i: int| (top + i + 1) as u32,
                                            );
                                            let remap = remap_pairs(keys, ids);
                                            match page_number_of(page_id) {
                                                None => state("copy source is missing its page"@),
                                                Some(target) => if source_page != Some(target)
                                                    && foreign_reference(nodes, remap) {
                                                    state(
                                                        "paste references a shape outside the copy on another page"@,
                                                    )
                                                } else {
                                                    let fresh = Seq::new(
                                                        nodes.len(),
                                                        |i: int|
                                                            fresh_id(
                                                                page_id,
                                                                client_id,
                                                                sequence,
                                                                i as nat,
                                                            ),
                                                    );
                                                    match carry_fold(
                                                        glue,
                                                        0,
                                                        Seq::empty(),
                                                        Seq::empty(),
                                                        nodes,
                                                        fresh,
                                                        max_attribute_bytes,
                                                    ) {
                                                        Err(message) => state(message),
                                                        Ok(carried) => if nodes.len() == 0 {
                                                            state(
                                                                "paste draft is missing its copy source"@,
                                                            )
                                                        } else {
                                                            Ok(
                                                                (
                                                                    fresh,
                                                                    ids,
                                                                    keys,
                                                                    source_page,
                                                                    remap,
                                                                    carried,
                                                                ),
                                                            )
                                                        },
                                                    }
                                                },
                                            }
                                        }
                                    },
                                },
                            }
                        }
                    },
                }
            },
        }
    }
}

/// Plans pasting a copied subtree onto page `page_id` in one transaction: `nodes` are the
/// subtree's nodes in pre-order and `glue` its root's draft glue; `pages`, `sheets` and
/// `details` are the document's pages and sheets maps; `entries` are the target page's shapes
/// in tree order, for allocating source IDs; `client_id` and `sequence` are the author's client
/// ID and the clock it has reached, which make the fresh IDs; `max_shapes` and `limits` are the
/// package limits. The plan gives every node a fresh identity.
pub fn plan_shape_tree(
    nodes: &[FlatTreeNode],
    glue: &Vec<ShapeTreeGlue>,
    page_id: &str,
    pages: &Vec<(String, Option<SchemaPage>)>,
    sheets: &Sheets,
    details: &Vec<ShapeDetails>,
    entries: &[SourceEntry],
    client_id: u64,
    sequence: u32,
    max_shapes: usize,
    limits: &ParseLimits,
) -> (result: EditResult<PastePlan>)
    requires
        pages_wf(pages@),
        sheets_described(sheets, details@),
    ensures
        match paste_outcome(
            nodes@,
            glue@,
            page_id@,
            pages@,
            sheets,
            details@,
            entries@,
            client_id,
            sequence,
            max_shapes,
            limits.max_attribute_bytes,
        ) {
            Ok(plan) => result matches Ok(p) && plan_view(p) == plan,
            Err(fault) => result matches Err(error) && paste_fault_error(error, fault),
        },
{
    let keys = tree_copy_keys(nodes)?;
    let page = match crate::schema::find_page_position(pages, page_id) {
        None => {
            return Err(EditError::PageNotFound(owned(page_id)));
        },
        Some(i) => match &pages[i].1 {
            None => {
                return Err(EditError::PageNotFound(owned(page_id)));
            },
            Some(page) => page,
        },
    };
    if page.record.shapes.is_none() {
        return Err(invalid_state("missing shapes array"));
    }
    let live = paste_source_page(nodes, sheets, details)?;
    let source_page = match live {
        Some(page) => Some(page),
        None => draft_source_page(nodes)?,
    };
    if let Some(n) = source_page {
        let mut key = owned("page:");
        push_decimal(&mut key, n as u64);
        proof {
            reveal_strlit("page:");
        }
        let found = match crate::schema::find_page_position(pages, key.as_str()) {
            Some(i) => pages[i].1.is_some(),
            None => false,
        };
        if !found {
            return Err(invalid_state("paste source page is missing"));
        }
    }
    if sheets.entries.len() > max_shapes || nodes.len() > max_shapes - sheets.entries.len() {
        return Err(invalid_state("shape count exceeds maximum"));
    }
    let bound = match page.max_source_id {
        Whole::Other => {
            return Err(invalid_state("maxSourceId is not an unsigned 32-bit integer"));
        },
        Whole::Absent => {
            return Err(invalid_state("missing page source ID bound"));
        },
        Whole::Value(bound) => bound,
    };
    let taken = materialized_source_ids(entries, bound)?;
    assert(allocated_values(taken@) =~= sources_view(taken@).map_values(|e: (Seq<char>, u32)| e.1));
    let ids = paste_source_ids(&taken, bound, nodes.len())?;
    let remap = paste_remap(&keys, &ids);
    check_paste_references(nodes, page_id, source_page, &remap)?;
    let fresh = fresh_shape_ids(page_id, client_id, sequence, nodes.len());
    assert(fresh@.map_values(|id: String| id@) =~= Seq::new(
        nodes@.len(),
        |i: int| fresh_id(page_id@, client_id, sequence, i as nat),
    ));
    let carried = carried_tree_glue(glue, nodes, &fresh, limits)?;
    if nodes.len() == 0 {
        return Err(invalid_state("paste draft is missing its copy source"));
    }
    Ok(PastePlan {
        fresh_ids: fresh,
        source_ids: ids,
        copy_keys: keys,
        source_page,
        remap,
        glue: carried,
    })
}

} // verus!
