//! Pasted subtrees: the identity each pasted node answers to, and the one page they come from.
use vstd::prelude::*;

use crate::model::{invalid_state, CellSnapshot, EditError, EditResult, ShapeTreeDraft};
use crate::sheet_refs::{sheet_ref_spans_in, sheet_refs};
use crate::text::chars_of;

verus! {

/// One node of a pasted subtree in pre-order, with the position of its parent.
pub struct FlatTreeNode<'a> {
    pub draft: &'a ShapeTreeDraft,
    pub parent: Option<usize>,
}

/// Some cell formula of the pasted nodes has a `Sheet.N!` reference to `id`.
pub open spec fn referenced(nodes: Seq<FlatTreeNode>, id: u32) -> bool {
    exists|i: int, c: int, k: int|
        0 <= i < nodes.len() && 0 <= c < nodes[i].draft.cells@.len()
            && (#[trigger] nodes[i].draft.cells@[c]).formula is Some && 0 <= k < sheet_refs(
            nodes[i].draft.cells@[c].formula.unwrap()@,
        ).len() && #[trigger] sheet_refs(nodes[i].draft.cells@[c].formula.unwrap()@)[k].2 == id
}

/// The identity a pasted node answers to: its live source ID when formulas reference it, else
/// its stored copy source, else its live source ID.
pub open spec fn copy_key(nodes: Seq<FlatTreeNode>, node: FlatTreeNode) -> Option<u32> {
    match (node.draft.source_id, node.draft.copy_source_id) {
        (Some(live), _) if referenced(nodes, live) => Some(live),
        (_, Some(stored)) => Some(stored),
        (Some(live), None) => Some(live),
        (None, None) => None,
    }
}

/// The identities of all pasted nodes, in order.
pub open spec fn copy_keys(nodes: Seq<FlatTreeNode>) -> Seq<Option<u32>> {
    nodes.map_values(|node: FlatTreeNode| copy_key(nodes, node))
}

/// Two pasted nodes answer to the same identity.
pub open spec fn keys_collide(keys: Seq<Option<u32>>) -> bool {
    exists|i: int, j: int| 0 <= i < j < keys.len() && keys[i] is Some && #[trigger] keys[i] == #[trigger] keys[j]
}

/// Every sheet ID the pasted formulas reference, with repeats.
pub(crate) fn referenced_ids(nodes: &[FlatTreeNode]) -> (result: Vec<u32>)
    ensures
        forall|id: u32| result@.contains(id) <==> referenced(nodes@, id),
{
    let mut ids: Vec<u32> = Vec::new();
    let mut i: usize = 0;
    while i < nodes.len()
        invariant
            i <= nodes@.len(),
            forall|id: u32| ids@.contains(id) <==> exists|n: int, c: int, k: int|
                0 <= n < i && 0 <= c < nodes@[n].draft.cells@.len()
                    && (#[trigger] nodes@[n].draft.cells@[c]).formula is Some && 0 <= k < sheet_refs(
                    nodes@[n].draft.cells@[c].formula.unwrap()@,
                ).len() && #[trigger] sheet_refs(nodes@[n].draft.cells@[c].formula.unwrap()@)[k].2 == id,
        decreases nodes.len() - i,
    {
        let cells = &nodes[i].draft.cells;
        let ghost start = ids@;
        let mut c: usize = 0;
        while c < cells.len()
            invariant
                i < nodes@.len(),
                c <= cells@.len(),
                *cells == nodes@[i as int].draft.cells,
                forall|id: u32| start.contains(id) ==> ids@.contains(id),
                forall|id: u32| ids@.contains(id) ==> start.contains(id) || exists|d: int, k: int|
                    0 <= d < c && (#[trigger] cells@[d]).formula is Some && 0 <= k < sheet_refs(
                        cells@[d].formula.unwrap()@,
                    ).len() && #[trigger] sheet_refs(cells@[d].formula.unwrap()@)[k].2 == id,
                forall|d: int, k: int|
                    0 <= d < c && cells@[d].formula is Some && 0 <= k < sheet_refs(
                        cells@[d].formula.unwrap()@,
                    ).len() ==> ids@.contains(#[trigger] sheet_refs(cells@[d].formula.unwrap()@)[k].2),
            decreases cells.len() - c,
        {
            match &cells[c].formula {
                Some(formula) => {
                    let chars = chars_of(formula.as_str());
                    let spans = sheet_ref_spans_in(&chars);
                    let ghost refs = sheet_refs(formula@);
                    let ghost before = ids@;
                    let mut k: usize = 0;
                    while k < spans.len()
                        invariant
                            k <= spans@.len(),
                            spans@.map_values(|span: (usize, usize, u32)| crate::sheet_refs::span_view(span)) == refs,
                            ids@ == before + refs.take(k as int).map_values(|r: (int, int, u32)| r.2),
                        decreases spans.len() - k,
                    {
                        assert(refs[k as int].2 == spans@[k as int].2);
                        ids.push(spans[k].2);
                        assert(refs.take(k + 1).map_values(|r: (int, int, u32)| r.2) =~= refs.take(
                            k as int,
                        ).map_values(|r: (int, int, u32)| r.2).push(refs[k as int].2));
                        assert(ids@ =~= before + refs.take(k + 1).map_values(|r: (int, int, u32)| r.2));
                        k = k + 1;
                    }
                    assert(refs.take(refs.len() as int) == refs);
                    let ghost added = refs.map_values(|r: (int, int, u32)| r.2);
                    assert(ids@ == before + added);
                    assert forall|id: u32| before.contains(id) implies ids@.contains(id) by {
                        let t = choose|t: int| 0 <= t < before.len() && before[t] == id;
                        assert(ids@[t] == id);
                    }
                    assert forall|k2: int| 0 <= k2 < refs.len() implies ids@.contains(refs[k2].2) by {
                        assert(ids@[before.len() + k2] == added[k2]);
                    }
                    assert forall|id: u32| ids@.contains(id) implies before.contains(id) || exists|k2: int|
                        0 <= k2 < refs.len() && #[trigger] refs[k2].2 == id by {
                        let t = choose|t: int| 0 <= t < ids@.len() && ids@[t] == id;
                        if t < before.len() {
                            assert(before[t] == id);
                        } else {
                            assert(added[t - before.len()] == id);
                        }
                    }
                },
                None => {},
            }
            c = c + 1;
        }
        assert forall|id: u32| ids@.contains(id) <==> exists|n: int, c2: int, k: int|
            0 <= n < i + 1 && 0 <= c2 < nodes@[n].draft.cells@.len()
                && (#[trigger] nodes@[n].draft.cells@[c2]).formula is Some && 0 <= k < sheet_refs(
                nodes@[n].draft.cells@[c2].formula.unwrap()@,
            ).len() && #[trigger] sheet_refs(nodes@[n].draft.cells@[c2].formula.unwrap()@)[k].2 == id by {
            if ids@.contains(id) {
                if start.contains(id) {
                    let (n, c2, k) = choose|n: int, c2: int, k: int|
                        0 <= n < i && 0 <= c2 < nodes@[n].draft.cells@.len()
                            && (#[trigger] nodes@[n].draft.cells@[c2]).formula is Some && 0 <= k < sheet_refs(
                            nodes@[n].draft.cells@[c2].formula.unwrap()@,
                        ).len() && #[trigger] sheet_refs(nodes@[n].draft.cells@[c2].formula.unwrap()@)[k].2 == id;
                    assert(sheet_refs(nodes@[n].draft.cells@[c2].formula.unwrap()@)[k].2 == id);
                } else {
                    let (d, k) = choose|d: int, k: int|
                        0 <= d < cells@.len() && (#[trigger] cells@[d]).formula is Some && 0 <= k < sheet_refs(
                            cells@[d].formula.unwrap()@,
                        ).len() && #[trigger] sheet_refs(cells@[d].formula.unwrap()@)[k].2 == id;
                    assert(nodes@[i as int].draft.cells@[d] == cells@[d]);
                    assert(sheet_refs(nodes@[i as int].draft.cells@[d].formula.unwrap()@)[k].2 == id);
                }
            }
            if exists|n: int, c2: int, k: int|
                0 <= n < i + 1 && 0 <= c2 < nodes@[n].draft.cells@.len()
                    && (#[trigger] nodes@[n].draft.cells@[c2]).formula is Some && 0 <= k < sheet_refs(
                    nodes@[n].draft.cells@[c2].formula.unwrap()@,
                ).len() && #[trigger] sheet_refs(nodes@[n].draft.cells@[c2].formula.unwrap()@)[k].2 == id {
                let (n, c2, k) = choose|n: int, c2: int, k: int|
                    0 <= n < i + 1 && 0 <= c2 < nodes@[n].draft.cells@.len()
                        && (#[trigger] nodes@[n].draft.cells@[c2]).formula is Some && 0 <= k < sheet_refs(
                        nodes@[n].draft.cells@[c2].formula.unwrap()@,
                    ).len() && #[trigger] sheet_refs(nodes@[n].draft.cells@[c2].formula.unwrap()@)[k].2 == id;
                if n < i {
                    assert(start.contains(id));
                } else {
                    assert(cells@[c2] == nodes@[n].draft.cells@[c2]);
                    assert(ids@.contains(sheet_refs(cells@[c2].formula.unwrap()@)[k].2));
                }
            }
        }
        i = i + 1;
    }
    ids
}

/// Whether a list holds `x`.
fn holds(list: &Vec<u32>, x: u32) -> (result: bool)
    ensures
        result == list@.contains(x),
{
    let mut i: usize = 0;
    while i < list.len()
        invariant
            i <= list@.len(),
            forall|t: int| 0 <= t < i ==> list@[t] != x,
        decreases list.len() - i,
    {
        if list[i] == x {
            return true;
        }
        i = i + 1;
    }
    false
}

/// The identity each pasted node answers to, for remapping `Sheet.N!` references; refuses a
/// paste in which two nodes answer to the same identity.
pub fn tree_copy_keys(nodes: &[FlatTreeNode]) -> (result: EditResult<Vec<Option<u32>>>)
    ensures
        !keys_collide(copy_keys(nodes@)) ==> (result matches Ok(keys) && keys@ == copy_keys(nodes@)),
        keys_collide(copy_keys(nodes@)) ==> (result matches Err(EditError::InvalidState(message))
            && message@ == "paste draft contains duplicate copy sources"@),
{
    let ghost all = copy_keys(nodes@);
    let referenced_list = referenced_ids(nodes);
    let mut keys: Vec<Option<u32>> = Vec::new();
    let mut seen: Vec<u32> = Vec::new();
    let mut i: usize = 0;
    while i < nodes.len()
        invariant
            i <= nodes@.len(),
            all == copy_keys(nodes@),
            forall|id: u32| referenced_list@.contains(id) <==> referenced(nodes@, id),
            keys@ == all.take(i as int),
            forall|id: u32| seen@.contains(id) <==> exists|t: int| 0 <= t < i && all[t] == Some(id),
            !keys_collide(all.take(i as int)),
        decreases nodes.len() - i,
    {
        let node = &nodes[i];
        let key = match (node.draft.source_id, node.draft.copy_source_id) {
            (Some(live), _) if holds(&referenced_list, live) => Some(live),
            (_, Some(stored)) => Some(stored),
            (Some(live), None) => Some(live),
            (None, None) => None,
        };
        assert(key == all[i as int]);
        match key {
            Some(id) => {
                if holds(&seen, id) {
                    assert(keys_collide(all)) by {
                        let t = choose|t: int| 0 <= t < i && all[t] == Some(id);
                        assert(all[t] == all[i as int]);
                    }
                    return Err(invalid_state("paste draft contains duplicate copy sources"));
                }
                let ghost seen_before = seen@;
                seen.push(id);
                assert forall|x: u32| seen@.contains(x) <==> exists|t: int| 0 <= t < i + 1 && all[t] == Some(x) by {
                    if seen@.contains(x) {
                        let s = choose|s: int| 0 <= s < seen@.len() && seen@[s] == x;
                        if s < seen_before.len() {
                            assert(seen_before[s] == x);
                            assert(seen_before.contains(x));
                            let t = choose|t: int| 0 <= t < i && all[t] == Some(x);
                            assert(all[t] == Some(x));
                        } else {
                            assert(all[i as int] == Some(x));
                        }
                    }
                    if exists|t: int| 0 <= t < i + 1 && all[t] == Some(x) {
                        let t = choose|t: int| 0 <= t < i + 1 && all[t] == Some(x);
                        if t < i {
                            assert(seen_before.contains(x));
                            let s = choose|s: int| 0 <= s < seen_before.len() && seen_before[s] == x;
                            assert(seen@[s] == x);
                        } else {
                            assert(seen@[seen_before.len() as int] == id);
                        }
                    }
                }
            },
            None => {},
        }
        keys.push(key);
        assert(all.take(i + 1) == all.take(i as int).push(all[i as int]));
        assert(!keys_collide(all.take(i + 1))) by {
            let next = all.take(i + 1);
            if keys_collide(next) {
                let (a, b) = choose|a: int, b: int| 0 <= a < b < next.len() && next[a] is Some && #[trigger] next[a] == #[trigger] next[b];
                if b < i {
                    assert(all.take(i as int)[a] == next[a] && all.take(i as int)[b] == next[b]);
                } else {
                    assert(next[b] == key);
                    let id = key.unwrap();
                    assert(all[a] == Some(id));
                }
            }
        }
        i = i + 1;
    }
    assert(all.take(all.len() as int) == all);
    Ok(keys)
}

/// The page a pasted node was copied from, by node.
pub open spec fn source_pages(nodes: Seq<FlatTreeNode>) -> Seq<Option<u32>> {
    nodes.map_values(|node: FlatTreeNode| node.draft.copy_source_page_id)
}

/// The first page named, if any.
pub open spec fn first_page(pages: Seq<Option<u32>>) -> Option<u32>
    decreases pages.len(),
{
    if pages.len() == 0 {
        None
    } else {
        match first_page(pages.drop_last()) {
            Some(page) => Some(page),
            None => pages.last(),
        }
    }
}

/// Two nodes name different source pages.
pub open spec fn pages_differ(pages: Seq<Option<u32>>) -> bool {
    exists|i: int, j: int|
        0 <= i < pages.len() && 0 <= j < pages.len() && #[trigger] pages[i] is Some && #[trigger] pages[j] is Some
            && pages[i] != pages[j]
}

/// The single source page a detached paste carries, if any; refuses sources on several pages.
pub fn draft_source_page(nodes: &[FlatTreeNode]) -> (result: EditResult<Option<u32>>)
    ensures
        !pages_differ(source_pages(nodes@)) ==> result == Ok::<Option<u32>, EditError>(
            first_page(source_pages(nodes@)),
        ),
        pages_differ(source_pages(nodes@)) ==> (result matches Err(EditError::InvalidState(message))
            && message@ == "paste sources span multiple pages"@),
{
    let ghost pages = source_pages(nodes@);
    let mut page: Option<u32> = None;
    let mut i: usize = 0;
    while i < nodes.len()
        invariant
            i <= nodes@.len(),
            pages == source_pages(nodes@),
            page == first_page(pages.take(i as int)),
            !pages_differ(pages.take(i as int)),
            page is None ==> forall|t: int| 0 <= t < i ==> pages[t] is None,
            page is Some ==> forall|t: int| 0 <= t < i && pages[t] is Some ==> pages[t] == page,
            page is Some ==> exists|t: int| 0 <= t < i && pages[t] == page,
        decreases nodes.len() - i,
    {
        assert(pages.take(i + 1).drop_last() == pages.take(i as int));
        assert(pages.take(i + 1).last() == pages[i as int]);
        match nodes[i].draft.copy_source_page_id {
            Some(candidate) => {
                match page {
                    Some(expected) => {
                        if expected != candidate {
                            assert(pages_differ(pages)) by {
                                let t = choose|t: int| 0 <= t < i && pages[t] == page;
                                assert(pages[t] == page);
                                assert(pages[i as int] == Some(candidate));
                            }
                            return Err(invalid_state("paste sources span multiple pages"));
                        }
                    },
                    None => {
                        page = Some(candidate);
                    },
                }
            },
            None => {},
        }
        assert(!pages_differ(pages.take(i + 1))) by {
            let next = pages.take(i + 1);
            if pages_differ(next) {
                let (a, b) = choose|a: int, b: int|
                    0 <= a < next.len() && 0 <= b < next.len() && #[trigger] next[a] is Some && #[trigger] next[b] is Some && next[a] != next[b];
                assert(next[a] == page && next[b] == page);
            }
        }
        i = i + 1;
    }
    assert(pages.take(pages.len() as int) == pages);
    Ok(page)
}

} // verus!
