//! The shapes of a subtree rooted at a shape, and the glue that lies wholly inside it.
use vstd::prelude::*;

use crate::args::MAX_SHAPE_NESTING;
use crate::model::{invalid_state, EditError, EditResult};
use crate::orders::{contains_str, item_view, items_view, keys_view};
use crate::shape_tree::{field_text, find_shape, origin_named, shape_origin, Field, ShapeOrigin, Sheets};
use crate::stored_glue::{
    collect, glue_fault_error, glue_records, page_exists, page_is_map, records_view, sorted_by_id,
    GlueEntry, RecordView,
};
use crate::text::{owned, str_eq};
use crate::tree_glue::{glue_order, subtree_glue_found, subtree_glue_of, tree_glue_views, PackageConnect};
use crate::connect::GlueRecord;
use crate::model::ShapeTreeGlue;

verus! {

/// What walking a subtree has gathered: the shapes reached, in the order they were reached,
/// and each original shape's source ID with its session ID, in the order they were reached.
pub type Gathered = (Seq<Seq<char>>, Seq<(u32, Seq<char>)>);

/// The position of the sheets entry with key `id`.
pub open spec fn sheet_index(sheets: &Sheets, id: Seq<char>) -> int {
    choose|i: int| 0 <= i < sheets.entries@.len() && #[trigger] sheets.entries@[i].key@ == id
}

/// Visits shape `id` at `depth` (1 for the subtree's root): refused past the nesting bound; a
/// shape reached before is skipped; otherwise the shape must be a map with a known origin, an
/// original one with a source ID is recorded under it, and its children are visited last
/// first, after checking that they are all strings. `sources` gives each sheets entry's source
/// ID, position by position.
pub open spec fn visit(sheets: &Sheets, sources: Seq<Option<u32>>, id: Seq<char>, depth: int, gathered: Gathered) -> Result<Gathered, (bool, Seq<char>)>
    decreases MAX_SHAPE_NESTING + 1 - depth, 0int,
{
    if depth > MAX_SHAPE_NESTING || depth < 1 {
        Err((false, "shape nesting exceeds maximum depth"@))
    } else if gathered.0.contains(id) {
        Ok(gathered)
    } else {
        let members = gathered.0.push(id);
        match sheets.shape_of(id) {
            None => Err((true, id)),
            Some(shape) => match field_text(shape.origin) {
                None => Err((false, "missing origin"@)),
                Some(origin) => match origin_named(origin) {
                    None => Err((false, "invalid shape origin"@)),
                    Some(kind) => {
                        let originals = match (kind, sources[sheet_index(sheets, id)]) {
                            (ShapeOrigin::Original, Some(source)) => gathered.1.push((source, id)),
                            _ => gathered.1,
                        };
                        match shape.children {
                            None => Ok((members, originals)),
                            Some(children) => {
                                let kids = items_view(children@);
                                if exists|k: int| 0 <= k < kids.len() && #[trigger] kids[k] is None {
                                    Err((false, "shape order contains non-string"@))
                                } else {
                                    visit_last_first(sheets, sources, kids, kids.len() as int, depth + 1, (members, originals))
                                }
                            },
                        }
                    },
                },
            },
        }
    }
}

/// Visits the first `n` of `kids` at `depth`, the last first.
pub open spec fn visit_last_first(
    sheets: &Sheets,
    sources: Seq<Option<u32>>,
    kids: Seq<Option<Seq<char>>>,
    n: int,
    depth: int,
    gathered: Gathered,
) -> Result<Gathered, (bool, Seq<char>)>
    decreases MAX_SHAPE_NESTING + 1 - depth, n + 1,
{
    if n <= 0 || n > kids.len() || depth > MAX_SHAPE_NESTING + 1 || depth < 1 {
        Ok(gathered)
    } else {
        match visit(sheets, sources, kids[n - 1].unwrap(), depth, gathered) {
            Err(fault) => Err(fault),
            Ok(next) => visit_last_first(sheets, sources, kids, n - 1, depth, next),
        }
    }
}

pub open spec fn gathered_view(members: Seq<String>, originals: Seq<(u32, String)>) -> Gathered {
    (keys_view(members), originals.map_values(|o: (u32, String)| (o.0, o.1@)))
}

pub open spec fn walk_error(error: EditError, fault: (bool, Seq<char>)) -> bool {
    if fault.0 {
        error matches EditError::PageNotFound(k) && k@ == fault.1
    } else {
        error matches EditError::InvalidState(m) && m@ == fault.1
    }
}

/// Visits shape `id` at `depth`, gathering into `members` and `originals`.
#[verifier::loop_isolation(false)]
fn visit_shape(
    sheets: &Sheets,
    sources: &Vec<Option<u32>>,
    id: &str,
    depth: usize,
    members: &mut Vec<String>,
    originals: &mut Vec<(u32, String)>,
) -> (result: EditResult<()>)
    requires
        sheets.wf(),
        sources@.len() == sheets.entries@.len(),
        1 <= depth <= MAX_SHAPE_NESTING + 1,
    ensures
        match visit(sheets, sources@, id@, depth as int, gathered_view(old(members)@, old(originals)@)) {
            Ok(g) => result is Ok && gathered_view(final(members)@, final(originals)@) == g,
            Err(fault) => result matches Err(error) && walk_error(error, fault),
        },
    decreases MAX_SHAPE_NESTING + 1 - depth, 0int,
{
    if depth > MAX_SHAPE_NESTING {
        return Err(invalid_state("shape nesting exceeds maximum depth"));
    }
    if contains_str(members, id) {
        return Ok(());
    }
    let ghost before = gathered_view(members@, originals@);
    members.push(owned(id));
    assert(keys_view(members@) =~= before.0.push(id@));
    let o = match find_shape(sheets, id) {
        None => {
            return Err(EditError::PageNotFound(owned(id)));
        },
        Some(o) => o,
    };
    proof {
        let p = sheet_index(sheets, id@);
        assert(0 <= p < sheets.entries@.len() && sheets.entries@[p].key@ == id@);
        assert(p == o as int);
    }
    let shape = match &sheets.entries[o].shape {
        Some(shape) => shape,
        None => {
            return Err(EditError::PageNotFound(owned(id)));
        },
    };
    let kind = shape_origin(&shape.origin)?;
    if let ShapeOrigin::Original = kind {
        if let Some(source) = sources[o] {
            let ghost prior = originals@;
            originals.push((source, owned(id)));
            assert(originals@.map_values(|x: (u32, String)| (x.0, x.1@)) =~= prior.map_values(
                |x: (u32, String)| (x.0, x.1@),
            ).push((source, id@)));
        }
    }
    let children = match &shape.children {
        None => {
            return Ok(());
        },
        Some(children) => children,
    };
    let ghost kids = items_view(children@);
    let mut k: usize = 0;
    while k < children.len()
        invariant
            k <= children@.len(),
            kids == items_view(children@),
            forall|t: int| 0 <= t < k ==> #[trigger] kids[t] is Some,
        decreases children@.len() - k,
    {
        assert(kids[k as int] == item_view(children@[k as int]));
        if children[k].is_none() {
            assert(kids[k as int] is None);
            return Err(invalid_state("shape order contains non-string"));
        }
        k = k + 1;
    }
    visit_children(sheets, sources, children, children.len(), depth + 1, members, originals)
}

/// Visits the first `n` children, the last first.
fn visit_children(
    sheets: &Sheets,
    sources: &Vec<Option<u32>>,
    children: &Vec<Option<String>>,
    n: usize,
    depth: usize,
    members: &mut Vec<String>,
    originals: &mut Vec<(u32, String)>,
) -> (result: EditResult<()>)
    requires
        sheets.wf(),
        sources@.len() == sheets.entries@.len(),
        1 <= depth <= MAX_SHAPE_NESTING + 1,
        n <= children@.len(),
        forall|t: int| 0 <= t < children@.len() ==> #[trigger] items_view(children@)[t] is Some,
    ensures
        match visit_last_first(sheets, sources@, items_view(children@), n as int, depth as int, gathered_view(old(members)@, old(originals)@)) {
            Ok(g) => result is Ok && gathered_view(final(members)@, final(originals)@) == g,
            Err(fault) => result matches Err(error) && walk_error(error, fault),
        },
    decreases MAX_SHAPE_NESTING + 1 - depth, n + 1,
{
    if n == 0 {
        return Ok(());
    }
    let ghost kids = items_view(children@);
    assert(kids[n - 1] == item_view(children@[n - 1]));
    let id = match &children[n - 1] {
        Some(id) => id,
        None => {
            return Ok(());
        },
    };
    visit_shape(sheets, sources, id.as_str(), depth, members, originals)?;
    visit_children(sheets, sources, children, n - 1, depth, members, originals)
}

/// Why the subtree walk from `shape_id` on page `page_id` is refused, if it is: the page must
/// be a map, the shape a map of that page; then the walk must succeed.
pub open spec fn subtree_start_fault(pages: Seq<(String, bool)>, sheets: &Sheets, page_id: Seq<char>, shape_id: Seq<char>) -> Option<EditErrorView> {
    if !page_is_map(pages, page_id) {
        Some(EditErrorView::Page(page_id))
    } else {
        match sheets.shape_of(shape_id) {
            None => Some(EditErrorView::Shape(shape_id)),
            Some(shape) => if field_text(shape.page_id) != Some(page_id) {
                Some(EditErrorView::Shape(shape_id))
            } else {
                None
            },
        }
    }
}

/// An error as plain values: a missing page or shape.
pub enum EditErrorView {
    Page(Seq<char>),
    Shape(Seq<char>),
}

pub open spec fn start_error(error: EditError, fault: EditErrorView) -> bool {
    match fault {
        EditErrorView::Page(k) => error matches EditError::PageNotFound(p) && p@ == k,
        EditErrorView::Shape(k) => error matches EditError::ShapeNotFound(s) && s@ == k,
    }
}

/// Internal glue of the subtree rooted at shape `shape_id` of page `page_id`, addressed by copy
/// sources: `pages`, `sheets` and `connects` are the document's pages, sheets and glue maps,
/// `sources` each sheets entry's `sourceId` read as a 32-bit ID (`None` where it is no
/// number), and `package_connects` the connects of the page's source part. The walk gathers the subtree's shapes and its originals by source ID; the
/// stored glue is read and checked as [`glue_records`] does; the glue wholly inside the subtree
/// is then as [`subtree_glue_of`] gives it, over the stored records as that check lists them.
pub fn subtree_glue(
    pages: &Vec<(String, bool)>,
    sheets: &Sheets,
    sources: &Vec<Option<u32>>,
    connects: Option<&Vec<GlueEntry>>,
    page_id: &str,
    shape_id: &str,
    package_connects: &Vec<PackageConnect>,
) -> (result: EditResult<Vec<ShapeTreeGlue>>)
    requires
        sheets.wf(),
        sources@.len() == sheets.entries@.len(),
        forall|i: int, j: int| 0 <= i < j < pages@.len() ==> #[trigger] pages@[i].0@ != #[trigger] pages@[j].0@,
        connects matches Some(list) ==> forall|i: int, j: int|
            0 <= i < j < list@.len() ==> #[trigger] list@[i].key@ != #[trigger] list@[j].key@,
    ensures
        match subtree_start_fault(pages@, sheets, page_id@, shape_id@) {
            Some(fault) => result matches Err(error) && start_error(error, fault),
            None => match visit(sheets, sources@, shape_id@, 1, (Seq::empty(), Seq::empty())) {
                Err(fault) => result matches Err(error) && walk_error(error, fault),
                Ok(gathered) => match connects {
                    Some(list) => match collect(list@, 0, pages@, sheets) {
                        Err(fault) => result matches Err(error) && glue_fault_error(error, fault),
                        Ok(found) => result matches Ok(glue) && exists|records: Seq<GlueRecord>, originals: Seq<(u32, String)>| {
                            &&& sorted_by_id(records_view(records))
                            &&& records.len() == found.len()
                            &&& (forall|v: RecordView| #[trigger] records_view(records).contains(v) <==> found.contains(v))
                            &&& originals.map_values(|o: (u32, String)| (o.0, o.1@)) == gathered.1
                            &&& tree_glue_views(glue@) == subtree_glue_found(records, page_id@, gathered.0, package_connects@, originals).sort_by(glue_order())
                        },
                    },
                    None => result matches Ok(glue) && exists|originals: Seq<(u32, String)>| {
                        &&& originals.map_values(|o: (u32, String)| (o.0, o.1@)) == gathered.1
                        &&& tree_glue_views(glue@) == subtree_glue_found(Seq::empty(), page_id@, gathered.0, package_connects@, originals).sort_by(glue_order())
                    },
                },
            },
        },
{
    if !page_exists(pages, page_id) {
        return Err(EditError::PageNotFound(owned(page_id)));
    }
    let o = match find_shape(sheets, shape_id) {
        None => {
            return Err(EditError::ShapeNotFound(owned(shape_id)));
        },
        Some(o) => o,
    };
    let shape = match &sheets.entries[o].shape {
        Some(shape) => shape,
        None => {
            return Err(EditError::ShapeNotFound(owned(shape_id)));
        },
    };
    match &shape.page_id {
        Field::Text(owner) => {
            if !str_eq(owner.as_str(), page_id) {
                return Err(EditError::ShapeNotFound(owned(shape_id)));
            }
        },
        _ => {
            return Err(EditError::ShapeNotFound(owned(shape_id)));
        },
    }
    let mut members: Vec<String> = Vec::new();
    let mut originals: Vec<(u32, String)> = Vec::new();
    assert(gathered_view(members@, originals@) == (Seq::<Seq<char>>::empty(), Seq::<(u32, Seq<char>)>::empty())) by {
        assert(keys_view(members@) =~= Seq::<Seq<char>>::empty());
        assert(originals@.map_values(|x: (u32, String)| (x.0, x.1@)) =~= Seq::<(u32, Seq<char>)>::empty());
    }
    visit_shape(sheets, sources, shape_id, 1, &mut members, &mut originals)?;
    let records = glue_records(connects, pages, sheets)?;
    let glue = subtree_glue_of(&records, page_id, &members, package_connects, &originals);
    proof {
        let g = gathered_view(members@, originals@);
        assert(originals@.map_values(|o: (u32, String)| (o.0, o.1@)) == g.1);
        assert(keys_view(members@) == g.0);
        match connects {
            Some(list) => {
                assert(tree_glue_views(glue@) == subtree_glue_found(records@, page_id@, g.0, package_connects@, originals@).sort_by(glue_order()));
            },
            None => {
                assert(records@ =~= Seq::<GlueRecord>::empty());
            },
        }
    }
    Ok(glue)
}

} // verus!
