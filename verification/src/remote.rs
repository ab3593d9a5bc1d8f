//! Checks that a peer's update must pass before it is merged.
use vstd::prelude::*;

use crate::model::{invalid_state, EditError, EditResult};
use crate::shape_tree::{field_text, origin_named, shape_origin, Field, ShapeOrigin};
use crate::text::{decimal, owned, push_decimal, push_str};

verus! {

/// The refusal naming a shape added with a master the opened package does not define.
pub open spec fn unknown_master_message(shape_id: Seq<char>, master: nat) -> Seq<char> {
    "remote update adds shape "@ + shape_id + " with unknown master "@ + decimal(master)
}

/// Whether `master` is one of `known`.
fn known_master(known: &[u32], master: u32) -> (result: bool)
    ensures
        result == known@.contains(master),
{
    let mut i: usize = 0;
    while i < known.len()
        invariant
            i <= known@.len(),
            forall|j: int| 0 <= j < i ==> known@[j] != master,
        decreases known@.len() - i,
    {
        if known[i] == master {
            assert(known@[i as int] == master);
            return true;
        }
        i = i + 1;
    }
    false
}

/// Refuses the shapes a peer adds whose master the opened package does not define: `added`
/// lists each added shape with its master in the order the merged sheets give them, `known`
/// the package's master IDs. The first shape with an unknown master is named.
pub fn check_added_masters(added: &[(String, u32)], known: &[u32]) -> (result: EditResult<()>)
    ensures
        result is Ok <==> forall|i: int| 0 <= i < added@.len() ==> known@.contains(
            #[trigger] added@[i].1,
        ),
        result matches Err(error) ==> exists|i: int|
            {
                &&& 0 <= i < added@.len()
                &&& !known@.contains(#[trigger] added@[i].1)
                &&& forall|j: int| 0 <= j < i ==> known@.contains(added@[j].1)
                &&& error matches EditError::InvalidState(message)
                &&& message@ == unknown_master_message(added@[i].0@, added@[i].1 as nat)
            },
{
    let mut i: usize = 0;
    while i < added.len()
        invariant
            i <= added@.len(),
            forall|j: int| 0 <= j < i ==> known@.contains(#[trigger] added@[j].1),
        decreases added@.len() - i,
    {
        let (shape_id, master) = &added[i];
        if !known_master(known, *master) {
            let mut message = owned("remote update adds shape ");
            push_str(&mut message, shape_id.as_str());
            push_str(&mut message, " with unknown master ");
            push_decimal(&mut message, *master as u64);
            return Err(EditError::InvalidState(message));
        }
        i = i + 1;
    }
    Ok(())
}

/// The page fields a peer may not change.
pub open spec fn page_field_name(k: int) -> Seq<char> {
    if k == 0 {
        "id"@
    } else if k == 1 {
        "sourcePartPath"@
    } else {
        "maxSourceId"@
    }
}

/// The shape fields a peer may not change, in the order they are compared.
pub open spec fn shape_field_name(k: int) -> Seq<char> {
    if k == 0 {
        "id"@
    } else if k == 1 {
        "pageId"@
    } else if k == 2 {
        "sourceId"@
    } else if k == 3 {
        "origin"@
    } else if k == 4 {
        "parentId"@
    } else if k == 5 {
        "master"@
    } else if k == 6 {
        "copySourceId"@
    } else if k == 7 {
        "copySourcePageId"@
    } else {
        "copyRefusal"@
    }
}

/// One page of the document before a peer's update, as the topology check compares it with
/// the merged one: whether its value is a map, whether the merged pages map holds a map under
/// its key, and, field by field (`id`, `sourcePartPath`, `maxSourceId`), whether the merged
/// value differs as yrs compares them.
#[derive(Clone, Debug, PartialEq, Eq)]
pub struct PageTopology {
    pub key: String,
    pub is_map: bool,
    pub staged_is_map: bool,
    pub changed: Vec<bool>,
}

/// One cell of a shape both documents hold: whether it is a map before, whether the merged cell
/// map holds a map under its key, and whether its `rowType`, `value` and `baselineFormula`
/// differ as yrs compares them.
#[derive(Clone, Debug, PartialEq, Eq)]
pub struct CellTopology {
    pub key: String,
    pub is_map: bool,
    pub staged_is_map: bool,
    pub row_type_changed: bool,
    pub value_changed: bool,
    pub baseline_changed: bool,
}

/// One shape both documents hold as maps: field by field (in [`shape_field_name`] order)
/// whether the merged value differs as yrs compares them; whether it had a child order that
/// the merge leaves without a list; and its cells before, with whether each document has a
/// cell map (`None` before where it has none).
#[derive(Clone, Debug, PartialEq, Eq)]
pub struct ShapeTopology {
    pub changed: Vec<bool>,
    pub order_removed: bool,
    pub cells: Option<Vec<CellTopology>>,
    pub staged_has_cells: bool,
}

/// What the topology check reads of the two documents: whether each has its page order, pages
/// map and sheets map; whether the page orders differ as yrs compares them; the pages before,
/// in iteration order; the shapes the merge adds, in iteration order, as their value (`None`
/// where it is no map) and origin; and the shapes both hold as maps, in the earlier document's
/// iteration order.
#[derive(Clone, Debug, PartialEq, Eq)]
pub struct TopologyView {
    pub before_order: bool,
    pub staged_order: bool,
    pub orders_differ: bool,
    pub before_page_count: Option<usize>,
    pub staged_page_count: Option<usize>,
    pub pages: Vec<PageTopology>,
    pub before_sheets: bool,
    pub staged_sheets: bool,
    pub added: Vec<Option<Field>>,
    pub kept: Vec<ShapeTopology>,
}

pub open spec fn first_true(flags: Seq<bool>, k: int) -> Option<int>
    decreases flags.len() - k,
{
    if k < 0 || k >= flags.len() {
        None
    } else if flags[k] {
        Some(k)
    } else {
        first_true(flags, k + 1)
    }
}

pub open spec fn page_fault(page: PageTopology) -> Option<(bool, Seq<char>)> {
    if !page.is_map {
        Some((false, "page is not a map"@))
    } else if !page.staged_is_map {
        Some((true, page.key@))
    } else {
        match first_true(page.changed@, 0) {
            Some(k) => Some((false, "remote update changes immutable page "@ + page_field_name(k))),
            None => None,
        }
    }
}

pub open spec fn added_fault(shape: Option<Field>) -> Option<Seq<char>> {
    match shape {
        None => Some("shape is not a map"@),
        Some(origin) => match field_text(origin) {
            None => Some("missing origin"@),
            Some(text) => match origin_named(text) {
                None => Some("invalid shape origin"@),
                Some(ShapeOrigin::Original) => Some("remote update adds a shape with original identity"@),
                Some(ShapeOrigin::Added) => None,
            },
        },
    }
}

pub open spec fn cell_topology_fault(cell: CellTopology) -> Option<(bool, Seq<char>)> {
    if !cell.is_map {
        None
    } else if !cell.staged_is_map {
        Some((true, cell.key@))
    } else if cell.row_type_changed {
        Some((false, "remote update changes immutable geometry row type"@))
    } else if cell.value_changed {
        Some((false, "remote update changes untrusted cached cell value"@))
    } else if cell.baseline_changed {
        Some((false, "remote update changes immutable cell baseline formula"@))
    } else {
        None
    }
}

pub open spec fn kept_fault(shape: ShapeTopology) -> Option<(bool, Seq<char>)> {
    match first_true(shape.changed@, 0) {
        Some(k) => Some((false, "remote update changes immutable shape "@ + shape_field_name(k))),
        None => if shape.order_removed {
            Some((false, "remote update removes required shape order"@))
        } else {
            match shape.cells {
                None => Some((false, "missing cells map"@)),
                Some(cells) => if !shape.staged_has_cells {
                    Some((false, "missing cells map"@))
                } else {
                    first_of(cells@.map_values(|c: CellTopology| cell_topology_fault(c)), 0)
                },
            }
        },
    }
}

pub open spec fn first_of<T>(faults: Seq<Option<T>>, k: int) -> Option<T>
    decreases faults.len() - k,
{
    if k < 0 || k >= faults.len() {
        None
    } else {
        match faults[k] {
            Some(f) => Some(f),
            None => first_of(faults, k + 1),
        }
    }
}

/// Why a peer's update breaks the document's fixed topology, if it does: `(true, key)` for a
/// page or cell the merge no longer holds as a map, `(false, message)` for every other fault.
/// Checked in order: the page orders, the pages, the added shapes' origins, the kept shapes.
pub open spec fn topology_fault(view: TopologyView) -> Option<(bool, Seq<char>)> {
    if !view.before_order || !view.staged_order {
        Some((false, "missing vsdx:page-order array"@))
    } else if view.orders_differ {
        Some((false, "remote update changes immutable page topology"@))
    } else {
        match (view.before_page_count, view.staged_page_count) {
            (Some(before), Some(staged)) => if before != staged {
                Some((false, "remote update changes immutable page topology"@))
            } else {
                match first_of(view.pages@.map_values(|p: PageTopology| page_fault(p)), 0) {
                    Some(fault) => Some(fault),
                    None => if !view.before_sheets || !view.staged_sheets {
                        Some((false, "missing vsdx:sheets map"@))
                    } else {
                        match first_of(view.added@.map_values(|a: Option<Field>| added_fault(a)), 0) {
                            Some(message) => Some((false, message)),
                            None => first_of(view.kept@.map_values(|k: ShapeTopology| kept_fault(k)), 0),
                        }
                    },
                }
            },
            _ => Some((false, "missing vsdx:pages map"@)),
        }
    }
}

pub open spec fn topology_error(error: EditError, fault: (bool, Seq<char>)) -> bool {
    if fault.0 {
        error matches EditError::PageNotFound(key) && key@ == fault.1
    } else {
        error matches EditError::InvalidState(message) && message@ == fault.1
    }
}

fn first_changed(flags: &Vec<bool>) -> (result: Option<usize>)
    ensures
        match result {
            Some(k) => first_true(flags@, 0) == Some(k as int),
            None => first_true(flags@, 0) is None,
        },
{
    let mut k: usize = 0;
    while k < flags.len()
        invariant
            k <= flags@.len(),
            first_true(flags@, 0) == first_true(flags@, k as int),
        decreases flags@.len() - k,
    {
        if flags[k] {
            return Some(k);
        }
        k = k + 1;
    }
    None
}

pub(crate) fn page_field_text(k: usize) -> (result: &'static str)
    ensures
        result@ == page_field_name(k as int),
{
    proof {
        reveal_strlit("id");
        reveal_strlit("sourcePartPath");
        reveal_strlit("maxSourceId");
    }
    if k == 0 {
        "id"
    } else if k == 1 {
        "sourcePartPath"
    } else {
        "maxSourceId"
    }
}

pub(crate) fn shape_field_text(k: usize) -> (result: &'static str)
    ensures
        result@ == shape_field_name(k as int),
{
    proof {
        reveal_strlit("id");
        reveal_strlit("pageId");
        reveal_strlit("sourceId");
        reveal_strlit("origin");
        reveal_strlit("parentId");
        reveal_strlit("master");
        reveal_strlit("copySourceId");
        reveal_strlit("copySourcePageId");
        reveal_strlit("copyRefusal");
    }
    if k == 0 {
        "id"
    } else if k == 1 {
        "pageId"
    } else if k == 2 {
        "sourceId"
    } else if k == 3 {
        "origin"
    } else if k == 4 {
        "parentId"
    } else if k == 5 {
        "master"
    } else if k == 6 {
        "copySourceId"
    } else if k == 7 {
        "copySourcePageId"
    } else {
        "copyRefusal"
    }
}

fn check_page_topology(page: &PageTopology) -> (result: EditResult<()>)
    ensures
        match page_fault(*page) {
            Some(fault) => result matches Err(error) && topology_error(error, fault),
            None => result is Ok,
        },
{
    if !page.is_map {
        return Err(invalid_state("page is not a map"));
    }
    if !page.staged_is_map {
        return Err(EditError::PageNotFound(page.key.clone()));
    }
    match first_changed(&page.changed) {
        Some(k) => {
            let mut message = owned("remote update changes immutable page ");
            push_str(&mut message, page_field_text(k));
            Err(EditError::InvalidState(message))
        },
        None => Ok(()),
    }
}

fn check_added_shape(shape: &Option<Field>) -> (result: EditResult<()>)
    ensures
        match added_fault(*shape) {
            Some(message) => result matches Err(EditError::InvalidState(m)) && m@ == message,
            None => result is Ok,
        },
{
    match shape {
        None => Err(invalid_state("shape is not a map")),
        Some(origin) => match shape_origin(origin)? {
            ShapeOrigin::Original => Err(invalid_state("remote update adds a shape with original identity")),
            ShapeOrigin::Added => Ok(()),
        },
    }
}

fn check_cell_topology(cell: &CellTopology) -> (result: EditResult<()>)
    ensures
        match cell_topology_fault(*cell) {
            Some(fault) => result matches Err(error) && topology_error(error, fault),
            None => result is Ok,
        },
{
    if !cell.is_map {
        return Ok(());
    }
    if !cell.staged_is_map {
        return Err(EditError::PageNotFound(cell.key.clone()));
    }
    if cell.row_type_changed {
        return Err(invalid_state("remote update changes immutable geometry row type"));
    }
    if cell.value_changed {
        return Err(invalid_state("remote update changes untrusted cached cell value"));
    }
    if cell.baseline_changed {
        return Err(invalid_state("remote update changes immutable cell baseline formula"));
    }
    Ok(())
}

#[verifier::loop_isolation(false)]
fn check_kept_shape(shape: &ShapeTopology) -> (result: EditResult<()>)
    ensures
        match kept_fault(*shape) {
            Some(fault) => result matches Err(error) && topology_error(error, fault),
            None => result is Ok,
        },
{
    if let Some(k) = first_changed(&shape.changed) {
        let mut message = owned("remote update changes immutable shape ");
        push_str(&mut message, shape_field_text(k));
        return Err(EditError::InvalidState(message));
    }
    if shape.order_removed {
        return Err(invalid_state("remote update removes required shape order"));
    }
    let cells = match &shape.cells {
        None => {
            return Err(invalid_state("missing cells map"));
        },
        Some(cells) => cells,
    };
    if !shape.staged_has_cells {
        return Err(invalid_state("missing cells map"));
    }
    let ghost faults = cells@.map_values(|c: CellTopology| cell_topology_fault(c));
    let mut k: usize = 0;
    while k < cells.len()
        invariant
            k <= cells@.len(),
            faults == cells@.map_values(|c: CellTopology| cell_topology_fault(c)),
            first_of(faults, 0) == first_of(faults, k as int),
        decreases cells@.len() - k,
    {
        check_cell_topology(&cells[k])?;
        k = k + 1;
    }
    Ok(())
}

/// Refuses a peer's update that changes what the session holds fixed: the page order and the
/// pages' identities, part paths and source ID bounds; the identity, placement, source and copy
/// fields of every shape the session already has, its child order and its cells' row types,
/// cached values and baseline formulas; and shapes it adds with an original identity.
#[verifier::loop_isolation(false)]
pub fn validate_session_topology(view: &TopologyView) -> (result: EditResult<()>)
    ensures
        match topology_fault(*view) {
            Some(fault) => result matches Err(error) && topology_error(error, fault),
            None => result is Ok,
        },
{
    if !view.before_order || !view.staged_order {
        return Err(invalid_state("missing vsdx:page-order array"));
    }
    if view.orders_differ {
        return Err(invalid_state("remote update changes immutable page topology"));
    }
    match (view.before_page_count, view.staged_page_count) {
        (Some(before), Some(staged)) => {
            if before != staged {
                return Err(invalid_state("remote update changes immutable page topology"));
            }
        },
        _ => {
            return Err(invalid_state("missing vsdx:pages map"));
        },
    }
    let ghost page_faults = view.pages@.map_values(|p: PageTopology| page_fault(p));
    let mut k: usize = 0;
    while k < view.pages.len()
        invariant
            k <= view.pages@.len(),
            first_of(page_faults, 0) == first_of(page_faults, k as int),
        decreases view.pages@.len() - k,
    {
        check_page_topology(&view.pages[k])?;
        k = k + 1;
    }
    if !view.before_sheets || !view.staged_sheets {
        return Err(invalid_state("missing vsdx:sheets map"));
    }
    let ghost added_faults = view.added@.map_values(|a: Option<Field>| added_fault(a));
    let mut a: usize = 0;
    while a < view.added.len()
        invariant
            a <= view.added@.len(),
            first_of(added_faults, 0) == first_of(added_faults, a as int),
        decreases view.added@.len() - a,
    {
        check_added_shape(&view.added[a])?;
        a = a + 1;
    }
    let ghost kept_faults = view.kept@.map_values(|s: ShapeTopology| kept_fault(s));
    let mut s: usize = 0;
    while s < view.kept.len()
        invariant
            s <= view.kept@.len(),
            first_of(kept_faults, 0) == first_of(kept_faults, s as int),
        decreases view.kept@.len() - s,
    {
        check_kept_shape(&view.kept[s])?;
        s = s + 1;
    }
    Ok(())
}

} // verus!
