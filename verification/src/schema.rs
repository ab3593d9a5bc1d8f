//! The schema check a session document must pass before it is used.
use vstd::prelude::*;

use crate::cell_records::{cell_fault, cell_locator, record_row, CellRecord, Whole};
use crate::model::{invalid_state, EditError, EditResult};
use crate::orders::{contains_str, items_view, keys_view};
use crate::shape_tree::{
    ChainFault, Field, PageRecord, Sheets, TreeFault, cyclic_message, fault_error, field_text,
    find_shape, first_chain_fault, first_link_fault, first_story_fault, origin_named,
    reachable_shape_ids, shape_origin, tree_walk, validate_acyclic_parents,
    validate_story_records,
};
use crate::stored_glue::{collect, glue_fault_error, glue_records, GlueEntry, GlueFault};
use crate::text::{decimal, push_char, push_decimal, push_str};

verus! {

/// One entry of a shape's cell map: its key; the cell's record where the value is a map; the
/// key the resolver gives the cell's section (its name and index), used where the cell names
/// a section; and its `formula` and `value` fields.
#[derive(Clone, Debug, PartialEq, Eq)]
pub struct SchemaCell {
    pub key: String,
    pub record: Option<CellRecord>,
    pub section_key: String,
    pub formula: Field,
    pub value: Field,
}

/// What the schema check reads of a shape beyond its place in the tree: its `id`, `sourceId`,
/// `copyRefusal`, `copySourceId` and `copySourcePageId`, and its cell map's entries in
/// iteration order (`None` where it has no cell map).
#[derive(Clone, Debug, PartialEq, Eq)]
pub struct ShapeDetails {
    pub id: Field,
    pub source_id: Whole,
    pub copy_refusal: Field,
    pub copy_source_id: Whole,
    pub copy_source_page_id: Whole,
    pub cells: Option<Vec<SchemaCell>>,
}

/// The unit separator that joins the parts of a cell key.
pub open spec fn key_separator() -> char {
    '\u{1f}'
}

/// The key a cell is stored under, from its record: section key, row and name joined by the
/// unit separator where the cell names a section and a row; else its name alone.
pub open spec fn expected_cell_key(record: CellRecord, section_key: Seq<char>) -> Seq<char> {
    let name = field_text(record.name).unwrap();
    match (field_text(record.section), record_row(record)) {
        (Some(_), Some(Ok(index))) => section_key + seq![key_separator()] + "IX:"@ + decimal(
            index as nat,
        ) + seq![key_separator()] + name,
        (Some(_), Some(Err(row))) => section_key + seq![key_separator()] + "N:"@ + row + seq![
            key_separator(),
        ] + name,
        _ => name,
    }
}

/// What is wrong with one cell entry, if anything, in the order it is read.
pub open spec fn schema_cell_fault(cell: SchemaCell) -> Option<Seq<char>> {
    match cell.record {
        None => Some("cell is not a map"@),
        Some(record) => match cell_fault(record) {
            Some(message) => Some(message),
            None => if expected_cell_key(record, cell.section_key@) != cell.key@ {
                Some("cell locator does not match map key"@)
            } else if cell.formula is Other {
                Some("cell formula is not a string"@)
            } else if cell.value is Other {
                Some("cell value is not a string"@)
            } else {
                None
            },
        },
    }
}

/// The first fault among the cells from the `k`-th on.
pub open spec fn first_cell_fault(cells: Seq<SchemaCell>, k: int) -> Option<Seq<char>>
    decreases cells.len() - k,
{
    if k < 0 || k >= cells.len() {
        None
    } else {
        match schema_cell_fault(cells[k]) {
            Some(message) => Some(message),
            None => first_cell_fault(cells, k + 1),
        }
    }
}

/// What is wrong with a shape's own fields, if anything, in the order they are read: its `id`
/// must be the key it is stored under, its source ID a whole `u32`, its origin a known one, a
/// copy refusal a non-empty string, its copy sources whole `u32`s, and it must have a cell map
/// whose cells pass.
pub open spec fn shape_details_fault(key: Seq<char>, origin: Field, details: ShapeDetails) -> Option<
    Seq<char>,
> {
    if field_text(details.id) is None {
        Some("missing id"@)
    } else if field_text(details.id) != Some(key) {
        Some("shape ID does not match map key"@)
    } else if details.source_id is Other {
        Some("sourceId is not an unsigned 32-bit integer"@)
    } else if details.source_id is Absent {
        Some("missing source ID"@)
    } else if field_text(origin) is None {
        Some("missing origin"@)
    } else if origin_named(field_text(origin).unwrap()) is None {
        Some("invalid shape origin"@)
    } else if details.copy_refusal is Other || field_text(details.copy_refusal) == Some(
        Seq::<char>::empty(),
    ) {
        Some("shape copy refusal is not a non-empty string"@)
    } else if details.copy_source_id is Other {
        Some("copySourceId is not an unsigned 32-bit integer"@)
    } else if details.copy_source_page_id is Other {
        Some("copySourcePageId is not an unsigned 32-bit integer"@)
    } else {
        match details.cells {
            None => Some("missing cells map"@),
            Some(cells) => first_cell_fault(cells@, 0),
        }
    }
}

/// Appends the key a cell with this record and section key is stored under.
fn push_cell_key(out: &mut String, record: &CellRecord, section_key: &str)
    requires
        cell_fault(*record) is None,
    ensures
        final(out)@ == old(out)@ + expected_cell_key(*record, section_key@),
{
    let name = match &record.name {
        Field::Text(name) => name,
        _ => {
            return;
        },
    };
    match (&record.section, record.row_index, &record.row_name) {
        (Field::Text(_), Whole::Value(index), _) => {
            push_str(out, section_key);
            push_char(out, '\u{1f}');
            push_str(out, "IX:");
            push_decimal(out, index as u64);
            push_char(out, '\u{1f}');
            push_str(out, name.as_str());
            proof {
                reveal_strlit("IX:");
            }
        },
        (Field::Text(_), _, Field::Text(row)) => {
            push_str(out, section_key);
            push_char(out, '\u{1f}');
            push_str(out, "N:");
            push_str(out, row.as_str());
            push_char(out, '\u{1f}');
            push_str(out, name.as_str());
            proof {
                reveal_strlit("N:");
            }
        },
        _ => {
            push_str(out, name.as_str());
        },
    }
}

fn string_eq(a: &String, b: &String) -> (result: bool)
    ensures
        result == (a@ == b@),
{
    crate::text::str_eq(a.as_str(), b.as_str())
}

/// Checks the cells of a shape's cell map in iteration order.
pub fn check_schema_cells(cells: &Vec<SchemaCell>) -> (result: EditResult<()>)
    ensures
        match first_cell_fault(cells@, 0) {
            None => result is Ok,
            Some(message) => result matches Err(EditError::InvalidState(m)) && m@ == message,
        },
{
    let mut k: usize = 0;
    while k < cells.len()
        invariant
            k <= cells@.len(),
            first_cell_fault(cells@, 0) == first_cell_fault(cells@, k as int),
        decreases cells@.len() - k,
    {
        let cell = &cells[k];
        match &cell.record {
            None => {
                return Err(invalid_state("cell is not a map"));
            },
            Some(record) => {
                cell_locator(record, 0, 0)?;
                let mut key = String::new();
                push_cell_key(&mut key, record, cell.section_key.as_str());
                assert(key@ == expected_cell_key(*record, cell.section_key@));
                if !string_eq(&key, &cell.key) {
                    return Err(invalid_state("cell locator does not match map key"));
                }
                if let Field::Other = cell.formula {
                    return Err(invalid_state("cell formula is not a string"));
                }
                if let Field::Other = cell.value {
                    return Err(invalid_state("cell value is not a string"));
                }
            },
        }
        k = k + 1;
    }
    Ok(())
}

/// Checks a shape's own fields and cells; `key` is the key it is stored under and `origin` its
/// `origin` field.
pub fn check_shape_details(key: &str, origin: &Field, details: &ShapeDetails) -> (result:
    EditResult<()>)
    ensures
        match shape_details_fault(key@, *origin, *details) {
            None => result is Ok,
            Some(message) => result matches Err(EditError::InvalidState(m)) && m@ == message,
        },
{
    match &details.id {
        Field::Text(id) => {
            if !crate::text::str_eq(id.as_str(), key) {
                return Err(invalid_state("shape ID does not match map key"));
            }
        },
        _ => {
            return Err(invalid_state("missing id"));
        },
    }
    match details.source_id {
        Whole::Other => {
            return Err(invalid_state("sourceId is not an unsigned 32-bit integer"));
        },
        Whole::Absent => {
            return Err(invalid_state("missing source ID"));
        },
        Whole::Value(_) => {},
    }
    shape_origin(origin)?;
    match &details.copy_refusal {
        Field::Other => {
            return Err(invalid_state("shape copy refusal is not a non-empty string"));
        },
        Field::Text(text) => {
            if text.as_str().unicode_len() == 0 {
                proof {
                    assert(text@ =~= Seq::<char>::empty());
                }
                return Err(invalid_state("shape copy refusal is not a non-empty string"));
            }
        },
        Field::Absent => {},
    }
    if let Whole::Other = details.copy_source_id {
        return Err(invalid_state("copySourceId is not an unsigned 32-bit integer"));
    }
    if let Whole::Other = details.copy_source_page_id {
        return Err(invalid_state("copySourcePageId is not an unsigned 32-bit integer"));
    }
    match &details.cells {
        None => Err(invalid_state("missing cells map")),
        Some(cells) => check_schema_cells(cells),
    }
}

/// What the schema check reads of the document's metadata map: whether `schemaVersion` is the
/// current schema version, and whether `fingerprint` and `packageJson` are present.
#[derive(Clone, Copy, Debug, PartialEq, Eq, Structural)]
pub struct MetaRecord {
    pub schema_version_matches: bool,
    pub fingerprint: bool,
    pub package_json: bool,
}

/// What the schema check reads of a page: its child order and `id`, its `sourcePartPath`, and
/// its `maxSourceId`.
#[derive(Clone, Debug, PartialEq, Eq)]
pub struct SchemaPage {
    pub record: PageRecord,
    pub source_part_path: Field,
    pub max_source_id: Whole,
}

/// Why a document fails the schema check, and so which error it gets.
pub enum SchemaFault {
    State(Seq<char>),
    Missing(Seq<char>),
    Tree(TreeFault),
    Glue(GlueFault),
}

/// The error a schema fault is reported as.
pub open spec fn schema_fault_error(error: EditError, fault: SchemaFault) -> bool {
    match fault {
        SchemaFault::State(message) => error matches EditError::InvalidState(m) && m@ == message,
        SchemaFault::Missing(key) => error matches EditError::PageNotFound(k) && k@ == key,
        SchemaFault::Tree(fault) => fault_error(error, fault),
        SchemaFault::Glue(fault) => glue_fault_error(error, fault),
    }
}

/// The IDs of the shapes a page reaches, or why it reaches none, as
/// [`reachable_shape_ids`] gives them.
pub open spec fn reached(sheets: &Sheets, page: PageRecord) -> Result<Seq<Seq<char>>, SchemaFault> {
    match (page.shapes, field_text(page.id)) {
        (None, _) => Err(SchemaFault::State("missing shapes array"@)),
        (Some(_), None) => Err(SchemaFault::State("missing id"@)),
        (Some(shapes), Some(page_id)) => match tree_walk(sheets, items_view(shapes@)) {
            Err(fault) => Err(SchemaFault::Tree(fault)),
            Ok(entries) => match first_link_fault(sheets, entries, 0, page_id) {
                Some(message) => Err(SchemaFault::State(message)),
                None => Ok(
                    entries.map_values(
                        |entry: (Seq<char>, Option<Seq<char>>, int, int)| entry.0,
                    ),
                ),
            },
        },
    }
}

/// The position of the sheets entry with key `id`.
pub open spec fn sheet_position(sheets: &Sheets, id: Seq<char>) -> int {
    choose|i: int| 0 <= i < sheets.entries@.len() && #[trigger] sheets.entries@[i].key@ == id
}

/// What is wrong with a reached shape, if anything: it must be a map of the sheets map, and
/// its fields must pass.
pub open spec fn reached_shape_fault(sheets: &Sheets, details: Seq<ShapeDetails>, id: Seq<char>) -> Option<
    SchemaFault,
> {
    match sheets.shape_of(id) {
        None => Some(SchemaFault::Missing(id)),
        Some(shape) => match shape_details_fault(id, shape.origin, details[sheet_position(sheets, id)]) {
            Some(message) => Some(SchemaFault::State(message)),
            None => None,
        },
    }
}

/// The first fault among the reached shapes from the `k`-th on.
pub open spec fn first_reached_fault(
    sheets: &Sheets,
    details: Seq<ShapeDetails>,
    ids: Seq<Seq<char>>,
    k: int,
) -> Option<SchemaFault>
    decreases ids.len() - k,
{
    if k < 0 || k >= ids.len() {
        None
    } else {
        match reached_shape_fault(sheets, details, ids[k]) {
            Some(fault) => Some(fault),
            None => first_reached_fault(sheets, details, ids, k + 1),
        }
    }
}

/// The page stored under `id`, when its value is a map.
pub open spec fn page_lookup(pages: Seq<(String, Option<SchemaPage>)>, id: Seq<char>) -> Option<
    SchemaPage,
> {
    if exists|i: int| 0 <= i < pages.len() && #[trigger] pages[i].0@ == id {
        pages[choose|i: int| 0 <= i < pages.len() && #[trigger] pages[i].0@ == id].1
    } else {
        None
    }
}

/// What is wrong with a page the page order lists, if anything: the entry must be a string
/// naming a page map whose `id` is that string, with a part path and a source ID bound, whose
/// tree is sound and whose shapes pass.
pub open spec fn order_entry_fault(
    item: Option<Seq<char>>,
    pages: Seq<(String, Option<SchemaPage>)>,
    sheets: &Sheets,
    details: Seq<ShapeDetails>,
) -> Option<SchemaFault> {
    match item {
        None => Some(SchemaFault::State("page order contains non-string"@)),
        Some(page_id) => match page_lookup(pages, page_id) {
            None => Some(SchemaFault::Missing(page_id)),
            Some(page) => if field_text(page.record.id) is None {
                Some(SchemaFault::State("missing id"@))
            } else if field_text(page.record.id) != Some(page_id) {
                Some(SchemaFault::State("page ID does not match map key"@))
            } else if field_text(page.source_part_path) is None {
                Some(SchemaFault::State("missing sourcePartPath"@))
            } else if page.max_source_id is Other {
                Some(SchemaFault::State("maxSourceId is not an unsigned 32-bit integer"@))
            } else if page.max_source_id is Absent {
                Some(SchemaFault::State("missing page source ID bound"@))
            } else {
                match reached(sheets, page.record) {
                    Err(fault) => Some(fault),
                    Ok(ids) => first_reached_fault(sheets, details, ids, 0),
                }
            },
        },
    }
}

/// The first fault among the page order's entries from the `k`-th on.
pub open spec fn first_order_fault(
    order: Seq<Option<String>>,
    k: int,
    pages: Seq<(String, Option<SchemaPage>)>,
    sheets: &Sheets,
    details: Seq<ShapeDetails>,
) -> Option<SchemaFault>
    decreases order.len() - k,
{
    if k < 0 || k >= order.len() {
        None
    } else {
        match order_entry_fault(items_view(order)[k], pages, sheets, details) {
            Some(fault) => Some(fault),
            None => first_order_fault(order, k + 1, pages, sheets, details),
        }
    }
}

/// The page keys are distinct, as a map's keys are, and every page's child order fits the
/// document's list indices.
pub open spec fn pages_wf(pages: Seq<(String, Option<SchemaPage>)>) -> bool {
    &&& forall|i: int, j: int| 0 <= i < j < pages.len() ==> #[trigger] pages[i].0@ != #[trigger] pages[j].0@
    &&& forall|i: int|
        0 <= i < pages.len() ==> match (#[trigger] pages[i]).1 {
            Some(page) => page.record.shapes matches Some(shapes) ==> shapes@.len() <= u32::MAX,
            None => true,
        }
}

/// The sheets are well formed and `details` describes each of their entries, position by
/// position.
pub open spec fn sheets_described(sheets: &Sheets, details: Seq<ShapeDetails>) -> bool {
    sheets.wf() && details.len() == sheets.entries@.len()
}

/// The IDs a page reaches, with the page checks of [`reachable_shape_ids`].
fn reached_ids(sheets: &Sheets, page: &PageRecord) -> (result: EditResult<Vec<String>>)
    requires
        sheets.wf(),
        page.shapes matches Some(shapes) ==> shapes@.len() <= u32::MAX,
    ensures
        match reached(sheets, *page) {
            Err(fault) => result matches Err(error) && schema_fault_error(error, fault),
            Ok(ids) => result matches Ok(found) && keys_view(found@) == ids,
        },
{
    reachable_shape_ids(sheets, page)
}

/// Checks the reached shapes in order.
fn check_reached_shapes(sheets: &Sheets, details: &Vec<ShapeDetails>, ids: &Vec<String>) -> (result:
    EditResult<()>)
    requires
        sheets_described(sheets, details@),
    ensures
        match first_reached_fault(sheets, details@, keys_view(ids@), 0) {
            None => result is Ok,
            Some(fault) => result matches Err(error) && schema_fault_error(error, fault),
        },
{
    let mut k: usize = 0;
    while k < ids.len()
        invariant
            sheets_described(sheets, details@),
            k <= ids@.len(),
            first_reached_fault(sheets, details@, keys_view(ids@), 0) == first_reached_fault(
                sheets,
                details@,
                keys_view(ids@),
                k as int,
            ),
        decreases ids@.len() - k,
    {
        let id = &ids[k];
        assert(keys_view(ids@)[k as int] == id@);
        match find_shape(sheets, id.as_str()) {
            None => {
                return Err(EditError::PageNotFound(id.clone()));
            },
            Some(o) => {
                proof {
                    let p = sheet_position(sheets, id@);
                    assert(sheets.entries@[o as int].key@ == id@);
                    assert(0 <= p < sheets.entries@.len() && sheets.entries@[p].key@ == id@);
                    assert(p == o as int);
                }
                let shape = match &sheets.entries[o].shape {
                    Some(shape) => shape,
                    None => {
                        return Err(EditError::PageNotFound(id.clone()));
                    },
                };
                check_shape_details(id.as_str(), &shape.origin, &details[o])?;
            },
        }
        k = k + 1;
    }
    Ok(())
}

/// The position of the page stored under `id`.
pub(crate) fn find_page_position(pages: &Vec<(String, Option<SchemaPage>)>, id: &str) -> (result: Option<usize>)
    requires
        pages_wf(pages@),
    ensures
        match result {
            Some(i) => i < pages@.len() && pages@[i as int].0@ == id@ && page_lookup(pages@, id@)
                == pages@[i as int].1,
            None => page_lookup(pages@, id@) is None,
        },
{
    let mut i: usize = 0;
    while i < pages.len()
        invariant
            pages_wf(pages@),
            i <= pages@.len(),
            forall|j: int| 0 <= j < i ==> #[trigger] pages@[j].0@ != id@,
        decreases pages@.len() - i,
    {
        if crate::text::str_eq(pages[i].0.as_str(), id) {
            proof {
                let k = choose|k: int| 0 <= k < pages@.len() && #[trigger] pages@[k].0@ == id@;
                assert(pages@[i as int].0@ == id@);
                if k != i as int {
                    assert(pages@[k].0@ != pages@[i as int].0@);
                }
            }
            return Some(i);
        }
        i = i + 1;
    }
    None
}

/// Checks one entry of the page order.
fn check_order_entry(
    item: &Option<String>,
    pages: &Vec<(String, Option<SchemaPage>)>,
    sheets: &Sheets,
    details: &Vec<ShapeDetails>,
) -> (result: EditResult<()>)
    requires
        pages_wf(pages@),
        sheets_described(sheets, details@),
    ensures
        match order_entry_fault(crate::orders::item_view(*item), pages@, sheets, details@) {
            None => result is Ok,
            Some(fault) => result matches Err(error) && schema_fault_error(error, fault),
        },
{
    let page_id = match item {
        Some(page_id) => page_id,
        None => {
            return Err(invalid_state("page order contains non-string"));
        },
    };
    let page = match find_page_position(pages, page_id.as_str()) {
        None => {
            return Err(EditError::PageNotFound(page_id.clone()));
        },
        Some(i) => match &pages[i].1 {
            None => {
                return Err(EditError::PageNotFound(page_id.clone()));
            },
            Some(page) => {
                assert(pages@[i as int].1 matches Some(p) && p.record.shapes matches Some(shapes)
                    ==> shapes@.len() <= u32::MAX);
                page
            },
        },
    };
    match &page.record.id {
        Field::Text(id) => {
            if !crate::text::str_eq(id.as_str(), page_id.as_str()) {
                return Err(invalid_state("page ID does not match map key"));
            }
        },
        _ => {
            return Err(invalid_state("missing id"));
        },
    }
    if !matches!(page.source_part_path, Field::Text(_)) {
        return Err(invalid_state("missing sourcePartPath"));
    }
    match page.max_source_id {
        Whole::Other => {
            return Err(invalid_state("maxSourceId is not an unsigned 32-bit integer"));
        },
        Whole::Absent => {
            return Err(invalid_state("missing page source ID bound"));
        },
        Whole::Value(_) => {},
    }
    let ids = reached_ids(sheets, &page.record)?;
    check_reached_shapes(sheets, details, &ids)
}

/// Adds the IDs from the `j`-th on to the shapes already attached to a page, refusing a shape
/// that is attached twice.
pub open spec fn attach_ids(ids: Seq<Seq<char>>, j: int, seen: Seq<Seq<char>>) -> Result<
    Seq<Seq<char>>,
    SchemaFault,
>
    decreases ids.len() - j,
{
    if j < 0 || j >= ids.len() {
        Ok(seen)
    } else if seen.contains(ids[j]) {
        Err(SchemaFault::State("shape is attached to multiple pages"@))
    } else {
        attach_ids(ids, j + 1, seen.push(ids[j]))
    }
}

/// The shapes attached to the pages from the `k`-th on, in the pages map's order, each page's
/// reached shapes in turn; every page must be a map with a sound tree.
pub open spec fn attach_pages(
    pages: Seq<(String, Option<SchemaPage>)>,
    sheets: &Sheets,
    k: int,
    seen: Seq<Seq<char>>,
) -> Result<Seq<Seq<char>>, SchemaFault>
    decreases pages.len() - k,
{
    if k < 0 || k >= pages.len() {
        Ok(seen)
    } else {
        match pages[k].1 {
            None => Err(SchemaFault::State("page is not a map"@)),
            Some(page) => match reached(sheets, page.record) {
                Err(fault) => Err(fault),
                Ok(ids) => match attach_ids(ids, 0, seen) {
                    Err(fault) => Err(fault),
                    Ok(more) => attach_pages(pages, sheets, k + 1, more),
                },
            },
        }
    }
}

/// Adds a page's reached shapes to `attached`.
fn attach_page_ids(attached: &mut Vec<String>, ids: &Vec<String>) -> (result: EditResult<()>)
    ensures
        match attach_ids(keys_view(ids@), 0, keys_view(old(attached)@)) {
            Err(fault) => result matches Err(error) && schema_fault_error(error, fault),
            Ok(seen) => result is Ok && keys_view(final(attached)@) == seen,
        },
{
    let ghost start = keys_view(attached@);
    let mut j: usize = 0;
    while j < ids.len()
        invariant
            j <= ids@.len(),
            start == keys_view(old(attached)@),
            attach_ids(keys_view(ids@), 0, start) == attach_ids(
                keys_view(ids@),
                j as int,
                keys_view(attached@),
            ),
        decreases ids@.len() - j,
    {
        let id = &ids[j];
        assert(keys_view(ids@)[j as int] == id@);
        if contains_str(attached, id.as_str()) {
            return Err(invalid_state("shape is attached to multiple pages"));
        }
        let ghost before = keys_view(attached@);
        attached.push(id.clone());
        assert(keys_view(attached@) =~= before.push(id@));
        j = j + 1;
    }
    Ok(())
}

/// The shapes attached to all pages, in the pages map's order.
fn attached_shapes(pages: &Vec<(String, Option<SchemaPage>)>, sheets: &Sheets) -> (result:
    EditResult<Vec<String>>)
    requires
        pages_wf(pages@),
        sheets.wf(),
    ensures
        match attach_pages(pages@, sheets, 0, Seq::empty()) {
            Err(fault) => result matches Err(error) && schema_fault_error(error, fault),
            Ok(seen) => result matches Ok(found) && keys_view(found@) == seen,
        },
{
    let mut attached: Vec<String> = Vec::new();
    let mut k: usize = 0;
    assert(keys_view(attached@) =~= Seq::<Seq<char>>::empty());
    while k < pages.len()
        invariant
            pages_wf(pages@),
            sheets.wf(),
            k <= pages@.len(),
            attach_pages(pages@, sheets, 0, Seq::empty()) == attach_pages(
                pages@,
                sheets,
                k as int,
                keys_view(attached@),
            ),
        decreases pages@.len() - k,
    {
        let page = match &pages[k].1 {
            None => {
                return Err(invalid_state("page is not a map"));
            },
            Some(page) => {
                assert(pages@[k as int].1 matches Some(p) && p.record.shapes matches Some(shapes)
                    ==> shapes@.len() <= u32::MAX);
                page
            },
        };
        let ids = reached_ids(sheets, &page.record)?;
        attach_page_ids(&mut attached, &ids)?;
        k = k + 1;
    }
    Ok(attached)
}

/// Each page's key, with whether its value is a map.
pub open spec fn page_flags(pages: Seq<(String, Option<SchemaPage>)>) -> Seq<(String, bool)> {
    pages.map_values(|page: (String, Option<SchemaPage>)| (page.0, page.1 is Some))
}

/// Why the document fails the schema check, if it does, in the order the checks run: the
/// metadata map with the current schema version, a fingerprint and the package; the page
/// order; the pages, sheets and stories maps; acyclic parent chains; each page of the order;
/// every shape attached to exactly one page; the stored glue; the stories.
pub open spec fn schema_fault(
    meta: Option<MetaRecord>,
    order: Option<Seq<Option<String>>>,
    pages: Option<Seq<(String, Option<SchemaPage>)>>,
    sheets: Option<Sheets>,
    details: Seq<ShapeDetails>,
    connects: Option<Seq<GlueEntry>>,
    stories: Option<Seq<(String, bool)>>,
) -> Option<SchemaFault> {
    let state = |message: Seq<char>| Some(SchemaFault::State(message));
    match meta {
        None => state("missing vsdx:meta map"@),
        Some(meta) => if !meta.schema_version_matches {
            state("unsupported diagram schema version"@)
        } else if !meta.fingerprint {
            state("missing diagram metadata fingerprint"@)
        } else if !meta.package_json {
            state("missing diagram metadata packageJson"@)
        } else {
            match (order, pages, sheets, stories) {
                (None, _, _, _) => state("missing vsdx:page-order array"@),
                (Some(_), None, _, _) => state("missing vsdx:pages map"@),
                (Some(_), Some(_), None, _) => state("missing vsdx:sheets map"@),
                (Some(_), Some(_), Some(_), None) => state("missing vsdx:stories map"@),
                (Some(order), Some(pages), Some(sheets), Some(stories)) => match first_chain_fault(
                    &sheets,
                    0,
                ) {
                    Some((shape_id, ChainFault::Cyclic)) => state(cyclic_message(shape_id)),
                    Some((_, ChainFault::TooDeep)) => state(
                        "shape nesting exceeds maximum depth"@,
                    ),
                    None => match first_order_fault(order, 0, pages, &sheets, details) {
                        Some(fault) => Some(fault),
                        None => match attach_pages(pages, &sheets, 0, Seq::empty()) {
                            Err(fault) => Some(fault),
                            Ok(attached) => if attached.len() != sheets.entries@.len() {
                                state("shape is not reachable from a page shape order"@)
                            } else {
                                match (match connects {
                                    Some(list) => match collect(list, 0, page_flags(pages), &sheets) {
                                        Err(fault) => Some(fault),
                                        Ok(_) => None,
                                    },
                                    None => None,
                                }) {
                                    Some(fault) => Some(SchemaFault::Glue(fault)),
                                    None => match first_story_fault(&sheets, stories, 0) {
                                        Some(message) => state(message),
                                        None => None,
                                    },
                                }
                            },
                        },
                    },
                },
            }
        },
    }
}

pub open spec fn opt_view<T>(value: Option<&T>) -> Option<T> {
    match value {
        Some(v) => Some(*v),
        None => None,
    }
}

pub open spec fn opt_seq<T>(value: Option<&Vec<T>>) -> Option<Seq<T>> {
    match value {
        Some(v) => Some(v@),
        None => None,
    }
}

/// Checks that a session document has the shape the editor relies on: `meta`, `order`,
/// `pages`, `sheets`, `connects` and `stories` are the document's root maps and page order as
/// plain records (`None` where a root is missing), and `details` describes each sheets entry,
/// position by position. The first fault found is reported.
#[verifier::loop_isolation(false)]
pub fn validate_schema(
    meta: Option<&MetaRecord>,
    order: Option<&Vec<Option<String>>>,
    pages: Option<&Vec<(String, Option<SchemaPage>)>>,
    sheets: Option<&Sheets>,
    details: &Vec<ShapeDetails>,
    connects: Option<&Vec<GlueEntry>>,
    stories: Option<&Vec<(String, bool)>>,
) -> (result: EditResult<()>)
    requires
        pages matches Some(pages) ==> pages_wf(pages@),
        sheets matches Some(sheets) ==> sheets_described(sheets, details@),
        connects matches Some(list) ==> forall|i: int, j: int|
            0 <= i < j < list@.len() ==> #[trigger] list@[i].key@ != #[trigger] list@[j].key@,
    ensures
        match schema_fault(
            opt_view(meta),
            opt_seq(order),
            opt_seq(pages),
            opt_view(sheets),
            details@,
            opt_seq(connects),
            opt_seq(stories),
        ) {
            None => result is Ok,
            Some(fault) => result matches Err(error) && schema_fault_error(error, fault),
        },
{
    let meta = match meta {
        None => {
            return Err(invalid_state("missing vsdx:meta map"));
        },
        Some(meta) => meta,
    };
    if !meta.schema_version_matches {
        return Err(invalid_state("unsupported diagram schema version"));
    }
    if !meta.fingerprint {
        return Err(invalid_state("missing diagram metadata fingerprint"));
    }
    if !meta.package_json {
        return Err(invalid_state("missing diagram metadata packageJson"));
    }
    let order = match order {
        None => {
            return Err(invalid_state("missing vsdx:page-order array"));
        },
        Some(order) => order,
    };
    let pages = match pages {
        None => {
            return Err(invalid_state("missing vsdx:pages map"));
        },
        Some(pages) => pages,
    };
    let sheets = match sheets {
        None => {
            return Err(invalid_state("missing vsdx:sheets map"));
        },
        Some(sheets) => sheets,
    };
    if stories.is_none() {
        return Err(invalid_state("missing vsdx:stories map"));
    }
    validate_acyclic_parents(sheets)?;
    let mut k: usize = 0;
    while k < order.len()
        invariant
            pages_wf(pages@),
            sheets_described(sheets, details@),
            k <= order@.len(),
            first_order_fault(order@, 0, pages@, sheets, details@) == first_order_fault(
                order@,
                k as int,
                pages@,
                sheets,
                details@,
            ),
        decreases order@.len() - k,
    {
        assert(items_view(order@)[k as int] == crate::orders::item_view(order@[k as int]));
        check_order_entry(&order[k], pages, sheets, details)?;
        k = k + 1;
    }
    let attached = attached_shapes(pages, sheets)?;
    if attached.len() != sheets.entries.len() {
        return Err(invalid_state("shape is not reachable from a page shape order"));
    }
    let mut flags: Vec<(String, bool)> = Vec::new();
    let mut p: usize = 0;
    while p < pages.len()
        invariant
            p <= pages@.len(),
            flags@ == page_flags(pages@).subrange(0, p as int),
        decreases pages@.len() - p,
    {
        flags.push((pages[p].0.clone(), pages[p].1.is_some()));
        p = p + 1;
    }
    assert(flags@ == page_flags(pages@));
    assert forall|i: int, j: int| 0 <= i < j < flags@.len() implies #[trigger] flags@[i].0@
        != #[trigger] flags@[j].0@ by {
        assert(flags@[i].0 == pages@[i].0);
        assert(flags@[j].0 == pages@[j].0);
    }
    glue_records(connects, &flags, sheets)?;
    validate_story_records(stories, sheets)
}

} // verus!
