//! Seeding a session document from the opened package: what one shape writes.
use vstd::prelude::*;

use crate::args::MAX_SHAPE_NESTING;
use crate::cell_records::text_view;
use crate::content::{copy_refusal_of, copy_refusal_reason, ShapeContent};
use crate::model::{invalid_state, CellLocator, CellRow, CellSheet, EditResult};
use crate::text::{
    chars_of, chars_start_with, decimal, owned, parse_u32, parsed_u32, push_char, push_chars,
    push_decimal, push_str, starts_with,
};

verus! {

/// A cell the resolver reports for a shape or row: its name, and its formula and value where
/// the lookup found the cell.
#[derive(Clone, Debug, PartialEq, Eq)]
pub struct ResolvedCell {
    pub name: String,
    pub found: Option<(Option<String>, Option<String>)>,
}

/// A row of a resolved section: its key (`N:` and a name, or `IX:` and an index), its type,
/// and its cells.
#[derive(Clone, Debug, PartialEq, Eq)]
pub struct ResolvedRow {
    pub key: String,
    pub row_type: Option<String>,
    pub cells: Vec<ResolvedCell>,
}

/// A resolved section: its name and index, the key the resolver files it under, and its rows.
#[derive(Clone, Debug, PartialEq, Eq)]
pub struct ResolvedSection {
    pub name: String,
    pub index: Option<u32>,
    pub key: String,
    pub rows: Vec<ResolvedRow>,
}

/// What seeding reads of a package shape: its ID, master, name, content (for the copy
/// refusal) and its child shapes' IDs.
#[derive(Clone, Debug, PartialEq, Eq)]
pub struct SeedShape {
    pub source_id: u32,
    pub master: Option<u32>,
    pub name: Option<String>,
    pub content: Vec<ShapeContent>,
    pub children: Vec<u32>,
}

/// One cell a seeded shape stores: its key, locator, formula (also its baseline), cached
/// value and row type.
#[derive(Clone, Debug, PartialEq, Eq)]
pub struct SeedCell {
    pub key: String,
    pub locator: CellLocator,
    pub formula: Option<String>,
    pub value: Option<String>,
    pub row_type: Option<String>,
}

/// What seeding one shape writes: the shape's fields, its cells, its text and its children's
/// session IDs in order.
#[derive(Clone, Debug, PartialEq, Eq)]
pub struct SeedPlan {
    pub id: String,
    pub page_id: String,
    pub source_id: u32,
    pub master: Option<u32>,
    pub parent_id: Option<String>,
    pub name: Option<String>,
    pub copy_refusal: Option<String>,
    pub cells: Vec<SeedCell>,
    pub text: String,
    pub child_ids: Vec<String>,
}

pub type CellView = (
    Seq<char>,
    Option<Seq<char>>,
    Option<u32>,
    Option<Result<u32, Seq<char>>>,
    Seq<char>,
    Option<Seq<char>>,
    Option<Seq<char>>,
    Option<Seq<char>>,
);

pub open spec fn row_result(row: Option<CellRow>) -> Option<Result<u32, Seq<char>>> {
    match row {
        Some(CellRow::Index(index)) => Some(Ok(index)),
        Some(CellRow::Name(name)) => Some(Err(name@)),
        None => None,
    }
}

/// A seeded cell as plain values: key, section, section index, row, name, formula, value, row
/// type. Its sheet is the page placeholder and its shape the seeded one.
pub open spec fn seed_cell_view(cell: SeedCell) -> CellView {
    (
        cell.key@,
        text_view(cell.locator.section),
        cell.locator.section_index,
        row_result(cell.locator.row),
        cell.locator.cell_name@,
        text_view(cell.formula),
        text_view(cell.value),
        text_view(cell.row_type),
    )
}

/// The row a resolved row key names: `N:` and a name, else `IX:` and an index.
pub open spec fn row_of_key(key: Seq<char>) -> Option<Result<u32, Seq<char>>> {
    if starts_with(key, "N:"@) {
        Some(Err(key.subrange(2, key.len() as int)))
    } else if starts_with(key, "IX:"@) {
        match parsed_u32(key.subrange(3, key.len() as int)) {
            Some(index) => Some(Ok(index)),
            None => None,
        }
    } else {
        None
    }
}

/// The key a row cell is stored under: section key, row and name joined by the unit separator.
pub open spec fn row_cell_key(section_key: Seq<char>, row: Result<u32, Seq<char>>, name: Seq<char>) -> Seq<
    char,
> {
    match row {
        Ok(index) => section_key + seq!['\u{1f}'] + "IX:"@ + decimal(index as nat) + seq!['\u{1f}']
            + name,
        Err(row_name) => section_key + seq!['\u{1f}'] + "N:"@ + row_name + seq!['\u{1f}'] + name,
    }
}

pub open spec fn found_view(found: Option<(Option<String>, Option<String>)>) -> (Option<Seq<char>>, Option<Seq<char>>) {
    match found {
        Some((formula, value)) => (text_view(formula), text_view(value)),
        None => (None, None),
    }
}

/// The shape-level cells the resolver found, from the first `n`, in order.
pub open spec fn shape_cells(cells: Seq<ResolvedCell>, n: int) -> Seq<CellView>
    decreases n,
{
    if n <= 0 || n > cells.len() {
        Seq::empty()
    } else {
        let cell = cells[n - 1];
        let rest = shape_cells(cells, n - 1);
        if cell.found is Some {
            let (formula, value) = found_view(cell.found);
            rest.push((cell.name@, None, None, None, cell.name@, formula, value, None))
        } else {
            rest
        }
    }
}

/// The found cells of the first `n` cells of a row.
pub open spec fn row_cells(section: ResolvedSection, row: ResolvedRow, index: Result<u32, Seq<char>>, n: int) -> Seq<
    CellView,
>
    decreases n,
{
    if n <= 0 || n > row.cells@.len() {
        Seq::empty()
    } else {
        let cell = row.cells@[n - 1];
        let rest = row_cells(section, row, index, n - 1);
        if cell.found is Some {
            let (formula, value) = found_view(cell.found);
            rest.push(
                (
                    row_cell_key(section.key@, index, cell.name@),
                    Some(section.name@),
                    section.index,
                    Some(index),
                    cell.name@,
                    formula,
                    value,
                    text_view(row.row_type),
                ),
            )
        } else {
            rest
        }
    }
}

/// The cells of the first `n` rows of a section; rows whose key names no row are skipped.
pub open spec fn section_cells(section: ResolvedSection, n: int) -> Seq<CellView>
    decreases n,
{
    if n <= 0 || n > section.rows@.len() {
        Seq::empty()
    } else {
        let row = section.rows@[n - 1];
        section_cells(section, n - 1) + match row_of_key(row.key@) {
            Some(index) => row_cells(section, row, index, row.cells@.len() as int),
            None => Seq::empty(),
        }
    }
}

/// The cells of the first `n` sections.
pub open spec fn sections_cells(sections: Seq<ResolvedSection>, n: int) -> Seq<CellView>
    decreases n,
{
    if n <= 0 || n > sections.len() {
        Seq::empty()
    } else {
        sections_cells(sections, n - 1) + section_cells(sections[n - 1], sections[n - 1].rows@.len() as int)
    }
}

/// The session ID of a child shape.
pub open spec fn child_id(id: Seq<char>, child: u32) -> Seq<char> {
    id + ":shape:"@ + decimal(child as nat)
}

pub open spec fn opt_str(s: Option<&str>) -> Option<Seq<char>> {
    match s {
        Some(s) => Some(s@),
        None => None,
    }
}

/// A seeded cell came from `section`: it carries the section's name and index, its key starts
/// with the section's key, and its row is one of the section's rows.
pub open spec fn from_section(view: CellView, section: ResolvedSection) -> bool {
    &&& view.1 == Some(section.name@)
    &&& view.2 == section.index
    &&& section.key@.len() <= view.0.len() && view.0.subrange(0, section.key@.len() as int) == section.key@
    &&& exists|r: int| 0 <= r < section.rows@.len() && row_of_key(#[trigger] section.rows@[r].key@) == view.3
    &&& view.3 is Some
}

proof fn lemma_row_cells_from(section: ResolvedSection, r: int, index: Result<u32, Seq<char>>, n: int)
    requires
        0 <= r < section.rows@.len(),
        row_of_key(section.rows@[r].key@) == Some(index),
    ensures
        forall|k: int| 0 <= k < row_cells(section, section.rows@[r], index, n).len() ==> from_section(
            #[trigger] row_cells(section, section.rows@[r], index, n)[k],
            section,
        ),
    decreases n,
{
    let row = section.rows@[r];
    if n > 0 && n <= row.cells@.len() {
        lemma_row_cells_from(section, r, index, n - 1);
        let cell = row.cells@[n - 1];
        if cell.found is Some {
            let key = row_cell_key(section.key@, index, cell.name@);
            let tail = match index {
                Ok(i) => seq!['\u{1f}'] + "IX:"@ + decimal(i as nat) + seq!['\u{1f}'] + cell.name@,
                Err(name) => seq!['\u{1f}'] + "N:"@ + name + seq!['\u{1f}'] + cell.name@,
            };
            assert(key =~= section.key@ + tail);
            assert((section.key@ + tail).subrange(0, section.key@.len() as int) =~= section.key@);
            let (formula, value) = found_view(cell.found);
            let v = (key, Some(section.name@), section.index, Some(index), cell.name@, formula, value, text_view(row.row_type));
            let before = row_cells(section, row, index, n - 1);
            assert(row_cells(section, row, index, n) == before.push(v));
            assert(row_of_key(section.rows@[r].key@) == v.3);
            assert(from_section(v, section));
            assert forall|k: int| 0 <= k < row_cells(section, row, index, n).len() implies from_section(
                #[trigger] row_cells(section, row, index, n)[k],
                section,
            ) by {
                if k < before.len() {
                    assert(row_cells(section, row, index, n)[k] == before[k]);
                }
            }
        } else {
            assert(row_cells(section, row, index, n) == row_cells(section, row, index, n - 1));
        }
    }
}

proof fn lemma_section_cells_from(section: ResolvedSection, n: int)
    ensures
        forall|k: int| 0 <= k < section_cells(section, n).len() ==> from_section(
            #[trigger] section_cells(section, n)[k],
            section,
        ),
    decreases n,
{
    if n > 0 && n <= section.rows@.len() {
        lemma_section_cells_from(section, n - 1);
        let row = section.rows@[n - 1];
        let before = section_cells(section, n - 1);
        match row_of_key(row.key@) {
            Some(index) => {
                lemma_row_cells_from(section, n - 1, index, row.cells@.len() as int);
                let added = row_cells(section, row, index, row.cells@.len() as int);
                assert forall|k: int| 0 <= k < section_cells(section, n).len() implies from_section(
                    #[trigger] section_cells(section, n)[k],
                    section,
                ) by {
                    if k < before.len() {
                        assert(section_cells(section, n)[k] == before[k]);
                    } else {
                        assert(section_cells(section, n)[k] == added[k - before.len()]);
                    }
                }
            },
            None => {
                assert(section_cells(section, n) =~= before);
            },
        }
    }
}

proof fn lemma_sections_cells_from(sections: Seq<ResolvedSection>, n: int)
    ensures
        forall|k: int| 0 <= k < sections_cells(sections, n).len() ==> exists|j: int|
            0 <= j < sections.len() && from_section(#[trigger] sections_cells(sections, n)[k], sections[j]),
    decreases n,
{
    if n > 0 && n <= sections.len() {
        lemma_sections_cells_from(sections, n - 1);
        lemma_section_cells_from(sections[n - 1], sections[n - 1].rows@.len() as int);
        let before = sections_cells(sections, n - 1);
        let added = section_cells(sections[n - 1], sections[n - 1].rows@.len() as int);
        assert forall|k: int| 0 <= k < sections_cells(sections, n).len() implies exists|j: int|
            0 <= j < sections.len() && from_section(#[trigger] sections_cells(sections, n)[k], sections[j]) by {
            if k < before.len() {
                assert(sections_cells(sections, n)[k] == before[k]);
            } else {
                assert(sections_cells(sections, n)[k] == added[k - before.len()]);
                assert(from_section(added[k - before.len()], sections[n - 1]));
            }
        }
    }
}

proof fn lemma_shape_cells_unsectioned(cells: Seq<ResolvedCell>, n: int)
    ensures
        forall|k: int| 0 <= k < shape_cells(cells, n).len() ==> (#[trigger] shape_cells(cells, n)[k]).1 is None,
    decreases n,
{
    if n > 0 && n <= cells.len() {
        lemma_shape_cells_unsectioned(cells, n - 1);
    }
}

/// Every cell a seeding writes into a section carries the section it came from: the
/// section's name and index (so a cell of a shape's second geometry section is addressed as
/// that section, not the first), a key that starts with the section's key, and one of the
/// section's rows. The shape's own cells carry no section.
pub proof fn lemma_seeded_cells_keep_their_section(
    plan: SeedPlan,
    cells: Seq<ResolvedCell>,
    sections: Seq<ResolvedSection>,
)
    requires
        cell_views(plan.cells@) == shape_cells(cells, cells.len() as int) + sections_cells(
            sections,
            sections.len() as int,
        ),
    ensures
        forall|i: int|
            0 <= i < plan.cells@.len() && (#[trigger] plan.cells@[i]).locator.section is Some ==> exists|j: int|
                0 <= j < sections.len() && from_section(seed_cell_view(plan.cells@[i]), sections[j])
                    && plan.cells@[i].locator.section_index == sections[j].index,
{
    let top = shape_cells(cells, cells.len() as int);
    let rest = sections_cells(sections, sections.len() as int);
    lemma_shape_cells_unsectioned(cells, cells.len() as int);
    lemma_sections_cells_from(sections, sections.len() as int);
    assert forall|i: int|
        0 <= i < plan.cells@.len() && (#[trigger] plan.cells@[i]).locator.section is Some implies exists|j: int|
            0 <= j < sections.len() && from_section(seed_cell_view(plan.cells@[i]), sections[j])
                && plan.cells@[i].locator.section_index == sections[j].index by {
        let v = seed_cell_view(plan.cells@[i]);
        assert(cell_views(plan.cells@).len() == plan.cells@.len());
        assert(cell_views(plan.cells@)[i] == v);
        assert((top + rest).len() == top.len() + rest.len());
        if i < top.len() {
            assert(v == top[i]);
        } else {
            assert(v == rest[i - top.len()]);
            let j = choose|j: int| 0 <= j < sections.len() && from_section(rest[i - top.len()], sections[j]);
            assert(from_section(v, sections[j]));
        }
    }
}

/// Reads a resolved row key.
fn row_of(key: &String) -> (result: Option<CellRow>)
    ensures
        row_result(result) == row_of_key(key@),
{
    let chars = chars_of(key.as_str());
    let name_prefix = chars_of("N:");
    let index_prefix = chars_of("IX:");
    proof {
        reveal_strlit("N:");
        reveal_strlit("IX:");
    }
    assert(chars@.subrange(0, chars@.len() as int) =~= chars@);
    if chars_start_with(&chars, 0, &name_prefix) {
        let mut name = String::new();
        push_chars(&mut name, &chars, 2, chars.len());
        assert(name@ =~= key@.subrange(2, key@.len() as int));
        return Some(CellRow::Name(name));
    }
    if chars_start_with(&chars, 0, &index_prefix) {
        return match parse_u32(&chars, 3) {
            Some(index) => Some(CellRow::Index(index)),
            None => None,
        };
    }
    None
}

fn copy_text(s: &Option<String>) -> (result: Option<String>)
    ensures
        text_view(result) == text_view(*s),
{
    match s {
        Some(t) => Some(owned(t.as_str())),
        None => None,
    }
}

pub open spec fn cell_views(cells: Seq<SeedCell>) -> Seq<CellView> {
    cells.map_values(|cell: SeedCell| seed_cell_view(cell))
}

fn clone_row(row: &CellRow) -> (result: CellRow)
    ensures
        row_result(Some(result)) == row_result(Some(*row)),
{
    match row {
        CellRow::Index(index) => CellRow::Index(*index),
        CellRow::Name(name) => CellRow::Name(owned(name.as_str())),
    }
}

/// Appends the key a row cell is stored under.
fn push_row_key(out: &mut String, section_key: &str, row: &CellRow, name: &str)
    ensures
        final(out)@ == old(out)@ + row_cell_key(section_key@, row_result(Some(*row)).unwrap(), name@),
{
    push_str(out, section_key);
    push_char(out, '\u{1f}');
    match row {
        CellRow::Index(index) => {
            push_str(out, "IX:");
            push_decimal(out, *index as u64);
            proof {
                reveal_strlit("IX:");
            }
        },
        CellRow::Name(row_name) => {
            push_str(out, "N:");
            push_str(out, row_name.as_str());
            proof {
                reveal_strlit("N:");
            }
        },
    }
    push_char(out, '\u{1f}');
    push_str(out, name);
}

fn push_shape_cells(out: &mut Vec<SeedCell>, cells: &Vec<ResolvedCell>, source_id: u32)
    ensures
        cell_views(final(out)@) == cell_views(old(out)@) + shape_cells(cells@, cells@.len() as int),
        forall|i: int| old(out)@.len() <= i < final(out)@.len() ==> (#[trigger] final(out)@[i]).locator.sheet
            == CellSheet::Page(0) && final(out)@[i].locator.shape_id == Some(source_id),
        forall|i: int| 0 <= i < old(out)@.len() ==> #[trigger] final(out)@[i] == old(out)@[i],
{
    let ghost start = cell_views(out@);
    let ghost start_len = out@.len();
    let ghost start_out = out@;
    let mut k: usize = 0;
    while k < cells.len()
        invariant
            k <= cells@.len(),
            start_len <= out@.len(),
            start == cell_views(start_out),
            start_len == start_out.len(),
            cell_views(out@) == start + shape_cells(cells@, k as int),
            forall|i: int| start_len <= i < out@.len() ==> (#[trigger] out@[i]).locator.sheet
                == CellSheet::Page(0) && out@[i].locator.shape_id == Some(source_id),
            forall|i: int| 0 <= i < start_len ==> #[trigger] out@[i] == start_out[i],
        decreases cells@.len() - k,
    {
        let cell = &cells[k];
        if let Some((formula, value)) = &cell.found {
            let ghost before = cell_views(out@);
            out.push(
                SeedCell {
                    key: owned(cell.name.as_str()),
                    locator: CellLocator {
                        sheet: CellSheet::Page(0),
                        shape_id: Some(source_id),
                        section: None,
                        section_index: None,
                        row: None,
                        cell_name: owned(cell.name.as_str()),
                    },
                    formula: copy_text(formula),
                    value: copy_text(value),
                    row_type: None,
                },
            );
            assert(cell_views(out@) =~= before.push(
                (cell.name@, None, None, None, cell.name@, text_view(*formula), text_view(*value), None),
            ));
        }
        k = k + 1;
    }
}

fn push_row_cells(
    out: &mut Vec<SeedCell>,
    section: &ResolvedSection,
    row: &ResolvedRow,
    index: &CellRow,
    source_id: u32,
)
    ensures
        cell_views(final(out)@) == cell_views(old(out)@) + row_cells(
            *section,
            *row,
            row_result(Some(*index)).unwrap(),
            row.cells@.len() as int,
        ),
        forall|i: int| old(out)@.len() <= i < final(out)@.len() ==> (#[trigger] final(out)@[i]).locator.sheet
            == CellSheet::Page(0) && final(out)@[i].locator.shape_id == Some(source_id),
        forall|i: int| 0 <= i < old(out)@.len() ==> #[trigger] final(out)@[i] == old(out)@[i],
{
    let ghost start = cell_views(out@);
    let ghost start_len = out@.len();
    let ghost start_out = out@;
    let ghost r = row_result(Some(*index)).unwrap();
    let mut k: usize = 0;
    while k < row.cells.len()
        invariant
            k <= row.cells@.len(),
            start_len <= out@.len(),
            start == cell_views(start_out),
            start_len == start_out.len(),
            r == row_result(Some(*index)).unwrap(),
            cell_views(out@) == start + row_cells(*section, *row, r, k as int),
            forall|i: int| start_len <= i < out@.len() ==> (#[trigger] out@[i]).locator.sheet
                == CellSheet::Page(0) && out@[i].locator.shape_id == Some(source_id),
            forall|i: int| 0 <= i < start_len ==> #[trigger] out@[i] == start_out[i],
        decreases row.cells@.len() - k,
    {
        let cell = &row.cells[k];
        if let Some((formula, value)) = &cell.found {
            let ghost before = cell_views(out@);
            let mut key = String::new();
            push_row_key(&mut key, section.key.as_str(), index, cell.name.as_str());
            out.push(
                SeedCell {
                    key,
                    locator: CellLocator {
                        sheet: CellSheet::Page(0),
                        shape_id: Some(source_id),
                        section: Some(owned(section.name.as_str())),
                        section_index: section.index,
                        row: Some(clone_row(index)),
                        cell_name: owned(cell.name.as_str()),
                    },
                    formula: copy_text(formula),
                    value: copy_text(value),
                    row_type: copy_text(&row.row_type),
                },
            );
            assert(cell_views(out@) =~= before.push(
                (
                    row_cell_key(section.key@, r, cell.name@),
                    Some(section.name@),
                    section.index,
                    Some(r),
                    cell.name@,
                    text_view(*formula),
                    text_view(*value),
                    text_view(row.row_type),
                ),
            ));
        }
        k = k + 1;
    }
}

fn push_section_cells(out: &mut Vec<SeedCell>, section: &ResolvedSection, source_id: u32)
    ensures
        cell_views(final(out)@) == cell_views(old(out)@) + section_cells(*section, section.rows@.len() as int),
        forall|i: int| old(out)@.len() <= i < final(out)@.len() ==> (#[trigger] final(out)@[i]).locator.sheet
            == CellSheet::Page(0) && final(out)@[i].locator.shape_id == Some(source_id),
        forall|i: int| 0 <= i < old(out)@.len() ==> #[trigger] final(out)@[i] == old(out)@[i],
{
    let ghost start = cell_views(out@);
    let ghost start_len = out@.len();
    let ghost start_out = out@;
    let mut k: usize = 0;
    while k < section.rows.len()
        invariant
            k <= section.rows@.len(),
            start_len <= out@.len(),
            start == cell_views(start_out),
            start_len == start_out.len(),
            cell_views(out@) == start + section_cells(*section, k as int),
            forall|i: int| start_len <= i < out@.len() ==> (#[trigger] out@[i]).locator.sheet
                == CellSheet::Page(0) && out@[i].locator.shape_id == Some(source_id),
            forall|i: int| 0 <= i < start_len ==> #[trigger] out@[i] == start_out[i],
        decreases section.rows@.len() - k,
    {
        let row = &section.rows[k];
        let ghost before = cell_views(out@);
        match row_of(&row.key) {
            Some(index) => {
                push_row_cells(out, section, row, &index, source_id);
            },
            None => {},
        }
        assert(cell_views(out@) =~= start + section_cells(*section, k + 1));
        k = k + 1;
    }
}

/// What seeding shape `id` of page `page_id` writes, `depth` levels down the page's tree:
/// its ID, page, source ID, origin, master, parent, name and copy refusal; the cells the
/// resolver found (`cells` for the shape itself, then `sections` row by row, rows whose key
/// names no row skipped), each with its formula as baseline; its resolved plain `text`; and
/// its children's IDs. A shape nested deeper than [`MAX_SHAPE_NESTING`] is refused.
pub fn seed_entries(
    id: &str,
    page_id: &str,
    parent_id: Option<&str>,
    shape: &SeedShape,
    cells: &Vec<ResolvedCell>,
    sections: &Vec<ResolvedSection>,
    text: &str,
    depth: usize,
) -> (result: EditResult<SeedPlan>)
    ensures
        depth > MAX_SHAPE_NESTING ==> (result matches Err(crate::model::EditError::InvalidState(m))
            && m@ == "shape nesting exceeds maximum depth"@),
        depth <= MAX_SHAPE_NESTING ==> (result matches Ok(plan) && {
            &&& plan.id@ == id@
            &&& plan.page_id@ == page_id@
            &&& plan.source_id == shape.source_id
            &&& plan.master == shape.master
            &&& text_view(plan.parent_id) == opt_str(parent_id)
            &&& text_view(plan.name) == text_view(shape.name)
            &&& text_view(plan.copy_refusal) == copy_refusal_of(shape.content@)
            &&& cell_views(plan.cells@) == shape_cells(cells@, cells@.len() as int) + sections_cells(
                sections@,
                sections@.len() as int,
            )
            &&& forall|i: int| 0 <= i < plan.cells@.len() ==> (#[trigger] plan.cells@[i]).locator.sheet
                == CellSheet::Page(0) && plan.cells@[i].locator.shape_id == Some(shape.source_id)
            &&& plan.text@ == text@
            &&& plan.child_ids@.len() == shape.children@.len()
            &&& forall|i: int| 0 <= i < shape.children@.len() ==> #[trigger] plan.child_ids@[i]@
                == child_id(id@, shape.children@[i])
        }),
{
    if depth > MAX_SHAPE_NESTING {
        return Err(invalid_state("shape nesting exceeds maximum depth"));
    }
    let mut out: Vec<SeedCell> = Vec::new();
    assert(cell_views(out@) =~= Seq::<CellView>::empty());
    push_shape_cells(&mut out, cells, shape.source_id);
    let ghost top = cell_views(out@);
    let mut k: usize = 0;
    while k < sections.len()
        invariant
            k <= sections@.len(),
            cell_views(out@) == shape_cells(cells@, cells@.len() as int) + sections_cells(sections@, k as int),
            forall|i: int| 0 <= i < out@.len() ==> (#[trigger] out@[i]).locator.sheet
                == CellSheet::Page(0) && out@[i].locator.shape_id == Some(shape.source_id),
        decreases sections@.len() - k,
    {
        push_section_cells(&mut out, &sections[k], shape.source_id);
        assert(cell_views(out@) =~= shape_cells(cells@, cells@.len() as int) + sections_cells(sections@, k + 1));
        k = k + 1;
    }
    let mut child_ids: Vec<String> = Vec::new();
    let mut c: usize = 0;
    while c < shape.children.len()
        invariant
            c <= shape.children@.len(),
            child_ids@.len() == c,
            forall|i: int| 0 <= i < c ==> #[trigger] child_ids@[i]@ == child_id(id@, shape.children@[i]),
        decreases shape.children@.len() - c,
    {
        let mut child = owned(id);
        push_str(&mut child, ":shape:");
        push_decimal(&mut child, shape.children[c] as u64);
        child_ids.push(child);
        c = c + 1;
    }
    let copy_refusal = match copy_refusal_reason(shape.content.as_slice()) {
        Some(reason) => Some(owned(reason)),
        None => None,
    };
    Ok(SeedPlan {
        id: owned(id),
        page_id: owned(page_id),
        source_id: shape.source_id,
        master: shape.master,
        parent_id: match parent_id {
            Some(parent) => Some(owned(parent)),
            None => None,
        },
        name: copy_text(&shape.name),
        copy_refusal,
        cells: out,
        text: owned(text),
        child_ids,
    })
}

} // verus!
