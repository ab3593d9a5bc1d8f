//! Writing a session cell back into the package shape it came from.
use vstd::prelude::*;

use std::collections::BTreeMap;

use crate::cell_records::text_view;
use crate::model::{CellRow, CellSnapshot};
use crate::sheet_refs::{remap_sheet_refs, remapped};
use crate::text::{owned, str_eq};

verus! {

/// A `<Cell>` of a package shape: its name, formula, cached value, unit and deletion mark.
#[derive(Clone, Debug, PartialEq, Eq)]
pub struct CellPart {
    pub name: String,
    pub formula: Option<String>,
    pub value: Option<String>,
    pub unit: Option<String>,
    pub del: bool,
}

/// A child of a `<Row>`: a cell, or other content (kept as it is, by its position).
#[derive(Clone, Debug, PartialEq, Eq)]
pub enum RowPart {
    Cell(CellPart),
    Other(u32),
}

/// A `<Row>`: its index or name, type, deletion mark and children.
#[derive(Clone, Debug, PartialEq, Eq)]
pub struct RowModel {
    pub index: Option<u32>,
    pub name: Option<String>,
    pub row_type: Option<String>,
    pub del: bool,
    pub children: Vec<RowPart>,
}

/// A child of a `<Section>`: a row, or other content.
#[derive(Clone, Debug, PartialEq, Eq)]
pub enum SectionPart {
    Row(RowModel),
    Other(u32),
}

/// A `<Section>`: its name, index, deletion mark and children.
#[derive(Clone, Debug, PartialEq, Eq)]
pub struct SectionModel {
    pub name: String,
    pub index: Option<u32>,
    pub del: bool,
    pub children: Vec<SectionPart>,
}

/// A child of a `<Shape>`: a cell, a section, or other content.
#[derive(Clone, Debug, PartialEq, Eq)]
pub enum ShapePart {
    Cell(CellPart),
    Section(SectionModel),
    Other(u32),
}

/// What materializing reads and writes of a package shape: its children.
#[derive(Clone, Debug, PartialEq, Eq)]
pub struct ShapeModel {
    pub children: Vec<ShapePart>,
}

pub open spec fn index_or_zero(index: Option<u32>) -> u32 {
    match index {
        Some(i) => i,
        None => 0,
    }
}

/// A section with this name and index (an absent index counting as zero).
pub open spec fn section_matches(section: SectionModel, name: Seq<char>, index: Option<u32>) -> bool {
    section.name@ == name && index_or_zero(section.index) == index_or_zero(index)
}

/// A row with this index or name.
pub open spec fn row_matches(row: RowModel, address: CellRow) -> bool {
    match address {
        CellRow::Index(i) => row.index == Some(i),
        CellRow::Name(n) => row.name matches Some(m) && m@ == n@,
    }
}

pub open spec fn row_cell_named(part: RowPart, name: Seq<char>) -> bool {
    part matches RowPart::Cell(c) && c.name@ == name
}

pub open spec fn shape_cell_named(part: ShapePart, name: Seq<char>) -> bool {
    part matches ShapePart::Cell(c) && c.name@ == name
}

/// The position of the first of the `parts` from `k` on that `p` holds of.
pub open spec fn first_where<T>(parts: Seq<T>, p: spec_fn(T) -> bool, k: int) -> Option<int>
    decreases parts.len() - k,
{
    if k < 0 || k >= parts.len() {
        None
    } else if p(parts[k]) {
        Some(k)
    } else {
        first_where(parts, p, k + 1)
    }
}

proof fn lemma_first_where<T>(parts: Seq<T>, p: spec_fn(T) -> bool, k: int)
    requires
        0 <= k,
    ensures
        first_where(parts, p, k) matches Some(i) ==> k <= i < parts.len() && p(parts[i]),
        first_where(parts, p, k) is None ==> forall|t: int| k <= t < parts.len() ==> !p(#[trigger] parts[t]),
    decreases parts.len() - k,
{
    if k < parts.len() {
        lemma_first_where(parts, p, k + 1);
    }
}

/// The first cell named `name` among a row's children.
pub open spec fn cell_in_row(row: RowModel, name: Seq<char>) -> Option<int> {
    first_where(row.children@, |part: RowPart| row_cell_named(part, name), 0)
}

pub open spec fn row_holds(part: SectionPart, address: CellRow, name: Seq<char>) -> bool {
    part matches SectionPart::Row(row) && row_matches(row, address) && cell_in_row(row, name) is Some
}

pub open spec fn section_holds(part: ShapePart, section: Seq<char>, index: Option<u32>, address: CellRow, name: Seq<char>) -> bool {
    part matches ShapePart::Section(s) && section_matches(s, section, index) && first_where(
        s.children@,
        |p: SectionPart| row_holds(p, address, name),
        0,
    ) is Some
}

pub open spec fn is_section(part: ShapePart, section: Seq<char>, index: Option<u32>) -> bool {
    part matches ShapePart::Section(s) && section_matches(s, section, index)
}

pub open spec fn is_row(part: SectionPart, address: CellRow) -> bool {
    part matches SectionPart::Row(row) && row_matches(row, address)
}

/// The formula a materialized cell gets: the snapshot's, with `Sheet.N!` references remapped
/// where a remap is given.
pub open spec fn materialized_formula(snapshot: CellSnapshot, remap: Option<Map<u32, u32>>) -> Option<Seq<char>> {
    match snapshot.formula {
        Some(f) => match remap {
            Some(m) => Some(remapped(f@, m)),
            None => Some(f@),
        },
        None => None,
    }
}

/// A cell that keeps `old`'s name, unit and deletion mark and takes the new formula and value.
pub open spec fn rewritten(cell: CellPart, old: CellPart, formula: Option<Seq<char>>, value: Option<Seq<char>>) -> bool {
    &&& cell.name == old.name
    &&& cell.unit == old.unit
    &&& cell.del == old.del
    &&& text_view(cell.formula) == formula
    &&& text_view(cell.value) == value
}

/// A new cell with this name, formula and value.
pub open spec fn fresh_cell(cell: CellPart, name: Seq<char>, formula: Option<Seq<char>>, value: Option<Seq<char>>) -> bool {
    &&& cell.name@ == name
    &&& cell.unit is None
    &&& !cell.del
    &&& text_view(cell.formula) == formula
    &&& text_view(cell.value) == value
}

/// A new row at this address, of this type, holding just `cell`.
pub open spec fn fresh_row(row: RowModel, address: CellRow, row_type: Option<Seq<char>>, name: Seq<char>, formula: Option<Seq<char>>, value: Option<Seq<char>>) -> bool {
    &&& row.index == (match address {
        CellRow::Index(i) => Some(i),
        CellRow::Name(_) => None,
    })
    &&& text_view(row.name) == (match address {
        CellRow::Index(_) => None,
        CellRow::Name(n) => Some(n@),
    })
    &&& text_view(row.row_type) == row_type
    &&& !row.del
    &&& row.children@.len() == 1
    &&& row.children@[0] matches RowPart::Cell(c) && fresh_cell(c, name, formula, value)
}

/// `new` is `old` with the `i`-th entry changed only.
pub open spec fn same_but<T>(new: Seq<T>, old: Seq<T>, i: int) -> bool {
    new.len() == old.len() && forall|t: int| 0 <= t < old.len() && t != i ==> #[trigger] new[t] == old[t]
}

/// `new` is `old` with one more entry at the end.
pub open spec fn pushed<T>(new: Seq<T>, old: Seq<T>) -> bool {
    new.len() == old.len() + 1 && forall|t: int| 0 <= t < old.len() ==> #[trigger] new[t] == old[t]
}

/// `new` is `old` with its `k`-th child cell rewritten.
pub open spec fn row_rewritten(new: RowModel, old: RowModel, k: int, formula: Option<Seq<char>>, value: Option<Seq<char>>) -> bool {
    &&& new.index == old.index
    &&& new.name == old.name
    &&& new.row_type == old.row_type
    &&& new.del == old.del
    &&& same_but(new.children@, old.children@, k)
    &&& new.children@[k] matches RowPart::Cell(c)
    &&& old.children@[k] matches RowPart::Cell(o)
    &&& rewritten(c, o, formula, value)
}

/// `new` is `old` with a fresh cell appended.
pub open spec fn row_extended(new: RowModel, old: RowModel, name: Seq<char>, formula: Option<Seq<char>>, value: Option<Seq<char>>) -> bool {
    &&& new.index == old.index
    &&& new.name == old.name
    &&& new.row_type == old.row_type
    &&& new.del == old.del
    &&& pushed(new.children@, old.children@)
    &&& new.children@.last() matches RowPart::Cell(c)
    &&& fresh_cell(c, name, formula, value)
}

/// `new` is `old` with its `j`-th row changed as `change` says.
pub open spec fn section_changed(new: SectionModel, old: SectionModel, j: int, change: spec_fn(RowModel, RowModel) -> bool) -> bool {
    &&& new.name == old.name
    &&& new.index == old.index
    &&& new.del == old.del
    &&& same_but(new.children@, old.children@, j)
    &&& new.children@[j] matches SectionPart::Row(nr)
    &&& old.children@[j] matches SectionPart::Row(or)
    &&& change(nr, or)
}

/// What materializing a cell snapshot does to a shape's children, `old` before and `new`
/// after: a cell at the snapshot's address takes its formula (remapped) and value; where there
/// is none, the cell is added, with the row, and the section, that it needs. A snapshot in a
/// section but in no row changes nothing.
pub open spec fn materialized(new: Seq<ShapePart>, old: Seq<ShapePart>, snapshot: CellSnapshot, remap: Option<Map<u32, u32>>) -> bool {
    let formula = materialized_formula(snapshot, remap);
    let value = text_view(snapshot.value);
    let name = snapshot.locator.cell_name@;
    let index = snapshot.locator.section_index;
    match snapshot.locator.section {
        None => match first_where(old, |p: ShapePart| shape_cell_named(p, name), 0) {
            Some(i) => {
                &&& same_but(new, old, i)
                &&& new[i] matches ShapePart::Cell(c)
                &&& old[i] matches ShapePart::Cell(o)
                &&& rewritten(c, o, formula, value)
            },
            None => {
                &&& pushed(new, old)
                &&& new.last() matches ShapePart::Cell(c)
                &&& fresh_cell(c, name, formula, value)
            },
        },
        Some(section) => match snapshot.locator.row {
            None => new == old,
            Some(address) => match first_where(
                old,
                |p: ShapePart| section_holds(p, section@, index, address, name),
                0,
            ) {
                Some(i) => {
                    &&& same_but(new, old, i)
                    &&& new[i] matches ShapePart::Section(ns)
                    &&& old[i] matches ShapePart::Section(os)
                    &&& {
                        let j = first_where(os.children@, |p: SectionPart| row_holds(p, address, name), 0).unwrap();
                        section_changed(ns, os, j, |nr: RowModel, or: RowModel| row_rewritten(nr, or, cell_in_row(or, name).unwrap(), formula, value))
                    }
                },
                None => match first_where(old, |p: ShapePart| is_section(p, section@, index), 0) {
                    Some(i) => {
                        &&& same_but(new, old, i)
                        &&& new[i] matches ShapePart::Section(ns)
                        &&& old[i] matches ShapePart::Section(os)
                        &&& match first_where(os.children@, |p: SectionPart| is_row(p, address), 0) {
                            Some(j) => section_changed(ns, os, j, |nr: RowModel, or: RowModel| row_extended(nr, or, name, formula, value)),
                            None => {
                                &&& ns.name == os.name
                                &&& ns.index == os.index
                                &&& ns.del == os.del
                                &&& pushed(ns.children@, os.children@)
                                &&& ns.children@.last() matches SectionPart::Row(row)
                                &&& fresh_row(row, address, text_view(snapshot.row_type), name, formula, value)
                            },
                        }
                    },
                    None => {
                        &&& pushed(new, old)
                        &&& new.last() matches ShapePart::Section(ns)
                        &&& ns.name@ == section@
                        &&& ns.index == index
                        &&& !ns.del
                        &&& ns.children@.len() == 1
                        &&& ns.children@[0] matches SectionPart::Row(row)
                        &&& fresh_row(row, address, text_view(snapshot.row_type), name, formula, value)
                    },
                },
            },
        },
    }
}

fn row_address_matches(row: &RowModel, address: &CellRow) -> (result: bool)
    ensures
        result == row_matches(*row, *address),
{
    match address {
        CellRow::Index(i) => match row.index {
            Some(j) => j == *i,
            None => false,
        },
        CellRow::Name(n) => match &row.name {
            Some(m) => str_eq(m.as_str(), n.as_str()),
            None => false,
        },
    }
}

fn section_named(section: &SectionModel, name: &str, index: Option<u32>) -> (result: bool)
    ensures
        result == section_matches(*section, name@, index),
{
    let a: u32 = match section.index {
        Some(i) => i,
        None => 0,
    };
    let b: u32 = match index {
        Some(i) => i,
        None => 0,
    };
    str_eq(section.name.as_str(), name) && a == b
}

fn find_row_cell(row: &RowModel, name: &str) -> (result: Option<usize>)
    ensures
        match result {
            Some(k) => cell_in_row(*row, name@) == Some(k as int) && k < row.children@.len(),
            None => cell_in_row(*row, name@) is None,
        },
{
    let ghost p = |part: RowPart| row_cell_named(part, name@);
    let mut k: usize = 0;
    while k < row.children.len()
        invariant
            k <= row.children@.len(),
            p == |part: RowPart| row_cell_named(part, name@),
            first_where(row.children@, p, 0) == first_where(row.children@, p, k as int),
        decreases row.children@.len() - k,
    {
        if let RowPart::Cell(c) = &row.children[k] {
            if str_eq(c.name.as_str(), name) {
                return Some(k);
            }
        }
        k = k + 1;
    }
    None
}

fn find_top_cell(children: &Vec<ShapePart>, name: &str) -> (result: Option<usize>)
    ensures
        match result {
            Some(i) => first_where(children@, |p: ShapePart| shape_cell_named(p, name@), 0) == Some(i as int) && i < children@.len(),
            None => first_where(children@, |p: ShapePart| shape_cell_named(p, name@), 0) is None,
        },
{
    let ghost p = |part: ShapePart| shape_cell_named(part, name@);
    let mut k: usize = 0;
    while k < children.len()
        invariant
            k <= children@.len(),
            p == |part: ShapePart| shape_cell_named(part, name@),
            first_where(children@, p, 0) == first_where(children@, p, k as int),
        decreases children@.len() - k,
    {
        if let ShapePart::Cell(c) = &children[k] {
            if str_eq(c.name.as_str(), name) {
                return Some(k);
            }
        }
        k = k + 1;
    }
    None
}

fn find_row_holding(section: &SectionModel, address: &CellRow, name: &str) -> (result: Option<usize>)
    ensures
        match result {
            Some(j) => first_where(section.children@, |p: SectionPart| row_holds(p, *address, name@), 0) == Some(j as int)
                && j < section.children@.len(),
            None => first_where(section.children@, |p: SectionPart| row_holds(p, *address, name@), 0) is None,
        },
{
    let ghost p = |part: SectionPart| row_holds(part, *address, name@);
    let mut k: usize = 0;
    while k < section.children.len()
        invariant
            k <= section.children@.len(),
            p == |part: SectionPart| row_holds(part, *address, name@),
            first_where(section.children@, p, 0) == first_where(section.children@, p, k as int),
        decreases section.children@.len() - k,
    {
        if let SectionPart::Row(row) = &section.children[k] {
            if row_address_matches(row, address) && find_row_cell(row, name).is_some() {
                return Some(k);
            }
        }
        k = k + 1;
    }
    None
}

fn find_row(section: &SectionModel, address: &CellRow) -> (result: Option<usize>)
    ensures
        match result {
            Some(j) => first_where(section.children@, |p: SectionPart| is_row(p, *address), 0) == Some(j as int)
                && j < section.children@.len(),
            None => first_where(section.children@, |p: SectionPart| is_row(p, *address), 0) is None,
        },
{
    let ghost p = |part: SectionPart| is_row(part, *address);
    let mut k: usize = 0;
    while k < section.children.len()
        invariant
            k <= section.children@.len(),
            p == |part: SectionPart| is_row(part, *address),
            first_where(section.children@, p, 0) == first_where(section.children@, p, k as int),
        decreases section.children@.len() - k,
    {
        if let SectionPart::Row(row) = &section.children[k] {
            if row_address_matches(row, address) {
                return Some(k);
            }
        }
        k = k + 1;
    }
    None
}

fn find_section_holding(children: &Vec<ShapePart>, section: &str, index: Option<u32>, address: &CellRow, name: &str) -> (result: Option<usize>)
    ensures
        match result {
            Some(i) => first_where(children@, |p: ShapePart| section_holds(p, section@, index, *address, name@), 0) == Some(i as int)
                && i < children@.len(),
            None => first_where(children@, |p: ShapePart| section_holds(p, section@, index, *address, name@), 0) is None,
        },
{
    let ghost p = |part: ShapePart| section_holds(part, section@, index, *address, name@);
    let mut k: usize = 0;
    while k < children.len()
        invariant
            k <= children@.len(),
            p == |part: ShapePart| section_holds(part, section@, index, *address, name@),
            first_where(children@, p, 0) == first_where(children@, p, k as int),
        decreases children@.len() - k,
    {
        if let ShapePart::Section(s) = &children[k] {
            if section_named(s, section, index) && find_row_holding(s, address, name).is_some() {
                return Some(k);
            }
        }
        k = k + 1;
    }
    None
}

fn find_section(children: &Vec<ShapePart>, section: &str, index: Option<u32>) -> (result: Option<usize>)
    ensures
        match result {
            Some(i) => first_where(children@, |p: ShapePart| is_section(p, section@, index), 0) == Some(i as int)
                && i < children@.len(),
            None => first_where(children@, |p: ShapePart| is_section(p, section@, index), 0) is None,
        },
{
    let ghost p = |part: ShapePart| is_section(part, section@, index);
    let mut k: usize = 0;
    while k < children.len()
        invariant
            k <= children@.len(),
            p == |part: ShapePart| is_section(part, section@, index),
            first_where(children@, p, 0) == first_where(children@, p, k as int),
        decreases children@.len() - k,
    {
        if let ShapePart::Section(s) = &children[k] {
            if section_named(s, section, index) {
                return Some(k);
            }
        }
        k = k + 1;
    }
    None
}

fn copy_opt(s: &Option<String>) -> (result: Option<String>)
    ensures
        text_view(result) == text_view(*s),
{
    match s {
        Some(t) => Some(owned(t.as_str())),
        None => None,
    }
}

fn copy_formula(formula: &Option<String>) -> (result: Option<String>)
    ensures
        text_view(result) == text_view(*formula),
{
    copy_opt(formula)
}

fn new_cell(name: &String, formula: &Option<String>, value: &Option<String>) -> (result: CellPart)
    ensures
        fresh_cell(result, name@, text_view(*formula), text_view(*value)),
{
    CellPart { name: owned(name.as_str()), formula: copy_opt(formula), value: copy_opt(value), unit: None, del: false }
}

fn new_row(address: &CellRow, row_type: &Option<String>, cell: CellPart) -> (result: RowModel)
    ensures
        result.children@ == seq![RowPart::Cell(cell)],
        result.index == (match *address {
            CellRow::Index(i) => Some(i),
            CellRow::Name(_) => None,
        }),
        text_view(result.name) == (match *address {
            CellRow::Index(_) => None::<Seq<char>>,
            CellRow::Name(n) => Some(n@),
        }),
        text_view(result.row_type) == text_view(*row_type),
        !result.del,
{
    let mut children: Vec<RowPart> = Vec::new();
    children.push(RowPart::Cell(cell));
    match address {
        CellRow::Index(i) => RowModel { index: Some(*i), name: None, row_type: copy_opt(row_type), del: false, children },
        CellRow::Name(n) => RowModel { index: None, name: Some(owned(n.as_str())), row_type: copy_opt(row_type), del: false, children },
    }
}

/// Writes a session cell back into the package shape it came from: the cell at the snapshot's
/// address takes its formula, with `Sheet.N!` references remapped where `remap` is given, and
/// its cached value; where the shape has no such cell it is added, in the row and section it
/// needs, which are added where missing.
pub fn materialize_cell(shape: &mut ShapeModel, snapshot: &CellSnapshot, remap: Option<&BTreeMap<u32, u32>>)
    ensures
        materialized(
            final(shape).children@,
            old(shape).children@,
            *snapshot,
            match remap {
                Some(m) => Some(m@),
                None => None,
            },
        ),
{
    let ghost old_children = shape.children@;
    let locator = &snapshot.locator;
    let formula: Option<String> = match &snapshot.formula {
        Some(f) => match remap {
            Some(m) => Some(remap_sheet_refs(f.as_str(), m)),
            None => Some(owned(f.as_str())),
        },
        None => None,
    };
    let ghost spec_formula = materialized_formula(*snapshot, match remap {
        Some(m) => Some(m@),
        None => None,
    });
    assert(text_view(formula) == spec_formula);
    let name = &locator.cell_name;
    match &locator.section {
        None => {
            match find_top_cell(&shape.children, name.as_str()) {
                Some(i) => {
                    proof {
                        lemma_first_where(shape.children@, |p: ShapePart| shape_cell_named(p, name@), 0);
                    }
                    let part = shape.children.remove(i);
                    match part {
                        ShapePart::Cell(c) => {
                            let updated = CellPart {
                                name: c.name,
                                formula: copy_formula(&formula),
                                value: copy_opt(&snapshot.value),
                                unit: c.unit,
                                del: c.del,
                            };
                            shape.children.insert(i, ShapePart::Cell(updated));
                        },
                        other => {
                            shape.children.insert(i, other);
                        },
                    }
                },
                None => {
                    shape.children.push(ShapePart::Cell(new_cell(name, &formula, &snapshot.value)));
                },
            }
        },
        Some(section) => {
            let address = match &locator.row {
                Some(address) => address,
                None => {
                    return;
                },
            };
            match find_section_holding(&shape.children, section.as_str(), locator.section_index, address, name.as_str()) {
                Some(i) => {
                    proof {
                        lemma_first_where(
                            shape.children@,
                            |p: ShapePart| section_holds(p, section@, locator.section_index, *address, name@),
                            0,
                        );
                    }
                    let part = shape.children.remove(i);
                    match part {
                        ShapePart::Section(mut sec) => {
                            proof {
                                lemma_first_where(sec.children@, |p: SectionPart| row_holds(p, *address, name@), 0);
                            }
                            let j = find_row_holding(&sec, address, name.as_str()).unwrap();
                            let row_part = sec.children.remove(j);
                            match row_part {
                                SectionPart::Row(mut row) => {
                                    proof {
                                        lemma_first_where(row.children@, |part: RowPart| row_cell_named(part, name@), 0);
                                    }
                                    let k = find_row_cell(&row, name.as_str()).unwrap();
                                    let cell_part = row.children.remove(k);
                                    match cell_part {
                                        RowPart::Cell(c) => {
                                            let updated = CellPart {
                                                name: c.name,
                                                formula: copy_formula(&formula),
                                                value: copy_opt(&snapshot.value),
                                                unit: c.unit,
                                                del: c.del,
                                            };
                                            row.children.insert(k, RowPart::Cell(updated));
                                        },
                                        other => {
                                            row.children.insert(k, other);
                                        },
                                    }
                                    sec.children.insert(j, SectionPart::Row(row));
                                },
                                other => {
                                    sec.children.insert(j, other);
                                },
                            }
                            shape.children.insert(i, ShapePart::Section(sec));
                        },
                        other => {
                            shape.children.insert(i, other);
                        },
                    }
                },
                None => {
                    let cell = new_cell(name, &formula, &snapshot.value);
                    match find_section(&shape.children, section.as_str(), locator.section_index) {
                        Some(i) => {
                            proof {
                                lemma_first_where(shape.children@, |p: ShapePart| is_section(p, section@, locator.section_index), 0);
                            }
                            let part = shape.children.remove(i);
                            match part {
                                ShapePart::Section(mut sec) => {
                                    match find_row(&sec, address) {
                                        Some(j) => {
                                            proof {
                                                lemma_first_where(sec.children@, |p: SectionPart| is_row(p, *address), 0);
                                            }
                                            let row_part = sec.children.remove(j);
                                            match row_part {
                                                SectionPart::Row(mut row) => {
                                                    row.children.push(RowPart::Cell(cell));
                                                    sec.children.insert(j, SectionPart::Row(row));
                                                },
                                                other => {
                                                    sec.children.insert(j, other);
                                                },
                                            }
                                        },
                                        None => {
                                            sec.children.push(SectionPart::Row(new_row(address, &snapshot.row_type, cell)));
                                        },
                                    }
                                    shape.children.insert(i, ShapePart::Section(sec));
                                },
                                other => {
                                    shape.children.insert(i, other);
                                },
                            }
                        },
                        None => {
                            let mut rows: Vec<SectionPart> = Vec::new();
                            rows.push(SectionPart::Row(new_row(address, &snapshot.row_type, cell)));
                            shape.children.push(
                                ShapePart::Section(
                                    SectionModel {
                                        name: owned(section.as_str()),
                                        index: locator.section_index,
                                        del: false,
                                        children: rows,
                                    },
                                ),
                            );
                        },
                    }
                },
            }
        },
    }
}

} // verus!
