//! Reading a cell record of the document's sheets map back into the locator of its cell.
use vstd::prelude::*;

use crate::model::{invalid_state, CellLocator, CellRow, CellSheet, EditError, EditResult};
use crate::shape_tree::{field_text, Field};
use crate::text::owned;

verus! {

/// A field that the checks read as an unsigned 32-bit integer: absent, a number that is a
/// whole `u32`, or any other value.
#[derive(Clone, Copy, Debug, PartialEq, Eq, Structural)]
pub enum Whole {
    Absent,
    Value(u32),
    Other,
}

/// What a cell record holds for its locator.
#[derive(Clone, Debug, PartialEq, Eq)]
pub struct CellRecord {
    pub section: Field,
    pub row_name: Field,
    pub row_type: Field,
    pub row_index: Whole,
    pub section_index: Whole,
    pub name: Field,
}

pub open spec fn whole_value(field: Whole) -> Option<u32> {
    match field {
        Whole::Value(value) => Some(value),
        _ => None,
    }
}

/// The first fault of a cell record, in the order the fields are read: a section, row name or
/// row type that is not a string; a row index that is not a whole `u32`; both a row index and
/// a row name; a section index that is not a whole `u32`; a row or section index without a
/// section; a missing name.
pub open spec fn cell_fault(cell: CellRecord) -> Option<Seq<char>> {
    if cell.section is Other {
        Some("cell section is not a string"@)
    } else if cell.row_name is Other {
        Some("cell rowName is not a string"@)
    } else if cell.row_type is Other {
        Some("cell rowType is not a string"@)
    } else if cell.row_index is Other {
        Some("rowIndex is not an unsigned 32-bit integer"@)
    } else if cell.row_index is Value && cell.row_name is Text {
        Some("cell has both row index and name"@)
    } else if cell.section_index is Other {
        Some("sectionIndex is not an unsigned 32-bit integer"@)
    } else if !(cell.section is Text) && (cell.row_index is Value || cell.row_name is Text
        || cell.section_index is Value) {
        Some("cell row/index requires a section"@)
    } else if !(cell.name is Text) {
        Some("missing name"@)
    } else {
        None
    }
}

pub open spec fn text_view(text: Option<String>) -> Option<Seq<char>> {
    match text {
        Some(t) => Some(t@),
        None => None,
    }
}

/// The row a locator names, as plain values.
pub open spec fn row_view(row: Option<CellRow>) -> Option<Result<u32, Seq<char>>> {
    match row {
        Some(CellRow::Index(index)) => Some(Ok(index)),
        Some(CellRow::Name(name)) => Some(Err(name@)),
        None => None,
    }
}

/// The row a cell record names: by index, or by name.
pub open spec fn record_row(cell: CellRecord) -> Option<Result<u32, Seq<char>>> {
    match (cell.row_index, field_text(cell.row_name)) {
        (Whole::Value(index), _) => Some(Ok(index)),
        (_, Some(name)) => Some(Err(name)),
        _ => None,
    }
}

fn text_of(field: &Field) -> (result: Option<String>)
    ensures
        text_view(result) == field_text(*field),
{
    match field {
        Field::Text(text) => Some(owned(text.as_str())),
        _ => None,
    }
}

/// The locator of a cell of shape `shape_id` on page `page_id`, read from its record; or the
/// first fault of the record.
pub fn cell_locator(cell: &CellRecord, page_id: u32, shape_id: u32) -> (result: EditResult<
    CellLocator,
>)
    ensures
        match cell_fault(*cell) {
            Some(message) => result matches Err(EditError::InvalidState(m)) && m@ == message,
            None => result matches Ok(locator) && {
                &&& locator.sheet == CellSheet::Page(page_id)
                &&& locator.shape_id == Some(shape_id)
                &&& text_view(locator.section) == field_text(cell.section)
                &&& locator.section_index == whole_value(cell.section_index)
                &&& row_view(locator.row) == record_row(*cell)
                &&& Some(locator.cell_name@) == field_text(cell.name)
            },
        },
{
    if let Field::Other = cell.section {
        return Err(invalid_state("cell section is not a string"));
    }
    if let Field::Other = cell.row_name {
        return Err(invalid_state("cell rowName is not a string"));
    }
    if let Field::Other = cell.row_type {
        return Err(invalid_state("cell rowType is not a string"));
    }
    let row_index = match cell.row_index {
        Whole::Absent => None,
        Whole::Value(index) => Some(index),
        Whole::Other => {
            return Err(invalid_state("rowIndex is not an unsigned 32-bit integer"));
        },
    };
    let row = match (row_index, text_of(&cell.row_name)) {
        (Some(_), Some(_)) => {
            return Err(invalid_state("cell has both row index and name"));
        },
        (Some(index), None) => Some(CellRow::Index(index)),
        (None, Some(name)) => Some(CellRow::Name(name)),
        (None, None) => None,
    };
    let section = text_of(&cell.section);
    let section_index = match cell.section_index {
        Whole::Absent => None,
        Whole::Value(index) => Some(index),
        Whole::Other => {
            return Err(invalid_state("sectionIndex is not an unsigned 32-bit integer"));
        },
    };
    if section.is_none() && (row.is_some() || section_index.is_some()) {
        return Err(invalid_state("cell row/index requires a section"));
    }
    let cell_name = match text_of(&cell.name) {
        Some(name) => name,
        None => {
            return Err(invalid_state("missing name"));
        },
    };
    Ok(CellLocator {
        sheet: CellSheet::Page(page_id),
        shape_id: Some(shape_id),
        section,
        section_index,
        row,
        cell_name,
    })
}

} // verus!
