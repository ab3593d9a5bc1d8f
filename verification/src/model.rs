//! The values an editing session exchanges with its callers.
use vstd::prelude::*;

use crate::text::owned;

verus! {

/// Who asked for an edit.
#[derive(Clone, Copy, Debug, PartialEq, Eq, Structural)]
pub enum EditOrigin {
    Local,
    Agent,
    Remote,
    System,
}

impl Default for EditOrigin {
    /// A local edit, unless said otherwise.
    fn default() -> (result: Self)
        ensures
            result == EditOrigin::Local,
    {
        EditOrigin::Local
    }
}

/// The author and origin of an edit.
#[derive(Clone, Debug, PartialEq, Eq)]
pub struct EditCtx {
    pub origin: EditOrigin,
    pub author: String,
}

impl Default for EditCtx {
    /// A local edit without an author.
    fn default() -> (result: Self)
        ensures
            result.origin == EditOrigin::Local,
            result.author@.len() == 0,
    {
        EditCtx { origin: EditOrigin::Local, author: String::new() }
    }
}

impl EditCtx {
    /// A local edit by `author`.
    pub fn local(author: &str) -> (result: Self)
        ensures
            result.origin == EditOrigin::Local,
            result.author@ == author@,
    {
        EditCtx { origin: EditOrigin::Local, author: owned(author) }
    }
}

/// The sheet a cell lives on.
#[derive(Clone, Copy, Debug, PartialEq, Eq, Structural)]
pub enum CellSheet {
    Document,
    Page(u32),
    Master(u32),
}

/// A section row, by index or by name.
#[derive(Clone, Debug, PartialEq, Eq)]
pub enum CellRow {
    Index(u32),
    Name(String),
}

/// Where a ShapeSheet cell lives: sheet, shape, optional section and row, and its name.
#[derive(Clone, Debug, PartialEq, Eq)]
pub struct CellLocator {
    pub sheet: CellSheet,
    pub shape_id: Option<u32>,
    pub section: Option<String>,
    pub section_index: Option<u32>,
    pub row: Option<CellRow>,
    pub cell_name: String,
}

/// The user gesture a cell write stands for; locks are checked per gesture.
#[derive(Clone, Copy, Debug, PartialEq, Eq, Structural)]
pub enum MutationGesture {
    CellEdit,
    MoveX,
    MoveY,
    ResizeWidth,
    ResizeHeight,
    ResizeAspect,
    Rotate,
    TextEdit,
    Format,
    Delete,
}

/// Size limits the package parser enforces on what an edit may write.
#[derive(Clone, Copy, Debug, PartialEq, Eq, Structural)]
pub struct ParseLimits {
    pub max_attribute_bytes: usize,
    pub max_xml_text_bytes: usize,
}

#[derive(Clone, Debug, PartialEq, Eq)]
pub struct CellSnapshot {
    pub locator: CellLocator,
    pub row_type: Option<String>,
    pub name: String,
    pub formula: Option<String>,
    pub value: Option<String>,
}

#[derive(Debug)]
pub struct ShapeSnapshot {
    pub id: String,
    pub source_id: u32,
    pub name: Option<String>,
    pub master: Option<u32>,
    pub cells: Vec<CellSnapshot>,
    pub children: Vec<ShapeSnapshot>,
    pub copy_source_id: Option<u32>,
    pub copy_source_page_id: Option<u32>,
    pub copy_refusal: Option<String>,
}

#[derive(Debug)]
pub struct PageSnapshot {
    pub id: String,
    pub source_part_path: String,
    pub name: Option<String>,
    pub shapes: Vec<ShapeSnapshot>,
}

#[derive(Debug)]
pub struct DiagramSnapshot {
    pub pages: Vec<PageSnapshot>,
}

#[derive(Clone, Debug, PartialEq, Eq)]
pub struct CellFormulaReceipt {
    pub page_id: String,
    pub shape_id: String,
    pub cell_name: String,
    pub before: Option<String>,
    pub after: String,
}

/// One shape's pin move in a batch.
#[derive(Clone, Debug, PartialEq, Eq)]
pub struct ShapeMove {
    pub page_id: String,
    pub shape_id: String,
    pub x: String,
    pub y: String,
}

/// One shape's deletion in a batch.
#[derive(Clone, Debug, PartialEq, Eq)]
pub struct ShapeDelete {
    pub page_id: String,
    pub shape_id: String,
}

/// One cell write in a batch that may span shapes.
#[derive(Clone, Debug, PartialEq, Eq)]
pub struct CellFormulaWrite {
    pub page_id: String,
    pub shape_id: String,
    pub cell_name: String,
    pub formula: String,
}

/// One shape-data row write in a batch against a single shape.
#[derive(Clone, Debug, PartialEq, Eq)]
pub struct ShapeDataWrite {
    pub row: CellRow,
    pub section_index: Option<u32>,
    pub formula: String,
}

/// Per-row decision; `after` is present only when the batch succeeds.
#[derive(Clone, Debug, PartialEq, Eq)]
pub struct ShapeDataReceipt {
    pub page_id: String,
    pub shape_id: String,
    pub row_name: Option<String>,
    pub row_index: Option<u32>,
    pub section_index: Option<u32>,
    pub before: Option<String>,
    pub after: Option<String>,
    pub refusal: Option<String>,
}

impl ShapeDataReceipt {
    /// Whether the policy refused this row.
    pub fn refused(&self) -> (result: bool)
        ensures
            result == self.refusal is Some,
    {
        self.refusal.is_some()
    }
}

/// One cell to probe, with the gesture to probe it as; the cell name picks one when absent.
#[derive(Clone, Debug, PartialEq, Eq)]
pub struct CellWriteQuery {
    pub locator: CellLocator,
    pub gesture: Option<MutationGesture>,
}

/// What the mutation policy would do with a write to one cell, without writing it.
#[derive(Clone, Debug, PartialEq, Eq)]
pub struct CellWriteProbe {
    pub cell_name: String,
    pub allowed: bool,
    /// Cell the write would land on after SETATREF redirection; absent when refused.
    pub target_cell_name: Option<String>,
    /// `guard`, `lock` or `unsupported`; absent when the write is allowed.
    pub refusal: Option<String>,
    pub reason: Option<String>,
}

#[derive(Clone, Debug, PartialEq, Eq)]
pub struct ShapeReceipt {
    pub page_id: String,
    pub shape_id: String,
    pub from_index: Option<u32>,
    pub to_index: Option<u32>,
}

/// Typed receipt for a committed shape-text edit.
#[derive(Clone, Debug, PartialEq, Eq)]
pub struct TextReceipt {
    pub page_id: String,
    pub shape_id: String,
    pub before: String,
    pub after: String,
}

/// Paired receipts for a shape inserted with its connector in one transaction.
#[derive(Clone, Debug, PartialEq, Eq)]
pub struct ConnectedShapeReceipt {
    pub shape: ShapeReceipt,
    pub connector: ShapeReceipt,
}

/// A hand-routed connector path written in scene-space points.
#[derive(Clone, Debug, PartialEq, Eq)]
pub struct ConnectorRouteReceipt {
    pub page_id: String,
    pub shape_id: String,
    pub points: u32,
}

#[derive(Clone, Debug, PartialEq, Eq)]
pub struct ShapeDraft {
    pub name: Option<String>,
    pub master: Option<u32>,
    pub cells: Vec<CellSnapshot>,
}

/// A pasted group subtree; every node names its live copy source.
#[derive(Debug)]
pub struct ShapeTreeDraft {
    pub name: Option<String>,
    pub cells: Vec<CellSnapshot>,
    pub text: String,
    pub copy_source_id: Option<u32>,
    pub copy_source_page_id: Option<u32>,
    pub source_shape_id: Option<String>,
    pub source_id: Option<u32>,
    pub copy_refusal: Option<String>,
    pub glue: Vec<ShapeTreeGlue>,
    pub children: Vec<ShapeTreeDraft>,
}

/// One internal glue record of a copied subtree, addressed by copy sources.
#[derive(Clone, Debug, PartialEq, Eq)]
pub struct ShapeTreeGlue {
    pub connector_source: String,
    pub endpoint: String,
    pub target_source: String,
    pub to_cell: String,
}

/// One glued connector endpoint; `to_cell` defaults to `PinX` when absent.
#[derive(Clone, Debug, PartialEq, Eq)]
pub struct ConnectorGlue {
    pub shape_id: String,
    pub to_cell: Option<String>,
}

/// Whether a document update was made here or arrived from a peer.
#[derive(Clone, Copy, Debug, PartialEq, Eq, Structural)]
pub enum UpdateOrigin {
    Local,
    Remote,
}

/// One encoded document update and where it came from.
#[derive(Clone, Debug, PartialEq, Eq)]
pub struct UpdateEvent {
    pub update: Vec<u8>,
    pub origin: UpdateOrigin,
}

#[derive(Clone, Debug, PartialEq, Eq)]
pub enum EditError {
    InvalidClientId(u64),
    Parse(String),
    InvalidState(String),
    InvalidUpdate(String),
    InvalidStateVector(String),
    PageNotFound(String),
    ShapeNotFound(String),
    CellNotFound(String),
    OutOfBounds { index: u32, length: u32 },
    Observer(String),
    Json(String),
}

pub type EditResult<T> = Result<T, EditError>;

/// An `InvalidState` error carrying `reason`.
pub fn invalid_state(reason: &str) -> (result: EditError)
    ensures
        result matches EditError::InvalidState(message) && message@ == reason@,
{
    EditError::InvalidState(owned(reason))
}

} // verus!
