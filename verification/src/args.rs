//! What the browser binding hands over, turned into the library's requests: cell locators,
//! shape-data writes, probe queries and shape drafts.
use vstd::prelude::*;

use crate::model::{
    CellLocator, CellRow, CellSheet, CellSnapshot, CellWriteQuery, MutationGesture, ShapeDataWrite,
    ShapeDraft, ShapeTreeDraft, ShapeTreeGlue,
};
use crate::text::str_eq;

verus! {

/// A cell locator as the binding receives it: the row by index or by name.
#[derive(Clone, Debug, PartialEq, Eq)]
pub struct CellLocatorArgs {
    pub section: Option<String>,
    pub section_index: Option<u32>,
    pub row_index: Option<u32>,
    pub row_name: Option<String>,
    pub row_type: Option<String>,
    pub cell_name: String,
}

/// The row a locator names: by index, by name, or none.
pub open spec fn row_of(row_index: Option<u32>, row_name: Option<String>) -> Option<CellRow> {
    match (row_index, row_name) {
        (Some(index), None) => Some(CellRow::Index(index)),
        (None, Some(name)) => Some(CellRow::Name(name)),
        _ => None,
    }
}

/// The page-sheet locator `args` describe; refuses a row given both by index and by name.
pub fn locator_from_args(args: CellLocatorArgs) -> (result: Result<CellLocator, &'static str>)
    ensures
        args.row_index is Some && args.row_name is Some ==> (result matches Err(message)
            && message@ == "cell locator cannot contain both rowIndex and rowName"@),
        !(args.row_index is Some && args.row_name is Some) ==> result == Ok::<CellLocator, &'static str>(
            CellLocator {
                sheet: CellSheet::Page(0),
                shape_id: None,
                section: args.section,
                section_index: args.section_index,
                row: row_of(args.row_index, args.row_name),
                cell_name: args.cell_name,
            },
        ),
{
    let row = match (args.row_index, args.row_name) {
        (Some(_), Some(_)) => {
            return Err("cell locator cannot contain both rowIndex and rowName");
        },
        (Some(index), None) => Some(CellRow::Index(index)),
        (None, Some(name)) => Some(CellRow::Name(name)),
        (None, None) => None,
    };
    Ok(
        CellLocator {
            sheet: CellSheet::Page(0),
            shape_id: None,
            section: args.section,
            section_index: args.section_index,
            row,
            cell_name: args.cell_name,
        },
    )
}

/// A shape-data row write as the binding receives it.
#[derive(Clone, Debug, PartialEq, Eq)]
pub struct ShapeDataWriteArgs {
    pub row_index: Option<u32>,
    pub row_name: Option<String>,
    pub section_index: Option<u32>,
    pub formula: String,
}

/// The shape-data write `args` describe; the row must be given by index or by name, not both.
pub fn shape_data_write_from_args(args: ShapeDataWriteArgs) -> (result: Result<ShapeDataWrite, &'static str>)
    ensures
        args.row_index is Some && args.row_name is Some ==> (result matches Err(message)
            && message@ == "a shape-data write cannot contain both rowIndex and rowName"@),
        args.row_index is None && args.row_name is None ==> (result matches Err(message) && message@
            == "a shape-data write needs a rowIndex or a rowName"@),
        args.row_index is Some != args.row_name is Some ==> result == Ok::<ShapeDataWrite, &'static str>(
            ShapeDataWrite {
                row: row_of(args.row_index, args.row_name).unwrap(),
                section_index: args.section_index,
                formula: args.formula,
            },
        ),
{
    let row = match (args.row_index, args.row_name) {
        (Some(_), Some(_)) => {
            return Err("a shape-data write cannot contain both rowIndex and rowName");
        },
        (Some(index), None) => CellRow::Index(index),
        (None, Some(name)) => CellRow::Name(name),
        (None, None) => {
            return Err("a shape-data write needs a rowIndex or a rowName");
        },
    };
    Ok(ShapeDataWrite { row, section_index: args.section_index, formula: args.formula })
}

/// The gesture a binding name denotes.
pub open spec fn gesture_of_name(name: Seq<char>) -> Option<MutationGesture> {
    if name == "cellEdit"@ {
        Some(MutationGesture::CellEdit)
    } else if name == "moveX"@ {
        Some(MutationGesture::MoveX)
    } else if name == "moveY"@ {
        Some(MutationGesture::MoveY)
    } else if name == "resizeWidth"@ {
        Some(MutationGesture::ResizeWidth)
    } else if name == "resizeHeight"@ {
        Some(MutationGesture::ResizeHeight)
    } else if name == "resizeAspect"@ {
        Some(MutationGesture::ResizeAspect)
    } else if name == "rotate"@ {
        Some(MutationGesture::Rotate)
    } else if name == "textEdit"@ {
        Some(MutationGesture::TextEdit)
    } else if name == "format"@ {
        Some(MutationGesture::Format)
    } else if name == "delete"@ {
        Some(MutationGesture::Delete)
    } else {
        None
    }
}

/// The gesture named `name`, if one is named; refuses a name no gesture has.
pub fn gesture_named(name: Option<&str>) -> (result: Result<Option<MutationGesture>, &'static str>)
    ensures
        match name {
            None => result == Ok::<Option<MutationGesture>, &'static str>(None),
            Some(name) => match gesture_of_name(name@) {
                Some(gesture) => result == Ok::<Option<MutationGesture>, &'static str>(Some(gesture)),
                None => result matches Err(message) && message@ == "unknown mutation gesture"@,
            },
        },
{
    let name = match name {
        None => {
            return Ok(None);
        },
        Some(name) => name,
    };
    if str_eq(name, "cellEdit") {
        Ok(Some(MutationGesture::CellEdit))
    } else if str_eq(name, "moveX") {
        Ok(Some(MutationGesture::MoveX))
    } else if str_eq(name, "moveY") {
        Ok(Some(MutationGesture::MoveY))
    } else if str_eq(name, "resizeWidth") {
        Ok(Some(MutationGesture::ResizeWidth))
    } else if str_eq(name, "resizeHeight") {
        Ok(Some(MutationGesture::ResizeHeight))
    } else if str_eq(name, "resizeAspect") {
        Ok(Some(MutationGesture::ResizeAspect))
    } else if str_eq(name, "rotate") {
        Ok(Some(MutationGesture::Rotate))
    } else if str_eq(name, "textEdit") {
        Ok(Some(MutationGesture::TextEdit))
    } else if str_eq(name, "format") {
        Ok(Some(MutationGesture::Format))
    } else if str_eq(name, "delete") {
        Ok(Some(MutationGesture::Delete))
    } else {
        Err("unknown mutation gesture")
    }
}

/// A probe query as the binding receives it.
#[derive(Clone, Debug, PartialEq, Eq)]
pub struct CellWriteQueryArgs {
    pub locator: CellLocatorArgs,
    pub gesture: Option<String>,
}

/// The probe query `args` describe: the gesture is read first, then the locator.
pub fn cell_write_query_from_args(args: CellWriteQueryArgs) -> (result: Result<CellWriteQuery, &'static str>)
    ensures
        match args.gesture {
            Some(name) if gesture_of_name(name@) is None => result matches Err(message) && message@
                == "unknown mutation gesture"@,
            _ => if args.locator.row_index is Some && args.locator.row_name is Some {
                result matches Err(message) && message@
                    == "cell locator cannot contain both rowIndex and rowName"@
            } else {
                result matches Ok(query) && query.gesture == match args.gesture {
                    Some(name) => gesture_of_name(name@),
                    None => None,
                } && query.locator == CellLocator {
                    sheet: CellSheet::Page(0),
                    shape_id: None,
                    section: args.locator.section,
                    section_index: args.locator.section_index,
                    row: row_of(args.locator.row_index, args.locator.row_name),
                    cell_name: args.locator.cell_name,
                }
            },
        },
{
    let gesture = match &args.gesture {
        Some(name) => gesture_named(Some(name.as_str())),
        None => gesture_named(None),
    };
    let gesture = match gesture {
        Ok(gesture) => gesture,
        Err(message) => {
            return Err(message);
        },
    };
    let locator = match locator_from_args(args.locator) {
        Ok(locator) => locator,
        Err(message) => {
            return Err(message);
        },
    };
    Ok(CellWriteQuery { locator, gesture })
}

/// One draft cell as the binding receives it.
#[derive(Clone, Debug, PartialEq, Eq)]
pub struct FormulaShapeCell {
    pub locator: CellLocatorArgs,
    pub formula: Option<String>,
    pub value: Option<String>,
}

/// One draft cell as read from its JSON: whether it spells a `value` key, and the cell when it
/// reads as one.
#[derive(Clone, Debug, PartialEq, Eq)]
pub struct DraftCellInput {
    pub has_value_key: bool,
    pub cell: Option<FormulaShapeCell>,
}

/// The snapshot cell a draft cell becomes, for a locator that converts.
pub open spec fn draft_cell(cell: FormulaShapeCell) -> CellSnapshot {
    CellSnapshot {
        locator: CellLocator {
            sheet: CellSheet::Page(0),
            shape_id: None,
            section: cell.locator.section,
            section_index: cell.locator.section_index,
            row: row_of(cell.locator.row_index, cell.locator.row_name),
            cell_name: cell.locator.cell_name,
        },
        row_type: cell.locator.row_type,
        name: cell.locator.cell_name,
        formula: cell.formula,
        value: cell.value,
    }
}

/// Why draft cell `input` is refused, if it is.
pub open spec fn draft_cell_refusal(input: DraftCellInput, allow_values: bool) -> Option<Seq<char>> {
    if !allow_values && input.has_value_key {
        Some("shape draft cells must not contain value"@)
    } else {
        match input.cell {
            None => Some("invalid shape draft cell"@),
            Some(cell) => if cell.locator.row_index is Some && cell.locator.row_name is Some {
                Some("cell locator cannot contain both rowIndex and rowName"@)
            } else {
                None
            },
        }
    }
}

/// The first refused draft cell is at `j`.
pub open spec fn first_refused_cell(inputs: Seq<DraftCellInput>, allow_values: bool, j: int) -> bool {
    &&& 0 <= j < inputs.len()
    &&& draft_cell_refusal(inputs[j], allow_values) is Some
    &&& forall|k: int| 0 <= k < j ==> draft_cell_refusal(#[trigger] inputs[k], allow_values) is None
}

fn clone_text(text: &Option<String>) -> (result: Option<String>)
    ensures
        result == *text,
{
    match text {
        Some(value) => Some(value.clone()),
        None => None,
    }
}

fn clone_locator_args(args: &CellLocatorArgs) -> (result: CellLocatorArgs)
    ensures
        result == *args,
{
    CellLocatorArgs {
        section: clone_text(&args.section),
        section_index: args.section_index,
        row_index: args.row_index,
        row_name: clone_text(&args.row_name),
        row_type: clone_text(&args.row_type),
        cell_name: args.cell_name.clone(),
    }
}

/// The snapshot cells of the draft cells, in order; refuses at the first cell that spells a
/// value where none is allowed, that does not read as a cell, or whose locator does not convert.
pub fn draft_cells(inputs: &Vec<DraftCellInput>, allow_values: bool) -> (result: Result<Vec<CellSnapshot>, &'static str>)
    ensures
        forall|j: int| #[trigger] first_refused_cell(inputs@, allow_values, j) ==> (result matches Err(
            message,
        ) && message@ == draft_cell_refusal(inputs@[j], allow_values).unwrap()),
        (forall|k: int| 0 <= k < inputs@.len() ==> draft_cell_refusal(#[trigger] inputs@[k], allow_values) is None)
            ==> (result matches Ok(cells) && cells@ == inputs@.map_values(
            |input: DraftCellInput| draft_cell(input.cell.unwrap()),
        )),
{
    let ghost all = inputs@;
    let mut cells: Vec<CellSnapshot> = Vec::new();
    let mut i: usize = 0;
    while i < inputs.len()
        invariant
            i <= all.len(),
            all == inputs@,
            forall|k: int| 0 <= k < i ==> draft_cell_refusal(#[trigger] all[k], allow_values) is None,
            cells@ == all.take(i as int).map_values(|input: DraftCellInput| draft_cell(input.cell.unwrap())),
        decreases all.len() - i,
    {
        let input = &inputs[i];
        if !allow_values && input.has_value_key {
            assert(first_refused_cell(all, allow_values, i as int));
            assert forall|j: int| #[trigger] first_refused_cell(all, allow_values, j) implies j == i by {
                if j < i {
                } else if j > i {
                }
            }
            return Err("shape draft cells must not contain value");
        }
        let cell = match &input.cell {
            None => {
                assert(first_refused_cell(all, allow_values, i as int));
                assert forall|j: int| #[trigger] first_refused_cell(all, allow_values, j) implies j == i by {
                    if j < i {
                    } else if j > i {
                    }
                }
                return Err("invalid shape draft cell");
            },
            Some(cell) => cell,
        };
        let row_type = clone_text(&cell.locator.row_type);
        let locator = match locator_from_args(clone_locator_args(&cell.locator)) {
            Ok(locator) => locator,
            Err(message) => {
                assert(first_refused_cell(all, allow_values, i as int));
                assert forall|j: int| #[trigger] first_refused_cell(all, allow_values, j) implies j == i by {
                    if j < i {
                    } else if j > i {
                    }
                }
                return Err(message);
            },
        };
        let name = locator.cell_name.clone();
        cells.push(
            CellSnapshot {
                row_type,
                name,
                locator,
                formula: clone_text(&cell.formula),
                value: clone_text(&cell.value),
            },
        );
        assert(all.take(i + 1) == all.take(i as int).push(all[i as int]));
        assert(cells@ =~= all.take(i + 1).map_values(|input: DraftCellInput| draft_cell(input.cell.unwrap())));
        i = i + 1;
    }
    assert(all.take(all.len() as int) == all);
    proof {
        assert forall|j: int| #[trigger] first_refused_cell(all, allow_values, j) implies false by {}
    }
    Ok(cells)
}

/// Deepest nesting a pasted subtree may have.
pub const MAX_SHAPE_NESTING: usize = 256;

/// A shape draft as the binding receives it, its cells still as read from JSON.
#[derive(Clone, Debug, PartialEq, Eq)]
pub struct FormulaShapeDraft {
    pub name: Option<String>,
    pub master: Option<u32>,
    pub cells: Vec<DraftCellInput>,
}

/// The first refusal among the draft cells, if any.
pub open spec fn cells_refusal(inputs: Seq<DraftCellInput>, allow_values: bool) -> Option<Seq<char>>
    decreases inputs.len(),
{
    if inputs.len() == 0 {
        None
    } else {
        match cells_refusal(inputs.drop_last(), allow_values) {
            Some(reason) => Some(reason),
            None => draft_cell_refusal(inputs.last(), allow_values),
        }
    }
}

proof fn lemma_cells_refusal(inputs: Seq<DraftCellInput>, allow_values: bool)
    ensures
        cells_refusal(inputs, allow_values) is None <==> forall|k: int|
            0 <= k < inputs.len() ==> draft_cell_refusal(#[trigger] inputs[k], allow_values) is None,
        cells_refusal(inputs, allow_values) is Some ==> exists|j: int|
            #[trigger] first_refused_cell(inputs, allow_values, j) && cells_refusal(inputs, allow_values)
                == draft_cell_refusal(inputs[j], allow_values),
    decreases inputs.len(),
{
    if inputs.len() > 0 {
        let shorter = inputs.drop_last();
        lemma_cells_refusal(shorter, allow_values);
        assert forall|k: int| 0 <= k < shorter.len() implies shorter[k] == inputs[k] by {}
        if cells_refusal(shorter, allow_values) is Some {
            let j = choose|j: int| #[trigger] first_refused_cell(shorter, allow_values, j) && cells_refusal(
                shorter,
                allow_values,
            ) == draft_cell_refusal(shorter[j], allow_values);
            assert(first_refused_cell(inputs, allow_values, j));
        } else if draft_cell_refusal(inputs.last(), allow_values) is Some {
            assert(first_refused_cell(inputs, allow_values, inputs.len() - 1));
        }
    }
}

/// The cells a draft's cells become, in order, when none is refused.
pub open spec fn converted_cells(inputs: Seq<DraftCellInput>) -> Seq<CellSnapshot> {
    inputs.map_values(|input: DraftCellInput| draft_cell(input.cell.unwrap()))
}

impl FormulaShapeDraft {
    /// The shape draft this describes; cells may carry cached values only when
    /// `allow_values`, and the first refused cell refuses the draft.
    pub fn into_shape_draft(&self, allow_values: bool) -> (result: Result<ShapeDraft, &'static str>)
        ensures
            match cells_refusal(self.cells@, allow_values) {
                Some(reason) => result matches Err(message) && message@ == reason,
                None => result matches Ok(draft) && draft.name == self.name && draft.master
                    == self.master && draft.cells@ == converted_cells(self.cells@),
            },
    {
        proof {
            lemma_cells_refusal(self.cells@, allow_values);
        }
        let cells = draft_cells(&self.cells, allow_values)?;
        Ok(ShapeDraft { name: clone_text(&self.name), master: self.master, cells })
    }
}

/// A pasted subtree as the binding receives it, its cells still as read from JSON.
#[derive(Debug)]
pub struct FormulaShapeTreeDraft {
    pub name: Option<String>,
    pub cells: Vec<DraftCellInput>,
    pub text: String,
    pub copy_source_id: Option<u32>,
    pub copy_source_page_id: Option<u32>,
    pub source_shape_id: Option<String>,
    pub source_id: Option<u32>,
    pub copy_refusal: Option<String>,
    pub glue: Vec<ShapeTreeGlue>,
    pub children: Vec<FormulaShapeTreeDraft>,
}

/// Why the subtree at nesting `depth` is refused: too deep, a refused cell, or the first
/// refused child.
pub open spec fn tree_refusal(draft: FormulaShapeTreeDraft, depth: int) -> Option<Seq<char>>
    decreases draft, 1int,
{
    if depth > MAX_SHAPE_NESTING {
        Some("shape nesting exceeds maximum depth"@)
    } else if cells_refusal(draft.cells@, true) is Some {
        cells_refusal(draft.cells@, true)
    } else {
        children_refusal(draft.children@, depth + 1)
    }
}

/// The refusal of the first refused subtree among `children`.
pub open spec fn children_refusal(children: Seq<FormulaShapeTreeDraft>, depth: int) -> Option<Seq<char>>
    decreases children, 0int,
{
    if children.len() == 0 {
        None
    } else {
        match children_refusal(children.drop_last(), depth) {
            Some(reason) => Some(reason),
            None => tree_refusal(children.last(), depth),
        }
    }
}

/// `out` is what the subtree becomes: the same fields, converted cells, and each child
/// converted in turn.
pub open spec fn tree_converts_to(draft: FormulaShapeTreeDraft, out: ShapeTreeDraft) -> bool
    decreases draft,
{
    &&& out.name == draft.name
    &&& out.cells@ == converted_cells(draft.cells@)
    &&& out.text == draft.text
    &&& out.copy_source_id == draft.copy_source_id
    &&& out.copy_source_page_id == draft.copy_source_page_id
    &&& out.source_shape_id == draft.source_shape_id
    &&& out.source_id == draft.source_id
    &&& out.copy_refusal == draft.copy_refusal
    &&& out.glue@ == draft.glue@
    &&& out.children@.len() == draft.children@.len()
    &&& forall|i: int|
        0 <= i < draft.children@.len() ==> tree_converts_to(
            #[trigger] draft.children@[i],
            out.children@[i],
        )
}

fn clone_glue(glue: &Vec<ShapeTreeGlue>) -> (result: Vec<ShapeTreeGlue>)
    ensures
        result@ == glue@,
{
    let mut out: Vec<ShapeTreeGlue> = Vec::new();
    let mut i: usize = 0;
    while i < glue.len()
        invariant
            i <= glue@.len(),
            out@ == glue@.take(i as int),
        decreases glue.len() - i,
    {
        let g = &glue[i];
        out.push(
            ShapeTreeGlue {
                connector_source: g.connector_source.clone(),
                endpoint: g.endpoint.clone(),
                target_source: g.target_source.clone(),
                to_cell: g.to_cell.clone(),
            },
        );
        assert(out@ =~= glue@.take(i + 1));
        i = i + 1;
    }
    assert(glue@.take(glue@.len() as int) == glue@);
    out
}

impl FormulaShapeTreeDraft {
    /// The pasted subtree this describes, at nesting `depth`; cached values are kept, and the
    /// nesting stays within [`MAX_SHAPE_NESTING`].
    pub fn into_shape_tree_draft(&self, depth: usize) -> (result: Result<ShapeTreeDraft, &'static str>)
        ensures
            match tree_refusal(*self, depth as int) {
                Some(reason) => result matches Err(message) && message@ == reason,
                None => result matches Ok(out) && tree_converts_to(*self, out),
            },
        decreases self,
    {
        if depth > MAX_SHAPE_NESTING {
            return Err("shape nesting exceeds maximum depth");
        }
        proof {
            lemma_cells_refusal(self.cells@, true);
        }
        let cells = match draft_cells(&self.cells, true) {
            Ok(cells) => cells,
            Err(message) => {
                return Err(message);
            },
        };
        assert(cells_refusal(self.cells@, true) is None);
        let mut children: Vec<ShapeTreeDraft> = Vec::new();
        let mut i: usize = 0;
        while i < self.children.len()
            invariant
                i <= self.children@.len(),
                depth <= MAX_SHAPE_NESTING,
                cells_refusal(self.cells@, true) is None,
                children_refusal(self.children@.take(i as int), depth + 1) is None,
                children@.len() == i,
                forall|k: int| 0 <= k < i ==> tree_converts_to(#[trigger] self.children@[k], children@[k]),
            decreases self.children.len() - i,
        {
            assert(self.children@.take(i + 1).drop_last() == self.children@.take(i as int));
            assert(self.children@.take(i + 1).last() == self.children@[i as int]);
            let child = &self.children[i];
            match child.into_shape_tree_draft(depth + 1) {
                Ok(out) => {
                    children.push(out);
                },
                Err(message) => {
                    assert(tree_refusal(*child, depth + 1) is Some);
                    assert(children_refusal(self.children@.take(i + 1), depth + 1) == tree_refusal(
                        *child,
                        depth + 1,
                    ));
                    proof {
                        lemma_children_refusal_prefix(self.children@, depth + 1, i + 1);
                    }
                    assert(tree_refusal(*self, depth as int) == tree_refusal(*child, depth + 1));
                    return Err(message);
                },
            }
            i = i + 1;
        }
        assert(self.children@.take(self.children@.len() as int) == self.children@);
        Ok(
            ShapeTreeDraft {
                name: clone_text(&self.name),
                cells,
                text: self.text.clone(),
                copy_source_id: self.copy_source_id,
                copy_source_page_id: self.copy_source_page_id,
                source_shape_id: clone_text(&self.source_shape_id),
                source_id: self.source_id,
                copy_refusal: clone_text(&self.copy_refusal),
                glue: clone_glue(&self.glue),
                children,
            },
        )
    }
}

/// A refusal among the first `n` children is the refusal of all of them.
proof fn lemma_children_refusal_prefix(children: Seq<FormulaShapeTreeDraft>, depth: int, n: int)
    requires
        0 <= n <= children.len(),
        children_refusal(children.take(n), depth) is Some,
    ensures
        children_refusal(children, depth) == children_refusal(children.take(n), depth),
    decreases children.len() - n,
{
    if n < children.len() {
        assert(children.take(n + 1).drop_last() == children.take(n));
        lemma_children_refusal_prefix(children, depth, n + 1);
    } else {
        assert(children.take(n) == children);
    }
}

} // verus!
