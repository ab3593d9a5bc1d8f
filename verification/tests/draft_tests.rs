use vsdx_edit::args::{
    cell_write_query_from_args, draft_cells, gesture_named, locator_from_args,
    shape_data_write_from_args, CellLocatorArgs, CellWriteQueryArgs, DraftCellInput,
    FormulaShapeCell, FormulaShapeDraft, FormulaShapeTreeDraft, ShapeDataWriteArgs,
    MAX_SHAPE_NESTING,
};
use vsdx_edit::content::{copy_refusal_reason, plain_text, ResolvedTextToken, SectionContent, ShapeContent};
use vsdx_edit::model::{
    CellLocator, CellRow, CellSheet, CellSnapshot, EditError, MutationGesture, ShapeDataWrite,
    ShapeTreeDraft, ShapeTreeGlue,
};
use vsdx_edit::paste::{draft_source_page, tree_copy_keys, FlatTreeNode};

fn locator_args(row_index: Option<u32>, row_name: Option<&str>, cell_name: &str) -> CellLocatorArgs {
    CellLocatorArgs {
        section: Some("Geometry".to_owned()),
        section_index: Some(1),
        row_index,
        row_name: row_name.map(str::to_owned),
        row_type: Some("LineTo".to_owned()),
        cell_name: cell_name.to_owned(),
    }
}

#[test]
fn locators_take_a_row_by_index_or_by_name() {
    assert_eq!(
        locator_from_args(locator_args(Some(2), None, "X")),
        Ok(CellLocator {
            sheet: CellSheet::Page(0),
            shape_id: None,
            section: Some("Geometry".to_owned()),
            section_index: Some(1),
            row: Some(CellRow::Index(2)),
            cell_name: "X".to_owned(),
        })
    );
    assert_eq!(
        locator_from_args(locator_args(None, Some("r"), "X")).unwrap().row,
        Some(CellRow::Name("r".to_owned()))
    );
    assert_eq!(locator_from_args(locator_args(None, None, "X")).unwrap().row, None);
    assert_eq!(
        locator_from_args(locator_args(Some(1), Some("r"), "X")),
        Err("cell locator cannot contain both rowIndex and rowName")
    );
}

#[test]
fn shape_data_writes_need_exactly_one_row() {
    let args = |row_index: Option<u32>, row_name: Option<&str>| ShapeDataWriteArgs {
        row_index,
        row_name: row_name.map(str::to_owned),
        section_index: None,
        formula: "\"x\"".to_owned(),
    };
    assert_eq!(
        shape_data_write_from_args(args(Some(3), None)),
        Ok(ShapeDataWrite { row: CellRow::Index(3), section_index: None, formula: "\"x\"".to_owned() })
    );
    assert_eq!(
        shape_data_write_from_args(args(None, Some("Cost"))).unwrap().row,
        CellRow::Name("Cost".to_owned())
    );
    assert_eq!(
        shape_data_write_from_args(args(Some(3), Some("Cost"))),
        Err("a shape-data write cannot contain both rowIndex and rowName")
    );
    assert_eq!(
        shape_data_write_from_args(args(None, None)),
        Err("a shape-data write needs a rowIndex or a rowName")
    );
}

#[test]
fn gestures_are_named_in_camel_case() {
    assert_eq!(gesture_named(None), Ok(None));
    assert_eq!(gesture_named(Some("rotate")), Ok(Some(MutationGesture::Rotate)));
    assert_eq!(gesture_named(Some("resizeAspect")), Ok(Some(MutationGesture::ResizeAspect)));
    assert_eq!(gesture_named(Some("delete")), Ok(Some(MutationGesture::Delete)));
    assert_eq!(gesture_named(Some("Rotate")), Err("unknown mutation gesture"));
}

#[test]
fn probe_queries_read_the_gesture_before_the_locator() {
    let query = cell_write_query_from_args(CellWriteQueryArgs {
        locator: locator_args(Some(0), None, "Y"),
        gesture: Some("moveY".to_owned()),
    })
    .unwrap();
    assert_eq!(query.gesture, Some(MutationGesture::MoveY));
    assert_eq!(query.locator.cell_name, "Y");
    assert_eq!(
        cell_write_query_from_args(CellWriteQueryArgs {
            locator: locator_args(Some(0), Some("r"), "Y"),
            gesture: Some("spin".to_owned()),
        }),
        Err("unknown mutation gesture")
    );
    assert_eq!(
        cell_write_query_from_args(CellWriteQueryArgs {
            locator: locator_args(Some(0), Some("r"), "Y"),
            gesture: None,
        }),
        Err("cell locator cannot contain both rowIndex and rowName")
    );
}

fn input(has_value_key: bool, cell: Option<(Option<u32>, Option<&str>, Option<&str>)>) -> DraftCellInput {
    DraftCellInput {
        has_value_key,
        cell: cell.map(|(row_index, row_name, value)| FormulaShapeCell {
            locator: locator_args(row_index, row_name, "X"),
            formula: Some("1".to_owned()),
            value: value.map(str::to_owned),
        }),
    }
}

#[test]
fn draft_cells_convert_in_order() {
    let cells = draft_cells(&vec![input(true, Some((Some(0), None, Some("1"))))], true).unwrap();
    assert_eq!(
        cells,
        vec![CellSnapshot {
            locator: locator_from_args(locator_args(Some(0), None, "X")).unwrap(),
            row_type: Some("LineTo".to_owned()),
            name: "X".to_owned(),
            formula: Some("1".to_owned()),
            value: Some("1".to_owned()),
        }]
    );
}

#[test]
fn draft_cells_refuse_at_the_first_bad_cell() {
    assert_eq!(
        draft_cells(&vec![input(false, None), input(true, Some((Some(0), None, None)))], false),
        Err("invalid shape draft cell")
    );
    assert_eq!(
        draft_cells(&vec![input(true, Some((Some(0), None, None))), input(false, None)], false),
        Err("shape draft cells must not contain value")
    );
    assert_eq!(
        draft_cells(&vec![input(false, Some((Some(0), Some("r"), None)))], false),
        Err("cell locator cannot contain both rowIndex and rowName")
    );
}

#[test]
fn shape_drafts_keep_name_and_master() {
    let draft = FormulaShapeDraft {
        name: Some("Box".to_owned()),
        master: Some(4),
        cells: vec![input(false, Some((None, Some("r"), None)))],
    };
    let converted = draft.into_shape_draft(false).unwrap();
    assert_eq!(converted.name, Some("Box".to_owned()));
    assert_eq!(converted.master, Some(4));
    assert_eq!(converted.cells.len(), 1);
    let with_value = FormulaShapeDraft { name: None, master: None, cells: vec![input(true, None)] };
    assert_eq!(with_value.into_shape_draft(false).unwrap_err(), "shape draft cells must not contain value");
    assert_eq!(with_value.into_shape_draft(true).unwrap_err(), "invalid shape draft cell");
}

fn tree(children: Vec<FormulaShapeTreeDraft>, cells: Vec<DraftCellInput>) -> FormulaShapeTreeDraft {
    FormulaShapeTreeDraft {
        name: Some("n".to_owned()),
        cells,
        text: "t".to_owned(),
        copy_source_id: Some(3),
        copy_source_page_id: Some(1),
        source_shape_id: Some("page:1:shape:3".to_owned()),
        source_id: Some(3),
        copy_refusal: None,
        glue: vec![ShapeTreeGlue {
            connector_source: "a".to_owned(),
            endpoint: "begin".to_owned(),
            target_source: "b".to_owned(),
            to_cell: "PinX".to_owned(),
        }],
        children,
    }
}

#[test]
fn tree_drafts_convert_recursively_within_the_nesting_limit() {
    let draft = tree(vec![tree(Vec::new(), vec![input(true, Some((Some(0), None, Some("2"))))])], Vec::new());
    let converted = draft.into_shape_tree_draft(1).unwrap();
    assert_eq!(converted.text, "t");
    assert_eq!(converted.glue.len(), 1);
    assert_eq!(converted.children.len(), 1);
    assert_eq!(converted.children[0].cells[0].value, Some("2".to_owned()));
    assert_eq!(
        tree(Vec::new(), Vec::new()).into_shape_tree_draft(MAX_SHAPE_NESTING + 1).unwrap_err(),
        "shape nesting exceeds maximum depth"
    );
    assert!(tree(Vec::new(), Vec::new()).into_shape_tree_draft(MAX_SHAPE_NESTING).is_ok());
    let bad_child = tree(vec![tree(Vec::new(), Vec::new()), tree(Vec::new(), vec![input(false, None)])], Vec::new());
    assert_eq!(bad_child.into_shape_tree_draft(1).unwrap_err(), "invalid shape draft cell");
}

fn node_draft(source_id: Option<u32>, copy_source_id: Option<u32>, page: Option<u32>, formula: Option<&str>) -> ShapeTreeDraft {
    ShapeTreeDraft {
        name: None,
        cells: formula
            .map(|formula| {
                vec![CellSnapshot {
                    locator: locator_from_args(locator_args(None, None, "PinX")).unwrap(),
                    row_type: None,
                    name: "PinX".to_owned(),
                    formula: Some(formula.to_owned()),
                    value: None,
                }]
            })
            .unwrap_or_default(),
        text: String::new(),
        copy_source_id,
        copy_source_page_id: page,
        source_shape_id: None,
        source_id,
        copy_refusal: None,
        glue: Vec::new(),
        children: Vec::new(),
    }
}

#[test]
fn copy_keys_prefer_referenced_live_ids() {
    let a = node_draft(Some(5), Some(50), None, Some("Sheet.5!PinX"));
    let b = node_draft(Some(6), Some(60), None, None);
    let c = node_draft(None, None, None, None);
    let d = node_draft(Some(7), None, None, None);
    let nodes = vec![
        FlatTreeNode { draft: &a, parent: None },
        FlatTreeNode { draft: &b, parent: Some(0) },
        FlatTreeNode { draft: &c, parent: Some(0) },
        FlatTreeNode { draft: &d, parent: Some(0) },
    ];
    assert_eq!(tree_copy_keys(&nodes), Ok(vec![Some(5), Some(60), None, Some(7)]));
}

#[test]
fn copy_keys_refuse_duplicates() {
    let a = node_draft(None, Some(60), None, None);
    let b = node_draft(Some(8), Some(60), None, None);
    let nodes = vec![FlatTreeNode { draft: &a, parent: None }, FlatTreeNode { draft: &b, parent: Some(0) }];
    assert_eq!(
        tree_copy_keys(&nodes),
        Err(EditError::InvalidState("paste draft contains duplicate copy sources".to_owned()))
    );
}

#[test]
fn pasted_sources_come_from_one_page() {
    let a = node_draft(None, None, Some(1), None);
    let b = node_draft(None, None, None, None);
    let c = node_draft(None, None, Some(1), None);
    let d = node_draft(None, None, Some(2), None);
    assert_eq!(
        draft_source_page(&[FlatTreeNode { draft: &b, parent: None }, FlatTreeNode { draft: &a, parent: Some(0) }, FlatTreeNode { draft: &c, parent: Some(0) }]),
        Ok(Some(1))
    );
    assert_eq!(draft_source_page(&[FlatTreeNode { draft: &b, parent: None }]), Ok(None));
    assert_eq!(
        draft_source_page(&[FlatTreeNode { draft: &a, parent: None }, FlatTreeNode { draft: &d, parent: Some(0) }]),
        Err(EditError::InvalidState("paste sources span multiple pages".to_owned()))
    );
}

#[test]
fn plain_text_turns_runs_into_controls() {
    let tokens = vec![
        ResolvedTextToken::ParagraphRun,
        ResolvedTextToken::Literal("a".to_owned()),
        ResolvedTextToken::ParagraphRun,
        ResolvedTextToken::Tab,
        ResolvedTextToken::CharacterRun,
        ResolvedTextToken::Field { value: Some("7".to_owned()) },
        ResolvedTextToken::Field { value: None },
    ];
    assert_eq!(plain_text(&tokens), "a\n\t7");
    assert_eq!(plain_text(&[ResolvedTextToken::Literal(String::new()), ResolvedTextToken::ParagraphRun]), "");
}

#[test]
fn copy_refusals_name_the_first_offending_child() {
    assert_eq!(
        copy_refusal_reason(&[
            ShapeContent::Cell,
            ShapeContent::Section(vec![SectionContent::Row { has_index: true, has_name: false, only_cells: true }]),
            ShapeContent::ForeignData,
            ShapeContent::Unknown,
        ]),
        Some("embedded media")
    );
    assert_eq!(
        copy_refusal_reason(&[ShapeContent::Section(vec![SectionContent::Row {
            has_index: false,
            has_name: false,
            only_cells: false,
        }])]),
        Some("unsupported geometry rows")
    );
    assert_eq!(
        copy_refusal_reason(&[ShapeContent::Section(vec![
            SectionContent::Row { has_index: false, has_name: true, only_cells: false },
            SectionContent::Other,
        ])]),
        Some("unsupported shape content")
    );
    assert_eq!(copy_refusal_reason(&[ShapeContent::Unknown]), Some("unsupported shape content"));
    assert_eq!(copy_refusal_reason(&[ShapeContent::Text, ShapeContent::Shapes, ShapeContent::Cell]), None);
}
