use std::collections::BTreeMap;

use vsdx_edit::markup::shape_xml;
use vsdx_edit::model::{
    CellLocator, CellRow, CellSheet, CellSnapshot, DiagramSnapshot, EditError, PageSnapshot,
    ParseLimits, ShapeSnapshot,
};
use vsdx_edit::structural::{
    page_part_paths_for_snapshot, structural_container_edits, StructuralEdit, StructuralShapeEntry,
};
use vsdx_edit::xml::{cell_xml, text_token_xml, validate_story_text, xml_escape, TextToken};

#[test]
fn attribute_escaping_covers_all_five_characters() {
    let mut output = String::from("x=");
    xml_escape(&mut output, "a<b>&\"'c");
    assert_eq!(output, "x=a&lt;b&gt;&amp;&quot;&apos;c");
}

#[test]
fn text_tokens_escape_text_and_mark_runs() {
    let mut output = String::new();
    text_token_xml(&mut output, &TextToken::Literal("a<b\"&".to_owned()));
    text_token_xml(&mut output, &TextToken::CharacterRun(3));
    text_token_xml(&mut output, &TextToken::ParagraphRun(0));
    text_token_xml(&mut output, &TextToken::Tab(12));
    text_token_xml(&mut output, &TextToken::Field(1));
    assert_eq!(
        output,
        "a&lt;b\"&amp;<cp IX=\"3\"></cp><pp IX=\"0\"></pp><tp IX=\"12\"></tp><fld IX=\"1\"></fld>"
    );
}

fn locator(section: Option<&str>, section_index: Option<u32>, row: Option<CellRow>, name: &str) -> CellLocator {
    CellLocator {
        sheet: CellSheet::Page(0),
        shape_id: None,
        section: section.map(str::to_owned),
        section_index,
        row,
        cell_name: name.to_owned(),
    }
}

fn cell(locator: CellLocator, row_type: Option<&str>, formula: Option<&str>, value: Option<&str>) -> CellSnapshot {
    CellSnapshot {
        name: locator.cell_name.clone(),
        locator,
        row_type: row_type.map(str::to_owned),
        formula: formula.map(str::to_owned),
        value: value.map(str::to_owned),
    }
}

#[test]
fn cells_remap_their_sheet_references() {
    let pin = cell(locator(None, None, None, "PinX"), None, Some("Sheet.5!PinX*2"), Some("1"));
    let mut remap = BTreeMap::new();
    remap.insert(5, 9);
    let mut output = String::new();
    cell_xml(&mut output, &pin, Some(&remap));
    assert_eq!(output, "<Cell N=\"PinX\" F=\"Sheet.9!PinX*2\" V=\"1\"/>");
    let mut plain = String::new();
    cell_xml(&mut plain, &pin, None);
    assert_eq!(plain, "<Cell N=\"PinX\" F=\"Sheet.5!PinX*2\" V=\"1\"/>");
    let bare = cell(locator(None, None, None, "A&B"), None, None, None);
    let mut only_name = String::new();
    cell_xml(&mut only_name, &bare, None);
    assert_eq!(only_name, "<Cell N=\"A&amp;B\"/>");
}

#[test]
fn story_text_limits() {
    let limits = ParseLimits { max_attribute_bytes: 100, max_xml_text_bytes: 10 };
    assert_eq!(validate_story_text("hello", &limits), Ok(()));
    assert_eq!(
        validate_story_text("hello world", &limits),
        Err(EditError::InvalidState("shape text exceeds maximum length".to_owned()))
    );
    assert_eq!(
        validate_story_text("a\u{1}", &limits),
        Err(EditError::InvalidState("shape text contains a character forbidden by XML 1.0".to_owned()))
    );
    assert_eq!(
        validate_story_text("ééééééé", &limits),
        Err(EditError::InvalidState("shape text exceeds maximum length".to_owned()))
    );
}

fn snapshot_shape(id: &str, source_id: u32, name: Option<&str>, master: Option<u32>, cells: Vec<CellSnapshot>, children: Vec<ShapeSnapshot>) -> ShapeSnapshot {
    ShapeSnapshot {
        id: id.to_owned(),
        source_id,
        name: name.map(str::to_owned),
        master,
        cells,
        children,
        copy_source_id: None,
        copy_source_page_id: None,
        copy_refusal: None,
    }
}

#[test]
fn shape_xml_groups_cells_into_sections_and_rows() {
    let cells = vec![
        cell(locator(Some("Geometry"), Some(1), Some(CellRow::Index(0)), "X"), Some("MoveTo"), Some("0"), None),
        cell(locator(None, None, None, "PinX"), None, Some("1"), None),
        cell(locator(Some("Property"), None, Some(CellRow::Name("Cost".to_owned())), "Value"), None, Some("\"5\""), None),
        cell(locator(Some("Geometry"), Some(1), Some(CellRow::Index(1)), "X"), Some("LineTo"), Some("2"), None),
        cell(locator(Some("Geometry"), Some(1), Some(CellRow::Index(0)), "Y"), None, Some("0"), None),
    ];
    let shape = snapshot_shape("page:1:shape:7", 7, Some("Box & Co"), Some(3), cells, Vec::new());
    let texts = vec![("page:1:shape:7".to_owned(), "Hi".to_owned())];
    let xml = shape_xml(&shape, &texts, &[], None);
    assert_eq!(
        xml,
        "<Shape Type=\"Shape\" ID=\"7\" Master=\"3\" Name=\"Box &amp; Co\">\
<Cell N=\"PinX\" F=\"1\"/>\
<Section N=\"Geometry\" IX=\"1\"><Row IX=\"0\" T=\"MoveTo\"><Cell N=\"X\" F=\"0\"/><Cell N=\"Y\" F=\"0\"/></Row>\
<Row IX=\"1\" T=\"LineTo\"><Cell N=\"X\" F=\"2\"/></Row></Section>\
<Section N=\"Property\"><Row N=\"Cost\"><Cell N=\"Value\" F=\"&quot;5&quot;\"/></Row></Section>\
<Text>Hi</Text></Shape>"
    );
}

#[test]
fn shape_xml_nests_children_and_prefers_verbatim_text() {
    let child = snapshot_shape("child", 8, None, None, Vec::new(), Vec::new());
    let group = snapshot_shape("group", 9, None, None, Vec::new(), vec![child]);
    let texts = vec![
        ("group".to_owned(), "plain".to_owned()),
        ("child".to_owned(), "".to_owned()),
    ];
    let verbatim = vec![(
        "group".to_owned(),
        vec![TextToken::CharacterRun(0), TextToken::Literal("a&b".to_owned())],
    )];
    let xml = shape_xml(&group, &texts, &verbatim, None);
    assert_eq!(
        xml,
        "<Shape Type=\"Group\" ID=\"9\"><Text><cp IX=\"0\"></cp>a&amp;b</Text>\
<Shapes><Shape Type=\"Shape\" ID=\"8\"></Shape></Shapes></Shape>"
    );
}

#[test]
fn shape_xml_uses_the_last_text_entry() {
    let shape = snapshot_shape("s", 1, None, None, Vec::new(), Vec::new());
    let texts = vec![("s".to_owned(), "old".to_owned()), ("s".to_owned(), "new\"".to_owned())];
    let verbatim = vec![("s".to_owned(), Vec::new())];
    assert_eq!(
        shape_xml(&shape, &texts, &verbatim, None),
        "<Shape Type=\"Shape\" ID=\"1\"><Text>new&quot;</Text></Shape>"
    );
}

fn entry(id: &str, source_id: u32, is_original: bool) -> StructuralShapeEntry {
    StructuralShapeEntry { id: id.to_owned(), parent_id: None, source_id, is_original }
}

#[test]
fn container_edits_delete_then_move_into_place() {
    let a = entry("a", 3, true);
    let n = entry("n", 0, false);
    let b = entry("b", 1, true);
    let desired = vec![&a, &n, &b];
    let added = vec![("n".to_owned(), 9)];
    let mut edits = Vec::new();
    assert_eq!(structural_container_edits(4, &[1, 2, 3], &desired, &added, &mut edits), Ok(()));
    assert_eq!(
        edits,
        vec![
            StructuralEdit::DeleteShape { page_id: 4, shape_id: 2 },
            StructuralEdit::ReorderShape { page_id: 4, shape_id: 3, before_shape_id: Some(1) },
            StructuralEdit::ReorderShape { page_id: 4, shape_id: 9, before_shape_id: Some(1) },
        ]
    );
}

#[test]
fn container_edits_in_order_need_no_moves() {
    let a = entry("a", 1, true);
    let b = entry("b", 2, true);
    let mut edits = vec![StructuralEdit::ReorderPages { page_ids: vec![1] }];
    assert_eq!(structural_container_edits(1, &[1, 2], &[&a, &b], &[], &mut edits), Ok(()));
    assert_eq!(edits, vec![StructuralEdit::ReorderPages { page_ids: vec![1] }]);
}

#[test]
fn container_edits_refuse_unallocated_added_shapes() {
    let n = entry("n", 0, false);
    let mut edits = Vec::new();
    assert_eq!(
        structural_container_edits(1, &[5], &[&n], &[], &mut edits),
        Err(EditError::InvalidState("added shape \"n\" is missing its allocated source ID".to_owned()))
    );
    assert_eq!(edits, vec![StructuralEdit::DeleteShape { page_id: 1, shape_id: 5 }]);
}

#[test]
fn container_edits_refuse_shapes_the_container_lacks() {
    let a = entry("a", 7, true);
    let mut edits = Vec::new();
    assert_eq!(
        structural_container_edits(1, &[1], &[&a], &[], &mut edits),
        Err(EditError::InvalidState(
            "shape 7 is requested in order but is absent from its container".to_owned()
        ))
    );
    assert_eq!(
        edits,
        vec![
            StructuralEdit::DeleteShape { page_id: 1, shape_id: 1 },
            StructuralEdit::ReorderShape { page_id: 1, shape_id: 7, before_shape_id: None },
        ]
    );
}

fn snapshot(paths: &[&str]) -> DiagramSnapshot {
    DiagramSnapshot {
        pages: paths
            .iter()
            .enumerate()
            .map(|(index, path)| PageSnapshot {
                id: format!("page:{}", index + 1),
                source_part_path: (*path).to_owned(),
                name: None,
                shapes: Vec::new(),
            })
            .collect(),
    }
}

#[test]
fn page_paths_must_be_the_package_pages() {
    let expected = vec!["p1".to_owned(), "p2".to_owned(), "p1".to_owned()];
    assert_eq!(
        page_part_paths_for_snapshot(&expected, &snapshot(&["p2", "p1"])),
        Ok(vec!["p2".to_owned(), "p1".to_owned()])
    );
    let refused = Err(EditError::InvalidState("page order does not match the original package".to_owned()));
    assert_eq!(page_part_paths_for_snapshot(&expected, &snapshot(&["p1"])), refused);
    assert_eq!(page_part_paths_for_snapshot(&expected, &snapshot(&["p1", "p1"])), refused);
    assert_eq!(page_part_paths_for_snapshot(&expected, &snapshot(&["p1", "p3"])), refused);
}

use vsdx_edit::allocate::{materialized_source_ids, SourceEntry};

fn source(id: &str, source_id: u32, is_original: bool) -> SourceEntry {
    SourceEntry { id: id.to_owned(), source_id, is_original }
}

#[test]
fn materialized_ids_keep_free_stored_ids_and_allocate_above_the_rest() {
    let entries = vec![
        source("o1", 5, true),
        source("c", 9, false),
        source("b", 3, false),
        source("o2", 3, true),
        source("a", 0, false),
    ];
    assert_eq!(
        materialized_source_ids(&entries, 1),
        Ok(vec![("a".to_owned(), 6), ("b".to_owned(), 7), ("c".to_owned(), 9)])
    );
}

#[test]
fn materialized_ids_sort_by_session_id_then_stored_id() {
    let entries = vec![source("b", 7, false), source("ab", 7, false), source("a", 2, false)];
    assert_eq!(
        materialized_source_ids(&entries, 10),
        Ok(vec![("a".to_owned(), 2), ("ab".to_owned(), 7), ("b".to_owned(), 11)])
    );
}

#[test]
fn materialized_ids_refuse_to_pass_the_largest_id() {
    let entries = vec![source("o", u32::MAX, true), source("n", 0, false)];
    assert_eq!(
        materialized_source_ids(&entries, 0),
        Err(EditError::InvalidState("cannot allocate a materialized source ID".to_owned()))
    );
}

use vsdx_edit::structural::{original_shape_containers, SourceShape};

#[test]
fn original_containers_list_the_page_then_each_shape_in_document_order() {
    let roots = vec![
        SourceShape { id: 1, shapes: vec![SourceShape { id: 3, shapes: Vec::new() }] },
        SourceShape { id: 2, shapes: Vec::new() },
    ];
    assert_eq!(
        original_shape_containers(&roots),
        vec![(None, vec![1, 2]), (Some(1), vec![3]), (Some(3), vec![]), (Some(2), vec![])]
    );
}

#[test]
fn container_edits_accept_repeated_ids_that_stay_in_bounds() {
    let a = entry("a", 1, true);
    let b = entry("b", 2, true);
    let mut edits = Vec::new();
    assert_eq!(structural_container_edits(3, &[1, 1], &[&a, &a], &[], &mut edits), Ok(()));
    assert_eq!(edits, vec![]);
    assert_eq!(structural_container_edits(3, &[2, 1, 1], &[&a, &b], &[], &mut edits), Ok(()));
    assert_eq!(
        edits,
        vec![StructuralEdit::ReorderShape { page_id: 3, shape_id: 1, before_shape_id: Some(2) }]
    );
}
