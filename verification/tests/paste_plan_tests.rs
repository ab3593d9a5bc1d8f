use vsdx_edit::allocate::SourceEntry;
use vsdx_edit::cell_records::Whole;
use vsdx_edit::connect::GlueEndpoint;
use vsdx_edit::model::{
    CellLocator, CellSheet, CellSnapshot, EditError, ParseLimits, ShapeTreeDraft, ShapeTreeGlue,
};
use vsdx_edit::paste::FlatTreeNode;
use vsdx_edit::paste_plan::{
    carried_tree_glue, check_paste_references, fresh_shape_ids, paste_remap, paste_source_ids,
    paste_source_page, plan_shape_tree, CarriedGlue, PastePlan,
};
use vsdx_edit::schema::{SchemaPage, ShapeDetails};
use vsdx_edit::shape_tree::{Field, PageRecord, ShapeRecord, SheetEntry, Sheets};

const LIMITS: ParseLimits = ParseLimits { max_attribute_bytes: 1024, max_xml_text_bytes: 1024 };

fn text(value: &str) -> Field {
    Field::Text(value.to_string())
}

fn invalid(message: &str) -> EditError {
    EditError::InvalidState(message.to_string())
}

fn draft(source: &str, source_id: u32, formula: Option<&str>) -> ShapeTreeDraft {
    ShapeTreeDraft {
        name: None,
        cells: formula
            .map(|formula| {
                vec![CellSnapshot {
                    locator: CellLocator {
                        sheet: CellSheet::Page(0),
                        shape_id: None,
                        section: None,
                        section_index: None,
                        row: None,
                        cell_name: "PinX".to_owned(),
                    },
                    row_type: None,
                    name: "PinX".to_owned(),
                    formula: Some(formula.to_owned()),
                    value: None,
                }]
            })
            .unwrap_or_default(),
        text: String::new(),
        copy_source_id: None,
        copy_source_page_id: None,
        source_shape_id: Some(source.to_owned()),
        source_id: Some(source_id),
        copy_refusal: None,
        glue: Vec::new(),
        children: Vec::new(),
    }
}

fn glue(connector: &str, endpoint: &str, target: &str, to_cell: &str) -> ShapeTreeGlue {
    ShapeTreeGlue {
        connector_source: connector.to_owned(),
        endpoint: endpoint.to_owned(),
        target_source: target.to_owned(),
        to_cell: to_cell.to_owned(),
    }
}

fn sheets() -> Sheets {
    let shape = |key: &str, page: &str| SheetEntry {
        key: key.to_string(),
        shape: Some(ShapeRecord {
            children: None,
            parent_id: Field::Absent,
            page_id: text(page),
            origin: text("original"),
        }),
    };
    Sheets { entries: vec![shape("page:1:shape:1", "page:1"), shape("page:1:shape:2", "page:1"), shape("page:2:shape:1", "page:2")] }
}

fn details(refusal: Field) -> Vec<ShapeDetails> {
    let one = |refusal: Field| ShapeDetails {
        id: Field::Absent,
        source_id: Whole::Value(1),
        copy_refusal: refusal,
        copy_source_id: Whole::Absent,
        copy_source_page_id: Whole::Absent,
        cells: Some(vec![]),
    };
    vec![one(Field::Absent), one(refusal), one(Field::Absent)]
}

fn pages() -> Vec<(String, Option<SchemaPage>)> {
    let page = |id: &str| SchemaPage {
        record: PageRecord { shapes: Some(vec![]), id: text(id) },
        source_part_path: text("visio/pages/page1.xml"),
        max_source_id: Whole::Value(9),
    };
    vec![("page:1".to_string(), Some(page("page:1"))), ("page:2".to_string(), Some(page("page:2")))]
}

#[test]
fn paste_sources_must_share_one_page_and_allow_copying() {
    let a = draft("page:1:shape:1", 1, None);
    let b = draft("page:1:shape:2", 2, None);
    let c = draft("page:2:shape:1", 1, None);
    let nodes = vec![FlatTreeNode { draft: &a, parent: None }, FlatTreeNode { draft: &b, parent: Some(0) }];
    assert_eq!(paste_source_page(&nodes, &sheets(), &details(Field::Absent)), Ok(Some(1)));
    assert_eq!(
        paste_source_page(&nodes, &sheets(), &details(text("locked"))),
        Err(invalid("cannot copy shape page:1:shape:2 with locked"))
    );
    let spread = vec![FlatTreeNode { draft: &a, parent: None }, FlatTreeNode { draft: &c, parent: Some(0) }];
    assert_eq!(
        paste_source_page(&spread, &sheets(), &details(Field::Absent)),
        Err(invalid("paste sources span multiple pages"))
    );
    let mut gone = draft("page:3:shape:1", 1, None);
    gone.copy_refusal = Some("its master".to_owned());
    let detached = vec![FlatTreeNode { draft: &gone, parent: None }];
    assert_eq!(
        paste_source_page(&detached, &sheets(), &details(Field::Absent)),
        Err(invalid("cannot copy shape page:3:shape:1 with its master"))
    );
}

#[test]
fn paste_ids_count_up_past_the_allocated_ones() {
    assert_eq!(paste_source_ids(&vec![], 9, 2), Ok(vec![10, 11]));
    assert_eq!(
        paste_source_ids(&vec![("a".to_owned(), 12), ("b".to_owned(), 4)], 9, 2),
        Ok(vec![13, 14])
    );
    assert_eq!(
        paste_source_ids(&vec![], u32::MAX - 1, 2),
        Err(invalid("cannot allocate a materialized source ID"))
    );
    assert_eq!(
        fresh_shape_ids("page:1", 7, 3, 2),
        vec!["page:1:shape:added:7:3:0".to_owned(), "page:1:shape:added:7:3:1".to_owned()]
    );
    assert_eq!(paste_remap(&vec![Some(1), None, Some(5)], &vec![10, 11, 12]), vec![(1, 10), (5, 12)]);
}

#[test]
fn fresh_ids_of_one_paste_are_all_different() {
    let ids = fresh_shape_ids("page:1", 7, 3, 25);
    for (i, a) in ids.iter().enumerate() {
        for b in &ids[i + 1..] {
            assert_ne!(a, b);
        }
    }
    assert_eq!(ids[1], "page:1:shape:added:7:3:1");
    assert_eq!(ids[11], "page:1:shape:added:7:3:11");
}

#[test]
fn pasting_onto_another_page_refuses_outside_references() {
    let a = draft("page:1:shape:1", 1, Some("Sheet.4!PinX"));
    let nodes = vec![FlatTreeNode { draft: &a, parent: None }];
    assert_eq!(check_paste_references(&nodes, "page:1", Some(1), &vec![(1, 10)]), Ok(()));
    assert_eq!(
        check_paste_references(&nodes, "page:2", Some(1), &vec![(1, 10)]),
        Err(invalid("paste references a shape outside the copy on another page"))
    );
    assert_eq!(check_paste_references(&nodes, "page:2", Some(1), &vec![(4, 10)]), Ok(()));
    assert_eq!(
        check_paste_references(&nodes, "sheet", Some(1), &vec![]),
        Err(invalid("copy source is missing its page"))
    );
}

#[test]
fn paste_glue_is_carried_under_fresh_ids() {
    let a = draft("a", 1, None);
    let b = draft("b", 2, None);
    let nodes = vec![FlatTreeNode { draft: &a, parent: None }, FlatTreeNode { draft: &b, parent: Some(0) }];
    let fresh = vec!["x".to_owned(), "y".to_owned()];
    assert_eq!(
        carried_tree_glue(
            &vec![glue("a", "begin", "b", "PinX"), glue("a", "end", "z", "PinX")],
            &nodes,
            &fresh,
            &LIMITS
        ),
        Ok(vec![CarriedGlue {
            endpoint: GlueEndpoint::Begin,
            connector_id: "x".to_owned(),
            target_id: "y".to_owned(),
            to_cell: "PinX".to_owned(),
        }])
    );
    assert_eq!(
        carried_tree_glue(&vec![glue("a", "begin", "b", "PinX"), glue("a", "begin", "b", "PinY")], &nodes, &fresh, &LIMITS),
        Err(invalid("connector glue duplicates an endpoint"))
    );
    assert_eq!(
        carried_tree_glue(&vec![glue("a", "middle", "b", "PinX")], &nodes, &fresh, &LIMITS),
        Err(invalid("connector glue has no endpoint"))
    );
    assert_eq!(
        carried_tree_glue(&vec![glue("a", "end", "b", "Width")], &nodes, &fresh, &LIMITS),
        Err(invalid("connector glue has an invalid target cell"))
    );
}

#[test]
fn a_pasted_subtree_gets_fresh_identities() {
    let mut root = draft("page:1:shape:1", 1, Some("Sheet.2!PinX"));
    root.glue = vec![glue("page:1:shape:2", "begin", "page:1:shape:1", "PinX")];
    let child = draft("page:1:shape:2", 2, None);
    let nodes = vec![FlatTreeNode { draft: &root, parent: None }, FlatTreeNode { draft: &child, parent: Some(0) }];
    let entries = vec![SourceEntry { id: "page:1:shape:added:1:0:0".to_owned(), source_id: 11, is_original: false }];
    let plan = plan_shape_tree(
        &nodes, &root.glue, "page:1", &pages(), &sheets(), &details(Field::Absent), &entries, 7, 3, 100, &LIMITS,
    );
    assert_eq!(
        plan,
        Ok(PastePlan {
            fresh_ids: vec!["page:1:shape:added:7:3:0".to_owned(), "page:1:shape:added:7:3:1".to_owned()],
            source_ids: vec![12, 13],
            copy_keys: vec![Some(1), Some(2)],
            source_page: Some(1),
            remap: vec![(1, 12), (2, 13)],
            glue: vec![CarriedGlue {
                endpoint: GlueEndpoint::Begin,
                connector_id: "page:1:shape:added:7:3:1".to_owned(),
                target_id: "page:1:shape:added:7:3:0".to_owned(),
                to_cell: "PinX".to_owned(),
            }],
        })
    );
    assert_eq!(
        plan_shape_tree(&nodes, &root.glue, "page:9", &pages(), &sheets(), &details(Field::Absent), &entries, 7, 3, 100, &LIMITS),
        Err(EditError::PageNotFound("page:9".to_owned()))
    );
    assert_eq!(
        plan_shape_tree(&nodes, &root.glue, "page:1", &pages(), &sheets(), &details(Field::Absent), &entries, 7, 3, 4, &LIMITS),
        Err(invalid("shape count exceeds maximum"))
    );
}
