use vsdx_edit::cell_records::{cell_locator, CellRecord, Whole};
use vsdx_edit::connect::{GlueEndpoint, GlueRecord};
use vsdx_edit::model::{CellLocator, CellRow, CellSheet, EditError};
use vsdx_edit::stored_glue::{glue_records, GlueEntry, GlueFields};
use vsdx_edit::orders::repair_order;
use vsdx_edit::shape_tree::{
    original_shape_ids, reachable_shape_ids, shape_origin, shape_tree_entries, validate_acyclic_parents,
    validate_story_records, Field, PageRecord, ShapeOrigin, ShapeRecord, ShapeTreeEntry, SheetEntry,
    Sheets,
};

fn ids(list: &[&str]) -> Vec<Option<String>> {
    list.iter().map(|id| Some(id.to_string())).collect()
}

fn shape(key: &str, children: Option<&[&str]>, parent: Field, page: Field) -> SheetEntry {
    SheetEntry {
        key: key.to_string(),
        shape: Some(ShapeRecord {
            children: children.map(ids),
            parent_id: parent,
            page_id: page,
            origin: Field::Text("original".to_string()),
        }),
    }
}

fn text(value: &str) -> Field {
    Field::Text(value.to_string())
}

fn invalid(message: &str) -> EditError {
    EditError::InvalidState(message.to_string())
}

fn small_tree() -> Sheets {
    Sheets {
        entries: vec![
            shape("a", Some(&["c"]), Field::Absent, text("p1")),
            shape("b", None, Field::Absent, Field::Absent),
            shape("c", Some(&[]), text("a"), text("p1")),
        ],
    }
}

#[test]
fn tree_walk_is_depth_first() {
    let entries = shape_tree_entries(&small_tree(), &ids(&["a", "b"])).unwrap();
    assert_eq!(
        entries,
        vec![
            ShapeTreeEntry { id: "a".to_string(), parent_id: None, index: 0, depth: 1 },
            ShapeTreeEntry { id: "c".to_string(), parent_id: Some("a".to_string()), index: 0, depth: 2 },
            ShapeTreeEntry { id: "b".to_string(), parent_id: None, index: 1, depth: 1 },
        ]
    );
}

#[test]
fn tree_walk_refuses_repeats_cycles_and_bad_entries() {
    let sheets = small_tree();
    let repeated = invalid("shape order contains a duplicate or cycle");
    assert_eq!(shape_tree_entries(&sheets, &ids(&["a", "c"])), Err(repeated.clone()));
    assert_eq!(shape_tree_entries(&sheets, &ids(&["b", "b"])), Err(repeated.clone()));
    let looped = Sheets { entries: vec![shape("a", Some(&["a"]), Field::Absent, Field::Absent)] };
    assert_eq!(shape_tree_entries(&looped, &ids(&["a"])), Err(repeated));
    assert_eq!(
        shape_tree_entries(&sheets, &vec![Some("b".to_string()), None]),
        Err(invalid("shape order contains non-string"))
    );
    assert_eq!(
        shape_tree_entries(&sheets, &ids(&["zz"])),
        Err(EditError::PageNotFound("zz".to_string()))
    );
    let not_a_map = Sheets { entries: vec![SheetEntry { key: "a".to_string(), shape: None }] };
    assert_eq!(
        shape_tree_entries(&not_a_map, &ids(&["a"])),
        Err(EditError::PageNotFound("a".to_string()))
    );
}

fn nested(levels: usize) -> (Sheets, Vec<Option<String>>) {
    let mut entries = Vec::new();
    for level in 0..levels {
        let children: Vec<String> =
            if level + 1 < levels { vec![format!("s{}", level + 1)] } else { vec![] };
        let child_refs: Vec<&str> = children.iter().map(|child| child.as_str()).collect();
        let parent = if level == 0 { Field::Absent } else { text(&format!("s{}", level - 1)) };
        entries.push(shape(&format!("s{level}"), Some(&child_refs), parent, Field::Absent));
    }
    (Sheets { entries }, ids(&["s0"]))
}

#[test]
fn tree_walk_bounds_nesting() {
    let (sheets, roots) = nested(256);
    let entries = shape_tree_entries(&sheets, &roots).unwrap();
    assert_eq!(entries.len(), 256);
    assert_eq!(entries[255].depth, 256);
    let (deeper, roots) = nested(257);
    assert_eq!(
        shape_tree_entries(&deeper, &roots),
        Err(invalid("shape nesting exceeds maximum depth"))
    );
}

#[test]
fn reachable_shapes_check_their_links() {
    let page = PageRecord { shapes: Some(ids(&["a", "b"])), id: text("p1") };
    assert_eq!(
        reachable_shape_ids(&small_tree(), &page),
        Ok(vec!["a".to_string(), "c".to_string(), "b".to_string()])
    );
    let mut wrong_parent = small_tree();
    wrong_parent.entries[2].shape.as_mut().unwrap().parent_id = Field::Absent;
    assert_eq!(
        reachable_shape_ids(&wrong_parent, &page),
        Err(invalid("shape parentId does not match shape order"))
    );
    let mut odd_parent = small_tree();
    odd_parent.entries[1].shape.as_mut().unwrap().parent_id = Field::Other;
    assert_eq!(
        reachable_shape_ids(&odd_parent, &page),
        Err(invalid("shape parentId is not a string"))
    );
    let mut wrong_page = small_tree();
    wrong_page.entries[2].shape.as_mut().unwrap().page_id = text("p2");
    assert_eq!(
        reachable_shape_ids(&wrong_page, &page),
        Err(invalid("shape pageId does not match page shape order"))
    );
    let mut odd_page = small_tree();
    odd_page.entries[0].shape.as_mut().unwrap().page_id = Field::Other;
    assert_eq!(
        reachable_shape_ids(&odd_page, &page),
        Err(invalid("shape pageId does not match page shape order"))
    );
    let no_order = PageRecord { shapes: None, id: text("p1") };
    assert_eq!(reachable_shape_ids(&small_tree(), &no_order), Err(invalid("missing shapes array")));
    let no_id = PageRecord { shapes: Some(ids(&["a"])), id: Field::Other };
    assert_eq!(reachable_shape_ids(&small_tree(), &no_id), Err(invalid("missing id")));
}

#[test]
fn parent_chains_must_end() {
    assert_eq!(validate_acyclic_parents(&small_tree()), Ok(()));
    let cycle = Sheets {
        entries: vec![
            shape("x", None, text("y"), Field::Absent),
            shape("y", None, text("x"), Field::Absent),
        ],
    };
    assert_eq!(
        validate_acyclic_parents(&cycle),
        Err(invalid("shape x has a cyclic parent chain"))
    );
    let own_parent = Sheets { entries: vec![shape("z", None, text("z"), Field::Absent)] };
    assert_eq!(
        validate_acyclic_parents(&own_parent),
        Err(invalid("shape z has a cyclic parent chain"))
    );
    let dangling = Sheets { entries: vec![shape("z", None, text("gone"), Field::Absent)] };
    assert_eq!(validate_acyclic_parents(&dangling), Ok(()));
    let (within, _) = nested(256);
    assert_eq!(validate_acyclic_parents(&within), Ok(()));
    let (deeper, _) = nested(257);
    assert_eq!(
        validate_acyclic_parents(&deeper),
        Err(invalid("shape nesting exceeds maximum depth"))
    );
}

#[test]
fn stories_must_be_text_of_known_shapes() {
    let sheets = small_tree();
    assert_eq!(validate_story_records(None, &sheets), Ok(()));
    assert_eq!(validate_story_records(Some(&vec![("a".to_string(), true)]), &sheets), Ok(()));
    assert_eq!(
        validate_story_records(Some(&vec![("a".to_string(), false)]), &sheets),
        Err(invalid("shape text is not a string"))
    );
    assert_eq!(
        validate_story_records(Some(&vec![("a".to_string(), true), ("zz".to_string(), true)]), &sheets),
        Err(invalid("shape text references a missing shape"))
    );
}

#[test]
fn repaired_orders_keep_each_last_entry() {
    let keys = vec!["a".to_string(), "b".to_string()];
    let order = vec![
        Some("a".to_string()),
        None,
        Some("b".to_string()),
        Some("a".to_string()),
        Some("c".to_string()),
    ];
    let shapes = repair_order(&order, Some(&keys));
    assert_eq!(shapes, vec![None, Some("b".to_string()), Some("a".to_string())]);
    assert_eq!(repair_order(&shapes, Some(&keys)), shapes);
    let pages = repair_order(&order, None);
    assert_eq!(
        pages,
        vec![None, Some("b".to_string()), Some("a".to_string()), Some("c".to_string())]
    );
    assert_eq!(repair_order(&pages, None), pages);
    assert_eq!(repair_order(&vec![], None), vec![]);
}

fn cell(section: Field, row_name: Field, row_index: Whole, section_index: Whole, name: Field) -> CellRecord {
    CellRecord { section, row_name, row_type: Field::Absent, row_index, section_index, name }
}

#[test]
fn cell_records_read_back_into_locators() {
    let plain = cell(Field::Absent, Field::Absent, Whole::Absent, Whole::Absent, text("PinX"));
    assert_eq!(
        cell_locator(&plain, 1, 5),
        Ok(CellLocator {
            sheet: CellSheet::Page(1),
            shape_id: Some(5),
            section: None,
            section_index: None,
            row: None,
            cell_name: "PinX".to_string(),
        })
    );
    let indexed = cell(text("Geometry"), Field::Absent, Whole::Value(2), Whole::Value(0), text("X"));
    let located = cell_locator(&indexed, 1, 5).unwrap();
    assert_eq!(located.section, Some("Geometry".to_string()));
    assert_eq!(located.section_index, Some(0));
    assert_eq!(located.row, Some(CellRow::Index(2)));
    let named = cell(text("Connection"), text("Row_1"), Whole::Absent, Whole::Absent, text("X"));
    assert_eq!(cell_locator(&named, 1, 5).unwrap().row, Some(CellRow::Name("Row_1".to_string())));
}

#[test]
fn cell_records_with_faults_are_refused() {
    let both = cell(text("Geometry"), text("Row_1"), Whole::Value(2), Whole::Absent, text("X"));
    assert_eq!(cell_locator(&both, 1, 5), Err(invalid("cell has both row index and name")));
    let orphan = cell(Field::Absent, Field::Absent, Whole::Value(2), Whole::Absent, text("X"));
    assert_eq!(cell_locator(&orphan, 1, 5), Err(invalid("cell row/index requires a section")));
    let orphan_index = cell(Field::Absent, Field::Absent, Whole::Absent, Whole::Value(0), text("X"));
    assert_eq!(cell_locator(&orphan_index, 1, 5), Err(invalid("cell row/index requires a section")));
    let nameless = cell(Field::Absent, Field::Absent, Whole::Absent, Whole::Absent, Field::Other);
    assert_eq!(cell_locator(&nameless, 1, 5), Err(invalid("missing name")));
    let odd_section = cell(Field::Other, Field::Absent, Whole::Absent, Whole::Absent, text("X"));
    assert_eq!(cell_locator(&odd_section, 1, 5), Err(invalid("cell section is not a string")));
    let odd_index = cell(text("Geometry"), Field::Absent, Whole::Other, Whole::Absent, text("X"));
    assert_eq!(
        cell_locator(&odd_index, 1, 5),
        Err(invalid("rowIndex is not an unsigned 32-bit integer"))
    );
    let mut odd_type = plain_record();
    odd_type.row_type = Field::Other;
    assert_eq!(cell_locator(&odd_type, 1, 5), Err(invalid("cell rowType is not a string")));
}

fn plain_record() -> CellRecord {
    cell(Field::Absent, Field::Absent, Whole::Absent, Whole::Absent, text("PinX"))
}

fn placed(key: &str, page: &str, origin: &str) -> SheetEntry {
    SheetEntry {
        key: key.to_string(),
        shape: Some(ShapeRecord {
            children: None,
            parent_id: Field::Absent,
            page_id: text(page),
            origin: text(origin),
        }),
    }
}

fn glue(key: &str, connector: &str, endpoint: &str, target: &str, page: &str) -> GlueEntry {
    GlueEntry {
        key: key.to_string(),
        fields: Some(GlueFields {
            id: text(key),
            page_id: text(page),
            connector_id: text(connector),
            endpoint: text(endpoint),
            target_id: text(target),
            to_cell: text("Connections.X1"),
        }),
    }
}

fn glue_world() -> (Vec<(String, bool)>, Sheets) {
    let pages = vec![("p1".to_string(), true), ("p2".to_string(), true), ("p3".to_string(), false)];
    let sheets = Sheets {
        entries: vec![
            placed("c1", "p1", "added"),
            placed("c2", "p1", "added"),
            placed("t", "p1", "original"),
            placed("u", "p2", "original"),
            placed("o", "p1", "original"),
        ],
    };
    (pages, sheets)
}

#[test]
fn stored_glue_is_listed_by_id() {
    let (pages, sheets) = glue_world();
    assert_eq!(glue_records(None, &pages, &sheets), Ok(vec![]));
    let entries = vec![glue("c2:end", "c2", "end", "t", "p1"), glue("c1:begin", "c1", "begin", "gone", "p1")];
    let records = glue_records(Some(&entries), &pages, &sheets).unwrap();
    assert_eq!(
        records,
        vec![
            GlueRecord {
                id: "c1:begin".to_string(),
                page_id: "p1".to_string(),
                connector_id: "c1".to_string(),
                endpoint: GlueEndpoint::Begin,
                target_id: "gone".to_string(),
                to_cell: "Connections.X1".to_string(),
            },
            GlueRecord {
                id: "c2:end".to_string(),
                page_id: "p1".to_string(),
                connector_id: "c2".to_string(),
                endpoint: GlueEndpoint::End,
                target_id: "t".to_string(),
                to_cell: "Connections.X1".to_string(),
            },
        ]
    );
}

#[test]
fn stored_glue_faults_are_refused() {
    let (pages, sheets) = glue_world();
    let check = |entry: GlueEntry| glue_records(Some(&vec![entry]), &pages, &sheets);
    assert_eq!(
        check(GlueEntry { key: "c1:begin".to_string(), fields: None }),
        Err(invalid("connector glue is not a map"))
    );
    assert_eq!(check(glue("c1:middle", "c1", "middle", "t", "p1")), Err(invalid("connector glue has no endpoint")));
    let mut no_endpoint = glue("c1:begin", "c1", "begin", "t", "p1");
    no_endpoint.fields.as_mut().unwrap().endpoint = Field::Absent;
    assert_eq!(check(no_endpoint), Err(invalid("missing endpoint")));
    let mut no_cell = glue("c1:begin", "c1", "begin", "t", "p1");
    no_cell.fields.as_mut().unwrap().to_cell = Field::Other;
    assert_eq!(check(no_cell), Err(invalid("missing toCell")));
    assert_eq!(
        check(glue("c1:end", "c1", "begin", "t", "p1")),
        Err(invalid("connector glue ID does not match its endpoint"))
    );
    assert_eq!(check(glue("c1:begin", "c1", "begin", "t", "p9")), Err(EditError::PageNotFound("p9".to_string())));
    assert_eq!(check(glue("c1:begin", "c1", "begin", "t", "p3")), Err(EditError::PageNotFound("p3".to_string())));
    assert_eq!(check(glue("c1:begin", "c1", "begin", "u", "p1")), Err(invalid("connector glue crosses pages")));
    assert_eq!(
        check(glue("o:begin", "o", "begin", "t", "p1")),
        Err(invalid("connector glue needs a session connector"))
    );
    let odd = Sheets { entries: vec![placed("c1", "p1", "borrowed")] };
    assert_eq!(
        glue_records(Some(&vec![glue("c1:begin", "c1", "begin", "t", "p1")]), &pages, &odd),
        Err(invalid("invalid shape origin"))
    );
    let mut bare = placed("c1", "p1", "added");
    bare.shape.as_mut().unwrap().origin = Field::Absent;
    let unmarked = Sheets { entries: vec![bare] };
    assert_eq!(
        glue_records(Some(&vec![glue("c1:begin", "c1", "begin", "t", "p1")]), &pages, &unmarked),
        Err(invalid("missing origin"))
    );
}

#[test]
fn origins_are_read_and_original_shapes_listed() {
    assert_eq!(shape_origin(&text("original")), Ok(ShapeOrigin::Original));
    assert_eq!(shape_origin(&text("added")), Ok(ShapeOrigin::Added));
    assert_eq!(shape_origin(&text("Added")), Err(invalid("invalid shape origin")));
    assert_eq!(shape_origin(&Field::Absent), Err(invalid("missing origin")));
    let (_, sheets) = glue_world();
    assert_eq!(
        original_shape_ids(&sheets),
        Ok(vec!["t".to_string(), "u".to_string(), "o".to_string()])
    );
    let mut with_odd = sheets.clone();
    with_odd.entries.push(SheetEntry { key: "x".to_string(), shape: None });
    with_odd.entries.push(placed("y", "p1", "copied"));
    assert_eq!(original_shape_ids(&with_odd), Err(invalid("invalid shape origin")));
}
