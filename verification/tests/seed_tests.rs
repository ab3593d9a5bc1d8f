use vsdx_edit::content::ShapeContent;
use vsdx_edit::model::{CellLocator, CellRow, CellSheet, EditError};
use vsdx_edit::seed::{seed_entries, ResolvedCell, ResolvedRow, ResolvedSection, SeedCell, SeedShape};

fn found(name: &str, formula: &str) -> ResolvedCell {
    ResolvedCell { name: name.to_owned(), found: Some((Some(formula.to_owned()), Some("1".to_owned()))) }
}

fn locator(section: Option<&str>, row: Option<CellRow>, name: &str) -> CellLocator {
    CellLocator {
        sheet: CellSheet::Page(0),
        shape_id: Some(4),
        section: section.map(str::to_owned),
        section_index: None,
        row,
        cell_name: name.to_owned(),
    }
}

#[test]
fn seeding_a_shape_lists_its_found_cells_and_children() {
    let shape = SeedShape {
        source_id: 4,
        master: Some(2),
        name: Some("Box".to_owned()),
        content: vec![ShapeContent::ForeignData],
        children: vec![5, 6],
    };
    let cells = vec![found("PinX", "1 in"), ResolvedCell { name: "PinY".to_owned(), found: None }];
    let sections = vec![ResolvedSection {
        name: "Geometry".to_owned(),
        index: None,
        key: "Geometry".to_owned(),
        rows: vec![
            ResolvedRow { key: "IX:1".to_owned(), row_type: Some("LineTo".to_owned()), cells: vec![found("X", "0")] },
            ResolvedRow { key: "N:Row_1".to_owned(), row_type: None, cells: vec![found("Y", "2")] },
            ResolvedRow { key: "Q".to_owned(), row_type: None, cells: vec![found("Z", "3")] },
        ],
    }];
    let plan = seed_entries("page:1:shape:4", "page:1", None, &shape, &cells, &sections, "hello", 1).unwrap();
    assert_eq!(plan.master, Some(2));
    assert_eq!(plan.copy_refusal.as_deref(), Some("embedded media"));
    assert_eq!(plan.child_ids, vec!["page:1:shape:4:shape:5".to_owned(), "page:1:shape:4:shape:6".to_owned()]);
    assert_eq!(
        plan.cells,
        vec![
            SeedCell {
                key: "PinX".to_owned(),
                locator: locator(None, None, "PinX"),
                formula: Some("1 in".to_owned()),
                value: Some("1".to_owned()),
                row_type: None,
            },
            SeedCell {
                key: "Geometry\u{1f}IX:1\u{1f}X".to_owned(),
                locator: locator(Some("Geometry"), Some(CellRow::Index(1)), "X"),
                formula: Some("0".to_owned()),
                value: Some("1".to_owned()),
                row_type: Some("LineTo".to_owned()),
            },
            SeedCell {
                key: "Geometry\u{1f}N:Row_1\u{1f}Y".to_owned(),
                locator: locator(Some("Geometry"), Some(CellRow::Name("Row_1".to_owned())), "Y"),
                formula: Some("2".to_owned()),
                value: Some("1".to_owned()),
                row_type: None,
            },
        ]
    );
    assert_eq!(plan.text, "hello");
}

#[test]
fn seeding_refuses_shapes_nested_too_deep() {
    let shape = SeedShape { source_id: 1, master: None, name: None, content: vec![], children: vec![] };
    assert_eq!(
        seed_entries("s", "page:1", Some("p"), &shape, &vec![], &vec![], "", 257).unwrap_err(),
        EditError::InvalidState("shape nesting exceeds maximum depth".to_owned())
    );
}
