use vsdx_edit::cell_records::{CellRecord, Whole};
use vsdx_edit::model::{CellRow, EditError};
use vsdx_edit::shape_tree::Field;
use vsdx_edit::snapshot::{snapshot_cells, SnapshotCellSource};

fn text(value: &str) -> Field {
    Field::Text(value.to_string())
}

fn record(section: Option<&str>, row: Option<u32>, name: &str) -> CellRecord {
    CellRecord {
        section: section.map_or(Field::Absent, text),
        row_name: Field::Absent,
        row_type: Field::Absent,
        row_index: row.map_or(Whole::Absent, Whole::Value),
        section_index: Whole::Absent,
        name: text(name),
    }
}

fn source(record: CellRecord, formula: Option<&str>, baseline: Option<&str>, value: Option<&str>, evaluated: Option<&str>) -> SnapshotCellSource {
    SnapshotCellSource {
        record: Some(record),
        formula: formula.map(str::to_owned),
        baseline: baseline.map(str::to_owned),
        value: value.map(str::to_owned),
        evaluated: evaluated.map(str::to_owned),
    }
}

#[test]
fn snapshot_cells_are_sorted_and_keep_baseline_values() {
    let cells = vec![
        source(record(Some("Geometry"), Some(2), "X"), Some("1"), Some("1"), Some("1"), None),
        source(record(None, None, "Width"), Some("2 in"), Some("1 in"), Some("1"), Some("2")),
        source(record(None, None, "PinX"), Some("Width*0.5"), Some("Width*0.5"), Some("0.5"), None),
        source(record(Some("Geometry"), Some(1), "Y"), None, None, Some("4"), None),
    ];
    let snapshots = snapshot_cells(&cells, 1, 7).unwrap();
    let names: Vec<&str> = snapshots.iter().map(|cell| cell.name.as_str()).collect();
    assert_eq!(names, vec!["PinX", "Width", "Y", "X"]);
    assert_eq!(snapshots[0].value.as_deref(), Some("0.5"));
    assert_eq!(snapshots[1].value.as_deref(), Some("2"));
    assert_eq!(snapshots[2].value.as_deref(), Some("4"));
    assert_eq!(snapshots[3].locator.row, Some(CellRow::Index(2)));
    assert_eq!(snapshots[3].locator.shape_id, Some(7));
}

#[test]
fn a_cell_that_is_not_a_map_fails_the_snapshot() {
    let cells = vec![SnapshotCellSource { record: None, formula: None, baseline: None, value: None, evaluated: None }];
    assert_eq!(snapshot_cells(&cells, 1, 7), Err(EditError::InvalidState("cell is not a map".to_owned())));
}

use vsdx_edit::shape_tree::{ShapeRecord, SheetEntry, Sheets};
use vsdx_edit::snapshot::{snapshot_shape, SnapshotDetails};

fn entry(key: &str, children: Option<&[&str]>) -> SheetEntry {
    SheetEntry {
        key: key.to_owned(),
        shape: Some(ShapeRecord {
            children: children.map(|list| list.iter().map(|c| Some(c.to_string())).collect()),
            parent_id: Field::Absent,
            page_id: Field::Text("page:1".to_owned()),
            origin: Field::Text("original".to_owned()),
        }),
    }
}

fn details(source: u32, cells: Vec<SnapshotCellSource>) -> SnapshotDetails {
    SnapshotDetails {
        source_number: Some(source),
        master: Whole::Absent,
        name: None,
        cells: Some(cells),
        references: None,
        copy_source_id: Whole::Absent,
        copy_source_page_id: Whole::Value(3),
        copy_refusal: None,
    }
}

#[test]
fn a_shape_snapshot_holds_its_children_in_order() {
    let sheets = Sheets { entries: vec![entry("g", Some(&["a", "b"])), entry("a", None), entry("b", Some(&[]))] };
    let all = vec![
        details(1, vec![source(record(None, None, "PinX"), Some("1"), Some("1"), Some("1"), None)]),
        details(2, vec![]),
        details(3, vec![]),
    ];
    let snapshot = snapshot_shape(&sheets, &all, &vec![("b".to_owned(), 9)], 1, "g", 1).unwrap();
    assert_eq!(snapshot.source_id, 1);
    assert_eq!(snapshot.copy_source_page_id, Some(3));
    assert_eq!(snapshot.cells.len(), 1);
    assert_eq!(snapshot.children.iter().map(|c| c.id.as_str()).collect::<Vec<_>>(), vec!["a", "b"]);
    assert_eq!(snapshot.children[1].source_id, 9);
    let mut broken = all.clone();
    broken[2].source_number = None;
    assert_eq!(
        snapshot_shape(&sheets, &broken, &vec![], 1, "g", 1).unwrap_err(),
        EditError::InvalidState("missing source ID".to_owned())
    );
    assert_eq!(
        snapshot_shape(&sheets, &all, &vec![], 1, "zz", 1).unwrap_err(),
        EditError::PageNotFound("zz".to_owned())
    );
}
