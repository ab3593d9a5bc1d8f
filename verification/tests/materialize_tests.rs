use std::collections::BTreeMap;

use vsdx_edit::materialize::{
    materialize_cell, CellPart, RowModel, RowPart, SectionModel, SectionPart, ShapeModel, ShapePart,
};
use vsdx_edit::model::{CellLocator, CellRow, CellSheet, CellSnapshot};

fn cell(name: &str, formula: Option<&str>) -> CellPart {
    CellPart {
        name: name.to_owned(),
        formula: formula.map(str::to_owned),
        value: None,
        unit: Some("IN".to_owned()),
        del: false,
    }
}

fn snapshot(section: Option<&str>, row: Option<CellRow>, name: &str, formula: &str) -> CellSnapshot {
    CellSnapshot {
        locator: CellLocator {
            sheet: CellSheet::Page(0),
            shape_id: Some(1),
            section: section.map(str::to_owned),
            section_index: None,
            row,
            cell_name: name.to_owned(),
        },
        row_type: Some("LineTo".to_owned()),
        name: name.to_owned(),
        formula: Some(formula.to_owned()),
        value: Some("2".to_owned()),
    }
}

fn shape() -> ShapeModel {
    ShapeModel {
        children: vec![
            ShapePart::Cell(cell("PinX", Some("1"))),
            ShapePart::Section(SectionModel {
                name: "Geometry".to_owned(),
                index: Some(0),
                del: false,
                children: vec![SectionPart::Row(RowModel {
                    index: Some(1),
                    name: None,
                    row_type: Some("MoveTo".to_owned()),
                    del: false,
                    children: vec![RowPart::Cell(cell("X", Some("0")))],
                })],
            }),
        ],
    }
}

#[test]
fn an_existing_cell_takes_the_new_formula_and_value() {
    let mut target = shape();
    let mut remap = BTreeMap::new();
    remap.insert(4, 9);
    materialize_cell(&mut target, &snapshot(None, None, "PinX", "Sheet.4!Width"), Some(&remap));
    let ShapePart::Cell(pin) = &target.children[0] else { panic!("cell expected") };
    assert_eq!(pin.formula.as_deref(), Some("Sheet.9!Width"));
    assert_eq!(pin.value.as_deref(), Some("2"));
    assert_eq!(pin.unit.as_deref(), Some("IN"));
    materialize_cell(&mut target, &snapshot(Some("Geometry"), Some(CellRow::Index(1)), "X", "5"), None);
    let ShapePart::Section(geometry) = &target.children[1] else { panic!("section expected") };
    let SectionPart::Row(row) = &geometry.children[0] else { panic!("row expected") };
    assert_eq!(row.children, vec![RowPart::Cell(CellPart { formula: Some("5".to_owned()), value: Some("2".to_owned()), ..cell("X", None) })]);
}

#[test]
fn missing_cells_rows_and_sections_are_added() {
    let mut target = shape();
    materialize_cell(&mut target, &snapshot(None, None, "Width", "3"), None);
    assert_eq!(target.children.len(), 3);
    materialize_cell(&mut target, &snapshot(Some("Geometry"), Some(CellRow::Index(1)), "Y", "4"), None);
    materialize_cell(&mut target, &snapshot(Some("Geometry"), Some(CellRow::Index(2)), "X", "6"), None);
    let ShapePart::Section(geometry) = &target.children[1] else { panic!("section expected") };
    assert_eq!(geometry.children.len(), 2);
    let SectionPart::Row(first) = &geometry.children[0] else { panic!("row expected") };
    assert_eq!(first.children.len(), 2);
    let SectionPart::Row(second) = &geometry.children[1] else { panic!("row expected") };
    assert_eq!(second.index, Some(2));
    assert_eq!(second.row_type.as_deref(), Some("LineTo"));
    materialize_cell(&mut target, &snapshot(Some("Property"), Some(CellRow::Name("Cost".to_owned())), "Value", "7"), None);
    let ShapePart::Section(property) = &target.children[3] else { panic!("section expected") };
    assert_eq!(property.name, "Property");
    let SectionPart::Row(row) = &property.children[0] else { panic!("row expected") };
    assert_eq!(row.name.as_deref(), Some("Cost"));
    let before = target.clone();
    materialize_cell(&mut target, &snapshot(Some("Geometry"), None, "X", "8"), None);
    assert_eq!(target, before);
}
