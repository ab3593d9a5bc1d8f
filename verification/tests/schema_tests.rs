use vsdx_edit::cell_records::{CellRecord, Whole};
use vsdx_edit::model::EditError;
use vsdx_edit::schema::{validate_schema, MetaRecord, SchemaCell, SchemaPage, ShapeDetails};
use vsdx_edit::shape_tree::{Field, PageRecord, ShapeRecord, SheetEntry, Sheets};

fn text(value: &str) -> Field {
    Field::Text(value.to_string())
}

fn invalid(message: &str) -> EditError {
    EditError::InvalidState(message.to_string())
}

const META: MetaRecord =
    MetaRecord { schema_version_matches: true, fingerprint: true, package_json: true };

fn sheets() -> Sheets {
    let shape = |key: &str, children: Option<Vec<Option<String>>>, parent: Field| SheetEntry {
        key: key.to_string(),
        shape: Some(ShapeRecord {
            children,
            parent_id: parent,
            page_id: text("page:0"),
            origin: text("original"),
        }),
    };
    Sheets {
        entries: vec![
            shape("shape:1", Some(vec![Some("shape:2".to_string())]), Field::Absent),
            shape("shape:2", None, text("shape:1")),
        ],
    }
}

fn pin_x() -> SchemaCell {
    SchemaCell {
        key: "PinX".to_string(),
        record: Some(CellRecord {
            section: Field::Absent,
            row_name: Field::Absent,
            row_type: Field::Absent,
            row_index: Whole::Absent,
            section_index: Whole::Absent,
            name: text("PinX"),
        }),
        section_key: String::new(),
        formula: text("1 in"),
        value: Field::Absent,
    }
}

fn geometry_x() -> SchemaCell {
    SchemaCell {
        key: "Geometry\u{1f}IX:2\u{1f}X".to_string(),
        record: Some(CellRecord {
            section: text("Geometry"),
            row_name: Field::Absent,
            row_type: text("LineTo"),
            row_index: Whole::Value(2),
            section_index: Whole::Absent,
            name: text("X"),
        }),
        section_key: "Geometry".to_string(),
        formula: Field::Absent,
        value: text("0"),
    }
}

fn details(id: &str, cells: Vec<SchemaCell>) -> ShapeDetails {
    ShapeDetails {
        id: text(id),
        source_id: Whole::Value(1),
        copy_refusal: Field::Absent,
        copy_source_id: Whole::Absent,
        copy_source_page_id: Whole::Absent,
        cells: Some(cells),
    }
}

fn pages() -> Vec<(String, Option<SchemaPage>)> {
    vec![(
        "page:0".to_string(),
        Some(SchemaPage {
            record: PageRecord { shapes: Some(vec![Some("shape:1".to_string())]), id: text("page:0") },
            source_part_path: text("visio/pages/page1.xml"),
            max_source_id: Whole::Value(2),
        }),
    )]
}

fn check(details: &Vec<ShapeDetails>, pages: &Vec<(String, Option<SchemaPage>)>) -> Result<(), EditError> {
    let order = vec![Some("page:0".to_string())];
    let stories = vec![("shape:2".to_string(), true)];
    validate_schema(Some(&META), Some(&order), Some(pages), Some(&sheets()), details, None, Some(&stories))
}

#[test]
fn a_sound_document_passes_the_schema_check() {
    let details = vec![details("shape:1", vec![pin_x()]), details("shape:2", vec![geometry_x()])];
    assert_eq!(check(&details, &pages()), Ok(()));
}

#[test]
fn schema_check_refuses_missing_roots_and_metadata() {
    let details = vec![details("shape:1", vec![]), details("shape:2", vec![])];
    let order = vec![Some("page:0".to_string())];
    let stories = vec![];
    let old = MetaRecord { schema_version_matches: false, ..META };
    assert_eq!(
        validate_schema(Some(&old), Some(&order), Some(&pages()), Some(&sheets()), &details, None, Some(&stories)),
        Err(invalid("unsupported diagram schema version"))
    );
    let bare = MetaRecord { package_json: false, ..META };
    assert_eq!(
        validate_schema(Some(&bare), Some(&order), Some(&pages()), Some(&sheets()), &details, None, Some(&stories)),
        Err(invalid("missing diagram metadata packageJson"))
    );
    assert_eq!(
        validate_schema(Some(&META), Some(&order), Some(&pages()), Some(&sheets()), &details, None, None),
        Err(invalid("missing vsdx:stories map"))
    );
}

#[test]
fn schema_check_refuses_mismatched_cells_and_shapes() {
    let mut moved = geometry_x();
    moved.key = "Geometry\u{1f}IX:3\u{1f}X".to_string();
    let details_bad_key = vec![details("shape:1", vec![]), details("shape:2", vec![moved])];
    assert_eq!(check(&details_bad_key, &pages()), Err(invalid("cell locator does not match map key")));
    let mut refused = details("shape:1", vec![]);
    refused.copy_refusal = text("");
    let details_refusal = vec![refused, details("shape:2", vec![])];
    assert_eq!(
        check(&details_refusal, &pages()),
        Err(invalid("shape copy refusal is not a non-empty string"))
    );
    let details_wrong_id = vec![details("shape:1", vec![]), details("shape:9", vec![])];
    assert_eq!(check(&details_wrong_id, &pages()), Err(invalid("shape ID does not match map key")));
}

#[test]
fn schema_check_refuses_unattached_shapes_and_bad_pages() {
    let details = vec![details("shape:1", vec![]), details("shape:2", vec![])];
    let mut lone = pages();
    lone[0].1.as_mut().unwrap().record.shapes = Some(vec![]);
    assert_eq!(check(&details, &lone), Err(invalid("shape is not reachable from a page shape order")));
    let mut unbounded = pages();
    unbounded[0].1.as_mut().unwrap().max_source_id = Whole::Absent;
    assert_eq!(check(&details, &unbounded), Err(invalid("missing page source ID bound")));
    let order = vec![Some("page:7".to_string())];
    let stories = vec![];
    assert_eq!(
        validate_schema(Some(&META), Some(&order), Some(&pages()), Some(&sheets()), &details, None, Some(&stories)),
        Err(EditError::PageNotFound("page:7".to_string()))
    );
}
