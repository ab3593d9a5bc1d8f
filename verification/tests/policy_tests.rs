use std::collections::BTreeMap;

use vsdx_edit::model::{CellLocator, CellRow, CellSheet, EditCtx, EditError, EditOrigin, MutationGesture, ShapeDataReceipt};
use vsdx_edit::policy::{
    gesture_for_cell, is_size_cell, lock_target, refusal_kind, route_row_index, session_page_number,
    shape_data_locator, shape_data_refusal, shape_data_type_refusal, shape_id_prefix, GeometryRow,
};
use vsdx_edit::sheet_refs::{remap_sheet_refs, sheet_ref_at, sheet_ref_spans};

#[test]
fn refusals_are_guards_or_locks() {
    assert_eq!(refusal_kind("GUARD protects the requested cell"), "guard");
    assert_eq!(refusal_kind("LockMoveX refuses moveX"), "lock");
    assert_eq!(refusal_kind("guard"), "lock");
}

#[test]
fn top_level_cells_name_their_gesture() {
    assert_eq!(gesture_for_cell("PinX"), MutationGesture::MoveX);
    assert_eq!(gesture_for_cell("PinY"), MutationGesture::MoveY);
    assert_eq!(gesture_for_cell("Width"), MutationGesture::ResizeWidth);
    assert_eq!(gesture_for_cell("Height"), MutationGesture::ResizeHeight);
    assert_eq!(gesture_for_cell("Angle"), MutationGesture::Rotate);
    assert_eq!(gesture_for_cell("pinx"), MutationGesture::CellEdit);
}

#[test]
fn locks_protect_their_cells() {
    assert_eq!(lock_target("LockMoveX"), Some("PinX"));
    assert_eq!(lock_target("LockAspect"), Some("Width"));
    assert_eq!(lock_target("LockTextEdit"), Some("Text"));
    assert_eq!(lock_target("LockFormat"), None);
    assert_eq!(lock_target("LockDelete"), None);
}

#[test]
fn size_cells_ignore_ascii_case() {
    assert!(is_size_cell("width"));
    assert!(is_size_cell("HEIGHT"));
    assert!(!is_size_cell("Widths"));
}

#[test]
fn typed_shape_data_rows() {
    assert_eq!(shape_data_type_refusal(Some(" = 5 ")), Some("date"));
    assert_eq!(shape_data_type_refusal(Some("6")), Some("duration"));
    assert_eq!(shape_data_type_refusal(Some("=7")), Some("currency"));
    assert_eq!(shape_data_type_refusal(Some("2")), None);
    assert_eq!(shape_data_type_refusal(None), None);
}

#[test]
fn shape_data_refusals_in_order() {
    assert_eq!(
        shape_data_refusal("  ", Some("5"), true, None).as_deref(),
        Some("a shape-data row cannot be set to an empty formula")
    );
    assert_eq!(
        shape_data_refusal("1", Some(" =5 "), true, None).as_deref(),
        Some("a date shape-data row keeps its typed value; editing it here would store text")
    );
    assert_eq!(
        shape_data_refusal("x", Some("2"), false, None).as_deref(),
        Some("a number shape-data row takes a numeric value")
    );
    assert_eq!(
        shape_data_refusal("3", Some("=2"), true, Some(false)).as_deref(),
        Some("a number shape-data row holding a formula is not editable as a value")
    );
    assert_eq!(shape_data_refusal("3", Some("2"), true, Some(true)), None);
    assert_eq!(shape_data_refusal("x", Some("0"), false, None), None);
    assert_eq!(shape_data_refusal("x", None, false, Some(false)), None);
}

#[test]
fn shape_ids_come_before_the_slash() {
    assert_eq!(shape_id_prefix("page:1:shape:2/PinX"), "page:1:shape:2");
    assert_eq!(shape_id_prefix("no-slash"), "no-slash");
    assert_eq!(shape_id_prefix("/PinX"), "");
}

#[test]
fn session_pages_are_numbered() {
    assert_eq!(session_page_number("page:12"), Ok(12));
    assert_eq!(session_page_number("page:+3"), Ok(3));
    assert_eq!(
        session_page_number("page:x"),
        Err(EditError::InvalidState("copy source is missing its page".to_owned()))
    );
    assert_eq!(
        session_page_number("pages:1"),
        Err(EditError::InvalidState("copy source is missing its page".to_owned()))
    );
}

#[test]
fn route_rows_reuse_filed_indices_then_append() {
    assert_eq!(route_row_index(&[4, 7], 1), 7);
    assert_eq!(route_row_index(&[4, 7], 3), 9);
    assert_eq!(route_row_index(&[], 5), 5);
    assert_eq!(route_row_index(&[u32::MAX], 2), u32::MAX);
}

#[test]
fn geometry_rows_answer_for_x_and_y() {
    let row = GeometryRow { row_type: Some("LineTo".to_owned()), has_x: true, has_y: false };
    assert!(row.has("X"));
    assert!(!row.has("Y"));
    assert!(!row.has("Z"));
}

#[test]
fn shape_data_values_live_in_the_property_section() {
    let locator = shape_data_locator(&CellRow::Name("Cost".to_owned()), Some(2));
    assert_eq!(
        locator,
        CellLocator {
            sheet: CellSheet::Page(0),
            shape_id: None,
            section: Some("Property".to_owned()),
            section_index: Some(2),
            row: Some(CellRow::Name("Cost".to_owned())),
            cell_name: "Value".to_owned(),
        }
    );
}

#[test]
fn local_contexts_and_refused_receipts() {
    let context = EditCtx::local("ada");
    assert_eq!(context.origin, EditOrigin::Local);
    assert_eq!(context.author, "ada");
    let receipt = ShapeDataReceipt {
        page_id: "page:1".to_owned(),
        shape_id: "page:1:shape:1".to_owned(),
        row_name: None,
        row_index: Some(0),
        section_index: None,
        before: None,
        after: None,
        refusal: Some("locked".to_owned()),
    };
    assert!(receipt.refused());
    assert!(!ShapeDataReceipt { refusal: None, ..receipt }.refused());
}

#[test]
fn sheet_references_outside_strings_are_found() {
    assert_eq!(
        sheet_ref_spans("=Sheet.12!PinX+\"Sheet.3!\"+sheet.4!Width"),
        vec![(7, 9, 12), (32, 33, 4)]
    );
    assert_eq!(sheet_ref_spans("=XSheet.1!PinX"), vec![]);
    assert_eq!(sheet_ref_spans("=Sheet.!PinX"), vec![]);
    assert_eq!(sheet_ref_spans("=\"a\"\"Sheet.1!\"&Sheet.2!A"), vec![(21, 22, 2)]);
}

#[test]
fn sheet_reference_offsets_count_bytes() {
    assert_eq!(sheet_ref_spans("=\"é\"&Sheet.5!PinX"), vec![(12, 13, 5)]);
}

#[test]
fn sheet_reference_at_a_position() {
    let chars: Vec<char> = "=Sheet.5!X".chars().collect();
    assert_eq!(sheet_ref_at(&chars, 1), Some((7, 8, 5)));
    assert_eq!(sheet_ref_at(&chars, 0), None);
    let glued: Vec<char> = "ASheet.5!X".chars().collect();
    assert_eq!(sheet_ref_at(&glued, 1), None);
}

#[test]
fn remapping_renumbers_only_mapped_references() {
    let mut remap = BTreeMap::new();
    remap.insert(5, 9);
    assert_eq!(
        remap_sheet_refs("=Sheet.5!PinX+Sheet.6!PinY+\"Sheet.5!\"", &remap),
        "=Sheet.9!PinX+Sheet.6!PinY+\"Sheet.5!\""
    );
    assert_eq!(remap_sheet_refs("=Sheet.6!PinX", &remap), "=Sheet.6!PinX");
    remap.insert(6, 1234);
    assert_eq!(remap_sheet_refs("sheet.6!A*Sheet.5!B", &remap), "sheet.1234!A*Sheet.9!B");
}

#[test]
fn references_of_a_remapped_formula_carry_the_new_ids() {
    let mut remap = BTreeMap::new();
    remap.insert(5, 123456);
    remap.insert(7, 0);
    let formula = "=Sheet.5!PinX+Sheet.007!Width*\"Sheet.5!\"+Sheet.8!A+SHEET.5!B";
    let before: Vec<u32> = sheet_ref_spans(formula).iter().map(|span| span.2).collect();
    assert_eq!(before, vec![5, 7, 8, 5]);
    let after = remap_sheet_refs(formula, &remap);
    let ids: Vec<u32> = sheet_ref_spans(&after).iter().map(|span| span.2).collect();
    assert_eq!(ids, vec![123456, 0, 8, 123456]);
}
