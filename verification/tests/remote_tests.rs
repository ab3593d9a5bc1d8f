use vsdx_edit::model::EditError;
use vsdx_edit::policy::GeometryRow;
use vsdx_edit::remote::{
    check_added_masters, validate_session_topology, CellTopology, PageTopology, ShapeTopology,
    TopologyView,
};
use vsdx_edit::shape_tree::Field;
use vsdx_edit::route::{plan_route_rows, RouteCell};

fn row(row_type: Option<&str>, has_x: bool, has_y: bool) -> GeometryRow {
    GeometryRow { row_type: row_type.map(str::to_owned), has_x, has_y }
}

fn cell(point: usize, row: u32, x: bool, row_type: &str) -> RouteCell {
    RouteCell { point, row, x, row_type: row_type.to_owned() }
}

#[test]
fn added_shapes_with_known_masters_pass() {
    assert_eq!(check_added_masters(&[], &[]), Ok(()));
    assert_eq!(
        check_added_masters(&[("shape:a".to_owned(), 2), ("shape:b".to_owned(), 7)], &[7, 2]),
        Ok(())
    );
}

#[test]
fn the_first_shape_with_an_unknown_master_is_named() {
    assert_eq!(
        check_added_masters(
            &[
                ("shape:a".to_owned(), 2),
                ("shape:b".to_owned(), 9),
                ("shape:c".to_owned(), 11),
            ],
            &[2, 3]
        ),
        Err(EditError::InvalidState(
            "remote update adds shape shape:b with unknown master 9".to_owned()
        ))
    );
}

#[test]
fn route_rows_follow_the_filed_rows_then_count_up() {
    assert_eq!(
        plan_route_rows(&[], 3),
        Ok(vec![
            cell(0, 0, true, "MoveTo"),
            cell(0, 0, false, "MoveTo"),
            cell(1, 1, true, "LineTo"),
            cell(1, 1, false, "LineTo"),
            cell(2, 2, true, "LineTo"),
            cell(2, 2, false, "LineTo"),
        ])
    );
    assert_eq!(
        plan_route_rows(&[(3, row(None, true, false))], 2),
        Ok(vec![
            cell(0, 3, true, "MoveTo"),
            cell(0, 3, false, "MoveTo"),
            cell(1, 4, true, "LineTo"),
            cell(1, 4, false, "LineTo"),
        ])
    );
}

#[test]
fn surplus_route_rows_collapse_onto_the_last_point() {
    let filed = [
        (1, row(Some("MoveTo"), true, true)),
        (2, row(Some("LineTo"), true, true)),
        (4, row(Some("LineTo"), true, false)),
    ];
    assert_eq!(
        plan_route_rows(&filed, 2),
        Ok(vec![
            cell(0, 1, true, "MoveTo"),
            cell(0, 1, false, "MoveTo"),
            cell(1, 2, true, "LineTo"),
            cell(1, 2, false, "LineTo"),
            cell(1, 4, true, "LineTo"),
        ])
    );
}

#[test]
fn a_curved_geometry_refuses_the_route() {
    assert_eq!(
        plan_route_rows(&[(1, row(Some("LineTo"), true, true))], 2),
        Err(EditError::InvalidState(
            "connector Geometry is not a single straight run".to_owned()
        ))
    );
    assert_eq!(
        plan_route_rows(
            &[(1, row(Some("MoveTo"), true, true)), (2, row(Some("ArcTo"), true, true))],
            3
        ),
        Err(EditError::InvalidState(
            "connector Geometry is not a single straight run".to_owned()
        ))
    );
}

fn view() -> TopologyView {
    TopologyView {
        before_order: true,
        staged_order: true,
        orders_differ: false,
        before_page_count: Some(1),
        staged_page_count: Some(1),
        pages: vec![PageTopology {
            key: "page:1".to_owned(),
            is_map: true,
            staged_is_map: true,
            changed: vec![false, false, false],
        }],
        before_sheets: true,
        staged_sheets: true,
        added: vec![Some(Field::Text("added".to_owned()))],
        kept: vec![ShapeTopology {
            changed: vec![false; 9],
            order_removed: false,
            cells: Some(vec![CellTopology {
                key: "PinX".to_owned(),
                is_map: true,
                staged_is_map: true,
                row_type_changed: false,
                value_changed: false,
                baseline_changed: false,
            }]),
            staged_has_cells: true,
        }],
    }
}

#[test]
fn an_update_that_keeps_the_topology_passes() {
    assert_eq!(validate_session_topology(&view()), Ok(()));
}

#[test]
fn updates_that_change_fixed_fields_are_refused() {
    let mut moved_page = view();
    moved_page.pages[0].changed[1] = true;
    assert_eq!(
        validate_session_topology(&moved_page),
        Err(EditError::InvalidState("remote update changes immutable page sourcePartPath".to_owned()))
    );
    let mut fewer_pages = view();
    fewer_pages.staged_page_count = Some(0);
    assert_eq!(
        validate_session_topology(&fewer_pages),
        Err(EditError::InvalidState("remote update changes immutable page topology".to_owned()))
    );
    let mut original = view();
    original.added = vec![Some(Field::Text("original".to_owned()))];
    assert_eq!(
        validate_session_topology(&original),
        Err(EditError::InvalidState("remote update adds a shape with original identity".to_owned()))
    );
    let mut remastered = view();
    remastered.kept[0].changed[5] = true;
    remastered.kept[0].changed[8] = true;
    assert_eq!(
        validate_session_topology(&remastered),
        Err(EditError::InvalidState("remote update changes immutable shape master".to_owned()))
    );
    let mut cached = view();
    cached.kept[0].cells.as_mut().unwrap()[0].value_changed = true;
    assert_eq!(
        validate_session_topology(&cached),
        Err(EditError::InvalidState("remote update changes untrusted cached cell value".to_owned()))
    );
    let mut dropped = view();
    dropped.kept[0].cells.as_mut().unwrap()[0].staged_is_map = false;
    assert_eq!(validate_session_topology(&dropped), Err(EditError::PageNotFound("PinX".to_owned())));
}
