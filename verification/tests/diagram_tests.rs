use vsdx_edit::connect::{
    connection_row, glue_key, glue_text_valid, page_glue, snapshot_shape_sources, valid_glue_target,
    GlueEndpoint, GlueRecord, PageGlue,
};
use vsdx_edit::containers::{ancestors, require_container, source_of, transitive_members, Membership};
use vsdx_edit::model::{EditError, PageSnapshot, ShapeSnapshot};

#[test]
fn endpoints_read_back_their_names() {
    for endpoint in [GlueEndpoint::Begin, GlueEndpoint::End] {
        assert_eq!(GlueEndpoint::parse(endpoint.name()), Some(endpoint));
    }
    assert_eq!(GlueEndpoint::Begin.name(), "begin");
    assert_eq!(GlueEndpoint::End.endpoint_cell(), "EndX");
    assert_eq!(GlueEndpoint::Begin.endpoint_cell(), "BeginX");
    assert_eq!(GlueEndpoint::parse("Begin"), None);
    assert_eq!(GlueEndpoint::parse(""), None);
}

#[test]
fn glue_keys_join_connector_and_endpoint() {
    assert_eq!(glue_key("page:1:shape:3", GlueEndpoint::End), "page:1:shape:3:end");
    assert_eq!(glue_key("c", GlueEndpoint::Begin), "c:begin");
    assert_ne!(glue_key("a", GlueEndpoint::End), glue_key("a", GlueEndpoint::Begin));
}

#[test]
fn connection_rows_count_from_one() {
    assert_eq!(connection_row("Connections.X1"), Some(0));
    assert_eq!(connection_row("Connections.X12"), Some(11));
    assert_eq!(connection_row("Connections.X+2"), Some(1));
    assert_eq!(connection_row("Connections.X0"), None);
    assert_eq!(connection_row("Connections.X"), None);
    assert_eq!(connection_row("Connections.Xa"), None);
    assert_eq!(connection_row("Connections.Y1"), None);
    assert_eq!(connection_row("Connections.X4294967296"), None);
}

#[test]
fn glue_targets() {
    assert!(valid_glue_target("PinX"));
    assert!(valid_glue_target("PinY"));
    assert!(valid_glue_target("Connections.X2"));
    assert!(!valid_glue_target("Connections.X0"));
    assert!(!valid_glue_target("Width"));
}

#[test]
fn glue_text_is_nonempty_bounded_xml_text() {
    assert!(!glue_text_valid("", 10));
    assert!(!glue_text_valid("abc", 2));
    assert!(!glue_text_valid("a\u{0}b", 10));
    assert!(glue_text_valid("ok", 2));
    assert!(!glue_text_valid("é", 1));
    assert!(glue_text_valid("é", 2));
    assert!(glue_text_valid("\t\r\n", 3));
    assert!(!glue_text_valid("\u{fffe}", 10));
}

fn shape(id: &str, source_id: u32, children: Vec<ShapeSnapshot>) -> ShapeSnapshot {
    ShapeSnapshot {
        id: id.to_owned(),
        source_id,
        name: None,
        master: None,
        cells: Vec::new(),
        children,
        copy_source_id: None,
        copy_source_page_id: None,
        copy_refusal: None,
    }
}

fn page() -> PageSnapshot {
    PageSnapshot {
        id: "page:1".to_owned(),
        source_part_path: "visio/pages/page1.xml".to_owned(),
        name: None,
        shapes: vec![shape("a", 1, vec![shape("b", 2, Vec::new())]), shape("c", 3, Vec::new())],
    }
}

#[test]
fn snapshot_sources_walk_last_shape_first_and_children_after_parents() {
    assert_eq!(
        snapshot_shape_sources(&page()),
        vec![("c".to_owned(), 3), ("a".to_owned(), 1), ("b".to_owned(), 2)]
    );
}

fn record(id: &str, page_id: &str, connector: &str, endpoint: GlueEndpoint, target: &str, to_cell: &str) -> GlueRecord {
    GlueRecord {
        id: id.to_owned(),
        page_id: page_id.to_owned(),
        connector_id: connector.to_owned(),
        endpoint,
        target_id: target.to_owned(),
        to_cell: to_cell.to_owned(),
    }
}

#[test]
fn glue_projects_through_the_last_source_of_each_shape() {
    let glue = record("c:begin", "page:1", "c", GlueEndpoint::Begin, "b", "PinX");
    let sources = vec![("c".to_owned(), 4), ("b".to_owned(), 5), ("c".to_owned(), 6)];
    assert_eq!(
        glue.project(&sources),
        Some(PageGlue { from_sheet: 6, from_cell: "BeginX", to_sheet: 5, to_cell: "PinX".to_owned() })
    );
    let dangling = record("c:end", "page:1", "c", GlueEndpoint::End, "gone", "PinX");
    assert_eq!(dangling.project(&sources), None);
}

#[test]
fn page_glue_keeps_the_page_and_drops_orphans() {
    let glue = vec![
        record("c:begin", "page:1", "c", GlueEndpoint::Begin, "a", "Connections.X1"),
        record("c:end", "page:2", "c", GlueEndpoint::End, "a", "PinX"),
        record("x:end", "page:1", "x", GlueEndpoint::End, "b", "PinX"),
        record("b:end", "page:1", "b", GlueEndpoint::End, "c", "PinY"),
    ];
    assert_eq!(
        page_glue(&page(), &glue),
        vec![
            PageGlue { from_sheet: 3, from_cell: "BeginX", to_sheet: 1, to_cell: "Connections.X1".to_owned() },
            PageGlue { from_sheet: 2, from_cell: "EndX", to_sheet: 3, to_cell: "PinY".to_owned() },
        ]
    );
}

fn membership(containers: Vec<(u32, Vec<u32>)>) -> Membership {
    Membership {
        by_source: vec![
            (1, "page:1:shape:1".to_owned()),
            (2, "page:1:shape:2".to_owned()),
            (3, "page:1:shape:3".to_owned()),
        ],
        containers,
        structures: vec![(1, "Container".to_owned()), (2, "Shape".to_owned())],
    }
}

#[test]
fn transitive_members_follow_nested_containers() {
    let m = membership(vec![(10, vec![11, 12]), (12, vec![13])]);
    assert_eq!(transitive_members(&m, 10), vec![11, 12, 13]);
    assert_eq!(transitive_members(&m, 12), vec![13]);
    assert_eq!(transitive_members(&m, 13), Vec::<u32>::new());
}

#[test]
fn transitive_members_of_a_cycle_include_the_container() {
    let m = membership(vec![(20, vec![21]), (21, vec![20])]);
    assert_eq!(transitive_members(&m, 20), vec![20, 21]);
}

#[test]
fn ancestors_list_direct_owners_first() {
    let m = membership(vec![(10, vec![11, 12]), (12, vec![13])]);
    assert_eq!(ancestors(&m, 13), vec![12, 10]);
    assert_eq!(ancestors(&m, 11), vec![10]);
    assert_eq!(ancestors(&m, 10), Vec::<u32>::new());
    let shared = membership(vec![(1, vec![3]), (2, vec![3]), (5, vec![1, 2])]);
    assert_eq!(ancestors(&shared, 3), vec![1, 2, 5]);
    let cycle = membership(vec![(20, vec![21]), (21, vec![20])]);
    assert_eq!(ancestors(&cycle, 20), vec![21, 20]);
}

#[test]
fn ancestors_rank_by_the_depth_they_are_first_reached_at() {
    // 4 holds 1 directly, but the scan reaches it first through 2 and 9, one level deeper.
    let m = membership(vec![(1, vec![100]), (2, vec![100]), (4, vec![1, 9]), (9, vec![2])]);
    assert_eq!(ancestors(&m, 100), vec![1, 2, 9, 4]);
}

#[test]
fn shapes_are_found_by_session_id() {
    let m = membership(Vec::new());
    assert_eq!(source_of(&m, "page:1", "page:1:shape:2"), Ok(2));
    assert_eq!(
        source_of(&m, "page:1", "page:1:shape:9"),
        Err(EditError::ShapeNotFound("page:1:shape:9 on page:1".to_owned()))
    );
}

#[test]
fn only_declared_containers_are_containers() {
    let m = membership(Vec::new());
    assert_eq!(require_container(&m, 1), Ok(()));
    assert_eq!(
        require_container(&m, 2),
        Err(EditError::InvalidState("shape 2 is not a container".to_owned()))
    );
    assert_eq!(
        require_container(&m, 3),
        Err(EditError::InvalidState("shape 3 is not a container".to_owned()))
    );
}
