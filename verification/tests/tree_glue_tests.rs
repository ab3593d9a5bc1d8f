use vsdx_edit::connect::{GlueEndpoint, GlueRecord};
use vsdx_edit::model::ShapeTreeGlue;
use vsdx_edit::tree_glue::{subtree_glue_of, PackageConnect};

fn record(connector: &str, endpoint: GlueEndpoint, target: &str, page: &str) -> GlueRecord {
    let name = match endpoint {
        GlueEndpoint::Begin => "begin",
        GlueEndpoint::End => "end",
    };
    GlueRecord {
        id: format!("{connector}:{name}"),
        page_id: page.to_owned(),
        connector_id: connector.to_owned(),
        endpoint,
        target_id: target.to_owned(),
        to_cell: "PinX".to_owned(),
    }
}

fn glue(connector: &str, endpoint: &str, target: &str, to_cell: &str) -> ShapeTreeGlue {
    ShapeTreeGlue {
        connector_source: connector.to_owned(),
        endpoint: endpoint.to_owned(),
        target_source: target.to_owned(),
        to_cell: to_cell.to_owned(),
    }
}

fn connect(from: u32, from_cell: &str, to: u32, to_cell: Option<&str>) -> PackageConnect {
    PackageConnect {
        from_sheet: from,
        to_sheet: to,
        from_cell: Some(from_cell.to_owned()),
        to_cell: to_cell.map(str::to_owned),
    }
}

#[test]
fn subtree_glue_keeps_inner_glue_sorted_by_connector() {
    let members = vec!["c".to_owned(), "a".to_owned(), "b".to_owned()];
    let records = vec![
        record("c", GlueEndpoint::End, "a", "page:1"),
        record("c", GlueEndpoint::Begin, "z", "page:1"),
        record("b", GlueEndpoint::Begin, "a", "page:2"),
    ];
    let by_source = vec![(1, "a".to_owned()), (2, "b".to_owned()), (3, "c".to_owned())];
    let connects = vec![
        connect(3, "EndX", 2, None),
        connect(2, "BeginX", 1, Some("Connections.X2")),
        connect(2, "EndX", 9, None),
        connect(1, "PinX", 2, None),
        connect(1, "BeginX", 3, Some("Width")),
    ];
    assert_eq!(
        subtree_glue_of(&records, "page:1", &members, &connects, &by_source),
        vec![glue("b", "begin", "a", "Connections.X2"), glue("c", "end", "a", "PinX")]
    );
}

use vsdx_edit::model::EditError;
use vsdx_edit::shape_tree::{Field, ShapeRecord, SheetEntry, Sheets};
use vsdx_edit::subtree::subtree_glue;

fn sheet(key: &str, children: &[&str], parent: Option<&str>, origin: &str) -> SheetEntry {
    SheetEntry {
        key: key.to_owned(),
        shape: Some(ShapeRecord {
            children: Some(children.iter().map(|c| Some(c.to_string())).collect()),
            parent_id: parent.map_or(Field::Absent, |p| Field::Text(p.to_owned())),
            page_id: Field::Text("page:1".to_owned()),
            origin: Field::Text(origin.to_owned()),
        }),
    }
}

#[test]
fn subtree_glue_walks_the_subtree_and_reads_its_connects() {
    let sheets = Sheets {
        entries: vec![
            sheet("g", &["a", "b"], None, "original"),
            sheet("a", &[], Some("g"), "original"),
            sheet("b", &[], Some("g"), "added"),
            sheet("x", &[], None, "original"),
        ],
    };
    let sources = vec![Some(1), Some(2), Some(3), Some(4)];
    let pages = vec![("page:1".to_owned(), true)];
    let connects = vec![connect(2, "BeginX", 1, None), connect(2, "EndX", 4, None), connect(3, "EndX", 1, None)];
    assert_eq!(
        subtree_glue(&pages, &sheets, &sources, None, "page:1", "g", &connects),
        Ok(vec![glue("a", "begin", "g", "PinX")])
    );
    assert_eq!(
        subtree_glue(&pages, &sheets, &sources, None, "page:2", "g", &connects),
        Err(EditError::PageNotFound("page:2".to_owned()))
    );
    assert_eq!(
        subtree_glue(&pages, &sheets, &sources, None, "page:1", "zz", &connects),
        Err(EditError::ShapeNotFound("zz".to_owned()))
    );
}
