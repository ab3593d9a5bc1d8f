use vsdx_edit::deletes::{plan_deletes, DeleteStep};
use vsdx_edit::model::{EditError, ShapeDelete, ShapeReceipt};
use vsdx_edit::shape_tree::{Field, PageRecord, ShapeRecord, SheetEntry, Sheets};

fn ids(list: &[&str]) -> Vec<Option<String>> {
    list.iter().map(|id| Some(id.to_string())).collect()
}

fn shape(key: &str, children: &[&str], parent: Option<&str>) -> SheetEntry {
    SheetEntry {
        key: key.to_string(),
        shape: Some(ShapeRecord {
            children: Some(ids(children)),
            parent_id: parent.map_or(Field::Absent, |p| Field::Text(p.to_string())),
            page_id: Field::Text("page:1".to_string()),
            origin: Field::Text("original".to_string()),
        }),
    }
}

fn sheets() -> Sheets {
    Sheets { entries: vec![shape("a", &[], None), shape("b", &["c"], None), shape("c", &[], Some("b"))] }
}

fn pages() -> Vec<(String, Option<PageRecord>)> {
    vec![(
        "page:1".to_string(),
        Some(PageRecord { shapes: Some(ids(&["a", "b"])), id: Field::Text("page:1".to_string()) }),
    )]
}

fn request(shape: &str) -> ShapeDelete {
    ShapeDelete { page_id: "page:1".to_string(), shape_id: shape.to_string() }
}

fn receipt(shape: &str, from: u32) -> ShapeReceipt {
    ShapeReceipt { page_id: "page:1".to_string(), shape_id: shape.to_string(), from_index: Some(from), to_index: None }
}

#[test]
fn deletions_run_furthest_first_and_take_subtrees() {
    let deletes = vec![request("a"), request("c"), request("b")];
    let plan = plan_deletes(&pages(), &sheets(), &deletes, &[None, None, None]).unwrap();
    assert_eq!(
        plan.steps,
        vec![
            DeleteStep {
                page_id: "page:1".to_string(),
                shape_id: "b".to_string(),
                parent_id: None,
                from_index: 1,
                removed: vec!["b".to_string(), "c".to_string()],
            },
            DeleteStep {
                page_id: "page:1".to_string(),
                shape_id: "a".to_string(),
                parent_id: None,
                from_index: 0,
                removed: vec!["a".to_string()],
            },
        ]
    );
    assert_eq!(plan.receipts, vec![receipt("a", 0), receipt("b", 1)]);
}

#[test]
fn a_nested_shape_is_deleted_from_its_parents_order() {
    let plan = plan_deletes(&pages(), &sheets(), &[request("c")], &[None]).unwrap();
    assert_eq!(plan.steps[0].parent_id, Some("b".to_string()));
    assert_eq!(plan.steps[0].from_index, 0);
    assert_eq!(plan.receipts, vec![receipt("c", 0)]);
    assert_eq!(plan_deletes(&pages(), &sheets(), &[], &[]).unwrap().steps, vec![]);
}

#[test]
fn a_missing_shape_or_a_refusal_fails_the_whole_batch() {
    assert_eq!(
        plan_deletes(&pages(), &sheets(), &[request("a"), request("z")], &[None, None]),
        Err(EditError::ShapeNotFound("z".to_string()))
    );
    assert_eq!(
        plan_deletes(
            &pages(),
            &sheets(),
            &[ShapeDelete { page_id: "page:7".to_string(), shape_id: "a".to_string() }],
            &[None]
        ),
        Err(EditError::PageNotFound("page:7".to_string()))
    );
    assert_eq!(
        plan_deletes(&pages(), &sheets(), &[request("a"), request("b")], &[None, Some("shape is locked against deletion".to_string())]),
        Err(EditError::InvalidState("shape is locked against deletion".to_string()))
    );
}
