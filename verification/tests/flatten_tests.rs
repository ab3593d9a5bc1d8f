use vsdx_edit::flatten::flatten_tree_draft;
use vsdx_edit::model::{EditError, ParseLimits, ShapeTreeDraft, ShapeTreeGlue};

const LIMITS: ParseLimits = ParseLimits { max_attribute_bytes: 1024, max_xml_text_bytes: 1024 };

fn node(source: &str, children: Vec<ShapeTreeDraft>) -> ShapeTreeDraft {
    ShapeTreeDraft {
        name: None,
        cells: Vec::new(),
        text: String::new(),
        copy_source_id: None,
        copy_source_page_id: None,
        source_shape_id: Some(source.to_owned()),
        source_id: None,
        copy_refusal: None,
        glue: Vec::new(),
        children,
    }
}

fn invalid(message: &str) -> EditError {
    EditError::InvalidState(message.to_owned())
}

#[test]
fn a_draft_flattens_in_pre_order() {
    let draft = node("g", vec![node("a", vec![node("a1", vec![])]), node("b", vec![])]);
    let nodes = flatten_tree_draft(&draft, &LIMITS).unwrap();
    let sources: Vec<&str> = nodes.iter().map(|n| n.draft.source_shape_id.as_deref().unwrap()).collect();
    assert_eq!(sources, vec!["g", "a", "a1", "b"]);
    let parents: Vec<Option<usize>> = nodes.iter().map(|n| n.parent).collect();
    assert_eq!(parents, vec![None, Some(0), Some(1), Some(0)]);
}

#[test]
fn group_paste_refuses_a_source_named_twice() {
    let twice = node("g", vec![node("a", vec![]), node("a", vec![])]);
    assert_eq!(
        flatten_tree_draft(&twice, &LIMITS).err(),
        Some(invalid("paste draft references its copy source twice"))
    );
    let blank = node("g", vec![node("", vec![])]);
    assert_eq!(flatten_tree_draft(&blank, &LIMITS).err(), Some(invalid("paste draft is missing its copy source")));
    let mut glued_child = node("a", vec![]);
    glued_child.glue.push(ShapeTreeGlue {
        connector_source: "a".to_owned(),
        endpoint: "begin".to_owned(),
        target_source: "g".to_owned(),
        to_cell: "PinX".to_owned(),
    });
    let glued = node("g", vec![glued_child]);
    assert_eq!(flatten_tree_draft(&glued, &LIMITS).err(), Some(invalid("paste glue belongs on the copied root")));
}

#[test]
fn group_paste_refuses_drafts_nested_too_deep() {
    let mut draft = node("n0", vec![]);
    for i in 1..=256 {
        draft = node(&format!("n{i}"), vec![draft]);
    }
    assert_eq!(flatten_tree_draft(&draft, &LIMITS).err(), Some(invalid("shape nesting exceeds maximum depth")));
    let mut shallow = node("m0", vec![]);
    for i in 1..256 {
        shallow = node(&format!("m{i}"), vec![shallow]);
    }
    assert_eq!(flatten_tree_draft(&shallow, &LIMITS).unwrap().len(), 256);
}
