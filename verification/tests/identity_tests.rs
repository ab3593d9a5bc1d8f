use vsdx_edit::identity::{check_shape_identities, removed_shapes, ShapeIdentity};
use vsdx_edit::model::EditError;

fn identity(page: Option<&str>, parent: Option<&str>, origin: Option<&str>, source: Option<i64>) -> ShapeIdentity {
    ShapeIdentity {
        page_id: page.map(str::to_owned),
        parent_id: parent.map(str::to_owned),
        origin: origin.map(str::to_owned),
        source_id: source,
    }
}

fn package_shape(key: &str, source: i64) -> (String, ShapeIdentity) {
    (key.to_owned(), identity(Some("page:1"), None, Some("package"), Some(source)))
}

#[test]
fn unchanged_shapes_and_added_shapes_pass() {
    let before = vec![package_shape("shape:1", 1)];
    let after = vec![
        package_shape("shape:1", 1),
        ("shape:9".to_owned(), identity(Some("page:1"), Some("shape:1"), Some("added"), None)),
    ];
    assert_eq!(check_shape_identities(&before, &after), Ok(()));
    // a deleted shape is no identity change
    assert_eq!(check_shape_identities(&before, &Vec::new()), Ok(()));
}

#[test]
fn identity_changes_of_shared_shapes_are_refused() {
    let before = vec![package_shape("shape:1", 1), package_shape("shape:2", 2)];
    let moved = vec![
        package_shape("shape:1", 1),
        ("shape:2".to_owned(), identity(Some("page:2"), None, Some("package"), Some(2))),
    ];
    assert_eq!(
        check_shape_identities(&before, &moved),
        Err(EditError::InvalidState("remote update changes the identity of shape shape:2".to_owned()))
    );
    let renumbered = vec![package_shape("shape:1", 7), package_shape("shape:2", 2)];
    assert_eq!(
        check_shape_identities(&before, &renumbered),
        Err(EditError::InvalidState("remote update changes the identity of shape shape:1".to_owned()))
    );
    let reparented = vec![
        ("shape:1".to_owned(), identity(Some("page:1"), Some("shape:2"), Some("package"), Some(1))),
        package_shape("shape:2", 2),
    ];
    assert_eq!(
        check_shape_identities(&before, &reparented),
        Err(EditError::InvalidState("remote update changes the identity of shape shape:1".to_owned()))
    );
}

#[test]
fn a_shape_without_session_provenance_is_refused() {
    let before = vec![package_shape("shape:1", 1)];
    let after = vec![package_shape("shape:1", 1), package_shape("shape:5", 5)];
    assert_eq!(
        check_shape_identities(&before, &after),
        Err(EditError::InvalidState(
            "remote update adds shape shape:5 without session provenance".to_owned()
        ))
    );
    // a changed identity is named before a missing provenance
    let after = vec![package_shape("shape:5", 5), package_shape("shape:1", 2)];
    assert_eq!(
        check_shape_identities(&before, &after),
        Err(EditError::InvalidState("remote update changes the identity of shape shape:1".to_owned()))
    );
}

#[test]
fn removed_shapes_are_those_the_update_drops() {
    let before = vec![package_shape("shape:1", 1), package_shape("shape:2", 2), package_shape("shape:3", 3)];
    let after = vec![package_shape("shape:2", 2)];
    assert_eq!(removed_shapes(&before, &after), vec!["shape:1".to_owned(), "shape:3".to_owned()]);
    assert!(removed_shapes(&after, &before).is_empty());
}

