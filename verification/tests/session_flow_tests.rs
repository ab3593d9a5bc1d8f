use vsdx_edit::model::{EditCtx, EditError, ShapeReceipt};
use vsdx_edit::session::DiagramSession;
use yrs::updates::decoder::Decode;
use yrs::Array as YrsArray;
use yrs::Map as YrsMap;
use yrs::{Any, Doc, MapPrelim, MapRef, Out, ReadTxn, StateVector, Transact, Update, WriteTxn};

fn decode(bytes: &[u8]) -> Update {
    Update::decode_v1(bytes).unwrap()
}

fn package_doc() -> Doc {
    let doc = Doc::with_client_id(1);
    {
        let mut txn = doc.transact_mut();
        let sheets = txn.get_or_insert_map("vsdx:sheets");
        let shape: MapRef = sheets.insert(&mut txn, "shape:1", MapPrelim::default());
        shape.insert(&mut txn, "pageId", "page:1");
        shape.insert(&mut txn, "origin", "original");
        shape.insert(&mut txn, "sourceId", 1.0);
        let _children: yrs::ArrayRef = shape.insert(&mut txn, "shapes", yrs::ArrayPrelim::default());
        let cells: MapRef = shape.insert(&mut txn, "cells", MapPrelim::default());
        let width: MapRef = cells.insert(&mut txn, "Width", MapPrelim::default());
        width.insert(&mut txn, "baselineFormula", "2 in");
        width.insert(&mut txn, "formula", "2 in");
        width.insert(&mut txn, "value", "2");
        let pages = txn.get_or_insert_map("vsdx:pages");
        let page: MapRef = pages.insert(&mut txn, "page:1", MapPrelim::default());
        page.insert(&mut txn, "id", "page:1");
        page.insert(&mut txn, "sourcePartPath", "visio/pages/page1.xml");
        page.insert(&mut txn, "maxSourceId", 1.0);
        let page_shapes: yrs::ArrayRef = page.insert(&mut txn, "shapes", yrs::ArrayPrelim::default());
        page_shapes.push_back(&mut txn, "shape:1");
        let order = txn.get_or_insert_array("vsdx:page-order");
        order.push_back(&mut txn, "page:1");
        let stories = txn.get_or_insert_map("vsdx:stories");
        stories.insert(&mut txn, "shape:1", "Hello");
        let meta = txn.get_or_insert_map("vsdx:meta");
        meta.insert(&mut txn, "fingerprint", "f00d");
        meta.insert(&mut txn, "packageJson", "{}");
        meta.insert(&mut txn, "packageBytes", Any::from(vec![1u8, 2, 3]));
    }
    doc
}

fn package_update() -> Update {
    let doc = package_doc();
    let bytes = doc.transact().encode_state_as_update_v1(&StateVector::default());
    decode(&bytes)
}

fn open() -> DiagramSession {
    DiagramSession::open_from_update(package_update(), 7).unwrap()
}

/// A peer holding the session's document makes `edit` and sends what the session lacks.
fn peer_update(session: &DiagramSession, edit: impl FnOnce(&mut yrs::TransactionMut, &MapRef)) -> Update {
    let peer = Doc::with_client_id(99);
    peer.transact_mut().apply_update(decode(&session.encode_state_as_update_v1())).unwrap();
    {
        let mut txn = peer.transact_mut();
        let sheets = txn.get_or_insert_map("vsdx:sheets");
        edit(&mut txn, &sheets);
    }
    let vector = StateVector::decode_v1(&session.encode_state_vector_v1()).unwrap();
    let bytes = peer.transact().encode_diff_v1(&vector);
    decode(&bytes)
}

fn child(txn: &yrs::TransactionMut, map: &MapRef, key: &str) -> MapRef {
    match map.get(txn, key) {
        Some(Out::YMap(child)) => child,
        _ => panic!("missing map {key}"),
    }
}

/// The text at `path` (shape, then nested map keys, then the field) in the session's document.
fn read_text(session: &DiagramSession, path: &[&str]) -> Option<String> {
    let doc = Doc::with_client_id(5);
    doc.transact_mut().apply_update(decode(&session.encode_state_as_update_v1())).unwrap();
    let txn = doc.transact();
    let mut map = txn.get_map("vsdx:sheets")?;
    for key in &path[..path.len() - 1] {
        map = match map.get(&txn, key)? {
            Out::YMap(child) => child,
            _ => return None,
        };
    }
    match map.get(&txn, path[path.len() - 1])? {
        Out::Any(Any::String(text)) => Some(text.to_string()),
        _ => None,
    }
}

#[test]
fn a_session_opens_only_under_a_usable_client_id() {
    assert_eq!(
        DiagramSession::open_from_update(package_update(), 0).err(),
        Some(EditError::InvalidClientId(0))
    );
    assert_eq!(
        DiagramSession::open_from_update(package_update(), 9007199254740991).err(),
        Some(EditError::InvalidClientId(9007199254740991))
    );
    let session = open();
    assert_eq!(session.client_id(), 7);
    assert_eq!(read_text(&session, &["shape:1", "pageId"]), Some("page:1".to_owned()));
}

#[test]
fn a_peer_formula_edit_is_taken_in() {
    let mut session = open();
    let update = peer_update(&session, |txn, sheets| {
        let cells = child(txn, &child(txn, sheets, "shape:1"), "cells");
        child(txn, &cells, "Width").insert(txn, "formula", "3 in");
    });
    assert_eq!(session.apply_update(update), Ok(()));
    assert_eq!(read_text(&session, &["shape:1", "cells", "Width", "formula"]), Some("3 in".to_owned()));
}

#[test]
fn a_peer_that_moves_a_shape_to_another_page_is_refused_and_nothing_changes() {
    let mut session = open();
    let update = peer_update(&session, |txn, sheets| {
        child(txn, sheets, "shape:1").insert(txn, "pageId", "page:2");
    });
    assert_eq!(
        session.apply_update(update),
        Err(EditError::InvalidState("remote update changes immutable shape pageId".to_owned()))
    );
    assert_eq!(read_text(&session, &["shape:1", "pageId"]), Some("page:1".to_owned()));
    let update = peer_update(&session, |txn, sheets| {
        child(txn, sheets, "shape:1").insert(txn, "sourceId", 4.0);
    });
    assert_eq!(
        session.apply_update(update),
        Err(EditError::InvalidState("remote update changes immutable shape sourceId".to_owned()))
    );
}

#[test]
fn peer_shapes_must_record_that_a_session_added_them() {
    let mut session = open();
    let update = peer_update(&session, |txn, sheets| {
        let shape: MapRef = sheets.insert(txn, "shape:2", MapPrelim::default());
        shape.insert(txn, "origin", "original");
    });
    assert_eq!(
        session.apply_update(update),
        Err(EditError::InvalidState("remote update adds a shape with original identity".to_owned()))
    );
    let update = peer_update(&session, |txn, sheets| {
        let shape: MapRef = sheets.insert(txn, "shape:2", MapPrelim::default());
        shape.insert(txn, "origin", "pasted");
    });
    assert_eq!(
        session.apply_update(update),
        Err(EditError::InvalidState("invalid shape origin".to_owned()))
    );
    let update = peer_update(&session, |txn, sheets| {
        let shape: MapRef = sheets.insert(txn, "shape:2", MapPrelim::default());
        shape.insert(txn, "pageId", "page:1");
    });
    assert_eq!(session.apply_update(update), Err(EditError::InvalidState("missing origin".to_owned())));
    assert_eq!(read_text(&session, &["shape:2", "pageId"]), None);
    let update = peer_update(&session, |txn, sheets| {
        let shape: MapRef = sheets.insert(txn, "shape:3", MapPrelim::default());
        shape.insert(txn, "origin", "added");
        shape.insert(txn, "pageId", "page:1");
    });
    assert_eq!(session.apply_update(update), Ok(()));
    assert_eq!(read_text(&session, &["shape:3", "origin"]), Some("added".to_owned()));
}

#[test]
fn pages_stay_the_same_pages() {
    let mut session = open();
    let page_edit = |edit: fn(&mut yrs::TransactionMut, &MapRef)| {
        move |txn: &mut yrs::TransactionMut, _sheets: &MapRef| {
            let pages = txn.get_or_insert_map("vsdx:pages");
            edit(txn, &pages);
        }
    };
    let update = peer_update(&session, page_edit(|txn, pages| {
        child(txn, pages, "page:1").insert(txn, "sourcePartPath", "visio/pages/page9.xml");
    }));
    assert_eq!(
        session.apply_update(update),
        Err(EditError::InvalidState("remote update changes immutable page sourcePartPath".to_owned()))
    );
    let update = peer_update(&session, page_edit(|txn, pages| {
        pages.remove(txn, "page:1");
    }));
    assert_eq!(session.apply_update(update), Err(EditError::PageNotFound("page:1".to_owned())));
    let update = peer_update(&session, page_edit(|txn, pages| {
        let page: MapRef = pages.insert(txn, "page:2", MapPrelim::default());
        page.insert(txn, "id", "page:2");
    }));
    assert_eq!(
        session.apply_update(update),
        Err(EditError::InvalidState("remote update changes immutable page topology".to_owned()))
    );
    assert_eq!(read_text(&session, &["shape:1", "pageId"]), Some("page:1".to_owned()));
}

#[test]
fn save_baselines_stay_while_their_shape_does() {
    let mut session = open();
    let update = peer_update(&session, |txn, sheets| {
        let cells = child(txn, &child(txn, sheets, "shape:1"), "cells");
        child(txn, &cells, "Width").insert(txn, "baselineFormula", "5 in");
    });
    assert_eq!(
        session.apply_update(update),
        Err(EditError::InvalidState(
            "remote update changes immutable cell baseline formula".to_owned()
        ))
    );
    let update = peer_update(&session, |txn, sheets| {
        let cells = child(txn, &child(txn, sheets, "shape:1"), "cells");
        child(txn, &cells, "Width").remove(txn, "baselineFormula");
    });
    assert_eq!(
        session.apply_update(update),
        Err(EditError::InvalidState(
            "remote update changes immutable cell baseline formula".to_owned()
        ))
    );
    assert_eq!(
        read_text(&session, &["shape:1", "cells", "Width", "baselineFormula"]),
        Some("2 in".to_owned())
    );
    let update = peer_update(&session, |txn, sheets| {
        sheets.remove(txn, "shape:1");
    });
    assert_eq!(session.apply_update(update), Ok(()));
    assert_eq!(read_text(&session, &["shape:1", "pageId"]), None);
}

#[test]
fn new_cells_of_package_shapes_may_not_bring_cached_values() {
    let mut session = open();
    let update = peer_update(&session, |txn, sheets| {
        let cells = child(txn, &child(txn, sheets, "shape:1"), "cells");
        let height: MapRef = cells.insert(txn, "Height", MapPrelim::default());
        height.insert(txn, "formula", "1 in");
        height.insert(txn, "value", "1");
    });
    assert_eq!(
        session.apply_update(update),
        Err(EditError::InvalidState("remote update adds untrusted cached cell value".to_owned()))
    );
    let update = peer_update(&session, |txn, sheets| {
        let cells = child(txn, &child(txn, sheets, "shape:1"), "cells");
        let height: MapRef = cells.insert(txn, "Height", MapPrelim::default());
        height.insert(txn, "formula", "1 in");
    });
    assert_eq!(session.apply_update(update), Ok(()));
    assert_eq!(read_text(&session, &["shape:1", "cells", "Height", "formula"]), Some("1 in".to_owned()));
}

#[test]
fn a_diff_is_encoded_against_a_peer_state_vector() {
    let session = open();
    assert_eq!(
        session.encode_diff_v1(&[0, 0]),
        Err(EditError::InvalidStateVector("state vector contains trailing bytes".to_owned()))
    );
    let diff = session.encode_diff_v1(&[0]).unwrap();
    let doc = Doc::with_client_id(3);
    doc.transact_mut().apply_update(decode(&diff)).unwrap();
    let txn = doc.transact();
    let sheets = txn.get_map("vsdx:sheets").unwrap();
    assert!(sheets.get(&txn, "shape:1").is_some());
    let full = StateVector::decode_v1(&session.encode_state_vector_v1()).unwrap();
    let nothing_new = session.encode_diff_v1(&yrs::updates::encoder::Encode::encode_v1(&full)).unwrap();
    let doc = Doc::with_client_id(4);
    doc.transact_mut().apply_update(decode(&nothing_new)).unwrap();
    assert!(doc.transact().get_map("vsdx:sheets").is_none());
}

#[test]
fn cells_of_kept_shapes_keep_their_cached_values_and_stay() {
    let mut session = open();
    let update = peer_update(&session, |txn, sheets| {
        let cells = child(txn, &child(txn, sheets, "shape:1"), "cells");
        child(txn, &cells, "Width").insert(txn, "value", "9");
    });
    assert_eq!(
        session.apply_update(update),
        Err(EditError::InvalidState("remote update changes untrusted cached cell value".to_owned()))
    );
    let update = peer_update(&session, |txn, sheets| {
        let cells = child(txn, &child(txn, sheets, "shape:1"), "cells");
        child(txn, &cells, "Width").insert(txn, "rowType", "LineTo");
    });
    assert_eq!(
        session.apply_update(update),
        Err(EditError::InvalidState("remote update changes immutable geometry row type".to_owned()))
    );
    let update = peer_update(&session, |txn, sheets| {
        child(txn, &child(txn, sheets, "shape:1"), "cells").remove(txn, "Width");
    });
    assert_eq!(session.apply_update(update), Err(EditError::PageNotFound("Width".to_owned())));
    assert_eq!(read_text(&session, &["shape:1", "cells", "Width", "value"]), Some("2".to_owned()));
}

#[test]
fn malformed_state_vectors_and_oversized_updates_leave_the_document_unchanged() {
    let session = open();
    let before = session.encode_state_as_update_v1();
    assert!(vsdx_edit::updates::check_update_size(vsdx_edit::updates::MAX_UPDATE_BYTES + 1).is_err());
    assert!(session.encode_diff_v1(&[0, 0]).is_err());
    assert_eq!(
        session.encode_diff_v1(&vec![0; vsdx_edit::updates::MAX_STATE_VECTOR_BYTES + 1]),
        Err(EditError::InvalidStateVector("state vector exceeds 1048576 bytes".to_owned()))
    );
    assert_eq!(before, session.encode_state_as_update_v1());
}

#[test]
fn the_diagram_metadata_stays_as_it_was() {
    let mut session = open();
    let meta_edit = |edit: fn(&mut yrs::TransactionMut, &MapRef)| {
        move |txn: &mut yrs::TransactionMut, _sheets: &MapRef| {
            let meta = txn.get_or_insert_map("vsdx:meta");
            edit(txn, &meta);
        }
    };
    let update = peer_update(&session, meta_edit(|txn, meta| {
        meta.insert(txn, "fingerprint", "beef");
    }));
    assert_eq!(
        session.apply_update(update),
        Err(EditError::InvalidState("remote update changes immutable diagram metadata fingerprint".to_owned()))
    );
    let update = peer_update(&session, meta_edit(|txn, meta| {
        meta.insert(txn, "packageBytes", Any::from(vec![1u8, 2, 4]));
    }));
    assert_eq!(
        session.apply_update(update),
        Err(EditError::InvalidState("remote update changes immutable diagram metadata packageBytes".to_owned()))
    );
    let update = peer_update(&session, meta_edit(|txn, meta| {
        meta.remove(txn, "packageJson");
    }));
    assert_eq!(
        session.apply_update(update),
        Err(EditError::InvalidState("remote update changes immutable diagram metadata packageJson".to_owned()))
    );
    let update = peer_update(&session, meta_edit(|txn, meta| {
        meta.insert(txn, "schemaVersion", 2.0);
    }));
    assert_eq!(session.apply_update(update), Ok(()));
}

#[test]
fn shape_text_reads_the_story_of_a_shape_on_its_page() {
    let session = open();
    assert_eq!(session.shape_text("page:1", "shape:1"), Ok("Hello".to_owned()));
    assert_eq!(session.shape_text("page:9", "shape:1"), Err(EditError::PageNotFound("page:9".to_owned())));
    assert_eq!(session.shape_text("page:1", "shape:9"), Err(EditError::ShapeNotFound("shape:9".to_owned())));
    let doc = package_doc();
    {
        let mut txn = doc.transact_mut();
        let sheets = txn.get_or_insert_map("vsdx:sheets");
        let shape: MapRef = sheets.insert(&mut txn, "shape:4", MapPrelim::default());
        shape.insert(&mut txn, "pageId", "page:2");
        let other: MapRef = sheets.insert(&mut txn, "shape:5", MapPrelim::default());
        other.insert(&mut txn, "pageId", "page:1");
    }
    let bytes = doc.transact().encode_state_as_update_v1(&StateVector::default());
    let session = DiagramSession::open_from_update(decode(&bytes), 8).unwrap();
    assert_eq!(session.shape_text("page:1", "shape:4"), Err(EditError::ShapeNotFound("shape:4".to_owned())));
    assert_eq!(session.shape_text("page:1", "shape:5"), Ok(String::new()));
}

fn page_order_of(session: &DiagramSession) -> Vec<String> {
    let doc = Doc::with_client_id(6);
    doc.transact_mut().apply_update(decode(&session.encode_state_as_update_v1())).unwrap();
    let txn = doc.transact();
    let order = txn.get_array("vsdx:page-order").unwrap();
    order
        .iter(&txn)
        .map(|item| match item {
            Out::Any(Any::String(text)) => text.to_string(),
            _ => String::new(),
        })
        .collect()
}

#[test]
fn pages_are_reordered_within_the_page_order() {
    let doc = package_doc();
    {
        let mut txn = doc.transact_mut();
        let order = txn.get_or_insert_array("vsdx:page-order");
        order.push_back(&mut txn, "page:2");
    }
    let bytes = doc.transact().encode_state_as_update_v1(&StateVector::default());
    let mut session = DiagramSession::open_from_update(decode(&bytes), 9).unwrap();
    assert_eq!(
        session.reorder_page(&EditCtx::default(), "page:2", 0),
        Ok(ShapeReceipt {
            page_id: "page:2".to_owned(),
            shape_id: "page:2".to_owned(),
            from_index: Some(1),
            to_index: Some(0),
        })
    );
    assert_eq!(page_order_of(&session), vec!["page:2".to_owned(), "page:1".to_owned()]);
    assert_eq!(
        session.reorder_page(&EditCtx::default(), "page:2", 2),
        Err(EditError::OutOfBounds { index: 2, length: 2 })
    );
    assert_eq!(
        session.reorder_page(&EditCtx::default(), "page:9", 1),
        Err(EditError::PageNotFound("page:9".to_owned()))
    );
    assert_eq!(page_order_of(&session), vec!["page:2".to_owned(), "page:1".to_owned()]);
    // moving it back restores the order
    assert_eq!(
        session.reorder_page(&EditCtx::default(), "page:2", 1).map(|r| (r.from_index, r.to_index)),
        Ok((Some(0), Some(1)))
    );
    assert_eq!(page_order_of(&session), vec!["page:1".to_owned(), "page:2".to_owned()]);
    let mut bare = DiagramSession::open_from_update(bare_update(), 7).unwrap();
    assert_eq!(
        bare.reorder_page(&EditCtx::default(), "page:1", 0),
        Err(EditError::InvalidState("missing page order".to_owned()))
    );
}

/// A document with one shape and no page order.
fn bare_update() -> Update {
    let doc = Doc::with_client_id(2);
    {
        let mut txn = doc.transact_mut();
        let sheets = txn.get_or_insert_map("vsdx:sheets");
        let shape: MapRef = sheets.insert(&mut txn, "shape:1", MapPrelim::default());
        shape.insert(&mut txn, "pageId", "page:1");
    }
    let bytes = doc.transact().encode_state_as_update_v1(&StateVector::default());
    decode(&bytes)
}

#[test]
fn a_merged_page_order_names_each_page_once() {
    let mut session = open();
    let update = peer_update(&session, |txn, _sheets| {
        let order = txn.get_or_insert_array("vsdx:page-order");
        order.push_back(txn, "page:1");
    });
    assert_eq!(session.apply_update(update), Ok(()));
    assert_eq!(page_order_of(&session), vec!["page:1".to_owned()]);
    let mut bare = DiagramSession::open_from_update(bare_update(), 7).unwrap();
    let update = peer_update(&bare, |txn, sheets| {
        child(txn, sheets, "shape:1").insert(txn, "name", "Box");
    });
    assert_eq!(
        bare.apply_update(update),
        Err(EditError::InvalidState("missing vsdx:page-order array".to_owned()))
    );
}

fn page_shapes_of(session: &DiagramSession) -> Vec<String> {
    let doc = Doc::with_client_id(6);
    doc.transact_mut().apply_update(decode(&session.encode_state_as_update_v1())).unwrap();
    let txn = doc.transact();
    let pages = txn.get_map("vsdx:pages").unwrap();
    let Some(Out::YMap(page)) = pages.get(&txn, "page:1") else { panic!("no page") };
    let Some(Out::YArray(order)) = page.get(&txn, "shapes") else { panic!("no shape order") };
    order
        .iter(&txn)
        .map(|item| match item {
            Out::Any(Any::String(text)) => text.to_string(),
            _ => String::new(),
        })
        .collect()
}

#[test]
fn merged_shape_orders_name_each_held_shape_once() {
    let mut session = open();
    assert_eq!(page_shapes_of(&session), vec!["shape:1".to_owned()]);
    let update = peer_update(&session, |txn, _sheets| {
        let pages = txn.get_or_insert_map("vsdx:pages");
        let page = child(txn, &pages, "page:1");
        let Some(Out::YArray(order)) = page.get(txn, "shapes") else { panic!("no shape order") };
        order.push_front(txn, "shape:1");
        order.push_back(txn, "shape:404");
    });
    assert_eq!(session.apply_update(update), Ok(()));
    assert_eq!(page_shapes_of(&session), vec!["shape:1".to_owned()]);
}

#[test]
fn a_kept_shape_keeps_its_shape_order() {
    let mut session = open();
    let update = peer_update(&session, |txn, sheets| {
        child(txn, sheets, "shape:1").remove(txn, "shapes");
    });
    assert_eq!(
        session.apply_update(update),
        Err(EditError::InvalidState("remote update removes required shape order".to_owned()))
    );
}
