use vsdx_edit::model::{EditError, UpdateEvent, UpdateOrigin};
use vsdx_edit::observe::{PendingUpdates, MAX_PENDING_UPDATE_BYTES, MAX_PENDING_UPDATE_EVENTS};
use vsdx_edit::session_ids::{validate_client_id, MAX_SAFE_CLIENT_ID};
use vsdx_edit::updates::{
    check_update_size, decode_state_vector_v1, validate_state_vector_entry_count,
    MAX_STATE_VECTOR_BYTES, MAX_UPDATE_BYTES,
};

#[test]
fn state_vectors_are_limited_before_decode() {
    assert!(decode_state_vector_v1(&vec![0; MAX_STATE_VECTOR_BYTES + 1]).is_err());
}

#[test]
fn oversized_state_vector_is_refused_by_name() {
    let error = decode_state_vector_v1(&vec![0; MAX_STATE_VECTOR_BYTES + 1]).unwrap_err();
    assert_eq!(error, "state vector exceeds 1048576 bytes");
}

#[test]
fn empty_state_vector_decodes() {
    assert!(decode_state_vector_v1(&[0]).is_ok());
}

#[test]
fn state_vector_with_trailing_bytes_is_refused() {
    assert_eq!(
        decode_state_vector_v1(&[0, 5]).unwrap_err(),
        "state vector contains trailing bytes"
    );
}

#[test]
fn state_vector_entry_count_limits() {
    assert_eq!(validate_state_vector_entry_count(&[0]), Ok(()));
    assert_eq!(validate_state_vector_entry_count(&[2, 1, 1, 2, 2]), Ok(()));
    assert_eq!(
        validate_state_vector_entry_count(&[3, 1, 1]),
        Err("state vector entry count exceeds its payload".to_owned())
    );
    assert_eq!(
        validate_state_vector_entry_count(&[]),
        Err("state vector is empty".to_owned())
    );
    assert_eq!(
        validate_state_vector_entry_count(&[0x80]),
        Err("invalid state vector entry count".to_owned())
    );
    // 65537 = 0x10001: varint 0x81 0x80 0x04
    assert_eq!(
        validate_state_vector_entry_count(&[0x81, 0x80, 0x04]),
        Err("state vector contains 65537 entries, exceeds the 65536-entry limit".to_owned())
    );
}

#[test]
fn state_vector_client_beyond_53_bits_is_refused() {
    let mut bytes = vec![0x01];
    bytes.extend_from_slice(&[0x80; 7]);
    bytes.extend_from_slice(&[0x10, 0x00]);
    assert_eq!(
        decode_state_vector_v1(&bytes).unwrap_err(),
        "state vector names a client ID beyond 53 bits"
    );
    let mut largest = vec![0x01];
    largest.extend_from_slice(&[0xff; 7]);
    largest.extend_from_slice(&[0x0f, 0x05]);
    assert!(decode_state_vector_v1(&largest).is_ok());
}

#[test]
fn a_decoded_state_vector_holds_the_encoded_clocks() {
    let vector = decode_state_vector_v1(&[0x02, 0x07, 0x03, 0x09, 0x81, 0x01]).unwrap();
    assert_eq!(vector.len(), 2);
    assert_eq!(vector.get(&yrs::ClientID::new(7)), 3);
    assert_eq!(vector.get(&yrs::ClientID::new(9)), 129);
    assert_eq!(vector.get(&yrs::ClientID::new(8)), 0);
}

#[test]
fn state_vector_trailing_bytes_are_refused() {
    assert!(decode_state_vector_v1(&[0x01, 0x07, 0x03]).is_ok());
    assert_eq!(
        decode_state_vector_v1(&[0x01, 0x07, 0x03, 0x00]).unwrap_err(),
        "state vector contains trailing bytes"
    );
}

#[test]
fn update_size_limit() {
    assert_eq!(check_update_size(MAX_UPDATE_BYTES), Ok(()));
    assert_eq!(
        check_update_size(MAX_UPDATE_BYTES + 1),
        Err(EditError::InvalidUpdate("update exceeds 67108864 bytes".to_owned()))
    );
}

#[test]
fn client_ids_are_positive_and_safe() {
    assert_eq!(validate_client_id(0), Err(EditError::InvalidClientId(0)));
    assert_eq!(validate_client_id(1), Ok(()));
    assert_eq!(validate_client_id(MAX_SAFE_CLIENT_ID), Ok(()));
    assert_eq!(
        validate_client_id(MAX_SAFE_CLIENT_ID + 1),
        Err(EditError::InvalidClientId(MAX_SAFE_CLIENT_ID + 1))
    );
}

fn event(update: Vec<u8>, origin: UpdateOrigin) -> UpdateEvent {
    UpdateEvent { update, origin }
}

#[test]
fn pending_updates_drain_in_order_with_origin_bytes() {
    let mut pending = PendingUpdates::new();
    assert_eq!(pending.drain(), Vec::<u8>::new());
    pending.record(event(vec![7, 8], UpdateOrigin::Local));
    pending.record(event(vec![9], UpdateOrigin::Remote));
    assert_eq!(pending.drain(), vec![0, 7, 8]);
    assert_eq!(pending.drain(), vec![1, 9]);
    assert_eq!(pending.drain(), Vec::<u8>::new());
}

#[test]
fn pending_updates_event_overflow_asks_for_resync_once() {
    let mut pending = PendingUpdates::new();
    for _ in 0..=MAX_PENDING_UPDATE_EVENTS {
        pending.record(event(vec![1], UpdateOrigin::Local));
    }
    pending.record(event(vec![5], UpdateOrigin::Local));
    assert_eq!(pending.drain(), vec![2]);
    assert_eq!(pending.drain(), Vec::<u8>::new());
    pending.record(event(vec![6], UpdateOrigin::Remote));
    assert_eq!(pending.drain(), vec![1, 6]);
}

#[test]
fn pending_updates_byte_overflow_asks_for_resync() {
    let mut pending = PendingUpdates::new();
    pending.record(event(vec![0; MAX_PENDING_UPDATE_BYTES], UpdateOrigin::Local));
    pending.record(event(vec![1], UpdateOrigin::Local));
    assert_eq!(pending.drain(), vec![2]);
    assert_eq!(pending.drain(), Vec::<u8>::new());
}
