//! Client IDs a collaborative session may use.
use vstd::prelude::*;

use crate::model::{EditError, EditResult};

verus! {

/// Largest client ID a session may use: one below the bootstrap ID `2^53 - 1`.
pub const MAX_SAFE_CLIENT_ID: u64 = 9007199254740990;

/// A client ID is usable when it is positive and at most [`MAX_SAFE_CLIENT_ID`].
pub open spec fn client_id_is_valid(client_id: u64) -> bool {
    0 < client_id <= MAX_SAFE_CLIENT_ID
}

/// Refuses zero and IDs above [`MAX_SAFE_CLIENT_ID`], naming the refused ID.
pub fn validate_client_id(client_id: u64) -> (result: EditResult<()>)
    ensures
        result is Ok <==> client_id_is_valid(client_id),
        !client_id_is_valid(client_id) ==> result == Err::<(), EditError>(
            EditError::InvalidClientId(client_id),
        ),
{
    if client_id == 0 || client_id > MAX_SAFE_CLIENT_ID {
        Err(EditError::InvalidClientId(client_id))
    } else {
        Ok(())
    }
}

} // verus!
