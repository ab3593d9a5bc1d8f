//! Decoding peers' CRDT updates and state vectors, with the size limits checked first.
use vstd::prelude::*;
use yrs::updates::decoder::{Decode, Decoder, DecoderV1};
use yrs::StateVector;

use crate::model::{EditError, EditResult};
use crate::text::{decimal, owned, push_decimal, push_str};

verus! {

/// Largest update a session accepts, in bytes.
pub const MAX_UPDATE_BYTES: usize = 67108864;

/// Most entries a peer's state vector may declare.
pub const MAX_STATE_VECTOR_ENTRIES: u32 = 65536;

/// Largest state vector a session decodes, in bytes.
pub const MAX_STATE_VECTOR_BYTES: usize = 1048576;

#[verifier::external_type_specification]
#[verifier::external_body]
pub struct ExStateVector(StateVector);


/// Position of the byte that ends a variable-length integer started before `i`:
/// the first byte at or after `i` without its high bit, or the length when none ends it.
pub open spec fn varint_end(b: Seq<u8>, i: int) -> int
    decreases b.len() - i,
{
    if 0 <= i < b.len() && b[i] >= 128 {
        varint_end(b, i + 1)
    } else {
        i
    }
}

pub open spec fn pow128(k: nat) -> nat
    decreases k,
{
    if k == 0 {
        1
    } else {
        128 * pow128((k - 1) as nat)
    }
}

/// The value the low seven bits of `b[..n]` spell, least significant group first.
pub open spec fn varint_value(b: Seq<u8>, n: nat) -> nat
    decreases n,
{
    if n == 0 {
        0
    } else {
        varint_value(b, (n - 1) as nat) + ((b[n - 1] % 128) as nat) * pow128((n - 1) as nat)
    }
}

/// The entry count at the head of a state vector is no `u32` in at most five bytes.
pub open spec fn entry_count_malformed(b: Seq<u8>) -> bool {
    let end = varint_end(b, 0);
    end >= 5 || end >= b.len() || (end == 4 && b[4] > 15)
}

/// Why a state vector's declared entry count is refused before decoding, if it is.
pub open spec fn entry_count_refusal(b: Seq<u8>) -> Option<Seq<char>> {
    if b.len() == 0 {
        Some("state vector is empty"@)
    } else if entry_count_malformed(b) {
        Some("invalid state vector entry count"@)
    } else {
        let used = varint_end(b, 0) + 1;
        let value = varint_value(b, used as nat);
        if value > MAX_STATE_VECTOR_ENTRIES {
            Some("state vector contains "@ + decimal(value) + " entries, exceeds the 65536-entry limit"@)
        } else if value > (b.len() - used) / 2 {
            Some("state vector entry count exceeds its payload"@)
        } else {
            None
        }
    }
}

proof fn lemma_varint_end_bounds(b: Seq<u8>, i: int)
    requires
        0 <= i <= b.len(),
    ensures
        i <= varint_end(b, i) <= b.len(),
        forall|t: int| i <= t < varint_end(b, i) ==> #[trigger] b[t] >= 128,
        varint_end(b, i) < b.len() ==> b[varint_end(b, i)] < 128,
    decreases b.len() - i,
{
    if i < b.len() && b[i] >= 128 {
        lemma_varint_end_bounds(b, i + 1);
    }
}

proof fn lemma_varint_end_skip(b: Seq<u8>, i: int)
    requires
        0 <= i < b.len(),
        forall|t: int| 0 <= t <= i ==> #[trigger] b[t] >= 128,
    ensures
        varint_end(b, 0) == varint_end(b, i + 1),
    decreases i,
{
    if i > 0 {
        lemma_varint_end_skip(b, i - 1);
    }
}

proof fn lemma_pow128_small()
    ensures
        pow128(1) == 128,
        pow128(2) == 16384,
        pow128(3) == 2097152,
        pow128(4) == 268435456,
        pow128(5) == 34359738368,
{
    reveal_with_fuel(pow128, 6);
}

/// Rejects a state vector whose leading entry count is malformed, above the entry limit,
/// or larger than its payload could hold, without decoding the entries.
pub fn validate_state_vector_entry_count(bytes: &[u8]) -> (result: Result<(), String>)
    ensures
        match entry_count_refusal(bytes@) {
            None => result is Ok,
            Some(reason) => result matches Err(message) && message@ == reason,
        },
{
    let ghost b = bytes@;
    let len = bytes.len();
    if len == 0 {
        return Err(owned("state vector is empty"));
    }
    let first = bytes[0];
    let mut value: u64 = (first % 128) as u64;
    let mut scale: u64 = 128;
    let mut used: usize = 1;
    let mut byte = first;
    proof {
        reveal_with_fuel(varint_value, 2);
        lemma_pow128_small();
        lemma_varint_end_bounds(b, 0);
        assert(pow128(0) == 1);
        assert(varint_value(b, 1) == varint_value(b, 0) + ((b[0] % 128) as nat) * pow128(0));
    }
    while byte >= 128
        invariant
            b == bytes@,
            len == b.len(),
            1 <= used <= 5,
            used <= len,
            byte == b[used - 1],
            forall|t: int| 0 <= t < used - 1 ==> #[trigger] b[t] >= 128,
            byte < 128 ==> varint_end(b, 0) == used - 1,
            used == 5 ==> b[4] <= 15,
            value == varint_value(b, used as nat),
            scale == pow128(used as nat),
            pow128(1) == 128,
            pow128(2) == 16384,
            pow128(3) == 2097152,
            pow128(4) == 268435456,
            pow128(5) == 34359738368,
            value < scale,
        decreases 5 - used,
    {
        proof {
            lemma_varint_end_skip(b, used - 1);
            lemma_varint_end_bounds(b, used as int);
        }
        if used == 5 || used >= len {
            return Err(owned("invalid state vector entry count"));
        }
        byte = bytes[used];
        if used == 4 && byte > 15 {
            return Err(owned("invalid state vector entry count"));
        }
        let ghost previous = used;
        assert(varint_value(b, (previous + 1) as nat) == varint_value(b, previous as nat) + ((
        b[previous as int] % 128) as nat) * pow128(previous as nat));
        let low = (byte % 128) as u64;
        assert(scale <= 268435456);
        assert(low * scale <= 127 * scale) by (nonlinear_arith)
            requires
                low <= 127,
        ;
        value = value + low * scale;
        scale = scale * 128;
        used = used + 1;
        proof {
            if byte < 128 {
                lemma_varint_end_skip(b, previous - 1);
                assert(varint_end(b, 0) == varint_end(b, previous as int));
            }
        }
    }
    if value > 65536 {
        let mut message = owned("state vector contains ");
        push_decimal(&mut message, value);
        push_str(&mut message, " entries, exceeds the 65536-entry limit");
        return Err(message);
    }
    if value > ((len - used) / 2) as u64 {
        return Err(owned("state vector entry count exceeds its payload"));
    }
    Ok(())
}

/// yrs's `read_var` over `b` from `i`, `k` bytes in with `acc` gathered: each byte's low
/// seven bits are or-ed in at `7k` bits (the shift taken modulo 64, as `wrapping_shl` does);
/// a byte below 128 ends the number; running out of bytes, or an eleventh byte that does not
/// end it, fails. Gives the value and the position after it.
pub open spec fn read_var_from(b: Seq<u8>, i: int, k: nat, acc: u64) -> Option<(u64, int)>
    decreases 11 - k,
{
    if i < 0 || i + k >= b.len() || k > 10 {
        None
    } else {
        let r = b[i + k];
        let next = acc | (((r & 127u8) as u64) << (((7 * k) % 64) as u64));
        if r < 128 {
            Some((next, i + k + 1))
        } else if 7 * (k + 1) > 70 {
            None
        } else {
            read_var_from(b, i, k + 1, next)
        }
    }
}

pub open spec fn read_var(b: Seq<u8>, i: int) -> Option<(u64, int)> {
    read_var_from(b, i, 0, 0u64)
}

/// The bits a client ID may not use: yrs's client IDs fit in 53 bits.
pub const CLIENT_ID_MASK: u64 = 0xffe0_0000_0000_0000u64;

/// Among `remaining` entries from position `pos`, yrs reads a client ID past 53 bits (it reads
/// the client, then the clock, then takes the client ID), before any read fails. A clock is
/// read with the same byte loop as a client, so the same positions and failures apply.
pub open spec fn client_too_large_from(b: Seq<u8>, pos: int, remaining: nat) -> bool
    decreases remaining,
{
    if remaining == 0 {
        false
    } else {
        match read_var(b, pos) {
            None => false,
            Some((client, after_client)) => match read_var(b, after_client) {
                None => false,
                Some((_, after_clock)) => (client & CLIENT_ID_MASK) != 0 || client_too_large_from(
                    b,
                    after_clock,
                    (remaining - 1) as nat,
                ),
            },
        }
    }
}

/// A state vector names a client ID past 53 bits before decoding would fail. The entry count
/// is read as a 64-bit number; on a count that passed [`entry_count_refusal`] (at most five
/// bytes, below 2^32) that is the count yrs reads as a 32-bit one.
pub open spec fn state_vector_client_too_large(b: Seq<u8>) -> bool {
    match read_var(b, 0) {
        Some((count, used)) => client_too_large_from(b, used, count as nat),
        None => false,
    }
}

/// Whether a state vector names a client ID past 53 bits before decoding would fail.
fn state_vector_client_check(bytes: &[u8]) -> (result: bool)
    ensures
        result == state_vector_client_too_large(bytes@),
{
    match read_var_exec(bytes, 0) {
        Some((count, used)) => clients_too_large(bytes, used, count),
        None => false,
    }
}

/// Reads one variable-length integer the way yrs does.
fn read_var_exec(bytes: &[u8], i: usize) -> (result: Option<(u64, usize)>)
    ensures
        match read_var(bytes@, i as int) {
            Some((value, next)) => result matches Some((v, n)) && v == value && n as int == next,
            None => result is None,
        },
{
    let mut k: usize = 0;
    let mut acc: u64 = 0;
    while k <= 10
        invariant
            k <= 11,
            read_var(bytes@, i as int) == read_var_from(bytes@, i as int, k as nat, acc),
        decreases 11 - k,
    {
        if i >= bytes.len() || k >= bytes.len() - i {
            return None;
        }
        let r = bytes[i + k];
        let next = acc | (((r & 127u8) as u64) << (((7 * k) % 64) as u64));
        if r < 128 {
            return Some((next, i + k + 1));
        }
        if 7 * (k + 1) > 70 {
            return None;
        }
        acc = next;
        k = k + 1;
    }
    None
}

/// Whether yrs would read a client ID past 53 bits among `remaining` entries from `pos`.
fn clients_too_large(bytes: &[u8], from: usize, remaining: u64) -> (result: bool)
    ensures
        result == client_too_large_from(bytes@, from as int, remaining as nat),
{
    let ghost start = from;
    let mut pos = from;
    let mut left = remaining;
    while left > 0
        invariant
            start == from,
            client_too_large_from(bytes@, start as int, remaining as nat) == client_too_large_from(
                bytes@,
                pos as int,
                left as nat,
            ),
        decreases left,
    {
        let (client, after_client) = match read_var_exec(bytes, pos) {
            Some(read) => read,
            None => {
                assert(read_var(bytes@, pos as int) is None);
                assert(!client_too_large_from(bytes@, pos as int, left as nat));
                return false;
            },
        };
        assert(read_var(bytes@, pos as int) == Some((client, after_client as int)));
        let after_clock = match read_var_exec(bytes, after_client) {
            Some((_, next)) => next,
            None => {
                assert(read_var(bytes@, after_client as int) is None);
                assert(!client_too_large_from(bytes@, pos as int, left as nat));
                return false;
            },
        };
        if client & CLIENT_ID_MASK != 0 {
            return true;
        }
        pos = after_clock;
        left = left - 1;
    }
    false
}

/// yrs's 32-bit `read_var` over `b` from `i`, `k` bytes in with `acc` gathered: as
/// [`read_var_from`], with the shift taken modulo 32.
pub open spec fn read_var32_from(b: Seq<u8>, i: int, k: nat, acc: u32) -> Option<(u32, int)>
    decreases 11 - k,
{
    if i < 0 || i + k >= b.len() || k > 10 {
        None
    } else {
        let r = b[i + k];
        let next = acc | (((r & 127u8) as u32) << (((7 * k) % 32) as u32));
        if r < 128 {
            Some((next, i + k + 1))
        } else if 7 * (k + 1) > 70 {
            None
        } else {
            read_var32_from(b, i, k + 1, next)
        }
    }
}

pub open spec fn read_var32(b: Seq<u8>, i: int) -> Option<(u32, int)> {
    read_var32_from(b, i, 0, 0u32)
}

/// The entries a state vector decoded from `b` holds, from position `pos` with `remaining`
/// entries left: each entry is a client (a 64-bit variable-length integer) and its clock (a
/// 32-bit one); a later entry for the same client replaces an earlier one.
pub open spec fn entries_from(b: Seq<u8>, pos: int, remaining: nat, acc: Map<u64, u32>) -> Map<u64, u32>
    decreases remaining,
{
    if remaining == 0 {
        acc
    } else {
        match read_var(b, pos) {
            Some((client, after_client)) => match read_var32(b, after_client) {
                Some((clock, after_clock)) => entries_from(
                    b,
                    after_clock,
                    (remaining - 1) as nat,
                    acc.insert(client, clock),
                ),
                None => acc,
            },
            None => acc,
        }
    }
}

/// The entries of the state vector decoded from `b`: its entry count is read first, as a
/// 32-bit variable-length integer.
pub open spec fn decoded_entries(b: Seq<u8>) -> Map<u64, u32> {
    match read_var32(b, 0) {
        Some((count, used)) => entries_from(b, used, count as nat, Map::empty()),
        None => Map::empty(),
    }
}

/// What a state vector holds: each client's clock.
pub uninterp spec fn state_vector_entries(vector: StateVector) -> Map<u64, u32>;

/// How `StateVector::decode` fares on a version-1 decoder over `bytes`: the number of bytes it
/// reads, or the text of its error.
pub uninterp spec fn state_vector_decoding(bytes: Seq<u8>) -> Result<nat, Seq<char>>;

/// `StateVector::decode` on `DecoderV1::from(bytes)`, then `read_to_end` for what it left
/// unread. The contract names the outcome: on success the vector, which holds the entries the
/// bytes encode, and how many bytes are left, which `read_to_end` of a version-1 decoder always
/// reports; on failure the error's text. yrs builds its map with room for the entry count it
/// reads, and its `ClientID::new` asserts (under debug assertions) that an ID fits in 53 bits,
/// so the inputs on which either would fail are left out by `requires`; the callers check both.
#[verifier::external_body]
fn decode_state_vector_prefix(bytes: &[u8]) -> (result: Result<(StateVector, usize), String>)
    requires
        entry_count_refusal(bytes@) is None,
        !state_vector_client_too_large(bytes@),
    ensures
        match state_vector_decoding(bytes@) {
            Ok(read) => result matches Ok((vector, unread)) && unread + read == bytes@.len()
                && state_vector_entries(vector) == decoded_entries(bytes@),
            Err(text) => result matches Err(message) && message@ == text,
        },
{
    let mut decoder = DecoderV1::from(bytes);
    let vector = StateVector::decode(&mut decoder).map_err(|error| error.to_string())?;
    let unread = decoder.read_to_end().map_err(|error| error.to_string())?.len();
    Ok((vector, unread))
}

/// Why [`decode_state_vector_v1`] refuses `bytes`, if it does.
pub open spec fn state_vector_refusal(bytes: Seq<u8>) -> Option<Seq<char>> {
    if bytes.len() > MAX_STATE_VECTOR_BYTES {
        Some("state vector exceeds 1048576 bytes"@)
    } else {
        match entry_count_refusal(bytes) {
            Some(reason) => Some(reason),
            None => if state_vector_client_too_large(bytes) {
                Some("state vector names a client ID beyond 53 bits"@)
            } else {
                match state_vector_decoding(bytes) {
                    Ok(read) => if read == bytes.len() {
                        None
                    } else {
                        Some("state vector contains trailing bytes"@)
                    },
                    Err(text) => Some(text),
                }
            },
        }
    }
}

/// Decodes a peer's state vector, refusing oversized input, an implausible entry count and a
/// client ID past 53 bits before decoding, and trailing bytes after it. The vector holds the
/// entries the bytes encode.
pub fn decode_state_vector_v1(bytes: &[u8]) -> (result: Result<StateVector, String>)
    ensures
        bytes@.len() > MAX_STATE_VECTOR_BYTES ==> (result matches Err(message) && message@
            == "state vector exceeds 1048576 bytes"@),
        bytes@.len() <= MAX_STATE_VECTOR_BYTES ==> match entry_count_refusal(bytes@) {
            Some(reason) => result matches Err(message) && message@ == reason,
            None => if state_vector_client_too_large(bytes@) {
                result matches Err(message) && message@
                    == "state vector names a client ID beyond 53 bits"@
            } else { match state_vector_decoding(bytes@) {
                Ok(read) => if read == bytes@.len() {
                    result matches Ok(vector) && state_vector_entries(vector) == decoded_entries(bytes@)
                } else {
                    result matches Err(message) && message@ == "state vector contains trailing bytes"@
                },
                Err(text) => result matches Err(message) && message@ == text,
            } },
        },
        match state_vector_refusal(bytes@) {
            Some(reason) => result matches Err(message) && message@ == reason,
            None => result is Ok,
        },
{
    if bytes.len() > MAX_STATE_VECTOR_BYTES {
        return Err(owned("state vector exceeds 1048576 bytes"));
    }
    validate_state_vector_entry_count(bytes)?;
    if state_vector_client_check(bytes) {
        return Err(owned("state vector names a client ID beyond 53 bits"));
    }
    let (vector, unread) = decode_state_vector_prefix(bytes)?;
    if unread != 0 {
        return Err(owned("state vector contains trailing bytes"));
    }
    Ok(vector)
}

/// Refuses an update larger than [`MAX_UPDATE_BYTES`] before any decoding.
pub fn check_update_size(len: usize) -> (result: EditResult<()>)
    ensures
        len <= MAX_UPDATE_BYTES ==> result is Ok,
        len > MAX_UPDATE_BYTES ==> (result matches Err(EditError::InvalidUpdate(message))
            && message@ == "update exceeds 67108864 bytes"@),
{
    if len > MAX_UPDATE_BYTES {
        return Err(EditError::InvalidUpdate(owned("update exceeds 67108864 bytes")));
    }
    Ok(())
}

} // verus!
