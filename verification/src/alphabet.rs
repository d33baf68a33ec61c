//! The output alphabet: which chunks may stand in the text as they are, and
//! the two-byte escape that carries the others.

use vstd::prelude::*;

verus! {

/// The six chunk values that never appear as a character of their own: NUL,
/// line feed, carriage return, double quote, ampersand and backslash. The
/// position of a value in this table is its illegal index.
pub const ILLEGALS: [u8; 6] = [0, 10, 13, 34, 38, 92];

/// The index value of an escape that carries a single chunk: the dangerous
/// chunk that ended the stream, with nothing after it.
pub const SHORTENED: u8 = 7;

/// The illegal index of `chunk`, if it is dangerous.
pub open spec fn illegal_index_of(chunk: u8) -> Option<u8> {
    if chunk == ILLEGALS[0] {
        Some(0u8)
    } else if chunk == ILLEGALS[1] {
        Some(1u8)
    } else if chunk == ILLEGALS[2] {
        Some(2u8)
    } else if chunk == ILLEGALS[3] {
        Some(3u8)
    } else if chunk == ILLEGALS[4] {
        Some(4u8)
    } else if chunk == ILLEGALS[5] {
        Some(5u8)
    } else {
        None
    }
}

/// Whether `chunk` has to be escaped.
pub open spec fn is_dangerous(chunk: u8) -> bool {
    illegal_index_of(chunk) is Some
}

/// The scalar value of the escape with the given index field and payload:
/// the index in bits 8 to 10, bit 7 set, the payload in bits 0 to 6.
pub open spec fn escape_code(index: u8, payload: u8) -> u32 {
    (256 * index + 128 + payload) as u32
}

/// Whether the scalar value `v` has the shape of an escape: eleven bits, bit 7
/// set, and an index field that is an illegal index or the shortened marker.
pub open spec fn is_escape_code(v: u32) -> bool {
    &&& 128 <= v < 2048
    &&& v % 256 >= 128
    &&& v / 256 != 6
}

/// The index field of an escape.
pub open spec fn escape_index(v: u32) -> u8 {
    (v / 256) as u8
}

/// The payload of an escape.
pub open spec fn escape_payload(v: u32) -> u8 {
    (v % 128) as u8
}

/// The first byte of an escape in the text's byte form: `110` and the index
/// field, then a set bit, then the top bit of the payload.
pub open spec fn escape_lead(index: u8, payload: u8) -> u8 {
    0b1100_0010u8 | (index << 2) | (payload >> 6)
}

/// The second byte of an escape in the text's byte form: `10`, then the low
/// six bits of the payload.
pub open spec fn escape_trail(payload: u8) -> u8 {
    0b1000_0000u8 | (payload & 0b0011_1111u8)
}

/// Finds the illegal index of `chunk`.
pub fn illegal_index(chunk: u8) -> (r: Option<u8>)
    ensures
        r == illegal_index_of(chunk),
        r matches Some(k) ==> k < 6 && ILLEGALS[k as int] == chunk,
{
    let mut i: u8 = 0;
    while i < 6
        invariant
            i <= 6,
            forall|k: int| 0 <= k < i ==> ILLEGALS[k] != chunk,
        decreases 6 - i,
    {
        if ILLEGALS[i as usize] == chunk {
            return Some(i);
        }
        i += 1;
    }
    None
}

/// An escape's fields give its scalar value back, and the scalar value of an
/// escape built from fields has those fields.
pub proof fn lemma_escape_fields(index: u8, payload: u8)
    requires
        index <= 7,
        index != 6,
        payload < 128,
    ensures
        is_escape_code(escape_code(index, payload)),
        escape_index(escape_code(index, payload)) == index,
        escape_payload(escape_code(index, payload)) == payload,
{
}

/// Every scalar value with the shape of an escape is the escape of its own
/// fields.
pub proof fn lemma_escape_code_of_fields(v: u32)
    requires
        is_escape_code(v),
    ensures
        escape_index(v) <= 7,
        escape_index(v) != 6,
        escape_payload(v) < 128,
        escape_code(escape_index(v), escape_payload(v)) == v,
{
}

} // verus!
