//! What holds of the codec as a whole.

use vstd::prelude::*;
use vstd::utf8::{encode_scalar, encode_utf8};
use crate::alphabet::{
    escape_index,
    escape_lead,
    escape_payload,
    escape_trail,
    illegal_index_of,
    is_dangerous,
    is_escape_code,
    lemma_escape_code_of_fields,
};
use crate::bits::{
    bytes_of,
    chunk_count,
    chunks_of,
    lemma_bytes_of_chunks,
    lemma_chunks_seven_bit,
};
use crate::text::{
    decoded_bytes,
    encoded_bytes,
    encoded_bytes_from,
    encoded_text,
    lemma_encoded_from_chunks,
    text_chunks,
    unit_chunks,
    well_formed,
};
use crate::utf8::{lemma_encoded_bytes_from, lemma_escape_layout, lemma_plain_layout};

verus! {

/// The length in bytes of the text that `bytes` encode to.
pub open spec fn encoded_len(bytes: Seq<u8>) -> nat {
    encoded_bytes(bytes).len()
}

/// Whether none of the chunks of `bytes` is dangerous.
pub open spec fn no_dangerous_chunk(bytes: Seq<u8>) -> bool {
    forall|k: int| 0 <= k < chunks_of(bytes).len() ==> !is_dangerous(#[trigger] chunks_of(bytes)[k])
}

/// Round trip: the text that any byte sequence encodes to is well formed,
/// and decodes to that byte sequence.
pub proof fn lemma_round_trip(bytes: Seq<u8>)
    ensures
        well_formed(encoded_text(bytes)),
        decoded_bytes(encoded_text(bytes)) == bytes,
{
    let chunks = chunks_of(bytes);
    lemma_chunks_seven_bit(bytes);
    lemma_encoded_from_chunks(chunks, 0);
    assert(chunks.subrange(0, chunks.len() as int) =~= chunks);
    lemma_bytes_of_chunks(bytes);
}

/// The chunks that the encoded text carries are the chunks of the input, no
/// more and no fewer.
pub proof fn lemma_encoded_text_chunks(bytes: Seq<u8>)
    ensures
        text_chunks(encoded_text(bytes)) == chunks_of(bytes),
{
    let chunks = chunks_of(bytes);
    lemma_chunks_seven_bit(bytes);
    lemma_encoded_from_chunks(chunks, 0);
    assert(chunks.subrange(0, chunks.len() as int) =~= chunks);
}

/// The bytes of the encoded text, as UTF-8 writes them, are
/// `encoded_bytes`: nothing but single bytes below 128 and the lead and trail
/// bytes of escapes.
pub proof fn lemma_byte_form(bytes: Seq<u8>)
    ensures
        encode_utf8(encoded_text(bytes)) == encoded_bytes(bytes),
{
    lemma_chunks_seven_bit(bytes);
    lemma_encoded_bytes_from(chunks_of(bytes), 0);
}

/// The empty byte sequence encodes to the empty text, and the empty text is
/// well formed and decodes to the empty byte sequence.
pub proof fn lemma_empty()
    ensures
        encoded_text(Seq::<u8>::empty()) == Seq::<char>::empty(),
        well_formed(Seq::<char>::empty()),
        decoded_bytes(Seq::<char>::empty()) == Seq::<u8>::empty(),
{
    assert(chunks_of(Seq::<u8>::empty()) =~= Seq::<u8>::empty());
    assert(bytes_of(Seq::<u8>::empty()) =~= Seq::<u8>::empty());
}

/// The byte form of a character of the alphabet: a character below 128 is
/// one byte of that value, and an escape is its lead byte followed by its
/// trail byte. Nothing in the alphabet takes three bytes or more.
pub proof fn lemma_unit_layout(c: char)
    requires
        unit_chunks(c) is Some,
    ensures
        c as u32 <= 127 ==> encode_scalar(c as u32) == seq![c as u8],
        c as u32 > 127 ==> is_escape_code(c as u32) && encode_scalar(c as u32) == seq![
            escape_lead(escape_index(c as u32), escape_payload(c as u32)),
            escape_trail(escape_payload(c as u32)),
        ],
{
    let v = c as u32;
    if v <= 127 {
        lemma_plain_layout(v as u8);
    } else {
        lemma_escape_code_of_fields(v);
        lemma_escape_layout(escape_index(v), escape_payload(v));
    }
}

/// Output validity: every character of the text that a byte sequence encodes
/// to is a chunk below 128 or a well-formed escape.
pub proof fn lemma_output_valid(bytes: Seq<u8>, i: int)
    requires
        0 <= i < encoded_text(bytes).len(),
    ensures
        encoded_text(bytes)[i] as u32 <= 127 || is_escape_code(encoded_text(bytes)[i] as u32),
{
    lemma_round_trip(bytes);
    assert(unit_chunks(encoded_text(bytes)[i]) is Some);
}

/// The byte length of the text for the chunks from `k` on: at least one byte
/// for each chunk, at most one byte more than that and at most two for each
/// chunk, and exactly one for each chunk where none of them is dangerous.
proof fn lemma_len_from(chunks: Seq<u8>, k: int)
    requires
        0 <= k <= chunks.len(),
    ensures
        chunks.len() - k <= encoded_bytes_from(chunks, k).len() <= chunks.len() - k + 1,
        encoded_bytes_from(chunks, k).len() <= 2 * (chunks.len() - k),
        (forall|q: int| k <= q < chunks.len() ==> !is_dangerous(#[trigger] chunks[q]))
            ==> encoded_bytes_from(chunks, k).len() == chunks.len() - k,
    decreases chunks.len() - k,
{
    if k < chunks.len() {
        match illegal_index_of(chunks[k]) {
            None => {
                lemma_len_from(chunks, k + 1);
            },
            Some(index) => {
                assert(is_dangerous(chunks[k]));
                if k + 1 < chunks.len() {
                    lemma_len_from(chunks, k + 2);
                }
            },
        }
    }
}

/// Density: the encoded text is never shorter than the input and never
/// longer than two bytes for each chunk; it is at most one byte longer than
/// the number of chunks; and where no chunk is dangerous it has exactly one
/// byte for each chunk, that is `8 * len / 7` bytes, rounded up.
pub proof fn lemma_density(bytes: Seq<u8>)
    ensures
        bytes.len() <= encoded_len(bytes) <= 2 * chunk_count(bytes.len()),
        chunk_count(bytes.len()) <= encoded_len(bytes) <= chunk_count(bytes.len()) + 1,
        no_dangerous_chunk(bytes) ==> encoded_len(bytes) == chunk_count(bytes.len()),
{
    lemma_len_from(chunks_of(bytes), 0);
}

} // verus!
