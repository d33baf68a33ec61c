//! The encoded text as a sequence of characters, each of which carries one
//! or two chunks.

use vstd::prelude::*;
use crate::alphabet::{
    escape_code,
    escape_index,
    escape_lead,
    escape_payload,
    escape_trail,
    illegal_index_of,
    is_escape_code,
    lemma_escape_fields,
    ILLEGALS,
    SHORTENED,
};
use crate::bits::{all_seven_bit, bytes_of, chunks_of};

verus! {

/// The character that stands for a chunk that needs no escape.
pub open spec fn plain_unit(chunk: u8) -> char {
    chunk as char
}

/// The character that stands for the escape with the given fields.
pub open spec fn escape_unit(index: u8, payload: u8) -> char {
    escape_code(index, payload) as char
}

/// The chunks that the character `c` carries, or `None` where `c` is no
/// character of the alphabet. A character below 128 carries itself. An escape
/// with an illegal index carries the dangerous chunk of that index and then
/// its payload; an escape with the shortened marker carries its payload alone.
pub open spec fn unit_chunks(c: char) -> Option<Seq<u8>> {
    let v = c as u32;
    if v < 128 {
        Some(seq![v as u8])
    } else if is_escape_code(v) {
        if escape_index(v) == SHORTENED {
            Some(seq![escape_payload(v)])
        } else {
            Some(seq![ILLEGALS[escape_index(v) as int], escape_payload(v)])
        }
    } else {
        None
    }
}

/// Whether every character of `text` belongs to the alphabet.
pub open spec fn well_formed(text: Seq<char>) -> bool {
    forall|i: int| 0 <= i < text.len() ==> unit_chunks(#[trigger] text[i]) is Some
}

/// The chunks that `text` carries, character by character. A character
/// outside the alphabet carries nothing.
pub open spec fn text_chunks(text: Seq<char>) -> Seq<u8>
    decreases text.len(),
{
    if text.len() == 0 {
        Seq::empty()
    } else {
        text_chunks(text.drop_last()) + (match unit_chunks(text.last()) {
            Some(chunks) => chunks,
            None => Seq::empty(),
        })
    }
}

/// The bytes that a well-formed `text` decodes to.
pub open spec fn decoded_bytes(text: Seq<char>) -> Seq<u8> {
    bytes_of(text_chunks(text))
}

/// The text for the chunks from position `k` on. A chunk that is not
/// dangerous becomes its own character. A dangerous chunk becomes an escape
/// that takes the following chunk along as its payload; where nothing
/// follows, the escape is shortened and the dangerous chunk is its payload.
pub open spec fn encoded_from(chunks: Seq<u8>, k: int) -> Seq<char>
    decreases chunks.len() - k,
{
    if k < 0 || k >= chunks.len() {
        Seq::empty()
    } else {
        match illegal_index_of(chunks[k]) {
            None => seq![plain_unit(chunks[k])] + encoded_from(chunks, k + 1),
            Some(index) => if k + 1 < chunks.len() {
                seq![escape_unit(index, chunks[k + 1])] + encoded_from(chunks, k + 2)
            } else {
                seq![escape_unit(SHORTENED, chunks[k])]
            },
        }
    }
}

/// The text that `bytes` encode to.
pub open spec fn encoded_text(bytes: Seq<u8>) -> Seq<char> {
    encoded_from(chunks_of(bytes), 0)
}

/// The bytes of the text for the chunks from position `k` on: one byte for a
/// chunk that is not dangerous, the lead byte and the trail byte for an
/// escape.
pub open spec fn encoded_bytes_from(chunks: Seq<u8>, k: int) -> Seq<u8>
    decreases chunks.len() - k,
{
    if k < 0 || k >= chunks.len() {
        Seq::empty()
    } else {
        match illegal_index_of(chunks[k]) {
            None => seq![chunks[k]] + encoded_bytes_from(chunks, k + 1),
            Some(index) => if k + 1 < chunks.len() {
                seq![escape_lead(index, chunks[k + 1]), escape_trail(chunks[k + 1])]
                    + encoded_bytes_from(chunks, k + 2)
            } else {
                seq![escape_lead(SHORTENED, chunks[k]), escape_trail(chunks[k])]
            },
        }
    }
}

/// The bytes of the text that `bytes` encode to.
pub open spec fn encoded_bytes(bytes: Seq<u8>) -> Seq<u8> {
    encoded_bytes_from(chunks_of(bytes), 0)
}

/// A plain character carries the chunk it was made from.
pub proof fn lemma_plain_unit(chunk: u8)
    requires
        chunk < 128,
    ensures
        plain_unit(chunk) as u32 == chunk,
        unit_chunks(plain_unit(chunk)) == Some(seq![chunk]),
{
}

/// An escape carries the dangerous chunk of its index, if it has one, and
/// then its payload.
pub proof fn lemma_escape_unit(index: u8, payload: u8)
    requires
        index <= 7,
        index != 6,
        payload < 128,
    ensures
        escape_unit(index, payload) as u32 == escape_code(index, payload),
        unit_chunks(escape_unit(index, payload)) == Some(
            if index == SHORTENED {
                seq![payload]
            } else {
                seq![ILLEGALS[index as int], payload]
            },
        ),
{
    lemma_escape_fields(index, payload);
}

/// The chunks of two texts joined are the chunks of the first and then the
/// chunks of the second.
pub proof fn lemma_text_chunks_concat(a: Seq<char>, b: Seq<char>)
    ensures
        text_chunks(a + b) == text_chunks(a) + text_chunks(b),
    decreases b.len(),
{
    if b.len() == 0 {
        assert(a + b =~= a);
        assert(text_chunks(a) + text_chunks(b) =~= text_chunks(a));
    } else {
        lemma_text_chunks_concat(a, b.drop_last());
        assert((a + b).drop_last() =~= a + b.drop_last());
        assert((a + b).last() == b.last());
        let tail = match unit_chunks(b.last()) {
            Some(chunks) => chunks,
            None => Seq::empty(),
        };
        assert(text_chunks(a + b) == text_chunks(a + b.drop_last()) + tail);
        assert((text_chunks(a) + text_chunks(b.drop_last())) + tail =~= text_chunks(a) + (
        text_chunks(b.drop_last()) + tail));
    }
}

/// The chunks of a one-character text are the chunks of the character.
pub proof fn lemma_text_chunks_single(c: char)
    requires
        unit_chunks(c) is Some,
    ensures
        text_chunks(seq![c]) == unit_chunks(c)->0,
{
    let text = seq![c];
    assert(text.drop_last() =~= Seq::<char>::empty());
    assert(text_chunks(text.drop_last()) =~= Seq::<u8>::empty());
    assert(text.last() == c);
    assert(Seq::<u8>::empty() + unit_chunks(c)->0 =~= unit_chunks(c)->0);
}

/// Text made from seven-bit chunks is well formed, and carries exactly the
/// chunks it was made from.
pub proof fn lemma_encoded_from_chunks(chunks: Seq<u8>, k: int)
    requires
        all_seven_bit(chunks),
        0 <= k <= chunks.len(),
    ensures
        well_formed(encoded_from(chunks, k)),
        text_chunks(encoded_from(chunks, k)) == chunks.subrange(k, chunks.len() as int),
    decreases chunks.len() - k,
{
    let n = chunks.len() as int;
    if k >= n {
        assert(chunks.subrange(k, n) =~= Seq::<u8>::empty());
    } else {
        match illegal_index_of(chunks[k]) {
            None => {
                let head = plain_unit(chunks[k]);
                let rest = encoded_from(chunks, k + 1);
                lemma_plain_unit(chunks[k]);
                lemma_encoded_from_chunks(chunks, k + 1);
                lemma_text_chunks_single(head);
                lemma_text_chunks_concat(seq![head], rest);
                assert(seq![chunks[k]] + chunks.subrange(k + 1, n) =~= chunks.subrange(k, n));
                assert(well_formed(seq![head] + rest));
            },
            Some(index) => {
                if k + 1 < n {
                    let head = escape_unit(index, chunks[k + 1]);
                    let rest = encoded_from(chunks, k + 2);
                    lemma_escape_unit(index, chunks[k + 1]);
                    lemma_encoded_from_chunks(chunks, k + 2);
                    lemma_text_chunks_single(head);
                    lemma_text_chunks_concat(seq![head], rest);
                    assert(seq![chunks[k], chunks[k + 1]] + chunks.subrange(k + 2, n)
                        =~= chunks.subrange(k, n));
                    assert(well_formed(seq![head] + rest));
                } else {
                    let head = escape_unit(SHORTENED, chunks[k]);
                    lemma_escape_unit(SHORTENED, chunks[k]);
                    lemma_text_chunks_single(head);
                    assert(seq![chunks[k]] =~= chunks.subrange(k, n));
                    assert(well_formed(seq![head]));
                }
            },
        }
    }
}

} // verus!
