//! Encoding: from bytes to text.

use vstd::prelude::*;
use vstd::utf8::{encode_utf8, encode_utf8_decode_utf8, encode_utf8_valid_utf8};
use crate::alphabet::{escape_lead, escape_trail, illegal_index, SHORTENED};
use crate::bits::{all_seven_bit, chunks_of, lemma_bytes_of_chunks, lemma_chunks_seven_bit};
use crate::reader::BitReader;
use crate::text::{
    decoded_bytes,
    encoded_bytes,
    encoded_bytes_from,
    encoded_text,
    lemma_encoded_from_chunks,
    well_formed,
};
use crate::utf8::lemma_encoded_bytes_from;

verus! {

/// The two bytes of the escape with the given index field and payload.
pub fn escape_bytes(index: u8, payload: u8) -> (b: (u8, u8))
    requires
        index <= 7,
        payload < 128,
    ensures
        b.0 == escape_lead(index, payload),
        b.1 == escape_trail(payload),
{
    let lead: u8 = 0b1100_0010u8 | (index << 2) | (payload >> 6);
    let trail: u8 = 0b1000_0000u8 | (payload & 0b0011_1111u8);
    (lead, trail)
}

/// Encodes `data` as text. Every byte sequence has an encoding; the empty
/// one encodes to the empty text.
///
/// The text is `encoded_text(data@)`: one character below 128 for each chunk
/// that is not dangerous, one escape for each dangerous chunk and the chunk
/// behind it. Its bytes are `encoded_bytes(data@)`. It is well formed, and it
/// decodes to `data` again.
pub fn encode(data: &[u8]) -> (text: String)
    ensures
        text@ == encoded_text(data@),
        encode_utf8(text@) == encoded_bytes(data@),
        well_formed(text@),
        decoded_bytes(text@) == data@,
        data@.len() == 0 ==> text@.len() == 0,
{
    let ghost chunks = chunks_of(data@);
    proof {
        lemma_chunks_seven_bit(data@);
        lemma_encoded_from_chunks(chunks, 0);
        lemma_encoded_bytes_from(chunks, 0);
        lemma_bytes_of_chunks(data@);
        assert(chunks.subrange(0, chunks.len() as int) =~= chunks);
    }
    if data.len() == 0 {
        return String::new();
    }
    let mut reader = BitReader::new(data);
    let mut out: Vec<u8> = Vec::new();
    proof {
        assert(out@ + encoded_bytes_from(chunks, 0) =~= encoded_bytes_from(chunks, 0));
    }
    loop
        invariant
            reader.wf(),
            reader.source() == data@,
            chunks == chunks_of(data@),
            all_seven_bit(chunks),
            reader.position() <= chunks.len(),
            out@ + encoded_bytes_from(chunks, reader.position() as int) == encoded_bytes_from(
                chunks,
                0,
            ),
        ensures
            out@ == encoded_bytes_from(chunks, 0),
        decreases chunks.len() - reader.position(),
    {
        let ghost k: int = reader.position() as int;
        let ghost done = out@;
        let bits: u8 = match reader.next_chunk() {
            Some(bits) => bits,
            None => {
                proof {
                    assert(out@ + Seq::<u8>::empty() =~= out@);
                }
                break ;
            },
        };
        assert(bits == chunks[k]);
        match illegal_index(bits) {
            None => {
                out.push(bits);
                proof {
                    assert(out@ + encoded_bytes_from(chunks, k + 1) =~= done + (seq![bits]
                        + encoded_bytes_from(chunks, k + 1)));
                }
            },
            Some(index) => {
                // The escape takes the next chunk along; where none is left,
                // it is shortened and carries the dangerous chunk itself.
                let (lead, trail) = match reader.next_chunk() {
                    Some(next) => escape_bytes(index, next),
                    None => escape_bytes(SHORTENED, bits),
                };
                out.push(lead);
                out.push(trail);
                proof {
                    let rest = encoded_bytes_from(chunks, reader.position() as int);
                    assert(out@ + rest =~= done + (seq![lead, trail] + rest));
                    assert(seq![lead, trail] + Seq::<u8>::empty() =~= seq![lead, trail]);
                }
            },
        }
        proof {
            reader.lemma_position_bound();
        }
    }
    proof {
        encode_utf8_valid_utf8(encoded_text(data@));
        encode_utf8_decode_utf8(encoded_text(data@));
    }
    String::from_utf8(out).unwrap()
}

} // verus!
