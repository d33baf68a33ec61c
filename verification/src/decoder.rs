//! Decoding: from text back to bytes.

use vstd::prelude::*;
use vstd::std_specs::iter::IteratorSpec;
use crate::alphabet::{
    escape_index,
    escape_payload,
    is_escape_code,
    ILLEGALS,
    SHORTENED,
};
use crate::bits::bytes_of;
use crate::text::{decoded_bytes, text_chunks, unit_chunks, well_formed};
use crate::writer::BitWriter;

verus! {

broadcast use vstd::string::group_string_axioms;

/// Why a text could not be decoded.
#[derive(Debug, Clone, Copy, PartialEq, Eq, Structural)]
pub enum DecodeError {
    /// The text holds a character that is neither a chunk below 128 nor a
    /// well-formed two-byte escape.
    InvalidSequence,
}

/// The index field and the payload of the scalar value `v`, if `v` has the
/// shape of an escape.
pub fn escape_fields(v: u32) -> (r: Option<(u8, u8)>)
    ensures
        r is Some <==> is_escape_code(v),
        r matches Some(fields) ==> fields.0 == escape_index(v) && fields.1 == escape_payload(v),
{
    if v < 128 || v >= 2048 {
        return None;
    }
    let index: u8 = (v >> 8) as u8;
    let payload: u8 = (v & 127) as u8;
    let marked: bool = v & 128 != 0;
    assert((v >> 8) == v / 256 && (v & 127) == v % 128 && (v & 128 != 0) == (v % 256 >= 128)
        && (v >> 8) < 8) by (bit_vector)
        requires
            v < 2048,
    ;
    if marked && index != 6 {
        Some((index, payload))
    } else {
        None
    }
}

/// Hands `chunk` to the writer and stores the byte it completes, if any.
fn push_chunk(writer: &mut BitWriter, out: &mut Vec<u8>, chunk: u8)
    requires
        old(writer).wf(),
        chunk < 128,
        old(out)@ == bytes_of(old(writer)@),
    ensures
        final(writer).wf(),
        final(writer)@ == old(writer)@.push(chunk),
        final(out)@ == bytes_of(final(writer)@),
{
    match writer.push(chunk) {
        Some(byte) => {
            out.push(byte);
        },
        None => {},
    }
}

/// Decodes `encoded` to the bytes it stands for.
///
/// Succeeds exactly on well-formed text, and then returns
/// `decoded_bytes(encoded@)`: the chunks that the characters carry, packed
/// eight bits to a byte, without the bits left over at the end. Fails with
/// `InvalidSequence` as soon as a character outside the alphabet is met.
pub fn decode(encoded: &str) -> (r: Result<Vec<u8>, DecodeError>)
    ensures
        match r {
            Ok(bytes) => well_formed(encoded@) && bytes@ == decoded_bytes(encoded@),
            Err(e) => !well_formed(encoded@) && e == DecodeError::InvalidSequence,
        },
        encoded@.len() == 0 ==> r is Ok && r->Ok_0@.len() == 0,
{
    let mut out: Vec<u8> = Vec::new();
    let mut writer = BitWriter::new();
    let mut chars = encoded.chars();
    let ghost text = encoded@;
    let ghost mut k: int = 0;
    proof {
        assert(text.take(0) =~= Seq::<char>::empty());
        assert(text.subrange(0, text.len() as int) =~= text);
        assert(bytes_of(Seq::<u8>::empty()) =~= Seq::<u8>::empty());
    }
    loop
        invariant
            text == encoded@,
            0 <= k <= text.len(),
            chars.remaining() == text.subrange(k, text.len() as int),
            well_formed(text.take(k)),
            writer.wf(),
            writer@ == text_chunks(text.take(k)),
            out@ == bytes_of(writer@),
            text.len() == 0 ==> out@.len() == 0,
        decreases text.len() - k,
    {
        let c: char = match chars.next() {
            Some(c) => c,
            None => {
                proof {
                    assert(text.take(k) =~= text);
                }
                return Ok(out);
            },
        };
        let v: u32 = c as u32;
        proof {
            assert(c == text[k]);
            assert(text.take(k + 1).drop_last() =~= text.take(k));
            assert(text.take(k + 1).last() == c);
            assert(text.subrange(k, text.len() as int).drop_first() =~= text.subrange(
                k + 1,
                text.len() as int,
            ));
        }
        let ghost before = writer@;
        if v < 128 {
            push_chunk(&mut writer, &mut out, v as u8);
            proof {
                assert(before + seq![v as u8] =~= before.push(v as u8));
            }
        } else {
            match escape_fields(v) {
                Some((index, payload)) => {
                    if index != SHORTENED {
                        let dangerous: u8 = ILLEGALS[index as usize];
                        push_chunk(&mut writer, &mut out, dangerous);
                        push_chunk(&mut writer, &mut out, payload);
                        proof {
                            assert(before + seq![dangerous, payload] =~= before.push(
                                dangerous,
                            ).push(payload));
                        }
                    } else {
                        push_chunk(&mut writer, &mut out, payload);
                        proof {
                            assert(before + seq![payload] =~= before.push(payload));
                        }
                    }
                },
                None => {
                    proof {
                        assert(unit_chunks(text[k]) is None);
                    }
                    return Err(DecodeError::InvalidSequence);
                },
            }
        }
        proof {
            assert(unit_chunks(c) is Some);
            assert forall|i: int| 0 <= i < k + 1 implies unit_chunks(
                #[trigger] text.take(k + 1)[i],
            ) is Some by {
                if i < k {
                    assert(text.take(k + 1)[i] == text.take(k)[i]);
                }
            }
            k = k + 1;
        }
    }
}

} // verus!
