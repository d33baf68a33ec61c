//! The byte form of the text: how each character of the alphabet is laid out
//! in UTF-8, and the conversion from bytes to a `String`.

use vstd::prelude::*;
use vstd::utf8::{decode_utf8, encode_scalar, encode_utf8, valid_utf8};
use std::string::FromUtf8Error;
use crate::alphabet::{escape_code, escape_lead, escape_trail, illegal_index_of, SHORTENED};
use crate::bits::all_seven_bit;
use crate::text::{
    encoded_bytes_from,
    encoded_from,
    escape_unit,
    lemma_escape_unit,
    lemma_plain_unit,
    plain_unit,
};

verus! {

/// The error type of `String::from_utf8`. It is declared so that the result
/// of the call can be named; nothing is known of what a value of it holds.
#[verifier::external_type_specification]
#[verifier::external_body]
pub struct ExFromUtf8Error(FromUtf8Error);

/// Taken on trust of the standard library's `String::from_utf8`, as its
/// documentation states it: the call returns `Ok` exactly when the bytes are
/// valid UTF-8, and the string it then returns holds the characters that the
/// bytes spell. Nothing here proves this.
pub assume_specification[ String::from_utf8 ](vec: Vec<u8>) -> (r: Result<String, FromUtf8Error>)
    ensures
        r is Ok <==> valid_utf8(vec@),
        r matches Ok(s) ==> s@ == decode_utf8(vec@),
;

/// A character below 128 is a single byte of the same value.
pub proof fn lemma_plain_layout(chunk: u8)
    requires
        chunk < 128,
    ensures
        encode_scalar(chunk as u32) == seq![chunk],
{
    assert((chunk as u32 & 0x7F) as u8 == chunk) by (bit_vector)
        requires
            chunk < 128,
    ;
}

/// An escape is two bytes: its lead byte and its trail byte.
pub proof fn lemma_escape_layout(index: u8, payload: u8)
    requires
        index <= 7,
        payload < 128,
    ensures
        encode_scalar(escape_code(index, payload)) == seq![
            escape_lead(index, payload),
            escape_trail(payload),
        ],
{
    let v = escape_code(index, payload);
    assert(0xC0u8 | ((v >> 6) & 0x1F) as u8 == 0b1100_0010u8 | (index << 2) | (payload >> 6)
        && 0x80u8 | (v & 0x3F) as u8 == 0b1000_0000u8 | (payload & 0b0011_1111u8)) by (bit_vector)
        requires
            index <= 7,
            payload < 128,
            v == 256 * index + 128 + payload,
    ;
}

/// The bytes of a text are the bytes of its first character and then the
/// bytes of the rest.
pub proof fn lemma_encode_utf8_first(c: char, rest: Seq<char>)
    ensures
        encode_utf8(seq![c] + rest) == encode_scalar(c as u32) + encode_utf8(rest),
{
    let text = seq![c] + rest;
    assert(text[0] == c);
    assert(text.drop_first() =~= rest);
}

/// The text for the chunks from `k` on, written out in UTF-8, is the byte
/// form of that text.
pub proof fn lemma_encoded_bytes_from(chunks: Seq<u8>, k: int)
    requires
        all_seven_bit(chunks),
        0 <= k <= chunks.len(),
    ensures
        encode_utf8(encoded_from(chunks, k)) == encoded_bytes_from(chunks, k),
    decreases chunks.len() - k,
{
    if k < chunks.len() {
        match illegal_index_of(chunks[k]) {
            None => {
                lemma_plain_unit(chunks[k]);
                lemma_plain_layout(chunks[k]);
                lemma_encode_utf8_first(plain_unit(chunks[k]), encoded_from(chunks, k + 1));
                lemma_encoded_bytes_from(chunks, k + 1);
            },
            Some(index) => {
                if k + 1 < chunks.len() {
                    let unit = escape_unit(index, chunks[k + 1]);
                    lemma_escape_unit(index, chunks[k + 1]);
                    lemma_escape_layout(index, chunks[k + 1]);
                    lemma_encode_utf8_first(unit, encoded_from(chunks, k + 2));
                    lemma_encoded_bytes_from(chunks, k + 2);
                } else {
                    let unit = escape_unit(SHORTENED, chunks[k]);
                    lemma_escape_unit(SHORTENED, chunks[k]);
                    lemma_escape_layout(SHORTENED, chunks[k]);
                    lemma_encode_utf8_first(unit, Seq::<char>::empty());
                    assert(seq![unit] + Seq::<char>::empty() =~= seq![unit]);
                    assert(encode_scalar(unit as u32) + Seq::<u8>::empty() =~= encode_scalar(
                        unit as u32,
                    ));
                }
            },
        }
    }
}

} // verus!
