//! The bit stream shared by both directions of the codec.
//!
//! A byte buffer is read as a stream of bits, most significant bit of each
//! byte first. Cutting that stream every seven bits gives the chunks; the last
//! chunk is padded with zero bits. Cutting a chunk stream every eight bits
//! gives bytes again; bits that do not fill a byte are dropped.

use vstd::prelude::*;

verus! {

/// Bit `pos` of `byte`, where position 0 is the most significant bit.
pub open spec fn bit_of(byte: u8, pos: u8) -> bool {
    byte & (0x80u8 >> pos) != 0
}

/// The seven-bit value whose bits, most significant first, are `b0` to `b6`.
pub open spec fn value7(
    b0: bool,
    b1: bool,
    b2: bool,
    b3: bool,
    b4: bool,
    b5: bool,
    b6: bool,
) -> u8 {
    ((if b0 { 64int } else { 0 }) + (if b1 { 32int } else { 0 }) + (if b2 { 16int } else { 0 })
        + (if b3 { 8int } else { 0 }) + (if b4 { 4int } else { 0 }) + (if b5 { 2int } else { 0 })
        + (if b6 { 1int } else { 0 })) as u8
}

/// The eight-bit value whose bits, most significant first, are `b0` to `b7`.
pub open spec fn value8(
    b0: bool,
    b1: bool,
    b2: bool,
    b3: bool,
    b4: bool,
    b5: bool,
    b6: bool,
    b7: bool,
) -> u8 {
    ((if b0 { 128int } else { 0 }) + (if b1 { 64int } else { 0 }) + (if b2 { 32int } else { 0 })
        + (if b3 { 16int } else { 0 }) + (if b4 { 8int } else { 0 }) + (if b5 { 4int } else { 0 })
        + (if b6 { 2int } else { 0 }) + (if b7 { 1int } else { 0 })) as u8
}

/// Bit `i` of the stream that `bytes` spells out. Every position past the
/// end of the buffer reads as a zero bit.
pub open spec fn stream_bit(bytes: Seq<u8>, i: int) -> bool {
    0 <= i < 8 * bytes.len() && bit_of(bytes[i / 8], (i % 8) as u8)
}

/// How many chunks cover a buffer of `len` bytes: `8 * len / 7`, rounded up.
pub open spec fn chunk_count(len: nat) -> nat {
    ((8 * len + 6) / 7) as nat
}

/// Chunk number `k` of `bytes`: stream bits `7k` to `7k + 6`.
pub open spec fn chunk_at(bytes: Seq<u8>, k: int) -> u8 {
    value7(
        stream_bit(bytes, 7 * k),
        stream_bit(bytes, 7 * k + 1),
        stream_bit(bytes, 7 * k + 2),
        stream_bit(bytes, 7 * k + 3),
        stream_bit(bytes, 7 * k + 4),
        stream_bit(bytes, 7 * k + 5),
        stream_bit(bytes, 7 * k + 6),
    )
}

/// All chunks of `bytes`, in order.
pub open spec fn chunks_of(bytes: Seq<u8>) -> Seq<u8> {
    Seq::new(chunk_count(bytes.len()), |k: int| chunk_at(bytes, k))
}

/// Whether every element of `chunks` is a seven-bit value.
pub open spec fn all_seven_bit(chunks: Seq<u8>) -> bool {
    forall|k: int| 0 <= k < chunks.len() ==> chunks[k] < 128
}

/// Bit `i` of the stream that `chunks` spells out, seven bits to a chunk.
/// Every position past the last chunk reads as a zero bit.
pub open spec fn chunk_bit(chunks: Seq<u8>, i: int) -> bool {
    0 <= i < 7 * chunks.len() && bit_of(chunks[i / 7], (i % 7 + 1) as u8)
}

/// How many whole bytes `n` chunks hold: `7 * n / 8`, rounded down.
pub open spec fn byte_count(n: nat) -> nat {
    (7 * n / 8) as nat
}

/// Byte number `j` of a chunk stream: chunk-stream bits `8j` to `8j + 7`.
pub open spec fn byte_at(chunks: Seq<u8>, j: int) -> u8 {
    value8(
        chunk_bit(chunks, 8 * j),
        chunk_bit(chunks, 8 * j + 1),
        chunk_bit(chunks, 8 * j + 2),
        chunk_bit(chunks, 8 * j + 3),
        chunk_bit(chunks, 8 * j + 4),
        chunk_bit(chunks, 8 * j + 5),
        chunk_bit(chunks, 8 * j + 6),
        chunk_bit(chunks, 8 * j + 7),
    )
}

/// The whole bytes that `chunks` hold, in order. Trailing bits that do not
/// fill a byte are left out.
pub open spec fn bytes_of(chunks: Seq<u8>) -> Seq<u8> {
    Seq::new(byte_count(chunks.len()), |j: int| byte_at(chunks, j))
}

/// A byte is the value of its eight bits.
pub proof fn lemma_value8_of_bits(x: u8)
    by (bit_vector)
    ensures
        value8(
            bit_of(x, 0),
            bit_of(x, 1),
            bit_of(x, 2),
            bit_of(x, 3),
            bit_of(x, 4),
            bit_of(x, 5),
            bit_of(x, 6),
            bit_of(x, 7),
        ) == x,
{
}

/// A seven-bit value is the value of its low seven bits.
pub proof fn lemma_value7_of_bits(x: u8)
    by (bit_vector)
    requires
        x < 128,
    ensures
        value7(
            bit_of(x, 1),
            bit_of(x, 2),
            bit_of(x, 3),
            bit_of(x, 4),
            bit_of(x, 5),
            bit_of(x, 6),
            bit_of(x, 7),
        ) == x,
{
}

/// The bits of `value8` are the bits it was built from.
pub proof fn lemma_bits_of_value8(
    b0: bool,
    b1: bool,
    b2: bool,
    b3: bool,
    b4: bool,
    b5: bool,
    b6: bool,
    b7: bool,
)
    by (bit_vector)
    ensures
        bit_of(value8(b0, b1, b2, b3, b4, b5, b6, b7), 0) == b0,
        bit_of(value8(b0, b1, b2, b3, b4, b5, b6, b7), 1) == b1,
        bit_of(value8(b0, b1, b2, b3, b4, b5, b6, b7), 2) == b2,
        bit_of(value8(b0, b1, b2, b3, b4, b5, b6, b7), 3) == b3,
        bit_of(value8(b0, b1, b2, b3, b4, b5, b6, b7), 4) == b4,
        bit_of(value8(b0, b1, b2, b3, b4, b5, b6, b7), 5) == b5,
        bit_of(value8(b0, b1, b2, b3, b4, b5, b6, b7), 6) == b6,
        bit_of(value8(b0, b1, b2, b3, b4, b5, b6, b7), 7) == b7,
{
}

/// `value7` stays below 128, and its bits are the bits it was built from.
pub proof fn lemma_bits_of_value7(
    b0: bool,
    b1: bool,
    b2: bool,
    b3: bool,
    b4: bool,
    b5: bool,
    b6: bool,
)
    by (bit_vector)
    ensures
        value7(b0, b1, b2, b3, b4, b5, b6) < 128,
        bit_of(value7(b0, b1, b2, b3, b4, b5, b6), 1) == b0,
        bit_of(value7(b0, b1, b2, b3, b4, b5, b6), 2) == b1,
        bit_of(value7(b0, b1, b2, b3, b4, b5, b6), 3) == b2,
        bit_of(value7(b0, b1, b2, b3, b4, b5, b6), 4) == b3,
        bit_of(value7(b0, b1, b2, b3, b4, b5, b6), 5) == b4,
        bit_of(value7(b0, b1, b2, b3, b4, b5, b6), 6) == b5,
        bit_of(value7(b0, b1, b2, b3, b4, b5, b6), 7) == b6,
{
}

/// Every chunk cut from a byte buffer is a seven-bit value.
pub proof fn lemma_chunks_seven_bit(bytes: Seq<u8>)
    ensures
        all_seven_bit(chunks_of(bytes)),
{
    assert forall|k: int| 0 <= k < chunks_of(bytes).len() implies chunks_of(bytes)[k] < 128 by {
        lemma_bits_of_value7(
            stream_bit(bytes, 7 * k),
            stream_bit(bytes, 7 * k + 1),
            stream_bit(bytes, 7 * k + 2),
            stream_bit(bytes, 7 * k + 3),
            stream_bit(bytes, 7 * k + 4),
            stream_bit(bytes, 7 * k + 5),
            stream_bit(bytes, 7 * k + 6),
        );
    }
}

/// The chunks cut from a buffer of `len` bytes hold exactly `len` whole
/// bytes: the padding never amounts to a byte.
pub proof fn lemma_byte_count_of_chunk_count(len: nat)
    ensures
        byte_count(chunk_count(len)) == len,
{
}

/// The chunk stream of a buffer is the buffer's own bit stream, bit for bit.
pub proof fn lemma_chunk_stream(bytes: Seq<u8>, i: int)
    ensures
        chunk_bit(chunks_of(bytes), i) == stream_bit(bytes, i),
{
    let chunks = chunks_of(bytes);
    if 0 <= i < 7 * chunks.len() {
        let k = i / 7;
        lemma_bits_of_value7(
            stream_bit(bytes, 7 * k),
            stream_bit(bytes, 7 * k + 1),
            stream_bit(bytes, 7 * k + 2),
            stream_bit(bytes, 7 * k + 3),
            stream_bit(bytes, 7 * k + 4),
            stream_bit(bytes, 7 * k + 5),
            stream_bit(bytes, 7 * k + 6),
        );
        assert(chunks[k] == chunk_at(bytes, k));
    }
}

/// Bit `t` of byte `j` sits at position `8j + t` of the buffer's stream.
pub proof fn lemma_stream_bit_in_byte(bytes: Seq<u8>, j: int, t: int)
    requires
        0 <= j < bytes.len(),
        0 <= t < 8,
    ensures
        stream_bit(bytes, 8 * j + t) == bit_of(bytes[j], t as u8),
{
    assert((8 * j + t) / 8 == j);
    assert((8 * j + t) % 8 == t);
}

/// Byte `j` packed from a buffer's chunks is byte `j` of the buffer.
pub proof fn lemma_byte_at_chunks(bytes: Seq<u8>, j: int)
    requires
        0 <= j < bytes.len(),
    ensures
        byte_at(chunks_of(bytes), j) == bytes[j],
{
    let chunks = chunks_of(bytes);
    let x = bytes[j];
    assert(chunk_bit(chunks, 8 * j) == bit_of(x, 0)) by {
        lemma_chunk_stream(bytes, 8 * j);
        lemma_stream_bit_in_byte(bytes, j, 0);
    }
    assert(chunk_bit(chunks, 8 * j + 1) == bit_of(x, 1)) by {
        lemma_chunk_stream(bytes, 8 * j + 1);
        lemma_stream_bit_in_byte(bytes, j, 1);
    }
    assert(chunk_bit(chunks, 8 * j + 2) == bit_of(x, 2)) by {
        lemma_chunk_stream(bytes, 8 * j + 2);
        lemma_stream_bit_in_byte(bytes, j, 2);
    }
    assert(chunk_bit(chunks, 8 * j + 3) == bit_of(x, 3)) by {
        lemma_chunk_stream(bytes, 8 * j + 3);
        lemma_stream_bit_in_byte(bytes, j, 3);
    }
    assert(chunk_bit(chunks, 8 * j + 4) == bit_of(x, 4)) by {
        lemma_chunk_stream(bytes, 8 * j + 4);
        lemma_stream_bit_in_byte(bytes, j, 4);
    }
    assert(chunk_bit(chunks, 8 * j + 5) == bit_of(x, 5)) by {
        lemma_chunk_stream(bytes, 8 * j + 5);
        lemma_stream_bit_in_byte(bytes, j, 5);
    }
    assert(chunk_bit(chunks, 8 * j + 6) == bit_of(x, 6)) by {
        lemma_chunk_stream(bytes, 8 * j + 6);
        lemma_stream_bit_in_byte(bytes, j, 6);
    }
    assert(chunk_bit(chunks, 8 * j + 7) == bit_of(x, 7)) by {
        lemma_chunk_stream(bytes, 8 * j + 7);
        lemma_stream_bit_in_byte(bytes, j, 7);
    }
    lemma_value8_of_bits(x);
}

/// Cutting a buffer into chunks and packing the chunks into bytes gives the
/// buffer back.
pub proof fn lemma_bytes_of_chunks(bytes: Seq<u8>)
    ensures
        bytes_of(chunks_of(bytes)) == bytes,
{
    let chunks = chunks_of(bytes);
    lemma_byte_count_of_chunk_count(bytes.len());
    assert forall|j: int| 0 <= j < bytes.len() implies byte_at(chunks, j) == bytes[j] by {
        lemma_byte_at_chunks(bytes, j);
    }
    assert(bytes_of(chunks) =~= bytes);
}

} // verus!
