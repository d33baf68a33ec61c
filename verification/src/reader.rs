//! Reading a byte buffer seven bits at a time.

use vstd::prelude::*;
use crate::bits::{bit_of, chunk_at, chunk_count, lemma_value7_of_bits, stream_bit};

verus! {

/// A cursor over a byte buffer that hands out its chunks one by one.
pub struct BitReader<'a> {
    data: &'a [u8],
    /// Index of the byte that holds the next unread bit.
    byte_index: usize,
    /// Bits of that byte already handed out.
    bit_offset: u8,
}

/// Bit `p` of the sixteen-bit window made of `hi` and then `lo`.
spec fn window_bit(hi: u8, lo: u8, p: u8) -> bool {
    if p < 8 {
        bit_of(hi, p)
    } else {
        bit_of(lo, (p - 8) as u8)
    }
}

/// A stream bit read through the window that starts at byte `i`; `lo` stands
/// for the byte after it, or for zero where the buffer ends.
proof fn lemma_window_stream_bit(bytes: Seq<u8>, i: int, lo: u8, p: int)
    requires
        0 <= i < bytes.len(),
        0 <= p < 16,
        lo == (if i + 1 < bytes.len() {
            bytes[i + 1]
        } else {
            0u8
        }),
    ensures
        stream_bit(bytes, 8 * i + p) == window_bit(bytes[i], lo, p as u8),
{
    if p < 8 {
        assert((8 * i + p) / 8 == i);
        assert((8 * i + p) % 8 == p);
    } else {
        assert((8 * i + p) / 8 == i + 1);
        assert((8 * i + p) % 8 == p - 8);
        if i + 1 >= bytes.len() {
            assert(!bit_of(0u8, (p - 8) as u8)) by (bit_vector);
        }
    }
}

/// The seven bits that start `off` bits into the window made of `first` and
/// then `second`, as the shifts of `next_chunk` compute them.
spec fn cut(first: u8, second: u8, off: u8) -> u8 {
    ((((0b1111_1110u8 >> off) & first) << off) >> 1) | (((second as u16) >> ((9 - off) as u16))
        as u8)
}

/// What `cut` computes, bit by bit.
proof fn lemma_cut(first: u8, second: u8, off: u8)
    by (bit_vector)
    requires
        off < 8,
    ensures
        cut(first, second, off) < 128,
        bit_of(cut(first, second, off), 1) == window_bit(first, second, off),
        bit_of(cut(first, second, off), 2) == window_bit(first, second, (off + 1) as u8),
        bit_of(cut(first, second, off), 3) == window_bit(first, second, (off + 2) as u8),
        bit_of(cut(first, second, off), 4) == window_bit(first, second, (off + 3) as u8),
        bit_of(cut(first, second, off), 5) == window_bit(first, second, (off + 4) as u8),
        bit_of(cut(first, second, off), 6) == window_bit(first, second, (off + 5) as u8),
        bit_of(cut(first, second, off), 7) == window_bit(first, second, (off + 6) as u8),
{
}

impl<'a> BitReader<'a> {
    /// The buffer being read.
    pub closed spec fn source(&self) -> Seq<u8> {
        self.data@
    }

    /// How many chunks have been handed out so far.
    pub closed spec fn position(&self) -> nat {
        if self.byte_index < self.data@.len() {
            ((8 * self.byte_index + self.bit_offset) / 7) as nat
        } else {
            chunk_count(self.data@.len())
        }
    }

    /// The cursor stands on a chunk boundary inside the buffer, or at its end.
    pub closed spec fn wf(&self) -> bool {
        &&& self.byte_index <= self.data@.len()
        &&& self.bit_offset < 8
        &&& self.byte_index < self.data@.len() ==> (8 * self.byte_index + self.bit_offset) % 7
            == 0
    }

    /// The reader never runs past the last chunk.
    pub proof fn lemma_position_bound(&self)
        requires
            self.wf(),
        ensures
            self.position() <= chunk_count(self.source().len()),
    {
    }

    /// A reader at the first chunk of `data`.
    pub fn new(data: &'a [u8]) -> (r: Self)
        ensures
            r.wf(),
            r.source() == data@,
            r.position() == 0,
    {
        BitReader { data, byte_index: 0, bit_offset: 0 }
    }

    /// Hands out the next chunk, or `None` once every bit of the buffer has
    /// been handed out. The last chunk is filled up with zero bits.
    pub fn next_chunk(&mut self) -> (r: Option<u8>)
        requires
            old(self).wf(),
        ensures
            final(self).wf(),
            final(self).source() == old(self).source(),
            old(self).position() < chunk_count(old(self).source().len()) ==> r == Some(
                chunk_at(old(self).source(), old(self).position() as int),
            ) && final(self).position() == old(self).position() + 1,
            old(self).position() >= chunk_count(old(self).source().len()) ==> r is None
                && final(self).position() == old(self).position(),
    {
        if self.byte_index >= self.data.len() {
            return None;
        }
        let off: u8 = self.bit_offset;
        let first: u8 = self.data[self.byte_index];
        let second: u8 = if self.byte_index + 1 < self.data.len() {
            self.data[self.byte_index + 1]
        } else {
            0
        };
        // The unread bits of the current byte go to the top of the chunk, the
        // top bits of the next byte fill what is left of it.
        let high: u8 = (((0b1111_1110u8 >> off) & first) << off) >> 1;
        let low: u8 = ((second as u16) >> ((9 - off) as u16)) as u8;
        let chunk: u8 = high | low;
        proof {
            let bytes = self.data@;
            let i = self.byte_index as int;
            let k = (8 * i + off) / 7;
            assert(7 * k == 8 * i + off);
            lemma_cut(first, second, off);
            lemma_value7_of_bits(chunk);
            lemma_window_stream_bit(bytes, i, second, off as int);
            lemma_window_stream_bit(bytes, i, second, off + 1);
            lemma_window_stream_bit(bytes, i, second, off + 2);
            lemma_window_stream_bit(bytes, i, second, off + 3);
            lemma_window_stream_bit(bytes, i, second, off + 4);
            lemma_window_stream_bit(bytes, i, second, off + 5);
            lemma_window_stream_bit(bytes, i, second, off + 6);
            assert(chunk == chunk_at(bytes, k));
        }
        if off == 0 {
            self.bit_offset = 7;
        } else {
            self.bit_offset = off - 1;
            self.byte_index = self.byte_index + 1;
        }
        Some(chunk)
    }
}

} // verus!
