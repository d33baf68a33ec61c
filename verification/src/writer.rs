//! Packing seven-bit chunks back into bytes.

use vstd::prelude::*;
use crate::bits::{all_seven_bit, bit_of, byte_at, byte_count, bytes_of, chunk_bit, value8};

verus! {

/// An accumulator that takes chunks one by one and gives out a byte whenever
/// eight bits have come together.
pub struct BitWriter {
    /// The bits waiting for a full byte, at the top of the byte; the rest of
    /// it is zero.
    acc_byte: u8,
    /// How many bits are waiting.
    acc_bits: u8,
    /// Every chunk pushed so far.
    chunks: Ghost<Seq<u8>>,
}

impl View for BitWriter {
    type V = Seq<u8>;

    /// The chunks pushed so far, in order.
    closed spec fn view(&self) -> Seq<u8> {
        self.chunks@
    }
}

/// A bit of the chunk stream that lies in chunk `k`.
proof fn lemma_chunk_bit_in_chunk(chunks: Seq<u8>, k: int, m: int)
    requires
        0 <= k < chunks.len(),
        0 <= m < 7,
    ensures
        chunk_bit(chunks, 7 * k + m) == bit_of(chunks[k], (m + 1) as u8),
{
    assert((7 * k + m) / 7 == k);
    assert((7 * k + m) % 7 == m);
}

/// Pushing a chunk leaves the earlier bits of the chunk stream as they were,
/// puts the new chunk's bits behind them, and nothing behind those.
proof fn lemma_chunk_bit_push(chunks: Seq<u8>, chunk: u8, i: int)
    requires
        0 <= i,
    ensures
        i < 7 * chunks.len() ==> chunk_bit(chunks.push(chunk), i) == chunk_bit(chunks, i),
        7 * chunks.len() <= i < 7 * chunks.len() + 7 ==> chunk_bit(chunks.push(chunk), i)
            == bit_of(chunk, (i - 7 * chunks.len() + 1) as u8),
        7 * chunks.len() <= i ==> !chunk_bit(chunks, i),
        7 * chunks.len() + 7 <= i ==> !chunk_bit(chunks.push(chunk), i),
{
    let n = chunks.len() as int;
    if i < 7 * n {
        assert(i / 7 < n);
        assert(chunks.push(chunk)[i / 7] == chunks[i / 7]);
    } else if i < 7 * n + 7 {
        lemma_chunk_bit_in_chunk(chunks.push(chunk), n, i - 7 * n);
    }
}

impl BitWriter {
    /// Every chunk taken so far was a seven-bit value, and the accumulator
    /// holds exactly the bits that have not yet filled a byte.
    pub closed spec fn wf(&self) -> bool {
        &&& all_seven_bit(self.chunks@)
        &&& self.acc_bits == (7 * self.chunks@.len()) % 8
        &&& self.acc_byte == byte_at(self.chunks@, byte_count(self.chunks@.len()) as int)
    }

    /// A writer that has taken no chunk yet.
    pub fn new() -> (w: Self)
        ensures
            w.wf(),
            w@ == Seq::<u8>::empty(),
    {
        BitWriter { acc_byte: 0, acc_bits: 0, chunks: Ghost(Seq::empty()) }
    }

    /// Takes one chunk. Returns the byte that this chunk completed, if it
    /// completed one: the bytes packed from the chunks grow by exactly the
    /// byte returned.
    pub fn push(&mut self, chunk: u8) -> (r: Option<u8>)
        requires
            old(self).wf(),
            chunk < 128,
        ensures
            final(self).wf(),
            final(self)@ == old(self)@.push(chunk),
            bytes_of(final(self)@) == (match r {
                Some(b) => bytes_of(old(self)@).push(b),
                None => bytes_of(old(self)@),
            }),
    {
        let ghost before = self.chunks@;
        let ghost after = before.push(chunk);
        let ghost n: int = before.len() as int;
        let ghost j: int = byte_count(before.len()) as int;
        let ghost acc: u8 = self.acc_byte;
        let a: u8 = self.acc_bits;
        let shifted: u8 = chunk << 1;
        proof {
            assert(8 * j + a == 7 * n);
            assert forall|t: int| 0 <= t < 8 implies #[trigger] chunk_bit(after, 8 * j + t) == (if t
                < a {
                chunk_bit(before, 8 * j + t)
            } else {
                bit_of(chunk, (t - a + 1) as u8)
            }) && (t >= a ==> !chunk_bit(before, 8 * j + t)) by {
                lemma_chunk_bit_push(before, chunk, 8 * j + t);
                if t - a == 7 {
                    assert(!bit_of(chunk, 8)) by (bit_vector);
                }
            }
            assert forall|t: int| 0 <= t < 8 implies #[trigger] chunk_bit(after, 8 * j + 8 + t)
                == (0 <= 8 - a + t < 7 && bit_of(chunk, (8 - a + t + 1) as u8)) by {
                lemma_chunk_bit_push(before, chunk, 8 * j + 8 + t);
            }
            assert(all_seven_bit(after));
        }
        self.chunks = Ghost(after);
        if a == 0 {
            self.acc_byte = shifted;
            self.acc_bits = 7;
            proof {
                assert(byte_count(after.len()) == j);
                lemma_pending_first(chunk, shifted);
                assert(bytes_of(after) =~= bytes_of(before));
            }
            None
        } else {
            let full: u8 = self.acc_byte | (shifted >> a);
            let rest: u8 = shifted << (8 - a);
            self.acc_bits = a - 1;
            self.acc_byte = rest;
            proof {
                assert(byte_count(after.len()) == j + 1);
                lemma_bits_of_acc(before, j);
                lemma_completed(acc, chunk, a, full, rest);
                assert(full == byte_at(after, j));
                assert(rest == byte_at(after, j + 1));
                assert forall|q: int| 0 <= q < j implies byte_at(after, q) == byte_at(
                    before,
                    q,
                ) by {
                    lemma_byte_at_push(before, chunk, q);
                }
                assert(bytes_of(after) =~= bytes_of(before).push(full));
            }
            Some(full)
        }
    }
}

/// The bits of byte `j` of a chunk stream are the stream's bits `8j` to
/// `8j + 7`.
proof fn lemma_bits_of_acc(chunks: Seq<u8>, j: int)
    ensures
        bit_of(byte_at(chunks, j), 0) == chunk_bit(chunks, 8 * j),
        bit_of(byte_at(chunks, j), 1) == chunk_bit(chunks, 8 * j + 1),
        bit_of(byte_at(chunks, j), 2) == chunk_bit(chunks, 8 * j + 2),
        bit_of(byte_at(chunks, j), 3) == chunk_bit(chunks, 8 * j + 3),
        bit_of(byte_at(chunks, j), 4) == chunk_bit(chunks, 8 * j + 4),
        bit_of(byte_at(chunks, j), 5) == chunk_bit(chunks, 8 * j + 5),
        bit_of(byte_at(chunks, j), 6) == chunk_bit(chunks, 8 * j + 6),
        bit_of(byte_at(chunks, j), 7) == chunk_bit(chunks, 8 * j + 7),
{
    crate::bits::lemma_bits_of_value8(
        chunk_bit(chunks, 8 * j),
        chunk_bit(chunks, 8 * j + 1),
        chunk_bit(chunks, 8 * j + 2),
        chunk_bit(chunks, 8 * j + 3),
        chunk_bit(chunks, 8 * j + 4),
        chunk_bit(chunks, 8 * j + 5),
        chunk_bit(chunks, 8 * j + 6),
        chunk_bit(chunks, 8 * j + 7),
    );
}

/// A byte that the chunks had already filled does not change when another
/// chunk is pushed.
proof fn lemma_byte_at_push(chunks: Seq<u8>, chunk: u8, q: int)
    requires
        0 <= q < byte_count(chunks.len()),
    ensures
        byte_at(chunks.push(chunk), q) == byte_at(chunks, q),
{
    lemma_chunk_bit_push(chunks, chunk, 8 * q);
    lemma_chunk_bit_push(chunks, chunk, 8 * q + 1);
    lemma_chunk_bit_push(chunks, chunk, 8 * q + 2);
    lemma_chunk_bit_push(chunks, chunk, 8 * q + 3);
    lemma_chunk_bit_push(chunks, chunk, 8 * q + 4);
    lemma_chunk_bit_push(chunks, chunk, 8 * q + 5);
    lemma_chunk_bit_push(chunks, chunk, 8 * q + 6);
    lemma_chunk_bit_push(chunks, chunk, 8 * q + 7);
}

/// A chunk pushed into an empty accumulator fills its top seven bits.
proof fn lemma_pending_first(chunk: u8, shifted: u8)
    by (bit_vector)
    requires
        chunk < 128,
        shifted == chunk << 1,
    ensures
        shifted == value8(
            bit_of(chunk, 1),
            bit_of(chunk, 2),
            bit_of(chunk, 3),
            bit_of(chunk, 4),
            bit_of(chunk, 5),
            bit_of(chunk, 6),
            bit_of(chunk, 7),
            false,
        ),
{
}

/// Bit `t` of the byte that a chunk completes: one of the `a` waiting bits,
/// or a bit from the top of the chunk.
spec fn completed_bit(acc: u8, chunk: u8, a: u8, t: u8) -> bool {
    if t < a {
        bit_of(acc, t)
    } else {
        bit_of(chunk, (t - a + 1) as u8)
    }
}

/// Bit `t` of what stays behind once a chunk has completed a byte: the low
/// `a - 1` bits of the chunk, moved to the top.
spec fn carried_bit(chunk: u8, a: u8, t: u8) -> bool {
    t + 1 < a && bit_of(chunk, (9 - a + t) as u8)
}

/// What the shifts of `push` compute when `a` bits were waiting: the byte
/// completed and the bits carried over, bit by bit.
proof fn lemma_completed(acc: u8, chunk: u8, a: u8, full: u8, rest: u8)
    by (bit_vector)
    requires
        chunk < 128,
        1 <= a <= 7,
        a <= 1 ==> !bit_of(acc, 1),
        a <= 2 ==> !bit_of(acc, 2),
        a <= 3 ==> !bit_of(acc, 3),
        a <= 4 ==> !bit_of(acc, 4),
        a <= 5 ==> !bit_of(acc, 5),
        a <= 6 ==> !bit_of(acc, 6),
        a <= 7 ==> !bit_of(acc, 7),
        full == acc | ((chunk << 1) >> a),
        rest == (chunk << 1) << ((8 - a) as u8),
    ensures
        full == value8(
            completed_bit(acc, chunk, a, 0),
            completed_bit(acc, chunk, a, 1),
            completed_bit(acc, chunk, a, 2),
            completed_bit(acc, chunk, a, 3),
            completed_bit(acc, chunk, a, 4),
            completed_bit(acc, chunk, a, 5),
            completed_bit(acc, chunk, a, 6),
            completed_bit(acc, chunk, a, 7),
        ),
        rest == value8(
            carried_bit(chunk, a, 0),
            carried_bit(chunk, a, 1),
            carried_bit(chunk, a, 2),
            carried_bit(chunk, a, 3),
            carried_bit(chunk, a, 4),
            carried_bit(chunk, a, 5),
            carried_bit(chunk, a, 6),
            carried_bit(chunk, a, 7),
        ),
{
}

} // verus!
