//! The fixed-size byte buffer with a bit cursor that the writer fills and the
//! reader drains. It performs no transfers itself.

use crate::bits::{bit_at, bits_of_bytes, get_bit, pad_len, set_bit};
use vstd::prelude::*;
use vstd::slice::slice_subrange;

verus! {

/// The number of bytes a buffer holds.
pub const BUFFER_LEN: usize = 4096;

/// The number of bits a buffer holds.
pub const BUFFER_BITS: usize = 32768;

/// A buffer of [`BUFFER_LEN`] bytes and the position of the next bit.
pub struct BitBuffer {
    bytes: Vec<u8>,
    position: usize,
}

impl BitBuffer {
    /// The bytes held, touched or not.
    pub closed spec fn bytes(&self) -> Seq<u8> {
        self.bytes@
    }

    /// The cursor: the index of the next bit.
    pub closed spec fn position(&self) -> nat {
        self.position as nat
    }

    /// The buffer has its full length and the cursor lies within it.
    pub open spec fn wf(&self) -> bool {
        &&& self.bytes().len() == BUFFER_LEN
        &&& self.position() <= BUFFER_BITS
    }

    /// All bits of the buffer.
    pub open spec fn bits(&self) -> Seq<bool> {
        bits_of_bytes(self.bytes())
    }

    /// The bits before the cursor.
    pub open spec fn head(&self) -> Seq<bool> {
        self.bits().take(self.position() as int)
    }

    /// Every bit from the cursor onwards is zero.
    pub open spec fn tail_is_zero(&self) -> bool {
        forall|i: int| self.position() <= i < BUFFER_BITS ==> !#[trigger] self.bits()[i]
    }

    /// The number of bytes that hold a bit before the cursor.
    pub open spec fn occupied(&self) -> nat {
        ((self.position() + 7) / 8) as nat
    }

    /// A zeroed buffer with the cursor at its start.
    pub fn new() -> (buffer: BitBuffer)
        ensures
            buffer.wf(),
            buffer.position() == 0,
            buffer.bytes() == Seq::new(BUFFER_LEN as nat, |i: int| 0u8),
            buffer.tail_is_zero(),
    {
        let bytes: Vec<u8> = vec![0u8; BUFFER_LEN];
        let buffer = BitBuffer { bytes, position: 0 };
        proof {
            lemma_zero_bytes_have_zero_bits(buffer.bytes());
        }
        buffer
    }

    /// The cursor.
    pub fn cursor(&self) -> (position: usize)
        ensures
            position == self.position(),
    {
        self.position
    }

    /// Whether the cursor has reached the end of the buffer.
    pub fn is_full(&self) -> (full: bool)
        ensures
            full == (self.position() >= BUFFER_BITS),
    {
        self.position >= BUFFER_BITS
    }

    /// Whether the cursor is on a byte boundary.
    pub fn is_aligned(&self) -> (aligned: bool)
        ensures
            aligned == (self.position() % 8 == 0),
    {
        self.position % 8 == 0
    }

    /// The number of bytes that hold a bit before the cursor.
    pub fn occupied_len(&self) -> (n: usize)
        requires
            self.wf(),
        ensures
            n == self.occupied(),
            n <= BUFFER_LEN,
    {
        (self.position + 7) / 8
    }

    /// The first `n` bytes of the buffer.
    pub fn prefix(&self, n: usize) -> (bytes: &[u8])
        requires
            self.wf(),
            n <= BUFFER_LEN,
        ensures
            bytes@ == self.bytes().take(n as int),
    {
        slice_subrange(self.bytes.as_slice(), 0, n)
    }

    /// Sets the bit under the cursor if `bit` is true, leaves it as it is
    /// otherwise, and moves the cursor one bit on.
    pub fn push_bit(&mut self, bit: bool)
        requires
            old(self).wf(),
            old(self).position() < BUFFER_BITS,
        ensures
            final(self).wf(),
            final(self).position() == old(self).position() + 1,
            final(self).bits() == old(self).bits().update(
                old(self).position() as int,
                old(self).bits()[old(self).position() as int] || bit,
            ),
    {
        let index: usize = self.position / 8;
        let offset: usize = self.position % 8;
        if bit {
            let before: u8 = self.bytes[index];
            let after: u8 = set_bit(before, offset as u32);
            self.bytes.set(index, after);
            proof {
                let old_bits = old(self).bits();
                let new_bits = self.bits();
                let p: int = old(self).position() as int;
                let set_bits = old_bits.update(p, true);
                assert forall|k: int| 0 <= k < new_bits.len() implies new_bits[k]
                    == set_bits[k] by {
                    if k / 8 == index {
                        assert(bit_at(after as u64, (k % 8) as nat) == (bit_at(
                            before as u64,
                            (k % 8) as nat,
                        ) || (k % 8) as nat == offset));
                    }
                }
            }
        } else {
            assert(self.bits() =~= old(self).bits().update(
                old(self).position() as int,
                old(self).bits()[old(self).position() as int] || bit,
            ));
        }
        self.position = self.position + 1;
    }

    /// Stores `byte` in the byte under the cursor, which is on a byte
    /// boundary, and moves the cursor eight bits on.
    pub fn push_byte(&mut self, byte: u8)
        requires
            old(self).wf(),
            old(self).position() % 8 == 0,
            old(self).position() < BUFFER_BITS,
        ensures
            final(self).wf(),
            final(self).position() == old(self).position() + 8,
            final(self).bytes() == old(self).bytes().update(old(self).position() as int / 8, byte),
    {
        let index: usize = self.position / 8;
        self.bytes.set(index, byte);
        self.position = self.position + 8;
    }

    /// Moves the cursor up to the next byte boundary; the bytes stay as
    /// they are.
    pub fn align(&mut self)
        requires
            old(self).wf(),
        ensures
            final(self).wf(),
            final(self).bytes() == old(self).bytes(),
            final(self).position() == old(self).position() + pad_len(old(self).position()),
            final(self).position() % 8 == 0,
    {
        self.position = ((self.position + 7) / 8) * 8;
    }

    /// The bit under the cursor, as 0 or 1; the cursor moves one bit on.
    pub fn next_bit(&mut self) -> (bit: u8)
        requires
            old(self).wf(),
            old(self).position() < BUFFER_BITS,
        ensures
            final(self).wf(),
            final(self).bytes() == old(self).bytes(),
            final(self).position() == old(self).position() + 1,
            bit == (if old(self).bits()[old(self).position() as int] { 1u8 } else { 0u8 }),
    {
        let index: usize = self.position / 8;
        let offset: usize = self.position % 8;
        let bit: u8 = get_bit(self.bytes[index] as u64, offset as u32);
        self.position = self.position + 1;
        bit
    }

    /// The byte under the cursor, which is on a byte boundary; the cursor
    /// moves eight bits on.
    pub fn next_byte(&mut self) -> (byte: u8)
        requires
            old(self).wf(),
            old(self).position() % 8 == 0,
            old(self).position() < BUFFER_BITS,
        ensures
            final(self).wf(),
            final(self).bytes() == old(self).bytes(),
            final(self).position() == old(self).position() + 8,
            byte == old(self).bytes()[old(self).position() as int / 8],
    {
        let byte: u8 = self.bytes[self.position / 8];
        self.position = self.position + 8;
        byte
    }

    /// Zeroes the buffer and moves the cursor to its start.
    pub fn clear(&mut self)
        ensures
            final(self).wf(),
            final(self).position() == 0,
            final(self).bytes() == Seq::new(BUFFER_LEN as nat, |i: int| 0u8),
            final(self).tail_is_zero(),
    {
        self.bytes = vec![0u8; BUFFER_LEN];
        self.position = 0;
        proof {
            lemma_zero_bytes_have_zero_bits(self.bytes());
        }
    }

    /// Replaces the first bytes of the buffer by `data`, as far as the
    /// buffer reaches, leaves the bytes behind them as they are, and moves
    /// the cursor to its start. Returns the number of bytes taken.
    pub fn load(&mut self, data: &[u8]) -> (taken: usize)
        requires
            old(self).wf(),
        ensures
            final(self).wf(),
            final(self).position() == 0,
            taken == (if data@.len() < BUFFER_LEN { data@.len() } else { BUFFER_LEN as nat }),
            final(self).bytes().take(taken as int) == data@.take(taken as int),
            final(self).bytes().skip(taken as int) == old(self).bytes().skip(taken as int),
    {
        let taken: usize = if data.len() < BUFFER_LEN { data.len() } else { BUFFER_LEN };
        let mut i: usize = 0;
        while i < taken
            invariant
                i <= taken,
                taken <= BUFFER_LEN,
                taken <= data@.len(),
                self.bytes@.len() == BUFFER_LEN,
                self.position == old(self).position,
                self.bytes@.take(i as int) == data@.take(i as int),
                forall|k: int| i <= k < BUFFER_LEN ==> self.bytes@[k] == old(self).bytes@[k],
            decreases taken - i,
        {
            let byte: u8 = data[i];
            self.bytes.set(i, byte);
            assert(self.bytes@.take(i + 1) =~= data@.take(i + 1));
            i = i + 1;
        }
        self.position = 0;
        taken
    }
}

/// A byte string of zeros has only zero bits.
pub proof fn lemma_zero_bytes_have_zero_bits(bytes: Seq<u8>)
    requires
        forall|i: int| 0 <= i < bytes.len() ==> bytes[i] == 0,
    ensures
        forall|k: int| 0 <= k < 8 * bytes.len() ==> !#[trigger] bits_of_bytes(bytes)[k],
{
    assert forall|k: int| 0 <= k < 8 * bytes.len() implies !#[trigger] bits_of_bytes(bytes)[k] by {
        let j: u64 = (k % 8) as u64;
        assert(!((0u64 >> j) & 1 == 1)) by (bit_vector);
    }
}

} // verus!
