//! The bit reader: the mirror image of the writer. It refills its buffer
//! from the source whenever the buffer is exhausted, and reports the end of
//! the source as [`CodecError::UnexpectedEof`].
//!
//! Byte-level reads are strict: on a cursor that is not on a byte boundary
//! they fail with [`CodecError::Alignment`] and change nothing.

use crate::bits::{
    bits_of_bytes, bits_value, lemma_unfold_fold, pad_len, u64_from_le, u64_of_le_bytes,
};
use crate::block::{
    lemma_name_len, name_len, parse_block, string_from_utf8, ArchiveBlock, BlockView,
    HEADER_TAIL_LEN,
};
use crate::buffer::{BitBuffer, BUFFER_BITS, BUFFER_LEN};
use crate::error::CodecError;
use crate::sink::ByteSource;
use crate::symbol::SymbolCode;
use vstd::prelude::*;
use vstd::slice::slice_subrange;
use vstd::utf8::encode_utf8_decode_utf8;

verus! {

/// What reading one bit at `pos` gives, and where the cursor stands after.
pub open spec fn read_bit_model(bits: Seq<bool>, pos: nat) -> (Result<u8, CodecError>, nat) {
    if pos < bits.len() {
        (Ok(if bits[pos as int] { 1u8 } else { 0u8 }), pos + 1)
    } else {
        (Err(CodecError::UnexpectedEof), pos)
    }
}

/// What reading `count` bits at `pos` as a number gives, least significant
/// bit first. Where the source ends before, the cursor is left at its end.
pub open spec fn read_low_bits_model(bits: Seq<bool>, pos: nat, count: nat) -> (
    Result<u64, CodecError>,
    nat,
) {
    if pos + count <= bits.len() {
        (Ok(bits_value(bits.subrange(pos as int, (pos + count) as int))), pos + count)
    } else {
        (Err(CodecError::UnexpectedEof), bits.len())
    }
}

/// What reading one byte at `pos` gives.
pub open spec fn read_byte_model(bytes: Seq<u8>, pos: nat) -> (Result<u8, CodecError>, nat) {
    if pos % 8 != 0 {
        (Err(CodecError::Alignment), pos)
    } else if pos / 8 < bytes.len() {
        (Ok(bytes[pos as int / 8]), pos + 8)
    } else {
        (Err(CodecError::UnexpectedEof), pos)
    }
}

/// What reading a 64-bit little-endian integer at `pos` gives. Where the
/// source ends before, the cursor is left at its end.
pub open spec fn read_u64_model(bytes: Seq<u8>, pos: nat) -> (Result<u64, CodecError>, nat) {
    if pos % 8 != 0 {
        (Err(CodecError::Alignment), pos)
    } else if pos / 8 + 8 <= bytes.len() {
        (Ok(u64_from_le(bytes.subrange(pos as int / 8, pos as int / 8 + 8))), pos + 64)
    } else {
        (Err(CodecError::UnexpectedEof), 8 * bytes.len())
    }
}

/// What reading a block header at `pos` gives. A truncated header leaves
/// the cursor at the end of the source, a malformed one behind the header.
pub open spec fn read_block_model(bytes: Seq<u8>, pos: nat) -> (
    Result<BlockView, CodecError>,
    nat,
) {
    if pos % 8 != 0 {
        (Err(CodecError::Alignment), pos)
    } else {
        let rest = bytes.skip(pos as int / 8);
        match parse_block(rest) {
            Ok((block, taken)) => (Ok(block), pos + 8 * taken),
            Err(CodecError::MalformedHeader) => (
                Err(CodecError::MalformedHeader),
                (pos + 8 * (name_len(rest) + HEADER_TAIL_LEN)) as nat,
            ),
            Err(e) => (Err(e), 8 * bytes.len()),
        }
    }
}

/// A bit reader over a [`ByteSource`], with one buffer of [`BUFFER_LEN`]
/// bytes.
pub struct FileReader {
    source: ByteSource,
    buffer: BitBuffer,
    filled: usize,
}

impl FileReader {
    /// The source.
    pub closed spec fn spec_source(&self) -> ByteSource {
        self.source
    }

    /// The buffer.
    pub closed spec fn spec_buffer(&self) -> BitBuffer {
        self.buffer
    }

    /// The number of bits of the buffer that hold bits of the source.
    pub closed spec fn spec_filled(&self) -> nat {
        self.filled as nat
    }

    /// The number of bytes of the source that came before those in the
    /// buffer.
    pub open spec fn base(&self) -> int {
        self.spec_source().consumed() - self.spec_filled() / 8
    }

    /// The buffer holds the bytes of the source that were handed out last,
    /// and the cursor lies within them.
    pub open spec fn inv(&self) -> bool {
        &&& self.spec_source().wf()
        &&& self.spec_buffer().wf()
        &&& self.spec_filled() % 8 == 0
        &&& self.spec_filled() <= BUFFER_BITS
        &&& self.spec_buffer().position() <= self.spec_filled()
        &&& self.base() >= 0
        &&& self.spec_buffer().bytes().take(self.spec_filled() as int / 8)
            == self.spec_source().bytes().subrange(
            self.base(),
            self.spec_source().consumed() as int,
        )
    }

    /// All bytes of the source, read or not.
    pub open spec fn source_bytes(&self) -> Seq<u8> {
        self.spec_source().bytes()
    }

    /// All bits of the source, read or not.
    pub open spec fn source_bits(&self) -> Seq<bool> {
        bits_of_bytes(self.source_bytes())
    }

    /// The cursor within the buffer.
    pub open spec fn cursor(&self) -> int {
        self.spec_buffer().position() as int
    }

    /// The number of bits read so far.
    pub open spec fn position(&self) -> nat {
        (8 * self.base() + self.spec_buffer().position()) as nat
    }

    /// A reader at the point up to which `source` was handed out.
    pub fn new(source: ByteSource) -> (reader: FileReader)
        requires
            source.wf(),
        ensures
            reader.inv(),
            reader.source_bytes() == source.bytes(),
            reader.position() == 8 * source.consumed(),
    {
        let reader = FileReader { source, buffer: BitBuffer::new(), filled: 0 };
        assert(reader.spec_buffer().bytes().take(0) =~= reader.spec_source().bytes().subrange(
            reader.base(),
            reader.spec_source().consumed() as int,
        ));
        reader
    }

    /// The number of whole bytes read so far.
    pub fn byte_position(&self) -> (n: usize)
        requires
            self.inv(),
        ensures
            n == self.position() / 8,
    {
        self.source.consumed_len() - self.filled / 8 + self.buffer.cursor() / 8
    }

    /// Whether the cursor is on a byte boundary.
    pub fn is_aligned(&self) -> (aligned: bool)
        requires
            self.inv(),
        ensures
            aligned == (self.position() % 8 == 0),
    {
        self.buffer.is_aligned()
    }

    /// Makes sure that the buffer holds the bit under the cursor, refilling
    /// it from the source where it is exhausted.
    fn ensure_available(&mut self) -> (r: Result<(), CodecError>)
        requires
            old(self).inv(),
        ensures
            final(self).inv(),
            final(self).source_bytes() == old(self).source_bytes(),
            final(self).position() == old(self).position(),
            r is Ok <==> old(self).position() < old(self).source_bits().len(),
            r is Ok ==> final(self).spec_buffer().position() < final(self).spec_filled(),
            r is Err ==> r == Err::<(), CodecError>(CodecError::UnexpectedEof),
    {
        if self.buffer.cursor() >= self.filled {
            let n: usize = self.source.fill(&mut self.buffer);
            self.filled = 8 * n;
            if n == 0 {
                assert(self.spec_buffer().bytes().take(0) =~= self.spec_source().bytes().subrange(
                    self.base(),
                    self.spec_source().consumed() as int,
                ));
                return Err(CodecError::UnexpectedEof);
            }
        }
        Ok(())
    }

    /// Reads one bit.
    pub fn read_bit(&mut self) -> (r: Result<u8, CodecError>)
        requires
            old(self).inv(),
        ensures
            final(self).inv(),
            final(self).source_bytes() == old(self).source_bytes(),
            r == read_bit_model(old(self).source_bits(), old(self).position()).0,
            final(self).position() == read_bit_model(
                old(self).source_bits(),
                old(self).position(),
            ).1,
    {
        match self.ensure_available() {
            Ok(()) => {},
            Err(e) => {
                return Err(e);
            },
        }
        proof {
            self.lemma_bit_under_cursor();
        }
        let bit: u8 = self.buffer.next_bit();
        Ok(bit)
    }

    /// The bit under the cursor of the buffer is the bit of the source at
    /// the position of the reader.
    proof fn lemma_bit_under_cursor(self)
        requires
            self.inv(),
            self.spec_buffer().position() < self.spec_filled(),
        ensures
            self.position() < self.source_bits().len(),
            self.source_bits()[self.position() as int] == self.spec_buffer().bits()[self.cursor()],
    {
        let p: int = self.spec_buffer().position() as int;
        let held = self.spec_buffer().bytes().take(self.spec_filled() as int / 8);
        assert(held[p / 8] == self.source_bytes()[self.base() + p / 8]);
    }

    /// Moves the cursor up to the next byte boundary, past the padding.
    pub fn align_to_byte(&mut self) -> (r: Result<(), CodecError>)
        requires
            old(self).inv(),
        ensures
            final(self).inv(),
            r is Ok,
            final(self).source_bytes() == old(self).source_bytes(),
            final(self).position() == old(self).position() + pad_len(old(self).position()),
    {
        self.buffer.align();
        Ok(())
    }

    /// Reads one byte; the cursor must be on a byte boundary.
    pub fn read_byte(&mut self) -> (r: Result<u8, CodecError>)
        requires
            old(self).inv(),
        ensures
            final(self).inv(),
            final(self).source_bytes() == old(self).source_bytes(),
            r == read_byte_model(old(self).source_bytes(), old(self).position()).0,
            final(self).position() == read_byte_model(
                old(self).source_bytes(),
                old(self).position(),
            ).1,
    {
        if !self.buffer.is_aligned() {
            return Err(CodecError::Alignment);
        }
        match self.ensure_available() {
            Ok(()) => {},
            Err(e) => {
                return Err(e);
            },
        }
        proof {
            let p: int = self.spec_buffer().position() as int;
            let held = self.spec_buffer().bytes().take(self.spec_filled() as int / 8);
            assert(held[p / 8] == self.source_bytes()[self.base() + p / 8]);
        }
        let byte: u8 = self.buffer.next_byte();
        Ok(byte)
    }

    /// Reads `count` bits as a number, least significant bit first.
    fn read_low_bits(&mut self, count: u8) -> (r: Result<u64, CodecError>)
        requires
            old(self).inv(),
            count <= 64,
        ensures
            final(self).inv(),
            final(self).source_bytes() == old(self).source_bytes(),
            r == read_low_bits_model(
                old(self).source_bits(),
                old(self).position(),
                count as nat,
            ).0,
            final(self).position() == read_low_bits_model(
                old(self).source_bits(),
                old(self).position(),
                count as nat,
            ).1,
    {
        let ghost bits = self.source_bits();
        let ghost start: int = self.position() as int;
        let mut value: u64 = 0;
        let mut i: u8 = 0;
        while i < count
            invariant
                i <= count <= 64,
                self.inv(),
                self.source_bytes() == old(self).source_bytes(),
                bits == self.source_bits(),
                start == old(self).position(),
                self.position() == start + i,
                start + i <= bits.len(),
                value == bits_value(bits.subrange(start, start + i)),
            decreases count - i,
        {
            let bit: u8 = match self.read_bit() {
                Ok(bit) => bit,
                Err(e) => {
                    return Err(e);
                },
            };
            let shifted: u64 = (bit as u64) << i;
            proof {
                let grown = bits.subrange(start, start + i + 1);
                assert(grown.drop_last() =~= bits.subrange(start, start + i));
                let k: u64 = i as u64;
                assert(shifted == (if bit == 1 { 1u64 << k } else { 0 })) by (bit_vector)
                    requires
                        bit == 0 || bit == 1,
                        k < 64,
                        shifted == (bit as u64) << k,
                ;
            }
            value = value | shifted;
            i = i + 1;
        }
        Ok(value)
    }

    /// Reads `count` bits as a number, least significant bit first.
    pub fn read_bits(&mut self, count: u8) -> (r: Result<u8, CodecError>)
        requires
            old(self).inv(),
            count <= 8,
        ensures
            final(self).inv(),
            final(self).source_bytes() == old(self).source_bytes(),
            match r {
                Ok(v) => read_low_bits_model(
                    old(self).source_bits(),
                    old(self).position(),
                    count as nat,
                ).0 == Ok::<u64, CodecError>(v as u64),
                Err(e) => read_low_bits_model(
                    old(self).source_bits(),
                    old(self).position(),
                    count as nat,
                ).0 == Err::<u64, CodecError>(e),
            },
            final(self).position() == read_low_bits_model(
                old(self).source_bits(),
                old(self).position(),
                count as nat,
            ).1,
    {
        match self.read_low_bits(count) {
            Ok(v) => {
                proof {
                    let window = old(self).source_bits().subrange(
                        old(self).position() as int,
                        old(self).position() + count,
                    );
                    lemma_unfold_fold(window);
                    let n: u64 = count as u64;
                    assert(v < 256) by (bit_vector)
                        requires
                            n <= 8,
                            v & !(0xffff_ffff_ffff_ffffu64 << n) == v,
                    ;
                }
                Ok(v as u8)
            },
            Err(e) => Err(e),
        }
    }

    /// Reads a code of `bit_len` bits, least significant bit first.
    pub fn read_symbol(&mut self, bit_len: u8) -> (r: Result<SymbolCode, CodecError>)
        requires
            old(self).inv(),
            1 <= bit_len <= 64,
        ensures
            final(self).inv(),
            final(self).source_bytes() == old(self).source_bytes(),
            match r {
                Ok(code) => code.wf() && code.spec_bit_len() == bit_len && read_low_bits_model(
                    old(self).source_bits(),
                    old(self).position(),
                    bit_len as nat,
                ).0 == Ok::<u64, CodecError>(code.spec_pattern()),
                Err(e) => read_low_bits_model(
                    old(self).source_bits(),
                    old(self).position(),
                    bit_len as nat,
                ).0 == Err::<u64, CodecError>(e),
            },
            final(self).position() == read_low_bits_model(
                old(self).source_bits(),
                old(self).position(),
                bit_len as nat,
            ).1,
    {
        match self.read_low_bits(bit_len) {
            Ok(v) => {
                proof {
                    let window = old(self).source_bits().subrange(
                        old(self).position() as int,
                        old(self).position() + bit_len,
                    );
                    lemma_unfold_fold(window);
                }
                Ok(SymbolCode::from_canonical(v, bit_len))
            },
            Err(e) => Err(e),
        }
    }

    /// Reads `count` bytes; the cursor must be on a byte boundary.
    fn read_bytes(&mut self, count: usize) -> (r: Result<Vec<u8>, CodecError>)
        requires
            old(self).inv(),
            old(self).position() % 8 == 0,
        ensures
            final(self).inv(),
            final(self).source_bytes() == old(self).source_bytes(),
            final(self).position() % 8 == 0,
            r is Ok <==> old(self).position() / 8 + count <= old(self).source_bytes().len(),
            r matches Ok(bytes) ==> bytes@ == old(self).source_bytes().subrange(
                old(self).position() as int / 8,
                old(self).position() as int / 8 + count,
            ) && final(self).position() == old(self).position() + 8 * count,
            r matches Err(e) ==> e == CodecError::UnexpectedEof && final(self).position() == 8
                * old(self).source_bytes().len(),
    {
        let ghost all = self.source_bytes();
        let ghost first: int = self.position() as int / 8;
        let mut bytes: Vec<u8> = Vec::new();
        let mut i: usize = 0;
        while i < count
            invariant
                i <= count,
                self.inv(),
                self.source_bytes() == old(self).source_bytes(),
                all == self.source_bytes(),
                first == old(self).position() as int / 8,
                old(self).position() % 8 == 0,
                self.position() == 8 * (first + i),
                first + i <= all.len(),
                bytes@ == all.subrange(first, first + i),
            decreases count - i,
        {
            let byte: u8 = match self.read_byte() {
                Ok(byte) => byte,
                Err(e) => {
                    return Err(e);
                },
            };
            bytes.push(byte);
            i = i + 1;
        }
        Ok(bytes)
    }

    /// Reads a 64-bit integer, least significant byte first; the cursor
    /// must be on a byte boundary.
    pub fn read_u64(&mut self) -> (r: Result<u64, CodecError>)
        requires
            old(self).inv(),
        ensures
            final(self).inv(),
            final(self).source_bytes() == old(self).source_bytes(),
            r == read_u64_model(old(self).source_bytes(), old(self).position()).0,
            final(self).position() == read_u64_model(
                old(self).source_bytes(),
                old(self).position(),
            ).1,
    {
        if !self.buffer.is_aligned() {
            return Err(CodecError::Alignment);
        }
        match self.read_bytes(8) {
            Ok(bytes) => Ok(u64_of_le_bytes(bytes.as_slice())),
            Err(e) => Err(e),
        }
    }

    /// Reads a block header: the name up to its zero byte, then the four
    /// integers; the cursor must be on a byte boundary.
    pub fn read_block(&mut self) -> (r: Result<ArchiveBlock, CodecError>)
        requires
            old(self).inv(),
        ensures
            final(self).inv(),
            final(self).source_bytes() == old(self).source_bytes(),
            match r {
                Ok(block) => block.wf() && read_block_model(
                    old(self).source_bytes(),
                    old(self).position(),
                ).0 == Ok::<BlockView, CodecError>(block@),
                Err(e) => read_block_model(old(self).source_bytes(), old(self).position()).0
                    == Err::<BlockView, CodecError>(e),
            },
            final(self).position() == read_block_model(
                old(self).source_bytes(),
                old(self).position(),
            ).1,
    {
        if !self.buffer.is_aligned() {
            return Err(CodecError::Alignment);
        }
        let ghost all = self.source_bytes();
        let ghost first: int = self.position() as int / 8;
        let ghost rest = all.skip(first);
        let mut name: Vec<u8> = Vec::new();
        let mut ended: bool = false;
        while !ended
            invariant
                self.inv(),
                self.source_bytes() == old(self).source_bytes(),
                all == self.source_bytes(),
                first == old(self).position() as int / 8,
                old(self).position() % 8 == 0,
                0 <= first <= all.len(),
                rest == all.skip(first),
                name@.len() <= rest.len(),
                name@ == rest.take(name@.len() as int),
                forall|j: int| 0 <= j < name@.len() ==> rest[j] != 0,
                !ended ==> self.position() == 8 * (first + name@.len()),
                ended ==> name@.len() < rest.len() && rest[name@.len() as int] == 0
                    && self.position() == 8 * (first + name@.len() + 1),
            decreases rest.len() - name@.len() + (if ended { 0int } else { 1int }),
        {
            let byte: u8 = match self.read_byte() {
                Ok(byte) => byte,
                Err(e) => {
                    proof {
                        lemma_name_len(rest, rest.len() as int);
                    }
                    return Err(e);
                },
            };
            if byte == 0 {
                ended = true;
            } else {
                name.push(byte);
            }
        }
        proof {
            lemma_name_len(rest, name@.len() as int);
        }
        let tail: Vec<u8> = match self.read_bytes(32) {
            Ok(tail) => tail,
            Err(e) => {
                return Err(e);
            },
        };
        let tree_bit_size: u64 = u64_of_le_bytes(slice_subrange(tail.as_slice(), 0, 8));
        let data_bit_size: u64 = u64_of_le_bytes(slice_subrange(tail.as_slice(), 8, 16));
        let file_byte_offset: u64 = u64_of_le_bytes(slice_subrange(tail.as_slice(), 16, 24));
        let original_byte_size: u64 = u64_of_le_bytes(slice_subrange(tail.as_slice(), 24, 32));
        match string_from_utf8(name) {
            Some(text) => {
                proof {
                    encode_utf8_decode_utf8(text@);
                }
                Ok(
                    ArchiveBlock::from_parts(
                        text,
                        tree_bit_size,
                        data_bit_size,
                        file_byte_offset,
                        original_byte_size,
                    ),
                )
            },
            None => Err(CodecError::MalformedHeader),
        }
    }
}

} // verus!