//! The bit writer: it packs bits into a buffer and hands each full buffer to
//! its sink before the next bit is placed.
//!
//! Byte-level writes are strict: on a cursor that is not on a byte boundary
//! they fail with [`CodecError::Alignment`] and change nothing.

use crate::bits::{
    bits_of_bytes, get_bit, lemma_bits_of_bytes_concat, lemma_bits_of_bytes_subrange,
    lemma_bits_step, pad_len, u64_le_bytes, u64_to_le_bytes, value_bits, zero_bits,
};
use crate::block::{block_bytes, ArchiveBlock};
use crate::buffer::{BitBuffer, BUFFER_BITS, BUFFER_LEN};
use crate::error::CodecError;
use crate::sink::ByteSink;
use crate::symbol::SymbolCode;
use vstd::prelude::*;

verus! {

/// The number of buffers that are handed to the sink while `n` bits are
/// written from cursor `cursor`: one each time a bit finds the buffer full.
pub open spec fn flushes_for(cursor: nat, n: nat) -> nat {
    if n == 0 {
        0
    } else {
        ((cursor + n - 1) / (BUFFER_BITS as int)) as nat
    }
}

/// How many of `n` bits are written from cursor `cursor` when the sink has
/// room for `room` bytes: all of them if every flush fits, else those up to
/// the first flush that does not.
pub open spec fn accepted(cursor: nat, room: nat, n: nat) -> nat {
    if flushes_for(cursor, n) * BUFFER_LEN <= room {
        n
    } else {
        ((room / (BUFFER_LEN as nat) + 1) * BUFFER_BITS - cursor) as nat
    }
}

/// Where the cursor stands after `n` bits were written from cursor `cursor`.
pub open spec fn cursor_after(cursor: nat, n: nat) -> nat {
    if n == 0 {
        cursor
    } else {
        ((cursor + n - 1) % (BUFFER_BITS as int) + 1) as nat
    }
}

/// Writing `a` bits, all of them accepted, and then `b` bits is writing
/// `a + b` bits.
pub proof fn lemma_accept_join(cursor: nat, room: nat, a: nat, b: nat)
    requires
        cursor <= BUFFER_BITS,
        accepted(cursor, room, a) == a,
        flushes_for(cursor, a) * BUFFER_LEN <= room,
    ensures
        ({
            let mid = cursor_after(cursor, a);
            let left = (room - flushes_for(cursor, a) * BUFFER_LEN) as nat;
            let k = accepted(mid, left, b);
            &&& mid <= BUFFER_BITS
            &&& k <= b
            &&& accepted(cursor, room, a + b) == a + k
            &&& cursor_after(cursor, a + k) == cursor_after(mid, k)
            &&& flushes_for(cursor, a + k) == flushes_for(cursor, a) + flushes_for(mid, k)
            &&& flushes_for(cursor, a + k) * BUFFER_LEN <= room
        }),
{
    if b > 0 {
        let mid = cursor_after(cursor, a);
        assert(flushes_for(cursor, a + b) == flushes_for(cursor, a) + flushes_for(mid, b));
    }
}

/// Of `n` bits no more than `n` are accepted; and once a flush is refused,
/// no later bit is accepted either.
pub proof fn lemma_accepted_bounds(cursor: nat, room: nat, m: nat, n: nat)
    requires
        cursor <= BUFFER_BITS,
        m <= n,
    ensures
        accepted(cursor, room, n) <= n,
        accepted(cursor, room, m) < m ==> accepted(cursor, room, n) == accepted(cursor, room, m),
        accepted(cursor, room, n) == n ==> accepted(cursor, room, m) == m,
        flushes_for(cursor, accepted(cursor, room, n)) * BUFFER_LEN <= room,
{
}

/// What a write of `bits` leaves behind: all of them after the bits written
/// before, or, where the sink refused a flush, the first few of them.
pub open spec fn wrote(
    before: Seq<bool>,
    after: Seq<bool>,
    bits: Seq<bool>,
    r: Result<(), CodecError>,
) -> bool {
    match r {
        Ok(_) => after == before + bits,
        Err(e) => e == CodecError::Io && exists|k: int|
            0 <= k < bits.len() && after == before + #[trigger] bits.take(k),
    }
}

/// What a write of whole bytes leaves behind: nothing and an alignment error
/// where the bits written before do not end on a byte boundary, else as
/// [`wrote`] says of the bits of `bytes`.
pub open spec fn wrote_bytes(
    before: Seq<bool>,
    after: Seq<bool>,
    bytes: Seq<u8>,
    r: Result<(), CodecError>,
) -> bool {
    if before.len() % 8 != 0 {
        r == Err::<(), CodecError>(CodecError::Alignment) && after == before
    } else {
        wrote(before, after, bits_of_bytes(bytes), r)
    }
}

/// A destination for bits. Each operation appends to the stream of bits
/// written so far, in order; none loses or reorders a bit.
pub trait BitwiseWriter {
    /// The writer is in a consistent state.
    spec fn inv(&self) -> bool;

    /// Every bit written so far, flushed or still buffered.
    spec fn bit_stream(&self) -> Seq<bool>;

    /// Pads the stream with zero bits up to the next byte boundary.
    fn align_to_byte(&mut self) -> (r: Result<(), CodecError>)
        requires
            old(self).inv(),
        ensures
            final(self).inv(),
            r is Ok,
            final(self).bit_stream() == old(self).bit_stream() + zero_bits(
                pad_len(old(self).bit_stream().len()),
            ),
    ;

    /// Writes the eight bits of `byte`; the stream must end on a byte
    /// boundary.
    fn write_byte(&mut self, byte: u8) -> (r: Result<(), CodecError>)
        requires
            old(self).inv(),
        ensures
            final(self).inv(),
            wrote_bytes(old(self).bit_stream(), final(self).bit_stream(), seq![byte], r),
    ;

    /// Writes the low `count` bits of `byte`, least significant first.
    fn write_bits(&mut self, byte: u8, count: u8) -> (r: Result<(), CodecError>)
        requires
            old(self).inv(),
            count <= 8,
        ensures
            final(self).inv(),
            wrote(
                old(self).bit_stream(),
                final(self).bit_stream(),
                value_bits(byte as u64, count as nat),
                r,
            ),
    ;

    /// Writes one bit: a one where `bit` is not zero.
    fn write_bit(&mut self, bit: u8) -> (r: Result<(), CodecError>)
        requires
            old(self).inv(),
        ensures
            final(self).inv(),
            wrote(old(self).bit_stream(), final(self).bit_stream(), seq![bit > 0], r),
    ;

    /// Writes the bits of `symbol`, least significant first.
    fn write_symbol(&mut self, symbol: &SymbolCode) -> (r: Result<(), CodecError>)
        requires
            old(self).inv(),
        ensures
            final(self).inv(),
            wrote(old(self).bit_stream(), final(self).bit_stream(), symbol.bits(), r),
    ;

    /// Writes the header `block`: its name, a zero byte, and its four
    /// integers; the stream must end on a byte boundary.
    fn write_block(&mut self, block: &ArchiveBlock) -> (r: Result<(), CodecError>)
        requires
            old(self).inv(),
        ensures
            final(self).inv(),
            wrote_bytes(old(self).bit_stream(), final(self).bit_stream(), block_bytes(block@), r),
    ;

    /// Writes the eight bytes of `num`, least significant first; the stream
    /// must end on a byte boundary.
    fn write_u64(&mut self, num: u64) -> (r: Result<(), CodecError>)
        requires
            old(self).inv(),
        ensures
            final(self).inv(),
            wrote_bytes(old(self).bit_stream(), final(self).bit_stream(), u64_le_bytes(num), r),
    ;
}

/// A bit writer over a [`ByteSink`], with one buffer of [`BUFFER_LEN`] bytes.
pub struct FileWriter {
    sink: ByteSink,
    buffer: BitBuffer,
}

impl FileWriter {
    /// The sink.
    pub closed spec fn spec_sink(&self) -> ByteSink {
        self.sink
    }

    /// The buffer.
    pub closed spec fn spec_buffer(&self) -> BitBuffer {
        self.buffer
    }

    /// Every byte handed to the sink so far.
    pub open spec fn emitted(&self) -> Seq<u8> {
        self.spec_sink().history()
    }

    /// The cursor within the buffer.
    pub open spec fn cursor(&self) -> nat {
        self.spec_buffer().position()
    }

    /// The number of bytes the sink can still accept.
    pub open spec fn room(&self) -> nat {
        self.spec_sink().room()
    }

    /// `after` is `before` with `bits` written and `flushes` buffers
    /// handed to the sink.
    pub open spec fn extended(
        before: FileWriter,
        after: FileWriter,
        bits: Seq<bool>,
        flushes: nat,
    ) -> bool {
        &&& after.inv()
        &&& after.bit_stream() == before.bit_stream() + bits
        &&& after.emitted().len() == before.emitted().len() + flushes * BUFFER_LEN
        &&& after.room() + flushes * BUFFER_LEN == before.room()
        &&& after.spec_sink().taken() == before.spec_sink().taken()
        &&& after.spec_sink().limit() == before.spec_sink().limit()
    }

    /// `after` is `before` with as many of `bits` written as the sink made
    /// room for, each full buffer handed to the sink before the next bit
    /// was placed.
    pub open spec fn appended(before: FileWriter, after: FileWriter, bits: Seq<bool>) -> bool {
        let k = accepted(before.cursor(), before.room(), bits.len());
        &&& Self::extended(before, after, bits.take(k as int), flushes_for(before.cursor(), k))
        &&& after.cursor() == cursor_after(before.cursor(), k)
    }

    /// `after` is `before` with the stream padded up to a byte boundary,
    /// the occupied bytes of the buffer handed to the sink, and the buffer
    /// started afresh.
    pub open spec fn finished(before: FileWriter, after: FileWriter) -> bool {
        &&& after.inv()
        &&& after.emitted() == before.emitted() + before.spec_buffer().bytes().take(
            before.spec_buffer().occupied() as int,
        )
        &&& after.cursor() == 0
        &&& after.bit_stream() == before.bit_stream() + zero_bits(pad_len(before.cursor()))
        &&& bits_of_bytes(after.emitted()) == after.bit_stream()
        &&& after.spec_sink().taken() == before.spec_sink().taken()
        &&& after.spec_sink().limit() == before.spec_sink().limit()
    }

    /// `after` holds what `before` holds, in its buffer and in its sink.
    pub open spec fn same(before: FileWriter, after: FileWriter) -> bool {
        &&& after.spec_buffer() == before.spec_buffer()
        &&& after.spec_sink().pending() == before.spec_sink().pending()
        &&& after.spec_sink().taken() == before.spec_sink().taken()
        &&& after.spec_sink().limit() == before.spec_sink().limit()
    }

    /// `after` is `before` with the occupied bytes of the buffer handed to
    /// the sink, the buffer itself untouched.
    pub open spec fn persisted(before: FileWriter, after: FileWriter) -> bool {
        let kept = before.spec_buffer().bytes().take(before.spec_buffer().occupied() as int);
        &&& after.spec_buffer() == before.spec_buffer()
        &&& after.emitted() == before.emitted() + kept
        &&& after.room() + kept.len() == before.room()
        &&& after.spec_sink().taken() == before.spec_sink().taken()
        &&& after.spec_sink().limit() == before.spec_sink().limit()
    }

    /// Whether all of `n` bits written to `self` are accepted.
    pub open spec fn accepts(&self, n: nat) -> bool {
        accepted(self.cursor(), self.room(), n) == n
    }

    /// Two writes in a row, the first accepted in full, are one write of
    /// the two bit strings joined.
    pub proof fn lemma_appended_join(
        start: FileWriter,
        mid: FileWriter,
        end: FileWriter,
        first: Seq<bool>,
        second: Seq<bool>,
    )
        requires
            start.inv(),
            start.accepts(first.len()),
            Self::appended(start, mid, first),
            Self::appended(mid, end, second),
        ensures
            Self::appended(start, end, first + second),
            start.accepts(first.len() + second.len()) <==> mid.accepts(second.len()),
    {
        let a = first.len();
        let b = second.len();
        lemma_accepted_bounds(start.cursor(), start.room(), a, a);
        lemma_accept_join(start.cursor(), start.room(), a, b);
        let k = accepted(mid.cursor(), mid.room(), b);
        assert(end.bit_stream() =~= start.bit_stream() + (first + second).take((a + k) as int));
    }

    /// A write that was cut short stays as it is when more bits are asked
    /// for.
    pub proof fn lemma_appended_more(
        before: FileWriter,
        after: FileWriter,
        bits: Seq<bool>,
        m: nat,
    )
        requires
            before.inv(),
            m <= bits.len(),
            !before.accepts(m),
            Self::appended(before, after, bits.take(m as int)),
        ensures
            Self::appended(before, after, bits),
            !before.accepts(bits.len()),
    {
        lemma_accepted_bounds(before.cursor(), before.room(), m, bits.len());
        lemma_accepted_bounds(before.cursor(), before.room(), m, m);
        let k = accepted(before.cursor(), before.room(), m);
        assert(bits.take(m as int).take(k as int) =~= bits.take(k as int));
    }

    /// What [`Self::appended`] says of the stream of bits alone.
    pub proof fn lemma_appended_wrote(
        before: FileWriter,
        after: FileWriter,
        bits: Seq<bool>,
        r: Result<(), CodecError>,
    )
        requires
            before.inv(),
            Self::appended(before, after, bits),
            r is Ok <==> before.accepts(bits.len()),
            r is Err ==> r == Err::<(), CodecError>(CodecError::Io),
        ensures
            wrote(before.bit_stream(), after.bit_stream(), bits, r),
    {
        lemma_accepted_bounds(before.cursor(), before.room(), bits.len(), bits.len());
        let k = accepted(before.cursor(), before.room(), bits.len());
        if r is Ok {
            assert(bits.take(k as int) =~= bits);
        }
    }

    /// A writer over `sink` with an empty buffer.
    pub fn new(sink: ByteSink) -> (writer: FileWriter)
        ensures
            writer.inv(),
            writer.spec_sink() == sink,
            writer.cursor() == 0,
            writer.bit_stream() == bits_of_bytes(sink.history()),
    {
        let writer = FileWriter { sink, buffer: BitBuffer::new() };
        writer
    }

    /// The sink, with the bytes flushed and not yet taken out.
    pub fn sink(&self) -> (sink: &ByteSink)
        ensures
            *sink == self.spec_sink(),
    {
        &self.sink
    }

    /// The cursor within the buffer, in bits.
    pub fn bit_position(&self) -> (position: usize)
        ensures
            position == self.cursor(),
    {
        self.buffer.cursor()
    }

    /// Takes the flushed bytes out of the sink, which makes room for as many
    /// again. The stream of bits written stays as it is.
    pub fn take_flushed(&mut self) -> (bytes: Vec<u8>)
        requires
            old(self).inv(),
        ensures
            final(self).inv(),
            bytes@ == old(self).spec_sink().pending(),
            final(self).spec_sink().pending() == Seq::<u8>::empty(),
            final(self).spec_sink().taken() == old(self).spec_sink().taken() + bytes@,
            final(self).spec_sink().limit() == old(self).spec_sink().limit(),
            final(self).spec_buffer() == old(self).spec_buffer(),
            final(self).emitted() == old(self).emitted(),
            final(self).bit_stream() == old(self).bit_stream(),
    {
        self.sink.take()
    }

    /// Hands the occupied bytes of the buffer to the sink.
    fn persist_buffer(&mut self) -> (r: Result<(), CodecError>)
        requires
            old(self).inv(),
        ensures
            r is Ok <==> old(self).spec_buffer().occupied() <= old(self).room(),
            r is Ok ==> Self::persisted(*old(self), *final(self)),
            r is Err ==> r == Err::<(), CodecError>(CodecError::Io),
            r is Err ==> Self::same(*old(self), *final(self)),
    {
        let n: usize = self.buffer.occupied_len();
        let r = self.sink.write_all(self.buffer.prefix(n));
        proof {
            if r is Ok {
                let kept = old(self).spec_buffer().bytes().take(n as int);
                assert(self.emitted() =~= old(self).emitted() + kept);
            }
        }
        r
    }

    /// Makes room for the next bit: a full buffer is handed to the sink and
    /// started afresh; any other buffer is left alone.
    fn update_buffer(&mut self) -> (r: Result<(), CodecError>)
        requires
            old(self).inv(),
        ensures
            final(self).inv(),
            final(self).bit_stream() == old(self).bit_stream(),
            final(self).spec_sink().taken() == old(self).spec_sink().taken(),
            final(self).spec_sink().limit() == old(self).spec_sink().limit(),
            r is Ok <==> old(self).cursor() < BUFFER_BITS || BUFFER_LEN <= old(self).room(),
            r is Ok && old(self).cursor() < BUFFER_BITS ==> Self::same(*old(self), *final(self)),
            r is Ok && old(self).cursor() == BUFFER_BITS ==> {
                &&& final(self).cursor() == 0
                &&& final(self).emitted().len() == old(self).emitted().len() + BUFFER_LEN
                &&& final(self).room() + BUFFER_LEN == old(self).room()
            },
            r is Err ==> r == Err::<(), CodecError>(CodecError::Io),
            r is Err ==> Self::same(*old(self), *final(self)),
    {
        if self.buffer.is_full() {
            match self.persist_buffer() {
                Ok(()) => {},
                Err(e) => {
                    return Err(e);
                },
            }
            self.buffer.clear();
            proof {
                let full = old(self).spec_buffer().bytes();
                lemma_bits_of_bytes_concat(old(self).emitted(), full);
            }
        }
        Ok(())
    }

    /// Writes the low `count` bits of `value`, least significant first.
    fn write_low_bits(&mut self, value: u64, count: u8) -> (r: Result<(), CodecError>)
        requires
            old(self).inv(),
            count <= 64,
        ensures
            final(self).inv(),
            Self::appended(*old(self), *final(self), value_bits(value, count as nat)),
            r is Ok <==> old(self).accepts(count as nat),
            r is Err ==> r == Err::<(), CodecError>(CodecError::Io),
    {
        let ghost bits = value_bits(value, count as nat);
        let ghost start = *self;
        let mut i: u8 = 0;
        while i < count
            invariant
                i <= count <= 64,
                bits == value_bits(value, count as nat),
                start == *old(self),
                start.inv(),
                start.accepts(i as nat),
                Self::appended(start, *self, bits.take(i as int)),
            decreases count - i,
        {
            let bit: u8 = get_bit(value, i as u32);
            let ghost before = *self;
            let r = self.write_bit(bit);
            proof {
                assert(bits.take(i + 1) =~= bits.take(i as int) + seq![bit > 0]);
                Self::lemma_appended_join(start, before, *self, bits.take(i as int), seq![bit > 0]);
                if r is Err {
                    Self::lemma_appended_more(start, *self, bits, (i + 1) as nat);
                }
            }
            if r.is_err() {
                return r;
            }
            i = i + 1;
        }
        assert(bits.take(count as int) =~= bits);
        Ok(())
    }

    /// Writes `bytes` one after the other; the cursor must be on a byte
    /// boundary.
    fn write_bytes(&mut self, bytes: &[u8]) -> (r: Result<(), CodecError>)
        requires
            old(self).inv(),
        ensures
            final(self).inv(),
            old(self).cursor() % 8 != 0 ==> r == Err::<(), CodecError>(CodecError::Alignment)
                && *final(self) == *old(self),
            old(self).cursor() % 8 == 0 ==> Self::appended(
                *old(self),
                *final(self),
                bits_of_bytes(bytes@),
            ),
            old(self).cursor() % 8 == 0 ==> (r is Ok <==> old(self).accepts(8 * bytes@.len())),
            old(self).cursor() % 8 == 0 && r is Err ==> r == Err::<(), CodecError>(CodecError::Io),
    {
        if !self.buffer.is_aligned() {
            return Err(CodecError::Alignment);
        }
        let ghost bits = bits_of_bytes(bytes@);
        let ghost start = *self;
        let mut i: usize = 0;
        while i < bytes.len()
            invariant
                i <= bytes@.len(),
                bits == bits_of_bytes(bytes@),
                start == *old(self),
                start.inv(),
                start.cursor() % 8 == 0,
                self.cursor() % 8 == 0,
                start.accepts((8 * i) as nat),
                Self::appended(start, *self, bits.take(8 * i)),
            decreases bytes@.len() - i,
        {
            let byte: u8 = bytes[i];
            let ghost before = *self;
            let r = self.write_byte(byte);
            proof {
                lemma_bits_step(bytes@, i as int);
                Self::lemma_appended_join(
                    start,
                    before,
                    *self,
                    bits.take(8 * i),
                    bits_of_bytes(seq![byte]),
                );
                if r is Err {
                    Self::lemma_appended_more(start, *self, bits, (8 * (i + 1)) as nat);
                }
            }
            if r.is_err() {
                return r;
            }
            i = i + 1;
        }
        assert(bits.take(8 * (bytes@.len() as int)) =~= bits);
        Ok(())
    }

    /// Ends the stream for now: pads it with zero bits up to a byte boundary,
    /// hands the occupied bytes of the buffer, and no more, to the sink, and
    /// starts an empty buffer. Where the sink refuses them, nothing changes
    /// and the call can be made again.
    pub fn finish(&mut self) -> (r: Result<(), CodecError>)
        requires
            old(self).inv(),
        ensures
            final(self).inv(),
            r is Ok <==> old(self).spec_buffer().occupied() <= old(self).room(),
            r is Ok ==> Self::finished(*old(self), *final(self)),
            r is Err ==> r == Err::<(), CodecError>(CodecError::Io),
            r is Err ==> Self::same(*old(self), *final(self)),
    {
        match self.persist_buffer() {
            Ok(()) => {},
            Err(e) => {
                return Err(e);
            },
        }
        self.buffer.clear();
        proof {
            let buffer = old(self).spec_buffer();
            let n: int = buffer.occupied() as int;
            let kept = buffer.bytes().take(n);
            lemma_bits_of_bytes_concat(old(self).emitted(), kept);
            lemma_bits_of_bytes_subrange(buffer.bytes(), 0, n);
            assert(self.bit_stream() =~= old(self).bit_stream() + zero_bits(
                pad_len(old(self).cursor()),
            ));
        }
        Ok(())
    }
}

impl BitwiseWriter for FileWriter {
    open spec fn inv(&self) -> bool {
        &&& self.spec_buffer().wf()
        &&& self.spec_buffer().tail_is_zero()
    }

    open spec fn bit_stream(&self) -> Seq<bool> {
        bits_of_bytes(self.emitted()) + self.spec_buffer().head()
    }

    /// Moves the cursor up to the next byte boundary. The bits passed over
    /// are zero. Nothing is flushed.
    fn align_to_byte(&mut self) -> (r: Result<(), CodecError>)
        ensures
            Self::appended(*old(self), *final(self), zero_bits(pad_len(old(self).cursor()))),
            final(self).cursor() == old(self).cursor() + pad_len(old(self).cursor()),
            final(self).spec_sink() == old(self).spec_sink(),
    {
        self.buffer.align();
        proof {
            let pad = zero_bits(pad_len(old(self).cursor()));
            assert(pad.take(pad.len() as int) =~= pad);
            assert(self.bit_stream() =~= old(self).bit_stream() + pad);
        }
        Ok(())
    }

    /// Stores `byte` at the cursor and moves the cursor eight bits on, after
    /// a full buffer was handed to the sink.
    fn write_byte(&mut self, byte: u8) -> (r: Result<(), CodecError>)
        ensures
            old(self).cursor() % 8 != 0 ==> r == Err::<(), CodecError>(CodecError::Alignment)
                && *final(self) == *old(self),
            old(self).cursor() % 8 == 0 ==> Self::appended(
                *old(self),
                *final(self),
                bits_of_bytes(seq![byte]),
            ),
            old(self).cursor() % 8 == 0 ==> (r is Ok <==> old(self).accepts(8)),
            old(self).cursor() % 8 == 0 && r is Err ==> r == Err::<(), CodecError>(CodecError::Io),
    {
        if !self.buffer.is_aligned() {
            return Err(CodecError::Alignment);
        }
        let ghost bits = bits_of_bytes(seq![byte]);
        proof {
            assert(bits.take(8) =~= bits);
        }
        match self.update_buffer() {
            Ok(()) => {},
            Err(e) => {
                assert(self.bit_stream() =~= old(self).bit_stream() + bits.take(0));
                return Err(e);
            },
        }
        let ghost mid = *self;
        self.buffer.push_byte(byte);
        proof {
            let p: int = mid.cursor() as int;
            let old_bits = mid.spec_buffer().bits();
            let new_bits = self.spec_buffer().bits();
            assert forall|k: int| 0 <= k < BUFFER_BITS implies new_bits[k] == (if p <= k < p + 8 {
                bits[k - p]
            } else {
                old_bits[k]
            }) by {}
            assert(self.bit_stream() =~= old(self).bit_stream() + bits);
        }
        Ok(())
    }

    /// Writes the low `count` bits of `byte` one at a time.
    fn write_bits(&mut self, byte: u8, count: u8) -> (r: Result<(), CodecError>)
        ensures
            Self::appended(*old(self), *final(self), value_bits(byte as u64, count as nat)),
            r is Ok <==> old(self).accepts(count as nat),
    {
        let r = self.write_low_bits(byte as u64, count);
        proof {
            Self::lemma_appended_wrote(*old(self), *self, value_bits(byte as u64, count as nat), r);
        }
        r
    }

    /// Places one bit at the cursor, after a full buffer was handed to the
    /// sink and started afresh.
    fn write_bit(&mut self, bit: u8) -> (r: Result<(), CodecError>)
        ensures
            Self::appended(*old(self), *final(self), seq![bit > 0]),
            r is Ok <==> old(self).accepts(1),
    {
        let ghost bits = seq![bit > 0];
        proof {
            assert(bits.take(1) =~= bits);
        }
        match self.update_buffer() {
            Ok(()) => {},
            Err(e) => {
                assert(self.bit_stream() =~= old(self).bit_stream() + bits.take(0));
                return Err(e);
            },
        }
        self.buffer.push_bit(bit > 0);
        proof {
            assert(self.bit_stream() =~= old(self).bit_stream() + bits);
        }
        Ok(())
    }

    /// Writes the bits of `symbol` one at a time.
    fn write_symbol(&mut self, symbol: &SymbolCode) -> (r: Result<(), CodecError>)
        ensures
            Self::appended(*old(self), *final(self), symbol.bits()),
            r is Ok <==> old(self).accepts(symbol.spec_bit_len() as nat),
    {
        let r = self.write_low_bits(symbol.pattern(), symbol.bit_len());
        proof {
            Self::lemma_appended_wrote(*old(self), *self, symbol.bits(), r);
        }
        r
    }

    /// Writes the bytes of the header one after the other.
    fn write_block(&mut self, block: &ArchiveBlock) -> (r: Result<(), CodecError>)
        ensures
            old(self).cursor() % 8 != 0 ==> *final(self) == *old(self),
            old(self).cursor() % 8 == 0 ==> Self::appended(
                *old(self),
                *final(self),
                bits_of_bytes(block_bytes(block@)),
            ),
            old(self).cursor() % 8 == 0 ==> (r is Ok <==> old(self).accepts(
                8 * block_bytes(block@).len(),
            )),
    {
        let bytes: Vec<u8> = block.to_bytes();
        let r = self.write_bytes(bytes.as_slice());
        proof {
            if old(self).cursor() % 8 == 0 {
                Self::lemma_appended_wrote(*old(self), *self, bits_of_bytes(bytes@), r);
            }
        }
        r
    }

    /// Writes the eight bytes of `num` one after the other.
    fn write_u64(&mut self, num: u64) -> (r: Result<(), CodecError>)
        ensures
            old(self).cursor() % 8 != 0 ==> *final(self) == *old(self),
            old(self).cursor() % 8 == 0 ==> Self::appended(
                *old(self),
                *final(self),
                bits_of_bytes(u64_le_bytes(num)),
            ),
            old(self).cursor() % 8 == 0 ==> (r is Ok <==> old(self).accepts(64)),
    {
        let bytes: Vec<u8> = u64_to_le_bytes(num);
        let r = self.write_bytes(bytes.as_slice());
        proof {
            if old(self).cursor() % 8 == 0 {
                Self::lemma_appended_wrote(*old(self), *self, bits_of_bytes(bytes@), r);
            }
        }
        r
    }
}

} // verus!
