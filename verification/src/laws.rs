//! Laws that tie the writer and the reader together: whatever is written
//! comes back unchanged when it is read at the place where it was written.
//!
//! Padded up to a byte boundary, the stream of bits that a writer holds is
//! the bits of the bytes it hands to its sink; a reader over any source
//! that contains those bits at the same offset returns the written values.

use crate::bits::{
    bits_of_bytes, lemma_bits_of_bytes_injective, lemma_bits_of_bytes_subrange,
    lemma_fold_unfold, lemma_u64_le_round_trip, low_part, pad_len, u64_le_bytes, value_bits,
    zero_bits,
};
use crate::block::{
    block_bytes, lemma_name_len, name_is_valid, parse_block, BlockView, HEADER_TAIL_LEN,
};
use crate::buffer::{BUFFER_BITS, BUFFER_LEN};
use crate::error::CodecError;
use crate::read::{
    read_bit_model, read_block_model, read_byte_model, read_low_bits_model, read_u64_model,
};
use crate::write::{lemma_accepted_bounds, BitwiseWriter, FileWriter};
use vstd::prelude::*;
use vstd::utf8::{encode_utf8, encode_utf8_decode_utf8, encode_utf8_valid_utf8};

verus! {

/// The bits of `source` from `at` on start with `bits`.
pub open spec fn holds_at(source: Seq<u8>, at: nat, bits: Seq<bool>) -> bool {
    &&& at + bits.len() <= bits_of_bytes(source).len()
    &&& bits_of_bytes(source).subrange(at as int, (at + bits.len()) as int) == bits
}

/// Where the bits of `bytes` stand at a byte boundary of `source`, the
/// bytes of `source` from there on are `bytes`.
pub proof fn lemma_bytes_held(source: Seq<u8>, at: nat, bytes: Seq<u8>)
    requires
        at % 8 == 0,
        holds_at(source, at, bits_of_bytes(bytes)),
    ensures
        at / 8 + bytes.len() <= source.len(),
        source.subrange(at as int / 8, at as int / 8 + bytes.len()) == bytes,
{
    let first: int = at as int / 8;
    lemma_bits_of_bytes_subrange(source, first, first + bytes.len());
    lemma_bits_of_bytes_injective(source.subrange(first, first + bytes.len()), bytes);
}

/// A bit that was written is the bit that is read.
pub proof fn law_bit_round_trip(source: Seq<u8>, at: nat, bit: u8)
    requires
        holds_at(source, at, seq![bit > 0]),
    ensures
        read_bit_model(bits_of_bytes(source), at) == (
            Ok::<u8, CodecError>(if bit > 0 { 1u8 } else { 0u8 }),
            at + 1,
        ),
{
    let window = bits_of_bytes(source).subrange(at as int, (at + 1) as int);
    assert(window[0] == (bit > 0));
}

/// The low `count` bits of a number that were written are the number that
/// is read.
pub proof fn law_low_bits_round_trip(source: Seq<u8>, at: nat, value: u64, count: nat)
    requires
        count <= 64,
        holds_at(source, at, value_bits(value, count)),
    ensures
        read_low_bits_model(bits_of_bytes(source), at, count) == (
            Ok::<u64, CodecError>(low_part(value, count)),
            at + count,
        ),
{
    lemma_fold_unfold(value, count);
}

/// A byte that was written is the byte that is read.
pub proof fn law_byte_round_trip(source: Seq<u8>, at: nat, byte: u8)
    requires
        at % 8 == 0,
        holds_at(source, at, bits_of_bytes(seq![byte])),
    ensures
        read_byte_model(source, at) == (Ok::<u8, CodecError>(byte), at + 8),
{
    lemma_bytes_held(source, at, seq![byte]);
    assert(source.subrange(at as int / 8, at as int / 8 + 1)[0] == byte);
}

/// A 64-bit integer that was written is the integer that is read.
pub proof fn law_u64_round_trip(source: Seq<u8>, at: nat, num: u64)
    requires
        at % 8 == 0,
        holds_at(source, at, bits_of_bytes(u64_le_bytes(num))),
    ensures
        read_u64_model(source, at) == (Ok::<u64, CodecError>(num), at + 64),
{
    lemma_bytes_held(source, at, u64_le_bytes(num));
    lemma_u64_le_round_trip(num);
}

/// The header found at the start of the bytes of a header, whatever
/// follows them, is that header.
pub proof fn lemma_parse_block_bytes(block: BlockView, rest: Seq<u8>)
    requires
        name_is_valid(block.filename_rel),
        block_bytes(block).len() <= rest.len(),
        rest.take(block_bytes(block).len() as int) == block_bytes(block),
    ensures
        parse_block(rest) == Ok::<(BlockView, nat), CodecError>(
            (block, block_bytes(block).len()),
        ),
        block_bytes(block).len() == encode_utf8(block.filename_rel).len() + HEADER_TAIL_LEN,
{
    let name = encode_utf8(block.filename_rel);
    let n: int = name.len() as int;
    let header = block_bytes(block);
    assert(header.len() == n + 33);
    assert forall|j: int| 0 <= j < header.len() implies rest[j] == header[j] by {}
    assert forall|j: int| 0 <= j < n implies rest[j] != 0 by {}
    lemma_name_len(rest, n);
    assert(rest.take(n) =~= name);
    encode_utf8_valid_utf8(block.filename_rel);
    encode_utf8_decode_utf8(block.filename_rel);
    lemma_u64_le_round_trip(block.tree_bit_size);
    lemma_u64_le_round_trip(block.data_bit_size);
    lemma_u64_le_round_trip(block.file_byte_offset);
    lemma_u64_le_round_trip(block.original_byte_size);
}

/// A block header that was written is the header that is read, field by
/// field.
pub proof fn law_block_round_trip(source: Seq<u8>, at: nat, block: BlockView)
    requires
        at % 8 == 0,
        name_is_valid(block.filename_rel),
        holds_at(source, at, bits_of_bytes(block_bytes(block))),
    ensures
        read_block_model(source, at) == (
            Ok::<BlockView, CodecError>(block),
            at + 8 * block_bytes(block).len(),
        ),
{
    let header = block_bytes(block);
    lemma_bytes_held(source, at, header);
    let rest = source.skip(at as int / 8);
    assert(rest.take(header.len() as int) =~= source.subrange(
        at as int / 8,
        at as int / 8 + header.len(),
    ));
    lemma_parse_block_bytes(block, rest);
}

/// Writing a byte is writing its eight bits, least significant first.
pub proof fn law_byte_is_eight_bits(byte: u8)
    ensures
        bits_of_bytes(seq![byte]) == value_bits(byte as u64, 8),
{
}

/// Writing a 64-bit integer is writing its 64 bits, least significant
/// first: the byte order and the bit order agree.
pub proof fn law_u64_is_sixty_four_bits(n: u64)
    ensures
        bits_of_bytes(u64_le_bytes(n)) == value_bits(n, 64),
{
    let left = bits_of_bytes(u64_le_bytes(n));
    let right = value_bits(n, 64);
    assert forall|k: int| 0 <= k < 64 implies left[k] == right[k] by {
        let i: u64 = (k / 8) as u64;
        let j: u64 = (k % 8) as u64;
        let q: u64 = k as u64;
        let byte: u8 = u64_le_bytes(n)[k / 8];
        assert((((byte as u64) >> j) & 1 == 1) == ((n >> q) & 1 == 1)) by (bit_vector)
            requires
                i < 8,
                j < 8,
                q == 8 * i + j,
                byte == ((n >> ((8 * i) as u64)) & 0xff) as u8,
        ;
    }
}

/// One value handed to the writer, or a request to pad.
pub enum Item {
    /// A single bit: a one where the number is not zero.
    Bit(u8),
    /// The low `count` bits of `value`.
    Bits { value: u8, count: u8 },
    /// A whole byte.
    Byte(u8),
    /// A prefix code of `bit_len` bits.
    Symbol { pattern: u64, bit_len: u8 },
    /// A 64-bit integer.
    Word(u64),
    /// A block header.
    Block(BlockView),
    /// Padding up to the next byte boundary.
    Pad,
}

/// Whether `item` can be written where the stream is `at` bits long.
pub open spec fn item_valid(item: Item, at: nat) -> bool {
    match item {
        Item::Bit(_) => true,
        Item::Bits { value, count } => count <= 8,
        Item::Byte(_) => at % 8 == 0,
        Item::Symbol { pattern, bit_len } => 1 <= bit_len <= 64 && low_part(pattern, bit_len as nat)
            == pattern,
        Item::Word(_) => at % 8 == 0,
        Item::Block(block) => at % 8 == 0 && name_is_valid(block.filename_rel),
        Item::Pad => true,
    }
}

/// The bits that writing `item` appends to a stream that is `at` bits long.
pub open spec fn item_bits(item: Item, at: nat) -> Seq<bool> {
    match item {
        Item::Bit(bit) => seq![bit > 0],
        Item::Bits { value, count } => value_bits(value as u64, count as nat),
        Item::Byte(byte) => bits_of_bytes(seq![byte]),
        Item::Symbol { pattern, bit_len } => value_bits(pattern, bit_len as nat),
        Item::Word(num) => bits_of_bytes(u64_le_bytes(num)),
        Item::Block(block) => bits_of_bytes(block_bytes(block)),
        Item::Pad => zero_bits(pad_len(at)),
    }
}

/// The value that comes back for `item`: the item itself, but for a bit,
/// which comes back as 0 or 1, and for the low bits of a byte, which come
/// back without the bits above them.
pub open spec fn item_seen(item: Item) -> Item {
    match item {
        Item::Bit(bit) => Item::Bit(if bit > 0 { 1u8 } else { 0u8 }),
        Item::Bits { value, count } => Item::Bits {
            value: low_part(value as u64, count as nat) as u8,
            count,
        },
        _ => item,
    }
}

/// What the read that mirrors the write of `item` returns at `pos`, and
/// where the cursor stands after; nothing where the read fails.
pub open spec fn item_read(item: Item, source: Seq<u8>, pos: nat) -> (Option<Item>, nat) {
    match item {
        Item::Bit(_) => {
            let (r, next) = read_bit_model(bits_of_bytes(source), pos);
            match r {
                Ok(bit) => (Some(Item::Bit(bit)), next),
                Err(_) => (None, next),
            }
        },
        Item::Bits { value, count } => {
            let (r, next) = read_low_bits_model(bits_of_bytes(source), pos, count as nat);
            match r {
                Ok(v) => (Some(Item::Bits { value: v as u8, count }), next),
                Err(_) => (None, next),
            }
        },
        Item::Byte(_) => {
            let (r, next) = read_byte_model(source, pos);
            match r {
                Ok(byte) => (Some(Item::Byte(byte)), next),
                Err(_) => (None, next),
            }
        },
        Item::Symbol { pattern, bit_len } => {
            let (r, next) = read_low_bits_model(bits_of_bytes(source), pos, bit_len as nat);
            match r {
                Ok(v) => (Some(Item::Symbol { pattern: v, bit_len }), next),
                Err(_) => (None, next),
            }
        },
        Item::Word(_) => {
            let (r, next) = read_u64_model(source, pos);
            match r {
                Ok(num) => (Some(Item::Word(num)), next),
                Err(_) => (None, next),
            }
        },
        Item::Block(_) => {
            let (r, next) = read_block_model(source, pos);
            match r {
                Ok(block) => (Some(Item::Block(block)), next),
                Err(_) => (None, next),
            }
        },
        Item::Pad => (Some(Item::Pad), pos + pad_len(pos)),
    }
}

/// Whether each of `items` can be written in turn, starting where the
/// stream is `at` bits long.
pub open spec fn items_valid(items: Seq<Item>, at: nat) -> bool
    decreases items.len(),
{
    items.len() == 0 || (item_valid(items[0], at) && items_valid(
        items.skip(1),
        at + item_bits(items[0], at).len(),
    ))
}

/// The bits that writing `items` in turn appends to a stream that is `at`
/// bits long.
pub open spec fn items_bits(items: Seq<Item>, at: nat) -> Seq<bool>
    decreases items.len(),
{
    if items.len() == 0 {
        Seq::empty()
    } else {
        item_bits(items[0], at) + items_bits(items.skip(1), at + item_bits(items[0], at).len())
    }
}

/// What the reads that mirror the writes of `items` return in turn from
/// `pos` on, and where the cursor stands after; nothing where one fails.
pub open spec fn items_read(items: Seq<Item>, source: Seq<u8>, pos: nat) -> (
    Option<Seq<Item>>,
    nat,
)
    decreases items.len(),
{
    if items.len() == 0 {
        (Some(Seq::empty()), pos)
    } else {
        match item_read(items[0], source, pos) {
            (Some(first), next) => match items_read(items.skip(1), source, next) {
                (Some(others), end) => (Some(seq![first] + others), end),
                (None, end) => (None, end),
            },
            (None, next) => (None, next),
        }
    }
}

/// One item that was written is the item that is read.
pub proof fn law_item_round_trip(source: Seq<u8>, at: nat, item: Item)
    requires
        item_valid(item, at),
        holds_at(source, at, item_bits(item, at)),
    ensures
        item_read(item, source, at) == (Some(item_seen(item)), at + item_bits(item, at).len()),
{
    match item {
        Item::Bit(bit) => {
            law_bit_round_trip(source, at, bit);
        },
        Item::Bits { value, count } => {
            law_low_bits_round_trip(source, at, value as u64, count as nat);
        },
        Item::Byte(byte) => {
            law_byte_round_trip(source, at, byte);
        },
        Item::Symbol { pattern, bit_len } => {
            law_low_bits_round_trip(source, at, pattern, bit_len as nat);
        },
        Item::Word(num) => {
            law_u64_round_trip(source, at, num);
        },
        Item::Block(block) => {
            law_block_round_trip(source, at, block);
        },
        Item::Pad => {},
    }
}

/// The round trip: where the bits that any sequence of writes appended
/// stand in a source, the mirrored sequence of reads returns every value
/// that was written, in order, and ends where the writes ended.
pub proof fn law_round_trip(source: Seq<u8>, at: nat, items: Seq<Item>)
    requires
        items_valid(items, at),
        holds_at(source, at, items_bits(items, at)),
    ensures
        items_read(items, source, at) == (
            Some(items.map_values(|item: Item| item_seen(item))),
            at + items_bits(items, at).len(),
        ),
    decreases items.len(),
{
    if items.len() > 0 {
        let first = item_bits(items[0], at);
        let others = items_bits(items.skip(1), at + first.len());
        let all = bits_of_bytes(source);
        let next: nat = at + first.len();
        assert(all.subrange(at as int, next as int) =~= (first + others).subrange(
            0,
            first.len() as int,
        ));
        assert((first + others).subrange(0, first.len() as int) =~= first);
        let joined = first + others;
        assert(all.subrange(next as int, (next + others.len()) as int) =~= joined.subrange(
            first.len() as int,
            joined.len() as int,
        ));
        assert(joined.subrange(first.len() as int, joined.len() as int) =~= others);
        law_item_round_trip(source, at, items[0]);
        law_round_trip(source, next, items.skip(1));
    }
}

/// Padding twice pads once: behind a padding the stream ends on a byte
/// boundary, and a second padding adds nothing.
pub proof fn law_pad_idempotent(len: nat)
    ensures
        (len + pad_len(len)) % 8 == 0,
        pad_len(len + pad_len(len)) == 0,
{
}

/// Aligning a writer twice in a row leaves it, after the first time, as it
/// is: cursor, stream and sink.
pub proof fn law_align_idempotent(start: FileWriter, once: FileWriter, twice: FileWriter)
    requires
        start.inv(),
        FileWriter::appended(start, once, zero_bits(pad_len(start.cursor()))),
        once.cursor() == start.cursor() + pad_len(start.cursor()),
        FileWriter::appended(once, twice, zero_bits(pad_len(once.cursor()))),
        twice.cursor() == once.cursor() + pad_len(once.cursor()),
    ensures
        twice.cursor() == once.cursor(),
        twice.bit_stream() == once.bit_stream(),
        twice.emitted().len() == once.emitted().len(),
{
    law_pad_idempotent(start.cursor());
}

/// The buffer boundary: a bit written to a full buffer has exactly that
/// buffer handed to the sink first, whole, and is then the first bit of a
/// fresh buffer. A bit written to any other buffer hands nothing over.
pub proof fn law_buffer_boundary(before: FileWriter, after: FileWriter, bit: bool)
    requires
        before.inv(),
        FileWriter::appended(before, after, seq![bit]),
        before.accepts(1),
    ensures
        before.cursor() == BUFFER_BITS ==> after.cursor() == 1 && after.emitted().len()
            == before.emitted().len() + BUFFER_LEN && bits_of_bytes(after.emitted())
            == before.bit_stream() && after.spec_buffer().head() == seq![bit],
        before.cursor() < BUFFER_BITS ==> after.cursor() == before.cursor() + 1
            && after.emitted().len() == before.emitted().len(),
{
    if before.cursor() == BUFFER_BITS {
        let flushed = bits_of_bytes(after.emitted());
        let stream = after.bit_stream();
        assert(before.bit_stream() =~= stream.take(flushed.len() as int));
        assert(seq![bit] =~= stream.skip(flushed.len() as int));
    }
}

/// The stream of bits only grows: a write, whether it is accepted in full
/// or cut short, leaves every earlier bit where it was.
pub proof fn law_stream_grows(before: FileWriter, after: FileWriter, bits: Seq<bool>)
    requires
        before.inv(),
        FileWriter::appended(before, after, bits),
    ensures
        before.bit_stream().is_prefix_of(after.bit_stream()),
        after.bit_stream().len() <= before.bit_stream().len() + bits.len(),
{
    lemma_accepted_bounds(before.cursor(), before.room(), bits.len(), bits.len());
}

/// Finishing flushes once: it hands over as many bytes as hold a written
/// bit, and no more; finishing again right away hands over nothing.
pub proof fn law_finish_once(before: FileWriter, once: FileWriter, twice: FileWriter)
    requires
        before.inv(),
        FileWriter::finished(before, once),
        FileWriter::finished(once, twice),
    ensures
        once.emitted().len() == before.emitted().len() + (before.cursor() + 7) / 8,
        bits_of_bytes(once.emitted()) == before.bit_stream() + zero_bits(pad_len(before.cursor())),
        twice.emitted() == once.emitted(),
        twice.bit_stream() == once.bit_stream(),
{
}

/// The bits that a write appended in full stand, in every source that
/// starts with the bits written so far, where the stream ended before the
/// write.
pub proof fn law_written_bits_are_held(
    before: FileWriter,
    after: FileWriter,
    bits: Seq<bool>,
    source: Seq<u8>,
)
    requires
        before.inv(),
        FileWriter::appended(before, after, bits),
        before.accepts(bits.len()),
        after.bit_stream().is_prefix_of(bits_of_bytes(source)),
    ensures
        holds_at(source, before.bit_stream().len(), bits),
        after.bit_stream().len() == before.bit_stream().len() + bits.len(),
{
    let all = bits_of_bytes(source);
    let at: int = before.bit_stream().len() as int;
    let stream = after.bit_stream();
    assert forall|i: int| 0 <= i < bits.len() implies all.subrange(at, at + bits.len())[i]
        == bits[i] by {
        assert(stream[at + i] == bits[i]);
    }
    assert(all.subrange(at, at + bits.len()) =~= bits);
}

/// From writer to reader: where a writer took `items` in full, one after
/// the other, and was then finished, the bytes it handed to its sink give
/// every one of the items back to the mirrored reads, which start where
/// the stream stood before the first write and end where it stood after
/// the last.
pub proof fn law_archive_round_trip(
    start: FileWriter,
    end: FileWriter,
    done: FileWriter,
    items: Seq<Item>,
)
    requires
        start.inv(),
        items_valid(items, start.bit_stream().len()),
        FileWriter::appended(start, end, items_bits(items, start.bit_stream().len())),
        start.accepts(items_bits(items, start.bit_stream().len()).len()),
        FileWriter::finished(end, done),
    ensures
        items_read(items, done.emitted(), start.bit_stream().len()) == (
            Some(items.map_values(|item: Item| item_seen(item))),
            end.bit_stream().len(),
        ),
{
    let at = start.bit_stream().len();
    let bits = items_bits(items, at);
    let source = done.emitted();
    law_written_bits_are_held(start, end, bits, source);
    law_round_trip(source, at, items);
}

} // verus!