//! The mathematical model of bit strings: how numbers and bytes unfold into
//! bits, and how bits fold back into numbers.

use vstd::prelude::*;

verus! {

/// Bit `i` of `v`, counted from the least significant bit.
pub open spec fn bit_at(v: u64, i: nat) -> bool {
    (v >> (i as u64)) & 1 == 1
}

/// The low `n` bits of `v`, least significant first.
pub open spec fn value_bits(v: u64, n: nat) -> Seq<bool> {
    Seq::new(n, |i: int| bit_at(v, i as nat))
}

/// The number whose bit `i` is `bits[i]`; meant for at most 64 bits.
pub open spec fn bits_value(bits: Seq<bool>) -> u64
    decreases bits.len(),
{
    if bits.len() == 0 {
        0
    } else {
        bits_value(bits.drop_last()) | (if bits.last() {
            1u64 << ((bits.len() - 1) as u64)
        } else {
            0
        })
    }
}

/// `v` with every bit from position `n` upwards cleared.
pub open spec fn low_part(v: u64, n: nat) -> u64 {
    if n >= 64 {
        v
    } else {
        v & !(0xffff_ffff_ffff_ffffu64 << (n as u64))
    }
}

/// The bits of a byte string: bit `k` is bit `k % 8` of byte `k / 8`.
pub open spec fn bits_of_bytes(bytes: Seq<u8>) -> Seq<bool> {
    Seq::new(8 * bytes.len(), |k: int| bit_at(bytes[k / 8] as u64, (k % 8) as nat))
}

/// `n` zero bits.
pub open spec fn zero_bits(n: nat) -> Seq<bool> {
    Seq::new(n, |i: int| false)
}

/// The number of bits from `len` up to the next byte boundary.
pub open spec fn pad_len(len: nat) -> nat {
    ((8 - len % 8) % 8) as nat
}

/// The eight bytes of `n`, least significant byte first.
pub open spec fn u64_le_bytes(n: u64) -> Seq<u8> {
    Seq::new(8, |i: int| ((n >> ((8 * i) as u64)) & 0xff) as u8)
}

/// The number whose eight bytes, least significant first, are `bytes`.
pub open spec fn u64_from_le(bytes: Seq<u8>) -> u64 {
    (bytes[0] as u64) | (bytes[1] as u64) << 8 | (bytes[2] as u64) << 16 | (bytes[3] as u64) << 24
        | (bytes[4] as u64) << 32 | (bytes[5] as u64) << 40 | (bytes[6] as u64) << 48 | (
    bytes[7] as u64) << 56
}

/// Bit `index` of `value` as 0 or 1.
pub fn get_bit(value: u64, index: u32) -> (bit: u8)
    requires
        index < 64,
    ensures
        bit == (if bit_at(value, index as nat) { 1u8 } else { 0u8 }),
{
    let shifted: u64 = (value >> index) & 1;
    assert(shifted == 0 || shifted == 1) by (bit_vector)
        requires
            shifted == (value >> index) & 1,
    ;
    shifted as u8
}

/// `byte` with bit `index` set.
pub fn set_bit(byte: u8, index: u32) -> (r: u8)
    requires
        index < 8,
    ensures
        forall|i: nat|
            i < 8 ==> #[trigger] bit_at(r as u64, i) == (bit_at(byte as u64, i) || i == index),
{
    let r: u8 = byte | (1u8 << index);
    assert forall|i: nat| i < 8 implies #[trigger] bit_at(r as u64, i) == (bit_at(
        byte as u64,
        i,
    ) || i == index) by {
        let j: u64 = i as u64;
        let wide: u64 = r as u64;
        let was: u64 = byte as u64;
        assert(((wide >> j) & 1 == 1) == (((was >> j) & 1 == 1) || j == index)) by (bit_vector)
            requires
                wide == r as u64,
                was == byte as u64,
                r == byte | (1u8 << index),
                index < 8,
                j < 8,
        ;
    }
    r
}

/// The eight bytes of `n`, least significant byte first, taken out by shift
/// and mask.
pub fn u64_to_le_bytes(n: u64) -> (bytes: Vec<u8>)
    ensures
        bytes@ == u64_le_bytes(n),
{
    let mut bytes: Vec<u8> = Vec::new();
    let mut i: u64 = 0;
    while i < 8
        invariant
            i <= 8,
            bytes@ == u64_le_bytes(n).take(i as int),
        decreases 8 - i,
    {
        let part: u64 = (n >> (8 * i)) & 0xff;
        assert(part < 256) by (bit_vector)
            requires
                part == (n >> ((8 * i) as u64)) & 0xff,
        ;
        bytes.push(part as u8);
        i = i + 1;
    }
    bytes
}

/// The number whose eight bytes, least significant first, are `bytes`.
pub fn u64_of_le_bytes(bytes: &[u8]) -> (n: u64)
    requires
        bytes@.len() == 8,
    ensures
        n == u64_from_le(bytes@),
{
    (bytes[0] as u64) | (bytes[1] as u64) << 8 | (bytes[2] as u64) << 16 | (bytes[3] as u64) << 24
        | (bytes[4] as u64) << 32 | (bytes[5] as u64) << 40 | (bytes[6] as u64) << 48 | (
    bytes[7] as u64) << 56
}

/// Unfolding and refolding a byte string distributes over concatenation.
pub proof fn lemma_bits_of_bytes_concat(a: Seq<u8>, b: Seq<u8>)
    ensures
        bits_of_bytes(a + b) == bits_of_bytes(a) + bits_of_bytes(b),
{
    assert(bits_of_bytes(a + b) =~= bits_of_bytes(a) + bits_of_bytes(b));
}

/// A window of whole bytes seen as bits is the bits of that window of bytes.
pub proof fn lemma_bits_of_bytes_subrange(bytes: Seq<u8>, from: int, to: int)
    requires
        0 <= from <= to <= bytes.len(),
    ensures
        bits_of_bytes(bytes).subrange(8 * from, 8 * to) == bits_of_bytes(bytes.subrange(from, to)),
{
    assert(bits_of_bytes(bytes).subrange(8 * from, 8 * to) =~= bits_of_bytes(
        bytes.subrange(from, to),
    ));
}

/// The bits of the first `i + 1` bytes are those of the first `i` bytes and
/// then those of byte `i`.
pub proof fn lemma_bits_step(bytes: Seq<u8>, i: int)
    requires
        0 <= i < bytes.len(),
    ensures
        bits_of_bytes(bytes).take(8 * (i + 1)) == bits_of_bytes(bytes).take(8 * i) + bits_of_bytes(
            seq![bytes[i]],
        ),
{
    lemma_bits_of_bytes_subrange(bytes, 0, i);
    lemma_bits_of_bytes_subrange(bytes, 0, i + 1);
    lemma_bits_of_bytes_concat(bytes.take(i), seq![bytes[i]]);
}

/// Folding the low `n` bits of `v` gives `v` without its higher bits.
pub proof fn lemma_fold_unfold(v: u64, n: nat)
    requires
        n <= 64,
    ensures
        bits_value(value_bits(v, n)) == low_part(v, n),
    decreases n,
{
    if n == 0 {
        assert(v & !(0xffff_ffff_ffff_ffffu64 << 0u64) == 0) by (bit_vector);
    } else {
        let m: nat = (n - 1) as nat;
        lemma_fold_unfold(v, m);
        assert(value_bits(v, n).drop_last() =~= value_bits(v, m));
        let k: u64 = m as u64;
        let top: u64 = if bit_at(v, m) { 1u64 << k } else { 0 };
        if n == 64 {
            assert((v & !(0xffff_ffff_ffff_ffffu64 << 63u64)) | (if (v >> 63u64) & 1 == 1 {
                1u64 << 63u64
            } else {
                0
            }) == v) by (bit_vector);
        } else {
            assert((v & !(0xffff_ffff_ffff_ffffu64 << k)) | (if (v >> k) & 1 == 1 {
                1u64 << k
            } else {
                0
            }) == v & !(0xffff_ffff_ffff_ffffu64 << ((k + 1) as u64))) by (bit_vector)
                requires
                    k < 63,
            ;
        }
    }
}

/// Unfolding the number folded from at most 64 bits gives those bits back,
/// and the number has no bit beyond them.
pub proof fn lemma_unfold_fold(bits: Seq<bool>)
    requires
        bits.len() <= 64,
    ensures
        value_bits(bits_value(bits), bits.len()) == bits,
        low_part(bits_value(bits), bits.len()) == bits_value(bits),
    decreases bits.len(),
{
    if bits.len() == 0 {
        assert(0u64 & !(0xffff_ffff_ffff_ffffu64 << 0u64) == 0) by (bit_vector);
    } else {
        let rest = bits.drop_last();
        lemma_unfold_fold(rest);
        let m: u64 = rest.len() as u64;
        let low: u64 = bits_value(rest);
        let top: bool = bits.last();
        let x: u64 = bits_value(bits);
        assert(((x >> m) & 1 == 1) == top) by (bit_vector)
            requires
                m < 64,
                x == low | (if top { 1u64 << m } else { 0 }),
                low & !(0xffff_ffff_ffff_ffffu64 << m) == low,
        ;
        assert forall|i: int| 0 <= i < bits.len() implies value_bits(x, bits.len())[i]
            == bits[i] by {
            if i < m {
                let j: u64 = i as u64;
                assert(((x >> j) & 1 == 1) == ((low >> j) & 1 == 1)) by (bit_vector)
                    requires
                        j < m,
                        m < 64,
                        x == low | (if top { 1u64 << m } else { 0 }),
                ;
                assert(value_bits(low, rest.len())[i] == rest[i]);
            }
        }
        if bits.len() < 64 {
            assert(x & !(0xffff_ffff_ffff_ffffu64 << ((m + 1) as u64)) == x) by (bit_vector)
                requires
                    m < 63,
                    x == low | (if top { 1u64 << m } else { 0 }),
                    low & !(0xffff_ffff_ffff_ffffu64 << m) == low,
            ;
        }
    }
}

/// Taking a number apart into its eight bytes and putting them together
/// again gives the number back.
pub proof fn lemma_u64_le_round_trip(n: u64)
    ensures
        u64_le_bytes(n).len() == 8,
        u64_from_le(u64_le_bytes(n)) == n,
{
    assert((((n >> 0u64) & 0xff) as u8 as u64) | (((n >> 8u64) & 0xff) as u8 as u64) << 8 | (((n
        >> 16u64) & 0xff) as u8 as u64) << 16 | (((n >> 24u64) & 0xff) as u8 as u64) << 24 | (((n
        >> 32u64) & 0xff) as u8 as u64) << 32 | (((n >> 40u64) & 0xff) as u8 as u64) << 40 | (((n
        >> 48u64) & 0xff) as u8 as u64) << 48 | (((n >> 56u64) & 0xff) as u8 as u64) << 56 == n)
        by (bit_vector);
}

/// Two byte strings with the same bits are the same byte string.
pub proof fn lemma_bits_of_bytes_injective(a: Seq<u8>, b: Seq<u8>)
    requires
        bits_of_bytes(a) == bits_of_bytes(b),
    ensures
        a == b,
{
    assert(8 * b.len() == bits_of_bytes(b).len());
    assert forall|i: int| 0 <= i < a.len() implies a[i] == b[i] by {
        let x: u64 = a[i] as u64;
        let y: u64 = b[i] as u64;
        assert forall|j: nat| j < 8 implies bit_at(x, j) == bit_at(y, j) by {
            let k: int = 8 * i + j;
            assert(bits_of_bytes(b)[k] == bit_at(y, j));
        }
        assert(bit_at(x, 0) == bit_at(y, 0));
        assert(bit_at(x, 1) == bit_at(y, 1));
        assert(bit_at(x, 2) == bit_at(y, 2));
        assert(bit_at(x, 3) == bit_at(y, 3));
        assert(bit_at(x, 4) == bit_at(y, 4));
        assert(bit_at(x, 5) == bit_at(y, 5));
        assert(bit_at(x, 6) == bit_at(y, 6));
        assert(bit_at(x, 7) == bit_at(y, 7));
        assert(x == y) by (bit_vector)
            requires
                x < 256,
                y < 256,
                ((x >> 0u64) & 1 == 1) == ((y >> 0u64) & 1 == 1),
                ((x >> 1u64) & 1 == 1) == ((y >> 1u64) & 1 == 1),
                ((x >> 2u64) & 1 == 1) == ((y >> 2u64) & 1 == 1),
                ((x >> 3u64) & 1 == 1) == ((y >> 3u64) & 1 == 1),
                ((x >> 4u64) & 1 == 1) == ((y >> 4u64) & 1 == 1),
                ((x >> 5u64) & 1 == 1) == ((y >> 5u64) & 1 == 1),
                ((x >> 6u64) & 1 == 1) == ((y >> 6u64) & 1 == 1),
                ((x >> 7u64) & 1 == 1) == ((y >> 7u64) & 1 == 1),
        ;
    }
}

} // verus!
