//! The header that describes one packed file entry, and its byte layout: the
//! file name, a zero byte, then four 64-bit little-endian integers.

use crate::bits::{u64_from_le, u64_le_bytes, u64_to_le_bytes};
use crate::error::CodecError;
use vstd::prelude::*;
use vstd::utf8::{decode_utf8, encode_utf8, valid_utf8};

verus! {

/// The number of bytes that follow the file name in a header: the zero byte
/// and the four integers.
pub const HEADER_TAIL_LEN: usize = 33;

/// The header of one archived entry. Its file name holds no zero byte.
#[derive(Debug, PartialEq, Eq)]
pub struct ArchiveBlock {
    filename_rel: String,
    tree_bit_size: u64,
    data_bit_size: u64,
    file_byte_offset: u64,
    original_byte_size: u64,
}

/// What an [`ArchiveBlock`] holds, as mathematical values.
pub struct BlockView {
    /// The path of the entry, relative to the archive root.
    pub filename_rel: Seq<char>,
    /// The exact number of bits of the serialized code tree.
    pub tree_bit_size: u64,
    /// The exact number of bits of the encoded payload.
    pub data_bit_size: u64,
    /// The byte offset of the payload within the container.
    pub file_byte_offset: u64,
    /// The size of the file before encoding.
    pub original_byte_size: u64,
}

impl View for ArchiveBlock {
    type V = BlockView;

    closed spec fn view(&self) -> BlockView {
        BlockView {
            filename_rel: self.filename_rel@,
            tree_bit_size: self.tree_bit_size,
            data_bit_size: self.data_bit_size,
            file_byte_offset: self.file_byte_offset,
            original_byte_size: self.original_byte_size,
        }
    }
}

/// The file name, as bytes, holds no zero byte.
pub open spec fn name_is_valid(name: Seq<char>) -> bool {
    !encode_utf8(name).contains(0u8)
}

/// The number of whole bytes that `bits` bits take when the last byte is
/// padded.
pub open spec fn bytes_for_bits(bits: u64) -> nat {
    ((bits + 7) / 8) as nat
}

/// The bytes of a header: the name, a zero byte, and the four integers in the
/// order tree size, data size, offset, original size.
pub open spec fn block_bytes(block: BlockView) -> Seq<u8> {
    encode_utf8(block.filename_rel) + seq![0u8] + u64_le_bytes(block.tree_bit_size) + u64_le_bytes(
        block.data_bit_size,
    ) + u64_le_bytes(block.file_byte_offset) + u64_le_bytes(block.original_byte_size)
}

/// The number of bytes before the first zero byte of `bytes`, or the length
/// of `bytes` if it holds none.
pub open spec fn name_len(bytes: Seq<u8>) -> nat
    decreases bytes.len(),
{
    if bytes.len() == 0 || bytes[0] == 0 {
        0
    } else {
        1 + name_len(bytes.skip(1))
    }
}

/// The header that `bytes` starts with and the number of bytes it takes.
/// The header is truncated where no zero byte ends the name or fewer than
/// four integers follow it, and malformed where the name is not valid UTF-8.
pub open spec fn parse_block(bytes: Seq<u8>) -> Result<(BlockView, nat), CodecError> {
    let n: int = name_len(bytes) as int;
    if n + HEADER_TAIL_LEN > bytes.len() {
        Err(CodecError::UnexpectedEof)
    } else if !valid_utf8(bytes.take(n)) {
        Err(CodecError::MalformedHeader)
    } else {
        Ok(
            (
                BlockView {
                    filename_rel: decode_utf8(bytes.take(n)),
                    tree_bit_size: u64_from_le(bytes.subrange(n + 1, n + 9)),
                    data_bit_size: u64_from_le(bytes.subrange(n + 9, n + 17)),
                    file_byte_offset: u64_from_le(bytes.subrange(n + 17, n + 25)),
                    original_byte_size: u64_from_le(bytes.subrange(n + 25, n + 33)),
                },
                (n + HEADER_TAIL_LEN) as nat,
            ),
        )
    }
}

impl ArchiveBlock {
    /// The name holds no zero byte.
    pub open spec fn wf(&self) -> bool {
        name_is_valid(self@.filename_rel)
    }

    #[verifier::type_invariant]
    spec fn inv(self) -> bool {
        self.wf()
    }

    /// The header with these fields; none where the name holds a zero
    /// byte.
    pub fn new(
        filename_rel: String,
        tree_bit_size: u64,
        data_bit_size: u64,
        file_byte_offset: u64,
        original_byte_size: u64,
    ) -> (block: Option<ArchiveBlock>)
        ensures
            block is Some <==> name_is_valid(filename_rel@),
            block matches Some(b) ==> b.wf() && b@ == (BlockView {
                filename_rel: filename_rel@,
                tree_bit_size,
                data_bit_size,
                file_byte_offset,
                original_byte_size,
            }),
    {
        let bytes: &[u8] = filename_rel.as_str().as_bytes();
        let mut i: usize = 0;
        while i < bytes.len()
            invariant
                i <= bytes@.len(),
                bytes@ == encode_utf8(filename_rel@),
                forall|j: int| 0 <= j < i ==> bytes@[j] != 0,
            decreases bytes@.len() - i,
        {
            if bytes[i] == 0 {
                return None;
            }
            i = i + 1;
        }
        Some(
            ArchiveBlock {
                filename_rel,
                tree_bit_size,
                data_bit_size,
                file_byte_offset,
                original_byte_size,
            },
        )
    }

    /// The header with these fields, where the caller knows that the name
    /// holds no zero byte.
    pub(crate) fn from_parts(
        filename_rel: String,
        tree_bit_size: u64,
        data_bit_size: u64,
        file_byte_offset: u64,
        original_byte_size: u64,
    ) -> (block: ArchiveBlock)
        requires
            name_is_valid(filename_rel@),
        ensures
            block.wf(),
            block@ == (BlockView {
                filename_rel: filename_rel@,
                tree_bit_size,
                data_bit_size,
                file_byte_offset,
                original_byte_size,
            }),
    {
        ArchiveBlock {
            filename_rel,
            tree_bit_size,
            data_bit_size,
            file_byte_offset,
            original_byte_size,
        }
    }

    /// The bytes of this header as they stand in the container.
    pub fn to_bytes(&self) -> (bytes: Vec<u8>)
        ensures
            bytes@ == block_bytes(self@),
    {
        let mut bytes: Vec<u8> = Vec::new();
        bytes.extend_from_slice(self.filename_rel.as_str().as_bytes());
        bytes.push(0u8);
        bytes.extend_from_slice(u64_to_le_bytes(self.tree_bit_size).as_slice());
        bytes.extend_from_slice(u64_to_le_bytes(self.data_bit_size).as_slice());
        bytes.extend_from_slice(u64_to_le_bytes(self.file_byte_offset).as_slice());
        bytes.extend_from_slice(u64_to_le_bytes(self.original_byte_size).as_slice());
        bytes
    }

    /// The path of the entry, relative to the archive root.
    pub fn filename_rel(&self) -> (name: &str)
        ensures
            name@ == self@.filename_rel,
            name_is_valid(name@),
    {
        proof {
            use_type_invariant(self);
        }
        self.filename_rel.as_str()
    }

    /// The exact number of bits of the serialized code tree.
    pub fn tree_bit_size(&self) -> (n: u64)
        ensures
            n == self@.tree_bit_size,
    {
        self.tree_bit_size
    }

    /// The exact number of bits of the encoded payload.
    pub fn data_bit_size(&self) -> (n: u64)
        ensures
            n == self@.data_bit_size,
    {
        self.data_bit_size
    }

    /// The number of bytes that the serialized code tree takes in the
    /// container, its last byte padded.
    pub fn tree_byte_len(&self) -> (n: u64)
        ensures
            n == bytes_for_bits(self@.tree_bit_size),
    {
        self.tree_bit_size / 8 + (if self.tree_bit_size % 8 == 0 { 0 } else { 1 })
    }

    /// The number of bytes that the encoded payload takes in the container,
    /// its last byte padded.
    pub fn data_byte_len(&self) -> (n: u64)
        ensures
            n == bytes_for_bits(self@.data_bit_size),
    {
        self.data_bit_size / 8 + (if self.data_bit_size % 8 == 0 { 0 } else { 1 })
    }

    /// The byte offset of the payload within the container.
    pub fn file_byte_offset(&self) -> (n: u64)
        ensures
            n == self@.file_byte_offset,
    {
        self.file_byte_offset
    }

    /// The size of the file before encoding.
    pub fn original_byte_size(&self) -> (n: u64)
        ensures
            n == self@.original_byte_size,
    {
        self.original_byte_size
    }
}

/// Where the first `n` bytes are not zero and the next one is, or there is
/// none, the name is `n` bytes long.
pub proof fn lemma_name_len(bytes: Seq<u8>, n: int)
    requires
        0 <= n <= bytes.len(),
        forall|j: int| 0 <= j < n ==> bytes[j] != 0,
        n == bytes.len() || bytes[n] == 0,
    ensures
        name_len(bytes) == n,
    decreases n,
{
    if n > 0 {
        lemma_name_len(bytes.skip(1), n - 1);
    }
}

impl Clone for ArchiveBlock {
    fn clone(&self) -> (copy: Self)
        ensures
            copy@ == self@,
    {
        proof {
            use_type_invariant(self);
        }
        ArchiveBlock {
            filename_rel: self.filename_rel.clone(),
            tree_bit_size: self.tree_bit_size,
            data_bit_size: self.data_bit_size,
            file_byte_offset: self.file_byte_offset,
            original_byte_size: self.original_byte_size,
        }
    }
}

/// `String::from_utf8` of the standard library: it succeeds exactly on valid
/// UTF-8, and the string it returns is made of the bytes it was given.
#[verifier::external_body]
pub(crate) fn string_from_utf8(bytes: Vec<u8>) -> (text: Option<String>)
    ensures
        text is Some <==> valid_utf8(bytes@),
        text matches Some(s) ==> encode_utf8(s@) == bytes@,
{
    match String::from_utf8(bytes) {
        Ok(s) => Some(s),
        Err(_) => None,
    }
}

} // verus!
