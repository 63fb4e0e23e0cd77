//! Bit-level engine of a multi-file archiver: a bit-addressable writer and
//! reader over fixed-size buffers, prefix-code values, per-entry block
//! headers, and the policy that sizes the worker pool.
//!
//! Bits are numbered from the least significant bit of each byte, and
//! multi-byte integers are little-endian, so bit `k` of the stream is bit
//! `k % 8` of byte `k / 8`.
//!
//! The library touches no file. A [`FileWriter`] flushes into a
//! [`ByteSink`], from which the owner of the container takes the bytes and
//! writes them out; a [`FileReader`] reads from a [`ByteSource`] over bytes
//! that its owner has read in. [`FileWriter::finish`] ends a stream: it
//! pads the last byte with zero bits and flushes what is buffered, once.
//!
//! Every operation is specified over the stream of bits written or read so
//! far; the module [`laws`] proves that what is written comes back.

pub mod bits;
pub mod block;
pub mod buffer;
pub mod error;
pub mod laws;
pub mod parallelism;
pub mod read;
pub mod sink;
pub mod symbol;
pub mod write;

pub use bits::{get_bit, set_bit};
pub use block::ArchiveBlock;
pub use buffer::{BitBuffer, BUFFER_BITS, BUFFER_LEN};
pub use error::CodecError;
pub use parallelism::{choose_worker_count, configure_thread_pool, pool_outcome};
pub use read::FileReader;
pub use sink::{ByteSink, ByteSource};
pub use symbol::SymbolCode;
pub use write::{BitwiseWriter, FileWriter};
