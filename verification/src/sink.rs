//! The two ends of the bit layer: the sink that takes what the writer
//! flushes, and the source that the reader refills from. Both live in memory;
//! whoever owns the file moves the bytes between them and the disk.

use crate::buffer::{BitBuffer, BUFFER_LEN};
use crate::error::CodecError;
use vstd::prelude::*;
use vstd::slice::slice_subrange;

verus! {

/// A byte sink of bounded size. It holds the bytes it has accepted until
/// they are taken out, and refuses a write that would exceed its limit.
pub struct ByteSink {
    data: Vec<u8>,
    limit: usize,
    taken: Ghost<Seq<u8>>,
}

impl ByteSink {
    /// The bytes accepted and not yet taken out.
    pub closed spec fn pending(&self) -> Seq<u8> {
        self.data@
    }

    /// The bytes taken out so far, in order.
    pub closed spec fn taken(&self) -> Seq<u8> {
        self.taken@
    }

    /// The largest number of bytes the sink holds at a time.
    pub closed spec fn limit(&self) -> nat {
        self.limit as nat
    }

    /// Every byte the sink ever accepted, in order.
    pub open spec fn history(&self) -> Seq<u8> {
        self.taken() + self.pending()
    }

    /// The number of bytes the sink can still accept.
    pub open spec fn room(&self) -> nat {
        if self.pending().len() <= self.limit() {
            (self.limit() - self.pending().len()) as nat
        } else {
            0
        }
    }

    /// An empty sink that holds as many bytes as memory allows.
    pub fn new() -> (sink: ByteSink)
        ensures
            sink.pending() == Seq::<u8>::empty(),
            sink.taken() == Seq::<u8>::empty(),
            sink.limit() == usize::MAX,
    {
        ByteSink { data: Vec::new(), limit: usize::MAX, taken: Ghost(Seq::empty()) }
    }

    /// An empty sink that holds at most `limit` bytes at a time.
    pub fn with_limit(limit: usize) -> (sink: ByteSink)
        ensures
            sink.pending() == Seq::<u8>::empty(),
            sink.taken() == Seq::<u8>::empty(),
            sink.limit() == limit,
    {
        ByteSink { data: Vec::new(), limit, taken: Ghost(Seq::empty()) }
    }

    /// The number of bytes accepted and not yet taken out.
    pub fn len(&self) -> (n: usize)
        ensures
            n == self.pending().len(),
    {
        self.data.len()
    }

    /// The bytes accepted and not yet taken out.
    pub fn as_slice(&self) -> (bytes: &[u8])
        ensures
            bytes@ == self.pending(),
    {
        self.data.as_slice()
    }

    /// Appends `bytes` if they fit within the limit; refuses all of them
    /// otherwise and stays as it is.
    pub fn write_all(&mut self, bytes: &[u8]) -> (r: Result<(), CodecError>)
        ensures
            r is Ok <==> bytes@.len() <= old(self).room(),
            r is Ok ==> final(self).pending() == old(self).pending() + bytes@,
            r is Ok ==> final(self).room() == old(self).room() - bytes@.len(),
            r is Err ==> r == Err::<(), CodecError>(CodecError::Io),
            r is Err ==> final(self).pending() == old(self).pending(),
            final(self).taken() == old(self).taken(),
            final(self).limit() == old(self).limit(),
    {
        let room: usize = if self.data.len() <= self.limit {
            self.limit - self.data.len()
        } else {
            0
        };
        if bytes.len() <= room {
            self.data.extend_from_slice(bytes);
            Ok(())
        } else {
            Err(CodecError::Io)
        }
    }

    /// Hands out the bytes accepted since the last call and makes room for
    /// as many again.
    pub fn take(&mut self) -> (bytes: Vec<u8>)
        ensures
            bytes@ == old(self).pending(),
            final(self).pending() == Seq::<u8>::empty(),
            final(self).taken() == old(self).taken() + old(self).pending(),
            final(self).history() == old(self).history(),
            final(self).limit() == old(self).limit(),
    {
        let mut bytes: Vec<u8> = Vec::new();
        std::mem::swap(&mut bytes, &mut self.data);
        proof {
            self.taken@ = self.taken@ + bytes@;
        }
        bytes
    }
}

/// A byte source held in memory, read front to back in buffer-sized pieces.
pub struct ByteSource {
    data: Vec<u8>,
    offset: usize,
}

impl ByteSource {
    /// All bytes of the source, handed out or not.
    pub closed spec fn bytes(&self) -> Seq<u8> {
        self.data@
    }

    /// The number of bytes handed out so far.
    pub closed spec fn consumed(&self) -> nat {
        self.offset as nat
    }

    /// No more bytes were handed out than the source holds.
    pub open spec fn wf(&self) -> bool {
        self.consumed() <= self.bytes().len()
    }

    /// A source over `data`, of which nothing is handed out yet.
    pub fn new(data: Vec<u8>) -> (source: ByteSource)
        ensures
            source.wf(),
            source.bytes() == data@,
            source.consumed() == 0,
    {
        ByteSource { data, offset: 0 }
    }

    /// The number of bytes handed out so far.
    pub fn consumed_len(&self) -> (n: usize)
        ensures
            n == self.consumed(),
    {
        self.offset
    }

    /// The number of bytes not handed out yet.
    pub fn remaining(&self) -> (n: usize)
        requires
            self.wf(),
        ensures
            n == self.bytes().len() - self.consumed(),
    {
        self.data.len() - self.offset
    }

    /// Loads the next bytes into `buffer`, as many as it holds or as are
    /// left, and returns their number.
    pub fn fill(&mut self, buffer: &mut BitBuffer) -> (n: usize)
        requires
            old(self).wf(),
            old(buffer).wf(),
        ensures
            final(self).wf(),
            final(self).bytes() == old(self).bytes(),
            final(self).consumed() == old(self).consumed() + n,
            n == (if old(self).bytes().len() - old(self).consumed() < BUFFER_LEN {
                old(self).bytes().len() - old(self).consumed()
            } else {
                BUFFER_LEN as int
            }),
            final(buffer).wf(),
            final(buffer).position() == 0,
            final(buffer).bytes().take(n as int) == old(self).bytes().subrange(
                old(self).consumed() as int,
                old(self).consumed() + n,
            ),
            final(buffer).bytes().skip(n as int) == old(buffer).bytes().skip(n as int),
    {
        let rest: &[u8] = slice_subrange(self.data.as_slice(), self.offset, self.data.len());
        let n: usize = buffer.load(rest);
        self.offset = self.offset + n;
        n
    }
}

} // verus!
