//! Byte sources feeding the incremental JSON parser.
//!
//! A byte source hands out the upload body in chunks of arbitrary size; an
//! empty chunk signals that the source is exhausted.  The parser's results
//! are functions of the full byte sequence alone, never of how it was
//! chunked, which is what the `data` view here makes expressible.
use vstd::prelude::*;

verus! {

/// A blocking supplier of bytes: "read some bytes, an empty read means the
/// end".  The ghost view `data` is the sequence of bytes the source will
/// still yield; `infallible` says reads never fail, which holds of the
/// in-memory sources below and lets callers conclude that parsing cannot
/// be aborted by a transport error.
pub trait ByteSource: Sized {
    /// The bytes the source will still yield.  The defaults here only
    /// spare unverified implementations outside this crate from naming
    /// ghost state; every implementation in this crate overrides them.
    open spec fn data(&self) -> Seq<u8> {
        Seq::empty()
    }

    open spec fn infallible(&self) -> bool {
        false
    }

    /// Yield the next chunk.  A returned chunk is exactly the next bytes of
    /// `data`; an empty chunk is returned only once no bytes remain.
    fn read_chunk(&mut self) -> (r: Result<Vec<u8>, String>)
        ensures
            final(self).infallible() == old(self).infallible(),
            r matches Ok(c) ==> {
                &&& c@.len() <= old(self).data().len()
                &&& c@ == old(self).data().take(c@.len() as int)
                &&& final(self).data() == old(self).data().skip(c@.len() as int)
                &&& (c@.len() == 0 ==> old(self).data().len() == 0)
            },
            r is Err ==> final(self).data() == old(self).data(),
            old(self).infallible() ==> r is Ok,
    ;
}

/// An in-memory source that serves a byte vector in chunks of a chosen
/// size, so that the same document can be replayed under every possible
/// chunking.
pub struct ChunkedSource {
    bytes: Vec<u8>,
    pos: usize,
    chunk: usize,
}

impl ChunkedSource {
    /// A source over `bytes` that yields at most `chunk` bytes per read.
    pub fn new(bytes: Vec<u8>, chunk: usize) -> (r: ChunkedSource)
        requires
            chunk >= 1,
        ensures
            r.data() == bytes@,
            r.infallible(),
    {
        ChunkedSource { bytes, pos: 0, chunk }
    }
}

impl ByteSource for ChunkedSource {
    closed spec fn data(&self) -> Seq<u8> {
        if self.pos as int <= self.bytes@.len() {
            self.bytes@.skip(self.pos as int)
        } else {
            Seq::empty()
        }
    }

    closed spec fn infallible(&self) -> bool {
        self.chunk >= 1
    }

    fn read_chunk(&mut self) -> (r: Result<Vec<u8>, String>) {
        if self.pos >= self.bytes.len() {
            proof {
                assert(self.data() =~= Seq::<u8>::empty());
            }
            return Ok(Vec::new());
        }
        let remain = self.bytes.len() - self.pos;
        let per_read = if self.chunk >= 1 {
            self.chunk
        } else {
            1
        };
        let n = if per_read < remain {
            per_read
        } else {
            remain
        };
        let mut out: Vec<u8> = Vec::new();
        let mut i: usize = 0;
        while i < n
            invariant
                i <= n,
                self == old(self),
                self.pos + n <= self.bytes.len(),
                out@ == self.bytes@.subrange(self.pos as int, self.pos + i),
            decreases n - i,
        {
            out.push(self.bytes[self.pos + i]);
            i += 1;
        }
        proof {
            assert(out@ =~= self.data().take(n as int));
            assert(self.bytes@.skip(self.pos + n) =~= self.data().skip(n as int));
        }
        self.pos = self.pos + n;
        Ok(out)
    }
}

/// An in-memory source that serves the whole remainder on each read.
pub struct SliceSource {
    inner: ChunkedSource,
}

impl SliceSource {
    /// A source over `bytes` served in large chunks.
    pub fn new(bytes: Vec<u8>) -> (r: SliceSource)
        ensures
            r.data() == bytes@,
            r.infallible(),
    {
        SliceSource { inner: ChunkedSource::new(bytes, 8192) }
    }
}

impl ByteSource for SliceSource {
    closed spec fn data(&self) -> Seq<u8> {
        self.inner.data()
    }

    closed spec fn infallible(&self) -> bool {
        self.inner.infallible()
    }

    fn read_chunk(&mut self) -> (r: Result<Vec<u8>, String>) {
        self.inner.read_chunk()
    }
}

} // verus!
