//! The reconnect buffer: a fixed-capacity byte accumulator for publishes
//! issued while the client is disconnected.
//!
//! The byte slice is partitioned as `[0..flushed) | [flushed..written) |
//! [written..cap)`: fully committed frames ready to replay, a partial frame
//! (present only transiently between the write steps of one frame), and free
//! space. When a frame does not fit, the buffer saturates (`written := cap`)
//! so that every later write of the same or a smaller frame also fails, which
//! keeps a torn frame out of the committed prefix.
use vstd::prelude::*;

use crate::ClientError;

verus! {

/// Fixed-capacity accumulator of encoded publish frames.
#[derive(Debug)]
pub struct Buffer {
    /// Backing storage; its length is the capacity and never changes.
    pub bytes: Vec<u8>,
    /// Number of bytes written, committed or not.
    pub written: usize,
    /// Number of bytes committed as whole frames.
    pub flushed: usize,
}

impl Buffer {
    /// The partition bounds always hold: `0 <= flushed <= written <= cap`.
    pub open spec fn inv(self) -> bool {
        self.flushed <= self.written <= self.bytes@.len()
    }

    pub open spec fn spec_capacity(self) -> int {
        self.bytes@.len() as int
    }

    pub open spec fn spec_written(self) -> int {
        self.written as int
    }

    pub open spec fn spec_flushed(self) -> int {
        self.flushed as int
    }

    /// The committed frames: the bytes that a reconnect will replay.
    pub open spec fn committed(self) -> Seq<u8> {
        self.bytes@.take(self.flushed as int)
    }

    /// Creates an empty buffer with the given capacity.
    pub fn new(size: usize) -> (r: Buffer)
        ensures
            r.inv(),
            r.spec_capacity() == size,
            r.spec_written() == 0,
            r.spec_flushed() == 0,
    {
        Buffer { bytes: vec![0u8; size], written: 0, flushed: 0 }
    }

    pub fn capacity(&self) -> (r: usize)
        ensures
            r == self.spec_capacity(),
    {
        self.bytes.len()
    }

    pub fn written(&self) -> (r: usize)
        ensures
            r == self.spec_written(),
    {
        self.written
    }

    pub fn flushed(&self) -> (r: usize)
        ensures
            r == self.spec_flushed(),
    {
        self.flushed
    }

    /// Appends one encoded frame. If it does not fit in the free space the
    /// buffer saturates and the write fails with a buffer-full error, leaving
    /// the stored bytes untouched.
    pub fn write(&mut self, buf: &[u8]) -> (r: Result<usize, ClientError>)
        requires
            old(self).inv(),
        ensures
            final(self).inv(),
            final(self).spec_capacity() == old(self).spec_capacity(),
            final(self).spec_flushed() == old(self).spec_flushed(),
            final(self).committed() == old(self).committed(),
            match r {
                Ok(n) => {
                    &&& n == buf@.len()
                    &&& old(self).spec_written() + buf@.len() <= old(self).spec_capacity()
                    &&& final(self).spec_written() == old(self).spec_written() + buf@.len()
                    &&& final(self).bytes@ == old(self).bytes@.take(old(self).spec_written()).add(
                        buf@,
                    ).add(old(self).bytes@.skip(final(self).spec_written()))
                },
                Err(e) => {
                    &&& e == ClientError::BufferFull
                    &&& old(self).spec_written() + buf@.len() > old(self).spec_capacity()
                    &&& final(self).spec_written() == final(self).spec_capacity()
                    &&& final(self).bytes@ == old(self).bytes@
                },
            },
    {
        let n = buf.len();
        if self.bytes.len() - self.written < n {
            // Saturate so that later, smaller writes also fail.
            self.written = self.bytes.len();
            Err(ClientError::BufferFull)
        } else {
            let cap = self.bytes.len();
            let mut i: usize = 0;
            while i < n
                invariant
                    i <= n,
                    n == buf@.len(),
                    old(self).spec_written() + n <= old(self).spec_capacity(),
                    self.written + n <= cap,
                    self.bytes@.len() == cap,
                    self.written == old(self).written,
                    self.flushed == old(self).flushed,
                    self.bytes@.len() == old(self).bytes@.len(),
                    self.bytes@.take(self.written as int) == old(self).bytes@.take(
                        self.written as int,
                    ),
                    self.bytes@.subrange(
                        self.written as int,
                        self.written + i,
                    ) == buf@.take(i as int),
                    self.bytes@.skip(self.written + n) == old(self).bytes@.skip(
                        self.written + n,
                    ),
                decreases n - i,
            {
                let b = buf[i];
                self.bytes.set(self.written + i, b);
                proof {
                    assert(self.bytes@.take(self.written as int) =~= old(
                        self,
                    ).bytes@.take(self.written as int));
                    assert(self.bytes@.subrange(self.written as int, self.written + i + 1)
                        =~= buf@.take(i + 1));
                    assert(self.bytes@.skip(self.written + n) =~= old(self).bytes@.skip(
                        self.written + n,
                    ));
                }
                i = i + 1;
            }
            proof {
                let w = self.written as int;
                assert(buf@.take(n as int) =~= buf@);
                assert forall|j: int| 0 <= j < w implies self.bytes@[j] == old(
                    self,
                ).bytes@[j] by {
                    assert(self.bytes@.take(w)[j] == old(self).bytes@.take(w)[j]);
                }
                assert forall|j: int| w <= j < w + n implies self.bytes@[j] == buf@[
                    j - w
                ] by {
                    assert(self.bytes@.subrange(w, w + n)[j - w] == buf@.take(n as int)[j - w]);
                }
                assert forall|j: int| w + n <= j < self.bytes@.len() implies self.bytes@[j] == old(
                    self,
                ).bytes@[j] by {
                    assert(self.bytes@.skip(w + n)[j - w - n] == old(self).bytes@.skip(w + n)[j - w
                        - n]);
                }
                assert(self.bytes@ =~= old(self).bytes@.take(w).add(buf@).add(
                    old(self).bytes@.skip(w + n),
                ));
                assert(self.bytes@.take(self.flushed as int) =~= old(self).bytes@.take(
                    self.flushed as int,
                ));
            }
            self.written = self.written + n;
            Ok(n)
        }
    }

    /// Commits the frame written since the last flush: `flushed := written`.
    pub fn flush(&mut self)
        requires
            old(self).inv(),
        ensures
            final(self).inv(),
            final(self).spec_capacity() == old(self).spec_capacity(),
            final(self).spec_written() == old(self).spec_written(),
            final(self).spec_flushed() == old(self).spec_written(),
            final(self).bytes@ == old(self).bytes@,
    {
        self.flushed = self.written;
    }

    /// Takes the committed frames out and resets the buffer to empty.
    pub fn clear(&mut self) -> (r: Vec<u8>)
        requires
            old(self).inv(),
        ensures
            final(self).inv(),
            final(self).spec_capacity() == old(self).spec_capacity(),
            final(self).spec_written() == 0,
            final(self).spec_flushed() == 0,
            r@ == old(self).committed(),
    {
        let mut out: Vec<u8> = Vec::new();
        let mut i: usize = 0;
        while i < self.flushed
            invariant
                i <= self.flushed,
                self == old(self),
                self.inv(),
                out@ == self.bytes@.take(i as int),
            decreases self.flushed - i,
        {
            out.push(self.bytes[i]);
            proof {
                assert(out@ =~= self.bytes@.take(i + 1));
            }
            i = i + 1;
        }
        self.written = 0;
        self.flushed = 0;
        out
    }
}

} // verus!
