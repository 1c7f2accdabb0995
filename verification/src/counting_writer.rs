//! A sink together with the number of bytes it has taken.

use vstd::prelude::*;

verus! {

/// A sink together with the number of bytes it has taken, by which the packed size of
/// a block is measured while the block is written.
pub struct CountingWriter<W> {
    inner: W,
    written_bytes: usize,
}

impl<W> CountingWriter<W> {
    /// The sink inside.
    pub closed spec fn inner(self) -> W {
        self.inner
    }

    /// The number of bytes that the sink has taken.
    pub closed spec fn written(&self) -> usize {
        self.written_bytes
    }

    /// Wraps `inner`, which has taken no bytes yet.
    pub fn new(inner: W) -> (writer: CountingWriter<W>)
        ensures
            writer.inner() == inner,
            writer.written() == 0,
    {
        CountingWriter { inner, written_bytes: 0 }
    }

    /// The number of bytes that the sink has taken so far.
    pub fn counting(&self) -> (count: usize)
        ensures
            count == self.written(),
    {
        self.written_bytes
    }

    /// The sink inside, to be written to; what it took is then to be recorded.
    pub fn get_mut(&mut self) -> (inner: &mut W)
        ensures
            *inner == old(self).inner(),
            final(self).inner() == *final(inner),
            final(self).written() == old(self).written(),
    {
        &mut self.inner
    }

    /// Records that the sink took `len` more bytes.
    pub fn record(&mut self, len: usize)
        requires
            old(self).written() + len <= usize::MAX,
        ensures
            final(self).written() == old(self).written() + len,
            final(self).inner() == old(self).inner(),
    {
        self.written_bytes = self.written_bytes + len;
    }

    /// Hands the sink back.
    pub fn into_inner(self) -> (inner: W)
        ensures
            inner == self.inner(),
    {
        self.inner
    }
}

} // verus!
