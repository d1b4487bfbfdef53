//! A reader wrapper that counts how many bytes have passed through it.
//! The byte-counting bookkeeping lives here; the wrapped reader itself is
//! driven by the surrounding program.

use vstd::prelude::*;

verus! {

/// A wrapped reader together with the number of bytes read through it so
/// far.
pub struct CountingRead<R> {
    inner: R,
    count: usize,
}

impl<R> CountingRead<R> {
    /// The number of bytes counted so far.
    pub closed spec fn spec_count(&self) -> usize {
        self.count
    }

    /// The wrapped reader.
    pub closed spec fn spec_inner(&self) -> &R {
        &self.inner
    }

    /// Wraps a reader with a zeroed byte count.
    pub fn new(inner: R) -> (r: CountingRead<R>)
        ensures
            r.spec_count() == 0,
            r.spec_inner() == inner,
    {
        CountingRead { inner, count: 0 }
    }

    /// Unwraps the reader, discarding the count.
    pub fn into_inner(self) -> (r: R)
        ensures
            r == self.spec_inner(),
    {
        self.inner
    }

    /// How many bytes have been read through the wrapper.
    pub fn bytes_read(&self) -> (r: usize)
        ensures
            r == self.spec_count(),
    {
        self.count
    }

    /// Records that `n` more bytes went through.
    pub fn add_bytes(&mut self, n: usize)
        requires
            old(self).spec_count() + n <= usize::MAX,
        ensures
            final(self).spec_count() == old(self).spec_count() + n,
            final(self).spec_inner() == old(self).spec_inner(),
    {
        self.count += n;
    }
}

} // verus!
