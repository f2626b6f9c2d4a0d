//! A writer that counts the bytes it passes on.

use vstd::prelude::*;
use crate::errors::{IoError, IoErrorKind};

verus! {

/// Appends to a byte buffer and counts what it appended.
pub struct CountingWriter<'a> {
    pub inner: &'a mut Vec<u8>,
    pub written: usize,
}

impl<'a> CountingWriter<'a> {
    /// The bytes of the buffer written to.
    pub open spec fn data(&self) -> Seq<u8> {
        self.inner@
    }

    /// How many bytes were written through this writer.
    pub open spec fn count(&self) -> nat {
        self.written as nat
    }

    pub fn new(inner: &'a mut Vec<u8>) -> (w: CountingWriter<'a>)
        ensures
            w.count() == 0,
            w.data() == old(inner)@,
            final(inner)@ == final(w.inner)@,
    {
        CountingWriter { inner, written: 0 }
    }

    /// Appends `buf` and counts it; fails with `Other`, after appending,
    /// when the count would overflow.
    pub fn write(&mut self, buf: &[u8]) -> (r: Result<usize, IoError>)
        ensures
            final(self).data() == old(self).data() + buf@,
            final(final(self).inner)@ == final(old(self).inner)@,
            old(self).count() + buf@.len() <= usize::MAX ==> r == Ok::<usize, IoError>(buf@.len() as usize)
                && final(self).count() == old(self).count() + buf@.len(),
            old(self).count() + buf@.len() > usize::MAX ==> r is Err && r->Err_0.kind
                == IoErrorKind::Other && final(self).count() == old(self).count(),
    {
        crate::le::write_all(self.inner, buf);
        match self.written.checked_add(buf.len()) {
            Some(n) => {
                self.written = n;
                Ok(buf.len())
            },
            None => Err(IoError::new(IoErrorKind::Other, "CountingWriter byte count overflow")),
        }
    }

    /// Nothing is buffered: always succeeds.
    pub fn flush(&mut self) -> (r: Result<(), IoError>)
        ensures
            r is Ok,
            *final(self) == *old(self),
    {
        Ok(())
    }

    /// How many bytes were written through this writer.
    pub fn bytes_written(&self) -> (n: usize)
        ensures
            n == self.count(),
    {
        self.written
    }

    /// The buffer written to, borrowed for direct access; whatever is done
    /// through it is what the buffer holds afterwards, and the count stays.
    pub fn inner(&mut self) -> (r: &mut Vec<u8>)
        ensures
            r@ == old(self).data(),
            final(self).data() == final(r)@,
            final(self).count() == old(self).count(),
            final(final(self).inner)@ == final(old(self).inner)@,
    {
        &mut *self.inner
    }

    /// Gives back the buffer and the count.
    pub fn into_inner(self) -> (r: (&'a mut Vec<u8>, usize))
        ensures
            r.0@ == self.data(),
            final(r.0)@ == final(self.inner)@,
            r.1 == self.count(),
    {
        (self.inner, self.written)
    }
}

} // verus!
