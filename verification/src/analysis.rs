//! What packing learns from reading a source file once: its SHA-256, its
//! size and its byte histogram, all over the same bytes.

use vstd::prelude::*;
use crate::codec::{sha256_digest, ContentHasher};
use crate::shannon::EntropyStream;

verus! {

/// A file being read: every chunk goes to the content hash and to the
/// byte histogram.
pub struct FileAnalysis {
    hasher: ContentHasher,
    entropy: EntropyStream,
}

/// What reading a whole file found.
pub struct FileDigest {
    pub hash: [u8; 32],
    pub size: u64,
    pub histogram: EntropyStream,
}

impl FileAnalysis {
    /// The bytes read so far.
    pub closed spec fn fed(&self) -> Seq<u8> {
        self.hasher.consumed()
    }

    pub closed spec fn wf(&self) -> bool {
        &&& self.entropy.wf()
        &&& self.entropy.fed() == self.hasher.consumed()
    }

    pub fn new() -> (a: FileAnalysis)
        ensures
            a.wf(),
            a.fed() == Seq::<u8>::empty(),
    {
        FileAnalysis { hasher: ContentHasher::new(), entropy: EntropyStream::new() }
    }

    /// Adds the next chunk read from the file.
    pub fn feed(&mut self, chunk: &[u8])
        requires
            old(self).wf(),
            old(self).fed().len() + chunk@.len() <= u64::MAX,
        ensures
            final(self).wf(),
            final(self).fed() == old(self).fed() + chunk@,
    {
        self.hasher.update(chunk);
        self.entropy.feed_slice(chunk);
    }

    /// The hash, size and histogram of everything read.
    pub fn finish(self) -> (d: FileDigest)
        requires
            self.wf(),
        ensures
            d.hash@ == sha256_digest(self.fed()),
            d.size == self.fed().len(),
            d.histogram.wf(),
            d.histogram.fed() == self.fed(),
    {
        let size = self.entropy.total();
        FileDigest { hash: self.hasher.finalize(), size, histogram: self.entropy }
    }
}

} // verus!
