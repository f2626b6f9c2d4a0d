//! SHA-256 (sha2) and Brotli (brotli) as the format uses them.

use vstd::prelude::*;
use sha2::Digest;
use std::io::{Read, Write};

verus! {

/// SHA-256 of a byte string, as computed by the `sha2` crate.
pub uninterp spec fn sha256_digest(data: Seq<u8>) -> Seq<u8>;

/// The outcome of compressing a byte string with Brotli at quality 9 and a
/// 22-bit window through a `brotli::CompressorWriter` with an 8 KiB buffer:
/// `None` when the encoder reports an error.
pub uninterp spec fn brotli_compressed(data: Seq<u8>) -> Option<Seq<u8>>;

/// The outcome of decompressing a byte string with `brotli::Decompressor`:
/// `None` when the stream is not a complete, valid Brotli stream.
pub uninterp spec fn brotli_decompressed(data: Seq<u8>) -> Option<Seq<u8>>;

/// `sha2::Sha256::digest`: the 32-byte SHA-256 of `data`.
#[verifier::external_body]
pub fn sha256(data: &[u8]) -> (h: [u8; 32])
    ensures
        h@ == sha256_digest(data@),
{
    sha2::Sha256::digest(data).into()
}

/// The state of a `sha2::Sha256` hasher, opaque to proofs. (`sha2::Sha256`
/// is an alias of a `digest` wrapper over `typenum` types that cannot be
/// declared as an outside type, so the state is held here instead.)
#[verifier::external_body]
struct Sha256State {
    hasher: sha2::Sha256,
}

/// A SHA-256 computation fed one piece at a time, as a file is read.
pub struct ContentHasher {
    state: Sha256State,
    consumed: Ghost<Seq<u8>>,
}

impl ContentHasher {
    /// The bytes fed so far, in order.
    pub closed spec fn consumed(&self) -> Seq<u8> {
        self.consumed@
    }

    /// `sha2::Sha256::new`: a hasher that has processed nothing.
    #[verifier::external_body]
    pub(crate) fn new() -> (h: ContentHasher)
        ensures
            h.consumed() == Seq::<u8>::empty(),
    {
        ContentHasher { state: Sha256State { hasher: sha2::Sha256::new() }, consumed: Ghost(Seq::empty()) }
    }

    /// `Digest::update`: processes `data` after what was fed before.
    #[verifier::external_body]
    pub(crate) fn update(&mut self, data: &[u8])
        ensures
            final(self).consumed() == old(self).consumed() + data@,
    {
        self.state.hasher.update(data);
    }

    /// `Digest::finalize`: the SHA-256 of everything fed, the same digest
    /// `sha2::Sha256::digest` gives for those bytes in one piece, as the
    /// `digest` crate computes that one as `new`, `update`, `finalize`.
    #[verifier::external_body]
    pub(crate) fn finalize(self) -> (h: [u8; 32])
        ensures
            h@ == sha256_digest(self.consumed()),
    {
        self.state.hasher.finalize().into()
    }
}

/// `brotli::CompressorWriter` (buffer 8192, quality 9, window 22) writing
/// into a `Vec`: the compressed bytes, or `None` when `write_all` or `flush`
/// fails. The contract claims that the result is a function of `raw` alone
/// and that Brotli decompression gives `raw` back, which is what a lossless
/// codec promises.
#[verifier::external_body]
pub fn brotli_compress(raw: &[u8]) -> (r: Option<Vec<u8>>)
    ensures
        r matches Some(c) ==> brotli_compressed(raw@) == Some(c@),
        r is None ==> brotli_compressed(raw@) is None,
        r matches Some(c) ==> brotli_decompressed(c@) == Some(raw@),
{
    let mut out = Vec::new();
    let ok = {
        let mut w = brotli::CompressorWriter::new(&mut out, 8192, 9, 22);
        w.write_all(raw).is_ok() && w.flush().is_ok()
    };
    if ok { Some(out) } else { None }
}

/// `brotli::Decompressor` (buffer 16 KiB) read to the end: the decompressed
/// bytes, or `None` when the decoder reports an error (an `InvalidData` I/O
/// error in the `brotli-decompressor` crate).
#[verifier::external_body]
pub fn brotli_decompress(data: &[u8]) -> (r: Option<Vec<u8>>)
    ensures
        r matches Some(d) ==> brotli_decompressed(data@) == Some(d@),
        r is None ==> brotli_decompressed(data@) is None,
{
    let mut out = Vec::new();
    match brotli::Decompressor::new(data, 16 * 1024).read_to_end(&mut out) {
        Ok(_) => Some(out),
        Err(_) => None,
    }
}

} // verus!
