//! The codes stored on disk for codecs, data sections and signature types.

use vstd::prelude::*;

verus! {

/// Codec applied to a data section.
#[derive(Clone, Copy, Debug, PartialEq, Eq, Structural)]
pub enum CompressionType {
    Stored,
    Lz4,
    Zstd,
    Brotli,
    Lzma,
}

impl CompressionType {
    /// The byte that stands for this codec on disk.
    pub open spec fn spec_code(self) -> u8 {
        match self {
            CompressionType::Stored => 0,
            CompressionType::Lz4 => 1,
            CompressionType::Zstd => 2,
            CompressionType::Brotli => 3,
            CompressionType::Lzma => 5,
        }
    }

    /// The codec a byte stands for, if any.
    pub open spec fn spec_from_code(value: u8) -> Option<CompressionType> {
        if value == 0 {
            Some(CompressionType::Stored)
        } else if value == 1 {
            Some(CompressionType::Lz4)
        } else if value == 2 {
            Some(CompressionType::Zstd)
        } else if value == 3 {
            Some(CompressionType::Brotli)
        } else if value == 5 {
            Some(CompressionType::Lzma)
        } else {
            None
        }
    }

    pub fn to_u8(self) -> (b: u8)
        ensures
            b == self.spec_code(),
    {
        match self {
            CompressionType::Stored => 0,
            CompressionType::Lz4 => 1,
            CompressionType::Zstd => 2,
            CompressionType::Brotli => 3,
            CompressionType::Lzma => 5,
        }
    }

    /// Decodes a codec byte; an unknown byte is handed back as the error.
    pub fn try_from(value: u8) -> (r: Result<CompressionType, u8>)
        ensures
            match Self::spec_from_code(value) {
                Some(c) => r == Ok::<CompressionType, u8>(c),
                None => r == Err::<CompressionType, u8>(value),
            },
    {
        match value {
            0 => Ok(CompressionType::Stored),
            1 => Ok(CompressionType::Lz4),
            2 => Ok(CompressionType::Zstd),
            3 => Ok(CompressionType::Brotli),
            5 => Ok(CompressionType::Lzma),
            other => Err(other),
        }
    }
}

/// Decoding a codec's byte gives the codec back.
pub proof fn lemma_compression_code_roundtrip(c: CompressionType)
    ensures
        CompressionType::spec_from_code(c.spec_code()) == Some(c),
{
}

/// Which physical data section of a generation a blob's bytes were written into.
#[derive(Clone, Copy, Debug, PartialEq, Eq, Structural)]
pub enum SectionKind {
    /// Bytes stored as-is (media, archives, encrypted data).
    Stored,
    /// Everything else, concatenated then compressed as one unit.
    Compressed,
}

/// Number of section kinds.
pub const SECTION_KIND_COUNT: usize = 2;

impl SectionKind {
    pub const COUNT: usize = 2;

    pub open spec fn spec_index(self) -> u32 {
        match self {
            SectionKind::Stored => 0,
            SectionKind::Compressed => 1,
        }
    }

    pub fn index(self) -> (i: u32)
        ensures
            i == self.spec_index(),
    {
        match self {
            SectionKind::Stored => 0,
            SectionKind::Compressed => 1,
        }
    }

    pub fn name(self) -> (s: &'static str)
        ensures
            self == SectionKind::Stored ==> s@ == "stored"@,
            self == SectionKind::Compressed ==> s@ == "compressed"@,
    {
        match self {
            SectionKind::Stored => "stored",
            SectionKind::Compressed => "compressed",
        }
    }

    pub fn try_from(value: u32) -> (r: Result<SectionKind, u32>)
        ensures
            value == 0 ==> r == Ok::<SectionKind, u32>(SectionKind::Stored),
            value == 1 ==> r == Ok::<SectionKind, u32>(SectionKind::Compressed),
            value > 1 ==> r == Err::<SectionKind, u32>(value),
    {
        match value {
            0 => Ok(SectionKind::Stored),
            1 => Ok(SectionKind::Compressed),
            other => Err(other),
        }
    }
}

/// Signature scheme used to sign a generation's integrity hash.
#[derive(Clone, Copy, Debug, PartialEq, Eq, Structural)]
pub enum SignatureType {
    Unsigned,
    Ed25519,
}

impl SignatureType {
    pub open spec fn spec_code(self) -> u32 {
        match self {
            SignatureType::Unsigned => 0,
            SignatureType::Ed25519 => 1,
        }
    }

    pub fn to_u32(self) -> (v: u32)
        ensures
            v == self.spec_code(),
    {
        match self {
            SignatureType::Unsigned => 0,
            SignatureType::Ed25519 => 1,
        }
    }

    pub fn try_from(value: u32) -> (r: Result<SignatureType, u32>)
        ensures
            value == 0 ==> r == Ok::<SignatureType, u32>(SignatureType::Unsigned),
            value == 1 ==> r == Ok::<SignatureType, u32>(SignatureType::Ed25519),
            value > 1 ==> r == Err::<SignatureType, u32>(value),
    {
        match value {
            0 => Ok(SignatureType::Unsigned),
            1 => Ok(SignatureType::Ed25519),
            other => Err(other),
        }
    }
}

} // verus!
