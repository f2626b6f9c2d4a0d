//! A data section: a name, a codec, the (possibly compressed) payload, and
//! the SHA-256 of everything before it.

use vstd::prelude::*;
use crate::codec::{brotli_compress, brotli_compressed, brotli_decompress, brotli_decompressed, sha256, sha256_digest};
use crate::enums::CompressionType;
use crate::errors::{IoError, IoErrorKind};
use crate::le::{le32, le64, lemma_le_roundtrip, u32_at, u64_at, write_all, ByteReader, ReadLeExt, WriteLeExt};
use crate::strsection::hash_eq;

verus! {

/// A data section read back from an archive, decompressed.
pub struct DecodedDataSection {
    pub name_stridx: u32,
    pub compression: CompressionType,
    pub data: Vec<u8>,
}

/// What a data section holds, as a value.
pub struct DataSectionView {
    pub name_stridx: u32,
    pub compression: CompressionType,
    pub data: Seq<u8>,
}

impl DecodedDataSection {
    pub open spec fn view(&self) -> DataSectionView {
        DataSectionView { name_stridx: self.name_stridx, compression: self.compression, data: self.data@ }
    }
}

/// The stored payload for `raw` under a codec the encoder implements.
pub open spec fn data_payload(compression: CompressionType, raw: Seq<u8>) -> Option<Seq<u8>> {
    match compression {
        CompressionType::Stored => Some(raw),
        CompressionType::Brotli => brotli_compressed(raw),
        _ => None,
    }
}

/// The section up to its hash.
pub open spec fn data_section_body(name_stridx: u32, compression: CompressionType, c: Seq<u8>) -> Seq<u8> {
    le32(name_stridx) + seq![compression.spec_code(), 0u8, 0u8, 0u8] + le64(c.len() as u64) + c
}

/// `bytes` is a data section that `write_data_section` writes for `raw`.
pub open spec fn data_section_encoding(
    name_stridx: u32,
    compression: CompressionType,
    raw: Seq<u8>,
    bytes: Seq<u8>,
) -> bool {
    exists|c: Seq<u8>|
        {
            &&& data_payload(compression, raw) == Some(c)
            &&& c.len() <= u64::MAX
            &&& (compression == CompressionType::Brotli ==> brotli_decompressed(c) == Some(raw))
            &&& sha256_digest(data_section_body(name_stridx, compression, c)).len() == 32
            &&& #[trigger] data_section_body(name_stridx, compression, c) + sha256_digest(
                data_section_body(name_stridx, compression, c),
            ) == bytes
        }
}

/// Parsing a data section from the front of `s`.
pub open spec fn parse_data_section(s: Seq<u8>) -> Result<(DataSectionView, int), IoErrorKind> {
    if s.len() < 16 {
        Err(IoErrorKind::UnexpectedEof)
    } else {
        match CompressionType::spec_from_code(s[4]) {
            None => Err(IoErrorKind::InvalidData),
            Some(compression) => {
                let size = u64_at(s, 8) as int;
                if s.len() < 16 + size + 32 {
                    Err(IoErrorKind::UnexpectedEof)
                } else if sha256_digest(s.subrange(0, 16 + size)) != s.subrange(
                    16 + size,
                    16 + size + 32,
                ) {
                    Err(IoErrorKind::InvalidData)
                } else {
                    let payload = s.subrange(16, 16 + size);
                    let data = match compression {
                        CompressionType::Stored => Some(payload),
                        CompressionType::Brotli => brotli_decompressed(payload),
                        _ => None,
                    };
                    match data {
                        None => Err(IoErrorKind::InvalidData),
                        Some(d) => Ok(
                            (
                                DataSectionView {
                                    name_stridx: u32_at(s, 0),
                                    compression,
                                    data: d,
                                },
                                16 + size + 32,
                            ),
                        ),
                    }
                }
            },
        }
    }
}

/// A data section as written parses back to its name, codec and raw bytes,
/// whatever bytes follow it.
pub proof fn lemma_data_section_roundtrip(
    name_stridx: u32,
    compression: CompressionType,
    raw: Seq<u8>,
    bytes: Seq<u8>,
    rest: Seq<u8>,
)
    requires
        data_section_encoding(name_stridx, compression, raw, bytes),
    ensures
        parse_data_section(bytes + rest) == Ok::<(DataSectionView, int), IoErrorKind>(
            (DataSectionView { name_stridx, compression, data: raw }, bytes.len() as int),
        ),
{
    let c = choose|c: Seq<u8>|
        {
            &&& data_payload(compression, raw) == Some(c)
            &&& c.len() <= u64::MAX
            &&& (compression == CompressionType::Brotli ==> brotli_decompressed(c) == Some(raw))
            &&& sha256_digest(data_section_body(name_stridx, compression, c)).len() == 32
            &&& #[trigger] data_section_body(name_stridx, compression, c) + sha256_digest(
                data_section_body(name_stridx, compression, c),
            ) == bytes
        };
    lemma_le_roundtrip();
    let body = data_section_body(name_stridx, compression, c);
    let s = bytes + rest;
    let a = le32(name_stridx);
    let b = le64(c.len() as u64);
    assert(a.len() == 4 && b.len() == 8);
    assert(s.subrange(0, 4) =~= a);
    assert(a.subrange(0, 4) =~= a);
    assert(s[4] == compression.spec_code());
    assert(s.subrange(8, 16) =~= b);
    assert(b.subrange(0, 8) =~= b);
    assert(u64_at(s, 8) == c.len());
    let size = c.len() as int;
    assert(s.subrange(0, 16 + size) =~= body);
    assert(s.subrange(16 + size, 16 + size + 32) =~= sha256_digest(body));
    assert(s.subrange(16, 16 + size) =~= c);
}

/// Writes one data section for `raw`. Only the `Stored` and `Brotli` codecs
/// are implemented for encoding; any other is an `InvalidInput` error, and a
/// compressor failure is `Other`. Returns the number of bytes written; on
/// failure nothing is written.
pub fn write_data_section(
    writer: &mut Vec<u8>,
    name_stridx: u32,
    compression: CompressionType,
    raw: &[u8],
) -> (r: Result<usize, IoError>)
    ensures
        compression != CompressionType::Stored && compression != CompressionType::Brotli ==> r is Err
            && r->Err_0.kind == IoErrorKind::InvalidInput,
        compression == CompressionType::Brotli && brotli_compressed(raw@) is None ==> r is Err
            && r->Err_0.kind == IoErrorKind::Other,
        r is Ok <==> data_payload(compression, raw@) is Some,
        r matches Ok(n) ==> final(writer)@.len() == old(writer)@.len() + n && final(writer)@.subrange(
            0,
            old(writer)@.len() as int,
        ) == old(writer)@ && data_section_encoding(
            name_stridx,
            compression,
            raw@,
            final(writer)@.subrange(old(writer)@.len() as int, final(writer)@.len() as int),
        ) && n == 16 + data_payload(compression, raw@)->Some_0.len() + 32,
        r is Err ==> final(writer)@ == old(writer)@,
{
    let compressed: Vec<u8> = match compression {
        CompressionType::Stored => {
            let mut v: Vec<u8> = Vec::new();
            write_all(&mut v, raw);
            v
        },
        CompressionType::Brotli => {
            match brotli_compress(raw) {
                Some(c) => c,
                None => {
                    return Err(IoError::new(IoErrorKind::Other, "compression failed"));
                },
            }
        },
        _ => {
            return Err(IoError::new(IoErrorKind::InvalidInput, "compression type is not implemented for encoding"));
        },
    };
    let size = compressed.len() as u64;
    let mut body: Vec<u8> = Vec::new();
    body.write_u32_le(name_stridx);
    body.write_u8(compression.to_u8());
    body.write_u8(0);
    body.write_u8(0);
    body.write_u8(0);
    body.write_u64_le(size);
    write_all(&mut body, compressed.as_slice());
    let digest = sha256(body.as_slice());
    let ghost start = writer@;
    let start_len = writer.len();
    write_all(writer, body.as_slice());
    write_all(writer, &digest);
    let written = writer.len() - start_len;
    proof {
        let c = compressed@;
        lemma_le_roundtrip();
        assert(le32(name_stridx).len() == 4);
        assert(le64(size).len() == 8);
        assert(body@.len() == 16 + c.len());
        assert(body@ =~= data_section_body(name_stridx, compression, c));
        let added = writer@.subrange(start.len() as int, writer@.len() as int);
        assert(added =~= data_section_body(name_stridx, compression, c) + sha256_digest(
            data_section_body(name_stridx, compression, c),
        ));
        assert(data_section_encoding(name_stridx, compression, raw@, added));
        assert(writer@.subrange(0, start.len() as int) =~= start);
    }
    Ok(written)
}

/// Reads one data section, checking its hash and decompressing its payload.
/// Errors: `UnexpectedEof` when the input ends early; `InvalidData` for an
/// unknown codec byte, a hash mismatch, a codec the decoder does not
/// implement, or a bad Brotli stream.
pub fn read_data_section(reader: &mut ByteReader) -> (r: Result<DecodedDataSection, IoError>)
    requires
        old(reader).wf(),
    ensures
        final(reader).wf(),
        final(reader).data() == old(reader).data(),
        match parse_data_section(old(reader).rest()) {
            Ok((v, len)) => r is Ok && r->Ok_0.view() == v && final(reader).rest() == old(
                reader,
            ).rest().subrange(len, old(reader).rest().len() as int),
            Err(k) => r is Err && r->Err_0.kind == k,
        },
{
    let ghost s = old(reader).rest();
    let ghost data = old(reader).data();
    let start = reader.position();
    let header = reader.read_bytes(16)?;
    let name_stridx = vstd::bytes::u32_from_le_bytes(&header[0..4]);
    let compression = match CompressionType::try_from(header[4]) {
        Ok(c) => c,
        Err(_) => {
            return Err(IoError::new(IoErrorKind::InvalidData, "unknown compression type"));
        },
    };
    let size = vstd::bytes::u64_from_le_bytes(&header[8..16]);
    proof {
        assert(header@.subrange(0, 4) =~= s.subrange(0, 4));
        assert(header@.subrange(8, 16) =~= s.subrange(8, 16));
        assert(header@[4] == s[4]);
    }
    if size > reader.remaining() as u64 {
        return Err(IoError::new(IoErrorKind::UnexpectedEof, "failed to fill whole buffer"));
    }
    let payload = reader.read_bytes(size as usize)?;
    let body = reader.since(start);
    proof {
        assert(reader.data() == data);
        assert(body@ =~= s.subrange(0, 16 + size)) by {
            assert(s == data.subrange(start as int, data.len() as int));
        }
        assert(payload@ =~= s.subrange(16, 16 + size));
    }
    let expected_hash = reader.read_bytes(32)?;
    proof {
        assert(expected_hash@ =~= s.subrange(16 + size, 16 + size + 32));
        assert(reader.rest() =~= s.subrange(16 + size + 32, s.len() as int));
    }
    let actual_hash = sha256(body);
    if !hash_eq(&actual_hash, expected_hash) {
        return Err(IoError::new(IoErrorKind::InvalidData, "DataSection checksum mismatch"));
    }
    let data_out: Vec<u8> = match compression {
        CompressionType::Stored => {
            let mut v: Vec<u8> = Vec::new();
            write_all(&mut v, payload);
            v
        },
        CompressionType::Brotli => {
            match brotli_decompress(payload) {
                Some(d) => d,
                None => {
                    return Err(IoError::new(IoErrorKind::InvalidData, "invalid Brotli stream"));
                },
            }
        },
        _ => {
            return Err(IoError::new(IoErrorKind::InvalidData, "compression type is not implemented for decoding"));
        },
    };
    Ok(DecodedDataSection { name_stridx, compression, data: data_out })
}

} // verus!
