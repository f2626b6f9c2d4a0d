use bpfs::constants::{GENERATION_SUFFIX, ZERO_HASH};
use bpfs::datasection::{read_data_section, write_data_section};
use bpfs::entries::{
    read_blob_entry, read_directory_entry, read_file_entry, write_blob_entry,
    write_directory_entry, write_file_entry, BLOB_ENTRY_SIZE, DIRECTORY_ENTRY_SIZE,
    FILE_ENTRY_SIZE,
};
use bpfs::enums::{CompressionType, SectionKind, SignatureType};
use bpfs::errors::{ArchiveError, IoErrorKind};
use bpfs::generation::{read_generation, write_generation, GenerationInput, PendingDataSection};
use bpfs::le::ByteReader;
use bpfs::packed::{BlobEntry, DirectoryEntry, FileEntry, NO_PARENT};
use bpfs::signing::{ed25519_verifying_key, verify_integrity_hash};
use bpfs::strsection::{read_string_section, write_string_section};
use bpfs::writers::CountingWriter;

#[test]
fn stored_roundtrips_bytes_unchanged() {
    let mut buf = Vec::new();
    let raw = b"hello world";
    write_data_section(&mut buf, 0, CompressionType::Stored, raw).unwrap();
    assert_eq!(buf.len(), 8 + 8 + raw.len() + 32);
}

#[test]
fn brotli_compresses_repetitive_data() {
    let mut buf = Vec::new();
    let raw = vec![b'a'; 100_000];
    write_data_section(&mut buf, 0, CompressionType::Brotli, &raw).unwrap();
    assert!(buf.len() < raw.len() / 2);
}

#[test]
fn unsupported_compression_errors() {
    let mut buf = Vec::new();
    let err = write_data_section(&mut buf, 0, CompressionType::Lz4, b"x").unwrap_err();
    assert_eq!(err.kind(), IoErrorKind::InvalidInput);
    assert!(buf.is_empty());
}

#[test]
fn data_section_layout_is_exact() {
    let mut buf = Vec::new();
    let n = write_data_section(&mut buf, 0x0102_0304, CompressionType::Stored, b"ab").unwrap();
    assert_eq!(n, buf.len());
    assert_eq!(&buf[0..4], &[4, 3, 2, 1]);
    assert_eq!(buf[4], 0);
    assert_eq!(&buf[5..8], &[0, 0, 0]);
    assert_eq!(&buf[8..16], &2u64.to_le_bytes());
    assert_eq!(&buf[16..18], b"ab");
    assert_eq!(&buf[18..50], &bpfs::codec::sha256(&buf[0..18]));
}

#[test]
fn roundtrip_none() {
    let mut buf = Vec::new();
    write_data_section(&mut buf, 3, CompressionType::Stored, b"hello world").unwrap();
    let section = read_data_section(&mut ByteReader::new(&buf)).unwrap();
    assert_eq!(section.name_stridx, 3);
    assert_eq!(section.compression, CompressionType::Stored);
    assert_eq!(section.data, b"hello world");
}

#[test]
fn roundtrip_brotli() {
    let raw = vec![b'z'; 50_000];
    let mut buf = Vec::new();
    write_data_section(&mut buf, 1, CompressionType::Brotli, &raw).unwrap();
    let section = read_data_section(&mut ByteReader::new(&buf)).unwrap();
    assert_eq!(section.data, raw);
}

#[test]
fn empty_payload_roundtrips() {
    let mut buf = Vec::new();
    write_data_section(&mut buf, 0, CompressionType::Stored, b"").unwrap();
    let section = read_data_section(&mut ByteReader::new(&buf)).unwrap();
    assert!(section.data.is_empty());
}

#[test]
fn data_detects_corruption() {
    let mut buf = Vec::new();
    write_data_section(&mut buf, 0, CompressionType::Stored, b"payload").unwrap();
    let mid = buf.len() / 2;
    buf[mid] ^= 0xFF;
    assert!(read_data_section(&mut ByteReader::new(&buf)).is_err());
}

#[test]
fn truncated_input_errors() {
    let mut buf = Vec::new();
    write_data_section(&mut buf, 0, CompressionType::Stored, b"payload").unwrap();
    buf.truncate(buf.len() - 5);
    let err = read_data_section(&mut ByteReader::new(&buf)).err().unwrap();
    assert_eq!(err.kind(), IoErrorKind::UnexpectedEof);
}

#[test]
fn blob_entry_roundtrip() {
    let e = BlobEntry { raw_size: 12345, generation_idx: 1, section_idx: 2, section_blob_idx: 3 };
    let mut buf = Vec::new();
    write_blob_entry(&mut buf, &e);
    assert_eq!(buf.len(), BLOB_ENTRY_SIZE);
    let got = read_blob_entry(&mut ByteReader::new(&buf)).unwrap();
    assert_eq!(e, got);
}

#[test]
fn directory_entry_roundtrip() {
    let e = DirectoryEntry { parent_id: 7, name_stridx: 2, created_at: 111, modified_at: 222 };
    let mut buf = Vec::new();
    write_directory_entry(&mut buf, &e);
    assert_eq!(buf.len(), DIRECTORY_ENTRY_SIZE);
    let got = read_directory_entry(&mut ByteReader::new(&buf)).unwrap();
    assert_eq!(e, got);
}

#[test]
fn file_entry_roundtrip() {
    let e = FileEntry { blob_idx: 4, dir_idx: 5, name_stridx: 6, created_at: 333, modified_at: 444 };
    let mut buf = Vec::new();
    write_file_entry(&mut buf, &e);
    assert_eq!(buf.len(), FILE_ENTRY_SIZE);
    let got = read_file_entry(&mut ByteReader::new(&buf)).unwrap();
    assert_eq!(e, got);
}

#[test]
fn short_entry_is_unexpected_eof() {
    let buf = [0u8; 19];
    let err = read_blob_entry(&mut ByteReader::new(&buf)).unwrap_err();
    assert_eq!(err.kind(), IoErrorKind::UnexpectedEof);
}

#[test]
fn writes_without_error() {
    let mut buf = Vec::new();
    write_string_section(&mut buf, &["hello", "world", ""]).unwrap();
    assert!(!buf.is_empty());
}

#[test]
fn empty_string_list() {
    let mut buf = Vec::new();
    write_string_section(&mut buf, &[]).unwrap();
    assert!(buf.len() >= 4 + 4 + 4 + 32);
}

#[test]
fn roundtrip_basic_strings() {
    let mut buf = Vec::new();
    write_string_section(&mut buf, &["hello", "world", ""]).unwrap();
    let strings = read_string_section(&mut ByteReader::new(&buf)).unwrap();
    assert_eq!(strings, vec!["hello".to_string(), "world".to_string(), "".to_string()]);
}

#[test]
fn roundtrip_empty() {
    let mut buf = Vec::new();
    write_string_section(&mut buf, &[]).unwrap();
    let strings = read_string_section(&mut ByteReader::new(&buf)).unwrap();
    assert!(strings.is_empty());
}

#[test]
fn strings_detects_corruption() {
    let mut buf = Vec::new();
    write_string_section(&mut buf, &["hello"]).unwrap();
    let last = buf.len() - 1;
    buf[last] ^= 0xFF;
    let err = read_string_section(&mut ByteReader::new(&buf)).unwrap_err();
    assert_eq!(err.kind(), IoErrorKind::InvalidData);
}

#[test]
fn roundtrip_many_strings() {
    let owned: Vec<String> = (0..500).map(|i| format!("string_{i}")).collect();
    let refs: Vec<&str> = owned.iter().map(String::as_str).collect();
    let mut buf = Vec::new();
    write_string_section(&mut buf, &refs).unwrap();
    let strings = read_string_section(&mut ByteReader::new(&buf)).unwrap();
    assert_eq!(strings, owned);
}

#[test]
fn roundtrip_utf8() {
    let mut buf = Vec::new();
    write_string_section(&mut buf, &["🌍🚀", "café", "普通话"]).unwrap();
    let strings = read_string_section(&mut ByteReader::new(&buf)).unwrap();
    assert_eq!(strings, vec!["🌍🚀".to_string(), "café".to_string(), "普通话".to_string()]);
}

fn sample_input() -> (Vec<BlobEntry>, Vec<[u8; 32]>, Vec<DirectoryEntry>, Vec<FileEntry>) {
    let blobs = vec![BlobEntry { raw_size: 5, generation_idx: 0, section_idx: 0, section_blob_idx: 0 }];
    let blob_hashes = vec![[1u8; 32]];
    let dirs = vec![DirectoryEntry { parent_id: NO_PARENT, name_stridx: 0, created_at: 0, modified_at: 0 }];
    let files = vec![FileEntry { blob_idx: 0, dir_idx: 0, name_stridx: 1, created_at: 0, modified_at: 0 }];
    (blobs, blob_hashes, dirs, files)
}

fn sample_sections() -> Vec<PendingDataSection> {
    vec![
        PendingDataSection { name_stridx: 0, compression: CompressionType::Stored, raw: b"hello".to_vec() },
        PendingDataSection { name_stridx: 0, compression: CompressionType::Brotli, raw: vec![] },
    ]
}

#[test]
fn roundtrip_unsigned_generation() {
    let (blobs, blob_hashes, dirs, files) = sample_input();
    let strings = ["", "a.txt"];
    let data_sections = sample_sections();
    let input = GenerationInput {
        created_at: 42,
        strings: &strings,
        blobs: &blobs,
        blob_hashes: &blob_hashes,
        dirs: &dirs,
        files: &files,
        data_sections: &data_sections,
        previous_integrity_hash: [0u8; 32],
        signing_key: None,
    };
    let mut buf = Vec::new();
    let out = write_generation(&mut buf, &input).unwrap();
    assert_eq!(out.bytes_written, buf.len());
    assert_eq!(&buf[buf.len() - 4..], &GENERATION_SUFFIX.to_le_bytes());

    let gen = read_generation(&mut ByteReader::new(&buf)).unwrap();
    assert_eq!(gen.created_at, 42);
    assert_eq!(gen.blobs, blobs);
    assert_eq!(gen.dirs, dirs);
    assert_eq!(gen.files, files);
    assert_eq!(gen.blob_hashes, blob_hashes);
    assert_eq!(gen.integrity_hash, out.integrity_hash);
    assert_eq!(gen.signature_type, 0);
    assert!(gen.signature.is_empty());
    assert_eq!(gen.data_sections[0].data, b"hello");
    assert_eq!(gen.strings.get(1).unwrap(), "a.txt");
}

#[test]
fn roundtrip_signed_generation() {
    let (blobs, blob_hashes, dirs, files) = sample_input();
    let strings = ["", "a.txt"];
    let data_sections = sample_sections();
    let key = [5u8; 32];
    let input = GenerationInput {
        created_at: 1,
        strings: &strings,
        blobs: &blobs,
        blob_hashes: &blob_hashes,
        dirs: &dirs,
        files: &files,
        data_sections: &data_sections,
        previous_integrity_hash: [0u8; 32],
        signing_key: Some(&key),
    };
    let mut buf = Vec::new();
    write_generation(&mut buf, &input).unwrap();

    let gen = read_generation(&mut ByteReader::new(&buf)).unwrap();
    assert_eq!(gen.signature_type, 1);
    assert_eq!(gen.signature.len(), 64);
    assert!(verify_integrity_hash(&ed25519_verifying_key(&key), &gen.integrity_hash, &gen.signature));
}

#[test]
fn corrupted_generation_fails_integrity_check() {
    let (blobs, blob_hashes, dirs, files) = sample_input();
    let strings = ["", "a.txt"];
    let data_sections = sample_sections();
    let input = GenerationInput {
        created_at: 42,
        strings: &strings,
        blobs: &blobs,
        blob_hashes: &blob_hashes,
        dirs: &dirs,
        files: &files,
        data_sections: &data_sections,
        previous_integrity_hash: [0u8; 32],
        signing_key: None,
    };
    let mut buf = Vec::new();
    write_generation(&mut buf, &input).unwrap();
    buf[40] ^= 0xFF;
    assert!(read_generation(&mut ByteReader::new(&buf)).is_err());
}

#[test]
fn truncated_generation_errors() {
    let (blobs, blob_hashes, dirs, files) = sample_input();
    let strings = ["", "a.txt"];
    let data_sections = sample_sections();
    let input = GenerationInput {
        created_at: 42,
        strings: &strings,
        blobs: &blobs,
        blob_hashes: &blob_hashes,
        dirs: &dirs,
        files: &files,
        data_sections: &data_sections,
        previous_integrity_hash: [0u8; 32],
        signing_key: None,
    };
    let mut buf = Vec::new();
    write_generation(&mut buf, &input).unwrap();
    buf.truncate(buf.len() - 10);
    assert!(read_generation(&mut ByteReader::new(&buf)).is_err());
}

#[test]
fn generation_with_unencodable_section_writes_nothing() {
    let (blobs, blob_hashes, dirs, files) = sample_input();
    let strings = ["", "a.txt"];
    let data_sections = vec![PendingDataSection {
        name_stridx: 0,
        compression: CompressionType::Zstd,
        raw: b"x".to_vec(),
    }];
    let input = GenerationInput {
        created_at: 42,
        strings: &strings,
        blobs: &blobs,
        blob_hashes: &blob_hashes,
        dirs: &dirs,
        files: &files,
        data_sections: &data_sections,
        previous_integrity_hash: ZERO_HASH,
        signing_key: None,
    };
    let mut buf = vec![9u8];
    let err = write_generation(&mut buf, &input).err().unwrap();
    assert_eq!(err.kind(), IoErrorKind::InvalidInput);
    assert_eq!(buf, vec![9u8]);
}

#[test]
fn generation_with_dangling_file_is_rejected_on_read() {
    let (blobs, blob_hashes, dirs, _) = sample_input();
    let files = vec![FileEntry { blob_idx: 3, dir_idx: 0, name_stridx: 1, created_at: 0, modified_at: 0 }];
    let strings = ["", "a.txt"];
    let data_sections = sample_sections();
    let input = GenerationInput {
        created_at: 42,
        strings: &strings,
        blobs: &blobs,
        blob_hashes: &blob_hashes,
        dirs: &dirs,
        files: &files,
        data_sections: &data_sections,
        previous_integrity_hash: ZERO_HASH,
        signing_key: None,
    };
    let mut buf = Vec::new();
    write_generation(&mut buf, &input).unwrap();
    assert!(matches!(read_generation(&mut ByteReader::new(&buf)), Err(ArchiveError::Format(_))));
}

#[test]
fn codes_of_the_enums() {
    assert_eq!(CompressionType::try_from(3), Ok(CompressionType::Brotli));
    assert_eq!(CompressionType::try_from(4), Err(4));
    assert_eq!(CompressionType::Lzma.to_u8(), 5);
    assert_eq!(SectionKind::try_from(1), Ok(SectionKind::Compressed));
    assert_eq!(SectionKind::try_from(2), Err(2));
    assert_eq!(SectionKind::Compressed.name(), "compressed");
    assert_eq!(SignatureType::try_from(1), Ok(SignatureType::Ed25519));
    assert_eq!(SignatureType::try_from(2), Err(2));
}

#[test]
fn counting_writer_counts_and_appends() {
    let mut buf = b"ab".to_vec();
    let mut w = CountingWriter::new(&mut buf);
    assert_eq!(w.write(b"cde").unwrap(), 3);
    assert_eq!(w.write(b"").unwrap(), 0);
    assert!(w.flush().is_ok());
    assert_eq!(w.bytes_written(), 3);
    let (inner, n) = w.into_inner();
    inner.push(b'f');
    assert_eq!(n, 3);
    assert_eq!(buf, b"abcdef".to_vec());
}
