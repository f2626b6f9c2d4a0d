use bpfs::archive::{read_archive, read_archive_with_monitor, write_header};
use bpfs::codec::sha256;
use bpfs::constants::ZERO_HASH;
use bpfs::enums::CompressionType;
use bpfs::errors::{ArchiveError, IoErrorKind};
use bpfs::generation::{write_generation, GenerationInput, PendingDataSection};
use bpfs::iter::{
    check_relative, current_files, extract_file_bytes, extraction_total, list_files, resolve_dir_path,
    ResolvedFile,
};
use bpfs::packed::{BlobEntry, DirectoryEntry, FileEntry, NO_PARENT};
use bpfs::progress::{Monitor, NoMonitor};
use bpfs::signing::ed25519_verifying_key;
use bpfs::verify::{verify_blob_hashes, verify_deep, verify_signatures};
use bpfs::reports::{to_hex, verify_report, PackSummaryDto};
use bpfs::pack::PackSummary;

struct Gen {
    strings: Vec<&'static str>,
    blobs: Vec<BlobEntry>,
    hashes: Vec<[u8; 32]>,
    dirs: Vec<DirectoryEntry>,
    files: Vec<FileEntry>,
    stored: Vec<u8>,
    compressed: Vec<u8>,
}

fn root_only() -> Gen {
    Gen {
        strings: vec!["", "stored", "compressed"],
        blobs: vec![],
        hashes: vec![],
        dirs: vec![DirectoryEntry { parent_id: NO_PARENT, name_stridx: 0, created_at: 0, modified_at: 0 }],
        files: vec![],
        stored: vec![],
        compressed: vec![],
    }
}

/// One file `docs/readme.md` holding `body` (stored), and `notes.txt`
/// holding `other` (compressed), both in generation `gen_idx`.
fn two_files(gen_idx: u32, body: &[u8], other: &[u8]) -> Gen {
    Gen {
        strings: vec!["", "docs", "readme.md", "notes.txt", "stored", "compressed"],
        blobs: vec![
            BlobEntry { raw_size: body.len() as u64, generation_idx: gen_idx, section_idx: 0, section_blob_idx: 0 },
            BlobEntry { raw_size: other.len() as u64, generation_idx: gen_idx, section_idx: 1, section_blob_idx: 0 },
        ],
        hashes: vec![sha256(body), sha256(other)],
        dirs: vec![
            DirectoryEntry { parent_id: NO_PARENT, name_stridx: 0, created_at: 0, modified_at: 0 },
            DirectoryEntry { parent_id: 0, name_stridx: 1, created_at: 0, modified_at: 0 },
        ],
        files: vec![
            FileEntry { blob_idx: 0, dir_idx: 1, name_stridx: 2, created_at: 5, modified_at: 6 },
            FileEntry { blob_idx: 1, dir_idx: 0, name_stridx: 3, created_at: 7, modified_at: 8 },
        ],
        stored: body.to_vec(),
        compressed: other.to_vec(),
    }
}

fn archive_of(gens: &[Gen], key: Option<&[u8; 32]>) -> Vec<u8> {
    let mut out = Vec::new();
    write_header(&mut out, 0);
    let mut prev = ZERO_HASH;
    for g in gens {
        let sections = vec![
            PendingDataSection { name_stridx: 0, compression: CompressionType::Stored, raw: g.stored.clone() },
            PendingDataSection { name_stridx: 0, compression: CompressionType::Brotli, raw: g.compressed.clone() },
        ];
        let input = GenerationInput {
            created_at: 9,
            strings: &g.strings,
            blobs: &g.blobs,
            blob_hashes: &g.hashes,
            dirs: &g.dirs,
            files: &g.files,
            data_sections: &sections,
            previous_integrity_hash: prev,
            signing_key: key,
        };
        prev = write_generation(&mut out, &input).unwrap().integrity_hash;
    }
    out
}

#[test]
fn rejects_bad_magic() {
    let buf = vec![0u8; 32];
    assert!(read_archive(&buf).is_err());
}

#[test]
fn rejects_other_versions() {
    let mut buf = archive_of(&[root_only()], None);
    assert!(read_archive(&buf).is_ok());
    buf[4] = 1;
    let err = read_archive(&buf).err().unwrap();
    assert!(err.to_string().contains("version 1"), "{}", err.to_string());
}

#[test]
fn archive_without_generations_is_rejected() {
    let mut buf = Vec::new();
    write_header(&mut buf, 0);
    assert!(matches!(read_archive(&buf), Err(ArchiveError::Format(_))));
}

#[test]
fn truncated_archive_is_an_io_error() {
    let buf = archive_of(&[root_only()], None);
    let err = read_archive(&buf[..buf.len() - 3]).err().unwrap();
    assert!(matches!(err, ArchiveError::Io(e) if e.kind == IoErrorKind::UnexpectedEof));
}

#[test]
fn rejects_paths_that_escape_destination() {
    assert!(check_relative("../evil").is_err());
    assert!(check_relative("/etc/passwd").is_err());
    assert!(check_relative("a/./b").is_ok());
    assert!(check_relative("a/b").is_ok());
}

#[test]
fn dot_dot_inside_a_path_is_refused() {
    assert!(check_relative("a/../../b").is_err());
    assert!(check_relative("a/..").is_err());
    assert!(check_relative("a/..b").is_ok());
    assert!(check_relative("").is_err());
}

#[test]
fn empty_tree_resolves_to_no_files() {
    let buf = archive_of(&[root_only()], None);
    let archive = read_archive(&buf).unwrap();
    assert!(current_files(archive.latest()).unwrap().is_empty());
}

#[test]
fn resolves_nested_paths() {
    let buf = archive_of(&[two_files(0, b"read me", b"some notes, some notes")], None);
    let archive = read_archive(&buf).unwrap();
    let gen = archive.latest();
    let files = current_files(gen).unwrap();
    let paths: Vec<&str> = files.iter().map(|f| f.path.as_str()).collect();
    assert_eq!(paths, vec!["docs/readme.md", "notes.txt"]);
    assert_eq!(resolve_dir_path(gen, 1).unwrap(), "docs");
    assert!(matches!(resolve_dir_path(gen, 9), Err(ArchiveError::IndexOutOfBounds(_))));
    assert_eq!(extraction_total(gen, &files).unwrap(), 7 + 22);
}

#[test]
fn extraction_total_refuses_unsafe_paths() {
    let buf = archive_of(&[two_files(0, b"a", b"b")], None);
    let archive = read_archive(&buf).unwrap();
    let gen = archive.latest();
    let bad = vec![ResolvedFile { path: "../x".to_string(), file_idx: 0 }];
    assert!(matches!(extraction_total(gen, &bad), Err(ArchiveError::Format(_))));
    let missing = vec![ResolvedFile { path: "x".to_string(), file_idx: 5 }];
    assert!(matches!(extraction_total(gen, &missing), Err(ArchiveError::IndexOutOfBounds(_))));
}

#[test]
fn extracts_correct_bytes_for_each_file() {
    let buf = archive_of(&[two_files(0, b"read me", b"some notes, some notes")], None);
    let archive = read_archive(&buf).unwrap();
    let gen = archive.latest();
    assert_eq!(archive.read_blob(&gen.blobs[0]).unwrap(), b"read me");
    assert_eq!(archive.read_blob(&gen.blobs[1]).unwrap(), b"some notes, some notes");
    let mut reader = archive.blob_reader(&gen.blobs[1]).unwrap();
    let mut got = Vec::new();
    while reader.remaining() > 0 {
        got.extend_from_slice(reader.next_chunk(5).unwrap());
    }
    assert_eq!(got, b"some notes, some notes");
}

#[test]
fn multi_generation_chain_verifies() {
    let g0 = two_files(0, b"generation zero", b"zero");
    let mut g1 = two_files(1, b"generation one", b"one");
    g1.blobs[1] = g0.blobs[1];
    g1.hashes[1] = g0.hashes[1];
    g1.compressed = vec![];
    let buf = archive_of(&[g0, g1], None);
    let archive = read_archive(&buf).unwrap();
    assert_eq!(archive.generations.len(), 2);
    assert_eq!(archive.generations[1].previous_integrity_hash, archive.generations[0].integrity_hash);
    let latest = archive.latest();
    assert_eq!(archive.read_blob(&latest.blobs[0]).unwrap(), b"generation one");
    assert_eq!(archive.read_blob(&latest.blobs[1]).unwrap(), b"zero");
    assert!(verify_blob_hashes(&archive).is_ok());
}

#[test]
fn broken_hash_chain_is_rejected() {
    let g0 = archive_of(&[root_only()], None);
    let g1 = archive_of(&[root_only()], None);
    let mut buf = g0.clone();
    buf.extend_from_slice(&g1[16..]);
    assert!(matches!(read_archive(&buf), Err(ArchiveError::HashMismatch(_))));
}

#[test]
fn verify_blob_hashes_passes_for_valid_archive() {
    let buf = archive_of(&[two_files(0, b"abc", b"def")], None);
    let archive = read_archive(&buf).unwrap();
    assert!(verify_blob_hashes(&archive).is_ok());
    assert!(verify_deep(&archive, None).is_ok());
}

#[test]
fn verify_blob_hashes_fails_for_tampered_data_section() {
    let mut g = two_files(0, b"abc", b"def");
    g.hashes[0] = sha256(b"abd");
    let buf = archive_of(&[g], None);
    let archive = read_archive(&buf).unwrap();
    assert!(matches!(verify_blob_hashes(&archive), Err(ArchiveError::HashMismatch(_))));
}

#[test]
fn signed_archive_verifies_with_correct_key() {
    let key = [42u8; 32];
    let buf = archive_of(&[two_files(0, b"abc", b"def")], Some(&key));
    let archive = read_archive(&buf).unwrap();
    assert!(verify_signatures(&archive, &ed25519_verifying_key(&key)).is_ok());
    assert!(verify_deep(&archive, Some(&ed25519_verifying_key(&key))).is_ok());
}

#[test]
fn signed_archive_fails_with_wrong_key() {
    let key = [42u8; 32];
    let buf = archive_of(&[two_files(0, b"abc", b"def")], Some(&key));
    let archive = read_archive(&buf).unwrap();
    let other = ed25519_verifying_key(&[43u8; 32]);
    assert!(matches!(verify_signatures(&archive, &other), Err(ArchiveError::InvalidSignature)));
}

#[test]
fn unsigned_archive_skips_signature_check() {
    let buf = archive_of(&[two_files(0, b"abc", b"def")], None);
    let archive = read_archive(&buf).unwrap();
    assert!(verify_signatures(&archive, &ed25519_verifying_key(&[1u8; 32])).is_ok());
}

struct CancelAtOnce;

impl Monitor for CancelAtOnce {
    fn is_cancelled(&self) -> bool {
        true
    }
}

#[test]
fn cancelled_open_is_interrupted() {
    let buf = archive_of(&[root_only()], None);
    let err = read_archive_with_monitor(&buf, &CancelAtOnce).err().unwrap();
    assert!(matches!(err, ArchiveError::Io(e) if e.kind == IoErrorKind::Interrupted));
    assert!(read_archive_with_monitor(&buf, &NoMonitor).is_ok());
}

#[test]
fn listing_is_sorted_by_path_with_sizes() {
    let buf = archive_of(&[two_files(0, b"read me", b"some notes, some notes")], None);
    let archive = read_archive(&buf).unwrap();
    let listing = list_files(archive.latest()).unwrap();
    let lines: Vec<(&str, u64)> = listing.iter().map(|e| (e.path.as_str(), e.size)).collect();
    assert_eq!(lines, vec![("docs/readme.md", 7), ("notes.txt", 22)]);
    let mut g = two_files(0, b"x", b"yy");
    g.strings = vec!["", "b", "z.md", "a.txt", "stored", "compressed"];
    let buf = archive_of(&[g], None);
    let archive = read_archive(&buf).unwrap();
    let listing = list_files(archive.latest()).unwrap();
    let lines: Vec<(&str, u64)> = listing.iter().map(|e| (e.path.as_str(), e.size)).collect();
    assert_eq!(lines, vec![("a.txt", 2), ("b/z.md", 1)]);
}

#[test]
fn unknown_signature_type_is_reported() {
    let mut buf = archive_of(&[root_only()], None);
    let at = buf.len() - 12;
    buf[at..at + 4].copy_from_slice(&2u32.to_le_bytes());
    let archive = read_archive(&buf).unwrap();
    assert_eq!(archive.latest().signature_type, 2);
    let err = verify_signatures(&archive, &ed25519_verifying_key(&[1u8; 32])).err().unwrap();
    assert!(matches!(err, ArchiveError::UnsupportedSignature(2)));
    assert_eq!(err.to_string(), "Unsupported signature type: 2");
}

#[test]
fn hex_is_two_lowercase_digits_per_byte() {
    assert_eq!(to_hex(&[0x00, 0x0f, 0xa5, 0xff]), "000fa5ff");
    assert_eq!(to_hex(&[]), "");
    let summary = PackSummary {
        integrity_hash: [0xab; 32],
        file_count: 2,
        dir_count: 1,
        blob_count: 2,
        new_blob_bytes: 9,
        bytes_written: 100,
    };
    let dto = PackSummaryDto::from_summary(3, &summary);
    assert_eq!(dto.generation_idx, 3);
    assert_eq!(dto.integrity_hash, "ab".repeat(32));
    assert_eq!((dto.file_count, dto.dir_count, dto.blob_count, dto.new_blob_bytes), (2, 1, 2, 9));
}

#[test]
fn verify_report_describes_the_outcome() {
    let good = archive_of(&[two_files(0, b"abc", b"def")], None);
    let r = verify_report(&good, true);
    assert!(r.ok);
    assert_eq!((r.generations, r.message.as_str()), (1, "OK"));
    let bad = vec![0u8; 32];
    let r = verify_report(&bad, false);
    assert!(!r.ok);
    assert_eq!(r.generations, 0);
    assert_eq!(r.message, "Archive format error: not a BPFS archive");
    let mut g = two_files(0, b"abc", b"def");
    g.hashes[1] = sha256(b"deg");
    let tampered = archive_of(&[g], None);
    assert!(verify_report(&tampered, false).ok);
    let r = verify_report(&tampered, true);
    assert!(!r.ok);
    assert_eq!(r.generations, 1);
    assert!(r.message.starts_with("Checksum mismatch"));
}

fn format_message(e: ArchiveError) -> String {
    match e {
        ArchiveError::Format(m) => m,
        other => panic!("expected a format error, got {:?}", other),
    }
}

#[test]
fn archive_open_errors_carry_their_text() {
    assert_eq!(format_message(read_archive(&[0u8; 32]).err().unwrap()), "not a BPFS archive");
    let mut other_version = archive_of(&[root_only()], None);
    other_version[4..6].copy_from_slice(&3u16.to_le_bytes());
    assert_eq!(
        format_message(read_archive(&other_version).err().unwrap()),
        "unsupported archive version 3 (this build reads version 2)"
    );
    let header_only = archive_of(&[], None);
    assert_eq!(format_message(read_archive(&header_only).err().unwrap()), "archive contains no generations");
}

#[test]
fn broken_hash_chain_is_named() {
    let mut out = Vec::new();
    write_header(&mut out, 0);
    for g in [root_only(), root_only()] {
        let sections = vec![
            PendingDataSection { name_stridx: 0, compression: CompressionType::Stored, raw: g.stored.clone() },
            PendingDataSection { name_stridx: 0, compression: CompressionType::Brotli, raw: g.compressed.clone() },
        ];
        let input = GenerationInput {
            created_at: 9,
            strings: &g.strings,
            blobs: &g.blobs,
            blob_hashes: &g.hashes,
            dirs: &g.dirs,
            files: &g.files,
            data_sections: &sections,
            previous_integrity_hash: ZERO_HASH,
            signing_key: None,
        };
        write_generation(&mut out, &input).unwrap();
    }
    assert!(matches!(read_archive(&out), Err(ArchiveError::HashMismatch("generation hash chain"))));
}

#[test]
fn cancelled_open_says_so() {
    let buf = archive_of(&[root_only()], None);
    match read_archive_with_monitor(&buf, &CancelAtOnce) {
        Err(ArchiveError::Io(e)) => assert_eq!(e.message, "operation cancelled"),
        other => panic!("expected an interrupted open, got {:?}", other.err()),
    }
}

#[test]
fn lookup_errors_name_what_was_missing() {
    let buf = archive_of(&[two_files(0, b"read me", b"some notes, some notes")], None);
    let archive = read_archive(&buf).unwrap();
    let gen = archive.latest();
    assert!(matches!(
        resolve_dir_path(gen, 9),
        Err(ArchiveError::IndexOutOfBounds("DirectoryEntry.parent_id"))
    ));
    let missing = ResolvedFile { path: "x".to_string(), file_idx: 5 };
    assert!(matches!(
        extract_file_bytes(&archive, gen, &missing),
        Err(ArchiveError::IndexOutOfBounds("ResolvedFile.file_idx"))
    ));
    let far = BlobEntry { raw_size: 7, generation_idx: 4, section_idx: 0, section_blob_idx: 0 };
    assert!(matches!(archive.read_blob(&far), Err(ArchiveError::IndexOutOfBounds("BlobEntry.generation_idx"))));
    let absent = BlobEntry { raw_size: 7, generation_idx: 0, section_idx: 0, section_blob_idx: 3 };
    assert_eq!(format_message(archive.read_blob(&absent).err().unwrap()), "blob not found in its generation");
    let resized = BlobEntry { raw_size: 8, generation_idx: 0, section_idx: 0, section_blob_idx: 0 };
    assert_eq!(format_message(archive.read_blob(&resized).err().unwrap()), "inconsistent blob reference");
    let exact = BlobEntry { raw_size: 7, generation_idx: 0, section_idx: 0, section_blob_idx: 0 };
    assert_eq!(archive.read_blob(&exact).unwrap(), b"read me".to_vec());
}

#[test]
fn blob_past_its_section_fails_when_read() {
    let mut g = two_files(0, b"read me", b"some notes");
    g.stored = b"rea".to_vec();
    g.blobs.push(BlobEntry { raw_size: 0, generation_idx: 0, section_idx: 0, section_blob_idx: 1 });
    g.hashes.push(sha256(b""));
    let buf = archive_of(&[g], None);
    let archive = read_archive(&buf).unwrap();
    let gen = archive.latest();
    let mut reader = archive.blob_reader(&gen.blobs[0]).unwrap();
    assert_eq!(reader.remaining(), 7);
    assert_eq!(reader.next_chunk(2).unwrap(), b"re");
    assert_eq!(reader.next_chunk(10).unwrap(), b"a");
    let err = reader.next_chunk(10).unwrap_err();
    assert_eq!(err.kind, IoErrorKind::InvalidData);
    assert_eq!(err.message, "blob extends past its data section");
    assert!(matches!(archive.read_blob(&gen.blobs[0]), Err(ArchiveError::Io(e)) if e.kind == IoErrorKind::InvalidData));
    assert_eq!(archive.read_blob(&gen.blobs[2]).unwrap(), Vec::<u8>::new());
    assert_eq!(archive.read_blob(&gen.blobs[1]).unwrap(), b"some notes");
}
