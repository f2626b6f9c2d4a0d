use bpfs::analysis::FileAnalysis;
use bpfs::codec::sha256;
use bpfs::errors::ArchiveError;
use bpfs::fingerprint::{fingerprint_windows, sample_windows, MIN_SIZE_BYTES};
use bpfs::packed::{DirectoryEntry, FileEntry, NO_PARENT};
use bpfs::progress::cancelled;
use bpfs::strings::StringTable;
use bpfs::text::decimal;
use bpfs::validate::{validate_directory_tree, validate_file_refs};
use bpfs::writers::CountingWriter;

fn dir(parent_id: u32) -> DirectoryEntry {
    DirectoryEntry { parent_id, name_stridx: 0, created_at: 0, modified_at: 0 }
}

fn file(dir_idx: u32, blob_idx: u32) -> FileEntry {
    FileEntry { blob_idx, dir_idx, name_stridx: 0, created_at: 0, modified_at: 0 }
}

fn format_text(e: ArchiveError) -> String {
    match e {
        ArchiveError::Format(m) => m,
        other => panic!("expected a format error, got {:?}", other),
    }
}

#[test]
fn string_table_index_error_names_the_table() {
    let u = StringTable::new(vec!["a".to_string()]);
    assert!(matches!(u.get(1), Err(ArchiveError::IndexOutOfBounds("StringTable index"))));
}

#[test]
fn directory_errors_carry_their_text() {
    let past_end = vec![dir(NO_PARENT), dir(5)];
    assert!(matches!(
        validate_directory_tree(&past_end),
        Err(ArchiveError::IndexOutOfBounds("DirectoryEntry.parent_id"))
    ));
    let forward = vec![dir(NO_PARENT), dir(2), dir(0)];
    assert_eq!(
        format_text(validate_directory_tree(&forward).unwrap_err()),
        "directory 1 references parent 2 which is not declared before it"
    );
    let first_decides = vec![dir(NO_PARENT), dir(1), dir(9)];
    assert_eq!(
        format_text(validate_directory_tree(&first_decides).unwrap_err()),
        "directory 1 references parent 1 which is not declared before it"
    );
}

#[test]
fn file_ref_errors_name_the_first_file_directory_first() {
    let files = vec![file(0, 0), file(7, 9), file(8, 0)];
    assert_eq!(
        format_text(validate_file_refs(&files, 1, 1).unwrap_err()),
        "file 1 references out-of-bounds directory 7"
    );
    let files = vec![file(0, 0), file(0, 12)];
    assert_eq!(
        format_text(validate_file_refs(&files, 1, 1).unwrap_err()),
        "file 1 references out-of-bounds blob 12"
    );
}

#[test]
fn cancellation_error_has_its_message() {
    let e = cancelled();
    assert_eq!(e.message, "operation cancelled");
}

#[test]
fn decimal_writes_unsigned_integers() {
    assert_eq!(decimal(0), "0");
    assert_eq!(decimal(7), "7");
    assert_eq!(decimal(10), "10");
    assert_eq!(decimal(1_234_567_890_123), "1234567890123");
    assert_eq!(decimal(u64::MAX), u64::MAX.to_string());
    assert_eq!(ArchiveError::UnsupportedCompression(12).to_string(), "Unsupported compression type: 12");
    assert_eq!(ArchiveError::UnsupportedSignature(305).to_string(), "Unsupported signature type: 305");
}

#[test]
fn analysis_digest_matches_the_one_shot_digest() {
    let mut a = FileAnalysis::new();
    a.feed(b"hello ");
    a.feed(b"");
    a.feed(b"world");
    assert_eq!(a.finish().hash, sha256(b"hello world"));
    let empty = FileAnalysis::new().finish();
    assert_eq!((empty.hash, empty.size), (sha256(b""), 0));
    assert_ne!(sha256(b"hello world"), [0u8; 32]);
}

#[test]
fn file_analysis_hashes_counts_and_measures_the_same_bytes() {
    let mut a = FileAnalysis::new();
    a.feed(b"abca");
    a.feed(b"bb");
    let d = a.finish();
    assert_eq!(d.hash, sha256(b"abcabb"));
    assert_eq!(d.size, 6);
    assert_eq!(d.histogram.total(), 6);
    let counts = d.histogram.counts();
    assert_eq!((counts[b'a' as usize], counts[b'b' as usize], counts[b'c' as usize]), (2, 3, 1));
}

fn read_windows(data: &[u8], size: u64) -> Vec<Vec<u8>> {
    match sample_windows(size) {
        None => Vec::new(),
        Some(ws) => ws.iter().map(|&(s, l)| data[s as usize..(s + l) as usize].to_vec()).collect(),
    }
}

#[test]
fn test_hash_some_bytes() {
    let size = 8 * 1024 * 1024u64;
    let data = vec![42u8; size as usize];
    let fp = fingerprint_windows(size, &read_windows(&data, size));
    assert!(fp.is_some());
    let data2 = vec![42u8; size as usize];
    let fp2 = fingerprint_windows(size, &read_windows(&data2, size));
    assert_eq!(fp, fp2);
}

#[test]
fn fingerprint_is_the_digest_of_the_windows_in_order() {
    let size = MIN_SIZE_BYTES;
    let data: Vec<u8> = (0..size).map(|i| (i % 251) as u8).collect();
    let windows = read_windows(&data, size);
    assert!(!windows.is_empty());
    let joined: Vec<u8> = windows.concat();
    assert_eq!(fingerprint_windows(size, &windows), Some(sha256(&joined)));
    assert_eq!(fingerprint_windows(MIN_SIZE_BYTES - 1, &windows), None);
    let other: Vec<u8> = data.iter().map(|b| b ^ 1).collect();
    assert_ne!(fingerprint_windows(size, &read_windows(&other, size)), Some(sha256(&joined)));
}

#[test]
fn counting_writer_lends_its_buffer() {
    let mut v = Vec::new();
    let mut w = CountingWriter::new(&mut v);
    w.write(b"ab").unwrap();
    w.inner().push(b'!');
    assert_eq!(w.bytes_written(), 2);
    w.write(b"c").unwrap();
    let (buf, n) = w.into_inner();
    assert_eq!(buf.as_slice(), b"ab!c");
    assert_eq!(n, 3);
}
