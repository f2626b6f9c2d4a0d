use bpfs::errors::ArchiveError;
use bpfs::filetimes::{to_archive_time, FileTimes};
use bpfs::packed::{DirectoryEntry, FileEntry, NO_PARENT};
use bpfs::signing::{ed25519_verifying_key, sign_integrity_hash, verify_integrity_hash};
use bpfs::sort::{extension_category, sort_key};
use bpfs::string_arena::{StringArena, CHUNK_SIZE};
use bpfs::strings::StringTable;
use bpfs::validate::{validate_directory_tree, validate_file_refs};
use ed25519_dalek::Signer;
use filetime::FileTime;

fn archive_time_of(ft: FileTime) -> i64 {
    to_archive_time(ft.unix_seconds(), ft.nanoseconds())
}

#[test]
fn archive_time_epoch() {
    let ft = FileTime::from_unix_time(0, 0);
    assert_eq!(archive_time_of(ft), 0);
}

#[test]
fn archive_time_seconds_only() {
    let ft = FileTime::from_unix_time(1, 0);
    assert_eq!(archive_time_of(ft), 10_000_000);
}

#[test]
fn archive_time_with_nanoseconds() {
    let ft = FileTime::from_unix_time(1, 123_456_789);
    let expected = 10_000_000 + (123_456_789 / 100) as i64;
    assert_eq!(archive_time_of(ft), expected);
}

#[test]
fn archive_time_negative_timestamp() {
    let ft = FileTime::from_unix_time(-1, 0);
    assert_eq!(archive_time_of(ft), -10_000_000);
}

#[test]
fn merge_max_basic() {
    let mut a = FileTimes { created: 10, modified: 20, accessed: 30 };
    let b = FileTimes { created: 15, modified: 5, accessed: 40 };
    a.merge_max(&b);
    assert_eq!(a.created, 15);
    assert_eq!(a.modified, 20);
    assert_eq!(a.accessed, 40);
}

#[test]
fn merge_max_idempotent() {
    let mut a = FileTimes { created: 42, modified: 42, accessed: 42 };
    let b = a;
    a.merge_max(&b);
    assert_eq!(a.created, 42);
    assert_eq!(a.modified, 42);
    assert_eq!(a.accessed, 42);
}

#[test]
fn merge_max_is_commutative() {
    let x = FileTimes { created: -3, modified: 9, accessed: 0 };
    let y = FileTimes { created: 4, modified: 2, accessed: 0 };
    let mut a = x;
    a.merge_max(&y);
    let mut b = y;
    b.merge_max(&x);
    assert_eq!(a, b);
    assert_eq!(a, FileTimes { created: 4, modified: 9, accessed: 0 });
}

#[test]
fn plaintext_sorts_before_binary() {
    assert!(extension_category("txt") < extension_category("bin"));
}

#[test]
fn code_sorts_before_unknown_binary() {
    assert!(extension_category("rs") < extension_category("dat"));
}

#[test]
fn no_extension_sorts_last() {
    assert!(extension_category("") > extension_category("dat"));
}

#[test]
fn case_insensitive() {
    assert_eq!(extension_category("RS"), extension_category("rs"));
}

#[test]
fn extension_categories_have_their_numbers() {
    assert_eq!(extension_category("toml"), 0);
    assert_eq!(extension_category("SVG"), 1);
    assert_eq!(extension_category("lua"), 2);
    assert_eq!(extension_category("jpg"), 5);
    assert_eq!(extension_category(""), 9);
}

#[test]
fn sort_key_orders_by_category_then_ext_then_size() {
    let mut keys = vec![
        sort_key("bin", 100),
        sort_key("txt", 50),
        sort_key("txt", 10),
        sort_key("rs", 5),
    ];
    keys.sort();
    assert_eq!(
        keys,
        vec![sort_key("txt", 10), sort_key("txt", 50), sort_key("rs", 5), sort_key("bin", 100),]
    );
}

#[test]
fn sort_key_lowercases_the_extension() {
    assert_eq!(sort_key("TXT", 7), (0, "txt".to_string(), 7));
}

#[test]
fn empty_string_is_stable() {
    let mut arena = StringArena::new();
    let r1 = arena.intern("");
    let r2 = arena.intern("");
    assert_eq!(r1, r2);
    assert_eq!(arena.get(r1), "");
    assert_eq!(r1.len, 0);
}

#[test]
fn basic_roundtrip() {
    let mut arena = StringArena::new();
    let r = arena.intern("hello");
    assert_eq!(arena.get(r), "hello");
}

#[test]
fn utf8_multibyte() {
    let mut arena = StringArena::new();
    let s = "🌍🚀✨";
    let r = arena.intern(s);
    assert_eq!(arena.get(r), s);
}

#[test]
fn deduplication() {
    let mut arena = StringArena::new();
    let a = arena.intern("dup");
    let b = arena.intern("dup");
    assert_eq!(a, b);
}

#[test]
fn prefix_not_equal() {
    let mut arena = StringArena::new();
    let a = arena.intern("abc");
    let b = arena.intern("abcd");
    assert_ne!(a, b);
}

#[test]
fn chunk_boundary() {
    let mut arena = StringArena::new();
    let big = "x".repeat(CHUNK_SIZE + 100);
    let r = arena.intern(&big);
    assert_eq!(arena.get(r), big);
}

#[test]
fn rehash_stress() {
    let mut arena = StringArena::new();
    let mut refs = Vec::new();
    for i in 0..50_000 {
        refs.push(arena.intern(&format!("key_{i}")));
    }
    for (i, r) in refs.iter().enumerate() {
        assert_eq!(arena.get(*r), format!("key_{i}"));
    }
}

#[test]
fn many_empty_and_nonempty() {
    let mut arena = StringArena::new();
    for _ in 0..1000 {
        let e = arena.intern("");
        let n = arena.intern("x");
        assert_eq!(arena.get(e), "");
        assert_eq!(arena.get(n), "x");
    }
}

#[test]
fn string_arena_default_is_empty_and_usable() {
    let mut arena = StringArena::default();
    let r = arena.intern("after default");
    assert_eq!(arena.get(r), "after default");
}

#[test]
fn get_in_bounds() {
    let t = StringTable::new(vec!["a".into(), "b".into()]);
    assert_eq!(t.get(0).unwrap(), "a");
    assert_eq!(t.get(1).unwrap(), "b");
}

#[test]
fn get_out_of_bounds_errors() {
    let t = StringTable::new(vec!["a".into()]);
    assert!(t.get(1).is_err());
}

#[test]
fn empty_table() {
    let t = StringTable::default();
    assert!(t.is_empty());
    assert!(t.get(0).is_err());
}

#[test]
fn string_table_out_of_bounds_message() {
    let t = StringTable::new(vec!["a".into()]);
    let err = t.get(3).unwrap_err();
    assert!(matches!(err, ArchiveError::IndexOutOfBounds(_)));
    assert_eq!(err.to_string(), "Index out of bounds: StringTable index");
    assert_eq!(t.len(), 1);
}

fn dir(parent_id: u32) -> DirectoryEntry {
    DirectoryEntry { parent_id, name_stridx: 0, created_at: 0, modified_at: 0 }
}

fn file(dir_idx: u32, blob_idx: u32) -> FileEntry {
    FileEntry { blob_idx, dir_idx, name_stridx: 0, created_at: 0, modified_at: 0 }
}

#[test]
fn empty_tree_is_valid() {
    assert!(validate_directory_tree(&[]).is_ok());
}

#[test]
fn single_root_is_valid() {
    assert!(validate_directory_tree(&[dir(NO_PARENT)]).is_ok());
}

#[test]
fn parent_declared_before_child_is_valid() {
    let dirs = vec![dir(NO_PARENT), dir(0)];
    assert!(validate_directory_tree(&dirs).is_ok());
}

#[test]
fn forward_reference_is_rejected() {
    let dirs = vec![dir(1), dir(NO_PARENT)];
    assert!(validate_directory_tree(&dirs).is_err());
}

#[test]
fn out_of_bounds_parent_is_rejected() {
    let dirs = vec![dir(42)];
    assert!(matches!(validate_directory_tree(&dirs), Err(ArchiveError::IndexOutOfBounds(_))));
}

#[test]
fn self_reference_is_rejected() {
    let dirs = vec![dir(0)];
    assert!(validate_directory_tree(&dirs).is_err());
}

#[test]
fn forward_reference_is_a_format_error() {
    let dirs = vec![dir(NO_PARENT), dir(2), dir(0)];
    assert!(matches!(validate_directory_tree(&dirs), Err(ArchiveError::Format(_))));
}

#[test]
fn file_refs_in_bounds_ok() {
    assert!(validate_file_refs(&[file(0, 0)], 1, 1).is_ok());
}

#[test]
fn file_dir_out_of_bounds_rejected() {
    assert!(validate_file_refs(&[file(5, 0)], 1, 1).is_err());
}

#[test]
fn file_blob_out_of_bounds_rejected() {
    assert!(validate_file_refs(&[file(0, 5)], 1, 1).is_err());
}

const KEY: [u8; 32] = [11u8; 32];
const OTHER_KEY: [u8; 32] = [29u8; 32];

#[test]
fn sign_then_verify_succeeds() {
    let hash = [7u8; 32];
    let sig = sign_integrity_hash(&KEY, &hash);
    assert!(verify_integrity_hash(&ed25519_verifying_key(&KEY), &hash, &sig));
}

#[test]
fn tampered_hash_fails_verification() {
    let hash = [7u8; 32];
    let sig = sign_integrity_hash(&KEY, &hash);
    let tampered = [8u8; 32];
    assert!(!verify_integrity_hash(&ed25519_verifying_key(&KEY), &tampered, &sig));
}

#[test]
fn wrong_key_fails_verification() {
    let hash = [7u8; 32];
    let sig = sign_integrity_hash(&KEY, &hash);
    assert!(!verify_integrity_hash(&ed25519_verifying_key(&OTHER_KEY), &hash, &sig));
}

#[test]
fn malformed_signature_bytes_rejected() {
    let hash = [7u8; 32];
    assert!(!verify_integrity_hash(&ed25519_verifying_key(&KEY), &hash, &[0u8; 10]));
}

#[test]
fn signing_matches_the_ed25519_crate() {
    let hash = [3u8; 32];
    let key = ed25519_dalek::SigningKey::from_bytes(&KEY);
    assert_eq!(sign_integrity_hash(&KEY, &hash), key.sign(&hash).to_bytes());
    assert_eq!(ed25519_verifying_key(&KEY), key.verifying_key().to_bytes());
    assert_ne!(ed25519_verifying_key(&KEY), KEY);
}
