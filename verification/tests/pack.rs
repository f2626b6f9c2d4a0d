use std::collections::BTreeMap;

use bpfs::archive::{read_archive, write_header, HEADER_SIZE};
use bpfs::blobs::{group_blobs, BlobGroup};
use bpfs::codec::sha256;
use bpfs::constants::{EMPTY_HASH, ZERO_HASH};
use bpfs::enums::{CompressionType, SectionKind};
use bpfs::errors::{ArchiveError, IoError, IoErrorKind};
use bpfs::filetimes::FileTimes;
use bpfs::fingerprint::{
    compute_budget, make_sample_plan, sample_windows, MAX_BUDGET_BYTES, MAX_WINDOWS, MIN_SIZE_BYTES,
};
use bpfs::interner::StringInterner;
use bpfs::iter::{current_files, extract_file_bytes};
use bpfs::pack::{
    append_blob_content, extension_of, lookup_existing, plan_generation, write_planned_generation,
    ExistingBlob, ExistingBlobLookup, NoExistingBlobs, PackSummary,
};
use bpfs::blob_index::ArchiveBlobIndex;
use bpfs::pack::{build_section, SectionStream};
use bpfs::policy::never_compressed;
use bpfs::verify::{verify_blob_hashes, verify_deep, verify_signatures};
use bpfs::signing::ed25519_verifying_key;
use bpfs::scan::{Advance, FileCollector, Probe};

#[test]
fn test_budget_caps() {
    let size = 1_073_741_824u64;
    assert_eq!(compute_budget(size), MAX_BUDGET_BYTES);
}

#[test]
fn test_plan_fit_guarantee() {
    let size = 512 * 1024 * 1024;
    let plan = make_sample_plan(size);
    assert!(plan.windows > 0);
    assert!(plan.windows <= MAX_WINDOWS);
    let last_start = (plan.windows - 1) * plan.stride_bytes;
    assert!(last_start + plan.window_bytes as u64 <= size);
}

#[test]
fn test_small_returns_none() {
    assert!(sample_windows(MIN_SIZE_BYTES - 1).is_none());
}

#[test]
fn budget_is_a_tenth_rounded() {
    assert_eq!(compute_budget(MIN_SIZE_BYTES), 26214);
    assert_eq!(compute_budget(15), 2);
    assert_eq!(compute_budget(14), 1);
}

#[test]
fn sample_windows_stay_inside_the_file() {
    let size = 8 * 1024 * 1024u64;
    let ws = sample_windows(size).unwrap();
    assert!(!ws.is_empty());
    let total: u64 = ws.iter().map(|w| w.1).sum();
    assert_eq!(total, compute_budget(size));
    for (start, len) in ws {
        assert!(start + len <= size);
    }
}

#[test]
fn interns_dedupe() {
    let mut i = StringInterner::default();
    let a = i.intern("foo");
    let b = i.intern("foo");
    assert_eq!(a, b);
    assert_eq!(i.count(), 1);
}

#[test]
fn indices_are_sequential() {
    let mut i = StringInterner::default();
    assert_eq!(i.intern("a"), 0);
    assert_eq!(i.intern("b"), 1);
    assert_eq!(i.intern("a"), 0);
    assert_eq!(i.count(), 2);
}

#[test]
fn as_strs_matches_indices() {
    let mut i = StringInterner::default();
    let ia = i.intern("alpha");
    let ib = i.intern("beta");
    let strs = i.as_strs();
    assert_eq!(strs[ia as usize], "alpha");
    assert_eq!(strs[ib as usize], "beta");
}

#[test]
fn bytes_len_counts_unique_bytes_only() {
    let mut i = StringInterner::default();
    i.intern("abc");
    i.intern("abc");
    i.intern("de");
    assert_eq!(i.bytes_len(), 5);
}

#[test]
fn get_index_reflects_interned_state() {
    let mut i = StringInterner::default();
    assert_eq!(i.get_index("x"), None);
    let idx = i.intern("x");
    assert_eq!(i.get_index("x"), Some(idx));
}

#[test]
fn extension_is_lowercased_last_suffix() {
    assert_eq!(extension_of("dir.d/Photo.JPG"), "jpg");
    assert_eq!(extension_of("a/b.tar.gz"), "gz");
    assert_eq!(extension_of("a.d/noext"), "");
    assert_eq!(extension_of(".hidden"), "");
    assert!(never_compressed("jpg"));
    assert!(!never_compressed("txt"));
}

#[test]
fn groups_put_the_empty_blob_first_and_dedupe() {
    let h1 = sha256(b"one");
    let h2 = sha256(b"two");
    let hints = [3u64, 0, 3, 3];
    let hashes = [h1, [0u8; 32], h2, h1];
    let sizes = [3u64, 0, 3, 3];
    let groups = group_blobs(&hints, &hashes, &sizes);
    assert_eq!(groups.len(), 3);
    assert_eq!(groups[0].hash, EMPTY_HASH);
    assert_eq!(groups[0].indices, vec![1]);
    assert_eq!(groups[1].hash, h1);
    assert_eq!(groups[1].indices, vec![0, 3]);
    assert_eq!(groups[2].indices, vec![2]);
}

#[test]
fn changed_content_is_refused() {
    let mut section = b"x".to_vec();
    let hash = sha256(b"abc");
    let err = append_blob_content(&mut section, b"abd", 3, &hash).unwrap_err();
    assert_eq!(err.kind(), IoErrorKind::InvalidData);
    assert!(append_blob_content(&mut section, b"abcd", 3, &hash).is_err());
    assert_eq!(section, b"x".to_vec());
    append_blob_content(&mut section, b"abc", 3, &hash).unwrap();
    assert_eq!(section, b"xabc".to_vec());
}

/// A directory tree held in memory: paths to file contents, `None` for a directory.
struct MemTree {
    entries: BTreeMap<String, Option<Vec<u8>>>,
}

impl MemTree {
    fn new(files: &[(&str, &[u8])], dirs: &[&str]) -> MemTree {
        let mut entries = BTreeMap::new();
        entries.insert(String::new(), None);
        for d in dirs {
            entries.insert(d.to_string(), None);
        }
        for (p, c) in files {
            entries.insert(p.to_string(), Some(c.to_vec()));
        }
        MemTree { entries }
    }

    fn times() -> FileTimes {
        FileTimes { created: 1, modified: 2, accessed: 3 }
    }

    fn probe(&self, path: &String) -> Probe<String> {
        match self.entries.get(path) {
            None => Probe::Failed(IoError::new(IoErrorKind::Other, "missing")),
            Some(Some(c)) => Probe::File { size: c.len() as u64, filetimes: Self::times() },
            Some(None) => {
                let mut listing = Vec::new();
                for p in self.entries.keys() {
                    if p.is_empty() {
                        continue;
                    }
                    let (parent, name) = match p.rfind('/') {
                        Some(i) => (&p[..i], &p[i + 1..]),
                        None => ("", p.as_str()),
                    };
                    if parent == path.as_str() {
                        listing.push(Ok((p.clone(), name.to_string())));
                    }
                }
                Probe::Directory { filetimes: Self::times(), listing: Ok(listing) }
            }
        }
    }

    fn scan(&self) -> FileCollector<String> {
        let mut c = FileCollector::new();
        self.scan_into(&mut c).unwrap();
        c
    }

    /// Runs one scan of the root into `c`; the number of directories finished.
    fn scan_into(&self, c: &mut FileCollector<String>) -> Result<usize, IoError> {
        let mut it = c.add_path(String::new(), String::new(), String::new(), false);
        let mut steps = 0;
        loop {
            match it.advance(c) {
                Advance::Finished => return Ok(steps),
                Advance::Yield(_) => steps += 1,
                Advance::Examine(task) => {
                    let probe = self.probe(&task.fs_path);
                    if let Some(e) = it.examined(c, task, probe) {
                        return Err(e);
                    }
                }
            }
        }
    }
}

struct AlwaysExisting;

impl ExistingBlobLookup for AlwaysExisting {
    fn find(&self, _hash: &[u8; 32]) -> Option<ExistingBlob> {
        Some(ExistingBlob { generation_idx: 0, section_idx: 0, section_blob_idx: 0 })
    }
}

fn pack_tree<L: ExistingBlobLookup>(
    tree: &MemTree,
    compression: CompressionType,
    header: bool,
    lookup: &L,
    generation_idx: u32,
) -> Result<(Vec<u8>, PackSummary), ArchiveError> {
    let c = tree.scan();
    let contents: Vec<Vec<u8>> =
        c.files.iter().map(|f| tree.entries[&f.fs_path].clone().unwrap()).collect();
    let hints: Vec<u64> = c.files.iter().map(|f| f.size_hint).collect();
    let hashes: Vec<[u8; 32]> = contents.iter().map(|b| sha256(b)).collect();
    let sizes: Vec<u64> = contents.iter().map(|b| b.len() as u64).collect();
    let groups: Vec<BlobGroup> = group_blobs(&hints, &hashes, &sizes);
    let existing = lookup_existing(&groups, lookup);
    let compress: Vec<bool> = groups
        .iter()
        .map(|g| {
            let first = &c.files[g.indices[0]];
            !never_compressed(&extension_of(&first.archive_path))
        })
        .collect();
    let plan = plan_generation(&c, &groups, &existing, &compress, compression, generation_idx)?;
    let mut stored = Vec::new();
    for &g in &plan.blobs.stored_order {
        let group = &groups[g];
        append_blob_content(&mut stored, &contents[group.indices[0]], group.size, &group.hash)
            .map_err(ArchiveError::Io)?;
    }
    let mut compressed = Vec::new();
    for &g in &plan.blobs.compressed_order {
        let group = &groups[g];
        append_blob_content(&mut compressed, &contents[group.indices[0]], group.size, &group.hash)
            .map_err(ArchiveError::Io)?;
    }
    let mut out = Vec::new();
    if header {
        write_header(&mut out, 0);
    }
    let summary = write_planned_generation(
        &mut out,
        &plan,
        stored,
        compressed,
        compression,
        77,
        ZERO_HASH,
        None,
    )?;
    Ok((out, summary))
}

fn small_tree() -> MemTree {
    MemTree::new(&[("a.txt", b"hello world"), ("sub/b.bin", b"\x00\x01\x02\x03")], &["sub"])
}

#[test]
fn packs_a_small_tree_and_writes_header() {
    let (out, summary) =
        pack_tree(&small_tree(), CompressionType::Brotli, true, &NoExistingBlobs, 0).unwrap();
    assert_eq!(summary.file_count, 2);
    assert_eq!(summary.dir_count, 2);
    assert_eq!(summary.blob_count, 2);
    assert_eq!(summary.new_blob_bytes, 15);
    assert_eq!(&out[0..4], b"BPFS");
    assert_eq!(out.len(), HEADER_SIZE + summary.bytes_written);
}

#[test]
fn duplicate_content_dedupes_into_one_blob() {
    let tree = MemTree::new(&[("a.txt", b"same bytes"), ("b.txt", b"same bytes")], &[]);
    let (_, summary) = pack_tree(&tree, CompressionType::Brotli, true, &NoExistingBlobs, 0).unwrap();
    assert_eq!(summary.file_count, 2);
    assert_eq!(summary.blob_count, 1);
}

#[test]
fn empty_directory_tree_packs_without_error() {
    let tree = MemTree::new(&[], &[]);
    let (_, summary) = pack_tree(&tree, CompressionType::Stored, true, &NoExistingBlobs, 0).unwrap();
    assert_eq!(summary.file_count, 0);
    assert_eq!(summary.dir_count, 1);
    assert_eq!(summary.blob_count, 0);
}

#[test]
fn no_header_when_appending() {
    let tree = MemTree::new(&[("a.txt", b"x")], &[]);
    let (out, summary) = pack_tree(&tree, CompressionType::Brotli, false, &NoExistingBlobs, 1).unwrap();
    assert_ne!(&out[0..4], b"BPFS");
    assert_eq!(out.len(), summary.bytes_written);
}

#[test]
fn existing_blob_lookup_avoids_rewriting_bytes() {
    let tree = MemTree::new(&[("a.txt", b"some content")], &[]);
    let (_, summary) = pack_tree(&tree, CompressionType::Brotli, false, &AlwaysExisting, 1).unwrap();
    assert_eq!(summary.new_blob_bytes, 0);
}

#[test]
fn unsupported_codec_is_refused_before_planning() {
    let err = pack_tree(&small_tree(), CompressionType::Lz4, true, &NoExistingBlobs, 0).err().unwrap();
    assert!(matches!(err, ArchiveError::UnsupportedCompression(1)));
    assert_eq!(err.to_string(), "Unsupported compression type: 1");
}

#[test]
fn zstd_is_planned_but_cannot_be_encoded() {
    let err = pack_tree(&small_tree(), CompressionType::Zstd, true, &NoExistingBlobs, 0).err().unwrap();
    assert!(matches!(err, ArchiveError::Io(e) if e.kind == IoErrorKind::InvalidInput));
}

#[test]
fn blobs_resolve_to_their_bytes_across_codecs() {
    let bodies: Vec<(String, Vec<u8>)> = (0..12)
        .map(|i| {
            let len = 100 + i * 377;
            let body = (0..len).map(|j| ((j * (i + 1)) % 251) as u8).collect();
            (format!("f{i}.txt"), body)
        })
        .collect();
    let mut files: Vec<(&str, &[u8])> = bodies.iter().map(|(n, b)| (n.as_str(), b.as_slice())).collect();
    let photo = vec![9u8; 5000];
    files.push(("photo.jpg", &photo));
    let tree = MemTree::new(&files, &[]);
    for compression in [CompressionType::Stored, CompressionType::Brotli] {
        let (out, _) = pack_tree(&tree, compression, true, &NoExistingBlobs, 0).unwrap();
        let archive = read_archive(&out).unwrap();
        let gen = archive.latest();
        let resolved = current_files(gen).unwrap();
        assert_eq!(resolved.len(), 13);
        for r in &resolved {
            let expected = tree.entries[&r.path].clone().unwrap();
            assert_eq!(extract_file_bytes(&archive, gen, r).unwrap(), expected, "{}", r.path);
        }
        let compressed = &gen.data_sections[SectionKind::Compressed.index() as usize];
        if compression == CompressionType::Brotli {
            assert_eq!(compressed.compression, CompressionType::Brotli);
            assert_eq!(compressed.data.len(), bodies.iter().map(|b| b.1.len()).sum::<usize>());
        } else {
            assert!(compressed.data.is_empty());
        }
    }
}

#[test]
fn packed_tree_reads_back_with_names_and_directories() {
    let (out, summary) =
        pack_tree(&small_tree(), CompressionType::Brotli, true, &NoExistingBlobs, 0).unwrap();
    let archive = read_archive(&out).unwrap();
    assert_eq!(archive.generations.len(), 1);
    let gen = archive.latest();
    assert_eq!(gen.integrity_hash, summary.integrity_hash);
    assert_eq!(gen.created_at, 77);
    let mut paths: Vec<String> = current_files(gen).unwrap().into_iter().map(|r| r.path).collect();
    paths.sort();
    assert_eq!(paths, vec!["a.txt".to_string(), "sub/b.bin".to_string()]);
}

#[test]
fn build_section_concatenates_checked_contents() {
    let groups = vec![
        BlobGroup { hash: sha256(b"aa"), size: 2, indices: vec![0] },
        BlobGroup { hash: sha256(b"bbb"), size: 3, indices: vec![1] },
    ];
    let contents = vec![b"bbb".to_vec(), b"aa".to_vec()];
    assert_eq!(build_section(&[1, 0], &groups, &contents).unwrap(), b"bbbaa".to_vec());
    let stale = vec![b"bbb".to_vec(), b"ab".to_vec()];
    let err = build_section(&[1, 0], &groups, &stale).unwrap_err();
    assert_eq!(err, 1);
    let both_stale = vec![b"bbc".to_vec(), b"ab".to_vec()];
    assert_eq!(build_section(&[1, 0], &groups, &both_stale).unwrap_err(), 0);
    assert!(build_section(&[], &groups, &[]).unwrap().is_empty());
}

#[test]
fn freshly_packed_archive_passes_the_blob_hash_check() {
    let (out, _) = pack_tree(&small_tree(), CompressionType::Brotli, true, &NoExistingBlobs, 0).unwrap();
    let archive = read_archive(&out).unwrap();
    assert!(verify_blob_hashes(&archive).is_ok());
    assert!(verify_deep(&archive, None).is_ok());
}

#[test]
fn appended_generation_reuses_blobs_found_in_the_archive() {
    let tree = small_tree();
    let (mut out, first) =
        pack_tree(&tree, CompressionType::Brotli, true, &NoExistingBlobs, 0).unwrap();
    let archive = read_archive(&out).unwrap();
    let index = ArchiveBlobIndex::from_archive(&archive);
    let hash = sha256(b"hello world");
    let found = index.lookup(&hash).unwrap();
    assert_eq!(found.generation_idx, 0);
    assert!(index.lookup(&[0u8; 32]).is_none());

    let bigger = MemTree::new(
        &[("a.txt", b"hello world"), ("sub/b.bin", b"\x00\x01\x02\x03"), ("c.txt", b"new")],
        &["sub"],
    );
    let c = bigger.scan();
    let contents: Vec<Vec<u8>> =
        c.files.iter().map(|f| bigger.entries[&f.fs_path].clone().unwrap()).collect();
    let hints: Vec<u64> = c.files.iter().map(|f| f.size_hint).collect();
    let hashes: Vec<[u8; 32]> = contents.iter().map(|b| sha256(b)).collect();
    let sizes: Vec<u64> = contents.iter().map(|b| b.len() as u64).collect();
    let groups = group_blobs(&hints, &hashes, &sizes);
    let existing = lookup_existing(&groups, &index);
    assert_eq!(existing.iter().filter(|e| e.is_some()).count(), 2);
    let compress = vec![true; groups.len()];
    let plan = plan_generation(&c, &groups, &existing, &compress, CompressionType::Brotli, 1).unwrap();
    assert_eq!(plan.blobs.new_blob_bytes, 3);
    assert_eq!(plan.blobs.reused, 2);
    let compressed_contents: Vec<Vec<u8>> = plan
        .blobs
        .compressed_order
        .iter()
        .map(|&g| contents[groups[g].indices[0]].clone())
        .collect();
    let compressed = build_section(&plan.blobs.compressed_order, &groups, &compressed_contents).unwrap();
    assert!(plan.blobs.stored_order.is_empty());
    let key = [8u8; 32];
    write_planned_generation(
        &mut out,
        &plan,
        Vec::new(),
        compressed,
        CompressionType::Brotli,
        78,
        first.integrity_hash,
        Some(&key),
    )
    .unwrap();
    let archive = read_archive(&out).unwrap();
    assert_eq!(archive.generations.len(), 2);
    let gen = archive.latest();
    for r in current_files(gen).unwrap() {
        let expected = bigger.entries[&r.path].clone().unwrap();
        assert_eq!(extract_file_bytes(&archive, gen, &r).unwrap(), expected);
    }
    assert!(verify_blob_hashes(&archive).is_ok());
    assert!(verify_signatures(&archive, &ed25519_verifying_key(&key)).is_ok());
    assert!(verify_signatures(&archive, &ed25519_verifying_key(&[9u8; 32])).is_err());
}

#[test]
fn known_uncompressible_extension_is_never_compressed() {
    assert!(never_compressed("jpg"));
    assert!(never_compressed("zip"));
    assert!(never_compressed("mp4"));
}

#[test]
fn single_file() {
    let tree = MemTree::new(&[("a.txt", b"hello")], &[]);
    let mut c = FileCollector::new();
    let steps = tree.scan_into(&mut c).unwrap();
    assert!(steps > 0);
    assert_eq!(c.directories.len(), 1);
    assert_eq!(c.files.len(), 1);
    assert_eq!(c.files[0].archive_path, "a.txt");
    assert_eq!(c.files[0].size_hint, 5);
}

#[test]
fn nested_directories() {
    let tree = MemTree::new(&[("sub/inner/f.bin", b"1234")], &["sub", "sub/inner"]);
    let c = tree.scan();
    assert_eq!(c.directories.len(), 3);
    assert_eq!(c.files.len(), 1);
    assert_eq!(c.files[0].archive_path, "sub/inner/f.bin");
    let idx_of = |p: &str| c.directories.iter().position(|d| d.archive_path == p).unwrap();
    assert!(idx_of("") < idx_of("sub"));
    assert!(idx_of("sub") < idx_of("sub/inner"));
    assert_eq!(c.directories[idx_of("sub/inner")].parent, Some(idx_of("sub")));
    assert_eq!(c.files[0].parent, Some(idx_of("sub/inner")));
    assert_eq!(c.files[0].name, "f.bin");
}

#[test]
fn empty_directory_is_recorded_with_no_files() {
    let tree = MemTree::new(&[], &["empty"]);
    let c = tree.scan();
    assert_eq!(c.directories.len(), 2);
    assert!(c.files.is_empty());
}

#[test]
fn duplicate_archive_path_is_rejected() {
    let tree = MemTree::new(&[("a.txt", b"x")], &[]);
    let mut c = FileCollector::new();
    tree.scan_into(&mut c).unwrap();
    let err = tree.scan_into(&mut c).unwrap_err();
    assert_eq!(err.kind(), IoErrorKind::AlreadyExists);
}

#[test]
fn multiple_files_all_collected() {
    let names: Vec<String> = (0..10).map(|i| format!("f{i}.txt")).collect();
    let files: Vec<(&str, &[u8])> = names.iter().map(|n| (n.as_str(), b"data" as &[u8])).collect();
    let tree = MemTree::new(&files, &[]);
    assert_eq!(tree.scan().files.len(), 10);
}

#[test]
fn symlinks_are_recorded_or_followed() {
    let times = FileTimes { created: 0, modified: 0, accessed: 0 };
    let mut c: FileCollector<String> = FileCollector::new();
    let mut it = c.add_path("link".to_string(), "link".to_string(), "link".to_string(), false);
    let Advance::Examine(task) = it.advance(&c) else { panic!("expected a path to examine") };
    let probe = Probe::Symlink { target: Ok("target".to_string()), filetimes: times };
    assert!(it.examined(&mut c, task, probe).is_none());
    assert_eq!(c.symlinks.len(), 1);
    assert_eq!(c.symlinks[0].fs_target_path, "target");
    assert!(matches!(it.advance(&c), Advance::Finished));

    let mut d: FileCollector<String> = FileCollector::new();
    let mut it = d.add_path("link".to_string(), "link".to_string(), "link".to_string(), true);
    let Advance::Examine(task) = it.advance(&d) else { panic!("expected a path to examine") };
    let probe = Probe::Symlink { target: Ok("target".to_string()), filetimes: times };
    assert!(it.examined(&mut d, task, probe).is_none());
    assert!(d.symlinks.is_empty());
    let Advance::Examine(next) = it.advance(&d) else { panic!("expected the target") };
    assert_eq!(next.fs_path, "target");
    assert_eq!(next.archive_path, "link");
    assert_eq!(next.symlink_depth, 1);
}

#[test]
fn symlink_chains_are_cut_off() {
    let times = FileTimes { created: 0, modified: 0, accessed: 0 };
    let mut c: FileCollector<String> = FileCollector::new();
    let mut it = c.add_path("l".to_string(), "l".to_string(), "l".to_string(), true);
    let mut depth = 0;
    loop {
        let Advance::Examine(task) = it.advance(&c) else { panic!("expected a path to examine") };
        let probe = Probe::Symlink { target: Ok("l".to_string()), filetimes: times };
        if let Some(e) = it.examined(&mut c, task, probe) {
            assert_eq!(e.kind(), IoErrorKind::InvalidData);
            break;
        }
        depth += 1;
    }
    assert_eq!(depth, bpfs::scan::MAX_SYMLINK_DEPTH);
}

#[test]
fn failed_listing_is_reported_after_recording_the_directory() {
    let mut c: FileCollector<String> = FileCollector::new();
    let mut it = c.add_path("d".to_string(), String::new(), String::new(), false);
    let Advance::Examine(task) = it.advance(&c) else { panic!("expected a path to examine") };
    let probe = Probe::Directory {
        filetimes: FileTimes { created: 0, modified: 0, accessed: 0 },
        listing: Err(IoError::new(IoErrorKind::Other, "denied")),
    };
    let err = it.examined(&mut c, task, probe).unwrap();
    assert_eq!(err.message, "denied");
    assert_eq!(c.directories.len(), 1);
}

#[test]
fn scan_progress_counts_files_recorded() {
    let tree = MemTree::new(
        &[("a.txt", b"1"), ("sub/b.bin", b"22"), ("sub/deeper/c", b"333"), ("z.txt", b"4444")],
        &["sub", "sub/deeper"],
    );
    let mut c = FileCollector::new();
    let mut it = c.add_path(String::new(), String::new(), String::new(), false);
    let mut yields = Vec::new();
    let mut entries_at_yield = Vec::new();
    loop {
        match it.advance(&c) {
            Advance::Finished => break,
            Advance::Yield(n) => {
                assert_eq!(n, c.files.len());
                yields.push(n);
                entries_at_yield.push(c.directories.len() + c.files.len() + c.symlinks.len());
            },
            Advance::Examine(task) => {
                let probe = tree.probe(&task.fs_path);
                assert!(it.examined(&mut c, task, probe).is_none());
            },
        }
    }
    assert_eq!(yields, vec![0, 1, 1]);
    assert_eq!(entries_at_yield, vec![1, 3, 4]);
    assert_eq!(c.files.len(), 4);
    assert_eq!(c.directories.len(), 3);
}

struct OnlyKnown(Vec<([u8; 32], ExistingBlob)>);

impl ExistingBlobLookup for OnlyKnown {
    fn find(&self, hash: &[u8; 32]) -> Option<ExistingBlob> {
        self.0.iter().find(|(h, _)| h == hash).map(|(_, b)| *b)
    }
}

#[test]
fn lookup_asks_about_each_group_hash() {
    let groups = vec![
        BlobGroup { hash: sha256(b"x"), size: 1, indices: vec![0] },
        BlobGroup { hash: sha256(b"yy"), size: 2, indices: vec![1] },
        BlobGroup { hash: sha256(b"zzz"), size: 3, indices: vec![2] },
    ];
    let known = ExistingBlob { generation_idx: 0, section_idx: 1, section_blob_idx: 4 };
    let lookup = OnlyKnown(vec![(sha256(b"yy"), known)]);
    let found = lookup_existing(&groups, &lookup);
    assert_eq!(found.len(), 3);
    assert!(found[0].is_none());
    assert_eq!(found[1].map(|b| (b.generation_idx, b.section_idx, b.section_blob_idx)), Some((0, 1, 4)));
    assert!(found[2].is_none());
}

#[test]
fn section_stream_checks_each_file_as_it_ends() {
    let groups = vec![
        BlobGroup { hash: sha256(b"hello"), size: 5, indices: vec![0] },
        BlobGroup { hash: sha256(b"abc"), size: 3, indices: vec![1] },
    ];
    let mut s = SectionStream::new();
    assert!(s.feed(b"hel", 5));
    assert!(s.feed(b"lo", 5));
    assert!(s.finish_item(&groups[0]));
    assert!(s.feed(b"abc", 3));
    assert!(s.finish_item(&groups[1]));
    assert_eq!(s.into_bytes(), b"helloabc".to_vec());

    let mut grown = SectionStream::new();
    assert!(grown.feed(b"hell", 5));
    assert!(!grown.feed(b"oo", 5));
    assert_eq!(grown.into_bytes(), b"hell".to_vec());

    let mut edited = SectionStream::new();
    assert!(edited.feed(b"jello", 5));
    assert!(!edited.finish_item(&groups[0]));
    let mut short = SectionStream::new();
    assert!(short.feed(b"ab", 3));
    assert!(!short.finish_item(&groups[1]));
}
