//! Structural checks over a parsed generation, independent of hashes.

use vstd::prelude::*;
use crate::errors::ArchiveError;
use crate::packed::{DirectoryEntry, FileEntry, NO_PARENT};
use crate::text::{decimal, decimal_spec};

verus! {

/// Directory `idx` is a root or names a parent declared before it.
pub open spec fn dir_parent_ok(dirs: Seq<DirectoryEntry>, idx: int) -> bool {
    dirs[idx].parent_id == NO_PARENT || dirs[idx].parent_id < idx
}

/// Every directory's parent is declared before it (so the tree has no cycles).
pub open spec fn directory_tree_valid(dirs: Seq<DirectoryEntry>) -> bool {
    forall|i: int| 0 <= i < dirs.len() ==> #[trigger] dir_parent_ok(dirs, i)
}

/// File `idx` names an existing directory and an existing blob.
pub open spec fn file_refs_ok(files: Seq<FileEntry>, idx: int, dir_count: int, blob_count: int) -> bool {
    files[idx].dir_idx < dir_count && files[idx].blob_idx < blob_count
}

pub open spec fn file_refs_valid(files: Seq<FileEntry>, dir_count: int, blob_count: int) -> bool {
    forall|i: int| 0 <= i < files.len() ==> #[trigger] file_refs_ok(files, i, dir_count, blob_count)
}

/// `k` is the first directory whose parent is not declared before it.
pub open spec fn is_first_bad_dir(dirs: Seq<DirectoryEntry>, k: int) -> bool {
    &&& 0 <= k < dirs.len()
    &&& !dir_parent_ok(dirs, k)
    &&& forall|j: int| 0 <= j < k ==> #[trigger] dir_parent_ok(dirs, j)
}

/// The first directory whose parent is not declared before it (meaningful
/// when the tree is not valid).
pub open spec fn first_bad_dir(dirs: Seq<DirectoryEntry>) -> int {
    choose|k: int| is_first_bad_dir(dirs, k)
}

/// There is only one first offending directory.
proof fn lemma_first_bad_dir(dirs: Seq<DirectoryEntry>, k: int)
    requires
        is_first_bad_dir(dirs, k),
    ensures
        first_bad_dir(dirs) == k,
{
    let c = first_bad_dir(dirs);
    assert(is_first_bad_dir(dirs, c));
    if c < k {
        assert(dir_parent_ok(dirs, c));
    } else if k < c {
        assert(dir_parent_ok(dirs, k));
    }
}

/// `k` is the first file with a reference out of range.
pub open spec fn is_first_bad_file(files: Seq<FileEntry>, dir_count: int, blob_count: int, k: int) -> bool {
    &&& 0 <= k < files.len()
    &&& !file_refs_ok(files, k, dir_count, blob_count)
    &&& forall|j: int| 0 <= j < k ==> #[trigger] file_refs_ok(files, j, dir_count, blob_count)
}

/// The first file with a reference out of range.
pub open spec fn first_bad_file(files: Seq<FileEntry>, dir_count: int, blob_count: int) -> int {
    choose|k: int| is_first_bad_file(files, dir_count, blob_count, k)
}

/// There is only one first offending file.
proof fn lemma_first_bad_file(files: Seq<FileEntry>, dir_count: int, blob_count: int, k: int)
    requires
        is_first_bad_file(files, dir_count, blob_count, k),
    ensures
        first_bad_file(files, dir_count, blob_count) == k,
{
    let c = first_bad_file(files, dir_count, blob_count);
    assert(is_first_bad_file(files, dir_count, blob_count, c));
    if c < k {
        assert(file_refs_ok(files, c, dir_count, blob_count));
    } else if k < c {
        assert(file_refs_ok(files, k, dir_count, blob_count));
    }
}

/// The message for directory `idx` whose parent `parent` is not declared before it.
pub open spec fn parent_order_message(idx: nat, parent: nat) -> Seq<char> {
    "directory "@ + decimal_spec(idx) + " references parent "@ + decimal_spec(parent)
        + " which is not declared before it"@
}

/// The message for file `idx` naming the missing directory `dir`.
pub open spec fn file_dir_message(idx: nat, dir: nat) -> Seq<char> {
    "file "@ + decimal_spec(idx) + " references out-of-bounds directory "@ + decimal_spec(dir)
}

/// The message for file `idx` naming the missing blob `blob`.
pub open spec fn file_blob_message(idx: nat, blob: nat) -> Seq<char> {
    "file "@ + decimal_spec(idx) + " references out-of-bounds blob "@ + decimal_spec(blob)
}

/// Checks that every directory's `parent_id` is `NO_PARENT` or refers to an
/// earlier directory. The first offending directory decides the error: a parent
/// past the end of the table is `IndexOutOfBounds("DirectoryEntry.parent_id")`,
/// any other bad parent is `Format` with a message naming both directories.
pub fn validate_directory_tree(dirs: &[DirectoryEntry]) -> (r: Result<(), ArchiveError>)
    ensures
        r is Ok <==> directory_tree_valid(dirs@),
        r is Err ==> {
            let k = first_bad_dir(dirs@);
            &&& is_first_bad_dir(dirs@, k)
            &&& if dirs@[k].parent_id >= dirs@.len() {
                r->Err_0 == ArchiveError::IndexOutOfBounds("DirectoryEntry.parent_id")
            } else {
                r->Err_0 matches ArchiveError::Format(m) && m@ == parent_order_message(
                    k as nat,
                    dirs@[k].parent_id as nat,
                )
            }
        },
{
    let mut idx: usize = 0;
    while idx < dirs.len()
        invariant
            idx <= dirs@.len(),
            forall|j: int| 0 <= j < idx ==> #[trigger] dir_parent_ok(dirs@, j),
        decreases dirs@.len() - idx,
    {
        let dir = dirs[idx];
        if dir.parent_id != NO_PARENT {
            let parent_idx = dir.parent_id as usize;
            if parent_idx >= dirs.len() {
                assert(!dir_parent_ok(dirs@, idx as int));
                proof {
                    lemma_first_bad_dir(dirs@, idx as int);
                }
                return Err(ArchiveError::IndexOutOfBounds("DirectoryEntry.parent_id"));
            }
            if parent_idx >= idx {
                assert(!dir_parent_ok(dirs@, idx as int));
                proof {
                    lemma_first_bad_dir(dirs@, idx as int);
                }
                let msg = String::from_str("directory ").concat(decimal(idx as u64).as_str()).concat(
                    " references parent ",
                ).concat(decimal(parent_idx as u64).as_str()).concat(
                    " which is not declared before it",
                );
                assert(msg@ =~= parent_order_message(idx as nat, dir.parent_id as nat));
                return Err(ArchiveError::Format(msg));
            }
        }
        assert(dir_parent_ok(dirs@, idx as int));
        idx += 1;
    }
    Ok(())
}

/// Checks that every `FileEntry.dir_idx` and `FileEntry.blob_idx` is in bounds.
/// Both failures are `Format` errors, reported for the first offending file;
/// its directory is checked before its blob.
pub fn validate_file_refs(files: &[FileEntry], dir_count: usize, blob_count: usize) -> (r: Result<(), ArchiveError>)
    ensures
        r is Ok <==> file_refs_valid(files@, dir_count as int, blob_count as int),
        r is Err ==> {
            let k = first_bad_file(files@, dir_count as int, blob_count as int);
            &&& is_first_bad_file(files@, dir_count as int, blob_count as int, k)
            &&& r->Err_0 matches ArchiveError::Format(m) && m@ == if files@[k].dir_idx >= dir_count {
                file_dir_message(k as nat, files@[k].dir_idx as nat)
            } else {
                file_blob_message(k as nat, files@[k].blob_idx as nat)
            }
        },
{
    let mut idx: usize = 0;
    while idx < files.len()
        invariant
            idx <= files@.len(),
            forall|j: int| 0 <= j < idx ==> #[trigger] file_refs_ok(files@, j, dir_count as int, blob_count as int),
        decreases files@.len() - idx,
    {
        let file = files[idx];
        if file.dir_idx as usize >= dir_count {
            assert(!file_refs_ok(files@, idx as int, dir_count as int, blob_count as int));
            proof {
                lemma_first_bad_file(files@, dir_count as int, blob_count as int, idx as int);
            }
            let msg = String::from_str("file ").concat(decimal(idx as u64).as_str()).concat(
                " references out-of-bounds directory ",
            ).concat(decimal(file.dir_idx as u64).as_str());
            assert(msg@ =~= file_dir_message(idx as nat, file.dir_idx as nat));
            return Err(ArchiveError::Format(msg));
        }
        if file.blob_idx as usize >= blob_count {
            assert(!file_refs_ok(files@, idx as int, dir_count as int, blob_count as int));
            proof {
                lemma_first_bad_file(files@, dir_count as int, blob_count as int, idx as int);
            }
            let msg = String::from_str("file ").concat(decimal(idx as u64).as_str()).concat(
                " references out-of-bounds blob ",
            ).concat(decimal(file.blob_idx as u64).as_str());
            assert(msg@ =~= file_blob_message(idx as nat, file.blob_idx as nat));
            return Err(ArchiveError::Format(msg));
        }
        idx += 1;
    }
    Ok(())
}

} // verus!
