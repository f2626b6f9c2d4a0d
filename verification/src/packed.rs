//! Records exactly as they appear on disk within one generation.

use vstd::prelude::*;

verus! {

/// 8 bytes on disk: `u32 offset, u32 length` into a generation's decompressed string heap.
#[derive(Clone, Copy, Debug, PartialEq, Eq, Structural)]
pub struct StringEntry {
    pub offset: u32,
    pub length: u32,
}

/// 20 bytes on disk. `generation_idx` names the generation that stores the
/// blob's bytes; `section_idx`/`section_blob_idx` locate it in that generation's
/// data sections.
#[derive(Clone, Copy, Debug, PartialEq, Eq, Structural)]
pub struct BlobEntry {
    pub raw_size: u64,
    pub generation_idx: u32,
    pub section_idx: u32,
    pub section_blob_idx: u32,
}

/// 24 bytes on disk.
#[derive(Clone, Copy, Debug, PartialEq, Eq, Structural)]
pub struct DirectoryEntry {
    pub parent_id: u32,
    pub name_stridx: u32,
    pub created_at: u64,
    pub modified_at: u64,
}

/// 28 bytes on disk.
#[derive(Clone, Copy, Debug, PartialEq, Eq, Structural)]
pub struct FileEntry {
    pub blob_idx: u32,
    pub dir_idx: u32,
    pub name_stridx: u32,
    pub created_at: u64,
    pub modified_at: u64,
}

/// Sentinel meaning "no parent" (the directory is a root).
pub const NO_PARENT: u32 = 0xFFFF_FFFFu32;

} // verus!
