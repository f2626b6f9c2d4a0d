//! Records of a generation being assembled, before they are packed.

use vstd::prelude::*;
use crate::enums::SectionKind;
use crate::filetimes::FileTimes;

verus! {

/// Where a staged blob's bytes come from when a generation is written.
#[derive(Clone, Copy, Debug)]
pub enum StagedBlobSource {
    /// Bytes are written fresh; `input_idx` indexes the packer's scanned files.
    New { input_idx: usize },
    /// An identical blob already exists in an earlier generation.
    Existing { generation_idx: u32, section_idx: u32, section_blob_idx: u32 },
}

#[derive(Clone, Copy, Debug)]
pub struct StagedBlobEntry {
    pub hash: [u8; 32],
    pub raw_size: u64,
    pub section: SectionKind,
    pub source: StagedBlobSource,
}

#[derive(Clone, Copy, Debug)]
pub struct StagedDirectoryEntry {
    pub parent_idx: Option<u32>,
    pub name_stridx: u32,
    pub filetimes: FileTimes,
}

#[derive(Clone, Copy, Debug)]
pub struct StagedFileEntry {
    pub blob_idx: u32,
    pub dir_idx: u32,
    pub name_stridx: u32,
    pub filetimes: FileTimes,
}

} // verus!
