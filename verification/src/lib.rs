//! BPFS: a generational, deduplicating backup archive format.
//!
//! The library holds the format's byte layout (encoding and parsing), the
//! structural checks run on parsed generations, the string interning used
//! while packing, the planning of a generation from a scanned tree, and the
//! read-side resolution of files to their bytes.

pub mod constants;
pub mod errors;
pub mod enums;
pub mod packed;
pub mod staged;
pub mod filetimes;
pub mod validate;
pub mod strings;
pub mod hash_table;
pub mod text;
pub mod string_arena;
pub mod codec;
pub mod le;
pub mod layout;
pub mod entries;
pub mod strsection;
pub mod signing;
pub mod datasection;
pub mod generation;
pub mod generation_roundtrip;
pub mod progress;
pub mod archive;
pub mod iter;
pub mod verify;
pub mod sort;
pub mod interner;
pub mod fingerprint;
pub mod shannon;
pub mod analysis;
pub mod scan;
pub mod blobs;
pub mod policy;
pub mod pack;
pub mod readback;
pub mod archive_roundtrip;
pub mod blob_index;
pub mod prefix;
pub mod writers;
pub mod reports;
