//! Format constants: the magic bytes, the version, block size, markers
//! and well-known hashes.

use vstd::prelude::*;

verus! {

/// The four bytes every archive starts with: `b"BPFS"`.
pub const MAGIC: [u8; 4] = [0x42u8, 0x50u8, 0x46u8, 0x53u8];

/// The archive version this library writes and reads.
pub const VERSION: u16 = 2;

/// Default uncompressed size of one data section block.
pub const DATA_BLOCK_SIZE: u32 = 67108864;

/// Marks the end of a Generation record ("BPFG" as little-endian bytes).
/// Distinct from `MAGIC` so a desynced stream does not re-align on the wrong marker.
pub const GENERATION_SUFFIX: u32 = 0x42504647;

/// SHA-256 of the empty input (a zero-length file).
pub const EMPTY_HASH: [u8; 32] = [
    0xe3u8, 0xb0u8, 0xc4u8, 0x42u8, 0x98u8, 0xfcu8, 0x1cu8, 0x14u8, 0x9au8, 0xfbu8, 0xf4u8,
    0xc8u8, 0x99u8, 0x6fu8, 0xb9u8, 0x24u8, 0x27u8, 0xaeu8, 0x41u8, 0xe4u8, 0x64u8, 0x9bu8,
    0x93u8, 0x4cu8, 0xa4u8, 0x95u8, 0x99u8, 0x1bu8, 0x78u8, 0x52u8, 0xb8u8, 0x55u8,
];

/// The `previous_integrity_hash` of generation 0.
pub const ZERO_HASH: [u8; 32] = [
    0u8, 0u8, 0u8, 0u8, 0u8, 0u8, 0u8, 0u8, 0u8, 0u8, 0u8, 0u8, 0u8, 0u8, 0u8, 0u8, 0u8, 0u8, 0u8, 0u8, 0u8, 0u8, 0u8, 0u8, 0u8, 0u8, 0u8, 0u8, 0u8, 0u8, 0u8, 0u8,
];

} // verus!
