//! One generation record: the full snapshot written by one pack.
//!
//! ```text
//! u64 created_at
//! u32 file_count, dir_count, blob_count
//! StringSection strings
//! BlobEntry blobs[blob_count]
//! DirectoryEntry dirs[dir_count]
//! FileEntry files[file_count]
//! u32 data_section_count
//! DataSection data_sections[data_section_count]
//! Sha256 blob_hashes[blob_count]
//! Sha256 previous_integrity_hash
//! Sha256 integrity_hash        // of everything above
//! u32 signature_type
//! u32 signature_size
//! u8  signature[signature_size] // signs integrity_hash
//! u32 suffix
//! ```

use vstd::prelude::*;
use crate::codec::{sha256, sha256_digest};
use crate::constants::GENERATION_SUFFIX;
use crate::datasection::{
    data_payload, data_section_body, data_section_encoding, parse_data_section, read_data_section, write_data_section,
    DataSectionView, DecodedDataSection,
};
use crate::entries::{
    blob_entries_at, blob_entries_bytes, directory_entries_at, directory_entries_bytes,
    file_entries_at, file_entries_bytes, read_blob_entry, read_directory_entry, read_file_entry,
    write_blob_entries, write_directory_entries, write_file_entries,
};
use crate::enums::CompressionType;
use crate::errors::{ArchiveError, IoError, IoErrorKind};
use crate::layout::{flat, lemma_flat_push};
use crate::le::{le32, le64, u32_at, u64_at, write_all, ByteReader, ReadLeExt, WriteLeExt};
use crate::packed::{BlobEntry, DirectoryEntry, FileEntry};
use crate::signing::{ed25519_accepts, ed25519_public_key, ed25519_signature, sign_integrity_hash, SIGNATURE_SIZE};
use crate::strings::StringTable;
use crate::strsection::{
    hash_eq, parse_string_section, read_string_section, string_section_encoding,
    write_string_section, heap_of, strings_encodable, string_section_body,
};
use crate::codec::{brotli_compressed, brotli_decompressed};
use crate::validate::{
    directory_tree_valid, file_blob_message, file_dir_message, file_refs_valid, first_bad_dir,
    first_bad_file, parent_order_message, validate_directory_tree, validate_file_refs,
};

verus! {

/// Largest signature a generation may carry.
pub const MAX_SIGNATURE_SIZE: u32 = 4096;

/// A data section to write: its name, its codec, and the raw concatenated
/// bytes of every blob assigned to it, in `section_blob_idx` order.
pub struct PendingDataSection {
    pub name_stridx: u32,
    pub compression: CompressionType,
    pub raw: Vec<u8>,
}

pub struct GenerationInput<'a> {
    pub created_at: u64,
    pub strings: &'a [&'a str],
    pub blobs: &'a [BlobEntry],
    pub blob_hashes: &'a [[u8; 32]],
    pub dirs: &'a [DirectoryEntry],
    pub files: &'a [FileEntry],
    pub data_sections: &'a [PendingDataSection],
    pub previous_integrity_hash: [u8; 32],
    /// Secret bytes of the Ed25519 key that signs the generation, if any.
    pub signing_key: Option<&'a [u8; 32]>,
}

pub struct GenerationOutput {
    pub integrity_hash: [u8; 32],
    pub bytes_written: usize,
}

/// A pending data section, as a value.
pub struct PendingView {
    pub name_stridx: u32,
    pub compression: CompressionType,
    pub raw: Seq<u8>,
}

impl PendingDataSection {
    pub open spec fn view(&self) -> PendingView {
        PendingView { name_stridx: self.name_stridx, compression: self.compression, raw: self.raw@ }
    }
}

/// What a generation is written from, as a value.
pub struct GenerationInputView {
    pub created_at: u64,
    pub strings: Seq<Seq<char>>,
    pub blobs: Seq<BlobEntry>,
    pub blob_hashes: Seq<Seq<u8>>,
    pub dirs: Seq<DirectoryEntry>,
    pub files: Seq<FileEntry>,
    pub data_sections: Seq<PendingView>,
    pub previous_integrity_hash: Seq<u8>,
    pub signing_key: Option<Seq<u8>>,
}

impl<'a> GenerationInput<'a> {
    pub open spec fn view(&self) -> GenerationInputView {
        GenerationInputView {
            created_at: self.created_at,
            strings: self.strings@.map_values(|s: &str| s@),
            blobs: self.blobs@,
            blob_hashes: self.blob_hashes@.map_values(|h: [u8; 32]| h@),
            dirs: self.dirs@,
            files: self.files@,
            data_sections: self.data_sections@.map_values(|d: PendingDataSection| d.view()),
            previous_integrity_hash: self.previous_integrity_hash@,
            signing_key: match self.signing_key {
                Some(k) => Some(k@),
                None => None,
            },
        }
    }
}

/// The string section written for `strs`, once its heap has compressed.
pub open spec fn string_section_bytes(strs: Seq<Seq<char>>) -> Seq<u8> {
    let c = brotli_compressed(heap_of(strs))->Some_0;
    string_section_body(strs, c) + sha256_digest(string_section_body(strs, c))
}

/// The data section written for `p`, once its payload is known.
pub open spec fn data_section_bytes(p: PendingView) -> Seq<u8> {
    let c = data_payload(p.compression, p.raw)->Some_0;
    data_section_body(p.name_stridx, p.compression, c) + sha256_digest(
        data_section_body(p.name_stridx, p.compression, c),
    )
}

/// Why the string section for `strs` cannot be written, if it cannot.
pub open spec fn string_section_error(strs: Seq<Seq<char>>) -> Option<IoErrorKind> {
    if !strings_encodable(strs) {
        Some(IoErrorKind::InvalidInput)
    } else {
        match brotli_compressed(heap_of(strs)) {
            None => Some(IoErrorKind::Other),
            Some(c) => if c.len() > u32::MAX {
                Some(IoErrorKind::InvalidInput)
            } else {
                None
            },
        }
    }
}

/// Why the data section for `p` cannot be written, if it cannot.
pub open spec fn data_section_error(p: PendingView) -> Option<IoErrorKind> {
    match p.compression {
        CompressionType::Stored => None,
        CompressionType::Brotli => if brotli_compressed(p.raw) is None {
            Some(IoErrorKind::Other)
        } else {
            None
        },
        _ => Some(IoErrorKind::InvalidInput),
    }
}

/// The error of the first section of `secs` that cannot be written.
pub open spec fn first_section_error(secs: Seq<PendingView>) -> Option<IoErrorKind>
    decreases secs.len(),
{
    if secs.len() == 0 {
        None
    } else {
        match first_section_error(secs.drop_last()) {
            Some(k) => Some(k),
            None => data_section_error(secs.last()),
        }
    }
}

/// Why a generation cannot be written, if it cannot: the string section is
/// written first, then the data sections in order.
pub open spec fn generation_error(g: GenerationInputView) -> Option<IoErrorKind> {
    match string_section_error(g.strings) {
        Some(k) => Some(k),
        None => first_section_error(g.data_sections),
    }
}

/// The data sections of `secs`, one after another.
pub open spec fn sections_bytes(secs: Seq<PendingView>) -> Seq<u8> {
    flat(secs, |p: PendingView| data_section_bytes(p))
}

/// The hashes of `hs`, one after another.
pub open spec fn hashes_bytes(hs: Seq<Seq<u8>>) -> Seq<u8> {
    flat(hs, |h: Seq<u8>| h)
}

/// Everything a generation's integrity hash covers.
pub open spec fn generation_prefix(g: GenerationInputView) -> Seq<u8> {
    le64(g.created_at) + le32(g.files.len() as u32) + le32(g.dirs.len() as u32) + le32(
        g.blobs.len() as u32,
    ) + string_section_bytes(g.strings) + blob_entries_bytes(g.blobs) + directory_entries_bytes(
        g.dirs,
    ) + file_entries_bytes(g.files) + le32(g.data_sections.len() as u32) + sections_bytes(
        g.data_sections,
    ) + hashes_bytes(g.blob_hashes) + g.previous_integrity_hash
}

/// The signature fields that follow the integrity hash `h`.
pub open spec fn signature_block(key: Option<Seq<u8>>, h: Seq<u8>) -> Seq<u8> {
    match key {
        None => le32(0) + le32(0),
        Some(k) => le32(1) + le32(SIGNATURE_SIZE as u32) + ed25519_signature(k, h),
    }
}

/// The whole record written for `g`.
pub open spec fn generation_bytes(g: GenerationInputView) -> Seq<u8> {
    let p = generation_prefix(g);
    let h = sha256_digest(p);
    p + h + signature_block(g.signing_key, h) + le32(GENERATION_SUFFIX)
}

/// What writing `g` established of the codecs, the hash and the signer: each
/// section encodes as written and decodes back, the hash has 32 bytes, and
/// the signature has 64 and verifies.
pub open spec fn generation_written(g: GenerationInputView) -> bool {
    &&& string_section_encoding(g.strings, string_section_bytes(g.strings))
    &&& forall|i: int|
        0 <= i < g.data_sections.len() ==> data_section_encoding(
            g.data_sections[i].name_stridx,
            g.data_sections[i].compression,
            g.data_sections[i].raw,
            #[trigger] data_section_bytes(g.data_sections[i]),
        )
    &&& sha256_digest(generation_prefix(g)).len() == 32
    &&& g.signing_key matches Some(k) ==> {
        let h = sha256_digest(generation_prefix(g));
        &&& ed25519_signature(k, h).len() == SIGNATURE_SIZE
        &&& ed25519_accepts(ed25519_public_key(k), h, ed25519_signature(k, h))
    }
}

/// A generation read back from an archive.
pub struct Generation {
    pub created_at: u64,
    pub strings: StringTable,
    pub blobs: Vec<BlobEntry>,
    pub dirs: Vec<DirectoryEntry>,
    pub files: Vec<FileEntry>,
    pub data_sections: Vec<DecodedDataSection>,
    pub blob_hashes: Vec<[u8; 32]>,
    pub previous_integrity_hash: [u8; 32],
    pub integrity_hash: [u8; 32],
    pub signature_type: u32,
    pub signature: Vec<u8>,
}

/// What a generation holds, as a value.
pub struct GenerationView {
    pub created_at: u64,
    pub strings: Seq<Seq<char>>,
    pub blobs: Seq<BlobEntry>,
    pub dirs: Seq<DirectoryEntry>,
    pub files: Seq<FileEntry>,
    pub data_sections: Seq<DataSectionView>,
    pub blob_hashes: Seq<Seq<u8>>,
    pub previous_integrity_hash: Seq<u8>,
    pub integrity_hash: Seq<u8>,
    pub signature_type: u32,
    pub signature: Seq<u8>,
}

impl Generation {
    pub open spec fn view(&self) -> GenerationView {
        GenerationView {
            created_at: self.created_at,
            strings: self.strings@,
            blobs: self.blobs@,
            dirs: self.dirs@,
            files: self.files@,
            data_sections: self.data_sections@.map_values(|d: DecodedDataSection| d.view()),
            blob_hashes: self.blob_hashes@.map_values(|h: [u8; 32]| h@),
            previous_integrity_hash: self.previous_integrity_hash@,
            integrity_hash: self.integrity_hash@,
            signature_type: self.signature_type,
            signature: self.signature@,
        }
    }
}

/// Why parsing fails: the kind of I/O failure, or the error with the text it
/// carries.
pub enum GenError {
    Io(IoErrorKind),
    HashMismatch(Seq<char>),
    Format(Seq<char>),
    IndexOutOfBounds(Seq<char>),
}

/// `e` is the error `g` describes: of its kind, with its text.
pub open spec fn error_matches(e: ArchiveError, g: GenError) -> bool {
    match g {
        GenError::Io(k) => e is Io && e->Io_0.kind == k,
        GenError::HashMismatch(m) => e matches ArchiveError::HashMismatch(x) && x@ == m,
        GenError::Format(m) => e matches ArchiveError::Format(x) && x@ == m,
        GenError::IndexOutOfBounds(m) => e matches ArchiveError::IndexOutOfBounds(x) && x@ == m,
    }
}

/// `n` data sections read one after another from the front of `s`.
pub open spec fn parse_data_sections(s: Seq<u8>, n: nat) -> Result<(Seq<DataSectionView>, int), IoErrorKind>
    decreases n,
{
    if n == 0 {
        Ok((Seq::empty(), 0))
    } else {
        match parse_data_sections(s, (n - 1) as nat) {
            Err(k) => Err(k),
            Ok((v, len)) => match parse_data_section(s.subrange(len, s.len() as int)) {
                Err(k) => Err(k),
                Ok((d, l2)) => Ok((v.push(d), len + l2)),
            },
        }
    }
}

/// The first `n` 32-byte hashes of `s`.
pub open spec fn hashes_at(s: Seq<u8>, n: int) -> Seq<Seq<u8>> {
    Seq::new(n as nat, |i: int| s.subrange(32 * i, 32 * i + 32))
}

/// The first part of a generation: counts, strings and the three tables.
pub struct TablesView {
    pub created_at: u64,
    pub strings: Seq<Seq<char>>,
    pub blobs: Seq<BlobEntry>,
    pub dirs: Seq<DirectoryEntry>,
    pub files: Seq<FileEntry>,
    pub end: int,
}

pub open spec fn parse_tables(s: Seq<u8>) -> Result<TablesView, IoErrorKind> {
    if s.len() < 20 {
        Err(IoErrorKind::UnexpectedEof)
    } else {
        let fc = u32_at(s, 8) as int;
        let dc = u32_at(s, 12) as int;
        let bc = u32_at(s, 16) as int;
        match parse_string_section(s.subrange(20, s.len() as int)) {
            Err(k) => Err(k),
            Ok((strs, sl)) => {
                let p1 = 20 + sl;
                let p2 = p1 + 20 * bc;
                let p3 = p2 + 24 * dc;
                let p4 = p3 + 28 * fc;
                if s.len() < p4 {
                    Err(IoErrorKind::UnexpectedEof)
                } else {
                    Ok(
                        TablesView {
                            created_at: u64_at(s, 0),
                            strings: strs,
                            blobs: blob_entries_at(s.subrange(p1, s.len() as int), bc),
                            dirs: directory_entries_at(s.subrange(p2, s.len() as int), dc),
                            files: file_entries_at(s.subrange(p3, s.len() as int), fc),
                            end: p4,
                        },
                    )
                }
            },
        }
    }
}

/// The middle part: data sections, blob hashes and the previous hash.
pub struct BodyView {
    pub data_sections: Seq<DataSectionView>,
    pub blob_hashes: Seq<Seq<u8>>,
    pub previous_integrity_hash: Seq<u8>,
    pub end: int,
}

pub open spec fn parse_body(s: Seq<u8>, blob_count: int) -> Result<BodyView, IoErrorKind> {
    if s.len() < 4 {
        Err(IoErrorKind::UnexpectedEof)
    } else {
        let ns = u32_at(s, 0) as nat;
        match parse_data_sections(s.subrange(4, s.len() as int), ns) {
            Err(k) => Err(k),
            Ok((secs, sl)) => {
                let p6 = 4 + sl;
                let p7 = p6 + 32 * blob_count;
                if s.len() < p7 + 32 {
                    Err(IoErrorKind::UnexpectedEof)
                } else {
                    Ok(
                        BodyView {
                            data_sections: secs,
                            blob_hashes: hashes_at(s.subrange(p6, s.len() as int), blob_count),
                            previous_integrity_hash: s.subrange(p7, p7 + 32),
                            end: p7 + 32,
                        },
                    )
                }
            },
        }
    }
}

/// The error for a directory table that is not valid: the first directory
/// whose parent is not declared before it decides it.
pub open spec fn dir_tree_error(dirs: Seq<DirectoryEntry>) -> GenError {
    let k = first_bad_dir(dirs);
    if dirs[k].parent_id >= dirs.len() {
        GenError::IndexOutOfBounds("DirectoryEntry.parent_id"@)
    } else {
        GenError::Format(parent_order_message(k as nat, dirs[k].parent_id as nat))
    }
}

/// The error for a file table with a reference out of range: the first such
/// file decides it, its directory checked before its blob.
pub open spec fn file_refs_error(files: Seq<FileEntry>, dir_count: int, blob_count: int) -> GenError {
    let k = first_bad_file(files, dir_count, blob_count);
    if files[k].dir_idx >= dir_count {
        GenError::Format(file_dir_message(k as nat, files[k].dir_idx as nat))
    } else {
        GenError::Format(file_blob_message(k as nat, files[k].blob_idx as nat))
    }
}

/// Parsing a generation from the front of `s`: its content and length, or
/// why it fails.
pub open spec fn parse_generation(s: Seq<u8>) -> Result<(GenerationView, int), GenError> {
    match parse_tables(s) {
        Err(k) => Err(GenError::Io(k)),
        Ok(t) => match parse_body(s.subrange(t.end, s.len() as int), t.blobs.len() as int) {
            Err(k) => Err(GenError::Io(k)),
            Ok(b) => {
                let p8 = t.end + b.end;
                let computed = sha256_digest(s.subrange(0, p8));
                if s.len() < p8 + 32 {
                    Err(GenError::Io(IoErrorKind::UnexpectedEof))
                } else if computed != s.subrange(p8, p8 + 32) {
                    Err(GenError::HashMismatch("generation integrity_hash"@))
                } else if s.len() < p8 + 40 {
                    Err(GenError::Io(IoErrorKind::UnexpectedEof))
                } else {
                    let sig_type = u32_at(s, p8 + 32);
                    let sig_size = u32_at(s, p8 + 36) as int;
                    if sig_size > MAX_SIGNATURE_SIZE {
                        Err(GenError::Format("implausible signature size"@))
                    } else if s.len() < p8 + 40 + sig_size + 4 {
                        Err(GenError::Io(IoErrorKind::UnexpectedEof))
                    } else if u32_at(s, p8 + 40 + sig_size) != GENERATION_SUFFIX {
                        Err(GenError::Format("bad generation suffix marker"@))
                    } else if !directory_tree_valid(t.dirs) {
                        Err(dir_tree_error(t.dirs))
                    } else if !file_refs_valid(t.files, t.dirs.len() as int, t.blobs.len() as int) {
                        Err(file_refs_error(t.files, t.dirs.len() as int, t.blobs.len() as int))
                    } else {
                        Ok(
                            (
                                GenerationView {
                                    created_at: t.created_at,
                                    strings: t.strings,
                                    blobs: t.blobs,
                                    dirs: t.dirs,
                                    files: t.files,
                                    data_sections: b.data_sections,
                                    blob_hashes: b.blob_hashes,
                                    previous_integrity_hash: b.previous_integrity_hash,
                                    integrity_hash: computed,
                                    signature_type: sig_type,
                                    signature: s.subrange(p8 + 40, p8 + 40 + sig_size),
                                },
                                p8 + 40 + sig_size + 4,
                            ),
                        )
                    }
                }
            },
        },
    }
}

/// Once the first `j` sections fail to parse, all `n` fail the same way.
proof fn lemma_data_sections_err(s: Seq<u8>, j: nat, n: nat)
    requires
        j <= n,
        parse_data_sections(s, j) is Err,
    ensures
        parse_data_sections(s, n) == parse_data_sections(s, j),
    decreases n - j,
{
    if j < n {
        lemma_data_sections_err(s, j, (n - 1) as nat);
    }
}

/// What `n` data sections take lies within `s`, and there are `n` of them.
pub proof fn lemma_data_sections_bounds(s: Seq<u8>, n: nat)
    requires
        parse_data_sections(s, n) is Ok,
    ensures
        0 <= parse_data_sections(s, n)->Ok_0.1 <= s.len(),
        parse_data_sections(s, n)->Ok_0.0.len() == n,
    decreases n,
{
    if n > 0 {
        lemma_data_sections_bounds(s, (n - 1) as nat);
    }
}

/// A generation takes some bytes, and no more than there are.
pub proof fn lemma_parse_bounds(s: Seq<u8>)
    ensures
        parse_generation(s) matches Ok((v, len)) ==> 0 < len <= s.len(),
{
    if parse_tables(s) is Ok {
        let t = parse_tables(s)->Ok_0;
        let rt = s.subrange(t.end, s.len() as int);
        if parse_body(rt, t.blobs.len() as int) is Ok {
            lemma_data_sections_bounds(rt.subrange(4, rt.len() as int), u32_at(rt, 0) as nat);
        }
    }
}

/// A 32-byte array holding `b`.
pub fn to_array32(b: &[u8]) -> (a: [u8; 32])
    requires
        b@.len() == 32,
    ensures
        a@ == b@,
{
    let mut a = [0u8; 32];
    let mut i: usize = 0;
    while i < 32
        invariant
            b@.len() == 32,
            i <= 32,
            forall|j: int| 0 <= j < i ==> a@[j] == b@[j],
        decreases 32 - i,
    {
        a.set(i, b[i]);
        i += 1;
    }
    assert(a@ =~= b@);
    a
}

fn read_blob_entries(reader: &mut ByteReader, count: u32) -> (r: Result<Vec<BlobEntry>, IoError>)
    requires
        old(reader).wf(),
    ensures
        final(reader).wf(),
        final(reader).data() == old(reader).data(),
        old(reader).rest().len() >= 20 * count ==> r is Ok && r->Ok_0@ == blob_entries_at(
            old(reader).rest(),
            count as int,
        ) && final(reader).rest() == old(reader).rest().subrange(
            20 * count,
            old(reader).rest().len() as int,
        ),
        old(reader).rest().len() < 20 * count ==> r is Err && r->Err_0.kind
            == IoErrorKind::UnexpectedEof,
{
    let ghost s = old(reader).rest();
    let mut v: Vec<BlobEntry> = Vec::new();
    let mut i: u32 = 0;
    while i < count
        invariant
            reader.wf(),
            reader.data() == old(reader).data(),
            s == old(reader).rest(),
            i <= count,
            s.len() >= 20 * i,
            reader.rest() == s.subrange(20 * i, s.len() as int),
            v@ == blob_entries_at(s, i as int),
        decreases count - i,
    {
        let e = read_blob_entry(reader)?;
        proof {
            assert(reader.rest() =~= s.subrange(20 * (i + 1), s.len() as int));
            assert(e == crate::entries::blob_entry_at(s, 20 * i)) by {
                let q = s.subrange(20 * i, s.len() as int);
                assert(q.subrange(0, 8) =~= s.subrange(20 * i, 20 * i + 8));
                assert(q.subrange(8, 12) =~= s.subrange(20 * i + 8, 20 * i + 12));
                assert(q.subrange(12, 16) =~= s.subrange(20 * i + 12, 20 * i + 16));
                assert(q.subrange(16, 20) =~= s.subrange(20 * i + 16, 20 * i + 20));
            }
        }
        v.push(e);
        proof {
            assert(v@ =~= blob_entries_at(s, i + 1));
        }
        i += 1;
    }
    Ok(v)
}

fn read_directory_entries(reader: &mut ByteReader, count: u32) -> (r: Result<Vec<DirectoryEntry>, IoError>)
    requires
        old(reader).wf(),
    ensures
        final(reader).wf(),
        final(reader).data() == old(reader).data(),
        old(reader).rest().len() >= 24 * count ==> r is Ok && r->Ok_0@ == directory_entries_at(
            old(reader).rest(),
            count as int,
        ) && final(reader).rest() == old(reader).rest().subrange(
            24 * count,
            old(reader).rest().len() as int,
        ),
        old(reader).rest().len() < 24 * count ==> r is Err && r->Err_0.kind
            == IoErrorKind::UnexpectedEof,
{
    let ghost s = old(reader).rest();
    let mut v: Vec<DirectoryEntry> = Vec::new();
    let mut i: u32 = 0;
    while i < count
        invariant
            reader.wf(),
            reader.data() == old(reader).data(),
            s == old(reader).rest(),
            i <= count,
            s.len() >= 24 * i,
            reader.rest() == s.subrange(24 * i, s.len() as int),
            v@ == directory_entries_at(s, i as int),
        decreases count - i,
    {
        let e = read_directory_entry(reader)?;
        proof {
            assert(reader.rest() =~= s.subrange(24 * (i + 1), s.len() as int));
            assert(e == crate::entries::directory_entry_at(s, 24 * i)) by {
                let q = s.subrange(24 * i, s.len() as int);
                assert(q.subrange(0, 4) =~= s.subrange(24 * i, 24 * i + 4));
                assert(q.subrange(4, 8) =~= s.subrange(24 * i + 4, 24 * i + 8));
                assert(q.subrange(8, 16) =~= s.subrange(24 * i + 8, 24 * i + 16));
                assert(q.subrange(16, 24) =~= s.subrange(24 * i + 16, 24 * i + 24));
            }
        }
        v.push(e);
        proof {
            assert(v@ =~= directory_entries_at(s, i + 1));
        }
        i += 1;
    }
    Ok(v)
}

fn read_file_entries(reader: &mut ByteReader, count: u32) -> (r: Result<Vec<FileEntry>, IoError>)
    requires
        old(reader).wf(),
    ensures
        final(reader).wf(),
        final(reader).data() == old(reader).data(),
        old(reader).rest().len() >= 28 * count ==> r is Ok && r->Ok_0@ == file_entries_at(
            old(reader).rest(),
            count as int,
        ) && final(reader).rest() == old(reader).rest().subrange(
            28 * count,
            old(reader).rest().len() as int,
        ),
        old(reader).rest().len() < 28 * count ==> r is Err && r->Err_0.kind
            == IoErrorKind::UnexpectedEof,
{
    let ghost s = old(reader).rest();
    let mut v: Vec<FileEntry> = Vec::new();
    let mut i: u32 = 0;
    while i < count
        invariant
            reader.wf(),
            reader.data() == old(reader).data(),
            s == old(reader).rest(),
            i <= count,
            s.len() >= 28 * i,
            reader.rest() == s.subrange(28 * i, s.len() as int),
            v@ == file_entries_at(s, i as int),
        decreases count - i,
    {
        let e = read_file_entry(reader)?;
        proof {
            assert(reader.rest() =~= s.subrange(28 * (i + 1), s.len() as int));
            assert(e == crate::entries::file_entry_at(s, 28 * i)) by {
                let q = s.subrange(28 * i, s.len() as int);
                assert(q.subrange(0, 4) =~= s.subrange(28 * i, 28 * i + 4));
                assert(q.subrange(4, 8) =~= s.subrange(28 * i + 4, 28 * i + 8));
                assert(q.subrange(8, 12) =~= s.subrange(28 * i + 8, 28 * i + 12));
                assert(q.subrange(12, 20) =~= s.subrange(28 * i + 12, 28 * i + 20));
                assert(q.subrange(20, 28) =~= s.subrange(28 * i + 20, 28 * i + 28));
            }
        }
        v.push(e);
        proof {
            assert(v@ =~= file_entries_at(s, i + 1));
        }
        i += 1;
    }
    Ok(v)
}

fn read_tables(reader: &mut ByteReader) -> (r: Result<
    (u64, Vec<String>, Vec<BlobEntry>, Vec<DirectoryEntry>, Vec<FileEntry>),
    IoError,
>)
    requires
        old(reader).wf(),
    ensures
        final(reader).wf(),
        final(reader).data() == old(reader).data(),
        match parse_tables(old(reader).rest()) {
            Ok(t) => r is Ok && r->Ok_0.0 == t.created_at && r->Ok_0.1@.map_values(|x: String| x@)
                == t.strings && r->Ok_0.2@ == t.blobs && r->Ok_0.3@ == t.dirs && r->Ok_0.4@
                == t.files && final(reader).rest() == old(reader).rest().subrange(
                t.end,
                old(reader).rest().len() as int,
            ),
            Err(k) => r is Err && r->Err_0.kind == k,
        },
{
    let ghost s = old(reader).rest();
    let ghost r0 = reader.rest();
    let created_at = reader.read_u64_le()?;
    let ghost r1 = reader.rest();
    let file_count = reader.read_u32_le()?;
    let ghost r2 = reader.rest();
    let dir_count = reader.read_u32_le()?;
    let ghost r3 = reader.rest();
    let blob_count = reader.read_u32_le()?;
    proof {
        assert(s.subrange(0, 8) =~= r0.subrange(0, 8));
        assert(s.subrange(8, 12) =~= r1.subrange(0, 4));
        assert(s.subrange(12, 16) =~= r2.subrange(0, 4));
        assert(s.subrange(16, 20) =~= r3.subrange(0, 4));
        assert(reader.rest() =~= s.subrange(20, s.len() as int));
    }
    let strings = read_string_section(reader)?;
    let ghost sl = parse_string_section(s.subrange(20, s.len() as int))->Ok_0.1;
    let ghost p1 = 20 + sl;
    proof {
        assert(reader.rest() =~= s.subrange(p1, s.len() as int));
    }
    let blobs = read_blob_entries(reader, blob_count)?;
    let ghost p2 = p1 + 20 * blob_count;
    proof {
        assert(reader.rest() =~= s.subrange(p2, s.len() as int));
    }
    let dirs = read_directory_entries(reader, dir_count)?;
    let ghost p3 = p2 + 24 * dir_count;
    proof {
        assert(reader.rest() =~= s.subrange(p3, s.len() as int));
        assert(s.subrange(p2, s.len() as int).subrange(0, 0) =~= Seq::<u8>::empty());
    }
    let files = read_file_entries(reader, file_count)?;
    proof {
        let p4 = p3 + 28 * file_count;
        assert(reader.rest() =~= s.subrange(p4, s.len() as int));
    }
    Ok((created_at, strings, blobs, dirs, files))
}

fn read_data_sections(reader: &mut ByteReader, count: u32) -> (r: Result<Vec<DecodedDataSection>, IoError>)
    requires
        old(reader).wf(),
    ensures
        final(reader).wf(),
        final(reader).data() == old(reader).data(),
        match parse_data_sections(old(reader).rest(), count as nat) {
            Ok((v, len)) => r is Ok && r->Ok_0@.map_values(|d: DecodedDataSection| d.view()) == v
                && final(reader).rest() == old(reader).rest().subrange(len, old(reader).rest().len() as int),
            Err(k) => r is Err && r->Err_0.kind == k,
        },
{
    let ghost t = old(reader).rest();
    let mut sections: Vec<DecodedDataSection> = Vec::new();
    let ghost mut consumed: int = 0;
    assert(sections@.map_values(|d: DecodedDataSection| d.view()) =~= Seq::<DataSectionView>::empty());
    assert(reader.rest() =~= t.subrange(0, t.len() as int));
    let mut i: u32 = 0;
    while i < count
        invariant
            reader.wf(),
            reader.data() == old(reader).data(),
            t == old(reader).rest(),
            i <= count,
            0 <= consumed <= t.len(),
            parse_data_sections(t, i as nat) == Ok::<(Seq<DataSectionView>, int), IoErrorKind>(
                (sections@.map_values(|d: DecodedDataSection| d.view()), consumed),
            ),
            reader.rest() == t.subrange(consumed, t.len() as int),
        decreases count - i,
    {
        let ghost before = sections@.map_values(|d: DecodedDataSection| d.view());
        let d = match read_data_section(reader) {
            Ok(d) => d,
            Err(e) => {
                proof {
                    lemma_data_sections_err(t, (i + 1) as nat, count as nat);
                }
                return Err(e);
            },
        };
        let ghost l2 = parse_data_section(t.subrange(consumed, t.len() as int))->Ok_0.1;
        sections.push(d);
        proof {
            assert(sections@.map_values(|d: DecodedDataSection| d.view()) =~= before.push(d.view()));
            assert(reader.rest() =~= t.subrange(consumed + l2, t.len() as int));
            consumed = consumed + l2;
        }
        i += 1;
    }
    Ok(sections)
}

fn read_hashes(reader: &mut ByteReader, count: u32) -> (r: Result<Vec<[u8; 32]>, IoError>)
    requires
        old(reader).wf(),
    ensures
        final(reader).wf(),
        final(reader).data() == old(reader).data(),
        old(reader).rest().len() >= 32 * count ==> r is Ok && r->Ok_0@.map_values(
            |h: [u8; 32]| h@,
        ) == hashes_at(old(reader).rest(), count as int) && final(reader).rest() == old(
            reader,
        ).rest().subrange(32 * count, old(reader).rest().len() as int),
        old(reader).rest().len() < 32 * count ==> r is Err && r->Err_0.kind
            == IoErrorKind::UnexpectedEof,
{
    let ghost s = old(reader).rest();
    let mut hashes: Vec<[u8; 32]> = Vec::new();
    assert(hashes@.map_values(|h: [u8; 32]| h@) =~= hashes_at(s, 0));
    assert(reader.rest() =~= s.subrange(0, s.len() as int));
    let mut j: u32 = 0;
    while j < count
        invariant
            reader.wf(),
            reader.data() == old(reader).data(),
            s == old(reader).rest(),
            j <= count,
            s.len() >= 32 * j,
            reader.rest() == s.subrange(32 * j, s.len() as int),
            hashes@.map_values(|h: [u8; 32]| h@) == hashes_at(s, j as int),
        decreases count - j,
    {
        let b = reader.read_bytes(32)?;
        let h = to_array32(b);
        let ghost before = hashes@.map_values(|h: [u8; 32]| h@);
        hashes.push(h);
        proof {
            assert(hashes@.map_values(|h: [u8; 32]| h@) =~= before.push(h@));
            assert(h@ =~= s.subrange(32 * j, 32 * j + 32));
            assert(hashes@.map_values(|h: [u8; 32]| h@) =~= hashes_at(s, j + 1));
            assert(reader.rest() =~= s.subrange(32 * (j + 1), s.len() as int));
        }
        j += 1;
    }
    Ok(hashes)
}

fn read_body(reader: &mut ByteReader, blob_count: u32) -> (r: Result<
    (Vec<DecodedDataSection>, Vec<[u8; 32]>, [u8; 32]),
    IoError,
>)
    requires
        old(reader).wf(),
    ensures
        final(reader).wf(),
        final(reader).data() == old(reader).data(),
        match parse_body(old(reader).rest(), blob_count as int) {
            Ok(b) => r is Ok && r->Ok_0.0@.map_values(|d: DecodedDataSection| d.view())
                == b.data_sections && r->Ok_0.1@.map_values(|h: [u8; 32]| h@) == b.blob_hashes
                && r->Ok_0.2@ == b.previous_integrity_hash && final(reader).rest() == old(
                reader,
            ).rest().subrange(b.end, old(reader).rest().len() as int),
            Err(k) => r is Err && r->Err_0.kind == k,
        },
{
    let ghost s = old(reader).rest();
    let ghost r0 = reader.rest();
    let section_count = reader.read_u32_le()?;
    let ghost t = s.subrange(4, s.len() as int);
    proof {
        assert(s.subrange(0, 4) =~= r0.subrange(0, 4));
        assert(reader.rest() =~= t);
    }
    let sections = read_data_sections(reader, section_count)?;
    let ghost consumed = parse_data_sections(t, section_count as nat)->Ok_0.1;
    let ghost p6 = 4 + consumed;
    proof {
        lemma_data_sections_bounds(t, section_count as nat);
        assert(reader.rest() =~= s.subrange(p6, s.len() as int));
    }
    let hashes = read_hashes(reader, blob_count)?;
    let ghost p7 = p6 + 32 * blob_count;
    proof {
        assert(reader.rest() =~= s.subrange(p7, s.len() as int));
    }
    let prev_bytes = reader.read_bytes(32)?;
    let prev = to_array32(prev_bytes);
    proof {
        assert(prev@ =~= s.subrange(p7, p7 + 32));
        assert(reader.rest() =~= s.subrange(p7 + 32, s.len() as int));
    }
    Ok((sections, hashes, prev))
}

/// What every generation that parses has passed: its integrity hash is the
/// SHA-256 of the bytes before it and is the one recorded there, its
/// signature is at most `MAX_SIGNATURE_SIZE` bytes, it ends with the suffix
/// marker, and its directory and file tables are valid.
pub proof fn lemma_parsed_generation_checked(s: Seq<u8>)
    requires
        parse_generation(s) is Ok,
    ensures
        ({
            let (v, len) = parse_generation(s)->Ok_0;
            let body = len - 44 - v.signature.len();
            &&& 0 <= body && body + 32 <= len <= s.len()
            &&& v.integrity_hash == sha256_digest(s.subrange(0, body))
            &&& s.subrange(body, body + 32) == v.integrity_hash
            &&& v.signature.len() <= MAX_SIGNATURE_SIZE
            &&& u32_at(s, len - 4) == GENERATION_SUFFIX
            &&& directory_tree_valid(v.dirs)
            &&& file_refs_valid(v.files, v.dirs.len() as int, v.blobs.len() as int)
        }),
{
    lemma_parse_bounds(s);
    let t = parse_tables(s)->Ok_0;
    let rt = s.subrange(t.end, s.len() as int);
    assert(parse_tables(s) is Ok);
    assert(parse_body(rt, t.blobs.len() as int) is Ok);
    lemma_data_sections_bounds(rt.subrange(4, rt.len() as int), u32_at(rt, 0) as nat);
    let b = parse_body(rt, t.blobs.len() as int)->Ok_0;
    let p8 = t.end + b.end;
    let sig_size = u32_at(s, p8 + 36) as int;
    let (v, len) = parse_generation(s)->Ok_0;
    assert(len == p8 + 40 + sig_size + 4);
    assert(v.signature.len() == sig_size);
    assert(len - 44 - v.signature.len() == p8);
}

/// Reads one generation, recomputing its `integrity_hash` and checking its
/// structure. Errors: `Io` for a truncated record or a section that fails
/// its own checks; `HashMismatch` when the recorded integrity hash differs
/// from the recomputed one; `Format` for an implausible signature size, a bad
/// suffix marker or a bad directory/file reference; `IndexOutOfBounds` for a
/// directory parent past the table.
pub fn read_generation(reader: &mut ByteReader) -> (r: Result<Generation, ArchiveError>)
    requires
        old(reader).wf(),
    ensures
        final(reader).wf(),
        final(reader).data() == old(reader).data(),
        match parse_generation(old(reader).rest()) {
            Ok((v, len)) => r is Ok && r->Ok_0.view() == v && final(reader).rest() == old(
                reader,
            ).rest().subrange(len, old(reader).rest().len() as int),
            Err(g) => r is Err && error_matches(r->Err_0, g),
        },
{
    let ghost s = old(reader).rest();
    let ghost data = old(reader).data();
    let start = reader.position();
    let (created_at, strings, blobs, dirs, files) = match read_tables(reader) {
        Ok(t) => t,
        Err(e) => {
            return Err(ArchiveError::Io(e));
        },
    };
    let ghost t = parse_tables(s)->Ok_0;
    let ghost rt = reader.rest();
    let blob_count = blobs.len() as u32;
    proof {
        assert(parse_tables(s) is Ok);
        assert(rt == s.subrange(t.end, s.len() as int));
        assert(blobs@.len() == u32_at(s, 16));
    }
    let (data_sections, blob_hashes, previous_integrity_hash) = match read_body(reader, blob_count) {
        Ok(b) => b,
        Err(e) => {
            return Err(ArchiveError::Io(e));
        },
    };
    let ghost b = parse_body(rt, blob_count as int)->Ok_0;
    let ghost p8 = t.end + b.end;
    proof {
        assert(parse_body(rt, blob_count as int) is Ok);
        lemma_data_sections_bounds(rt.subrange(4, rt.len() as int), u32_at(rt, 0) as nat);
        assert(reader.rest() == rt.subrange(b.end, rt.len() as int));
        assert(reader.rest().len() == s.len() - p8);
        assert(reader.rest() =~= s.subrange(p8, s.len() as int));
        assert(reader.data() == data);
        assert(s == data.subrange(start as int, data.len() as int));
    }
    let prefix = reader.since(start);
    proof {
        assert(prefix@ =~= s.subrange(0, p8));
    }
    let computed = sha256(prefix);
    let stored = match reader.read_bytes(32) {
        Ok(x) => x,
        Err(e) => {
            return Err(ArchiveError::Io(e));
        },
    };
    proof {
        assert(stored@ =~= s.subrange(p8, p8 + 32));
    }
    if !hash_eq(&computed, stored) {
        return Err(ArchiveError::HashMismatch("generation integrity_hash"));
    }
    let ghost r9 = reader.rest();
    let signature_type = match reader.read_u32_le() {
        Ok(x) => x,
        Err(e) => {
            return Err(ArchiveError::Io(e));
        },
    };
    let ghost r10 = reader.rest();
    let signature_size = match reader.read_u32_le() {
        Ok(x) => x,
        Err(e) => {
            return Err(ArchiveError::Io(e));
        },
    };
    proof {
        assert(r9 =~= s.subrange(p8 + 32, s.len() as int));
        assert(s.subrange(p8 + 32, p8 + 36) =~= r9.subrange(0, 4));
        assert(s.subrange(p8 + 36, p8 + 40) =~= r10.subrange(0, 4));
        assert(reader.rest() =~= s.subrange(p8 + 40, s.len() as int));
    }
    if signature_size > MAX_SIGNATURE_SIZE {
        return Err(ArchiveError::Format(String::from_str("implausible signature size")));
    }
    let sig_bytes = match reader.read_bytes(signature_size as usize) {
        Ok(x) => x,
        Err(e) => {
            return Err(ArchiveError::Io(e));
        },
    };
    let mut signature: Vec<u8> = Vec::new();
    write_all(&mut signature, sig_bytes);
    let ghost r11 = reader.rest();
    let suffix = match reader.read_u32_le() {
        Ok(x) => x,
        Err(e) => {
            return Err(ArchiveError::Io(e));
        },
    };
    proof {
        let q = p8 + 40 + signature_size;
        assert(signature@ =~= s.subrange(p8 + 40, q));
        assert(r11 =~= s.subrange(q, s.len() as int));
        assert(s.subrange(q, q + 4) =~= r11.subrange(0, 4));
        assert(reader.rest() =~= s.subrange(q + 4, s.len() as int));
    }
    if suffix != GENERATION_SUFFIX {
        return Err(ArchiveError::Format(String::from_str("bad generation suffix marker")));
    }
    match validate_directory_tree(dirs.as_slice()) {
        Ok(()) => {},
        Err(e) => {
            return Err(e);
        },
    }
    match validate_file_refs(files.as_slice(), dirs.len(), blobs.len()) {
        Ok(()) => {},
        Err(e) => {
            return Err(e);
        },
    }
    Ok(
        Generation {
            created_at,
            strings: StringTable::new(strings),
            blobs,
            dirs,
            files,
            data_sections,
            blob_hashes,
            previous_integrity_hash,
            integrity_hash: computed,
            signature_type,
            signature,
        },
    )
}


/// A string section as written is the one `string_section_bytes` names.
proof fn lemma_string_section_bytes(strs: Seq<Seq<char>>, bytes: Seq<u8>)
    requires
        string_section_encoding(strs, bytes),
    ensures
        bytes == string_section_bytes(strs),
{
    let c = choose|c: Seq<u8>|
        {
            &&& strings_encodable(strs)
            &&& c.len() <= u32::MAX
            &&& brotli_compressed(heap_of(strs)) == Some(c)
            &&& brotli_decompressed(c) == Some(heap_of(strs))
            &&& sha256_digest(string_section_body(strs, c)).len() == 32
            &&& #[trigger] string_section_body(strs, c) + sha256_digest(string_section_body(strs, c))
                == bytes
        };
}

/// A data section as written is the one `data_section_bytes` names.
proof fn lemma_data_section_bytes(p: PendingView, bytes: Seq<u8>)
    requires
        data_section_encoding(p.name_stridx, p.compression, p.raw, bytes),
    ensures
        bytes == data_section_bytes(p),
{
    let c = choose|c: Seq<u8>|
        {
            &&& data_payload(p.compression, p.raw) == Some(c)
            &&& c.len() <= u64::MAX
            &&& (p.compression == CompressionType::Brotli ==> brotli_decompressed(c) == Some(p.raw))
            &&& sha256_digest(data_section_body(p.name_stridx, p.compression, c)).len() == 32
            &&& #[trigger] data_section_body(p.name_stridx, p.compression, c) + sha256_digest(
                data_section_body(p.name_stridx, p.compression, c),
            ) == bytes
        };
}

/// Appends the data sections of `secs` to `buf`; on the first that cannot be
/// written, returns its error with `buf` as it was.
fn write_data_sections(buf: &mut Vec<u8>, secs: &[PendingDataSection]) -> (r: Result<(), IoError>)
    ensures
        ({
            let v = secs@.map_values(|d: PendingDataSection| d.view());
            match first_section_error(v) {
                Some(k) => r is Err && r->Err_0.kind == k && final(buf)@ == old(buf)@,
                None => r is Ok && final(buf)@ == old(buf)@ + sections_bytes(v) && forall|i: int|
                    0 <= i < v.len() ==> data_section_encoding(
                        v[i].name_stridx,
                        v[i].compression,
                        v[i].raw,
                        #[trigger] data_section_bytes(v[i]),
                    ),
            }
        }),
{
    let ghost v = secs@.map_values(|d: PendingDataSection| d.view());
    let ghost f = |p: PendingView| data_section_bytes(p);
    let ghost start = buf@;
    let mut tmp: Vec<u8> = Vec::new();
    let mut i: usize = 0;
    assert(v.subrange(0, 0) =~= Seq::<PendingView>::empty());
    while i < secs.len()
        invariant
            v == secs@.map_values(|d: PendingDataSection| d.view()),
            f == (|p: PendingView| data_section_bytes(p)),
            i <= secs@.len(),
            first_section_error(v.subrange(0, i as int)) is None,
            tmp@ == flat(v.subrange(0, i as int), f),
            forall|j: int|
                0 <= j < i ==> data_section_encoding(
                    v[j].name_stridx,
                    v[j].compression,
                    v[j].raw,
                    #[trigger] data_section_bytes(v[j]),
                ),
            buf@ == start,
        decreases secs@.len() - i,
    {
        let sec = &secs[i];
        let ghost before = tmp@;
        let ghost pre = v.subrange(0, i as int);
        let ghost next = v.subrange(0, i + 1);
        proof {
            assert(next.drop_last() =~= pre);
            assert(v[i as int] == sec.view());
        }
        match write_data_section(&mut tmp, sec.name_stridx, sec.compression, sec.raw.as_slice()) {
            Ok(_) => {},
            Err(e) => {
                proof {
                    lemma_first_error_extends(v, (i + 1) as int);
                }
                return Err(e);
            },
        }
        proof {
            let written = tmp@.subrange(before.len() as int, tmp@.len() as int);
            lemma_data_section_bytes(v[i as int], written);
            assert(tmp@ =~= before + written);
            lemma_flat_push(pre, v[i as int], f);
            assert(pre.push(v[i as int]) =~= next);
        }
        i += 1;
    }
    proof {
        assert(v.subrange(0, v.len() as int) =~= v);
    }
    write_all(buf, tmp.as_slice());
    Ok(())
}

/// Once a prefix of the sections has an error, the whole list has the same.
proof fn lemma_first_error_extends(v: Seq<PendingView>, n: int)
    requires
        0 <= n <= v.len(),
        first_section_error(v.subrange(0, n)) is Some,
    ensures
        first_section_error(v) == first_section_error(v.subrange(0, n)),
    decreases v.len() - n,
{
    if n < v.len() {
        assert(v.subrange(0, n + 1).drop_last() =~= v.subrange(0, n));
        lemma_first_error_extends(v, n + 1);
    } else {
        assert(v.subrange(0, n) =~= v);
    }
}

/// Appends the 32-byte hashes of `hs`.
fn write_hashes(buf: &mut Vec<u8>, hs: &[[u8; 32]])
    ensures
        final(buf)@ == old(buf)@ + hashes_bytes(hs@.map_values(|h: [u8; 32]| h@)),
{
    let ghost v = hs@.map_values(|h: [u8; 32]| h@);
    let ghost f = |h: Seq<u8>| h;
    let ghost start = buf@;
    let mut i: usize = 0;
    assert(v.subrange(0, 0) =~= Seq::<Seq<u8>>::empty());
    assert(buf@ =~= start + flat(v.subrange(0, 0), f));
    while i < hs.len()
        invariant
            v == hs@.map_values(|h: [u8; 32]| h@),
            f == (|h: Seq<u8>| h),
            i <= hs@.len(),
            buf@ == start + flat(v.subrange(0, i as int), f),
        decreases hs@.len() - i,
    {
        proof {
            lemma_flat_push(v.subrange(0, i as int), v[i as int], f);
            assert(v.subrange(0, i as int).push(v[i as int]) =~= v.subrange(0, i + 1));
        }
        write_all(buf, &hs[i]);
        assert(buf@ =~= start + flat(v.subrange(0, i + 1), f));
        i += 1;
    }
    assert(v.subrange(0, v.len() as int) =~= v);
}

/// Writes one generation record: the counts, the string section, the three
/// tables, the data sections, the blob hashes and the previous generation's
/// hash, then the SHA-256 of all that, the signature fields (Ed25519 over
/// that hash when a key is given) and the suffix marker. Fails, writing
/// nothing, when the string section or a data section cannot be written.
pub fn write_generation(writer: &mut Vec<u8>, input: &GenerationInput) -> (r: Result<
    GenerationOutput,
    IoError,
>)
    requires
        input.blobs@.len() == input.blob_hashes@.len(),
        input.files@.len() <= u32::MAX,
        input.dirs@.len() <= u32::MAX,
        input.blobs@.len() <= u32::MAX,
        input.data_sections@.len() <= u32::MAX,
    ensures
        match generation_error(input@) {
            Some(k) => r is Err && r->Err_0.kind == k && final(writer)@ == old(writer)@,
            None => r is Ok && final(writer)@ == old(writer)@ + generation_bytes(input@)
                && generation_written(input@) && r->Ok_0.integrity_hash@ == sha256_digest(
                generation_prefix(input@),
            ) && r->Ok_0.bytes_written == generation_bytes(input@).len(),
        },
{
    let ghost g = input@;
    let mut buf: Vec<u8> = Vec::new();
    buf.write_u64_le(input.created_at);
    buf.write_u32_le(input.files.len() as u32);
    buf.write_u32_le(input.dirs.len() as u32);
    buf.write_u32_le(input.blobs.len() as u32);
    let ghost b0 = buf@;
    match write_string_section(&mut buf, input.strings) {
        Ok(()) => {},
        Err(e) => {
            return Err(e);
        },
    }
    proof {
        let written = buf@.subrange(b0.len() as int, buf@.len() as int);
        lemma_string_section_bytes(g.strings, written);
        assert(buf@ =~= b0 + written);
    }
    write_blob_entries(&mut buf, input.blobs);
    write_directory_entries(&mut buf, input.dirs);
    write_file_entries(&mut buf, input.files);
    buf.write_u32_le(input.data_sections.len() as u32);
    match write_data_sections(&mut buf, input.data_sections) {
        Ok(()) => {},
        Err(e) => {
            return Err(e);
        },
    }
    write_hashes(&mut buf, input.blob_hashes);
    write_all(&mut buf, &input.previous_integrity_hash);
    proof {
        assert(buf@ =~= generation_prefix(g));
    }
    let integrity_hash = sha256(buf.as_slice());
    let ghost h = integrity_hash@;
    let start = writer.len();
    let ghost w0 = writer@;
    write_all(writer, buf.as_slice());
    write_all(writer, &integrity_hash);
    match input.signing_key {
        Some(key) => {
            let sig = sign_integrity_hash(key, &integrity_hash);
            writer.write_u32_le(1);
            writer.write_u32_le(SIGNATURE_SIZE as u32);
            write_all(writer, &sig);
        },
        None => {
            writer.write_u32_le(0);
            writer.write_u32_le(0);
        },
    }
    writer.write_u32_le(GENERATION_SUFFIX);
    proof {
        assert(writer@ =~= w0 + generation_bytes(g));
    }
    let bytes_written = writer.len() - start;
    Ok(GenerationOutput { integrity_hash, bytes_written })
}

} // verus!
