//! Encoding and decoding of the fixed-size generation records.

use vstd::prelude::*;
use crate::errors::IoError;
use crate::layout::{flat, lemma_flat_fixed, lemma_flat_push};
use crate::le::{le32, le64, lemma_le_roundtrip, u32_at, u64_at, ByteReader, ReadLeExt, WriteLeExt};
use crate::packed::{BlobEntry, DirectoryEntry, FileEntry};

verus! {

pub const BLOB_ENTRY_SIZE: usize = 20;

pub const DIRECTORY_ENTRY_SIZE: usize = 24;

pub const FILE_ENTRY_SIZE: usize = 28;

/// `u64 raw_size, u32 generation_idx, u32 section_idx, u32 section_blob_idx`.
pub open spec fn blob_entry_bytes(e: BlobEntry) -> Seq<u8> {
    le64(e.raw_size) + le32(e.generation_idx) + le32(e.section_idx) + le32(e.section_blob_idx)
}

/// `u32 parent_id, u32 name_stridx, u64 created_at, u64 modified_at`.
pub open spec fn directory_entry_bytes(e: DirectoryEntry) -> Seq<u8> {
    le32(e.parent_id) + le32(e.name_stridx) + le64(e.created_at) + le64(e.modified_at)
}

/// `u32 blob_idx, u32 dir_idx, u32 name_stridx, u64 created_at, u64 modified_at`.
pub open spec fn file_entry_bytes(e: FileEntry) -> Seq<u8> {
    le32(e.blob_idx) + le32(e.dir_idx) + le32(e.name_stridx) + le64(e.created_at) + le64(
        e.modified_at,
    )
}

pub open spec fn blob_entry_at(s: Seq<u8>, at: int) -> BlobEntry {
    BlobEntry {
        raw_size: u64_at(s, at),
        generation_idx: u32_at(s, at + 8),
        section_idx: u32_at(s, at + 12),
        section_blob_idx: u32_at(s, at + 16),
    }
}

pub open spec fn directory_entry_at(s: Seq<u8>, at: int) -> DirectoryEntry {
    DirectoryEntry {
        parent_id: u32_at(s, at),
        name_stridx: u32_at(s, at + 4),
        created_at: u64_at(s, at + 8),
        modified_at: u64_at(s, at + 16),
    }
}

pub open spec fn file_entry_at(s: Seq<u8>, at: int) -> FileEntry {
    FileEntry {
        blob_idx: u32_at(s, at),
        dir_idx: u32_at(s, at + 4),
        name_stridx: u32_at(s, at + 8),
        created_at: u64_at(s, at + 12),
        modified_at: u64_at(s, at + 20),
    }
}

pub open spec fn blob_entries_bytes(s: Seq<BlobEntry>) -> Seq<u8> {
    flat(s, |e: BlobEntry| blob_entry_bytes(e))
}

pub open spec fn directory_entries_bytes(s: Seq<DirectoryEntry>) -> Seq<u8> {
    flat(s, |e: DirectoryEntry| directory_entry_bytes(e))
}

pub open spec fn file_entries_bytes(s: Seq<FileEntry>) -> Seq<u8> {
    flat(s, |e: FileEntry| file_entry_bytes(e))
}

/// `n` blob records read from the front of `s`.
pub open spec fn blob_entries_at(s: Seq<u8>, n: int) -> Seq<BlobEntry> {
    Seq::new(n as nat, |i: int| blob_entry_at(s, 20 * i))
}

pub open spec fn directory_entries_at(s: Seq<u8>, n: int) -> Seq<DirectoryEntry> {
    Seq::new(n as nat, |i: int| directory_entry_at(s, 24 * i))
}

pub open spec fn file_entries_at(s: Seq<u8>, n: int) -> Seq<FileEntry> {
    Seq::new(n as nat, |i: int| file_entry_at(s, 28 * i))
}

pub proof fn lemma_entry_sizes()
    ensures
        forall|e: BlobEntry| #[trigger] blob_entry_bytes(e).len() == 20,
        forall|e: DirectoryEntry| #[trigger] directory_entry_bytes(e).len() == 24,
        forall|e: FileEntry| #[trigger] file_entry_bytes(e).len() == 28,
{
    lemma_le_roundtrip();
}

/// A blob record reads back from its bytes, whatever follows them.
pub proof fn lemma_blob_entry_roundtrip(e: BlobEntry, s: Seq<u8>, at: int)
    requires
        0 <= at,
        at + 20 <= s.len(),
        s.subrange(at, at + 20) == blob_entry_bytes(e),
    ensures
        blob_entry_at(s, at) == e,
{
    lemma_le_roundtrip();
    assert(le64(e.raw_size).len() == 8);
    assert(le32(e.generation_idx).len() == 4);
    assert(le32(e.section_idx).len() == 4);
    assert(le32(e.section_blob_idx).len() == 4);
    let b = blob_entry_bytes(e);
    assert(s.subrange(at, at + 8) =~= b.subrange(0, 8));
    assert(b.subrange(0, 8) =~= le64(e.raw_size));
    assert(blob_entry_bytes(e).subrange(8, 12) =~= le32(e.generation_idx));
    assert(s.subrange(at + 8, at + 12) =~= blob_entry_bytes(e).subrange(8, 12));
    assert(blob_entry_bytes(e).subrange(12, 16) =~= le32(e.section_idx));
    assert(s.subrange(at + 12, at + 16) =~= blob_entry_bytes(e).subrange(12, 16));
    assert(blob_entry_bytes(e).subrange(16, 20) =~= le32(e.section_blob_idx));
    assert(s.subrange(at + 16, at + 20) =~= blob_entry_bytes(e).subrange(16, 20));
    assert(le64(e.raw_size).subrange(0, 8) =~= le64(e.raw_size));
    assert(le32(e.generation_idx).subrange(0, 4) =~= le32(e.generation_idx));
    assert(le32(e.section_idx).subrange(0, 4) =~= le32(e.section_idx));
    assert(le32(e.section_blob_idx).subrange(0, 4) =~= le32(e.section_blob_idx));
}

pub proof fn lemma_directory_entry_roundtrip(e: DirectoryEntry, s: Seq<u8>, at: int)
    requires
        0 <= at,
        at + 24 <= s.len(),
        s.subrange(at, at + 24) == directory_entry_bytes(e),
    ensures
        directory_entry_at(s, at) == e,
{
    lemma_le_roundtrip();
    assert(le32(e.parent_id).len() == 4);
    assert(le32(e.name_stridx).len() == 4);
    assert(le64(e.created_at).len() == 8);
    assert(le64(e.modified_at).len() == 8);
    assert(directory_entry_bytes(e).subrange(0, 4) =~= le32(e.parent_id));
    assert(s.subrange(at + 0, at + 4) =~= directory_entry_bytes(e).subrange(0, 4));
    assert(directory_entry_bytes(e).subrange(4, 8) =~= le32(e.name_stridx));
    assert(s.subrange(at + 4, at + 8) =~= directory_entry_bytes(e).subrange(4, 8));
    assert(directory_entry_bytes(e).subrange(8, 16) =~= le64(e.created_at));
    assert(s.subrange(at + 8, at + 16) =~= directory_entry_bytes(e).subrange(8, 16));
    assert(directory_entry_bytes(e).subrange(16, 24) =~= le64(e.modified_at));
    assert(s.subrange(at + 16, at + 24) =~= directory_entry_bytes(e).subrange(16, 24));
    assert(le32(e.parent_id).subrange(0, 4) =~= le32(e.parent_id));
    assert(le32(e.name_stridx).subrange(0, 4) =~= le32(e.name_stridx));
    assert(le64(e.created_at).subrange(0, 8) =~= le64(e.created_at));
    assert(le64(e.modified_at).subrange(0, 8) =~= le64(e.modified_at));
}

pub proof fn lemma_file_entry_roundtrip(e: FileEntry, s: Seq<u8>, at: int)
    requires
        0 <= at,
        at + 28 <= s.len(),
        s.subrange(at, at + 28) == file_entry_bytes(e),
    ensures
        file_entry_at(s, at) == e,
{
    lemma_le_roundtrip();
    assert(le32(e.blob_idx).len() == 4);
    assert(le32(e.dir_idx).len() == 4);
    assert(le32(e.name_stridx).len() == 4);
    assert(le64(e.created_at).len() == 8);
    assert(le64(e.modified_at).len() == 8);
    assert(file_entry_bytes(e).subrange(0, 4) =~= le32(e.blob_idx));
    assert(s.subrange(at + 0, at + 4) =~= file_entry_bytes(e).subrange(0, 4));
    assert(file_entry_bytes(e).subrange(4, 8) =~= le32(e.dir_idx));
    assert(s.subrange(at + 4, at + 8) =~= file_entry_bytes(e).subrange(4, 8));
    assert(file_entry_bytes(e).subrange(8, 12) =~= le32(e.name_stridx));
    assert(s.subrange(at + 8, at + 12) =~= file_entry_bytes(e).subrange(8, 12));
    assert(file_entry_bytes(e).subrange(12, 20) =~= le64(e.created_at));
    assert(s.subrange(at + 12, at + 20) =~= file_entry_bytes(e).subrange(12, 20));
    assert(file_entry_bytes(e).subrange(20, 28) =~= le64(e.modified_at));
    assert(s.subrange(at + 20, at + 28) =~= file_entry_bytes(e).subrange(20, 28));
    assert(le32(e.blob_idx).subrange(0, 4) =~= le32(e.blob_idx));
    assert(le32(e.dir_idx).subrange(0, 4) =~= le32(e.dir_idx));
    assert(le32(e.name_stridx).subrange(0, 4) =~= le32(e.name_stridx));
    assert(le64(e.created_at).subrange(0, 8) =~= le64(e.created_at));
    assert(le64(e.modified_at).subrange(0, 8) =~= le64(e.modified_at));
}

/// Blob records read back from their encoding, whatever follows it.
pub proof fn lemma_blob_entries_roundtrip(es: Seq<BlobEntry>, rest: Seq<u8>)
    ensures
        blob_entries_bytes(es).len() == es.len() * 20,
        blob_entries_at(blob_entries_bytes(es) + rest, es.len() as int) == es,
{
    let f = |e: BlobEntry| blob_entry_bytes(e);
    lemma_entry_sizes();
    lemma_flat_fixed(es, f, 20);
    let s = blob_entries_bytes(es) + rest;
    assert forall|i: int| 0 <= i < es.len() implies #[trigger] blob_entry_at(s, 20 * i) == es[i] by {
        assert(flat(es, f).subrange(i * 20, i * 20 + 20) == f(es[i]));
        assert(s.subrange(20 * i, 20 * i + 20) =~= flat(es, f).subrange(i * 20, i * 20 + 20));
        lemma_blob_entry_roundtrip(es[i], s, 20 * i);
    }
    assert(blob_entries_at(s, es.len() as int) =~= es);
}

pub proof fn lemma_directory_entries_roundtrip(es: Seq<DirectoryEntry>, rest: Seq<u8>)
    ensures
        directory_entries_bytes(es).len() == es.len() * 24,
        directory_entries_at(directory_entries_bytes(es) + rest, es.len() as int) == es,
{
    let f = |e: DirectoryEntry| directory_entry_bytes(e);
    lemma_entry_sizes();
    lemma_flat_fixed(es, f, 24);
    let s = directory_entries_bytes(es) + rest;
    assert forall|i: int| 0 <= i < es.len() implies #[trigger] directory_entry_at(s, 24 * i)
        == es[i] by {
        assert(flat(es, f).subrange(i * 24, i * 24 + 24) == f(es[i]));
        assert(s.subrange(24 * i, 24 * i + 24) =~= flat(es, f).subrange(i * 24, i * 24 + 24));
        lemma_directory_entry_roundtrip(es[i], s, 24 * i);
    }
    assert(directory_entries_at(s, es.len() as int) =~= es);
}

pub proof fn lemma_file_entries_roundtrip(es: Seq<FileEntry>, rest: Seq<u8>)
    ensures
        file_entries_bytes(es).len() == es.len() * 28,
        file_entries_at(file_entries_bytes(es) + rest, es.len() as int) == es,
{
    let f = |e: FileEntry| file_entry_bytes(e);
    lemma_entry_sizes();
    lemma_flat_fixed(es, f, 28);
    let s = file_entries_bytes(es) + rest;
    assert forall|i: int| 0 <= i < es.len() implies #[trigger] file_entry_at(s, 28 * i) == es[i] by {
        assert(flat(es, f).subrange(i * 28, i * 28 + 28) == f(es[i]));
        assert(s.subrange(28 * i, 28 * i + 28) =~= flat(es, f).subrange(i * 28, i * 28 + 28));
        lemma_file_entry_roundtrip(es[i], s, 28 * i);
    }
    assert(file_entries_at(s, es.len() as int) =~= es);
}

/// Writes the 20-byte blob record.
pub fn write_blob_entry(w: &mut Vec<u8>, e: &BlobEntry)
    ensures
        final(w)@ == old(w)@ + blob_entry_bytes(*e),
{
    let ghost start = w@;
    w.write_u64_le(e.raw_size);
    w.write_u32_le(e.generation_idx);
    w.write_u32_le(e.section_idx);
    w.write_u32_le(e.section_blob_idx);
    assert(w@ =~= start + blob_entry_bytes(*e));
}

/// Writes the 24-byte directory record.
pub fn write_directory_entry(w: &mut Vec<u8>, e: &DirectoryEntry)
    ensures
        final(w)@ == old(w)@ + directory_entry_bytes(*e),
{
    let ghost start = w@;
    w.write_u32_le(e.parent_id);
    w.write_u32_le(e.name_stridx);
    w.write_u64_le(e.created_at);
    w.write_u64_le(e.modified_at);
    assert(w@ =~= start + directory_entry_bytes(*e));
}

/// Writes the 28-byte file record.
pub fn write_file_entry(w: &mut Vec<u8>, e: &FileEntry)
    ensures
        final(w)@ == old(w)@ + file_entry_bytes(*e),
{
    let ghost start = w@;
    w.write_u32_le(e.blob_idx);
    w.write_u32_le(e.dir_idx);
    w.write_u32_le(e.name_stridx);
    w.write_u64_le(e.created_at);
    w.write_u64_le(e.modified_at);
    assert(w@ =~= start + file_entry_bytes(*e));
}

pub fn write_blob_entries(w: &mut Vec<u8>, es: &[BlobEntry])
    ensures
        final(w)@ == old(w)@ + blob_entries_bytes(es@),
{
    let ghost start = w@;
    let mut i: usize = 0;
    while i < es.len()
        invariant
            i <= es@.len(),
            w@ == start + blob_entries_bytes(es@.subrange(0, i as int)),
        decreases es@.len() - i,
    {
        proof {
            lemma_flat_push(es@.subrange(0, i as int), es@[i as int], |e: BlobEntry| blob_entry_bytes(e));
            assert(es@.subrange(0, i as int).push(es@[i as int]) =~= es@.subrange(0, i + 1));
        }
        write_blob_entry(w, &es[i]);
        i += 1;
    }
    assert(es@.subrange(0, es@.len() as int) =~= es@);
}

pub fn write_directory_entries(w: &mut Vec<u8>, es: &[DirectoryEntry])
    ensures
        final(w)@ == old(w)@ + directory_entries_bytes(es@),
{
    let ghost start = w@;
    let mut i: usize = 0;
    while i < es.len()
        invariant
            i <= es@.len(),
            w@ == start + directory_entries_bytes(es@.subrange(0, i as int)),
        decreases es@.len() - i,
    {
        proof {
            lemma_flat_push(es@.subrange(0, i as int), es@[i as int], |e: DirectoryEntry| directory_entry_bytes(e));
            assert(es@.subrange(0, i as int).push(es@[i as int]) =~= es@.subrange(0, i + 1));
        }
        write_directory_entry(w, &es[i]);
        i += 1;
    }
    assert(es@.subrange(0, es@.len() as int) =~= es@);
}

pub fn write_file_entries(w: &mut Vec<u8>, es: &[FileEntry])
    ensures
        final(w)@ == old(w)@ + file_entries_bytes(es@),
{
    let ghost start = w@;
    let mut i: usize = 0;
    while i < es.len()
        invariant
            i <= es@.len(),
            w@ == start + file_entries_bytes(es@.subrange(0, i as int)),
        decreases es@.len() - i,
    {
        proof {
            lemma_flat_push(es@.subrange(0, i as int), es@[i as int], |e: FileEntry| file_entry_bytes(e));
            assert(es@.subrange(0, i as int).push(es@[i as int]) =~= es@.subrange(0, i + 1));
        }
        write_file_entry(w, &es[i]);
        i += 1;
    }
    assert(es@.subrange(0, es@.len() as int) =~= es@);
}

/// Reads one blob record; `UnexpectedEof` when fewer than 20 bytes remain.
pub fn read_blob_entry(r: &mut ByteReader) -> (res: Result<BlobEntry, IoError>)
    requires
        old(r).wf(),
    ensures
        final(r).wf(),
        final(r).data() == old(r).data(),
        old(r).rest().len() >= 20 ==> res == Ok::<BlobEntry, IoError>(blob_entry_at(old(r).rest(), 0))
            && final(r).rest() == old(r).rest().subrange(20, old(r).rest().len() as int),
        old(r).rest().len() < 20 ==> res is Err && res->Err_0.kind == crate::errors::IoErrorKind::UnexpectedEof,
{
    let b = r.read_bytes(20)?;
    let raw_size = vstd::bytes::u64_from_le_bytes(&b[0..8]);
    let generation_idx = vstd::bytes::u32_from_le_bytes(&b[8..12]);
    let section_idx = vstd::bytes::u32_from_le_bytes(&b[12..16]);
    let section_blob_idx = vstd::bytes::u32_from_le_bytes(&b[16..20]);
    proof {
        let s = old(r).rest();
        assert(b@.subrange(0, 8) =~= s.subrange(0, 8));
        assert(b@.subrange(8, 12) =~= s.subrange(8, 12));
        assert(b@.subrange(12, 16) =~= s.subrange(12, 16));
        assert(b@.subrange(16, 20) =~= s.subrange(16, 20));
    }
    Ok(BlobEntry { raw_size, generation_idx, section_idx, section_blob_idx })
}

/// Reads one directory record; `UnexpectedEof` when fewer than 24 bytes remain.
pub fn read_directory_entry(r: &mut ByteReader) -> (res: Result<DirectoryEntry, IoError>)
    requires
        old(r).wf(),
    ensures
        final(r).wf(),
        final(r).data() == old(r).data(),
        old(r).rest().len() >= 24 ==> res == Ok::<DirectoryEntry, IoError>(directory_entry_at(old(r).rest(), 0))
            && final(r).rest() == old(r).rest().subrange(24, old(r).rest().len() as int),
        old(r).rest().len() < 24 ==> res is Err && res->Err_0.kind == crate::errors::IoErrorKind::UnexpectedEof,
{
    let b = r.read_bytes(24)?;
    let parent_id = vstd::bytes::u32_from_le_bytes(&b[0..4]);
    let name_stridx = vstd::bytes::u32_from_le_bytes(&b[4..8]);
    let created_at = vstd::bytes::u64_from_le_bytes(&b[8..16]);
    let modified_at = vstd::bytes::u64_from_le_bytes(&b[16..24]);
    proof {
        let s = old(r).rest();
        assert(b@.subrange(0, 4) =~= s.subrange(0, 4));
        assert(b@.subrange(4, 8) =~= s.subrange(4, 8));
        assert(b@.subrange(8, 16) =~= s.subrange(8, 16));
        assert(b@.subrange(16, 24) =~= s.subrange(16, 24));
    }
    Ok(DirectoryEntry { parent_id, name_stridx, created_at, modified_at })
}

/// Reads one file record; `UnexpectedEof` when fewer than 28 bytes remain.
pub fn read_file_entry(r: &mut ByteReader) -> (res: Result<FileEntry, IoError>)
    requires
        old(r).wf(),
    ensures
        final(r).wf(),
        final(r).data() == old(r).data(),
        old(r).rest().len() >= 28 ==> res == Ok::<FileEntry, IoError>(file_entry_at(old(r).rest(), 0))
            && final(r).rest() == old(r).rest().subrange(28, old(r).rest().len() as int),
        old(r).rest().len() < 28 ==> res is Err && res->Err_0.kind == crate::errors::IoErrorKind::UnexpectedEof,
{
    let b = r.read_bytes(28)?;
    let blob_idx = vstd::bytes::u32_from_le_bytes(&b[0..4]);
    let dir_idx = vstd::bytes::u32_from_le_bytes(&b[4..8]);
    let name_stridx = vstd::bytes::u32_from_le_bytes(&b[8..12]);
    let created_at = vstd::bytes::u64_from_le_bytes(&b[12..20]);
    let modified_at = vstd::bytes::u64_from_le_bytes(&b[20..28]);
    proof {
        let s = old(r).rest();
        assert(b@.subrange(0, 4) =~= s.subrange(0, 4));
        assert(b@.subrange(4, 8) =~= s.subrange(4, 8));
        assert(b@.subrange(8, 12) =~= s.subrange(8, 12));
        assert(b@.subrange(12, 20) =~= s.subrange(12, 20));
        assert(b@.subrange(20, 28) =~= s.subrange(20, 28));
    }
    Ok(FileEntry { blob_idx, dir_idx, name_stridx, created_at, modified_at })
}

} // verus!
