//! An open archive: the header and every generation's metadata, with the
//! hash chain between generations checked.
//!
//! ```text
//! MAGIC[4]  u16 version  u16 flags  u8 reserved[8]
//! Generation generations[..]   // up to the end of the archive
//! ```

use vstd::prelude::*;
use crate::constants::{MAGIC, VERSION, ZERO_HASH};
use crate::errors::{ArchiveError, IoError, IoErrorKind};
use crate::generation::{
    error_matches, parse_generation, read_generation, GenError, Generation, GenerationView,
};
use crate::le::{le16, u16_at, write_all, ByteReader, ReadLeExt, WriteLeExt};
use crate::packed::BlobEntry;
use crate::progress::{Monitor, NoMonitor, Phase, Progress};
use crate::strsection::hash_eq;
use crate::text::{decimal, decimal_spec};

verus! {

/// The header is always 16 bytes.
pub const HEADER_SIZE: usize = 16;

/// The header written for `flags`.
pub open spec fn header_bytes(flags: u16) -> Seq<u8> {
    MAGIC@ + le16(VERSION) + le16(flags) + Seq::new(8, |i: int| 0u8)
}

/// Writes the archive header: the magic bytes, the version, `flags` and
/// eight reserved zero bytes.
pub fn write_header(out: &mut Vec<u8>, flags: u16)
    ensures
        final(out)@ == old(out)@ + header_bytes(flags),
{
    let ghost start = out@;
    write_all(out, &MAGIC);
    out.write_u16_le(VERSION);
    out.write_u16_le(flags);
    let reserved = [0u8; 8];
    write_all(out, &reserved);
    assert(reserved@ =~= Seq::new(8, |i: int| 0u8));
    assert(out@ =~= start + header_bytes(flags));
}

/// What an archive holds, as a value.
pub struct ArchiveView {
    pub version: u16,
    pub flags: u16,
    pub generations: Seq<GenerationView>,
}

/// `prefix` put in front of a successful parse.
pub open spec fn prepend(
    prefix: Seq<GenerationView>,
    r: Result<Seq<GenerationView>, GenError>,
) -> Result<Seq<GenerationView>, GenError> {
    match r {
        Ok(gens) => Ok(prefix + gens),
        Err(e) => Err(e),
    }
}

/// The generations of `s`, read one after another to its end: each must
/// name `prev`, the integrity hash of the one before it, as its previous
/// hash. `count` generations were read before `s`.
pub open spec fn parse_chain(s: Seq<u8>, prev: Seq<u8>, count: nat) -> Result<
    Seq<GenerationView>,
    GenError,
>
    decreases s.len(),
{
    if s.len() == 0 {
        Ok(Seq::empty())
    } else if count > u32::MAX {
        Err(GenError::Format("too many generations"@))
    } else {
        match parse_generation(s) {
            Err(g) => Err(g),
            Ok((v, len)) => {
                proof {
                    crate::generation::lemma_parse_bounds(s);
                }
                if v.previous_integrity_hash != prev {
                    Err(GenError::HashMismatch("generation hash chain"@))
                } else {
                    prepend(seq![v], parse_chain(s.subrange(len, s.len() as int), v.integrity_hash, count + 1))
                }
            },
        }
    }
}

/// The message for an archive of another format version.
pub open spec fn version_message(version: u16) -> Seq<char> {
    "unsupported archive version "@ + decimal_spec(version as nat) + " (this build reads version "@
        + decimal_spec(VERSION as nat) + ")"@
}

/// Parsing a whole archive: the header, then generations up to the end, of
/// which there must be at least one.
pub open spec fn parse_archive(s: Seq<u8>) -> Result<ArchiveView, GenError> {
    if s.len() < 4 {
        Err(GenError::Io(IoErrorKind::UnexpectedEof))
    } else if s.subrange(0, 4) != MAGIC@ {
        Err(GenError::Format("not a BPFS archive"@))
    } else if s.len() < 6 {
        Err(GenError::Io(IoErrorKind::UnexpectedEof))
    } else if u16_at(s, 4) != VERSION {
        Err(GenError::Format(version_message(u16_at(s, 4))))
    } else if s.len() < 16 {
        Err(GenError::Io(IoErrorKind::UnexpectedEof))
    } else {
        match parse_chain(s.subrange(16, s.len() as int), ZERO_HASH@, 0) {
            Err(g) => Err(g),
            Ok(gens) => if gens.len() == 0 {
                Err(GenError::Format("archive contains no generations"@))
            } else {
                Ok(ArchiveView { version: u16_at(s, 4), flags: u16_at(s, 6), generations: gens })
            },
        }
    }
}

/// The generations a chain parses to are linked: the first names `prev`,
/// each later one the integrity hash of the one before it.
proof fn lemma_chain_links(s: Seq<u8>, prev: Seq<u8>, count: nat)
    requires
        parse_chain(s, prev, count) is Ok,
    ensures
        ({
            let gens = parse_chain(s, prev, count)->Ok_0;
            &&& gens.len() > 0 ==> gens[0].previous_integrity_hash == prev
            &&& forall|i: int|
                0 < i < gens.len() ==> #[trigger] gens[i].previous_integrity_hash == gens[i
                    - 1].integrity_hash
        }),
    decreases s.len(),
{
    if s.len() > 0 {
        crate::generation::lemma_parse_bounds(s);
        let (v, len) = parse_generation(s)->Ok_0;
        let rest = s.subrange(len, s.len() as int);
        lemma_chain_links(rest, v.integrity_hash, count + 1);
        let tail = parse_chain(rest, v.integrity_hash, count + 1)->Ok_0;
        let gens = parse_chain(s, prev, count)->Ok_0;
        assert(gens == seq![v] + tail);
        assert forall|i: int| 0 < i < gens.len() implies #[trigger] gens[i].previous_integrity_hash
            == gens[i - 1].integrity_hash by {
            assert(gens[i] == tail[i - 1]);
            if i > 1 {
                assert(gens[i - 1] == tail[i - 2]);
            }
        }
    }
}

/// Every archive that opens has the format version this library reads, at
/// least one generation, a first generation that names the zero hash as its
/// predecessor, and every later generation naming the integrity hash of the
/// one before it.
pub proof fn lemma_opened_archive_is_chained(s: Seq<u8>)
    requires
        parse_archive(s) is Ok,
    ensures
        ({
            let a = parse_archive(s)->Ok_0;
            &&& a.version == VERSION
            &&& a.generations.len() > 0
            &&& a.generations[0].previous_integrity_hash == ZERO_HASH@
            &&& forall|i: int|
                0 < i < a.generations.len() ==> #[trigger] a.generations[i].previous_integrity_hash
                    == a.generations[i - 1].integrity_hash
        }),
{
    lemma_chain_links(s.subrange(16, s.len() as int), ZERO_HASH@, 0);
}

/// An open archive: every generation's metadata and decoded data in memory.
pub struct Archive {
    pub version: u16,
    pub flags: u16,
    pub generations: Vec<Generation>,
}

impl Archive {
    pub open spec fn view(&self) -> ArchiveView {
        ArchiveView {
            version: self.version,
            flags: self.flags,
            generations: self.generations@.map_values(|g: Generation| g.view()),
        }
    }

    /// The newest generation: the current state of the backed-up tree.
    pub fn latest(&self) -> (g: &Generation)
        requires
            self.generations@.len() > 0,
        ensures
            g.view() == self.view().generations.last(),
    {
        &self.generations[self.generations.len() - 1]
    }
}

/// `r` is what parsing says: the archive it describes, or an error of the
/// kind it names.
pub open spec fn opened_as(r: Result<Archive, ArchiveError>, p: Result<ArchiveView, GenError>) -> bool {
    match p {
        Ok(v) => r is Ok && r->Ok_0.view() == v,
        Err(g) => r is Err && error_matches(r->Err_0, g),
    }
}

/// `r` is the error a cancelled operation stops with.
pub open spec fn interrupted<T>(r: Result<T, ArchiveError>) -> bool {
    r matches Err(ArchiveError::Io(e)) && e.kind == IoErrorKind::Interrupted
}

proof fn lemma_prepend_empty(r: Result<Seq<GenerationView>, GenError>)
    ensures
        prepend(Seq::empty(), r) == r,
{
    if r is Ok {
        assert(Seq::<GenerationView>::empty() + r->Ok_0 =~= r->Ok_0);
    }
}

proof fn lemma_prepend_push(p: Seq<GenerationView>, v: GenerationView, r: Result<Seq<GenerationView>, GenError>)
    ensures
        prepend(p, prepend(seq![v], r)) == prepend(p.push(v), r),
{
    if r is Ok {
        assert(p + (seq![v] + r->Ok_0) =~= p.push(v) + r->Ok_0);
    }
}

fn open_archive<M: Monitor>(data: &[u8], monitor: Option<&M>) -> (r: Result<Archive, ArchiveError>)
    ensures
        opened_as(r, parse_archive(data@)) || (monitor matches Some(m) && interrupted(r) && call_ensures(
            M::is_cancelled,
            (m,),
            true,
        )),
{
    let ghost s = data@;
    let mut reader = ByteReader::new(data);
    let magic = match reader.read_bytes(4) {
        Ok(m) => m,
        Err(e) => {
            return Err(ArchiveError::Io(e));
        },
    };
    if !hash_eq(magic, &MAGIC) {
        return Err(ArchiveError::Format(String::from_str("not a BPFS archive")));
    }
    let ghost r4 = reader.rest();
    let version = match reader.read_u16_le() {
        Ok(v) => v,
        Err(e) => {
            return Err(ArchiveError::Io(e));
        },
    };
    proof {
        assert(r4 =~= s.subrange(4, s.len() as int));
        assert(s.subrange(4, 6) =~= r4.subrange(0, 2));
    }
    if version != VERSION {
        let msg = String::from_str("unsupported archive version ").concat(
            decimal(version as u64).as_str(),
        ).concat(" (this build reads version ").concat(decimal(VERSION as u64).as_str()).concat(")");
        assert(msg@ =~= version_message(version));
        return Err(ArchiveError::Format(msg));
    }
    let ghost r6 = reader.rest();
    let flags = match reader.read_u16_le() {
        Ok(v) => v,
        Err(e) => {
            return Err(ArchiveError::Io(e));
        },
    };
    proof {
        assert(r6 =~= s.subrange(6, s.len() as int));
        assert(s.subrange(6, 8) =~= r6.subrange(0, 2));
    }
    match reader.read_bytes(8) {
        Ok(_) => {},
        Err(e) => {
            return Err(ArchiveError::Io(e));
        },
    }
    let ghost s16 = s.subrange(16, s.len() as int);
    proof {
        assert(reader.rest() =~= s16);
        lemma_prepend_empty(parse_chain(s16, ZERO_HASH@, 0));
        assert(Seq::<Generation>::empty().map_values(|g: Generation| g.view()) =~= Seq::<GenerationView>::empty());
    }
    let total = data.len();
    let mut generations: Vec<Generation> = Vec::new();
    let mut expected_previous: [u8; 32] = ZERO_HASH;
    while !reader.is_at_end()
        invariant
            reader.wf(),
            reader.data() == s,
            s == data@,
            s.len() == total,
            s16 == s.subrange(16, s.len() as int),
            s.len() >= 16,
            s.subrange(0, 4) == MAGIC@,
            u16_at(s, 4) == VERSION,
            version == u16_at(s, 4),
            flags == u16_at(s, 6),
            parse_chain(s16, ZERO_HASH@, 0) == prepend(
                generations@.map_values(|g: Generation| g.view()),
                parse_chain(reader.rest(), expected_previous@, generations@.len()),
            ),
        decreases reader.rest().len(),
    {
        if let Some(m) = monitor {
            match m.checkpoint() {
                Ok(()) => {},
                Err(e) => {
                    return Err(ArchiveError::Io(e));
                },
            }
            let pos = reader.position();
            m.progress(Progress { phase: Phase::Opening, done: pos as u64, total: total as u64, item: None });
        }
        let ghost rest = reader.rest();
        let ghost count = generations@.len();
        let ghost before = generations@.map_values(|g: Generation| g.view());
        if generations.len() > 0xFFFF_FFFFusize {
            proof {
                assert(parse_chain(rest, expected_previous@, count) == Err::<Seq<GenerationView>, GenError>(GenError::Format("too many generations"@)));
                assert(parse_chain(s16, ZERO_HASH@, 0) == Err::<Seq<GenerationView>, GenError>(GenError::Format("too many generations"@)));
                assert(parse_archive(s) == Err::<ArchiveView, GenError>(GenError::Format("too many generations"@)));
            }
            return Err(ArchiveError::Format(String::from_str("too many generations")));
        }
        let gen = match read_generation(&mut reader) {
            Ok(g) => g,
            Err(e) => {
                proof {
                    let g = parse_generation(rest)->Err_0;
                    assert(parse_chain(rest, expected_previous@, count) == Err::<Seq<GenerationView>, GenError>(g));
                    assert(parse_chain(s16, ZERO_HASH@, 0) == Err::<Seq<GenerationView>, GenError>(g));
                    assert(parse_archive(s) == Err::<ArchiveView, GenError>(g));
                }
                return Err(e);
            },
        };
        proof {
            crate::generation::lemma_parse_bounds(rest);
        }
        if !hash_eq(&gen.previous_integrity_hash, &expected_previous) {
            proof {
                assert(parse_chain(rest, expected_previous@, count) == Err::<Seq<GenerationView>, GenError>(GenError::HashMismatch("generation hash chain"@)));
                assert(parse_chain(s16, ZERO_HASH@, 0) == Err::<Seq<GenerationView>, GenError>(GenError::HashMismatch("generation hash chain"@)));
                assert(parse_archive(s) == Err::<ArchiveView, GenError>(GenError::HashMismatch("generation hash chain"@)));
            }
            return Err(ArchiveError::HashMismatch("generation hash chain"));
        }
        let ghost v = gen.view();
        expected_previous = gen.integrity_hash;
        generations.push(gen);
        proof {
            lemma_prepend_push(before, v, parse_chain(reader.rest(), expected_previous@, count + 1));
            assert(generations@.map_values(|g: Generation| g.view()) =~= before.push(v));
        }
    }
    if generations.len() == 0 {
        return Err(ArchiveError::Format(String::from_str("archive contains no generations")));
    }
    proof {
        assert(generations@.map_values(|g: Generation| g.view()) + Seq::<GenerationView>::empty()
            =~= generations@.map_values(|g: Generation| g.view()));
    }
    Ok(Archive { version, flags, generations })
}

/// Opens an archive held in memory: parses the header and every
/// generation's metadata up to the end, and checks the recorded hash chain.
/// Errors: a truncated archive is `Io`; a wrong magic, another version, an
/// archive without generations or a generation that fails its structural
/// checks is `Format` (or `IndexOutOfBounds`); a broken integrity hash or
/// hash chain is `HashMismatch`.
pub fn read_archive(data: &[u8]) -> (r: Result<Archive, ArchiveError>)
    ensures
        opened_as(r, parse_archive(data@)),
{
    open_archive::<NoMonitor>(data, None)
}

/// Like [`read_archive`], reporting each generation opened to `monitor` and
/// stopping with an `Interrupted` error once it is cancelled.
pub fn read_archive_with_monitor<M: Monitor>(data: &[u8], monitor: &M) -> (r: Result<Archive, ArchiveError>)
    ensures
        opened_as(r, parse_archive(data@)) || (interrupted(r) && call_ensures(
            M::is_cancelled,
            (monitor,),
            true,
        )),
{
    open_archive(data, Some(monitor))
}


/// Blob `b` is the one generation `g` stores in its section `s` at position `k`.
pub open spec fn stores(b: BlobEntry, g: u32, s: u32, k: u32) -> bool {
    b.generation_idx == g && b.section_idx == s && b.section_blob_idx == k
}

/// The index of the first blob of `blobs` that generation `g` stores in
/// section `s` at position `k`.
pub open spec fn first_stored(blobs: Seq<BlobEntry>, g: u32, s: u32, k: u32) -> Option<int>
    decreases blobs.len(),
{
    if blobs.len() == 0 {
        None
    } else {
        match first_stored(blobs.drop_last(), g, s, k) {
            Some(j) => Some(j),
            None => if stores(blobs.last(), g, s, k) {
                Some(blobs.len() - 1)
            } else {
                None
            },
        }
    }
}

/// How many bytes generation `g` stores in section `s` ahead of position
/// `k`: a section holds its blobs one after another, in position order.
pub open spec fn bytes_before(blobs: Seq<BlobEntry>, g: u32, s: u32, k: u32) -> int
    decreases blobs.len(),
{
    if blobs.len() == 0 {
        0
    } else {
        let b = blobs.last();
        bytes_before(blobs.drop_last(), g, s, k) + if b.generation_idx == g && b.section_idx == s
            && b.section_blob_idx < k {
            b.raw_size as int
        } else {
            0
        }
    }
}

/// What is wrong with the reference `blob`, if anything: the generation it
/// names must exist and store a blob at the place it names, of the same size.
pub open spec fn blob_ref_error(a: ArchiveView, blob: BlobEntry) -> Option<GenError> {
    let gi = blob.generation_idx;
    if gi >= a.generations.len() {
        Some(GenError::IndexOutOfBounds("BlobEntry.generation_idx"@))
    } else {
        let owner = a.generations[gi as int];
        match first_stored(owner.blobs, gi, blob.section_idx, blob.section_blob_idx) {
            None => Some(GenError::Format("blob not found in its generation"@)),
            Some(j) => if owner.blobs[j].raw_size != blob.raw_size {
                Some(GenError::Format("inconsistent blob reference"@))
            } else {
                None
            },
        }
    }
}

/// The raw bytes of the data section `blob` names, in the generation it
/// names; empty when there is no such section.
pub open spec fn section_of(a: ArchiveView, blob: BlobEntry) -> Seq<u8> {
    let owner = a.generations[blob.generation_idx as int];
    if blob.section_idx < owner.data_sections.len() {
        owner.data_sections[blob.section_idx as int].data
    } else {
        Seq::empty()
    }
}

/// Where the bytes of `blob` start in its section: its generation's blobs
/// are stored one after another, in position order.
pub open spec fn offset_of(a: ArchiveView, blob: BlobEntry) -> int {
    bytes_before(
        a.generations[blob.generation_idx as int].blobs,
        blob.generation_idx,
        blob.section_idx,
        blob.section_blob_idx,
    )
}

/// The bytes of `blob`, read from the generation that stores them, after
/// the reference checks of `blob_ref_error`. An empty blob reads as empty;
/// any other must lie wholly inside its section, or reading it fails with
/// `InvalidData`.
pub open spec fn blob_bytes(a: ArchiveView, blob: BlobEntry) -> Result<Seq<u8>, GenError> {
    match blob_ref_error(a, blob) {
        Some(g) => Err(g),
        None => {
            let data = section_of(a, blob);
            let off = offset_of(a, blob);
            if blob.raw_size == 0 {
                Ok(Seq::empty())
            } else if off + blob.raw_size > data.len() {
                Err(GenError::Io(IoErrorKind::InvalidData))
            } else {
                Ok(data.subrange(off, off + blob.raw_size))
            }
        },
    }
}

proof fn lemma_first_stored_prefix(blobs: Seq<BlobEntry>, g: u32, s: u32, k: u32, i: int)
    requires
        0 <= i < blobs.len(),
    ensures
        first_stored(blobs.subrange(0, i + 1), g, s, k) == match first_stored(
            blobs.subrange(0, i),
            g,
            s,
            k,
        ) {
            Some(j) => Some(j),
            None => if stores(blobs[i], g, s, k) {
                Some(i)
            } else {
                None
            },
        },
        bytes_before(blobs.subrange(0, i + 1), g, s, k) == bytes_before(blobs.subrange(0, i), g, s, k)
            + if blobs[i].generation_idx == g && blobs[i].section_idx == s
            && blobs[i].section_blob_idx < k {
            blobs[i].raw_size as int
        } else {
            0
        },
{
    assert(blobs.subrange(0, i + 1).drop_last() =~= blobs.subrange(0, i));
}

proof fn lemma_first_stored_some(blobs: Seq<BlobEntry>, g: u32, s: u32, k: u32)
    ensures
        first_stored(blobs, g, s, k) matches Some(j) ==> 0 <= j < blobs.len() && stores(
            blobs[j],
            g,
            s,
            k,
        ),
    decreases blobs.len(),
{
    if blobs.len() > 0 {
        lemma_first_stored_some(blobs.drop_last(), g, s, k);
    }
}

proof fn lemma_bytes_before_grows(blobs: Seq<BlobEntry>, g: u32, s: u32, k: u32, i: int)
    requires
        0 <= i <= blobs.len(),
    ensures
        0 <= bytes_before(blobs.subrange(0, i), g, s, k) <= bytes_before(blobs, g, s, k),
    decreases blobs.len() - i,
{
    if i < blobs.len() {
        lemma_first_stored_prefix(blobs, g, s, k, i);
        lemma_bytes_before_grows(blobs, g, s, k, i + 1);
        lemma_bytes_before_nonneg(blobs.subrange(0, i), g, s, k);
    } else {
        assert(blobs.subrange(0, i) =~= blobs);
        lemma_bytes_before_nonneg(blobs, g, s, k);
    }
}

proof fn lemma_bytes_before_nonneg(blobs: Seq<BlobEntry>, g: u32, s: u32, k: u32)
    ensures
        bytes_before(blobs, g, s, k) >= 0,
    decreases blobs.len(),
{
    if blobs.len() > 0 {
        lemma_bytes_before_nonneg(blobs.drop_last(), g, s, k);
    }
}

/// Streams one blob's bytes out of its section.
pub struct BlobReader<'a> {
    section: &'a [u8],
    pos: u64,
    remaining: u64,
}

impl<'a> BlobReader<'a> {
    /// How many bytes of the blob are still to be read.
    pub closed spec fn left(&self) -> nat {
        self.remaining as nat
    }

    /// What reading the rest gives: the bytes still to be read, or `None`
    /// when they run past the section, so that reading fails on the way.
    pub closed spec fn outcome(&self) -> Option<Seq<u8>> {
        if self.remaining == 0 {
            Some(Seq::empty())
        } else if self.pos + self.remaining <= self.section@.len() {
            Some(self.section@.subrange(self.pos as int, self.pos + self.remaining))
        } else {
            None
        }
    }

    pub fn remaining(&self) -> (n: u64)
        ensures
            n == self.left(),
    {
        self.remaining
    }

    /// The next at most `max` bytes: empty once the blob is exhausted (or for
    /// `max` 0), otherwise at least one byte. Reading where the section has no
    /// more bytes fails with `InvalidData`.
    pub fn next_chunk(&mut self, max: usize) -> (r: Result<&'a [u8], IoError>)
        ensures
            (old(self).left() == 0 || max == 0) ==> (r matches Ok(c) && c@.len() == 0
                && *final(self) == *old(self)),
            r matches Err(e) ==> e.kind == IoErrorKind::InvalidData && old(self).outcome() is None
                && *final(self) == *old(self),
            r matches Ok(c) ==> c@.len() <= max && final(self).left() == old(self).left() - c@.len()
                && (old(self).left() > 0 && max > 0 ==> c@.len() > 0),
            old(self).outcome() matches Some(u) ==> (r matches Ok(c) && c@ == u.take(
                if max < u.len() { max as int } else { u.len() as int },
            ) && final(self).outcome() == Some(u.skip(c@.len() as int))),
            (old(self).outcome() is None && r is Ok) ==> final(self).outcome() is None,
    {
        if self.remaining == 0 || max == 0 {
            return Ok(&self.section[0..0]);
        }
        let len = self.section.len() as u64;
        if self.pos >= len {
            return Err(IoError::new(IoErrorKind::InvalidData, "blob extends past its data section"));
        }
        let mut n = len - self.pos;
        if self.remaining < n {
            n = self.remaining;
        }
        if (max as u64) < n {
            n = max as u64;
        }
        let start = self.pos as usize;
        let end = start + n as usize;
        let c = &self.section[start..end];
        let ghost old_rd = *self;
        self.pos = self.pos + n;
        self.remaining = self.remaining - n;
        proof {
            if old_rd.outcome() is Some {
                let u = old_rd.outcome()->Some_0;
                assert(c@ =~= u.take(n as int));
                assert(self.outcome()->Some_0 =~= u.skip(n as int));
            }
        }
        Ok(c)
    }
}

impl Archive {
    /// The section `blob` names and where its bytes start (saturated at
    /// `u64::MAX`), after the reference checks of `blob_ref_error`.
    fn place(&self, blob: &BlobEntry) -> (r: Result<(&[u8], u64), ArchiveError>)
        ensures
            match blob_ref_error(self.view(), *blob) {
                Some(g) => r is Err && error_matches(r->Err_0, g),
                None => r matches Ok((sec, off)) && sec@ == section_of(self.view(), *blob) && off == if offset_of(
                    self.view(),
                    *blob,
                ) <= u64::MAX {
                    offset_of(self.view(), *blob)
                } else {
                    u64::MAX as int
                } && offset_of(self.view(), *blob) >= 0,
            },
    {
        let gi = blob.generation_idx as usize;
        if gi >= self.generations.len() {
            return Err(ArchiveError::IndexOutOfBounds("BlobEntry.generation_idx"));
        }
        let owner = &self.generations[gi];
        let ghost ov = owner.view();
        proof {
            assert(self.view().generations[gi as int] == ov);
        }
        let s = blob.section_idx;
        let k = blob.section_blob_idx;
        let g = blob.generation_idx;
        let mut found: Option<usize> = None;
        let mut i: usize = 0;
        while i < owner.blobs.len()
            invariant
                i <= owner.blobs@.len(),
                found == match first_stored(owner.blobs@.subrange(0, i as int), g, s, k) {
                    Some(j) => Some(j as usize),
                    None => None::<usize>,
                },
                first_stored(owner.blobs@.subrange(0, i as int), g, s, k) matches Some(j) ==> 0
                    <= j < i,
            decreases owner.blobs@.len() - i,
        {
            proof {
                lemma_first_stored_prefix(owner.blobs@, g, s, k, i as int);
            }
            if found.is_none() {
                let b = &owner.blobs[i];
                if b.generation_idx == g && b.section_idx == s && b.section_blob_idx == k {
                    found = Some(i);
                }
            }
            i += 1;
        }
        proof {
            assert(owner.blobs@.subrange(0, owner.blobs@.len() as int) =~= owner.blobs@);
            lemma_first_stored_some(owner.blobs@, g, s, k);
        }
        let j = match found {
            None => {
                return Err(ArchiveError::Format(String::from_str("blob not found in its generation")));
            },
            Some(j) => j,
        };
        if owner.blobs[j].raw_size != blob.raw_size {
            return Err(ArchiveError::Format(String::from_str("inconsistent blob reference")));
        }
        let si = s as usize;
        let empty: &[u8] = &[];
        let data: &[u8] = if si < owner.data_sections.len() {
            owner.data_sections[si].data.as_slice()
        } else {
            empty
        };
        proof {
            assert(data@ == section_of(self.view(), *blob));
        }
        let ghost total = bytes_before(owner.blobs@, g, s, k);
        let mut off: u64 = 0;
        let mut i: usize = 0;
        while i < owner.blobs.len()
            invariant
                i <= owner.blobs@.len(),
                off == if bytes_before(owner.blobs@.subrange(0, i as int), g, s, k) <= u64::MAX {
                    bytes_before(owner.blobs@.subrange(0, i as int), g, s, k)
                } else {
                    u64::MAX as int
                },
                bytes_before(owner.blobs@.subrange(0, i as int), g, s, k) >= 0,
                total == bytes_before(owner.blobs@, g, s, k),
            decreases owner.blobs@.len() - i,
        {
            proof {
                lemma_first_stored_prefix(owner.blobs@, g, s, k, i as int);
            }
            let b = &owner.blobs[i];
            if b.generation_idx == g && b.section_idx == s && b.section_blob_idx < k {
                off = off.saturating_add(b.raw_size);
            }
            i += 1;
        }
        proof {
            assert(owner.blobs@.subrange(0, owner.blobs@.len() as int) =~= owner.blobs@);
        }
        Ok((data, off))
    }

    /// Opens a reader over a blob's bytes, wherever they are stored (a blob
    /// may be deduplicated against an earlier generation). Only the
    /// reference is checked here; a blob that runs past its section fails
    /// when it is read.
    pub fn blob_reader(&self, blob: &BlobEntry) -> (r: Result<BlobReader<'_>, ArchiveError>)
        ensures
            match blob_ref_error(self.view(), *blob) {
                Some(g) => r is Err && error_matches(r->Err_0, g),
                None => r matches Ok(rd) && rd.left() == blob.raw_size && rd.outcome() == match blob_bytes(
                    self.view(),
                    *blob,
                ) {
                    Ok(b) => Some(b),
                    Err(_) => None::<Seq<u8>>,
                },
            },
    {
        let (section, pos) = self.place(blob)?;
        let slen = section.len();
        let rd = BlobReader { section, pos, remaining: blob.raw_size };
        proof {
            assert(slen == section@.len());
        }
        Ok(rd)
    }

    /// Reads a whole blob into memory.
    pub fn read_blob(&self, blob: &BlobEntry) -> (r: Result<Vec<u8>, ArchiveError>)
        ensures
            match blob_bytes(self.view(), *blob) {
                Ok(b) => r is Ok && r->Ok_0@ == b,
                Err(g) => r is Err && error_matches(r->Err_0, g),
            },
    {
        let mut rd = self.blob_reader(blob)?;
        let ghost expected = rd.outcome();
        let mut out: Vec<u8> = Vec::new();
        loop
            invariant
                expected == match blob_bytes(self.view(), *blob) {
                    Ok(b) => Some(b),
                    Err(_) => None::<Seq<u8>>,
                },
                blob_ref_error(self.view(), *blob) is None,
                expected matches Some(b) ==> rd.outcome() matches Some(u) && out@ + u == b,
                expected is None ==> rd.outcome() is None,
            ensures
                expected is Some,
                expected matches Some(b) ==> out@ == b,
            decreases rd.left(),
        {
            let ghost rd0 = rd;
            match rd.next_chunk(65536) {
                Err(e) => {
                    return Err(ArchiveError::Io(e));
                },
                Ok(c) => {
                    if c.len() == 0 {
                        proof {
                            assert(rd0.left() == 0);
                            assert(rd0.outcome() is Some);
                            if expected is Some {
                                let u = rd.outcome()->Some_0;
                                assert(rd.left() == 0);
                                assert(u =~= Seq::<u8>::empty());
                                assert(out@ + u =~= out@);
                            }
                        }
                        break;
                    }
                    let ghost before = out@;
                    write_all(&mut out, c);
                    proof {
                        if expected is Some {
                            let u = rd.outcome()->Some_0;
                            assert(out@ + u =~= expected->Some_0);
                        }
                    }
                },
            }
        }
        Ok(out)
    }
}

} // verus!
