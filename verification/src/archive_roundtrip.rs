//! An archive written as a header and a chain of generations reads back as
//! those generations, and appending a generation to any archive adds it
//! after the ones already there.

use vstd::prelude::*;
use crate::archive::{header_bytes, parse_archive, parse_chain, prepend, ArchiveView};
use crate::codec::sha256_digest;
use crate::constants::{MAGIC, VERSION, ZERO_HASH};
use crate::generation::{generation_bytes, generation_prefix, generation_written, parse_generation, GenerationInputView, GenerationView, GenError};
use crate::generation_roundtrip::{lemma_generation_roundtrip, written_view};
use crate::layout::flat;
use crate::le::{le16, lemma_le_roundtrip, u16_at};
use crate::validate::{directory_tree_valid, file_refs_valid};

verus! {

/// The records written for `gs`, one after another.
pub open spec fn chain_bytes(gs: Seq<GenerationInputView>) -> Seq<u8> {
    flat(gs, |g: GenerationInputView| generation_bytes(g))
}

/// Writing `g` succeeded and its record passes the read-side checks.
#[verifier::opaque]
pub open spec fn readable(g: GenerationInputView) -> bool {
    &&& generation_written(g)
    &&& g.blobs.len() == g.blob_hashes.len()
    &&& forall|i: int| 0 <= i < g.blob_hashes.len() ==> #[trigger] g.blob_hashes[i].len() == 32
    &&& g.previous_integrity_hash.len() == 32
    &&& g.files.len() <= u32::MAX
    &&& g.dirs.len() <= u32::MAX
    &&& g.blobs.len() <= u32::MAX
    &&& g.data_sections.len() <= u32::MAX
    &&& directory_tree_valid(g.dirs)
    &&& file_refs_valid(g.files, g.dirs.len() as int, g.blobs.len() as int)
}

/// Every generation of `gs` is readable and names the one before it (the
/// first names the zero hash) by its integrity hash.
pub open spec fn chain_linked(gs: Seq<GenerationInputView>) -> bool {
    &&& forall|i: int| 0 <= i < gs.len() ==> readable(#[trigger] gs[i])
    &&& gs.len() > 0 ==> gs[0].previous_integrity_hash == ZERO_HASH@
    &&& forall|i: int|
        0 < i < gs.len() ==> (#[trigger] gs[i]).previous_integrity_hash == sha256_digest(
            generation_prefix(gs[i - 1]),
        )
}

proof fn lemma_flat_front(gs: Seq<GenerationInputView>)
    requires
        gs.len() > 0,
    ensures
        chain_bytes(gs) == generation_bytes(gs[0]) + chain_bytes(gs.subrange(1, gs.len() as int)),
    decreases gs.len(),
{
    let f = |g: GenerationInputView| generation_bytes(g);
    if gs.len() == 1 {
        assert(gs.drop_last() =~= Seq::<GenerationInputView>::empty());
        assert(chain_bytes(gs.drop_last()) =~= Seq::<u8>::empty());
        assert(gs.subrange(1, 1) =~= Seq::<GenerationInputView>::empty());
        assert(chain_bytes(gs.subrange(1, 1)) =~= Seq::<u8>::empty());
        assert(chain_bytes(gs) =~= generation_bytes(gs[0]));
    } else {
        let p = gs.drop_last();
        lemma_flat_front(p);
        let t = gs.subrange(1, gs.len() as int);
        assert(p.subrange(1, p.len() as int) =~= t.drop_last());
        assert(t.last() == gs.last());
        assert(chain_bytes(t) == chain_bytes(t.drop_last()) + generation_bytes(t.last()));
        assert(chain_bytes(gs) == chain_bytes(p) + generation_bytes(gs.last()));
        assert(chain_bytes(gs) =~= generation_bytes(gs[0]) + chain_bytes(gs.subrange(1, gs.len() as int)));
    }
}

/// One readable record, then whatever follows: the chain parse reads the
/// record and goes on after it.
proof fn lemma_chain_step(g: GenerationInputView, rest: Seq<u8>, prev: Seq<u8>, count: nat)
    requires
        readable(g),
        g.previous_integrity_hash == prev,
        count <= u32::MAX,
    ensures
        parse_chain(generation_bytes(g) + rest, prev, count) == prepend(
            seq![written_view(g)],
            parse_chain(rest, sha256_digest(generation_prefix(g)), count + 1),
        ),
{
    reveal(readable);
    let s = generation_bytes(g) + rest;
    lemma_generation_roundtrip(g, rest);
    let len = generation_bytes(g).len() as int;
    assert(s.subrange(len, s.len() as int) =~= rest);
    assert(len >= 1) by {
        assert(s.len() > 0);
    }
}

/// The generations from `k` on parse back, each checked against the hash
/// of the one before.
#[verifier::rlimit(60)]
proof fn lemma_chain_from(gs: Seq<GenerationInputView>, k: int)
    requires
        chain_linked(gs),
        0 <= k <= gs.len(),
        gs.len() <= u32::MAX + 1,
    ensures
        parse_chain(
            chain_bytes(gs.subrange(k, gs.len() as int)),
            if k == 0 {
                ZERO_HASH@
            } else {
                sha256_digest(generation_prefix(gs[k - 1]))
            },
            k as nat,
        ) == Ok::<Seq<GenerationView>, GenError>(
            gs.subrange(k, gs.len() as int).map_values(|g: GenerationInputView| written_view(g)),
        ),
    decreases gs.len() - k,
{
    let tail = gs.subrange(k, gs.len() as int);
    let prev = if k == 0 {
        ZERO_HASH@
    } else {
        sha256_digest(generation_prefix(gs[k - 1]))
    };
    if k == gs.len() {
        assert(tail =~= Seq::<GenerationInputView>::empty());
        assert(chain_bytes(tail) =~= Seq::<u8>::empty());
        assert(tail.map_values(|g: GenerationInputView| written_view(g)) =~= Seq::<GenerationView>::empty());
    } else {
        let g = gs[k];
        assert(readable(g));
        lemma_flat_front(tail);
        assert(tail.subrange(1, tail.len() as int) =~= gs.subrange(k + 1, gs.len() as int));
        let rest = chain_bytes(gs.subrange(k + 1, gs.len() as int));
        lemma_chain_step(g, rest, prev, k as nat);
        lemma_chain_from(gs, k + 1);
        assert(seq![written_view(g)] + gs.subrange(k + 1, gs.len() as int).map_values(
            |g: GenerationInputView| written_view(g),
        ) =~= tail.map_values(|g: GenerationInputView| written_view(g)));
    }
}

/// An archive written as the header for `flags` followed by the records of
/// a linked chain of generations reads back as exactly those generations,
/// in order, with that version and those flags. (An archive holds at most
/// `u32::MAX + 1` generations.)
/// The header for `flags` followed by `c`: the magic, the version and the
/// flags sit where a reader looks for them, and `c` follows at 16.
proof fn lemma_header_layout(flags: u16, c: Seq<u8>)
    ensures
        ({
            let s = header_bytes(flags) + c;
            &&& s.len() >= 16
            &&& s.subrange(0, 4) == MAGIC@
            &&& u16_at(s, 4) == VERSION
            &&& u16_at(s, 6) == flags
            &&& s.subrange(16, s.len() as int) == c
        }),
{
    lemma_le_roundtrip();
    let h = header_bytes(flags);
    let s = h + c;
    assert(h.len() == 16);
    assert(s.subrange(0, 4) =~= MAGIC@);
    assert(s.subrange(4, 6) =~= le16(VERSION));
    assert(s.subrange(6, 8) =~= le16(flags));
    assert(le16(VERSION).subrange(0, 2) =~= le16(VERSION));
    assert(le16(flags).subrange(0, 2) =~= le16(flags));
    assert(s.subrange(16, s.len() as int) =~= c);
}

/// An archive written as the header for `flags` followed by the records of
/// a linked chain of generations reads back as exactly those generations,
/// in order, with that version and those flags. (An archive holds at most
/// `u32::MAX + 1` generations.)
#[verifier::rlimit(60)]
pub proof fn lemma_archive_roundtrip(flags: u16, gs: Seq<GenerationInputView>)
    requires
        chain_linked(gs),
        1 <= gs.len() <= u32::MAX + 1,
    ensures
        parse_archive(header_bytes(flags) + chain_bytes(gs)) == Ok::<ArchiveView, GenError>(
            ArchiveView {
                version: VERSION,
                flags,
                generations: gs.map_values(|g: GenerationInputView| written_view(g)),
            },
        ),
{
    let c = chain_bytes(gs);
    let views = gs.map_values(|g: GenerationInputView| written_view(g));
    assert(parse_chain(c, ZERO_HASH@, 0) == Ok::<Seq<GenerationView>, GenError>(views)) by {
        lemma_chain_from(gs, 0);
        assert(gs.subrange(0, gs.len() as int) =~= gs);
    }
    lemma_header_layout(flags, c);
}

/// The hash a chain of `gens` read after `prev` ends with.
pub open spec fn chain_last(gens: Seq<GenerationView>, prev: Seq<u8>) -> Seq<u8> {
    if gens.len() == 0 {
        prev
    } else {
        gens.last().integrity_hash
    }
}

/// A chain that parses goes on parsing after it: the generations of
/// `x + y` are those of `x` followed by those of `y`, read after the last
/// hash of `x`.
proof fn lemma_chain_concat(x: Seq<u8>, y: Seq<u8>, prev: Seq<u8>, count: nat)
    requires
        parse_chain(x, prev, count) is Ok,
    ensures
        parse_chain(x + y, prev, count) == prepend(
            parse_chain(x, prev, count)->Ok_0,
            parse_chain(
                y,
                chain_last(parse_chain(x, prev, count)->Ok_0, prev),
                count + parse_chain(x, prev, count)->Ok_0.len(),
            ),
        ),
    decreases x.len(),
{
    let gens = parse_chain(x, prev, count)->Ok_0;
    if x.len() == 0 {
        assert(x + y =~= y);
        assert(gens =~= Seq::<GenerationView>::empty());
        let r = parse_chain(y, prev, count);
        if r is Ok {
            assert(Seq::<GenerationView>::empty() + r->Ok_0 =~= r->Ok_0);
        }
    } else {
        crate::generation::lemma_parse_bounds(x);
        let (v, len) = parse_generation(x)->Ok_0;
        let z = x + y;
        assert(z.subrange(0, x.len() as int) =~= x);
        crate::prefix::lemma_generation_prefix(x, z);
        let rx = x.subrange(len, x.len() as int);
        assert(z.subrange(len, z.len() as int) =~= rx + y);
        let inner = parse_chain(rx, v.integrity_hash, count + 1);
        assert(inner is Ok);
        lemma_chain_concat(rx, y, v.integrity_hash, count + 1);
        let rest = inner->Ok_0;
        assert(gens == seq![v] + rest);
        assert(chain_last(gens, prev) == chain_last(rest, v.integrity_hash)) by {
            if rest.len() > 0 {
                assert(gens.last() == rest.last());
            }
        }
        let ry = parse_chain(y, chain_last(rest, v.integrity_hash), count + 1 + rest.len());
        if ry is Ok {
            assert(seq![v] + (rest + ry->Ok_0) =~= gens + ry->Ok_0);
        }
    }
}

/// Appending a generation to any archive that opens keeps every generation
/// it had and adds the new one after them, provided the new generation
/// names the last one's integrity hash as its previous hash (and the archive
/// has room for one more generation).
pub proof fn lemma_append_to_archive(s: Seq<u8>, g: GenerationInputView)
    requires
        parse_archive(s) is Ok,
        readable(g),
        g.previous_integrity_hash == parse_archive(s)->Ok_0.generations.last().integrity_hash,
        parse_archive(s)->Ok_0.generations.len() <= u32::MAX,
    ensures
        parse_archive(s + generation_bytes(g)) == Ok::<ArchiveView, GenError>(
            ArchiveView {
                version: parse_archive(s)->Ok_0.version,
                flags: parse_archive(s)->Ok_0.flags,
                generations: parse_archive(s)->Ok_0.generations.push(written_view(g)),
            },
        ),
{
    let a = parse_archive(s)->Ok_0;
    let gb = generation_bytes(g);
    let t = s + gb;
    let s16 = s.subrange(16, s.len() as int);
    assert(t.subrange(0, 4) =~= s.subrange(0, 4));
    assert(t.subrange(4, 6) =~= s.subrange(4, 6));
    assert(t.subrange(6, 8) =~= s.subrange(6, 8));
    assert(t.subrange(16, t.len() as int) =~= s16 + gb);
    let gens = parse_chain(s16, ZERO_HASH@, 0)->Ok_0;
    assert(gens == a.generations);
    lemma_chain_concat(s16, gb, ZERO_HASH@, 0);
    assert(chain_last(gens, ZERO_HASH@) == a.generations.last().integrity_hash);
    lemma_chain_step(g, Seq::empty(), a.generations.last().integrity_hash, gens.len());
    assert(gb + Seq::<u8>::empty() =~= gb);
    assert(parse_chain(Seq::<u8>::empty(), sha256_digest(generation_prefix(g)), gens.len() + 1)
        == Ok::<Seq<GenerationView>, GenError>(Seq::empty()));
    assert(seq![written_view(g)] + Seq::<GenerationView>::empty() =~= seq![written_view(g)]);
    assert(gens + seq![written_view(g)] =~= gens.push(written_view(g)));
}

} // verus!
