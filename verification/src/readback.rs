//! The new blobs of a planned generation read back as the bytes packed for
//! them.

use vstd::prelude::*;
use crate::archive::{blob_bytes, bytes_before, first_stored, stores, ArchiveView};
use crate::blobs::BlobGroup;
use crate::layout::{concat, flat, lemma_flat_push};
use crate::packed::BlobEntry;
use crate::enums::{CompressionType, SectionKind};
use crate::generation_roundtrip::written_view;
use crate::pack::{
    blobs_planned, lemma_strict_distinct, new_in, order_of, planned_input, section_for, ExistingBlob,
    PackPlan,
};
use crate::scan::FileCollector;
use crate::codec::sha256_digest;
use crate::verify::blob_check;

verus! {

/// The sizes of the blobs of `blobs` that generation `g` stores in section
/// `s` at position `k`, added up.
pub open spec fn bytes_at(blobs: Seq<BlobEntry>, g: u32, s: u32, k: u32) -> int
    decreases blobs.len(),
{
    if blobs.len() == 0 {
        0
    } else {
        bytes_at(blobs.drop_last(), g, s, k) + if stores(blobs.last(), g, s, k) {
            blobs.last().raw_size as int
        } else {
            0
        }
    }
}

/// The bytes ahead of position `k + 1` are those ahead of `k` and those at `k`.
proof fn lemma_bytes_before_step(blobs: Seq<BlobEntry>, g: u32, s: u32, k: u32)
    requires
        k < u32::MAX,
    ensures
        bytes_before(blobs, g, s, (k + 1) as u32) == bytes_before(blobs, g, s, k) + bytes_at(
            blobs,
            g,
            s,
            k,
        ),
    decreases blobs.len(),
{
    if blobs.len() > 0 {
        lemma_bytes_before_step(blobs.drop_last(), g, s, k);
    }
}

/// Nothing lies ahead of position 0.
proof fn lemma_bytes_before_zero(blobs: Seq<BlobEntry>, g: u32, s: u32)
    ensures
        bytes_before(blobs, g, s, 0) == 0,
    decreases blobs.len(),
{
    if blobs.len() > 0 {
        lemma_bytes_before_zero(blobs.drop_last(), g, s);
    }
}

/// When blob `j` is the only one stored at a place, it is the one found
/// there and its size is all the place holds.
proof fn lemma_single_stored(blobs: Seq<BlobEntry>, g: u32, s: u32, k: u32, j: int)
    requires
        0 <= j < blobs.len(),
        stores(blobs[j], g, s, k),
        forall|i: int| 0 <= i < blobs.len() && i != j ==> !stores(#[trigger] blobs[i], g, s, k),
    ensures
        first_stored(blobs, g, s, k) == Some(j),
        bytes_at(blobs, g, s, k) == blobs[j].raw_size,
    decreases blobs.len(),
{
    let p = blobs.drop_last();
    if j == blobs.len() - 1 {
        lemma_none_stored(p, g, s, k);
    } else {
        assert(!stores(blobs.last(), g, s, k));
        lemma_single_stored(p, g, s, k, j);
    }
}

proof fn lemma_none_stored(blobs: Seq<BlobEntry>, g: u32, s: u32, k: u32)
    requires
        forall|i: int| 0 <= i < blobs.len() ==> !stores(#[trigger] blobs[i], g, s, k),
    ensures
        first_stored(blobs, g, s, k) is None,
        bytes_at(blobs, g, s, k) == 0,
    decreases blobs.len(),
{
    if blobs.len() > 0 {
        let p = blobs.drop_last();
        assert(!stores(blobs[blobs.len() - 1], g, s, k));
        assert forall|i: int| 0 <= i < p.len() implies !stores(#[trigger] p[i], g, s, k) by {
            assert(p[i] == blobs[i]);
        }
        lemma_none_stored(p, g, s, k);
    }
}

/// A section's blobs of generation `g` are exactly those that `order` lists,
/// each stored at its position in `order`.
pub open spec fn section_layout(blobs: Seq<BlobEntry>, g: u32, s: u32, order: Seq<usize>) -> bool {
    &&& order.len() <= u32::MAX
    &&& forall|q: int|
        0 <= q < order.len() ==> #[trigger] order[q] < blobs.len() && stores(
            blobs[order[q] as int],
            g,
            s,
            q as u32,
        )
    &&& forall|j: int|
        0 <= j < blobs.len() && (#[trigger] blobs[j]).generation_idx == g && blobs[j].section_idx
            == s ==> blobs[j].section_blob_idx < order.len() && order[blobs[j].section_blob_idx as int]
            == j
}

/// The contents before position `q` make up the start of the concatenation.
proof fn lemma_concat_prefix(contents: Seq<Seq<u8>>, q: int)
    requires
        0 <= q <= contents.len(),
    ensures
        concat(contents.take(q)).len() <= concat(contents).len(),
        concat(contents).subrange(0, concat(contents.take(q)).len() as int) == concat(contents.take(q)),
    decreases contents.len() - q,
{
    if q == contents.len() {
        assert(contents.take(q) =~= contents);
    } else {
        lemma_concat_prefix(contents, q + 1);
        assert(contents.take(q + 1) =~= contents.take(q).push(contents[q]));
        lemma_flat_push(contents.take(q), contents[q], |c: Seq<u8>| c);
        let a = concat(contents.take(q));
        let b = concat(contents.take(q + 1));
        assert(b =~= a + contents[q]);
        assert(concat(contents).subrange(0, a.len() as int) =~= b.subrange(0, a.len() as int));
        assert(b.subrange(0, a.len() as int) =~= a);
    }
}

/// Content `q` sits in the concatenation right after the contents before it.
proof fn lemma_concat_at(contents: Seq<Seq<u8>>, q: int)
    requires
        0 <= q < contents.len(),
    ensures
        ({
            let off = concat(contents.take(q)).len() as int;
            &&& off + contents[q].len() <= concat(contents).len()
            &&& concat(contents).subrange(off, off + contents[q].len()) == contents[q]
        }),
{
    lemma_concat_prefix(contents, q + 1);
    assert(contents.take(q + 1) =~= contents.take(q).push(contents[q]));
    lemma_flat_push(contents.take(q), contents[q], |c: Seq<u8>| c);
    let a = concat(contents.take(q));
    let b = concat(contents.take(q + 1));
    assert(b =~= a + contents[q]);
    let off = a.len() as int;
    assert(concat(contents).subrange(off, off + contents[q].len()) =~= b.subrange(
        off,
        off + contents[q].len(),
    ));
    assert(b.subrange(off, off + contents[q].len()) =~= contents[q]);
}

/// In a section laid out as `order` says, with content `q` as long as the
/// blob at position `q`, the blob at position `q` is found there and starts
/// right after the contents before it.
pub proof fn lemma_section_offsets(
    blobs: Seq<BlobEntry>,
    g: u32,
    s: u32,
    order: Seq<usize>,
    contents: Seq<Seq<u8>>,
)
    requires
        section_layout(blobs, g, s, order),
        contents.len() == order.len(),
        forall|q: int|
            0 <= q < order.len() ==> (#[trigger] contents[q]).len() == blobs[order[q] as int].raw_size,
    ensures
        forall|q: int|
            0 <= q < order.len() ==> #[trigger] first_stored(blobs, g, s, q as u32) == Some(
                order[q] as int,
            ) && bytes_before(blobs, g, s, q as u32) == concat(contents.take(q)).len(),
{
    assert forall|q: int| 0 <= q < order.len() implies #[trigger] first_stored(
        blobs,
        g,
        s,
        q as u32,
    ) == Some(order[q] as int) && bytes_before(blobs, g, s, q as u32) == concat(
        contents.take(q),
    ).len() by {
        lemma_unique_at(blobs, g, s, order, q);
        lemma_offset(blobs, g, s, order, contents, q);
    }
}

proof fn lemma_unique_at(blobs: Seq<BlobEntry>, g: u32, s: u32, order: Seq<usize>, q: int)
    requires
        section_layout(blobs, g, s, order),
        0 <= q < order.len(),
    ensures
        first_stored(blobs, g, s, q as u32) == Some(order[q] as int),
        bytes_at(blobs, g, s, q as u32) == blobs[order[q] as int].raw_size,
{
    let j = order[q] as int;
    assert(order[q] < blobs.len());
    assert forall|i: int| 0 <= i < blobs.len() && i != j implies !stores(
        #[trigger] blobs[i],
        g,
        s,
        q as u32,
    ) by {
        if stores(blobs[i], g, s, q as u32) {
            assert(blobs[i].generation_idx == g);
            assert(order[blobs[i].section_blob_idx as int] == i);
        }
    }
    lemma_single_stored(blobs, g, s, q as u32, j);
}

proof fn lemma_offset(
    blobs: Seq<BlobEntry>,
    g: u32,
    s: u32,
    order: Seq<usize>,
    contents: Seq<Seq<u8>>,
    q: int,
)
    requires
        section_layout(blobs, g, s, order),
        contents.len() == order.len(),
        forall|q: int|
            0 <= q < order.len() ==> (#[trigger] contents[q]).len() == blobs[order[q] as int].raw_size,
        0 <= q <= order.len(),
    ensures
        bytes_before(blobs, g, s, q as u32) == concat(contents.take(q)).len(),
    decreases q,
{
    if q == 0 {
        lemma_bytes_before_zero(blobs, g, s);
        assert(contents.take(0) =~= Seq::<Seq<u8>>::empty());
    } else {
        lemma_offset(blobs, g, s, order, contents, q - 1);
        lemma_bytes_before_step(blobs, g, s, (q - 1) as u32);
        lemma_unique_at(blobs, g, s, order, q - 1);
        assert(contents.take(q) =~= contents.take(q - 1).push(contents[q - 1]));
        lemma_flat_push(contents.take(q - 1), contents[q - 1], |c: Seq<u8>| c);
    }
}

/// `contents` holds what was packed for the new blobs that `order` lists,
/// in that order, each as long as its blob.
pub open spec fn contents_fit(groups: Seq<BlobGroup>, order: Seq<usize>, contents: Seq<Seq<u8>>) -> bool {
    &&& contents.len() == order.len()
    &&& forall|q: int|
        0 <= q < order.len() ==> #[trigger] order[q] < groups.len() && contents[q].len()
            == groups[order[q] as int].size
}

/// A planned section is laid out in the order the plan gives it.
proof fn lemma_plan_layout<P>(
    c: &FileCollector<P>,
    groups: Seq<BlobGroup>,
    existing: Seq<Option<ExistingBlob>>,
    compress: Seq<bool>,
    compression: CompressionType,
    generation_idx: u32,
    p: PackPlan,
    s: SectionKind,
)
    requires
        blobs_planned(c, groups, existing, compress, compression, generation_idx, p.blobs),
        existing.len() == groups.len(),
        compress.len() == groups.len(),
        forall|g: int|
            0 <= g < existing.len() ==> (#[trigger] existing[g] matches Some(e) ==> e.generation_idx
                != generation_idx),
        order_of(&p.blobs, s).len() <= u32::MAX,
    ensures
        section_layout(p.blobs.blobs@, generation_idx, s.spec_index(), order_of(&p.blobs, s)),
{
    let order = order_of(&p.blobs, s);
    let blobs = p.blobs.blobs@;
    assert forall|i: int, j: int| 0 <= i < j < order.len() implies #[trigger] order[i] != #[trigger] order[j] by {
        lemma_strict_distinct(c, groups, order, i, j);
    }
    assert forall|q: int| 0 <= q < order.len() implies #[trigger] order[q] < blobs.len() && crate::archive::stores(
        blobs[order[q] as int],
        generation_idx,
        s.spec_index(),
        q as u32,
    ) by {
        let x = order[q];
        assert(order.contains(x));
        assert(new_in(existing, compress, compression, s, x as int));
        assert(section_for(compression, compress[x as int]) == s);
        let e = blobs[x as int];
        assert(crate::pack::blob_planned(
            e,
            x as int,
            groups,
            existing,
            compress,
            compression,
            generation_idx,
            order,
        ));
        let q2 = e.section_blob_idx as int;
        assert(order[q2] == x);
        if q2 != q {
            if q2 < q {
                assert(order[q2] != order[q]);
            } else {
                assert(order[q] != order[q2]);
            }
        }
    }
    assert forall|j: int|
        0 <= j < blobs.len() && (#[trigger] blobs[j]).generation_idx == generation_idx
            && blobs[j].section_idx == s.spec_index() implies blobs[j].section_blob_idx < order.len()
        && order[blobs[j].section_blob_idx as int] == j by {
        assert(crate::pack::blob_planned(
            blobs[j],
            j,
            groups,
            existing,
            compress,
            compression,
            generation_idx,
            order_of(&p.blobs, section_for(compression, compress[j])),
        ));
        if existing[j] is Some {
            assert(existing[j]->Some_0.generation_idx != generation_idx);
        } else {
            assert(section_for(compression, compress[j]).spec_index() == s.spec_index());
            assert(section_for(compression, compress[j]) == s);
        }
    }
}

/// A new blob of a packed generation reads back as the bytes that were
/// packed for it: once the generation written from plan `p`, with the
/// stored section made of `stored` and the compressed one of `compressed`
/// (each listing what was packed for its new blobs, in writing order), is
/// generation `generation_idx` of archive `a`, reading the blob record of
/// the blob at position `q` of a section gives content `q` of that section.
/// This holds when the blobs found in the archive already all name earlier
/// (or other) generations than the one being written.
pub proof fn lemma_packed_blob_reads_back<P>(
    a: ArchiveView,
    c: &FileCollector<P>,
    groups: Seq<BlobGroup>,
    existing: Seq<Option<ExistingBlob>>,
    compress: Seq<bool>,
    compression: CompressionType,
    generation_idx: u32,
    p: PackPlan,
    stored: Seq<Seq<u8>>,
    compressed: Seq<Seq<u8>>,
    created_at: u64,
    previous_integrity_hash: Seq<u8>,
    signing_key: Option<Seq<u8>>,
)
    requires
        blobs_planned(c, groups, existing, compress, compression, generation_idx, p.blobs),
        existing.len() == groups.len(),
        compress.len() == groups.len(),
        forall|g: int|
            0 <= g < existing.len() ==> (#[trigger] existing[g] matches Some(e) ==> e.generation_idx
                != generation_idx),
        contents_fit(groups, p.blobs.stored_order@, stored),
        contents_fit(groups, p.blobs.compressed_order@, compressed),
        p.blobs.stored_order@.len() <= u32::MAX,
        p.blobs.compressed_order@.len() <= u32::MAX,
        generation_idx < a.generations.len(),
        a.generations[generation_idx as int] == written_view(
            planned_input(
                p,
                concat(stored),
                concat(compressed),
                compression,
                created_at,
                previous_integrity_hash,
                signing_key,
            ),
        ),
    ensures
        forall|q: int|
            0 <= q < p.blobs.stored_order@.len() ==> blob_bytes(
                a,
                p.blobs.blobs@[#[trigger] p.blobs.stored_order@[q] as int],
            ) == Ok::<Seq<u8>, crate::generation::GenError>(stored[q]),
        forall|q: int|
            0 <= q < p.blobs.compressed_order@.len() ==> blob_bytes(
                a,
                p.blobs.blobs@[#[trigger] p.blobs.compressed_order@[q] as int],
            ) == Ok::<Seq<u8>, crate::generation::GenError>(compressed[q]),
{
    lemma_section_reads_back(a, c, groups, existing, compress, compression, generation_idx, p, stored, compressed, created_at, previous_integrity_hash, signing_key, SectionKind::Stored);
    lemma_section_reads_back(a, c, groups, existing, compress, compression, generation_idx, p, stored, compressed, created_at, previous_integrity_hash, signing_key, SectionKind::Compressed);
}

proof fn lemma_section_reads_back<P>(
    a: ArchiveView,
    c: &FileCollector<P>,
    groups: Seq<BlobGroup>,
    existing: Seq<Option<ExistingBlob>>,
    compress: Seq<bool>,
    compression: CompressionType,
    generation_idx: u32,
    p: PackPlan,
    stored: Seq<Seq<u8>>,
    compressed: Seq<Seq<u8>>,
    created_at: u64,
    previous_integrity_hash: Seq<u8>,
    signing_key: Option<Seq<u8>>,
    s: SectionKind,
)
    requires
        blobs_planned(c, groups, existing, compress, compression, generation_idx, p.blobs),
        existing.len() == groups.len(),
        compress.len() == groups.len(),
        forall|g: int|
            0 <= g < existing.len() ==> (#[trigger] existing[g] matches Some(e) ==> e.generation_idx
                != generation_idx),
        contents_fit(groups, p.blobs.stored_order@, stored),
        contents_fit(groups, p.blobs.compressed_order@, compressed),
        p.blobs.stored_order@.len() <= u32::MAX,
        p.blobs.compressed_order@.len() <= u32::MAX,
        generation_idx < a.generations.len(),
        a.generations[generation_idx as int] == written_view(
            planned_input(
                p,
                concat(stored),
                concat(compressed),
                compression,
                created_at,
                previous_integrity_hash,
                signing_key,
            ),
        ),
    ensures
        ({
            let order = order_of(&p.blobs, s);
            let contents = match s {
                SectionKind::Stored => stored,
                SectionKind::Compressed => compressed,
            };
            forall|q: int|
                0 <= q < order.len() ==> blob_bytes(a, p.blobs.blobs@[#[trigger] order[q] as int])
                    == Ok::<Seq<u8>, crate::generation::GenError>(contents[q])
        }),
{
    let order = order_of(&p.blobs, s);
    let contents = match s {
        SectionKind::Stored => stored,
        SectionKind::Compressed => compressed,
    };
    let blobs = p.blobs.blobs@;
    let si = s.spec_index();
    lemma_plan_layout(c, groups, existing, compress, compression, generation_idx, p, s);
    assert forall|q: int| 0 <= q < order.len() implies (#[trigger] contents[q]).len()
        == blobs[order[q] as int].raw_size by {
        assert(order.contains(order[q]));
        let x = order[q] as int;
        assert(crate::pack::blob_planned(
            blobs[x],
            x,
            groups,
            existing,
            compress,
            compression,
            generation_idx,
            order_of(&p.blobs, section_for(compression, compress[x])),
        ));
    }
    lemma_section_offsets(blobs, generation_idx, si, order, contents);
    let owner = a.generations[generation_idx as int];
    assert(owner.blobs == blobs);
    assert(owner.data_sections.len() == 2);
    assert(owner.data_sections[si as int].data == concat(contents));
    assert forall|q: int| 0 <= q < order.len() implies blob_bytes(a, blobs[#[trigger] order[q] as int])
        == Ok::<Seq<u8>, crate::generation::GenError>(contents[q]) by {
        let b = blobs[order[q] as int];
        assert(crate::archive::stores(b, generation_idx, si, q as u32));
        assert(first_stored(owner.blobs, generation_idx, si, q as u32) == Some(order[q] as int));
        lemma_concat_at(contents, q);
        assert(crate::archive::section_of(a, b) == concat(contents));
        if b.raw_size == 0 {
            assert(contents[q] =~= Seq::<u8>::empty());
        }
    }
}

/// Each content has the SHA-256 its blob was grouped with.
pub open spec fn contents_hashed(groups: Seq<BlobGroup>, order: Seq<usize>, contents: Seq<Seq<u8>>) -> bool {
    forall|q: int|
        0 <= q < order.len() ==> sha256_digest(#[trigger] contents[q]) == groups[order[q] as int].hash@
}

/// A freshly packed generation passes the blob hash check: every blob it
/// stores itself reads back as bytes whose SHA-256 is the hash recorded for
/// it, when what was packed for each new blob has the hash it was grouped
/// with.
pub proof fn lemma_packed_blobs_verify<P>(
    a: ArchiveView,
    c: &FileCollector<P>,
    groups: Seq<BlobGroup>,
    existing: Seq<Option<ExistingBlob>>,
    compress: Seq<bool>,
    compression: CompressionType,
    generation_idx: u32,
    p: PackPlan,
    stored: Seq<Seq<u8>>,
    compressed: Seq<Seq<u8>>,
    created_at: u64,
    previous_integrity_hash: Seq<u8>,
    signing_key: Option<Seq<u8>>,
)
    requires
        blobs_planned(c, groups, existing, compress, compression, generation_idx, p.blobs),
        existing.len() == groups.len(),
        compress.len() == groups.len(),
        forall|g: int|
            0 <= g < existing.len() ==> (#[trigger] existing[g] matches Some(e) ==> e.generation_idx
                != generation_idx),
        contents_fit(groups, p.blobs.stored_order@, stored),
        contents_fit(groups, p.blobs.compressed_order@, compressed),
        contents_hashed(groups, p.blobs.stored_order@, stored),
        contents_hashed(groups, p.blobs.compressed_order@, compressed),
        p.blobs.stored_order@.len() <= u32::MAX,
        p.blobs.compressed_order@.len() <= u32::MAX,
        generation_idx < a.generations.len(),
        a.generations[generation_idx as int] == written_view(
            planned_input(
                p,
                concat(stored),
                concat(compressed),
                compression,
                created_at,
                previous_integrity_hash,
                signing_key,
            ),
        ),
    ensures
        forall|i: int|
            0 <= i < groups.len() ==> #[trigger] blob_check(a, generation_idx as int, i) is None,
{
    lemma_packed_blob_reads_back(a, c, groups, existing, compress, compression, generation_idx, p, stored, compressed, created_at, previous_integrity_hash, signing_key);
    let blobs = p.blobs.blobs@;
    assert forall|i: int| 0 <= i < groups.len() implies #[trigger] blob_check(a, generation_idx as int, i) is None by {
        let s = section_for(compression, compress[i]);
        let order = order_of(&p.blobs, s);
        assert(crate::pack::blob_planned(
            blobs[i],
            i,
            groups,
            existing,
            compress,
            compression,
            generation_idx,
            order,
        ));
        if existing[i] is None {
            let q = blobs[i].section_blob_idx as int;
            assert(order[q] == i);
            if s == SectionKind::Stored {
                assert(blob_bytes(a, blobs[order[q] as int]) == Ok::<Seq<u8>, crate::generation::GenError>(stored[q]));
            } else {
                assert(blob_bytes(a, blobs[order[q] as int]) == Ok::<Seq<u8>, crate::generation::GenError>(compressed[q]));
            }
            assert(a.generations[generation_idx as int].blob_hashes[i] == p.blobs.blob_hashes@[i]@);
        } else {
            assert(existing[i]->Some_0.generation_idx != generation_idx);
        }
    }
}

} // verus!
