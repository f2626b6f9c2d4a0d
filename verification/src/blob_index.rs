//! The blobs an archive already holds, found by content hash, so that a new
//! generation refers to them instead of storing their bytes again.

use vstd::prelude::*;
use crate::archive::Archive;
use crate::generation::GenerationView;
use crate::pack::{ExistingBlob, ExistingBlobLookup};
use crate::packed::BlobEntry;
use crate::strsection::hash_eq;

verus! {

/// Where blob record `b` says its bytes are.
pub open spec fn existing_of(b: BlobEntry) -> ExistingBlob {
    ExistingBlob {
        generation_idx: b.generation_idx,
        section_idx: b.section_idx,
        section_blob_idx: b.section_blob_idx,
    }
}

/// The recorded hash and location of each blob of `g` that has both.
pub open spec fn gen_pairs(g: GenerationView) -> Seq<(Seq<u8>, ExistingBlob)> {
    let n = if g.blobs.len() <= g.blob_hashes.len() {
        g.blobs.len()
    } else {
        g.blob_hashes.len()
    };
    Seq::new(n, |i: int| (g.blob_hashes[i], existing_of(g.blobs[i])))
}

/// The pairs of every generation, oldest first.
pub open spec fn archive_pairs(gens: Seq<GenerationView>) -> Seq<(Seq<u8>, ExistingBlob)>
    decreases gens.len(),
{
    if gens.len() == 0 {
        Seq::empty()
    } else {
        archive_pairs(gens.drop_last()) + gen_pairs(gens.last())
    }
}

/// The location of the first pair with hash `h`.
pub open spec fn first_with(pairs: Seq<(Seq<u8>, ExistingBlob)>, h: Seq<u8>) -> Option<ExistingBlob>
    decreases pairs.len(),
{
    if pairs.len() == 0 {
        None
    } else {
        match first_with(pairs.drop_last(), h) {
            Some(e) => Some(e),
            None => if pairs.last().0 == h {
                Some(pairs.last().1)
            } else {
                None
            },
        }
    }
}

proof fn lemma_first_with_step(pairs: Seq<(Seq<u8>, ExistingBlob)>, h: Seq<u8>, k: int)
    requires
        0 <= k < pairs.len(),
    ensures
        first_with(pairs.take(k + 1), h) == match first_with(pairs.take(k), h) {
            Some(e) => Some(e),
            None => if pairs[k].0 == h {
                Some(pairs[k].1)
            } else {
                None
            },
        },
{
    assert(pairs.take(k + 1).drop_last() =~= pairs.take(k));
}

proof fn lemma_first_with_found(pairs: Seq<(Seq<u8>, ExistingBlob)>, h: Seq<u8>, k: int)
    requires
        0 <= k <= pairs.len(),
        first_with(pairs.take(k), h) is Some,
    ensures
        first_with(pairs, h) == first_with(pairs.take(k), h),
    decreases pairs.len() - k,
{
    if k == pairs.len() {
        assert(pairs.take(k) =~= pairs);
    } else {
        lemma_first_with_step(pairs, h, k);
        lemma_first_with_found(pairs, h, k + 1);
    }
}

/// Every blob record of an archive, by content hash.
pub struct ArchiveBlobIndex {
    entries: Vec<([u8; 32], ExistingBlob)>,
}

impl ArchiveBlobIndex {
    /// The indexed hashes and locations, in archive order.
    pub closed spec fn pairs(&self) -> Seq<(Seq<u8>, ExistingBlob)> {
        self.entries@.map_values(|e: ([u8; 32], ExistingBlob)| (e.0@, e.1))
    }

    /// Indexes every blob record of `archive`, generations oldest first,
    /// records in table order.
    pub fn from_archive(archive: &Archive) -> (r: ArchiveBlobIndex)
        ensures
            r.pairs() == archive_pairs(archive.view().generations),
    {
        let ghost gens = archive.view().generations;
        let mut entries: Vec<([u8; 32], ExistingBlob)> = Vec::new();
        let mut gi: usize = 0;
        while gi < archive.generations.len()
            invariant
                gens == archive.view().generations,
                gi <= gens.len(),
                entries@.map_values(|e: ([u8; 32], ExistingBlob)| (e.0@, e.1)) == archive_pairs(
                    gens.take(gi as int),
                ),
            decreases gens.len() - gi,
        {
            let gen = &archive.generations[gi];
            let ghost g = gen.view();
            proof {
                assert(gens[gi as int] == g);
            }
            let n = if gen.blobs.len() <= gen.blob_hashes.len() {
                gen.blobs.len()
            } else {
                gen.blob_hashes.len()
            };
            let ghost start = entries@.map_values(|e: ([u8; 32], ExistingBlob)| (e.0@, e.1));
            let mut i: usize = 0;
            while i < n
                invariant
                    g == gen.view(),
                    n == gen_pairs(g).len(),
                    n <= gen.blobs@.len(),
                    n <= gen.blob_hashes@.len(),
                    i <= n,
                    entries@.map_values(|e: ([u8; 32], ExistingBlob)| (e.0@, e.1)) == start
                        + gen_pairs(g).take(i as int),
                decreases n - i,
            {
                let b = gen.blobs[i];
                let ghost before = entries@;
                entries.push(
                    (
                        gen.blob_hashes[i],
                        ExistingBlob {
                            generation_idx: b.generation_idx,
                            section_idx: b.section_idx,
                            section_blob_idx: b.section_blob_idx,
                        },
                    ),
                );
                proof {
                    assert(g.blob_hashes[i as int] == gen.blob_hashes@[i as int]@);
                    assert(g.blobs[i as int] == b);
                    let ghost last = entries@[entries@.len() - 1];
                    assert((last.0@, last.1) == gen_pairs(g)[i as int]);
                    assert(entries@.map_values(|e: ([u8; 32], ExistingBlob)| (e.0@, e.1))
                        =~= before.map_values(|e: ([u8; 32], ExistingBlob)| (e.0@, e.1)).push(
                        (last.0@, last.1),
                    ));
                    assert(gen_pairs(g).take(i + 1) =~= gen_pairs(g).take(i as int).push(
                        gen_pairs(g)[i as int],
                    ));
                    assert(entries@.map_values(|e: ([u8; 32], ExistingBlob)| (e.0@, e.1))
                        =~= start + gen_pairs(g).take(i + 1));
                }
                i += 1;
            }
            proof {
                assert(gen_pairs(g).take(n as int) =~= gen_pairs(g));
                assert(gens.take(gi + 1).drop_last() =~= gens.take(gi as int));
                assert(gens.take(gi + 1).last() == g);
            }
            gi += 1;
        }
        proof {
            assert(gens.take(gi as int) =~= gens);
        }
        ArchiveBlobIndex { entries }
    }

    /// Where the first indexed blob with content hash `hash` is stored.
    pub fn lookup(&self, hash: &[u8; 32]) -> (r: Option<ExistingBlob>)
        ensures
            r == first_with(self.pairs(), hash@),
    {
        let ghost ps = self.pairs();
        let mut i: usize = 0;
        while i < self.entries.len()
            invariant
                ps == self.pairs(),
                ps.len() == self.entries@.len(),
                i <= ps.len(),
                first_with(ps.take(i as int), hash@) is None,
            decreases ps.len() - i,
        {
            let e = &self.entries[i];
            proof {
                lemma_first_with_step(ps, hash@, i as int);
                assert(ps[i as int] == (e.0@, e.1));
            }
            if hash_eq(&e.0, hash) {
                proof {
                    lemma_first_with_found(ps, hash@, i + 1);
                }
                return Some(e.1);
            }
            i += 1;
        }
        proof {
            assert(ps.take(i as int) =~= ps);
        }
        None
    }
}

impl ExistingBlobLookup for ArchiveBlobIndex {
    fn find(&self, hash: &[u8; 32]) -> (r: Option<ExistingBlob>)
        ensures
            r == first_with(self.pairs(), hash@),
    {
        self.lookup(hash)
    }
}

} // verus!
