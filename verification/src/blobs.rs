//! Deduplicating scanned files into blobs: files with the same content hash
//! share one blob, and every empty file shares the empty blob.

use vstd::prelude::*;
use crate::constants::EMPTY_HASH;
use crate::hash_table::{
    bytes_eq, fnv1a, hash_bytes, occ, pair_index, pair_to_index, split_index, HashTable, KeyStore,
    MAX_TABLE_KEYS,
};

verus! {

/// One blob and the files (by index) whose content it is.
pub struct BlobGroup {
    pub hash: [u8; 32],
    pub size: u64,
    pub indices: Vec<usize>,
}

/// The indices below `n` of the files whose size hint is 0.
pub open spec fn empties_upto(hints: Seq<u64>, n: int) -> Seq<usize>
    decreases n,
{
    if n <= 0 {
        Seq::empty()
    } else if hints[n - 1] == 0 {
        empties_upto(hints, n - 1).push((n - 1) as usize)
    } else {
        empties_upto(hints, n - 1)
    }
}

/// The indices below `n` of the non-empty files whose hash is `h`.
pub open spec fn members_upto(hints: Seq<u64>, hashes: Seq<[u8; 32]>, h: [u8; 32], n: int) -> Seq<usize>
    decreases n,
{
    if n <= 0 {
        Seq::empty()
    } else if hints[n - 1] != 0 && hashes[n - 1] == h {
        members_upto(hints, hashes, h, n - 1).push((n - 1) as usize)
    } else {
        members_upto(hints, hashes, h, n - 1)
    }
}

/// File `j` is non-empty and no earlier non-empty file has its hash.
pub open spec fn first_of_hash(hints: Seq<u64>, hashes: Seq<[u8; 32]>, j: int) -> bool {
    hints[j] != 0 && forall|k: int| 0 <= k < j && hints[k] != 0 ==> #[trigger] hashes[k] != hashes[j]
}

/// The indices below `n` of the files that are the first of their hash.
pub open spec fn firsts_upto(hints: Seq<u64>, hashes: Seq<[u8; 32]>, n: int) -> Seq<usize>
    decreases n,
{
    if n <= 0 {
        Seq::empty()
    } else if first_of_hash(hints, hashes, n - 1) {
        firsts_upto(hints, hashes, n - 1).push((n - 1) as usize)
    } else {
        firsts_upto(hints, hashes, n - 1)
    }
}

/// Group `g` of `groups`, stored under `keys[g]`, is the blob of the first
/// file of its hash among the files below `n`, with all of that hash's files.
pub open spec fn group_ok(
    groups: Seq<BlobGroup>,
    keys: Seq<[u8; 32]>,
    hints: Seq<u64>,
    hashes: Seq<[u8; 32]>,
    sizes: Seq<u64>,
    n: int,
    g: int,
) -> bool {
    let r = firsts_upto(hints, hashes, n)[g] as int;
    &&& 0 <= r < n
    &&& hints[r] != 0
    &&& keys[g] == hashes[r]
    &&& groups[g].hash == hashes[r]
    &&& groups[g].size == sizes[r]
    &&& groups[g].indices@ == members_upto(hints, hashes, hashes[r], n)
}

/// The hashes of the groups found so far.
pub struct GroupHashes {
    hashes: Vec<[u8; 32]>,
}

impl GroupHashes {
    pub closed spec fn keys(&self) -> Seq<[u8; 32]> {
        self.hashes@
    }
}

impl KeyStore for GroupHashes {
    open spec fn valid_key(&self, a: u32, b: u32) -> bool {
        pair_index(a, b) < self.keys().len()
    }

    open spec fn key_of(&self, a: u32, b: u32) -> Seq<u8> {
        self.keys()[pair_index(a, b)]@
    }

    fn key_equals(&self, a: u32, b: u32, key: &[u8]) -> (r: bool) {
        let n = self.hashes.len();
        assert(self.keys().len() == n);
        bytes_eq(&self.hashes[pair_to_index(a, b)], key)
    }
}

proof fn lemma_array_view_injective(a: [u8; 32], b: [u8; 32])
    ensures
        a@ == b@ <==> a == b,
{
    if a@ == b@ {
        assert(a =~= b);
    }
}

/// No non-empty file below `n` has hash `h`: then none is a member.
proof fn lemma_no_members(hints: Seq<u64>, hashes: Seq<[u8; 32]>, h: [u8; 32], n: int)
    requires
        forall|k: int| 0 <= k < n && hints[k] != 0 ==> #[trigger] hashes[k] != h,
    ensures
        members_upto(hints, hashes, h, n) == Seq::<usize>::empty(),
    decreases n,
{
    if n > 0 {
        lemma_no_members(hints, hashes, h, n - 1);
    }
}

/// Groups files into blobs. Files whose size hint is 0 are not read and
/// share the empty blob, which comes first when there is any. Every other
/// file joins the blob of its content hash (`hashes[i]`, with actual size
/// `sizes[i]`); blobs come in the order of their first file, and each lists
/// its files in increasing order. Only the entries of non-empty files in
/// `hashes` and `sizes` are read.
pub fn group_blobs(hints: &[u64], hashes: &[[u8; 32]], sizes: &[u64]) -> (groups: Vec<BlobGroup>)
    requires
        hashes@.len() == hints@.len(),
        sizes@.len() == hints@.len(),
        hints@.len() < MAX_TABLE_KEYS,
    ensures
        grouped(groups@, hints@, hashes@, sizes@),
        partitions(groups@, hints@.len()),
{
    let mut empties: Vec<usize> = Vec::new();
    let mut store = GroupHashes { hashes: Vec::new() };
    let mut groups: Vec<BlobGroup> = Vec::new();
    let mut table = HashTable::new(16);
    proof {
        assert forall|k: Seq<u8>| !#[trigger] table.holds(&store, k) by {
            if table.holds(&store, k) {
                let s = choose|s: int| table.holds_at(&store, s, k);
            }
        }
    }
    let n = hints.len();
    let mut i: usize = 0;
    while i < n
        invariant
            n == hints@.len(),
            hashes@.len() == n,
            sizes@.len() == n,
            n < MAX_TABLE_KEYS,
            i <= n,
            empties@ == empties_upto(hints@, i as int),
            store.keys().len() == firsts_upto(hints@, hashes@, i as int).len(),
            groups@.len() == store.keys().len(),
            table.wf(),
            table.keyed(&store),
            table.used() == store.keys().len(),
            store.keys().len() <= i,
            forall|g: int|
                0 <= g < store.keys().len() ==> #[trigger] group_ok(groups@, store.keys(), hints@, hashes@, sizes@, i as int, g),
            forall|k: Seq<u8>| #[trigger]
                table.holds(&store, k) <==> exists|g: int|
                    0 <= g < store.keys().len() && (#[trigger] store.keys()[g])@ == k,
            forall|k: int|
                0 <= k < i && hints@[k] != 0 ==> exists|g: int|
                    0 <= g < store.keys().len() && #[trigger] store.keys()[g] == hashes@[k],
            forall|g: int, h: int|
                0 <= g < store.keys().len() && 0 <= h < store.keys().len() && g != h ==> #[trigger] store.keys()[g]
                    != #[trigger] store.keys()[h],
        decreases n - i,
    {
        let ghost reps = firsts_upto(hints@, hashes@, i as int);
        if hints[i] == 0 {
            empties.push(i);
            proof {
                assert(!first_of_hash(hints@, hashes@, i as int));
                assert(firsts_upto(hints@, hashes@, i + 1) == reps);
                assert forall|g: int| 0 <= g < store.keys().len() implies #[trigger] group_ok(groups@, store.keys(), hints@, hashes@, sizes@, i + 1, g) by {
                    assert(group_ok(groups@, store.keys(), hints@, hashes@, sizes@, i as int, g));
                }
            }

        } else {
            let h = &hashes[i];
            let hash = hash_bytes(h);
            match table.find(&store, hash, h) {
                Some(p) => {
                    proof {
                        let s = choose|s: int|
                            #![trigger table.slots()[s]]
                            table.holds_at(&store, s, h@) && table.slots()[s].a == p.0
                                && table.slots()[s].b == p.1;
                        assert(table.slot_keyed(&store, s));
                    }
                    let g = pair_to_index(p.0, p.1);
                    proof {
                        lemma_array_view_injective(store.keys()[g as int], *h);
                        assert(store.keys()[g as int] == hashes@[i as int]);
                        let r = reps[g as int] as int;
                        assert(group_ok(groups@, store.keys(), hints@, hashes@, sizes@, i as int, g as int));
                        assert(hashes@[r] == hashes@[i as int]);
                        assert(!first_of_hash(hints@, hashes@, i as int));
                        assert(firsts_upto(hints@, hashes@, i + 1) == reps);
                    }
                    let ghost before = groups@;
                    groups[g].indices.push(i);
                    proof {
                        assert forall|gg: int| 0 <= gg < store.keys().len() implies #[trigger] group_ok(groups@, store.keys(), hints@, hashes@, sizes@, i + 1, gg) by {
                            assert(group_ok(before, store.keys(), hints@, hashes@, sizes@, i as int, gg));
                            if gg != g {
                                assert(store.keys()[gg] != store.keys()[g as int]);
                                assert(groups@[gg] == before[gg]);
                            }
                        }
                    }
                },
                None => {
                    proof {
                        assert forall|k: int| 0 <= k < i && hints@[k] != 0 implies #[trigger] hashes@[k]
                            != hashes@[i as int] by {
                            let g = choose|g: int|
                                0 <= g < store.keys().len() && #[trigger] store.keys()[g] == hashes@[k];
                            if hashes@[k] == hashes@[i as int] {
                                assert(store.keys()[g]@ == h@);
                                assert(table.holds(&store, h@));
                            }
                        }
                        assert(first_of_hash(hints@, hashes@, i as int));
                        assert(firsts_upto(hints@, hashes@, i + 1) == reps.push(i));
                        lemma_no_members(hints@, hashes@, hashes@[i as int], i as int);
                    }
                    let ghost old_store = store;
                    let ghost old_table = table;
                    let gidx = store.hashes.len();
                    store.hashes.push(*h);
                    proof {
                        assert forall|a: u32, b: u32| #[trigger]
                            old_store.valid_key(a, b) implies store.valid_key(a, b) && store.key_of(a, b)
                            == old_store.key_of(a, b) by {
                            assert(store.keys()[pair_index(a, b)] == old_store.keys()[pair_index(a, b)]);
                        }
                        table.lemma_store_extended(&old_store, &store);
                    }
                    let (ka, kb) = split_index(gidx);
                    proof {
                        assert(store.key_of(ka, kb) == h@);
                        if table.holds(&store, h@) {
                            assert(old_table.holds(&old_store, h@));
                        }
                    }
                    table.insert(&store, hash, ka, kb);
                    let mut l: Vec<usize> = Vec::new();
                    l.push(i);
                    let ghost before = groups@;
                    groups.push(BlobGroup { hash: *h, size: sizes[i], indices: l });
                    proof {
                        assert forall|gg: int| 0 <= gg < store.keys().len() implies #[trigger] group_ok(groups@, store.keys(), hints@, hashes@, sizes@, i + 1, gg) by {
                            if gg < gidx {
                                assert(group_ok(before, old_store.keys(), hints@, hashes@, sizes@, i as int, gg));
                                assert(store.keys()[gg] == old_store.keys()[gg]);
                                assert(groups@[gg] == before[gg]);
                                assert(old_store.keys()[gg] != hashes@[i as int]) by {
                                    if old_store.keys()[gg] == hashes@[i as int] {
                                        assert(old_table.holds(&old_store, old_store.keys()[gg]@));
                                    }
                                }
                            } else {
                                assert(l@ =~= seq![i]);
                            }
                        }
                        assert forall|k: Seq<u8>| #[trigger]
                            table.holds(&store, k) <==> exists|g: int|
                                0 <= g < store.keys().len() && (#[trigger] store.keys()[g])@ == k by {
                            if table.holds(&store, k) && k != h@ {
                                assert(old_table.holds(&old_store, k));
                                let g = choose|g: int|
                                    0 <= g < old_store.keys().len() && (#[trigger] old_store.keys()[g])@ == k;
                                assert(store.keys()[g] == old_store.keys()[g]);
                            }
                            if exists|g: int| 0 <= g < store.keys().len() && (#[trigger] store.keys()[g])@ == k {
                                let g = choose|g: int|
                                    0 <= g < store.keys().len() && (#[trigger] store.keys()[g])@ == k;
                                if g < gidx {
                                    assert(store.keys()[g] == old_store.keys()[g]);
                                    assert(old_table.holds(&old_store, k));
                                }
                            }
                        }
                        assert forall|k: int| 0 <= k < i + 1 && hints@[k] != 0 implies exists|g: int|
                            0 <= g < store.keys().len() && #[trigger] store.keys()[g] == hashes@[k] by {
                            if k < i {
                                let g = choose|g: int|
                                    0 <= g < old_store.keys().len() && #[trigger] old_store.keys()[g] == hashes@[k];
                                assert(store.keys()[g] == old_store.keys()[g]);
                            } else {
                                assert(store.keys()[gidx as int] == hashes@[k]);
                            }
                        }
                        assert forall|g: int, hh: int|
                            0 <= g < store.keys().len() && 0 <= hh < store.keys().len() && g != hh implies #[trigger] store.keys()[g]
                            != #[trigger] store.keys()[hh] by {
                            if g < gidx && hh < gidx {
                                assert(store.keys()[g] == old_store.keys()[g]);
                                assert(store.keys()[hh] == old_store.keys()[hh]);
                            } else if g < gidx {
                                if old_store.keys()[g] == hashes@[i as int] {
                                    assert(old_table.holds(&old_store, old_store.keys()[g]@));
                                }
                            } else if hh < gidx {
                                if old_store.keys()[hh] == hashes@[i as int] {
                                    assert(old_table.holds(&old_store, old_store.keys()[hh]@));
                                }
                            }
                        }
                    }
                },
            }
        }
        i += 1;
    }
    let ghost nonempty = groups@;
    let ghost keys = store.keys();
    let has_empty = empties.len() > 0;
    if has_empty {
        groups.insert(0, BlobGroup { hash: EMPTY_HASH, size: 0, indices: empties });
    }
    proof {
        let off: int = if has_empty {
            1
        } else {
            0
        };
        assert forall|g: int| 0 <= g < nonempty.len() implies {
            let r = firsts_upto(hints@, hashes@, n as int)[g] as int;
            &&& (#[trigger] groups@[off + g]).hash == hashes@[r]
            &&& groups@[off + g].size == sizes@[r]
            &&& groups@[off + g].indices@ == members_upto(hints@, hashes@, hashes@[r], n as int)
        } by {
            assert(group_ok(nonempty, keys, hints@, hashes@, sizes@, n as int, g));
            assert(groups@[off + g] == nonempty[g]);
        }
        assert(grouped(groups@, hints@, hashes@, sizes@));
        lemma_grouping_partitions(groups@, hints@, hashes@, sizes@);
    }
    groups
}

/// File `i` is one of group `g`'s files.
pub open spec fn in_group(groups: Seq<BlobGroup>, g: int, i: usize) -> bool {
    groups[g].indices@.contains(i)
}

/// File `i` belongs to one of the first `m` groups.
pub open spec fn covered(groups: Seq<BlobGroup>, m: int, i: usize) -> bool {
    exists|g: int| 0 <= g < m && #[trigger] in_group(groups, g, i)
}

/// The groups split the `n` files between them: each file index is below
/// `n` and belongs to exactly one group.
pub open spec fn partitions(groups: Seq<BlobGroup>, n: nat) -> bool {
    &&& forall|g: int, k: int|
        0 <= g < groups.len() && 0 <= k < groups[g].indices@.len() ==> (#[trigger] groups[g].indices@[k])
            < n
    &&& forall|i: usize| i < n ==> #[trigger] covered(groups, groups.len() as int, i)
    &&& forall|g: int, h: int, i: usize|
        0 <= g < groups.len() && 0 <= h < groups.len() && #[trigger] in_group(groups, g, i)
            && #[trigger] in_group(groups, h, i) ==> g == h
}

/// What `group_blobs` gives for these files: the empty blob first when
/// some file is empty, then one blob per content hash in the order of its
/// first file.
pub open spec fn grouped(groups: Seq<BlobGroup>, hints: Seq<u64>, hashes: Seq<[u8; 32]>, sizes: Seq<u64>) -> bool {
    let n = hints.len() as int;
    let empties = empties_upto(hints, n);
    let firsts = firsts_upto(hints, hashes, n);
    let off = if empties.len() > 0 {
        1int
    } else {
        0int
    };
    &&& groups.len() == off + firsts.len()
    &&& off == 1 ==> groups[0].hash == EMPTY_HASH && groups[0].size == 0 && groups[0].indices@
        == empties
    &&& forall|g: int|
        #![trigger firsts[g]]
        0 <= g < firsts.len() ==> {
            let r = firsts[g] as int;
            &&& groups[off + g].hash == hashes[r]
            &&& groups[off + g].size == sizes[r]
            &&& groups[off + g].indices@ == members_upto(hints, hashes, hashes[r], n)
        }
}

proof fn lemma_empties_contains(hints: Seq<u64>, n: int, x: usize)
    requires
        0 <= n <= hints.len(),
        hints.len() <= usize::MAX,
    ensures
        empties_upto(hints, n).contains(x) <==> x < n && hints[x as int] == 0,
        forall|k: int| 0 <= k < empties_upto(hints, n).len() ==> #[trigger] empties_upto(hints, n)[k] < n,
    decreases n,
{
    if n > 0 {
        lemma_empties_contains(hints, n - 1, x);
        let p = empties_upto(hints, n - 1);
        if hints[n - 1] == 0 {
            assert(p.push((n - 1) as usize)[p.len() as int] == (n - 1) as usize);
            if x == (n - 1) as usize {
                assert(p.push((n - 1) as usize)[p.len() as int] == x);
            }
            if p.contains(x) {
                let k = choose|k: int| 0 <= k < p.len() && p[k] == x;
                assert(p.push((n - 1) as usize)[k] == x);
            }
        }
    }
}

proof fn lemma_members_contains(hints: Seq<u64>, hashes: Seq<[u8; 32]>, h: [u8; 32], n: int, x: usize)
    requires
        0 <= n <= hints.len(),
        hashes.len() == hints.len(),
        hints.len() <= usize::MAX,
    ensures
        members_upto(hints, hashes, h, n).contains(x) <==> x < n && hints[x as int] != 0
            && hashes[x as int] == h,
        forall|k: int|
            0 <= k < members_upto(hints, hashes, h, n).len() ==> #[trigger] members_upto(
                hints,
                hashes,
                h,
                n,
            )[k] < n,
    decreases n,
{
    if n > 0 {
        lemma_members_contains(hints, hashes, h, n - 1, x);
        let p = members_upto(hints, hashes, h, n - 1);
        if hints[n - 1] != 0 && hashes[n - 1] == h {
            assert(p.push((n - 1) as usize)[p.len() as int] == (n - 1) as usize);
            if p.contains(x) {
                let k = choose|k: int| 0 <= k < p.len() && p[k] == x;
                assert(p.push((n - 1) as usize)[k] == x);
            }
        }
    }
}

proof fn lemma_firsts_facts(hints: Seq<u64>, hashes: Seq<[u8; 32]>, n: int)
    requires
        0 <= n <= hints.len(),
        hashes.len() == hints.len(),
        hints.len() <= usize::MAX,
    ensures
        forall|k: int|
            0 <= k < firsts_upto(hints, hashes, n).len() ==> #[trigger] firsts_upto(hints, hashes, n)[k]
                < n && first_of_hash(hints, hashes, firsts_upto(hints, hashes, n)[k] as int),
        forall|a: int, b: int|
            0 <= a < b < firsts_upto(hints, hashes, n).len() ==> #[trigger] firsts_upto(hints, hashes, n)[a]
                < #[trigger] firsts_upto(hints, hashes, n)[b],
        forall|x: int|
            0 <= x < n && first_of_hash(hints, hashes, x) ==> exists|k: int|
                0 <= k < firsts_upto(hints, hashes, n).len() && #[trigger] firsts_upto(hints, hashes, n)[k]
                    == x,
    decreases n,
{
    if n > 0 {
        lemma_firsts_facts(hints, hashes, n - 1);
        let p = firsts_upto(hints, hashes, n - 1);
        let f = firsts_upto(hints, hashes, n);
        if first_of_hash(hints, hashes, n - 1) {
            assert(f == p.push((n - 1) as usize));
            assert forall|x: int| 0 <= x < n && first_of_hash(hints, hashes, x) implies exists|k: int|
                0 <= k < f.len() && #[trigger] f[k] == x by {
                if x == n - 1 {
                    assert(f[p.len() as int] == x);
                } else {
                    let k = choose|k: int| 0 <= k < p.len() && #[trigger] p[k] == x;
                    assert(f[k] == x);
                }
            }
        }
    }
}

/// Every non-empty file has a first file of its hash at or before it.
proof fn lemma_first_exists(hints: Seq<u64>, hashes: Seq<[u8; 32]>, i: int)
    requires
        0 <= i < hints.len(),
        hashes.len() == hints.len(),
        hints.len() <= usize::MAX,
        hints[i] != 0,
    ensures
        exists|r: int| 0 <= r <= i && first_of_hash(hints, hashes, r) && #[trigger] hashes[r] == hashes[i],
    decreases i,
{
    if !first_of_hash(hints, hashes, i) {
        let k = choose|k: int| 0 <= k < i && hints[k] != 0 && #[trigger] hashes[k] == hashes[i];
        lemma_first_exists(hints, hashes, k);
        let r = choose|r: int| 0 <= r <= k && first_of_hash(hints, hashes, r) && #[trigger] hashes[r] == hashes[k];
        assert(hashes[r] == hashes[i]);
    } else {
        assert(hashes[i] == hashes[i]);
    }
}

/// The blobs `group_blobs` makes split the files between them: every file
/// belongs to exactly one blob.
pub proof fn lemma_grouping_partitions(
    groups: Seq<BlobGroup>,
    hints: Seq<u64>,
    hashes: Seq<[u8; 32]>,
    sizes: Seq<u64>,
)
    requires
        hashes.len() == hints.len(),
        sizes.len() == hints.len(),
        hints.len() <= usize::MAX,
        grouped(groups, hints, hashes, sizes),
    ensures
        partitions(groups, hints.len()),
{
    let n = hints.len() as int;
    let empties = empties_upto(hints, n);
    let firsts = firsts_upto(hints, hashes, n);
    let off = if empties.len() > 0 {
        1int
    } else {
        0int
    };
    lemma_firsts_facts(hints, hashes, n);
    assert forall|g: int, k: int|
        0 <= g < groups.len() && 0 <= k < groups[g].indices@.len() implies (
        #[trigger] groups[g].indices@[k]) < n by {
        let x = groups[g].indices@[k];
        if off == 1 && g == 0 {
            lemma_empties_contains(hints, n, x);
            assert(empties[k] == x);
        } else {
            let r = firsts[g - off] as int;
            assert(firsts[g - off] as int == r);
            lemma_members_contains(hints, hashes, hashes[r], n, x);
            assert(members_upto(hints, hashes, hashes[r], n)[k] == x);
        }
    }
    assert forall|i: usize| i < n implies #[trigger] covered(groups, groups.len() as int, i) by {
        if hints[i as int] == 0 {
            lemma_empties_contains(hints, n, i);
            assert(off == 1);
            assert(in_group(groups, 0, i));
        } else {
            lemma_first_exists(hints, hashes, i as int);
            let r = choose|r: int| 0 <= r <= i && first_of_hash(hints, hashes, r) && #[trigger] hashes[r] == hashes[i as int];
            let k = choose|k: int| 0 <= k < firsts.len() && #[trigger] firsts[k] == r;
            assert(firsts[k] as int == r);
            lemma_members_contains(hints, hashes, hashes[r], n, i);
            assert(in_group(groups, off + k, i));
        }
    }
    assert forall|g: int, h: int, i: usize|
        0 <= g < groups.len() && 0 <= h < groups.len() && #[trigger] in_group(groups, g, i)
            && #[trigger] in_group(groups, h, i) implies g == h by {
        lemma_group_member(groups, hints, hashes, sizes, g, i);
        lemma_group_member(groups, hints, hashes, sizes, h, i);
        if g != h && g >= off && h >= off {
            let a = firsts[g - off];
            let b = firsts[h - off];
            if g < h {
                assert(firsts[g - off] < firsts[h - off]);
                assert(hashes[a as int] == hashes[b as int]);
            } else {
                assert(firsts[h - off] < firsts[g - off]);
                assert(hashes[a as int] == hashes[b as int]);
            }
        }
    }
}

/// What belonging to group `g` says of a file.
proof fn lemma_group_member(
    groups: Seq<BlobGroup>,
    hints: Seq<u64>,
    hashes: Seq<[u8; 32]>,
    sizes: Seq<u64>,
    g: int,
    i: usize,
)
    requires
        hashes.len() == hints.len(),
        sizes.len() == hints.len(),
        hints.len() <= usize::MAX,
        grouped(groups, hints, hashes, sizes),
        0 <= g < groups.len(),
        in_group(groups, g, i),
    ensures
        ({
            let n = hints.len() as int;
            let off = if empties_upto(hints, n).len() > 0 {
                1int
            } else {
                0int
            };
            let firsts = firsts_upto(hints, hashes, n);
            &&& i < n
            &&& off == 1 && g == 0 ==> hints[i as int] == 0
            &&& g >= off ==> hints[i as int] != 0 && hashes[i as int] == hashes[firsts[g - off] as int]
                && firsts[g - off] < n && first_of_hash(hints, hashes, firsts[g - off] as int)
        }),
{
    let n = hints.len() as int;
    let empties = empties_upto(hints, n);
    let firsts = firsts_upto(hints, hashes, n);
    let off = if empties.len() > 0 {
        1int
    } else {
        0int
    };
    lemma_firsts_facts(hints, hashes, n);
    if off == 1 && g == 0 {
        lemma_empties_contains(hints, n, i);
    } else {
        let r = firsts[g - off] as int;
        assert(firsts[g - off] < n);
        assert(firsts[g - off] as int == r);
        lemma_members_contains(hints, hashes, hashes[r], n, i);
    }
}

/// Identical files share one blob: two non-empty files with the same
/// content hash belong to the same group, and so do any two empty files.
pub proof fn lemma_identical_files_share_blob(
    groups: Seq<BlobGroup>,
    hints: Seq<u64>,
    hashes: Seq<[u8; 32]>,
    sizes: Seq<u64>,
    i: usize,
    j: usize,
)
    requires
        hashes.len() == hints.len(),
        sizes.len() == hints.len(),
        hints.len() <= usize::MAX,
        grouped(groups, hints, hashes, sizes),
        i < hints.len(),
        j < hints.len(),
        (hints[i as int] != 0 && hints[j as int] != 0 && hashes[i as int] == hashes[j as int]) || (
        hints[i as int] == 0 && hints[j as int] == 0),
    ensures
        exists|g: int| 0 <= g < groups.len() && in_group(groups, g, i) && in_group(groups, g, j),
{
    lemma_grouping_partitions(groups, hints, hashes, sizes);
    assert(covered(groups, groups.len() as int, i));
    assert(covered(groups, groups.len() as int, j));
    let gi = choose|g: int| 0 <= g < groups.len() && #[trigger] in_group(groups, g, i);
    let gj = choose|g: int| 0 <= g < groups.len() && #[trigger] in_group(groups, g, j);
    lemma_group_member(groups, hints, hashes, sizes, gi, i);
    lemma_group_member(groups, hints, hashes, sizes, gj, j);
    let n = hints.len() as int;
    let off = if empties_upto(hints, n).len() > 0 {
        1int
    } else {
        0int
    };
    let firsts = firsts_upto(hints, hashes, n);
    lemma_firsts_facts(hints, hashes, n);
    if gi != gj && gi >= off && gj >= off {
        let a = firsts[gi - off];
        let b = firsts[gj - off];
        if gi < gj {
            assert(firsts[gi - off] < firsts[gj - off]);
        } else {
            assert(firsts[gj - off] < firsts[gi - off]);
        }
        assert(hashes[a as int] == hashes[b as int]);
    }
    assert(gi == gj);
}

} // verus!
