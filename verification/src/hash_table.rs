//! Open-addressing hash table with linear probing, keyed by the FNV-1a hash
//! of byte strings. The table holds only `(hash, a, b)` triples; what key a
//! pair `(a, b)` stands for is told by a [`KeyStore`].

use vstd::prelude::*;
use vstd::set_lib::*;

verus! {

/// FNV-1a (32-bit) of a byte string.
pub open spec fn fnv1a(bytes: Seq<u8>) -> u32
    decreases bytes.len(),
{
    if bytes.len() == 0 {
        0x811C9DC5u32
    } else {
        vstd::wrapping::u32_specs::wrapping_mul(
            fnv1a(bytes.drop_last()) ^ (bytes.last() as u32),
            0x01000193u32,
        )
    }
}

/// The hash as stored in a slot: never zero, since zero marks an empty slot.
pub open spec fn spec_store_hash(h: u32) -> u32 {
    h | 1
}

/// FNV-1a, 32-bit.
pub fn hash_bytes(bytes: &[u8]) -> (h: u32)
    ensures
        h == fnv1a(bytes@),
{
    let mut h: u32 = 0x811C9DC5u32;
    let mut i: usize = 0;
    while i < bytes.len()
        invariant
            i <= bytes@.len(),
            h == fnv1a(bytes@.subrange(0, i as int)),
        decreases bytes@.len() - i,
    {
        assert(bytes@.subrange(0, i + 1).drop_last() =~= bytes@.subrange(0, i as int));
        h = (h ^ (bytes[i] as u32)).wrapping_mul(0x01000193u32);
        i += 1;
    }
    assert(bytes@.subrange(0, bytes@.len() as int) =~= bytes@);
    h
}

/// Sets the low bit so a stored hash is never zero.
pub fn store_hash(h: u32) -> (s: u32)
    ensures
        s == spec_store_hash(h),
        s != 0,
{
    assert((h | 1u32) != 0u32) by (bit_vector);
    h | 1
}

/// Compares two byte strings.
pub fn bytes_eq(a: &[u8], b: &[u8]) -> (r: bool)
    ensures
        r == (a@ == b@),
{
    if a.len() != b.len() {
        return false;
    }
    let mut i: usize = 0;
    while i < a.len()
        invariant
            a@.len() == b@.len(),
            i <= a@.len(),
            forall|j: int| 0 <= j < i ==> a@[j] == b@[j],
        decreases a@.len() - i,
    {
        if a[i] != b[i] {
            return false;
        }
        i += 1;
    }
    assert(a@ =~= b@);
    true
}

/// Where the keys of the table live.
pub trait KeyStore {
    /// `(a, b)` names a key held by the store.
    spec fn valid_key(&self, a: u32, b: u32) -> bool;

    /// The key `(a, b)` names.
    spec fn key_of(&self, a: u32, b: u32) -> Seq<u8>;

    fn key_equals(&self, a: u32, b: u32, key: &[u8]) -> (r: bool)
        requires
            self.valid_key(a, b),
        ensures
            r == (self.key_of(a, b) == key@),
    ;
}

/// The store index a key pair `(a, b)` stands for: `a` holds the low 32
/// bits, `b` the high ones.
pub open spec fn pair_index(a: u32, b: u32) -> int {
    b as int * 0x1_0000_0000 + a as int
}

/// The key pair that stands for store index `i`.
pub fn split_index(i: usize) -> (r: (u32, u32))
    ensures
        pair_index(r.0, r.1) == i,
{
    let x = i as u64;
    let a = (x % 0x1_0000_0000) as u32;
    let b = (x / 0x1_0000_0000) as u32;
    (a, b)
}

/// The store index that key pair `(a, b)` stands for.
pub fn pair_to_index(a: u32, b: u32) -> (i: usize)
    requires
        pair_index(a, b) <= usize::MAX,
    ensures
        i == pair_index(a, b),
{
    ((b as u64) * 0x1_0000_0000 + (a as u64)) as usize
}

#[derive(Clone, Copy)]
pub struct Entry {
    /// 0 marks an empty slot.
    pub hash: u32,
    pub a: u32,
    pub b: u32,
}

/// The slot reached `d` steps after `h` in a table of `n` slots.
pub open spec fn probe(h: int, d: int, n: int) -> int {
    if h + d < n {
        h + d
    } else {
        h + d - n
    }
}

/// Number of steps from `h` forward to `i`, wrapping around.
pub open spec fn dist(h: int, i: int, n: int) -> int {
    if i >= h {
        i - h
    } else {
        i + n - h
    }
}

pub open spec fn occ(es: Seq<Entry>, i: int) -> bool {
    es[i].hash != 0
}

pub open spec fn home(es: Seq<Entry>, i: int) -> int {
    (es[i].hash as int) % (es.len() as int)
}

/// Linear probing's invariant: between an entry's home slot and the slot
/// that holds it, every slot is occupied.
pub open spec fn clustered(es: Seq<Entry>) -> bool {
    forall|i: int, d: int|
        0 <= i < es.len() && occ(es, i) && 0 <= d < dist(home(es, i), i, es.len() as int)
            ==> #[trigger] occ(es, probe(home(es, i), d, es.len() as int))
}

pub open spec fn occupied_set(es: Seq<Entry>) -> Set<int> {
    Set::new(|i: int| 0 <= i < es.len() && occ(es, i))
}

/// Occupied slots below `k`.
pub open spec fn occupied_below(es: Seq<Entry>, k: int) -> Set<int> {
    Set::new(|i: int| 0 <= i < k && i < es.len() && occ(es, i))
}

pub struct HashTable {
    entries: Vec<Entry>,
    used: usize,
}

/// Keys are at most this many: beyond it the slots the table needs could
/// not be addressed (about three sixteenths of the address space).
pub const MAX_TABLE_KEYS: usize = usize::MAX / 16 * 3;

impl HashTable {
    pub closed spec fn slots(&self) -> Seq<Entry> {
        self.entries@
    }

    pub closed spec fn used(&self) -> nat {
        self.used as nat
    }

    /// How many keys the table holds.
    pub fn len(&self) -> (n: usize)
        ensures
            n == self.used(),
    {
        self.used
    }

    /// Shape of the table, independent of the keys it holds.
    pub closed spec fn wf(&self) -> bool {
        let es = self.entries@;
        let n = es.len();
        &&& 16 <= n <= usize::MAX / 2
        &&& n <= 0x2000 || n <= 4 * (self.used + 16)
        &&& self.used < n
        &&& self.used * 4 < n * 3 + 4
        &&& self.used <= MAX_TABLE_KEYS
        &&& occupied_set(es).finite()
        &&& occupied_set(es).len() == self.used
        &&& clustered(es)
    }

    /// Slot `i` holds key `(a, b)` of `store`, with the key's stored hash.
    pub open spec fn slot_keyed<S: KeyStore>(&self, store: &S, i: int) -> bool {
        let e = self.slots()[i];
        store.valid_key(e.a, e.b) && e.hash == spec_store_hash(fnv1a(store.key_of(e.a, e.b)))
    }

    /// Every occupied slot holds a key of `store`, and no key is held twice.
    pub open spec fn keyed<S: KeyStore>(&self, store: &S) -> bool {
        &&& forall|i: int|
            0 <= i < self.slots().len() && occ(self.slots(), i) ==> #[trigger] self.slot_keyed(
                store,
                i,
            )
        &&& forall|i: int, j: int|
            0 <= i < self.slots().len() && 0 <= j < self.slots().len() && occ(self.slots(), i)
                && occ(self.slots(), j) && i != j ==> #[trigger] store.key_of(
                self.slots()[i].a,
                self.slots()[i].b,
            ) != #[trigger] store.key_of(self.slots()[j].a, self.slots()[j].b)
    }

    /// Slot `i` holds `key`.
    pub open spec fn holds_at<S: KeyStore>(&self, store: &S, i: int, key: Seq<u8>) -> bool {
        0 <= i < self.slots().len() && occ(self.slots(), i) && store.key_of(
            self.slots()[i].a,
            self.slots()[i].b,
        ) == key
    }

    pub open spec fn holds<S: KeyStore>(&self, store: &S, key: Seq<u8>) -> bool {
        exists|i: int| self.holds_at(store, i, key)
    }

    /// Moving to a store that keeps every key of the old one, under the same
    /// pair, keeps the table keyed and holding the same keys.
    pub proof fn lemma_store_extended<S: KeyStore>(&self, s1: &S, s2: &S)
        requires
            self.keyed(s1),
            forall|a: u32, b: u32| #[trigger]
                s1.valid_key(a, b) ==> s2.valid_key(a, b) && s2.key_of(a, b) == s1.key_of(a, b),
        ensures
            self.keyed(s2),
            forall|k: Seq<u8>| #[trigger] self.holds(s2, k) <==> self.holds(s1, k),
            forall|i: int, k: Seq<u8>| #[trigger]
                self.holds_at(s2, i, k) <==> self.holds_at(s1, i, k),
    {
        let es = self.slots();
        assert forall|i: int| 0 <= i < es.len() && occ(es, i) implies #[trigger] self.slot_keyed(
            s2,
            i,
        ) by {
            assert(self.slot_keyed(s1, i));
        }
        assert forall|i: int, j: int|
            0 <= i < es.len() && 0 <= j < es.len() && occ(es, i) && occ(es, j) && i != j implies #[trigger] s2.key_of(
            es[i].a,
            es[i].b,
        ) != #[trigger] s2.key_of(es[j].a, es[j].b) by {
            assert(self.slot_keyed(s1, i));
            assert(self.slot_keyed(s1, j));
            assert(s1.key_of(es[i].a, es[i].b) != s1.key_of(es[j].a, es[j].b));
        }
        assert forall|i: int, k: Seq<u8>| #[trigger]
            self.holds_at(s2, i, k) <==> self.holds_at(s1, i, k) by {
            if 0 <= i < es.len() && occ(es, i) {
                assert(self.slot_keyed(s1, i));
            }
        }
        assert forall|k: Seq<u8>| #[trigger] self.holds(s2, k) <==> self.holds(s1, k) by {
            if self.holds(s2, k) {
                let i = choose|i: int| self.holds_at(s2, i, k);
                assert(self.holds_at(s1, i, k));
            }
            if self.holds(s1, k) {
                let i = choose|i: int| self.holds_at(s1, i, k);
                assert(self.holds_at(s2, i, k));
            }
        }
    }

    /// A table of at least 16 slots, rounded up to a power of two.
    pub fn new(cap: usize) -> (t: HashTable)
        requires
            cap <= 0x1000,
        ensures
            t.wf(),
            t.used() == 0,
            forall|i: int| 0 <= i < t.slots().len() ==> !occ(t.slots(), i),
    {
        let mut size: usize = 1;
        while size < cap
            invariant
                1 <= size <= 0x2000,
                cap <= 0x1000,
            decreases 0x2000 - size,
        {
            size = size * 2;
        }
        if size < 16 {
            size = 16;
        }
        let entries = vec![Entry { hash: 0, a: 0, b: 0 }; size];
        proof {
            assert(occupied_set(entries@) =~= Set::<int>::empty());
        }
        HashTable { entries, used: 0 }
    }

    /// Finds the slot holding `key`, if any, and returns its pair.
    pub fn find<S: KeyStore>(&self, store: &S, hash: u32, key: &[u8]) -> (r: Option<(u32, u32)>)
        requires
            self.wf(),
            self.keyed(store),
            hash == fnv1a(key@),
        ensures
            r is None <==> !self.holds(store, key@),
            r matches Some(p) ==> exists|i: int|
                #![trigger self.slots()[i]]
                self.holds_at(store, i, key@) && self.slots()[i].a == p.0 && self.slots()[i].b
                    == p.1,
    {
        let ghost es = self.entries@;
        let stored = store_hash(hash);
        let n = self.entries.len();
        let h0 = (stored as usize) % n;
        let mut idx = h0;
        let mut d: usize = 0;
        while d < n
            invariant
                es == self.entries@,
                n == es.len(),
                self.wf(),
                self.keyed(store),
                stored == spec_store_hash(fnv1a(key@)),
                h0 == (stored as int) % (n as int),
                0 <= h0 < n,
                d <= n,
                idx == probe(h0 as int, d as int, n as int),
                d < n ==> idx < n,
                forall|k: int|
                    0 <= k < d ==> #[trigger] occ(es, probe(h0 as int, k, n as int)) && store.key_of(
                        es[probe(h0 as int, k, n as int)].a,
                        es[probe(h0 as int, k, n as int)].b,
                    ) != key@,
            decreases n - d,
        {
            let e = self.entries[idx];
            if e.hash == 0 {
                proof {
                    assert(es == self.slots());
                    self.lemma_absent_at_gap(store, key@, h0 as int, d as int);
                }
                return None;
            }
            if e.hash == stored {
                assert(self.slot_keyed(store, idx as int));
                if store.key_equals(e.a, e.b, key) {
                    assert(self.holds_at(store, idx as int, key@));
                    return Some((e.a, e.b));
                }
            } else {
                assert(self.slot_keyed(store, idx as int));
            }
            assert(occ(es, probe(h0 as int, d as int, n as int)) && store.key_of(
                es[probe(h0 as int, d as int, n as int)].a,
                es[probe(h0 as int, d as int, n as int)].b,
            ) != key@);
            idx = if idx + 1 == n {
                0
            } else {
                idx + 1
            };
            d += 1;
            assert forall|k: int| 0 <= k < d implies #[trigger] occ(es, probe(h0 as int, k, n as int))
                && store.key_of(
                es[probe(h0 as int, k, n as int)].a,
                es[probe(h0 as int, k, n as int)].b,
            ) != key@ by {
                if k < d - 1 {
                    assert(occ(es, probe(h0 as int, k, n as int)));
                }
            }
        }
        proof {
            assert forall|i: int| !#[trigger] self.holds_at(store, i, key@) by {
                if self.holds_at(store, i, key@) {
                    assert(self.slot_keyed(store, i));
                    let k = dist(h0 as int, i, n as int);
                    assert(probe(h0 as int, k, n as int) == i);
                    assert(occ(es, probe(h0 as int, k, n as int)));
                }
            }
        }
        None
    }

    /// Probing for `key` from its home reached an empty slot after `d` steps,
    /// every earlier slot holding another key: the key is absent.
    proof fn lemma_absent_at_gap<S: KeyStore>(&self, store: &S, key: Seq<u8>, h0: int, d: int)
        requires
            self.wf(),
            self.keyed(store),
            h0 == (spec_store_hash(fnv1a(key)) as int) % (self.slots().len() as int),
            0 <= d < self.slots().len(),
            !occ(self.slots(), probe(h0, d, self.slots().len() as int)),
            forall|k: int|
                0 <= k < d ==> #[trigger] occ(self.slots(), probe(h0, k, self.slots().len() as int))
                    && store.key_of(
                    self.slots()[probe(h0, k, self.slots().len() as int)].a,
                    self.slots()[probe(h0, k, self.slots().len() as int)].b,
                ) != key,
        ensures
            !self.holds(store, key),
    {
        let es = self.slots();
        let n = es.len() as int;
        assert forall|i: int| !#[trigger] self.holds_at(store, i, key) by {
            if self.holds_at(store, i, key) {
                assert(self.slot_keyed(store, i));
                assert(home(es, i) == h0);
                let k = dist(h0, i, n);
                assert(probe(h0, k, n) == i);
                if k < d {
                    assert(occ(es, probe(h0, k, n)));
                } else if k == d {
                } else {
                    assert(occ(es, probe(home(es, i), d, n)));
                }
            }
        }
    }

    /// Puts `e` into the first free slot on its probe sequence.
    fn place(entries: &mut Vec<Entry>, e: Entry, Ghost(used): Ghost<nat>) -> (pos: usize)
        requires
            e.hash != 0,
            old(entries)@.len() >= 1,
            used < old(entries)@.len(),
            occupied_set(old(entries)@).finite(),
            occupied_set(old(entries)@).len() == used,
            clustered(old(entries)@),
        ensures
            pos < old(entries)@.len(),
            !occ(old(entries)@, pos as int),
            final(entries)@ == old(entries)@.update(pos as int, e),
            occupied_set(final(entries)@) == occupied_set(old(entries)@).insert(pos as int),
            occupied_set(final(entries)@).finite(),
            occupied_set(final(entries)@).len() == used + 1,
            clustered(final(entries)@),
    {
        let ghost es = entries@;
        let n = entries.len();
        let h0 = (e.hash as usize) % n;
        let mut idx = h0;
        let mut d: usize = 0;
        loop
            invariant
                es == entries@,
                n == es.len(),
                n >= 1,
                used < n,
                occupied_set(es).finite(),
                occupied_set(es).len() == used,
                h0 == (e.hash as int) % (n as int),
                d < n,
                idx == probe(h0 as int, d as int, n as int),
                idx < n,
                forall|k: int| 0 <= k < d ==> #[trigger] occ(es, probe(h0 as int, k, n as int)),
            ensures
                es == entries@,
                d < n,
                idx == probe(h0 as int, d as int, n as int),
                idx < n,
                !occ(es, idx as int),
                forall|k: int| 0 <= k < d ==> #[trigger] occ(es, probe(h0 as int, k, n as int)),
            decreases n - d,
        {
            if entries[idx].hash == 0 {
                break;
            }
            if d + 1 == n {
                proof {
                    assert(occ(es, probe(h0 as int, d as int, n as int)));
                    assert(set_int_range(0, n as int).subset_of(occupied_set(es))) by {
                        assert forall|j: int| set_int_range(0, n as int).contains(j) implies
                            occupied_set(es).contains(j) by {
                            let k = dist(h0 as int, j, n as int);
                            assert(probe(h0 as int, k, n as int) == j);
                            assert(occ(es, probe(h0 as int, k, n as int)));
                        }
                    }
                    lemma_int_range(0, n as int);
                    lemma_len_subset(set_int_range(0, n as int), occupied_set(es));
                }
                assert(false);
            }
            idx = if idx + 1 == n {
                0
            } else {
                idx + 1
            };
            d += 1;
        }
        entries.set(idx, e);
        proof {
            let nes = entries@;
            assert(occupied_set(nes) =~= occupied_set(es).insert(idx as int));
            assert(!occupied_set(es).contains(idx as int));
            assert(home(nes, idx as int) == h0);
            assert(dist(h0 as int, idx as int, n as int) == d);
            assert forall|i: int, k: int|
                0 <= i < nes.len() && occ(nes, i) && 0 <= k < dist(home(nes, i), i, nes.len() as int)
                    implies #[trigger] occ(nes, probe(home(nes, i), k, nes.len() as int)) by {
                if i == idx {
                    assert(occ(es, probe(h0 as int, k, n as int)));
                } else {
                    assert(home(nes, i) == home(es, i));
                    assert(occ(es, probe(home(es, i), k, n as int)));
                }
            }
        }
        idx
    }

    /// Adds a key that the table does not hold yet, growing the table first
    /// once three quarters of its slots are used.
    pub fn insert<S: KeyStore>(&mut self, store: &S, hash: u32, a: u32, b: u32)
        requires
            old(self).wf(),
            old(self).keyed(store),
            old(self).used() < MAX_TABLE_KEYS,
            store.valid_key(a, b),
            hash == fnv1a(store.key_of(a, b)),
            !old(self).holds(store, store.key_of(a, b)),
        ensures
            final(self).wf(),
            final(self).keyed(store),
            final(self).used() == old(self).used() + 1,
            forall|k: Seq<u8>| #[trigger]
                final(self).holds(store, k) <==> (old(self).holds(store, k) || k == store.key_of(
                    a,
                    b,
                )),
            forall|i: int|
                0 <= i < final(self).slots().len() && occ(final(self).slots(), i) ==> ((
                #[trigger] final(self).slots()[i]).a == a && final(self).slots()[i].b == b) || exists|
                    j: int,
                |
                    0 <= j < old(self).slots().len() && occ(old(self).slots(), j) && old(
                        self,
                    ).slots()[j] == final(self).slots()[i],
    {
        if (self.used as u128) * 4 >= (self.entries.len() as u128) * 3 {
            self.rehash(store);
        }
        let ghost mid = *self;
        let stored = store_hash(hash);
        let e = Entry { hash: stored, a, b };
        let pos = Self::place(&mut self.entries, e, Ghost(self.used as nat));
        self.used = self.used + 1;
        proof {
            let es = mid.entries@;
            let nes = self.entries@;
            assert(!mid.holds(store, store.key_of(a, b)));
            assert forall|i: int|
                0 <= i < nes.len() && occ(nes, i) implies ((#[trigger] nes[i]).a == a && nes[i].b
                == b) || exists|j: int|
                0 <= j < old(self).slots().len() && occ(old(self).slots(), j) && old(self).slots()[j]
                    == nes[i] by {
                if i != pos {
                    assert(occ(es, i) && es[i] == nes[i]);
                    if mid.entries@ != old(self).entries@ {
                        let j = choose|j: int|
                            0 <= j < old(self).slots().len() && occ(old(self).slots(), j) && old(
                                self,
                            ).slots()[j] == #[trigger] mid.slots()[i];
                    } else {
                        assert(old(self).slots()[i] == nes[i]);
                    }
                }
            }
            assert forall|i: int| 0 <= i < nes.len() && occ(nes, i) implies #[trigger] self.slot_keyed(
                store,
                i,
            ) by {
                if i != pos {
                    assert(mid.slot_keyed(store, i));
                }
            }
            assert forall|i: int, j: int|
                0 <= i < nes.len() && 0 <= j < nes.len() && occ(nes, i) && occ(nes, j) && i
                    != j implies #[trigger] store.key_of(nes[i].a, nes[i].b) != #[trigger] store.key_of(
                nes[j].a,
                nes[j].b,
            ) by {
                if i == pos {
                    assert(!mid.holds_at(store, j, store.key_of(a, b)));
                } else if j == pos {
                    assert(!mid.holds_at(store, i, store.key_of(a, b)));
                } else {
                    assert(store.key_of(es[i].a, es[i].b) != store.key_of(es[j].a, es[j].b));
                }
            }
            assert forall|k: Seq<u8>| #[trigger]
                self.holds(store, k) <==> (mid.holds(store, k) || k == store.key_of(a, b)) by {
                if self.holds(store, k) {
                    let i = choose|i: int| self.holds_at(store, i, k);
                    if i != pos {
                        assert(mid.holds_at(store, i, k));
                    }
                }
                if mid.holds(store, k) {
                    let i = choose|i: int| mid.holds_at(store, i, k);
                    assert(self.holds_at(store, i, k));
                }
                if k == store.key_of(a, b) {
                    assert(self.holds_at(store, pos as int, k));
                }
            }
        }
    }

    /// Doubles the number of slots and re-places every entry.
    fn rehash<S: KeyStore>(&mut self, store: &S)
        requires
            old(self).wf(),
            old(self).keyed(store),
            old(self).used() < MAX_TABLE_KEYS,
            old(self).used() * 4 >= old(self).slots().len() * 3,
        ensures
            final(self).wf(),
            final(self).keyed(store),
            final(self).used() == old(self).used(),
            final(self).used() * 4 < final(self).slots().len() * 3,
            forall|k: Seq<u8>| #[trigger] final(self).holds(store, k) <==> old(self).holds(store, k),
            forall|i: int|
                0 <= i < final(self).slots().len() && occ(final(self).slots(), i) ==> exists|j: int|
                    0 <= j < old(self).slots().len() && occ(old(self).slots(), j) && old(
                        self,
                    ).slots()[j] == #[trigger] final(self).slots()[i],
    {
        let n = self.entries.len();
        let new_size = n * 2;
        let mut new_entries = vec![Entry { hash: 0, a: 0, b: 0 }; new_size];
        let ghost es = self.entries@;
        let ghost mut placed: nat = 0;
        proof {
            assert(occupied_set(new_entries@) =~= Set::<int>::empty());
            assert(occupied_below(es, 0) =~= Set::<int>::empty());
        }
        let mut i: usize = 0;
        while i < n
            invariant
                es == self.entries@,
                n == es.len(),
                self.wf(),
                self.keyed(store),
                new_entries@.len() == new_size,
                new_size == 2 * n,
                i <= n,
                occupied_set(new_entries@).finite(),
                occupied_set(new_entries@).len() == placed,
                placed == occupied_below(es, i as int).len(),
                occupied_below(es, i as int).finite(),
                clustered(new_entries@),
                forall|j: int|
                    0 <= j < new_size && occ(new_entries@, j) ==> exists|k: int|
                        0 <= k < i && occ(es, k) && #[trigger] new_entries@[j] == es[k],
                forall|k: int|
                    0 <= k < i && occ(es, k) ==> exists|j: int|
                        0 <= j < new_size && occ(new_entries@, j) && new_entries@[j] == #[trigger] es[k],
                forall|x: int, y: int|
                    0 <= x < new_size && 0 <= y < new_size && occ(new_entries@, x) && occ(
                        new_entries@,
                        y,
                    ) && x != y ==> #[trigger] new_entries@[x] != #[trigger] new_entries@[y],
            decreases n - i,
        {
            let e = self.entries[i];
            let ghost before = new_entries@;
            proof {
                let f = occupied_below(es, i as int);
                let g = occupied_below(es, i + 1);
                lemma_len_subset(f, occupied_set(es));
                assert(placed <= self.used);
                if occ(es, i as int) {
                    assert(g =~= f.insert(i as int));
                } else {
                    assert(g =~= f);
                }
            }
            if e.hash != 0 {
                let pos = Self::place(&mut new_entries, e, Ghost(placed));
                proof {
                    placed = placed + 1;
                    assert forall|j: int|
                        0 <= j < new_size && occ(new_entries@, j) implies exists|k: int|
                            0 <= k < i + 1 && occ(es, k) && #[trigger] new_entries@[j] == es[k] by {
                        if j == pos {
                            assert(new_entries@[j] == es[i as int]);
                        } else {
                            assert(occ(before, j));
                        }
                    }
                    assert forall|x: int, y: int|
                        0 <= x < new_size && 0 <= y < new_size && occ(new_entries@, x) && occ(
                            new_entries@,
                            y,
                        ) && x != y implies #[trigger] new_entries@[x] != #[trigger] new_entries@[y] by {
                        if x == pos {
                            let k = choose|k: int| 0 <= k < i && occ(es, k) && before[y] == es[k];
                            assert(old(self).slot_keyed(store, k));
                            assert(store.key_of(es[k].a, es[k].b) != store.key_of(es[i as int].a, es[i as int].b));
                        } else if y == pos {
                            assert(before[x] == new_entries@[x]);
                            assert(occ(before, x));
                            let k = choose|k: int| 0 <= k < i && occ(es, k) && before[x] == es[k];
                            assert(old(self).slot_keyed(store, k));
                            assert(store.key_of(es[k].a, es[k].b) != store.key_of(es[i as int].a, es[i as int].b));
                        } else {
                            assert(before[x] != before[y]);
                        }
                    }
                    assert forall|k: int| 0 <= k < i + 1 && occ(es, k) implies exists|j: int|
                        0 <= j < new_size && occ(new_entries@, j) && new_entries@[j]
                            == #[trigger] es[k] by {
                        if k == i {
                            assert(new_entries@[pos as int] == es[k]);
                        } else {
                            let j = choose|j: int|
                                0 <= j < new_size && occ(before, j) && before[j] == es[k];
                            assert(j != pos);
                            assert(new_entries@[j] == es[k]);
                        }
                    }
                }
            }
            i += 1;
        }
        proof {
            assert(occupied_below(es, n as int) =~= occupied_set(es));
        }
        self.entries = new_entries;
        proof {
            let nes = self.entries@;
            assert forall|j: int| 0 <= j < nes.len() && occ(nes, j) implies #[trigger] self.slot_keyed(
                store,
                j,
            ) by {
                let k = choose|k: int| 0 <= k < n && occ(es, k) && nes[j] == es[k];
                assert(old(self).slot_keyed(store, k));
            }
            assert forall|x: int, y: int|
                0 <= x < nes.len() && 0 <= y < nes.len() && occ(nes, x) && occ(nes, y) && x
                    != y implies #[trigger] store.key_of(nes[x].a, nes[x].b) != #[trigger] store.key_of(
                nes[y].a,
                nes[y].b,
            ) by {
                let kx = choose|k: int| 0 <= k < n && occ(es, k) && nes[x] == es[k];
                let ky = choose|k: int| 0 <= k < n && occ(es, k) && nes[y] == es[k];
                assert(nes[x] != nes[y]);
                assert(kx != ky);
            }
            assert forall|k: Seq<u8>| #[trigger] self.holds(store, k) <==> old(self).holds(store, k) by {
                if self.holds(store, k) {
                    let j = choose|j: int| self.holds_at(store, j, k);
                    let kk = choose|kk: int| 0 <= kk < n && occ(es, kk) && nes[j] == es[kk];
                    assert(old(self).holds_at(store, kk, k));
                }
                if old(self).holds(store, k) {
                    let kk = choose|kk: int| old(self).holds_at(store, kk, k);
                    let j = choose|j: int| 0 <= j < new_size && occ(nes, j) && nes[j] == es[kk];
                    assert(self.holds_at(store, j, k));
                }
            }
        }
    }
}

} // verus!
