//! A string interner that stores each distinct string once in a chunked
//! byte arena and hands out `StrRef` handles into it.

use vstd::prelude::*;
use vstd::utf8::*;
use crate::hash_table::{bytes_eq, hash_bytes, fnv1a, occ, HashTable, KeyStore, MAX_TABLE_KEYS};
use crate::text::str_from_utf8;
use vstd::string::StringSliceAdditionalSpecFns;

verus! {

broadcast use {vstd::utf8::encode_utf8_valid_utf8, vstd::utf8::encode_utf8_decode_utf8};

/// A handle to an interned string: its offset and length in the arena.
#[derive(Debug, Clone, Copy, PartialEq, Eq, Hash, Structural)]
pub struct StrRef {
    pub offset: u32,
    pub len: u32,
}

/// Capacity of one arena chunk. A string never crosses chunks.
pub const CHUNK_SIZE: usize = 4194304;

struct Chunk {
    data: Vec<u8>,
}

/// Bytes kept in chunks; offsets count from the start of the first chunk.
pub struct ChunkedArena {
    chunks: Vec<Chunk>,
    len: u32,
    /// Offset at which each chunk starts.
    starts: Ghost<Seq<int>>,
    /// All bytes, chunk after chunk.
    all: Ghost<Seq<u8>>,
}

impl ChunkedArena {
    pub closed spec fn content(&self) -> Seq<u8> {
        self.all@
    }

    closed spec fn chunk_len(&self, i: int) -> int {
        self.chunks@[i].data@.len() as int
    }

    closed spec fn chunk_end(&self, i: int) -> int {
        self.starts@[i] + self.chunk_len(i)
    }

    pub closed spec fn wf(&self) -> bool {
        let n = self.chunks@.len();
        &&& n >= 1
        &&& self.starts@.len() == n
        &&& self.starts@[0] == 0
        &&& forall|i: int| 0 <= i < n - 1 ==> #[trigger] self.starts@[i + 1] == self.chunk_end(i)
        &&& forall|i: int, j: int|
            0 <= i <= j < n ==> #[trigger] self.starts@[i] <= #[trigger] self.starts@[j]
        &&& forall|i: int| 0 <= i < n ==> #[trigger] self.chunk_len(i) >= 1
        &&& forall|i: int|
            0 <= i < n ==> #[trigger] self.chunks@[i].data@ == self.all@.subrange(
                self.starts@[i],
                self.chunk_end(i),
            )
        &&& self.chunk_end(n - 1) == self.all@.len()
        &&& self.all@.len() == self.len as int
    }

    /// How many bytes the arena holds.
    pub fn len(&self) -> (n: u32)
        requires
            self.wf(),
        ensures
            n == self.content().len(),
    {
        self.len
    }

    /// `r` lies inside one chunk.
    pub closed spec fn in_bounds(&self, r: StrRef) -> bool {
        exists|i: int|
            0 <= i < self.chunks@.len() && self.starts@[i] <= r.offset < self.chunk_end(i)
                && #[trigger] self.chunk_end(i) >= r.offset + r.len
    }

    pub open spec fn ref_bytes(&self, r: StrRef) -> Seq<u8> {
        self.content().subrange(r.offset as int, r.offset + r.len)
    }

    /// Every reference inside `self` stays inside `other`, with the same bytes.
    pub open spec fn extended_by(&self, other: &ChunkedArena) -> bool {
        &&& self.content().len() <= other.content().len()
        &&& self.content() == other.content().subrange(0, self.content().len() as int)
        &&& forall|r: StrRef| #[trigger] self.in_bounds(r) ==> other.in_bounds(r)
    }

    pub proof fn lemma_in_bounds_range(&self, r: StrRef)
        requires
            self.wf(),
            self.in_bounds(r),
        ensures
            r.offset + r.len <= self.content().len(),
    {
        let i = choose|i: int|
            0 <= i < self.chunks@.len() && self.starts@[i] <= r.offset < self.chunk_end(i)
                && #[trigger] self.chunk_end(i) >= r.offset + r.len;
        let n = self.chunks@.len() as int;
        if i < n - 1 {
            assert(self.starts@[i + 1] <= self.starts@[n - 1]);
        }
    }

    proof fn lemma_chunk_inside(&self, i: int)
        requires
            self.wf(),
            0 <= i < self.chunks@.len(),
        ensures
            0 <= self.starts@[i] <= self.chunk_end(i) <= self.all@.len(),
    {
        let n = self.chunks@.len() as int;
        assert(self.starts@[0] <= self.starts@[i]);
        assert(self.chunk_len(i) >= 1);
        if i < n - 1 {
            assert(self.starts@[i + 1] <= self.starts@[n - 1]);
            assert(self.chunk_len(n - 1) >= 1);
        }
    }

    /// A single chunk holding one zero byte, so that offset 0 is always valid.
    pub fn new() -> (a: ChunkedArena)
        ensures
            a.wf(),
            a.content() == seq![0u8],
    {
        let data = vec![0u8];
        let chunks = vec![Chunk { data }];
        let ghost starts = seq![0int];
        let ghost all = seq![0u8];
        let a = ChunkedArena { chunks, len: 1, starts: Ghost(starts), all: Ghost(all) };
        assert(a.chunks@[0].data@ =~= a.all@.subrange(0, 1));
        a
    }

    /// Appends `bytes`, opening a new chunk when the last one would pass
    /// `CHUNK_SIZE`. The empty string is `{0, 0}`.
    pub fn push(&mut self, bytes: &[u8]) -> (r: StrRef)
        requires
            old(self).wf(),
            old(self).content().len() + bytes@.len() <= u32::MAX,
        ensures
            final(self).wf(),
            old(self).extended_by(final(self)),
            bytes@.len() == 0 ==> r == (StrRef { offset: 0, len: 0 }) && final(self).content()
                == old(self).content(),
            bytes@.len() > 0 ==> r == (StrRef {
                offset: old(self).content().len() as u32,
                len: bytes@.len() as u32,
            }) && final(self).content() == old(self).content() + bytes@,
            final(self).in_bounds(r),
            final(self).ref_bytes(r) == bytes@,
    {
        if bytes.len() == 0 {
            proof {
                assert(self.chunk_end(0) >= 1);
                assert(self.in_bounds(StrRef { offset: 0, len: 0 }));
                assert(self.extended_by(self)) by {
                    assert(self.content() =~= self.content().subrange(0, self.content().len() as int));
                }
            }
            return StrRef { offset: 0, len: 0 };
        }
        let ghost old_self = *self;
        let n_bytes = bytes.len() as u32;
        let new_len = self.len + n_bytes;
        let last = self.chunks.len() - 1;
        let needs_new_chunk = self.chunks[last].data.len() + bytes.len() > CHUNK_SIZE;
        if needs_new_chunk {
            let cap = if bytes.len() > CHUNK_SIZE {
                bytes.len()
            } else {
                CHUNK_SIZE
            };
            let mut data: Vec<u8> = Vec::with_capacity(cap);
            data.extend_from_slice(bytes);
            assert(data@ =~= bytes@);
            self.chunks.push(Chunk { data });
            proof {
                self.starts@ = self.starts@.push(old_self.all@.len() as int);
            }
        } else {
            let mut chunk = self.chunks.pop().unwrap();
            chunk.data.extend_from_slice(bytes);
            self.chunks.push(chunk);
        }
        let offset = self.len;
        self.len = new_len;
        proof {
            self.all@ = old_self.all@ + bytes@;
            let n = self.chunks@.len() as int;
            assert forall|i: int| 0 <= i < n implies #[trigger] self.chunks@[i].data@
                == self.all@.subrange(self.starts@[i], self.chunk_end(i)) by {
                if i < old_self.chunks@.len() - 1 || (needs_new_chunk && i
                    < old_self.chunks@.len()) {
                    assert(old_self.chunks@[i].data@ == old_self.all@.subrange(
                        old_self.starts@[i],
                        old_self.chunk_end(i),
                    ));
                    assert(old_self.chunk_end(i) <= old_self.all@.len()) by {
                        assert(old_self.starts@[i] <= old_self.starts@[old_self.chunks@.len() - 1]);
                        if i < old_self.chunks@.len() - 1 {
                            assert(old_self.starts@[i + 1] <= old_self.starts@[old_self.chunks@.len()
                                - 1]);
                        }
                    }
                    assert(self.all@.subrange(self.starts@[i], self.chunk_end(i))
                        =~= old_self.all@.subrange(old_self.starts@[i], old_self.chunk_end(i)));
                } else {
                    assert(self.chunks@[i].data@ =~= self.all@.subrange(
                        self.starts@[i],
                        self.chunk_end(i),
                    ));
                }
            }
            assert forall|i: int| 0 <= i < n - 1 implies #[trigger] self.starts@[i + 1]
                == self.chunk_end(i) by {
                if i < old_self.chunks@.len() - 1 {
                    assert(old_self.starts@[i + 1] == old_self.chunk_end(i));
                }
            }
            assert forall|i: int| 0 <= i < n implies #[trigger] self.chunk_len(i) >= 1 by {
                if i < old_self.chunks@.len() {
                    assert(old_self.chunk_len(i) >= 1);
                }
            }
            assert forall|i: int, j: int| 0 <= i <= j < n implies #[trigger] self.starts@[i]
                <= #[trigger] self.starts@[j] by {
                if i == j {
                } else if j < old_self.chunks@.len() {
                    assert(old_self.starts@[i] <= old_self.starts@[j]);
                } else {
                    let m = old_self.chunks@.len() - 1;
                    assert(old_self.starts@[i] <= old_self.starts@[m]);
                    assert(old_self.chunk_len(m) >= 1);
                }
            }
            let r = StrRef { offset, len: n_bytes };
            assert(self.chunk_end(n - 1) >= r.offset + r.len);
            assert(self.starts@[n - 1] <= r.offset);
            assert(self.in_bounds(r));
            assert(self.ref_bytes(r) =~= bytes@);
            assert forall|q: StrRef| #[trigger] old_self.in_bounds(q) implies self.in_bounds(q) by {
                let i = choose|i: int|
                    0 <= i < old_self.chunks@.len() && old_self.starts@[i] <= q.offset
                        < old_self.chunk_end(i) && #[trigger] old_self.chunk_end(i) >= q.offset
                        + q.len;
                assert(self.chunk_end(i) >= old_self.chunk_end(i));
            }
            assert(old_self.content() =~= self.content().subrange(
                0,
                old_self.content().len() as int,
            ));
        }
        StrRef { offset, len: n_bytes }
    }

    /// The bytes `r` refers to.
    pub fn get_bytes(&self, r: StrRef) -> (b: &[u8])
        requires
            self.wf(),
            self.in_bounds(r),
        ensures
            b@ == self.ref_bytes(r),
    {
        let mut off = r.offset as usize;
        let len = r.len as usize;
        let mut i: usize = 0;
        while i < self.chunks.len()
            invariant
                self.wf(),
                self.in_bounds(r),
                len == r.len,
                i <= self.chunks@.len(),
                off == r.offset - (if i < self.chunks@.len() {
                    self.starts@[i as int]
                } else {
                    self.all@.len() as int
                }),
                forall|j: int| 0 <= j < i ==> #[trigger] self.chunk_end(j) <= r.offset,
            decreases self.chunks@.len() - i,
        {
            let c = &self.chunks[i];
            if off < c.data.len() {
                proof {
                    let k = choose|k: int|
                        0 <= k < self.chunks@.len() && self.starts@[k] <= r.offset
                            < self.chunk_end(k) && #[trigger] self.chunk_end(k) >= r.offset
                            + r.len;
                    assert(c.data@.len() == self.chunk_len(i as int));
                    assert(r.offset < self.chunk_end(i as int));
                    if k < i {
                        assert(self.chunk_end(k) <= r.offset);
                    } else if k > i {
                        assert(self.starts@[i as int + 1] == self.chunk_end(i as int));
                        assert(self.starts@[i as int + 1] <= self.starts@[k]);
                    }
                    assert(k == i);
                    assert(self.starts@[k] + self.chunk_len(k) >= r.offset + r.len);
                    assert(off == r.offset - self.starts@[k]);
                    assert(len == r.len);
                    assert(off + len <= c.data@.len());
                    self.lemma_chunk_inside(k);
                    assert(self.chunks@[k].data@ == self.all@.subrange(
                        self.starts@[k],
                        self.chunk_end(k),
                    ));
                }
                let b = &c.data[off..off + len];
                proof {
                    assert(b@ =~= self.ref_bytes(r));
                }
                return b;
            }
            off = off - c.data.len();
            i += 1;
        }
        proof {
            let k = choose|k: int|
                0 <= k < self.chunks@.len() && self.starts@[k] <= r.offset < self.chunk_end(k)
                    && #[trigger] self.chunk_end(k) >= r.offset + r.len;
            assert(self.chunk_end(k) <= r.offset);
        }
        vstd::pervasive::unreached()
    }
}

impl KeyStore for ChunkedArena {
    open spec fn valid_key(&self, a: u32, b: u32) -> bool {
        self.wf() && self.in_bounds(StrRef { offset: a, len: b })
    }

    open spec fn key_of(&self, a: u32, b: u32) -> Seq<u8> {
        self.ref_bytes(StrRef { offset: a, len: b })
    }

    fn key_equals(&self, a: u32, b: u32, key: &[u8]) -> (r: bool) {
        bytes_eq(self.get_bytes(StrRef { offset: a, len: b }), key)
    }
}

/// Every reference inside an arena stays inside it, with the same bytes,
/// after the arena is extended.
pub proof fn lemma_arena_extended(a1: &ChunkedArena, a2: &ChunkedArena)
    requires
        a1.wf(),
        a2.wf(),
        a1.extended_by(a2),
    ensures
        forall|x: u32, y: u32| #[trigger]
            a1.valid_key(x, y) ==> a2.valid_key(x, y) && a2.key_of(x, y) == a1.key_of(x, y),
{
    assert forall|x: u32, y: u32| #[trigger] a1.valid_key(x, y) implies a2.valid_key(x, y)
        && a2.key_of(x, y) == a1.key_of(x, y) by {
        let r = StrRef { offset: x, len: y };
        a1.lemma_in_bounds_range(r);
        assert(a2.ref_bytes(r) =~= a1.ref_bytes(r));
    }
}

/// Interns strings: each distinct string is stored once and always maps to
/// the same `StrRef`.
pub struct StringArena {
    arena: ChunkedArena,
    table: HashTable,
    interned: Ghost<Map<Seq<u8>, StrRef>>,
}

impl StringArena {
    /// Each interned byte string and the handle it was given.
    pub closed spec fn interned(&self) -> Map<Seq<u8>, StrRef> {
        self.interned@
    }

    /// How many distinct strings were interned.
    pub closed spec fn count(&self) -> nat {
        self.table.used()
    }

    /// All bytes of the arena.
    pub closed spec fn content(&self) -> Seq<u8> {
        self.arena.content()
    }

    /// `r` lies inside one chunk of the arena.
    pub closed spec fn in_bounds(&self, r: StrRef) -> bool {
        self.arena.in_bounds(r)
    }

    pub open spec fn ref_bytes(&self, r: StrRef) -> Seq<u8> {
        self.content().subrange(r.offset as int, r.offset + r.len)
    }

    pub closed spec fn wf(&self) -> bool {
        &&& self.arena.wf()
        &&& self.table.wf()
        &&& self.table.keyed(&self.arena)
        &&& forall|k: Seq<u8>| #[trigger]
            self.interned@.contains_key(k) <==> self.table.holds(&self.arena, k)
        &&& forall|k: Seq<u8>| #[trigger]
            self.interned@.contains_key(k) ==> self.arena.in_bounds(self.interned@[k])
                && self.arena.ref_bytes(self.interned@[k]) == k && valid_utf8(k)
        &&& forall|i: int, k: Seq<u8>| #[trigger]
            self.table.holds_at(&self.arena, i, k) ==> self.interned@[k] == (StrRef {
                offset: self.table.slots()[i].a,
                len: self.table.slots()[i].b,
            })
    }

    /// Every interned string reads back unchanged through its handle.
    pub proof fn lemma_interned_reads_back(&self, k: Seq<u8>)
        requires
            self.wf(),
            self.interned().contains_key(k),
        ensures
            self.in_bounds(self.interned()[k]),
            self.ref_bytes(self.interned()[k]) == k,
            valid_utf8(self.ref_bytes(self.interned()[k])),
    {
    }

    /// Different strings get different handles.
    pub proof fn lemma_handles_distinct(&self, k1: Seq<u8>, k2: Seq<u8>)
        requires
            self.wf(),
            self.interned().contains_key(k1),
            self.interned().contains_key(k2),
            k1 != k2,
        ensures
            self.interned()[k1] != self.interned()[k2],
    {
    }

    pub fn new() -> (a: StringArena)
        ensures
            a.wf(),
            a.interned() == Map::<Seq<u8>, StrRef>::empty(),
            a.count() == 0,
            a.content() == seq![0u8],
    {
        let arena = ChunkedArena::new();
        let table = HashTable::new(1024);
        let a = StringArena { arena, table, interned: Ghost(Map::empty()) };
        proof {
            assert forall|k: Seq<u8>| !#[trigger] a.table.holds(&a.arena, k) by {
                if a.table.holds(&a.arena, k) {
                    let i = choose|i: int| a.table.holds_at(&a.arena, i, k);
                }
            }
        }
        a
    }

    /// Interns `s`, returning the handle it already had if it was interned before.
    pub fn intern(&mut self, s: &str) -> (r: StrRef)
        requires
            old(self).wf(),
            !old(self).interned().contains_key(s.spec_bytes()) ==> old(self).count()
                < MAX_TABLE_KEYS && old(self).content().len() + s.spec_bytes().len() <= u32::MAX,
        ensures
            final(self).wf(),
            old(self).interned().contains_key(s.spec_bytes()) ==> r == old(self).interned()[s.spec_bytes()]
                && final(self).interned() == old(self).interned() && final(self).count()
                == old(self).count() && final(self).content() == old(self).content(),
            !old(self).interned().contains_key(s.spec_bytes()) ==> final(self).interned()
                == old(self).interned().insert(s.spec_bytes(), r) && final(self).count()
                == old(self).count() + 1 && final(self).content() == old(self).content()
                + s.spec_bytes(),
            final(self).in_bounds(r),
            final(self).ref_bytes(r) == s.spec_bytes(),
            forall|q: StrRef| #[trigger]
                old(self).in_bounds(q) ==> final(self).in_bounds(q) && final(self).ref_bytes(q)
                    == old(self).ref_bytes(q),
    {
        self.intern_bytes(s.as_bytes())
    }

    /// Interns UTF-8 bytes.
    pub fn intern_bytes(&mut self, bytes: &[u8]) -> (r: StrRef)
        requires
            old(self).wf(),
            valid_utf8(bytes@),
            !old(self).interned().contains_key(bytes@) ==> old(self).count() < MAX_TABLE_KEYS
                && old(self).content().len() + bytes@.len() <= u32::MAX,
        ensures
            final(self).wf(),
            old(self).interned().contains_key(bytes@) ==> r == old(self).interned()[bytes@]
                && final(self).interned() == old(self).interned() && final(self).count()
                == old(self).count() && final(self).content() == old(self).content(),
            !old(self).interned().contains_key(bytes@) ==> final(self).interned()
                == old(self).interned().insert(bytes@, r) && final(self).count() == old(self).count()
                + 1 && final(self).content() == old(self).content() + bytes@,
            final(self).in_bounds(r),
            final(self).ref_bytes(r) == bytes@,
            forall|q: StrRef| #[trigger]
                old(self).in_bounds(q) ==> final(self).in_bounds(q) && final(self).ref_bytes(q)
                    == old(self).ref_bytes(q),
    {
        let hash = hash_bytes(bytes);
        let found = self.table.find(&self.arena, hash, bytes);
        match found {
            Some(p) => {
                proof {
                    let i = choose|i: int|
                        #![trigger self.table.slots()[i]]
                        self.table.holds_at(&self.arena, i, bytes@) && self.table.slots()[i].a
                            == p.0 && self.table.slots()[i].b == p.1;
                    assert(self.table.holds_at(&self.arena, i, bytes@));
                    assert(self.interned@.contains_key(bytes@));
                }
                StrRef { offset: p.0, len: p.1 }
            },
            None => {
                let ghost old_arena = self.arena;
                let ghost old_self = *self;
                let r = self.arena.push(bytes);
                proof {
                    lemma_arena_extended(&old_arena, &self.arena);
                    self.table.lemma_store_extended(&old_arena, &self.arena);
                }
                self.table.insert(&self.arena, hash, r.offset, r.len);
                proof {
                    self.interned@ = old_self.interned@.insert(bytes@, r);
                    let key = bytes@;
                    assert forall|k: Seq<u8>| #[trigger]
                        self.interned@.contains_key(k) <==> self.table.holds(&self.arena, k) by {
                        if k != key && old_self.interned@.contains_key(k) {
                            assert(old_self.table.holds(&old_arena, k));
                        }
                    }
                    assert forall|k: Seq<u8>| #[trigger] self.interned@.contains_key(k) implies self.arena.in_bounds(
                        self.interned@[k],
                    ) && self.arena.ref_bytes(self.interned@[k]) == k && valid_utf8(k) by {
                        if k != key {
                            let q = old_self.interned@[k];
                            assert(old_arena.valid_key(q.offset, q.len));
                        }
                    }
                    assert forall|i: int, k: Seq<u8>| #[trigger]
                        self.table.holds_at(&self.arena, i, k) implies self.interned@[k] == (StrRef {
                        offset: self.table.slots()[i].a,
                        len: self.table.slots()[i].b,
                    }) by {
                        let e = self.table.slots()[i];
                        if e.a == r.offset && e.b == r.len {
                        } else {
                            let j = choose|j: int|
                                0 <= j < old_self.table.slots().len() && occ(
                                    old_self.table.slots(),
                                    j,
                                ) && old_self.table.slots()[j] == e;
                            assert(old_self.table.slot_keyed(&old_arena, j));
                            assert(old_arena.valid_key(e.a, e.b));
                            assert(old_self.table.holds_at(&old_arena, j, k));
                        }
                    }
                    assert forall|q: StrRef| #[trigger] old_self.in_bounds(q) implies self.in_bounds(q)
                        && self.ref_bytes(q) == old_self.ref_bytes(q) by {
                        assert(old_arena.valid_key(q.offset, q.len));
                    }
                }
                r
            },
        }
    }

    /// How many distinct strings were interned.
    pub fn len(&self) -> (n: usize)
        ensures
            n == self.count(),
    {
        self.table.len()
    }

    /// How many bytes the arena holds (one reserved byte included).
    pub fn bytes_len(&self) -> (n: u32)
        requires
            self.wf(),
        ensures
            n == self.content().len(),
    {
        self.arena.len()
    }

    /// The string `r` refers to.
    pub fn get(&self, r: StrRef) -> (s: &str)
        requires
            self.wf(),
            self.in_bounds(r),
            valid_utf8(self.ref_bytes(r)),
        ensures
            s.spec_bytes() == self.ref_bytes(r),
            s@ == decode_utf8(self.ref_bytes(r)),
    {
        let b = self.arena.get_bytes(r);
        match str_from_utf8(b) {
            Some(s) => s,
            None => vstd::pervasive::unreached(),
        }
    }
}

impl Default for StringArena {
    fn default() -> (a: StringArena)
        ensures
            a.wf(),
            a.interned() == Map::<Seq<u8>, StrRef>::empty(),
            a.count() == 0,
            a.content() == seq![0u8],
    {
        StringArena::new()
    }
}

} // verus!
