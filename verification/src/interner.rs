//! Assigns each distinct string a sequential index, for a generation's
//! string table.

use vstd::prelude::*;
use vstd::utf8::*;
use vstd::string::StringSliceAdditionalSpecFns;
use crate::hash_table::{
    bytes_eq, fnv1a, hash_bytes, occ, pair_index, pair_to_index, split_index, HashTable, KeyStore,
    MAX_TABLE_KEYS,
};

verus! {

broadcast use vstd::utf8::encode_utf8_decode_utf8;

/// The interned strings, in index order. Key pair `(a, b)` is the string at
/// `pair_index(a, b)`.
pub struct InternedStrings {
    items: Vec<String>,
}

impl InternedStrings {
    /// The strings, in index order.
    pub closed spec fn strings(&self) -> Seq<Seq<char>> {
        self.items@.map_values(|s: String| s@)
    }
}

impl KeyStore for InternedStrings {
    open spec fn valid_key(&self, a: u32, b: u32) -> bool {
        pair_index(a, b) < self.strings().len()
    }

    open spec fn key_of(&self, a: u32, b: u32) -> Seq<u8> {
        encode_utf8(self.strings()[pair_index(a, b)])
    }

    fn key_equals(&self, a: u32, b: u32, key: &[u8]) -> (r: bool) {
        let n = self.items.len();
        assert(self.strings().len() == n);
        bytes_eq(self.items[pair_to_index(a, b)].as_str().as_bytes(), key)
    }
}

/// The UTF-8 bytes of the strings of `v`, added up.
pub open spec fn bytes_total(v: Seq<Seq<char>>) -> int
    decreases v.len(),
{
    if v.len() == 0 {
        0
    } else {
        bytes_total(v.drop_last()) + encode_utf8(v.last()).len()
    }
}

/// Gives each distinct string the next index, starting at 0.
pub struct StringInterner {
    store: InternedStrings,
    table: HashTable,
    total_bytes: u32,
}

impl View for StringInterner {
    type V = Seq<Seq<char>>;

    closed spec fn view(&self) -> Seq<Seq<char>> {
        self.store.items@.map_values(|s: String| s@)
    }
}

impl StringInterner {
    pub closed spec fn wf(&self) -> bool {
        &&& self.table.wf()
        &&& self.table.keyed(&self.store)
        &&& self.table.used() == self.store.items@.len()
        &&& self.store.items@.len() <= MAX_TABLE_KEYS
        &&& self.store.items@.len() <= u32::MAX
        &&& forall|i: int|
            0 <= i < self.store.items@.len() ==> #[trigger] self.table.holds(
                &self.store,
                encode_utf8(self.store.items@[i]@),
            )
        &&& forall|i: int, j: int|
            0 <= i < self.store.items@.len() && 0 <= j < self.store.items@.len() && i != j
                ==> #[trigger] self.store.items@[i]@ != #[trigger] self.store.items@[j]@
        &&& self.total_bytes == bytes_total(self@)
    }

    pub fn new() -> (i: StringInterner)
        ensures
            i.wf(),
            i@ == Seq::<Seq<char>>::empty(),
    {
        let i = StringInterner {
            store: InternedStrings { items: Vec::new() },
            table: HashTable::new(16),
            total_bytes: 0,
        };
        proof {
            assert(i@ =~= Seq::<Seq<char>>::empty());
        }
        i
    }

    /// The index of `s`: the one it was given before, or the next one.
    pub fn intern(&mut self, s: &str) -> (idx: u32)
        requires
            old(self).wf(),
            !old(self)@.contains(s@) ==> old(self)@.len() < u32::MAX && old(self)@.len()
                < MAX_TABLE_KEYS && bytes_total(old(self)@) + s.spec_bytes().len() <= u32::MAX,
        ensures
            final(self).wf(),
            old(self)@.contains(s@) ==> final(self)@ == old(self)@ && idx < old(self)@.len()
                && old(self)@[idx as int] == s@,
            !old(self)@.contains(s@) ==> final(self)@ == old(self)@.push(s@) && idx == old(
                self,
            )@.len(),
    {
        let bytes = s.as_bytes();
        let hash = hash_bytes(bytes);
        match self.table.find(&self.store, hash, bytes) {
            Some(p) => {
                proof {
                    let i = choose|i: int|
                        #![trigger self.table.slots()[i]]
                        self.table.holds_at(&self.store, i, bytes@) && self.table.slots()[i].a == p.0
                            && self.table.slots()[i].b == p.1;
                    assert(self.table.slot_keyed(&self.store, i));
                    assert(p.1 == 0);
                    let k = self.store.items@[p.0 as int]@;
                    assert(decode_utf8(encode_utf8(k)) == k);
                    assert(decode_utf8(encode_utf8(s@)) == s@);
                    assert(self@[p.0 as int] == k);
                    assert(self@.contains(s@));
                }
                return p.0;
            },
            None => {},
        }
        proof {
            if self@.contains(s@) {
                let i = choose|i: int| 0 <= i < self@.len() && self@[i] == s@;
                assert(self.table.holds(&self.store, encode_utf8(self.store.items@[i]@)));
            }
        }
        let ghost old_self = *self;
        let idx = self.store.items.len();
        let n = s.len() as u32;
        self.store.items.push(String::from_str(s));
        proof {
            assert forall|a: u32, b: u32| #[trigger]
                old_self.store.valid_key(a, b) implies self.store.valid_key(a, b) && self.store.key_of(
                a,
                b,
            ) == old_self.store.key_of(a, b) by {}
            self.table.lemma_store_extended(&old_self.store, &self.store);
        }
        self.table.insert(&self.store, hash, idx as u32, 0);
        self.total_bytes = self.total_bytes + n;
        proof {
            assert(self@ =~= old_self@.push(s@));
            assert(self@.drop_last() =~= old_self@);
            assert forall|i: int| 0 <= i < self.store.items@.len() implies #[trigger] self.table.holds(
                &self.store,
                encode_utf8(self.store.items@[i]@),
            ) by {
                if i < idx {
                    assert(old_self.table.holds(&old_self.store, encode_utf8(old_self.store.items@[i]@)));
                }
            }
            assert forall|i: int, j: int|
                0 <= i < self.store.items@.len() && 0 <= j < self.store.items@.len() && i != j
                    implies #[trigger] self.store.items@[i]@ != #[trigger] self.store.items@[j]@ by {
                if i == idx {
                    assert(old_self@[j] == old_self.store.items@[j]@);
                } else if j == idx {
                    assert(old_self@[i] == old_self.store.items@[i]@);
                }
            }
        }
        idx as u32
    }

    /// How many distinct strings were interned.
    pub fn count(&self) -> (n: u32)
        requires
            self.wf(),
        ensures
            n == self@.len(),
    {
        self.store.items.len() as u32
    }

    /// The total UTF-8 length of the distinct strings interned.
    pub fn bytes_len(&self) -> (n: u32)
        requires
            self.wf(),
        ensures
            n == bytes_total(self@),
    {
        self.total_bytes
    }

    /// The strings ordered by their index (index == position).
    pub fn as_strs(&self) -> (v: Vec<&str>)
        requires
            self.wf(),
        ensures
            v@.map_values(|s: &str| s@) == self@,
    {
        let mut v: Vec<&str> = Vec::new();
        let mut i: usize = 0;
        while i < self.store.items.len()
            invariant
                i <= self.store.items@.len(),
                v@.len() == i,
                forall|j: int| 0 <= j < i ==> #[trigger] v@[j]@ == self.store.items@[j]@,
            decreases self.store.items@.len() - i,
        {
            v.push(self.store.items[i].as_str());
            i += 1;
        }
        assert(v@.map_values(|s: &str| s@) =~= self@);
        v
    }

    /// The index of `s`, if it was interned.
    pub fn get_index(&self, s: &str) -> (r: Option<u32>)
        requires
            self.wf(),
        ensures
            r is None <==> !self@.contains(s@),
            r matches Some(i) ==> i < self@.len() && self@[i as int] == s@,
    {
        let bytes = s.as_bytes();
        let hash = hash_bytes(bytes);
        match self.table.find(&self.store, hash, bytes) {
            Some(p) => {
                proof {
                    let i = choose|i: int|
                        #![trigger self.table.slots()[i]]
                        self.table.holds_at(&self.store, i, bytes@) && self.table.slots()[i].a == p.0
                            && self.table.slots()[i].b == p.1;
                    assert(self.table.slot_keyed(&self.store, i));
                    assert(p.1 == 0);
                    let k = self.store.items@[p.0 as int]@;
                    assert(decode_utf8(encode_utf8(k)) == k);
                    assert(decode_utf8(encode_utf8(s@)) == s@);
                }
                Some(p.0)
            },
            None => {
                proof {
                    if self@.contains(s@) {
                        let i = choose|i: int| 0 <= i < self@.len() && self@[i] == s@;
                        assert(self.table.holds(&self.store, encode_utf8(self.store.items@[i]@)));
                    }
                }
                None
            },
        }
    }
}

impl Default for StringInterner {
    fn default() -> (i: StringInterner)
        ensures
            i.wf(),
            i@ == Seq::<Seq<char>>::empty(),
    {
        StringInterner::new()
    }
}


/// A set of strings, each held once.
pub struct StringSet {
    store: InternedStrings,
    table: HashTable,
}

impl StringSet {
    /// The strings held.
    pub closed spec fn contents(&self) -> Set<Seq<char>> {
        self.store.strings().to_set()
    }

    /// How many strings are held.
    pub closed spec fn size(&self) -> nat {
        self.store.items@.len()
    }

    pub closed spec fn wf(&self) -> bool {
        &&& self.table.wf()
        &&& self.table.keyed(&self.store)
        &&& self.table.used() == self.store.items@.len()
        &&& self.store.items@.len() <= MAX_TABLE_KEYS
        &&& forall|i: int|
            0 <= i < self.store.items@.len() ==> #[trigger] self.table.holds(
                &self.store,
                encode_utf8(self.store.items@[i]@),
            )
        &&& forall|i: int, j: int|
            0 <= i < self.store.items@.len() && 0 <= j < self.store.items@.len() && i != j
                ==> #[trigger] self.store.items@[i]@ != #[trigger] self.store.items@[j]@
    }

    pub proof fn lemma_size(&self)
        requires
            self.wf(),
        ensures
            self.contents().finite(),
            self.contents().len() == self.size(),
    {
        let v = self.store.strings();
        assert forall|i: int, j: int| 0 <= i < j < v.len() implies v[i] != v[j] by {
            assert(v[i] == self.store.items@[i]@);
            assert(v[j] == self.store.items@[j]@);
        }
        assert(v.no_duplicates());
        v.unique_seq_to_set();
    }

    pub fn new() -> (s: StringSet)
        ensures
            s.wf(),
            s.contents() == Set::<Seq<char>>::empty(),
            s.size() == 0,
    {
        let s = StringSet { store: InternedStrings { items: Vec::new() }, table: HashTable::new(16) };
        proof {
            assert(s.store.strings() =~= Seq::<Seq<char>>::empty());
            assert(s.contents() =~= Set::<Seq<char>>::empty());
        }
        s
    }

    /// Whether `s` is held.
    pub fn contains(&self, s: &str) -> (r: bool)
        requires
            self.wf(),
        ensures
            r == self.contents().contains(s@),
    {
        let bytes = s.as_bytes();
        let hash = hash_bytes(bytes);
        match self.table.find(&self.store, hash, bytes) {
            Some(p) => {
                proof {
                    let i = choose|i: int|
                        #![trigger self.table.slots()[i]]
                        self.table.holds_at(&self.store, i, bytes@) && self.table.slots()[i].a == p.0
                            && self.table.slots()[i].b == p.1;
                    assert(self.table.slot_keyed(&self.store, i));
                    let k = self.store.items@[pair_index(p.0, p.1)]@;
                    assert(decode_utf8(encode_utf8(k)) == k);
                    assert(decode_utf8(encode_utf8(s@)) == s@);
                    assert(self.store.strings()[pair_index(p.0, p.1)] == k);
                }
                true
            },
            None => {
                proof {
                    if self.contents().contains(s@) {
                        let i = choose|i: int|
                            0 <= i < self.store.strings().len() && self.store.strings()[i] == s@;
                        assert(self.table.holds(&self.store, encode_utf8(self.store.items@[i]@)));
                    }
                }
                false
            },
        }
    }

    /// Adds `s`; returns whether it was not held before.
    pub fn insert(&mut self, s: &str) -> (added: bool)
        requires
            old(self).wf(),
            !old(self).contents().contains(s@) ==> old(self).size() < MAX_TABLE_KEYS,
        ensures
            final(self).wf(),
            added == !old(self).contents().contains(s@),
            final(self).contents() == old(self).contents().insert(s@),
            final(self).size() == old(self).size() + if added {
                1nat
            } else {
                0nat
            },
    {
        if self.contains(s) {
            proof {
                assert(self.contents().insert(s@) =~= self.contents());
            }
            return false;
        }
        let bytes = s.as_bytes();
        let hash = hash_bytes(bytes);
        proof {
            if self.table.holds(&self.store, bytes@) {
                let i = choose|i: int| self.table.holds_at(&self.store, i, bytes@);
                assert(self.table.slot_keyed(&self.store, i));
                let e = self.table.slots()[i];
                let k = self.store.items@[pair_index(e.a, e.b)]@;
                assert(decode_utf8(encode_utf8(k)) == k);
                assert(decode_utf8(encode_utf8(s@)) == s@);
                assert(self.store.strings()[pair_index(e.a, e.b)] == k);
            }
        }
        let ghost old_self = *self;
        let idx = self.store.items.len();
        self.store.items.push(String::from_str(s));
        proof {
            assert forall|a: u32, b: u32| #[trigger]
                old_self.store.valid_key(a, b) implies self.store.valid_key(a, b) && self.store.key_of(
                a,
                b,
            ) == old_self.store.key_of(a, b) by {
                assert(self.store.strings()[pair_index(a, b)] == old_self.store.strings()[pair_index(a, b)]);
            }
            self.table.lemma_store_extended(&old_self.store, &self.store);
        }
        let (ka, kb) = split_index(idx);
        self.table.insert(&self.store, hash, ka, kb);
        proof {
            assert(self.store.strings() =~= old_self.store.strings().push(s@));
            old_self.store.strings().lemma_push_to_set_commute(s@);
            assert forall|i: int| 0 <= i < self.store.items@.len() implies #[trigger] self.table.holds(
                &self.store,
                encode_utf8(self.store.items@[i]@),
            ) by {
                if i < idx {
                    assert(old_self.table.holds(&old_self.store, encode_utf8(old_self.store.items@[i]@)));
                }
            }
            assert forall|i: int, j: int|
                0 <= i < self.store.items@.len() && 0 <= j < self.store.items@.len() && i != j
                    implies #[trigger] self.store.items@[i]@ != #[trigger] self.store.items@[j]@ by {
                if i == idx {
                    assert(old_self.store.strings()[j] == old_self.store.items@[j]@);
                } else if j == idx {
                    assert(old_self.store.strings()[i] == old_self.store.items@[i]@);
                }
            }
        }
        true
    }

    /// How many strings are held.
    pub fn len(&self) -> (n: usize)
        requires
            self.wf(),
        ensures
            n == self.size(),
    {
        self.store.items.len()
    }
}

} // verus!
