//! Byte histograms, from which a file's Shannon entropy is computed.

use vstd::prelude::*;

verus! {

/// How many times `b` occurs in `s`.
pub open spec fn occurrences(s: Seq<u8>, b: u8) -> nat
    decreases s.len(),
{
    if s.len() == 0 {
        0
    } else {
        occurrences(s.drop_last(), b) + if s.last() == b {
            1nat
        } else {
            0nat
        }
    }
}

proof fn lemma_occurrences_bound(s: Seq<u8>, b: u8)
    ensures
        occurrences(s, b) <= s.len(),
    decreases s.len(),
{
    if s.len() > 0 {
        lemma_occurrences_bound(s.drop_last(), b);
    }
}

proof fn lemma_occurrences_concat(s: Seq<u8>, t: Seq<u8>, b: u8)
    ensures
        occurrences(s + t, b) == occurrences(s, b) + occurrences(t, b),
    decreases t.len(),
{
    if t.len() > 0 {
        assert((s + t).drop_last() =~= s + t.drop_last());
        lemma_occurrences_concat(s, t.drop_last(), b);
    } else {
        assert(s + t =~= s);
    }
}

/// The histogram of one chunk: entry `b` counts the bytes equal to `b`.
pub fn count_chunk(chunk: &[u8]) -> (h: [u64; 256])
    ensures
        forall|b: u8| #[trigger] h@[b as int] == occurrences(chunk@, b),
{
    let mut local = [0u64; 256];
    let mut i: usize = 0;
    while i < chunk.len()
        invariant
            i <= chunk@.len(),
            forall|b: u8| #[trigger] local@[b as int] == occurrences(chunk@.subrange(0, i as int), b),
        decreases chunk@.len() - i,
    {
        let byte = chunk[i];
        proof {
            assert(chunk@.subrange(0, i + 1).drop_last() =~= chunk@.subrange(0, i as int));
            lemma_occurrences_bound(chunk@.subrange(0, i as int), byte);
        }
        let c = local[byte as usize];
        local[byte as usize] = c + 1;
        i += 1;
    }
    assert(chunk@.subrange(0, chunk@.len() as int) =~= chunk@);
    local
}

/// The byte histogram of everything fed so far.
pub struct EntropyStream {
    counts: [u64; 256],
    total: u64,
    fed: Ghost<Seq<u8>>,
}

impl EntropyStream {
    /// The bytes fed so far.
    pub closed spec fn fed(&self) -> Seq<u8> {
        self.fed@
    }

    pub closed spec fn wf(&self) -> bool {
        &&& self.total == self.fed@.len()
        &&& forall|b: u8| #[trigger] self.counts@[b as int] == occurrences(self.fed@, b)
    }

    pub fn new() -> (s: EntropyStream)
        ensures
            s.wf(),
            s.fed() == Seq::<u8>::empty(),
    {
        EntropyStream { counts: [0u64; 256], total: 0, fed: Ghost(Seq::empty()) }
    }

    /// Adds `data` to the histogram.
    pub fn feed_slice(&mut self, data: &[u8])
        requires
            old(self).wf(),
            old(self).fed().len() + data@.len() <= u64::MAX,
        ensures
            final(self).wf(),
            final(self).fed() == old(self).fed() + data@,
    {
        let hist = count_chunk(data);
        let ghost before = self.fed@;
        self.total = self.total + data.len() as u64;
        let mut i: usize = 0;
        while i < 256
            invariant
                i <= 256,
                before.len() + data@.len() <= u64::MAX,
                self.total == before.len() + data@.len(),
                forall|b: u8| #[trigger] hist@[b as int] == occurrences(data@, b),
                forall|b: u8|
                    (b as int) < i ==> #[trigger] self.counts@[b as int] == occurrences(before, b)
                        + occurrences(data@, b),
                forall|b: u8|
                    (b as int) >= i ==> #[trigger] self.counts@[b as int] == occurrences(before, b),
            decreases 256 - i,
        {
            let ghost b = i as u8;
            proof {
                lemma_occurrences_bound(before, b);
                lemma_occurrences_bound(data@, b);
                assert(self.counts@[i as int] == self.counts@[b as int]);
            }
            let c = self.counts[i];
            self.counts[i] = c + hist[i];
            i += 1;
        }
        proof {
            self.fed@ = before + data@;
            assert forall|b: u8| #[trigger] self.counts@[b as int] == occurrences(self.fed@, b) by {
                lemma_occurrences_concat(before, data@, b);
            }
        }
    }

    /// How many times each byte value occurred.
    pub fn counts(&self) -> (c: [u64; 256])
        requires
            self.wf(),
        ensures
            forall|b: u8| #[trigger] c@[b as int] == occurrences(self.fed(), b),
    {
        self.counts
    }

    /// How many bytes were fed.
    pub fn total(&self) -> (t: u64)
        requires
            self.wf(),
        ensures
            t == self.fed().len(),
    {
        self.total
    }
}

} // verus!
