//! A bit-packed set of node identifiers, one bit per node, used by the
//! breadth-first searches to mark the nodes they have already enqueued.
use vstd::prelude::*;

verus! {

/// Number of bits held by one word of the set.
pub const WORD_BITS: u32 = 64;

/// True when bit `b` of `w` is set.
pub open spec fn bit_set(w: u64, b: u64) -> bool {
    (w >> b) & 1u64 == 1u64
}

proof fn lemma_zero_has_no_bits(b: u64)
    requires
        b < 64,
    ensures
        !bit_set(0u64, b),
{
    assert((0u64 >> b) & 1u64 == 0u64) by (bit_vector);
}

proof fn lemma_set_bit(w: u64, b: u64, c: u64)
    requires
        b < 64,
        c < 64,
    ensures
        bit_set(w | (1u64 << b), c) == (c == b || bit_set(w, c)),
{
    assert(((w | (1u64 << b)) >> b) & 1u64 == 1u64) by (bit_vector)
        requires
            b < 64,
    ;
    assert(c != b ==> ((w | (1u64 << b)) >> c) & 1u64 == (w >> c) & 1u64) by (bit_vector)
        requires
            b < 64,
            c < 64,
    ;
}

/// A set of node identifiers below a fixed bound, stored as packed bits.
pub struct VisitedSet {
    words: Vec<u64>,
    bound: usize,
}

impl VisitedSet {
    /// The identifiers that the set may hold: those below this bound.
    pub closed spec fn bound(&self) -> nat {
        self.bound as nat
    }

    pub closed spec fn wf(&self) -> bool {
        self.words@.len() == self.bound as int / 64 + 1
    }

    /// The identifiers in the set.
    pub closed spec fn view(&self) -> Set<u32> {
        Set::new(
            |i: u32|
                (i as int) < self.bound && bit_set(
                    self.words@[i as int / 64],
                    (i as int % 64) as u64,
                ),
        )
    }

    /// An empty set for the identifiers below `bound`.
    pub fn new(bound: usize) -> (r: VisitedSet)
        ensures
            r.wf(),
            r.bound() == bound,
            r@ == Set::<u32>::empty(),
    {
        let n: usize = bound / 64 + 1;
        let mut words: Vec<u64> = Vec::with_capacity(n);
        let mut k: usize = 0;
        while k < n
            invariant
                k <= n,
                words@.len() == k,
                forall|j: int| 0 <= j < k ==> words@[j] == 0u64,
            decreases n - k,
        {
            words.push(0u64);
            k = k + 1;
        }
        let r = VisitedSet { words, bound };
        assert forall|i: u32| !r@.contains(i) by {
            if (i as int) < bound {
                lemma_zero_has_no_bits((i as int % 64) as u64);
            }
        }
        assert(r@ =~= Set::<u32>::empty());
        r
    }

    /// Whether `i` is in the set.
    pub fn contains(&self, i: u32) -> (r: bool)
        requires
            self.wf(),
            (i as int) < self.bound(),
        ensures
            r == self@.contains(i),
    {
        let w: u64 = self.words[(i / WORD_BITS) as usize];
        let b: u64 = (i % WORD_BITS) as u64;
        (w >> b) & 1u64 == 1u64
    }

    /// Adds `i` to the set.
    pub fn insert(&mut self, i: u32)
        requires
            old(self).wf(),
            (i as int) < old(self).bound(),
        ensures
            final(self).wf(),
            final(self).bound() == old(self).bound(),
            final(self)@ == old(self)@.insert(i),
    {
        let k: usize = (i / WORD_BITS) as usize;
        let b: u64 = (i % WORD_BITS) as u64;
        let w: u64 = self.words[k];
        self.words.set(k, w | (1u64 << b));
        proof {
            assert forall|j: u32| self@.contains(j) == old(self)@.insert(i).contains(j) by {
                if (j as int) < self.bound {
                    let c = (j as int % 64) as u64;
                    lemma_set_bit(w, b, c);
                }
            }
            assert(self@ =~= old(self)@.insert(i));
        }
    }
}

} // verus!
