//! A region of words, zeroed when it is made.
//!
//! Both limiters keep their counters in one. Zero is the "empty" state in both
//! tables built on it. Where the words are is not their concern: a table that is
//! to stay one table over several processes is put in memory they share.

use vstd::prelude::*;

verus! {

/// A fixed number of 64-bit words, wherever they are kept.
pub trait Words {
    /// The words. For memory that no proof sees, such as pages mapped by the operating
    /// system, it is left open what they are.
    open spec fn words(&self) -> Seq<u64> {
        arbitrary()
    }

    /// Reads one word.
    fn at(&self, i: usize) -> (r: u64)
        requires
            i < self.words().len(),
        ensures
            r == self.words()[i as int],
    ;

    /// Writes one word.
    fn put(&mut self, i: usize, word: u64)
        requires
            i < old(self).words().len(),
        ensures
            final(self).words() == old(self).words().update(i as int, word),
    ;
}

/// Words in the memory of this process.
#[derive(Debug)]
pub struct Shared {
    words: Vec<u64>,
}

impl View for Shared {
    type V = Seq<u64>;

    closed spec fn view(&self) -> Seq<u64> {
        self.words@
    }
}

impl Shared {
    /// Makes `words` zeroed words.
    pub fn new(words: usize) -> (r: Shared)
        ensures
            r@ == Seq::new(words as nat, |i: int| 0u64),
    {
        let mut v: Vec<u64> = Vec::with_capacity(words);
        for i in 0..words
            invariant
                v@ == Seq::new(i as nat, |j: int| 0u64),
        {
            v.push(0);
            assert(v@ =~= Seq::new((i + 1) as nat, |j: int| 0u64));
        }
        Shared { words: v }
    }
}

impl Words for Shared {
    open spec fn words(&self) -> Seq<u64> {
        self@
    }

    fn at(&self, i: usize) -> (r: u64) {
        self.words[i]
    }

    fn put(&mut self, i: usize, word: u64) {
        self.words[i] = word;
    }
}

/// Doubles `p` until it is at least `n`.
pub open spec fn doubled(p: int, n: int) -> int
    decreases 2 * n - p,
{
    if p >= n || p <= 0 {
        p
    } else {
        doubled(2 * p, n)
    }
}

/// How many slots a table for `max_entries` keys has: the next power of two, and
/// at least 64.
pub open spec fn slots_for(max_entries: int) -> int {
    doubled(64, max_entries)
}

pub proof fn lemma_doubled(p: int, n: int)
    requires
        p > 0,
    ensures
        doubled(p, n) >= p,
        doubled(p, n) >= n,
        doubled(p, n) < 2 * n || doubled(p, n) == p,
    decreases 2 * n - p,
{
    if p < n {
        lemma_doubled(2 * p, n);
    }
}

/// Computes the number of slots.
pub fn slot_count(max_entries: usize) -> (r: usize)
    requires
        max_entries <= usize::MAX / 4,
    ensures
        r == slots_for(max_entries as int),
        64 <= r,
        2 * r <= usize::MAX,
{
    proof {
        lemma_doubled(64, max_entries as int);
    }
    let mut p: usize = 64;
    while p < max_entries
        invariant
            0 < p,
            max_entries <= usize::MAX / 4,
            doubled(p as int, max_entries as int) == slots_for(max_entries as int),
        decreases 2 * max_entries - p,
    {
        p = p * 2;
    }
    p
}

} // verus!
