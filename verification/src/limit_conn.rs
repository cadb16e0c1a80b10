//! `limit_conn`: a cap on how many requests one key may have in flight.
//!
//! Despite the name it is requests being processed that count, not connections:
//! a keep-alive connection sitting idle between requests occupies nothing. The
//! count is held by a [`Guard`] and given back when the request is answered.
//!
//! A slot is a single word of `[tag:48][count:16]`, and every transition (claim,
//! increment, take over, release) changes the whole of it. A slot with a live
//! count is never taken over, so releases are exact.

use vstd::multiset::Multiset;
use vstd::prelude::*;
use vstd::string::*;

use crate::bytes;
use crate::limit_req;
use crate::shm;
use crate::shm::Shared;
use crate::shm::Words;

verus! {

/// How far a probe walks before giving up.
pub const PROBE: usize = 16;

/// The largest `limit_conn` number.
pub const MAX_CONNS: u32 = 65535;

pub const COUNT_SPAN: u64 = 0x1_0000;

// ---------------------------------------------------------------- words

pub open spec fn tag_of(w: u64) -> u64 {
    w / COUNT_SPAN
}

pub open spec fn count_of(w: u64) -> int {
    w as int % COUNT_SPAN as int
}

pub open spec fn word(tag: u64, count: int) -> int {
    tag * COUNT_SPAN + count
}

/// The tag of a key: its seeded hash folded into the 48 bits a slot has room
/// for. A tag of 0 marks an empty slot, so a real key never gets one.
pub open spec fn tag_for(seed: u64, key: Seq<u8>) -> u64 {
    let h = limit_req::seeded(seed, key);
    let t = (h ^ (h >> 48)) & 0xffff_ffff_ffff;
    if t == 0 {
        1
    } else {
        t
    }
}

/// A word that counts one more request, when the limit allows it.
pub open spec fn incremented(w: u64, tag: u64, limit: u32) -> Option<u64> {
    if count_of(w) < limit && count_of(w) < MAX_CONNS {
        Some(word(tag, count_of(w) + 1) as u64)
    } else {
        None
    }
}

/// Adds one request to a word of `tag`; nothing when it is at its limit.
pub fn increment(w: u64, tag: u64, limit: u32) -> (r: Option<u64>)
    requires
        tag < 0x1_0000_0000_0000,
    ensures
        r == incremented(w, tag, limit),
{
    let count: u64 = w % COUNT_SPAN;
    if count >= limit as u64 || count >= MAX_CONNS as u64 {
        return None;
    }
    Some(tag * COUNT_SPAN + (count + 1))
}

/// A word that counts one request less, when it is `tag`'s and counts any.
pub open spec fn decremented(w: u64, tag: u64) -> Option<u64> {
    if tag_of(w) == tag && count_of(w) > 0 {
        Some((w - 1) as u64)
    } else {
        None
    }
}

/// Takes one request off a word of `tag`; nothing when there is none to take.
/// At zero the tag stays: the slot is reusable by any key, but until someone
/// needs it this one keeps its place.
pub fn decrement(w: u64, tag: u64) -> (r: Option<u64>)
    ensures
        r == decremented(w, tag),
{
    if w / COUNT_SPAN != tag || w % COUNT_SPAN == 0 {
        return None;
    }
    Some(w - 1)
}

/// What was counted up and then down again is what it was.
pub proof fn law_a_release_undoes_an_acquire(w: u64, tag: u64, limit: u32)
    requires
        tag < 0x1_0000_0000_0000,
        tag_of(w) == tag,
        incremented(w, tag, limit) is Some,
    ensures
        decremented(incremented(w, tag, limit)->0, tag) == Some(w),
{
}

// ---------------------------------------------------------------- the table

/// The slot the `p`th probe for a tag looks at.
pub open spec fn seat(tag: u64, p: int, slots: int) -> int {
    limit_req::probed(tag, p, slots)
}

/// A slot is held for a tag, with or without requests in flight.
pub open spec fn holds(mem: Seq<u64>, tag: u64, i: int) -> bool {
    0 <= i < mem.len() && mem[i] != 0 && tag_of(mem[i]) == tag
}

/// Requests in flight for a tag.
pub open spec fn count_for(mem: Seq<u64>, tag: u64) -> int {
    if exists|i: int| holds(mem, tag, i) {
        count_of(mem[choose|i: int| holds(mem, tag, i)])
    } else {
        0
    }
}

/// The slot is within a probe of its tag, with no empty slot before it.
pub open spec fn is_reachable(mem: Seq<u64>, i: int) -> bool {
    exists|p: int|
        0 <= p < PROBE && #[trigger] seat(tag_of(mem[i]), p, mem.len() as int) == i && forall|q: int|
            0 <= q < p ==> mem[#[trigger] seat(tag_of(mem[i]), q, mem.len() as int)] != 0
}

/// No tag holds two slots, and a probe finds every slot that is held.
pub open spec fn is_table(mem: Seq<u64>) -> bool {
    &&& mem.len() >= 64
    &&& forall|i: int, j: int|
        0 <= i < j < mem.len() && mem[i] != 0 && mem[j] != 0 ==> tag_of(#[trigger] mem[i])
            != tag_of(#[trigger] mem[j])
    &&& forall|i: int| 0 <= i < mem.len() && mem[i] != 0 ==> tag_of(#[trigger] mem[i]) != 0
    &&& forall|i: int| 0 <= i < mem.len() && mem[i] != 0 ==> #[trigger] is_reachable(mem, i)
}

/// The first probe from `p` on that finds the tag or an empty slot, or `PROBE`.
pub open spec fn first_stop(mem: Seq<u64>, tag: u64, p: int) -> int
    decreases PROBE - p,
{
    if p >= PROBE {
        PROBE as int
    } else {
        let w = mem[seat(tag, p, mem.len() as int)];
        if w == 0 || tag_of(w) == tag {
            p
        } else {
            first_stop(mem, tag, p + 1)
        }
    }
}

/// The first probe from `p` on that finds a slot without requests, or `PROBE`.
pub open spec fn first_free(mem: Seq<u64>, tag: u64, p: int) -> int
    decreases PROBE - p,
{
    if p >= PROBE {
        PROBE as int
    } else if count_of(mem[seat(tag, p, mem.len() as int)]) == 0 {
        p
    } else {
        first_free(mem, tag, p + 1)
    }
}

/// The probe a request for a tag is counted at, or `PROBE` when it is refused:
/// the key is at its limit, or every slot in the window is busy with another
/// key.
pub open spec fn chosen(mem: Seq<u64>, tag: u64, limit: u32) -> int {
    let p = first_stop(mem, tag, 0);
    if limit == 0 {
        PROBE as int
    } else if p >= PROBE {
        first_free(mem, tag, 0)
    } else {
        let w = mem[seat(tag, p, mem.len() as int)];
        if w == 0 || count_of(w) < limit && count_of(w) < MAX_CONNS {
            p
        } else {
            PROBE as int
        }
    }
}

proof fn lemma_first_stop(mem: Seq<u64>, tag: u64, p: int)
    requires
        0 <= p <= PROBE,
    ensures
        p <= first_stop(mem, tag, p) <= PROBE,
        forall|q: int|
            p <= q < first_stop(mem, tag, p) ==> mem[#[trigger] seat(tag, q, mem.len() as int)] != 0
                && tag_of(mem[seat(tag, q, mem.len() as int)]) != tag,
        first_stop(mem, tag, p) < PROBE ==> ({
            let w = mem[seat(tag, first_stop(mem, tag, p), mem.len() as int)];
            w == 0 || tag_of(w) == tag
        }),
    decreases PROBE - p,
{
    if p < PROBE {
        let w = mem[seat(tag, p, mem.len() as int)];
        if !(w == 0 || tag_of(w) == tag) {
            lemma_first_stop(mem, tag, p + 1);
        }
    }
}

proof fn lemma_first_free(mem: Seq<u64>, tag: u64, p: int)
    requires
        0 <= p <= PROBE,
    ensures
        p <= first_free(mem, tag, p) <= PROBE,
        first_free(mem, tag, p) < PROBE ==> count_of(
            mem[seat(tag, first_free(mem, tag, p), mem.len() as int)],
        ) == 0,
    decreases PROBE - p,
{
    if p < PROBE && count_of(mem[seat(tag, p, mem.len() as int)]) != 0 {
        lemma_first_free(mem, tag, p + 1);
    }
}

/// Where a tag is held, a probe stops there; where it stops elsewhere, the tag
/// is not held.
proof fn lemma_stop_finds(mem: Seq<u64>, tag: u64)
    requires
        is_table(mem),
        tag != 0,
    ensures
        ({
            let p = first_stop(mem, tag, 0);
            let i = seat(tag, p, mem.len() as int);
            if p < PROBE && mem[i] != 0 {
                holds(mem, tag, i) && count_for(mem, tag) == count_of(mem[i])
            } else {
                (forall|j: int| !holds(mem, tag, j)) && count_for(mem, tag) == 0
            }
        }),
{
    let p = first_stop(mem, tag, 0);
    let n = mem.len() as int;
    let i = seat(tag, p, n);
    lemma_first_stop(mem, tag, 0);
    limit_req::lemma_probe(tag, p, n);
    if p < PROBE && mem[i] != 0 {
        assert(holds(mem, tag, i));
        let j = choose|j: int| holds(mem, tag, j);
        if j < i {
            assert(tag_of(mem[j]) != tag_of(mem[i]));
        } else if i < j {
            assert(tag_of(mem[i]) != tag_of(mem[j]));
        }
    } else {
        assert forall|j: int| !holds(mem, tag, j) by {
            if holds(mem, tag, j) {
                assert(is_reachable(mem, j));
                let q = choose|q: int|
                    0 <= q < PROBE && #[trigger] seat(tag, q, n) == j && forall|r: int|
                        0 <= r < q ==> mem[#[trigger] seat(tag, r, n)] != 0;
                if q < p {
                    assert(tag_of(mem[seat(tag, q, n)]) != tag);
                } else if p < q {
                    assert(mem[seat(tag, p, n)] != 0);
                }
            }
        }
    }
}

/// Writing a word of the same tag into a held slot keeps the table.
proof fn lemma_same_tag(mem: Seq<u64>, i: int, w: u64)
    requires
        is_table(mem),
        0 <= i < mem.len(),
        mem[i] != 0,
        w != 0,
        tag_of(w) == tag_of(mem[i]),
    ensures
        is_table(mem.update(i, w)),
{
    let after = mem.update(i, w);
    assert forall|a: int, b: int|
        0 <= a < b < after.len() && after[a] != 0 && after[b] != 0 implies tag_of(
        #[trigger] after[a],
    ) != tag_of(#[trigger] after[b]) by {
        assert(tag_of(mem[a]) != tag_of(mem[b]));
    }
    assert forall|j: int| 0 <= j < after.len() && after[j] != 0 implies #[trigger] is_reachable(
        after,
        j,
    ) by {
        assert(is_reachable(mem, j));
        lemma_still_reachable(mem, i, w, j);
    }
}

/// Filling a slot leaves the others reachable.
proof fn lemma_still_reachable(mem: Seq<u64>, i: int, w: u64, j: int)
    requires
        mem.len() >= 64,
        0 <= i < mem.len(),
        0 <= j < mem.len(),
        w != 0,
        j != i || tag_of(w) == tag_of(mem[i]),
        is_reachable(mem, j),
    ensures
        is_reachable(mem.update(i, w), j),
{
    let after = mem.update(i, w);
    let n = mem.len() as int;
    let t = tag_of(mem[j]);
    assert(tag_of(after[j]) == t);
    let p = choose|p: int|
        0 <= p < PROBE && #[trigger] seat(t, p, n) == j && forall|q: int|
            0 <= q < p ==> mem[#[trigger] seat(t, q, n)] != 0;
    assert forall|q: int| 0 <= q < p implies after[#[trigger] seat(
        tag_of(after[j]),
        q,
        after.len() as int,
    )] != 0 by {
        limit_req::lemma_probe(t, q, n);
        assert(mem[seat(t, q, n)] != 0);
    }
    assert(seat(tag_of(after[j]), p, after.len() as int) == j);
}

/// Giving a free slot to a tag that holds none keeps the table.
proof fn lemma_new_tag(mem: Seq<u64>, tag: u64, p: int, w: u64)
    requires
        is_table(mem),
        0 <= p < PROBE,
        tag != 0,
        tag_of(w) == tag,
        forall|j: int| !holds(mem, tag, j),
        forall|q: int| 0 <= q < p ==> mem[#[trigger] seat(tag, q, mem.len() as int)] != 0,
    ensures
        is_table(mem.update(seat(tag, p, mem.len() as int), w)),
        0 <= seat(tag, p, mem.len() as int) < mem.len(),
{
    let n = mem.len() as int;
    let i = seat(tag, p, n);
    limit_req::lemma_probe(tag, p, n);
    let after = mem.update(i, w);
    assert(w != 0);
    assert forall|a: int, b: int|
        0 <= a < b < after.len() && after[a] != 0 && after[b] != 0 implies tag_of(
        #[trigger] after[a],
    ) != tag_of(#[trigger] after[b]) by {
        assert(!holds(mem, tag, a));
        assert(!holds(mem, tag, b));
        if a != i && b != i {
            assert(tag_of(mem[a]) != tag_of(mem[b]));
        }
    }
    assert forall|j: int| 0 <= j < after.len() && after[j] != 0 implies #[trigger] is_reachable(
        after,
        j,
    ) by {
        if j != i {
            assert(is_reachable(mem, j));
            lemma_still_reachable(mem, i, w, j);
        } else {
            assert forall|q: int| 0 <= q < p implies after[#[trigger] seat(
                tag_of(after[j]),
                q,
                after.len() as int,
            )] != 0 by {
                limit_req::lemma_probe(tag, q, n);
                assert(mem[seat(tag, q, n)] != 0);
            }
            assert(seat(tag_of(after[j]), p, after.len() as int) == j);
        }
    }
}

/// Counts after one word changed: only the tags of the old and the new word can
/// count differently.
proof fn lemma_counts(mem: Seq<u64>, i: int, w: u64, t: u64)
    requires
        is_table(mem),
        is_table(mem.update(i, w)),
        0 <= i < mem.len(),
        w != 0,
        mem[i] == 0 || count_of(mem[i]) == 0 || tag_of(mem[i]) == tag_of(w),
    ensures
        count_for(mem.update(i, w), t) == if t == tag_of(w) {
            count_of(w)
        } else {
            count_for(mem, t)
        },
{
    let after = mem.update(i, w);
    if t == tag_of(w) {
        assert(holds(after, t, i));
        let j = choose|j: int| holds(after, t, j);
        if j < i {
            assert(tag_of(after[j]) != tag_of(after[i]));
        } else if i < j {
            assert(tag_of(after[i]) != tag_of(after[j]));
        }
    } else {
        if exists|j: int| holds(after, t, j) {
            let j = choose|j: int| holds(after, t, j);
            assert(holds(mem, t, j));
            let k = choose|k: int| holds(mem, t, k);
            if j < k {
                assert(tag_of(mem[j]) != tag_of(mem[k]));
            } else if k < j {
                assert(tag_of(mem[k]) != tag_of(mem[j]));
            }
        } else if exists|j: int| holds(mem, t, j) {
            let k = choose|k: int| holds(mem, t, k);
            if k != i {
                assert(holds(after, t, k));
            }
        }
    }
}

/// One `limit_conn_zone` at runtime.
#[derive(Debug)]
pub struct Zone<M = Shared> {
    pub name: String,
    /// Maximum number of keys held, derived from the zone's configured size.
    pub max_entries: usize,
    /// Randomises the hash of keys.
    pub seed: u64,
    pub slots: usize,
    pub mem: M,
}

/// A held slot in a [`Zone`], to be given back with [`Zone::release`].
#[derive(Debug)]
pub struct Guard {
    slot: usize,
    tag: u64,
}

impl Guard {
    pub closed spec fn spec_slot(&self) -> int {
        self.slot as int
    }

    pub closed spec fn spec_tag(&self) -> u64 {
        self.tag
    }

    /// The slot that is held, and the tag it is held for.
    pub open spec fn held(&self) -> (int, u64) {
        (self.spec_slot(), self.spec_tag())
    }
}

/// The counts of a table are those of the guards that are alive: each guard stands at a
/// slot of its tag, and each slot counts the guards that stand at it.
pub open spec fn is_accounted(mem: Seq<u64>, guards: Multiset<(int, u64)>) -> bool {
    &&& forall|g: (int, u64)| #[trigger]
        guards.count(g) > 0 ==> 0 <= g.0 < mem.len() && tag_of(mem[g.0]) == g.1
    &&& forall|i: int|
        0 <= i < mem.len() ==> guards.count((i, tag_of(#[trigger] mem[i]))) == count_of(mem[i])
}

/// Counting one request more at a slot that is free, or that is the tag's own, goes with
/// one guard more.
proof fn lemma_one_more(mem: Seq<u64>, guards: Multiset<(int, u64)>, i: int, w: u64)
    requires
        is_accounted(mem, guards),
        0 <= i < mem.len(),
        count_of(w) == if tag_of(mem[i]) == tag_of(w) {
            count_of(mem[i]) + 1
        } else {
            1
        },
        count_of(mem[i]) == 0 || tag_of(mem[i]) == tag_of(w),
    ensures
        is_accounted(mem.update(i, w), guards.insert((i, tag_of(w)))),
{
    let after = mem.update(i, w);
    let more = guards.insert((i, tag_of(w)));
    assert forall|g: (int, u64)| #[trigger] more.count(g) > 0 implies 0 <= g.0 < after.len()
        && tag_of(after[g.0]) == g.1 by {
        if g != (i, tag_of(w)) {
            assert(guards.count(g) > 0);
            if g.0 == i {
                assert(guards.count((i, tag_of(mem[i]))) == count_of(mem[i]));
            }
        }
    }
    assert forall|j: int| 0 <= j < after.len() implies more.count((j, tag_of(#[trigger] after[j])))
        == count_of(after[j]) by {
        assert(guards.count((j, tag_of(mem[j]))) == count_of(mem[j]));
        if j == i && tag_of(mem[i]) != tag_of(w) {
            if guards.count((i, tag_of(w))) > 0 {
                assert(tag_of(mem[i]) == tag_of(w));
            }
        }
    }
}

/// Counting one request less goes with one guard less.
proof fn lemma_one_less(mem: Seq<u64>, guards: Multiset<(int, u64)>, i: int)
    requires
        is_accounted(mem, guards),
        0 <= i < mem.len(),
        count_of(mem[i]) > 0,
    ensures
        is_accounted(
            mem.update(i, (mem[i] - 1) as u64),
            guards.remove((i, tag_of(mem[i]))),
        ),
{
    let w = (mem[i] - 1) as u64;
    let after = mem.update(i, w);
    let g0 = (i, tag_of(mem[i]));
    let less = guards.remove(g0);
    assert(guards.count(g0) == count_of(mem[i]));
    assert(tag_of(w) == tag_of(mem[i]) && count_of(w) == count_of(mem[i]) - 1);
    assert forall|g: (int, u64)| #[trigger] less.count(g) > 0 implies 0 <= g.0 < after.len()
        && tag_of(after[g.0]) == g.1 by {
        assert(guards.count(g) > 0);
    }
    assert forall|j: int| 0 <= j < after.len() implies less.count((j, tag_of(#[trigger] after[j])))
        == count_of(after[j]) by {
        assert(guards.count((j, tag_of(mem[j]))) == count_of(mem[j]));
    }
}

impl<M: Words> View for Zone<M> {
    type V = Seq<u64>;

    open spec fn view(&self) -> Seq<u64> {
        self.mem.words()
    }
}

/// How many of the first `n` slots hold a live count.
pub open spec fn live(mem: Seq<u64>, n: int) -> int
    decreases n,
{
    if n <= 0 {
        0
    } else {
        live(mem, n - 1) + if count_of(mem[n - 1]) != 0 {
            1int
        } else {
            0int
        }
    }
}

impl Zone<Shared> {
    /// Makes an empty zone in the memory of this process.
    pub fn new(name: &str, max_entries: usize, seed: u64) -> (r: Zone<Shared>)
        requires
            max_entries <= usize::MAX / 4,
        ensures
            r.wf(),
            r.name@ == name@,
            r.max_entries == max_entries,
            r.seed == seed,
            r@ == Seq::new(shm::slots_for(max_entries as int) as nat, |i: int| 0u64),
            forall|key: Seq<char>| r.in_flight(key) == 0,
            is_accounted(r@, Multiset::empty()),
    {
        let mem = Shared::new(shm::slot_count(max_entries));
        Zone::with_memory(name, max_entries, seed, mem)
    }
}

impl<M: Words> Zone<M> {
    pub open spec fn wf(&self) -> bool {
        self.mem.words().len() == self.slots && is_table(self.mem.words())
    }

    /// The tag this zone has for a key.
    pub open spec fn tag_of_key(&self, key: Seq<char>) -> u64 {
        tag_for(self.seed, bytes::utf8(key))
    }

    /// Requests in flight for a key.
    pub open spec fn in_flight(&self, key: Seq<char>) -> int {
        count_for(self@, self.tag_of_key(key))
    }

    /// Everything about a zone but its counts.
    pub open spec fn same_zone(&self, other: &Zone<M>) -> bool {
        &&& self.name == other.name
        &&& self.max_entries == other.max_entries
        &&& self.seed == other.seed
        &&& self@.len() == other@.len()
    }

    /// Makes an empty zone of words that are all zero: as many of them as
    /// [`shm::slot_count`] tells for `max_entries`. `seed` randomises the key tag,
    /// so that a colliding pair of keys cannot be computed offline.
    pub fn with_memory(name: &str, max_entries: usize, seed: u64, mem: M) -> (r: Zone<M>)
        requires
            max_entries <= usize::MAX / 4,
            mem.words() == Seq::new(shm::slots_for(max_entries as int) as nat, |i: int| 0u64),
        ensures
            r.wf(),
            r.name@ == name@,
            r.max_entries == max_entries,
            r.seed == seed,
            r.mem == mem,
            r@ == Seq::new(shm::slots_for(max_entries as int) as nat, |i: int| 0u64),
            forall|key: Seq<char>| r.in_flight(key) == 0,
            is_accounted(r@, Multiset::empty()),
    {
        let slots: usize = shm::slot_count(max_entries);
        let r = Zone { name: name.to_owned(), max_entries, seed, slots, mem };
        assert forall|key: Seq<char>| r.in_flight(key) == 0 by {
            assert forall|j: int| !holds(r.mem.words(), r.tag_of_key(key), j) by {}
        }
        r
    }

    fn tag(&self, key: &str) -> (r: u64)
        ensures
            r == self.tag_of_key(key@),
            0 < r < 0x1_0000_0000_0000,
    {
        let h: u64 = limit_req::seeded_hash(self.seed, key.as_bytes());
        // Fold the top bits down rather than truncating, so all 64 bits of the
        // hash contribute to the 48 that survive.
        let t: u64 = (h ^ (h >> 48)) & 0xffff_ffff_ffff;
        assert(t < 0x1_0000_0000_0000) by (bit_vector)
            requires
                t == (h ^ (h >> 48)) & 0xffff_ffff_ffff,
        ;
        if t == 0 {
            1
        } else {
            t
        }
    }

    /// Takes one slot of `limit` for `key`, or returns `None` if the key is
    /// already at its limit or its window is full of busy keys.
    ///
    /// The guard must be held for as long as the request is being processed,
    /// and then given back with [`Zone::release`].
    pub fn acquire(&mut self, key: &str, limit: u32) -> (r: Option<Guard>)
        requires
            old(self).wf(),
        ensures
            final(self).wf(),
            final(self).same_zone(old(self)),
            ({
                let tag = old(self).tag_of_key(key@);
                let capped = if limit < MAX_CONNS {
                    limit
                } else {
                    MAX_CONNS
                };
                let p = chosen(old(self)@, tag, capped);
                let i = seat(tag, p, old(self)@.len() as int);
                let n = count_for(old(self)@, tag);
                match r {
                    Some(g) => {
                        &&& p < PROBE
                        &&& g.spec_slot() == i
                        &&& g.spec_tag() == tag
                        &&& final(self)@ == old(self)@.update(i, word(tag, n + 1) as u64)
                        &&& n < capped
                        &&& forall|t: u64|
                            count_for(final(self)@, t) == if t == tag {
                                n + 1
                            } else {
                                count_for(old(self)@, t)
                            }
                    },
                    None => p == PROBE && final(self)@ == old(self)@,
                }
            }),
            limit == 0 ==> r is None,
            forall|guards: Multiset<(int, u64)>| #[trigger]
                is_accounted(old(self)@, guards) ==> is_accounted(
                    final(self)@,
                    match r {
                        Some(g) => guards.insert(g.held()),
                        None => guards,
                    },
                ),
    {
        if limit == 0 {
            return None;
        }
        let tag: u64 = self.tag(key);
        let limit: u32 = if limit < MAX_CONNS {
            limit
        } else {
            MAX_CONNS
        };
        let ghost mem = self.mem.words();
        let n: usize = self.slots;
        proof {
            lemma_stop_finds(mem, tag);
            lemma_first_stop(mem, tag, 0);
            lemma_first_free(mem, tag, 0);
        }
        let base: usize = (tag % (n as u64)) as usize;
        // Our key, or an empty slot, noting the first slot without requests in
        // case neither is there.
        let mut free: Option<usize> = None;
        let mut p: usize = 0;
        while p < PROBE
            invariant
                self.wf(),
                *self == *old(self),
                mem == self.mem.words(),
                n == self.slots,
                tag == old(self).tag_of_key(key@),
                0 < tag < 0x1_0000_0000_0000,
                base == tag as int % n as int,
                p <= PROBE,
                limit <= MAX_CONNS,
                first_stop(mem, tag, 0) == first_stop(mem, tag, p as int),
                match free {
                    Some(f) => f < p && first_free(mem, tag, 0) == f,
                    None => first_free(mem, tag, 0) == first_free(mem, tag, p as int),
                },
            ensures
                p == PROBE || p == first_stop(mem, tag, 0),
                p == PROBE ==> first_stop(mem, tag, 0) == PROBE,
                p == PROBE ==> match free {
                    Some(f) => f < PROBE && first_free(mem, tag, 0) == f,
                    None => first_free(mem, tag, 0) == PROBE,
                },
                p <= PROBE,
            decreases PROBE - p,
        {
            let i: usize = limit_req::wrapped(base, p, n);
            proof {
                limit_req::lemma_probe(tag, p as int, n as int);
            }
            let w: u64 = self.mem.at(i);
            if w == 0 || w / COUNT_SPAN == tag {
                break;
            }
            if free.is_none() && w % COUNT_SPAN == 0 {
                free = Some(p);
            }
            p = p + 1;
        }
        let q: usize = if p < PROBE {
            p
        } else {
            match free {
                Some(f) => f,
                None => {
                    // Refusing is the only safe answer when the count cannot
                    // be kept.
                    return None;
                },
            }
        };
        let i: usize = limit_req::wrapped(base, q, n);
        proof {
            limit_req::lemma_probe(tag, q as int, n as int);
        }
        let w: u64 = self.mem.at(i);
        if p < PROBE && w != 0 {
            match increment(w, tag, limit) {
                Some(next) => {
                    proof {
                        lemma_same_tag(mem, i as int, next);
                        assert forall|t: u64|
                            count_for(mem.update(i as int, next), t) == if t == tag {
                                count_of(w) + 1
                            } else {
                                count_for(mem, t)
                            } by {
                            lemma_counts(mem, i as int, next, t);
                        }
                    }
                    self.mem.put(i, next);
                },
                None => {
                    return None;
                },
            }
        } else {
            let next: u64 = tag * COUNT_SPAN + 1;
            proof {
                lemma_new_tag(mem, tag, q as int, next);
                assert forall|t: u64|
                    count_for(mem.update(i as int, next), t) == if t == tag {
                        1
                    } else {
                        count_for(mem, t)
                    } by {
                    lemma_counts(mem, i as int, next, t);
                }
            }
            self.mem.put(i, next);
        }
        assert forall|guards: Multiset<(int, u64)>| #[trigger]
            is_accounted(mem, guards) implies is_accounted(
            self.mem.words(),
            guards.insert((i as int, tag)),
        ) by {
            lemma_one_more(mem, guards, i as int, self.mem.words()[i as int]);
        }
        Some(Guard { slot: i, tag })
    }

    /// Gives one slot back. A guard that no longer matches its slot changes
    /// nothing.
    pub fn release(&mut self, guard: Guard)
        requires
            old(self).wf(),
        ensures
            final(self).wf(),
            final(self).same_zone(old(self)),
            ({
                let i = guard.spec_slot();
                let tag = guard.spec_tag();
                if i < old(self)@.len() && decremented(old(self)@[i], tag) is Some {
                    &&& final(self)@ == old(self)@.update(i, (old(self)@[i] - 1) as u64)
                    &&& forall|t: u64|
                        count_for(final(self)@, t) == if t == tag {
                            count_for(old(self)@, t) - 1
                        } else {
                            count_for(old(self)@, t)
                        }
                } else {
                    final(self)@ == old(self)@
                }
            }),
            forall|guards: Multiset<(int, u64)>| #[trigger]
                is_accounted(old(self)@, guards) && guards.count(guard.held()) > 0 ==> {
                    &&& is_accounted(final(self)@, guards.remove(guard.held()))
                    &&& forall|t: u64| #[trigger]
                        count_for(final(self)@, t) == if t == guard.spec_tag() {
                            count_for(old(self)@, t) - 1
                        } else {
                            count_for(old(self)@, t)
                        }
                },
    {
        proof {
            let i = guard.slot as int;
            assert forall|guards: Multiset<(int, u64)>| #[trigger]
                is_accounted(self.mem.words(), guards) && guards.count((i, guard.tag))
                > 0 implies 0 <= i < self.mem.words().len() && decremented(
                self.mem.words()[i],
                guard.tag,
            ) is Some && is_accounted(
                self.mem.words().update(i, (self.mem.words()[i] - 1) as u64),
                guards.remove((i, guard.tag)),
            ) by {
                assert(tag_of(self.mem.words()[i]) == guard.tag);
                lemma_one_less(self.mem.words(), guards, i);
            }
        }
        if guard.slot >= self.slots {
            return;
        }
        let w: u64 = self.mem.at(guard.slot);
        if let Some(next) = decrement(w, guard.tag) {
            let ghost mem = self.mem.words();
            proof {
                let i = guard.slot as int;
                assert(is_reachable(mem, i));
                assert(mem.update(i, w) =~= mem);
                lemma_same_tag(mem, i, next);
                assert forall|t: u64|
                    count_for(mem.update(i, next), t) == if t == guard.tag {
                        count_for(mem, t) - 1
                    } else {
                        count_for(mem, t)
                    } by {
                    lemma_counts(mem, i, next, t);
                    lemma_counts(mem, i, w, t);
                    assert(mem.update(i, w) =~= mem);
                }
            }
            self.mem.put(guard.slot, next);
        }
    }

    /// Requests currently counted against `key`.
    pub fn count(&self, key: &str) -> (r: u32)
        requires
            self.wf(),
        ensures
            r == self.in_flight(key@),
    {
        let tag: u64 = self.tag(key);
        let n: usize = self.slots;
        proof {
            lemma_stop_finds(self.mem.words(), tag);
            lemma_first_stop(self.mem.words(), tag, 0);
        }
        let base: usize = (tag % (n as u64)) as usize;
        let mut p: usize = 0;
        while p < PROBE
            invariant
                self.wf(),
                n == self.slots,
                base == tag as int % n as int,
                p <= PROBE,
                first_stop(self.mem.words(), tag, 0) == first_stop(self.mem.words(), tag, p as int),
                ({
                    let p = first_stop(self.mem.words(), tag, 0);
                    let i = seat(tag, p, self.mem.words().len() as int);
                    if p < PROBE && self.mem.words()[i] != 0 {
                        count_for(self.mem.words(), tag) == count_of(self.mem.words()[i])
                    } else {
                        count_for(self.mem.words(), tag) == 0
                    }
                }),
                tag == self.tag_of_key(key@),
            decreases PROBE - p,
        {
            let i: usize = limit_req::wrapped(base, p, n);
            proof {
                limit_req::lemma_probe(tag, p as int, n as int);
            }
            let w: u64 = self.mem.at(i);
            if w == 0 {
                return 0;
            }
            if w / COUNT_SPAN == tag {
                return (w % COUNT_SPAN) as u32;
            }
            p = p + 1;
        }
        0
    }

    /// Slots holding a live count.
    pub fn active(&self) -> (r: usize)
        requires
            self.wf(),
        ensures
            r == live(self@, self@.len() as int),
            r <= self@.len(),
    {
        let mut k: usize = 0;
        for i in 0..self.slots
            invariant
                self.wf(),
                k <= i,
                k == live(self@, i as int),
        {
            if self.mem.at(i) % COUNT_SPAN != 0 {
                k = k + 1;
            }
        }
        k
    }
}

/// A table in which a request for a tag was counted.
pub open spec fn taken(mem: Seq<u64>, tag: u64, limit: u32) -> Seq<u64> {
    mem.update(
        seat(tag, chosen(mem, tag, limit), mem.len() as int),
        word(tag, count_for(mem, tag) + 1) as u64,
    )
}

/// A table in which a slot was given back.
pub open spec fn given_back(mem: Seq<u64>, tag: u64, i: int) -> Seq<u64> {
    match decremented(mem[i], tag) {
        Some(w) => mem.update(i, w),
        None => mem,
    }
}

/// A request that came and went leaves every count as it was, its own and those of
/// all other keys.
pub proof fn law_a_request_leaves_no_trace(mem: Seq<u64>, tag: u64, limit: u32, t: u64)
    requires
        is_table(mem),
        0 < tag < 0x1_0000_0000_0000,
        limit <= MAX_CONNS,
        chosen(mem, tag, limit) < PROBE,
    ensures
        ({
            let i = seat(tag, chosen(mem, tag, limit), mem.len() as int);
            let during = taken(mem, tag, limit);
            &&& count_for(during, tag) == count_for(mem, tag) + 1
            &&& t != tag ==> count_for(during, t) == count_for(mem, t)
            &&& count_for(given_back(during, tag, i), t) == count_for(mem, t)
        }),
{
    let q = chosen(mem, tag, limit);
    let n = mem.len() as int;
    let i = seat(tag, q, n);
    let p = first_stop(mem, tag, 0);
    lemma_stop_finds(mem, tag);
    lemma_first_stop(mem, tag, 0);
    lemma_first_free(mem, tag, 0);
    limit_req::lemma_probe(tag, q, n);
    let before = count_for(mem, tag);
    let w = word(tag, before + 1) as u64;
    assert(before < MAX_CONNS);
    assert(tag_of(w) == tag && count_of(w) == before + 1 && w != 0);
    if p < PROBE && mem[i] != 0 {
        lemma_same_tag(mem, i, w);
    } else {
        lemma_new_tag(mem, tag, q, w);
    }
    lemma_counts(mem, i, w, t);
    lemma_counts(mem, i, w, tag);
    let during = mem.update(i, w);
    let back = (w - 1) as u64;
    assert(tag_of(back) == tag && count_of(back) == before && back != 0);
    lemma_same_tag(during, i, back);
    lemma_counts(during, i, back, t);
}

/// A guard gives back exactly what it took, whatever other requests came and went in
/// between: its key counts one less and no other key counts differently. What is left is
/// accounted to the guards that are left.
pub proof fn law_a_live_guard_gives_its_slot_back(
    mem: Seq<u64>,
    guards: Multiset<(int, u64)>,
    i: int,
    tag: u64,
    t: u64,
)
    requires
        is_table(mem),
        is_accounted(mem, guards),
        guards.count((i, tag)) > 0,
    ensures
        is_table(given_back(mem, tag, i)),
        is_accounted(given_back(mem, tag, i), guards.remove((i, tag))),
        count_for(given_back(mem, tag, i), t) == if t == tag {
            count_for(mem, t) - 1
        } else {
            count_for(mem, t)
        },
{
    assert(tag_of(mem[i]) == tag);
    assert(guards.count((i, tag_of(mem[i]))) == count_of(mem[i]));
    let w = mem[i];
    let back = (w - 1) as u64;
    assert(tag_of(back) == tag && count_of(back) == count_of(w) - 1);
    assert(tag_of(mem[i]) != 0);
    lemma_one_less(mem, guards, i);
    lemma_same_tag(mem, i, back);
    assert(mem.update(i, w) =~= mem);
    lemma_counts(mem, i, back, t);
    lemma_counts(mem, i, w, t);
}

/// A request that is counted is accounted to its guard.
pub proof fn law_a_taken_slot_is_accounted(
    mem: Seq<u64>,
    guards: Multiset<(int, u64)>,
    tag: u64,
    limit: u32,
)
    requires
        is_table(mem),
        is_accounted(mem, guards),
        0 < tag < 0x1_0000_0000_0000,
        limit <= MAX_CONNS,
        chosen(mem, tag, limit) < PROBE,
    ensures
        is_accounted(
            taken(mem, tag, limit),
            guards.insert((seat(tag, chosen(mem, tag, limit), mem.len() as int), tag)),
        ),
{
    let q = chosen(mem, tag, limit);
    let i = seat(tag, q, mem.len() as int);
    lemma_stop_finds(mem, tag);
    lemma_first_stop(mem, tag, 0);
    lemma_first_free(mem, tag, 0);
    limit_req::lemma_probe(tag, q, mem.len() as int);
    let before = count_for(mem, tag);
    let w = word(tag, before + 1) as u64;
    assert(before < MAX_CONNS);
    assert(tag_of(w) == tag && count_of(w) == before + 1);
    if mem[i] != 0 && tag_of(mem[i]) == tag {
        assert(holds(mem, tag, i));
    }
    lemma_one_more(mem, guards, i, w);
}

/// A key counts its guards that are alive, which all stand at one slot.
pub proof fn law_a_key_counts_its_guards(
    mem: Seq<u64>,
    guards: Multiset<(int, u64)>,
    tag: u64,
    i: int,
    j: int,
)
    requires
        is_table(mem),
        is_accounted(mem, guards),
        tag != 0,
        guards.count((i, tag)) > 0,
    ensures
        guards.count((i, tag)) == count_for(mem, tag),
        j != i ==> guards.count((j, tag)) == 0,
{
    assert(tag_of(mem[i]) == tag);
    assert(guards.count((i, tag_of(mem[i]))) == count_of(mem[i]));
    assert(holds(mem, tag, i));
    let k = choose|k: int| holds(mem, tag, k);
    if k < i {
        assert(tag_of(mem[k]) != tag_of(mem[i]));
    } else if i < k {
        assert(tag_of(mem[i]) != tag_of(mem[k]));
    }
    if j != i && guards.count((j, tag)) > 0 {
        assert(tag_of(mem[j]) == tag);
        if j < i {
            assert(tag_of(mem[j]) != tag_of(mem[i]));
        } else {
            assert(tag_of(mem[i]) != tag_of(mem[j]));
        }
    }
}

/// A key at its limit is refused.
pub proof fn law_the_limit_holds(mem: Seq<u64>, tag: u64, limit: u32)
    requires
        is_table(mem),
        tag != 0,
        count_for(mem, tag) >= limit,
    ensures
        chosen(mem, tag, limit) == PROBE,
{
    lemma_stop_finds(mem, tag);
}

/// A key below its limit that already has a slot is admitted, and so is one
/// whose window has a slot without requests.
pub proof fn law_room_admits(mem: Seq<u64>, tag: u64, limit: u32)
    requires
        is_table(mem),
        tag != 0,
        limit <= MAX_CONNS,
        count_for(mem, tag) < limit,
        (exists|i: int| holds(mem, tag, i)) || first_free(mem, tag, 0) < PROBE,
    ensures
        chosen(mem, tag, limit) < PROBE,
{
    lemma_stop_finds(mem, tag);
    lemma_first_stop(mem, tag, 0);
    lemma_first_free(mem, tag, 0);
}

/// A key with requests in flight is never evicted: the slot a newcomer is given
/// is its own, or has no requests.
pub proof fn law_live_keys_are_not_evicted(mem: Seq<u64>, tag: u64, limit: u32)
    requires
        is_table(mem),
        tag != 0,
        chosen(mem, tag, limit) < PROBE,
    ensures
        ({
            let w = mem[seat(tag, chosen(mem, tag, limit), mem.len() as int)];
            tag_of(w) == tag || count_of(w) == 0
        }),
{
    lemma_first_stop(mem, tag, 0);
    lemma_first_free(mem, tag, 0);
}

} // verus!
