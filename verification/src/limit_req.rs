//! `limit_req`: request rate limiting with a leaky bucket.
//!
//! State per key is a last-seen timestamp and an `excess` measured in
//! milli-requests (1000 = one whole request), which is what lets a fractional
//! rate like `30r/m` be exact:
//!
//! ```text
//!   excess = previous_excess - rate * elapsed_ms / 1000 + 1000
//!   excess = max(excess, 0)
//!   excess > burst  ->  reject
//!   otherwise       ->  admit, after excess * 1000 / rate ms of delay
//! ```
//!
//! The table is fixed-size open addressing: a key hash and a packed
//! (timestamp, excess) word per slot. A full probe window gives up the stalest
//! entry it can see.

use vstd::prelude::*;
use vstd::string::*;

use crate::bytes;
use crate::cache;
use crate::shm;
use crate::shm::Shared;
use crate::shm::Words;

verus! {

/// `rate` and `excess` are scaled by 1000 so a fractional requests-per-second
/// value stays exact in integer arithmetic.
pub const SCALE: u64 = 1000;

/// The decision for one request.
#[derive(Debug, Clone, Copy, PartialEq, Eq, Structural)]
pub enum Decision {
    /// Admit immediately.
    Pass,
    /// Admit, but only after this many milliseconds (`burst` without
    /// `nodelay`).
    Delay(u64),
    /// Over the limit: answer with `limit_req_status`.
    Reject,
}

// ---------------------------------------------------------------- the bucket

/// The bucket after draining for `elapsed_ms` and adding one request.
pub open spec fn filled(prev_excess: int, elapsed_ms: int, rate: int) -> int {
    let e = prev_excess - rate * elapsed_ms / 1000 + 1000;
    if e < 0 {
        0
    } else {
        e
    }
}

/// The wait that brings a request back onto the rate.
pub open spec fn delay_for(excess: int, rate: int, delay_after: int) -> int {
    let over = if excess > delay_after {
        (excess - delay_after) * 1000
    } else {
        0
    };
    (if over > u64::MAX {
        u64::MAX as int
    } else {
        over
    }) / (if rate < 1 {
        1
    } else {
        rate
    })
}

/// One step of the bucket: the new excess and the decision. A rejected request
/// is not charged.
pub open spec fn stepped(
    prev_excess: int,
    elapsed_ms: int,
    rate: int,
    burst: int,
    nodelay: bool,
    delay_after: int,
) -> (int, Decision) {
    let excess = filled(prev_excess, elapsed_ms, rate) % 0x1_0000_0000_0000_0000;
    if excess > burst {
        (prev_excess, Decision::Reject)
    } else if excess == 0 || nodelay || excess <= delay_after {
        (excess, Decision::Pass)
    } else {
        (excess, Decision::Delay(delay_for(excess, rate, delay_after) as u64))
    }
}

/// One leaky-bucket step, without any clock or table. Returns the new excess and
/// the decision.
///
/// * `rate`: permitted requests per second, scaled by [`SCALE`].
/// * `burst`: how far excess may run ahead, scaled by [`SCALE`].
/// * `elapsed_ms`: milliseconds since this key was last seen.
pub fn step(
    prev_excess: u64,
    elapsed_ms: u64,
    rate: u64,
    burst: u64,
    nodelay: bool,
    delay_after: u64,
) -> (r: (u64, Decision))
    ensures
        (r.0 as int, r.1) == stepped(
            prev_excess as int,
            elapsed_ms as int,
            rate as int,
            burst as int,
            nodelay,
            delay_after as int,
        ),
{
    proof {
        assert(rate * elapsed_ms <= u64::MAX * u64::MAX) by (nonlinear_arith)
            requires
                0 <= rate <= u64::MAX,
                0 <= elapsed_ms <= u64::MAX,
        ;
        assert(0 <= rate * elapsed_ms) by (nonlinear_arith)
            requires
                0 <= rate,
                0 <= elapsed_ms,
        ;
    }
    // Drain for elapsed time and add this request in one expression, clamping
    // only at the end: clamping the drain first would lose the overshoot that
    // makes a long-idle key start from an empty bucket.
    let drained: u128 = (rate as u128) * (elapsed_ms as u128) / 1000;
    let full: u128 = prev_excess as u128 + 1000;
    let left: u128 = if drained >= full {
        0
    } else {
        full - drained
    };
    let excess: u64 = (left % 0x1_0000_0000_0000_0000) as u64;
    if excess > burst {
        return (prev_excess, Decision::Reject);
    }
    if excess == 0 || nodelay || excess <= delay_after {
        return (excess, Decision::Pass);
    }
    let over: u128 = (excess - delay_after) as u128 * 1000;
    let over: u64 = if over > u64::MAX as u128 {
        u64::MAX
    } else {
        over as u64
    };
    let by: u64 = if rate < 1 {
        1
    } else {
        rate
    };
    let delay: u64 = over / by;
    (excess, Decision::Delay(delay))
}

/// An admitted request never takes the bucket past `burst`, and a rejected one
/// leaves it as it was.
pub proof fn law_burst_is_the_bound(
    prev_excess: int,
    elapsed_ms: int,
    rate: int,
    burst: int,
    nodelay: bool,
    delay_after: int,
)
    ensures
        ({
            let (e, d) = stepped(prev_excess, elapsed_ms, rate, burst, nodelay, delay_after);
            if d is Reject {
                e == prev_excess
            } else {
                e <= burst
            }
        }),
{
}

/// With `nodelay` a request is admitted at once or not at all.
pub proof fn law_nodelay_never_delays(
    prev_excess: int,
    elapsed_ms: int,
    rate: int,
    burst: int,
    delay_after: int,
)
    ensures
        !(stepped(prev_excess, elapsed_ms, rate, burst, true, delay_after).1 is Delay),
{
}

/// Requests spaced at the rate or wider all pass, and leave an empty bucket
/// behind them, whatever `burst` is.
pub proof fn law_requests_at_the_rate_pass(
    elapsed_ms: int,
    rate: int,
    burst: int,
    nodelay: bool,
    delay_after: int,
)
    requires
        rate * elapsed_ms / 1000 >= 1000,
        burst >= 0,
    ensures
        stepped(0, elapsed_ms, rate, burst, nodelay, delay_after) == (0int, Decision::Pass),
{
}

/// A bucket drains: after long enough it admits again, and is empty.
pub proof fn law_the_bucket_drains(
    prev_excess: int,
    elapsed_ms: int,
    rate: int,
    burst: int,
    nodelay: bool,
    delay_after: int,
)
    requires
        rate * elapsed_ms / 1000 >= prev_excess + 1000,
        burst >= 0,
    ensures
        stepped(prev_excess, elapsed_ms, rate, burst, nodelay, delay_after) == (
            0int,
            Decision::Pass,
        ),
{
}

/// Without a burst, a second request in the same millisecond is rejected.
pub proof fn law_no_burst_means_no_second_request(
    prev_excess: int,
    rate: int,
    nodelay: bool,
    delay_after: int,
)
    requires
        0 <= prev_excess < 0x1_0000_0000_0000_0000 - 1000,
    ensures
        stepped(prev_excess, 0, rate, 0, nodelay, delay_after).1 is Reject,
{
}

// ---------------------------------------------------------------- packed state

/// How far a probe walks before giving up and evicting.
pub const PROBE: usize = 16;

/// `excess` occupies the low 24 bits of the packed state word: 16.7 million
/// milli-requests. A larger excess is clamped.
pub const EXCESS_SPAN: u64 = 0x100_0000;

/// The timestamp gets 39 bits of milliseconds: some 17 years of uptime before
/// it wraps.
pub const MS_SPAN: u64 = 0x80_0000_0000;

/// Set on every stored state so that no legitimate state is ever the 0 that
/// means "freshly claimed".
pub const PRESENT: u64 = 0x8000_0000_0000_0000;

pub open spec fn packed(last_ms: int, excess: int) -> int {
    PRESENT + (last_ms % MS_SPAN as int) * EXCESS_SPAN + if excess < EXCESS_SPAN {
        excess
    } else {
        EXCESS_SPAN - 1
    }
}

pub open spec fn last_of(w: u64) -> int {
    (w as int / EXCESS_SPAN as int) % (MS_SPAN as int)
}

pub open spec fn excess_of(w: u64) -> int {
    w as int % EXCESS_SPAN as int
}

fn pack(last_ms: u64, excess: u64) -> (r: u64)
    ensures
        r == packed(last_ms as int, excess as int),
{
    let e: u64 = if excess < EXCESS_SPAN {
        excess
    } else {
        EXCESS_SPAN - 1
    };
    PRESENT + (last_ms % MS_SPAN) * EXCESS_SPAN + e
}

/// A stored state gives back its timestamp and its excess, as far as they fit,
/// and is never the empty state.
pub proof fn law_states_read_back(last_ms: u64, excess: u64, w: u64)
    requires
        w == packed(last_ms as int, excess as int),
    ensures
        w != 0,
        last_ms < MS_SPAN ==> last_of(w) == last_ms,
        excess < EXCESS_SPAN ==> excess_of(w) == excess,
{
}

/// What a state word says of the bucket: its excess, and the time since.
/// A freshly claimed slot is an empty bucket nobody has seen.
pub open spec fn bucket_of(state: u64, now_ms: u64) -> (int, int) {
    if state == 0 {
        (0, u64::MAX as int / 1000)
    } else {
        (
            excess_of(state),
            if now_ms > last_of(state) {
                now_ms - last_of(state)
            } else {
                0
            },
        )
    }
}

/// A state word after one request, and the decision.
pub open spec fn bumped(
    state: u64,
    now_ms: u64,
    rate: u64,
    burst: u64,
    nodelay: bool,
    delay_after: u64,
) -> (u64, Decision) {
    let (prev, elapsed) = bucket_of(state, now_ms);
    let (excess, d) = stepped(
        prev,
        elapsed,
        rate as int,
        burst as int,
        nodelay,
        delay_after as int,
    );
    if d is Reject {
        (state, d)
    } else {
        (packed(now_ms as int, excess) as u64, d)
    }
}

/// Runs the leaky-bucket step against one state word. The word comes back
/// unchanged when the request is rejected.
pub fn bump(
    state: u64,
    now_ms: u64,
    rate: u64,
    burst: u64,
    nodelay: bool,
    delay_after: u64,
) -> (r: (u64, Decision))
    ensures
        r == bumped(state, now_ms, rate, burst, nodelay, delay_after),
{
    let mut prev: u64 = 0;
    let mut elapsed: u64 = u64::MAX / 1000;
    if state != 0 {
        prev = state % EXCESS_SPAN;
        let last: u64 = (state / EXCESS_SPAN) % MS_SPAN;
        elapsed = if now_ms > last {
            now_ms - last
        } else {
            0
        };
    }
    let (excess, decision) = step(prev, elapsed, rate, burst, nodelay, delay_after);
    match decision {
        Decision::Reject => (state, decision),
        _ => (pack(now_ms, excess), decision),
    }
}

// ---------------------------------------------------------------- the table

/// FNV-1a over a seed and a key.
pub open spec fn seeded(seed: u64, key: Seq<u8>) -> u64
    decreases key.len(),
{
    if key.len() == 0 {
        cache::FNV_OFFSET ^ seed
    } else {
        (seeded(seed, key.drop_last()) ^ (key.last() as u64)).wrapping_mul(cache::FNV_PRIME)
    }
}

/// Computes the seeded hash.
pub fn seeded_hash(seed: u64, key: &[u8]) -> (r: u64)
    ensures
        r == seeded(seed, key@),
{
    let mut h: u64 = cache::FNV_OFFSET ^ seed;
    for i in 0..key.len()
        invariant
            h == seeded(seed, key@.subrange(0, i as int)),
    {
        assert(key@.subrange(0, i + 1).drop_last() =~= key@.subrange(0, i as int));
        h = (h ^ (key[i] as u64)).wrapping_mul(cache::FNV_PRIME);
    }
    assert(key@.subrange(0, key@.len() as int) =~= key@);
    h
}

/// The hash a key is stored under. 0 marks an empty slot; a real key never
/// looks like one.
pub open spec fn key_hash(seed: u64, key: Seq<u8>) -> u64 {
    let h = seeded(seed, key);
    if h == 0 {
        1
    } else {
        h
    }
}

/// The slot the `p`th probe of a hash looks at.
pub open spec fn probed(h: u64, p: int, slots: int) -> int {
    (h + p) % slots
}

/// The hash word of a slot.
pub open spec fn hash_at(mem: Seq<u64>, i: int) -> u64 {
    mem[2 * i]
}

/// The state word of a slot.
pub open spec fn state_at(mem: Seq<u64>, i: int) -> u64 {
    mem[2 * i + 1]
}

/// The first probe from `p` on that finds the key or an empty slot, or `PROBE`.
pub open spec fn first_stop(mem: Seq<u64>, slots: int, h: u64, p: int) -> int
    decreases PROBE - p,
{
    if p >= PROBE {
        PROBE as int
    } else {
        let eh = hash_at(mem, probed(h, p, slots));
        if eh == h || eh == 0 {
            p
        } else {
            first_stop(mem, slots, h, p + 1)
        }
    }
}

/// Of the first `n` probes the one whose slot was idle longest; of equally idle
/// ones the first.
pub open spec fn stalest(mem: Seq<u64>, slots: int, h: u64, n: int) -> int
    decreases n,
{
    if n <= 1 {
        0
    } else {
        let q = stalest(mem, slots, h, n - 1);
        let l = last_of(state_at(mem, probed(h, n - 1, slots)));
        if l < last_of(state_at(mem, probed(h, q, slots))) {
            n - 1
        } else {
            q
        }
    }
}

/// The slot a key is accounted in.
pub open spec fn slot_for(mem: Seq<u64>, slots: int, h: u64) -> int {
    let p = first_stop(mem, slots, h, 0);
    probed(
        h,
        if p < PROBE {
            p
        } else {
            stalest(mem, slots, h, PROBE as int)
        },
        slots,
    )
}

/// The table with a slot made ready for a key: claimed afresh unless the key
/// holds it already.
pub open spec fn claimed(mem: Seq<u64>, i: int, h: u64) -> Seq<u64> {
    if hash_at(mem, i) == h {
        mem
    } else {
        mem.update(2 * i, h).update(2 * i + 1, 0)
    }
}

/// A request to account for: the hash of its key, when it came, and the limits on it.
pub ghost struct Ask {
    pub h: u64,
    pub now_ms: u64,
    pub burst: u64,
    pub nodelay: bool,
    pub delay_after: u64,
}

/// The table after a request, and the decision on it.
pub open spec fn checked(mem: Seq<u64>, slots: int, rate: u64, a: Ask) -> (Seq<u64>, Decision) {
    let i = slot_for(mem, slots, a.h);
    let m = claimed(mem, i, a.h);
    let (state, d) = bumped(state_at(m, i), a.now_ms, rate, a.burst, a.nodelay, a.delay_after);
    (m.update(2 * i + 1, state), d)
}

/// Whether each key of a table is found again: the probes in front of its slot look at
/// slots of other keys.
pub open spec fn is_found_again(mem: Seq<u64>, slots: int) -> bool {
    forall|h: u64, q: int, p: int|
        #![trigger probed(h, q, slots), probed(h, p, slots)]
        0 <= q < p < PROBE && h != 0 && hash_at(mem, probed(h, p, slots)) == h ==> {
            &&& hash_at(mem, probed(h, q, slots)) != 0
            &&& hash_at(mem, probed(h, q, slots)) != h
        }
}

/// One `limit_req_zone` at runtime.
///
/// Layout: `slots` entries of two words each, `[hash, state]`, where a hash of 0
/// marks an empty slot.
#[derive(Debug)]
pub struct Zone<M = Shared> {
    pub name: String,
    /// Requests per second, scaled by [`SCALE`].
    pub rate: u64,
    /// Maximum number of keys held, derived from the zone's configured size.
    pub max_entries: usize,
    /// Randomises the hash of keys.
    pub seed: u64,
    pub slots: usize,
    pub mem: M,
}

impl<M: Words> View for Zone<M> {
    type V = Seq<u64>;

    open spec fn view(&self) -> Seq<u64> {
        self.mem.words()
    }
}

impl Zone<Shared> {
    /// Makes an empty zone in the memory of this process.
    pub fn new(name: &str, rate: u64, max_entries: usize, seed: u64) -> (r: Zone<Shared>)
        requires
            max_entries <= usize::MAX / 4,
        ensures
            r.wf(),
            r.name@ == name@,
            r.rate == rate,
            r.max_entries == max_entries,
            r.seed == seed,
            r.slots == shm::slots_for(max_entries as int),
            r@ == Seq::new((2 * r.slots) as nat, |i: int| 0u64),
    {
        let mem = Shared::new(shm::slot_count(max_entries) * 2);
        Zone::with_memory(name, rate, max_entries, seed, mem)
    }
}

impl<M: Words> Zone<M> {
    pub open spec fn wf(&self) -> bool {
        &&& self.slots >= 64
        &&& 2 * self.slots <= usize::MAX
        &&& self.mem.words().len() == 2 * self.slots
        &&& is_found_again(self.mem.words(), self.slots as int)
    }

    /// Makes an empty zone of words that are all zero: twice as many of them as
    /// [`shm::slot_count`] tells for `max_entries`. `seed` randomises the key hash,
    /// so that a colliding pair of keys cannot be computed offline.
    pub fn with_memory(name: &str, rate: u64, max_entries: usize, seed: u64, mem: M) -> (r: Zone<M>)
        requires
            max_entries <= usize::MAX / 4,
            mem.words() == Seq::new((2 * shm::slots_for(max_entries as int)) as nat, |i: int| 0u64),
        ensures
            r.wf(),
            r.name@ == name@,
            r.rate == rate,
            r.max_entries == max_entries,
            r.seed == seed,
            r.slots == shm::slots_for(max_entries as int),
            r.mem == mem,
    {
        let slots: usize = shm::slot_count(max_entries);
        assert(is_found_again(mem.words(), slots as int)) by {
            assert forall|h: u64, p: int| h != 0 && 0 <= p < PROBE implies hash_at(
                mem.words(),
                #[trigger] probed(h, p, slots as int),
            ) != h by {
                lemma_probe(h, p, slots as int);
            }
        }
        Zone { name: name.to_owned(), rate, max_entries, seed, slots, mem }
    }

    /// Accounts for one request against `key` and returns the decision. `now_ms`
    /// counts from when the zone was made.
    pub fn check(
        &mut self,
        key: &str,
        now_ms: u64,
        burst: u64,
        nodelay: bool,
        delay_after: u64,
    ) -> (r: Decision)
        requires
            old(self).wf(),
        ensures
            final(self).wf(),
            final(self).name == old(self).name,
            final(self).rate == old(self).rate,
            final(self).max_entries == old(self).max_entries,
            final(self).seed == old(self).seed,
            final(self).slots == old(self).slots,
            (final(self)@, r) == checked(
                old(self)@,
                old(self).slots as int,
                old(self).rate,
                Ask {
                    h: key_hash(old(self).seed, bytes::utf8(key@)),
                    now_ms,
                    burst,
                    nodelay,
                    delay_after,
                },
            ),
    {
        let hashed: u64 = seeded_hash(self.seed, key.as_bytes());
        let h: u64 = if hashed == 0 {
            1
        } else {
            hashed
        };
        let i: usize = self.place(h);
        let ghost m = claimed(self.mem.words(), i as int, h);
        if self.mem.at(2 * i) != h {
            self.mem.put(2 * i, h);
            self.mem.put(2 * i + 1, 0);
        }
        assert(self.mem.words() =~= m);
        let (state, d) = bump(
            self.mem.at(2 * i + 1),
            now_ms,
            self.rate,
            burst,
            nodelay,
            delay_after,
        );
        self.mem.put(2 * i + 1, state);
        proof {
            lemma_found_again(
                old(self)@,
                self.slots as int,
                self.rate,
                Ask { h, now_ms, burst, nodelay, delay_after },
            );
        }
        d
    }

    /// The slot a hash is accounted in: its own, or an empty one, or the one
    /// idle longest in a window full of other keys.
    fn place(&self, h: u64) -> (r: usize)
        requires
            self.wf(),
        ensures
            r == slot_for(self@, self.slots as int, h),
            r < self.slots,
    {
        let base: usize = (h % (self.slots as u64)) as usize;
        let mut p: usize = 0;
        let mut best: usize = 0;
        while p < PROBE
            invariant
                self.wf(),
                base == h as int % self.slots as int,
                p <= PROBE,
                best < p || p == 0,
                p == 0 ==> best == 0,
                best < PROBE,
                p > 0 ==> best == stalest(self@, self.slots as int, h, p as int),
                first_stop(self@, self.slots as int, h, 0) == first_stop(
                    self@,
                    self.slots as int,
                    h,
                    p as int,
                ),
            decreases PROBE - p,
        {
            let i: usize = wrapped(base, p, self.slots);
            proof {
                lemma_probe(h, p as int, self.slots as int);
                lemma_probe(h, best as int, self.slots as int);
            }
            let eh: u64 = self.mem.at(2 * i);
            if eh == h || eh == 0 {
                return i;
            }
            if p > 0 {
                let b: usize = wrapped(base, best, self.slots);
                let last: u64 = (self.mem.at(2 * i + 1) / EXCESS_SPAN) % MS_SPAN;
                let least: u64 = (self.mem.at(2 * b + 1) / EXCESS_SPAN) % MS_SPAN;
                if last < least {
                    best = p;
                }
            }
            p = p + 1;
        }
        proof {
            lemma_probe(h, best as int, self.slots as int);
        }
        wrapped(base, best, self.slots)
    }

    /// Keys currently held.
    pub fn tracked_count(&self) -> (r: usize)
        requires
            self.wf(),
        ensures
            r == occupied(self@, self.slots as int),
            r <= self.slots as int,
    {
        let mut n: usize = 0;
        for i in 0..self.slots
            invariant
                self.wf(),
                n <= i,
                n == occupied(self@, i as int),
        {
            if self.mem.at(2 * i) != 0 {
                n = n + 1;
            }
        }
        n
    }
}

/// How many of the first `n` slots hold a key.
pub open spec fn occupied(mem: Seq<u64>, n: int) -> int
    decreases n,
{
    if n <= 0 {
        0
    } else {
        occupied(mem, n - 1) + if hash_at(mem, n - 1) != 0 {
            1int
        } else {
            0int
        }
    }
}

/// `base + p`, around the end of a table.
pub fn wrapped(base: usize, p: usize, slots: usize) -> (r: usize)
    requires
        base < slots,
        p < slots,
    ensures
        r == (base + p) % slots as int,
        r < slots,
{
    if p < slots - base {
        proof {
            vstd::arithmetic::div_mod::lemma_small_mod((base + p) as nat, slots as nat);
        }
        base + p
    } else {
        proof {
            vstd::arithmetic::div_mod::lemma_fundamental_div_mod_converse(
                base + p,
                slots as int,
                1,
                base + p - slots,
            );
        }
        p - (slots - base)
    }
}

/// Wrapping after reducing is wrapping.
pub proof fn lemma_probe(h: u64, p: int, slots: int)
    requires
        slots > 0,
    ensures
        probed(h, p, slots) == (h as int % slots + p) % slots,
        0 <= probed(h, p, slots) < slots,
{
    vstd::arithmetic::div_mod::lemma_add_mod_noop(h as int, p, slots);
    vstd::arithmetic::div_mod::lemma_add_mod_noop(h as int % slots, p, slots);
    vstd::arithmetic::div_mod::lemma_mod_twice(h as int, slots);
    vstd::arithmetic::div_mod::lemma_mod_bound(h + p, slots);
}

/// Different probes of a key look at different slots.
proof fn lemma_probes_differ(h: u64, p: int, q: int, slots: int)
    requires
        slots >= 64,
        0 <= p < PROBE,
        0 <= q < PROBE,
        probed(h, p, slots) == probed(h, q, slots),
    ensures
        p == q,
{
    lemma_probe(h, p, slots);
    lemma_probe(h, q, slots);
    let base = h as int % slots;
    vstd::arithmetic::div_mod::lemma_mod_bound(h as int, slots);
    lemma_around(base + p, slots);
    lemma_around(base + q, slots);
}

proof fn lemma_around(x: int, slots: int)
    requires
        slots > 0,
        0 <= x < 2 * slots,
    ensures
        x % slots == if x < slots {
            x
        } else {
            x - slots
        },
{
    if x < slots {
        vstd::arithmetic::div_mod::lemma_small_mod(x as nat, slots as nat);
    } else {
        vstd::arithmetic::div_mod::lemma_fundamental_div_mod_converse(x, slots, 1, x - slots);
    }
}

/// What the first stop of a probe says of the slots it looked at.
proof fn lemma_first_stop(mem: Seq<u64>, slots: int, h: u64, p: int)
    requires
        0 <= p <= PROBE,
    ensures
        ({
            let s = first_stop(mem, slots, h, p);
            &&& p <= s <= PROBE
            &&& forall|q: int|
                #![trigger probed(h, q, slots)]
                p <= q < s ==> hash_at(mem, probed(h, q, slots)) != h && hash_at(
                    mem,
                    probed(h, q, slots),
                ) != 0
            &&& s < PROBE ==> hash_at(mem, probed(h, s, slots)) == h || hash_at(
                mem,
                probed(h, s, slots),
            ) == 0
        }),
    decreases PROBE - p,
{
    if p < PROBE {
        lemma_first_stop(mem, slots, h, p + 1);
    }
}

proof fn lemma_stalest_within(mem: Seq<u64>, slots: int, h: u64, n: int)
    requires
        n >= 1,
    ensures
        0 <= stalest(mem, slots, h, n) < n,
    decreases n,
{
    if n > 1 {
        lemma_stalest_within(mem, slots, h, n - 1);
    }
}

/// The probe whose slot a key is accounted in.
spec fn place_for(mem: Seq<u64>, slots: int, h: u64) -> int {
    let p = first_stop(mem, slots, h, 0);
    if p < PROBE {
        p
    } else {
        stalest(mem, slots, h, PROBE as int)
    }
}

proof fn lemma_place_for(mem: Seq<u64>, slots: int, h: u64)
    requires
        slots >= 64,
        mem.len() == 2 * slots,
        h != 0,
    ensures
        0 <= place_for(mem, slots, h) < PROBE,
        slot_for(mem, slots, h) == probed(h, place_for(mem, slots, h), slots),
        0 <= slot_for(mem, slots, h) < slots,
        forall|q: int|
            #![trigger probed(h, q, slots)]
            0 <= q < place_for(mem, slots, h) ==> hash_at(mem, probed(h, q, slots)) != h
                && hash_at(mem, probed(h, q, slots)) != 0,
{
    lemma_first_stop(mem, slots, h, 0);
    lemma_stalest_within(mem, slots, h, PROBE as int);
    lemma_probe(h, place_for(mem, slots, h), slots);
}

/// A key that stands in its window is the one its probes stop at.
proof fn lemma_stands(mem: Seq<u64>, slots: int, h: u64, p: int)
    requires
        slots >= 64,
        mem.len() == 2 * slots,
        h != 0,
        0 <= p < PROBE,
        hash_at(mem, probed(h, p, slots)) == h,
        forall|q: int|
            #![trigger probed(h, q, slots)]
            0 <= q < p ==> hash_at(mem, probed(h, q, slots)) != h && hash_at(
                mem,
                probed(h, q, slots),
            ) != 0,
    ensures
        place_for(mem, slots, h) == p,
        slot_for(mem, slots, h) == probed(h, p, slots),
{
    lemma_first_stop(mem, slots, h, 0);
    let s = first_stop(mem, slots, h, 0);
    if s < p {
        assert(hash_at(mem, probed(h, s, slots)) != h);
    }
    if s > p {
        assert(hash_at(mem, probed(h, p, slots)) != h);
    }
}

/// The table after a request differs in its slot alone, which is then the key's.
proof fn lemma_checked(mem: Seq<u64>, slots: int, rate: u64, a: Ask)
    requires
        slots >= 64,
        mem.len() == 2 * slots,
        a.h != 0,
    ensures
        ({
            let i = slot_for(mem, slots, a.h);
            let m = checked(mem, slots, rate, a).0;
            &&& m.len() == mem.len()
            &&& hash_at(m, i) == a.h
            &&& forall|j: int|
                #![trigger hash_at(m, j)]
                #![trigger state_at(m, j)]
                0 <= j < slots && j != i ==> hash_at(m, j) == hash_at(mem, j) && state_at(m, j)
                    == state_at(mem, j)
        }),
{
    lemma_place_for(mem, slots, a.h);
}

/// Requests keep the keys of a table where they are found again.
proof fn lemma_found_again(mem: Seq<u64>, slots: int, rate: u64, a: Ask)
    requires
        slots >= 64,
        mem.len() == 2 * slots,
        a.h != 0,
        is_found_again(mem, slots),
    ensures
        is_found_again(checked(mem, slots, rate, a).0, slots),
{
    let m = checked(mem, slots, rate, a).0;
    let i = slot_for(mem, slots, a.h);
    let pa = place_for(mem, slots, a.h);
    lemma_checked(mem, slots, rate, a);
    lemma_place_for(mem, slots, a.h);
    assert forall|h: u64, q: int, p: int|
        #![trigger probed(h, q, slots), probed(h, p, slots)]
        0 <= q < p < PROBE && h != 0 && hash_at(m, probed(h, p, slots)) == h implies {
        &&& hash_at(m, probed(h, q, slots)) != 0
        &&& hash_at(m, probed(h, q, slots)) != h
    } by {
        let x = probed(h, p, slots);
        let y = probed(h, q, slots);
        lemma_probe(h, p, slots);
        lemma_probe(h, q, slots);
        if x == y {
            lemma_probes_differ(h, p, q, slots);
        }
        if x == i {
            assert(h == a.h);
            lemma_probes_differ(h, p, pa, slots);
            assert(hash_at(m, y) == hash_at(mem, y));
        } else {
            assert(hash_at(mem, x) == h);
            assert(hash_at(mem, y) != 0 && hash_at(mem, y) != h);
            if y == i {
                if h == a.h {
                    assert forall|r: int|
                        #![trigger probed(h, r, slots)]
                        0 <= r < p implies hash_at(mem, probed(h, r, slots)) != h && hash_at(
                        mem,
                        probed(h, r, slots),
                    ) != 0 by {
                        assert(probed(h, p, slots) == x);
                    }
                    lemma_stands(mem, slots, h, p);
                }
            } else {
                assert(hash_at(m, y) == hash_at(mem, y));
            }
        }
    }
}

/// The state a key's next request is decided on: that of its slot, or 0, an empty bucket
/// nobody has seen, where it has none.
pub open spec fn state_of(mem: Seq<u64>, slots: int, h: u64) -> u64 {
    let i = slot_for(mem, slots, h);
    if hash_at(mem, i) == h {
        state_at(mem, i)
    } else {
        0
    }
}

/// A key that stands nowhere in its window has no state.
proof fn lemma_absent(mem: Seq<u64>, slots: int, h: u64)
    requires
        slots >= 64,
        mem.len() == 2 * slots,
        h != 0,
        is_found_again(mem, slots),
    ensures
        hash_at(mem, slot_for(mem, slots, h)) != h <==> forall|p: int|
            #![trigger probed(h, p, slots)]
            0 <= p < PROBE ==> hash_at(mem, probed(h, p, slots)) != h,
{
    lemma_place_for(mem, slots, h);
    let pl = place_for(mem, slots, h);
    if hash_at(mem, probed(h, pl, slots)) != h {
        assert forall|p: int|
            #![trigger probed(h, p, slots)]
            0 <= p < PROBE implies hash_at(mem, probed(h, p, slots)) != h by {
            if hash_at(mem, probed(h, p, slots)) == h {
                assert forall|r: int|
                    #![trigger probed(h, r, slots)]
                    0 <= r < p implies hash_at(mem, probed(h, r, slots)) != h && hash_at(
                    mem,
                    probed(h, r, slots),
                ) != 0 by {
                    assert(hash_at(mem, probed(h, p, slots)) == h);
                }
                lemma_stands(mem, slots, h, p);
            }
        }
    }
}

/// A request is decided on the state of its key and on nothing else of the table.
pub proof fn law_a_key_is_decided_on_its_state(mem: Seq<u64>, slots: int, rate: u64, a: Ask)
    requires
        slots >= 64,
        mem.len() == 2 * slots,
        a.h != 0,
    ensures
        checked(mem, slots, rate, a).1 == bumped(
            state_of(mem, slots, a.h),
            a.now_ms,
            rate,
            a.burst,
            a.nodelay,
            a.delay_after,
        ).1,
{
    lemma_place_for(mem, slots, a.h);
}

/// A request leaves its key the state that the bucket comes to.
pub proof fn law_a_request_sets_its_state(mem: Seq<u64>, slots: int, rate: u64, a: Ask)
    requires
        slots >= 64,
        mem.len() == 2 * slots,
        a.h != 0,
    ensures
        state_of(checked(mem, slots, rate, a).0, slots, a.h) == bumped(
            state_of(mem, slots, a.h),
            a.now_ms,
            rate,
            a.burst,
            a.nodelay,
            a.delay_after,
        ).0,
{
    let i = slot_for(mem, slots, a.h);
    let m = checked(mem, slots, rate, a).0;
    let p = place_for(mem, slots, a.h);
    lemma_place_for(mem, slots, a.h);
    lemma_checked(mem, slots, rate, a);
    assert forall|q: int|
        #![trigger probed(a.h, q, slots)]
        0 <= q < p implies hash_at(m, probed(a.h, q, slots)) != a.h && hash_at(
        m,
        probed(a.h, q, slots),
    ) != 0 by {
        lemma_probe(a.h, q, slots);
        if probed(a.h, q, slots) == i {
            lemma_probes_differ(a.h, q, p, slots);
        }
        assert(hash_at(m, probed(a.h, q, slots)) == hash_at(mem, probed(a.h, q, slots)));
    }
    lemma_stands(m, slots, a.h, p);
}

/// A rejected request does not charge its key: the state of the key is what it was, and a
/// key that has a slot finds the table exactly as it was.
pub proof fn law_rejection_does_not_charge(mem: Seq<u64>, slots: int, rate: u64, a: Ask)
    requires
        slots >= 64,
        mem.len() == 2 * slots,
        a.h != 0,
        checked(mem, slots, rate, a).1 is Reject,
    ensures
        state_of(checked(mem, slots, rate, a).0, slots, a.h) == state_of(mem, slots, a.h),
        hash_at(mem, slot_for(mem, slots, a.h)) == a.h ==> checked(mem, slots, rate, a).0 == mem,
{
    let i = slot_for(mem, slots, a.h);
    law_a_request_sets_its_state(mem, slots, rate, a);
    law_a_key_is_decided_on_its_state(mem, slots, rate, a);
    lemma_place_for(mem, slots, a.h);
    if hash_at(mem, i) == a.h {
        assert(mem.update(2 * i + 1, mem[2 * i + 1]) =~= mem);
    }
}

/// A request of one key leaves the state of another as it was, or, where it takes over
/// the slot of the other, without any.
pub proof fn law_other_keys_keep_their_state(mem: Seq<u64>, slots: int, rate: u64, a: Ask, h: u64)
    requires
        slots >= 64,
        mem.len() == 2 * slots,
        a.h != 0,
        h != 0,
        h != a.h,
        is_found_again(mem, slots),
    ensures
        state_of(checked(mem, slots, rate, a).0, slots, h) == if slot_for(mem, slots, a.h)
            == slot_for(mem, slots, h) {
            0
        } else {
            state_of(mem, slots, h)
        },
{
    let m = checked(mem, slots, rate, a).0;
    let i = slot_for(mem, slots, a.h);
    let j = slot_for(mem, slots, h);
    let p = place_for(mem, slots, h);
    lemma_place_for(mem, slots, a.h);
    lemma_place_for(mem, slots, h);
    lemma_checked(mem, slots, rate, a);
    lemma_found_again(mem, slots, rate, a);
    lemma_absent(mem, slots, h);
    lemma_absent(m, slots, h);
    if hash_at(mem, j) == h && i != j {
        assert forall|q: int|
            #![trigger probed(h, q, slots)]
            0 <= q < p implies hash_at(m, probed(h, q, slots)) != h && hash_at(
            m,
            probed(h, q, slots),
        ) != 0 by {
            lemma_probe(h, q, slots);
            if probed(h, q, slots) != i {
                assert(hash_at(m, probed(h, q, slots)) == hash_at(mem, probed(h, q, slots)));
            }
        }
        assert(hash_at(m, j) == hash_at(mem, j));
        assert(state_at(m, j) == state_at(mem, j));
        lemma_stands(m, slots, h, p);
    } else {
        assert forall|q: int|
            #![trigger probed(h, q, slots)]
            0 <= q < PROBE implies hash_at(m, probed(h, q, slots)) != h by {
            lemma_probe(h, q, slots);
            let x = probed(h, q, slots);
            if x != i {
                assert(hash_at(m, x) == hash_at(mem, x));
                if hash_at(mem, x) == h {
                    // Two places of one key would be one.
                    assert(hash_at(mem, probed(h, p, slots)) == h);
                    if q < p {
                        assert(hash_at(mem, probed(h, q, slots)) != h);
                    } else if p < q {
                        assert(hash_at(mem, probed(h, p, slots)) != h);
                    }
                }
            }
        }
    }
}

/// The table after some requests.
pub open spec fn checked_all(mem: Seq<u64>, slots: int, rate: u64, asks: Seq<Ask>) -> Seq<u64>
    decreases asks.len(),
{
    if asks.len() == 0 {
        mem
    } else {
        checked(checked_all(mem, slots, rate, asks.drop_last()), slots, rate, asks.last()).0
    }
}

/// Whatever requests of other keys come in between, a key without a state still has none.
proof fn lemma_stays_without(mem: Seq<u64>, slots: int, rate: u64, asks: Seq<Ask>, h: u64)
    requires
        slots >= 64,
        mem.len() == 2 * slots,
        h != 0,
        is_found_again(mem, slots),
        state_of(mem, slots, h) == 0,
        forall|k: int|
            #![trigger asks[k]]
            0 <= k < asks.len() ==> asks[k].h != 0 && asks[k].h != h,
    ensures
        ({
            let m = checked_all(mem, slots, rate, asks);
            &&& m.len() == mem.len()
            &&& is_found_again(m, slots)
            &&& state_of(m, slots, h) == 0
        }),
    decreases asks.len(),
{
    if asks.len() > 0 {
        let before = asks.drop_last();
        assert forall|k: int|
            #![trigger before[k]]
            0 <= k < before.len() implies before[k].h != 0 && before[k].h != h by {
            assert(before[k] == asks[k]);
        }
        lemma_stays_without(mem, slots, rate, before, h);
        let m = checked_all(mem, slots, rate, before);
        let a = asks[asks.len() - 1];
        lemma_checked(m, slots, rate, a);
        lemma_found_again(m, slots, rate, a);
        law_other_keys_keep_their_state(m, slots, rate, a, h);
    }
}

/// A rejected request changes nothing for its key later on, be it the first of the key
/// or not: after any requests of other keys in between, the next request of the key is
/// decided as it would have been without the rejected one.
pub proof fn law_a_rejection_is_forgotten(
    mem: Seq<u64>,
    slots: int,
    rate: u64,
    rejected: Ask,
    asks: Seq<Ask>,
    later: Ask,
)
    requires
        slots >= 64,
        mem.len() == 2 * slots,
        is_found_again(mem, slots),
        rejected.h != 0,
        later.h == rejected.h,
        checked(mem, slots, rate, rejected).1 is Reject,
        forall|k: int|
            #![trigger asks[k]]
            0 <= k < asks.len() ==> asks[k].h != 0 && asks[k].h != rejected.h,
    ensures
        ({
            let with = checked_all(checked(mem, slots, rate, rejected).0, slots, rate, asks);
            let without = checked_all(mem, slots, rate, asks);
            checked(with, slots, rate, later).1 == checked(without, slots, rate, later).1
        }),
{
    let m = checked(mem, slots, rate, rejected).0;
    law_rejection_does_not_charge(mem, slots, rate, rejected);
    if hash_at(mem, slot_for(mem, slots, rejected.h)) != rejected.h {
        lemma_checked(mem, slots, rate, rejected);
        lemma_found_again(mem, slots, rate, rejected);
        lemma_stays_without(mem, slots, rate, asks, rejected.h);
        lemma_stays_without(m, slots, rate, asks, rejected.h);
        law_a_key_is_decided_on_its_state(checked_all(mem, slots, rate, asks), slots, rate, later);
        law_a_key_is_decided_on_its_state(checked_all(m, slots, rate, asks), slots, rate, later);
    }
}

/// Whether a request takes over the slot of another key.
pub open spec fn is_taken_over(mem: Seq<u64>, slots: int, a: Ask, h: u64) -> bool {
    a.h != h && hash_at(mem, slot_for(mem, slots, h)) == h && slot_for(mem, slots, a.h)
        == slot_for(mem, slots, h)
}

/// Whether a key keeps its slot, if it has one, through some requests.
pub open spec fn keeps_slot(mem: Seq<u64>, slots: int, rate: u64, asks: Seq<Ask>, h: u64) -> bool
    decreases asks.len(),
{
    asks.len() == 0 || {
        &&& keeps_slot(mem, slots, rate, asks.drop_last(), h)
        &&& !is_taken_over(checked_all(mem, slots, rate, asks.drop_last()), slots, asks.last(), h)
    }
}

/// Two tables in which a key has the same state decide on it alike for as long as it
/// keeps its slot in both.
proof fn lemma_alike(m1: Seq<u64>, m2: Seq<u64>, slots: int, rate: u64, asks: Seq<Ask>, h: u64)
    requires
        slots >= 64,
        m1.len() == 2 * slots,
        m2.len() == 2 * slots,
        h != 0,
        is_found_again(m1, slots),
        is_found_again(m2, slots),
        state_of(m1, slots, h) == state_of(m2, slots, h),
        forall|k: int| #![trigger asks[k]] 0 <= k < asks.len() ==> asks[k].h != 0,
        keeps_slot(m1, slots, rate, asks, h),
        keeps_slot(m2, slots, rate, asks, h),
    ensures
        ({
            let a1 = checked_all(m1, slots, rate, asks);
            let a2 = checked_all(m2, slots, rate, asks);
            &&& a1.len() == m1.len()
            &&& a2.len() == m2.len()
            &&& is_found_again(a1, slots)
            &&& is_found_again(a2, slots)
            &&& state_of(a1, slots, h) == state_of(a2, slots, h)
        }),
    decreases asks.len(),
{
    if asks.len() > 0 {
        let before = asks.drop_last();
        assert forall|k: int| #![trigger before[k]] 0 <= k < before.len() implies before[k].h
            != 0 by {
            assert(before[k] == asks[k]);
        }
        lemma_alike(m1, m2, slots, rate, before, h);
        let b1 = checked_all(m1, slots, rate, before);
        let b2 = checked_all(m2, slots, rate, before);
        let a = asks[asks.len() - 1];
        lemma_checked(b1, slots, rate, a);
        lemma_checked(b2, slots, rate, a);
        lemma_found_again(b1, slots, rate, a);
        lemma_found_again(b2, slots, rate, a);
        if a.h == h {
            law_a_request_sets_its_state(b1, slots, rate, a);
            law_a_request_sets_its_state(b2, slots, rate, a);
        } else {
            law_other_keys_keep_their_state(b1, slots, rate, a, h);
            law_other_keys_keep_their_state(b2, slots, rate, a, h);
        }
    }
}

/// Every later request of a key is decided as it would have been without a rejected one,
/// whatever requests come in between, its own or those of other keys, as long as none of
/// the others takes over its slot.
pub proof fn law_a_rejection_stays_forgotten(
    mem: Seq<u64>,
    slots: int,
    rate: u64,
    rejected: Ask,
    asks: Seq<Ask>,
    later: Ask,
)
    requires
        slots >= 64,
        mem.len() == 2 * slots,
        is_found_again(mem, slots),
        rejected.h != 0,
        later.h == rejected.h,
        checked(mem, slots, rate, rejected).1 is Reject,
        forall|k: int| #![trigger asks[k]] 0 <= k < asks.len() ==> asks[k].h != 0,
        keeps_slot(checked(mem, slots, rate, rejected).0, slots, rate, asks, rejected.h),
        keeps_slot(mem, slots, rate, asks, rejected.h),
    ensures
        ({
            let with = checked_all(checked(mem, slots, rate, rejected).0, slots, rate, asks);
            let without = checked_all(mem, slots, rate, asks);
            checked(with, slots, rate, later).1 == checked(without, slots, rate, later).1
        }),
{
    let m = checked(mem, slots, rate, rejected).0;
    law_rejection_does_not_charge(mem, slots, rate, rejected);
    lemma_checked(mem, slots, rate, rejected);
    lemma_found_again(mem, slots, rate, rejected);
    lemma_alike(m, mem, slots, rate, asks, rejected.h);
    law_a_key_is_decided_on_its_state(checked_all(mem, slots, rate, asks), slots, rate, later);
    law_a_key_is_decided_on_its_state(checked_all(m, slots, rate, asks), slots, rate, later);
}

/// A state word after some requests on it, and how many of them were admitted.
pub open spec fn metered(state: u64, rate: u64, asks: Seq<Ask>) -> (u64, nat)
    decreases asks.len(),
{
    if asks.len() == 0 {
        (state, 0)
    } else {
        let (before, n) = metered(state, rate, asks.drop_last());
        let a = asks.last();
        let (after, d) = bumped(before, a.now_ms, rate, a.burst, a.nodelay, a.delay_after);
        (
            after,
            if d is Reject {
                n
            } else {
                n + 1
            },
        )
    }
}

/// Whether requests come within some time, none before the one in front of it, and under
/// no more than some burst.
pub open spec fn is_spell(asks: Seq<Ask>, burst: int, from_ms: int, to_ms: int) -> bool {
    &&& forall|i: int|
        #![trigger asks[i]]
        0 <= i < asks.len() ==> from_ms <= asks[i].now_ms <= to_ms && asks[i].burst <= burst
    &&& forall|i: int, j: int|
        #![trigger asks[i], asks[j]]
        0 <= i < j < asks.len() ==> asks[i].now_ms <= asks[j].now_ms
}

proof fn lemma_spell_front(asks: Seq<Ask>, burst: int, from_ms: int, to_ms: int)
    requires
        asks.len() > 0,
        is_spell(asks, burst, from_ms, to_ms),
    ensures
        is_spell(asks.drop_last(), burst, from_ms, to_ms),
{
    let front = asks.drop_last();
    assert forall|i: int|
        #![trigger front[i]]
        0 <= i < front.len() implies from_ms <= front[i].now_ms <= to_ms && front[i].burst
        <= burst by {
        assert(front[i] == asks[i]);
    }
    assert forall|i: int, j: int|
        #![trigger front[i], front[j]]
        0 <= i < j < front.len() implies front[i].now_ms <= front[j].now_ms by {
        assert(front[i] == asks[i] && front[j] == asks[j]);
    }
}

/// What drains in two spans is no more than what drains in both of them together.
proof fn lemma_drains_add(rate: int, a: int, b: int)
    requires
        rate >= 0,
        a >= 0,
        b >= 0,
    ensures
        rate * a / 1000 + rate * b / 1000 <= rate * (a + b) / 1000,
        rate * a / 1000 >= 0,
        rate * a / 1000 <= rate * (a + b) / 1000,
{
    assert(rate * (a + b) == rate * a + rate * b) by (nonlinear_arith);
    assert(rate * a >= 0 && rate * b >= 0) by (nonlinear_arith)
        requires
            rate >= 0,
            a >= 0,
            b >= 0,
    ;
}

/// A bucket holds what was admitted beyond the rate.
proof fn lemma_metered(state: u64, rate: u64, asks: Seq<Ask>, burst: int, from_ms: int, to_ms: int)
    requires
        is_spell(asks, burst, from_ms, to_ms),
        0 <= from_ms,
        to_ms < MS_SPAN,
        burst < EXCESS_SPAN,
    ensures
        ({
            let (after, n) = metered(state, rate, asks);
            n > 0 ==> {
                &&& after != 0
                &&& from_ms <= last_of(after) <= asks[asks.len() - 1].now_ms
                &&& excess_of(after) <= burst
                &&& 1000 * n <= excess_of(after) + 1000 + rate * (last_of(after) - from_ms) / 1000
            }
        }),
    decreases asks.len(),
{
    if asks.len() > 0 {
        let front = asks.drop_last();
        lemma_spell_front(asks, burst, from_ms, to_ms);
        lemma_metered(state, rate, front, burst, from_ms, to_ms);
        let (before, n) = metered(state, rate, front);
        let a = asks[asks.len() - 1];
        let (after, d) = bumped(before, a.now_ms, rate, a.burst, a.nodelay, a.delay_after);
        if n > 0 {
            assert(front[front.len() - 1] == asks[asks.len() - 2]);
            assert(asks[asks.len() - 2].now_ms <= a.now_ms);
        }
        if !(d is Reject) {
            let (prev, elapsed) = bucket_of(before, a.now_ms);
            let excess = filled(prev, elapsed, rate as int);
            assert(rate * elapsed >= 0) by (nonlinear_arith)
                requires
                    rate >= 0,
                    elapsed >= 0,
            ;
            assert(0 <= excess <= prev + 1000);
            assert(0 <= excess <= burst);
            assert(packed(a.now_ms as int, excess) <= u64::MAX);
            law_states_read_back(a.now_ms, excess as u64, after);
            if n > 0 {
                let last = last_of(before);
                lemma_drains_add(rate as int, last - from_ms, a.now_ms - last);
                assert(elapsed == a.now_ms - last);
                assert(last - from_ms + (a.now_ms - last) == a.now_ms - from_ms);
            } else {
                lemma_drains_add(rate as int, a.now_ms - from_ms, 0);
            }
        }
    }
}

/// What rate limiting is for: whatever comes, a bucket admits no more than its rate over
/// the time, its burst, and one request. This holds of any spell of requests, of clocks
/// and bursts that a state word can hold, whatever the bucket held before.
pub proof fn law_the_rate_is_kept(
    state: u64,
    rate: u64,
    asks: Seq<Ask>,
    burst: int,
    from_ms: int,
    to_ms: int,
)
    requires
        is_spell(asks, burst, from_ms, to_ms),
        0 <= from_ms <= to_ms < MS_SPAN,
        0 <= burst < EXCESS_SPAN,
    ensures
        1000 * metered(state, rate, asks).1 <= burst + 1000 + rate * (to_ms - from_ms) / 1000,
{
    let (after, n) = metered(state, rate, asks);
    lemma_metered(state, rate, asks, burst, from_ms, to_ms);
    if n > 0 {
        let last = last_of(after);
        assert(asks[asks.len() - 1].now_ms <= to_ms);
        lemma_drains_add(rate as int, last - from_ms, to_ms - last);
        assert(last - from_ms + (to_ms - last) == to_ms - from_ms);
    } else {
        lemma_drains_add(rate as int, to_ms - from_ms, 0);
    }
}

/// A bucket after some requests, with the excess and the time of the last one admitted,
/// and how many of them were admitted.
pub open spec fn stepped_all(excess: int, last_ms: int, rate: int, asks: Seq<Ask>) -> (int, int, nat)
    decreases asks.len(),
{
    if asks.len() == 0 {
        (excess, last_ms, 0)
    } else {
        let (e, l, n) = stepped_all(excess, last_ms, rate, asks.drop_last());
        let a = asks.last();
        let elapsed = if a.now_ms > l {
            a.now_ms - l
        } else {
            0
        };
        let (next, d) = stepped(
            e,
            elapsed,
            rate,
            a.burst as int,
            a.nodelay,
            a.delay_after as int,
        );
        if d is Reject {
            (e, l, n)
        } else {
            (next, a.now_ms as int, n + 1)
        }
    }
}

proof fn lemma_stepped_all(
    excess: int,
    last_ms: int,
    rate: int,
    asks: Seq<Ask>,
    burst: int,
    from_ms: int,
    to_ms: int,
)
    requires
        is_spell(asks, burst, from_ms, to_ms),
        0 <= from_ms,
        rate >= 0,
        0 <= excess <= u64::MAX - 1000,
        0 <= burst <= u64::MAX - 1000,
    ensures
        ({
            let (e, l, n) = stepped_all(excess, last_ms, rate, asks);
            &&& 0 <= e <= u64::MAX - 1000
            &&& n > 0 ==> {
                &&& from_ms <= l <= asks[asks.len() - 1].now_ms
                &&& e <= burst
                &&& 1000 * n <= e + 1000 + rate * (l - from_ms) / 1000
            }
        }),
    decreases asks.len(),
{
    if asks.len() > 0 {
        let front = asks.drop_last();
        lemma_spell_front(asks, burst, from_ms, to_ms);
        lemma_stepped_all(excess, last_ms, rate, front, burst, from_ms, to_ms);
        let (e, l, n) = stepped_all(excess, last_ms, rate, front);
        let a = asks[asks.len() - 1];
        if n > 0 {
            assert(front[front.len() - 1] == asks[asks.len() - 2]);
            assert(asks[asks.len() - 2].now_ms <= a.now_ms);
        }
        let elapsed = if a.now_ms > l {
            a.now_ms - l
        } else {
            0
        };
        assert(rate * elapsed >= 0) by (nonlinear_arith)
            requires
                rate >= 0,
                elapsed >= 0,
        ;
        let next = filled(e, elapsed, rate);
        assert(0 <= next <= e + 1000);
        assert(next % 0x1_0000_0000_0000_0000 == next);
        if next <= a.burst {
            if n > 0 {
                lemma_drains_add(rate, l - from_ms, a.now_ms - l);
                assert(l - from_ms + (a.now_ms - l) == a.now_ms - from_ms);
            } else {
                lemma_drains_add(rate, a.now_ms - from_ms, 0);
            }
        }
    }
}

/// The steps of a bucket keep the rate, whatever it held before: they admit no more than
/// the rate over the time, the burst, and one request.
pub proof fn law_steps_keep_the_rate(
    excess: int,
    last_ms: int,
    rate: int,
    asks: Seq<Ask>,
    burst: int,
    from_ms: int,
    to_ms: int,
)
    requires
        is_spell(asks, burst, from_ms, to_ms),
        0 <= from_ms <= to_ms,
        rate >= 0,
        0 <= excess <= u64::MAX - 1000,
        0 <= burst <= u64::MAX - 1000,
    ensures
        1000 * stepped_all(excess, last_ms, rate, asks).2 <= burst + 1000 + rate * (to_ms - from_ms)
            / 1000,
{
    let (_, l, n) = stepped_all(excess, last_ms, rate, asks);
    lemma_stepped_all(excess, last_ms, rate, asks, burst, from_ms, to_ms);
    if n > 0 {
        assert(asks[asks.len() - 1].now_ms <= to_ms);
        lemma_drains_add(rate, l - from_ms, to_ms - l);
        assert(l - from_ms + (to_ms - l) == to_ms - from_ms);
    } else {
        lemma_drains_add(rate, to_ms - from_ms, 0);
    }
}

/// The requests of one key among some.
pub open spec fn asks_of(asks: Seq<Ask>, h: u64) -> Seq<Ask>
    decreases asks.len(),
{
    if asks.len() == 0 {
        Seq::empty()
    } else if asks.last().h == h {
        asks_of(asks.drop_last(), h).push(asks.last())
    } else {
        asks_of(asks.drop_last(), h)
    }
}

/// How many requests of one key a table admits among some.
pub open spec fn admitted(mem: Seq<u64>, slots: int, rate: u64, asks: Seq<Ask>, h: u64) -> nat
    decreases asks.len(),
{
    if asks.len() == 0 {
        0
    } else {
        let front = asks.drop_last();
        let d = checked(checked_all(mem, slots, rate, front), slots, rate, asks.last()).1;
        admitted(mem, slots, rate, front, h) + if asks.last().h == h && !(d is Reject) {
            1nat
        } else {
            0nat
        }
    }
}

proof fn lemma_spell_of(asks: Seq<Ask>, h: u64, burst: int, from_ms: int, to_ms: int)
    requires
        is_spell(asks, burst, from_ms, to_ms),
    ensures
        is_spell(asks_of(asks, h), burst, from_ms, to_ms),
        asks_of(asks, h).len() > 0 ==> asks.len() > 0 && asks_of(asks, h).last().now_ms
            <= asks.last().now_ms,
    decreases asks.len(),
{
    if asks.len() > 0 {
        let front = asks.drop_last();
        lemma_spell_front(asks, burst, from_ms, to_ms);
        lemma_spell_of(front, h, burst, from_ms, to_ms);
        let some = asks_of(front, h);
        let a = asks[asks.len() - 1];
        if front.len() > 0 {
            assert(front.last() == asks[asks.len() - 2]);
            assert(asks[asks.len() - 2].now_ms <= a.now_ms);
        }
        if a.h == h {
            let all = asks_of(asks, h);
            assert(all == some.push(a));
            assert forall|i: int|
                #![trigger all[i]]
                0 <= i < all.len() implies from_ms <= all[i].now_ms <= to_ms && all[i].burst
                <= burst by {
                if i < some.len() {
                    assert(all[i] == some[i]);
                }
            }
            assert forall|i: int, j: int|
                #![trigger all[i], all[j]]
                0 <= i < j < all.len() implies all[i].now_ms <= all[j].now_ms by {
                assert(all[i] == some[i]);
                if j < some.len() {
                    assert(all[j] == some[j]);
                } else if i < some.len() - 1 {
                    assert(some[i].now_ms <= some[some.len() - 1].now_ms);
                }
            }
        }
    }
}

/// A key that keeps its slot is metered on its own requests alone.
proof fn lemma_metered_alone(mem: Seq<u64>, slots: int, rate: u64, asks: Seq<Ask>, h: u64)
    requires
        slots >= 64,
        mem.len() == 2 * slots,
        h != 0,
        is_found_again(mem, slots),
        forall|k: int| #![trigger asks[k]] 0 <= k < asks.len() ==> asks[k].h != 0,
        keeps_slot(mem, slots, rate, asks, h),
    ensures
        ({
            let m = checked_all(mem, slots, rate, asks);
            &&& m.len() == mem.len()
            &&& is_found_again(m, slots)
            &&& (state_of(m, slots, h), admitted(mem, slots, rate, asks, h)) == metered(
                state_of(mem, slots, h),
                rate,
                asks_of(asks, h),
            )
        }),
    decreases asks.len(),
{
    if asks.len() > 0 {
        let front = asks.drop_last();
        assert forall|k: int| #![trigger front[k]] 0 <= k < front.len() implies front[k].h
            != 0 by {
            assert(front[k] == asks[k]);
        }
        lemma_metered_alone(mem, slots, rate, front, h);
        let m = checked_all(mem, slots, rate, front);
        let a = asks[asks.len() - 1];
        lemma_checked(m, slots, rate, a);
        lemma_found_again(m, slots, rate, a);
        if a.h == h {
            law_a_request_sets_its_state(m, slots, rate, a);
            law_a_key_is_decided_on_its_state(m, slots, rate, a);
            assert(asks_of(asks, h).drop_last() =~= asks_of(front, h));
            assert(asks_of(asks, h).last() == a);
        } else {
            law_other_keys_keep_their_state(m, slots, rate, a, h);
        }
    }
}

/// The rate is kept in a whole zone: however many requests of other keys come in between,
/// a key is admitted no more often than the rate over the time, the burst, and one
/// request, for as long as none of the others takes over its slot.
pub proof fn law_the_rate_is_kept_of_every_key(
    mem: Seq<u64>,
    slots: int,
    rate: u64,
    asks: Seq<Ask>,
    h: u64,
    burst: int,
    from_ms: int,
    to_ms: int,
)
    requires
        slots >= 64,
        mem.len() == 2 * slots,
        h != 0,
        is_found_again(mem, slots),
        forall|k: int| #![trigger asks[k]] 0 <= k < asks.len() ==> asks[k].h != 0,
        keeps_slot(mem, slots, rate, asks, h),
        is_spell(asks, burst, from_ms, to_ms),
        0 <= from_ms <= to_ms < MS_SPAN,
        0 <= burst < EXCESS_SPAN,
    ensures
        1000 * admitted(mem, slots, rate, asks, h) <= burst + 1000 + rate * (to_ms - from_ms)
            / 1000,
{
    lemma_metered_alone(mem, slots, rate, asks, h);
    lemma_spell_of(asks, h, burst, from_ms, to_ms);
    law_the_rate_is_kept(state_of(mem, slots, h), rate, asks_of(asks, h), burst, from_ms, to_ms);
}

/// Keys are isolated from each other: a request changes no slot but its own.
pub proof fn law_keys_are_isolated(mem: Seq<u64>, i: int, h: u64, state: u64, j: int)
    requires
        0 <= i,
        2 * i + 1 < mem.len(),
        0 <= j,
        2 * j + 1 < mem.len(),
        i != j,
    ensures
        hash_at(claimed(mem, i, h).update(2 * i + 1, state), j) == hash_at(mem, j),
        state_at(claimed(mem, i, h).update(2 * i + 1, state), j) == state_at(mem, j),
{
}

} // verus!
