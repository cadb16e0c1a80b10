//! `limit_req` and `limit_conn`: how often and how many at once.

use vstd::prelude::*;

use crate::laws::balancing;
use crate::limit_conn;
use crate::limit_req;
use crate::limit_req::Decision;
use crate::shm;

verus! {

// ---------------------------------------------------------------- the bucket

/// What is in a bucket when one more request comes, in thousandths of a request: what was
/// there, less what ran out since at the rate, and that request.
pub open spec fn in_bucket(before: int, elapsed_ms: int, rate: int) -> int {
    let e = before + 1000 - (rate * elapsed_ms) / 1000;
    if e < 0 {
        0
    } else {
        e
    }
}

/// A request that would fill the bucket over the burst is rejected and does not count; one
/// below the point where delays begin, or without delays, passes at once; any other waits as
/// long as the rate needs to drain what is above that point.
pub proof fn law_the_bucket_decides(
    before: int,
    elapsed_ms: int,
    rate: int,
    burst: int,
    nodelay: bool,
    delay_after: int,
)
    requires
        0 <= before < 0x8000_0000_0000_0000,
        0 <= elapsed_ms,
        1 <= rate,
        0 <= burst < 0x40_0000_0000_0000,
        0 <= delay_after,
    ensures
        ({
            let e = in_bucket(before, elapsed_ms, rate);
            let (after, d) = limit_req::stepped(
                before,
                elapsed_ms,
                rate,
                burst,
                nodelay,
                delay_after,
            );
            &&& e > burst ==> d == Decision::Reject && after == before
            &&& e <= burst ==> after == e && d != Decision::Reject
            &&& e <= burst && (nodelay || e <= delay_after) ==> d == Decision::Pass
            &&& e <= burst && !nodelay && e > delay_after ==> (d matches Decision::Delay(ms) && ms
                * rate <= (e - delay_after) * 1000 < (ms + 1) * rate)
        }),
{
    let e = in_bucket(before, elapsed_ms, rate);
    assert(rate * elapsed_ms >= 0) by (nonlinear_arith)
        requires
            rate >= 1,
            elapsed_ms >= 0,
    ;
    assert(limit_req::filled(before, elapsed_ms, rate) == e);
    if e <= burst && !nodelay && e > delay_after {
        let over = (e - delay_after) * 1000;
        let ms = over / rate;
        assert(0 <= ms <= over && ms * rate <= over < (ms + 1) * rate) by (nonlinear_arith)
            requires
                rate >= 1,
                over >= 0,
                ms == over / rate,
        ;
    }
}

/// The first request of a key passes.
pub proof fn law_first_requests_pass(
    now_ms: u64,
    rate: u64,
    burst: u64,
    nodelay: bool,
    delay_after: u64,
)
    requires
        rate >= 1,
    ensures
        limit_req::bumped(0, now_ms, rate, burst, nodelay, delay_after).1 == Decision::Pass,
{
    let elapsed = u64::MAX as int / 1000;
    assert(rate * elapsed >= elapsed) by (nonlinear_arith)
        requires
            rate >= 1,
            elapsed >= 0,
    ;
    assert(limit_req::filled(0, elapsed, rate as int) == 0);
}

/// A later request is decided by what the one before left and by the time between them.
pub proof fn law_requests_are_decided_by_the_time_between(
    then_ms: u64,
    left: u64,
    now_ms: u64,
    rate: u64,
    burst: u64,
    nodelay: bool,
    delay_after: u64,
)
    requires
        then_ms <= now_ms,
        then_ms < limit_req::MS_SPAN,
        left < limit_req::EXCESS_SPAN,
    ensures
        limit_req::bumped(
            limit_req::packed(then_ms as int, left as int) as u64,
            now_ms,
            rate,
            burst,
            nodelay,
            delay_after,
        ).1 == limit_req::stepped(
            left as int,
            now_ms - then_ms,
            rate as int,
            burst as int,
            nodelay,
            delay_after as int,
        ).1,
{
    let w = limit_req::packed(then_ms as int, left as int);
    assert(0 <= w <= u64::MAX) by {
        assert(w == 0x8000_0000_0000_0000 + then_ms * 0x100_0000 + left);
    }
    limit_req::law_states_read_back(then_ms, left, w as u64);
}

/// A rejected request leaves the state of its key, and an admitted one sets it to its time
/// and what is in the bucket then.
pub proof fn law_admitted_requests_are_counted(
    state: u64,
    now_ms: u64,
    rate: u64,
    burst: u64,
    nodelay: bool,
    delay_after: u64,
)
    requires
        now_ms < limit_req::MS_SPAN,
        burst < limit_req::EXCESS_SPAN,
    ensures
        ({
            let (after, d) = limit_req::bumped(state, now_ms, rate, burst, nodelay, delay_after);
            &&& d == Decision::Reject ==> after == state
            &&& d != Decision::Reject ==> limit_req::last_of(after) == now_ms
                && limit_req::excess_of(after) <= burst
        }),
{
    let (prev, elapsed) = limit_req::bucket_of(state, now_ms);
    let (excess, d) = limit_req::stepped(
        prev,
        elapsed,
        rate as int,
        burst as int,
        nodelay,
        delay_after as int,
    );
    if d != Decision::Reject {
        let w = limit_req::packed(now_ms as int, excess);
        assert(0 <= excess <= burst);
        assert(w == 0x8000_0000_0000_0000 + now_ms * 0x100_0000 + excess);
        limit_req::law_states_read_back(now_ms, excess as u64, w as u64);
    }
}

// ---------------------------------------------------------------- keys

/// FNV-1a of a key from a seeded start.
pub open spec fn seeded_fnv(seed: u64, key: Seq<u8>) -> u64 {
    key.fold_left(0xcbf29ce484222325u64 ^ seed, |h: u64, b: u8| balancing::fnv_step(h, b))
}

proof fn lemma_seeded(seed: u64, key: Seq<u8>)
    ensures
        limit_req::seeded(seed, key) == seeded_fnv(seed, key),
    decreases key.len(),
{
    if key.len() > 0 {
        lemma_seeded(seed, key.drop_last());
    }
}

/// Keys are told apart by their hashes: every byte of them counts.
pub proof fn law_keys_are_hashed(seed: u64, key: Seq<u8>)
    ensures
        ({
            let h = seeded_fnv(seed, key);
            &&& h != 0 ==> limit_req::key_hash(seed, key) == h
            &&& h == 0 ==> limit_req::key_hash(seed, key) == 1
            &&& ({
                let t = (h ^ (h >> 48)) & 0xffff_ffff_ffff;
                limit_conn::tag_for(seed, key) == if t == 0 {
                    1
                } else {
                    t
                }
            })
        }),
{
    lemma_seeded(seed, key);
}

/// The hashes of two keys that differ in their last byte differ.
pub proof fn law_keys_with_other_ends_hash_differently(seed: u64, key: Seq<u8>, a: u8, b: u8)
    requires
        a != b,
    ensures
        seeded_fnv(seed, key.push(a)) != seeded_fnv(seed, key.push(b)),
{
    assert(key.push(a).drop_last() =~= key);
    assert(key.push(b).drop_last() =~= key);
    balancing::lemma_last_octet_counts(seeded_fnv(seed, key), a, b);
}

/// A table has room for the keys it is configured for, and for at least sixty-four, and is
/// not more than twice as large as it has to be.
pub proof fn law_tables_are_large_enough(max_entries: int)
    ensures
        shm::slots_for(max_entries) >= 64,
        shm::slots_for(max_entries) >= max_entries,
        shm::slots_for(max_entries) == 64 || shm::slots_for(max_entries) < 2 * max_entries,
{
    shm::lemma_doubled(64, max_entries);
}

// ---------------------------------------------------------------- requests at once

/// One more request counts one more for its key, up to the limit and to what a count can
/// hold; one that ends counts one less.
pub proof fn law_requests_at_once_are_counted(w: u64, tag: u64, limit: u32)
    requires
        0 < tag < 0x1_0000_0000_0000,
        limit_conn::tag_of(w) == tag,
    ensures
        ({
            let n = w as int % 65536;
            &&& n < limit && n < 65535 ==> (limit_conn::incremented(w, tag, limit) matches Some(x)
                && x == w + 1)
            &&& n >= limit || n >= 65535 ==> limit_conn::incremented(w, tag, limit) is None
            &&& n > 0 ==> limit_conn::decremented(w, tag) == Some((w - 1) as u64)
            &&& n == 0 ==> limit_conn::decremented(w, tag) is None
        }),
{
}

/// A request is not counted off a key that has lost its place to another.
pub proof fn law_only_the_own_key_is_counted_off(w: u64, tag: u64)
    requires
        w / 65536 != tag,
    ensures
        limit_conn::decremented(w, tag) is None,
{
}

} // verus!
