//! `upstream`: how requests are spread over the peers of a group.

use vstd::prelude::*;

use crate::config::Addr;
use crate::proxy;
use crate::upstream;
use crate::upstream::Idle;
use crate::upstream::LbMethod;
use crate::upstream::PeerHealth;
use crate::upstream::Upstream;

verus! {

// ---------------------------------------------------------------- ip_hash

/// One step of FNV-1a.
pub open spec fn fnv_step(h: u64, octet: u8) -> u64 {
    (h ^ (octet as u64)).wrapping_mul(0x100000001b3)
}

/// FNV-1a of some octets.
pub open spec fn fnv_of(octets: Seq<u8>) -> u64 {
    octets.fold_left(0xcbf29ce484222325u64, |h: u64, b: u8| fnv_step(h, b))
}

proof fn lemma_fnv(octets: Seq<u8>)
    ensures
        crate::cache::fnv(octets) == fnv_of(octets),
    decreases octets.len(),
{
    if octets.len() > 0 {
        lemma_fnv(octets.drop_last());
    }
}

/// With `ip_hash` the client's address decides, all of it and nothing else of the client:
/// its four octets, or the sixteen of a longer address, and not the port.
pub proof fn law_ip_hash_looks_at_the_address(
    a: u8,
    b: u8,
    c: u8,
    d: u8,
    port: u16,
    text: Vec<u8>,
    octets: Vec<u8>,
)
    ensures
        proxy::hash_for(LbMethod::IpHash, Some(Addr::V4 { a, b, c, d, port })) == Some(
            fnv_step(fnv_step(fnv_step(fnv_step(0xcbf29ce484222325, a), b), c), d),
        ),
        proxy::hash_for(LbMethod::IpHash, Some(Addr::V6 { text, octets, port })) == Some(
            fnv_of(octets@),
        ),
{
    lemma_fnv(octets@);
    let s = seq![a, b, c, d];
    assert(s.drop_last() =~= seq![a, b, c]);
    assert(seq![a, b, c].drop_last() =~= seq![a, b]);
    assert(seq![a, b].drop_last() =~= seq![a]);
    assert(seq![a].drop_last() =~= Seq::<u8>::empty());
    reveal_with_fuel(crate::cache::fnv, 5);
}

/// Only `ip_hash` looks at the address.
pub proof fn law_other_methods_look_at_no_address(method: LbMethod, remote: Option<Addr>)
    requires
        method != LbMethod::IpHash,
    ensures
        proxy::hash_for(method, remote) is None,
{
}

pub(crate) proof fn lemma_last_octet_counts(x: u64, d: u8, e: u8)
    requires
        d != e,
    ensures
        fnv_step(x, d) != fnv_step(x, e),
{
    let p: u64 = x ^ (d as u64);
    let q: u64 = x ^ (e as u64);
    assert(p % 256 != q % 256) by (bit_vector)
        requires
            p == x ^ (d as u64),
            q == x ^ (e as u64),
            d != e,
    ;
    let m: int = 0x1_0000_0000_0000_0000;
    let k: int = 0x100000001b3;
    let pp = p as int * k;
    let qq = q as int * k;
    assert(fnv_step(x, d) as int == pp % m);
    assert(fnv_step(x, e) as int == qq % m);
    if fnv_step(x, d) == fnv_step(x, e) {
        // What is alike is alike in its last eight bits, where an odd factor loses nothing.
        assert((pp % m) % 256 == pp % 256) by (nonlinear_arith)
            requires
                m == 0x1_0000_0000_0000_0000,
        ;
        assert((qq % m) % 256 == qq % 256) by (nonlinear_arith)
            requires
                m == 0x1_0000_0000_0000_0000,
        ;
        let (r, s) = (p as int % 256, q as int % 256);
        assert(pp % 256 == (r * 179) % 256) by {
            vstd::arithmetic::div_mod::lemma_mul_mod_noop_general(p as int, k, 256);
        }
        assert(qq % 256 == (s * 179) % 256) by {
            vstd::arithmetic::div_mod::lemma_mul_mod_noop_general(q as int, k, 256);
        }
        lemma_odd_factor(r, s);
    }
}

proof fn lemma_odd_factor(r: int, s: int)
    requires
        0 <= r < 256,
        0 <= s < 256,
        (r * 179) % 256 == (s * 179) % 256,
    ensures
        r == s,
{
    let (a, b) = (r as u32, s as u32);
    assert((a * 179) % 256 == (b * 179) % 256);
    assert(a == b) by (bit_vector)
        requires
            a < 256,
            b < 256,
            (a * 179) % 256 == (b * 179) % 256,
    ;
}

/// Two clients that differ in their last octet alone are told apart.
pub proof fn law_neighbours_are_told_apart(a: u8, b: u8, c: u8, d: u8, e: u8, port: u16)
    requires
        d != e,
    ensures
        proxy::hash_for(LbMethod::IpHash, Some(Addr::V4 { a, b, c, d, port })) != proxy::hash_for(
            LbMethod::IpHash,
            Some(Addr::V4 { a, b, c, d: e, port }),
        ),
{
    let none: Vec<u8> = arbitrary();
    law_ip_hash_looks_at_the_address(a, b, c, d, port, none, none);
    law_ip_hash_looks_at_the_address(a, b, c, e, port, none, none);
    lemma_last_octet_counts(fnv_step(fnv_step(fnv_step(0xcbf29ce484222325, a), b), c), d, e);
}

/// A hash picks the peer of its remainder, so that every peer is some client's.
pub proof fn law_a_hash_picks_by_its_remainder(
    up: &Upstream,
    some: Seq<int>,
    h: u64,
    cursor: usize,
    k: int,
)
    requires
        up.method == LbMethod::IpHash,
        0 <= k < some.len(),
        h as int % some.len() as int == k,
    ensures
        upstream::picked(up, some, Some(h), cursor) == some[k],
{
}

// ---------------------------------------------------------------- who may be picked

/// Those that may be picked are the servers of their kind that are not switched off and
/// that no failures keep out at the time: all of them, in order, and nobody else.
pub proof fn law_healthy_servers_may_be_picked(
    up: &Upstream,
    now_ms: int,
    backup: bool,
    n: int,
    i: int,
)
    requires
        0 <= n <= up.servers@.len(),
    ensures
        upstream::eligible(up, now_ms, backup, n).contains(i) <==> {
            &&& 0 <= i < n
            &&& !up.servers@[i].down
            &&& up.servers@[i].backup == backup
            &&& up.health@[i].down_until_ms == 0 || now_ms >= up.health@[i].down_until_ms
        },
        forall|j: int, k: int|
            0 <= j < k < upstream::eligible(up, now_ms, backup, n).len() ==> #[trigger]
            upstream::eligible(up, now_ms, backup, n)[j] < #[trigger] upstream::eligible(
                up,
                now_ms,
                backup,
                n,
            )[k] < n,
        forall|j: int|
            0 <= j < upstream::eligible(up, now_ms, backup, n).len() ==> 0 <= #[trigger]
            upstream::eligible(up, now_ms, backup, n)[j] < n,
    decreases n,
{
    if n > 0 {
        law_healthy_servers_may_be_picked(up, now_ms, backup, n - 1, i);
        let before = upstream::eligible(up, now_ms, backup, n - 1);
        let all = upstream::eligible(up, now_ms, backup, n);
        if before.contains(i) {
            let j = choose|j: int| 0 <= j < before.len() && before[j] == i;
            assert(all[j] == i);
        }
        if all.len() > before.len() {
            assert(all[before.len() as int] == n - 1);
            assert forall|j: int, k: int| 0 <= j < k < all.len() implies #[trigger] all[j]
                < #[trigger] all[k] < n by {
                assert(all[j] == before[j]);
                if k < before.len() {
                    assert(all[k] == before[k]);
                }
            }
            assert forall|j: int| 0 <= j < all.len() implies 0 <= #[trigger] all[j] < n by {
                if j < before.len() {
                    assert(all[j] == before[j]);
                }
            }
            if all.contains(i) && !before.contains(i) {
                let j = choose|j: int| 0 <= j < all.len() && all[j] == i;
                if j < before.len() {
                    assert(before[j] == i);
                }
            }
        }
    }
}

/// A request goes to one of the primary servers that may be picked, in the way the method
/// says, and to a backup where there is none.
pub proof fn law_the_method_picks_among_them(
    up: &Upstream,
    now_ms: int,
    hash: Option<u64>,
    cursor: usize,
)
    ensures
        ({
            let n = up.servers@.len() as int;
            let first = upstream::eligible(up, now_ms, false, n);
            let second = upstream::eligible(up, now_ms, true, n);
            &&& first.len() > 0 ==> upstream::selected(up, now_ms, hash, cursor) == Some(
                upstream::picked(up, first, hash, cursor),
            )
            &&& first.len() == 0 && second.len() > 0 ==> upstream::selected(
                up,
                now_ms,
                hash,
                cursor,
            ) == Some(upstream::picked(up, second, hash, cursor))
        }),
{
}

/// Where failures keep everybody out, the server that failed least recently is tried, and
/// of several the first; one that is switched off is never tried.
pub proof fn law_the_longest_recovered_is_tried(
    up: &Upstream,
    now_ms: int,
    hash: Option<u64>,
    cursor: usize,
)
    requires
        now_ms >= 0,
        forall|i: int|
            0 <= i < up.servers@.len() && !(#[trigger] up.servers@[i]).down ==> now_ms
                < up.health@[i].down_until_ms,
    ensures
        match upstream::selected(up, now_ms, hash, cursor) {
            Some(k) => {
                &&& 0 <= k < up.servers@.len() && !up.servers@[k].down
                &&& forall|i: int|
                    0 <= i < up.servers@.len() && !(#[trigger] up.servers@[i]).down
                        ==> up.health@[k].failed_at_ms <= up.health@[i].failed_at_ms && (i < k
                        ==> up.health@[k].failed_at_ms < up.health@[i].failed_at_ms)
            },
            None => forall|i: int|
                0 <= i < up.servers@.len() ==> (#[trigger] up.servers@[i]).down,
        },
{
    let n = up.servers@.len() as int;
    let first = upstream::eligible(up, now_ms, false, n);
    let second = upstream::eligible(up, now_ms, true, n);
    if first.len() > 0 {
        law_healthy_servers_may_be_picked(up, now_ms, false, n, first[0]);
        assert(first.contains(first[0]));
    }
    if second.len() > 0 {
        law_healthy_servers_may_be_picked(up, now_ms, true, n, second[0]);
        assert(second.contains(second[0]));
    }
    lemma_stalest(up, n);
}

proof fn lemma_stalest(up: &Upstream, n: int)
    requires
        0 <= n <= up.servers@.len(),
    ensures
        ({
            let k = upstream::stalest(up, n);
            &&& -1 <= k < n
            &&& k >= 0 ==> !up.servers@[k].down
            &&& k < 0 ==> forall|i: int| 0 <= i < n ==> (#[trigger] up.servers@[i]).down
            &&& k >= 0 ==> forall|i: int|
                0 <= i < n && !(#[trigger] up.servers@[i]).down ==> up.health@[k].failed_at_ms
                    <= up.health@[i].failed_at_ms && (i < k ==> up.health@[k].failed_at_ms
                    < up.health@[i].failed_at_ms)
        }),
    decreases n,
{
    if n > 0 {
        lemma_stalest(up, n - 1);
    }
}

/// Turns are taken by weight: of every round of as many turns as the weights make, a server
/// has as many as its own, and at least one, in a row.
pub proof fn law_turns_are_taken_by_weight(
    up: &Upstream,
    some: Seq<int>,
    hash: Option<u64>,
    cursor: usize,
    k: int,
)
    requires
        up.method == LbMethod::RoundRobin,
        0 <= k < some.len(),
        cursor < 0x1_0000_0000,
        upstream::weights(up, some, some.len() as int) > 0,
        ({
            let turn = cursor as int % upstream::weights(up, some, some.len() as int);
            upstream::weights(up, some, k) <= turn < upstream::weights(up, some, k + 1)
        }),
    ensures
        upstream::picked(up, some, hash, cursor) == some[k],
        upstream::weights(up, some, 0) == 0,
        upstream::weights(up, some, k + 1) - upstream::weights(up, some, k) == if up.servers@[some[
            k]].weight == 0 {
            1
        } else {
            up.servers@[some[k]].weight as int
        },
{
    let turn = cursor as int % upstream::weights(up, some, some.len() as int);
    upstream::law_weight_is_a_share(up, some, turn, k);
}

/// `least_conn` takes the peer with the fewest requests under way for its weight, and of
/// several the first.
pub proof fn law_the_least_busy_is_taken(
    up: &Upstream,
    some: Seq<int>,
    hash: Option<u64>,
    cursor: usize,
    k: int,
)
    requires
        up.method == LbMethod::LeastConn,
        0 <= k < some.len(),
        forall|j: int|
            0 <= j < some.len() ==> busy(up, some[k]) <= busy(up, #[trigger] some[j]),
        forall|j: int| 0 <= j < k ==> busy(up, some[k]) < busy(up, #[trigger] some[j]),
    ensures
        upstream::picked(up, some, hash, cursor) == some[k],
{
    lemma_least(up, some, some.len() as int, k);
}

/// The requests under way at a peer for each of its weight, in thousandths.
pub open spec fn busy(up: &Upstream, i: int) -> int {
    let w = if up.servers@[i].weight == 0 {
        1
    } else {
        up.servers@[i].weight as int
    };
    (up.health@[i].in_flight as int * 1000) / w
}

proof fn lemma_least(up: &Upstream, some: Seq<int>, n: int, k: int)
    requires
        1 <= n <= some.len(),
        0 <= k < some.len(),
        forall|j: int|
            0 <= j < some.len() ==> busy(up, some[k]) <= busy(up, #[trigger] some[j]),
        forall|j: int| 0 <= j < k ==> busy(up, some[k]) < busy(up, #[trigger] some[j]),
    ensures
        0 <= upstream::least(up, some, n) < n,
        k < n ==> upstream::least(up, some, n) == k,
    decreases n,
{
    assert forall|i: int| #[trigger] busy(up, i) == upstream::load(up, i) by {}
    if n > 1 {
        lemma_least(up, some, n - 1, k);
        let p = upstream::least(up, some, n - 1);
        assert(busy(up, some[k]) <= busy(up, some[p]));
        assert(busy(up, some[k]) <= busy(up, some[n - 1]));
        assert(upstream::load(up, some[n - 1]) == busy(up, some[n - 1]));
        assert(upstream::load(up, some[p]) == busy(up, some[p]));
        if k == n - 1 {
            assert(busy(up, some[k]) < busy(up, some[p]));
        }
    }
}

/// `random` takes the peer that the draw falls on.
pub proof fn law_a_draw_falls_on_a_peer(
    up: &Upstream,
    some: Seq<int>,
    hash: Option<u64>,
    draw: usize,
    k: int,
)
    requires
        up.method == LbMethod::Random,
        0 <= k < some.len(),
        draw as int % some.len() as int == k,
    ensures
        upstream::picked(up, some, hash, draw) == some[k],
{
}

// ---------------------------------------------------------------- passive health

/// The health of a peer after failures at some times.
pub open spec fn after_failures(
    h: PeerHealth,
    times: Seq<u64>,
    max_fails: u32,
    fail_timeout_ms: u64,
) -> PeerHealth
    decreases times.len(),
{
    if times.len() == 0 {
        h
    } else {
        after_failures(h, times.drop_last(), max_fails, fail_timeout_ms).failed(
            times.last(),
            max_fails,
            fail_timeout_ms,
        )
    }
}

/// A peer is taken out by `max_fails` failures within `fail_timeout` of the first, and by
/// no fewer; it is out for `fail_timeout` from the last one.
pub proof fn law_a_peer_is_out_after_max_fails(
    h: PeerHealth,
    times: Seq<u64>,
    max_fails: u32,
    fail_timeout_ms: u64,
    later: int,
)
    requires
        h.fails == 0,
        h.down_until_ms == 0,
        max_fails > 0,
        0 < times.len() <= max_fails,
        forall|i: int|
            0 <= i < times.len() ==> times[0] <= #[trigger] times[i] <= times[0] + fail_timeout_ms
                && times[i] + fail_timeout_ms <= u64::MAX,
        times.last() + fail_timeout_ms > 0,
    ensures
        ({
            let after = after_failures(h, times, max_fails, fail_timeout_ms);
            &&& after.fails == times.len()
            &&& after.failed_at_ms == times.last()
            &&& after.in_flight == h.in_flight
            &&& after.down_at(later) <==> times.len() == max_fails && later < times.last()
                + fail_timeout_ms
        }),
{
    lemma_failures(h, times, max_fails, fail_timeout_ms);
}

proof fn lemma_failures(h: PeerHealth, times: Seq<u64>, max_fails: u32, fail_timeout_ms: u64)
    requires
        h.fails == 0,
        h.down_until_ms == 0,
        max_fails > 0,
        0 < times.len() <= max_fails,
        forall|i: int|
            0 <= i < times.len() ==> times[0] <= #[trigger] times[i] <= times[0] + fail_timeout_ms
                && times[i] + fail_timeout_ms <= u64::MAX,
    ensures
        after_failures(h, times, max_fails, fail_timeout_ms) == (PeerHealth {
            fails: times.len() as u32,
            window_start_ms: times[0],
            down_until_ms: if times.len() == max_fails {
                (times.last() + fail_timeout_ms) as u64
            } else {
                0
            },
            failed_at_ms: times.last(),
            in_flight: h.in_flight,
        }),
    decreases times.len(),
{
    let front = times.drop_last();
    if front.len() > 0 {
        assert forall|i: int| 0 <= i < front.len() implies front[0] <= #[trigger] front[i]
            <= front[0] + fail_timeout_ms && front[i] + fail_timeout_ms <= u64::MAX by {
            assert(front[i] == times[i] && front[0] == times[0]);
        }
        lemma_failures(h, front, max_fails, fail_timeout_ms);
        assert(times.last() == times[times.len() - 1]);
    } else {
        assert(after_failures(h, front, max_fails, fail_timeout_ms) == h);
        assert(times.last() == times[0]);
    }
}

// ---------------------------------------------------------------- the idle pool

/// A connection that is returned is kept, behind those that were there, where any are kept
/// at all; at most as many as `keepalive` says, the oldest going first.
pub proof fn law_returned_connections_are_kept<T>(idle: Seq<Idle<T>>, new: Idle<T>, keepalive: int)
    requires
        idle.len() <= keepalive || keepalive <= 0,
    ensures
        ({
            let kept = upstream::with_returned(idle, new, keepalive);
            &&& keepalive > 0 ==> kept.len() > 0 && kept.last() == new && kept.len() <= keepalive
            &&& keepalive > 0 && idle.len() < keepalive ==> kept == idle.push(new)
            &&& keepalive > 0 && idle.len() == keepalive ==> kept.len() == keepalive && forall|
                i: int,
            |
                1 <= i < idle.len() ==> kept[i - 1] == #[trigger] idle[i]
            &&& keepalive <= 0 ==> kept == idle
        }),
{
}

/// A connection is too old after it sat idle for half a minute.
pub proof fn law_connections_age<T>(e: Idle<T>, now_ms: u64)
    ensures
        upstream::is_stale(e, now_ms) <==> now_ms - e.since_ms >= 30_000,
{
}

/// The newest connection that is alive is used again; nothing that sat too long is, nor
/// anything older than that.
pub proof fn law_the_newest_connection_is_used_again<T>(
    idle: Seq<Idle<T>>,
    now_ms: u64,
    alive: Seq<bool>,
    n: int,
    k: int,
)
    requires
        0 <= n <= idle.len(),
        -1 <= k < n,
        k >= 0 ==> alive[k] && now_ms - idle[k].since_ms < 30_000,
        forall|j: int|
            k < j < n ==> now_ms - (#[trigger] idle[j]).since_ms < 30_000 && !alive[j],
    ensures
        upstream::newest(idle, now_ms, alive, n) == k,
    decreases n,
{
    if n > 0 && k < n - 1 {
        assert(now_ms - idle[n - 1].since_ms < 30_000 && !alive[n - 1]);
        law_the_newest_connection_is_used_again(idle, now_ms, alive, n - 1, k);
    }
}

/// Behind a connection that sat too long nothing is used.
pub proof fn law_old_connections_are_not_used<T>(
    idle: Seq<Idle<T>>,
    now_ms: u64,
    alive: Seq<bool>,
    n: int,
    k: int,
)
    requires
        0 <= k < n <= idle.len(),
        now_ms - idle[k].since_ms >= 30_000,
    ensures
        upstream::newest(idle, now_ms, alive, n) == -1 || upstream::newest(idle, now_ms, alive, n)
            > k,
    decreases n,
{
    if k < n - 1 {
        law_old_connections_are_not_used(idle, now_ms, alive, n - 1, k);
    }
}

/// Connections are pooled by the address of their peer.
pub proof fn law_connections_are_pooled_by_address<T>(
    peers: Seq<upstream::Peer<T>>,
    addr: Seq<char>,
    n: int,
    k: int,
)
    requires
        0 <= k < n <= peers.len(),
        peers[k].addr@ == addr,
        forall|j: int| k < j < n ==> (#[trigger] peers[j]).addr@ != addr,
    ensures
        upstream::pooled_for(peers, addr, n) == peers[k].idle@,
    decreases n,
{
    if k < n - 1 {
        assert(peers[n - 1].addr@ != addr);
        law_connections_are_pooled_by_address(peers, addr, n - 1, k);
    }
}

} // verus!
