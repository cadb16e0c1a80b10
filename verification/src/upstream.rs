//! Per-peer runtime state for `upstream` blocks: health, in-flight counts, and
//! the idle connection pool.
//!
//! They live together because they are the same state viewed three ways: whether
//! a peer is usable, how loaded it is, and which of its connections can be
//! reused.

use vstd::prelude::*;
use vstd::string::*;

use crate::bytes;

verus! {

// ---------------------------------------------------------------- health

/// Liveness and load for one upstream server.
#[derive(Debug, Clone, Copy, PartialEq, Eq, Structural)]
pub struct PeerHealth {
    /// Failures counted inside the current `fail_timeout` window.
    pub fails: u32,
    /// Milliseconds (since the upstream's origin) until which this peer stays
    /// out of rotation. Zero means available.
    pub down_until_ms: u64,
    /// When the current failure window started, for expiring stale counts.
    pub window_start_ms: u64,
    /// When the last failure was counted.
    pub failed_at_ms: u64,
    /// Requests in flight right now: the number `least_conn` balances on.
    pub in_flight: u32,
}

impl Default for PeerHealth {
    fn default() -> (r: PeerHealth)
        ensures
            r == (PeerHealth {
                fails: 0,
                down_until_ms: 0,
                window_start_ms: 0,
                failed_at_ms: 0,
                in_flight: 0,
            }),
    {
        PeerHealth {
            fails: 0,
            down_until_ms: 0,
            window_start_ms: 0,
            failed_at_ms: 0,
            in_flight: 0,
        }
    }
}

impl PeerHealth {
    /// Out of rotation at a time.
    pub open spec fn down_at(self, now_ms: int) -> bool {
        self.down_until_ms != 0 && now_ms < self.down_until_ms
    }

    /// The failure count after one more failure: it starts over when no window
    /// is open or the open one is past.
    pub open spec fn fails_after(self, now_ms: int, fail_timeout_ms: int) -> int {
        if self.fails == 0 || now_ms - self.window_start_ms > fail_timeout_ms {
            1
        } else {
            self.fails + 1
        }
    }

    /// The health after one more failure.
    pub open spec fn failed(self, now_ms: u64, max_fails: u32, fail_timeout_ms: u64) -> PeerHealth {
        if max_fails == 0 {
            self
        } else {
            let fails = self.fails_after(now_ms as int, fail_timeout_ms as int);
            PeerHealth {
                fails: fails as u32,
                window_start_ms: if fails == 1 {
                    now_ms
                } else {
                    self.window_start_ms
                },
                down_until_ms: if fails >= max_fails {
                    (now_ms + fail_timeout_ms) as u64
                } else {
                    self.down_until_ms
                },
                failed_at_ms: now_ms,
                in_flight: self.in_flight,
            }
        }
    }

    pub fn in_flight(&self) -> (r: u32)
        ensures
            r == self.in_flight,
    {
        self.in_flight
    }

    pub fn is_down(&self, now_ms: u64) -> (r: bool)
        ensures
            r == self.down_at(now_ms as int),
    {
        self.down_until_ms != 0 && now_ms < self.down_until_ms
    }

    /// Records a failed attempt. Once `max_fails` failures land inside one
    /// `fail_timeout` window the peer is taken out for that long. `max_fails=0`
    /// disables the check.
    pub fn record_failure(&mut self, now_ms: u64, max_fails: u32, fail_timeout_ms: u64)
        requires
            max_fails > 0 ==> old(self).fails_after(now_ms as int, fail_timeout_ms as int)
                <= u32::MAX,
            0 < max_fails <= old(self).fails_after(now_ms as int, fail_timeout_ms as int) ==> now_ms
                + fail_timeout_ms <= u64::MAX,
        ensures
            *final(self) == old(self).failed(now_ms, max_fails, fail_timeout_ms),
    {
        if max_fails == 0 {
            return;
        }
        // Whether a window is open is decided by the counter, not by the
        // timestamp: zero is a legitimate instant.
        let stale: bool = now_ms >= self.window_start_ms && now_ms - self.window_start_ms
            > fail_timeout_ms;
        if self.fails == 0 || stale {
            self.window_start_ms = now_ms;
            self.fails = 1;
        } else {
            self.fails = self.fails + 1;
        }
        self.failed_at_ms = now_ms;
        if self.fails >= max_fails {
            self.down_until_ms = now_ms + fail_timeout_ms;
        }
    }

    /// A success clears the slate: the peer is healthy again.
    pub fn record_success(&mut self)
        ensures
            *final(self) == (PeerHealth {
                fails: 0,
                window_start_ms: 0,
                down_until_ms: 0,
                failed_at_ms: 0,
                ..*old(self)
            }),
    {
        self.fails = 0;
        self.window_start_ms = 0;
        self.down_until_ms = 0;
        self.failed_at_ms = 0;
    }
}

/// The `max_fails`th failure within a window takes a peer out for exactly
/// `fail_timeout`.
pub proof fn law_enough_failures_take_a_peer_out(
    h: PeerHealth,
    now_ms: u64,
    max_fails: u32,
    fail_timeout_ms: u64,
    later: int,
)
    requires
        max_fails > 0,
        0 < now_ms + fail_timeout_ms <= u64::MAX,
        h.fails_after(now_ms as int, fail_timeout_ms as int) >= max_fails,
    ensures
        h.failed(now_ms, max_fails, fail_timeout_ms).down_at(later) <==> later < now_ms
            + fail_timeout_ms,
{
}

/// Fewer failures leave it where it was.
pub proof fn law_fewer_failures_do_not(
    h: PeerHealth,
    now_ms: u64,
    max_fails: u32,
    fail_timeout_ms: u64,
    later: int,
)
    requires
        max_fails == 0 || h.fails_after(now_ms as int, fail_timeout_ms as int) < max_fails,
    ensures
        h.failed(now_ms, max_fails, fail_timeout_ms).down_at(later) == h.down_at(later),
{
}

/// Failures outside the window do not accumulate.
pub proof fn law_stale_failures_expire(h: PeerHealth, now_ms: int, fail_timeout_ms: int)
    requires
        now_ms - h.window_start_ms > fail_timeout_ms,
    ensures
        h.fails_after(now_ms, fail_timeout_ms) == 1,
{
}

/// Counts a request against a peer until it is given back.
#[derive(Debug)]
pub struct InFlightGuard {
    entered: bool,
}

impl InFlightGuard {
    /// Counts one more request in flight.
    pub fn enter(health: &mut PeerHealth) -> (r: InFlightGuard)
        ensures
            *final(health) == (PeerHealth {
                in_flight: old(health).in_flight.wrapping_add(1),
                ..*old(health)
            }),
    {
        health.in_flight = health.in_flight.wrapping_add(1);
        InFlightGuard { entered: true }
    }

    /// Gives the count back.
    pub fn leave(self, health: &mut PeerHealth)
        ensures
            *final(health) == (PeerHealth {
                in_flight: old(health).in_flight.wrapping_sub(1),
                ..*old(health)
            }),
    {
        health.in_flight = health.in_flight.wrapping_sub(1);
    }
}

/// A request that came and went leaves the count as it was.
pub proof fn law_in_flight_is_given_back(n: u32)
    ensures
        n.wrapping_add(1).wrapping_sub(1) == n,
{
}

// ---------------------------------------------------------------- balancing

/// How a group spreads requests over its peers.
#[derive(Debug, Clone, Copy, PartialEq, Eq, Structural)]
pub enum LbMethod {
    RoundRobin,
    LeastConn,
    IpHash,
    Random,
}

/// One `server` line of an `upstream` block. Times are in milliseconds.
#[derive(Debug)]
pub struct UpstreamServer {
    pub addr: String,
    pub weight: u32,
    pub max_fails: u32,
    pub fail_timeout: u64,
    pub backup: bool,
    pub max_conns: Option<u32>,
    pub down: bool,
}

/// A named group of servers with their health.
#[derive(Debug)]
pub struct Upstream {
    pub name: String,
    pub servers: Vec<UpstreamServer>,
    pub method: LbMethod,
    pub keepalive: usize,
    pub health: Vec<PeerHealth>,
}

/// A weight of zero counts as one.
pub open spec fn weight(up: &Upstream, i: int) -> int {
    if up.servers@[i].weight < 1 {
        1
    } else {
        up.servers@[i].weight as int
    }
}

/// The primary, or the backup, servers among the first `n` that may be used.
pub open spec fn eligible(up: &Upstream, now_ms: int, backup: bool, n: int) -> Seq<int>
    decreases n,
{
    if n <= 0 {
        Seq::empty()
    } else {
        let init = eligible(up, now_ms, backup, n - 1);
        let s = up.servers@[n - 1];
        if !s.down && s.backup == backup && !up.health@[n - 1].down_at(now_ms) {
            init.push(n - 1)
        } else {
            init
        }
    }
}

/// The weights of the first `n` of some servers together.
pub open spec fn weights(up: &Upstream, some: Seq<int>, n: int) -> int
    decreases n,
{
    if n <= 0 {
        0
    } else {
        weights(up, some, n - 1) + weight(up, some[n - 1])
    }
}

/// Requests in flight for the weight, in thousandths.
pub open spec fn load(up: &Upstream, i: int) -> int {
    (up.health@[i].in_flight * 1000) / weight(up, i)
}

/// The place of the least loaded of the first `n`; of equally loaded ones the
/// first.
pub open spec fn least(up: &Upstream, some: Seq<int>, n: int) -> int
    decreases n,
{
    if n <= 1 {
        0
    } else {
        let p = least(up, some, n - 1);
        if load(up, some[n - 1]) < load(up, some[p]) {
            n - 1
        } else {
            p
        }
    }
}

/// The server whose slots, from the `k`th on, hold `slot`: one of weight N
/// occupies N of them.
pub open spec fn slotted(up: &Upstream, some: Seq<int>, slot: int, k: int) -> int
    decreases some.len() - k,
{
    if k < 0 || k >= some.len() {
        some[0]
    } else if slot < weight(up, some[k]) {
        some[k]
    } else {
        slotted(up, some, slot - weight(up, some[k]), k + 1)
    }
}

/// The server a method takes from those that may be used.
pub open spec fn picked(up: &Upstream, some: Seq<int>, hash: Option<u64>, cursor: usize) -> int {
    let n = some.len() as int;
    match up.method {
        LbMethod::IpHash => some[(match hash {
            Some(h) => h as int,
            None => 0,
        }) % n],
        LbMethod::LeastConn => some[least(up, some, n)],
        LbMethod::Random => some[cursor as int % n],
        LbMethod::RoundRobin => slotted(
            up,
            some,
            (cursor as int % 0x1_0000_0000) % weights(up, some, n),
            0,
        ),
    }
}

/// Of the first `n` servers the one that failed least recently, of equal ones the first; -1 when all of them are switched off.
pub open spec fn stalest(up: &Upstream, n: int) -> int
    decreases n,
{
    if n <= 0 {
        -1
    } else {
        let p = stalest(up, n - 1);
        if up.servers@[n - 1].down {
            p
        } else if p < 0 || up.health@[n - 1].failed_at_ms < up.health@[p].failed_at_ms {
            n - 1
        } else {
            p
        }
    }
}

/// The server a request goes to.
pub open spec fn selected(
    up: &Upstream,
    now_ms: int,
    hash: Option<u64>,
    cursor: usize,
) -> Option<int> {
    let n = up.servers@.len() as int;
    let primary = eligible(up, now_ms, false, n);
    let backup = eligible(up, now_ms, true, n);
    if primary.len() > 0 {
        Some(picked(up, primary, hash, cursor))
    } else if backup.len() > 0 {
        Some(picked(up, backup, hash, cursor))
    } else if stalest(up, n) >= 0 {
        Some(stalest(up, n))
    } else {
        None
    }
}

impl Upstream {
    /// Every server has its health.
    pub open spec fn wf(&self) -> bool {
        self.health@.len() == self.servers@.len()
    }

    /// The weights of a round fit their counter.
    pub open spec fn weights_fit(&self, now_ms: int) -> bool {
        let n = self.servers@.len() as int;
        self.method == LbMethod::RoundRobin ==> forall|b: bool|
            {
                let some = #[trigger] eligible(self, now_ms, b, n);
                weights(self, some, some.len() as int) <= u32::MAX
            }
    }
}

/// What is known of the servers that may be used.
proof fn lemma_eligible(up: &Upstream, now_ms: int, backup: bool, n: int)
    requires
        n <= up.servers@.len(),
    ensures
        forall|k: int|
            0 <= k < eligible(up, now_ms, backup, n).len() ==> ({
                let i = #[trigger] eligible(up, now_ms, backup, n)[k];
                0 <= i < n && !up.servers@[i].down && up.servers@[i].backup == backup
                    && !up.health@[i].down_at(now_ms)
            }),
    decreases n,
{
    if n > 0 {
        lemma_eligible(up, now_ms, backup, n - 1);
        let init = eligible(up, now_ms, backup, n - 1);
        let all = eligible(up, now_ms, backup, n);
        assert forall|k: int| 0 <= k < all.len() implies ({
            let i = #[trigger] all[k];
            0 <= i < n && !up.servers@[i].down && up.servers@[i].backup == backup
                && !up.health@[i].down_at(now_ms)
        }) by {
            if k < init.len() {
                assert(all[k] == init[k]);
            }
        }
    }
}

proof fn lemma_weights_grow(up: &Upstream, some: Seq<int>, k: int, n: int)
    requires
        0 <= k <= n,
    ensures
        k <= weights(up, some, k) <= weights(up, some, n),
    decreases n,
{
    if n > 0 {
        if k < n {
            lemma_weights_grow(up, some, k, n - 1);
        } else {
            lemma_weights_grow(up, some, k - 1, n - 1);
        }
    }
}

proof fn lemma_least(up: &Upstream, some: Seq<int>, n: int)
    requires
        1 <= n <= some.len(),
    ensures
        0 <= least(up, some, n) < n,
        forall|k: int| 0 <= k < n ==> load(up, some[least(up, some, n)]) <= load(up, #[trigger] some[k]),
    decreases n,
{
    if n > 1 {
        lemma_least(up, some, n - 1);
    }
}

proof fn lemma_stalest(up: &Upstream, n: int)
    requires
        n <= up.servers@.len(),
    ensures
        -1 <= stalest(up, n),
        stalest(up, n) >= 0 ==> stalest(up, n) < n && !up.servers@[stalest(up, n)].down && forall|
            i: int,
        |
            0 <= i < n && !(#[trigger] up.servers@[i]).down ==> up.health@[stalest(
                up,
                n,
            )].failed_at_ms <= up.health@[i].failed_at_ms,
        stalest(up, n) < 0 ==> forall|i: int| 0 <= i < n ==> (#[trigger] up.servers@[i]).down,
    decreases n,
{
    if n > 0 {
        lemma_stalest(up, n - 1);
    }
}

proof fn lemma_slotted_in(up: &Upstream, some: Seq<int>, slot: int, k: int) -> (p: int)
    requires
        some.len() > 0,
        0 <= k,
    ensures
        0 <= p < some.len(),
        slotted(up, some, slot, k) == some[p],
    decreases some.len() - k,
{
    if k >= some.len() {
        0
    } else if slot < weight(up, some[k]) {
        k
    } else {
        lemma_slotted_in(up, some, slot - weight(up, some[k]), k + 1)
    }
}

/// Collects the servers that may be used.
fn candidates(up: &Upstream, now_ms: u64, backup: bool) -> (r: Vec<usize>)
    requires
        up.wf(),
    ensures
        places(r@) == eligible(up, now_ms as int, backup, up.servers@.len() as int),
        forall|k: int| 0 <= k < r@.len() ==> (#[trigger] r@[k]) < up.servers@.len(),
{
    let mut v: Vec<usize> = Vec::new();
    assert(places(v@) =~= Seq::empty());
    for i in 0..up.servers.len()
        invariant
            up.wf(),
            places(v@) == eligible(up, now_ms as int, backup, i as int),
            forall|k: int| 0 <= k < v@.len() ==> (#[trigger] v@[k]) < up.servers@.len(),
    {
        let s: &UpstreamServer = &up.servers[i];
        if !s.down && s.backup == backup && !up.health[i].is_down(now_ms) {
            let ghost before = places(v@);
            v.push(i);
            assert(places(v@) =~= before.push(i as int));
        }
    }
    v
}

/// A list of numbers.
pub open spec fn places(v: Seq<usize>) -> Seq<int> {
    v.map_values(|i: usize| i as int)
}

fn at_least_one(w: u32) -> (r: u32)
    ensures
        r == if w < 1 { 1 } else { w },
{
    if w < 1 {
        1
    } else {
        w
    }
}

fn pick_from(up: &Upstream, some: &Vec<usize>, hash: Option<u64>, cursor: usize) -> (r: usize)
    requires
        up.wf(),
        some@.len() > 0,
        forall|k: int| 0 <= k < some@.len() ==> (#[trigger] some@[k]) < up.servers@.len(),
        up.method == LbMethod::RoundRobin ==> weights(up, places(some@), some@.len() as int)
            <= u32::MAX,
    ensures
        r == picked(up, places(some@), hash, cursor),
        r < up.servers@.len(),
{
    let ghost cands = places(some@);
    let n: usize = some.len();
    match up.method {
        LbMethod::IpHash => {
            let h: u64 = match hash {
                Some(h) => h,
                None => 0,
            };
            let k: usize = (h % (n as u64)) as usize;
            assert(cands[k as int] == some@[k as int]);
            some[k]
        },
        LbMethod::LeastConn => {
            // Fewest in flight for the weight: a weight-2 peer is preferred
            // until it carries twice the connections of a weight-1 peer.
            let mut p: usize = 0;
            for k in 1..n
                invariant
                    up.wf(),
                    n == some@.len(),
                    n > 0,
                    p < k <= n,
                    cands == places(some@),
                    forall|k: int| 0 <= k < some@.len() ==> (#[trigger] some@[k]) < up.servers@.len(),
                    p == least(up, cands, k as int),
            {
                let a: usize = some[k];
                let b: usize = some[p];
                assert(cands[k as int] == a && cands[p as int] == b);
                let la: u64 = (up.health[a].in_flight() as u64 * 1000) / (at_least_one(
                    up.servers[a].weight,
                ) as u64);
                let lb: u64 = (up.health[b].in_flight() as u64 * 1000) / (at_least_one(
                    up.servers[b].weight,
                ) as u64);
                if la < lb {
                    p = k;
                }
            }
            assert(cands[p as int] == some@[p as int]);
            some[p]
        },
        LbMethod::Random => {
            assert(cands[cursor as int % n as int] == some@[cursor as int % n as int]);
            some[cursor % n]
        },
        LbMethod::RoundRobin => {
            let mut total: u32 = 0;
            for k in 0..n
                invariant
                    n == some@.len(),
                    cands == places(some@),
                    total == weights(up, cands, k as int),
                    weights(up, cands, n as int) <= u32::MAX,
                    forall|k: int| 0 <= k < some@.len() ==> (#[trigger] some@[k]) < up.servers@.len(),
            {
                proof {
                    lemma_weights_grow(up, cands, k + 1, n as int);
                }
                assert(cands[k as int] == some@[k as int]);
                total = total + at_least_one(up.servers[some[k]].weight);
            }
            proof {
                lemma_weights_grow(up, cands, 0, n as int);
                lemma_weights_grow(up, cands, n as int, n as int);
            }
            let low: u32 = (cursor as u64 % 0x1_0000_0000) as u32;
            let mut slot: u32 = low % total;
            let ghost start = slot as int;
            let mut k: usize = 0;
            while k < n
                invariant
                    k <= n,
                    n == some@.len(),
                    cands == places(some@),
                    slotted(up, cands, start, 0) == slotted(up, cands, slot as int, k as int),
                    picked(up, cands, hash, cursor) == slotted(up, cands, start, 0),
                    forall|k: int| 0 <= k < some@.len() ==> (#[trigger] some@[k]) < up.servers@.len(),
                decreases n - k,
            {
                let i: usize = some[k];
                assert(cands[k as int] == i);
                let w: u32 = at_least_one(up.servers[i].weight);
                if slot < w {
                    return i;
                }
                slot = slot - w;
                k = k + 1;
            }
            assert(cands[0] == some@[0]);
            some[0]
        },
    }
}

/// Chooses a peer, skipping any that passive health has taken out.
///
/// Primary servers are tried first; only when every primary is down do backup
/// servers enter the rotation. If everything is down, the least recently failed
/// peer is returned anyway: refusing to try at all would turn a transient outage
/// into a permanent one. `now_ms` counts from the upstream's
/// origin.
pub fn select(up: &Upstream, now_ms: u64, hash: Option<u64>, rr_cursor: usize) -> (r: Option<usize>)
    requires
        up.wf(),
        up.weights_fit(now_ms as int),
    ensures
        match r {
            Some(i) => selected(up, now_ms as int, hash, rr_cursor) == Some(i as int) && i
                < up.servers@.len(),
            None => selected(up, now_ms as int, hash, rr_cursor) is None,
        },
{
    let ghost n = up.servers@.len() as int;
    let primary: Vec<usize> = candidates(up, now_ms, false);
    assert(places(primary@) == eligible(up, now_ms as int, false, n));
    assert(places(primary@).len() == primary@.len());
    if primary.len() > 0 {
        return Some(pick_from(up, &primary, hash, rr_cursor));
    }
    let backup: Vec<usize> = candidates(up, now_ms, true);
    assert(places(backup@) == eligible(up, now_ms as int, true, n));
    assert(places(backup@).len() == backup@.len());
    if backup.len() > 0 {
        return Some(pick_from(up, &backup, hash, rr_cursor));
    }
    let mut best: Option<usize> = None;
    for i in 0..up.servers.len()
        invariant
            up.wf(),
            match best {
                Some(b) => b == stalest(up, i as int) && b < i,
                None => stalest(up, i as int) == -1,
            },
    {
        if !up.servers[i].down {
            match best {
                Some(b) => {
                    if up.health[i].failed_at_ms < up.health[b].failed_at_ms {
                        best = Some(i);
                    }
                },
                None => {
                    best = Some(i);
                },
            }
        }
    }
    best
}

/// A group in which the servers that were tried already are switched off.
pub open spec fn is_besides(up: &Upstream, m: &Upstream, tried: Seq<usize>) -> bool {
    &&& m.method == up.method
    &&& m.health@ == up.health@
    &&& m.servers@.len() == up.servers@.len()
    &&& forall|i: int|
        0 <= i < up.servers@.len() ==> {
            let (a, b) = (up.servers@[i], #[trigger] m.servers@[i]);
            b.weight == a.weight && b.backup == a.backup && b.down == (a.down || tried.contains(
                i as usize,
            ))
        }
}

fn is_among(tried: &Vec<usize>, i: usize) -> (r: bool)
    ensures
        r == tried@.contains(i),
{
    for k in 0..tried.len()
        invariant
            forall|j: int| 0 <= j < k ==> tried@[j] != i,
    {
        if tried[k] == i {
            return true;
        }
    }
    false
}

fn besides(up: &Upstream, tried: &Vec<usize>) -> (r: Upstream)
    requires
        up.wf(),
    ensures
        is_besides(up, &r, tried@),
{
    let mut servers: Vec<UpstreamServer> = Vec::new();
    let mut health: Vec<PeerHealth> = Vec::new();
    for i in 0..up.servers.len()
        invariant
            up.wf(),
            servers@.len() == i,
            health@ == up.health@.subrange(0, i as int),
            forall|k: int|
                0 <= k < i ==> {
                    let (a, b) = (up.servers@[k], #[trigger] servers@[k]);
                    b.weight == a.weight && b.backup == a.backup && b.down == (a.down
                        || tried@.contains(k as usize))
                },
    {
        let s: &UpstreamServer = &up.servers[i];
        servers.push(
            UpstreamServer {
                addr: s.addr.as_str().to_owned(),
                weight: s.weight,
                max_fails: s.max_fails,
                fail_timeout: s.fail_timeout,
                backup: s.backup,
                max_conns: s.max_conns,
                down: s.down || is_among(tried, i),
            },
        );
        health.push(up.health[i]);
        assert(health@ =~= up.health@.subrange(0, i + 1));
    }
    assert(health@ =~= up.health@);
    Upstream {
        name: up.name.as_str().to_owned(),
        servers,
        method: up.method,
        keepalive: up.keepalive,
        health,
    }
}

/// The servers that may be used besides those that were tried weigh no more.
proof fn lemma_lighter(up: &Upstream, m: &Upstream, tried: Seq<usize>, now_ms: int, b: bool, n: int)
    requires
        is_besides(up, m, tried),
        n <= up.servers@.len(),
    ensures
        ({
            let few = eligible(m, now_ms, b, n);
            let all = eligible(up, now_ms, b, n);
            weights(m, few, few.len() as int) <= weights(up, all, all.len() as int)
        }),
    decreases n,
{
    if n > 0 {
        lemma_lighter(up, m, tried, now_ms, b, n - 1);
        let few = eligible(m, now_ms, b, n - 1);
        let all = eligible(up, now_ms, b, n - 1);
        lemma_weights_push(m, few, n - 1, few.len() as int);
        lemma_weights_push(up, all, n - 1, all.len() as int);
        assert(m.servers@[n - 1].weight == up.servers@[n - 1].weight);
    }
}

proof fn lemma_weights_push(up: &Upstream, some: Seq<int>, i: int, k: int)
    requires
        0 <= k <= some.len(),
    ensures
        weights(up, some.push(i), k) == weights(up, some, k),
        weights(up, some.push(i), some.len() as int + 1) == weights(up, some.push(i), some.len() as int)
            + weight(up, i),
    decreases k,
{
    if k > 0 {
        lemma_weights_push(up, some, i, k - 1);
        assert(some.push(i)[k - 1] == some[k - 1]);
    }
    assert(some.push(i)[some.len() as int] == i);
}

/// Chooses a peer besides those that were tried already, as [`select`] chooses one.
pub fn select_besides(
    up: &Upstream,
    now_ms: u64,
    hash: Option<u64>,
    rr_cursor: usize,
    tried: &Vec<usize>,
) -> (r: Option<usize>)
    requires
        up.wf(),
        up.weights_fit(now_ms as int),
    ensures
        exists|m: Upstream| #[trigger]
            is_besides(up, &m, tried@) && match r {
                Some(i) => selected(&m, now_ms as int, hash, rr_cursor) == Some(i as int),
                None => selected(&m, now_ms as int, hash, rr_cursor) is None,
            },
        match r {
            Some(i) => i < up.servers@.len() && !up.servers@[i as int].down && !tried@.contains(i),
            None => forall|i: int|
                0 <= i < up.servers@.len() ==> (#[trigger] up.servers@[i]).down || tried@.contains(
                    i as usize,
                ),
        },
{
    let m: Upstream = besides(up, tried);
    let ghost n = up.servers@.len() as int;
    proof {
        assert forall|b: bool| {
            let some = #[trigger] eligible(&m, now_ms as int, b, n);
            m.method == LbMethod::RoundRobin ==> weights(&m, some, some.len() as int) <= u32::MAX
        } by {
            lemma_lighter(up, &m, tried@, now_ms as int, b, n);
            let all = eligible(up, now_ms as int, b, n);
        }
        law_only_servers_in_service_are_selected(&m, now_ms as int, hash, rr_cursor);
    }
    let r: Option<usize> = select(&m, now_ms, hash, rr_cursor);
    assert(is_besides(up, &m, tried@));
    assert(r is None ==> forall|i: int|
        0 <= i < n ==> (#[trigger] up.servers@[i]).down || tried@.contains(i as usize)) by {
        if r is None {
            assert forall|i: int| 0 <= i < n implies (#[trigger] up.servers@[i]).down
                || tried@.contains(i as usize) by {
                assert(m.servers@[i].down);
            }
        }
    }
    r
}

/// How many of the first `n` servers are in service.
pub open spec fn in_service(up: &Upstream, n: int) -> int
    decreases n,
{
    if n <= 0 {
        0
    } else {
        in_service(up, n - 1) + if up.servers@[n - 1].down {
            0int
        } else {
            1int
        }
    }
}

/// Counts the servers in service: so many peers can be tried one after the other.
pub fn peers_in_service(up: &Upstream) -> (r: usize)
    ensures
        r == in_service(up, up.servers@.len() as int),
{
    let mut k: usize = 0;
    for i in 0..up.servers.len()
        invariant
            k <= i,
            k == in_service(up, i as int),
    {
        if !up.servers[i].down {
            k = k + 1;
        }
    }
    k
}

spec fn served_by(up: &Upstream, n: int) -> Set<usize> {
    Set::new(|i: usize| i < n && !up.servers@[i as int].down)
}

proof fn lemma_in_service(up: &Upstream, n: int)
    requires
        0 <= n <= up.servers@.len() <= usize::MAX,
    ensures
        served_by(up, n).finite(),
        served_by(up, n).len() == in_service(up, n),
    decreases n,
{
    if n > 0 {
        lemma_in_service(up, n - 1);
        if up.servers@[n - 1].down {
            assert(served_by(up, n) =~= served_by(up, n - 1));
        } else {
            assert(served_by(up, n) =~= served_by(up, n - 1).insert((n - 1) as usize));
        }
    } else {
        assert(served_by(up, n) =~= Set::empty());
    }
}

/// As long as fewer peers were tried than are in service, there is another one.
pub proof fn law_another_peer_is_there(up: &Upstream, tried: Seq<usize>)
    requires
        tried.len() < in_service(up, up.servers@.len() as int),
    ensures
        exists|i: int|
            0 <= i < up.servers@.len() && !(#[trigger] up.servers@[i]).down && !tried.contains(
                i as usize,
            ),
{
    let n = up.servers@.len() as int;
    assert(up.servers.len() == n);
    lemma_in_service(up, n);
    if forall|i: int|
        0 <= i < n && !(#[trigger] up.servers@[i]).down ==> tried.contains(i as usize) {
        assert forall|i: usize| served_by(up, n).contains(i) implies tried.to_set().contains(
            i,
        ) by {
            assert(!up.servers@[i as int].down);
        }
        vstd::seq_lib::seq_to_set_is_finite(tried);
        tried.lemma_cardinality_of_set();
        vstd::set_lib::lemma_len_subset(served_by(up, n), tried.to_set());
    }
}

proof fn lemma_same_eligible(a: &Upstream, b: &Upstream, now_ms: int, backup: bool, n: int)
    requires
        is_alike(a, b),
        n <= a.servers@.len(),
    ensures
        eligible(a, now_ms, backup, n) == eligible(b, now_ms, backup, n),
        stalest(a, n) == stalest(b, n),
    decreases n,
{
    if n > 0 {
        lemma_same_eligible(a, b, now_ms, backup, n - 1);
        lemma_stalest(a, n - 1);
        assert(a.servers@[n - 1].down == b.servers@[n - 1].down);
    }
}

/// Two groups that a choice does not tell apart.
spec fn is_alike(a: &Upstream, b: &Upstream) -> bool {
    &&& a.method == b.method
    &&& a.health@ == b.health@
    &&& a.servers@.len() == b.servers@.len()
    &&& forall|i: int|
        0 <= i < a.servers@.len() ==> {
            let (x, y) = (#[trigger] a.servers@[i], b.servers@[i]);
            x.weight == y.weight && x.backup == y.backup && x.down == y.down
        }
}

proof fn lemma_same_pick(a: &Upstream, b: &Upstream, some: Seq<int>, slot: int, k: int)
    requires
        is_alike(a, b),
        forall|j: int| 0 <= j < some.len() ==> 0 <= #[trigger] some[j] < a.servers@.len(),
        0 <= k <= some.len(),
    ensures
        weights(a, some, k) == weights(b, some, k),
        least(a, some, k) == least(b, some, k),
        k > 0 ==> 0 <= least(a, some, k) < k,
        slotted(a, some, slot, some.len() - k) == slotted(b, some, slot, some.len() - k),
    decreases k,
{
    if k > 0 {
        lemma_same_pick(a, b, some, slot, k - 1);
        let i = some[k - 1];
        assert(a.servers@[i].weight == b.servers@[i].weight);
        if k > 1 {
            let p = some[least(a, some, k - 1)];
            assert(a.servers@[p].weight == b.servers@[p].weight);
        }
        let f = some[some.len() - k];
        assert(a.servers@[f].weight == b.servers@[f].weight);
        lemma_same_pick(a, b, some, slot - weight(a, f), k - 1);
    }
}

/// What was tried already fixes the choice besides it.
pub proof fn law_there_is_one_choice_besides(
    up: &Upstream,
    a: &Upstream,
    b: &Upstream,
    tried: Seq<usize>,
    now_ms: int,
    hash: Option<u64>,
    cursor: usize,
)
    requires
        is_besides(up, a, tried),
        is_besides(up, b, tried),
    ensures
        selected(a, now_ms, hash, cursor) == selected(b, now_ms, hash, cursor),
{
    let n = up.servers@.len() as int;
    assert forall|i: int| 0 <= i < n implies {
        let (x, y) = (#[trigger] a.servers@[i], b.servers@[i]);
        x.weight == y.weight && x.backup == y.backup && x.down == y.down
    } by {
        assert(b.servers@[i].down == (up.servers@[i].down || tried.contains(i as usize)));
    }
    assert(is_alike(a, b));
    lemma_same_choice(a, b, now_ms, cursor, n);
}

proof fn lemma_same_choice(a: &Upstream, b: &Upstream, now_ms: int, cursor: usize, n: int)
    requires
        is_alike(a, b),
        n == a.servers@.len(),
    ensures
        forall|backup: bool, hash: Option<u64>|
            #![trigger picked(a, eligible(a, now_ms, backup, n), hash, cursor)]
            eligible(a, now_ms, backup, n) == eligible(b, now_ms, backup, n) && picked(
                a,
                eligible(a, now_ms, backup, n),
                hash,
                cursor,
            ) == picked(b, eligible(a, now_ms, backup, n), hash, cursor),
        eligible(a, now_ms, false, n) == eligible(b, now_ms, false, n),
        eligible(a, now_ms, true, n) == eligible(b, now_ms, true, n),
        stalest(a, n) == stalest(b, n),
{
    lemma_same_eligible(a, b, now_ms, false, n);
    lemma_same_eligible(a, b, now_ms, true, n);
    assert forall|backup: bool, hash: Option<u64>|
        #![trigger picked(a, eligible(a, now_ms, backup, n), hash, cursor)]
        eligible(a, now_ms, backup, n) == eligible(b, now_ms, backup, n) && picked(
            a,
            eligible(a, now_ms, backup, n),
            hash,
            cursor,
        ) == picked(b, eligible(a, now_ms, backup, n), hash, cursor) by {
        lemma_same_eligible(a, b, now_ms, backup, n);
        lemma_eligible(a, now_ms, backup, n);
        let some = eligible(a, now_ms, backup, n);
        let slot = (cursor as int % 0x1_0000_0000) % weights(a, some, some.len() as int);
        lemma_same_pick(a, b, some, slot, some.len() as int);
    }
}

/// With every server down, the one that failed least recently is tried.
pub proof fn law_the_least_recently_failed_is_tried(
    up: &Upstream,
    now_ms: int,
    hash: Option<u64>,
    cursor: usize,
    other: int,
)
    requires
        up.wf(),
        forall|i: int|
            0 <= i < up.servers@.len() ==> (#[trigger] up.servers@[i]).down
                || up.health@[i].down_at(now_ms),
        0 <= other < up.servers@.len(),
        !up.servers@[other].down,
    ensures
        selected(up, now_ms, hash, cursor) matches Some(i) && 0 <= i < up.servers@.len()
            && !up.servers@[i].down && up.health@[i].failed_at_ms <= up.health@[other].failed_at_ms,
{
    let n = up.servers@.len() as int;
    lemma_stalest(up, n);
    lemma_eligible(up, now_ms, false, n);
    lemma_eligible(up, now_ms, true, n);
    let primary = eligible(up, now_ms, false, n);
    let backup = eligible(up, now_ms, true, n);
    if primary.len() > 0 {
        assert(up.servers@[primary[0]].down || up.health@[primary[0]].down_at(now_ms));
    }
    if backup.len() > 0 {
        assert(up.servers@[backup[0]].down || up.health@[backup[0]].down_at(now_ms));
    }
}

/// A server that is switched off is never selected, and someone is always tried
/// unless all of them are.
pub proof fn law_only_servers_in_service_are_selected(
    up: &Upstream,
    now_ms: int,
    hash: Option<u64>,
    cursor: usize,
)
    requires
        up.wf(),
    ensures
        match selected(up, now_ms, hash, cursor) {
            Some(i) => 0 <= i < up.servers@.len() && !up.servers@[i].down,
            None => forall|i: int| 0 <= i < up.servers@.len() ==> (#[trigger] up.servers@[i]).down,
        },
{
    let n = up.servers@.len() as int;
    lemma_stalest(up, n);
    lemma_eligible(up, now_ms, false, n);
    lemma_eligible(up, now_ms, true, n);
    let primary = eligible(up, now_ms, false, n);
    let backup = eligible(up, now_ms, true, n);
    if primary.len() > 0 {
        let p = lemma_picked_in(up, primary, hash, cursor);
    } else if backup.len() > 0 {
        let p = lemma_picked_in(up, backup, hash, cursor);
    }
}

proof fn lemma_picked_in(up: &Upstream, some: Seq<int>, hash: Option<u64>, cursor: usize) -> (p: int)
    requires
        some.len() > 0,
    ensures
        0 <= p < some.len(),
        picked(up, some, hash, cursor) == some[p],
{
    let n = some.len() as int;
    match up.method {
        LbMethod::IpHash => {
            let h = match hash {
                Some(h) => h as int,
                None => 0,
            };
            vstd::arithmetic::div_mod::lemma_mod_bound(h, n);
            h % n
        },
        LbMethod::LeastConn => {
            lemma_least(up, some, n);
            least(up, some, n)
        },
        LbMethod::Random => {
            vstd::arithmetic::div_mod::lemma_mod_bound(cursor as int, n);
            cursor as int % n
        },
        LbMethod::RoundRobin => {
            lemma_slotted_in(
                up,
                some,
                (cursor as int % 0x1_0000_0000) % weights(up, some, n),
                0,
            )
        },
    }
}

/// Backups are used only when no primary may be, and a peer that health has
/// taken out only when nobody else is left.
pub proof fn law_backups_come_second(
    up: &Upstream,
    now_ms: int,
    hash: Option<u64>,
    cursor: usize,
    other: int,
)
    requires
        up.wf(),
        0 <= other < up.servers@.len(),
        !up.servers@[other].down,
        !up.health@[other].down_at(now_ms),
    ensures
        selected(up, now_ms, hash, cursor) matches Some(i) && 0 <= i < up.servers@.len()
            && !up.health@[i].down_at(now_ms) && (up.servers@[i].backup ==> up.servers@[other].backup),
{
    let n = up.servers@.len() as int;
    lemma_eligible(up, now_ms, false, n);
    lemma_eligible(up, now_ms, true, n);
    lemma_is_eligible(up, now_ms, n, other);
    let primary = eligible(up, now_ms, false, n);
    let backup = eligible(up, now_ms, true, n);
    if primary.len() > 0 {
        let p = lemma_picked_in(up, primary, hash, cursor);
    } else {
        let p = lemma_picked_in(up, backup, hash, cursor);
    }
}

proof fn lemma_is_eligible(up: &Upstream, now_ms: int, n: int, i: int)
    requires
        0 <= i < n <= up.servers@.len(),
        !up.servers@[i].down,
        !up.health@[i].down_at(now_ms),
    ensures
        eligible(up, now_ms, up.servers@[i].backup, n).len() > 0,
    decreases n,
{
    if i < n - 1 {
        lemma_is_eligible(up, now_ms, n - 1, i);
    }
}

/// The same client is sent to the same peer: the cursor does not matter to
/// `ip_hash`.
pub proof fn law_ip_hash_is_sticky(up: &Upstream, some: Seq<int>, hash: Option<u64>, a: usize, b: usize)
    requires
        up.method == LbMethod::IpHash,
    ensures
        picked(up, some, hash, a) == picked(up, some, hash, b),
{
}

/// `least_conn` takes a peer that nobody undercuts.
pub proof fn law_least_conn_takes_the_least_loaded(
    up: &Upstream,
    some: Seq<int>,
    hash: Option<u64>,
    cursor: usize,
    k: int,
)
    requires
        up.method == LbMethod::LeastConn,
        0 <= k < some.len(),
    ensures
        load(up, picked(up, some, hash, cursor)) <= load(up, some[k]),
{
    lemma_least(up, some, some.len() as int);
}

/// A peer of weight N occupies N of the slots of a round: those from the weights
/// before it up to its own.
pub proof fn law_weight_is_a_share(up: &Upstream, some: Seq<int>, slot: int, k: int)
    requires
        0 <= k < some.len(),
        weights(up, some, k) <= slot < weights(up, some, k + 1),
    ensures
        slotted(up, some, slot, 0) == some[k],
{
    lemma_slot_walk(up, some, slot, 0, k);
}

proof fn lemma_slot_walk(up: &Upstream, some: Seq<int>, slot: int, j: int, k: int)
    requires
        0 <= j <= k < some.len(),
        weights(up, some, k) <= slot < weights(up, some, k + 1),
    ensures
        slotted(up, some, slot - weights(up, some, j), j) == some[k],
    decreases k - j,
{
    if j < k {
        lemma_weights_grow(up, some, j + 1, k);
        lemma_slot_walk(up, some, slot, j + 1, k);
    }
}

// ---------------------------------------------------------------- idle pool

/// An idle connection, with when it was returned.
#[derive(Debug)]
pub struct Idle<T> {
    pub stream: T,
    pub since_ms: u64,
}

/// The idle connections to one peer, oldest first.
#[derive(Debug)]
pub struct Peer<T> {
    pub addr: String,
    pub idle: Vec<Idle<T>>,
}

/// Idle upstream connections of one worker, by peer address. A socket belongs to
/// the worker that opened it, so the pool is not shared.
#[derive(Debug)]
pub struct Pool<T> {
    pub peers: Vec<Peer<T>>,
}

/// How long an idle connection may sit before it is assumed dead. Upstreams
/// commonly close at 60s; staying well under avoids handing out a socket that
/// the peer has already reset.
pub const MAX_IDLE_MS: u64 = 30_000;

/// The connections pooled for an address among the first `n` peers.
pub open spec fn pooled_for<T>(peers: Seq<Peer<T>>, addr: Seq<char>, n: int) -> Seq<Idle<T>>
    decreases n,
{
    if n <= 0 {
        Seq::empty()
    } else if peers[n - 1].addr@ == addr {
        peers[n - 1].idle@
    } else {
        pooled_for(peers, addr, n - 1)
    }
}

/// The connections after one more was returned: at capacity the oldest goes.
pub open spec fn with_returned<T>(idle: Seq<Idle<T>>, new: Idle<T>, keepalive: int) -> Seq<Idle<T>> {
    if keepalive <= 0 {
        idle
    } else if idle.len() >= keepalive {
        idle.subrange(1, idle.len() as int).push(new)
    } else {
        idle.push(new)
    }
}

/// Sat longer than an idle connection may.
pub open spec fn is_stale<T>(e: Idle<T>, now_ms: u64) -> bool {
    now_ms - e.since_ms >= MAX_IDLE_MS
}

/// The place of the newest usable connection of the first `n`, or -1; `alive`
/// says which of them still are. Nothing older than a stale one is looked at.
pub open spec fn newest<T>(idle: Seq<Idle<T>>, now_ms: u64, alive: Seq<bool>, n: int) -> int
    decreases n,
{
    if n <= 0 || is_stale(idle[n - 1], now_ms) {
        -1
    } else if alive[n - 1] {
        n - 1
    } else {
        newest(idle, now_ms, alive, n - 1)
    }
}

impl<T> Pool<T> {
    /// No address occurs twice.
    pub open spec fn wf(&self) -> bool {
        forall|i: int, j: int|
            0 <= i < j < self.peers@.len() ==> (#[trigger] self.peers@[i]).addr@ != (
            #[trigger] self.peers@[j]).addr@
    }

    /// The connections pooled for an address, oldest first.
    pub open spec fn idle(&self, addr: Seq<char>) -> Seq<Idle<T>> {
        pooled_for(self.peers@, addr, self.peers@.len() as int)
    }

    /// An empty pool.
    pub fn new() -> (r: Pool<T>)
        ensures
            r.wf(),
            forall|a: Seq<char>| #[trigger] r.idle(a) == Seq::<Idle<T>>::empty(),
    {
        Pool { peers: Vec::new() }
    }

    fn find(&self, addr: &str) -> (r: Option<usize>)
        requires
            self.wf(),
        ensures
            match r {
                Some(i) => i < self.peers@.len() && self.peers@[i as int].addr@ == addr@
                    && self.idle(addr@) == self.peers@[i as int].idle@,
                None => self.idle(addr@) == Seq::<Idle<T>>::empty() && forall|i: int|
                    0 <= i < self.peers@.len() ==> (#[trigger] self.peers@[i]).addr@ != addr@,
            },
    {
        for i in 0..self.peers.len()
            invariant
                self.wf(),
                forall|j: int| 0 <= j < i ==> (#[trigger] self.peers@[j]).addr@ != addr@,
        {
            if bytes::same_text(self.peers[i].addr.as_str(), addr) {
                proof {
                    lemma_pooled_at(self.peers@, addr@, i as int, self.peers@.len() as int);
                }
                return Some(i);
            }
        }
        proof {
            lemma_pooled_none(self.peers@, addr@, self.peers@.len() as int);
        }
        None
    }
}

proof fn lemma_pooled_at<T>(peers: Seq<Peer<T>>, addr: Seq<char>, i: int, n: int)
    requires
        0 <= i < n <= peers.len(),
        peers[i].addr@ == addr,
        forall|a: int, b: int|
            0 <= a < b < peers.len() ==> (#[trigger] peers[a]).addr@ != (#[trigger] peers[b]).addr@,
    ensures
        pooled_for(peers, addr, n) == peers[i].idle@,
    decreases n,
{
    if i < n - 1 {
        assert(peers[i].addr@ != peers[n - 1].addr@);
        lemma_pooled_at(peers, addr, i, n - 1);
    }
}

proof fn lemma_pooled_none<T>(peers: Seq<Peer<T>>, addr: Seq<char>, n: int)
    requires
        0 <= n <= peers.len(),
        forall|i: int| 0 <= i < n ==> (#[trigger] peers[i]).addr@ != addr,
    ensures
        pooled_for(peers, addr, n) == Seq::<Idle<T>>::empty(),
    decreases n,
{
    if n > 0 {
        lemma_pooled_none(peers, addr, n - 1);
    }
}

/// Two pools whose peers agree up to one address agree on the others.
proof fn lemma_pooled_same<T>(a: Seq<Peer<T>>, b: Seq<Peer<T>>, addr: Seq<char>, n: int)
    requires
        0 <= n <= a.len(),
        n <= b.len(),
        forall|i: int|
            0 <= i < n ==> (#[trigger] a[i]).addr@ == b[i].addr@ && (a[i].addr@ == addr
                ==> a[i].idle@ == b[i].idle@),
    ensures
        pooled_for(a, addr, n) == pooled_for(b, addr, n),
    decreases n,
{
    if n > 0 {
        assert(a[n - 1].addr@ == b[n - 1].addr@);
        lemma_pooled_same(a, b, addr, n - 1);
    }
}

/// Returns a connection to the pool after a clean exchange.
///
/// Only for one whose response body was read in full and that neither side asked
/// to close: a connection returned mid-body would corrupt the next request.
pub fn put<T>(pool: &mut Pool<T>, addr: &str, stream: T, keepalive: usize, now_ms: u64)
    requires
        old(pool).wf(),
    ensures
        final(pool).wf(),
        final(pool).idle(addr@) == with_returned(
            old(pool).idle(addr@),
            Idle { stream, since_ms: now_ms },
            keepalive as int,
        ),
        forall|a: Seq<char>| a != addr@ ==> #[trigger] final(pool).idle(a) == old(pool).idle(a),
{
    if keepalive == 0 {
        return;
    }
    let new: Idle<T> = Idle { stream, since_ms: now_ms };
    let ghost before = pool.peers@;
    match pool.find(addr) {
        Some(i) => {
            let mut list: Vec<Idle<T>> = Vec::new();
            std::mem::swap(&mut list, &mut pool.peers[i].idle);
            let ghost had = list@;
            if list.len() >= keepalive {
                list.remove(0);
                assert(list@ =~= had.subrange(1, had.len() as int));
            }
            list.push(new);
            std::mem::swap(&mut list, &mut pool.peers[i].idle);
            proof {
                let after = pool.peers@;
                assert(after[i as int].addr@ == before[i as int].addr@);
                assert forall|a: int, b: int| 0 <= a < b < after.len() implies (
                #[trigger] after[a]).addr@ != (#[trigger] after[b]).addr@ by {
                    assert(before[a].addr@ != before[b].addr@);
                }
                lemma_pooled_at(after, addr@, i as int, after.len() as int);
                assert forall|a: Seq<char>| a != addr@ implies #[trigger] pool.idle(a) == old(
                    pool,
                ).idle(a) by {
                    lemma_pooled_same(after, before, a, after.len() as int);
                }
            }
        },
        None => {
            let mut list: Vec<Idle<T>> = Vec::new();
            list.push(new);
            pool.peers.push(Peer { addr: addr.to_owned(), idle: list });
            proof {
                let after = pool.peers@;
                assert forall|a: int, b: int| 0 <= a < b < after.len() implies (
                #[trigger] after[a]).addr@ != (#[trigger] after[b]).addr@ by {
                    assert(after[a] == before[a]);
                    if b < before.len() {
                        assert(after[b] == before[b]);
                    }
                }
                assert(pool.idle(addr@) =~= seq![new]);
                assert forall|a: Seq<char>| a != addr@ implies #[trigger] pool.idle(a) == old(
                    pool,
                ).idle(a) by {
                    lemma_pooled_same(after, before, a, before.len() as int);
                }
            }
        },
    }
}

/// `r` was taken from `idle`, leaving `rest`, where `alive` says what the probes
/// reported: the newest usable connection, and with it everything newer goes;
/// all of them go when there is none.
pub open spec fn is_taken<T, F: Fn(&T) -> bool>(
    idle: Seq<Idle<T>>,
    rest: Seq<Idle<T>>,
    r: Option<T>,
    now_ms: u64,
    is_reusable: F,
    alive: Seq<bool>,
) -> bool {
    let p = newest(idle, now_ms, alive, idle.len() as int);
    &&& alive.len() == idle.len()
    &&& forall|k: int|
        p < k < idle.len() && is_looked_at(idle, now_ms, k) ==> call_ensures(
            is_reusable,
            (&idle[k].stream,),
            #[trigger] alive[k],
        )
    &&& match r {
        Some(t) => p >= 0 && t == idle[p].stream && call_ensures(is_reusable, (&t,), true) && rest
            == idle.subrange(0, p),
        None => p < 0 && rest == Seq::<Idle<T>>::empty(),
    }
}

/// Takes a pooled connection for `addr`, if one is available and fresh. The
/// newest comes first: it is likeliest alive. `is_reusable` probes a connection:
/// handing out one the peer already closed would surface as an error of the
/// server's own making.
pub fn take<T, F: Fn(&T) -> bool>(
    pool: &mut Pool<T>,
    addr: &str,
    now_ms: u64,
    is_reusable: F,
) -> (r: Option<T>)
    requires
        old(pool).wf(),
        forall|t: &T| #[trigger] call_requires(is_reusable, (t,)),
    ensures
        final(pool).wf(),
        forall|a: Seq<char>| a != addr@ ==> #[trigger] final(pool).idle(a) == old(pool).idle(a),
        exists|alive: Seq<bool>| #[trigger]
            is_taken(
                old(pool).idle(addr@),
                final(pool).idle(addr@),
                r,
                now_ms,
                is_reusable,
                alive,
            ),
{
    let ghost before = pool.peers@;
    let i: usize = match pool.find(addr) {
        Some(i) => i,
        None => {
            proof {
                let alive = Seq::<bool>::empty();
                assert(is_taken(
                    old(pool).idle(addr@),
                    pool.idle(addr@),
                    None,
                    now_ms,
                    is_reusable,
                    alive,
                ));
            }
            return None;
        },
    };
    let mut list: Vec<Idle<T>> = Vec::new();
    std::mem::swap(&mut list, &mut pool.peers[i].idle);
    let ghost all = list@;
    let ghost mut alive = Seq::new(all.len(), |k: int| false);
    let mut got: Option<T> = None;
    let mut done: bool = false;
    while !done && list.len() > 0
        invariant
            forall|t: &T| #[trigger] call_requires(is_reusable, (t,)),
            list@.len() <= all.len(),
            alive.len() == all.len(),
            !done ==> list@ == all.subrange(0, list@.len() as int),
            !done ==> got is None && newest(all, now_ms, alive, all.len() as int) == newest(
                all,
                now_ms,
                alive,
                list@.len() as int,
            ),
            !done ==> forall|k: int|
                list@.len() <= k < all.len() ==> !#[trigger] alive[k] && !is_stale(all[k], now_ms),
            done ==> match got {
                Some(t) => ({
                    let p = newest(all, now_ms, alive, all.len() as int);
                    p == list@.len() && t == all[p].stream && list@ == all.subrange(0, p)
                        && call_ensures(is_reusable, (&t,), true)
                }),
                None => newest(all, now_ms, alive, all.len() as int) == -1 && list@.len() == 0,
            },
            forall|k: int|
                list@.len() <= k < all.len() && is_looked_at(all, now_ms, k) ==> call_ensures(
                    is_reusable,
                    (&all[k].stream,),
                    #[trigger] alive[k],
                ),
        decreases list@.len() + if done { 0int } else { 1int },
    {
        let ghost n = list@.len() as int;
        if let Some(idle) = list.pop() {
            assert(idle == all[n - 1]);
            assert(list@ =~= all.subrange(0, n - 1));
            if now_ms >= idle.since_ms && now_ms - idle.since_ms >= MAX_IDLE_MS {
                // Entries below are older still.
                list.clear();
                done = true;
                proof {
                    assert forall|k: int| 0 <= k < n implies !is_looked_at(all, now_ms, k) by {
                        assert(is_stale(all[n - 1], now_ms));
                    }
                }
            } else {
                let ok: bool = is_reusable(&idle.stream);
                let ghost was = alive;
                proof {
                    alive = alive.update(n - 1, ok);
                    lemma_newest_above(all, now_ms, was, alive, n, all.len() as int);
                }
                if ok {
                    got = Some(idle.stream);
                    done = true;
                }
            }
        }
    }
    let ghost rest = list@;
    std::mem::swap(&mut list, &mut pool.peers[i].idle);
    proof {
        let after = pool.peers@;
        assert(after[i as int].addr@ == before[i as int].addr@);
        assert forall|a: int, b: int| 0 <= a < b < after.len() implies (
        #[trigger] after[a]).addr@ != (#[trigger] after[b]).addr@ by {
            assert(before[a].addr@ != before[b].addr@);
        }
        lemma_pooled_at(after, addr@, i as int, after.len() as int);
        assert forall|a: Seq<char>| a != addr@ implies #[trigger] pool.idle(a) == old(pool).idle(
            a,
        ) by {
            lemma_pooled_same(after, before, a, after.len() as int);
        }
        assert(rest.len() == 0 ==> rest =~= Seq::<Idle<T>>::empty());
        assert(old(pool).idle(addr@) == all);
        assert(is_taken(all, pool.idle(addr@), got, now_ms, is_reusable, alive));
    }
    got
}

/// A connection is probed unless it, or a newer one, is stale.
pub open spec fn is_looked_at<T>(idle: Seq<Idle<T>>, now_ms: u64, k: int) -> bool {
    forall|j: int| k <= j < idle.len() ==> !is_stale(#[trigger] idle[j], now_ms)
}

/// What is decided above a place depends only on what was found above it.
proof fn lemma_newest_above<T>(
    idle: Seq<Idle<T>>,
    now_ms: u64,
    was: Seq<bool>,
    now: Seq<bool>,
    n: int,
    m: int,
)
    requires
        0 < n <= m <= idle.len(),
        was.len() == idle.len(),
        now.len() == idle.len(),
        forall|k: int| n <= k < m ==> was[k] == now[k],
        newest(idle, now_ms, was, m) == newest(idle, now_ms, was, n),
        forall|k: int| n <= k < m ==> !#[trigger] was[k] && !is_stale(idle[k], now_ms),
    ensures
        newest(idle, now_ms, now, m) == newest(idle, now_ms, now, n),
    decreases m - n,
{
    if n < m {
        assert(!was[m - 1]);
        assert(!now[m - 1]);
        lemma_newest_above(idle, now_ms, was, now, n, m - 1);
    }
}

/// Idle connections held for `addr`.
pub fn pooled<T>(pool: &Pool<T>, addr: &str) -> (r: usize)
    requires
        pool.wf(),
    ensures
        r == pool.idle(addr@).len(),
{
    match pool.find(addr) {
        Some(i) => pool.peers[i].idle.len(),
        None => 0,
    }
}

/// The pool keeps at most `keepalive` connections to a peer.
pub proof fn law_the_pool_is_bounded<T>(idle: Seq<Idle<T>>, new: Idle<T>, keepalive: int)
    requires
        keepalive > 0,
        idle.len() <= keepalive,
    ensures
        with_returned(idle, new, keepalive).len() <= keepalive,
        with_returned(idle, new, keepalive).last() == new,
{
}

/// A connection that was just returned, and is alive and not idle for too long, is the
/// one that is taken next.
pub proof fn law_the_last_returned_is_taken_first<T>(
    idle: Seq<Idle<T>>,
    new: Idle<T>,
    keepalive: int,
    now_ms: u64,
    alive: Seq<bool>,
)
    requires
        keepalive > 0,
        !is_stale(new, now_ms),
        alive.len() == with_returned(idle, new, keepalive).len(),
        alive.last(),
    ensures
        ({
            let held = with_returned(idle, new, keepalive);
            let p = newest(held, now_ms, alive, held.len() as int);
            p == held.len() - 1 && held[p] == new
        }),
{
}

/// No connection that was idle for too long, and none that is dead, is ever taken.
pub proof fn law_only_fresh_connections_are_taken<T>(
    idle: Seq<Idle<T>>,
    now_ms: u64,
    alive: Seq<bool>,
    n: int,
)
    requires
        0 <= n <= idle.len(),
    ensures
        ({
            let p = newest(idle, now_ms, alive, n);
            -1 <= p < n && (p >= 0 ==> !is_stale(idle[p], now_ms) && alive[p])
        }),
    decreases n,
{
    if n > 0 && !is_stale(idle[n - 1], now_ms) && !alive[n - 1] {
        law_only_fresh_connections_are_taken(idle, now_ms, alive, n - 1);
    }
}

} // verus!
