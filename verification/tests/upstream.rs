use oxiserve::stats::{accepted, init, json_body, request_done};
use oxiserve::upstream::{
    peers_in_service, pooled, put, select, select_besides, take, InFlightGuard, LbMethod, PeerHealth, Pool, Upstream, UpstreamServer,
    MAX_IDLE_MS,
};

fn peer(addr: &str, weight: u32, backup: bool, down: bool) -> UpstreamServer {
    UpstreamServer {
        addr: addr.into(),
        weight,
        max_fails: 2,
        fail_timeout: 10_000,
        backup,
        down,
        max_conns: None,
    }
}

fn upstream(servers: Vec<UpstreamServer>, method: LbMethod) -> Upstream {
    let health = servers.iter().map(|_| PeerHealth::default()).collect();
    Upstream {
        name: "test".into(),
        servers,
        method,
        keepalive: 0,
        health,
    }
}

#[test]
fn healthy_peers_are_selected() {
    let up = upstream(vec![peer("a", 1, false, false), peer("b", 1, false, false)], LbMethod::RoundRobin);
    let now: u64 = 0;
    assert!(select(&up, now, None, 0).is_some());
}

#[test]
fn failures_take_a_peer_out_after_max_fails() {
    let mut up = upstream(vec![peer("a", 1, false, false), peer("b", 1, false, false)], LbMethod::RoundRobin);
    let now: u64 = 0;
    // max_fails = 2: one failure is not enough.
    up.health[0].record_failure(0, 2, 10_000);
    assert_eq!(select(&up, now, None, 0), Some(0), "one failure must not eject");
    up.health[0].record_failure(1, 2, 10_000);
    // Now peer 0 is out and every selection must land on peer 1.
    for cursor in 0..8 {
        assert_eq!(select(&up, now, None, cursor), Some(1), "dead peer must be skipped");
    }
}

#[test]
fn a_peer_returns_after_fail_timeout() {
    let mut up = upstream(vec![peer("a", 1, false, false), peer("b", 1, false, false)], LbMethod::RoundRobin);
    up.health[0].record_failure(0, 1, 5_000); // out until t=5000ms
    assert_eq!(select(&up, 1000, None, 0), Some(1));
    // Past the penalty window it is eligible again.
    let later: u64 = 6000;
    let picks: Vec<_> = (0..4).map(|c| select(&up, later, None, c)).collect();
    assert!(picks.contains(&Some(0)), "peer must return after fail_timeout: {picks:?}");
}

#[test]
fn success_clears_the_failure_count() {
    let mut up = upstream(vec![peer("a", 1, false, false)], LbMethod::RoundRobin);
    up.health[0].record_failure(0, 2, 10_000);
    up.health[0].record_success();
    // The earlier failure is forgotten, so one more must not eject.
    up.health[0].record_failure(1, 2, 10_000);
    assert!(!up.health[0].is_down(2), "count must have restarted after success");
}

#[test]
fn failures_outside_the_window_do_not_accumulate() {
    let mut up = upstream(vec![peer("a", 1, false, false)], LbMethod::RoundRobin);
    up.health[0].record_failure(0, 3, 1_000);
    // Well past the window: this starts a new one rather than adding on.
    up.health[0].record_failure(50_000, 3, 1_000);
    up.health[0].record_failure(50_100, 3, 1_000);
    assert!(!up.health[0].is_down(50_200), "stale failures must expire");
}

#[test]
fn backups_are_used_only_when_primaries_are_down() {
    let mut up = upstream(
        vec![peer("primary", 1, false, false), peer("backup", 1, true, false)],
        LbMethod::RoundRobin,
    );
    let now: u64 = 0;
    assert_eq!(select(&up, now, None, 0), Some(0), "primary preferred");
    up.health[0].record_failure(0, 1, 10_000);
    assert_eq!(select(&up, now, None, 0), Some(1), "backup takes over");
}

#[test]
fn everything_down_still_attempts_recovery() {
    // Refusing to try would turn a transient outage into a permanent one.
    let mut up = upstream(vec![peer("a", 1, false, false), peer("b", 1, false, false)], LbMethod::RoundRobin);
    up.health[0].record_failure(0, 1, 10_000);
    up.health[1].record_failure(0, 1, 10_000);
    assert!(select(&up, 0, None, 0).is_some(), "must still try someone");
}

#[test]
fn explicitly_down_servers_are_never_selected() {
    let up = upstream(
        vec![peer("off", 1, false, true), peer("on", 1, false, false)],
        LbMethod::RoundRobin,
    );
    for c in 0..8 {
        assert_eq!(select(&up, 0, None, c), Some(1));
    }
}

#[test]
fn least_conn_prefers_the_idle_peer() {
    let mut up = upstream(
        vec![peer("busy", 1, false, false), peer("idle", 1, false, false)],
        LbMethod::LeastConn,
    );
    let _g1 = InFlightGuard::enter(&mut up.health[0]);
    let _g2 = InFlightGuard::enter(&mut up.health[0]);
    assert_eq!(up.health[0].in_flight(), 2);
    assert_eq!(select(&up, 0, None, 0), Some(1), "least loaded must win");
}

#[test]
fn in_flight_count_is_released_on_drop() {
    let mut up = upstream(vec![peer("a", 1, false, false)], LbMethod::LeastConn);
    {
        let g = InFlightGuard::enter(&mut up.health[0]);
        assert_eq!(up.health[0].in_flight(), 1);
        g.leave(&mut up.health[0]);
    }
    assert_eq!(up.health[0].in_flight(), 0, "leaving must release");
}

#[test]
fn least_conn_respects_weight() {
    let mut up = upstream(
        vec![peer("light", 1, false, false), peer("heavy", 2, false, false)],
        LbMethod::LeastConn,
    );
    // An idle peer always wins, whatever the weights — sending work to a
    // server doing nothing is the point of least_conn.
    let _a = InFlightGuard::enter(&mut up.health[1]);
    assert_eq!(select(&up, 0, None, 0), Some(0), "idle peer wins");

    // With both busy, weight decides: heavy carries 1 connection against
    // light's 1, but has twice the capacity, so it takes the next one.
    let _b = InFlightGuard::enter(&mut up.health[0]);
    assert_eq!(select(&up, 0, None, 0), Some(1), "weight breaks the tie");
}

#[test]
fn round_robin_honours_weight() {
    let up = upstream(
        vec![peer("a", 1, false, false), peer("b", 3, false, false)],
        LbMethod::RoundRobin,
    );
    let now: u64 = 0;
    let picks: Vec<usize> = (0..8).map(|c| select(&up, now, None, c).unwrap()).collect();
    let b_share = picks.iter().filter(|&&i| i == 1).count();
    assert_eq!(b_share, 6, "weight 3 vs 1 should take 3/4 of requests: {picks:?}");
}

#[test]
fn ip_hash_is_stable_for_the_same_client() {
    let up = upstream(
        vec![peer("a", 1, false, false), peer("b", 1, false, false), peer("c", 1, false, false)],
        LbMethod::IpHash,
    );
    let now: u64 = 0;
    let first = select(&up, now, Some(12345), 0);
    for _ in 0..10 {
        assert_eq!(select(&up, now, Some(12345), 0), first, "same client must be sticky");
    }
}

#[test]
fn a_hash_picks_among_the_healthy() {
    let mut up = upstream(
        vec![peer("a", 1, false, false), peer("b", 1, false, false), peer("c", 1, false, false)],
        LbMethod::IpHash,
    );
    assert_eq!(select(&up, 0, Some(7), 0), Some(1));
    up.health[1].record_failure(0, 1, 10_000);
    assert_eq!(select(&up, 0, Some(7), 0), Some(2));
}

#[test]
fn an_upstream_without_servers_selects_nobody() {
    assert_eq!(select(&upstream(vec![], LbMethod::RoundRobin), 0, None, 0), None);
    let off = upstream(vec![peer("off", 1, false, true)], LbMethod::RoundRobin);
    assert_eq!(select(&off, 0, None, 0), None);
}

#[test]
fn zero_max_fails_never_ejects() {
    let mut h = PeerHealth::default();
    for t in 0..10 {
        h.record_failure(t, 0, 10_000);
    }
    assert!(!h.is_down(5));
}

#[test]
fn the_pool_gives_back_the_freshest_live_stream() {
    let mut pool: Pool<u32> = Pool::new();
    put(&mut pool, "a:80", 1, 2, 0);
    put(&mut pool, "a:80", 2, 2, 10);
    put(&mut pool, "b:80", 9, 2, 10);
    assert_eq!(pooled(&pool, "a:80"), 2);
    assert_eq!(take(&mut pool, "a:80", 20, |s| *s != 2), Some(1), "a dead stream is skipped");
    assert_eq!(pooled(&pool, "a:80"), 0);
    assert_eq!(pooled(&pool, "b:80"), 1, "other peers are untouched");
}

#[test]
fn the_pool_never_holds_more_than_keepalive() {
    let mut pool: Pool<u32> = Pool::new();
    for i in 0..10 {
        put(&mut pool, "a:80", i, 3, i as u64);
        assert!(pooled(&pool, "a:80") <= 3);
    }
    put(&mut pool, "off:80", 1, 0, 0);
    assert_eq!(pooled(&pool, "off:80"), 0, "keepalive off keeps nothing");
}

#[test]
fn idle_streams_age_out() {
    let mut pool: Pool<u32> = Pool::new();
    put(&mut pool, "a:80", 1, 4, 0);
    assert_eq!(take(&mut pool, "a:80", MAX_IDLE_MS + 1, |_| true), None);
}

#[test]
fn the_status_document_lists_groups_by_name_with_the_state_of_each_peer() {
    let mut b = upstream(vec![peer("10.0.0.1:80", 2, false, false), peer("10.0.0.2:80", 1, true, true)], LbMethod::RoundRobin);
    b.name = "web".into();
    b.health[0].record_failure(0, 1, 10_000);
    let mut a = upstream(vec![peer("unix:/run/\"a\".sock", 1, false, false)], LbMethod::LeastConn);
    a.name = "api".into();
    let _guard = InFlightGuard::enter(&mut a.health[0]);
    let mut c = init(None);
    accepted(&mut c);
    request_done(&mut c);
    let text = json_body(&c, &vec![b, a], &vec![5, 5]);
    let expected = "{\n  \"connections\": {\"active\": 1, \"accepts\": 1, \"handled\": 1, \"requests\": 1, \
\"reading\": 0, \"writing\": 0, \"waiting\": 0},\n  \"upstreams\": {\n    \"api\": [\n      \
{\"server\": \"unix:/run/\\\"a\\\".sock\", \"state\": \"up\", \"in_flight\": 1, \"weight\": 1, \"backup\": false}\n    ],\n    \
\"web\": [\n      {\"server\": \"10.0.0.1:80\", \"state\": \"unhealthy\", \"in_flight\": 0, \"weight\": 2, \"backup\": false},\n      \
{\"server\": \"10.0.0.2:80\", \"state\": \"down\", \"in_flight\": 0, \"weight\": 1, \"backup\": true}\n    ]\n  }\n}\n";
    assert_eq!(text, expected);
}

#[test]
fn when_all_are_out_the_least_recently_failed_is_tried() {
    let mut up = upstream(vec![peer("a", 1, false, false), peer("b", 1, false, false)], LbMethod::RoundRobin);
    up.health[0].record_failure(0, 1, 10_000);
    up.health[1].record_failure(100, 1, 1_000);
    // `b` comes back sooner, but `a` failed longer ago.
    for cursor in 0..4 {
        assert_eq!(select(&up, 200, None, cursor), Some(0));
    }
}

#[test]
fn another_peer_is_chosen_besides_those_tried() {
    let up = upstream(
        vec![peer("a", 1, false, false), peer("b", 1, false, true), peer("c", 1, false, false)],
        LbMethod::RoundRobin,
    );
    assert_eq!(peers_in_service(&up), 2);
    for cursor in 0..4 {
        assert_eq!(select_besides(&up, 0, None, cursor, &vec![0]), Some(2));
        assert_eq!(select_besides(&up, 0, None, cursor, &vec![2]), Some(0));
        assert_eq!(select_besides(&up, 0, None, cursor, &vec![0, 2]), None);
    }
}
