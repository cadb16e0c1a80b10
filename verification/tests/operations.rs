use oxiserve::config::{Addr, ListenAddr, MapConf, Part, ProxyTarget, ServerName, Template, Var};
use oxiserve::conn::ReadEvent;
use oxiserve::fcache::{Cache, Cached, OpenFileCache};
use oxiserve::log::{opens_error_log, reopen_if_asked, sends_from, ErrorOut, LogLevel, Logs, Sink};
use oxiserve::preread::Hello;
use oxiserve::quic::{alpn_h3, idle_timeout};
use oxiserve::server::{
    alpn_protocols, control, core_for, drains, first_conn_id, goes_on_without, is_serious, peek_preface, peek_read,
    plan_sockets, probes_peers, protocol, prunes_caches, resolve, run, serves_anything,
    shutdown_signal, signal_master, sweep_interval, AcceptFailure, Certificate, Child, Control,
    Held, Listen, LiveRequests, MasterStep, Peeked, Protocol, Serving, SignalError, SocketPlan, StopKind,
    Supervisor, Task, Waited, WorkerSignal, worker_tasks,
};
use oxiserve::stream::{
    is_peer_failure, look, preread_ended, resolve_target, Copying, Look, Pick, Relay, RelayAsk, RelayConf,
    RelayEvent, RelayStage, StreamVars,
};
use oxiserve::transport::{
    connect, is_reusable, is_shut, pending, unlink_stale_socket, Attempt, Clearing, Dial, Found,
    Pending,
};
use oxiserve::udp::{self, Session, SessionEvent};

// ---------------------------------------------------------------- open files

fn params(max: usize, valid_ms: u64) -> OpenFileCache {
    OpenFileCache { enabled: true, max, inactive: 60_000, valid: valid_ms, min_uses: 1, errors: false }
}

/// The size of the file behind a path, through the cache: what is kept is used,
/// what is not is looked at and kept.
fn lookup(c: &mut Cache<()>, path: &str, on_disk: Option<u64>, p: &OpenFileCache, now: u64) -> Result<u64, u16> {
    let i = match c.get(path.as_bytes(), p, now) {
        Some(i) => Some(i),
        None => {
            let val = match on_disk {
                Some(size) => Cached::File { file: (), size, mtime_secs: 0, mtime_nanos: 0 },
                None => Cached::Error(404),
            };
            c.put(path.as_bytes(), val, p, now);
            None
        }
    };
    match i {
        Some(i) => match &c.entries[i].val {
            Cached::File { size, .. } => Ok(*size),
            Cached::Dir => Err(0),
            Cached::Error(s) => Err(*s),
        },
        None => on_disk.ok_or(404),
    }
}

#[test]
fn hit_serves_the_cached_metadata() {
    let mut c = Cache::new();
    let ofc = params(16, 60_000);
    assert_eq!(lookup(&mut c, "hit.txt", Some(5), &ofc, 0), Ok(5));
    // Grow the file; within `valid` the cache must still report the old size.
    let size = lookup(&mut c, "hit.txt", Some(10), &ofc, 10);
    assert_eq!(size, Ok(5), "size change must not be visible within valid window");
}

#[test]
fn expiry_revalidates() {
    let mut c = Cache::new();
    let ofc = params(16, 50); // 50ms validity
    assert_eq!(lookup(&mut c, "expire.txt", Some(3), &ofc, 0), Ok(3));
    let size = lookup(&mut c, "expire.txt", Some(6), &ofc, 80);
    assert_eq!(size, Ok(6), "entry must re-validate after valid expires");
}

#[test]
fn disabled_cache_sees_changes_immediately() {
    let mut c = Cache::new();
    let mut ofc = params(16, 60_000);
    ofc.enabled = false;
    assert_eq!(lookup(&mut c, "nocache.txt", Some(1), &ofc, 0), Ok(1));
    assert_eq!(lookup(&mut c, "nocache.txt", Some(2), &ofc, 0), Ok(2));
    assert_eq!(c.len(), 0, "disabled cache must not store entries");
}

#[test]
fn errors_cached_only_when_asked() {
    // errors off: the miss is not cached, so the file is found once created.
    let mut c = Cache::new();
    let off = params(16, 60_000);
    assert_eq!(lookup(&mut c, "appears-later.txt", None, &off, 0), Err(404));
    assert_eq!(lookup(&mut c, "appears-later.txt", Some(4), &off, 0), Ok(4));

    // errors on: the 404 sticks until validity expires.
    let mut c = Cache::new();
    let mut on = params(16, 60_000);
    on.errors = true;
    assert_eq!(lookup(&mut c, "appears-later.txt", None, &on, 0), Err(404));
    assert_eq!(
        lookup(&mut c, "appears-later.txt", Some(4), &on, 0),
        Err(404),
        "with errors on, the cached 404 must persist within valid"
    );
}

#[test]
fn eviction_bounds_the_cache() {
    let mut c = Cache::new();
    let ofc = params(4, 60_000);
    for i in 0..12 {
        let _ = lookup(&mut c, &format!("evict-{i}.txt"), Some(1), &ofc, i);
    }
    assert!(c.len() <= 4, "cache exceeded max: {}", c.len());
}

#[test]
fn a_kept_result_is_given_until_it_is_too_old() {
    let mut c = Cache::new();
    let mut ofc = params(16, 100);
    ofc.inactive = 60;
    assert_eq!(lookup(&mut c, "f", Some(1), &ofc, 0), Ok(1));
    assert_eq!(lookup(&mut c, "f", Some(2), &ofc, 50), Ok(1));
    assert_eq!(lookup(&mut c, "f", Some(3), &ofc, 100), Ok(1), "used at 50, looked at 0");
    assert_eq!(lookup(&mut c, "f", Some(4), &ofc, 101), Ok(4), "past its time");
    assert_eq!(lookup(&mut c, "f", Some(5), &ofc, 162), Ok(5), "not used for too long");
    assert_eq!(c.len(), 1);
}

#[test]
fn directories_are_classified() {
    let mut c: Cache<()> = Cache::new();
    let ofc = params(16, 60_000);
    c.put(b"subdir", Cached::Dir, &ofc, 0);
    let i = c.get(b"subdir", &ofc, 1).unwrap();
    assert!(matches!(c.entries[i].val, Cached::Dir));
}

#[test]
fn the_least_recently_used_goes_first() {
    let mut c = Cache::new();
    let ofc = params(2, 60_000);
    let _ = lookup(&mut c, "a", Some(1), &ofc, 0);
    let _ = lookup(&mut c, "b", Some(1), &ofc, 1);
    let _ = lookup(&mut c, "a", Some(1), &ofc, 2);
    let _ = lookup(&mut c, "c", Some(1), &ofc, 3);
    assert!(c.get(b"a", &ofc, 4).is_some());
    assert!(c.get(b"b", &ofc, 4).is_none());
}

// ---------------------------------------------------------------- logs

#[test]
fn unbuffered_writes_land_immediately() {
    let mut s = Sink::new(b"a.log", 0, None, 0);
    assert_eq!(s.write_line(b"hello", 0), b"hello\n");
}

#[test]
fn buffered_writes_wait_for_the_threshold() {
    let mut s = Sink::new(b"b.log", 64, None, 0);
    let mut contents = s.write_line(b"one", 0);
    assert_eq!(contents, b"", "should still be buffered");
    // Push past the 64-byte cap.
    for _ in 0..10 {
        contents.extend(s.write_line(b"0123456789", 0));
    }
    assert!(contents.starts_with(b"one\n"), "{contents:?}");
}

#[test]
fn flush_writes_the_remainder() {
    let mut s = Sink::new(b"c.log", 4096, None, 0);
    assert_eq!(s.write_line(b"pending", 0), b"");
    assert_eq!(s.flush(0), b"pending\n");
    assert_eq!(s.flush(0), b"");
}

#[test]
fn a_flush_falls_due() {
    let mut s = Sink::new(b"d.log", 4096, Some(1000), 0);
    s.write_line(b"x", 10);
    assert_eq!(s.flush_if_due(999), b"");
    assert_eq!(s.flush_if_due(1000), b"x\n");
    assert_eq!(s.flush_if_due(5000), b"");
}

#[test]
fn error_level_filtering() {
    let mut l = Logs::new(false, Some(b"e.log"), LogLevel::Error, 0);
    let mut c = Vec::new();
    for (level, msg) in [(LogLevel::Info, "quiet"), (LogLevel::Error, "loud")] {
        if let ErrorOut::File(out) = l.error(level, b"2024/01/01 00:00:00", 7, msg.as_bytes(), 0) {
            c.extend(out);
        }
    }
    let c = String::from_utf8(c).unwrap();
    assert!(!c.contains("quiet"), "{c}");
    assert!(c.contains("loud"), "{c}");
    assert!(c.contains("[error]"), "{c}");
    assert_eq!(c, "2024/01/01 00:00:00 [error] 7: loud\n");
}

#[test]
fn errors_go_where_they_are_configured() {
    let mut l = Logs::new(false, None, LogLevel::Warn, 0);
    assert!(matches!(l.error(LogLevel::Crit, b"t", 1, b"m", 0), ErrorOut::Stderr(_)));
    let mut l = Logs::new(true, None, LogLevel::Debug, 0);
    assert!(matches!(l.error(LogLevel::Emerg, b"t", 1, b"m", 0), ErrorOut::Nothing));
}

#[test]
fn access_logs_are_kept_apart() {
    let mut l = Logs::new(true, None, LogLevel::Error, 0);
    l.open_access(Sink::new(b"a", 0, None, 0));
    l.open_access(Sink::new(b"b", 100, None, 0));
    l.open_access(Sink::new(b"a", 9, None, 0));
    assert_eq!(l.access.len(), 2);
    assert_eq!(l.access(b"a", b"1", 0), b"1\n");
    assert_eq!(l.access(b"b", b"2", 0), b"");
    assert_eq!(l.access(b"nowhere", b"3", 0), b"");
    assert_eq!(l.find(b"b"), Some(1));
    assert_eq!(l.flush_all(0), vec![b"".to_vec(), b"2\n".to_vec()]);
}

#[test]
fn dropped_datagrams_are_counted() {
    let mut l = Logs::new(true, None, LogLevel::Error, 0);
    l.open_oxidb(b"db:1");
    l.access_oxidb(b"db:1", true);
    l.access_oxidb(b"db:1", false);
    l.access_oxidb(b"db:1", false);
    assert_eq!(l.dropped(b"db:1"), 2);
    assert_eq!(l.dropped(b"db:2"), 0);
}

#[test]
fn a_reopen_is_asked_for_once() {
    let mut asked = true;
    assert!(reopen_if_asked(&mut asked));
    assert!(!reopen_if_asked(&mut asked));
}

// ---------------------------------------------------------------- sockets

#[test]
fn missing_path_is_not_an_error() {
    assert_eq!(unlink_stale_socket(Found::Missing), Clearing::Clear);
}

#[test]
fn stale_socket_is_removed() {
    assert_eq!(unlink_stale_socket(Found::Socket), Clearing::Remove);
}

#[test]
fn a_regular_file_is_never_deleted() {
    // Guards against `listen unix:/etc/passwd` destroying data.
    assert_eq!(unlink_stale_socket(Found::Other), Clearing::Refuse);
    assert_eq!(unlink_stale_socket(Found::Unreadable), Clearing::Fail);
}

#[test]
fn addresses_name_their_transport() {
    assert!(matches!(connect(b"unix:/run/x"), Dial::Unix(b"/run/x")));
    assert!(matches!(connect(b"host:80"), Dial::Tcp(b"host:80")));
}

#[test]
fn attempts_are_judged() {
    assert!(is_reusable(Attempt::WouldBlock));
    assert!(!is_reusable(Attempt::Done(0)), "the peer closed");
    assert_eq!(pending(Attempt::Done(3)), Pending::Ready(3));
    assert_eq!(pending(Attempt::WouldBlock), Pending::Register);
    assert_eq!(pending(Attempt::Interrupted), Pending::Retry);
    assert_eq!(pending(Attempt::Failed), Pending::Fail);
    assert!(is_shut(Attempt::NotConnected));
    assert!(!is_shut(Attempt::Failed));
}

fn tcp(a: &str) -> ListenAddr {
    ListenAddr::Tcp(a.as_bytes().to_vec())
}

#[test]
fn held_sockets_are_taken_over() {
    let ls = vec![
        Listen { addr: tcp("0.0.0.0:80"), reuseport: false },
        Listen { addr: tcp("0.0.0.0:81"), reuseport: false },
        Listen { addr: tcp("0.0.0.0:82"), reuseport: true },
    ];
    let held = vec![
        Held { addr: tcp("0.0.0.0:80"), bound: true },
        Held { addr: tcp("0.0.0.0:81"), bound: false },
    ];
    assert_eq!(
        plan_sockets(&ls, &held, true),
        vec![SocketPlan::Take(0), SocketPlan::Bind, SocketPlan::PerWorker]
    );
    assert_eq!(plan_sockets(&ls, &held, false)[2], SocketPlan::Bind);
}

// ---------------------------------------------------------------- processes

#[test]
fn signals_are_named() {
    assert_eq!(control(b"reload"), Some(Control::Reload));
    assert!(matches!(signal_master(b"quit", b" 123\n"), Ok((Control::Quit, 123))));
    assert!(matches!(signal_master(b"explode", b"1"), Err(SignalError::InvalidOption)));
    assert!(matches!(signal_master(b"stop", b"abc"), Err(SignalError::InvalidPid)));
}

#[test]
fn workers_are_laid_out() {
    assert_eq!(core_for(5, 4), Some(1));
    assert_eq!(core_for(5, 0), None);
    assert!(run(4, true, false));
    assert!(!run(1, true, false));
    assert!(!run(4, true, true));
    assert_eq!(first_conn_id(2), 2 << 56);
    assert!(serves_anything(false, true));
    assert!(!serves_anything(false, false));
    assert!(probes_peers(0, false) && probes_peers(3, true) && !probes_peers(3, false));
    assert!(prunes_caches(0) && !prunes_caches(1));
    assert_eq!(sweep_interval(600_000), 60_000);
    assert_eq!(sweep_interval(1), 10_000);
    assert_eq!(sweep_interval(u64::MAX), 300_000);
}

fn supervisor() -> Supervisor {
    Supervisor::new(vec![Child { pid: 10, worker: 0 }, Child { pid: 11, worker: 1 }])
}

#[test]
fn dead_workers_come_back() {
    let mut s = supervisor();
    assert!(matches!(s.waited(Waited::Exited(11)), MasterStep::Respawn(1)));
    s.respawned(12, 1);
    assert_eq!(s.children.len(), 2);
    assert!(matches!(s.waited(Waited::Exited(999)), MasterStep::Wait));
    assert!(matches!(s.waited(Waited::Interrupted), MasterStep::Wait));
    assert!(matches!(s.waited(Waited::Failed), MasterStep::Fail));
}

#[test]
fn a_reload_retires_the_old_workers() {
    let mut s = supervisor();
    assert!(s.reload(None).is_empty(), "a failed reload changes nothing");
    assert_eq!(s.children.len(), 2);
    let told = s.reload(Some(vec![Child { pid: 20, worker: 0 }]));
    assert_eq!(told, vec![10, 11]);
    assert!(matches!(s.waited(Waited::Exited(10)), MasterStep::Wait), "it stays gone");
    assert_eq!(s.everyone(), vec![20, 11]);
}

#[test]
fn a_stopping_master_waits_for_everyone() {
    let mut s = supervisor();
    s.stopping = true;
    assert!(matches!(s.waited(Waited::Interrupted), MasterStep::QuitAll));
    assert!(matches!(s.waited(Waited::Exited(10)), MasterStep::Wait));
    assert!(matches!(s.waited(Waited::Exited(11)), MasterStep::End));
    assert!(matches!(s.waited(Waited::NoChildren), MasterStep::End));
}

#[test]
fn a_worker_drains_before_it_ends() {
    assert_eq!(shutdown_signal(WorkerSignal::Quit), Some(StopKind::Graceful));
    assert_eq!(shutdown_signal(WorkerSignal::Terminate), Some(StopKind::Now));
    assert_eq!(shutdown_signal(WorkerSignal::Reopen), None);
    let mut live = LiveRequests { count: 0 };
    live.enter();
    assert!(drains(live.count, 0, 30_000));
    assert!(!drains(live.count, 30_000, 30_000));
    live.leave();
    assert!(!drains(live.count, 0, 30_000));
    assert!(is_serious(AcceptFailure::Other) && !is_serious(AcceptFailure::Aborted));
}

// ---------------------------------------------------------------- protocols

#[test]
fn the_preface_is_recognised() {
    let preface = b"PRI * HTTP/2.0\r\n\r\nSM\r\n\r\n";
    assert_eq!(peek_preface(preface), Peeked::Http2);
    assert_eq!(peek_preface(b""), Peeked::Read(24));
    assert_eq!(peek_preface(b"PRI * H"), Peeked::Read(17));
    assert_eq!(peek_preface(b"PUT /"), Peeked::Http1);
    assert_eq!(peek_read(ReadEvent::Got(0)), Some(true));
    assert_eq!(peek_read(ReadEvent::Got(5)), None);
    assert_eq!(protocol(true, Some(b"h2"), true), Protocol::Http2);
    assert_eq!(protocol(true, None, true), Protocol::Http1);
    assert_eq!(protocol(false, None, true), Protocol::Peek);
    assert_eq!(protocol(false, None, false), Protocol::Http1);
    assert_eq!(alpn_protocols(true), vec![b"h2".to_vec(), b"http/1.1".to_vec()]);
    assert_eq!(alpn_h3(), b"h3");
    assert_eq!(idle_timeout(0), None);
    assert_eq!(idle_timeout(75_000), Some(75_000));
}

#[test]
fn certificates_are_found_by_name() {
    let a = Certificate::of(&vec![ServerName::Exact(b"a.test".to_vec())]);
    let b = Certificate::of(&vec![ServerName::LeadingWildcard(b"b.test".to_vec())]);
    let cs = vec![a, b];
    assert_eq!(resolve(&cs, Some(b"x.b.test")), Some(1));
    assert_eq!(resolve(&cs, Some(b"A.TEST")), Some(0));
    assert_eq!(resolve(&cs, Some(b"unknown")), Some(0), "the first is the default");
    assert_eq!(resolve(&cs, None), Some(0));
    assert_eq!(resolve(&vec![], None), None);
}

// ---------------------------------------------------------------- streams and datagrams

#[test]
fn streams_route_by_server_name() {
    let maps = vec![MapConf {
        target: b"backend".to_vec(),
        source: Var::SslPrereadServerName,
        hostnames: false,
        exact: vec![oxiserve::config::ExactEntry {
            key: b"db.test".to_vec(),
            value: Template { parts: vec![Part::Literal(b"group".to_vec())] },
        }],
        wildcards: vec![],
        regexes: vec![],
        fallback: None,
    }];
    let remote = Some(Addr::V4 { a: 1, b: 2, c: 3, d: 4, port: 5 });
    let hello = Hello { server_name: "db.test".into(), ..Hello::default() };
    let target =
        ProxyTarget::Dynamic(Template { parts: vec![Part::Variable(Var::User(b"backend".to_vec()))] });
    let vars = StreamVars { maps: &maps, remote: &remote, hello: Some(&hello) };
    let groups = vec![b"group".to_vec()];
    assert!(matches!(resolve_target(&vars, &target, &groups), Pick::Group(g) if g == b"group"));
    assert!(matches!(resolve_target(&vars, &target, &vec![]), Pick::Address(a) if a == b"group:80"));
    let vars = StreamVars { maps: &maps, remote: &remote, hello: None };
    assert!(matches!(resolve_target(&vars, &target, &groups), Pick::Nowhere));
}

#[test]
fn a_preread_stays_within_its_buffer() {
    assert!(matches!(look(b"GET / HTTP/1.1", 16384), Look::Without));
    assert!(matches!(look(b"", 16384), Look::Read(4096)));
    assert!(matches!(look(b"\x16\x03\x01", 5), Look::Read(2)));
    assert!(matches!(look(b"\x16\x03\x01", 3), Look::Without));
    assert!(preread_ended(ReadEvent::Got(0)) && preread_ended(ReadEvent::TimedOut));
    assert!(!preread_ended(ReadEvent::Got(1)));
}

#[test]
fn a_connection_to_a_group_tells_about_its_peer() {
    let (maps, remote, groups) = (vec![], None, vec![b"db".to_vec()]);
    let target = ProxyTarget::Upstream(b"db".to_vec());
    let conf = RelayConf {
        maps: &maps,
        remote: &remote,
        target: &target,
        groups: &groups,
        ssl_preread: false,
        preread_buffer_size: 16384,
    };
    let (mut r, ask) = Relay::start(&conf);
    assert!(matches!(ask, RelayAsk::Choose(g) if g == b"db"));
    let ask = r.next(&conf, b"", RelayEvent::Chosen(Some(b"10.0.0.1")));
    assert!(matches!(ask, RelayAsk::Connect(a) if a == b"10.0.0.1:80"));
    let refused = r;
    assert!(matches!(r.next(&conf, b"", RelayEvent::Connected(true)), RelayAsk::Copy));
    let silent = RelayEvent::Copied { sent: 4, received: 0 };
    let mut other = r;
    assert!(matches!(r.next(&conf, b"", silent), RelayAsk::Report(false)));
    assert_eq!(r.stage, RelayStage::Done);
    let answered = RelayEvent::Copied { sent: 4, received: 9 };
    assert!(matches!(other.next(&conf, b"", answered), RelayAsk::Report(true)));
    // A peer that cannot be reached has failed.
    let mut r = refused;
    assert!(matches!(r.next(&conf, b"", RelayEvent::Connected(false)), RelayAsk::Report(false)));
    // Without a live peer there is nothing to report.
    let (mut r, _) = Relay::start(&conf);
    assert!(matches!(r.next(&conf, b"", RelayEvent::Chosen(None)), RelayAsk::Close));
}

#[test]
fn a_client_that_does_not_speak_tls_is_served_all_the_same() {
    let (maps, remote, groups) = (vec![], None, vec![]);
    let target = ProxyTarget::Addr { host: b"h".to_vec(), port: 25 };
    let conf = RelayConf {
        maps: &maps,
        remote: &remote,
        target: &target,
        groups: &groups,
        ssl_preread: true,
        preread_buffer_size: 100,
    };
    let (mut r, ask) = Relay::start(&conf);
    assert!(matches!(ask, RelayAsk::Read(100)));
    let mut slow = r;
    let ask = r.next(&conf, b"EHLO x", RelayEvent::Read(ReadEvent::Got(6)));
    assert!(matches!(ask, RelayAsk::Connect(a) if a == b"h:25"));
    let ask = slow.next(&conf, b"", RelayEvent::Read(ReadEvent::TimedOut));
    assert!(matches!(ask, RelayAsk::Connect(a) if a == b"h:25"));
    // An address of no group is not reported on.
    assert!(matches!(r.next(&conf, b"", RelayEvent::Connected(false)), RelayAsk::Close));
}

#[test]
fn copying_counts_what_was_passed_on() {
    let mut c = Copying::start(10, true);
    c.next(ReadEvent::Got(5), true);
    assert_eq!((c.total, c.open), (15, true));
    c.next(ReadEvent::Got(0), true);
    assert_eq!((c.total, c.open), (15, false));
    assert!(!Copying::start(10, false).open);
    assert!(is_peer_failure(5, 0) && !is_peer_failure(0, 0) && !is_peer_failure(5, 1));
}

#[test]
fn enough_replies_end_a_session() {
    let mut s = Session::new();
    let step = s.next(SessionEvent::FromClient { passed: true }, Some(1));
    assert!(step.goes_on);
    let step = s.next(SessionEvent::FromPeer { passed: true }, Some(1));
    assert_eq!((step.goes_on, step.health), (false, Some(true)));
}

#[test]
fn silence_is_a_failure_unless_expected() {
    let mut s = Session::new();
    s.next(SessionEvent::FromClient { passed: true }, None);
    assert_eq!(s.next(SessionEvent::Idle, None).health, Some(false));
    assert_eq!(s.next(SessionEvent::Idle, Some(0)).health, None);
    assert_eq!(Session::new().next(SessionEvent::Unreachable, None).health, Some(false));
    assert!(udp::bind(&tcp("0.0.0.0:53")).is_ok());
    assert!(udp::bind(&ListenAddr::Unix(b"/s".to_vec())).is_err());
}

#[test]
fn every_worker_listens_and_the_first_looks_after_the_rest() {
    let s = Serving {
        listeners: 1,
        quic: vec![false, true],
        udp_listeners: 1,
        stream_listeners: 1,
        checked: vec![true, false, true],
        cache_zones: 1,
    };
    assert_eq!(
        worker_tasks(0, false, &s),
        vec![
            Task::Http(0),
            Task::Quic(1),
            Task::Udp(0),
            Task::Stream(0),
            Task::Probe(0),
            Task::Probe(2),
            Task::Prune(0),
            Task::FlushLogs,
        ]
    );
    assert_eq!(
        worker_tasks(1, false, &s),
        vec![Task::Http(0), Task::Quic(1), Task::Udp(0), Task::Stream(0), Task::FlushLogs]
    );
    // A process holds what its probes find for itself, and the caches stay with the first.
    let own = worker_tasks(1, true, &s);
    assert!(own.contains(&Task::Probe(2)));
    assert!(!own.contains(&Task::Prune(0)));
    assert!(goes_on_without(Task::Quic(1)));
    assert!(goes_on_without(Task::Udp(0)));
    assert!(!goes_on_without(Task::Http(0)));
    assert!(!goes_on_without(Task::Stream(0)));
}

#[test]
fn signals_are_seen_before_waiting() {
    let mut sup = Supervisor::new(vec![Child { pid: 10, worker: 0 }, Child { pid: 11, worker: 1 }]);
    sup.retiring = vec![7];
    let asked = sup.signalled(false, 1, 2);
    assert!(asked.reload);
    assert_eq!(asked.reopen, vec![10, 11, 7]);
    let asked = sup.signalled(false, 0, 0);
    assert!(!asked.reload);
    assert_eq!(asked.reopen, Vec::<i32>::new());
    // A master that stops does not reload.
    assert!(!sup.signalled(true, 1, 0).reload);
    assert!(sup.stopping);
    assert_eq!(sup.waited(Waited::Interrupted), MasterStep::QuitAll);
}

#[test]
fn connection_numbers_start_apart() {
    assert_eq!(first_conn_id(0), 0);
    assert_eq!(first_conn_id(255), 255 << 56);
    assert_eq!(first_conn_id(256), 0);
}

#[test]
fn the_error_stream_is_no_file() {
    assert!(opens_error_log(false, b"/var/log/error.log"));
    assert!(!opens_error_log(false, b"stderr"));
    assert!(!opens_error_log(false, b"/dev/stderr"));
    assert!(!opens_error_log(true, b"/var/log/error.log"));
    assert_eq!(sends_from(b"[::1]:9000"), "[::]:0");
    assert_eq!(sends_from(b"127.0.0.1:9000"), "0.0.0.0:0");
}
