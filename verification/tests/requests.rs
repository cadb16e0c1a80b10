use oxiserve::autoindex::{self, DirEntry};
use oxiserve::cache::{decode_entry, CacheStatus, Decoded};
use oxiserve::cache_index::StaleWhen;
use oxiserve::config::{
    Action, AddHeader, Addr, CacheValid, Clock, Cond, CoreConf, DefaultPage, Env, ErrorPage,
    ErrorTarget, ExactEntry, Expires, FastCgiConf, FastCgiParam, Gzip, IfAction, IfBlock,
    IfModifiedSince, Location, MapConf, Part, ProxyCacheConf, ProxyConf, ProxyPass, ProxyTarget,
    RegexEntry, Req, Rewrite, RewriteFlag, ServerConf, ServerName, SetDirective, Template,
    TryFallback, TryFiles, Var, WildcardEntry,
};
use oxiserve::conn::ReadEvent;
use oxiserve::ctx::{map_literal, map_lookup, Ctx, LogVars};
use oxiserve::decorate::{
    apply_expires, compressed_reply, decorate, expires_at, maybe_gzip, wants_gzip,
};
use oxiserve::fastcgi::{
    build_params, build_request, complete_reply, parse_cgi_headers, set_script,
    split_script_and_path_info, BodyStep, Collected, Collector, FcgiBody,
};
use oxiserve::fcache::OpenFileCache;
use oxiserve::fcgi_proto::{parse_record, push_nv_pair, push_record, RecordType};
use oxiserve::files::{
    dir_redirect, evaluate_preconditions, index_paths, make_body, map_path, resolve, serve_directory,
    serve_file, wants_map, Dates, FileInfo, Mtime, Served,
};
use oxiserve::handler::{
    absolute_url, act, apply_limit, apply_rewrite, auth_done, auth_headers, auth_subrequest, cond_path, error_page_for,
    error_reply, eval_cond, finish, gate, limit_conn_verdict, limit_key, next_stage, return_reply,
    run_if, run_rewrites, run_try_files, set_location, try_paths, Act, Came, ErrorRoute, Flow, Hit,
    LimitVerdict, Probe, Routing, Stage, Step, Turn,
};
use oxiserve::http::{Framing, Header, Resp};
use oxiserve::limit_req::Decision;
use oxiserve::modsec::{judges_body, outcome, transaction, Blocked};
use oxiserve::proxy::{
    cache_context, cacheable_ttl, cached_reply, choose_target, counts_use, entry_for, may_repeat,
    note_of, read_head, read_parts, request_head, respond, select_next_peer, select_peer,
    upstream_uri, wait_step, Cursor, HeadParts, HeadRead, NextWhen, PeerNote, ProxyAction, ProxyEvent,
    ProxyRules, ProxyRun, WaitStep,
};
use oxiserve::reply::{Body, Reply};
use oxiserve::upstream::{LbMethod, PeerHealth, Upstream, UpstreamServer};
use oxiserve::waf::{judge, Intervention, Verdict};
use std::io::{Read, Write};

type AnyBody = Body<Vec<u8>, u32, u32>;
type AnyReply = Reply<Vec<u8>, u32, u32>;

fn lit(s: &str) -> Template {
    Template { parts: vec![Part::Literal(s.as_bytes().to_vec())] }
}

fn var(v: Var) -> Template {
    Template { parts: vec![Part::Variable(v)] }
}

fn user(name: &str) -> Var {
    Var::User(name.as_bytes().to_vec())
}

fn core_conf() -> CoreConf {
    CoreConf {
        root: lit("/srv/www"),
        alias: None,
        internal: false,
        add_headers: vec![],
        expires: None,
        gzip: Gzip {
            enabled: false,
            http_version_1_0: false,
            types: vec![],
            min_length: 20,
            level: 1,
            vary: false,
        },
        limit_req_status: 503,
        limit_conn_status: 503,
        limit_conn_dry_run: false,
        auth_request: None,
        auth_request_set: vec![],
        index: vec![lit("index.html")],
        autoindex: false,
        absolute_redirect: true,
        port_in_redirect: true,
        etag: true,
        if_modified_since: IfModifiedSince::Exact,
        max_ranges: None,
        sendfile: false,
        default_type: b"application/octet-stream".to_vec(),
        charset: None,
        open_file_cache: OpenFileCache {
            enabled: false,
            max: 0,
            inactive: 0,
            valid: 0,
            min_uses: 1,
            errors: false,
        },
        moved_page: b"moved, here".to_vec(),
    }
}

fn location(prefix: &str) -> Location {
    Location {
        prefix: Some(prefix.as_bytes().to_vec()),
        core: core_conf(),
        error_pages: vec![],
        allowed_methods: None,
        rewrites: vec![],
        ifs: vec![],
        try_files: None,
        action: Action::Static,
    }
}

fn header(name: &str, value: &str) -> Header {
    Header { name: name.as_bytes().to_vec(), value: value.as_bytes().to_vec() }
}

fn env() -> Env {
    Env {
        req: Req {
            method: b"GET".to_vec(),
            target: b"/docs/a?x=1".to_vec(),
            minor: 1,
            headers: vec![
                header("Host", "Example.COM"),
                header("Cookie", "a=1; sid=xyz"),
                header("X-Forwarded-For", "10.9.9.9"),
                header("Authorization", "Basic YWxpY2U6c2VjcmV0"),
                header("Connection", "keep-alive"),
            ],
            host: b"Example.COM".to_vec(),
            head_len: 120,
            accepts_gzip: true,
        },
        body: vec![],
        maps: vec![],
        server: ServerConf {
            names: vec![ServerName::Exact(b"example.com".to_vec())],
            core: core_conf(),
            error_pages: vec![],
            alt_svc: None,
            rewrites: vec![],
            ifs: vec![],
            locations: vec![location("/docs/"), location("/secret/")],
            default_pages: vec![
                DefaultPage { code: 404, body: b"<h1>404</h1>".to_vec() },
                DefaultPage { code: 500, body: b"<h1>500</h1>".to_vec() },
                DefaultPage { code: 301, body: b"<h1>301</h1>".to_vec() },
                DefaultPage { code: 302, body: b"<h1>302</h1>".to_vec() },
            ],
            action: Action::Nothing,
        },
        remote: Some(Addr::V4 { a: 10, b: 0, c: 0, d: 7, port: 5000 }),
        local: Some(Addr::V4 { a: 127, b: 0, c: 0, d: 1, port: 8080 }),
        scheme: b"http".to_vec(),
        conn_id: 42,
        conn_requests: 3,
    }
}

fn clock() -> Clock {
    Clock {
        elapsed_us: 1_500_400,
        now_us: 1_700_000_000_123_456,
        time_local: b"14/Nov/2023:22:13:20 +0000".to_vec(),
        time_iso8601: b"2023-11-14T22:13:20+00:00".to_vec(),
        hostname: b"box".to_vec(),
        pid: 99,
        version: b"1.0".to_vec(),
    }
}

fn ctx(e: &Env) -> Ctx<'_> {
    Ctx::new(e, clock(), b"/docs/a".to_vec(), b"x=1".to_vec())
}

fn text(b: &[u8]) -> String {
    String::from_utf8(b.to_vec()).unwrap()
}

fn show(c: &Ctx<'_>, v: Var) -> String {
    text(&c.render(&var(v)))
}

// ---------------------------------------------------------------- variables

#[test]
fn request_variables_show_the_request() {
    let e = env();
    let c = ctx(&e);
    assert_eq!(show(&c, Var::Uri), "/docs/a");
    assert_eq!(show(&c, Var::RequestUri), "/docs/a?x=1");
    assert_eq!(show(&c, Var::IsArgs), "?");
    assert_eq!(show(&c, Var::Arg(b"x".to_vec())), "1");
    assert_eq!(show(&c, Var::Host), "example.com");
    assert_eq!(show(&c, Var::Request), "GET /docs/a?x=1 HTTP/1.1");
    assert_eq!(show(&c, Var::ServerProtocol), "HTTP/1.1");
    assert_eq!(show(&c, Var::ServerName), "example.com");
    assert_eq!(show(&c, Var::ServerPort), "8080");
    assert_eq!(show(&c, Var::RemoteAddr), "10.0.0.7");
    assert_eq!(show(&c, Var::RemotePort), "5000");
    assert_eq!(show(&c, Var::RemoteUser), "alice");
    assert_eq!(show(&c, Var::RequestLength), "120");
    assert_eq!(show(&c, Var::RequestTime), "1.500");
    assert_eq!(show(&c, Var::Msec), "1700000000.123");
    assert_eq!(show(&c, Var::DocumentRoot), "/srv/www");
    assert_eq!(show(&c, Var::Connection), "42");
    assert_eq!(show(&c, Var::ConnectionRequests), "3");
    assert_eq!(show(&c, Var::Pid), "99");
    assert_eq!(show(&c, Var::Http(b"x-forwarded-for".to_vec())), "10.9.9.9");
    assert_eq!(show(&c, Var::Cookie(b"sid".to_vec())), "xyz");
    assert_eq!(show(&c, Var::Https), "");
    assert_eq!(show(&c, Var::ProxyAddXForwardedFor), "10.9.9.9, 10.0.0.7");
    assert_eq!(show(&c, Var::UpstreamStatus), "");
}

#[test]
fn set_variables_read_back_and_leave_others_alone() {
    let e = env();
    let mut c = ctx(&e);
    c.set(b"a", b"1".to_vec());
    c.set(b"b", b"2".to_vec());
    c.set(b"a", b"3".to_vec());
    assert_eq!(show(&c, user("a")), "3");
    assert_eq!(show(&c, user("b")), "2");
    assert_eq!(show(&c, user("unknown")), "");
}

#[test]
fn a_user_that_is_no_text_is_repaired() {
    let mut e = env();
    // The bytes ff 3a: a broken name and a colon.
    e.req.headers = vec![header("Authorization", "Basic /zo=")];
    assert_eq!(show(&ctx(&e), Var::RemoteUser), "\u{fffd}");
}

fn a_map() -> MapConf {
    MapConf {
        target: b"kind".to_vec(),
        source: Var::Host,
        hostnames: true,
        exact: vec![ExactEntry { key: b"example.com".to_vec(), value: lit("exact") }],
        wildcards: vec![
            WildcardEntry { pattern: b"com".to_vec(), value: lit("short"), leading: true },
            WildcardEntry { pattern: b"example.com".to_vec(), value: lit("long"), leading: true },
            WildcardEntry { pattern: b"www".to_vec(), value: lit("trailing"), leading: false },
        ],
        regexes: vec![RegexEntry { pattern: "^api[0-9]+\\.".into(), value: lit("regex") }],
        fallback: Some(lit("default")),
    }
}

fn looked_up(m: &MapConf, key: &[u8]) -> String {
    match map_lookup(m, key) {
        Some(t) => match &t.parts[0] {
            Part::Literal(s) => text(s),
            Part::Variable(_) => unreachable!(),
        },
        None => String::new(),
    }
}

#[test]
fn maps_prefer_exact_then_longest_then_pattern() {
    let m = a_map();
    assert_eq!(looked_up(&m, b"Example.com"), "exact");
    assert_eq!(looked_up(&m, b"a.example.com"), "long");
    assert_eq!(looked_up(&m, b"a.other.com"), "short");
    assert_eq!(looked_up(&m, b"www.net"), "trailing");
    assert_eq!(looked_up(&m, b"api7.net"), "regex");
    assert_eq!(looked_up(&m, b"api.net"), "default");
    assert!(map_literal(&m, b"api7.net").is_none());
}

#[test]
fn maps_define_variables_and_cycles_end() {
    let mut e = env();
    e.maps = vec![
        a_map(),
        MapConf {
            target: b"loop".to_vec(),
            source: user("loop"),
            hostnames: false,
            exact: vec![],
            wildcards: vec![],
            regexes: vec![],
            fallback: Some(var(user("loop"))),
        },
    ];
    let c = ctx(&e);
    assert_eq!(show(&c, user("kind")), "exact");
    assert_eq!(show(&c, user("loop")), "");
}

#[test]
fn the_access_log_sees_the_response() {
    let e = env();
    let c = ctx(&e);
    let mut resp = Resp::new(206);
    resp.header("ETag", b"\"x\"");
    let vars = LogVars { ctx: &c, resp: &resp, status: 206, body_bytes: 10, total_bytes: 300 };
    let t = Template {
        parts: vec![
            Part::Variable(Var::Status),
            Part::Literal(b" ".to_vec()),
            Part::Variable(Var::BodyBytesSent),
            Part::Literal(b" ".to_vec()),
            Part::Variable(Var::BytesSent),
            Part::Literal(b" ".to_vec()),
            Part::Variable(Var::SentHttp(b"etag".to_vec())),
            Part::Literal(b" ".to_vec()),
            Part::Variable(Var::Uri),
        ],
    };
    assert_eq!(text(&vars.render(&t)), "206 10 300 \"x\" /docs/a");
}

// ---------------------------------------------------------------- replies

#[test]
fn error_pages_carry_their_status() {
    let e = env();
    let p = error_reply(&ctx(&e), 404);
    assert_eq!(p.resp.status, 404);
    assert!(p.resp.keep_alive);
    assert_eq!(p.resp.get("content-type"), Some(&b"text/html"[..]));
    assert_eq!(p.body, Some(b"<h1>404</h1>".to_vec()));
    assert!(!error_reply(&ctx(&e), 400).resp.keep_alive);
}

#[test]
fn return_answers_with_text_or_a_redirect() {
    let e = env();
    let c = ctx(&e);
    let p = return_reply(&c, 301, &Some(lit("/new")));
    assert_eq!(p.resp.get("location"), Some(&b"/new"[..]));
    assert_eq!(p.body, None);
    let p = return_reply(&c, 200, &Some(var(Var::Uri)));
    assert_eq!(p.body, Some(b"/docs/a".to_vec()));
    assert_eq!(p.resp.get("content-type"), Some(&b"text/plain"[..]));
    assert_eq!(return_reply(&c, 204, &None).body, None);
    assert_eq!(return_reply(&c, 404, &None).body, Some(b"<h1>404</h1>".to_vec()));
}

#[test]
fn absolute_urls_name_an_unusual_port() {
    let mut e = env();
    assert_eq!(text(&absolute_url(&ctx(&e), b"/x")), "http://Example.COM:8080/x");
    e.scheme = b"https".to_vec();
    e.local = Some(Addr::V4 { a: 1, b: 2, c: 3, d: 4, port: 443 });
    assert_eq!(text(&absolute_url(&ctx(&e), b"/x")), "https://Example.COM/x");
}

// ---------------------------------------------------------------- rewrites and conditions

fn rule(pattern: &str, to: Template, flag: RewriteFlag) -> Rewrite {
    Rewrite { pattern: pattern.into(), replacement: to, flag }
}

fn capture_template() -> Template {
    Template {
        parts: vec![Part::Literal(b"/new/".to_vec()), Part::Variable(Var::Capture(1))],
    }
}

#[test]
fn a_rewrite_uses_what_it_captured() {
    let e = env();
    let mut c = ctx(&e);
    let rules = vec![
        rule("^/nothing", lit("/x"), RewriteFlag::Last),
        rule("^/docs/(.*)$", capture_template(), RewriteFlag::Last),
    ];
    match run_rewrites(&mut c, &rules) {
        Some(Step::Internal(u)) => assert_eq!(text(&u), "/new/a"),
        other => panic!("{other:?}"),
    }
    assert_eq!(text(&c.uri), "/new/a");
    assert_eq!(text(&c.args), "x=1");
}

#[test]
fn rewrites_that_match_nothing_change_nothing() {
    let e = env();
    let mut c = ctx(&e);
    assert!(run_rewrites(&mut c, &vec![rule("^/zzz", lit("/x"), RewriteFlag::Last)]).is_none());
    assert_eq!(text(&c.uri), "/docs/a");
    assert!(c.captures.is_empty());
}

#[test]
fn a_rewrite_may_replace_the_arguments() {
    let e = env();
    let mut c = ctx(&e);
    let r = rule("", lit("/y?z=2"), RewriteFlag::Break);
    assert!(matches!(apply_rewrite(&mut c, &r, vec![]), Flow::Stop));
    assert_eq!(text(&c.uri), "/y");
    assert_eq!(text(&c.args), "z=2");
}

#[test]
fn absolute_replacements_redirect() {
    let e = env();
    let mut c = ctx(&e);
    let r = rule("", lit("https://other/"), RewriteFlag::Plain);
    match apply_rewrite(&mut c, &r, vec![]) {
        Flow::Give(Step::Done(p)) => {
            assert_eq!(p.resp.status, 302);
            assert_eq!(p.resp.get("location"), Some(&b"https://other/?x=1"[..]));
        }
        other => panic!("{other:?}"),
    }
    let r = rule("", lit("/gone"), RewriteFlag::Permanent);
    match apply_rewrite(&mut c, &r, vec![]) {
        Flow::Give(Step::Done(p)) => assert_eq!(p.resp.status, 301),
        other => panic!("{other:?}"),
    }
}

const NOTHING: Probe = Probe { exists: false, is_file: false, is_dir: false, executable: false };
const FILE: Probe = Probe { exists: true, is_file: true, is_dir: false, executable: false };
const DIR: Probe = Probe { exists: true, is_file: false, is_dir: true, executable: false };

#[test]
fn conditions_look_at_variables_and_files() {
    let e = env();
    let c = ctx(&e);
    assert!(eval_cond(&c, &Cond::Always, NOTHING));
    assert!(eval_cond(&c, &Cond::Truthy(Var::Uri), NOTHING));
    assert!(!eval_cond(&c, &Cond::Truthy(user("none")), NOTHING));
    assert!(eval_cond(&c, &Cond::Eq(Var::RequestMethod, lit("GET")), NOTHING));
    assert!(eval_cond(&c, &Cond::Ne(Var::RequestMethod, lit("PUT")), NOTHING));
    let m = |negate| Cond::Match { var: Var::Uri, pattern: "^/docs".into(), negate };
    assert!(eval_cond(&c, &m(false), NOTHING));
    assert!(!eval_cond(&c, &m(true), NOTHING));
    let f = Cond::FileExists { path: lit("/f"), negate: false };
    assert_eq!(cond_path(&c, &f), Some(b"/f".to_vec()));
    assert!(eval_cond(&c, &f, FILE));
    assert!(!eval_cond(&c, &f, DIR));
    assert!(eval_cond(&c, &Cond::DirExists { path: lit("/d"), negate: true }, FILE));
}

#[test]
fn an_if_runs_its_actions_in_order() {
    let e = env();
    let mut c = ctx(&e);
    let b = IfBlock {
        cond: Cond::Always,
        actions: vec![
            IfAction::Assign(SetDirective { name: b"v".to_vec(), value: lit("1") }),
            IfAction::Return { status: 403, body: None },
        ],
    };
    match run_if(&mut c, &b, NOTHING) {
        Flow::Give(Step::Done(p)) => assert_eq!(p.resp.status, 403),
        other => panic!("{other:?}"),
    }
    assert_eq!(show(&c, user("v")), "1");
    let never = IfBlock { cond: Cond::Truthy(user("none")), actions: vec![IfAction::Break] };
    assert!(matches!(run_if(&mut c, &never, NOTHING), Flow::Next));
    let stop = IfBlock { cond: Cond::Always, actions: vec![IfAction::Break] };
    assert!(matches!(run_if(&mut c, &stop, NOTHING), Flow::Stop));
}

#[test]
fn try_files_takes_the_first_that_is_there() {
    let e = env();
    let mut c = ctx(&e);
    let tf = TryFiles {
        items: vec![var(Var::Uri), lit("/dir/"), lit("/index.html")],
        fallback: TryFallback::Status(404),
    };
    let paths: Vec<String> = try_paths(&c, &tf).iter().map(|p| text(p)).collect();
    assert_eq!(paths, ["/srv/www/docs/a", "/srv/www/dir/", "/srv/www/index.html"]);
    match run_try_files(&mut c, &tf, &vec![NOTHING, FILE, FILE]) {
        Some(Step::Internal(u)) => assert_eq!(text(&u), "/index.html"),
        other => panic!("{other:?}"),
    }
    assert!(run_try_files(&mut c, &tf, &vec![FILE, DIR, FILE]).is_none(), "it is the request itself");
    match run_try_files(&mut c, &tf, &vec![NOTHING, NOTHING, DIR]) {
        Some(Step::Fail(404)) => {}
        other => panic!("{other:?}"),
    }
    let tf = TryFiles { items: vec![], fallback: TryFallback::Uri(lit("/app?q=1")) };
    assert!(matches!(run_try_files(&mut c, &tf, &vec![]), Some(Step::Internal(_))));
    assert_eq!(text(&c.args), "q=1");
}

// ---------------------------------------------------------------- routing

#[test]
fn the_deepest_match_settles_the_captures() {
    let e = env();
    let mut c = ctx(&e);
    set_location(
        &mut c,
        vec![
            Hit { location: 0, captures: Some(vec![b"outer".to_vec()]) },
            Hit { location: 1, captures: None },
        ],
    );
    assert_eq!(c.matched, Some(1));
    assert_eq!(show(&c, Var::Capture(1)), "outer");
    set_location(&mut c, vec![]);
    assert_eq!(c.matched, None);
}

#[test]
fn stages_follow_one_another() {
    let mut loc = location("/");
    assert_eq!(next_stage(Stage::Gate, &loc, false), Stage::Limits);
    assert_eq!(next_stage(Stage::Gate, &loc, true), Stage::Methods, "internal passes are not limited");
    assert_eq!(next_stage(Stage::Methods, &loc, false), Stage::Rewrites);
    loc.core.auth_request = Some(b"/auth".to_vec());
    assert_eq!(next_stage(Stage::Methods, &loc, false), Stage::Auth);
    assert_eq!(next_stage(Stage::Ifs, &loc, false), Stage::Act);
}

#[test]
fn gates_refuse() {
    let mut loc = location("/");
    loc.core.internal = true;
    assert_eq!(gate(Stage::Gate, &loc, false, b"GET"), Some(404));
    assert_eq!(gate(Stage::Gate, &loc, true, b"GET"), None);
    loc.allowed_methods = Some(vec![b"GET".to_vec()]);
    assert_eq!(gate(Stage::Methods, &loc, false, b"HEAD"), None, "HEAD goes with GET");
    assert_eq!(gate(Stage::Methods, &loc, false, b"POST"), Some(405));
}

#[test]
fn limits_combine() {
    let e = env();
    let c = ctx(&e);
    assert_eq!(limit_key(&c, Some(&var(Var::RemoteAddr))), Some(b"10.0.0.7".to_vec()));
    assert_eq!(limit_key(&c, Some(&lit(""))), None, "an empty key is not limited");
    assert_eq!(limit_key(&c, None), None);
    let mut k = core_conf();
    let v = apply_limit(LimitVerdict::After(0), Decision::Delay(50), &k);
    let v = apply_limit(v, Decision::Delay(20), &k);
    assert_eq!(v, LimitVerdict::After(50));
    let v = apply_limit(v, Decision::Reject, &k);
    assert_eq!(v, LimitVerdict::Refuse(503));
    assert_eq!(apply_limit(v, Decision::Pass, &k), LimitVerdict::Refuse(503));
    assert_eq!(limit_conn_verdict(false, &k), Some(503));
    k.limit_conn_dry_run = true;
    assert_eq!(limit_conn_verdict(false, &k), None);
}

#[test]
fn authorisation_fails_closed() {
    let mut e = env();
    e.req.headers.push(header("Content-Length", "5"));
    let mut c = ctx(&e);
    let hs = auth_headers(&c).unwrap();
    assert!(hs.iter().all(|h| h.name != b"Content-Length"));
    assert_eq!(hs.len(), e.req.headers.len() - 1);
    let mut k = core_conf();
    k.auth_request_set = vec![SetDirective {
        name: b"who".to_vec(),
        value: var(Var::UpstreamHttp(b"x-user".to_vec())),
    }];
    assert_eq!(auth_done(&mut c, &k, 204, vec![header("X-User", "bob")]), Ok(()));
    assert_eq!(show(&c, user("who")), "bob");
    assert_eq!(auth_done(&mut c, &k, 401, vec![]), Err(401));
    assert_eq!(auth_done(&mut c, &k, 403, vec![]), Err(403));
    assert_eq!(auth_done(&mut c, &k, 302, vec![]), Err(500));
    c.auth_depth = 1;
    assert_eq!(auth_headers(&c).err(), Some(500));
    assert_eq!(auth_subrequest(&c, b"/_auth").err(), Some(500));
}

#[test]
fn a_subrequest_asks_for_the_authorising_location() {
    let mut e = env();
    e.req.method = b"POST".to_vec();
    e.req.headers.push(header("Expect", "100-continue"));
    let c = ctx(&e);
    let s = auth_subrequest(&c, b"/_auth?a=1?b").unwrap();
    assert_eq!(s.req.method, b"GET");
    assert_eq!(s.req.target, b"/_auth?a=1?b");
    assert_eq!(s.path, b"/_auth");
    assert_eq!(s.args, b"a=1?b");
    assert_eq!(s.req.host, e.req.host);
    assert_eq!(s.req.headers.len(), e.req.headers.len() - 1);
    let s = auth_subrequest(&c, b"/_auth").unwrap();
    assert_eq!((s.path, s.args), (b"/_auth".to_vec(), Vec::new()));
}

#[test]
fn routing_ends_after_ten_internal_redirects() {
    let e = env();
    let mut c = ctx(&e);
    let mut r = Routing::start(&c);
    assert!(!r.internal);
    for i in 0..10 {
        let t = r.advance(&mut c, Came::Internal(format!("/p{i}").into_bytes()));
        assert!(matches!(t, Turn::Again), "{i}");
        assert!(r.internal);
    }
    match r.advance(&mut c, Came::Internal(b"/p".to_vec())) {
        Turn::Answer(p) => assert_eq!(p.resp.status, 500),
        other => panic!("{other:?}"),
    }
}

#[test]
fn error_pages_route_and_keep_the_status() {
    let mut e = env();
    e.server.error_pages = vec![
        ErrorPage { codes: vec![404], replace_status: None, target: ErrorTarget::Uri(lit("/404.html")) },
        ErrorPage { codes: vec![500], replace_status: Some(0), target: ErrorTarget::Named(b"@x".to_vec()) },
        ErrorPage {
            codes: vec![403],
            replace_status: None,
            target: ErrorTarget::Redirect(lit("https://login/")),
        },
    ];
    let mut c = ctx(&e);
    assert!(matches!(error_page_for(&c, 404), Some(ErrorRoute::Uri(_, Some(404)))));
    assert!(matches!(error_page_for(&c, 500), Some(ErrorRoute::Named(_, None))));
    let mut r = Routing::start(&c);
    assert!(matches!(r.advance(&mut c, Came::Fail(404)), Turn::Again));
    assert_eq!(text(&c.uri), "/404.html");
    assert_eq!(r.status_override, Some(404));
    assert!(matches!(r.advance(&mut c, Came::Done), Turn::Finish(Some(404))));
    assert!(error_page_for(&c, 404).is_none(), "an error page does not lead to itself");
    match r.advance(&mut c, Came::Fail(403)) {
        Turn::Answer(p) => {
            assert_eq!(p.resp.status, 403);
            assert_eq!(p.resp.get("location"), Some(&b"https://login/"[..]));
        }
        other => panic!("{other:?}"),
    }
    assert!(matches!(r.advance(&mut c, Came::Fail(418)), Turn::Answer(_)));
}

#[test]
fn actions_answer_or_hand_over() {
    let e = env();
    let mut c = ctx(&e);
    assert!(matches!(act(&c, &Action::Nothing), Act::Give(Step::Fail(404))));
    assert!(matches!(act(&c, &Action::Proxy), Act::Proxy));
    let page = finish(&mut c, Step::Fail(404)).unwrap();
    assert_eq!(page.resp.status, 404);
    assert!(finish(&mut c, Step::Internal(b"/n".to_vec())).is_none());
    assert_eq!(text(&c.uri), "/n");
}

// ---------------------------------------------------------------- decoration

#[test]
fn headers_are_added_to_good_answers() {
    let mut e = env();
    e.server.alt_svc = Some(b"h3=\":443\"".to_vec());
    e.server.core.add_headers = vec![
        AddHeader { name: b"X-A".to_vec(), value: lit("1"), always: false },
        AddHeader { name: b"X-B".to_vec(), value: lit("2"), always: true },
        AddHeader { name: b"X-C".to_vec(), value: lit(""), always: true },
    ];
    let c = ctx(&e);
    let mut ok = Resp::new(200);
    decorate(&c, &mut ok, b"");
    assert_eq!(ok.get("x-a"), Some(&b"1"[..]));
    assert_eq!(ok.get("x-b"), Some(&b"2"[..]));
    assert!(!ok.has("x-c"), "an empty value adds nothing");
    assert_eq!(ok.get("alt-svc"), Some(&b"h3=\":443\""[..]));
    let mut bad = Resp::new(404);
    bad.header("Alt-Svc", b"clear");
    decorate(&c, &mut bad, b"");
    assert!(!bad.has("x-a"));
    assert!(bad.has("x-b"));
    assert_eq!(bad.get("alt-svc"), Some(&b"clear"[..]));
}

#[test]
fn expires_sets_both_headers() {
    let mut r = Resp::new(200);
    apply_expires(&mut r, Expires::Secs(60), b"later");
    assert_eq!(r.get("expires"), Some(&b"later"[..]));
    assert_eq!(r.get("cache-control"), Some(&b"max-age=60"[..]));
    apply_expires(&mut r, Expires::Epoch, b"");
    assert_eq!(r.get("cache-control"), Some(&b"no-cache"[..]));
    assert_eq!(r.headers.len(), 2);
    apply_expires(&mut r, Expires::Max, b"");
    assert_eq!(r.get("cache-control"), Some(&b"max-age=315360000"[..]));
    assert_eq!(expires_at(Expires::Secs(60), 100), Some(160));
    assert_eq!(expires_at(Expires::Secs(-60), 100), Some(100));
    assert_eq!(expires_at(Expires::Off, 100), None);
}

fn gzip_env() -> Env {
    let mut e = env();
    e.server.core.gzip.enabled = true;
    e.server.core.gzip.vary = true;
    e
}

fn page_reply(body: &[u8]) -> AnyReply {
    let mut resp = Resp::new(200);
    resp.header("Content-Type", b"text/html; charset=utf-8");
    resp.header("ETag", b"\"abc\"");
    Reply::new(resp, Body::Bytes(body.to_vec()))
}

#[test]
fn bodies_are_compressed_and_read_back() {
    let e = gzip_env();
    let c = ctx(&e);
    let body = "compress me ".repeat(100).into_bytes();
    let r = maybe_gzip(&c, page_reply(&body), None);
    assert_eq!(r.resp.get("content-encoding"), Some(&b"gzip"[..]));
    assert_eq!(r.resp.get("vary"), Some(&b"Accept-Encoding"[..]));
    assert_eq!(r.resp.get("etag"), Some(&b"W/\"abc\""[..]));
    match &r.body {
        Body::Bytes(z) => {
            assert!(z.len() < body.len());
            let mut back = Vec::new();
            flate2::read::GzDecoder::new(&z[..]).read_to_end(&mut back).unwrap();
            assert_eq!(back, body);
        }
        other => panic!("{other:?}"),
    }
    assert!(!wants_gzip(&c, &r), "never twice");
}

#[test]
fn the_configured_level_is_handed_to_the_compressor() {
    let mut e = gzip_env();
    let body: Vec<u8> = (0..4000u32).flat_map(|i| (i * i % 97).to_string().into_bytes()).collect();
    for level in [0, 1, 9, 10, 11] {
        e.server.core.gzip.level = level;
        let r = maybe_gzip(&ctx(&e), page_reply(&body), None);
        let mut enc = flate2::write::GzEncoder::new(Vec::new(), flate2::Compression::new(level.min(10)));
        enc.write_all(&body).unwrap();
        let expected = enc.finish().unwrap();
        assert!(matches!(&r.body, Body::Bytes(z) if *z == expected), "level {level}");
    }
}

#[test]
fn compression_needs_consent_and_size() {
    let mut e = gzip_env();
    let body = vec![b'a'; 100];
    assert!(wants_gzip(&ctx(&e), &page_reply(&body)));
    assert!(!wants_gzip(&ctx(&e), &page_reply(b"tiny")));
    e.req.minor = 0;
    assert!(!wants_gzip(&ctx(&e), &page_reply(&body)));
    e.req.minor = 1;
    e.req.accepts_gzip = false;
    assert!(!wants_gzip(&ctx(&e), &page_reply(&body)));
    e.req.accepts_gzip = true;
    let mut image: AnyReply = Reply::new(Resp::new(200), Body::Bytes(body));
    image.resp.header("Content-Type", b"image/png");
    assert!(!wants_gzip(&ctx(&e), &image));
    let r = compressed_reply(image, b"zz".to_vec(), false);
    assert!(!r.resp.has("vary"));
    assert!(matches!(r.body, Body::Bytes(b) if b == b"zz"));
}

// ---------------------------------------------------------------- files

#[test]
fn paths_follow_root_and_alias() {
    let mut e = env();
    e.server.locations[0].core.alias = Some(lit("/data/"));
    let mut c = ctx(&e);
    assert_eq!(text(&map_path(&c)), "/srv/www/docs/a");
    c.matched = Some(0);
    assert_eq!(text(&map_path(&c)), "/data/a");
    resolve(&mut c);
    assert_eq!(text(&c.filename), "/data/a");
    assert_eq!(text(&c.document_root), "/data/");
}

fn info() -> FileInfo<'static> {
    FileInfo {
        size: 1000,
        mtime: Mtime { secs: 0x5f5e100, nanos: 0 },
        mime: Some(b"text/plain"),
        last_modified: b"Sat, 03 Mar 1973 09:46:40 GMT",
    }
}

const NO_DATES: Dates = Dates { if_unmodified_since: None, if_modified_since: None, if_range: None };

fn served(e: &Env, dates: Dates) -> Served {
    serve_file(&ctx(e), &e.server.core, info(), dates)
}

#[test]
fn files_are_served_whole_or_in_part() {
    let mut e = env();
    match served(&e, NO_DATES) {
        Served::File { resp, start: 0, len: 1000 } => {
            assert_eq!(resp.status, 200);
            assert_eq!(resp.get("etag"), Some(&b"\"5f5e100-3e8\""[..]));
            assert_eq!(resp.get("content-type"), Some(&b"text/plain"[..]));
        }
        other => panic!("{other:?}"),
    }
    e.req.headers.push(header("Range", "bytes=10-19"));
    match served(&e, NO_DATES) {
        Served::File { resp, start: 10, len: 10 } => {
            assert_eq!(resp.status, 206);
            assert_eq!(resp.get("content-range"), Some(&b"bytes 10-19/1000"[..]));
        }
        other => panic!("{other:?}"),
    }
    e.req.method = b"HEAD".to_vec();
    match served(&e, NO_DATES) {
        Served::Page(p) => assert_eq!(p.resp.framing, Framing::Length(10)),
        other => panic!("{other:?}"),
    }
    e.req.method = b"DELETE".to_vec();
    assert!(matches!(served(&e, NO_DATES), Served::Status(405)));
}

#[test]
fn an_unsatisfiable_range_says_so() {
    let mut e = env();
    e.req.headers.push(header("Range", "bytes=2000-"));
    match served(&e, NO_DATES) {
        Served::Page(p) => {
            assert_eq!(p.resp.status, 416);
            assert_eq!(p.resp.get("content-range"), Some(&b"bytes */1000"[..]));
        }
        other => panic!("{other:?}"),
    }
    e.server.core.max_ranges = Some(0);
    assert!(matches!(served(&e, NO_DATES), Served::File { start: 0, len: 1000, .. }));
}

#[test]
fn an_empty_file_has_no_final_bytes() {
    let mut e = env();
    e.req.headers.push(header("Range", "bytes=-5"));
    let mut f = info();
    f.size = 0;
    match serve_file(&ctx(&e), &e.server.core, f, NO_DATES) {
        Served::Page(p) => {
            assert_eq!(p.resp.status, 416);
            assert_eq!(p.resp.get("content-range"), Some(&b"bytes */0"[..]));
        }
        other => panic!("{other:?}"),
    }
    match served(&e, NO_DATES) {
        Served::File { resp, start: 995, len: 5 } => {
            assert_eq!(resp.get("content-range"), Some(&b"bytes 995-999/1000"[..]));
        }
        other => panic!("{other:?}"),
    }
}

#[test]
fn preconditions_come_before_ranges() {
    let mut e = env();
    e.req.headers.push(header("Range", "bytes=0-9"));
    e.req.headers.push(header("If-None-Match", "W/\"5f5e100-3e8\""));
    match served(&e, NO_DATES) {
        Served::Page(p) => {
            assert_eq!(p.resp.status, 304);
            assert!(p.resp.has("etag"));
        }
        other => panic!("{other:?}"),
    }
    let mut e = env();
    e.req.headers.push(header("If-Match", "\"other\""));
    let c = ctx(&e);
    assert_eq!(
        evaluate_preconditions(&c, &e.server.core, b"\"5f5e100-3e8\"", info().mtime, NO_DATES),
        Some(412)
    );
    let e = env();
    let since = Dates { if_modified_since: Some(0x5f5e100), ..NO_DATES };
    assert!(matches!(served(&e, since), Served::Page(p) if p.resp.status == 304));
    let before = Dates { if_unmodified_since: Some(5), ..NO_DATES };
    assert!(matches!(served(&e, before), Served::Page(p) if p.resp.status == 412));
}

#[test]
fn a_changed_file_ignores_a_conditional_range() {
    let mut e = env();
    e.req.headers.push(header("Range", "bytes=0-9"));
    e.req.headers.push(header("If-Range", "\"stale\""));
    assert!(matches!(served(&e, NO_DATES), Served::File { len: 1000, .. }));
}

#[test]
fn bodies_pick_their_transport() {
    let b: AnyBody = make_body(7, 0, 0, false, None);
    assert!(matches!(b, Body::Empty));
    let b: AnyBody = make_body(7, 5, 10, false, None);
    assert!(matches!(b, Body::Inline { file: 7, offset: 5, len: 10 }));
    assert!(wants_map(100_000, false));
    assert!(!wants_map(100_000, true));
    let b: AnyBody = make_body(7, 0, 100_000, false, Some((vec![], 100_000)));
    assert!(matches!(b, Body::Mmap { start: 0, end: 100_000, .. }));
    let b: AnyBody = make_body(7, 0, 1 << 30, true, None);
    assert!(matches!(b, Body::File { .. }));
}

#[test]
fn directories_redirect_index_or_list() {
    let mut e = env();
    let c = ctx(&e);
    match serve_directory(&c, &e.server.core, &vec![true]) {
        Served::Page(p) => {
            assert_eq!(p.resp.status, 301);
            assert_eq!(p.resp.get("location"), Some(&b"http://Example.COM:8080/docs/a/?x=1"[..]));
        }
        other => panic!("{other:?}"),
    }
    let moved = dir_redirect(&c, &e.server.core);
    assert_eq!(moved.resp.status, 301);
    assert_eq!(moved.body, Some(b"moved, here".to_vec()), "the page of the location");
    let mut c = ctx(&e);
    c.uri = b"/docs/".to_vec();
    let paths = index_paths(&c, &e.server.core, b"/srv/www/docs/");
    assert_eq!(text(&paths[0]), "/srv/www/docs/index.html");
    assert!(matches!(
        serve_directory(&c, &e.server.core, &vec![true]),
        Served::Internal(u) if u == b"/docs/index.html"
    ));
    assert!(matches!(serve_directory(&c, &e.server.core, &vec![false]), Served::Status(403)));
    e.server.core.autoindex = true;
    let mut c = ctx(&e);
    c.uri = b"/docs/".to_vec();
    assert!(matches!(serve_directory(&c, &e.server.core, &vec![false]), Served::Autoindex));
}

#[test]
fn a_listing_puts_directories_first() {
    let e = env();
    let mut c = ctx(&e);
    c.uri = b"/d<x>/".to_vec();
    let entry = |name: &str, is_dir| DirEntry {
        name: name.as_bytes().to_vec(),
        is_dir,
        size: 12,
        date: b"Sat, 03 Mar 1973 09:46:40 GMT".to_vec(),
    };
    let p = autoindex::render(&c, &vec![entry("b.txt", false), entry("a&b", false), entry("z", true)]);
    let t = text(&p.body.unwrap());
    assert!(t.contains("<h1>Index of /d&lt;x&gt;/</h1>"), "{t}");
    let (z, a, b) =
        (t.find("\">z/").unwrap(), t.find("a&amp;b").unwrap(), t.find("b.txt").unwrap());
    assert!(z < a && a < b, "{t}");
    assert!(t.contains("Sat, 03 Mar 1973 09:46:40  "), "{t}");
    assert!(t.contains("                  12\r\n"), "{t}");
}

// ---------------------------------------------------------------- proxying

fn pass(target: ProxyTarget, uri: Option<Template>) -> ProxyPass {
    ProxyPass { target, tls: false, uri }
}

fn proxy_conf() -> ProxyConf {
    ProxyConf { http_version_11: true, set_headers: vec![], hide_headers: vec![b"x-secret".to_vec()] }
}

#[test]
fn targets_become_addresses() {
    let e = env();
    let c = ctx(&e);
    let t = |t| choose_target(&c, &pass(t, None), Some(b"peer")).map(|a| text(&a));
    assert_eq!(t(ProxyTarget::Addr { host: b"h".to_vec(), port: 81 }), Ok("h:81".to_string()));
    assert_eq!(t(ProxyTarget::Unix(b"/s".to_vec())), Ok("unix:/s".to_string()));
    assert_eq!(t(ProxyTarget::Upstream(b"u".to_vec())), Ok("peer:80".to_string()));
    assert_eq!(t(ProxyTarget::Dynamic(lit("http://a/b"))), Ok("a:80".to_string()));
    assert_eq!(t(ProxyTarget::Dynamic(lit("https://a/b"))), Err(502), "TLS to upstreams is refused");
    assert_eq!(t(ProxyTarget::Dynamic(lit(""))), Err(502));
}

#[test]
fn the_passed_uri_replaces_the_prefix() {
    let e = env();
    let c = ctx(&e);
    let u = |uri, prefix: Option<&[u8]>| {
        let t = ProxyTarget::Unix(b"/s".to_vec());
        text(&upstream_uri(&c, &pass(t, uri), &prefix.map(|p| p.to_vec())))
    };
    assert_eq!(u(None, Some(b"/docs/")), "/docs/a?x=1");
    assert_eq!(u(Some(lit("/api/")), Some(b"/docs/")), "/api/a?x=1");
    assert_eq!(u(Some(lit("/api")), Some(b"/docs")), "/api/a?x=1");
    assert_eq!(u(Some(lit("/fixed")), Some(b"/docs/a")), "/fixed?x=1");
    assert_eq!(u(Some(lit("/api/")), None), "/api/?x=1");
}

#[test]
fn a_request_is_passed_on_without_its_hop_headers() {
    let mut e = env();
    e.body = b"abc".to_vec();
    e.req.headers.push(header("X-Secret", "1"));
    let mut conf = proxy_conf();
    conf.set_headers = vec![SetDirective { name: b"X-Real-IP".to_vec(), value: var(Var::RemoteAddr) }];
    let h = text(&request_head(&ctx(&e), &conf, b"/u", b"10.1.1.1:80", 8));
    assert_eq!(
        h,
        "GET /u HTTP/1.1\r\nX-Real-IP: 10.0.0.7\r\nHost: 10.1.1.1:80\r\nCookie: a=1; sid=xyz\r\n\
         X-Forwarded-For: 10.9.9.9\r\nAuthorization: Basic YWxpY2U6c2VjcmV0\r\n\
         Content-Length: 3\r\nConnection: keep-alive\r\n\r\n"
    );
    assert!(text(&request_head(&ctx(&e), &conf, b"/u", b"a", 0)).contains("Connection: close\r\n"));
}

#[test]
fn an_upstream_head_is_read() {
    let conf = proxy_conf();
    let wire = b"HTTP/1.1 201 Created\r\nContent-Length: 5\r\nX-Secret: s\r\nX-Ok: yes\r\nConnection: close\r\n\r\nhello";
    match read_head(wire, &conf) {
        HeadRead::Complete(h, n) => {
            assert_eq!(&wire[n..], b"hello");
            assert_eq!(h.status, 201);
            assert_eq!(h.length, Some(5));
            assert!(h.said_close && !h.chunked);
            assert_eq!(h.headers, vec![("X-Ok".to_string(), "yes".to_string())]);
        }
        other => panic!("{other:?}"),
    }
    assert!(matches!(read_head(b"HTTP/1.1 200", &conf), HeadRead::More));
    assert!(matches!(read_head(b"nonsense\r\n\r\n", &conf), HeadRead::Invalid));
    let long = [b"HTTP/1.1 200 OK\r\nX: ".to_vec(), vec![b'a'; 70_000]].concat();
    assert!(matches!(read_head(&long, &conf), HeadRead::TooLarge));
}

#[test]
fn a_head_without_a_code_is_a_bad_gateway() {
    let parts = HeadParts {
        len: 0,
        code: None,
        headers: vec![("Transfer-Encoding".into(), b"chunked".to_vec())],
    };
    let h = read_parts(&parts, &proxy_conf());
    assert_eq!(h.status, 502);
    assert!(h.chunked);
}

#[test]
fn responses_frame_themselves_by_the_head() {
    let parts = |name: &str, value: &str| HeadParts {
        len: 0,
        code: Some(200),
        headers: vec![(name.to_string(), value.as_bytes().to_vec())],
    };
    let conf = proxy_conf();
    let h = read_parts(&parts("Content-Length", "5"), &conf);
    let r = respond::<Vec<u8>, u32, u32>(&h, b"hello".to_vec(), 9, true);
    assert!(r.whole);
    assert_eq!(r.back, Some(9), "a clean connection is pooled");
    assert_eq!(r.reply.resp.framing, Framing::Length(5));
    let r = respond::<Vec<u8>, u32, u32>(&h, b"he".to_vec(), 9, true);
    assert!(!r.whole && r.back.is_none());
    let h = read_parts(&parts("Transfer-Encoding", "chunked"), &conf);
    let r = respond::<Vec<u8>, u32, u32>(&h, vec![], 9, true);
    assert_eq!(r.reply.resp.framing, Framing::Chunked);
    let h = read_parts(&parts("X", "y"), &conf);
    let r = respond::<Vec<u8>, u32, u32>(&h, vec![], 9, true);
    assert_eq!(r.reply.resp.framing, Framing::UntilClose);
    assert!(!r.reply.resp.keep_alive);
}

fn cache_conf() -> ProxyCacheConf {
    ProxyCacheConf {
        methods: vec![b"GET".to_vec()],
        key: var(Var::Uri),
        bypass: vec![],
        no_cache: vec![],
        min_uses: 1,
        valid: vec![
            CacheValid { codes: vec![], ttl: 5 },
            CacheValid { codes: vec![200], ttl: 60 },
        ],
        lock: true,
        lock_timeout_ms: 5000,
        use_stale: vec![StaleWhen::Error, StaleWhen::Updating, StaleWhen::Status(503)],
    }
}

#[test]
fn only_configured_methods_are_cached() {
    let mut e = env();
    let mut conf = cache_conf();
    let cc = cache_context(&ctx(&e), &conf).unwrap();
    assert_eq!(cc.key, "/docs/a");
    assert!(!cc.bypassed);
    conf.bypass = vec![lit("0"), lit("1")];
    assert!(cache_context(&ctx(&e), &conf).unwrap().bypassed);
    e.req.method = b"POST".to_vec();
    assert!(cache_context(&ctx(&e), &conf).is_none());
}

#[test]
fn an_exact_status_wins_over_any() {
    let e = env();
    let c = ctx(&e);
    let mut conf = cache_conf();
    assert_eq!(cacheable_ttl(&c, &conf, 200, 0), Some(60));
    assert_eq!(cacheable_ttl(&c, &conf, 404, 0), Some(5));
    assert!(!counts_use(&c, &conf));
    conf.min_uses = 2;
    assert!(counts_use(&c, &conf));
    assert_eq!(cacheable_ttl(&c, &conf, 200, 1), None);
    assert_eq!(cacheable_ttl(&c, &conf, 200, 2), Some(60));
    conf.no_cache = vec![lit("yes")];
    assert_eq!(cacheable_ttl(&c, &conf, 200, 9), None);
    assert!(!counts_use(&c, &conf));
}

#[test]
fn a_cached_reply_is_framed_by_its_body() {
    let p = cached_reply(Decoded {
        status: 200,
        headers: vec![
            ("Content-Length".into(), "99".into()),
            ("X".into(), "y".into()),
            ("transfer-encoding".into(), "chunked".into()),
        ],
        body: b"abc".to_vec(),
        expires: 0,
        created: 0,
    });
    assert_eq!(p.resp.headers.len(), 1);
    assert_eq!(p.resp.framing, Framing::Length(3));
}

#[test]
fn a_whole_response_is_stored_and_comes_back() {
    let e = env();
    let cc = cache_context(&ctx(&e), &cache_conf()).unwrap();
    let head = HeadParts {
        len: 0,
        code: Some(200),
        headers: vec![
            ("Content-Length".into(), b"5".to_vec()),
            ("Connection".into(), b"close".to_vec()),
            ("X".into(), b"y".to_vec()),
        ],
    };
    let h = read_parts(&head, &proxy_conf());
    let whole = respond::<Vec<u8>, u32, u32>(&h, b"hello".to_vec(), 9, true);
    let entry = entry_for(&cc, &h, &whole, Some(60), 1000).unwrap();
    let d = decode_entry(&entry, &cc.key).unwrap();
    assert_eq!((d.created, d.expires), (1000, 1060));
    let p = cached_reply(d);
    assert_eq!(p.resp.status, 200);
    assert_eq!(p.body, Some(b"hello".to_vec()));
    assert_eq!(p.resp.headers.len(), 1);
    assert_eq!(p.resp.headers[0].name, b"X");
    assert!(decode_entry(&entry, "/other").is_err());
    // Nothing is stored of what may not be kept, nor of a part.
    assert!(entry_for(&cc, &h, &whole, None, 1000).is_none());
    let part = respond::<Vec<u8>, u32, u32>(&h, b"he".to_vec(), 9, true);
    assert!(entry_for(&cc, &h, &part, Some(60), 1000).is_none());
}

#[test]
fn waiting_for_a_fetch_is_bounded() {
    assert_eq!(wait_step(0, 100, true), WaitStep::Sleep);
    assert_eq!(wait_step(100, 100, true), WaitStep::GiveUp);
    assert_eq!(wait_step(0, 100, false), WaitStep::Load);
}

fn rules() -> ProxyRules {
    ProxyRules {
        cached: true,
        bypassed: false,
        lock: true,
        use_stale: cache_conf().use_stale,
        has_body: false,
        next_upstream: vec![],
        next_tries: 0,
        next_timeout_ms: 0,
        may_repeat: true,
        peers: 3,
    }
}

#[test]
fn a_miss_fetches_and_responds() {
    let r = rules();
    let (mut run, a) = ProxyRun::start(&r);
    assert_eq!(a, ProxyAction::Load);
    assert_eq!(run.next(&r, ProxyEvent::Loaded(None), 0), ProxyAction::Lock);
    assert_eq!(run.cache_status, Some(CacheStatus::Miss));
    assert_eq!(run.next(&r, ProxyEvent::Locked(true), 0), ProxyAction::Connect);
    assert_eq!(run.next(&r, ProxyEvent::Connected(false), 0), ProxyAction::SendHead);
    assert_eq!(run.next(&r, ProxyEvent::Sent(true), 0), ProxyAction::Read);
    assert_eq!(run.next(&r, ProxyEvent::HeadPartial, 0), ProxyAction::Read);
    assert_eq!(run.next(&r, ProxyEvent::HeadComplete(200), 0), ProxyAction::Respond);
}

#[test]
fn a_hit_touches_no_upstream() {
    let r = rules();
    let (mut run, _) = ProxyRun::start(&r);
    assert_eq!(run.next(&r, ProxyEvent::Loaded(Some(CacheStatus::Hit)), 0), ProxyAction::ServeFresh);
    assert_eq!(run.cache_status, Some(CacheStatus::Hit));
}

/// A run that holds an expired entry and is about to connect.
fn with_stale(r: &ProxyRules) -> ProxyRun {
    let (mut run, _) = ProxyRun::start(r);
    run.next(r, ProxyEvent::Loaded(Some(CacheStatus::Expired)), 0);
    run.next(r, ProxyEvent::Locked(true), 0);
    run
}

#[test]
fn stale_entries_cover_listed_failures_only() {
    let r = rules();
    let mut run = with_stale(&r);
    assert_eq!(run.next(&r, ProxyEvent::ConnectFailed, 0), ProxyAction::ServeStale { failure: true });
    let mut run = with_stale(&r);
    run.next(&r, ProxyEvent::Connected(false), 0);
    run.next(&r, ProxyEvent::Sent(true), 0);
    assert_eq!(
        run.next(&r, ProxyEvent::ReadTimedOut, 0),
        ProxyAction::Fail { status: 504, failure: true }
    );
    let mut run = with_stale(&r);
    run.next(&r, ProxyEvent::Connected(false), 0);
    run.next(&r, ProxyEvent::Sent(true), 0);
    assert_eq!(
        run.next(&r, ProxyEvent::HeadComplete(503), 0),
        ProxyAction::ServeStale { failure: false }
    );
    let (mut run, _) = ProxyRun::start(&r);
    run.next(&r, ProxyEvent::Loaded(Some(CacheStatus::Expired)), 0);
    assert_eq!(
        run.next(&r, ProxyEvent::Locked(false), 0),
        ProxyAction::ServeStale { failure: false },
        "somebody else is refreshing"
    );
}

#[test]
fn a_dead_pooled_connection_is_not_the_peers_fault() {
    let mut r = rules();
    r.use_stale = vec![];
    let mut run = with_stale(&r);
    run.next(&r, ProxyEvent::Connected(true), 0);
    run.next(&r, ProxyEvent::Sent(true), 0);
    assert_eq!(
        run.next(&r, ProxyEvent::ReadFailed { nothing_yet: true }, 0),
        ProxyAction::Fail { status: 502, failure: false }
    );
}

#[test]
fn peers_are_selected_by_the_client_address() {
    let e = env();
    let c = ctx(&e);
    let server = |addr: &str| UpstreamServer {
        addr: addr.into(),
        weight: 1,
        max_fails: 1,
        fail_timeout: 10_000,
        backup: false,
        max_conns: None,
        down: false,
    };
    let up = Upstream {
        name: "u".into(),
        servers: vec![server("a"), server("b"), server("c")],
        method: LbMethod::IpHash,
        keepalive: 0,
        health: vec![PeerHealth::default(), PeerHealth::default(), PeerHealth::default()],
    };
    let mut at = Cursor { at: 0 };
    let first = select_peer(&c, &up, 0, at.advance()).unwrap();
    assert_eq!(select_peer(&c, &up, 0, at.advance()), Ok(first));
    assert_eq!(at.at, 2);
    let none =
        Upstream { name: "n".into(), servers: vec![], method: LbMethod::RoundRobin, keepalive: 0, health: vec![] };
    assert_eq!(select_peer(&c, &none, 0, 0), Err(502));
}

/// Rules under which a request of three peers is tried again on these outcomes.
fn retrying(next_upstream: Vec<NextWhen>) -> ProxyRules {
    ProxyRules { cached: false, lock: false, use_stale: vec![], next_upstream, ..rules() }
}

#[test]
fn a_refused_connection_is_tried_at_another_peer() {
    let r = retrying(vec![NextWhen::Error]);
    let (mut run, a) = ProxyRun::start(&r);
    assert_eq!(a, ProxyAction::Connect);
    let a = run.next(&r, ProxyEvent::ConnectFailed, 0);
    assert_eq!(a, ProxyAction::Retry { failure: true });
    assert_eq!(note_of(&run, a), PeerNote::Failed);
    assert_eq!(run.next(&r, ProxyEvent::Connected(false), 0), ProxyAction::SendHead);
    assert_eq!(run.next(&r, ProxyEvent::Sent(true), 0), ProxyAction::Read);
    let a = run.next(&r, ProxyEvent::HeadComplete(500), 0);
    assert_eq!(a, ProxyAction::Respond, "a status that is not listed is the answer");
    assert_eq!(note_of(&run, a), PeerNote::Served);
    assert_eq!(run.upstream_status, Some(500));
}

#[test]
fn retries_end_with_the_peers() {
    let r = retrying(vec![NextWhen::Error]);
    let (mut run, _) = ProxyRun::start(&r);
    assert_eq!(run.next(&r, ProxyEvent::ConnectFailed, 0), ProxyAction::Retry { failure: true });
    assert_eq!(run.next(&r, ProxyEvent::ConnectFailed, 0), ProxyAction::Retry { failure: true });
    let a = run.next(&r, ProxyEvent::ConnectFailed, 0);
    assert_eq!(a, ProxyAction::Fail { status: 502, failure: true });
    assert_eq!(note_of(&run, a), PeerNote::Failed);
}

#[test]
fn retries_are_bounded_by_tries_and_time() {
    let mut r = retrying(vec![NextWhen::Error, NextWhen::Timeout]);
    r.next_tries = 2;
    let (mut run, _) = ProxyRun::start(&r);
    assert_eq!(run.next(&r, ProxyEvent::ConnectTimedOut, 0), ProxyAction::Retry { failure: true });
    assert!(matches!(run.next(&r, ProxyEvent::ConnectFailed, 0), ProxyAction::Fail { failure: true, .. }));
    r.next_tries = 0;
    r.next_timeout_ms = 100;
    let (mut run, _) = ProxyRun::start(&r);
    assert_eq!(run.next(&r, ProxyEvent::ConnectFailed, 99), ProxyAction::Retry { failure: true });
    assert_eq!(
        run.next(&r, ProxyEvent::ConnectFailed, 100),
        ProxyAction::Fail { status: 502, failure: true }
    );
    // A target that is no group has nobody else.
    r.peers = 1;
    let (mut run, _) = ProxyRun::start(&r);
    assert_eq!(
        run.next(&r, ProxyEvent::ConnectFailed, 0),
        ProxyAction::Fail { status: 502, failure: true }
    );
}

#[test]
fn only_requests_that_may_be_repeated_are_retried() {
    assert!(may_repeat(b"GET", false));
    assert!(may_repeat(b"PUT", false));
    for method in [&b"POST"[..], b"LOCK", b"PATCH"] {
        assert!(!may_repeat(method, false));
        assert!(may_repeat(method, true));
    }
    let mut r = retrying(vec![NextWhen::Error]);
    r.may_repeat = false;
    let (mut run, _) = ProxyRun::start(&r);
    assert_eq!(
        run.next(&r, ProxyEvent::ConnectFailed, 0),
        ProxyAction::Fail { status: 502, failure: true }
    );
}

#[test]
fn listed_statuses_and_heads_are_tried_elsewhere() {
    let r = retrying(vec![NextWhen::Status(500), NextWhen::Status(404), NextWhen::InvalidHeader]);
    let (mut run, _) = ProxyRun::start(&r);
    run.next(&r, ProxyEvent::Connected(false), 0);
    run.next(&r, ProxyEvent::Sent(true), 0);
    let a = run.next(&r, ProxyEvent::HeadComplete(500), 0);
    assert_eq!(a, ProxyAction::Retry { failure: true });
    assert_eq!(run.upstream_status, Some(500));
    run.next(&r, ProxyEvent::Connected(false), 0);
    assert_eq!(run.upstream_status, None);
    run.next(&r, ProxyEvent::Sent(true), 0);
    let a = run.next(&r, ProxyEvent::HeadComplete(404), 0);
    assert_eq!(a, ProxyAction::Retry { failure: false });
    assert_eq!(note_of(&run, a), PeerNote::Served);
    run.next(&r, ProxyEvent::Connected(false), 0);
    run.next(&r, ProxyEvent::Sent(true), 0);
    assert_eq!(run.next(&r, ProxyEvent::HeadComplete(500), 0), ProxyAction::Respond);

    let (mut run, _) = ProxyRun::start(&r);
    run.next(&r, ProxyEvent::Connected(false), 0);
    run.next(&r, ProxyEvent::Sent(true), 0);
    assert_eq!(run.next(&r, ProxyEvent::HeadInvalid, 0), ProxyAction::Retry { failure: true });
}

#[test]
fn a_switch_of_protocols_is_refused() {
    let mut r = retrying(vec![NextWhen::Status(101), NextWhen::Error]);
    r.cached = true;
    r.lock = true;
    let mut run = with_stale(&r);
    run.next(&r, ProxyEvent::Connected(false), 0);
    run.next(&r, ProxyEvent::Sent(true), 0);
    let a = run.next(&r, ProxyEvent::HeadComplete(101), 0);
    assert_eq!(a, ProxyAction::Fail { status: 502, failure: false });
    assert_eq!(run.upstream_status, Some(101));
    assert_eq!(note_of(&run, a), PeerNote::Served);
}

#[test]
fn the_next_peer_is_one_that_was_not_tried() {
    let e = env();
    let c = ctx(&e);
    let server = |addr: &str| UpstreamServer {
        addr: addr.into(),
        weight: 1,
        max_fails: 1,
        fail_timeout: 10_000,
        backup: false,
        max_conns: None,
        down: false,
    };
    let up = Upstream {
        name: "u".into(),
        servers: vec![server("a"), server("b"), server("c")],
        method: LbMethod::IpHash,
        keepalive: 0,
        health: vec![PeerHealth::default(), PeerHealth::default(), PeerHealth::default()],
    };
    let mut tried = Vec::new();
    while let Ok(i) = select_next_peer(&c, &up, 0, 7, &tried) {
        assert!(!tried.contains(&i));
        tried.push(i);
    }
    tried.sort();
    assert_eq!(tried, vec![0, 1, 2]);
    assert_eq!(select_next_peer(&c, &up, 0, 7, &tried), Err(502));
}

// ---------------------------------------------------------------- FastCGI

fn fcgi_conf() -> FastCgiConf {
    FastCgiConf {
        keep_conn: false,
        split_path_info: Some("^(.+\\.php)(/.*)$".into()),
        index: Some(b"index.php".to_vec()),
        params: vec![FastCgiParam {
            name: b"SCRIPT_NAME".to_vec(),
            value: var(Var::FastcgiScriptName),
            if_not_empty: false,
        }],
        hide_headers: vec![b"x-powered-by".to_vec()],
        buffering: true,
        buffer_budget: 8,
    }
}

#[test]
fn scripts_are_split_from_their_path() {
    let e = env();
    let mut c = ctx(&e);
    c.uri = b"/app.php/users/1".to_vec();
    split_script_and_path_info(&mut c, &fcgi_conf());
    assert_eq!(text(&c.fastcgi_script_name), "/app.php");
    assert_eq!(text(&c.fastcgi_path_info), "/users/1");
    c.uri = b"/dir/".to_vec();
    split_script_and_path_info(&mut c, &fcgi_conf());
    assert_eq!(text(&c.fastcgi_script_name), "/dir/index.php");
    assert_eq!(text(&c.fastcgi_path_info), "");
    set_script(&mut c, &fcgi_conf(), Some(vec![b"/s".to_vec()]));
    assert_eq!(text(&c.fastcgi_script_name), "/s");
}

#[test]
fn the_environment_holds_parameters_and_headers() {
    let mut e = env();
    e.req.headers = vec![header("X-A", "1"), header("Content-Type", "t")];
    let mut c = ctx(&e);
    c.fastcgi_script_name = b"/s.php".to_vec();
    let mut expected = Vec::new();
    push_nv_pair(&mut expected, b"SCRIPT_NAME", b"/s.php");
    push_nv_pair(&mut expected, b"HTTP_X_A", b"1");
    assert_eq!(build_params(&c, &fcgi_conf()), expected);
    let wire = build_request(&c, &fcgi_conf());
    assert_eq!(parse_record(&wire).unwrap().ty, RecordType::BeginRequest);
}

fn end_record(out: &mut Vec<u8>) {
    push_record(out, RecordType::EndRequest, &[0; 8]);
}

#[test]
fn payload_comes_through_the_records() {
    let mut wire = Vec::new();
    push_record(&mut wire, RecordType::Stdout, b"hello ");
    push_record(&mut wire, RecordType::Stderr, b"noise");
    push_record(&mut wire, RecordType::Stdout, b"world");
    end_record(&mut wire);
    for step in [1, 7, wire.len()] {
        let mut b = FcgiBody::new();
        let mut got = Vec::new();
        for piece in wire.chunks(step) {
            b.feed(piece);
            while let BodyStep::Give(v) = b.poll(3) {
                got.extend(v);
            }
        }
        assert_eq!(text(&got), "hello world", "in pieces of {step}");
        assert!(matches!(b.poll(3), BodyStep::End));
    }
    let mut b = FcgiBody::new();
    b.feed(b"\x09garbage garbage");
    assert!(matches!(b.poll(3), BodyStep::Malformed));
    let mut b = FcgiBody::new();
    let mut wire = Vec::new();
    push_record(&mut wire, RecordType::Stdout, b"payload");
    wire.extend_from_slice(b"\x09garbage garbage");
    b.feed(&wire);
    assert!(matches!(b.poll(3), BodyStep::Malformed));
    assert!(matches!(b.poll(3), BodyStep::Malformed), "and again");
    let mut b = FcgiBody::new();
    assert!(matches!(b.poll(3), BodyStep::Read));
    b.close();
    assert!(matches!(b.poll(3), BodyStep::End));
}

#[test]
fn a_half_read_head_is_not_streamed() {
    let mut conf = fcgi_conf();
    conf.buffering = false;
    let mut c = Collector::new();
    let mut wire = Vec::new();
    push_record(&mut wire, RecordType::Stdout, b"A: b\n");
    assert_eq!(c.next(ReadEvent::Got(wire.len()), &wire, &conf), Collected::More);
    let mut wire = Vec::new();
    push_record(&mut wire, RecordType::Stdout, b"C: d\n\nbody");
    let at = "A: b\nC: d\n\n".len();
    assert_eq!(c.next(ReadEvent::Got(wire.len()), &wire, &conf), Collected::Streaming(at));
    assert_eq!(text(&c.body.out[at..]), "body");
    // With the budget, too, a head is cut off behind its empty line alone.
    conf.buffering = true;
    conf.buffer_budget = 0;
    let mut c = Collector::new();
    let mut wire = Vec::new();
    push_record(&mut wire, RecordType::Stdout, b"A: b\r\n");
    assert_eq!(c.next(ReadEvent::Got(wire.len()), &wire, &conf), Collected::More);
    let mut wire = Vec::new();
    push_record(&mut wire, RecordType::Stdout, b"C: d\r\n\r\nx");
    assert_eq!(c.next(ReadEvent::Got(wire.len()), &wire, &conf), Collected::Streaming(14));
    // At the end of everything the last line ends the head.
    let e = env();
    let page = complete_reply(&mut ctx(&e), &conf, b"A: b\n", 0).unwrap();
    assert_eq!(page.resp.get("a"), Some(&b"b"[..]));
    assert_eq!(page.body, Some(vec![]));
}

#[test]
fn long_responses_are_streamed() {
    let mut c = Collector::new();
    let mut wire = Vec::new();
    push_record(&mut wire, RecordType::Stdout, b"A: b\r\n\r\n");
    assert_eq!(c.next(ReadEvent::Got(wire.len()), &wire, &fcgi_conf()), Collected::More);
    let mut wire = Vec::new();
    push_record(&mut wire, RecordType::Stdout, b"more than eight");
    assert_eq!(c.next(ReadEvent::Got(wire.len()), &wire, &fcgi_conf()), Collected::Streaming(8));
    assert_eq!(c.next(ReadEvent::TimedOut, b"", &fcgi_conf()), Collected::Fail(504));
    assert_eq!(c.next(ReadEvent::Failed, b"", &fcgi_conf()), Collected::Fail(502));
    let mut end = Vec::new();
    end_record(&mut end);
    assert_eq!(c.next(ReadEvent::Got(end.len()), &end, &fcgi_conf()), Collected::Complete);
}

#[test]
fn cgi_headers_make_the_response() {
    let e = env();
    let mut c = ctx(&e);
    let head = b"Status: 404 Not Found\r\nX-Powered-By: x\r\nContent-Length: 7\r\nX: y\r\n";
    let (resp, len) = parse_cgi_headers(&mut c, &fcgi_conf(), head);
    assert_eq!(resp.status, 404);
    assert_eq!(len, Some(7));
    assert_eq!(resp.headers.len(), 1);
    assert_eq!(c.upstream_status, 404);
    let (resp, _) = parse_cgi_headers(&mut c, &fcgi_conf(), b"Location: /x\n");
    assert_eq!(resp.status, 302, "a bare Location redirects");
}

#[test]
fn a_complete_response_has_headers_and_a_body() {
    let e = env();
    let mut c = ctx(&e);
    let conf = fcgi_conf();
    let p = complete_reply(&mut c, &conf, b"X: y\r\n\r\nbody", 0).unwrap();
    assert_eq!(p.body, Some(b"body".to_vec()));
    assert_eq!(complete_reply(&mut c, &conf, b"no headers at all", 0).err(), Some(502));
    assert_eq!(complete_reply(&mut c, &conf, b"", 1).err(), Some(502));
    assert_eq!(complete_reply(&mut c, &conf, b"", 0).unwrap().resp.status, 200);
}

// ---------------------------------------------------------------- the application firewall

#[test]
fn a_transaction_shows_the_request() {
    let mut e = env();
    e.body = b"payload".to_vec();
    let t = transaction(&ctx(&e));
    assert_eq!(text(&t.client), "10.0.0.7");
    assert_eq!(t.client_port, 5000);
    assert_eq!(text(&t.uri), "/docs/a?x=1");
    assert_eq!(text(&t.http_version), "1.1");
    assert_eq!(t.headers.len(), e.req.headers.len());
    assert_eq!(t.body, b"payload");
}

#[test]
fn only_disruptive_rules_block() {
    let it = |acted, disruptive, status, url: Option<&str>| Intervention {
        acted,
        disruptive,
        status,
        url: url.map(|u| u.as_bytes().to_vec()),
    };
    assert!(matches!(judge(it(true, false, 403, None)), Verdict::Allow));
    assert!(matches!(judge(it(false, true, 403, None)), Verdict::Allow));
    assert!(matches!(judge(it(true, true, 418, None)), Verdict::Block { status: 418 }));
    assert!(matches!(judge(it(true, true, 7, None)), Verdict::Block { status: 403 }));
    let v = judge(it(true, true, 302, Some("/blocked")));
    assert!(!judges_body(&v));
    match outcome(v) {
        Some(Blocked::Redirect(p)) => {
            assert_eq!(p.resp.status, 302);
            assert_eq!(p.resp.get("location"), Some(&b"/blocked"[..]));
        }
        other => panic!("{other:?}"),
    }
    assert!(matches!(outcome(Verdict::Block { status: 418 }), Some(Blocked::Status(418))));
    assert!(outcome(Verdict::Allow).is_none());
}
