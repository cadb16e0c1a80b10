use oxiserve::config::{
    Action, Clock, Cond, CoreConf, Env, Expires, Gzip, IfAction, IfBlock, IfModifiedSince, Location, Part, Req,
    Rewrite, RewriteFlag, ServerConf, SetDirective, Template, TryFallback, TryFiles, Var,
};
use oxiserve::ctx::Ctx;
use oxiserve::dispatch::{
    run_ifs, server_ifs, server_rewrites, Answer, Ask, Dispatch, IfTurn, LimitAnswer, LimitAsk, Limiting, ServerTurn,
};
use oxiserve::fcache::OpenFileCache;
use oxiserve::handler::{Probe, Stage, Step};
use oxiserve::limit_req::Decision;

fn text(s: &str) -> Template {
    Template { parts: vec![Part::Literal(s.as_bytes().to_vec())] }
}

fn uri() -> Template {
    Template { parts: vec![Part::Variable(Var::Uri)] }
}

fn core_conf() -> CoreConf {
    CoreConf {
        root: text("/srv"),
        alias: None,
        internal: false,
        add_headers: Vec::new(),
        expires: None::<Expires>,
        gzip: Gzip { enabled: false, http_version_1_0: false, types: Vec::new(), min_length: 20, level: 1, vary: false },
        limit_req_status: 503,
        limit_conn_status: 429,
        limit_conn_dry_run: false,
        auth_request: None,
        auth_request_set: Vec::new(),
        index: Vec::new(),
        autoindex: false,
        absolute_redirect: true,
        port_in_redirect: true,
        etag: true,
        if_modified_since: IfModifiedSince::Exact,
        max_ranges: None,
        sendfile: false,
        default_type: b"text/plain".to_vec(),
        charset: None,
        open_file_cache: OpenFileCache { enabled: false, max: 0, inactive: 0, valid: 0, min_uses: 0, errors: false },
        moved_page: b"moved, here".to_vec(),
    }
}

fn location(action: Action) -> Location {
    Location {
        prefix: Some(b"/".to_vec()),
        core: core_conf(),
        error_pages: Vec::new(),
        allowed_methods: None,
        rewrites: Vec::new(),
        ifs: Vec::new(),
        try_files: None,
        action,
    }
}

fn env(locations: Vec<Location>) -> Env {
    Env {
        req: Req {
            method: b"GET".to_vec(),
            target: b"/a".to_vec(),
            minor: 1,
            headers: Vec::new(),
            host: b"h".to_vec(),
            head_len: 0,
            accepts_gzip: false,
        },
        body: Vec::new(),
        maps: Vec::new(),
        server: ServerConf {
            names: Vec::new(),
            core: core_conf(),
            error_pages: Vec::new(),
            alt_svc: None,
            rewrites: Vec::new(),
            ifs: Vec::new(),
            locations,
            default_pages: Vec::new(),
            action: Action::Nothing,
        },
        remote: None,
        local: None,
        scheme: b"http".to_vec(),
        conn_id: 1,
        conn_requests: 1,
    }
}

fn clock() -> Clock {
    Clock {
        elapsed_us: 0,
        now_us: 0,
        time_local: Vec::new(),
        time_iso8601: Vec::new(),
        hostname: Vec::new(),
        pid: 1,
        version: Vec::new(),
    }
}

fn file(is_file: bool) -> Probe {
    Probe { exists: is_file, is_file, is_dir: false, executable: false }
}

fn set(name: &str, value: &str) -> IfAction {
    IfAction::Assign(SetDirective { name: name.as_bytes().to_vec(), value: text(value) })
}

#[test]
fn a_guarded_location_serves_only_after_its_limits_and_its_service() {
    let mut loc = location(Action::Proxy);
    loc.core.auth_request = Some(b"/_auth".to_vec());
    let e = env(vec![loc]);
    let mut ctx = Ctx::new(&e, clock(), b"/a".to_vec(), Vec::new());
    ctx.matched = Some(0);
    let (mut d, ask) = Dispatch::start(&mut ctx, false);
    assert!(matches!(ask, Ask::Limit));
    let ask = d.next(&mut ctx, false, Answer::Granted);
    assert!(matches!(&ask, Ask::Authorise(u) if u == b"/_auth"));
    let ask = d.next(&mut ctx, false, Answer::Granted);
    assert!(matches!(ask, Ask::Proxy));
}

#[test]
fn a_refusal_of_the_service_is_the_answer() {
    let mut loc = location(Action::Static);
    loc.core.auth_request = Some(b"/_auth".to_vec());
    let e = env(vec![loc]);
    let mut ctx = Ctx::new(&e, clock(), b"/a".to_vec(), Vec::new());
    ctx.matched = Some(0);
    // An internal pass is not limited again.
    let (mut d, ask) = Dispatch::start(&mut ctx, true);
    assert!(matches!(ask, Ask::Authorise(_)));
    let ask = d.next(&mut ctx, true, Answer::Refused(401));
    assert!(matches!(ask, Ask::Give(Step::Fail(401))));
}

#[test]
fn gates_refuse_by_themselves() {
    let mut loc = location(Action::Static);
    loc.core.internal = true;
    let mut only_post = location(Action::Static);
    only_post.allowed_methods = Some(vec![b"POST".to_vec()]);
    let e = env(vec![loc, only_post]);
    let mut ctx = Ctx::new(&e, clock(), b"/a".to_vec(), Vec::new());
    ctx.matched = Some(0);
    let (_, ask) = Dispatch::start(&mut ctx, false);
    assert!(matches!(ask, Ask::Give(Step::Fail(404))));
    ctx.matched = Some(1);
    let (mut d, ask) = Dispatch::start(&mut ctx, false);
    assert!(matches!(ask, Ask::Limit));
    assert!(matches!(d.next(&mut ctx, false, Answer::Granted), Ask::Give(Step::Fail(405))));
}

#[test]
fn rewrites_conditions_and_candidates_follow_in_order() {
    let mut loc = location(Action::FastCgi);
    loc.rewrites = vec![Rewrite {
        pattern: "^/a$".into(),
        replacement: text("/b"),
        flag: RewriteFlag::Plain,
    }];
    loc.ifs = vec![
        IfBlock { cond: Cond::Eq(Var::Uri, text("/b")), actions: vec![set("first", "1")] },
        IfBlock { cond: Cond::FileExists { path: text("/srv/flag"), negate: false }, actions: vec![set("second", "2")] },
    ];
    loc.try_files = Some(TryFiles { items: vec![uri(), text("/c")], fallback: TryFallback::Status(404) });
    let e = env(vec![loc]);
    let mut ctx = Ctx::new(&e, clock(), b"/a".to_vec(), Vec::new());
    ctx.matched = Some(0);
    let (mut d, ask) = Dispatch::start(&mut ctx, true);
    assert!(matches!(&ask, Ask::Look(p) if p == b"/srv/flag"));
    assert_eq!(d, Dispatch { stage: Stage::Ifs, block: 1 });
    let ask = d.next(&mut ctx, true, Answer::Seen(file(true)));
    assert!(matches!(&ask, Ask::Try(ps) if ps == &vec![b"/srv/b".to_vec(), b"/srv/c".to_vec()]));
    assert_eq!(ctx.set_vars.len(), 2);
    // The second candidate is there: the request is routed anew.
    let ask = d.next(&mut ctx, true, Answer::Candidates(vec![file(false), file(true)]));
    assert!(matches!(&ask, Ask::Give(Step::Internal(u)) if u == b"/c"));
}

#[test]
fn the_current_uri_is_served_in_place() {
    let mut loc = location(Action::FastCgi);
    loc.try_files = Some(TryFiles { items: vec![uri()], fallback: TryFallback::Status(404) });
    let e = env(vec![loc]);
    let mut ctx = Ctx::new(&e, clock(), b"/a".to_vec(), Vec::new());
    ctx.matched = Some(0);
    let (mut d, ask) = Dispatch::start(&mut ctx, true);
    assert!(matches!(ask, Ask::Try(_)));
    assert!(matches!(d.next(&mut ctx, true, Answer::Candidates(vec![file(true)])), Ask::FastCgi));
}

#[test]
fn an_answer_to_another_question_ends_the_pass() {
    let e = env(vec![location(Action::Static)]);
    let mut ctx = Ctx::new(&e, clock(), b"/a".to_vec(), Vec::new());
    ctx.matched = Some(0);
    let (mut d, _) = Dispatch::start(&mut ctx, false);
    assert!(matches!(d.next(&mut ctx, false, Answer::Seen(file(true))), Ask::Give(Step::Fail(500))));
}

#[test]
fn without_a_location_the_server_is_limited_and_serves() {
    let e = env(Vec::new());
    let mut ctx = Ctx::new(&e, clock(), b"/a".to_vec(), Vec::new());
    let (mut d, ask) = Dispatch::start(&mut ctx, false);
    assert!(matches!(ask, Ask::Limit));
    assert!(matches!(d.next(&mut ctx, false, Answer::Granted), Ask::Static));
    let (_, ask) = Dispatch::start(&mut ctx, true);
    assert!(matches!(ask, Ask::Static));
}

#[test]
fn the_phase_of_the_server_can_answer_or_move_the_request() {
    let mut e = env(Vec::new());
    e.server.rewrites = vec![Rewrite {
        pattern: "^/old$".into(),
        replacement: text("/new"),
        flag: RewriteFlag::Permanent,
    }];
    e.server.ifs = vec![
        IfBlock { cond: Cond::DirExists { path: text("/srv/maintenance"), negate: false }, actions: vec![
            IfAction::Return { status: 503, body: None },
        ] },
    ];
    let mut ctx = Ctx::new(&e, clock(), b"/old".to_vec(), Vec::new());
    assert!(matches!(server_rewrites(&mut ctx), Some(p) if p.resp.status == 301));
    let mut ctx = Ctx::new(&e, clock(), b"/x".to_vec(), Vec::new());
    assert!(server_rewrites(&mut ctx).is_none());
    let turn = server_ifs(&mut ctx, 0, None);
    assert!(matches!(&turn, ServerTurn::Look(0, p) if p == b"/srv/maintenance"));
    let dir = Probe { exists: true, is_file: false, is_dir: true, executable: true };
    assert!(matches!(server_ifs(&mut ctx, 0, Some(dir)), ServerTurn::Answer(p) if p.resp.status == 503));
    assert!(matches!(server_ifs(&mut ctx, 0, Some(file(false))), ServerTurn::Route));
}

#[test]
fn a_break_ends_the_blocks() {
    let e = env(Vec::new());
    let mut ctx = Ctx::new(&e, clock(), b"/x".to_vec(), Vec::new());
    let blocks = vec![
        IfBlock { cond: Cond::Always, actions: vec![set("a", "1"), IfAction::Break, set("b", "2")] },
        IfBlock { cond: Cond::Always, actions: vec![set("c", "3")] },
    ];
    assert!(matches!(run_ifs(&mut ctx, &blocks, 0, None), IfTurn::Done(None)));
    assert_eq!(ctx.set_vars.len(), 1);
    assert_eq!(ctx.set_vars[0].name, b"a");
}

#[test]
fn limits_take_slots_before_they_charge_and_wait_longest() {
    let core = core_conf();
    let (mut l, ask) = Limiting::start(1, 3);
    assert_eq!(ask, LimitAsk::TakeSlot(0));
    assert_eq!(l.next(&core, LimitAnswer::Taken(true)), LimitAsk::Charge(0));
    assert_eq!(l.next(&core, LimitAnswer::Charged(Decision::Delay(20))), LimitAsk::Charge(1));
    assert_eq!(l.next(&core, LimitAnswer::NoKey), LimitAsk::Charge(2));
    assert_eq!(l.next(&core, LimitAnswer::Charged(Decision::Delay(5))), LimitAsk::Wait(20));
}

#[test]
fn a_limit_without_room_refuses_at_once_unless_it_is_tried_out() {
    let mut core = core_conf();
    let (mut l, _) = Limiting::start(2, 1);
    assert_eq!(l.next(&core, LimitAnswer::Taken(false)), LimitAsk::Refuse(429));
    core.limit_conn_dry_run = true;
    let (mut l, _) = Limiting::start(1, 1);
    assert_eq!(l.next(&core, LimitAnswer::Taken(false)), LimitAsk::Charge(0));
    assert_eq!(l.next(&core, LimitAnswer::Charged(Decision::Reject)), LimitAsk::Refuse(503));
    let (_, ask) = Limiting::start(0, 0);
    assert_eq!(ask, LimitAsk::Pass);
}
