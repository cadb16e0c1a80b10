//! Request routing: the rewrite phase, location search and action dispatch.
//!
//! 1. server-level `rewrite` and `if` run first;
//! 2. the location is chosen;
//! 3. location-level `rewrite` and `if` run;
//! 4. `try_files` probes the filesystem;
//! 5. the location's action produces a reply;
//! 6. an error status is mapped through `error_page`, which re-enters at (2).
//!
//! Whatever waits (a limit's delay, an upstream, the disk) happens between the
//! calls; each call takes what came of it and says what follows.

use vstd::prelude::*;
use vstd::string::*;

use crate::bytes;
use crate::config::Action;
use crate::config::Cond;
use crate::config::CoreConf;
use crate::config::DefaultPage;
use crate::config::ErrorPage;
use crate::config::ErrorTarget;
use crate::config::IfAction;
use crate::config::IfBlock;
use crate::config::Location;
use crate::config::Req;
use crate::config::Rewrite;
use crate::config::RewriteFlag;
use crate::config::SetDirective;
use crate::config::Template;
use crate::config::TryFallback;
use crate::config::TryFiles;
use crate::ctx;
use crate::ctx::Ctx;
use crate::ctx::CtxView;
use crate::http;
use crate::http::Header;
use crate::http::Resp;
use crate::http::RespView;
use crate::limit_req::Decision;
use crate::pattern;

verus! {

/// Bounds internal redirects, so a `try_files` cycle answers 500 rather than
/// spinning a worker forever.
pub const MAX_INTERNAL_REDIRECTS: u32 = 10;

/// A reply whose body is at hand.
#[derive(Debug)]
pub struct Page {
    pub resp: Resp,
    pub body: Option<Vec<u8>>,
}

/// A reply as plain values.
#[verifier::ext_equal]
pub ghost struct PageView {
    pub resp: RespView,
    pub body: Option<Seq<u8>>,
}

impl View for Page {
    type V = PageView;

    open spec fn view(&self) -> PageView {
        PageView {
            resp: self.resp@,
            body: match self.body {
                Some(b) => Some(b@),
                None => None,
            },
        }
    }
}

/// Outcome of one routing pass.
#[derive(Debug)]
pub enum Step {
    Done(Page),
    Fail(u16),
    /// Re-run location selection against a new URI.
    Internal(Vec<u8>),
    /// Jump to a named `@location`.
    Named(Vec<u8>),
}

/// An outcome as plain values.
#[verifier::ext_equal]
pub ghost enum StepView {
    Done(PageView),
    Fail(u16),
    Internal(Seq<u8>),
    Named(Seq<u8>),
}

impl View for Step {
    type V = StepView;

    open spec fn view(&self) -> StepView {
        match self {
            Step::Done(p) => StepView::Done(p@),
            Step::Fail(c) => StepView::Fail(*c),
            Step::Internal(u) => StepView::Internal(u@),
            Step::Named(n) => StepView::Named(n@),
        }
    }
}

/// An outcome that may be missing, as plain values.
pub open spec fn step_view(s: Option<Step>) -> Option<StepView> {
    match s {
        Some(x) => Some(x@),
        None => None,
    }
}

// ---------------------------------------------------------------- pages

/// The page for a status, from the `i`th on, or nothing.
pub open spec fn page_from(pages: Seq<DefaultPage>, code: u16, i: int) -> Seq<u8>
    decreases pages.len() - i,
{
    if i < 0 || i >= pages.len() {
        Seq::empty()
    } else if pages[i].code == code {
        pages[i].body@
    } else {
        page_from(pages, code, i + 1)
    }
}

fn default_page(pages: &Vec<DefaultPage>, code: u16) -> (r: Vec<u8>)
    ensures
        r@ == page_from(pages@, code, 0),
{
    for i in 0..pages.len()
        invariant
            page_from(pages@, code, 0) == page_from(pages@, code, i as int),
    {
        if pages[i].code == code {
            return bytes::copy(pages[i].body.as_slice());
        }
    }
    Vec::new()
}

/// A reply with the default page of a status, or without a body where the status
/// has none.
pub open spec fn with_page(c: CtxView, resp: RespView, code: u16) -> PageView {
    if http::bodyless(code) {
        PageView { resp, body: None }
    } else {
        PageView {
            resp: if http::value_of(resp.headers, bytes::utf8("content-type"@)) is Some {
                resp
            } else {
                RespView {
                    headers: resp.headers.push(
                        (bytes::utf8("Content-Type"@), bytes::utf8("text/html"@)),
                    ),
                    ..resp
                }
            },
            body: Some(page_from(c.env.server.default_pages@, code, 0)),
        }
    }
}

fn error_body(ctx: &Ctx, resp: Resp, code: u16) -> (r: Page)
    ensures
        r@ == with_page(ctx@, resp@, code),
{
    if http::is_bodyless(code) {
        return Page { resp, body: None };
    }
    let mut resp = resp;
    if !resp.has("content-type") {
        resp.header("Content-Type", "text/html".as_bytes());
    }
    Page { resp, body: Some(default_page(&ctx.env.server.default_pages, code)) }
}

/// Statuses that end a request whose body was never read: the connection cannot
/// be reused for what follows.
pub open spec fn ends_connection(code: u16) -> bool {
    code == 400 || code == 408 || code == 413 || code == 414 || code == 431 || code == 500 || code
        == 501 || code == 505
}

/// The default error page of a status.
pub open spec fn error_page(c: CtxView, code: u16) -> PageView {
    with_page(c, RespView { keep_alive: !ends_connection(code), ..http::bare(code) }, code)
}

/// Builds the default error page for a status.
pub fn error_reply(ctx: &Ctx, code: u16) -> (r: Page)
    ensures
        r@ == error_page(ctx@, code),
{
    let mut resp = Resp::new(code);
    if code == 400 || code == 408 || code == 413 || code == 414 || code == 431 || code == 500
        || code == 501 || code == 505 {
        resp.keep_alive = false;
    }
    error_body(ctx, resp, code)
}

/// The reply of a `return`. For 3xx the argument is a URL, for everything else a
/// body; without one the default page is sent.
pub open spec fn returned(c: CtxView, code: u16, body: Option<Template>) -> PageView {
    if 300 <= code < 400 {
        PageView {
            resp: match body {
                Some(t) => RespView {
                    headers: seq![(bytes::utf8("Location"@), ctx::shown(c, t))],
                    ..http::bare(code)
                },
                None => http::bare(code),
            },
            body: None,
        }
    } else if code == 204 {
        PageView { resp: http::bare(code), body: None }
    } else {
        match body {
            Some(t) => PageView {
                resp: RespView {
                    headers: seq![(bytes::utf8("Content-Type"@), bytes::utf8("text/plain"@))],
                    ..http::bare(code)
                },
                body: Some(ctx::shown(c, t)),
            },
            None => error_page(c, code),
        }
    }
}

/// Builds the reply of a `return`.
pub fn return_reply(ctx: &Ctx, code: u16, body: &Option<Template>) -> (r: Page)
    ensures
        r@ == returned(ctx@, code, *body),
{
    let mut resp = Resp::new(code);
    if code >= 300 && code < 400 {
        if let Some(t) = body {
            let url: Vec<u8> = ctx.render(t);
            resp.header("Location", url.as_slice());
            assert(resp@.headers =~= seq![(bytes::utf8("Location"@), url@)]);
        }
        return Page { resp, body: None };
    }
    if code == 204 {
        return Page { resp, body: None };
    }
    match body {
        Some(t) => {
            let text: Vec<u8> = ctx.render(t);
            resp.header("Content-Type", "text/plain".as_bytes());
            assert(resp@.headers =~= seq![
                (bytes::utf8("Content-Type"@), bytes::utf8("text/plain"@)),
            ]);
            Page { resp, body: Some(text) }
        },
        None => error_reply(ctx, code),
    }
}

/// Where a redirect leads: the arguments travel along unless the target has its
/// own.
pub open spec fn with_args(target: Seq<u8>, args: Seq<u8>) -> Seq<u8> {
    if args.len() > 0 && !bytes::has(target, 63) {
        target + seq![63u8] + args
    } else {
        target
    }
}

/// The reply of a redirect.
pub open spec fn redirected(c: CtxView, code: u16, target: Seq<u8>) -> PageView {
    with_page(
        c,
        RespView {
            headers: seq![(bytes::utf8("Location"@), with_args(target, c.args))],
            ..http::bare(code)
        },
        code,
    )
}

fn redirect(ctx: &Ctx, code: u16, target: Vec<u8>) -> (r: Page)
    ensures
        r@ == redirected(ctx@, code, target@),
{
    let mut resp = Resp::new(code);
    let mut loc: Vec<u8> = target;
    if ctx.args.len() > 0 && !bytes::contains(loc.as_slice(), 63) {
        loc.push(63);
        loc.extend_from_slice(ctx.args.as_slice());
    }
    assert(loc@ =~= with_args(target@, ctx@.args));
    resp.header("Location", loc.as_slice());
    assert(resp@.headers =~= seq![(bytes::utf8("Location"@), loc@)]);
    error_body(ctx, resp, code)
}

// ---------------------------------------------------------------- rewrites

/// What a directive of the rewrite phase leads to.
#[derive(Debug)]
pub enum Flow {
    /// The next directive.
    Next,
    /// The end of this phase.
    Stop,
    Give(Step),
}

/// What a directive leads to, as plain values.
#[verifier::ext_equal]
pub ghost enum FlowView {
    Next,
    Stop,
    Give(StepView),
}

impl View for Flow {
    type V = FlowView;

    open spec fn view(&self) -> FlowView {
        match self {
            Flow::Next => FlowView::Next,
            Flow::Stop => FlowView::Stop,
            Flow::Give(s) => FlowView::Give(s@),
        }
    }
}

/// Whether a replacement names another site.
pub open spec fn is_absolute(target: Seq<u8>) -> bool {
    bytes::starts(target, bytes::utf8("http://"@)) || bytes::starts(
        target,
        bytes::utf8("https://"@),
    )
}

/// A target with a query string of its own replaces the arguments; a trailing `?`
/// clears them.
pub open spec fn split_args(c: CtxView, full: Seq<u8>) -> (CtxView, Seq<u8>) {
    let q = bytes::find(full, 63, 0);
    if q < full.len() {
        (
            CtxView { args: full.subrange(q + 1, full.len() as int), ..c },
            full.subrange(0, q),
        )
    } else {
        (c, full)
    }
}

fn take_args(ctx: &mut Ctx, full: Vec<u8>) -> (r: Vec<u8>)
    ensures
        (final(ctx)@, r@) == split_args(old(ctx)@, full@),
{
    let q: usize = bytes::find_from(full.as_slice(), 63, 0);
    if q < full.len() {
        ctx.args = bytes::copy(&full.as_slice()[q + 1..full.len()]);
        let target: Vec<u8> = bytes::copy(&full.as_slice()[0..q]);
        assert(ctx@ =~= split_args(old(ctx)@, full@).0);
        target
    } else {
        full
    }
}

/// What a `rewrite` whose pattern captured these groups does.
pub open spec fn rewritten(c: CtxView, r: Rewrite, groups: Seq<Seq<u8>>) -> (CtxView, FlowView) {
    let c1 = CtxView { captures: groups, ..c };
    let (c2, target) = split_args(c1, ctx::shown(c1, r.replacement));
    let moved = CtxView { uri: target, ..c2 };
    match r.flag {
        RewriteFlag::Redirect => (c2, FlowView::Give(StepView::Done(redirected(c2, 302, target)))),
        RewriteFlag::Permanent => (c2, FlowView::Give(StepView::Done(redirected(c2, 301, target)))),
        _ => if is_absolute(target) {
            (c2, FlowView::Give(StepView::Done(redirected(c2, 302, target))))
        } else {
            match r.flag {
                RewriteFlag::Last => (moved, FlowView::Give(StepView::Internal(target))),
                RewriteFlag::Break => (moved, FlowView::Stop),
                _ => (moved, FlowView::Next),
            }
        },
    }
}

/// One `rewrite`.
pub open spec fn rewrite_one(c: CtxView, r: Rewrite) -> (CtxView, FlowView) {
    match pattern::captured(r.pattern@, c.uri) {
        None => (c, FlowView::Next),
        Some(groups) => rewritten(c, r, groups),
    }
}

/// Carries out a `rewrite` whose pattern captured these groups.
pub fn apply_rewrite(ctx: &mut Ctx, r: &Rewrite, groups: Vec<Vec<u8>>) -> (f: Flow)
    ensures
        (final(ctx)@, f@) == rewritten(old(ctx)@, *r, pattern::views(groups@)),
{
    ctx.set_captures(groups);
    let full: Vec<u8> = ctx.render(&r.replacement);
    let target: Vec<u8> = take_args(ctx, full);
    let absolute: bool = bytes::starts_with(target.as_slice(), "http://".as_bytes())
        || bytes::starts_with(target.as_slice(), "https://".as_bytes());
    match r.flag {
        RewriteFlag::Redirect => Flow::Give(Step::Done(redirect(ctx, 302, target))),
        RewriteFlag::Permanent => Flow::Give(Step::Done(redirect(ctx, 301, target))),
        _ => {
            if absolute {
                // Absolute replacements redirect implicitly.
                return Flow::Give(Step::Done(redirect(ctx, 302, target)));
            }
            ctx.uri = bytes::copy(target.as_slice());
            match r.flag {
                RewriteFlag::Last => Flow::Give(Step::Internal(target)),
                RewriteFlag::Break => Flow::Stop,
                _ => Flow::Next,
            }
        },
    }
}

/// Applies one `rewrite`.
pub fn run_rewrite(ctx: &mut Ctx, r: &Rewrite) -> (f: Flow)
    ensures
        (final(ctx)@, f@) == rewrite_one(old(ctx)@, *r),
{
    match pattern::capture(r.pattern.as_str(), ctx.uri.as_slice()) {
        None => Flow::Next,
        Some(groups) => apply_rewrite(ctx, r, groups),
    }
}

/// The `rewrite` directives from the `i`th on.
pub open spec fn rewrites_from(c: CtxView, rules: Seq<Rewrite>, i: int) -> (
    CtxView,
    Option<StepView>,
)
    decreases rules.len() - i,
{
    if i < 0 || i >= rules.len() {
        (c, None)
    } else {
        let (next, flow) = rewrite_one(c, rules[i]);
        match flow {
            FlowView::Next => rewrites_from(next, rules, i + 1),
            FlowView::Stop => (next, None),
            FlowView::Give(s) => (next, Some(s)),
        }
    }
}

/// Applies the `rewrite` directives of a block.
pub fn run_rewrites(ctx: &mut Ctx, rules: &Vec<Rewrite>) -> (r: Option<Step>)
    ensures
        (final(ctx)@, step_view(r)) == rewrites_from(old(ctx)@, rules@, 0),
{
    for i in 0..rules.len()
        invariant
            rewrites_from(old(ctx)@, rules@, 0) == rewrites_from(ctx@, rules@, i as int),
    {
        match run_rewrite(ctx, &rules[i]) {
            Flow::Next => {},
            Flow::Stop => {
                return None;
            },
            Flow::Give(s) => {
                return Some(s);
            },
        }
    }
    None
}

/// A `rewrite` that matches nothing changes nothing.
pub proof fn law_rewrites_that_do_not_match_change_nothing(c: CtxView, rules: Seq<Rewrite>, i: int)
    requires
        0 <= i,
        forall|k: int|
            i <= k < rules.len() ==> pattern::captured((#[trigger] rules[k]).pattern@, c.uri) is None,
    ensures
        rewrites_from(c, rules, i) == (c, None::<StepView>),
    decreases rules.len() - i,
{
    if i < rules.len() {
        law_rewrites_that_do_not_match_change_nothing(c, rules, i + 1);
    }
}

// ---------------------------------------------------------------- conditions

/// What the filesystem says of a path.
#[derive(Debug, Clone, Copy, PartialEq, Eq, Structural)]
pub struct Probe {
    pub exists: bool,
    pub is_file: bool,
    pub is_dir: bool,
    pub executable: bool,
}

/// The path a condition asks about.
pub open spec fn probed_path(c: CtxView, cond: Cond) -> Option<Seq<u8>> {
    match cond {
        Cond::FileExists { path, negate } => Some(ctx::shown(c, path)),
        Cond::DirExists { path, negate } => Some(ctx::shown(c, path)),
        Cond::AnyExists { path, negate } => Some(ctx::shown(c, path)),
        Cond::Executable { path, negate } => Some(ctx::shown(c, path)),
        _ => None,
    }
}

/// Renders the path a condition asks about, if it asks about one.
pub fn cond_path(ctx: &Ctx, cond: &Cond) -> (r: Option<Vec<u8>>)
    ensures
        match r {
            Some(p) => probed_path(ctx@, *cond) == Some(p@),
            None => probed_path(ctx@, *cond) is None,
        },
{
    match cond {
        Cond::FileExists { path, negate } => Some(ctx.render(path)),
        Cond::DirExists { path, negate } => Some(ctx.render(path)),
        Cond::AnyExists { path, negate } => Some(ctx.render(path)),
        Cond::Executable { path, negate } => Some(ctx.render(path)),
        _ => None,
    }
}

/// Whether a condition holds, given what the filesystem says of the path it asks
/// about. An empty value and `0` are false, everything else is true.
pub open spec fn holds(c: CtxView, cond: Cond, probe: Probe) -> bool {
    match cond {
        Cond::Always => true,
        Cond::Truthy(v) => ctx::value(c, v, 0).len() > 0 && ctx::value(c, v, 0) != seq![48u8],
        Cond::Eq(v, t) => ctx::value(c, v, 0) == ctx::shown(c, t),
        Cond::Ne(v, t) => ctx::value(c, v, 0) != ctx::shown(c, t),
        Cond::Match { var, pattern, negate } => pattern::found(pattern@, ctx::value(c, var, 0))
            != negate,
        Cond::FileExists { path, negate } => (probe.exists && probe.is_file) != negate,
        Cond::DirExists { path, negate } => (probe.exists && probe.is_dir) != negate,
        Cond::AnyExists { path, negate } => probe.exists != negate,
        Cond::Executable { path, negate } => (probe.exists && probe.executable) != negate,
    }
}

/// Evaluates a condition.
pub fn eval_cond(ctx: &Ctx, cond: &Cond, probe: Probe) -> (r: bool)
    ensures
        r == holds(ctx@, *cond, probe),
{
    let mut s: Vec<u8> = Vec::new();
    match cond {
        Cond::Always => true,
        Cond::Truthy(v) => {
            ctx.var(v, &mut s);
            assert(s@ =~= ctx::value(ctx@, *v, 0));
            let zero: bool = s.len() == 1 && s[0] == 48;
            assert(zero == (s@ =~= seq![48u8]));
            s.len() > 0 && !zero
        },
        Cond::Eq(v, t) => {
            ctx.var(v, &mut s);
            assert(s@ =~= ctx::value(ctx@, *v, 0));
            let other: Vec<u8> = ctx.render(t);
            bytes::same(s.as_slice(), other.as_slice())
        },
        Cond::Ne(v, t) => {
            ctx.var(v, &mut s);
            assert(s@ =~= ctx::value(ctx@, *v, 0));
            let other: Vec<u8> = ctx.render(t);
            !bytes::same(s.as_slice(), other.as_slice())
        },
        Cond::Match { var, pattern, negate } => {
            ctx.var(var, &mut s);
            assert(s@ =~= ctx::value(ctx@, *var, 0));
            pattern::matches(pattern.as_str(), s.as_slice()) != *negate
        },
        Cond::FileExists { path, negate } => (probe.exists && probe.is_file) != *negate,
        Cond::DirExists { path, negate } => (probe.exists && probe.is_dir) != *negate,
        Cond::AnyExists { path, negate } => probe.exists != *negate,
        Cond::Executable { path, negate } => (probe.exists && probe.executable) != *negate,
    }
}

/// A variable assigned by a directive.
pub open spec fn assigned_by(c: CtxView, d: SetDirective) -> CtxView {
    CtxView { set_vars: ctx::assigned(c.set_vars, d.name@, ctx::shown(c, d.value)), ..c }
}

fn assign(ctx: &mut Ctx, d: &SetDirective)
    ensures
        final(ctx)@ == assigned_by(old(ctx)@, *d),
{
    let v: Vec<u8> = ctx.render(&d.value);
    ctx.set(d.name.as_slice(), v);
}

/// The actions of an `if` block from the `i`th on.
pub open spec fn actions_from(c: CtxView, actions: Seq<IfAction>, i: int) -> (CtxView, FlowView)
    decreases actions.len() - i,
{
    if i < 0 || i >= actions.len() {
        (c, FlowView::Next)
    } else {
        match actions[i] {
            IfAction::Return { status, body } => (
                c,
                FlowView::Give(StepView::Done(returned(c, status, body))),
            ),
            IfAction::Assign(d) => actions_from(assigned_by(c, d), actions, i + 1),
            IfAction::Rewrite(r) => {
                let (next, flow) = rewrite_one(c, r);
                match flow {
                    FlowView::Give(s) => (next, flow),
                    _ => actions_from(next, actions, i + 1),
                }
            },
            IfAction::AddHeader(_) => actions_from(c, actions, i + 1),
            IfAction::Break => (c, FlowView::Stop),
        }
    }
}

/// One `if` block.
pub open spec fn if_ran(c: CtxView, b: IfBlock, probe: Probe) -> (CtxView, FlowView) {
    if holds(c, b.cond, probe) {
        actions_from(c, b.actions@, 0)
    } else {
        (c, FlowView::Next)
    }
}

/// Runs one `if` block, given what the filesystem says of the path its condition
/// asks about.
pub fn run_if(ctx: &mut Ctx, b: &IfBlock, probe: Probe) -> (f: Flow)
    ensures
        (final(ctx)@, f@) == if_ran(old(ctx)@, *b, probe),
{
    if !eval_cond(ctx, &b.cond, probe) {
        return Flow::Next;
    }
    for i in 0..b.actions.len()
        invariant
            actions_from(old(ctx)@, b.actions@, 0) == actions_from(ctx@, b.actions@, i as int),
            holds(old(ctx)@, b.cond, probe),
    {
        match &b.actions[i] {
            IfAction::Return { status, body } => {
                return Flow::Give(Step::Done(return_reply(ctx, *status, body)));
            },
            IfAction::Assign(d) => {
                assign(ctx, d);
            },
            IfAction::Rewrite(r) => {
                match run_rewrite(ctx, r) {
                    Flow::Give(s) => {
                        return Flow::Give(s);
                    },
                    _ => {},
                }
            },
            IfAction::AddHeader(_) => {},
            IfAction::Break => {
                return Flow::Stop;
            },
        }
    }
    Flow::Next
}

// ---------------------------------------------------------------- try_files

/// The path a candidate of `try_files` stands for.
pub open spec fn tried_path(c: CtxView, item: Template) -> Seq<u8> {
    let candidate = ctx::shown(c, item);
    let root = ctx::shown(c, ctx::root_template(c));
    if candidate.len() > 0 && candidate[0] == 47 {
        root + candidate
    } else {
        root + seq![47u8] + candidate
    }
}

/// Whether a candidate is there: `$uri/` matches only a directory, `$uri` only a
/// regular file. One that renders to nothing is skipped.
pub open spec fn fits(candidate: Seq<u8>, p: Probe) -> bool {
    candidate.len() > 0 && p.exists && if candidate.last() == 47 {
        p.is_dir
    } else {
        p.is_file
    }
}

/// The place of the first candidate that is there, from the `i`th on, or the length.
pub open spec fn first_fit(c: CtxView, items: Seq<Template>, probes: Seq<Probe>, i: int) -> int
    decreases items.len() - i,
{
    if i < 0 || i >= items.len() {
        items.len() as int
    } else if fits(ctx::shown(c, items[i]), probes[i]) {
        i
    } else {
        first_fit(c, items, probes, i + 1)
    }
}

/// What `try_files` leads to: the first candidate that is there, or the fallback.
/// The current URI is served in place.
pub open spec fn tried(c: CtxView, tf: TryFiles, probes: Seq<Probe>) -> (CtxView, Option<StepView>) {
    let i = first_fit(c, tf.items@, probes, 0);
    if 0 <= i < tf.items@.len() {
        let candidate = ctx::shown(c, tf.items@[i]);
        if candidate == c.uri {
            (c, None)
        } else {
            (c, Some(StepView::Internal(candidate)))
        }
    } else {
        match tf.fallback {
            TryFallback::Status(s) => (c, Some(StepView::Fail(s))),
            TryFallback::Named(n) => (c, Some(StepView::Named(n@))),
            TryFallback::Uri(t) => {
                let (next, target) = split_args(c, ctx::shown(c, t));
                (next, Some(StepView::Internal(target)))
            },
        }
    }
}

/// The paths to probe for `try_files`, one for each candidate.
pub fn try_paths(ctx: &Ctx, tf: &TryFiles) -> (r: Vec<Vec<u8>>)
    ensures
        r@.len() == tf.items@.len(),
        forall|k: int|
            0 <= k < r@.len() ==> (#[trigger] r@[k])@ == tried_path(ctx@, tf.items@[k]),
{
    let root: Vec<u8> = ctx.render(ctx.root_of());
    let mut out: Vec<Vec<u8>> = Vec::new();
    for i in 0..tf.items.len()
        invariant
            root@ == ctx::shown(ctx@, ctx::root_template(ctx@)),
            out@.len() == i,
            forall|k: int|
                0 <= k < i ==> (#[trigger] out@[k])@ == tried_path(ctx@, tf.items@[k]),
    {
        let candidate: Vec<u8> = ctx.render(&tf.items[i]);
        let mut path: Vec<u8> = bytes::copy(root.as_slice());
        if !(candidate.len() > 0 && candidate[0] == 47) {
            path.push(47);
        }
        path.extend_from_slice(candidate.as_slice());
        assert(path@ =~= tried_path(ctx@, tf.items@[i as int]));
        out.push(path);
    }
    out
}

/// Runs `try_files`, given what the filesystem says of the path of each candidate.
pub fn run_try_files(ctx: &mut Ctx, tf: &TryFiles, probes: &Vec<Probe>) -> (r: Option<Step>)
    requires
        probes@.len() == tf.items@.len(),
    ensures
        (final(ctx)@, step_view(r)) == tried(old(ctx)@, *tf, probes@),
{
    for i in 0..tf.items.len()
        invariant
            probes@.len() == tf.items@.len(),
            ctx@ == old(ctx)@,
            first_fit(ctx@, tf.items@, probes@, 0) == first_fit(
                ctx@,
                tf.items@,
                probes@,
                i as int,
            ),
    {
        let candidate: Vec<u8> = ctx.render(&tf.items[i]);
        let n: usize = candidate.len();
        if n > 0 {
            let p: Probe = probes[i];
            let wants_dir: bool = candidate[n - 1] == 47;
            if p.exists && ((wants_dir && p.is_dir) || (!wants_dir && p.is_file)) {
                if bytes::same(candidate.as_slice(), ctx.uri.as_slice()) {
                    return None;
                }
                return Some(Step::Internal(candidate));
            }
        }
    }
    match &tf.fallback {
        TryFallback::Status(s) => Some(Step::Fail(*s)),
        TryFallback::Named(n) => Some(Step::Named(bytes::copy(n.as_slice()))),
        TryFallback::Uri(t) => {
            let full: Vec<u8> = ctx.render(t);
            let target: Vec<u8> = take_args(ctx, full);
            Some(Step::Internal(target))
        },
    }
}

// ---------------------------------------------------------------- location search

/// What one level of the location search found.
#[derive(Debug)]
pub struct Hit {
    /// The location, by its place in the server.
    pub location: usize,
    /// What its pattern captured, if it has one.
    pub captures: Option<Vec<Vec<u8>>>,
}

/// The captures after the first `n` levels: a deeper pattern's replace those of
/// the levels above.
pub open spec fn deepest(c: CtxView, hits: Seq<Hit>, n: int) -> Seq<Seq<u8>>
    decreases n,
{
    if n <= 0 {
        c.captures
    } else {
        match hits[n - 1].captures {
            Some(g) => pattern::views(g@),
            None => deepest(c, hits, n - 1),
        }
    }
}

/// The state after the location search. Nested locations are searched only within
/// the matched parent: the innermost hit is the location.
pub open spec fn located(c: CtxView, hits: Seq<Hit>) -> CtxView {
    CtxView {
        matched: if hits.len() > 0 {
            Some(hits.last().location)
        } else {
            None
        },
        captures: deepest(c, hits, hits.len() as int),
        ..c
    }
}

/// Takes note of what the location search found, the outermost level first.
pub fn set_location(ctx: &mut Ctx, hits: Vec<Hit>)
    ensures
        final(ctx)@ == located(old(ctx)@, hits@),
{
    let ghost all = hits@;
    let ghost before = ctx@;
    ctx.matched = if hits.len() > 0 {
        Some(hits[hits.len() - 1].location)
    } else {
        None
    };
    let ghost after = ctx@;
    let mut rest: Vec<Hit> = hits;
    while rest.len() > 0
        invariant
            all == hits@,
            before == old(ctx)@,
            ctx@ == after,
            after == (CtxView { matched: located(before, all).matched, ..before }),
            rest@.len() <= all.len(),
            rest@ == all.subrange(0, rest@.len() as int),
            deepest(before, all, all.len() as int) == deepest(before, all, rest@.len() as int),
        decreases rest.len(),
    {
        let ghost n = rest@.len() as int;
        assert(rest@[n - 1] == all[n - 1]);
        match rest.pop() {
            Some(h) => {
                assert(h == all[n - 1]);
                if let Some(g) = h.captures {
                    ctx.set_captures(g);
                    return;
                }
            },
            None => {},
        }
        assert(rest@ =~= all.subrange(0, n - 1));
    }
}

// ---------------------------------------------------------------- dispatch

/// The stages a request passes in a location, in order.
#[derive(Debug, Clone, Copy, PartialEq, Eq, Structural)]
pub enum Stage {
    /// `internal` locations are closed to outside requests.
    Gate,
    /// `limit_conn` and `limit_req`.
    Limits,
    /// `limit_except`.
    Methods,
    /// `auth_request`.
    Auth,
    Rewrites,
    Ifs,
    TryFiles,
    Act,
}

/// The stage behind another one. Limiting is only for the real client request: an
/// internal redirect is the same request and must not be charged twice.
pub open spec fn stage_after(s: Stage, loc: Location, internal: bool) -> Stage {
    match s {
        Stage::Gate => if internal {
            Stage::Methods
        } else {
            Stage::Limits
        },
        Stage::Limits => Stage::Methods,
        Stage::Methods => if loc.core.auth_request is Some {
            Stage::Auth
        } else {
            Stage::Rewrites
        },
        Stage::Auth => Stage::Rewrites,
        Stage::Rewrites => Stage::Ifs,
        Stage::Ifs => if loc.try_files is Some {
            Stage::TryFiles
        } else {
            Stage::Act
        },
        Stage::TryFiles => Stage::Act,
        Stage::Act => Stage::Act,
    }
}

/// The next stage of a request in a location.
pub fn next_stage(s: Stage, loc: &Location, internal: bool) -> (r: Stage)
    ensures
        r == stage_after(s, *loc, internal),
{
    match s {
        Stage::Gate => if internal {
            Stage::Methods
        } else {
            Stage::Limits
        },
        Stage::Limits => Stage::Methods,
        Stage::Methods => if loc.core.auth_request.is_some() {
            Stage::Auth
        } else {
            Stage::Rewrites
        },
        Stage::Auth => Stage::Rewrites,
        Stage::Rewrites => Stage::Ifs,
        Stage::Ifs => if loc.try_files.is_some() {
            Stage::TryFiles
        } else {
            Stage::Act
        },
        Stage::TryFiles => Stage::Act,
        Stage::Act => Stage::Act,
    }
}

/// Whether one of the methods names a request's; `GET` implies `HEAD`.
pub open spec fn names_method(allowed: Seq<Vec<u8>>, method: Seq<u8>, i: int) -> bool
    decreases allowed.len() - i,
{
    if i < 0 || i >= allowed.len() {
        false
    } else {
        allowed[i]@ == method || (allowed[i]@ == bytes::utf8("GET"@) && method == bytes::utf8(
            "HEAD"@,
        )) || names_method(allowed, method, i + 1)
    }
}

/// What the gates of a location refuse a request with.
pub open spec fn refused_at(s: Stage, loc: Location, internal: bool, method: Seq<u8>) -> Option<
    u16,
> {
    match s {
        Stage::Gate => if loc.core.internal && !internal {
            Some(404u16)
        } else {
            None
        },
        Stage::Methods => match loc.allowed_methods {
            Some(allowed) => if names_method(allowed@, method, 0) {
                None
            } else {
                Some(405u16)
            },
            None => None,
        },
        _ => None,
    }
}

/// Decides the gates of a location that need nothing but the request.
pub fn gate(s: Stage, loc: &Location, internal: bool, method: &[u8]) -> (r: Option<u16>)
    ensures
        r == refused_at(s, *loc, internal, method@),
{
    match s {
        Stage::Gate => if loc.core.internal && !internal {
            Some(404)
        } else {
            None
        },
        Stage::Methods => match &loc.allowed_methods {
            Some(allowed) => {
                let head: bool = bytes::is_text(method, "HEAD");
                for i in 0..allowed.len()
                    invariant
                        loc.allowed_methods == Some(*allowed),
                        s == Stage::Methods,
                        head == (method@ == bytes::utf8("HEAD"@)),
                        names_method(allowed@, method@, 0) == names_method(
                            allowed@,
                            method@,
                            i as int,
                        ),
                {
                    if bytes::same(allowed[i].as_slice(), method) || (head && bytes::is_text(
                        allowed[i].as_slice(),
                        "GET",
                    )) {
                        return None;
                    }
                }
                Some(405)
            },
            None => None,
        },
        _ => None,
    }
}

/// An `internal` location answers 404 to every outside request.
pub proof fn law_internal_locations_are_closed(loc: Location, method: Seq<u8>)
    requires
        loc.core.internal,
    ensures
        refused_at(Stage::Gate, loc, false, method) == Some(404u16),
        refused_at(Stage::Gate, loc, true, method) is None,
{
}

/// An internal pass is never charged to a limit.
pub proof fn law_internal_passes_are_not_limited(loc: Location, s: Stage)
    ensures
        stage_after(s, loc, true) != Stage::Limits,
{
}

/// What the action of a location needs.
#[derive(Debug)]
pub enum Act {
    Give(Step),
    Static,
    Proxy,
    FastCgi,
}

/// Carries out the action of a location as far as it needs nothing else.
pub fn act(ctx: &Ctx, action: &Action) -> (r: Act)
    ensures
        match action {
            Action::Return { status, body } => r matches Act::Give(s) && s@ == StepView::Done(
                returned(ctx@, *status, *body),
            ),
            Action::Nothing => r matches Act::Give(s) && s@ == StepView::Fail(404),
            Action::Static => r is Static,
            Action::Proxy => r is Proxy,
            Action::FastCgi => r is FastCgi,
        },
{
    match action {
        Action::Return { status, body } => Act::Give(
            Step::Done(return_reply(ctx, *status, body)),
        ),
        Action::Nothing => Act::Give(Step::Fail(404)),
        Action::Static => Act::Static,
        Action::Proxy => Act::Proxy,
        Action::FastCgi => Act::FastCgi,
    }
}

/// Carries out the server's own action where no location matched: a `return`, or
/// else static serving.
pub fn server_act(ctx: &Ctx) -> (r: Act)
    ensures
        match ctx@.env.server.action {
            Action::Return { status, body } => r matches Act::Give(s) && s@ == StepView::Done(
                returned(ctx@, status, body),
            ),
            _ => r is Static,
        },
{
    match &ctx.env.server.action {
        Action::Return { status, body } => Act::Give(
            Step::Done(return_reply(ctx, *status, body)),
        ),
        _ => Act::Static,
    }
}

// ---------------------------------------------------------------- limits

/// The key a limit counts a request under. A request whose key is empty is not
/// limited.
pub fn limit_key(ctx: &Ctx, key: Option<&Template>) -> (r: Option<Vec<u8>>)
    ensures
        match key {
            Some(t) => match r {
                Some(k) => k@ == ctx::shown(ctx@, *t) && k@.len() > 0,
                None => ctx::shown(ctx@, *t).len() == 0,
            },
            None => r is None,
        },
{
    match key {
        Some(t) => {
            let k: Vec<u8> = ctx.render(t);
            if k.len() == 0 {
                None
            } else {
                Some(k)
            }
        },
        None => None,
    }
}

/// What an attempt to take a slot of a `limit_conn` zone leads to: a status when
/// there was none, unless the limit is only tried out.
pub fn limit_conn_verdict(taken: bool, core: &CoreConf) -> (r: Option<u16>)
    ensures
        r == if taken || core.limit_conn_dry_run {
            None
        } else {
            Some(core.limit_conn_status)
        },
{
    if taken || core.limit_conn_dry_run {
        None
    } else {
        Some(core.limit_conn_status)
    }
}

/// The verdict of several `limit_req` limits.
#[derive(Debug, Clone, Copy, PartialEq, Eq, Structural)]
pub enum LimitVerdict {
    /// Go on after this many milliseconds.
    After(u64),
    Refuse(u16),
}

/// The verdict after the first `n` limits: a rejection wins over any delay, and
/// the longest delay wins.
pub open spec fn verdict(ds: Seq<Decision>, n: int, status: u16) -> LimitVerdict
    decreases n,
{
    if n <= 0 {
        LimitVerdict::After(0)
    } else {
        limited(verdict(ds, n - 1, status), ds[n - 1], status)
    }
}

/// One more limit.
pub open spec fn limited(v: LimitVerdict, d: Decision, status: u16) -> LimitVerdict {
    match v {
        LimitVerdict::Refuse(s) => v,
        LimitVerdict::After(ms) => match d {
            Decision::Pass => v,
            Decision::Delay(more) => LimitVerdict::After(
                if more > ms {
                    more
                } else {
                    ms
                },
            ),
            Decision::Reject => LimitVerdict::Refuse(status),
        },
    }
}

/// Takes the decision of one more limit into account.
pub fn apply_limit(v: LimitVerdict, d: Decision, core: &CoreConf) -> (r: LimitVerdict)
    ensures
        r == limited(v, d, core.limit_req_status),
{
    match v {
        LimitVerdict::Refuse(s) => v,
        LimitVerdict::After(ms) => match d {
            Decision::Pass => v,
            Decision::Delay(more) => LimitVerdict::After(
                if more > ms {
                    more
                } else {
                    ms
                },
            ),
            Decision::Reject => LimitVerdict::Refuse(core.limit_req_status),
        },
    }
}

/// The most restrictive limit wins: one rejection refuses the request, and else
/// it waits as long as the longest delay.
pub proof fn law_the_most_restrictive_limit_wins(ds: Seq<Decision>, n: int, status: u16, k: int)
    requires
        0 <= k < n <= ds.len(),
    ensures
        ds[k] is Reject ==> verdict(ds, n, status) == LimitVerdict::Refuse(status),
        ds[k] matches Decision::Delay(ms) ==> (verdict(ds, n, status) matches LimitVerdict::After(
            total,
        ) ==> total >= ms),
        verdict(ds, n, status) matches LimitVerdict::Refuse(s) ==> s == status,
    decreases n,
{
    if k < n - 1 {
        law_the_most_restrictive_limit_wins(ds, n - 1, status, k);
    } else if n > 1 {
        law_the_most_restrictive_limit_wins(ds, n - 1, status, n - 2);
    }
}

// ---------------------------------------------------------------- auth_request

/// Headers that describe a body, which an authorisation subrequest does not have.
pub open spec fn describes_body(name: Seq<u8>) -> bool {
    bytes::same_name(name, bytes::utf8("content-length"@)) || bytes::same_name(
        name,
        bytes::utf8("transfer-encoding"@),
    ) || bytes::same_name(name, bytes::utf8("expect"@))
}

/// The first `n` headers that travel with an authorisation subrequest.
pub open spec fn auth_fields(hs: Seq<http::Field>, n: int) -> Seq<http::Field>
    decreases n,
{
    if n <= 0 {
        Seq::empty()
    } else if describes_body(hs[n - 1].0) {
        auth_fields(hs, n - 1)
    } else {
        auth_fields(hs, n - 1).push(hs[n - 1])
    }
}

/// The headers of an authorisation subrequest: the client's, but never the framing
/// of a body that is not being sent. A subrequest must not ask for one itself.
pub fn auth_headers(ctx: &Ctx) -> (r: Result<Vec<Header>, u16>)
    ensures
        match r {
            Ok(hs) => ctx@.auth_depth == 0 && http::fields(hs@) == auth_fields(
                http::fields(ctx@.env.req.headers@),
                ctx@.env.req.headers@.len() as int,
            ),
            Err(code) => ctx@.auth_depth > 0 && code == 500,
        },
{
    if ctx.auth_depth > 0 {
        return Err(500);
    }
    let hs: &Vec<Header> = &ctx.env.req.headers;
    let mut out: Vec<Header> = Vec::new();
    let ghost fs = http::fields(hs@);
    assert(http::fields(out@) =~= Seq::empty());
    for i in 0..hs.len()
        invariant
            fs == http::fields(hs@),
            http::fields(out@) == auth_fields(fs, i as int),
    {
        assert(fs[i as int] == http::field(hs@[i as int]));
        let name: &[u8] = hs[i].name.as_slice();
        let skip: bool = bytes::is_name(name, "content-length") || bytes::is_name(
            name,
            "transfer-encoding",
        ) || bytes::is_name(name, "expect");
        if !skip {
            let ghost before = http::fields(out@);
            out.push(
                Header { name: bytes::copy(name), value: bytes::copy(hs[i].value.as_slice()) },
            );
            assert(http::fields(out@) =~= before.push(fs[i as int]));
        }
    }
    Ok(out)
}

/// An authorisation subrequest.
#[derive(Debug)]
pub struct Subrequest {
    pub req: Req,
    /// The path asked for, as it was written.
    pub path: Vec<u8>,
    pub args: Vec<u8>,
}

/// A target up to its arguments.
pub open spec fn path_part(target: Seq<u8>) -> Seq<u8> {
    target.subrange(0, bytes::find(target, 63, 0))
}

/// The arguments of a target.
pub open spec fn args_part(target: Seq<u8>) -> Seq<u8> {
    let q = bytes::find(target, 63, 0);
    if q < target.len() {
        target.subrange(q + 1, target.len() as int)
    } else {
        Seq::empty()
    }
}

/// The subrequest that asks an authorising location: a `GET` of its URI with the client's
/// headers, for the host the client asked for. A subrequest must not ask for one itself.
pub fn auth_subrequest(ctx: &Ctx, uri: &[u8]) -> (r: Result<Subrequest, u16>)
    ensures
        match r {
            Ok(s) => {
                &&& ctx@.auth_depth == 0
                &&& s.req.method@ == bytes::utf8("GET"@)
                &&& s.req.target@ == uri@
                &&& s.req.minor == 1
                &&& http::fields(s.req.headers@) == auth_fields(
                    http::fields(ctx@.env.req.headers@),
                    ctx@.env.req.headers@.len() as int,
                )
                &&& s.req.host@ == ctx@.env.req.host@
                &&& s.req.head_len == ctx@.env.req.head_len
                &&& s.req.accepts_gzip == ctx@.env.req.accepts_gzip
                &&& s.path@ == path_part(uri@)
                &&& s.args@ == args_part(uri@)
            },
            Err(code) => ctx@.auth_depth > 0 && code == 500,
        },
{
    let headers: Vec<Header> = match auth_headers(ctx) {
        Ok(hs) => hs,
        Err(code) => {
            return Err(code);
        },
    };
    let q: usize = bytes::find_from(uri, 63, 0);
    let path: Vec<u8> = bytes::copy(&uri[0..q]);
    let args: Vec<u8> = if q < uri.len() {
        bytes::copy(&uri[q + 1..uri.len()])
    } else {
        Vec::new()
    };
    let req = Req {
        method: bytes::copy("GET".as_bytes()),
        target: bytes::copy(uri),
        minor: 1,
        headers,
        host: bytes::copy(ctx.env.req.host.as_slice()),
        head_len: ctx.env.req.head_len,
        accepts_gzip: ctx.env.req.accepts_gzip,
    };
    Ok(Subrequest { req, path, args })
}

/// No header that describes a body travels with an authorisation subrequest.
pub proof fn law_subrequests_have_no_body(hs: Seq<http::Field>, n: int, k: int)
    requires
        0 <= n <= hs.len(),
        0 <= k < auth_fields(hs, n).len(),
    ensures
        !describes_body(auth_fields(hs, n)[k].0),
    decreases n,
{
    if n > 0 && k < auth_fields(hs, n - 1).len() {
        law_subrequests_have_no_body(hs, n - 1, k);
    }
}

/// What the answer of an authorisation service means: 2xx goes on, 401 and 403 are
/// its answer to the client, and anything else is a failure of the service.
pub open spec fn auth_verdict(status: u16) -> Result<(), u16> {
    if 200 <= status < 300 {
        Ok(())
    } else if status == 401 || status == 403 {
        Err(status)
    } else {
        Err(500)
    }
}

/// Assignments from the `i`th on.
pub open spec fn assignments_from(c: CtxView, ds: Seq<SetDirective>, i: int) -> CtxView
    decreases ds.len() - i,
{
    if i < 0 || i >= ds.len() {
        c
    } else {
        assignments_from(assigned_by(c, ds[i]), ds, i + 1)
    }
}

/// Takes note of the answer of an authorisation service: its headers are kept
/// whatever the verdict, and the variables that are set from them are set.
pub fn auth_done(ctx: &mut Ctx, core: &CoreConf, status: u16, headers: Vec<Header>) -> (r: Result<
    (),
    u16,
>)
    ensures
        r == auth_verdict(status),
        final(ctx)@ == assignments_from(
            CtxView { upstream_headers: http::fields(headers@), ..old(ctx)@ },
            core.auth_request_set@,
            0,
        ),
{
    ctx.upstream_headers = headers;
    let ghost start = ctx@;
    for i in 0..core.auth_request_set.len()
        invariant
            assignments_from(start, core.auth_request_set@, 0) == assignments_from(
                ctx@,
                core.auth_request_set@,
                i as int,
            ),
    {
        assign(ctx, &core.auth_request_set[i]);
    }
    if status >= 200 && status < 300 {
        Ok(())
    } else if status == 401 || status == 403 {
        Err(status)
    } else {
        Err(500)
    }
}

/// A service that cannot say yes never lets a request through.
pub proof fn law_authorisation_fails_closed(status: u16)
    ensures
        auth_verdict(status) is Ok <==> 200 <= status < 300,
        auth_verdict(status) matches Err(code) ==> code == 401 || code == 403 || code == 500,
{
}

// ---------------------------------------------------------------- error pages

/// Where an `error_page` leads, and the status it reports, if it reports one of its
/// own.
#[derive(Debug)]
pub enum ErrorRoute {
    Uri(Vec<u8>, Option<u16>),
    Named(Vec<u8>, Option<u16>),
    Redirect(Vec<u8>, Option<u16>),
}

/// Where an `error_page` leads, as plain values.
#[verifier::ext_equal]
pub ghost enum ErrorRouteView {
    Uri(Seq<u8>, Option<u16>),
    Named(Seq<u8>, Option<u16>),
    Redirect(Seq<u8>, Option<u16>),
}

impl View for ErrorRoute {
    type V = ErrorRouteView;

    open spec fn view(&self) -> ErrorRouteView {
        match self {
            ErrorRoute::Uri(u, s) => ErrorRouteView::Uri(u@, *s),
            ErrorRoute::Named(n, s) => ErrorRouteView::Named(n@, *s),
            ErrorRoute::Redirect(u, s) => ErrorRouteView::Redirect(u@, *s),
        }
    }
}

/// The `error_page` directives that apply: the location's if it has any, else the
/// server's.
pub open spec fn error_pages(c: CtxView) -> Seq<ErrorPage> {
    match c.matched {
        Some(i) => if i < c.env.server.locations@.len()
            && c.env.server.locations@[i as int].error_pages@.len() > 0 {
            c.env.server.locations@[i as int].error_pages@
        } else {
            c.env.server.error_pages@
        },
        None => c.env.server.error_pages@,
    }
}

/// The place of the `error_page` for a status, from the `i`th on, or the length.
pub open spec fn error_place(pages: Seq<ErrorPage>, code: u16, i: int) -> int
    decreases pages.len() - i,
{
    if i < 0 || i >= pages.len() {
        pages.len() as int
    } else if pages[i].codes@.contains(code) {
        i
    } else {
        error_place(pages, code, i + 1)
    }
}

/// The status an `error_page` reports: `error_page 404 /x` keeps the code,
/// `error_page 404 =200 /x` replaces it, and `error_page 404 = /x` reports whatever
/// `/x` produces.
pub open spec fn reported(replace_status: Option<u16>, code: u16) -> Option<u16> {
    match replace_status {
        None => Some(code),
        Some(n) => if n == 0 {
            None
        } else {
            Some(n)
        },
    }
}

/// Where an error leads. A target identical to the current URI would loop forever.
pub open spec fn error_route(c: CtxView, code: u16) -> Option<ErrorRouteView> {
    let pages = error_pages(c);
    let i = error_place(pages, code, 0);
    if !(0 <= i < pages.len()) {
        None
    } else {
        let status = reported(pages[i].replace_status, code);
        match pages[i].target {
            ErrorTarget::Uri(t) => if ctx::shown(c, t) == c.uri {
                None
            } else {
                Some(ErrorRouteView::Uri(ctx::shown(c, t), status))
            },
            ErrorTarget::Named(n) => Some(ErrorRouteView::Named(n@, status)),
            ErrorTarget::Redirect(t) => Some(ErrorRouteView::Redirect(ctx::shown(c, t), status)),
        }
    }
}

fn has_code(codes: &Vec<u16>, code: u16) -> (r: bool)
    ensures
        r == codes@.contains(code),
{
    for i in 0..codes.len()
        invariant
            forall|k: int| 0 <= k < i ==> codes@[k] != code,
    {
        if codes[i] == code {
            return true;
        }
    }
    false
}

/// Finds the `error_page` covering a status, preferring the location's list.
pub fn error_page_for(ctx: &Ctx, code: u16) -> (r: Option<ErrorRoute>)
    ensures
        match r {
            Some(e) => error_route(ctx@, code) == Some(e@),
            None => error_route(ctx@, code) is None,
        },
{
    let pages: &Vec<ErrorPage> = match ctx.matched {
        Some(i) => if i < ctx.env.server.locations.len()
            && ctx.env.server.locations[i].error_pages.len() > 0 {
            &ctx.env.server.locations[i].error_pages
        } else {
            &ctx.env.server.error_pages
        },
        None => &ctx.env.server.error_pages,
    };
    for i in 0..pages.len()
        invariant
            pages@ == error_pages(ctx@),
            error_place(pages@, code, 0) == error_place(pages@, code, i as int),
    {
        let ep: &ErrorPage = &pages[i];
        if has_code(&ep.codes, code) {
            let status: Option<u16> = match ep.replace_status {
                None => Some(code),
                Some(n) => if n == 0 {
                    None
                } else {
                    Some(n)
                },
            };
            return match &ep.target {
                ErrorTarget::Uri(t) => {
                    let target: Vec<u8> = ctx.render(t);
                    if bytes::same(target.as_slice(), ctx.uri.as_slice()) {
                        None
                    } else {
                        Some(ErrorRoute::Uri(target, status))
                    }
                },
                ErrorTarget::Named(n) => Some(
                    ErrorRoute::Named(bytes::copy(n.as_slice()), status),
                ),
                ErrorTarget::Redirect(t) => Some(ErrorRoute::Redirect(ctx.render(t), status)),
            };
        }
    }
    None
}

// ---------------------------------------------------------------- the routing loop

/// What routing carries from one pass to the next.
#[derive(Debug)]
pub struct Routing {
    /// The named location to enter, in place of a search.
    pub named: Option<Vec<u8>>,
    /// Whether this pass is an internal one.
    pub internal: bool,
    /// The status an `error_page` reports.
    pub status_override: Option<u16>,
}

/// What routing carries, as plain values.
#[verifier::ext_equal]
pub ghost struct RoutingView {
    pub named: Option<Seq<u8>>,
    pub internal: bool,
    pub status_override: Option<u16>,
}

impl View for Routing {
    type V = RoutingView;

    open spec fn view(&self) -> RoutingView {
        RoutingView {
            named: match self.named {
                Some(n) => Some(n@),
                None => None,
            },
            internal: self.internal,
            status_override: self.status_override,
        }
    }
}

/// What a routing pass came to, its reply left aside.
#[derive(Debug)]
pub enum Came {
    Done,
    Fail(u16),
    Internal(Vec<u8>),
    Named(Vec<u8>),
}

/// What follows a routing pass.
#[derive(Debug)]
pub enum Turn {
    /// Another pass.
    Again,
    /// Send the reply of this pass, under another status if one is given.
    Finish(Option<u16>),
    /// Send this reply instead.
    Answer(Page),
}

/// What follows a routing pass, as plain values.
#[verifier::ext_equal]
pub ghost enum TurnView {
    Again,
    Finish(Option<u16>),
    Answer(PageView),
}

impl View for Turn {
    type V = TurnView;

    open spec fn view(&self) -> TurnView {
        match self {
            Turn::Again => TurnView::Again,
            Turn::Finish(s) => TurnView::Finish(*s),
            Turn::Answer(p) => TurnView::Answer(p@),
        }
    }
}

/// One more internal redirect, or the end of them.
pub open spec fn again(
    c: CtxView,
    r: RoutingView,
    uri: Seq<u8>,
    named: Option<Seq<u8>>,
    status: Option<u16>,
) -> (CtxView, RoutingView, TurnView) {
    let counted = CtxView { redirects: (c.redirects + 1) as u32, ..c };
    if c.redirects + 1 > MAX_INTERNAL_REDIRECTS {
        (counted, r, TurnView::Answer(error_page(counted, 500)))
    } else {
        (
            CtxView { uri, ..counted },
            RoutingView { named, internal: true, status_override: status },
            TurnView::Again,
        )
    }
}

/// What follows a routing pass.
pub open spec fn turned(c: CtxView, r: RoutingView, came: Came) -> (CtxView, RoutingView, TurnView) {
    match came {
        Came::Done => (c, r, TurnView::Finish(r.status_override)),
        Came::Internal(uri) => again(c, r, uri@, None, r.status_override),
        Came::Named(n) => again(c, r, c.uri, Some(n@), r.status_override),
        Came::Fail(code) => match error_route(c, code) {
            Some(ErrorRouteView::Uri(uri, status)) => again(c, r, uri, None, status),
            Some(ErrorRouteView::Named(n, status)) => again(c, r, c.uri, Some(n), status),
            Some(ErrorRouteView::Redirect(url, status)) => (
                c,
                r,
                TurnView::Answer(
                    PageView {
                        resp: RespView {
                            headers: seq![(bytes::utf8("Location"@), url)],
                            ..http::bare(
                                match status {
                                    Some(s) => s,
                                    None => 302,
                                },
                            )
                        },
                        body: None,
                    },
                ),
            ),
            None => (c, r, TurnView::Answer(error_page(c, code))),
        },
    }
}

impl Routing {
    /// How routing starts. An authorisation subrequest counts as internal from its
    /// first pass: its location is almost always marked `internal`.
    pub fn start(ctx: &Ctx) -> (r: Routing)
        ensures
            r@ == (RoutingView {
                named: None,
                internal: ctx@.auth_depth > 0,
                status_override: None,
            }),
    {
        Routing { named: None, internal: ctx.auth_depth > 0, status_override: None }
    }

    fn again(
        &mut self,
        ctx: &mut Ctx,
        uri: Option<Vec<u8>>,
        named: Option<Vec<u8>>,
        status: Option<u16>,
    ) -> (t: Turn)
        requires
            old(ctx).redirects < u32::MAX,
        ensures
            (final(ctx)@, final(self)@, t@) == again(
                old(ctx)@,
                old(self)@,
                match uri {
                    Some(u) => u@,
                    None => old(ctx)@.uri,
                },
                match named {
                    Some(n) => Some(n@),
                    None => None,
                },
                status,
            ),
    {
        ctx.redirects = ctx.redirects + 1;
        if ctx.redirects > MAX_INTERNAL_REDIRECTS {
            return Turn::Answer(error_reply(ctx, 500));
        }
        if let Some(u) = uri {
            ctx.uri = u;
        }
        self.named = named;
        self.internal = true;
        self.status_override = status;
        Turn::Again
    }

    /// Decides what follows a routing pass.
    pub fn advance(&mut self, ctx: &mut Ctx, came: Came) -> (t: Turn)
        requires
            old(ctx).redirects < u32::MAX,
        ensures
            (final(ctx)@, final(self)@, t@) == turned(old(ctx)@, old(self)@, came),
    {
        let status: Option<u16> = self.status_override;
        match came {
            Came::Done => Turn::Finish(status),
            Came::Internal(uri) => self.again(ctx, Some(uri), None, status),
            Came::Named(n) => self.again(ctx, None, Some(n), status),
            Came::Fail(code) => match error_page_for(ctx, code) {
                Some(ErrorRoute::Uri(uri, s)) => self.again(ctx, Some(uri), None, s),
                Some(ErrorRoute::Named(n, s)) => self.again(ctx, None, Some(n), s),
                Some(ErrorRoute::Redirect(url, s)) => {
                    let mut resp = Resp::new(
                        match s {
                            Some(x) => x,
                            None => 302,
                        },
                    );
                    resp.header("Location", url.as_slice());
                    assert(resp@.headers =~= seq![(bytes::utf8("Location"@), url@)]);
                    Turn::Answer(Page { resp, body: None })
                },
                None => Turn::Answer(error_reply(ctx, code)),
            },
        }
    }
}

/// Routing ends: every further pass counts a redirect, and there are no more than
/// [`MAX_INTERNAL_REDIRECTS`] of them.
pub proof fn law_routing_ends(c: CtxView, r: RoutingView, came: Came)
    requires
        c.redirects < u32::MAX,
    ensures
        ({
            let (next, _, turn) = turned(c, r, came);
            turn is Again ==> next.redirects == c.redirects + 1 && next.redirects
                <= MAX_INTERNAL_REDIRECTS
        }),
{
}

/// Every further pass is an internal one, so no request is charged to a limit
/// twice.
pub proof fn law_further_passes_are_internal(c: CtxView, r: RoutingView, came: Came)
    ensures
        turned(c, r, came).2 is Again ==> turned(c, r, came).1.internal,
{
}

/// An error page keeps the status of the error unless it says otherwise.
pub proof fn law_error_pages_keep_the_status(c: CtxView, r: RoutingView, code: u16)
    requires
        error_place(error_pages(c), code, 0) < error_pages(c).len(),
        error_pages(c)[error_place(error_pages(c), code, 0)].replace_status is None,
    ensures
        turned(c, r, Came::Fail(code)).2 is Again ==> turned(
            c,
            r,
            Came::Fail(code),
        ).1.status_override == Some(code),
{
}

/// Turns an outcome of the server-level phase into a final reply, or nothing to
/// keep routing.
pub open spec fn finished(c: CtxView, s: StepView) -> (CtxView, Option<PageView>) {
    match s {
        StepView::Done(p) => (c, Some(p)),
        StepView::Fail(code) => (c, Some(error_page(c, code))),
        StepView::Internal(uri) => (CtxView { uri, ..c }, None),
        StepView::Named(_) => (c, None),
    }
}

/// Decides what an outcome of the server-level phase leads to.
pub fn finish(ctx: &mut Ctx, step: Step) -> (r: Option<Page>)
    ensures
        ({
            let (next, page) = finished(old(ctx)@, step@);
            &&& final(ctx)@ == next
            &&& match r {
                Some(p) => page == Some(p@),
                None => page is None,
            }
        }),
{
    match step {
        Step::Done(p) => Some(p),
        Step::Fail(code) => Some(error_reply(ctx, code)),
        Step::Internal(uri) => {
            ctx.uri = uri;
            None
        },
        Step::Named(_) => None,
    }
}

/// The absolute URL of a path: the port stands in it unless it is the scheme's own.
pub open spec fn absolute(c: CtxView, path: Seq<u8>) -> Seq<u8> {
    let host = c.env.req.host@;
    let port = ctx::port_of(c.env.local);
    let own: u16 = if c.env.scheme@ == bytes::utf8("https"@) {
        443
    } else {
        80
    };
    c.env.scheme@ + bytes::utf8("://"@) + (if host.len() == 0 {
        bytes::utf8("localhost"@)
    } else {
        host
    }) + (if port != own {
        seq![58u8] + bytes::decimal(port as nat)
    } else {
        Seq::empty()
    }) + path
}

/// Renders a `Location` header value for an absolute redirect.
pub fn absolute_url(ctx: &Ctx, path: &[u8]) -> (r: Vec<u8>)
    ensures
        r@ == absolute(ctx@, path@),
{
    let mut s: Vec<u8> = bytes::copy(ctx.env.scheme.as_slice());
    s.extend_from_slice("://".as_bytes());
    if ctx.env.req.host.len() == 0 {
        s.extend_from_slice("localhost".as_bytes());
    } else {
        s.extend_from_slice(ctx.env.req.host.as_slice());
    }
    let port: u16 = ctx::port(&ctx.env.local);
    let own: u16 = if bytes::is_text(ctx.env.scheme.as_slice(), "https") {
        443
    } else {
        80
    };
    if port != own {
        s.push(58);
        bytes::push_decimal(&mut s, port as u64);
    }
    s.extend_from_slice(path);
    assert(s@ =~= absolute(ctx@, path@));
    s
}

} // verus!
