//! The course of a request through one routing pass.
//!
//! What a location does comes in stages. A stage that needs something from outside (a
//! slot of a limit, the answer of an authorising service, a look at the file system)
//! asks for it, and goes on with what came of it.

use vstd::prelude::*;

use crate::config::Action;
use crate::config::CoreConf;
use crate::config::IfBlock;
use crate::config::Location;
use crate::ctx::Ctx;
use crate::ctx::CtxView;
use crate::handler;
use crate::handler::Act;
use crate::handler::Flow;
use crate::handler::FlowView;
use crate::handler::LimitVerdict;
use crate::handler::Page;
use crate::handler::PageView;
use crate::handler::Probe;
use crate::handler::Stage;
use crate::handler::Step;
use crate::handler::StepView;
use crate::limit_req::Decision;
use crate::pattern;

verus! {

// ---------------------------------------------------------------- if blocks

/// What running `if` blocks leads to.
#[derive(Debug)]
pub enum IfTurn {
    /// The block of this number asks about a path.
    Look(usize, Vec<u8>),
    /// The blocks have run, and this follows.
    Done(Option<Step>),
}

/// What running `if` blocks leads to, as plain values.
pub ghost enum IfTurnView {
    Look(int, Seq<u8>),
    Done(Option<StepView>),
}

impl View for IfTurn {
    type V = IfTurnView;

    open spec fn view(&self) -> IfTurnView {
        match self {
            IfTurn::Look(i, p) => IfTurnView::Look(*i as int, p@),
            IfTurn::Done(s) => IfTurnView::Done(handler::step_view(*s)),
        }
    }
}

/// What is known of a path that nobody asked about.
pub open spec fn unseen() -> Probe {
    Probe { exists: false, is_file: false, is_dir: false, executable: false }
}

/// The `if` blocks from the `i`th on, given what the file system says of the path that
/// the `i`th asks about, if that is known.
pub open spec fn ifs_from(c: CtxView, blocks: Seq<IfBlock>, i: int, probe: Option<Probe>) -> (
    CtxView,
    IfTurnView,
)
    decreases blocks.len() - i,
{
    if i < 0 || i >= blocks.len() {
        (c, IfTurnView::Done(None))
    } else {
        match (handler::probed_path(c, blocks[i].cond), probe) {
            (Some(path), None) => (c, IfTurnView::Look(i, path)),
            _ => {
                let seen = match probe {
                    Some(p) => p,
                    None => unseen(),
                };
                let (next, flow) = handler::if_ran(c, blocks[i], seen);
                match flow {
                    FlowView::Next => ifs_from(next, blocks, i + 1, None),
                    FlowView::Stop => (next, IfTurnView::Done(None)),
                    FlowView::Give(s) => (next, IfTurnView::Done(Some(s))),
                }
            },
        }
    }
}

/// Runs the `if` blocks from one on, until they are through or one asks about a path.
pub fn run_ifs(ctx: &mut Ctx, blocks: &Vec<IfBlock>, from: usize, probe: Option<Probe>) -> (t:
    IfTurn)
    ensures
        (final(ctx)@, t@) == ifs_from(old(ctx)@, blocks@, from as int, probe),
{
    let mut i: usize = from;
    let mut known: Option<Probe> = probe;
    while i < blocks.len()
        invariant
            ifs_from(old(ctx)@, blocks@, from as int, probe) == ifs_from(
                ctx@,
                blocks@,
                i as int,
                known,
            ),
        decreases blocks.len() - i,
    {
        if known.is_none() {
            if let Some(path) = handler::cond_path(ctx, &blocks[i].cond) {
                return IfTurn::Look(i, path);
            }
        }
        let seen: Probe = match known {
            Some(p) => p,
            None => Probe { exists: false, is_file: false, is_dir: false, executable: false },
        };
        match handler::run_if(ctx, &blocks[i], seen) {
            Flow::Next => {},
            Flow::Stop => {
                return IfTurn::Done(None);
            },
            Flow::Give(s) => {
                return IfTurn::Done(Some(s));
            },
        }
        known = None;
        i = i + 1;
    }
    IfTurn::Done(None)
}

// ---------------------------------------------------------------- the server's phase

/// The answer of a phase of the server, and the request after it.
pub open spec fn phase_ended(c: CtxView, s: Option<StepView>) -> (CtxView, Option<PageView>) {
    match s {
        Some(step) => handler::finished(c, step),
        None => (c, None),
    }
}

pub open spec fn page_view(p: Option<Page>) -> Option<PageView> {
    match p {
        Some(x) => Some(x@),
        None => None,
    }
}

/// Runs the `rewrite` rules of the server, before a location is chosen. They may answer
/// the request.
pub fn server_rewrites(ctx: &mut Ctx) -> (r: Option<Page>)
    ensures
        ({
            let c = old(ctx)@;
            let (after, step) = handler::rewrites_from(c, c.env.server.rewrites@, 0);
            (final(ctx)@, page_view(r)) == phase_ended(after, step)
        }),
{
    let env = ctx.env;
    match handler::run_rewrites(ctx, &env.server.rewrites) {
        Some(step) => handler::finish(ctx, step),
        None => None,
    }
}

/// What the `if` blocks of the server lead to.
#[derive(Debug)]
pub enum ServerTurn {
    /// The block of this number asks about a path.
    Look(usize, Vec<u8>),
    /// Go on with the choice of a location.
    Route,
    Answer(Page),
}

/// What the `if` blocks of the server lead to, as plain values.
pub ghost enum ServerTurnView {
    Look(int, Seq<u8>),
    Route,
    Answer(PageView),
}

impl View for ServerTurn {
    type V = ServerTurnView;

    open spec fn view(&self) -> ServerTurnView {
        match self {
            ServerTurn::Look(i, p) => ServerTurnView::Look(*i as int, p@),
            ServerTurn::Route => ServerTurnView::Route,
            ServerTurn::Answer(p) => ServerTurnView::Answer(p@),
        }
    }
}

/// The `if` blocks of the server from the `i`th on.
pub open spec fn server_ifs_from(c: CtxView, i: int, probe: Option<Probe>) -> (
    CtxView,
    ServerTurnView,
) {
    let (after, turn) = ifs_from(c, c.env.server.ifs@, i, probe);
    match turn {
        IfTurnView::Look(k, path) => (after, ServerTurnView::Look(k, path)),
        IfTurnView::Done(step) => {
            let (end, page) = phase_ended(after, step);
            match page {
                Some(p) => (end, ServerTurnView::Answer(p)),
                None => (end, ServerTurnView::Route),
            }
        },
    }
}

/// Runs the `if` blocks of the server from one on.
pub fn server_ifs(ctx: &mut Ctx, from: usize, probe: Option<Probe>) -> (t: ServerTurn)
    ensures
        (final(ctx)@, t@) == server_ifs_from(old(ctx)@, from as int, probe),
{
    let env = ctx.env;
    match run_ifs(ctx, &env.server.ifs, from, probe) {
        IfTurn::Look(i, path) => ServerTurn::Look(i, path),
        IfTurn::Done(None) => ServerTurn::Route,
        IfTurn::Done(Some(step)) => match handler::finish(ctx, step) {
            Some(p) => ServerTurn::Answer(p),
            None => ServerTurn::Route,
        },
    }
}

// ---------------------------------------------------------------- limits

/// What applying limits needs next, each limit given by its number.
#[derive(Debug, Clone, Copy, PartialEq, Eq, Structural)]
pub enum LimitAsk {
    /// Take a slot of a `limit_conn`.
    TakeSlot(usize),
    /// Charge a `limit_req`.
    Charge(usize),
    /// Hold the request for this many milliseconds, and go on.
    Wait(u64),
    Refuse(u16),
    Pass,
}

/// What came of it.
#[derive(Debug, Clone, Copy, PartialEq, Eq, Structural)]
pub enum LimitAnswer {
    /// The request has no key there, and is not limited.
    NoKey,
    /// Whether there was a slot.
    Taken(bool),
    Charged(Decision),
}

/// The limits of a request while they are applied: how many there are, and how many of
/// each kind have been applied.
#[derive(Debug, Clone, Copy, PartialEq, Eq, Structural)]
pub struct Limiting {
    pub conns: usize,
    pub reqs: usize,
    pub taken: usize,
    pub charged: usize,
    pub verdict: LimitVerdict,
}

/// What is needed next. A delay holds the request, and the slot has to be held across
/// it: so every `limit_conn` comes before every `limit_req`.
pub open spec fn limit_ask(l: Limiting) -> LimitAsk {
    match l.verdict {
        LimitVerdict::Refuse(status) => LimitAsk::Refuse(status),
        LimitVerdict::After(ms) => if l.taken < l.conns {
            LimitAsk::TakeSlot(l.taken)
        } else if l.charged < l.reqs {
            LimitAsk::Charge(l.charged)
        } else if ms > 0 {
            LimitAsk::Wait(ms)
        } else {
            LimitAsk::Pass
        },
    }
}

/// The limits after one was applied. An answer to another question is refused.
pub open spec fn limit_answered(l: Limiting, core: CoreConf, a: LimitAnswer) -> Limiting {
    match (limit_ask(l), a) {
        (LimitAsk::TakeSlot(_), LimitAnswer::NoKey) => Limiting { taken: (l.taken + 1) as usize, ..l },
        (LimitAsk::TakeSlot(_), LimitAnswer::Taken(got)) => if got || core.limit_conn_dry_run {
            Limiting { taken: (l.taken + 1) as usize, ..l }
        } else {
            Limiting { verdict: LimitVerdict::Refuse(core.limit_conn_status), ..l }
        },
        (LimitAsk::Charge(_), LimitAnswer::NoKey) => Limiting {
            charged: (l.charged + 1) as usize,
            ..l
        },
        (LimitAsk::Charge(_), LimitAnswer::Charged(d)) => Limiting {
            charged: (l.charged + 1) as usize,
            verdict: handler::limited(l.verdict, d, core.limit_req_status),
            ..l
        },
        _ => Limiting { verdict: LimitVerdict::Refuse(500), ..l },
    }
}

impl Limiting {
    /// Begins to apply so many limits of each kind.
    pub fn start(conns: usize, reqs: usize) -> (r: (Limiting, LimitAsk))
        ensures
            r.0 == (Limiting {
                conns,
                reqs,
                taken: 0,
                charged: 0,
                verdict: LimitVerdict::After(0),
            }),
            r.1 == limit_ask(r.0),
    {
        let l = Limiting { conns, reqs, taken: 0, charged: 0, verdict: LimitVerdict::After(0) };
        let ask: LimitAsk = l.ask();
        (l, ask)
    }

    fn ask(&self) -> (r: LimitAsk)
        ensures
            r == limit_ask(*self),
    {
        match self.verdict {
            LimitVerdict::Refuse(status) => LimitAsk::Refuse(status),
            LimitVerdict::After(ms) => if self.taken < self.conns {
                LimitAsk::TakeSlot(self.taken)
            } else if self.charged < self.reqs {
                LimitAsk::Charge(self.charged)
            } else if ms > 0 {
                LimitAsk::Wait(ms)
            } else {
                LimitAsk::Pass
            },
        }
    }

    /// Takes note of what came of a limit, and says what is needed next.
    pub fn next(&mut self, core: &CoreConf, a: LimitAnswer) -> (r: LimitAsk)
        ensures
            *final(self) == limit_answered(*old(self), *core, a),
            r == limit_ask(*final(self)),
    {
        match (self.ask(), a) {
            (LimitAsk::TakeSlot(_), LimitAnswer::NoKey) => {
                self.taken = self.taken + 1;
            },
            (LimitAsk::TakeSlot(_), LimitAnswer::Taken(got)) => {
                match handler::limit_conn_verdict(got, core) {
                    None => {
                        self.taken = self.taken + 1;
                    },
                    Some(status) => {
                        self.verdict = LimitVerdict::Refuse(status);
                    },
                }
            },
            (LimitAsk::Charge(_), LimitAnswer::NoKey) => {
                self.charged = self.charged + 1;
            },
            (LimitAsk::Charge(_), LimitAnswer::Charged(d)) => {
                self.charged = self.charged + 1;
                self.verdict = handler::apply_limit(self.verdict, d, core);
            },
            _ => {
                self.verdict = LimitVerdict::Refuse(500);
            },
        }
        self.ask()
    }
}

/// No `limit_req` is charged before every `limit_conn` has its slot, so a request that
/// is held counts as one while it waits.
pub proof fn law_slots_come_before_charges(l: Limiting)
    ensures
        limit_ask(l) is Charge || limit_ask(l) is Wait ==> l.taken >= l.conns,
{
}

/// A request that was refused by a limit is not charged to any further one.
pub proof fn law_a_refusal_ends_limiting(l: Limiting, core: CoreConf, a: LimitAnswer)
    requires
        limit_answered(l, core, a).verdict is Refuse,
    ensures
        limit_ask(limit_answered(l, core, a)) is Refuse,
{
}

// ---------------------------------------------------------------- stages

/// What a stage needs, or what the pass ends with.
#[derive(Debug)]
pub enum Ask {
    /// Apply the limits.
    Limit,
    /// Ask the authorising location at this URI.
    Authorise(Vec<u8>),
    /// Look at a path.
    Look(Vec<u8>),
    /// Look at the candidates of `try_files`.
    Try(Vec<Vec<u8>>),
    /// Serve a file.
    Static,
    /// Pass the request on.
    Proxy,
    FastCgi,
    /// The pass ends with this.
    Give(Step),
}

/// What a stage needs, as plain values.
pub ghost enum AskView {
    Limit,
    Authorise(Seq<u8>),
    Look(Seq<u8>),
    Try(Seq<Seq<u8>>),
    Static,
    Proxy,
    FastCgi,
    Give(StepView),
}

impl View for Ask {
    type V = AskView;

    open spec fn view(&self) -> AskView {
        match self {
            Ask::Limit => AskView::Limit,
            Ask::Authorise(u) => AskView::Authorise(u@),
            Ask::Look(p) => AskView::Look(p@),
            Ask::Try(ps) => AskView::Try(pattern::views(ps@)),
            Ask::Static => AskView::Static,
            Ask::Proxy => AskView::Proxy,
            Ask::FastCgi => AskView::FastCgi,
            Ask::Give(s) => AskView::Give(s@),
        }
    }
}

/// What came of what a stage asked for.
#[derive(Debug)]
pub enum Answer {
    /// The limits or the authorising service refuse the request.
    Refused(u16),
    /// They let it through.
    Granted,
    /// What the file system says of the path.
    Seen(Probe),
    /// What it says of each candidate.
    Candidates(Vec<Probe>),
}

/// Where a pass is: its stage, and among `if` blocks the one that asked.
#[derive(Debug, Clone, Copy, PartialEq, Eq, Structural)]
pub struct Dispatch {
    pub stage: Stage,
    pub block: usize,
}

/// A pass and its request.
pub ghost struct PassView {
    pub c: CtxView,
    pub stage: Stage,
    pub block: int,
    pub ask: AskView,
}

/// The location that was chosen.
pub open spec fn location_of(c: CtxView) -> Option<Location> {
    match c.matched {
        Some(i) => if i < c.env.server.locations@.len() {
            Some(c.env.server.locations@[i as int])
        } else {
            None
        },
        None => None,
    }
}

/// The stage behind another one. Where no location was chosen, the server itself acts,
/// and its limits still apply.
pub open spec fn stage_behind(c: CtxView, s: Stage, internal: bool) -> Stage {
    match location_of(c) {
        Some(loc) => handler::stage_after(s, loc, internal),
        None => if s == Stage::Gate && !internal {
            Stage::Limits
        } else {
            Stage::Act
        },
    }
}

/// How many stages may still follow.
pub open spec fn stages_left(s: Stage) -> int {
    match s {
        Stage::Gate => 7,
        Stage::Limits => 6,
        Stage::Methods => 5,
        Stage::Auth => 4,
        Stage::Rewrites => 3,
        Stage::Ifs => 2,
        Stage::TryFiles => 1,
        Stage::Act => 0,
    }
}

/// What the action of the location, or of the server, needs.
pub open spec fn acted(c: CtxView) -> AskView {
    match location_of(c) {
        Some(loc) => match loc.action {
            Action::Return { status, body } => AskView::Give(
                StepView::Done(handler::returned(c, status, body)),
            ),
            Action::Nothing => AskView::Give(StepView::Fail(404)),
            Action::Static => AskView::Static,
            Action::Proxy => AskView::Proxy,
            Action::FastCgi => AskView::FastCgi,
        },
        None => match c.env.server.action {
            Action::Return { status, body } => AskView::Give(
                StepView::Done(handler::returned(c, status, body)),
            ),
            _ => AskView::Static,
        },
    }
}

/// What refuses a request at a stage by itself.
pub open spec fn gated(c: CtxView, s: Stage, internal: bool) -> Option<u16> {
    match location_of(c) {
        Some(loc) => handler::refused_at(s, loc, internal, c.env.req.method@),
        None => None,
    }
}

/// The pass of a request that comes to a stage.
pub open spec fn entered(c: CtxView, internal: bool, s: Stage) -> PassView
    decreases stages_left(s), 1int,
{
    let here = PassView { c, stage: s, block: 0, ask: AskView::Limit };
    match s {
        Stage::Gate | Stage::Methods => match gated(c, s, internal) {
            Some(code) => PassView { ask: AskView::Give(StepView::Fail(code)), ..here },
            None => entered(c, internal, stage_behind(c, s, internal)),
        },
        Stage::Limits => here,
        Stage::Auth => match location_of(c) {
            Some(loc) => match loc.core.auth_request {
                Some(uri) => PassView { ask: AskView::Authorise(uri@), ..here },
                None => entered(c, internal, stage_behind(c, s, internal)),
            },
            None => entered(c, internal, stage_behind(c, s, internal)),
        },
        Stage::Rewrites => match location_of(c) {
            Some(loc) => {
                let (after, step) = handler::rewrites_from(c, loc.rewrites@, 0);
                match step {
                    Some(st) => PassView { c: after, ask: AskView::Give(st), ..here },
                    None => entered(after, internal, Stage::Ifs),
                }
            },
            None => entered(c, internal, stage_behind(c, s, internal)),
        },
        Stage::Ifs => through_ifs(c, internal, 0, None),
        Stage::TryFiles => match location_of(c) {
            Some(loc) => match loc.try_files {
                Some(tf) => PassView {
                    ask: AskView::Try(
                        Seq::new(
                            tf.items@.len(),
                            |k: int| handler::tried_path(c, tf.items@[k]),
                        ),
                    ),
                    ..here
                },
                None => entered(c, internal, Stage::Act),
            },
            None => entered(c, internal, Stage::Act),
        },
        Stage::Act => PassView { ask: acted(c), ..here },
    }
}

/// The pass of a request in the `if` blocks, from the `i`th on.
pub open spec fn through_ifs(c: CtxView, internal: bool, i: int, probe: Option<Probe>) -> PassView
    decreases 2int, 0int,
{
    match location_of(c) {
        Some(loc) => {
            let (after, turn) = ifs_from(c, loc.ifs@, i, probe);
            let here = PassView { c: after, stage: Stage::Ifs, block: 0, ask: AskView::Limit };
            match turn {
                IfTurnView::Look(k, path) => PassView {
                    block: k,
                    ask: AskView::Look(path),
                    ..here
                },
                IfTurnView::Done(Some(st)) => PassView { ask: AskView::Give(st), ..here },
                IfTurnView::Done(None) => entered(
                    after,
                    internal,
                    if loc.try_files is Some {
                        Stage::TryFiles
                    } else {
                        Stage::Act
                    },
                ),
            }
        },
        None => entered(c, internal, Stage::Act),
    }
}

/// The pass of a request that was let through a stage.
#[verifier::opaque]
pub open spec fn let_through(c: CtxView, internal: bool, s: Stage) -> PassView {
    entered(c, internal, stage_behind(c, s, internal))
}

/// The pass of a request whose `if` block got its look at a path.
#[verifier::opaque]
pub open spec fn looked(c: CtxView, internal: bool, i: int, probe: Probe) -> PassView {
    through_ifs(c, internal, i, Some(probe))
}

/// The pass of a request whose `try_files` got its look at the candidates.
#[verifier::opaque]
pub open spec fn tried_out(c: CtxView, internal: bool, ps: Seq<Probe>) -> PassView {
    let here = PassView {
        c,
        stage: Stage::TryFiles,
        block: 0,
        ask: AskView::Give(StepView::Fail(500)),
    };
    match location_of(c) {
        Some(loc) => match loc.try_files {
            Some(tf) => if ps.len() == tf.items@.len() {
                let (after, step) = handler::tried(c, tf, ps);
                match step {
                    Some(st) => PassView { c: after, ask: AskView::Give(st), ..here },
                    None => entered(after, internal, Stage::Act),
                }
            } else {
                here
            },
            None => here,
        },
        None => here,
    }
}

/// The pass of a request that got what its stage asked for. An answer to another
/// question ends the pass with 500.
pub open spec fn answered(c: CtxView, internal: bool, d: Dispatch, a: Answer) -> PassView {
    let here = PassView { c, stage: d.stage, block: 0, ask: AskView::Give(StepView::Fail(500)) };
    match (d.stage, a) {
        (Stage::Limits, Answer::Refused(code)) => PassView {
            ask: AskView::Give(StepView::Fail(code)),
            ..here
        },
        (Stage::Auth, Answer::Refused(code)) => PassView {
            ask: AskView::Give(StepView::Fail(code)),
            ..here
        },
        (Stage::Limits, Answer::Granted) => let_through(c, internal, Stage::Limits),
        (Stage::Auth, Answer::Granted) => let_through(c, internal, Stage::Auth),
        (Stage::Ifs, Answer::Seen(p)) => looked(c, internal, d.block as int, p),
        (Stage::TryFiles, Answer::Candidates(ps)) => tried_out(c, internal, ps@),
        _ => here,
    }
}

/// A pass as it was handed out.
pub open spec fn pass_view(c: CtxView, d: Dispatch, ask: Ask) -> PassView {
    PassView { c, stage: d.stage, block: d.block as int, ask: ask@ }
}

fn chosen<'a>(ctx: &Ctx<'a>) -> (r: Option<&'a Location>)
    ensures
        match r {
            Some(loc) => location_of(ctx@) == Some(*loc),
            None => location_of(ctx@) is None,
        },
{
    let env = ctx.env;
    match ctx.matched {
        Some(i) => if i < env.server.locations.len() {
            Some(&env.server.locations[i])
        } else {
            None
        },
        None => None,
    }
}

fn behind(ctx: &Ctx, s: Stage, internal: bool) -> (r: Stage)
    ensures
        r == stage_behind(ctx@, s, internal),
{
    match chosen(ctx) {
        Some(loc) => handler::next_stage(s, loc, internal),
        None => if s == Stage::Gate && !internal {
            Stage::Limits
        } else {
            Stage::Act
        },
    }
}

fn run_act(ctx: &Ctx) -> (r: Ask)
    ensures
        r@ == acted(ctx@),
{
    let a: Act = match chosen(ctx) {
        Some(loc) => handler::act(ctx, &loc.action),
        None => handler::server_act(ctx),
    };
    match a {
        Act::Give(s) => Ask::Give(s),
        Act::Static => Ask::Static,
        Act::Proxy => Ask::Proxy,
        Act::FastCgi => Ask::FastCgi,
    }
}

#[verifier::spinoff_prover]
#[verifier::rlimit(60)]
fn enter(ctx: &mut Ctx, internal: bool, s: Stage) -> (r: (Dispatch, Ask))
    ensures
        pass_view(final(ctx)@, r.0, r.1) == entered(old(ctx)@, internal, s),
    decreases stages_left(s), 1int,
{
    let here = Dispatch { stage: s, block: 0 };
    let next: Stage = behind(ctx, s, internal);
    match s {
        Stage::Gate | Stage::Methods => {
            if let Some(loc) = chosen(ctx) {
                let env = ctx.env;
                if let Some(code) = handler::gate(s, loc, internal, env.req.method.as_slice()) {
                    return (here, Ask::Give(Step::Fail(code)));
                }
            }
            enter(ctx, internal, next)
        },
        Stage::Limits => (here, Ask::Limit),
        Stage::Auth => {
            if let Some(loc) = chosen(ctx) {
                if let Some(uri) = &loc.core.auth_request {
                    return (here, Ask::Authorise(crate::bytes::copy(uri.as_slice())));
                }
            }
            enter(ctx, internal, next)
        },
        Stage::Rewrites => {
            if let Some(loc) = chosen(ctx) {
                return match handler::run_rewrites(ctx, &loc.rewrites) {
                    Some(step) => (here, Ask::Give(step)),
                    None => enter(ctx, internal, Stage::Ifs),
                };
            }
            enter(ctx, internal, next)
        },
        Stage::Ifs => run_blocks(ctx, internal, 0, None),
        Stage::TryFiles => {
            if let Some(loc) = chosen(ctx) {
                if let Some(tf) = &loc.try_files {
                    let paths: Vec<Vec<u8>> = handler::try_paths(ctx, tf);
                    proof {
                        assert(pattern::views(paths@) =~= Seq::new(
                            tf.items@.len(),
                            |k: int| handler::tried_path(ctx@, tf.items@[k]),
                        ));
                    }
                    return (here, Ask::Try(paths));
                }
            }
            enter(ctx, internal, Stage::Act)
        },
        Stage::Act => (here, run_act(ctx)),
    }
}

#[verifier::spinoff_prover]
#[verifier::rlimit(60)]
fn run_blocks(ctx: &mut Ctx, internal: bool, from: usize, probe: Option<Probe>) -> (r: (
    Dispatch,
    Ask,
))
    ensures
        pass_view(final(ctx)@, r.0, r.1) == through_ifs(old(ctx)@, internal, from as int, probe),
    decreases 2int, 0int,
{
    let here = Dispatch { stage: Stage::Ifs, block: 0 };
    match chosen(ctx) {
        Some(loc) => match run_ifs(ctx, &loc.ifs, from, probe) {
            IfTurn::Look(i, path) => (
                Dispatch { stage: Stage::Ifs, block: i },
                Ask::Look(path),
            ),
            IfTurn::Done(Some(step)) => (here, Ask::Give(step)),
            IfTurn::Done(None) => if loc.try_files.is_some() {
                enter(ctx, internal, Stage::TryFiles)
            } else {
                enter(ctx, internal, Stage::Act)
            },
        },
        None => enter(ctx, internal, Stage::Act),
    }
}

/// Goes on behind a stage.
fn run_behind(ctx: &mut Ctx, internal: bool, s: Stage) -> (r: (Dispatch, Ask))
    ensures
        pass_view(final(ctx)@, r.0, r.1) == let_through(old(ctx)@, internal, s),
{
    proof {
        reveal(let_through);
    }
    let next: Stage = behind(ctx, s, internal);
    enter(ctx, internal, next)
}

/// Goes on in the `if` block that asked about a path.
fn run_looked(ctx: &mut Ctx, internal: bool, from: usize, probe: Probe) -> (r: (Dispatch, Ask))
    ensures
        pass_view(final(ctx)@, r.0, r.1) == looked(old(ctx)@, internal, from as int, probe),
{
    proof {
        reveal(looked);
    }
    run_blocks(ctx, internal, from, Some(probe))
}

impl Dispatch {
    /// Begins a pass in the location that was chosen, or in the server where none was.
    pub fn start(ctx: &mut Ctx, internal: bool) -> (r: (Dispatch, Ask))
        ensures
            pass_view(final(ctx)@, r.0, r.1) == entered(old(ctx)@, internal, Stage::Gate),
    {
        enter(ctx, internal, Stage::Gate)
    }

    /// Goes on with what came of what the stage asked for.
    pub fn next(&mut self, ctx: &mut Ctx, internal: bool, a: Answer) -> (r: Ask)
        ensures
            pass_view(final(ctx)@, *final(self), r) == answered(
                old(ctx)@,
                internal,
                *old(self),
                a,
            ),
    {
        let here = Dispatch { stage: self.stage, block: 0 };
        let (d, ask) = match (self.stage, a) {
            (Stage::Limits, Answer::Refused(code)) => (here, Ask::Give(Step::Fail(code))),
            (Stage::Auth, Answer::Refused(code)) => (here, Ask::Give(Step::Fail(code))),
            (Stage::Limits, Answer::Granted) => run_behind(ctx, internal, Stage::Limits),
            (Stage::Auth, Answer::Granted) => run_behind(ctx, internal, Stage::Auth),
            (Stage::Ifs, Answer::Seen(p)) => run_looked(ctx, internal, self.block, p),
            (Stage::TryFiles, Answer::Candidates(ps)) => run_candidates(ctx, internal, &ps),
            _ => (here, Ask::Give(Step::Fail(500))),
        };
        *self = d;
        ask
    }
}

/// Goes on at the first candidate of `try_files` that is there.
fn run_candidates(ctx: &mut Ctx, internal: bool, ps: &Vec<Probe>) -> (r: (Dispatch, Ask))
    ensures
        pass_view(final(ctx)@, r.0, r.1) == tried_out(old(ctx)@, internal, ps@),
{
    proof {
        reveal(tried_out);
    }
    let here = Dispatch { stage: Stage::TryFiles, block: 0 };
    if let Some(loc) = chosen(ctx) {
        if let Some(tf) = &loc.try_files {
            if ps.len() == tf.items.len() {
                return match handler::run_try_files(ctx, tf, ps) {
                    Some(step) => (here, Ask::Give(step)),
                    None => enter(ctx, internal, Stage::Act),
                };
            }
        }
    }
    (here, Ask::Give(Step::Fail(500)))
}

/// Whether a request is served.
pub open spec fn serves(ask: AskView) -> bool {
    ask is Static || ask is Proxy || ask is FastCgi
}

/// Before any content work the authorising service is asked: where a location has one,
/// no request that comes to it is served, whatever its rules say, unless the service
/// granted it.
pub proof fn law_nothing_is_served_unauthorised(c: CtxView, internal: bool, s: Stage)
    requires
        location_of(c) matches Some(loc) && loc.core.auth_request is Some,
        stages_left(s) >= stages_left(Stage::Auth),
    ensures
        !serves(entered(c, internal, s).ask),
        entered(c, internal, s).ask is Give || entered(c, internal, s).ask is Limit || entered(
            c,
            internal,
            s,
        ).ask is Authorise,
    decreases stages_left(s),
{
    if (s == Stage::Gate || s == Stage::Methods) && gated(c, s, internal) is None {
        law_nothing_is_served_unauthorised(c, internal, stage_behind(c, s, internal));
    }
}

/// A service that refuses ends the pass with its answer.
pub proof fn law_a_refusal_is_the_answer(c: CtxView, internal: bool, d: Dispatch, code: u16)
    requires
        d.stage == Stage::Auth || d.stage == Stage::Limits,
    ensures
        answered(c, internal, d, Answer::Refused(code)).ask == AskView::Give(
            StepView::Fail(code),
        ),
        answered(c, internal, d, Answer::Refused(code)).c == c,
{
}

/// A request from outside is limited before anything is done for it, unless the
/// location is closed to it; an internal pass is not limited again.
pub proof fn law_limits_come_first(c: CtxView, internal: bool)
    ensures
        !internal ==> entered(c, internal, Stage::Gate).ask is Limit || entered(
            c,
            internal,
            Stage::Gate,
        ).ask == AskView::Give(StepView::Fail(404)),
        internal ==> !(entered(c, internal, Stage::Gate).ask is Limit),
{
    let next = stage_behind(c, Stage::Gate, internal);
    if gated(c, Stage::Gate, internal) is None {
        assert(entered(c, internal, Stage::Gate) == entered(c, internal, next));
        if internal {
            lemma_not_limited(c, internal, next);
        } else {
            assert(next == Stage::Limits);
        }
    }
}

#[verifier::spinoff_prover]
#[verifier::rlimit(60)]
proof fn lemma_not_limited(c: CtxView, internal: bool, s: Stage)
    requires
        stages_left(s) < stages_left(Stage::Limits),
    ensures
        !(entered(c, internal, s).ask is Limit),
    decreases stages_left(s), 1int,
{
    match s {
        Stage::Methods => {
            let next = stage_behind(c, s, internal);
            lemma_not_limited(c, internal, next);
            match gated(c, Stage::Methods, internal) {
                Some(code) => {
                    assert(entered(c, internal, Stage::Methods).ask == AskView::Give(
                        StepView::Fail(code),
                    ));
                },
                None => {
                    assert(entered(c, internal, Stage::Methods) == entered(c, internal, next));
                },
            }
        },
        Stage::Auth => {
            let next = stage_behind(c, s, internal);
            lemma_not_limited(c, internal, next);
            assert(entered(c, internal, s).ask is Authorise || entered(c, internal, s) == entered(
                c,
                internal,
                next,
            ));
        },
        Stage::Rewrites => {
            if let Some(loc) = location_of(c) {
                let (after, step) = handler::rewrites_from(c, loc.rewrites@, 0);
                if step is None {
                    lemma_not_limited(after, internal, Stage::Ifs);
                }
            } else {
                lemma_not_limited(c, internal, stage_behind(c, s, internal));
            }
        },
        Stage::Ifs => {
            let whole = through_ifs(c, internal, 0, None);
            assert(entered(c, internal, s) == whole);
            if let Some(loc) = location_of(c) {
                let (after, turn) = ifs_from(c, loc.ifs@, 0, None);
                if turn == IfTurnView::Done(None) {
                    lemma_not_limited(after, internal, Stage::TryFiles);
                    lemma_not_limited(after, internal, Stage::Act);
                    assert(whole == entered(after, internal, Stage::TryFiles) || whole == entered(
                        after,
                        internal,
                        Stage::Act,
                    ));
                } else {
                    assert(whole.ask is Look || whole.ask is Give);
                }
            } else {
                lemma_not_limited(c, internal, Stage::Act);
                assert(whole == entered(c, internal, Stage::Act));
            }
        },
        Stage::TryFiles => {
            lemma_not_limited(c, internal, Stage::Act);
            assert(entered(c, internal, s).ask is Try || entered(c, internal, s) == entered(
                c,
                internal,
                Stage::Act,
            ));
        },
        _ => {},
    }
}

} // verus!
