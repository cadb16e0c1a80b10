//! `dispatch`: the way of a request through its server and its location.

use vstd::prelude::*;

use crate::config::Action;
use crate::config::CoreConf;
use crate::config::IfBlock;
use crate::config::Location;
use crate::ctx::CtxView;
use crate::dispatch;
use crate::dispatch::Answer;
use crate::dispatch::AskView;
use crate::dispatch::Dispatch;
use crate::dispatch::IfTurnView;
use crate::dispatch::LimitAnswer;
use crate::dispatch::LimitAsk;
use crate::dispatch::Limiting;
use crate::dispatch::ServerTurnView;
use crate::handler;
use crate::handler::FlowView;
use crate::handler::LimitVerdict;
use crate::handler::Probe;
use crate::handler::Stage;
use crate::handler::StepView;
use crate::limit_req::Decision;

verus! {

// ---------------------------------------------------------------- limits

/// Where the limits stand after some answers.
pub open spec fn limits_after(
    conns: usize,
    reqs: usize,
    core: CoreConf,
    answers: Seq<LimitAnswer>,
) -> Limiting
    decreases answers.len(),
{
    if answers.len() == 0 {
        Limiting { conns, reqs, taken: 0, charged: 0, verdict: LimitVerdict::After(0) }
    } else {
        dispatch::limit_answered(
            limits_after(conns, reqs, core, answers.drop_last()),
            core,
            answers.last(),
        )
    }
}

/// An answer that fits a question and does not refuse: for a limit of connections and for a
/// limit of requests.
pub open spec fn lets_pass(a: LimitAnswer, core: CoreConf, is_conn: bool) -> bool {
    match a {
        LimitAnswer::NoKey => true,
        LimitAnswer::Taken(got) => is_conn && (got || core.limit_conn_dry_run),
        LimitAnswer::Charged(d) => !is_conn && d != Decision::Reject,
    }
}

/// The delay an answer asks for.
pub open spec fn delay_in(a: LimitAnswer) -> u64 {
    match a {
        LimitAnswer::Charged(Decision::Delay(ms)) => ms,
        _ => 0,
    }
}

proof fn lemma_limits(conns: usize, reqs: usize, core: CoreConf, answers: Seq<LimitAnswer>)
    requires
        answers.len() <= conns + reqs,
        forall|k: int|
            0 <= k < answers.len() ==> lets_pass(#[trigger] answers[k], core, k < conns),
    ensures
        ({
            let l = limits_after(conns, reqs, core, answers);
            &&& l.conns == conns && l.reqs == reqs
            &&& l.taken == if answers.len() < conns {
                answers.len() as int
            } else {
                conns as int
            }
            &&& l.taken + l.charged == answers.len()
            &&& (l.verdict matches LimitVerdict::After(ms) && (forall|k: int|
                0 <= k < answers.len() ==> delay_in(#[trigger] answers[k]) <= ms) && (ms == 0
                || exists|k: int|
                0 <= k < answers.len() && delay_in(#[trigger] answers[k]) == ms))
        }),
    decreases answers.len(),
{
    if answers.len() > 0 {
        let front = answers.drop_last();
        assert forall|k: int| 0 <= k < front.len() implies lets_pass(
            #[trigger] front[k],
            core,
            k < conns,
        ) by {
            assert(lets_pass(answers[k], core, k < conns));
        }
        lemma_limits(conns, reqs, core, front);
        let n = answers.len() - 1;
        assert(lets_pass(answers[n], core, n < conns));
        let before = limits_after(conns, reqs, core, front);
        let l = limits_after(conns, reqs, core, answers);
        let was = before.verdict->After_0;
        let ms = l.verdict->After_0;
        assert(ms >= was && ms >= delay_in(answers[n]));
        assert forall|k: int| 0 <= k < answers.len() implies delay_in(#[trigger] answers[k])
            <= ms by {
            if k < n {
                assert(delay_in(front[k]) <= was);
            }
        }
        if ms != 0 {
            if ms == delay_in(answers[n]) {
            } else {
                let k = choose|k: int| 0 <= k < front.len() && delay_in(#[trigger] front[k]) == was;
                assert(delay_in(answers[k]) == ms);
            }
        }
    }
}

/// Every limit is asked, once and in its turn: first those of connections, then those of
/// requests. Where none refuses, the request goes on after the longest of the delays.
pub proof fn law_every_limit_is_asked(
    conns: usize,
    reqs: usize,
    core: CoreConf,
    answers: Seq<LimitAnswer>,
)
    requires
        answers.len() <= conns + reqs,
        forall|k: int|
            0 <= k < answers.len() ==> lets_pass(#[trigger] answers[k], core, k < conns),
    ensures
        ({
            let n = answers.len() as int;
            let ask = dispatch::limit_ask(limits_after(conns, reqs, core, answers));
            &&& n < conns ==> ask == LimitAsk::TakeSlot(n as usize)
            &&& conns <= n < conns + reqs ==> ask == LimitAsk::Charge((n - conns) as usize)
            &&& n == conns + reqs ==> (match ask {
                LimitAsk::Wait(ms) => ms > 0 && (forall|k: int|
                    0 <= k < n ==> delay_in(#[trigger] answers[k]) <= ms) && (exists|k: int|
                    0 <= k < n && delay_in(#[trigger] answers[k]) == ms),
                LimitAsk::Pass => forall|k: int|
                    0 <= k < n ==> delay_in(#[trigger] answers[k]) == 0,
                _ => false,
            })
        }),
{
    lemma_limits(conns, reqs, core, answers);
    let l = limits_after(conns, reqs, core, answers);
    let ms = l.verdict->After_0;
    if answers.len() == conns + reqs && ms == 0 {
        assert forall|k: int| 0 <= k < answers.len() implies delay_in(#[trigger] answers[k])
            == 0 by {}
    }
}

/// A limit that refuses ends the request with the status configured for its kind.
pub proof fn law_a_limit_refuses(
    conns: usize,
    reqs: usize,
    core: CoreConf,
    answers: Seq<LimitAnswer>,
)
    requires
        answers.len() < conns + reqs,
        forall|k: int|
            0 <= k < answers.len() ==> lets_pass(#[trigger] answers[k], core, k < conns),
    ensures
        answers.len() < conns && !core.limit_conn_dry_run ==> dispatch::limit_ask(
            limits_after(conns, reqs, core, answers.push(LimitAnswer::Taken(false))),
        ) == LimitAsk::Refuse(core.limit_conn_status),
        answers.len() >= conns ==> dispatch::limit_ask(
            limits_after(conns, reqs, core, answers.push(LimitAnswer::Charged(Decision::Reject))),
        ) == LimitAsk::Refuse(core.limit_req_status),
{
    lemma_limits(conns, reqs, core, answers);
    assert(answers.push(LimitAnswer::Taken(false)).drop_last() =~= answers);
    assert(answers.push(LimitAnswer::Charged(Decision::Reject)).drop_last() =~= answers);
}

// ---------------------------------------------------------------- blocks

/// The blocks run in their order; one that asks about a path is told of it before it runs.
pub proof fn law_blocks_run_in_order(c: CtxView, blocks: Seq<IfBlock>, i: int, p: Probe)
    requires
        0 <= i < blocks.len(),
    ensures
        (handler::probed_path(c, blocks[i].cond) matches Some(path) ==> dispatch::ifs_from(
            c,
            blocks,
            i,
            None,
        ) == (c, IfTurnView::Look(i, path))),
        ({
            let (next, flow) = handler::if_ran(c, blocks[i], p);
            dispatch::ifs_from(c, blocks, i, Some(p)) == match flow {
                FlowView::Next => dispatch::ifs_from(next, blocks, i + 1, None),
                FlowView::Stop => (next, IfTurnView::Done(None)),
                FlowView::Give(s) => (next, IfTurnView::Done(Some(s))),
            }
        }),
        dispatch::ifs_from(c, blocks, blocks.len() as int, None) == (c, IfTurnView::Done(None)),
{
}

/// A block that asks about no path runs at once.
pub proof fn law_blocks_without_paths_run_at_once(c: CtxView, blocks: Seq<IfBlock>, i: int)
    requires
        0 <= i < blocks.len(),
        handler::probed_path(c, blocks[i].cond) is None,
    ensures
        exists|p: Probe|
            dispatch::ifs_from(c, blocks, i, None) == #[trigger] dispatch::ifs_from(
                c,
                blocks,
                i,
                Some(p),
            ),
{
    let p = dispatch::unseen();
    assert(dispatch::ifs_from(c, blocks, i, None) == dispatch::ifs_from(c, blocks, i, Some(p)));
}

/// What the server's own blocks end with is answered, and a location is chosen otherwise.
pub proof fn law_the_servers_blocks_answer_or_route(c: CtxView, i: int, p: Option<Probe>)
    ensures
        ({
            let (after, turn) = dispatch::ifs_from(c, c.env.server.ifs@, i, p);
            let (end, next) = dispatch::server_ifs_from(c, i, p);
            match turn {
                IfTurnView::Look(k, path) => next == ServerTurnView::Look(k, path) && end == after,
                IfTurnView::Done(None) => next == ServerTurnView::Route && end == after,
                IfTurnView::Done(Some(s)) => {
                    let (last, page) = handler::finished(after, s);
                    end == last && next == match page {
                        Some(q) => ServerTurnView::Answer(q),
                        None => ServerTurnView::Route,
                    }
                },
            }
        }),
{
}

// ---------------------------------------------------------------- locations

/// A location that does no more than act.
pub open spec fn is_plain(loc: Location) -> bool {
    &&& !loc.core.internal
    &&& loc.allowed_methods is None
    &&& loc.core.auth_request is None
    &&& loc.rewrites@.len() == 0
    &&& loc.ifs@.len() == 0
    &&& loc.try_files is None
}

/// A request is in a location.
pub open spec fn is_in(c: CtxView, loc: Location) -> bool {
    c.matched matches Some(i) && i < c.env.server.locations@.len()
        && c.env.server.locations@[i as int] == loc
}

/// What a location does with what it lets through.
pub open spec fn asked_of(c: CtxView, a: Action) -> AskView {
    match a {
        Action::Nothing => AskView::Give(StepView::Fail(404)),
        Action::Static => AskView::Static,
        Action::Proxy => AskView::Proxy,
        Action::FastCgi => AskView::FastCgi,
        Action::Return { status, body } => AskView::Give(
            StepView::Done(handler::returned(c, status, body)),
        ),
    }
}

/// A request to a plain location is limited first, where it comes from outside, and then
/// what the location is for is done.
pub proof fn law_a_plain_location_acts(c: CtxView, loc: Location)
    requires
        is_in(c, loc),
        is_plain(loc),
    ensures
        ({
            let first = dispatch::entered(c, false, Stage::Gate);
            let then = dispatch::answered(
                c,
                false,
                Dispatch { stage: first.stage, block: 0 },
                Answer::Granted,
            );
            &&& first.ask == AskView::Limit && first.c == c
            &&& then.ask == asked_of(c, loc.action) && then.c == c
        }),
        ({
            let p = dispatch::entered(c, true, Stage::Gate);
            p.ask == asked_of(c, loc.action) && p.c == c
        }),
{
    lemma_plain(c, loc, false);
    lemma_plain(c, loc, true);
    assert(dispatch::location_of(c) == Some(loc));
    reveal(dispatch::let_through);
    assert(dispatch::let_through(c, false, Stage::Limits) == dispatch::entered(
        c,
        false,
        Stage::Methods,
    ));
}

proof fn lemma_plain(c: CtxView, loc: Location, internal: bool)
    requires
        is_in(c, loc),
        is_plain(loc),
    ensures
        ({
            let p = dispatch::entered(c, internal, Stage::Methods);
            p.ask == asked_of(c, loc.action) && p.c == c
        }),
        !internal ==> ({
            let p = dispatch::entered(c, internal, Stage::Gate);
            p.ask == AskView::Limit && p.c == c && p.stage == Stage::Limits
        }),
        internal ==> dispatch::entered(c, internal, Stage::Gate) == dispatch::entered(
            c,
            internal,
            Stage::Methods,
        ),
{
    assert(dispatch::location_of(c) == Some(loc));
    assert(dispatch::entered(c, internal, Stage::Act).ask == asked_of(c, loc.action));
    assert(dispatch::ifs_from(c, loc.ifs@, 0, None) == (c, IfTurnView::Done(None)));
    assert(dispatch::through_ifs(c, internal, 0, None) == dispatch::entered(
        c,
        internal,
        Stage::Act,
    ));
    assert(dispatch::entered(c, internal, Stage::Ifs) == dispatch::through_ifs(
        c,
        internal,
        0,
        None,
    ));
    assert(handler::rewrites_from(c, loc.rewrites@, 0) == (c, None::<StepView>));
    assert(dispatch::entered(c, internal, Stage::Rewrites) == dispatch::entered(
        c,
        internal,
        Stage::Ifs,
    ));
    assert(dispatch::entered(c, internal, Stage::Methods) == dispatch::entered(
        c,
        internal,
        Stage::Rewrites,
    ));
    assert(dispatch::entered(c, internal, Stage::Limits).ask == AskView::Limit);
    if !internal {
        assert(dispatch::entered(c, internal, Stage::Gate) == dispatch::entered(
            c,
            internal,
            Stage::Limits,
        ));
    }
}

/// Outside of every location a server returns what it is told to, and serves files
/// otherwise.
pub proof fn law_a_server_acts_by_itself(c: CtxView)
    requires
        c.matched is None,
    ensures
        ({
            let p = dispatch::entered(c, true, Stage::Gate);
            p.ask == match c.env.server.action {
                Action::Return { status, body } => AskView::Give(
                    StepView::Done(handler::returned(c, status, body)),
                ),
                _ => AskView::Static,
            }
        }),
{
    assert(dispatch::location_of(c) is None);
    assert(dispatch::entered(c, true, Stage::Act).ask == dispatch::acted(c));
    assert(dispatch::entered(c, true, Stage::Gate) == dispatch::entered(c, true, Stage::Act));
}

/// An internal location does not exist for a request from outside.
pub proof fn law_internal_locations_are_hidden(c: CtxView, loc: Location)
    requires
        is_in(c, loc),
        loc.core.internal,
    ensures
        dispatch::entered(c, false, Stage::Gate).ask == AskView::Give(StepView::Fail(404)),
{
    assert(dispatch::location_of(c) == Some(loc));
}

/// Where a location asks another service for permission, that is asked before anything is
/// rewritten or sent, and its refusal is the answer.
pub proof fn law_permission_is_asked_for(c: CtxView, loc: Location, uri: Vec<u8>, code: u16)
    requires
        is_in(c, loc),
        loc.allowed_methods is None,
        loc.core.auth_request == Some(uri),
    ensures
        ({
            let p = dispatch::answered(
                c,
                false,
                Dispatch { stage: Stage::Limits, block: 0 },
                Answer::Granted,
            );
            &&& p.ask == AskView::Authorise(uri@) && p.c == c
            &&& dispatch::answered(
                c,
                false,
                Dispatch { stage: p.stage, block: 0 },
                Answer::Refused(code),
            ).ask == AskView::Give(StepView::Fail(code))
            &&& dispatch::answered(
                c,
                false,
                Dispatch { stage: p.stage, block: 0 },
                Answer::Granted,
            ) == dispatch::entered(c, false, Stage::Rewrites)
        }),
{
    assert(dispatch::location_of(c) == Some(loc));
    assert(dispatch::entered(c, false, Stage::Auth).ask == AskView::Authorise(uri@));
    assert(dispatch::entered(c, false, Stage::Methods) == dispatch::entered(c, false, Stage::Auth));
    reveal(dispatch::let_through);
    assert(dispatch::let_through(c, false, Stage::Limits) == dispatch::entered(
        c,
        false,
        Stage::Methods,
    ));
    assert(dispatch::let_through(c, false, Stage::Auth) == dispatch::entered(
        c,
        false,
        Stage::Rewrites,
    ));
}

/// A location rewrites before it does anything else; what a rewrite gives is given, and
/// otherwise its blocks run on what the rewrites made of the request.
pub proof fn law_a_location_rewrites(c: CtxView, loc: Location, internal: bool)
    requires
        is_in(c, loc),
    ensures
        ({
            let (after, step) = handler::rewrites_from(c, loc.rewrites@, 0);
            let p = dispatch::entered(c, internal, Stage::Rewrites);
            match step {
                Some(s) => p.ask == AskView::Give(s) && p.c == after,
                None => p == dispatch::through_ifs(after, internal, 0, None),
            }
        }),
{
    assert(dispatch::location_of(c) == Some(loc));
    let (after, step) = handler::rewrites_from(c, loc.rewrites@, 0);
    assert(dispatch::entered(after, internal, Stage::Ifs) == dispatch::through_ifs(
        after,
        internal,
        0,
        None,
    ));
}

/// Where the blocks let a request pass, its files are tried, where there are any to try,
/// and what the location is for is done otherwise.
pub proof fn law_files_are_tried_behind_the_blocks(c: CtxView, loc: Location, internal: bool)
    requires
        is_in(c, loc),
        loc.ifs@.len() == 0,
    ensures
        ({
            let p = dispatch::through_ifs(c, internal, 0, None);
            match loc.try_files {
                Some(tf) => p.stage == Stage::TryFiles && p.c == c && (p.ask matches AskView::Try(
                    paths,
                ) && paths.len() == tf.items@.len() && forall|k: int|
                    0 <= k < paths.len() ==> #[trigger] paths[k] == handler::tried_path(
                        c,
                        tf.items@[k],
                    )),
                None => p.ask == asked_of(c, loc.action) && p.c == c,
            }
        }),
{
    assert(dispatch::location_of(c) == Some(loc));
    assert(dispatch::ifs_from(c, loc.ifs@, 0, None) == (c, IfTurnView::Done(None)));
    assert(dispatch::entered(c, internal, Stage::Act).ask == asked_of(c, loc.action));
}

/// What became of the candidates is followed: a file or a fallback that ends the pass is
/// given, and otherwise the location goes on with what was found.
pub proof fn law_candidates_are_followed(
    c: CtxView,
    loc: Location,
    internal: bool,
    ps: Vec<Probe>,
)
    requires
        is_in(c, loc),
        loc.try_files matches Some(tf) && tf.items@.len() == ps@.len(),
    ensures
        ({
            let (after, step) = handler::tried(c, loc.try_files->0, ps@);
            let p = dispatch::answered(
                c,
                internal,
                Dispatch { stage: Stage::TryFiles, block: 0 },
                Answer::Candidates(ps),
            );
            match step {
                Some(s) => p.ask == AskView::Give(s) && p.c == after,
                None => p == dispatch::entered(after, internal, Stage::Act),
            }
        }),
{
    assert(dispatch::location_of(c) == Some(loc));
    reveal(dispatch::tried_out);
    let (after, step) = handler::tried(c, loc.try_files->0, ps@);
    let p = dispatch::tried_out(c, internal, ps@);
    if step is None {
        assert(p == dispatch::entered(after, internal, Stage::Act));
    }
}

/// A path that a block asked about is answered to that block.
pub proof fn law_what_was_seen_goes_to_its_block(
    c: CtxView,
    internal: bool,
    d: Dispatch,
    p: Probe,
)
    requires
        d.stage == Stage::Ifs,
    ensures
        dispatch::answered(c, internal, d, Answer::Seen(p)) == dispatch::looked(
            c,
            internal,
            d.block as int,
            p,
        ),
{
}

/// The block is run with what was seen, and the others behind it.
pub proof fn law_a_block_learns_what_was_seen(
    c: CtxView,
    loc: Location,
    internal: bool,
    i: int,
    p: Probe,
)
    requires
        is_in(c, loc),
        0 <= i < loc.ifs@.len(),
        dispatch::ifs_from(c, loc.ifs@, i, Some(p)).1 != IfTurnView::Done(None),
    ensures
        ({
            let (after, turn) = dispatch::ifs_from(c, loc.ifs@, i, Some(p));
            let q = dispatch::looked(c, internal, i, p);
            q.c == after && q.ask == match turn {
                IfTurnView::Look(k, path) => AskView::Look(path),
                IfTurnView::Done(Some(s)) => AskView::Give(s),
                IfTurnView::Done(None) => AskView::Limit,
            }
        }),
{
    assert(dispatch::location_of(c) == Some(loc));
    reveal(dispatch::looked);
    let q = dispatch::through_ifs(c, internal, i, Some(p));
    assert(dispatch::looked(c, internal, i, p) == q);
}

/// An answer to another question than the one that was asked is a failure.
pub proof fn law_answers_fit_their_questions(c: CtxView, internal: bool, d: Dispatch, a: Answer)
    requires
        d.stage == Stage::Gate || d.stage == Stage::Methods || d.stage == Stage::Rewrites || d.stage
            == Stage::Act,
    ensures
        dispatch::answered(c, internal, d, a).ask == AskView::Give(StepView::Fail(500)),
{
}

} // verus!
