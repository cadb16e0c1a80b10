//! Routing: what `rewrite`, `if`, `return`, `try_files`, `error_page` and the search for a
//! location come to.

use vstd::prelude::*;
use vstd::string::*;

use crate::bytes;
use crate::config::Cond;
use crate::config::DefaultPage;
use crate::config::SetDirective;
use crate::config::ErrorPage;
use crate::config::ErrorTarget;
use crate::config::IfAction;
use crate::config::IfBlock;
use crate::config::Location;
use crate::config::Rewrite;
use crate::config::RewriteFlag;
use crate::config::Template;
use crate::config::TryFallback;
use crate::config::TryFiles;
use crate::config::Var;
use crate::ctx;
use crate::ctx::CtxView;
use crate::handler;
use crate::handler::Came;
use crate::handler::ErrorRouteView;
use crate::handler::FlowView;
use crate::handler::Hit;
use crate::handler::PageView;
use crate::handler::Probe;
use crate::handler::RoutingView;
use crate::handler::Stage;
use crate::handler::StepView;
use crate::handler::TurnView;
use crate::http;
use crate::pattern;

verus! {

// ---------------------------------------------------------------- rewrites

/// Whether a page sends a client elsewhere: with this status, and with one `Location`.
pub open spec fn is_redirect(p: PageView, status: u16, location: Seq<u8>) -> bool {
    &&& p.resp.status == status
    &&& p.resp.headers.len() == 2
    &&& p.resp.headers[0] == (bytes::utf8("Location"@), location)
    &&& p.resp.headers[1] == (bytes::utf8("Content-Type"@), bytes::utf8("text/html"@))
    &&& p.resp.keep_alive
}

proof fn lemma_not_a_type()
    ensures
        !bytes::same_name(bytes::utf8("Location"@), bytes::utf8("content-type"@)),
{
    reveal_strlit("Location");
    reveal_strlit("content-type");
    bytes::lemma_ascii_len("Location"@);
    bytes::lemma_ascii_len("content-type"@);
    assert(bytes::lowered(bytes::utf8("Location"@)).len() == 8);
    assert(bytes::lowered(bytes::utf8("content-type"@)).len() == 12);
}

proof fn lemma_redirected(c: CtxView, code: u16, target: Seq<u8>)
    requires
        code == 301 || code == 302,
    ensures
        is_redirect(
            handler::redirected(c, code, target),
            code,
            if c.args.len() > 0 && !bytes::has(target, 63) {
                target + seq![63u8] + c.args
            } else {
                target
            },
        ),
{
    lemma_not_a_type();
    let hs = seq![(bytes::utf8("Location"@), handler::with_args(target, c.args))];
    reveal_with_fuel(http::place_of, 3);
    assert(http::value_of(hs, bytes::utf8("content-type"@)) is None);
}

/// What a redirecting `rewrite` sends the client to: the replacement with what the pattern
/// captured in it, and the request's arguments behind it unless it has its own. A `?` at
/// its end says that there are to be none.
pub open spec fn redirect_target(full: Seq<u8>, args: Seq<u8>) -> Seq<u8> {
    if !full.contains(63) {
        if args.len() > 0 {
            full + seq![63u8] + args
        } else {
            full
        }
    } else if full.last() == 63 && !full.drop_last().contains(63) {
        full.drop_last()
    } else {
        full
    }
}

proof fn lemma_split(c: CtxView, full: Seq<u8>)
    ensures
        ({
            let (next, path) = handler::split_args(c, full);
            &&& !path.contains(63)
            &&& !bytes::has(path, 63)
            &&& full.contains(63) <==> full.len() > path.len()
            &&& full.contains(63) ==> full == path + seq![63u8] + next.args
            &&& !full.contains(63) ==> path == full && next == c
            &&& next == (CtxView { args: next.args, ..c })
        }),
{
    bytes::lemma_find(full, 63, 0);
    let q = bytes::find(full, 63, 0);
    let (next, path) = handler::split_args(c, full);
    if q < full.len() {
        assert(full[q] == 63);
        assert(full =~= path + seq![63u8] + next.args);
        assert forall|j: int| 0 <= j < path.len() implies path[j] != 63 by {}
    }
    bytes::lemma_find(path, 63, 0);
    if bytes::has(path, 63) {
        assert(path[bytes::find(path, 63, 0)] == 63);
    }
}

/// A `rewrite` with the flag `redirect` or `permanent` answers with a redirect, of the
/// status that the flag stands for, to what its replacement comes to.
pub proof fn law_a_redirecting_rewrite_leads_to_its_replacement(
    c: CtxView,
    r: Rewrite,
    groups: Seq<Seq<u8>>,
)
    requires
        r.flag == RewriteFlag::Redirect || r.flag == RewriteFlag::Permanent,
    ensures
        ({
            let full = ctx::shown(CtxView { captures: groups, ..c }, r.replacement);
            let status: u16 = if r.flag == RewriteFlag::Permanent {
                301
            } else {
                302
            };
            handler::rewritten(c, r, groups).1 matches FlowView::Give(StepView::Done(p))
                && is_redirect(p, status, redirect_target(full, c.args))
        }),
{
    let c1 = CtxView { captures: groups, ..c };
    let full = ctx::shown(c1, r.replacement);
    lemma_split(c1, full);
    let (c2, path) = handler::split_args(c1, full);
    lemma_redirected(c2, 301, path);
    lemma_redirected(c2, 302, path);
    lemma_target(c1, full);
}

proof fn lemma_target(c: CtxView, full: Seq<u8>)
    ensures
        ({
            let (next, path) = handler::split_args(c, full);
            redirect_target(full, c.args) == if next.args.len() > 0 {
                path + seq![63u8] + next.args
            } else {
                path
            }
        }),
{
    lemma_split(c, full);
    let (next, path) = handler::split_args(c, full);
    if full.contains(63) {
        if next.args.len() == 0 {
            assert(full =~= path.push(63));
            assert(full.drop_last() =~= path);
        } else {
            if full.last() == 63 {
                assert(full.drop_last()[path.len() as int] == 63);
                assert(full.drop_last().contains(63));
            }
        }
    }
}

/// A replacement that names another site redirects there, whatever the flag.
pub proof fn law_another_site_is_a_redirect(c: CtxView, r: Rewrite, groups: Seq<Seq<u8>>)
    requires
        !(r.flag == RewriteFlag::Redirect || r.flag == RewriteFlag::Permanent),
        ({
            let full = ctx::shown(CtxView { captures: groups, ..c }, r.replacement);
            let path = handler::split_args(c, full).1;
            bytes::starts(path, bytes::utf8("http://"@)) || bytes::starts(
                path,
                bytes::utf8("https://"@),
            )
        }),
    ensures
        ({
            let full = ctx::shown(CtxView { captures: groups, ..c }, r.replacement);
            handler::rewritten(c, r, groups).1 matches FlowView::Give(StepView::Done(p))
                && is_redirect(p, 302, redirect_target(full, c.args))
        }),
{
    let c1 = CtxView { captures: groups, ..c };
    let full = ctx::shown(c1, r.replacement);
    let (c2, path) = handler::split_args(c1, full);
    lemma_redirected(c2, 302, path);
    lemma_target(c1, full);
    lemma_split(c1, full);
    lemma_split(c, full);
}

/// Any other `rewrite` moves the request: its URI becomes what the replacement comes to,
/// its arguments are kept unless the replacement has its own, and nothing else of it
/// changes but the captures. `last` routes again, `break` ends the phase, and without a
/// flag the next directive follows.
pub proof fn law_a_rewrite_moves_the_request(
    c: CtxView,
    r: Rewrite,
    groups: Seq<Seq<u8>>,
    path: Seq<u8>,
    args: Seq<u8>,
)
    requires
        !(r.flag == RewriteFlag::Redirect || r.flag == RewriteFlag::Permanent),
        !path.contains(63),
        !bytes::starts(path, bytes::utf8("http://"@)),
        !bytes::starts(path, bytes::utf8("https://"@)),
        ({
            let full = ctx::shown(CtxView { captures: groups, ..c }, r.replacement);
            full == path && args == c.args || full == path + seq![63u8] + args
        }),
    ensures
        ({
            let (next, flow) = handler::rewritten(c, r, groups);
            &&& next == (CtxView { captures: groups, uri: path, args, ..c })
            &&& flow == match r.flag {
                RewriteFlag::Last => FlowView::Give(StepView::Internal(path)),
                RewriteFlag::Break => FlowView::Stop,
                _ => FlowView::Next,
            }
        }),
{
    let c1 = CtxView { captures: groups, ..c };
    let full = ctx::shown(c1, r.replacement);
    lemma_split(c1, full);
    if full != path {
        assert(full[path.len() as int] == 63);
        assert forall|j: int| 0 <= j < path.len() implies full[j] != 63 by {
            assert(full[j] == path[j]);
        }
        bytes::lemma_find_is(full, 63, 0, path.len() as int);
        assert(full.subrange(0, path.len() as int) =~= path);
        assert(full.subrange((path.len() + 1) as int, full.len() as int) =~= args);
    }
}

/// The directives are carried out in order, each on what the one before left. The first
/// that answers, or says `break`, is the last one.
pub proof fn law_rewrites_come_in_order(c: CtxView, rules: Seq<Rewrite>, i: int, groups: Seq<Seq<u8>>)
    requires
        0 <= i < rules.len(),
        pattern::captured(rules[i].pattern@, c.uri) == Some(groups),
    ensures
        ({
            let (next, flow) = handler::rewritten(c, rules[i], groups);
            handler::rewrites_from(c, rules, i) == match flow {
                FlowView::Next => handler::rewrites_from(next, rules, i + 1),
                FlowView::Stop => (next, None),
                FlowView::Give(s) => (next, Some(s)),
            }
        }),
{
}

/// A directive whose pattern does not match is passed over.
pub proof fn law_what_does_not_match_is_passed_over(c: CtxView, rules: Seq<Rewrite>, i: int)
    requires
        0 <= i < rules.len(),
        pattern::captured(rules[i].pattern@, c.uri) is None,
    ensures
        handler::rewrites_from(c, rules, i) == handler::rewrites_from(c, rules, i + 1),
{
}

// ---------------------------------------------------------------- conditions

/// `=` and `!=` tell whether a variable has a value, and are each other's opposite; a
/// variable alone is true unless it is empty or `0`.
pub proof fn law_values_are_compared(c: CtxView, v: Var, t: Template, probe: Probe)
    ensures
        handler::holds(c, Cond::Eq(v, t), probe) <==> ctx::value(c, v, 0) == ctx::shown(c, t),
        handler::holds(c, Cond::Ne(v, t), probe) <==> !handler::holds(c, Cond::Eq(v, t), probe),
        handler::holds(c, Cond::Truthy(v), probe) <==> ctx::value(c, v, 0).len() > 0 && ctx::value(
            c,
            v,
            0,
        ) != seq![48u8],
        handler::holds(c, Cond::Always, probe),
{
}

/// A pattern is looked for in the value of its variable, and `!` asks for the opposite.
pub proof fn law_patterns_are_looked_for(c: CtxView, var: Var, pattern: String, probe: Probe)
    ensures
        handler::holds(c, Cond::Match { var, pattern, negate: false }, probe) <==> pattern::found(
            pattern@,
            ctx::value(c, var, 0),
        ),
        handler::holds(c, Cond::Match { var, pattern, negate: true }, probe) <==> !pattern::found(
            pattern@,
            ctx::value(c, var, 0),
        ),
{
}

/// The tests on files ask what their letters say, of the path that is written, and `!`
/// asks for the opposite.
pub proof fn law_files_are_tested(c: CtxView, path: Template, probe: Probe, no: bool)
    ensures
        handler::holds(c, Cond::FileExists { path, negate: no }, probe) == if no {
            !(probe.exists && probe.is_file)
        } else {
            probe.exists && probe.is_file
        },
        handler::probed_path(c, Cond::FileExists { path, negate: no }) == Some(ctx::shown(c, path)),
        handler::holds(c, Cond::DirExists { path, negate: no }, probe) == if no {
            !(probe.exists && probe.is_dir)
        } else {
            probe.exists && probe.is_dir
        },
        handler::probed_path(c, Cond::DirExists { path, negate: no }) == Some(ctx::shown(c, path)),
        handler::holds(c, Cond::AnyExists { path, negate: no }, probe) == if no {
            !(probe.exists)
        } else {
            probe.exists
        },
        handler::probed_path(c, Cond::AnyExists { path, negate: no }) == Some(ctx::shown(c, path)),
        handler::holds(c, Cond::Executable { path, negate: no }, probe) == if no {
            !(probe.exists && probe.executable)
        } else {
            probe.exists && probe.executable
        },
        handler::probed_path(c, Cond::Executable { path, negate: no }) == Some(ctx::shown(c, path)),
{
}

/// A block whose condition does not hold does nothing at all.
pub proof fn law_a_false_block_does_nothing(c: CtxView, b: IfBlock, probe: Probe)
    requires
        !handler::holds(c, b.cond, probe),
    ensures
        handler::if_ran(c, b, probe) == (c, FlowView::Next),
{
}

/// A block whose condition holds carries out its directives: a `return` in front of it is
/// its answer, a `break` ends the phase, a `set` gives its variable the value it has then,
/// and an empty block lets the request go on as it was.
pub proof fn law_a_true_block_is_carried_out(c: CtxView, b: IfBlock, probe: Probe)
    requires
        handler::holds(c, b.cond, probe),
    ensures
        b.actions@.len() == 0 ==> handler::if_ran(c, b, probe) == (c, FlowView::Next),
        b.actions@.len() > 0 ==> match b.actions@[0] {
            IfAction::Return { status, body } => handler::if_ran(c, b, probe) == (
                c,
                FlowView::Give(StepView::Done(handler::returned(c, status, body))),
            ),
            IfAction::Break => handler::if_ran(c, b, probe) == (c, FlowView::Stop),
            IfAction::Assign(d) => handler::if_ran(c, b, probe) == handler::actions_from(
                CtxView { set_vars: ctx::assigned(c.set_vars, d.name@, ctx::shown(c, d.value)), ..c },
                b.actions@,
                1,
            ),
            IfAction::Rewrite(r) => pattern::captured(r.pattern@, c.uri) is None ==> handler::if_ran(
                c,
                b,
                probe,
            ) == handler::actions_from(c, b.actions@, 1),
            IfAction::AddHeader(_) => handler::if_ran(c, b, probe) == handler::actions_from(
                c,
                b.actions@,
                1,
            ),
        },
{
}

/// A `rewrite` in a block that answers is the answer of the block; any other is followed by
/// the next directive.
pub proof fn law_rewrites_in_blocks(
    c: CtxView,
    actions: Seq<IfAction>,
    i: int,
    r: Rewrite,
    groups: Seq<Seq<u8>>,
)
    requires
        0 <= i < actions.len(),
        actions[i] == IfAction::Rewrite(r),
        pattern::captured(r.pattern@, c.uri) == Some(groups),
    ensures
        ({
            let (next, flow) = handler::rewritten(c, r, groups);
            handler::actions_from(c, actions, i) == if flow is Give {
                (next, flow)
            } else {
                handler::actions_from(next, actions, i + 1)
            }
        }),
{
}

// ---------------------------------------------------------------- return

/// A `return` answers with its status. For 3xx its text is where to go, and there is no
/// body; for 204 there is nothing; for any other status its text is the body, as plain
/// text.
pub proof fn law_a_return_answers(c: CtxView, code: u16, t: Template)
    ensures
        handler::returned(c, code, Some(t)).resp.status == code,
        handler::returned(c, code, None).resp.status == code,
        300 <= code < 400 ==> {
            let p = handler::returned(c, code, Some(t));
            p.body is None && p.resp.headers == seq![(bytes::utf8("Location"@), ctx::shown(c, t))]
        },
        code == 204 ==> handler::returned(c, code, Some(t)).body is None && handler::returned(
            c,
            code,
            Some(t),
        ).resp.headers.len() == 0,
        !(300 <= code < 400) && code != 204 ==> {
            let p = handler::returned(c, code, Some(t));
            p.body == Some(ctx::shown(c, t)) && p.resp.headers == seq![
                (bytes::utf8("Content-Type"@), bytes::utf8("text/plain"@)),
            ]
        },
{
    lemma_error_page(c, code);
}

proof fn lemma_error_page(c: CtxView, code: u16)
    ensures
        handler::error_page(c, code).resp.status == code,
{
}

/// An error that nothing is configured for is answered with its own status. The
/// connection goes on unless the request was one whose end is not known.
pub proof fn law_an_error_has_its_status(c: CtxView, code: u16)
    ensures
        handler::error_page(c, code).resp.status == code,
        code == 400 || code == 408 || code == 413 || code == 414 || code == 431 || code == 500
            || code == 501 || code == 505 ==> !handler::error_page(c, code).resp.keep_alive,
        code == 403 || code == 404 || code == 405 || code == 416 || code == 502 || code == 503
            || code == 504 ==> handler::error_page(c, code).resp.keep_alive,
        code >= 400 ==> handler::error_page(c, code).body is Some,
{
}

// ---------------------------------------------------------------- try_files

/// Whether a candidate of `try_files` is there: one that ends in a slash as a directory,
/// any other as a file.
pub open spec fn is_there(candidate: Seq<u8>, p: Probe) -> bool {
    &&& candidate.len() > 0
    &&& p.exists
    &&& candidate.last() == 47 ==> p.is_dir
    &&& candidate.last() != 47 ==> p.is_file
}

proof fn lemma_first_fit(c: CtxView, items: Seq<Template>, probes: Seq<Probe>, i: int)
    requires
        0 <= i <= items.len(),
    ensures
        ({
            let f = handler::first_fit(c, items, probes, i);
            &&& i <= f <= items.len()
            &&& f < items.len() ==> is_there(ctx::shown(c, items[f]), probes[f])
            &&& forall|j: int|
                #![trigger items[j]]
                i <= j < f ==> !is_there(ctx::shown(c, items[j]), probes[j])
        }),
    decreases items.len() - i,
{
    if i < items.len() && !handler::fits(ctx::shown(c, items[i]), probes[i]) {
        lemma_first_fit(c, items, probes, i + 1);
    }
}

/// `try_files` leads to the first of its candidates that is there: in place where that is
/// the URI at hand, and else by routing again.
pub proof fn law_the_first_candidate_is_taken(
    c: CtxView,
    tf: TryFiles,
    probes: Seq<Probe>,
    k: int,
)
    requires
        0 <= k < tf.items@.len(),
        is_there(ctx::shown(c, tf.items@[k]), probes[k]),
        forall|j: int|
            #![trigger tf.items@[j]]
            0 <= j < k ==> !is_there(ctx::shown(c, tf.items@[j]), probes[j]),
    ensures
        handler::tried(c, tf, probes).0 == c,
        handler::tried(c, tf, probes).1 == if ctx::shown(c, tf.items@[k]) == c.uri {
            None
        } else {
            Some(StepView::Internal(ctx::shown(c, tf.items@[k])))
        },
{
    lemma_first_fit(c, tf.items@, probes, 0);
    let f = handler::first_fit(c, tf.items@, probes, 0);
    if f < k {
        assert(is_there(ctx::shown(c, tf.items@[f]), probes[f]));
    }
    if f > k {
        assert(!is_there(ctx::shown(c, tf.items@[k]), probes[k]));
    }
}

/// Where none of its candidates is there, `try_files` leads to its fallback: a status, a
/// named location, or a URI, whose arguments, if it has any, replace the request's.
pub proof fn law_the_fallback_is_taken(
    c: CtxView,
    tf: TryFiles,
    probes: Seq<Probe>,
    path: Seq<u8>,
    args: Seq<u8>,
)
    requires
        forall|j: int|
            #![trigger tf.items@[j]]
            0 <= j < tf.items@.len() ==> !is_there(ctx::shown(c, tf.items@[j]), probes[j]),
        !path.contains(63),
        tf.fallback matches TryFallback::Uri(t) ==> ctx::shown(c, t) == path && args == c.args
            || ctx::shown(c, t) == path + seq![63u8] + args,
    ensures
        match tf.fallback {
            TryFallback::Status(s) => handler::tried(c, tf, probes) == (
                c,
                Some(StepView::Fail(s)),
            ),
            TryFallback::Named(n) => handler::tried(c, tf, probes) == (
                c,
                Some(StepView::Named(n@)),
            ),
            TryFallback::Uri(_) => handler::tried(c, tf, probes) == (
                CtxView { args, ..c },
                Some(StepView::Internal(path)),
            ),
        },
{
    lemma_first_fit(c, tf.items@, probes, 0);
    let f = handler::first_fit(c, tf.items@, probes, 0);
    if f < tf.items@.len() {
        assert(is_there(ctx::shown(c, tf.items@[f]), probes[f]));
    }
    if let TryFallback::Uri(t) = tf.fallback {
        let full = ctx::shown(c, t);
        lemma_split(c, full);
        if full != path {
            assert(full[path.len() as int] == 63);
            assert forall|j: int| 0 <= j < path.len() implies full[j] != 63 by {
                assert(full[j] == path[j]);
            }
            bytes::lemma_find_is(full, 63, 0, path.len() as int);
            assert(full.subrange(0, path.len() as int) =~= path);
            assert(full.subrange((path.len() + 1) as int, full.len() as int) =~= args);
        }
    }
}

/// A candidate is looked for under the root, with a slash between the two.
pub proof fn law_candidates_stand_under_the_root(c: CtxView, item: Template)
    ensures
        ({
            let root = ctx::shown(c, ctx::root_template(c));
            let candidate = ctx::shown(c, item);
            let p = handler::tried_path(c, item);
            &&& bytes::starts(p, root)
            &&& bytes::ends(p, candidate)
            &&& p.len() > root.len() && p[root.len() as int] == 47
            &&& candidate.len() > 0 && candidate[0] == 47 ==> p == root + candidate
            &&& !(candidate.len() > 0 && candidate[0] == 47) ==> p == root + seq![47u8] + candidate
        }),
{
    let root = ctx::shown(c, ctx::root_template(c));
    let candidate = ctx::shown(c, item);
    let p = handler::tried_path(c, item);
    assert(p.subrange(0, root.len() as int) =~= root);
    assert(p.subrange(p.len() - candidate.len(), p.len() as int) =~= candidate);
}

// ---------------------------------------------------------------- locations

/// The innermost location that was found is the one, with the captures of the innermost
/// pattern; nothing else of the request changes.
pub proof fn law_the_innermost_location_is_matched(c: CtxView, hits: Seq<Hit>, k: int)
    ensures
        hits.len() > 0 ==> handler::located(c, hits).matched == Some(hits.last().location),
        hits.len() == 0 ==> handler::located(c, hits).matched is None && handler::located(
            c,
            hits,
        ).captures == c.captures,
        0 <= k < hits.len() && (forall|j: int|
            k < j < hits.len() ==> (#[trigger] hits[j]).captures is None) ==> (hits[k].captures
            matches Some(g) ==> handler::located(c, hits).captures == pattern::views(g@)),
        handler::located(c, hits) == (CtxView {
            matched: handler::located(c, hits).matched,
            captures: handler::located(c, hits).captures,
            ..c
        }),
{
    if 0 <= k < hits.len() && hits[k].captures is Some && (forall|j: int|
        k < j < hits.len() ==> (#[trigger] hits[j]).captures is None) {
        lemma_deepest(c, hits, hits.len() as int, k);
    }
}

proof fn lemma_deepest(c: CtxView, hits: Seq<Hit>, n: int, k: int)
    requires
        0 <= k < n <= hits.len(),
        hits[k].captures is Some,
        forall|j: int| k < j < n ==> (#[trigger] hits[j]).captures is None,
    ensures
        handler::deepest(c, hits, n) == pattern::views(hits[k].captures->0@),
    decreases n,
{
    if n - 1 > k {
        assert(hits[n - 1].captures is None);
        lemma_deepest(c, hits, n - 1, k);
    }
}

/// The place of a stage in the order they are passed in.
pub open spec fn place_of_stage(s: Stage) -> int {
    match s {
        Stage::Gate => 0,
        Stage::Limits => 1,
        Stage::Methods => 2,
        Stage::Auth => 3,
        Stage::Rewrites => 4,
        Stage::Ifs => 5,
        Stage::TryFiles => 6,
        Stage::Act => 7,
    }
}

/// The stages of a location are passed in their order, and none that applies is left out:
/// the limits for a request from outside, `auth_request` and `try_files` where they are
/// configured, and all others in any case.
pub proof fn law_no_stage_is_left_out(s: Stage, loc: Location, internal: bool)
    requires
        s != Stage::Act,
    ensures
        ({
            let next = handler::stage_after(s, loc, internal);
            &&& place_of_stage(next) > place_of_stage(s)
            &&& forall|t: Stage|
                place_of_stage(s) < #[trigger] place_of_stage(t) < place_of_stage(next) ==> {
                    ||| t == Stage::Limits && internal
                    ||| t == Stage::Auth && loc.core.auth_request is None
                    ||| t == Stage::TryFiles && loc.try_files is None
                }
            &&& next == Stage::Auth ==> loc.core.auth_request is Some
            &&& next == Stage::TryFiles ==> loc.try_files is Some
        }),
{
}

proof fn lemma_names_method(allowed: Seq<Vec<u8>>, method: Seq<u8>, i: int)
    requires
        0 <= i,
    ensures
        handler::names_method(allowed, method, i) <==> exists|k: int|
            i <= k < allowed.len() && ((#[trigger] allowed[k])@ == method || (allowed[k]@
                == bytes::utf8("GET"@) && method == bytes::utf8("HEAD"@))),
    decreases allowed.len() - i,
{
    if i < allowed.len() {
        lemma_names_method(allowed, method, i + 1);
        if handler::names_method(allowed, method, i + 1) {
            let k = choose|k: int|
                i + 1 <= k < allowed.len() && ((#[trigger] allowed[k])@ == method || (allowed[k]@
                    == bytes::utf8("GET"@) && method == bytes::utf8("HEAD"@)));
            assert(i <= k);
        }
    }
}

/// `limit_except` lets the methods through that it names, with `HEAD` where it names
/// `GET`, and answers every other with 405; without it every method gets through.
pub proof fn law_methods_are_limited(loc: Location, internal: bool, method: Seq<u8>)
    ensures
        loc.allowed_methods is None ==> handler::refused_at(Stage::Methods, loc, internal, method)
            is None,
        loc.allowed_methods matches Some(allowed) ==> handler::refused_at(
            Stage::Methods,
            loc,
            internal,
            method,
        ) == if exists|k: int|
            0 <= k < allowed@.len() && ((#[trigger] allowed@[k])@ == method || (allowed@[k]@
                == bytes::utf8("GET"@) && method == bytes::utf8("HEAD"@))) {
            None
        } else {
            Some(405u16)
        },
{
    if let Some(allowed) = loc.allowed_methods {
        lemma_names_method(allowed@, method, 0);
    }
}

// ---------------------------------------------------------------- error pages

/// An error is answered with the page that the server has for its status.
pub proof fn law_errors_have_their_page(c: CtxView, code: u16, k: int)
    requires
        !(100 <= code <= 199) && code != 204 && code != 304,
        0 <= k < c.env.server.default_pages@.len(),
        c.env.server.default_pages@[k].code == code,
        forall|j: int| 0 <= j < k ==> (#[trigger] c.env.server.default_pages@[j]).code != code,
    ensures
        handler::error_page(c, code).body == Some(c.env.server.default_pages@[k].body@),
{
    lemma_default_page(c.env.server.default_pages@, code, 0, k);
}

proof fn lemma_default_page(pages: Seq<DefaultPage>, code: u16, i: int, k: int)
    requires
        0 <= i <= k < pages.len(),
        pages[k].code == code,
        forall|j: int| i <= j < k ==> (#[trigger] pages[j]).code != code,
    ensures
        handler::page_from(pages, code, i) == pages[k].body@,
    decreases k - i,
{
    if i < k {
        assert(pages[i].code != code);
        lemma_default_page(pages, code, i + 1, k);
    }
}

/// After some errors what is left of the request cannot be told from the next one, or the
/// server cannot be relied on: the connection is closed. After every other it stays.
pub proof fn law_some_errors_end_the_connection(c: CtxView, code: u16)
    ensures
        handler::error_page(c, code).resp.keep_alive <==> !(code == 400 || code == 408 || code == 413
            || code == 414 || code == 431 || code == 500 || code == 501 || code == 505),
{
}

proof fn lemma_error_place(pages: Seq<ErrorPage>, code: u16, i: int)
    requires
        0 <= i <= pages.len(),
    ensures
        ({
            let p = handler::error_place(pages, code, i);
            &&& i <= p <= pages.len()
            &&& p < pages.len() ==> pages[p].codes@.contains(code)
            &&& forall|j: int| i <= j < p ==> !(#[trigger] pages[j]).codes@.contains(code)
        }),
    decreases pages.len() - i,
{
    if i < pages.len() && !pages[i].codes@.contains(code) {
        lemma_error_place(pages, code, i + 1);
    }
}

/// An error leads where the first `error_page` that lists it says, with the status that
/// it asks for: its own, where nothing else is said, the one behind `=`, or, behind an
/// empty `=`, that of the page.
pub proof fn law_an_error_page_is_followed(c: CtxView, r: RoutingView, code: u16, k: int)
    requires
        c.redirects < 10,
        0 <= k < handler::error_pages(c).len(),
        handler::error_pages(c)[k].codes@.contains(code),
        forall|j: int|
            0 <= j < k ==> !(#[trigger] handler::error_pages(c)[j]).codes@.contains(code),
    ensures
        ({
            let page = handler::error_pages(c)[k];
            let (next, then, turn) = handler::turned(c, r, Came::Fail(code));
            let status = match page.replace_status {
                None => Some(code),
                Some(n) => if n == 0 {
                    None
                } else {
                    Some(n)
                },
            };
            match page.target {
                ErrorTarget::Uri(t) => ctx::shown(c, t) != c.uri ==> turn is Again && next.uri
                    == ctx::shown(c, t) && then.named is None && then.status_override == status,
                ErrorTarget::Named(n) => turn is Again && next.uri == c.uri && then.named == Some(
                    n@,
                ) && then.status_override == status,
                ErrorTarget::Redirect(t) => turn matches TurnView::Answer(p) && p.body is None
                    && p.resp.headers == seq![(bytes::utf8("Location"@), ctx::shown(c, t))]
                    && p.resp.status == match status {
                    Some(s) => s,
                    None => 302,
                },
            }
        }),
{
    lemma_error_place(handler::error_pages(c), code, 0);
    let p = handler::error_place(handler::error_pages(c), code, 0);
    if p < k {
        assert(handler::error_pages(c)[p].codes@.contains(code));
    }
    if p > k {
        assert(!handler::error_pages(c)[k].codes@.contains(code));
    }
}

/// An error that no `error_page` lists is answered as such, and so is one whose page would
/// lead to where the request already is.
pub proof fn law_an_unlisted_error_is_the_answer(c: CtxView, r: RoutingView, code: u16)
    requires
        forall|j: int|
            0 <= j < handler::error_pages(c).len() ==> {
                let page = #[trigger] handler::error_pages(c)[j];
                !page.codes@.contains(code) || (page.target matches ErrorTarget::Uri(t)
                    && ctx::shown(c, t) == c.uri)
            },
    ensures
        handler::turned(c, r, Came::Fail(code)).2 matches TurnView::Answer(p) && p.resp.status
            == code,
{
    lemma_error_place(handler::error_pages(c), code, 0);
    let p = handler::error_place(handler::error_pages(c), code, 0);
    if p < handler::error_pages(c).len() {
        assert(handler::error_pages(c)[p].codes@.contains(code));
    }
}

/// The `error_page` directives of a location stand in place of the server's, where it has
/// any.
pub proof fn law_a_locations_error_pages_come_first(c: CtxView, i: usize)
    requires
        c.matched == Some(i),
        i < c.env.server.locations@.len(),
    ensures
        c.env.server.locations@[i as int].error_pages@.len() > 0 ==> handler::error_pages(c)
            == c.env.server.locations@[i as int].error_pages@,
        c.env.server.locations@[i as int].error_pages@.len() == 0 ==> handler::error_pages(c)
            == c.env.server.error_pages@,
{
}

/// A pass that led elsewhere is followed by one there: at the URI, or in the named
/// location at the URI at hand. The status that an error page asked for is kept until
/// there is an answer, and is then the answer's.
pub proof fn law_a_pass_is_followed(c: CtxView, r: RoutingView, uri: Vec<u8>, name: Vec<u8>)
    requires
        c.redirects < 10,
    ensures
        ({
            let (next, then, turn) = handler::turned(c, r, Came::Internal(uri));
            turn is Again && next == (CtxView { uri: uri@, redirects: (c.redirects + 1) as u32, ..c })
                && then.named is None && then.internal && then.status_override == r.status_override
        }),
        ({
            let (next, then, turn) = handler::turned(c, r, Came::Named(name));
            turn is Again && next == (CtxView { redirects: (c.redirects + 1) as u32, ..c })
                && then.named == Some(name@) && then.internal && then.status_override
                == r.status_override
        }),
        handler::turned(c, r, Came::Done) == (c, r, TurnView::Finish(r.status_override)),
{
}

/// A request that is led round and round is given up with 500.
pub proof fn law_endless_redirects_are_given_up(c: CtxView, r: RoutingView, uri: Vec<u8>, name: Vec<u8>)
    requires
        10 <= c.redirects < u32::MAX,
    ensures
        handler::turned(c, r, Came::Internal(uri)).2 matches TurnView::Answer(p) && p.resp.status
            == 500,
        handler::turned(c, r, Came::Named(name)).2 matches TurnView::Answer(p) && p.resp.status
            == 500,
{
}

/// What the rewrite phase of a server comes to is the answer, an error with its status,
/// or a request at another URI.
pub proof fn law_the_server_phase_is_finished(c: CtxView, p: PageView, code: u16, uri: Seq<u8>)
    ensures
        handler::finished(c, StepView::Done(p)) == (c, Some(p)),
        handler::finished(c, StepView::Fail(code)).1 matches Some(e) && e.resp.status == code,
        handler::finished(c, StepView::Internal(uri)) == (CtxView { uri, ..c }, None::<PageView>),
{
}

// ---------------------------------------------------------------- auth_request

/// The subrequest that asks for leave carries the client's headers, all but those that
/// describe a body.
pub proof fn law_subrequests_carry_the_headers(hs: Seq<http::Field>, n: int, k: int)
    requires
        0 <= k < n <= hs.len(),
        !bytes::same_name(hs[k].0, bytes::utf8("content-length"@)),
        !bytes::same_name(hs[k].0, bytes::utf8("transfer-encoding"@)),
        !bytes::same_name(hs[k].0, bytes::utf8("expect"@)),
    ensures
        handler::auth_fields(hs, n).contains(hs[k]),
    decreases n,
{
    let before = handler::auth_fields(hs, n - 1);
    let all = handler::auth_fields(hs, n);
    if k == n - 1 {
        assert(all[before.len() as int] == hs[k]);
    } else {
        law_subrequests_carry_the_headers(hs, n - 1, k);
        let i = choose|i: int| 0 <= i < before.len() && before[i] == hs[k];
        assert(all[i] == hs[k]);
    }
}

/// What the service says is what happens: leave given goes on, 401 and 403 go to the
/// client, and all else is 500. What it says is there for the variables set from it.
pub proof fn law_the_service_is_heard(status: u16)
    ensures
        200 <= status < 300 ==> handler::auth_verdict(status) == Ok::<(), u16>(()),
        status == 401 ==> handler::auth_verdict(status) == Err::<(), u16>(401),
        status == 403 ==> handler::auth_verdict(status) == Err::<(), u16>(403),
        !(200 <= status < 300) && status != 401 && status != 403 ==> handler::auth_verdict(status)
            == Err::<(), u16>(500),
{
}

/// The absolute URL of a path names the scheme, the host and the path, and the port only
/// where it is not the scheme's own.
pub proof fn law_absolute_urls_name_the_site(c: CtxView, path: Seq<u8>)
    ensures
        ({
            let url = handler::absolute(c, path);
            let host = if c.env.req.host@.len() == 0 {
                bytes::utf8("localhost"@)
            } else {
                c.env.req.host@
            };
            let front = c.env.scheme@ + bytes::utf8("://"@) + host;
            let port = ctx::port_of(c.env.local);
            let https = c.env.scheme@ == bytes::utf8("https"@);
            &&& bytes::starts(url, front)
            &&& bytes::ends(url, path)
            &&& https && port == 443 || !https && port == 80 ==> url == front + path
            &&& !(https && port == 443 || !https && port == 80) ==> url == front + seq![58u8]
                + bytes::decimal(port as nat) + path
        }),
{
    let url = handler::absolute(c, path);
    let host = if c.env.req.host@.len() == 0 {
        bytes::utf8("localhost"@)
    } else {
        c.env.req.host@
    };
    let front = c.env.scheme@ + bytes::utf8("://"@) + host;
    let port = ctx::port_of(c.env.local);
    assert(url.subrange(0, front.len() as int) =~= front);
    assert(url.subrange(url.len() - path.len(), url.len() as int) =~= path);
    assert(front + Seq::<u8>::empty() + path =~= front + path);
    assert(front + (seq![58u8] + bytes::decimal(port as nat)) + path =~= front + seq![58u8]
        + bytes::decimal(port as nat) + path);
}

proof fn lemma_assignments(c: CtxView, ds: Seq<SetDirective>, d: SetDirective, i: int)
    requires
        0 <= i <= ds.len(),
    ensures
        handler::assignments_from(c, ds.push(d), i) == handler::assigned_by(
            handler::assignments_from(c, ds, i),
            d,
        ),
    decreases ds.len() - i,
{
    let all = ds.push(d);
    if i < ds.len() {
        assert(all[i] == ds[i]);
        lemma_assignments(handler::assigned_by(c, ds[i]), ds, d, i + 1);
    } else {
        assert(all[i] == d);
        assert(handler::assignments_from(handler::assigned_by(c, d), all, i + 1)
            == handler::assigned_by(c, d));
    }
}

/// What is to be kept of the service's answer is assigned in its order, each value made of
/// what the ones before left.
pub proof fn law_answers_of_the_service_are_kept(c: CtxView, ds: Seq<SetDirective>, d: SetDirective)
    ensures
        ({
            let before = handler::assignments_from(c, ds, 0);
            handler::assignments_from(c, ds.push(d), 0) == (CtxView {
                set_vars: ctx::assigned(before.set_vars, d.name@, ctx::shown(before, d.value)),
                ..before
            })
        }),
        handler::assignments_from(c, Seq::empty(), 0) == c,
{
    lemma_assignments(c, ds, d, 0);
}

/// A target is parted at its first question mark.
pub proof fn law_targets_are_parted(path: Seq<u8>, args: Seq<u8>)
    requires
        !path.contains(63),
    ensures
        handler::path_part(path + seq![63u8] + args) == path,
        handler::args_part(path + seq![63u8] + args) == args,
        handler::path_part(path) == path,
        handler::args_part(path).len() == 0,
{
    let t = path + seq![63u8] + args;
    assert forall|j: int| 0 <= j < path.len() implies path[j] != 63 by {
        if path[j] == 63 {
            assert(path.contains(63));
        }
    }
    bytes::lemma_find_is(t, 63, 0, path.len() as int);
    bytes::lemma_find_is(path, 63, 0, path.len() as int);
    assert(t.subrange(0, path.len() as int) =~= path);
    assert(t.subrange(path.len() as int + 1, t.len() as int) =~= args);
    assert(path.subrange(0, path.len() as int) =~= path);
}

/// What describes the body of a request, and nothing else, is not asked of the service.
pub proof fn law_three_headers_describe_a_body(name: Seq<u8>)
    ensures
        handler::describes_body(name) <==> {
            ||| bytes::same_name(name, bytes::utf8("content-length"@))
            ||| bytes::same_name(name, bytes::utf8("transfer-encoding"@))
            ||| bytes::same_name(name, bytes::utf8("expect"@))
        },
{
}

} // verus!
