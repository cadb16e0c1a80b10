//! `proxy_pass`: what a proxied request comes to.

use vstd::prelude::*;
use vstd::string::*;

use crate::bytes;
use crate::cache::CacheStatus;
use crate::cache_index::StaleWhen;
use crate::config::CacheValid;
use crate::config::ProxyCacheConf;
use crate::config::ProxyConf;
use crate::config::ProxyPass;
use crate::config::ProxyTarget;
use crate::config::SetDirective;
use crate::config::Template;
use crate::ctx;
use crate::ctx::CtxView;
use crate::files;
use crate::http;
use crate::http::Framing;
use crate::proxy;
use crate::proxy::NextWhen;
use crate::proxy::PeerNote;
use crate::proxy::ProxyAction;
use crate::proxy::ProxyEvent;
use crate::proxy::ProxyPhase;
use crate::proxy::ProxyRules;
use crate::proxy::ProxyRun;
use crate::proxy::UpHeadView;
use crate::text;

verus! {

// ---------------------------------------------------------------- the course of a request

/// Where a proxied request is after some events, each with the time since it came, and
/// what is to be done.
pub open spec fn course(rules: ProxyRules, es: Seq<(ProxyEvent, u64)>) -> (ProxyRun, ProxyAction)
    decreases es.len(),
{
    if es.len() == 0 {
        proxy::proxy_started(rules)
    } else {
        let (run, _) = course(rules, es.drop_last());
        proxy::proxied(run, rules, es.last().0, es.last().1)
    }
}

/// What the peer at hand was sent.
pub ghost struct SentView {
    pub connected: bool,
    pub head: bool,
    pub body: bool,
}

/// What the peer at hand was sent in some events: what was asked for, and worked.
pub open spec fn sent(rules: ProxyRules, es: Seq<(ProxyEvent, u64)>) -> SentView
    decreases es.len(),
{
    if es.len() == 0 {
        SentView { connected: false, head: false, body: false }
    } else {
        let before = sent(rules, es.drop_last());
        let e = es.last().0;
        match course(rules, es.drop_last()).1 {
            ProxyAction::Connect | ProxyAction::Retry { .. } => SentView {
                connected: e is Connected,
                head: false,
                body: false,
            },
            ProxyAction::SendHead => SentView { head: e == ProxyEvent::Sent(true), ..before },
            ProxyAction::SendBody => SentView { body: e == ProxyEvent::Sent(true), ..before },
            _ => before,
        }
    }
}

/// What a phase and what was asked for have to do with each other.
spec fn is_in_step(run: ProxyRun, a: ProxyAction, s: SentView, rules: ProxyRules) -> bool {
    match run.phase {
        ProxyPhase::Lookup => a == ProxyAction::Load,
        ProxyPhase::Locking => a == ProxyAction::Lock,
        ProxyPhase::Waiting => a == ProxyAction::Wait,
        ProxyPhase::Connecting => a == ProxyAction::Connect || a is Retry,
        ProxyPhase::SendingHead => a == ProxyAction::SendHead && s == (SentView {
            connected: true,
            head: false,
            body: false,
        }),
        ProxyPhase::SendingBody => a == ProxyAction::SendBody && rules.has_body && s == (SentView {
            connected: true,
            head: true,
            body: false,
        }),
        ProxyPhase::ReadingHead => a == ProxyAction::Read && s == (SentView {
            connected: true,
            head: true,
            body: rules.has_body,
        }),
        ProxyPhase::Ended => match a {
            ProxyAction::Respond => s == (SentView {
                connected: true,
                head: true,
                body: rules.has_body,
            }),
            ProxyAction::ServeFresh | ProxyAction::ServeStale { .. } | ProxyAction::Fail { .. } => true,
            _ => false,
        },
    }
}

proof fn lemma_in_step(rules: ProxyRules, es: Seq<(ProxyEvent, u64)>)
    ensures
        is_in_step(course(rules, es).0, course(rules, es).1, sent(rules, es), rules),
    decreases es.len(),
{
    if es.len() > 0 {
        lemma_in_step(rules, es.drop_last());
    }
}

/// A response is awaited only of a peer that has the whole request: in whatever way it
/// came there, the head was sent on the connection at hand, and the body behind it where
/// the request has one. Nothing is sent before there is a connection, no body before its
/// head, and none for a request without one.
pub proof fn law_the_whole_request_is_sent(rules: ProxyRules, es: Seq<(ProxyEvent, u64)>)
    ensures
        ({
            let s = sent(rules, es);
            match course(rules, es).1 {
                ProxyAction::SendHead => s.connected && !s.head && !s.body,
                ProxyAction::SendBody => rules.has_body && s.connected && s.head && !s.body,
                ProxyAction::Read | ProxyAction::Respond => s.connected && s.head && s.body
                    == rules.has_body,
                _ => true,
            }
        }),
{
    lemma_in_step(rules, es);
}

/// A request that meets no trouble gets through: a connection is followed by the head, the
/// head by the body or, where there is none, by the response, the body by the response,
/// and a part of a head by the rest of it.
pub proof fn law_a_request_gets_through(run: ProxyRun, rules: ProxyRules, reused: bool, ms: u64)
    ensures
        run.phase == ProxyPhase::Connecting ==> {
            let (next, a) = proxy::proxied(run, rules, ProxyEvent::Connected(reused), ms);
            a == ProxyAction::SendHead && next.phase == ProxyPhase::SendingHead && next.reused
                == reused
        },
        run.phase == ProxyPhase::SendingHead ==> {
            let (next, a) = proxy::proxied(run, rules, ProxyEvent::Sent(true), ms);
            if rules.has_body {
                a == ProxyAction::SendBody && next.phase == ProxyPhase::SendingBody
            } else {
                a == ProxyAction::Read && next.phase == ProxyPhase::ReadingHead
            }
        },
        run.phase == ProxyPhase::SendingBody ==> {
            let (next, a) = proxy::proxied(run, rules, ProxyEvent::Sent(true), ms);
            a == ProxyAction::Read && next.phase == ProxyPhase::ReadingHead
        },
        run.phase == ProxyPhase::ReadingHead ==> {
            let (next, a) = proxy::proxied(run, rules, ProxyEvent::HeadPartial, ms);
            a == ProxyAction::Read && next == run
        },
{
}

/// The response of the peer is the answer, with the status it has, unless that status is
/// one to try another peer on or to answer from the cache on.
pub proof fn law_the_response_is_the_answer(run: ProxyRun, rules: ProxyRules, status: u16, ms: u64)
    requires
        run.phase == ProxyPhase::ReadingHead,
        status != 101,
        !rules.next_upstream@.contains(NextWhen::Status(status)),
        !rules.use_stale@.contains(StaleWhen::Status(status)) || !run.has_stale || status < 400,
    ensures
        ({
            let (next, a) = proxy::proxied(run, rules, ProxyEvent::HeadComplete(status), ms);
            a == ProxyAction::Respond && next.upstream_status == Some(status) && next.cache_status
                == run.cache_status
        }),
{
}

/// Only a complete head is answered with.
pub proof fn law_only_a_complete_head_is_answered_with(
    rules: ProxyRules,
    es: Seq<(ProxyEvent, u64)>,
)
    requires
        course(rules, es).1 == ProxyAction::Respond,
    ensures
        es.len() > 0,
        es.last().0 matches ProxyEvent::HeadComplete(status) && course(rules, es).0.upstream_status
            == Some(status) && status != 101,
{
    lemma_in_step(rules, es);
}

/// An attempt that fails in a way `proxy_next_upstream` lists goes to another peer, as
/// long as the request may be repeated, there is another peer, and the bounds on tries
/// and time allow for it; and for no other reason.
pub proof fn law_listed_failures_are_tried_elsewhere(
    run: ProxyRun,
    rules: ProxyRules,
    e: ProxyEvent,
    when: NextWhen,
    ms: u64,
)
    requires
        match (run.phase, e) {
            (ProxyPhase::Connecting, ProxyEvent::ConnectFailed) => when == NextWhen::Error,
            (ProxyPhase::Connecting, ProxyEvent::ConnectTimedOut) => when == NextWhen::Timeout,
            (ProxyPhase::SendingHead, ProxyEvent::Sent(ok)) => !ok && when == NextWhen::Error,
            (ProxyPhase::SendingBody, ProxyEvent::Sent(ok)) => !ok && when == NextWhen::Error,
            (ProxyPhase::ReadingHead, ProxyEvent::ReadFailed { .. }) => when == NextWhen::Error,
            (ProxyPhase::ReadingHead, ProxyEvent::ReadTimedOut) => when == NextWhen::Timeout,
            (ProxyPhase::ReadingHead, ProxyEvent::HeadTooLarge) => when
                == NextWhen::InvalidHeader,
            (ProxyPhase::ReadingHead, ProxyEvent::HeadInvalid) => when == NextWhen::InvalidHeader,
            (ProxyPhase::ReadingHead, ProxyEvent::HeadComplete(status)) => status != 101 && when
                == NextWhen::Status(status),
            _ => false,
        },
    ensures
        proxy::proxied(run, rules, e, ms).1 is Retry <==> {
            &&& rules.next_upstream@.contains(when)
            &&& rules.may_repeat
            &&& run.tried + 1 < rules.peers
            &&& rules.next_tries == 0 || run.tried + 1 < rules.next_tries
            &&& rules.next_timeout_ms == 0 || ms < rules.next_timeout_ms
        },
{
}

/// No event but a failure or a status sends a request to another peer, and each time it
/// goes there from the start.
pub proof fn law_a_retry_starts_over(run: ProxyRun, rules: ProxyRules, e: ProxyEvent, ms: u64)
    requires
        proxy::proxied(run, rules, e, ms).1 is Retry,
    ensures
        ({
            let next = proxy::proxied(run, rules, e, ms).0;
            next.phase == ProxyPhase::Connecting && next.tried == run.tried + 1 && !next.reused
                && next.has_stale == run.has_stale
        }),
        !(e is Loaded || e is Locked || e is Waited || e is Connected || e is HeadPartial || e
            == ProxyEvent::Sent(true)),
{
}

/// Whatever happens, no more peers are tried than there are, nor more than
/// `proxy_next_upstream_tries` allows for.
pub proof fn law_no_peer_is_tried_too_often(rules: ProxyRules, es: Seq<(ProxyEvent, u64)>)
    ensures
        ({
            let n = course(rules, es).0.tried;
            n > 0 ==> n < rules.peers && (rules.next_tries == 0 || n < rules.next_tries)
                && rules.may_repeat
        }),
    decreases es.len(),
{
    if es.len() > 0 {
        law_no_peer_is_tried_too_often(rules, es.drop_last());
    }
}

/// An attempt that fails for good is answered with an error where the cache does not
/// help: 504 where the peer was too slow to answer, and 502 in every other case. It is
/// held against the peer, unless a connection of the pool turned out to be dead.
pub proof fn law_failures_have_their_status(
    run: ProxyRun,
    rules: ProxyRules,
    e: ProxyEvent,
    ms: u64,
)
    requires
        !(proxy::proxied(run, rules, e, ms).1 is Retry),
        !run.has_stale,
    ensures
        match (run.phase, e) {
            (ProxyPhase::Connecting, ProxyEvent::ConnectFailed)
            | (ProxyPhase::Connecting, ProxyEvent::ConnectTimedOut)
            | (ProxyPhase::ReadingHead, ProxyEvent::HeadTooLarge)
            | (ProxyPhase::ReadingHead, ProxyEvent::HeadInvalid) => proxy::proxied(
                run,
                rules,
                e,
                ms,
            ).1 == (ProxyAction::Fail { status: 502, failure: true }),
            (ProxyPhase::SendingHead, ProxyEvent::Sent(ok)) => !ok ==> proxy::proxied(
                run,
                rules,
                e,
                ms,
            ).1 == (ProxyAction::Fail { status: 502, failure: !run.reused }),
            (ProxyPhase::SendingBody, ProxyEvent::Sent(ok)) => !ok ==> proxy::proxied(
                run,
                rules,
                e,
                ms,
            ).1 == (ProxyAction::Fail { status: 502, failure: true }),
            (ProxyPhase::ReadingHead, ProxyEvent::ReadFailed { nothing_yet }) => proxy::proxied(
                run,
                rules,
                e,
                ms,
            ).1 == (ProxyAction::Fail { status: 502, failure: !(run.reused && nothing_yet) }),
            (ProxyPhase::ReadingHead, ProxyEvent::ReadTimedOut) => proxy::proxied(
                run,
                rules,
                e,
                ms,
            ).1 == (ProxyAction::Fail { status: 504, failure: true }),
            _ => true,
        },
{
}

/// Every failure is held against the peer it is one of, and nothing else is.
pub proof fn law_failures_are_noted(run: ProxyRun, rules: ProxyRules, e: ProxyEvent, ms: u64)
    ensures
        ({
            let (next, a) = proxy::proxied(run, rules, e, ms);
            proxy::peer_note(next, a) == PeerNote::Failed <==> match (run.phase, e) {
                (ProxyPhase::Connecting, ProxyEvent::ConnectFailed)
                | (ProxyPhase::Connecting, ProxyEvent::ConnectTimedOut)
                | (ProxyPhase::ReadingHead, ProxyEvent::ReadTimedOut)
                | (ProxyPhase::ReadingHead, ProxyEvent::HeadTooLarge)
                | (ProxyPhase::ReadingHead, ProxyEvent::HeadInvalid) => true,
                (ProxyPhase::SendingHead, ProxyEvent::Sent(ok)) => !ok && !run.reused,
                (ProxyPhase::SendingBody, ProxyEvent::Sent(ok)) => !ok,
                (ProxyPhase::ReadingHead, ProxyEvent::ReadFailed { nothing_yet }) => !(run.reused
                    && nothing_yet),
                (ProxyPhase::ReadingHead, ProxyEvent::HeadComplete(status)) => status >= 500
                    && a is Retry,
                _ => false,
            }
        }),
{
}

/// The cache is asked first, where it may be: a fresh entry is the answer, and without one
/// the request goes on, past the lock where there is one. What the cache said is what the
/// client is told.
pub proof fn law_the_cache_is_asked_first(rules: ProxyRules, found: Option<CacheStatus>, ms: u64)
    ensures
        ({
            let (run, a) = course(rules, Seq::empty());
            if rules.cached && !rules.bypassed {
                let (next, b) = proxy::proxied(run, rules, ProxyEvent::Loaded(found), ms);
                &&& a == ProxyAction::Load
                &&& found == Some(CacheStatus::Hit) ==> b == ProxyAction::ServeFresh
                    && next.cache_status == Some(CacheStatus::Hit)
                &&& found != Some(CacheStatus::Hit) ==> {
                    &&& b == if rules.lock {
                        ProxyAction::Lock
                    } else {
                        ProxyAction::Connect
                    }
                    &&& next.has_stale == (found is Some)
                    &&& next.cache_status == Some(
                        if found is Some {
                            CacheStatus::Expired
                        } else {
                            CacheStatus::Miss
                        },
                    )
                }
            } else {
                &&& a == ProxyAction::Connect
                &&& run.cache_status == if rules.cached {
                    Some(CacheStatus::Bypass)
                } else {
                    None
                }
            }
        }),
{
}

/// One request at a time fetches an entry: the one that gets the lock. The others are
/// answered from an expired entry where that is allowed, or wait; and whoever waited is
/// answered with the fresh entry, or fetches it after all.
pub proof fn law_one_request_fetches(run: ProxyRun, rules: ProxyRules, ms: u64)
    ensures
        run.phase == ProxyPhase::Locking ==> {
            &&& proxy::proxied(run, rules, ProxyEvent::Locked(true), ms).1 == ProxyAction::Connect
            &&& proxy::proxied(run, rules, ProxyEvent::Locked(false), ms).1 == if rules.cached
                && run.has_stale && rules.use_stale@.contains(StaleWhen::Updating) {
                ProxyAction::ServeStale { failure: false }
            } else {
                ProxyAction::Wait
            }
        },
        run.phase == ProxyPhase::Waiting ==> {
            &&& proxy::proxied(run, rules, ProxyEvent::Waited(true), ms).1
                == ProxyAction::ServeFresh
            &&& proxy::proxied(run, rules, ProxyEvent::Waited(true), ms).0.cache_status == Some(
                CacheStatus::Hit,
            )
            &&& proxy::proxied(run, rules, ProxyEvent::Waited(false), ms).1
                == ProxyAction::Connect
        },
{
}

/// An expired entry answers in place of a failure that `proxy_cache_use_stale` covers:
/// where the peer failed, was too slow, sent no valid head, or sent a status of an error.
pub proof fn law_an_expired_entry_covers_failures(
    run: ProxyRun,
    rules: ProxyRules,
    e: ProxyEvent,
    ms: u64,
)
    requires
        rules.cached,
        run.has_stale,
        !(proxy::proxied(run, rules, e, ms).1 is Retry),
        match (run.phase, e) {
            (ProxyPhase::Connecting, ProxyEvent::ConnectFailed)
            | (ProxyPhase::Connecting, ProxyEvent::ConnectTimedOut)
            | (ProxyPhase::ReadingHead, ProxyEvent::ReadFailed { .. }) => rules.use_stale@.contains(
                StaleWhen::Error,
            ),
            (ProxyPhase::ReadingHead, ProxyEvent::ReadTimedOut) => rules.use_stale@.contains(
                StaleWhen::Timeout,
            ),
            (ProxyPhase::ReadingHead, ProxyEvent::HeadInvalid) => rules.use_stale@.contains(
                StaleWhen::InvalidHeader,
            ),
            (ProxyPhase::ReadingHead, ProxyEvent::HeadComplete(status)) => status >= 400
                && rules.use_stale@.contains(StaleWhen::Status(status)),
            _ => false,
        },
    ensures
        proxy::proxied(run, rules, e, ms).1 is ServeStale,
        proxy::proxied(run, rules, e, ms).0.cache_status == Some(CacheStatus::Stale),
{
}

/// Whether the cache had an expired entry.
pub open spec fn found_expired(e: ProxyEvent) -> bool {
    match e {
        ProxyEvent::Loaded(Some(s)) => s != CacheStatus::Hit,
        _ => false,
    }
}

/// An expired entry is served only by a cache that has one and is told to, for an outcome
/// that it covers.
pub proof fn law_expired_entries_are_served_by_permission(
    rules: ProxyRules,
    es: Seq<(ProxyEvent, u64)>,
)
    requires
        course(rules, es).1 is ServeStale,
    ensures
        rules.cached && !rules.bypassed,
        rules.use_stale@.len() > 0,
        exists|k: int|
            0 <= k < es.len() && found_expired((#[trigger] es[k]).0),
{
    lemma_stale_was_found(rules, es);
}

proof fn lemma_stale_was_found(rules: ProxyRules, es: Seq<(ProxyEvent, u64)>)
    ensures
        ({
            let (run, a) = course(rules, es);
            &&& a is ServeStale ==> run.has_stale && rules.cached && rules.use_stale@.len() > 0
            &&& run.has_stale || run.phase == ProxyPhase::Lookup ==> rules.cached && !rules.bypassed
            &&& run.has_stale ==> exists|k: int|
                0 <= k < es.len() && found_expired((#[trigger] es[k]).0)
        }),
    decreases es.len(),
{
    if es.len() > 0 {
        let front = es.drop_last();
        lemma_stale_was_found(rules, front);
        if course(rules, front).0.has_stale {
            let k = choose|k: int|
                0 <= k < front.len() && found_expired((#[trigger] front[k]).0);
            assert(es[k] == front[k]);
        } else if course(rules, es).0.has_stale {
            assert(es[es.len() - 1] == es.last());
        }
    }
}

// ---------------------------------------------------------------- where a request goes

/// Without a URI of its own, `proxy_pass` leaves the request's as it is.
pub proof fn law_the_uri_passes_through(c: CtxView, pp: ProxyPass, prefix: Option<Seq<u8>>)
    requires
        pp.uri is None,
    ensures
        c.args.len() == 0 ==> proxy::passed_uri(c, pp, prefix) == c.uri,
        c.args.len() > 0 ==> proxy::passed_uri(c, pp, prefix) == c.uri + seq![63u8] + c.args,
{
}

/// With a URI of its own, `proxy_pass` puts it in place of the prefix of the location, and
/// keeps all that is behind it, with one slash where the two meet.
pub proof fn law_the_prefix_is_replaced(
    c: CtxView,
    pp: ProxyPass,
    prefix: Seq<u8>,
    rest: Seq<u8>,
    base: Seq<u8>,
)
    requires
        c.uri == prefix + rest,
        rest.len() > 0 ==> !(0x80 <= rest[0] < 0xc0),
        pp.uri matches Some(t) && ctx::shown(c, t) == base,
        c.args.len() == 0,
    ensures
        base.len() == 0 || base.last() != 47 ==> proxy::passed_uri(c, pp, Some(prefix)) == base
            + rest,
        base.len() > 0 && base.last() == 47 && (rest.len() == 0 || rest[0] != 47)
            ==> proxy::passed_uri(c, pp, Some(prefix)) == base + rest,
        base.len() > 0 && base.last() == 47 && rest.len() > 0 && rest[0] == 47 && (rest.len() == 1
            || rest[1] != 47) ==> proxy::passed_uri(c, pp, Some(prefix)) == base.drop_last() + rest,
{
    let n = prefix.len() as int;
    let behind = files::behind(c.uri, n);
    if rest.len() > 0 {
        assert(c.uri[n] == rest[0]);
        assert(c.uri.subrange(n, c.uri.len() as int) =~= rest);
        assert(behind == rest);
    } else {
        assert(behind =~= Seq::<u8>::empty());
        assert(rest =~= Seq::<u8>::empty());
    }
    reveal_with_fuel(files::unslashed, 3);
    if base.len() > 0 && base.last() == 47 && rest.len() > 0 && rest[0] == 47 && (rest.len() == 1
        || rest[1] != 47) {
        let tail = rest.subrange(1, rest.len() as int);
        assert(files::unslashed(rest) =~= tail);
        assert(base + tail =~= base.drop_last() + rest);
    }
}

/// The arguments of a request travel behind its URI, whatever `proxy_pass` makes of that.
pub proof fn law_the_arguments_travel(c: CtxView, pp: ProxyPass, prefix: Option<Seq<u8>>)
    requires
        c.args.len() > 0,
    ensures
        bytes::ends(proxy::passed_uri(c, pp, prefix), seq![63u8] + c.args),
{
    let u = proxy::passed_uri(c, pp, prefix);
    let tail = seq![63u8] + c.args;
    assert(u.subrange(u.len() - tail.len(), u.len() as int) =~= tail);
}

/// A request goes where `proxy_pass` says: to the address, the socket or the peer that was
/// chosen, at the port of HTTP where that names none. Where TLS is asked for it goes
/// nowhere, rather than in the clear.
pub proof fn law_requests_go_where_they_should(c: CtxView, pp: ProxyPass, peer: Seq<u8>)
    ensures
        pp.target matches ProxyTarget::Addr { host, port } ==> proxy::target_of(c, pp, Some(peer))
            == if pp.tls {
            None
        } else {
            Some(host@ + seq![58u8] + bytes::decimal(port as nat))
        },
        pp.target matches ProxyTarget::Unix(path) ==> proxy::target_of(c, pp, Some(peer)) == Some(
            bytes::utf8("unix:"@) + path@,
        ),
        pp.target is Upstream && pp.tls ==> proxy::target_of(c, pp, Some(peer)) is None,
        pp.target is Upstream && !pp.tls ==> {
            &&& bytes::has(peer, 58) ==> proxy::target_of(c, pp, Some(peer)) == Some(peer)
            &&& !bytes::has(peer, 58) && !bytes::starts(peer, bytes::utf8("unix:"@))
                ==> proxy::target_of(c, pp, Some(peer)) == Some(peer + bytes::utf8(":80"@))
        },
        pp.target is Upstream ==> proxy::target_of(c, pp, None) is None,
{
}

/// An address that variables make up is the authority of what they spell, at the port of
/// its scheme where it names none; with `https` there is none to go to.
pub proof fn law_rendered_targets_are_authorities(host: Seq<u8>, path: Seq<u8>)
    requires
        host.len() > 0,
        !bytes::has(host, 47),
        !bytes::has(host, 58),
        path.len() == 0 || path[0] == 47,
    ensures
        proxy::named_target(host + path) matches Some(t) && t.addr == host + bytes::utf8(":80"@)
            && !t.tls,
        proxy::named_target(bytes::utf8("http://"@) + host + path) matches Some(t) && t.addr == host
            + bytes::utf8(":80"@) && !t.tls,
        proxy::named_target(bytes::utf8("https://"@) + host + path) matches Some(t) && t.tls,
{
    let http = bytes::utf8("http://"@);
    let https = bytes::utf8("https://"@);
    lemma_schemes();
    let plain = host + path;
    bytes::lemma_find(host, 47, 0);
    bytes::lemma_find(host, 58, 0);
    assert forall|j: int| 0 <= j < host.len() implies plain[j] != 47 by {}
    bytes::lemma_find_is(plain, 47, 0, host.len() as int);
    assert(plain.subrange(0, host.len() as int) =~= host);
    // No host begins with a scheme: there is a colon in every scheme.
    assert(!bytes::starts(plain, http)) by {
        if bytes::starts(plain, http) {
            assert(plain.subrange(0, 7)[4] == 58);
            assert(plain.subrange(0, 7)[5] == 47);
            if host.len() > 5 {
                assert(host[5] == 47);
            } else if host.len() == 5 {
                assert(host[4] == 58);
            } else {
                assert(path[0] == 47);
                assert(plain[host.len() as int] == 47);
                assert(plain.subrange(0, 7)[host.len() as int] == 47);
            }
        }
    }
    assert(!bytes::starts(plain, https)) by {
        if bytes::starts(plain, https) {
            assert(plain.subrange(0, 8)[5] == 58);
            assert(plain.subrange(0, 8)[6] == 47);
            if host.len() > 5 {
                assert(host[5] == 58);
            } else {
                assert(plain[host.len() as int] == 47);
                assert(plain.subrange(0, 8)[host.len() as int] == 47);
            }
        }
    }
    assert(proxy::without_prefix(plain, http) == plain);
    let a = http + host + path;
    assert(a.subrange(0, 7) =~= http);
    assert(a.subrange(7, a.len() as int) =~= plain);
    assert(!bytes::starts(a, https)) by {
        if bytes::starts(a, https) {
            assert(a.subrange(0, 8)[4] == https[4]);
            assert(a[4] == http[4]);
        }
    }
    assert(proxy::without_prefix(a, http) == proxy::without_prefix(plain, http));
    let b = https + host + path;
    assert(b.subrange(0, 8) =~= https);
    assert(b.subrange(8, b.len() as int) =~= plain);
}

proof fn lemma_schemes()
    ensures
        bytes::utf8("http://"@) == seq![104u8, 116, 116, 112, 58, 47, 47],
        bytes::utf8("https://"@) == seq![104u8, 116, 116, 112, 115, 58, 47, 47],
{
    reveal_strlit("http://");
    reveal_strlit("https://");
    let p = seq![104u8, 116, 116, 112, 58, 47, 47];
    bytes::lemma_ascii_text(p);
    assert(bytes::ascii_text(p) =~= "http://"@);
    let q = seq![104u8, 116, 116, 112, 115, 58, 47, 47];
    bytes::lemma_ascii_text(q);
    assert(bytes::ascii_text(q) =~= "https://"@);
}

// ---------------------------------------------------------------- the request sent

/// Whether bytes hold a header as a line of its own text.
pub open spec fn has_line(b: Seq<u8>, name: Seq<u8>, v: Seq<u8>) -> bool {
    let l = name + bytes::utf8(": "@) + v + bytes::utf8("\r\n"@);
    exists|i: int| 0 <= i && i + l.len() <= b.len() && #[trigger] b.subrange(i, i + l.len()) == l
}

proof fn lemma_line_in(a: Seq<u8>, name: Seq<u8>, v: Seq<u8>, z: Seq<u8>)
    ensures
        has_line(a + proxy::line(name, v) + z, name, v),
{
    let l = name + bytes::utf8(": "@) + v + bytes::utf8("\r\n"@);
    let b = a + proxy::line(name, v) + z;
    assert(proxy::line(name, v) == l);
    assert(b.subrange(a.len() as int, (a.len() + l.len()) as int) =~= l);
}

proof fn lemma_line_within(x: Seq<u8>, a: Seq<u8>, z: Seq<u8>, name: Seq<u8>, v: Seq<u8>)
    requires
        has_line(x, name, v),
    ensures
        has_line(a + x + z, name, v),
{
    let l = name + bytes::utf8(": "@) + v + bytes::utf8("\r\n"@);
    let i = choose|i: int|
        0 <= i && i + l.len() <= x.len() && #[trigger] x.subrange(i, i + l.len()) == l;
    let b = a + x + z;
    let j = a.len() + i;
    assert(b.subrange(j, j + l.len()) =~= x.subrange(i, i + l.len()));
}

/// The request sent upstream is the client's: its method and the URI to ask for, in the
/// version configured, and at its end what is to become of the connection.
pub proof fn law_the_request_line_comes_first(
    c: CtxView,
    conf: ProxyConf,
    u: Seq<u8>,
    addr: Seq<u8>,
    keepalive: usize,
)
    ensures
        ({
            let r = proxy::request_bytes(c, conf, u, addr, keepalive);
            &&& bytes::starts(
                r,
                c.env.req.method@ + seq![32u8] + u + (if conf.http_version_11 {
                    bytes::utf8(" HTTP/1.1\r\n"@)
                } else {
                    bytes::utf8(" HTTP/1.0\r\n"@)
                }),
            )
            &&& bytes::ends(
                r,
                if keepalive > 0 && conf.http_version_11 {
                    bytes::utf8("Connection: keep-alive\r\n\r\n"@)
                } else {
                    bytes::utf8("Connection: close\r\n\r\n"@)
                },
            )
        }),
{
    let r = proxy::request_bytes(c, conf, u, addr, keepalive);
    let first = c.env.req.method@ + seq![32u8] + u + (if conf.http_version_11 {
        bytes::utf8(" HTTP/1.1\r\n"@)
    } else {
        bytes::utf8(" HTTP/1.0\r\n"@)
    });
    let last = if keepalive > 0 && conf.http_version_11 {
        bytes::utf8("Connection: keep-alive\r\n\r\n"@)
    } else {
        bytes::utf8("Connection: close\r\n\r\n"@)
    };
    assert(r.subrange(0, first.len() as int) =~= first);
    assert(r.subrange(r.len() - last.len(), r.len() as int) =~= last);
}

/// A body is announced by its length: the one that was decoded, whatever framing the
/// client used.
pub proof fn law_a_body_is_announced(
    c: CtxView,
    conf: ProxyConf,
    u: Seq<u8>,
    addr: Seq<u8>,
    keepalive: usize,
)
    requires
        c.env.body@.len() > 0,
    ensures
        has_line(
            proxy::request_bytes(c, conf, u, addr, keepalive),
            bytes::utf8("Content-Length"@),
            bytes::decimal(c.env.body@.len()),
        ),
        !proxy::travels(conf, bytes::utf8("content-length"@)),
        !proxy::travels(conf, bytes::utf8("transfer-encoding"@)),
{
    let r = proxy::request_bytes(c, conf, u, addr, keepalive);
    let name = bytes::utf8("Content-Length"@);
    let v = bytes::decimal(c.env.body@.len());
    let z = if proxy::keeps(conf, keepalive) {
        bytes::utf8("Connection: keep-alive\r\n\r\n"@)
    } else {
        bytes::utf8("Connection: close\r\n\r\n"@)
    };
    let a = r.subrange(0, r.len() - z.len() - proxy::line(name, v).len());
    assert(r =~= a + proxy::line(name, v) + z);
    lemma_line_in(a, name, v, z);
    lemma_hop_name(6);
}

proof fn lemma_hop_name(i: int)
    requires
        0 <= i < 8,
    ensures
        proxy::is_hop(bytes::utf8(proxy::hop_names()[i])),
{
    assert(bytes::same_name(
        bytes::utf8(proxy::hop_names()[i]),
        bytes::utf8(proxy::hop_names()[i]),
    ));
}

/// The host that is asked for is the peer's, unless `proxy_set_header` sets one; of a
/// socket in the file system it is `localhost`.
pub proof fn law_the_host_is_named(
    c: CtxView,
    conf: ProxyConf,
    u: Seq<u8>,
    addr: Seq<u8>,
    keepalive: usize,
)
    requires
        forall|i: int|
            0 <= i < conf.set_headers@.len() ==> !bytes::same_name(
                (#[trigger] conf.set_headers@[i]).name@,
                bytes::utf8("host"@),
            ),
    ensures
        has_line(
            proxy::request_bytes(c, conf, u, addr, keepalive),
            bytes::utf8("Host"@),
            if bytes::starts(addr, bytes::utf8("unix:"@)) {
                bytes::utf8("localhost"@)
            } else {
                addr
            },
        ),
{
    lemma_sets(conf.set_headers@, bytes::utf8("host"@), 0);
    let r = proxy::request_bytes(c, conf, u, addr, keepalive);
    let hs = http::fields(c.env.req.headers@);
    let name = bytes::utf8("Host"@);
    let v = proxy::host_for(addr);
    let a = c.env.req.method@ + seq![32u8] + u + (if conf.http_version_11 {
        bytes::utf8(" HTTP/1.1\r\n"@)
    } else {
        bytes::utf8(" HTTP/1.0\r\n"@)
    }) + proxy::set_lines(c, conf.set_headers@, conf.set_headers@.len() as int);
    let z = r.subrange((a.len() + proxy::line(name, v).len()) as int, r.len() as int);
    assert(r =~= a + proxy::line(name, v) + z);
    lemma_line_in(a, name, v, z);
}

proof fn lemma_sets(hs: Seq<SetDirective>, name: Seq<u8>, i: int)
    requires
        0 <= i,
    ensures
        proxy::sets(hs, name, i) <==> exists|k: int|
            i <= k < hs.len() && bytes::same_name((#[trigger] hs[k]).name@, name),
    decreases hs.len() - i,
{
    if i < hs.len() {
        lemma_sets(hs, name, i + 1);
        if proxy::sets(hs, name, i) && !bytes::same_name(hs[i].name@, name) {
            let k = choose|k: int|
                i + 1 <= k < hs.len() && bytes::same_name((#[trigger] hs[k]).name@, name);
            assert(i <= k);
        }
    }
}

proof fn lemma_hides(names: Seq<Vec<u8>>, name: Seq<u8>, i: int)
    requires
        0 <= i,
    ensures
        proxy::hides(names, name, i) <==> exists|k: int|
            i <= k < names.len() && (#[trigger] names[k])@ == bytes::lowered(name),
    decreases names.len() - i,
{
    if i < names.len() {
        lemma_hides(names, name, i + 1);
        if proxy::hides(names, name, i) && names[i]@ != bytes::lowered(name) {
            let k = choose|k: int|
                i + 1 <= k < names.len() && (#[trigger] names[k])@ == bytes::lowered(name);
            assert(i <= k);
        }
    }
}

/// Every header of the client travels, but for those that speak of this hop or of the
/// body's framing, those that are set instead, and those that are hidden.
pub proof fn law_headers_of_the_client_travel(conf: ProxyConf, name: Seq<u8>)
    ensures
        proxy::travels(conf, name) <==> {
            &&& !bytes::same_name(name, bytes::utf8("connection"@))
            &&& !bytes::same_name(name, bytes::utf8("keep-alive"@))
            &&& !bytes::same_name(name, bytes::utf8("proxy-authenticate"@))
            &&& !bytes::same_name(name, bytes::utf8("proxy-authorization"@))
            &&& !bytes::same_name(name, bytes::utf8("te"@))
            &&& !bytes::same_name(name, bytes::utf8("trailer"@))
            &&& !bytes::same_name(name, bytes::utf8("transfer-encoding"@))
            &&& !bytes::same_name(name, bytes::utf8("upgrade"@))
            &&& !bytes::same_name(name, bytes::utf8("host"@))
            &&& !bytes::same_name(name, bytes::utf8("content-length"@))
            &&& !bytes::same_name(name, bytes::utf8("expect"@))
            &&& forall|k: int|
                0 <= k < conf.set_headers@.len() ==> !bytes::same_name(
                    (#[trigger] conf.set_headers@[k]).name@,
                    name,
                )
            &&& forall|k: int|
                0 <= k < conf.hide_headers@.len() ==> (#[trigger] conf.hide_headers@[k])@
                    != bytes::lowered(name)
        },
{
    lemma_is_hop(name);
    lemma_sets(conf.set_headers@, name, 0);
    lemma_hides(conf.hide_headers@, name, 0);
}

proof fn lemma_is_hop(name: Seq<u8>)
    ensures
        proxy::is_hop(name) <==> {
            ||| bytes::same_name(name, bytes::utf8("connection"@))
            ||| bytes::same_name(name, bytes::utf8("keep-alive"@))
            ||| bytes::same_name(name, bytes::utf8("proxy-authenticate"@))
            ||| bytes::same_name(name, bytes::utf8("proxy-authorization"@))
            ||| bytes::same_name(name, bytes::utf8("te"@))
            ||| bytes::same_name(name, bytes::utf8("trailer"@))
            ||| bytes::same_name(name, bytes::utf8("transfer-encoding"@))
            ||| bytes::same_name(name, bytes::utf8("upgrade"@))
        },
{
    let hs = proxy::hop_names();
    assert(hs[0] == "connection"@ && hs[1] == "keep-alive"@ && hs[2] == "proxy-authenticate"@);
    assert(hs[3] == "proxy-authorization"@ && hs[4] == "te"@ && hs[5] == "trailer"@);
    assert(hs[6] == "transfer-encoding"@ && hs[7] == "upgrade"@ && hs.len() == 8);
}

/// A header that travels arrives with its value.
pub proof fn law_headers_arrive_with_their_values(
    c: CtxView,
    conf: ProxyConf,
    u: Seq<u8>,
    addr: Seq<u8>,
    keepalive: usize,
    k: int,
)
    requires
        0 <= k < c.env.req.headers@.len(),
        proxy::travels(conf, c.env.req.headers@[k].name@),
    ensures
        has_line(
            proxy::request_bytes(c, conf, u, addr, keepalive),
            c.env.req.headers@[k].name@,
            c.env.req.headers@[k].value@,
        ),
{
    let r = proxy::request_bytes(c, conf, u, addr, keepalive);
    let hs = http::fields(c.env.req.headers@);
    let n = hs.len() as int;
    let x = proxy::passed_lines(conf, hs, n);
    assert(hs[k] == http::field(c.env.req.headers@[k]));
    lemma_passed_line(conf, hs, n, k);
    let a = c.env.req.method@ + seq![32u8] + u + (if conf.http_version_11 {
        bytes::utf8(" HTTP/1.1\r\n"@)
    } else {
        bytes::utf8(" HTTP/1.0\r\n"@)
    }) + proxy::set_lines(c, conf.set_headers@, conf.set_headers@.len() as int) + (
    if proxy::sets(conf.set_headers@, bytes::utf8("host"@), 0) {
        Seq::empty()
    } else {
        proxy::line(bytes::utf8("Host"@), proxy::host_for(addr))
    });
    let z = r.subrange((a.len() + x.len()) as int, r.len() as int);
    assert(r =~= a + x + z);
    lemma_line_within(x, a, z, c.env.req.headers@[k].name@, c.env.req.headers@[k].value@);
}

proof fn lemma_passed_line(conf: ProxyConf, hs: Seq<http::Field>, n: int, k: int)
    requires
        0 <= k < n <= hs.len(),
        proxy::travels(conf, hs[k].0),
    ensures
        has_line(proxy::passed_lines(conf, hs, n), hs[k].0, hs[k].1),
    decreases n,
{
    let before = proxy::passed_lines(conf, hs, n - 1);
    let none = Seq::<u8>::empty();
    if k == n - 1 {
        let all = proxy::passed_lines(conf, hs, n);
        assert(all =~= before + proxy::line(hs[k].0, hs[k].1) + none);
        lemma_line_in(before, hs[k].0, hs[k].1, none);
    } else {
        lemma_passed_line(conf, hs, n - 1, k);
        let all = proxy::passed_lines(conf, hs, n);
        let z = all.subrange(before.len() as int, all.len() as int);
        assert(all =~= none + before + z);
        lemma_line_within(before, none, z, hs[k].0, hs[k].1);
    }
}

/// What does not travel leaves no trace: a request whose headers all stay here is sent
/// as one without any.
pub proof fn law_what_stays_here_leaves_no_trace(conf: ProxyConf, hs: Seq<http::Field>, n: int)
    requires
        0 <= n <= hs.len(),
        forall|k: int| 0 <= k < n ==> !proxy::travels(conf, (#[trigger] hs[k]).0),
    ensures
        proxy::passed_lines(conf, hs, n) == Seq::<u8>::empty(),
    decreases n,
{
    if n > 0 {
        law_what_stays_here_leaves_no_trace(conf, hs, n - 1);
        assert(proxy::passed_lines(conf, hs, n) =~= Seq::<u8>::empty());
    }
}

/// What `proxy_set_header` sets is sent, with the value it has for this request, unless
/// that is empty.
pub proof fn law_set_headers_are_sent(
    c: CtxView,
    conf: ProxyConf,
    u: Seq<u8>,
    addr: Seq<u8>,
    keepalive: usize,
    k: int,
)
    requires
        0 <= k < conf.set_headers@.len(),
        ctx::shown(c, conf.set_headers@[k].value).len() > 0,
    ensures
        has_line(
            proxy::request_bytes(c, conf, u, addr, keepalive),
            conf.set_headers@[k].name@,
            ctx::shown(c, conf.set_headers@[k].value),
        ),
{
    let r = proxy::request_bytes(c, conf, u, addr, keepalive);
    let n = conf.set_headers@.len() as int;
    let x = proxy::set_lines(c, conf.set_headers@, n);
    lemma_set_line(c, conf.set_headers@, n, k);
    let a = c.env.req.method@ + seq![32u8] + u + (if conf.http_version_11 {
        bytes::utf8(" HTTP/1.1\r\n"@)
    } else {
        bytes::utf8(" HTTP/1.0\r\n"@)
    });
    let z = r.subrange((a.len() + x.len()) as int, r.len() as int);
    assert(r =~= a + x + z);
    lemma_line_within(
        x,
        a,
        z,
        conf.set_headers@[k].name@,
        ctx::shown(c, conf.set_headers@[k].value),
    );
}

proof fn lemma_set_line(c: CtxView, hs: Seq<SetDirective>, n: int, k: int)
    requires
        0 <= k < n <= hs.len(),
        ctx::shown(c, hs[k].value).len() > 0,
    ensures
        has_line(proxy::set_lines(c, hs, n), hs[k].name@, ctx::shown(c, hs[k].value)),
    decreases n,
{
    let before = proxy::set_lines(c, hs, n - 1);
    let none = Seq::<u8>::empty();
    let all = proxy::set_lines(c, hs, n);
    let v = ctx::shown(c, hs[k].value);
    if k == n - 1 {
        assert(all =~= before + proxy::line(hs[k].name@, v) + none);
        lemma_line_in(before, hs[k].name@, v, none);
    } else {
        lemma_set_line(c, hs, n - 1, k);
        let z = all.subrange(before.len() as int, all.len() as int);
        assert(all =~= none + before + z);
        lemma_line_within(before, none, z, hs[k].name@, v);
    }
}

// ---------------------------------------------------------------- the response

/// The response passed on is the upstream's: its status is kept, and so is every header,
/// in order and with its value, that is not one of its framing or its hop and not hidden.
pub proof fn law_the_response_passes_through(
    status: u16,
    conf: ProxyConf,
    fs: Seq<(Seq<char>, Seq<u8>)>,
    n: int,
)
    requires
        0 < n <= fs.len(),
    ensures
        ({
            let h = proxy::head_of(status, conf, fs, n);
            let before = proxy::head_of(status, conf, fs, n - 1);
            let name = bytes::utf8(fs[n - 1].0);
            let v = bytes::utf8(text::lossy(fs[n - 1].1));
            &&& h.status == status
            &&& h.headers == if proxy::is_hop(name) || bytes::same_name(
                name,
                bytes::utf8("content-length"@),
            ) || (exists|k: int|
                0 <= k < conf.hide_headers@.len() && (#[trigger] conf.hide_headers@[k])@
                    == bytes::lowered(name)) {
                before.headers
            } else {
                before.headers.push((name, v))
            }
        }),
    decreases n,
{
    let name = bytes::utf8(fs[n - 1].0);
    lemma_hides(conf.hide_headers@, name, 0);
    lemma_is_hop(name);
    if n > 1 {
        law_the_response_passes_through(status, conf, fs, n - 1);
    }
}

/// The framing of a response is what its last header on it says.
pub proof fn law_the_framing_is_read(
    status: u16,
    conf: ProxyConf,
    fs: Seq<(Seq<char>, Seq<u8>)>,
    n: int,
)
    requires
        0 < n <= fs.len(),
    ensures
        ({
            let h = proxy::head_of(status, conf, fs, n);
            let before = proxy::head_of(status, conf, fs, n - 1);
            let name = bytes::utf8(fs[n - 1].0);
            let v = bytes::utf8(text::lossy(fs[n - 1].1));
            &&& h.chunked == if bytes::same_name(name, bytes::utf8("transfer-encoding"@)) {
                bytes::same_name(v, bytes::utf8("chunked"@))
            } else {
                before.chunked
            }
            &&& bytes::same_name(name, bytes::utf8("content-length"@)) ==> forall|len: u64|
                bytes::trimmed(v) == #[trigger] bytes::decimal(len as nat) ==> h.length == Some(len)
            &&& !bytes::same_name(name, bytes::utf8("content-length"@)) ==> h.length
                == before.length
            &&& h.said_close == if bytes::same_name(name, bytes::utf8("connection"@)) {
                bytes::same_name(v, bytes::utf8("close"@))
            } else {
                before.said_close
            }
        }),
{
    let name = bytes::utf8(fs[n - 1].0);
    let v = bytes::utf8(text::lossy(fs[n - 1].1));
    lemma_framing_names();
    assert forall|len: u64|
        bytes::trimmed(v) == #[trigger] bytes::decimal(len as nat) implies bytes::unsigned_within(
        bytes::trimmed(v),
        u64::MAX as nat,
    ) == Some(len as nat) by {
        bytes::lemma_decimal(len as nat);
    }
}

/// The names of the headers of framing are three different ones.
proof fn lemma_framing_names()
    ensures
        forall|n: Seq<u8>|
            !(#[trigger] bytes::same_name(n, bytes::utf8("transfer-encoding"@))
                && bytes::same_name(n, bytes::utf8("content-length"@))),
        forall|n: Seq<u8>|
            !(#[trigger] bytes::same_name(n, bytes::utf8("transfer-encoding"@))
                && bytes::same_name(n, bytes::utf8("connection"@))),
        forall|n: Seq<u8>|
            !(#[trigger] bytes::same_name(n, bytes::utf8("content-length"@))
                && bytes::same_name(n, bytes::utf8("connection"@))),
{
    reveal_strlit("transfer-encoding");
    reveal_strlit("content-length");
    reveal_strlit("connection");
    bytes::lemma_ascii_len("transfer-encoding"@);
    bytes::lemma_ascii_len("content-length"@);
    bytes::lemma_ascii_len("connection"@);
    assert(bytes::lowered(bytes::utf8("transfer-encoding"@)).len() == 17);
    assert(bytes::lowered(bytes::utf8("content-length"@)).len() == 14);
    assert(bytes::lowered(bytes::utf8("connection"@)).len() == 10);
}

/// A response keeps the status that the upstream gave it.
pub proof fn law_the_status_is_the_upstreams(code: u16)
    requires
        code > 0,
    ensures
        proxy::status_of(Some(code)) == code,
        proxy::status_of(None) == 502,
{
}

/// The client is told where the body ends as the upstream told it, and a connection goes
/// back to the pool only where it stands behind a whole body, is wanted there, and the
/// upstream keeps it open.
pub proof fn law_only_clean_connections_are_pooled(h: UpHeadView, arrived: nat, want: bool)
    ensures
        proxy::goes_back(h, arrived, want) <==> {
            &&& want
            &&& !h.said_close
            &&& !h.chunked
            &&& h.length matches Some(n) && n <= arrived
        },
        proxy::is_whole(h, arrived) <==> !h.chunked && (h.length matches Some(n) && n <= arrived),
        h.chunked ==> proxy::framing_for(h) == Framing::Chunked && proxy::streamed_len(h) is None,
        !h.chunked ==> proxy::streamed_len(h) == h.length,
        !h.chunked && h.length is None ==> proxy::framing_for(h) == Framing::UntilClose
            && proxy::ends_with_close(h),
        !h.chunked ==> (h.length matches Some(n) ==> proxy::framing_for(h) == Framing::Length(n)),
        h.chunked || h.length is Some ==> !proxy::ends_with_close(h),
{
}

// ---------------------------------------------------------------- caching

proof fn lemma_any_true(c: CtxView, ts: Seq<Template>, i: int)
    requires
        0 <= i,
    ensures
        proxy::any_true(c, ts, i) <==> exists|k: int|
            i <= k < ts.len() && {
                let v = ctx::shown(c, #[trigger] ts[k]);
                v.len() > 0 && v != seq![48u8]
            },
    decreases ts.len() - i,
{
    if i < ts.len() {
        lemma_any_true(c, ts, i + 1);
        let v = ctx::shown(c, ts[i]);
        if proxy::any_true(c, ts, i) && !(v.len() > 0 && v != seq![48u8]) {
            let k = choose|k: int|
                i + 1 <= k < ts.len() && {
                    let v = ctx::shown(c, #[trigger] ts[k]);
                    v.len() > 0 && v != seq![48u8]
                };
            assert(i <= k);
        }
    }
}

/// A condition of the cache holds where one of its values is neither empty nor `0`.
pub proof fn law_conditions_hold_by_one_value(c: CtxView, ts: Seq<Template>)
    ensures
        proxy::any_true(c, ts, 0) <==> exists|k: int|
            0 <= k < ts.len() && {
                let v = ctx::shown(c, #[trigger] ts[k]);
                v.len() > 0 && v != seq![48u8]
            },
{
    lemma_any_true(c, ts, 0);
}

/// A request is cached where its method is one of those configured.
pub proof fn law_cached_methods_are_listed(ms: Seq<Vec<u8>>, method: Seq<u8>, i: int)
    requires
        0 <= i,
    ensures
        proxy::is_cached_method(ms, method, i) <==> exists|k: int|
            i <= k < ms.len() && (#[trigger] ms[k])@ == method,
    decreases ms.len() - i,
{
    if i < ms.len() {
        law_cached_methods_are_listed(ms, method, i + 1);
        if proxy::is_cached_method(ms, method, i) && ms[i]@ != method {
            let k = choose|k: int| i + 1 <= k < ms.len() && (#[trigger] ms[k])@ == method;
            assert(i <= k);
        }
    }
}

/// Nothing is stored where `proxy_no_cache` says so, nor before a key was used often
/// enough, nor for a status that no `proxy_cache_valid` speaks of.
pub proof fn law_storing_needs_permission(c: CtxView, conf: ProxyCacheConf, status: u16, uses: u32)
    ensures
        proxy::ttl_for(c, conf, status, uses) is Some <==> {
            &&& !proxy::any_true(c, conf.no_cache@, 0)
            &&& conf.min_uses <= 1 || uses >= conf.min_uses
            &&& exists|k: int|
                0 <= k < conf.valid@.len() && ((#[trigger] conf.valid@[k]).codes@.contains(status)
                    || conf.valid@[k].codes@.len() == 0)
        },
{
    lemma_valid_place(conf.valid@, status, 0);
    lemma_any_valid_place(conf.valid@, 0);
    if exists|k: int|
        0 <= k < conf.valid@.len() && ((#[trigger] conf.valid@[k]).codes@.contains(status)
            || conf.valid@[k].codes@.len() == 0) {
        let k = choose|k: int|
            0 <= k < conf.valid@.len() && ((#[trigger] conf.valid@[k]).codes@.contains(status)
                || conf.valid@[k].codes@.len() == 0);
        assert(conf.valid@[k] == conf.valid@[k]);
    }
}

/// What is stored is kept for as long as `proxy_cache_valid` says of its status: the first
/// one that names it, or else the first one for every status.
pub proof fn law_the_own_status_comes_first(
    c: CtxView,
    conf: ProxyCacheConf,
    status: u16,
    uses: u32,
    k: int,
)
    requires
        proxy::ttl_for(c, conf, status, uses) is Some,
        0 <= k < conf.valid@.len(),
        ({
            ||| conf.valid@[k].codes@.contains(status) && forall|j: int|
                0 <= j < k ==> !(#[trigger] conf.valid@[j]).codes@.contains(status)
            ||| conf.valid@[k].codes@.len() == 0 && (forall|j: int|
                0 <= j < k ==> (#[trigger] conf.valid@[j]).codes@.len() > 0) && forall|j: int|
                0 <= j < conf.valid@.len() ==> !(#[trigger] conf.valid@[j]).codes@.contains(status)
        }),
    ensures
        proxy::ttl_for(c, conf, status, uses) == Some(conf.valid@[k].ttl),
{
    lemma_valid_place(conf.valid@, status, 0);
    lemma_any_valid_place(conf.valid@, 0);
}

proof fn lemma_valid_place(vs: Seq<CacheValid>, status: u16, i: int)
    requires
        0 <= i <= vs.len(),
    ensures
        i <= proxy::valid_place(vs, status, i) <= vs.len(),
        proxy::valid_place(vs, status, i) < vs.len() ==> vs[proxy::valid_place(
            vs,
            status,
            i,
        )].codes@.contains(status),
        forall|j: int|
            i <= j < proxy::valid_place(vs, status, i) ==> !(#[trigger] vs[j]).codes@.contains(
                status,
            ),
    decreases vs.len() - i,
{
    if i < vs.len() && !vs[i].codes@.contains(status) {
        lemma_valid_place(vs, status, i + 1);
    }
}

proof fn lemma_any_valid_place(vs: Seq<CacheValid>, i: int)
    requires
        0 <= i <= vs.len(),
    ensures
        i <= proxy::any_valid_place(vs, i) <= vs.len(),
        proxy::any_valid_place(vs, i) < vs.len() ==> vs[proxy::any_valid_place(
            vs,
            i,
        )].codes@.len() == 0,
        forall|j: int|
            i <= j < proxy::any_valid_place(vs, i) ==> (#[trigger] vs[j]).codes@.len() > 0,
    decreases vs.len() - i,
{
    if i < vs.len() && vs[i].codes@.len() > 0 {
        lemma_any_valid_place(vs, i + 1);
    }
}

/// Of a cached response every header is sent but those of its framing, which is that of
/// the body at hand.
pub proof fn law_cached_headers_are_sent(hs: Seq<http::Field>, n: int)
    requires
        0 < n <= hs.len(),
    ensures
        proxy::cached_fields(hs, n) == if bytes::same_name(
            hs[n - 1].0,
            bytes::utf8("content-length"@),
        ) || bytes::same_name(hs[n - 1].0, bytes::utf8("transfer-encoding"@)) {
            proxy::cached_fields(hs, n - 1)
        } else {
            proxy::cached_fields(hs, n - 1).push(hs[n - 1])
        },
        proxy::cached_fields(hs, 0) == Seq::<http::Field>::empty(),
{
}

/// A header that is set to nothing is not sent.
pub proof fn law_empty_headers_are_not_sent(c: CtxView, hs: Seq<SetDirective>, n: int)
    requires
        0 < n <= hs.len(),
        ctx::shown(c, hs[n - 1].value).len() == 0,
    ensures
        proxy::set_lines(c, hs, n) == proxy::set_lines(c, hs, n - 1),
{
    assert(proxy::set_lines(c, hs, n - 1) + Seq::<u8>::empty() =~= proxy::set_lines(c, hs, n - 1));
}

/// A response that says nothing of its framing has none, and does not close its connection.
pub proof fn law_a_silent_head_says_nothing(
    status: u16,
    conf: ProxyConf,
    fs: Seq<(Seq<char>, Seq<u8>)>,
    n: int,
)
    requires
        0 <= n <= fs.len(),
        forall|i: int|
            0 <= i < n ==> !bytes::same_name(
                bytes::utf8((#[trigger] fs[i]).0),
                bytes::utf8("transfer-encoding"@),
            ) && !bytes::same_name(bytes::utf8(fs[i].0), bytes::utf8("content-length"@))
                && !bytes::same_name(bytes::utf8(fs[i].0), bytes::utf8("connection"@)),
    ensures
        ({
            let h = proxy::head_of(status, conf, fs, n);
            !h.chunked && h.length is None && !h.said_close && h.status == status
        }),
    decreases n,
{
    if n > 0 {
        law_a_silent_head_says_nothing(status, conf, fs, n - 1);
        assert(!bytes::same_name(bytes::utf8(fs[n - 1].0), bytes::utf8("connection"@)));
        law_the_framing_is_read(status, conf, fs, n);
    }
}

} // verus!
