//! `conn`, `decorate` and `reply`: what happens on a connection, and what is added to a
//! response.

use vstd::prelude::*;

use crate::bytes;
use crate::config::AddHeader;
use crate::config::Expires;
use crate::config::Gzip;
use crate::conn;
use crate::conn::BodyPlan;
use crate::conn::Conn;
use crate::conn::ConnAction;
use crate::conn::ConnEvent;
use crate::conn::ConnLimits;
use crate::conn::ConnPhase;
use crate::conn::HeadError;
use crate::conn::HeadStep;
use crate::conn::ParseResult;
use crate::conn::ReadEvent;
use crate::conn::ReqBody;
use crate::ctx;
use crate::ctx::CtxView;
use crate::decorate;
use crate::http;
use crate::http::Framing;
use crate::http::RespView;
use crate::laws::texts;
use crate::reply;
use crate::reply::Body;
use crate::reply::Reply;

verus! {

// ---------------------------------------------------------------- requests in turn

/// A request is read, handled and answered, and the connection waits for the next one where
/// the reply, the client and the limits let it; otherwise it is closed behind the answer.
pub proof fn law_requests_take_their_turns(
    n: u64,
    reply_keeps: bool,
    client_keeps: bool,
    limits: ConnLimits,
)
    requires
        n < u64::MAX,
    ensures
        ({
            let (c1, a1) = conn::conn_next(
                Conn { phase: ConnPhase::Head, requests: n },
                ConnEvent::Head(ParseResult::Complete),
                limits,
            );
            let (c2, a2) = conn::conn_next(c1, ConnEvent::Path(true), limits);
            let (c3, a3) = conn::conn_next(c2, ConnEvent::Body(None), limits);
            let (c4, a4) = conn::conn_next(
                c3,
                ConnEvent::Replied { reply_keeps, client_keeps },
                limits,
            );
            let (c5, a5) = conn::conn_next(c4, ConnEvent::Written(true), limits);
            let keep = reply_keeps && client_keeps && n + 1 < limits.keepalive_requests
                && limits.keepalive_timeout_ms > 0;
            &&& a1 == ConnAction::Normalise
            &&& a2 == ConnAction::ReadBody
            &&& a3 == ConnAction::Handle
            &&& a4 == (ConnAction::Write { keep })
            &&& keep ==> a5 == (ConnAction::ReadHead { first: false }) && c5 == (Conn {
                phase: ConnPhase::Head,
                requests: (n + 1) as u64,
            })
            &&& !keep ==> a5 == ConnAction::Close && c5.phase == ConnPhase::Closed
        }),
{
}

/// A request whose body is refused is answered with the refusal, and the connection is
/// closed behind it, since what is left of the body is no request.
pub proof fn law_refused_bodies_end_the_connection(
    c: Conn,
    code: u16,
    reply_keeps: bool,
    client_keeps: bool,
    limits: ConnLimits,
    ok: bool,
)
    requires
        c.phase == ConnPhase::Body,
    ensures
        ({
            let (c1, a1) = conn::conn_next(c, ConnEvent::Body(Some(code)), limits);
            let (c2, a2) = conn::conn_next(
                c1,
                ConnEvent::Replied { reply_keeps, client_keeps },
                limits,
            );
            let (c3, a3) = conn::conn_next(c2, ConnEvent::Written(ok), limits);
            &&& a1 == ConnAction::Refuse(code)
            &&& a2 == (ConnAction::Write { keep: false })
            &&& a3 == ConnAction::Close
        }),
{
}

/// A head that cannot be read is answered with its status and ends the connection: a broken
/// one, one that is too large, one that does not come in time. Between requests a client
/// that is silent or gone is left without an answer.
pub proof fn law_broken_heads_end_the_connection(n: u64, code: u16, limits: ConnLimits)
    ensures
        ({
            let c = Conn { phase: ConnPhase::Head, requests: n };
            let closed = Conn { phase: ConnPhase::Closed, requests: n };
            &&& conn::conn_next(c, ConnEvent::Head(ParseResult::Error(code)), limits) == (
                closed,
                ConnAction::BareError(code),
            )
            &&& conn::conn_next(c, ConnEvent::HeadFailed(HeadError::TooLarge), limits) == (
                closed,
                ConnAction::BareError(431),
            )
            &&& n == 0 ==> conn::conn_next(c, ConnEvent::HeadFailed(HeadError::Timeout), limits)
                == (closed, ConnAction::BareError(408))
            &&& n > 0 ==> conn::conn_next(c, ConnEvent::HeadFailed(HeadError::Timeout), limits)
                == (closed, ConnAction::Close)
            &&& conn::conn_next(c, ConnEvent::HeadFailed(HeadError::Eof), limits) == (
                closed,
                ConnAction::Close,
            )
            &&& conn::conn_next(c, ConnEvent::HeadFailed(HeadError::Io), limits) == (
                closed,
                ConnAction::Close,
            )
            &&& conn::conn_next(c, ConnEvent::Head(ParseResult::Partial), limits) == (
                c,
                ConnAction::ReadHead { first: n == 0 },
            )
        }),
{
}

/// A path that cannot be normalised is a bad request, and a reply that cannot be written
/// ends the connection.
pub proof fn law_what_cannot_be_done_ends_the_connection(c: Conn, keep: bool, limits: ConnLimits)
    ensures
        c.phase == ConnPhase::Path ==> conn::conn_next(c, ConnEvent::Path(false), limits) == (
            Conn { phase: ConnPhase::Closed, ..c },
            ConnAction::BareError(400),
        ),
        c.phase == (ConnPhase::Write { keep }) ==> conn::conn_next(
            c,
            ConnEvent::Written(false),
            limits,
        ) == (Conn { phase: ConnPhase::Closed, ..c }, ConnAction::Close),
{
}

// ---------------------------------------------------------------- the sizes of chunks

/// The size of a chunk is the hexadecimal number in front of it, in either case, and
/// anything else is none.
pub proof fn law_chunk_sizes_are_hexadecimal(s: Seq<u8>, b: u8)
    ensures
        conn::hex_number(Seq::empty()) == Some(0int),
        (conn::hex_number(s) matches Some(n) ==> {
            &&& 48 <= b <= 57 ==> conn::hex_number(s.push(b)) == Some(16 * n + (b - 48))
            &&& 97 <= b <= 102 ==> conn::hex_number(s.push(b)) == Some(16 * n + (b - 87))
            &&& 65 <= b <= 70 ==> conn::hex_number(s.push(b)) == Some(16 * n + (b - 55))
            &&& b == 32 || b == 9 ==> conn::hex_number(s.push(b)) == Some(n)
        }),
        conn::hex_number(s) is None || !(48 <= b <= 57 || 97 <= b <= 102 || 65 <= b <= 70 || b
            == 32 || b == 9) ==> conn::hex_number(s.push(b)) is None,
        0 < s.len() <= 16 ==> conn::chunk_size(s) == conn::hex_number(s),
        s.len() == 0 || s.len() > 16 ==> conn::chunk_size(s) is None,
{
    assert(s.push(b).drop_last() =~= s);
}

/// Behind a semicolon extensions of a chunk follow, which are no part of its size.
pub proof fn law_extensions_of_chunks_do_not_count(size: Seq<u8>, more: Seq<u8>)
    requires
        !size.contains(59),
    ensures
        conn::size_part(size) == size,
        conn::size_part(size + seq![59u8] + more) == size,
{
    assert forall|j: int| 0 <= j < size.len() implies size[j] != 59 by {
        if size[j] == 59 {
            assert(size.contains(59));
        }
    }
    bytes::lemma_find_is(size, 59, 0, size.len() as int);
    let t = size + seq![59u8] + more;
    bytes::lemma_find_is(t, 59, 0, size.len() as int);
    assert(t.subrange(0, size.len() as int) =~= size);
    assert(size.subrange(0, size.len() as int) =~= size);
}

/// A body larger than allowed, or one whose chunks do not end where they say, is refused.
pub proof fn law_broken_chunks_are_refused(
    read: Seq<u8>,
    d: conn::DecoderView,
    max: int,
    size: Seq<u8>,
    n: int,
    rest: Seq<u8>,
)
    requires
        d.pos == 0,
        d.phase == conn::Phase::Size,
        read == size + seq![13u8, 10u8] + rest,
        !size.contains(13) && !size.contains(59),
        0 < size.len() <= 16,
        conn::hex_number(size) == Some(n),
        n > 0,
    ensures
        d.body.len() + n > max ==> conn::decoded(read, d, max).1 == conn::Progress::Fail(413),
        d.body.len() + n <= max && n <= u64::MAX && rest.len() >= n + 2 && !(rest[n] == 13 && rest[n
            + 1] == 10) ==> conn::decoded(read, d, max).1 == conn::Progress::Fail(400),
{
    let k = size.len() as int;
    assert forall|j: int| 0 <= j < k implies read[j] != 13 by {
        assert(read[j] == size[j]);
        if size[j] == 13 {
            assert(size.contains(13));
        }
    }
    assert(read[k] == 13 && read[k + 1] == 10);
    lemma_line_ends(read, 0, k);
    assert(read.subrange(0, k) =~= size);
    law_extensions_of_chunks_do_not_count(size, rest);
    if d.body.len() + n <= max && n <= u64::MAX && rest.len() >= n + 2 && !(rest[n] == 13 && rest[n
        + 1] == 10) {
        let (next, wants) = conn::step(read, d, max);
        assert(next.phase == conn::Phase::Data(n as u64) && next.pos == k + 2);
        let end = read.subrange(k + 2 + n, k + 2 + n + 2);
        assert(end[0] == rest[n] && end[1] == rest[n + 1]);
        reveal_with_fuel(conn::decoded, 3);
    }
}

proof fn lemma_line_ends(s: Seq<u8>, from: int, at: int)
    requires
        0 <= from <= at,
        at + 1 < s.len(),
        s[at] == 13,
        s[at + 1] == 10,
        forall|j: int| from <= j < at ==> s[j] != 13,
    ensures
        conn::line_end(s, from) == at,
    decreases at - from,
{
    if from < at {
        lemma_line_ends(s, from + 1, at);
    }
}

// ---------------------------------------------------------------- headers that are added

/// A response that headers are added to unless they are to be added always.
pub open spec fn is_fine(status: u16) -> bool {
    (200 <= status <= 299) || (301 <= status <= 304) || status == 307 || status == 308
}

/// A configured header is added to a fine response, and always where that is asked for; one
/// without a value is not, and nothing else is.
pub proof fn law_configured_headers_are_added(
    c: CtxView,
    r: RespView,
    hs: Seq<AddHeader>,
    n: int,
    k: int,
)
    requires
        0 <= k < n <= hs.len(),
    ensures
        (hs[k].always || is_fine(r.status)) && ctx::shown(c, hs[k].value).len() > 0
            ==> decorate::with_added(c, r, hs, n).headers.contains(
            (hs[k].name@, ctx::shown(c, hs[k].value)),
        ),
        (forall|j: int|
            0 <= j < n ==> !((#[trigger] hs[j]).always || is_fine(r.status)) || ctx::shown(
                c,
                hs[j].value,
            ).len() == 0) ==> decorate::with_added(c, r, hs, n) == r,
        decorate::with_added(c, r, hs, n).headers.len() <= r.headers.len() + n,
        forall|j: int|
            0 <= j < r.headers.len() ==> #[trigger] decorate::with_added(c, r, hs, n).headers[j]
                == r.headers[j],
        decorate::with_added(c, r, hs, n).headers.len() >= r.headers.len(),
    decreases n,
{
    if n > 0 {
        lemma_added(c, r, hs, n, k);
        lemma_none_added(c, r, hs, n);
    }
}

proof fn lemma_added(c: CtxView, r: RespView, hs: Seq<AddHeader>, n: int, k: int)
    requires
        0 <= n <= hs.len(),
        0 <= k < hs.len(),
    ensures
        ({
            let after = decorate::with_added(c, r, hs, n).headers;
            let one = (hs[k].name@, ctx::shown(c, hs[k].value));
            &&& k < n && (hs[k].always || is_fine(r.status)) && one.1.len() > 0 ==> after.contains(
                one,
            )
            &&& r.headers.len() <= after.len() <= r.headers.len() + n
            &&& forall|j: int| 0 <= j < r.headers.len() ==> #[trigger] after[j] == r.headers[j]
        }),
    decreases n,
{
    if n > 0 {
        lemma_added(c, r, hs, n - 1, k);
        let before = decorate::with_added(c, r, hs, n - 1).headers;
        let after = decorate::with_added(c, r, hs, n).headers;
        let one = (hs[k].name@, ctx::shown(c, hs[k].value));
        if k < n - 1 && before.contains(one) {
            let i = choose|i: int| 0 <= i < before.len() && before[i] == one;
            assert(after[i] == one);
        }
        if k == n - 1 && (hs[k].always || is_fine(r.status)) && one.1.len() > 0 {
            assert(after[before.len() as int] == one);
        }
    }
}

proof fn lemma_none_added(c: CtxView, r: RespView, hs: Seq<AddHeader>, n: int)
    requires
        0 <= n <= hs.len(),
    ensures
        (forall|j: int|
            0 <= j < n ==> !((#[trigger] hs[j]).always || is_fine(r.status)) || ctx::shown(
                c,
                hs[j].value,
            ).len() == 0) ==> decorate::with_added(c, r, hs, n) == r,
    decreases n,
{
    if n > 0 {
        lemma_none_added(c, r, hs, n - 1);
    }
}

/// What a location adds to its responses is what is configured there.
pub proof fn law_a_location_adds_its_headers(c: CtxView, r: RespView, date: Seq<u8>, k: int)
    requires
        0 <= k < ctx::core_of(c).add_headers@.len(),
        ctx::core_of(c).expires is None,
        ctx::core_of(c).add_headers@[k].always || is_fine(r.status),
        ctx::shown(c, ctx::core_of(c).add_headers@[k].value).len() > 0,
    ensures
        decorate::decorated(c, r, date).headers.contains(
            (
                ctx::core_of(c).add_headers@[k].name@,
                ctx::shown(c, ctx::core_of(c).add_headers@[k].value),
            ),
        ),
{
    let hs = ctx::core_of(c).add_headers@;
    lemma_added(c, r, hs, hs.len() as int, k);
    let before = decorate::with_added(c, r, hs, hs.len() as int).headers;
    let after = decorate::decorated(c, r, date).headers;
    let one = (hs[k].name@, ctx::shown(c, hs[k].value));
    let i = choose|i: int| 0 <= i < before.len() && before[i] == one;
    assert(after[i] == one);
}

proof fn lemma_expiry_names()
    ensures
        !bytes::same_name(bytes::utf8("Expires"@), bytes::utf8("Cache-Control"@)),
        !bytes::same_name(bytes::utf8("Alt-Svc"@), bytes::utf8("Cache-Control"@)),
{
    reveal_strlit("Expires");
    reveal_strlit("Cache-Control");
    reveal_strlit("Alt-Svc");
    bytes::lemma_ascii_len("Expires"@);
    bytes::lemma_ascii_len("Cache-Control"@);
    bytes::lemma_ascii_len("Alt-Svc"@);
    assert(bytes::lowered(bytes::utf8("Expires"@)).len() == 7);
    assert(bytes::lowered(bytes::utf8("Cache-Control"@)).len() == 13);
    assert(bytes::lowered(bytes::utf8("Alt-Svc"@)).len() == 7);
}

/// A response expires as configured: its date and its age are both told, the age in
/// seconds; what has expired already is not to be kept.
pub proof fn law_responses_expire(r: RespView, e: Expires, date: Seq<u8>)
    ensures
        ({
            let hs = decorate::with_expires(r, e, date).headers;
            let expires = http::value_of(hs, bytes::utf8("Expires"@));
            let control = http::value_of(hs, bytes::utf8("Cache-Control"@));
            match e {
                Expires::Off => hs == r.headers,
                Expires::Epoch => expires == Some(
                    bytes::utf8("Thu, 01 Jan 1970 00:00:00 GMT"@),
                ) && control == Some(bytes::utf8("no-cache"@)),
                Expires::Max => expires == Some(
                    bytes::utf8("Thu, 31 Dec 2037 23:55:55 GMT"@),
                ) && control == Some(bytes::utf8("max-age=315360000"@)),
                Expires::Secs(s) => expires == Some(date) && control == Some(
                    if s < 0 {
                        bytes::utf8("no-cache"@)
                    } else {
                        bytes::utf8("max-age="@) + bytes::decimal(s as nat)
                    },
                ),
                Expires::Daily(s) => expires == Some(date) && control == Some(
                    bytes::utf8("max-age="@) + bytes::decimal(s as nat),
                ),
            }
        }),
        decorate::with_expires(r, e, date).status == r.status,
{
    lemma_expiry_names();
    if let Some((control, expires)) = decorate::expires_texts(e, date) {
        let first = http::with_header(r.headers, bytes::utf8("Expires"@), expires);
        texts::law_a_set_header_has_its_value(r.headers, bytes::utf8("Expires"@), expires);
        texts::law_a_set_header_has_its_value(first, bytes::utf8("Cache-Control"@), control);
        lemma_other_value(
            first,
            bytes::utf8("Cache-Control"@),
            control,
            bytes::utf8("Expires"@),
        );
    }
}

proof fn lemma_other_value(hs: Seq<http::Field>, name: Seq<u8>, v: Seq<u8>, other: Seq<u8>)
    requires
        !bytes::same_name(other, name),
    ensures
        http::value_of(http::with_header(hs, name, v), other) == http::value_of(hs, other),
{
    let after = http::with_header(hs, name, v);
    texts::lemma_place_of(hs, name, 0);
    texts::lemma_place_of(hs, other, 0);
    let i = http::place_of(hs, other, 0);
    assert forall|j: int| 0 <= j < i implies !bytes::same_name((#[trigger] after[j]).0, other) by {
        assert(!bytes::same_name(hs[j].0, other));
        assert(after[j].0 == hs[j].0);
    }
    if i < hs.len() {
        assert(after[i].0 == hs[i].0);
        texts::lemma_place_is(after, other, 0, i);
    } else {
        if after.len() > hs.len() {
            assert(after[hs.len() as int].0 == name);
        }
        assert forall|j: int| 0 <= j < after.len() implies !bytes::same_name(
            (#[trigger] after[j]).0,
            other,
        ) by {
            if j < hs.len() {
                assert(!bytes::same_name(hs[j].0, other));
            }
        }
        texts::lemma_place_is(after, other, 0, after.len() as int);
    }
}

/// What is configured to expire does so.
pub proof fn law_a_location_lets_expire(c: CtxView, r: RespView, date: Seq<u8>, e: Expires)
    requires
        ctx::core_of(c).expires == Some(e),
        c.env.server.alt_svc is None,
        ctx::core_of(c).add_headers@.len() == 0,
    ensures
        decorate::decorated(c, r, date) == decorate::with_expires(r, e, date),
{
}

/// Another service that is configured is announced, unless the response does that itself.
pub proof fn law_other_services_are_announced(c: CtxView, r: RespView, date: Seq<u8>, alt: Vec<u8>)
    requires
        c.env.server.alt_svc == Some(alt),
        ctx::core_of(c).expires is None,
        ctx::core_of(c).add_headers@.len() == 0,
        http::value_of(r.headers, bytes::utf8("alt-svc"@)) is None,
    ensures
        decorate::decorated(c, r, date) == (RespView {
            headers: r.headers.push((bytes::utf8("Alt-Svc"@), alt@)),
            ..r
        }),
{
}

// ---------------------------------------------------------------- compression

/// A media type, without what follows a semicolon.
pub proof fn law_parameters_of_types_do_not_count(t: Seq<u8>, more: Seq<u8>)
    requires
        t.len() > 0,
        32 < t[0] < 128,
        32 < t.last() < 128,
        !t.contains(59),
    ensures
        decorate::media_type(t) == t,
        decorate::media_type(t + seq![59u8] + more) == t,
{
    assert forall|j: int| 0 <= j < t.len() implies t[j] != 59 by {
        if t[j] == 59 {
            assert(t.contains(59));
        }
    }
    bytes::lemma_find_is(t, 59, 0, t.len() as int);
    let u = t + seq![59u8] + more;
    bytes::lemma_find_is(u, 59, 0, t.len() as int);
    assert(u.subrange(0, t.len() as int) =~= t);
    assert(t.subrange(0, t.len() as int) =~= t);
    crate::laws::serving::law_text_without_white_ends_is_kept(t);
}

/// HTML is compressed, and of other types those that are listed.
pub proof fn law_listed_types_are_compressed(g: Gzip, t: Seq<u8>)
    ensures
        decorate::is_compressed_type(g, t) <==> t == bytes::utf8("text/html"@) || exists|i: int|
            0 <= i < g.types@.len() && (#[trigger] g.types@[i])@ == t,
{
}

/// A reply is compressed where the client takes that, the reply is not compressed already,
/// its type and its length are within what is configured, and the protocol is.
pub proof fn law_replies_are_compressed<M, F, S>(
    c: CtxView,
    r: Reply<M, F, S>,
    t: Seq<u8>,
    n: int,
)
    requires
        http::value_of(r.resp@.headers, bytes::utf8("content-type"@)) == Some(t),
        r.body.length() == Some(n),
        !(r.body is Stream) && !(r.body is Empty),
    ensures
        ({
            let g = ctx::core_of(c).gzip;
            decorate::compresses(c, r) <==> {
                &&& g.enabled
                &&& c.env.req.accepts_gzip
                &&& c.env.req.minor >= 1 || g.http_version_1_0
                &&& http::value_of(r.resp@.headers, bytes::utf8("content-encoding"@)) is None
                &&& decorate::is_compressed_type(g, decorate::media_type(t))
                &&& n >= g.min_length
                &&& n <= 8 * 1024 * 1024
            }
        }),
{
}

/// What is streamed, what is empty and what has no type is never compressed.
pub proof fn law_some_replies_are_never_compressed<M, F, S>(c: CtxView, r: Reply<M, F, S>)
    requires
        r.body is Stream || r.body is Empty || http::value_of(
            r.resp@.headers,
            bytes::utf8("content-type"@),
        ) is None,
    ensures
        !decorate::compresses(c, r),
{
}

proof fn lemma_gzip_names()
    ensures
        !bytes::same_name(bytes::utf8("Content-Encoding"@), bytes::utf8("etag"@)),
        !bytes::same_name(bytes::utf8("Vary"@), bytes::utf8("Content-Encoding"@)),
        !bytes::same_name(bytes::utf8("Content-Encoding"@), bytes::utf8("ETag"@)),
        bytes::same_name(bytes::utf8("etag"@), bytes::utf8("ETag"@)),
        !bytes::same_name(bytes::utf8("Vary"@), bytes::utf8("etag"@)),
{
    let e = seq![101u8, 116u8, 97u8, 103u8];
    let f = seq![69u8, 84u8, 97u8, 103u8];
    let v = seq![86u8, 97u8, 114u8, 121u8];
    bytes::lemma_ascii_text(e);
    bytes::lemma_ascii_text(f);
    bytes::lemma_ascii_text(v);
    reveal_strlit("etag");
    reveal_strlit("ETag");
    reveal_strlit("Vary");
    reveal_strlit("Content-Encoding");
    assert(bytes::ascii_text(e) =~= "etag"@);
    assert(bytes::ascii_text(f) =~= "ETag"@);
    assert(bytes::ascii_text(v) =~= "Vary"@);
    bytes::lemma_ascii_len("Content-Encoding"@);
    assert(bytes::lowered(bytes::utf8("Content-Encoding"@)).len() == 16);
    assert(bytes::lowered(e).len() == 4 && bytes::lowered(f).len() == 4 && bytes::lowered(v).len()
        == 4);
    assert(bytes::lowered(e) =~= bytes::lowered(f));
    assert(bytes::lowered(v)[0] == 118 && bytes::lowered(e)[0] == 101);
}

/// A compressed response says so, says what it depends on where that is asked for, and has a
/// weak tag, since it is not what the tag was made for byte by byte.
pub proof fn law_compressed_responses_say_so(r: RespView, vary: bool, tag: Seq<u8>)
    requires
        http::value_of(r.headers, bytes::utf8("content-encoding"@)) is None,
    ensures
        ({
            let after = decorate::compressed_head(r, vary);
            &&& exists|i: int|
                0 <= i < after.headers.len() && #[trigger] after.headers[i] == (
                    bytes::utf8("Content-Encoding"@),
                    bytes::utf8("gzip"@),
                )
            &&& vary ==> exists|i: int|
                0 <= i < after.headers.len() && #[trigger] after.headers[i] == (
                    bytes::utf8("Vary"@),
                    bytes::utf8("Accept-Encoding"@),
                )
            &&& http::value_of(r.headers, bytes::utf8("etag"@)) == Some(tag) ==> http::value_of(
                after.headers,
                bytes::utf8("etag"@),
            ) == Some(
                if bytes::starts(tag, bytes::utf8("W/"@)) {
                    tag
                } else {
                    bytes::utf8("W/"@) + tag
                },
            )
            &&& after.status == r.status
            &&& after.framing == r.framing
        }),
{
    lemma_gzip_names();
    let n = r.headers.len() as int;
    let one = (bytes::utf8("Content-Encoding"@), bytes::utf8("gzip"@));
    let two = (bytes::utf8("Vary"@), bytes::utf8("Accept-Encoding"@));
    let encoded = r.headers.push(one);
    let varied = if vary {
        encoded.push(two)
    } else {
        encoded
    };
    let lower = bytes::utf8("etag"@);
    let upper = bytes::utf8("ETag"@);
    texts::lemma_place_of(varied, lower, 0);
    texts::lemma_place_of(r.headers, lower, 0);
    let i = http::place_of(r.headers, lower, 0);
    assert forall|j: int| 0 <= j < n implies varied[j] == r.headers[j] by {}
    assert(varied[n] == one);
    if vary {
        assert(varied[n + 1] == two);
    }
    if i < n {
        assert forall|j: int| 0 <= j < i implies !bytes::same_name(
            (#[trigger] varied[j]).0,
            lower,
        ) by {
            assert(varied[j] == r.headers[j]);
        }
        texts::lemma_place_is(varied, lower, 0, i);
    } else {
        assert forall|j: int| 0 <= j < varied.len() implies !bytes::same_name(
            (#[trigger] varied[j]).0,
            lower,
        ) by {
            if j < n {
                assert(varied[j] == r.headers[j]);
            }
        }
        texts::lemma_place_is(varied, lower, 0, varied.len() as int);
    }
    let after = decorate::compressed_head(r, vary).headers;
    if i < n {
        // The tag is set by another spelling of the same name.
        assert forall|a: Seq<u8>| bytes::same_name(a, lower) == #[trigger] bytes::same_name(a, upper) by {}
        assert forall|j: int| 0 <= j < i implies !bytes::same_name(
            (#[trigger] varied[j]).0,
            upper,
        ) by {
            assert(!bytes::same_name(varied[j].0, lower));
        }
        texts::lemma_place_is(varied, upper, 0, i);
        let weak = bytes::utf8("W/"@);
        let e = r.headers[i].1;
        if !bytes::starts(e, weak) {
            assert(after =~= varied.update(i, (varied[i].0, weak + e)));
            assert forall|j: int| 0 <= j < i implies !bytes::same_name(
                (#[trigger] after[j]).0,
                lower,
            ) by {
                assert(after[j] == varied[j]);
            }
            texts::lemma_place_is(after, lower, 0, i);
        }
    }
    assert(after[n] == one);
    if vary {
        assert(after[n + 1] == two);
    }
}

/// The level is the configured one, as far as there are levels.
pub proof fn law_levels_of_compression_are_bounded(g: Gzip)
    ensures
        g.level <= 10 ==> decorate::gzip_level(g) == g.level,
        g.level > 10 ==> decorate::gzip_level(g) == 10,
{
}

// ---------------------------------------------------------------- framing

/// A body whose length is known is sent with its length; another in chunks, or up to the end
/// of the connection to a client that knows no chunks.
pub proof fn law_bodies_are_framed(n: int)
    ensures
        reply::framing_for(Some(n), true) == Framing::Length(n as u64),
        reply::framing_for(Some(n), false) == Framing::Length(n as u64),
        reply::framing_for(None, true) == Framing::Chunked,
        reply::framing_for(None, false) == Framing::UntilClose,
{
}

/// How long bodies are.
pub proof fn law_bodies_have_lengths<M, F, S>(b: Body<M, F, S>)
    ensures
        b is Empty ==> b.length() == Some(0int),
        (b matches Body::Bytes(v) ==> b.length() == Some(v@.len() as int)),
        (b matches Body::Mmap { map, start, end } ==> start <= end ==> b.length() == Some(
            end - start,
        )),
        (b matches Body::Inline { file, offset, len } ==> b.length() == Some(len as int)),
        (b matches Body::File { file, offset, len } ==> b.length() == Some(len as int)),
        (b matches Body::Stream { pre, io, len } ==> (b.length() is Some <==> len is Some) && (
        len matches Some(n) ==> b.length() == Some(n as int))),
{
}

/// A reply to a status without a body is sent without one; any other is sent with its body,
/// whose end is told as its handler chose, or by its length where that is known.
pub proof fn law_replies_are_framed<M, F, S>(
    r: Reply<M, F, S>,
    out: Reply<M, F, S>,
    http11: bool,
    n: int,
)
    requires
        reply::is_framed(r, out, http11),
    ensures
        out.resp@.status == r.resp@.status,
        out.resp@.headers == r.resp@.headers,
        r.resp.status == 204 || r.resp.status == 304 ==> out.body is Empty && out.resp.framing
            == Framing::Absent,
        r.resp.status >= 200 && r.resp.status != 204 && r.resp.status != 304 ==> out.body == r.body,
        r.resp.status >= 200 && r.resp.status != 204 && r.resp.status != 304 && r.resp.framing
            != Framing::Absent ==> out.resp.framing == r.resp.framing,
        r.resp.status >= 200 && r.resp.status != 204 && r.resp.status != 304 && r.resp.framing
            == Framing::Absent && r.body.length() == Some(n) ==> out.resp@.framing
            == Framing::Length(n as u64),
        r.resp.status >= 200 && r.resp.status != 204 && r.resp.status != 304 && r.resp.framing
            == Framing::Absent && r.body.length() is None ==> out.resp@.framing == if http11 {
            Framing::Chunked
        } else {
            Framing::UntilClose
        },
{
}

// ---------------------------------------------------------------- bodies and heads that come

/// A body is read where it is not too large; the client is told to go on where it waits for
/// that, and before that a length that is too large is refused.
pub proof fn law_bodies_are_read_within_the_limit(n: u64, max: u64, waits: bool)
    ensures
        conn::body_plan(ReqBody::NoBody, max, waits) == BodyPlan::Nothing,
        n > max ==> conn::body_plan(ReqBody::Length(n), max, waits) == BodyPlan::Refuse(413),
        n <= max ==> conn::body_plan(ReqBody::Length(n), max, waits) == (BodyPlan::Exact {
            len: n,
            send_continue: waits,
        }),
        conn::body_plan(ReqBody::Chunked, max, waits) == (BodyPlan::Chunked {
            send_continue: waits,
        }),
{
}

/// A body that stops coming is a bad request, or one that took too long.
pub proof fn law_bodies_that_stop_are_refused(n: usize)
    ensures
        conn::body_refusal(ReadEvent::Got(0)) == Some(400u16),
        n > 0 ==> conn::body_refusal(ReadEvent::Got(n)) is None,
        conn::body_refusal(ReadEvent::Failed) == Some(400u16),
        conn::body_refusal(ReadEvent::TimedOut) == Some(408u16),
{
}

/// A head is read until it is complete or broken, and no further than it may be large.
pub proof fn law_heads_are_read_within_the_limit(buffered: usize, max_head: usize, code: u16)
    requires
        buffered > 0,
    ensures
        conn::head_turn(0, ParseResult::Partial, max_head) == HeadStep::Read,
        conn::head_turn(buffered, ParseResult::Complete, max_head) == HeadStep::Parsed(
            ParseResult::Complete,
        ),
        conn::head_turn(buffered, ParseResult::Error(code), max_head) == HeadStep::Parsed(
            ParseResult::Error(code),
        ),
        buffered > max_head ==> conn::head_turn(buffered, ParseResult::Partial, max_head)
            == HeadStep::Failed(HeadError::TooLarge),
        buffered <= max_head ==> conn::head_turn(buffered, ParseResult::Partial, max_head)
            == HeadStep::Read,
{
}

/// A client that closes between requests is at its end, and one that closes within a head
/// has failed.
pub proof fn law_clients_may_leave_between_requests(buffered: usize, n: usize)
    requires
        buffered > 0,
        n > 0,
    ensures
        conn::head_failure(0, ReadEvent::Got(0)) == Some(HeadError::Eof),
        conn::head_failure(buffered, ReadEvent::Got(0)) == Some(HeadError::Io),
        conn::head_failure(buffered, ReadEvent::Got(n)) is None,
        conn::head_failure(0, ReadEvent::Got(n)) is None,
        conn::head_failure(buffered, ReadEvent::Failed) == Some(HeadError::Io),
        conn::head_failure(buffered, ReadEvent::TimedOut) == Some(HeadError::Timeout),
{
}

/// A size that is no number, and a line of it that does not end, is a bad request.
pub proof fn law_sizes_that_are_none_are_refused(
    size: Seq<u8>,
    rest: Seq<u8>,
    d: conn::DecoderView,
    max: int,
)
    requires
        d.pos == 0,
        d.phase == conn::Phase::Size,
        !size.contains(13) && !size.contains(59),
    ensures
        conn::chunk_size(size) is None ==> conn::decoded(
            size + seq![13u8, 10u8] + rest,
            d,
            max,
        ).1 == conn::Progress::Fail(400),
        size.len() > 1024 ==> conn::decoded(size, d, max).1 == conn::Progress::Fail(400),
{
    let read = size + seq![13u8, 10u8] + rest;
    let k = size.len() as int;
    assert forall|j: int| 0 <= j < k implies size[j] != 13 && read[j] != 13 by {
        assert(read[j] == size[j]);
        if size[j] == 13 {
            assert(size.contains(13));
        }
    }
    assert(read[k] == 13 && read[k + 1] == 10);
    lemma_line_ends(read, 0, k);
    assert(read.subrange(0, k) =~= size);
    law_extensions_of_chunks_do_not_count(size, rest);
    lemma_no_line_end(size, 0);
}

proof fn lemma_no_line_end(s: Seq<u8>, from: int)
    requires
        0 <= from,
        forall|j: int| 0 <= j < s.len() ==> s[j] != 13,
    ensures
        conn::line_end(s, from) == -1,
    decreases s.len() - from,
{
    if from + 1 < s.len() {
        lemma_no_line_end(s, from + 1);
    }
}

/// A response that expires by the time does so that many seconds from now; one that has
/// expired, now.
pub proof fn law_expiry_counts_from_now(s: i64, d: u32, now: u64)
    requires
        now <= i64::MAX,
    ensures
        s >= 0 ==> decorate::expiry(Expires::Secs(s), now) == Some((now + s) as u64),
        s < 0 ==> decorate::expiry(Expires::Secs(s), now) == Some(now),
        decorate::expiry(Expires::Daily(d), now) == Some((now + d) as u64),
        decorate::expiry(Expires::Off, now) is None,
        decorate::expiry(Expires::Epoch, now) is None,
        decorate::expiry(Expires::Max, now) is None,
{
}

} // verus!
