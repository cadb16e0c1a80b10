//! What is added to a finished reply: `add_header`, `expires`, `Alt-Svc` and
//! compression.

use vstd::prelude::*;
use vstd::string::*;

use crate::bytes;
use crate::config::AddHeader;
use crate::config::Expires;
use crate::config::Gzip;
use crate::ctx;
use crate::ctx::Ctx;
use crate::ctx::CtxView;
use crate::http;
use crate::http::Resp;
use crate::http::RespView;
use crate::reply::Body;
use crate::reply::Reply;

verus! {

/// Largest file compressed on the fly. Above this the CPU and the memory to hold
/// both copies cost more than the bandwidth saved.
pub const GZIP_MAX_FILE: u64 = 8388608;

// ---------------------------------------------------------------- headers

/// Statuses on which headers are added without `always`.
pub open spec fn is_decorated(status: u16) -> bool {
    200 <= status < 300 || status == 301 || status == 302 || status == 303 || status == 304
        || status == 307 || status == 308
}

/// A head with the first `n` `add_header` directives applied. One whose value is
/// empty adds nothing.
pub open spec fn with_added(c: CtxView, r: RespView, hs: Seq<AddHeader>, n: int) -> RespView
    decreases n,
{
    if n <= 0 {
        r
    } else {
        let before = with_added(c, r, hs, n - 1);
        let v = ctx::shown(c, hs[n - 1].value);
        if (hs[n - 1].always || is_decorated(r.status)) && v.len() > 0 {
            RespView { headers: before.headers.push((hs[n - 1].name@, v)), ..before }
        } else {
            before
        }
    }
}

/// Texts that an `expires` directive writes.
pub open spec fn expires_texts(e: Expires, date: Seq<u8>) -> Option<(Seq<u8>, Seq<u8>)> {
    match e {
        Expires::Off => None,
        Expires::Epoch => Some(
            (bytes::utf8("no-cache"@), bytes::utf8("Thu, 01 Jan 1970 00:00:00 GMT"@)),
        ),
        Expires::Max => Some(
            (bytes::utf8("max-age=315360000"@), bytes::utf8("Thu, 31 Dec 2037 23:55:55 GMT"@)),
        ),
        Expires::Secs(s) => if s < 0 {
            Some((bytes::utf8("no-cache"@), date))
        } else {
            Some((bytes::utf8("max-age="@) + bytes::decimal(s as nat), date))
        },
        Expires::Daily(s) => Some((bytes::utf8("max-age="@) + bytes::decimal(s as nat), date)),
    }
}

/// When a response expires, where that depends on the time.
pub open spec fn expiry(e: Expires, now: u64) -> Option<u64> {
    match e {
        Expires::Secs(s) => Some(
            if s < 0 {
                now
            } else {
                (now + s) as u64
            },
        ),
        Expires::Daily(s) => Some((now + s) as u64),
        _ => None,
    }
}

/// The moment an `expires` directive names, in seconds since the epoch, where it
/// depends on the present one.
pub fn expires_at(e: Expires, now: u64) -> (r: Option<u64>)
    requires
        now <= i64::MAX,
    ensures
        r == expiry(e, now),
{
    match e {
        Expires::Secs(s) => if s < 0 {
            Some(now)
        } else {
            Some(now + s as u64)
        },
        Expires::Daily(s) => Some(now + s as u64),
        _ => None,
    }
}

/// A head with an `expires` directive applied.
pub open spec fn with_expires(r: RespView, e: Expires, date: Seq<u8>) -> RespView {
    match expires_texts(e, date) {
        None => r,
        Some((control, expires)) => RespView {
            headers: http::with_header(
                http::with_header(r.headers, bytes::utf8("Expires"@), expires),
                bytes::utf8("Cache-Control"@),
                control,
            ),
            ..r
        },
    }
}

/// Applies an `expires` directive. `date` is the text of the moment it names.
pub fn apply_expires(resp: &mut Resp, e: Expires, date: &[u8])
    ensures
        final(resp)@ == with_expires(old(resp)@, e, date@),
{
    match e {
        Expires::Off => {},
        Expires::Epoch => {
            resp.set("Expires", "Thu, 01 Jan 1970 00:00:00 GMT".as_bytes());
            resp.set("Cache-Control", "no-cache".as_bytes());
        },
        Expires::Max => {
            resp.set("Expires", "Thu, 31 Dec 2037 23:55:55 GMT".as_bytes());
            resp.set("Cache-Control", "max-age=315360000".as_bytes());
        },
        Expires::Secs(s) => {
            resp.set("Expires", date);
            if s < 0 {
                resp.set("Cache-Control", "no-cache".as_bytes());
            } else {
                let mut control: Vec<u8> = bytes::copy("max-age=".as_bytes());
                bytes::push_decimal(&mut control, s as u64);
                resp.set("Cache-Control", control.as_slice());
            }
        },
        Expires::Daily(s) => {
            resp.set("Expires", date);
            let mut control: Vec<u8> = bytes::copy("max-age=".as_bytes());
            bytes::push_decimal(&mut control, s as u64);
            resp.set("Cache-Control", control.as_slice());
        },
    }
}

/// A decorated head: added headers, `expires`, and `Alt-Svc` unless one was set.
pub open spec fn decorated(c: CtxView, r: RespView, date: Seq<u8>) -> RespView {
    let core = ctx::core_of(c);
    let added = with_added(c, r, core.add_headers@, core.add_headers@.len() as int);
    let expiring = match core.expires {
        Some(e) => with_expires(added, e, date),
        None => added,
    };
    match c.env.server.alt_svc {
        Some(alt) => if http::value_of(expiring.headers, bytes::utf8("alt-svc"@)) is Some {
            expiring
        } else {
            RespView {
                headers: expiring.headers.push((bytes::utf8("Alt-Svc"@), alt@)),
                ..expiring
            }
        },
        None => expiring,
    }
}

/// Applies `add_header`, `expires` and `Alt-Svc` to a finished head.
pub fn decorate(ctx: &Ctx, resp: &mut Resp, date: &[u8])
    ensures
        final(resp)@ == decorated(ctx@, old(resp)@, date@),
{
    let core = ctx.matched_core();
    let hs: &Vec<AddHeader> = &core.add_headers;
    let status: u16 = resp.status;
    let plain: bool = (status >= 200 && status < 300) || status == 301 || status == 302 || status
        == 303 || status == 304 || status == 307 || status == 308;
    for i in 0..hs.len()
        invariant
            status == old(resp)@.status,
            plain == is_decorated(status),
            resp@ == with_added(ctx@, old(resp)@, hs@, i as int),
    {
        if hs[i].always || plain {
            let v: Vec<u8> = ctx.render(&hs[i].value);
            if v.len() > 0 {
                resp.header_bytes(hs[i].name.as_slice(), v.as_slice());
            }
        }
    }
    if let Some(e) = core.expires {
        apply_expires(resp, e, date);
    }
    if let Some(alt) = &ctx.env.server.alt_svc {
        if !resp.has("alt-svc") {
            resp.header("Alt-Svc", alt.as_slice());
        }
    }
}

/// A configured `Alt-Svc` wins over the advertised one.
pub proof fn law_a_configured_alt_svc_wins(c: CtxView, r: RespView, date: Seq<u8>)
    requires
        ctx::core_of(c).add_headers@.len() == 0,
        ctx::core_of(c).expires is None,
        http::value_of(r.headers, bytes::utf8("alt-svc"@)) is Some,
    ensures
        decorated(c, r, date) == r,
{
}

/// Headers are only ever added or replaced: those that were there keep their
/// places and names.
pub proof fn law_decoration_keeps_headers(c: CtxView, r: RespView, date: Seq<u8>)
    ensures
        r.headers.len() <= decorated(c, r, date).headers.len(),
        forall|k: int|
            0 <= k < r.headers.len() ==> (#[trigger] decorated(c, r, date).headers[k]).0
                == r.headers[k].0,
        decorated(c, r, date).status == r.status,
        decorated(c, r, date).keep_alive == r.keep_alive,
{
    let core = ctx::core_of(c);
    lemma_added_keeps(c, r, core.add_headers@, core.add_headers@.len() as int);
}

proof fn lemma_added_keeps(c: CtxView, r: RespView, hs: Seq<AddHeader>, n: int)
    ensures
        r.headers.len() <= with_added(c, r, hs, n).headers.len(),
        forall|k: int|
            0 <= k < r.headers.len() ==> (#[trigger] with_added(c, r, hs, n).headers[k])
                == r.headers[k],
        with_added(c, r, hs, n).status == r.status,
        with_added(c, r, hs, n).keep_alive == r.keep_alive,
        with_added(c, r, hs, n).framing == r.framing,
    decreases n,
{
    if n > 0 {
        lemma_added_keeps(c, r, hs, n - 1);
    }
}

// ---------------------------------------------------------------- compression

/// What `flate2` compresses bytes to at a level, in the gzip format.
pub uninterp spec fn gzip_of(raw: Seq<u8>, level: u32) -> Option<Seq<u8>>;

/// `flate2::write::GzEncoder`: writes the bytes and finishes the stream. The result
/// depends on the bytes and the level alone; the gzip header carries no time. The
/// encoder knows levels up to 10.
#[verifier::external_body]
fn gzip(raw: &[u8], level: u32) -> (r: Option<Vec<u8>>)
    requires
        level <= 10,
    ensures
        match r {
            Some(v) => gzip_of(raw@, level) == Some(v@),
            None => gzip_of(raw@, level) is None,
        },
{
    let mut enc = flate2::write::GzEncoder::new(Vec::new(), flate2::Compression::new(level));
    std::io::Write::write_all(&mut enc, raw).ok()?;
    enc.finish().ok()
}

/// The media type of a `Content-Type`, without its parameters.
pub open spec fn media_type(v: Seq<u8>) -> Seq<u8> {
    bytes::trimmed(v.subrange(0, bytes::find(v, 59, 0)))
}

/// Whether a media type is one of those compressed; HTML always is.
pub open spec fn is_compressed_type(g: Gzip, base: Seq<u8>) -> bool {
    base == bytes::utf8("text/html"@) || exists|i: int|
        0 <= i < g.types@.len() && (#[trigger] g.types@[i])@ == base
}

/// Whether a body can be compressed here: it is in memory or in a file.
pub open spec fn is_compressible<M, F, S>(b: Body<M, F, S>) -> bool {
    b is Bytes || b is Mmap || b is Inline || b is File
}

/// Whether a reply is compressed, if its bytes can be had.
pub open spec fn compresses<M, F, S>(c: CtxView, r: Reply<M, F, S>) -> bool {
    let g = ctx::core_of(c).gzip;
    let hs = r.resp@.headers;
    &&& g.enabled
    &&& http::value_of(hs, bytes::utf8("content-encoding"@)) is None
    &&& c.env.req.accepts_gzip
    &&& c.env.req.minor != 0 || g.http_version_1_0
    &&& match http::value_of(hs, bytes::utf8("content-type"@)) {
        Some(ct) => is_compressed_type(g, media_type(ct)),
        None => false,
    }
    &&& match r.body.length() {
        Some(n) => g.min_length <= n <= GZIP_MAX_FILE,
        None => false,
    }
    &&& is_compressible(r.body)
}

/// Decides whether a reply is compressed, if its bytes can be had.
pub fn wants_gzip<M, F, S>(ctx: &Ctx, r: &Reply<M, F, S>) -> (w: bool)
    ensures
        w == compresses(ctx@, *r),
{
    let g: &Gzip = &ctx.matched_core().gzip;
    if !g.enabled || r.resp.has("content-encoding") {
        return false;
    }
    if !ctx.env.req.accepts_gzip {
        return false;
    }
    if ctx.env.req.minor == 0 && !g.http_version_1_0 {
        return false;
    }
    let known: bool = match r.resp.get("content-type") {
        Some(ct) => {
            let end: usize = bytes::find_from(ct, 59, 0);
            let base: &[u8] = bytes::trim(&ct[0..end]);
            is_type(g, base)
        },
        None => false,
    };
    if !known {
        return false;
    }
    let fits: bool = match r.body.known_len() {
        Some(n) => g.min_length <= n && n <= GZIP_MAX_FILE,
        None => false,
    };
    if !fits {
        return false;
    }
    match &r.body {
        Body::Bytes(_) => true,
        Body::Mmap { map, start, end } => true,
        Body::Inline { file, offset, len } => true,
        Body::File { file, offset, len } => true,
        _ => false,
    }
}

fn is_type(g: &Gzip, base: &[u8]) -> (r: bool)
    ensures
        r == is_compressed_type(*g, base@),
{
    if bytes::is_text(base, "text/html") {
        return true;
    }
    for i in 0..g.types.len()
        invariant
            base@ != bytes::utf8("text/html"@),
            forall|k: int| 0 <= k < i ==> (#[trigger] g.types@[k])@ != base@,
    {
        if bytes::same(g.types[i].as_slice(), base) {
            return true;
        }
    }
    false
}

/// The head of a compressed reply. The entity changed, so a strong `ETag` no
/// longer identifies these bytes: it becomes a weak one.
pub open spec fn compressed_head(r: RespView, vary: bool) -> RespView {
    let encoded = r.headers.push((bytes::utf8("Content-Encoding"@), bytes::utf8("gzip"@)));
    let varied = if vary {
        encoded.push((bytes::utf8("Vary"@), bytes::utf8("Accept-Encoding"@)))
    } else {
        encoded
    };
    let weak = bytes::utf8("W/"@);
    match http::value_of(varied, bytes::utf8("etag"@)) {
        Some(e) => if bytes::starts(e, weak) {
            RespView { headers: varied, ..r }
        } else {
            RespView {
                headers: http::with_header(varied, bytes::utf8("ETag"@), weak + e),
                ..r
            }
        },
        None => RespView { headers: varied, ..r },
    }
}

fn mark_compressed(resp: &mut Resp, vary: bool)
    ensures
        final(resp)@ == compressed_head(old(resp)@, vary),
{
    resp.header("Content-Encoding", "gzip".as_bytes());
    if vary {
        resp.header("Vary", "Accept-Encoding".as_bytes());
    }
    let weakened: Option<Vec<u8>> = match resp.get("etag") {
        Some(e) => if bytes::starts_with(e, "W/".as_bytes()) {
            None
        } else {
            let mut w: Vec<u8> = bytes::copy("W/".as_bytes());
            w.extend_from_slice(e);
            assert(w@ =~= bytes::utf8("W/"@) + e@);
            Some(w)
        },
        None => None,
    };
    if let Some(w) = weakened {
        resp.set("ETag", w.as_slice());
    }
}

/// The bytes to compress: those of a body in memory, else those that were read.
pub open spec fn raw_of<M, F, S>(b: Body<M, F, S>, read: Option<Vec<u8>>) -> Option<Seq<u8>> {
    match b {
        Body::Bytes(v) => Some(v@),
        _ => match read {
            Some(v) => Some(v@),
            None => None,
        },
    }
}

/// A level the compressor knows: the one that is configured, or its highest.
pub open spec fn gzip_level(g: Gzip) -> u32 {
    if g.level > 10 {
        10
    } else {
        g.level
    }
}

/// A reply whose body came out of the compressor.
pub fn compressed_reply<M, F, S>(r: Reply<M, F, S>, z: Vec<u8>, vary: bool) -> (out: Reply<M, F, S>)
    ensures
        out.resp@ == compressed_head(r.resp@, vary),
        out.body == Body::<M, F, S>::Bytes(z),
{
    let mut resp = r.resp;
    mark_compressed(&mut resp, vary);
    Reply { resp, body: Body::Bytes(z) }
}

/// Compresses the body when `gzip on` and the client advertises support. `read`
/// holds the bytes of a mapped or open file, if they could be read.
pub fn maybe_gzip<M, F, S>(ctx: &Ctx, r: Reply<M, F, S>, read: Option<Vec<u8>>) -> (out: Reply<
    M,
    F,
    S,
>)
    ensures
        ({
            let g = ctx::core_of(ctx@).gzip;
            match raw_of(r.body, read) {
                Some(raw) => match gzip_of(raw, gzip_level(g)) {
                    Some(z) => if compresses(ctx@, r) {
                        out.resp@ == compressed_head(r.resp@, g.vary) && (out.body matches Body::Bytes(
                            b,
                        ) && b@ == z)
                    } else {
                        out == r
                    },
                    None => out == r,
                },
                None => out == r,
            }
        }),
{
    if !wants_gzip(ctx, &r) {
        return r;
    }
    let g: &Gzip = &ctx.matched_core().gzip;
    let level: u32 = if g.level > 10 {
        10
    } else {
        g.level
    };
    let z: Option<Vec<u8>> = match &r.body {
        Body::Bytes(b) => gzip(b.as_slice(), level),
        _ => match &read {
            Some(b) => gzip(b.as_slice(), level),
            None => None,
        },
    };
    match z {
        Some(v) => compressed_reply(r, v, g.vary),
        None => r,
    }
}

/// A client that does not accept gzip never gets it.
pub proof fn law_gzip_needs_consent<M, F, S>(c: CtxView, r: Reply<M, F, S>)
    requires
        !c.env.req.accepts_gzip,
    ensures
        !compresses(c, r),
{
}

/// A reply that is already encoded is not encoded again.
pub proof fn law_gzip_is_not_applied_twice<M, F, S>(c: CtxView, r: Reply<M, F, S>)
    requires
        http::value_of(r.resp@.headers, bytes::utf8("content-encoding"@)) is Some,
    ensures
        !compresses(c, r),
{
}

} // verus!
