//! `proxy_pass`: reverse proxying to an upstream.
//!
//! Connecting, sending and reading are the caller's. What is sent, what an answer
//! means and what a failure leads to is decided here.

use vstd::prelude::*;
use vstd::string::*;

use crate::bytes;
use crate::cache;
use crate::cache::CacheStatus;
use crate::cache::Decoded;
use crate::cache::DecodedView;
use crate::cache::KeyHash;
use crate::cache_index;
use crate::cache_index::StaleWhen;
use crate::config::Addr;
use crate::config::CacheValid;
use crate::config::ProxyCacheConf;
use crate::config::ProxyConf;
use crate::config::ProxyPass;
use crate::config::ProxyTarget;
use crate::config::SetDirective;
use crate::config::Template;
use crate::ctx;
use crate::ctx::Ctx;
use crate::ctx::CtxView;
use crate::files;
use crate::handler::Page;
use crate::handler::PageView;
use crate::http;
use crate::http::Framing;
use crate::http::Header;
use crate::http::Resp;
use crate::http::RespView;
use crate::reply::Body;
use crate::reply::Reply;
use crate::text;
use crate::upstream;
use crate::upstream::LbMethod;
use crate::upstream::Upstream;

verus! {

// ---------------------------------------------------------------- hop-by-hop headers

/// Names of headers that describe this hop and must never be forwarded.
pub open spec fn hop_names() -> Seq<Seq<char>> {
    seq![
        "connection"@,
        "keep-alive"@,
        "proxy-authenticate"@,
        "proxy-authorization"@,
        "te"@,
        "trailer"@,
        "transfer-encoding"@,
        "upgrade"@,
    ]
}

/// Lists the names of headers that describe this hop.
pub fn hop_by_hop() -> (r: Vec<&'static str>)
    ensures
        r@.len() == hop_names().len(),
        forall|i: int| 0 <= i < r@.len() ==> (#[trigger] r@[i])@ == hop_names()[i],
{
    vec![
        "connection",
        "keep-alive",
        "proxy-authenticate",
        "proxy-authorization",
        "te",
        "trailer",
        "transfer-encoding",
        "upgrade",
    ]
}

/// Whether a header describes this hop.
pub open spec fn is_hop(name: Seq<u8>) -> bool {
    exists|i: int|
        0 <= i < hop_names().len() && bytes::same_name(
            name,
            bytes::utf8(#[trigger] hop_names()[i]),
        )
}

fn describes_hop(name: &[u8]) -> (r: bool)
    ensures
        r == is_hop(name@),
{
    let names: Vec<&'static str> = hop_by_hop();
    for i in 0..names.len()
        invariant
            names@.len() == hop_names().len(),
            forall|k: int| 0 <= k < names@.len() ==> (#[trigger] names@[k])@ == hop_names()[k],
            forall|k: int|
                0 <= k < i ==> !bytes::same_name(name@, bytes::utf8(#[trigger] hop_names()[k])),
    {
        if bytes::is_name(name, names[i]) {
            assert(bytes::same_name(name@, bytes::utf8(hop_names()[i as int])));
            return true;
        }
    }
    false
}

// ---------------------------------------------------------------- addresses

/// The address of a peer in the form it is connected to: port 80 unless it has one.
pub open spec fn with_default_port(a: Seq<u8>) -> Seq<u8> {
    if bytes::starts(a, bytes::utf8("unix:"@)) || bytes::has(a, 58) {
        a
    } else {
        a + bytes::utf8(":80"@)
    }
}

/// The address of a peer in the form it is connected to.
pub fn peer_addr(addr: &[u8]) -> (r: Vec<u8>)
    ensures
        r@ == with_default_port(addr@),
{
    let mut out: Vec<u8> = bytes::copy(addr);
    if !(bytes::starts_with(addr, "unix:".as_bytes()) || bytes::contains(addr, 58)) {
        out.extend_from_slice(":80".as_bytes());
    }
    out
}

/// The `Host` of a peer. A path of a socket is no valid one.
pub open spec fn host_for(addr: Seq<u8>) -> Seq<u8> {
    if bytes::starts(addr, bytes::utf8("unix:"@)) {
        bytes::utf8("localhost"@)
    } else {
        addr
    }
}

fn host_of(addr: &[u8]) -> (r: &[u8])
    ensures
        r@ == host_for(addr@),
{
    if bytes::starts_with(addr, "unix:".as_bytes()) {
        "localhost".as_bytes()
    } else {
        addr
    }
}

/// The octets of a client's address. One on a Unix socket has none, so all such
/// clients hash alike.
pub open spec fn octets(a: Option<Addr>) -> Seq<u8> {
    match a {
        Some(Addr::V4 { a, b, c, d, port }) => seq![a, b, c, d],
        Some(Addr::V6 { text, octets, port }) => octets@,
        None => Seq::empty(),
    }
}

fn addr_bytes(addr: &Option<Addr>) -> (r: Vec<u8>)
    ensures
        r@ == octets(*addr),
{
    match addr {
        Some(Addr::V4 { a, b, c, d, port }) => {
            let v: Vec<u8> = vec![*a, *b, *c, *d];
            assert(v@ =~= seq![*a, *b, *c, *d]);
            v
        },
        Some(Addr::V6 { text, octets, port }) => bytes::copy(octets.as_slice()),
        None => Vec::new(),
    }
}

fn hash_of(s: &[u8]) -> (r: u64)
    ensures
        r == cache::fnv(s@),
{
    let mut h: u64 = cache::FNV_OFFSET;
    for i in 0..s.len()
        invariant
            h == cache::fnv(s@.subrange(0, i as int)),
    {
        let ghost next = s@.subrange(0, i + 1);
        assert(next.drop_last() =~= s@.subrange(0, i as int));
        assert(next.last() == s@[i as int]);
        h = (h ^ (s[i] as u64)).wrapping_mul(cache::FNV_PRIME);
    }
    assert(s@.subrange(0, s@.len() as int) =~= s@);
    h
}

/// What a peer is selected by, beside the load: the client's address with `ip_hash`.
pub open spec fn hash_for(method: LbMethod, remote: Option<Addr>) -> Option<u64> {
    match method {
        LbMethod::IpHash => Some(cache::fnv(octets(remote))),
        _ => None,
    }
}

fn hash_by(ctx: &Ctx, method: LbMethod) -> (r: Option<u64>)
    ensures
        r == hash_for(method, ctx@.env.remote),
{
    match method {
        LbMethod::IpHash => {
            let octets: Vec<u8> = addr_bytes(&ctx.env.remote);
            Some(hash_of(octets.as_slice()))
        },
        _ => None,
    }
}

/// Chooses another peer than those that were tried, or 502 where there is none.
pub fn select_next_peer(
    ctx: &Ctx,
    up: &Upstream,
    now_ms: u64,
    cursor: usize,
    tried: &Vec<usize>,
) -> (r: Result<usize, u16>)
    requires
        up.wf(),
        up.weights_fit(now_ms as int),
    ensures
        exists|m: Upstream| #[trigger]
            upstream::is_besides(up, &m, tried@) && match upstream::selected(
                &m,
                now_ms as int,
                hash_for(up.method, ctx@.env.remote),
                cursor,
            ) {
                Some(i) => r == Ok::<usize, u16>(i as usize),
                None => r == Err::<usize, u16>(502),
            },
        match r {
            Ok(i) => i < up.servers@.len() && !up.servers@[i as int].down && !tried@.contains(i),
            Err(_) => forall|i: int|
                0 <= i < up.servers@.len() ==> (#[trigger] up.servers@[i]).down || tried@.contains(
                    i as usize,
                ),
        },
{
    let hash: Option<u64> = hash_by(ctx, up.method);
    match upstream::select_besides(up, now_ms, hash, cursor, tried) {
        Some(i) => Ok(i),
        None => Err(502),
    }
}

/// Chooses a peer, or 502 where there is none.
pub fn select_peer(ctx: &Ctx, up: &Upstream, now_ms: u64, cursor: usize) -> (r: Result<usize, u16>)
    requires
        up.wf(),
        up.weights_fit(now_ms as int),
    ensures
        match upstream::selected(
            up,
            now_ms as int,
            hash_for(up.method, ctx@.env.remote),
            cursor,
        ) {
            Some(i) => r == Ok::<usize, u16>(i as usize) && 0 <= i < up.servers@.len(),
            None => r == Err::<usize, u16>(502),
        },
{
    let hash: Option<u64> = hash_by(ctx, up.method);
    match upstream::select(up, now_ms, hash, cursor) {
        Some(i) => Ok(i),
        None => Err(502),
    }
}

/// The round-robin cursor of one upstream on one worker.
#[derive(Debug)]
pub struct Cursor {
    pub at: usize,
}

impl Cursor {
    /// The place to start at, which moves on.
    pub fn advance(&mut self) -> (r: usize)
        ensures
            r == old(self).at,
            final(self).at == old(self).at.wrapping_add(1),
    {
        let i: usize = self.at;
        self.at = i.wrapping_add(1);
        i
    }
}

/// Where a request goes.
#[derive(Debug)]
pub struct Target {
    pub addr: Vec<u8>,
    pub tls: bool,
}

/// Where a request goes, as plain values.
#[verifier::ext_equal]
pub ghost struct TargetView {
    pub addr: Seq<u8>,
    pub tls: bool,
}

impl View for Target {
    type V = TargetView;

    open spec fn view(&self) -> TargetView {
        TargetView { addr: self.addr@, tls: self.tls }
    }
}

/// Text without repetitions of a prefix in front.
pub open spec fn without_prefix(s: Seq<u8>, p: Seq<u8>) -> Seq<u8>
    decreases s.len(),
{
    if p.len() > 0 && bytes::starts(s, p) {
        without_prefix(s.subrange(p.len() as int, s.len() as int), p)
    } else {
        s
    }
}

fn strip_all<'a>(s: &'a [u8], p: &[u8]) -> (r: &'a [u8])
    requires
        p@.len() > 0,
    ensures
        r@ == without_prefix(s@, p@),
{
    let mut i: usize = 0;
    assert(s@.subrange(0, s@.len() as int) =~= s@);
    loop
        invariant
            p@.len() > 0,
            i <= s.len(),
            without_prefix(s@, p@) == without_prefix(
                s@.subrange(i as int, s@.len() as int),
                p@,
            ),
        decreases s.len() - i,
    {
        let rest: &[u8] = &s[i..s.len()];
        if !bytes::starts_with(rest, p) {
            return rest;
        }
        assert(rest@.subrange(p@.len() as int, rest@.len() as int) =~= s@.subrange(
            i + p@.len(),
            s@.len() as int,
        ));
        i = i + p.len();
    }
}

/// The target that rendered text names: its authority, with the port of its scheme
/// unless it has one. There is none in empty text.
pub open spec fn named_target(s: Seq<u8>) -> Option<TargetView> {
    let https = bytes::utf8("https://"@);
    let tls = bytes::starts(s, https);
    let rest = if tls {
        s.subrange(https.len() as int, s.len() as int)
    } else {
        without_prefix(s, bytes::utf8("http://"@))
    };
    let authority = rest.subrange(0, bytes::find(rest, 47, 0));
    if authority.len() == 0 {
        None
    } else if bytes::has(authority, 58) {
        Some(TargetView { addr: authority, tls })
    } else {
        Some(
            TargetView {
                addr: authority + (if tls {
                    bytes::utf8(":443"@)
                } else {
                    bytes::utf8(":80"@)
                }),
                tls,
            },
        )
    }
}

fn dynamic_target(s: &[u8]) -> (r: Option<Target>)
    ensures
        match r {
            Some(t) => named_target(s@) == Some(t@),
            None => named_target(s@) is None,
        },
{
    let https: &[u8] = "https://".as_bytes();
    let tls: bool = bytes::starts_with(s, https);
    proof {
        reveal_strlit("http://");
        let p = seq![104u8, 116, 116, 112, 58, 47, 47];
        bytes::lemma_ascii_text(p);
        assert(bytes::ascii_text(p) =~= "http://"@);
    }
    let rest: &[u8] = if tls {
        &s[https.len()..s.len()]
    } else {
        strip_all(s, "http://".as_bytes())
    };
    let end: usize = bytes::find_from(rest, 47, 0);
    let authority: &[u8] = &rest[0..end];
    if authority.len() == 0 {
        return None;
    }
    let mut addr: Vec<u8> = bytes::copy(authority);
    if !bytes::contains(authority, 58) {
        if tls {
            addr.extend_from_slice(":443".as_bytes());
        } else {
            addr.extend_from_slice(":80".as_bytes());
        }
    }
    Some(Target { addr, tls })
}

/// Where a request goes. `peer` is the address of the peer chosen for an upstream,
/// if there is one. TLS to an upstream is refused rather than downgraded.
pub open spec fn target_of(c: CtxView, pp: ProxyPass, peer: Option<Seq<u8>>) -> Option<Seq<u8>> {
    let t = match pp.target {
        ProxyTarget::Addr { host, port } => Some(
            TargetView {
                addr: host@ + seq![58u8] + bytes::decimal(port as nat),
                tls: pp.tls,
            },
        ),
        ProxyTarget::Unix(path) => Some(
            TargetView { addr: bytes::utf8("unix:"@) + path@, tls: false },
        ),
        ProxyTarget::Dynamic(t) => named_target(ctx::shown(c, t)),
        ProxyTarget::Upstream(_) => match peer {
            Some(a) => Some(TargetView { addr: with_default_port(a), tls: pp.tls }),
            None => None,
        },
    };
    match t {
        Some(x) => if x.tls {
            None
        } else {
            Some(x.addr)
        },
        None => None,
    }
}

/// Decides where a request goes, or 502 where it cannot go anywhere.
pub fn choose_target(ctx: &Ctx, pp: &ProxyPass, peer: Option<&[u8]>) -> (r: Result<Vec<u8>, u16>)
    ensures
        match target_of(
            ctx@,
            *pp,
            match peer {
                Some(a) => Some(a@),
                None => None,
            },
        ) {
            Some(a) => r matches Ok(v) && v@ == a,
            None => r matches Err(code) && code == 502,
        },
{
    let t: Option<Target> = match &pp.target {
        ProxyTarget::Addr { host, port } => {
            let mut addr: Vec<u8> = bytes::copy(host.as_slice());
            addr.push(58);
            bytes::push_decimal(&mut addr, *port as u64);
            assert(addr@ =~= host@ + seq![58u8] + bytes::decimal(*port as nat));
            Some(Target { addr, tls: pp.tls })
        },
        ProxyTarget::Unix(path) => {
            let mut addr: Vec<u8> = bytes::copy("unix:".as_bytes());
            addr.extend_from_slice(path.as_slice());
            Some(Target { addr, tls: false })
        },
        ProxyTarget::Dynamic(t) => {
            let s: Vec<u8> = ctx.render(t);
            dynamic_target(s.as_slice())
        },
        ProxyTarget::Upstream(_) => match peer {
            Some(a) => Some(Target { addr: peer_addr(a), tls: pp.tls }),
            None => None,
        },
    };
    match t {
        Some(x) => if x.tls {
            Err(502)
        } else {
            Ok(x.addr)
        },
        None => Err(502),
    }
}

// ---------------------------------------------------------------- the request

/// The URI sent upstream. With a URI of its own, `proxy_pass` replaces the matched
/// prefix, and what is behind it is kept; without one, the request's passes through
/// unchanged.
pub open spec fn passed_uri(c: CtxView, pp: ProxyPass, prefix: Option<Seq<u8>>) -> Seq<u8> {
    let path = match pp.uri {
        Some(t) => {
            let base = ctx::shown(c, t);
            match prefix {
                Some(p) => {
                    let rest = files::behind(c.uri, p.len() as int);
                    if base.len() > 0 && base.last() == 47 {
                        base + files::unslashed(rest)
                    } else {
                        base + rest
                    }
                },
                None => base,
            }
        },
        None => c.uri,
    };
    if c.args.len() > 0 {
        path + seq![63u8] + c.args
    } else {
        path
    }
}

/// Builds the URI sent upstream. `prefix` is the path the location matches as such.
pub fn upstream_uri(ctx: &Ctx, pp: &ProxyPass, prefix: &Option<Vec<u8>>) -> (r: Vec<u8>)
    ensures
        r@ == passed_uri(
            ctx@,
            *pp,
            match prefix {
                Some(p) => Some(p@),
                None => None,
            },
        ),
{
    let mut out: Vec<u8> = match &pp.uri {
        Some(t) => {
            let mut base: Vec<u8> = ctx.render(t);
            let slashed: bool = base.len() > 0 && base[base.len() - 1] == 47;
            if let Some(p) = prefix {
                let ghost before = base@;
                let n: usize = p.len();
                let u: &[u8] = ctx.uri.as_slice();
                if n >= u.len() || (u[n] >= 0x80 && u[n] < 0xc0) {
                    assert(files::behind(u@, n as int) =~= Seq::empty());
                    assert(files::unslashed(files::behind(u@, n as int)) =~= Seq::empty());
                } else if slashed {
                    base.extend_from_slice(files::unslash(&u[n..u.len()]));
                } else {
                    base.extend_from_slice(&u[n..u.len()]);
                }
                assert(base@ =~= before + if slashed {
                    files::unslashed(files::behind(u@, n as int))
                } else {
                    files::behind(u@, n as int)
                });
            }
            base
        },
        None => bytes::copy(ctx.uri.as_slice()),
    };
    if ctx.args.len() > 0 {
        let ghost path = out@;
        out.push(63);
        out.extend_from_slice(ctx.args.as_slice());
        assert(out@ =~= path + seq![63u8] + ctx@.args);
    }
    out
}

/// A header on the wire.
pub open spec fn line(name: Seq<u8>, v: Seq<u8>) -> Seq<u8> {
    name + bytes::utf8(": "@) + v + bytes::utf8("\r\n"@)
}

fn push_line(out: &mut Vec<u8>, name: &[u8], v: &[u8])
    ensures
        final(out)@ == old(out)@ + line(name@, v@),
{
    let mut l: Vec<u8> = bytes::copy(name);
    l.extend_from_slice(": ".as_bytes());
    l.extend_from_slice(v);
    l.extend_from_slice("\r\n".as_bytes());
    out.extend_from_slice(l.as_slice());
}

/// The first `n` headers that `proxy_set_header` sets. An empty value means that the
/// header is not sent at all.
pub open spec fn set_lines(c: CtxView, hs: Seq<SetDirective>, n: int) -> Seq<u8>
    decreases n,
{
    if n <= 0 {
        Seq::empty()
    } else {
        let v = ctx::shown(c, hs[n - 1].value);
        set_lines(c, hs, n - 1) + if v.len() > 0 {
            line(hs[n - 1].name@, v)
        } else {
            Seq::empty()
        }
    }
}

/// Whether one of the directives sets a header, from the `i`th on.
pub open spec fn sets(hs: Seq<SetDirective>, name: Seq<u8>, i: int) -> bool
    decreases hs.len() - i,
{
    if i < 0 || i >= hs.len() {
        false
    } else {
        bytes::same_name(hs[i].name@, name) || sets(hs, name, i + 1)
    }
}

fn is_set(hs: &Vec<SetDirective>, name: &[u8]) -> (r: bool)
    ensures
        r == sets(hs@, name@, 0),
{
    for i in 0..hs.len()
        invariant
            sets(hs@, name@, 0) == sets(hs@, name@, i as int),
    {
        if bytes::same_ignoring_case(hs[i].name.as_slice(), name) {
            return true;
        }
    }
    false
}

/// Whether a header is hidden, from the `i`th name on.
pub open spec fn hides(names: Seq<Vec<u8>>, name: Seq<u8>, i: int) -> bool
    decreases names.len() - i,
{
    if i < 0 || i >= names.len() {
        false
    } else {
        names[i]@ == bytes::lowered(name) || hides(names, name, i + 1)
    }
}

pub(crate) fn is_hidden(names: &Vec<Vec<u8>>, name: &[u8]) -> (r: bool)
    ensures
        r == hides(names@, name@, 0),
{
    let low: Vec<u8> = bytes::to_lowered(name);
    for i in 0..names.len()
        invariant
            low@ == bytes::lowered(name@),
            hides(names@, name@, 0) == hides(names@, name@, i as int),
    {
        if bytes::same(names[i].as_slice(), low.as_slice()) {
            return true;
        }
    }
    false
}

/// Whether a header of the client travels upstream: not one that describes this hop
/// or the body's framing, and none that is set or hidden.
pub open spec fn travels(conf: ProxyConf, name: Seq<u8>) -> bool {
    !(is_hop(name) || bytes::same_name(name, bytes::utf8("host"@)) || bytes::same_name(
        name,
        bytes::utf8("content-length"@),
    ) || bytes::same_name(name, bytes::utf8("expect"@)) || sets(conf.set_headers@, name, 0)
        || hides(conf.hide_headers@, name, 0))
}

fn is_passed(conf: &ProxyConf, name: &[u8]) -> (r: bool)
    ensures
        r == travels(*conf, name@),
{
    !(describes_hop(name) || bytes::is_name(name, "host") || bytes::is_name(name, "content-length")
        || bytes::is_name(name, "expect") || is_set(&conf.set_headers, name) || is_hidden(
        &conf.hide_headers,
        name,
    ))
}

/// The first `n` headers of the client that travel upstream.
pub open spec fn passed_lines(conf: ProxyConf, hs: Seq<http::Field>, n: int) -> Seq<u8>
    decreases n,
{
    if n <= 0 {
        Seq::empty()
    } else {
        passed_lines(conf, hs, n - 1) + if travels(conf, hs[n - 1].0) {
            line(hs[n - 1].0, hs[n - 1].1)
        } else {
            Seq::empty()
        }
    }
}

/// Whether the connection to the upstream is meant to be kept.
pub open spec fn keeps(conf: ProxyConf, keepalive: usize) -> bool {
    keepalive > 0 && conf.http_version_11
}

/// The head of the request sent upstream.
pub open spec fn request_bytes(
    c: CtxView,
    conf: ProxyConf,
    u: Seq<u8>,
    addr: Seq<u8>,
    keepalive: usize,
) -> Seq<u8> {
    let hs = http::fields(c.env.req.headers@);
    c.env.req.method@ + seq![32u8] + u + (if conf.http_version_11 {
        bytes::utf8(" HTTP/1.1\r\n"@)
    } else {
        bytes::utf8(" HTTP/1.0\r\n"@)
    }) + set_lines(c, conf.set_headers@, conf.set_headers@.len() as int) + (if sets(
        conf.set_headers@,
        bytes::utf8("host"@),
        0,
    ) {
        Seq::empty()
    } else {
        line(bytes::utf8("Host"@), host_for(addr))
    }) + passed_lines(conf, hs, hs.len() as int) + (if c.env.body@.len() > 0 {
        line(bytes::utf8("Content-Length"@), bytes::decimal(c.env.body@.len()))
    } else {
        Seq::empty()
    }) + (if keeps(conf, keepalive) {
        bytes::utf8("Connection: keep-alive\r\n\r\n"@)
    } else {
        bytes::utf8("Connection: close\r\n\r\n"@)
    })
}

fn push_set_lines(out: &mut Vec<u8>, ctx: &Ctx, hs: &Vec<SetDirective>)
    ensures
        final(out)@ == old(out)@ + set_lines(ctx@, hs@, hs@.len() as int),
{
    let ghost before = out@;
    for i in 0..hs.len()
        invariant
            out@ == before + set_lines(ctx@, hs@, i as int),
    {
        let v: Vec<u8> = ctx.render(&hs[i].value);
        if v.len() > 0 {
            push_line(out, hs[i].name.as_slice(), v.as_slice());
        }
        assert(out@ =~= before + set_lines(ctx@, hs@, i + 1));
    }
}

fn push_passed_lines(out: &mut Vec<u8>, conf: &ProxyConf, hs: &Vec<Header>)
    ensures
        final(out)@ == old(out)@ + passed_lines(*conf, http::fields(hs@), hs@.len() as int),
{
    let ghost before = out@;
    let ghost fs = http::fields(hs@);
    for i in 0..hs.len()
        invariant
            fs == http::fields(hs@),
            out@ == before + passed_lines(*conf, fs, i as int),
    {
        assert(fs[i as int] == http::field(hs@[i as int]));
        if is_passed(conf, hs[i].name.as_slice()) {
            push_line(out, hs[i].name.as_slice(), hs[i].value.as_slice());
        }
        assert(out@ =~= before + passed_lines(*conf, fs, i + 1));
    }
}

/// Builds the head of the request sent upstream. What `proxy_set_header` sets wins
/// over anything inherited from the client, and the decoded body's length replaces
/// whatever framing the client used.
pub fn request_head(
    ctx: &Ctx,
    conf: &ProxyConf,
    uri: &[u8],
    addr: &[u8],
    keepalive: usize,
) -> (r: Vec<u8>)
    ensures
        r@ == request_bytes(ctx@, *conf, uri@, addr@, keepalive),
{
    let mut head: Vec<u8> = bytes::copy(ctx.env.req.method.as_slice());
    let ghost a = head@;
    head.push(32);
    assert(head@ =~= a + seq![32u8]);
    head.extend_from_slice(uri);
    if conf.http_version_11 {
        head.extend_from_slice(" HTTP/1.1\r\n".as_bytes());
    } else {
        head.extend_from_slice(" HTTP/1.0\r\n".as_bytes());
    }
    push_set_lines(&mut head, ctx, &conf.set_headers);
    let ghost b = head@;
    if !is_set(&conf.set_headers, "host".as_bytes()) {
        push_line(&mut head, "Host".as_bytes(), host_of(addr));
    } else {
        assert(head@ =~= b + Seq::<u8>::empty());
    }
    push_passed_lines(&mut head, conf, &ctx.env.req.headers);
    let ghost d = head@;
    if ctx.env.body.len() > 0 {
        let mut n: Vec<u8> = Vec::new();
        bytes::push_decimal(&mut n, ctx.env.body.len() as u64);
        assert(n@ =~= bytes::decimal(ctx@.env.body@.len()));
        push_line(&mut head, "Content-Length".as_bytes(), n.as_slice());
    } else {
        assert(head@ =~= d + Seq::<u8>::empty());
    }
    if keepalive > 0 && conf.http_version_11 {
        head.extend_from_slice("Connection: keep-alive\r\n\r\n".as_bytes());
    } else {
        head.extend_from_slice("Connection: close\r\n\r\n".as_bytes());
    }
    head
}

/// No header that describes this hop travels upstream.
pub proof fn law_hop_headers_stay_here(conf: ProxyConf, name: Seq<u8>)
    requires
        is_hop(name),
    ensures
        !travels(conf, name),
{
}

/// What `proxy_set_header` sets is not also taken from the client.
pub proof fn law_set_headers_win(conf: ProxyConf, name: Seq<u8>)
    requires
        sets(conf.set_headers@, name, 0),
    ensures
        !travels(conf, name),
{
}

// ---------------------------------------------------------------- the response head

/// The most headers of an upstream's response that are read.
pub const MAX_UPSTREAM_HEADERS: usize = 96;

/// The most bytes of an upstream's response head that are read.
pub const MAX_UPSTREAM_HEAD: usize = 65536;

/// What the parser finds in a response head.
#[derive(Debug)]
pub struct HeadParts {
    /// How many bytes it takes.
    pub len: usize,
    pub code: Option<u16>,
    pub headers: Vec<(String, Vec<u8>)>,
}

/// What the parser makes of bytes.
#[derive(Debug)]
pub enum HeadParse {
    Complete(HeadParts),
    Partial,
    Invalid,
}

/// A response head as the parser finds it: its length, its status and its headers.
pub type PartsView = (int, Option<u16>, Seq<(Seq<char>, Seq<u8>)>);

/// Headers as plain values.
pub open spec fn raw_fields(hs: Seq<(String, Vec<u8>)>) -> Seq<(Seq<char>, Seq<u8>)> {
    hs.map_values(|h: (String, Vec<u8>)| (h.0@, h.1@))
}

/// What `httparse` makes of the bytes of a response head: nothing where they are
/// none, an inner nothing where more are needed.
pub uninterp spec fn parsed_response(buf: Seq<u8>) -> Option<Option<PartsView>>;

/// `httparse::Response::parse` with room for [`MAX_UPSTREAM_HEADERS`] headers: the
/// result depends on the bytes alone, and a head takes no more than there are.
#[verifier::external_body]
fn parse_response(buf: &[u8]) -> (r: HeadParse)
    ensures
        match r {
            HeadParse::Complete(p) => parsed_response(buf@) == Some(
                Some((p.len as int, p.code, raw_fields(p.headers@))),
            ) && p.len <= buf@.len(),
            HeadParse::Partial => parsed_response(buf@) == Some(None::<PartsView>),
            HeadParse::Invalid => parsed_response(buf@) is None,
        },
{
    let mut room = [httparse::EMPTY_HEADER; MAX_UPSTREAM_HEADERS];
    let mut r = httparse::Response::new(&mut room);
    match r.parse(buf) {
        Ok(httparse::Status::Complete(len)) => HeadParse::Complete(HeadParts {
            len,
            code: r.code,
            headers: r.headers.iter().map(|h| (h.name.to_string(), h.value.to_vec())).collect(),
        }),
        Ok(httparse::Status::Partial) => HeadParse::Partial,
        Err(_) => HeadParse::Invalid,
    }
}

/// What an upstream's response head says.
#[derive(Debug)]
pub struct UpHead {
    pub status: u16,
    /// The headers that are passed on.
    pub headers: Vec<(String, String)>,
    pub chunked: bool,
    pub length: Option<u64>,
    pub said_close: bool,
}

/// What a response head says, as plain values.
#[verifier::ext_equal]
pub ghost struct UpHeadView {
    pub status: u16,
    pub headers: Seq<http::Field>,
    pub chunked: bool,
    pub length: Option<u64>,
    pub said_close: bool,
}

/// Headers as plain values.
pub open spec fn text_fields(hs: Seq<(String, String)>) -> Seq<http::Field> {
    hs.map_values(|h: (String, String)| (bytes::utf8(h.0@), bytes::utf8(h.1@)))
}

impl View for UpHead {
    type V = UpHeadView;

    open spec fn view(&self) -> UpHeadView {
        UpHeadView {
            status: self.status,
            headers: text_fields(self.headers@),
            chunked: self.chunked,
            length: self.length,
            said_close: self.said_close,
        }
    }
}

/// What one more header says.
pub open spec fn with_field(h: UpHeadView, conf: ProxyConf, f: (Seq<char>, Seq<u8>)) -> UpHeadView {
    let name = bytes::utf8(f.0);
    let v = bytes::utf8(text::lossy(f.1));
    if bytes::same_name(name, bytes::utf8("transfer-encoding"@)) {
        UpHeadView { chunked: bytes::same_name(v, bytes::utf8("chunked"@)), ..h }
    } else if bytes::same_name(name, bytes::utf8("content-length"@)) {
        UpHeadView {
            length: match bytes::unsigned_within(bytes::trimmed(v), u64::MAX as nat) {
                Some(n) => Some(n as u64),
                None => None,
            },
            ..h
        }
    } else if bytes::same_name(name, bytes::utf8("connection"@)) {
        UpHeadView { said_close: bytes::same_name(v, bytes::utf8("close"@)), ..h }
    } else if is_hop(name) || hides(conf.hide_headers@, name, 0) {
        h
    } else {
        UpHeadView { headers: h.headers.push((name, v)), ..h }
    }
}

/// What the first `n` headers of a response say.
pub open spec fn head_of(
    status: u16,
    conf: ProxyConf,
    fs: Seq<(Seq<char>, Seq<u8>)>,
    n: int,
) -> UpHeadView
    decreases n,
{
    if n <= 0 {
        UpHeadView {
            status,
            headers: Seq::empty(),
            chunked: false,
            length: None,
            said_close: false,
        }
    } else {
        with_field(head_of(status, conf, fs, n - 1), conf, fs[n - 1])
    }
}

/// The status of a response; one that has none counts as 502.
pub open spec fn status_of(code: Option<u16>) -> u16 {
    match code {
        Some(c) => if c == 0 {
            502
        } else {
            c
        },
        None => 502,
    }
}

/// Reads what a parsed response head says.
pub fn read_parts(p: &HeadParts, conf: &ProxyConf) -> (r: UpHead)
    ensures
        r@ == head_of(
            status_of(p.code),
            *conf,
            raw_fields(p.headers@),
            p.headers@.len() as int,
        ),
{
    let status: u16 = match p.code {
        Some(c) => if c == 0 {
            502
        } else {
            c
        },
        None => 502,
    };
    let mut h = UpHead {
        status,
        headers: Vec::new(),
        chunked: false,
        length: None,
        said_close: false,
    };
    let ghost fs = raw_fields(p.headers@);
    assert(text_fields(h.headers@) =~= Seq::empty());
    for i in 0..p.headers.len()
        invariant
            fs == raw_fields(p.headers@),
            status == status_of(p.code),
            h@ == head_of(status, *conf, fs, i as int),
    {
        let ghost before = h@;
        assert(fs[i as int] == (p.headers@[i as int].0@, p.headers@[i as int].1@));
        let name: &str = p.headers[i].0.as_str();
        let n: &[u8] = name.as_bytes();
        let value: String = text::decode_lossy(p.headers[i].1.as_slice());
        let v: &[u8] = value.as_str().as_bytes();
        if bytes::is_name(n, "transfer-encoding") {
            h.chunked = bytes::is_name(v, "chunked");
        } else if bytes::is_name(n, "content-length") {
            h.length = bytes::parse_unsigned(bytes::trim(v), u64::MAX);
        } else if bytes::is_name(n, "connection") {
            h.said_close = bytes::is_name(v, "close");
        } else if !(describes_hop(n) || is_hidden(&conf.hide_headers, n)) {
            let ghost listed = h.headers@;
            h.headers.push((name.to_owned(), value));
            assert(text_fields(h.headers@) =~= text_fields(listed).push(
                (bytes::utf8(name@), bytes::utf8(value@)),
            ));
        }
        assert(h@ =~= with_field(before, *conf, fs[i as int]));
    }
    h
}

/// What reading a response head came to.
#[derive(Debug)]
pub enum HeadRead {
    /// The head, and where it ends.
    Complete(UpHead, usize),
    More,
    TooLarge,
    Invalid,
}

/// Reads the head of an upstream's response out of what arrived so far.
pub fn read_head(buf: &[u8], conf: &ProxyConf) -> (r: HeadRead)
    ensures
        match parsed_response(buf@) {
            None => r is Invalid,
            Some(None) => if buf@.len() > MAX_UPSTREAM_HEAD {
                r is TooLarge
            } else {
                r is More
            },
            Some(Some((len, code, fs))) => r matches HeadRead::Complete(h, n) && n == len && n
                <= buf@.len() && h@ == head_of(status_of(code), *conf, fs, fs.len() as int),
        },
{
    match parse_response(buf) {
        HeadParse::Complete(p) => {
            let h: UpHead = read_parts(&p, conf);
            HeadRead::Complete(h, p.len)
        },
        HeadParse::Partial => if buf.len() > MAX_UPSTREAM_HEAD {
            HeadRead::TooLarge
        } else {
            HeadRead::More
        },
        HeadParse::Invalid => HeadRead::Invalid,
    }
}

proof fn lemma_head_fields(status: u16, conf: ProxyConf, fs: Seq<(Seq<char>, Seq<u8>)>, n: int, k: int)
    requires
        0 <= n <= fs.len(),
        0 <= k < head_of(status, conf, fs, n).headers.len(),
    ensures
        !is_hop(head_of(status, conf, fs, n).headers[k].0),
        !hides(conf.hide_headers@, head_of(status, conf, fs, n).headers[k].0, 0),
    decreases n,
{
    if n > 0 {
        let before = head_of(status, conf, fs, n - 1);
        if k < before.headers.len() {
            lemma_head_fields(status, conf, fs, n - 1, k);
        }
    }
}

/// No header that describes the upstream's hop, and none that is hidden, is passed on
/// to the client.
pub proof fn law_upstream_hop_headers_stop_here(
    status: u16,
    conf: ProxyConf,
    fs: Seq<(Seq<char>, Seq<u8>)>,
    k: int,
)
    requires
        0 <= k < head_of(status, conf, fs, fs.len() as int).headers.len(),
    ensures
        !is_hop(head_of(status, conf, fs, fs.len() as int).headers[k].0),
        !hides(
            conf.hide_headers@,
            head_of(status, conf, fs, fs.len() as int).headers[k].0,
            0,
        ),
{
    lemma_head_fields(status, conf, fs, fs.len() as int, k);
}

// ---------------------------------------------------------------- the reply

/// A reply, and what becomes of the connection to the upstream.
#[derive(Debug)]
pub struct Responded<M, F, S> {
    pub reply: Reply<M, F, S>,
    /// The connection, where it stands at a clean boundary and is to be pooled.
    pub back: Option<S>,
    /// Whether the body is complete, so that it can be stored.
    pub whole: bool,
}

/// The head passed on to the client.
pub open spec fn passed_head(h: UpHeadView, framing: Framing, keep_alive: bool) -> RespView {
    RespView { status: h.status, headers: h.headers, framing, keep_alive }
}

fn pass_head(h: &UpHead) -> (r: Resp)
    ensures
        r@ == passed_head(h@, Framing::Absent, true),
{
    let mut resp = Resp::new(h.status);
    for i in 0..h.headers.len()
        invariant
            resp@ == (RespView {
                headers: text_fields(h.headers@).subrange(0, i as int),
                ..http::bare(h.status)
            }),
    {
        resp.header_bytes(h.headers[i].0.as_str().as_bytes(), h.headers[i].1.as_str().as_bytes());
        assert(resp@.headers =~= text_fields(h.headers@).subrange(0, i + 1));
    }
    assert(resp@.headers =~= text_fields(h.headers@));
    resp
}

/// How the client is told where the body ends: as the upstream told it.
pub open spec fn framing_for(h: UpHeadView) -> Framing {
    if h.chunked {
        Framing::Chunked
    } else {
        match h.length {
            Some(n) => Framing::Length(n),
            None => Framing::UntilClose,
        }
    }
}

/// Whether a body ends only when the upstream closes.
pub open spec fn ends_with_close(h: UpHeadView) -> bool {
    !h.chunked && h.length is None
}

/// The length of a body that is still arriving, where it is known.
pub open spec fn streamed_len(h: UpHeadView) -> Option<u64> {
    if h.chunked {
        None
    } else {
        h.length
    }
}

/// Whether a body has arrived in full with the head.
pub open spec fn is_whole(h: UpHeadView, arrived: nat) -> bool {
    !h.chunked && (h.length matches Some(n) && n <= arrived)
}

/// Whether the connection is to be pooled.
pub open spec fn goes_back(h: UpHeadView, arrived: nat, want_keepalive: bool) -> bool {
    is_whole(h, arrived) && want_keepalive && !h.said_close
}

/// Makes the reply. `pre` is whatever of the body already arrived with the head, and
/// `io` supplies the rest. A chunked body passes through byte for byte; one without a
/// length ends when the upstream closes, so our own response must close too. Only a
/// connection whose body arrived in full is ever pooled.
pub fn respond<M, F, S>(h: &UpHead, pre: Vec<u8>, io: S, want_keepalive: bool) -> (r: Responded<
    M,
    F,
    S,
>)
    ensures
        r.reply.resp@ == passed_head(h@, framing_for(h@), !ends_with_close(h@)),
        r.reply.body == if is_whole(h@, pre@.len()) {
            Body::<M, F, S>::Bytes(pre)
        } else {
            Body::<M, F, S>::Stream { pre, io, len: streamed_len(h@) }
        },
        r.whole == is_whole(h@, pre@.len()),
        r.back == if goes_back(h@, pre@.len(), want_keepalive) {
            Some(io)
        } else {
            None
        },
{
    let mut resp: Resp = pass_head(h);
    if h.chunked {
        resp.framing = Framing::Chunked;
        return Responded {
            reply: Reply { resp, body: Body::Stream { pre, io, len: None } },
            back: None,
            whole: false,
        };
    }
    match h.length {
        Some(n) => {
            resp.framing = Framing::Length(n);
            if n <= pre.len() as u64 {
                let back: Option<S> = if want_keepalive && !h.said_close {
                    Some(io)
                } else {
                    None
                };
                Responded { reply: Reply { resp, body: Body::Bytes(pre) }, back, whole: true }
            } else {
                Responded {
                    reply: Reply { resp, body: Body::Stream { pre, io, len: Some(n) } },
                    back: None,
                    whole: false,
                }
            }
        },
        None => {
            resp.framing = Framing::UntilClose;
            resp.keep_alive = false;
            Responded {
                reply: Reply { resp, body: Body::Stream { pre, io, len: None } },
                back: None,
                whole: false,
            }
        },
    }
}

// ---------------------------------------------------------------- caching

/// Whether text counts as true: not empty and not `0`.
pub open spec fn is_true(s: Seq<u8>) -> bool {
    s.len() > 0 && s != seq![48u8]
}

fn truthy(s: &[u8]) -> (r: bool)
    ensures
        r == is_true(s@),
{
    let zero: bool = s.len() == 1 && s[0] == 48;
    assert(zero == (s@ =~= seq![48u8]));
    s.len() > 0 && !zero
}

/// Whether one of the templates counts as true, from the `i`th on.
pub open spec fn any_true(c: CtxView, ts: Seq<Template>, i: int) -> bool
    decreases ts.len() - i,
{
    if i < 0 || i >= ts.len() {
        false
    } else {
        is_true(ctx::shown(c, ts[i])) || any_true(c, ts, i + 1)
    }
}

fn any_truthy(ctx: &Ctx, ts: &Vec<Template>) -> (r: bool)
    ensures
        r == any_true(ctx@, ts@, 0),
{
    for i in 0..ts.len()
        invariant
            any_true(ctx@, ts@, 0) == any_true(ctx@, ts@, i as int),
    {
        let s: Vec<u8> = ctx.render(&ts[i]);
        if truthy(s.as_slice()) {
            return true;
        }
    }
    false
}

/// Whether a method is cached, from the `i`th on.
pub open spec fn is_cached_method(ms: Seq<Vec<u8>>, method: Seq<u8>, i: int) -> bool
    decreases ms.len() - i,
{
    if i < 0 || i >= ms.len() {
        false
    } else {
        ms[i]@ == method || is_cached_method(ms, method, i + 1)
    }
}

/// Everything the cache needs for one request.
#[derive(Debug)]
pub struct CacheCtx {
    pub key: String,
    pub hash: KeyHash,
    /// The lookup is skipped, but storing is still allowed.
    pub bypassed: bool,
}

/// Resolves what the cache needs, or nothing where this request's method is not
/// cached.
pub fn cache_context(ctx: &Ctx, conf: &ProxyCacheConf) -> (r: Option<CacheCtx>)
    ensures
        match r {
            Some(cc) => is_cached_method(conf.methods@, ctx@.env.req.method@, 0) && cc.key@
                == text::lossy(ctx::shown(ctx@, conf.key)) && cc.hash.0 == cache::fnv(
                bytes::utf8(cc.key@),
            ) && cc.hash.1 == cache::fnv_rotated(bytes::utf8(cc.key@)) && cc.bypassed == any_true(
                ctx@,
                conf.bypass@,
                0,
            ),
            None => !is_cached_method(conf.methods@, ctx@.env.req.method@, 0),
        },
{
    let method: &[u8] = ctx.env.req.method.as_slice();
    for i in 0..conf.methods.len()
        invariant
            method@ == ctx@.env.req.method@,
            is_cached_method(conf.methods@, method@, 0) == is_cached_method(
                conf.methods@,
                method@,
                i as int,
            ),
    {
        if bytes::same(conf.methods[i].as_slice(), method) {
            let rendered: Vec<u8> = ctx.render(&conf.key);
            let key: String = text::decode_lossy(rendered.as_slice());
            let hash: KeyHash = KeyHash::of(key.as_str());
            let bypassed: bool = any_truthy(ctx, &conf.bypass);
            return Some(CacheCtx { key, hash, bypassed });
        }
    }
    None
}

/// The place of the first `proxy_cache_valid` for a status, from the `i`th on, or the
/// length.
pub open spec fn valid_place(vs: Seq<CacheValid>, status: u16, i: int) -> int
    decreases vs.len() - i,
{
    if i < 0 || i >= vs.len() {
        vs.len() as int
    } else if vs[i].codes@.contains(status) {
        i
    } else {
        valid_place(vs, status, i + 1)
    }
}

/// The place of the first `proxy_cache_valid` for all statuses, from the `i`th on, or
/// the length.
pub open spec fn any_valid_place(vs: Seq<CacheValid>, i: int) -> int
    decreases vs.len() - i,
{
    if i < 0 || i >= vs.len() {
        vs.len() as int
    } else if vs[i].codes@.len() == 0 {
        i
    } else {
        any_valid_place(vs, i + 1)
    }
}

/// How long a response may be cached. `proxy_no_cache` wins over everything; a URL
/// asked for too rarely does not earn a disk write; a status of its own comes before
/// the entry for all of them.
pub open spec fn ttl_for(c: CtxView, conf: ProxyCacheConf, status: u16, uses: u32) -> Option<u64> {
    let vs = conf.valid@;
    let own = valid_place(vs, status, 0);
    let any = any_valid_place(vs, 0);
    if any_true(c, conf.no_cache@, 0) || (conf.min_uses > 1 && uses < conf.min_uses) {
        None
    } else if 0 <= own < vs.len() {
        Some(vs[own].ttl)
    } else if 0 <= any < vs.len() {
        Some(vs[any].ttl)
    } else {
        None
    }
}

/// Whether the use of a key is counted before its response may be stored.
pub fn counts_use(ctx: &Ctx, conf: &ProxyCacheConf) -> (r: bool)
    ensures
        r == (!any_true(ctx@, conf.no_cache@, 0) && conf.min_uses > 1),
{
    !any_truthy(ctx, &conf.no_cache) && conf.min_uses > 1
}

/// Decides how long a response may be cached. `uses` is how often its key was used.
pub fn cacheable_ttl(ctx: &Ctx, conf: &ProxyCacheConf, status: u16, uses: u32) -> (r: Option<u64>)
    ensures
        r == ttl_for(ctx@, *conf, status, uses),
{
    if any_truthy(ctx, &conf.no_cache) {
        return None;
    }
    if conf.min_uses > 1 && uses < conf.min_uses {
        return None;
    }
    let vs: &Vec<CacheValid> = &conf.valid;
    for i in 0..vs.len()
        invariant
            vs@ == conf.valid@,
            !any_true(ctx@, conf.no_cache@, 0),
            !(conf.min_uses > 1 && uses < conf.min_uses),
            valid_place(vs@, status, 0) == valid_place(vs@, status, i as int),
    {
        if has_code(&vs[i].codes, status) {
            return Some(vs[i].ttl);
        }
    }
    for i in 0..vs.len()
        invariant
            vs@ == conf.valid@,
            !any_true(ctx@, conf.no_cache@, 0),
            !(conf.min_uses > 1 && uses < conf.min_uses),
            valid_place(vs@, status, 0) == vs@.len(),
            any_valid_place(vs@, 0) == any_valid_place(vs@, i as int),
    {
        if vs[i].codes.len() == 0 {
            return Some(vs[i].ttl);
        }
    }
    None
}

fn has_code(codes: &Vec<u16>, code: u16) -> (r: bool)
    ensures
        r == codes@.contains(code),
{
    for i in 0..codes.len()
        invariant
            forall|k: int| 0 <= k < i ==> codes@[k] != code,
    {
        if codes[i] == code {
            return true;
        }
    }
    false
}

/// The first `n` headers of a cached response that are sent: framing is decided from
/// the body at hand.
pub open spec fn cached_fields(hs: Seq<http::Field>, n: int) -> Seq<http::Field>
    decreases n,
{
    if n <= 0 {
        Seq::empty()
    } else if bytes::same_name(hs[n - 1].0, bytes::utf8("content-length"@)) || bytes::same_name(
        hs[n - 1].0,
        bytes::utf8("transfer-encoding"@),
    ) {
        cached_fields(hs, n - 1)
    } else {
        cached_fields(hs, n - 1).push(hs[n - 1])
    }
}

/// The response that a cache entry stands for.
pub open spec fn cached_page(d: DecodedView) -> PageView {
    PageView {
        resp: RespView {
            headers: cached_fields(d.headers, d.headers.len() as int),
            framing: Framing::Length(d.body.len() as u64),
            ..http::bare(d.status as u16)
        },
        body: Some(d.body),
    }
}

/// Builds a response from a cache entry.
pub fn cached_reply(entry: Decoded) -> (r: Page)
    ensures
        r@ == cached_page(entry@),
{
    assert(text_fields(entry.headers@) =~= entry@.headers);
    let mut resp = Resp::new(entry.status);
    let ghost fs = text_fields(entry.headers@);
    for i in 0..entry.headers.len()
        invariant
            fs == text_fields(entry.headers@),
            resp@ == (RespView {
                headers: cached_fields(fs, i as int),
                ..http::bare(entry.status)
            }),
    {
        let n: &[u8] = entry.headers[i].0.as_str().as_bytes();
        assert(fs[i as int] == (
            bytes::utf8(entry.headers@[i as int].0@),
            bytes::utf8(entry.headers@[i as int].1@),
        ));
        if !(bytes::is_name(n, "content-length") || bytes::is_name(n, "transfer-encoding")) {
            resp.header_bytes(n, entry.headers[i].1.as_str().as_bytes());
        }
    }
    resp.framing = Framing::Length(entry.body.len() as u64);
    Page { resp, body: Some(entry.body) }
}

/// The bytes stored of a response, from one moment to another.
pub open spec fn stored(key: Seq<u8>, h: UpHeadView, body: Seq<u8>, now: nat, expires: nat) -> Seq<
    u8,
> {
    cache::entry_bytes(
        key,
        h.status as nat,
        now,
        expires,
        cache::header_block(h.headers, 0),
        body,
    )
}

/// The entry to store of a response, if any: only one whose body arrived in full, for as
/// long as it may be kept.
pub fn entry_for<M, F, S>(
    cc: &CacheCtx,
    h: &UpHead,
    done: &Responded<M, F, S>,
    ttl: Option<u64>,
    now: u64,
) -> (r: Option<Vec<u8>>)
    requires
        ttl matches Some(t) ==> now + t <= u64::MAX,
    ensures
        match (ttl, done.reply.body) {
            (Some(t), Body::Bytes(b)) => if done.whole {
                r matches Some(e) && e@ == stored(
                    bytes::utf8(cc.key@),
                    h@,
                    b@,
                    now as nat,
                    (now + t) as nat,
                )
            } else {
                r is None
            },
            _ => r is None,
        },
{
    assert(text_fields(h.headers@) =~= cache::header_bytes(h.headers@));
    match (ttl, &done.reply.body) {
        (Some(t), Body::Bytes(b)) => if done.whole {
            Some(
                cache::encode_entry(
                    cc.key.as_str(),
                    h.status,
                    h.headers.as_slice(),
                    b.as_slice(),
                    t,
                    now,
                ),
            )
        } else {
            None
        },
        _ => None,
    }
}

/// What the cache gives back of a response is that response: its status, its body, and
/// its headers but for those of its framing.
pub proof fn law_a_stored_response_comes_back(
    key: Seq<u8>,
    h: UpHeadView,
    body: Seq<u8>,
    now: nat,
    expires: nat,
)
    requires
        cache::fits(key, h.status as nat, now, expires, cache::header_block(h.headers, 0), body),
        forall|j: int| 0 <= j < h.headers.len() ==> cache::is_storable(#[trigger] h.headers[j]),
    ensures
        cache::entry_of(stored(key, h, body, now, expires), key) matches Ok(d) && d.expires
            == expires && cached_page(d) == (PageView {
            resp: RespView {
                headers: cached_fields(h.headers, h.headers.len() as int),
                framing: Framing::Length(body.len() as u64),
                ..http::bare(h.status)
            },
            body: Some(body),
        }),
{
    cache::law_entry_round_trips(key, h.status as nat, now, expires, h.headers, body);
}

// ---------------------------------------------------------------- the course of a request

/// What waiting for another request's fetch leads to.
#[derive(Debug, Clone, Copy, PartialEq, Eq, Structural)]
pub enum WaitStep {
    /// Sleep a moment and look again.
    Sleep,
    /// The holder finished: the entry should be there now.
    Load,
    /// Fetch it ourselves.
    GiveUp,
}

/// How long to sleep between two looks, in milliseconds.
pub const POLL_MS: u64 = 10;

/// Decides what waiting for another request's fetch leads to. A slow refresh must
/// not turn into a failed request.
pub fn wait_step(now_ms: u64, deadline_ms: u64, locked: bool) -> (r: WaitStep)
    ensures
        r == if !locked {
            WaitStep::Load
        } else if now_ms < deadline_ms {
            WaitStep::Sleep
        } else {
            WaitStep::GiveUp
        },
{
    if !locked {
        WaitStep::Load
    } else if now_ms < deadline_ms {
        WaitStep::Sleep
    } else {
        WaitStep::GiveUp
    }
}

/// What a proxied request is served under.
#[derive(Debug)]
pub struct ProxyRules {
    /// Whether the request is cached at all.
    pub cached: bool,
    pub bypassed: bool,
    pub lock: bool,
    pub use_stale: Vec<StaleWhen>,
    pub has_body: bool,
    /// The outcomes of `proxy_next_upstream`.
    pub next_upstream: Vec<NextWhen>,
    /// `proxy_next_upstream_tries`: how many peers may be tried, zero for all of them.
    pub next_tries: u32,
    /// `proxy_next_upstream_timeout`: for how long another peer may be tried, zero for
    /// without end.
    pub next_timeout_ms: u64,
    /// Whether the request may be made more than once.
    pub may_repeat: bool,
    /// How many peers of the group are in service; one where there is no group.
    pub peers: u32,
}

/// An outcome of an attempt after which another peer may be tried.
#[derive(Debug, Clone, Copy, PartialEq, Eq, Structural)]
pub enum NextWhen {
    Error,
    Timeout,
    InvalidHeader,
    Status(u16),
}

/// Whether a request of a method may be made again though the first attempt might have
/// succeeded: one that changes nothing more when it is repeated, or where
/// `non_idempotent` says so.
pub fn may_repeat(method: &[u8], non_idempotent: bool) -> (r: bool)
    ensures
        r == (non_idempotent || !(method@ == bytes::utf8("POST"@) || method@ == bytes::utf8(
            "LOCK"@,
        ) || method@ == bytes::utf8("PATCH"@))),
{
    non_idempotent || !(bytes::is_text(method, "POST") || bytes::is_text(method, "LOCK")
        || bytes::is_text(method, "PATCH"))
}

fn lists(all: &Vec<NextWhen>, when: NextWhen) -> (r: bool)
    ensures
        r == all@.contains(when),
{
    for i in 0..all.len()
        invariant
            forall|j: int| 0 <= j < i ==> all@[j] != when,
    {
        if all[i] == when {
            return true;
        }
    }
    false
}

/// Where a proxied request is.
#[derive(Debug, Clone, Copy, PartialEq, Eq, Structural)]
pub enum ProxyPhase {
    Lookup,
    Locking,
    Waiting,
    Connecting,
    SendingHead,
    SendingBody,
    ReadingHead,
    Ended,
}

/// A proxied request.
#[derive(Debug, Clone, Copy, PartialEq, Eq, Structural)]
pub struct ProxyRun {
    pub phase: ProxyPhase,
    /// Whether an expired entry is at hand.
    pub has_stale: bool,
    /// Whether the connection comes from the pool.
    pub reused: bool,
    pub cache_status: Option<CacheStatus>,
    /// How many peers were tried and given up.
    pub tried: u32,
    /// The status of the head that the peer sent, once it is complete.
    pub upstream_status: Option<u16>,
}

/// What happened to a proxied request.
#[derive(Debug, Clone, Copy, PartialEq, Eq, Structural)]
pub enum ProxyEvent {
    /// The cache was looked at: fresh, expired or nothing.
    Loaded(Option<CacheStatus>),
    /// Whether the fetch lock was obtained.
    Locked(bool),
    /// Whether waiting for another request's fetch gave a fresh entry.
    Waited(bool),
    /// A connection is there; whether it comes from the pool.
    Connected(bool),
    ConnectFailed,
    ConnectTimedOut,
    /// Whether what was to be sent could be sent.
    Sent(bool),
    /// The upstream closed or the read failed; whether nothing had arrived before.
    ReadFailed { nothing_yet: bool },
    ReadTimedOut,
    /// More of the head is needed.
    HeadPartial,
    HeadTooLarge,
    HeadInvalid,
    /// The head arrived, with this status.
    HeadComplete(u16),
}

/// What to do with a proxied request.
#[derive(Debug, Clone, Copy, PartialEq, Eq, Structural)]
pub enum ProxyAction {
    Load,
    Lock,
    Wait,
    Connect,
    /// Give the peer up, and connect to another one; whether to hold a failure against
    /// the first.
    Retry { failure: bool },
    SendHead,
    SendBody,
    Read,
    /// Answer with the fresh entry.
    ServeFresh,
    /// Answer with the expired entry; whether to hold a failure against the peer.
    ServeStale { failure: bool },
    /// Answer with an error; whether to hold a failure against the peer.
    Fail { status: u16, failure: bool },
    /// Answer with what the upstream sent.
    Respond,
}

/// Whether the expired entry may answer an outcome.
pub open spec fn stale_answers(run: ProxyRun, rules: ProxyRules, outcome: StaleWhen) -> bool {
    rules.cached && run.has_stale && rules.use_stale@.contains(outcome)
}

/// Whether another peer may be tried after an outcome, this long after the request came.
pub open spec fn tries_another(run: ProxyRun, rules: ProxyRules, when: NextWhen, elapsed_ms: u64) -> bool {
    &&& rules.next_upstream@.contains(when)
    &&& rules.may_repeat
    &&& run.tried + 1 < rules.peers
    &&& rules.next_tries == 0 || run.tried + 1 < rules.next_tries
    &&& rules.next_timeout_ms == 0 || elapsed_ms < rules.next_timeout_ms
}

/// A request that goes to another peer.
pub open spec fn retried(run: ProxyRun, failure: bool) -> (ProxyRun, ProxyAction) {
    (
        ProxyRun {
            phase: ProxyPhase::Connecting,
            tried: (run.tried + 1) as u32,
            reused: false,
            ..run
        },
        ProxyAction::Retry { failure },
    )
}

/// What ends an attempt.
pub ghost struct Failing {
    pub when: NextWhen,
    /// What an expired entry would have to be allowed for.
    pub outcome: Option<StaleWhen>,
    pub status: u16,
    /// Whether it is held against the peer.
    pub failure: bool,
}

/// The end of an attempt: another peer is tried, or the expired entry answers, or an
/// error does.
pub open spec fn failed(run: ProxyRun, rules: ProxyRules, f: Failing, elapsed_ms: u64) -> (
    ProxyRun,
    ProxyAction,
) {
    let ended = ProxyRun { phase: ProxyPhase::Ended, ..run };
    let error = (ended, ProxyAction::Fail { status: f.status, failure: f.failure });
    if tries_another(run, rules, f.when, elapsed_ms) {
        retried(run, f.failure)
    } else {
        match f.outcome {
            Some(o) => if stale_answers(run, rules, o) {
                (
                    ProxyRun { cache_status: Some(CacheStatus::Stale), ..ended },
                    ProxyAction::ServeStale { failure: f.failure },
                )
            } else {
                error
            },
            None => error,
        }
    }
}

/// What follows what happened to a proxied request.
pub open spec fn proxied(run: ProxyRun, rules: ProxyRules, e: ProxyEvent, elapsed_ms: u64) -> (
    ProxyRun,
    ProxyAction,
) {
    let ended = ProxyRun { phase: ProxyPhase::Ended, ..run };
    let connecting = ProxyRun { phase: ProxyPhase::Connecting, ..run };
    match (run.phase, e) {
        (ProxyPhase::Lookup, ProxyEvent::Loaded(found)) => match found {
            Some(CacheStatus::Hit) => (
                ProxyRun { cache_status: Some(CacheStatus::Hit), ..ended },
                ProxyAction::ServeFresh,
            ),
            _ => {
                let looked = ProxyRun {
                    has_stale: found is Some,
                    cache_status: Some(
                        if found is Some {
                            CacheStatus::Expired
                        } else {
                            CacheStatus::Miss
                        },
                    ),
                    ..run
                };
                if rules.lock {
                    (ProxyRun { phase: ProxyPhase::Locking, ..looked }, ProxyAction::Lock)
                } else {
                    (ProxyRun { phase: ProxyPhase::Connecting, ..looked }, ProxyAction::Connect)
                }
            },
        },
        (ProxyPhase::Locking, ProxyEvent::Locked(ours)) => if ours {
            (connecting, ProxyAction::Connect)
        } else if stale_answers(run, rules, StaleWhen::Updating) {
            (
                ProxyRun { cache_status: Some(CacheStatus::Stale), ..ended },
                ProxyAction::ServeStale { failure: false },
            )
        } else {
            (ProxyRun { phase: ProxyPhase::Waiting, ..run }, ProxyAction::Wait)
        },
        (ProxyPhase::Waiting, ProxyEvent::Waited(fresh)) => if fresh {
            (
                ProxyRun { cache_status: Some(CacheStatus::Hit), ..ended },
                ProxyAction::ServeFresh,
            )
        } else {
            (connecting, ProxyAction::Connect)
        },
        (ProxyPhase::Connecting, ProxyEvent::Connected(reused)) => (
            ProxyRun { phase: ProxyPhase::SendingHead, reused, upstream_status: None, ..run },
            ProxyAction::SendHead,
        ),
        (ProxyPhase::Connecting, ProxyEvent::ConnectFailed) => failed(
            run,
            rules,
            Failing {
                when: NextWhen::Error,
                outcome: Some(StaleWhen::Error),
                status: 502,
                failure: true,
            },
            elapsed_ms,
        ),
        (ProxyPhase::Connecting, ProxyEvent::ConnectTimedOut) => failed(
            run,
            rules,
            Failing {
                when: NextWhen::Timeout,
                outcome: Some(StaleWhen::Error),
                status: 502,
                failure: true,
            },
            elapsed_ms,
        ),
        (ProxyPhase::SendingHead, ProxyEvent::Sent(ok)) => if !ok {
            // A reused connection that died is our bookkeeping, not the peer's fault.
            failed(
                run,
                rules,
                Failing {
                    when: NextWhen::Error,
                    outcome: None,
                    status: 502,
                    failure: !run.reused,
                },
                elapsed_ms,
            )
        } else if rules.has_body {
            (ProxyRun { phase: ProxyPhase::SendingBody, ..run }, ProxyAction::SendBody)
        } else {
            (ProxyRun { phase: ProxyPhase::ReadingHead, ..run }, ProxyAction::Read)
        },
        (ProxyPhase::SendingBody, ProxyEvent::Sent(ok)) => if !ok {
            failed(
                run,
                rules,
                Failing { when: NextWhen::Error, outcome: None, status: 502, failure: true },
                elapsed_ms,
            )
        } else {
            (ProxyRun { phase: ProxyPhase::ReadingHead, ..run }, ProxyAction::Read)
        },
        (ProxyPhase::ReadingHead, ProxyEvent::ReadFailed { nothing_yet }) => failed(
            run,
            rules,
            Failing {
                when: NextWhen::Error,
                outcome: Some(StaleWhen::Error),
                status: 502,
                failure: !(run.reused && nothing_yet),
            },
            elapsed_ms,
        ),
        (ProxyPhase::ReadingHead, ProxyEvent::ReadTimedOut) => failed(
            run,
            rules,
            Failing {
                when: NextWhen::Timeout,
                outcome: Some(StaleWhen::Timeout),
                status: 504,
                failure: true,
            },
            elapsed_ms,
        ),
        (ProxyPhase::ReadingHead, ProxyEvent::HeadPartial) => (run, ProxyAction::Read),
        (ProxyPhase::ReadingHead, ProxyEvent::HeadTooLarge) => failed(
            run,
            rules,
            Failing {
                when: NextWhen::InvalidHeader,
                outcome: None,
                status: 502,
                failure: true,
            },
            elapsed_ms,
        ),
        (ProxyPhase::ReadingHead, ProxyEvent::HeadInvalid) => failed(
            run,
            rules,
            Failing {
                when: NextWhen::InvalidHeader,
                outcome: Some(StaleWhen::InvalidHeader),
                status: 502,
                failure: true,
            },
            elapsed_ms,
        ),
        (ProxyPhase::ReadingHead, ProxyEvent::HeadComplete(status)) => {
            let known = ProxyRun { upstream_status: Some(status), ..run };
            let answered = ProxyRun { phase: ProxyPhase::Ended, ..known };
            if status == 101 {
                // What follows is no response: a client that speaks HTTP must not be wired
                // to a peer that no longer does.
                (answered, ProxyAction::Fail { status: 502, failure: false })
            } else if tries_another(run, rules, NextWhen::Status(status), elapsed_ms) {
                // An error of the server's own is one of the peer's failures here.
                retried(known, status >= 500)
            } else if status >= 400 && stale_answers(run, rules, StaleWhen::Status(status)) {
                (
                    ProxyRun { cache_status: Some(CacheStatus::Stale), ..answered },
                    ProxyAction::ServeStale { failure: false },
                )
            } else {
                (answered, ProxyAction::Respond)
            }
        },
        _ => (ended, ProxyAction::Fail { status: 502, failure: false }),
    }
}

/// A proxied request at its start.
pub open spec fn proxy_started(rules: ProxyRules) -> (ProxyRun, ProxyAction) {
    let run = ProxyRun {
        phase: ProxyPhase::Connecting,
        has_stale: false,
        reused: false,
        cache_status: None,
        tried: 0,
        upstream_status: None,
    };
    if rules.cached && !rules.bypassed {
        (ProxyRun { phase: ProxyPhase::Lookup, ..run }, ProxyAction::Load)
    } else {
        (
            ProxyRun {
                cache_status: if rules.cached {
                    Some(CacheStatus::Bypass)
                } else {
                    None
                },
                ..run
            },
            ProxyAction::Connect,
        )
    }
}

impl ProxyRun {
    /// How a proxied request starts. A hit must not cost an upstream round trip, so the
    /// cache comes before a connection is even considered.
    pub fn start(rules: &ProxyRules) -> (r: (ProxyRun, ProxyAction))
        ensures
            r == proxy_started(*rules),
    {
        if rules.cached && !rules.bypassed {
            (
                ProxyRun {
                    phase: ProxyPhase::Lookup,
                    has_stale: false,
                    reused: false,
                    cache_status: None,
                    tried: 0,
                    upstream_status: None,
                },
                ProxyAction::Load,
            )
        } else {
            let cache_status: Option<CacheStatus> = if rules.cached {
                Some(CacheStatus::Bypass)
            } else {
                None
            };
            (
                ProxyRun {
                    phase: ProxyPhase::Connecting,
                    has_stale: false,
                    reused: false,
                    cache_status,
                    tried: 0,
                    upstream_status: None,
                },
                ProxyAction::Connect,
            )
        }
    }

    fn serves_stale(&self, rules: &ProxyRules, outcome: StaleWhen) -> (r: bool)
        ensures
            r == stale_answers(*self, *rules, outcome),
    {
        rules.cached && self.has_stale && cache_index::stale_allowed(
            rules.use_stale.as_slice(),
            outcome,
        )
    }

    fn may_try_another(&self, rules: &ProxyRules, when: NextWhen, elapsed_ms: u64) -> (r: bool)
        ensures
            r == tries_another(*self, *rules, when, elapsed_ms),
    {
        lists(&rules.next_upstream, when) && rules.may_repeat && self.tried < rules.peers
            && self.tried + 1 < rules.peers && (rules.next_tries == 0 || self.tried + 1
            < rules.next_tries) && (rules.next_timeout_ms == 0 || elapsed_ms
            < rules.next_timeout_ms)
    }

    fn retry(&mut self, failure: bool) -> (r: ProxyAction)
        requires
            old(self).tried < u32::MAX,
        ensures
            (*final(self), r) == retried(*old(self), failure),
    {
        self.phase = ProxyPhase::Connecting;
        self.tried = self.tried + 1;
        self.reused = false;
        ProxyAction::Retry { failure }
    }

    fn fail(
        &mut self,
        rules: &ProxyRules,
        when: NextWhen,
        outcome: Option<StaleWhen>,
        status: u16,
        failure: bool,
        elapsed_ms: u64,
    ) -> (r: ProxyAction)
        ensures
            (*final(self), r) == failed(
                *old(self),
                *rules,
                Failing { when, outcome, status, failure },
                elapsed_ms,
            ),
    {
        if self.may_try_another(rules, when, elapsed_ms) {
            return self.retry(failure);
        }
        let stale: bool = match outcome {
            Some(o) => self.serves_stale(rules, o),
            None => false,
        };
        self.phase = ProxyPhase::Ended;
        if stale {
            self.cache_status = Some(CacheStatus::Stale);
            ProxyAction::ServeStale { failure }
        } else {
            ProxyAction::Fail { status, failure }
        }
    }

    /// Takes note of what happened, this long after the request came, and says what to do.
    pub fn next(&mut self, rules: &ProxyRules, e: ProxyEvent, elapsed_ms: u64) -> (r: ProxyAction)
        ensures
            (*final(self), r) == proxied(*old(self), *rules, e, elapsed_ms),
    {
        match (self.phase, e) {
            (ProxyPhase::Lookup, ProxyEvent::Loaded(found)) => {
                match found {
                    Some(CacheStatus::Hit) => {
                        self.phase = ProxyPhase::Ended;
                        self.cache_status = Some(CacheStatus::Hit);
                        ProxyAction::ServeFresh
                    },
                    _ => {
                        self.has_stale = found.is_some();
                        self.cache_status = if found.is_some() {
                            Some(CacheStatus::Expired)
                        } else {
                            Some(CacheStatus::Miss)
                        };
                        if rules.lock {
                            self.phase = ProxyPhase::Locking;
                            ProxyAction::Lock
                        } else {
                            self.phase = ProxyPhase::Connecting;
                            ProxyAction::Connect
                        }
                    },
                }
            },
            (ProxyPhase::Locking, ProxyEvent::Locked(ours)) => {
                if ours {
                    self.phase = ProxyPhase::Connecting;
                    ProxyAction::Connect
                } else if self.serves_stale(rules, StaleWhen::Updating) {
                    self.phase = ProxyPhase::Ended;
                    self.cache_status = Some(CacheStatus::Stale);
                    ProxyAction::ServeStale { failure: false }
                } else {
                    self.phase = ProxyPhase::Waiting;
                    ProxyAction::Wait
                }
            },
            (ProxyPhase::Waiting, ProxyEvent::Waited(fresh)) => {
                if fresh {
                    self.phase = ProxyPhase::Ended;
                    self.cache_status = Some(CacheStatus::Hit);
                    ProxyAction::ServeFresh
                } else {
                    self.phase = ProxyPhase::Connecting;
                    ProxyAction::Connect
                }
            },
            (ProxyPhase::Connecting, ProxyEvent::Connected(reused)) => {
                self.phase = ProxyPhase::SendingHead;
                self.reused = reused;
                self.upstream_status = None;
                ProxyAction::SendHead
            },
            (ProxyPhase::Connecting, ProxyEvent::ConnectFailed) => self.fail(
                rules,
                NextWhen::Error,
                Some(StaleWhen::Error),
                502,
                true,
                elapsed_ms,
            ),
            (ProxyPhase::Connecting, ProxyEvent::ConnectTimedOut) => self.fail(
                rules,
                NextWhen::Timeout,
                Some(StaleWhen::Error),
                502,
                true,
                elapsed_ms,
            ),
            (ProxyPhase::SendingHead, ProxyEvent::Sent(ok)) => {
                if !ok {
                    let failure: bool = !self.reused;
                    self.fail(rules, NextWhen::Error, None, 502, failure, elapsed_ms)
                } else if rules.has_body {
                    self.phase = ProxyPhase::SendingBody;
                    ProxyAction::SendBody
                } else {
                    self.phase = ProxyPhase::ReadingHead;
                    ProxyAction::Read
                }
            },
            (ProxyPhase::SendingBody, ProxyEvent::Sent(ok)) => {
                if !ok {
                    self.fail(rules, NextWhen::Error, None, 502, true, elapsed_ms)
                } else {
                    self.phase = ProxyPhase::ReadingHead;
                    ProxyAction::Read
                }
            },
            (ProxyPhase::ReadingHead, ProxyEvent::ReadFailed { nothing_yet }) => {
                let failure: bool = !(self.reused && nothing_yet);
                self.fail(
                    rules,
                    NextWhen::Error,
                    Some(StaleWhen::Error),
                    502,
                    failure,
                    elapsed_ms,
                )
            },
            (ProxyPhase::ReadingHead, ProxyEvent::ReadTimedOut) => self.fail(
                rules,
                NextWhen::Timeout,
                Some(StaleWhen::Timeout),
                504,
                true,
                elapsed_ms,
            ),
            (ProxyPhase::ReadingHead, ProxyEvent::HeadPartial) => ProxyAction::Read,
            (ProxyPhase::ReadingHead, ProxyEvent::HeadTooLarge) => self.fail(
                rules,
                NextWhen::InvalidHeader,
                None,
                502,
                true,
                elapsed_ms,
            ),
            (ProxyPhase::ReadingHead, ProxyEvent::HeadInvalid) => self.fail(
                rules,
                NextWhen::InvalidHeader,
                Some(StaleWhen::InvalidHeader),
                502,
                true,
                elapsed_ms,
            ),
            (ProxyPhase::ReadingHead, ProxyEvent::HeadComplete(status)) => {
                let stale: bool = status >= 400 && self.serves_stale(
                    rules,
                    StaleWhen::Status(status),
                );
                let another: bool = self.may_try_another(
                    rules,
                    NextWhen::Status(status),
                    elapsed_ms,
                );
                self.upstream_status = Some(status);
                if status == 101 {
                    self.phase = ProxyPhase::Ended;
                    return ProxyAction::Fail { status: 502, failure: false };
                }
                if another {
                    return self.retry(status >= 500);
                }
                self.phase = ProxyPhase::Ended;
                if stale {
                    self.cache_status = Some(CacheStatus::Stale);
                    ProxyAction::ServeStale { failure: false }
                } else {
                    ProxyAction::Respond
                }
            },
            _ => {
                self.phase = ProxyPhase::Ended;
                ProxyAction::Fail { status: 502, failure: false }
            },
        }
    }
}

/// What an attempt says of its peer.
#[derive(Debug, Clone, Copy, PartialEq, Eq, Structural)]
pub enum PeerNote {
    Nothing,
    Failed,
    /// A complete head is proof that the peer is serving: its failures are cleared.
    Served,
}

/// What an action says of the peer that was tried, once a request has come to it.
pub open spec fn peer_note(run: ProxyRun, a: ProxyAction) -> PeerNote {
    match a {
        ProxyAction::Retry { failure } | ProxyAction::ServeStale { failure } | ProxyAction::Fail {
            failure,
            ..
        } => if failure {
            PeerNote::Failed
        } else if run.upstream_status is Some {
            PeerNote::Served
        } else {
            PeerNote::Nothing
        },
        ProxyAction::Respond => PeerNote::Served,
        _ => PeerNote::Nothing,
    }
}

/// Says what is to be noted of the peer that was tried.
pub fn note_of(run: &ProxyRun, a: ProxyAction) -> (r: PeerNote)
    ensures
        r == peer_note(*run, a),
{
    match a {
        ProxyAction::Retry { failure } | ProxyAction::ServeStale { failure } | ProxyAction::Fail {
            failure,
            ..
        } => if failure {
            PeerNote::Failed
        } else if run.upstream_status.is_some() {
            PeerNote::Served
        } else {
            PeerNote::Nothing
        },
        ProxyAction::Respond => PeerNote::Served,
        _ => PeerNote::Nothing,
    }
}

/// A head that is complete sets the upstream's status. It clears the failures of the
/// peer, unless another peer is tried on account of an error of the server's own.
pub proof fn law_a_complete_head_clears_the_peer(
    run: ProxyRun,
    rules: ProxyRules,
    status: u16,
    elapsed_ms: u64,
)
    requires
        run.phase == ProxyPhase::ReadingHead,
    ensures
        ({
            let (next, action) = proxied(run, rules, ProxyEvent::HeadComplete(status), elapsed_ms);
            &&& next.upstream_status == Some(status)
            &&& peer_note(next, action) == if action is Retry && status >= 500 {
                PeerNote::Failed
            } else {
                PeerNote::Served
            }
        }),
{
}

/// A peer that fails is given up for another one where `proxy_next_upstream` covers the
/// outcome and its bounds allow for it, and the failure is held against it.
pub proof fn law_a_failed_peer_is_given_up(run: ProxyRun, rules: ProxyRules, elapsed_ms: u64)
    requires
        run.phase == ProxyPhase::Connecting,
        tries_another(run, rules, NextWhen::Error, elapsed_ms),
    ensures
        ({
            let (next, action) = proxied(run, rules, ProxyEvent::ConnectFailed, elapsed_ms);
            &&& action == (ProxyAction::Retry { failure: true })
            &&& next.phase == ProxyPhase::Connecting
            &&& next.tried == run.tried + 1
        }),
{
}

/// Another peer is tried only within the bounds: as often as `proxy_next_upstream_tries`
/// says and as there are peers, before `proxy_next_upstream_timeout`, for an outcome of
/// the list, and for a request that may be repeated.
pub proof fn law_retries_are_bounded(
    run: ProxyRun,
    rules: ProxyRules,
    e: ProxyEvent,
    elapsed_ms: u64,
)
    requires
        proxied(run, rules, e, elapsed_ms).1 is Retry,
    ensures
        ({
            let next = proxied(run, rules, e, elapsed_ms).0;
            &&& rules.may_repeat
            &&& rules.next_upstream@.len() > 0
            &&& next.tried == run.tried + 1
            &&& next.tried < rules.peers
            &&& rules.next_tries == 0 || next.tried < rules.next_tries
            &&& rules.next_timeout_ms == 0 || elapsed_ms < rules.next_timeout_ms
        }),
{
}

/// Nothing past the head is retried: by then the client is receiving the answer.
pub proof fn law_an_answer_is_final(
    run: ProxyRun,
    rules: ProxyRules,
    e: ProxyEvent,
    elapsed_ms: u64,
    later: ProxyEvent,
    then_ms: u64,
)
    requires
        ({
            let action = proxied(run, rules, e, elapsed_ms).1;
            action is Respond || action is ServeFresh || action is ServeStale || action is Fail
        }),
    ensures
        !(proxied(proxied(run, rules, e, elapsed_ms).0, rules, later, then_ms).1 is Retry),
{
}

/// A peer that leaves HTTP for another protocol is never the answer, nor a reason to try
/// another one: its 101 is refused with 502.
pub proof fn law_a_switch_of_protocols_is_refused(run: ProxyRun, rules: ProxyRules, elapsed_ms: u64)
    requires
        run.phase == ProxyPhase::ReadingHead,
    ensures
        ({
            let (next, action) = proxied(run, rules, ProxyEvent::HeadComplete(101), elapsed_ms);
            &&& next.phase == ProxyPhase::Ended
            &&& action == (ProxyAction::Fail { status: 502, failure: false })
        }),
{
}

/// An expired entry answers only where `proxy_cache_use_stale` covers the outcome.
pub proof fn law_stale_needs_permission(
    run: ProxyRun,
    rules: ProxyRules,
    e: ProxyEvent,
    elapsed_ms: u64,
)
    requires
        rules.use_stale@.len() == 0,
    ensures
        !(proxied(run, rules, e, elapsed_ms).1 is ServeStale),
{
}

/// A connection that was reused and died before anything arrived is not held against
/// the peer.
pub proof fn law_dead_pooled_connections_are_forgiven(
    run: ProxyRun,
    rules: ProxyRules,
    elapsed_ms: u64,
)
    requires
        run.phase == ProxyPhase::ReadingHead,
        run.reused,
    ensures
        ({
            let (_, action) = proxied(
                run,
                rules,
                ProxyEvent::ReadFailed { nothing_yet: true },
                elapsed_ms,
            );
            action == (ProxyAction::ServeStale { failure: false }) || action == (
            ProxyAction::Fail { status: 502, failure: false }) || action == (ProxyAction::Retry {
                failure: false,
            })
        }),
{
}

/// A fresh entry is served without a connection.
pub proof fn law_a_hit_needs_no_upstream(run: ProxyRun, rules: ProxyRules, elapsed_ms: u64)
    requires
        run.phase == ProxyPhase::Lookup,
    ensures
        proxied(run, rules, ProxyEvent::Loaded(Some(CacheStatus::Hit)), elapsed_ms).1
            == ProxyAction::ServeFresh,
{
}

} // verus!
