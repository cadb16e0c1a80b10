//! `fastcgi_pass`: the responder side of FastCGI, as php-fpm speaks it.
//!
//! The record framing lives in [`crate::fcgi_proto`]. Here the CGI environment is
//! built, the exchange is followed, and the application's CGI-style response is
//! turned into an HTTP one.

use vstd::prelude::*;
use vstd::string::*;

use crate::bytes;
use crate::config::FastCgiConf;
use crate::config::FastCgiParam;
use crate::config::ProxyTarget;
use crate::conn;
use crate::conn::ReadEvent;
use crate::ctx;
use crate::ctx::Ctx;
use crate::ctx::CtxView;
use crate::fcgi_proto as proto;
use crate::fcgi_proto::ParseError;
use crate::fcgi_proto::RecordType;
use crate::handler::Page;
use crate::handler::PageView;
use crate::http;
use crate::http::Header;
use crate::http::Resp;
use crate::http::RespView;
use crate::pattern;
use crate::proxy;
use crate::reply::Body;
use crate::reply::Reply;
use crate::text;

verus! {

/// Absolute cap on a buffered response body.
pub const MAX_RESPONSE: usize = 67108864;

/// A CGI header block larger than this is not a header block.
pub const MAX_HEADERS: usize = 262144;

// ---------------------------------------------------------------- the request

/// Where a request goes. `peer` is the address of the peer chosen for an upstream,
/// if there is one.
pub open spec fn target_of(c: CtxView, t: ProxyTarget, peer: Option<Seq<u8>>) -> Option<Seq<u8>> {
    match t {
        ProxyTarget::Addr { host, port } => Some(
            host@ + seq![58u8] + bytes::decimal(port as nat),
        ),
        ProxyTarget::Unix(path) => Some(bytes::utf8("unix:"@) + path@),
        ProxyTarget::Upstream(_) => match peer {
            Some(a) => Some(proxy::with_default_port(a)),
            None => None,
        },
        ProxyTarget::Dynamic(t) => {
            let a = ctx::shown(c, t);
            if a.len() == 0 {
                None
            } else if bytes::has(a, 58) {
                Some(a)
            } else {
                Some(a + bytes::utf8(":9000"@))
            }
        },
    }
}

/// Decides where a request goes, or 502 where it cannot go anywhere.
pub fn choose_target(ctx: &Ctx, t: &ProxyTarget, peer: Option<&[u8]>) -> (r: Result<Vec<u8>, u16>)
    ensures
        match target_of(
            ctx@,
            *t,
            match peer {
                Some(a) => Some(a@),
                None => None,
            },
        ) {
            Some(a) => r matches Ok(v) && v@ == a,
            None => r matches Err(code) && code == 502,
        },
{
    match t {
        ProxyTarget::Addr { host, port } => {
            let mut addr: Vec<u8> = bytes::copy(host.as_slice());
            addr.push(58);
            bytes::push_decimal(&mut addr, *port as u64);
            assert(addr@ =~= host@ + seq![58u8] + bytes::decimal(*port as nat));
            Ok(addr)
        },
        ProxyTarget::Unix(path) => {
            let mut addr: Vec<u8> = bytes::copy("unix:".as_bytes());
            addr.extend_from_slice(path.as_slice());
            Ok(addr)
        },
        ProxyTarget::Upstream(_) => match peer {
            Some(a) => Ok(proxy::peer_addr(a)),
            None => Err(502),
        },
        ProxyTarget::Dynamic(t) => {
            let mut a: Vec<u8> = ctx.render(t);
            if a.len() == 0 {
                return Err(502);
            }
            if !bytes::contains(a.as_slice(), 58) {
                a.extend_from_slice(":9000".as_bytes());
            }
            Ok(a)
        },
    }
}

/// A group of a match, or nothing where there is none.
pub open spec fn group(groups: Seq<Seq<u8>>, i: int) -> Seq<u8> {
    if i < groups.len() {
        groups[i]
    } else {
        Seq::empty()
    }
}

/// A script path that names a directory is completed.
pub open spec fn completed(script: Seq<u8>, conf: FastCgiConf) -> Seq<u8> {
    match conf.index {
        Some(idx) => if script.len() > 0 && script.last() == 47 {
            script + idx@
        } else {
            script
        },
        None => script,
    }
}

/// The script and the path behind it that a split of the URI gives.
pub open spec fn scripted_by(c: CtxView, conf: FastCgiConf, groups: Option<Seq<Seq<u8>>>) -> CtxView {
    let (script, info) = match groups {
        Some(g) => (group(g, 0), group(g, 1)),
        None => (c.uri, Seq::empty()),
    };
    CtxView {
        fastcgi_script_name: completed(script, conf),
        fastcgi_path_info: info,
        ..c
    }
}

/// The state once `$fastcgi_script_name` and `$fastcgi_path_info` are settled. Without
/// `fastcgi_split_path_info` the whole URI is the script; with it, the first group is
/// the script and the second the trailing path.
pub open spec fn scripted(c: CtxView, conf: FastCgiConf) -> CtxView {
    scripted_by(
        c,
        conf,
        match conf.split_path_info {
            Some(re) => pattern::captured(re@, c.uri),
            None => None,
        },
    )
}

fn copy_group(groups: &Vec<Vec<u8>>, i: usize) -> (r: Vec<u8>)
    ensures
        r@ == group(pattern::views(groups@), i as int),
{
    if i < groups.len() {
        assert(pattern::views(groups@)[i as int] == groups@[i as int]@);
        bytes::copy(groups[i].as_slice())
    } else {
        Vec::new()
    }
}

/// Settles `$fastcgi_script_name` and `$fastcgi_path_info` from what the split of
/// the URI captured, if it is split at all and the pattern matched.
pub fn set_script(ctx: &mut Ctx, conf: &FastCgiConf, groups: Option<Vec<Vec<u8>>>)
    ensures
        final(ctx)@ == scripted_by(
            old(ctx)@,
            *conf,
            match groups {
                Some(g) => Some(pattern::views(g@)),
                None => None,
            },
        ),
{
    match groups {
        Some(g) => {
            ctx.fastcgi_script_name = copy_group(&g, 0);
            ctx.fastcgi_path_info = copy_group(&g, 1);
        },
        None => {
            ctx.fastcgi_script_name = bytes::copy(ctx.uri.as_slice());
            ctx.fastcgi_path_info = Vec::new();
        },
    }
    let n: usize = ctx.fastcgi_script_name.len();
    if n > 0 && ctx.fastcgi_script_name[n - 1] == 47 {
        if let Some(idx) = &conf.index {
            ctx.fastcgi_script_name.extend_from_slice(idx.as_slice());
        }
    }
}

/// Settles `$fastcgi_script_name` and `$fastcgi_path_info`.
pub fn split_script_and_path_info(ctx: &mut Ctx, conf: &FastCgiConf)
    ensures
        final(ctx)@ == scripted(old(ctx)@, *conf),
{
    let groups: Option<Vec<Vec<u8>>> = match &conf.split_path_info {
        Some(re) => pattern::capture(re.as_str(), ctx.uri.as_slice()),
        None => None,
    };
    set_script(ctx, conf, groups);
}

/// The first `n` parameters of the configuration.
pub open spec fn param_bytes(c: CtxView, ps: Seq<FastCgiParam>, n: int) -> Seq<u8>
    decreases n,
{
    if n <= 0 {
        Seq::empty()
    } else {
        let v = ctx::shown(c, ps[n - 1].value);
        param_bytes(c, ps, n - 1) + if ps[n - 1].if_not_empty && v.len() == 0 {
            Seq::empty()
        } else {
            proto::pair_bytes(ps[n - 1].name@, v)
        }
    }
}

/// The first `n` headers of the client as parameters. `Content-Type` and
/// `Content-Length` have names of their own.
pub open spec fn header_params(hs: Seq<http::Field>, n: int) -> Seq<u8>
    decreases n,
{
    if n <= 0 {
        Seq::empty()
    } else {
        header_params(hs, n - 1) + if bytes::same_name(
            hs[n - 1].0,
            bytes::utf8("content-type"@),
        ) || bytes::same_name(hs[n - 1].0, bytes::utf8("content-length"@)) {
            Seq::empty()
        } else {
            proto::pair_bytes(proto::param_name(hs[n - 1].0), hs[n - 1].1)
        }
    }
}

/// The CGI environment.
pub open spec fn environment(c: CtxView, conf: FastCgiConf) -> Seq<u8> {
    let hs = http::fields(c.env.req.headers@);
    param_bytes(c, conf.params@, conf.params@.len() as int) + header_params(hs, hs.len() as int)
}

/// Encodes the CGI environment as FastCGI name/value pairs.
pub fn build_params(ctx: &Ctx, conf: &FastCgiConf) -> (r: Vec<u8>)
    ensures
        r@ == environment(ctx@, *conf),
{
    let mut params: Vec<u8> = Vec::new();
    for i in 0..conf.params.len()
        invariant
            params@ == param_bytes(ctx@, conf.params@, i as int),
    {
        let v: Vec<u8> = ctx.render(&conf.params[i].value);
        if !(conf.params[i].if_not_empty && v.len() == 0) {
            proto::push_nv_pair(&mut params, conf.params[i].name.as_slice(), v.as_slice());
        }
        assert(params@ =~= param_bytes(ctx@, conf.params@, i + 1));
    }
    let ghost own = params@;
    let hs: &Vec<Header> = &ctx.env.req.headers;
    let ghost fs = http::fields(hs@);
    for i in 0..hs.len()
        invariant
            fs == http::fields(hs@),
            params@ == own + header_params(fs, i as int),
    {
        assert(fs[i as int] == http::field(hs@[i as int]));
        let name: &[u8] = hs[i].name.as_slice();
        if !(bytes::is_name(name, "content-type") || bytes::is_name(name, "content-length")) {
            let mut cgi: Vec<u8> = Vec::new();
            proto::push_param_name(name, &mut cgi);
            assert(cgi@ =~= proto::param_name(name@));
            proto::push_nv_pair(&mut params, cgi.as_slice(), hs[i].value.as_slice());
        }
        assert(params@ =~= own + header_params(fs, i + 1));
    }
    params
}

/// Everything that is sent to the application.
pub open spec fn request_bytes(c: CtxView, conf: FastCgiConf) -> Seq<u8> {
    proto::record_bytes(RecordType::BeginRequest, proto::begin_body(conf.keep_conn))
        + proto::stream_bytes(RecordType::Params, environment(c, conf)) + proto::stream_bytes(
        RecordType::Stdin,
        c.env.body@,
    )
}

/// Builds everything that is sent to the application.
pub fn build_request(ctx: &Ctx, conf: &FastCgiConf) -> (r: Vec<u8>)
    ensures
        r@ == request_bytes(ctx@, *conf),
{
    let params: Vec<u8> = build_params(ctx, conf);
    let mut out: Vec<u8> = Vec::new();
    proto::push_begin_request(&mut out, conf.keep_conn);
    assert(out@ =~= proto::record_bytes(
        RecordType::BeginRequest,
        proto::begin_body(conf.keep_conn),
    ));
    proto::push_params(&mut out, params.as_slice());
    proto::push_stdin(&mut out, ctx.env.body.as_slice());
    out
}

// ---------------------------------------------------------------- records

/// How far the records at hand go.
#[derive(Debug, Clone, Copy, PartialEq, Eq, Structural)]
pub enum DrainEnd {
    /// More bytes are needed.
    Waiting,
    /// The request ended.
    Ended,
    /// The framing is broken, or the application refused the request.
    Refused,
}

/// What the records at hand come to.
#[verifier::ext_equal]
pub ghost struct DrainView {
    /// The payload.
    pub out: Seq<u8>,
    /// Where the records end.
    pub pos: int,
    pub app_status: u32,
    pub end: DrainEnd,
}

/// What the records from `pos` on come to. What an application logs is not payload.
pub open spec fn drained(raw: Seq<u8>, pos: int, app_status: u32) -> DrainView
    decreases raw.len() - pos,
{
    let stop = DrainView { out: Seq::empty(), pos, app_status, end: DrainEnd::Waiting };
    if pos < 0 || pos > raw.len() {
        stop
    } else {
        match proto::record_of(raw.subrange(pos, raw.len() as int)) {
            Err(ParseError::Incomplete) => stop,
            Err(ParseError::Malformed) => DrainView { end: DrainEnd::Refused, ..stop },
            Ok(rec) => if rec.total <= 0 || pos + rec.total > raw.len() {
                stop
            } else if rec.ty == RecordType::EndRequest.code() {
                if rec.body.len() >= 8 {
                    let app = bytes::be_value(rec.body.subrange(0, 4)) as u32;
                    if rec.body[4] != 0 {
                        DrainView { app_status: app, end: DrainEnd::Refused, ..stop }
                    } else {
                        DrainView {
                            pos: pos + rec.total,
                            app_status: app,
                            end: DrainEnd::Ended,
                            ..stop
                        }
                    }
                } else {
                    DrainView { pos: pos + rec.total, end: DrainEnd::Ended, ..stop }
                }
            } else {
                let next = drained(raw, pos + rec.total, app_status);
                DrainView {
                    out: (if rec.ty == RecordType::Stdout.code() {
                        rec.body
                    } else {
                        Seq::empty()
                    }) + next.out,
                    ..next
                }
            },
        }
    }
}

/// Decodes the payload out of a FastCGI connection. It doubles as the body of a
/// streamed response.
#[derive(Debug)]
pub struct FcgiBody {
    /// Bytes that have not been parsed into records yet.
    pub raw: Vec<u8>,
    /// Payload that the caller has not taken yet.
    pub out: Vec<u8>,
    pub app_status: u32,
    pub done: bool,
}

/// A decoder as plain values.
#[verifier::ext_equal]
pub ghost struct FcgiView {
    pub raw: Seq<u8>,
    pub out: Seq<u8>,
    pub app_status: u32,
    pub done: bool,
}

impl View for FcgiBody {
    type V = FcgiView;

    open spec fn view(&self) -> FcgiView {
        FcgiView {
            raw: self.raw@,
            out: self.out@,
            app_status: self.app_status,
            done: self.done,
        }
    }
}

/// A decoder whose records at hand were parsed.
pub open spec fn parsed(v: FcgiView) -> FcgiView {
    let d = drained(v.raw, 0, v.app_status);
    FcgiView {
        raw: v.raw.subrange(d.pos, v.raw.len() as int),
        out: v.out + d.out,
        app_status: d.app_status,
        done: v.done || d.end == DrainEnd::Ended,
    }
}

/// What a reader of a body gets.
#[derive(Debug)]
pub enum BodyStep {
    Give(Vec<u8>),
    End,
    /// The records cannot be followed.
    Malformed,
    /// Nothing is at hand: read more from the connection.
    Read,
}

/// Hands over what is ready, up to the reader's room.
pub open spec fn given(v: FcgiView, room: int) -> (FcgiView, Seq<u8>) {
    let n = if v.out.len() < room {
        v.out.len() as int
    } else {
        room
    };
    (FcgiView { out: v.out.subrange(n, v.out.len() as int), ..v }, v.out.subrange(0, n))
}

impl FcgiBody {
    /// A decoder of a fresh connection.
    pub fn new() -> (r: FcgiBody)
        ensures
            r@ == (FcgiView {
                raw: Seq::empty(),
                out: Seq::empty(),
                app_status: 0,
                done: false,
            }),
    {
        FcgiBody { raw: Vec::new(), out: Vec::new(), app_status: 0, done: false }
    }

    /// Takes bytes from the connection.
    pub fn feed(&mut self, more: &[u8])
        ensures
            final(self)@ == (FcgiView { raw: old(self)@.raw + more@, ..old(self)@ }),
    {
        self.raw.extend_from_slice(more);
    }

    /// The connection closed: the body ends here.
    pub fn close(&mut self)
        ensures
            final(self)@ == (FcgiView { done: true, ..old(self)@ }),
    {
        self.done = true;
    }

    /// Parses whatever is at hand. Tells whether the request ended; broken framing is
    /// fatal, since it leaves no way to tell payload from padding.
    pub fn drain_records(&mut self) -> (r: Result<bool, u16>)
        ensures
            final(self)@ == parsed(old(self)@),
            r == match drained(old(self)@.raw, 0, old(self)@.app_status).end {
                DrainEnd::Waiting => Ok::<bool, u16>(false),
                DrainEnd::Ended => Ok::<bool, u16>(true),
                DrainEnd::Refused => Err::<bool, u16>(502),
            },
    {
        let ghost v = self@;
        let ghost all = drained(v.raw, 0, v.app_status);
        let mut pos: usize = 0;
        let mut end: DrainEnd = DrainEnd::Waiting;
        let mut going: bool = true;
        assert(self.out@ =~= v.out + Seq::empty());
        while going
            invariant
                v == old(self)@,
                all == drained(v.raw, 0, v.app_status),
                self.raw@ == v.raw,
                self.done == v.done,
                pos <= self.raw@.len(),
                going ==> end == DrainEnd::Waiting,
                going ==> ({
                    let d = drained(v.raw, pos as int, self.app_status);
                    &&& v.out + all.out == self.out@ + d.out
                    &&& all.pos == d.pos
                    &&& all.app_status == d.app_status
                    &&& all.end == d.end
                }),
                !going ==> all.end == end && all.pos == pos && all.app_status == self.app_status
                    && self.out@ == v.out + all.out,
            decreases self.raw@.len() - pos + (if going {
                1int
            } else {
                0
            }),
        {
            let rest: &[u8] = &self.raw.as_slice()[pos..self.raw.len()];
            let ghost d = drained(v.raw, pos as int, self.app_status);
            assert(rest@ == v.raw.subrange(pos as int, v.raw.len() as int));
            match proto::parse_record(rest) {
                Ok(rec) => {
                    assert(rec.total >= 8 && pos + rec.total <= self.raw@.len());
                    match rec.ty {
                        RecordType::Stdout => {
                            let ghost before = self.out@;
                            let ghost next = drained(
                                v.raw,
                                pos + rec.total,
                                self.app_status,
                            );
                            self.out.extend_from_slice(rec.body);
                            assert(before + (rec.body@ + next.out) =~= self.out@ + next.out);
                            pos = pos + rec.total;
                        },
                        RecordType::EndRequest => {
                            going = false;
                            end = DrainEnd::Ended;
                            assert(d.out == Seq::<u8>::empty());
                            assert(self.out@ + d.out =~= self.out@);
                            if let Some((app, protocol)) = proto::end_request_status(rec.body) {
                                self.app_status = app;
                                if protocol != 0 {
                                    end = DrainEnd::Refused;
                                }
                            }
                            if end == DrainEnd::Ended {
                                pos = pos + rec.total;
                            }
                        },
                        _ => {
                            let ghost next = drained(
                                v.raw,
                                pos + rec.total,
                                self.app_status,
                            );
                            assert(Seq::<u8>::empty() + next.out =~= next.out);
                            pos = pos + rec.total;
                        },
                    }
                },
                Err(ParseError::Incomplete) => {
                    going = false;
                    assert(self.out@ + d.out =~= self.out@);
                },
                Err(ParseError::Malformed) => {
                    going = false;
                    end = DrainEnd::Refused;
                    assert(self.out@ + d.out =~= self.out@);
                },
            }
        }
        let left: Vec<u8> = bytes::copy(&self.raw.as_slice()[pos..self.raw.len()]);
        self.raw = left;
        if end == DrainEnd::Ended {
            self.done = true;
        }
        match end {
            DrainEnd::Waiting => Ok(false),
            DrainEnd::Ended => Ok(true),
            DrainEnd::Refused => Err(502),
        }
    }

    fn give(&mut self, room: usize) -> (r: Vec<u8>)
        ensures
            (final(self)@, r@) == given(old(self)@, room as int),
    {
        let n: usize = if self.out.len() < room {
            self.out.len()
        } else {
            room
        };
        let part: Vec<u8> = bytes::copy(&self.out.as_slice()[0..n]);
        let rest: Vec<u8> = bytes::copy(&self.out.as_slice()[n..self.out.len()]);
        self.out = rest;
        part
    }

    /// What a reader with some room gets: payload that is ready, the end, or word that
    /// more has to be read.
    pub fn poll(&mut self, room: usize) -> (r: BodyStep)
        ensures
            ({
                let v = old(self)@;
                let p = parsed(v);
                if v.out.len() > 0 {
                    final(self)@ == given(v, room as int).0 && (r matches BodyStep::Give(b) && b@
                        == given(v, room as int).1)
                } else if v.done {
                    final(self)@ == v && r is End
                } else if drained(v.raw, 0, v.app_status).end == DrainEnd::Refused {
                    final(self)@ == (FcgiView { out: Seq::empty(), ..p }) && r is Malformed
                } else if p.out.len() > 0 {
                    final(self)@ == given(p, room as int).0 && (r matches BodyStep::Give(b) && b@
                        == given(p, room as int).1)
                } else if p.done {
                    final(self)@ == p && r is End
                } else {
                    final(self)@ == p && r is Read
                }
            }),
    {
        if self.out.len() > 0 {
            return BodyStep::Give(self.give(room));
        }
        if self.done {
            return BodyStep::End;
        }
        match self.drain_records() {
            Err(_) => {
                self.out = Vec::new();
                BodyStep::Malformed
            },
            Ok(_) => if self.out.len() > 0 {
                BodyStep::Give(self.give(room))
            } else if self.done {
                BodyStep::End
            } else {
                BodyStep::Read
            },
        }
    }
}

/// Where records cannot be followed any more, reading stops in front of the one at fault.
proof fn lemma_refused_again(raw: Seq<u8>, pos: int, app: u32, again: u32)
    requires
        0 <= pos <= raw.len(),
        drained(raw, pos, app).end == DrainEnd::Refused,
    ensures
        ({
            let d = drained(raw, pos, app);
            let e = drained(raw.subrange(d.pos, raw.len() as int), 0, again);
            &&& 0 <= d.pos <= raw.len()
            &&& e.end == DrainEnd::Refused
            &&& e.out == Seq::<u8>::empty()
            &&& e.pos == 0
        }),
    decreases raw.len() - pos,
{
    let rest = raw.subrange(pos, raw.len() as int);
    assert(rest.subrange(0, rest.len() as int) =~= rest);
    if let Ok(rec) = proto::record_of(rest) {
        if rec.total > 0 && pos + rec.total <= raw.len() && rec.ty != RecordType::EndRequest.code() {
            lemma_refused_again(raw, pos + rec.total, app, again);
        }
    }
}

/// A body that cannot be followed stays so: once a reader was told that the records are
/// malformed, it gets nothing of them, and is told so again.
pub proof fn law_a_malformed_body_stays_malformed(v: FcgiView)
    requires
        drained(v.raw, 0, v.app_status).end == DrainEnd::Refused,
    ensures
        ({
            let left = FcgiView { out: Seq::empty(), ..parsed(v) };
            &&& left.done == v.done
            &&& drained(left.raw, 0, left.app_status).end == DrainEnd::Refused
            &&& parsed(left).raw == left.raw
            &&& parsed(left).out == Seq::<u8>::empty()
        }),
{
    let d = drained(v.raw, 0, v.app_status);
    lemma_refused_again(v.raw, 0, v.app_status, d.app_status);
}

/// A record that was read stays the same when more arrives.
proof fn lemma_record_extends(buf: Seq<u8>, more: Seq<u8>)
    requires
        proto::record_of(buf) is Ok,
    ensures
        proto::record_of(buf + more) == proto::record_of(buf),
{
    let all = buf + more;
    assert(all.subrange(4, 6) =~= buf.subrange(4, 6));
    assert(all.subrange(2, 4) =~= buf.subrange(2, 4));
    let n = bytes::be_value(buf.subrange(4, 6)) as int;
    assert(all.subrange(8, 8 + n) =~= buf.subrange(8, 8 + n));
}

/// What records come to does not depend on what stands before them.
proof fn lemma_drained_shift(pre: Seq<u8>, raw: Seq<u8>, pos: int, app: u32)
    requires
        0 <= pos,
    ensures
        drained(pre + raw, pre.len() + pos, app) == (DrainView {
            pos: pre.len() + drained(raw, pos, app).pos,
            ..drained(raw, pos, app)
        }),
    decreases raw.len() - pos,
{
    let all = pre + raw;
    if pos <= raw.len() {
        assert(all.subrange(pre.len() + pos, all.len() as int) =~= raw.subrange(
            pos,
            raw.len() as int,
        ));
        if let Ok(rec) = proto::record_of(raw.subrange(pos, raw.len() as int)) {
            if rec.total > 0 && pos + rec.total <= raw.len() {
                lemma_drained_shift(pre, raw, pos + rec.total, app);
            }
        }
    }
}

/// Records end within what is at hand.
proof fn lemma_drained_within(raw: Seq<u8>, pos: int, app: u32)
    requires
        0 <= pos <= raw.len(),
    ensures
        pos <= drained(raw, pos, app).pos <= raw.len(),
    decreases raw.len() - pos,
{
    if let Ok(rec) = proto::record_of(raw.subrange(pos, raw.len() as int)) {
        if rec.total > 0 && pos + rec.total <= raw.len() {
            lemma_drained_within(raw, pos + rec.total, app);
        }
    }
}

/// As long as more records are awaited, those at hand are read for good: what they came
/// to stands when more arrives.
proof fn lemma_drained_extends(raw: Seq<u8>, more: Seq<u8>, pos: int, app: u32)
    requires
        0 <= pos <= raw.len(),
        drained(raw, pos, app).end == DrainEnd::Waiting,
    ensures
        ({
            let d = drained(raw, pos, app);
            let next = drained(raw + more, d.pos, app);
            &&& pos <= d.pos <= raw.len()
            &&& d.app_status == app
            &&& drained(raw + more, pos, app) == (DrainView { out: d.out + next.out, ..next })
        }),
    decreases raw.len() - pos,
{
    let all = raw + more;
    let here = raw.subrange(pos, raw.len() as int);
    assert(all.subrange(pos, all.len() as int) =~= here + more);
    let d = drained(raw, pos, app);
    let next = drained(all, d.pos, app);
    match proto::record_of(here) {
        Ok(rec) => {
            lemma_record_extends(here, more);
            if rec.total > 0 && pos + rec.total <= raw.len() {
                lemma_drained_extends(raw, more, pos + rec.total, app);
                let behind = drained(raw, pos + rec.total, app);
                let own = if rec.ty == RecordType::Stdout.code() {
                    rec.body
                } else {
                    Seq::empty()
                };
                assert(own + (behind.out + next.out) =~= d.out + next.out);
            } else {
                assert(d.out + next.out =~= next.out);
            }
        },
        Err(_) => {
            assert(d.out + next.out =~= next.out);
        },
    }
}

/// In whatever pieces a response arrives, it comes to the same: records that were parsed
/// before more came are not looked at again.
pub proof fn law_records_may_come_in_pieces(v: FcgiView, more: Seq<u8>)
    requires
        drained(v.raw, 0, v.app_status).end == DrainEnd::Waiting,
    ensures
        parsed(FcgiView { raw: parsed(v).raw + more, ..parsed(v) }) == parsed(
            FcgiView { raw: v.raw + more, ..v },
        ),
{
    let d = drained(v.raw, 0, v.app_status);
    lemma_drained_extends(v.raw, more, 0, v.app_status);
    let pre = v.raw.subrange(0, d.pos);
    let left = v.raw.subrange(d.pos, v.raw.len() as int) + more;
    assert(pre + left =~= v.raw + more);
    lemma_drained_shift(pre, left, 0, v.app_status);
    lemma_drained_within(left, 0, v.app_status);
    let a = parsed(FcgiView { raw: parsed(v).raw + more, ..parsed(v) });
    let b = parsed(FcgiView { raw: v.raw + more, ..v });
    assert(a.out =~= b.out);
    assert(a.raw =~= b.raw);
}

/// A reader gets every byte of the payload once and in order, whatever room it offers.
pub proof fn law_reading_loses_nothing(v: FcgiView, room: int)
    requires
        0 <= room,
    ensures
        given(v, room).1 + given(v, room).0.out == v.out,
{
    let n = if v.out.len() < room {
        v.out.len() as int
    } else {
        room
    };
    assert(v.out.subrange(0, n) + v.out.subrange(n, v.out.len() as int) =~= v.out);
}

/// Payloads as records of the response stream, from the `i`th on.
pub open spec fn response_records(parts: Seq<Seq<u8>>, i: int) -> Seq<u8>
    decreases parts.len() - i,
{
    if i < 0 || i >= parts.len() {
        Seq::empty()
    } else {
        proto::record_bytes(RecordType::Stdout, parts[i]) + response_records(parts, i + 1)
    }
}

/// What an application sends comes out as its payload, in whatever records it came and
/// whatever follows them.
#[verifier::spinoff_prover]
#[verifier::rlimit(60)]
pub proof fn law_payload_comes_through(parts: Seq<Seq<u8>>, i: int, rest: Seq<u8>, app: u32)
    requires
        0 <= i,
        forall|k: int| 0 <= k < parts.len() ==> (#[trigger] parts[k]).len() <= proto::MAX_CONTENT,
    ensures
        ({
            let records = response_records(parts, i);
            let next = drained(rest, 0, app);
            drained(records + rest, 0, app) == (DrainView {
                out: conn::joined(parts, i) + next.out,
                pos: records.len() + next.pos,
                ..next
            })
        }),
    decreases parts.len() - i,
{
    let next = drained(rest, 0, app);
    if i >= parts.len() {
        assert(response_records(parts, i) + rest =~= rest);
        assert(conn::joined(parts, i) + next.out =~= next.out);
    } else {
        let record = proto::record_bytes(RecordType::Stdout, parts[i]);
        let behind = response_records(parts, i + 1) + rest;
        let raw = response_records(parts, i) + rest;
        assert(raw =~= record + behind);
        proto::law_records_read_back(RecordType::Stdout, parts[i], behind);
        assert(raw.subrange(0, raw.len() as int) =~= raw);
        lemma_drained_shift(record, behind, 0, app);
        law_payload_comes_through(parts, i + 1, rest, app);
        assert(parts[i] + (conn::joined(parts, i + 1) + next.out) =~= conn::joined(parts, i)
            + next.out);
    }
}

// ---------------------------------------------------------------- CGI headers

/// Where the first empty line from `i` on ends a header block, and where the body behind
/// it starts.
pub open spec fn empty_line(b: Seq<u8>, i: int) -> Option<(int, int)>
    decreases b.len() - i,
{
    if i < 0 || i >= b.len() {
        None
    } else if b[i] != 10 {
        empty_line(b, i + 1)
    } else if i + 1 < b.len() && b[i + 1] == 10 {
        Some((i, i + 2))
    } else if i + 2 < b.len() && b[i + 1] == 13 && b[i + 2] == 10 {
        Some((i, i + 3))
    } else {
        empty_line(b, i + 1)
    }
}

/// Where the header block of a whole response ends, and where the body behind it starts:
/// at an empty line, or, where there is none, at the end of the last line.
pub open spec fn block_end(b: Seq<u8>) -> Option<(int, int)> {
    match empty_line(b, 0) {
        Some(found) => Some(found),
        None => if b.len() > 0 && b.last() == 10 {
            Some((b.len() - 1, b.len() as int))
        } else {
            None
        },
    }
}

/// Finds the empty line that ends a header block, and where the body behind it starts.
pub fn find_empty_line(b: &[u8]) -> (r: Option<(usize, usize)>)
    ensures
        match r {
            Some((h, at)) => empty_line(b@, 0) == Some((h as int, at as int)) && h < at
                <= b@.len(),
            None => empty_line(b@, 0) is None,
        },
{
    for i in 0..b.len()
        invariant
            empty_line(b@, 0) == empty_line(b@, i as int),
    {
        if b[i] == 10 {
            let left: usize = b.len() - i;
            if left > 1 && b[i + 1] == 10 {
                return Some((i, i + 2));
            }
            if left > 2 && b[i + 1] == 13 && b[i + 2] == 10 {
                return Some((i, i + 3));
            }
        }
    }
    None
}

/// Finds where the header block of a whole response ends, and where the body behind it
/// starts.
pub fn find_header_end(b: &[u8]) -> (r: Option<(usize, usize)>)
    ensures
        match r {
            Some((h, at)) => block_end(b@) == Some((h as int, at as int)) && h < at <= b@.len(),
            None => block_end(b@) is None,
        },
{
    match find_empty_line(b) {
        Some(found) => Some(found),
        None => if b.len() > 0 && b[b.len() - 1] == 10 {
            Some((b.len() - 1, b.len()))
        } else {
            None
        },
    }
}

/// A line without the carriage return behind it.
pub open spec fn without_cr(l: Seq<u8>) -> Seq<u8> {
    if l.len() > 0 && l.last() == 13 {
        l.drop_last()
    } else {
        l
    }
}

/// The lines of a block, without the empty ones.
pub open spec fn lines_of(b: Seq<u8>) -> Seq<Seq<u8>>
    decreases b.len(),
{
    let i = bytes::find(b, 10, 0);
    if i < 0 || i > b.len() {
        Seq::empty()
    } else {
        let l = without_cr(b.subrange(0, i));
        let rest = if i < b.len() {
            lines_of(b.subrange(i + 1, b.len() as int))
        } else {
            Seq::empty()
        };
        if l.len() > 0 {
            seq![l] + rest
        } else {
            rest
        }
    }
}

/// Splits a block into its lines, without the carriage returns and the empty lines.
pub fn split_lines(b: &[u8]) -> (r: Vec<Vec<u8>>)
    ensures
        pattern::views(r@) == lines_of(b@),
{
    let mut out: Vec<Vec<u8>> = Vec::new();
    let mut from: usize = 0;
    assert(b@.subrange(0, b@.len() as int) =~= b@);
    assert(pattern::views(out@) + lines_of(b@) =~= lines_of(b@));
    loop
        invariant
            from <= b.len(),
            lines_of(b@) == pattern::views(out@) + lines_of(
                b@.subrange(from as int, b@.len() as int),
            ),
        decreases b.len() - from,
    {
        let rest: &[u8] = &b[from..b.len()];
        let i: usize = bytes::find_from(rest, 10, 0);
        let full: &[u8] = &rest[0..i];
        let n: usize = if i > 0 && full[i - 1] == 13 {
            i - 1
        } else {
            i
        };
        let l: &[u8] = &full[0..n];
        assert(l@ =~= without_cr(rest@.subrange(0, i as int)));
        let ghost before = pattern::views(out@);
        let ghost tail = if i < rest@.len() {
            lines_of(rest@.subrange(i + 1, rest@.len() as int))
        } else {
            Seq::empty()
        };
        if l.len() > 0 {
            out.push(bytes::copy(l));
            assert(pattern::views(out@) =~= before.push(l@));
            assert(before + (seq![l@] + tail) =~= pattern::views(out@) + tail);
        }
        assert(lines_of(b@) == pattern::views(out@) + tail);
        if i >= rest.len() {
            assert(pattern::views(out@) + tail =~= pattern::views(out@));
            return out;
        }
        assert(rest@.subrange(i + 1, rest@.len() as int) =~= b@.subrange(
            from + i + 1,
            b@.len() as int,
        ));
        from = from + i + 1;
    }
}

/// The header a line holds: a name and a value, split at the first colon. Both are
/// text, and the name is not empty.
pub open spec fn cgi_field(l: Seq<u8>) -> Option<http::Field> {
    let i = bytes::find(l, 58, 0);
    if i >= l.len() {
        None
    } else {
        let name = l.subrange(0, i);
        let v = l.subrange(i + 1, l.len() as int);
        if text::decoded(name) is None || text::decoded(v) is None || bytes::trimmed(name).len()
            == 0 {
            None
        } else {
            Some((bytes::trimmed(name), bytes::trimmed(v)))
        }
    }
}

/// Splits a line into a header's name and value.
pub fn split_header(l: &[u8]) -> (r: Option<(&[u8], &[u8])>)
    ensures
        match r {
            Some((n, v)) => cgi_field(l@) == Some((n@, v@)),
            None => cgi_field(l@) is None,
        },
{
    let i: usize = bytes::find_from(l, 58, 0);
    if i >= l.len() {
        return None;
    }
    let name: &[u8] = &l[0..i];
    let v: &[u8] = &l[i + 1..l.len()];
    if text::decode(name).is_none() || text::decode(v).is_none() {
        return None;
    }
    let trimmed: &[u8] = bytes::trim(name);
    if trimmed.len() == 0 {
        return None;
    }
    Some((trimmed, bytes::trim(v)))
}

/// How long the word at the front is.
pub open spec fn word_len(s: Seq<u8>, i: int) -> int
    decreases s.len() - i,
{
    if i < 0 || i >= s.len() || bytes::white_front(s.subrange(i, s.len() as int)) > 0 {
        i
    } else {
        word_len(s, i + 1)
    }
}

/// The status of a `Status` header: the number its first word spells, else 200.
pub open spec fn cgi_status(v: Seq<u8>) -> u16 {
    let t = bytes::trimmed_start(v);
    match bytes::unsigned_within(t.subrange(0, word_len(t, 0)), u16::MAX as nat) {
        Some(n) => n as u16,
        None => 200,
    }
}

fn parse_status(v: &[u8]) -> (r: u16)
    ensures
        r == cgi_status(v@),
{
    let t: &[u8] = bytes::trim_start(v);
    let mut n: usize = 0;
    let mut going: bool = true;
    while going
        invariant
            n <= t.len(),
            going ==> word_len(t@, 0) == word_len(t@, n as int),
            !going ==> word_len(t@, 0) == n,
        decreases t.len() - n + (if going {
            1int
        } else {
            0
        }),
    {
        if n >= t.len() {
            going = false;
        } else {
            let rest: &[u8] = &t[n..t.len()];
            if bytes::trim_start(rest).len() < rest.len() {
                proof {
                    lemma_trim_shortens(rest@);
                }
                going = false;
            } else {
                proof {
                    lemma_trim_keeps(rest@);
                }
                n = n + 1;
            }
        }
    }
    match bytes::parse_unsigned(&t[0..n], 65535) {
        Some(x) => x as u16,
        None => 200,
    }
}

proof fn lemma_trim_len(s: Seq<u8>)
    ensures
        bytes::trimmed_start(s).len() <= s.len(),
    decreases s.len(),
{
    let w = bytes::white_front(s);
    if w > 0 {
        lemma_trim_len(s.subrange(w, s.len() as int));
    }
}

proof fn lemma_trim_shortens(s: Seq<u8>)
    requires
        bytes::trimmed_start(s).len() < s.len(),
    ensures
        bytes::white_front(s) > 0,
{
}

proof fn lemma_trim_keeps(s: Seq<u8>)
    requires
        bytes::trimmed_start(s).len() >= s.len(),
    ensures
        bytes::white_front(s) <= 0,
{
    let w = bytes::white_front(s);
    if w > 0 {
        lemma_trim_len(s.subrange(w, s.len() as int));
    }
}

/// What a CGI header block says.
#[verifier::ext_equal]
pub ghost struct CgiHead {
    pub status: u16,
    pub headers: Seq<http::Field>,
    pub located: bool,
    pub length: Option<u64>,
}

/// Headers the application must not dictate: these describe our hop, and the length is
/// that of the body at hand.
pub open spec fn is_ours(name: Seq<u8>) -> bool {
    bytes::same_name(name, bytes::utf8("connection"@)) || bytes::same_name(
        name,
        bytes::utf8("keep-alive"@),
    ) || bytes::same_name(name, bytes::utf8("transfer-encoding"@)) || bytes::same_name(
        name,
        bytes::utf8("upgrade"@),
    ) || bytes::same_name(name, bytes::utf8("content-length"@))
}

fn describes_us(name: &[u8]) -> (r: bool)
    ensures
        r == is_ours(name@),
{
    bytes::is_name(name, "connection") || bytes::is_name(name, "keep-alive") || bytes::is_name(
        name,
        "transfer-encoding",
    ) || bytes::is_name(name, "upgrade") || bytes::is_name(name, "content-length")
}

/// What one more header says.
pub open spec fn with_cgi_field(h: CgiHead, conf: FastCgiConf, f: http::Field) -> CgiHead {
    let (name, v) = f;
    let sized = if bytes::same_name(name, bytes::utf8("content-length"@)) {
        CgiHead {
            length: match bytes::unsigned_within(bytes::trimmed(v), u64::MAX as nat) {
                Some(n) => Some(n as u64),
                None => None,
            },
            ..h
        }
    } else {
        h
    };
    if bytes::same_name(name, bytes::utf8("status"@)) {
        CgiHead { status: cgi_status(v), ..sized }
    } else if is_ours(name) || proxy::hides(conf.hide_headers@, name, 0) {
        sized
    } else {
        CgiHead {
            headers: sized.headers.push((name, v)),
            located: sized.located || bytes::same_name(name, bytes::utf8("location"@)),
            ..sized
        }
    }
}

/// What the first `n` lines of a header block say.
pub open spec fn cgi_head(conf: FastCgiConf, ls: Seq<Seq<u8>>, n: int) -> CgiHead
    decreases n,
{
    if n <= 0 {
        CgiHead { status: 200, headers: Seq::empty(), located: false, length: None }
    } else {
        let before = cgi_head(conf, ls, n - 1);
        match cgi_field(ls[n - 1]) {
            Some(f) => with_cgi_field(before, conf, f),
            None => before,
        }
    }
}

/// The status of a response. A location without an explicit status means 302.
pub open spec fn final_status(h: CgiHead) -> u16 {
    if h.located && h.status == 200 {
        302
    } else {
        h.status
    }
}

/// What a CGI header block says.
pub open spec fn cgi_of(conf: FastCgiConf, head: Seq<u8>) -> CgiHead {
    cgi_head(conf, lines_of(head), lines_of(head).len() as int)
}

/// The HTTP head a CGI header block stands for.
pub open spec fn cgi_resp(h: CgiHead) -> RespView {
    RespView { headers: h.headers, ..http::bare(final_status(h)) }
}

/// Maps a CGI header block onto an HTTP response head, and tells the length the
/// application declared.
pub fn parse_cgi_headers(ctx: &mut Ctx, conf: &FastCgiConf, head: &[u8]) -> (r: (
    Resp,
    Option<u64>,
))
    ensures
        r.0@ == cgi_resp(cgi_of(*conf, head@)),
        r.1 == cgi_of(*conf, head@).length,
        final(ctx)@ == (CtxView {
            upstream_status: final_status(cgi_of(*conf, head@)),
            ..old(ctx)@
        }),
{
    let lines: Vec<Vec<u8>> = split_lines(head);
    let ghost ls = lines_of(head@);
    let mut resp = Resp::new(200);
    let mut status: u16 = 200;
    let mut located: bool = false;
    let mut length: Option<u64> = None;
    for i in 0..lines.len()
        invariant
            ls == pattern::views(lines@),
            ({
                let h = cgi_head(*conf, ls, i as int);
                &&& resp@ == (RespView { headers: h.headers, ..http::bare(200) })
                &&& status == h.status
                &&& located == h.located
                &&& length == h.length
            }),
    {
        assert(ls[i as int] == lines@[i as int]@);
        if let Some((name, v)) = split_header(lines[i].as_slice()) {
            if bytes::is_name(name, "content-length") {
                length = bytes::parse_unsigned(bytes::trim(v), u64::MAX);
            }
            if bytes::is_name(name, "status") {
                status = parse_status(v);
            } else if !(describes_us(name) || proxy::is_hidden(&conf.hide_headers, name)) {
                if bytes::is_name(name, "location") {
                    located = true;
                }
                resp.header_bytes(name, v);
            }
        }
    }
    if located && status == 200 {
        status = 302;
    }
    resp.status = status;
    ctx.upstream_status = status;
    (resp, length)
}

/// How long the names are that tell the headers apart.
proof fn lemma_name_lengths()
    ensures
        bytes::utf8("location"@).len() == 8,
        bytes::utf8("status"@).len() == 6,
        bytes::utf8("connection"@).len() == 10,
        bytes::utf8("keep-alive"@).len() == 10,
        bytes::utf8("transfer-encoding"@).len() == 17,
        bytes::utf8("upgrade"@).len() == 7,
        bytes::utf8("content-length"@).len() == 14,
{
    reveal_strlit("location");
    reveal_strlit("status");
    reveal_strlit("connection");
    reveal_strlit("keep-alive");
    reveal_strlit("transfer-encoding");
    reveal_strlit("upgrade");
    reveal_strlit("content-length");
    bytes::lemma_ascii_len("location"@);
    bytes::lemma_ascii_len("status"@);
    bytes::lemma_ascii_len("connection"@);
    bytes::lemma_ascii_len("keep-alive"@);
    bytes::lemma_ascii_len("transfer-encoding"@);
    bytes::lemma_ascii_len("upgrade"@);
    bytes::lemma_ascii_len("content-length"@);
}

/// A header with the name of a location is one, and nothing else.
proof fn lemma_location_is_passed(name: Seq<u8>)
    requires
        bytes::same_name(name, bytes::utf8("location"@)),
    ensures
        !is_ours(name),
        !bytes::same_name(name, bytes::utf8("status"@)),
{
    lemma_name_lengths();
    assert(name.len() == 8) by {
        assert(bytes::lowered(name).len() == name.len());
        assert(bytes::lowered(bytes::utf8("location"@)).len() == 8);
    }
    assert(bytes::lowered(bytes::utf8("status"@)).len() == 6);
    assert(bytes::lowered(bytes::utf8("connection"@)).len() == 10);
    assert(bytes::lowered(bytes::utf8("keep-alive"@)).len() == 10);
    assert(bytes::lowered(bytes::utf8("transfer-encoding"@)).len() == 17);
    assert(bytes::lowered(bytes::utf8("upgrade"@)).len() == 7);
    assert(bytes::lowered(bytes::utf8("content-length"@)).len() == 14);
}

/// The name of the header on a line of a header block, if there is one.
pub open spec fn name_in(l: Seq<u8>) -> Seq<u8> {
    match cgi_field(l) {
        Some((name, _)) => name,
        None => Seq::empty(),
    }
}

/// Whether a line of a header block is a header of that name.
pub open spec fn says(l: Seq<u8>, name: Seq<char>) -> bool {
    cgi_field(l) is Some && bytes::same_name(name_in(l), bytes::utf8(name))
}

/// A location that is passed on makes a response without a status a redirect: 302.
pub proof fn law_a_bare_location_redirects(conf: FastCgiConf, ls: Seq<Seq<u8>>, n: int, k: int)
    requires
        0 <= k < n <= ls.len(),
        says(ls[k], "location"@),
        !proxy::hides(conf.hide_headers@, name_in(ls[k]), 0),
        forall|i: int| 0 <= i < n ==> !says(#[trigger] ls[i], "status"@),
    ensures
        final_status(cgi_head(conf, ls, n)) == 302,
{
    lemma_located(conf, ls, n, k);
    lemma_no_status(conf, ls, n);
}

proof fn lemma_located(conf: FastCgiConf, ls: Seq<Seq<u8>>, n: int, k: int)
    requires
        0 <= k < n <= ls.len(),
        says(ls[k], "location"@),
        !proxy::hides(conf.hide_headers@, name_in(ls[k]), 0),
    ensures
        cgi_head(conf, ls, n).located,
    decreases n,
{
    if k == n - 1 {
        lemma_location_is_passed(name_in(ls[k]));
    } else {
        lemma_located(conf, ls, n - 1, k);
    }
}

proof fn lemma_no_status(conf: FastCgiConf, ls: Seq<Seq<u8>>, n: int)
    requires
        0 <= n <= ls.len(),
        forall|i: int| 0 <= i < n ==> !says(#[trigger] ls[i], "status"@),
    ensures
        cgi_head(conf, ls, n).status == 200,
    decreases n,
{
    if n > 0 {
        lemma_no_status(conf, ls, n - 1);
        assert(!says(ls[n - 1], "status"@));
    }
}

/// An explicit status other than 200 stands, whether there is a location or not.
pub proof fn law_an_explicit_status_stands(h: CgiHead)
    requires
        h.status != 200,
    ensures
        final_status(h) == h.status,
{
}

// ---------------------------------------------------------------- the exchange

/// What has been read of an application's response.
#[derive(Debug)]
pub struct Collector {
    pub body: FcgiBody,
    /// Where the headers end, once that is known.
    pub head_end: Option<usize>,
}

/// What reading an application's response comes to.
#[derive(Debug, Clone, Copy, PartialEq, Eq, Structural)]
pub enum Collected {
    More,
    /// The whole thing arrived.
    Complete,
    /// Headers are at hand, up to this place, and more body is still coming.
    Streaming(usize),
    Fail(u16),
}

/// What follows once the records at hand are parsed: the headers must be complete, with
/// the empty line behind them, before anything is streamed, and what fits is buffered.
pub open spec fn judged(out: Seq<u8>, head_end: Option<usize>, conf: FastCgiConf) -> (
    Option<usize>,
    Collected,
) {
    let at = match head_end {
        Some(n) => Some(n),
        None => match empty_line(out, 0) {
            Some((_, a)) => Some(a as usize),
            None => None,
        },
    };
    (
        at,
        match at {
            None => if out.len() > MAX_HEADERS {
                Collected::Fail(502)
            } else {
                Collected::More
            },
            Some(a) => if !conf.buffering || out.len() - a > conf.buffer_budget {
                Collected::Streaming(a)
            } else if out.len() > MAX_RESPONSE {
                Collected::Fail(502)
            } else {
                Collected::More
            },
        },
    )
}

impl Collector {
    /// Whether the headers, where their end is known, are at hand.
    pub open spec fn wf(&self) -> bool {
        self.head_end matches Some(n) ==> n <= self.body@.out.len()
    }

    pub fn new() -> (r: Collector)
        ensures
            r.wf(),
            r.body@.raw.len() == 0,
            r.body@.out.len() == 0,
            r.body@.app_status == 0,
            !r.body@.done,
            r.head_end is None,
    {
        Collector { body: FcgiBody::new(), head_end: None }
    }

    /// Takes what a read gave. `more` holds the bytes it read; none means that the
    /// application closed, and whatever arrived is the response.
    pub fn next(&mut self, e: ReadEvent, more: &[u8], conf: &FastCgiConf) -> (r: Collected)
        requires
            old(self).wf(),
        ensures
            final(self).wf(),
            match e {
                ReadEvent::Failed => r == Collected::Fail(502) && *final(self) == *old(self),
                ReadEvent::TimedOut => r == Collected::Fail(504) && *final(self) == *old(self),
                ReadEvent::Got(n) => {
                    let v = old(self).body@;
                    let fed = FcgiView { raw: v.raw + more@, ..v };
                    if n == 0 {
                        r == Collected::Complete && final(self).head_end == old(self).head_end
                            && final(self).body@ == (FcgiView { done: true, ..v })
                    } else {
                        &&& final(self).body@ == parsed(fed)
                        &&& match drained(fed.raw, 0, v.app_status).end {
                            DrainEnd::Refused => r == Collected::Fail(502)
                                && final(self).head_end == old(self).head_end,
                            DrainEnd::Ended => r == Collected::Complete && final(self).head_end
                                == old(self).head_end,
                            DrainEnd::Waiting => (final(self).head_end, r) == judged(
                                parsed(fed).out,
                                old(self).head_end,
                                *conf,
                            ),
                        }
                    }
                },
            },
    {
        match e {
            ReadEvent::Failed => Collected::Fail(502),
            ReadEvent::TimedOut => Collected::Fail(504),
            ReadEvent::Got(n) => {
                if n == 0 {
                    self.body.close();
                    return Collected::Complete;
                }
                self.body.feed(more);
                match self.body.drain_records() {
                    Err(_) => Collected::Fail(502),
                    Ok(ended) => {
                        if ended {
                            return Collected::Complete;
                        }
                        if self.head_end.is_none() {
                            self.head_end = match find_empty_line(self.body.out.as_slice()) {
                                Some((_, at)) => Some(at),
                                None => None,
                            };
                        }
                        let len: usize = self.body.out.len();
                        match self.head_end {
                            None => if len > MAX_HEADERS {
                                Collected::Fail(502)
                            } else {
                                Collected::More
                            },
                            Some(at) => if !conf.buffering || len - at > conf.buffer_budget {
                                Collected::Streaming(at)
                            } else if len > MAX_RESPONSE {
                                Collected::Fail(502)
                            } else {
                                Collected::More
                            },
                        }
                    },
                }
            },
        }
    }
}

/// A response that is held never outgrows its bounds.
pub proof fn law_held_responses_are_bounded(out: Seq<u8>, head_end: Option<usize>, conf: FastCgiConf)
    ensures
        judged(out, head_end, conf).1 == Collected::More ==> out.len() <= MAX_RESPONSE,
{
}

proof fn lemma_empty_line_stays(out: Seq<u8>, more: Seq<u8>, i: int)
    requires
        0 <= i,
        empty_line(out, i) is Some,
    ensures
        empty_line(out + more, i) == empty_line(out, i),
        empty_line(out, i) matches Some((h, a)) && i <= h < a <= out.len(),
    decreases out.len() - i,
{
    let all = out + more;
    reveal_with_fuel(empty_line, 4);
    if i < out.len() {
        assert(forall|k: int| 0 <= k < out.len() ==> all[k] == out[k]);
        if !(out[i] == 10 && i + 1 < out.len() && out[i + 1] == 10) && !(out[i] == 10 && i + 2
            < out.len() && out[i + 1] == 13 && out[i + 2] == 10) {
            lemma_empty_line_stays(out, more, i + 1);
        }
    }
}

/// No half of a header block is ever taken for the whole: the head that a response is
/// streamed behind is the one that the whole response has, whatever else arrives.
pub proof fn law_streamed_heads_are_whole(
    out: Seq<u8>,
    more: Seq<u8>,
    conf: FastCgiConf,
    at: usize,
)
    requires
        out.len() <= usize::MAX,
        judged(out, None, conf).0 == Some(at),
    ensures
        block_end(out + more) matches Some((h, a)) && h < a == at && at <= out.len(),
        block_end(out + more) == block_end(out.subrange(0, at as int)),
{
    lemma_empty_line_stays(out, more, 0);
    let head = out.subrange(0, at as int);
    lemma_empty_line_ends(out, 0, at as int);
    assert(head + Seq::<u8>::empty() =~= head);
}

proof fn lemma_empty_line_ends(out: Seq<u8>, i: int, at: int)
    requires
        0 <= i,
        empty_line(out, i) matches Some((_, a)) && a == at,
        at <= out.len(),
    ensures
        empty_line(out.subrange(0, at), i) == empty_line(out, i),
    decreases out.len() - i,
{
    let head = out.subrange(0, at);
    if i < out.len() {
        if !(out[i] == 10 && i + 1 < out.len() && out[i + 1] == 10) && !(out[i] == 10 && i + 2
            < out.len() && out[i + 1] == 13 && out[i + 2] == 10) {
            lemma_empty_line_ends(out, i + 1, at);
            lemma_empty_line_stays(out, Seq::empty(), i + 1);
        }
    }
}

/// What a complete response is answered with. A failed script without output is 502,
/// and so is output without a header block.
pub open spec fn completed_reply(
    c: CtxView,
    conf: FastCgiConf,
    out: Seq<u8>,
    app_status: u32,
) -> (CtxView, Result<PageView, u16>) {
    if out.len() == 0 {
        if app_status != 0 {
            (c, Err(502))
        } else {
            (
                CtxView { upstream_status: 200, ..c },
                Ok(PageView { resp: http::bare(200), body: None }),
            )
        }
    } else {
        match block_end(out) {
            None => (c, Err(502)),
            Some((h, at)) => {
                let head = cgi_of(conf, out.subrange(0, h));
                (
                    CtxView { upstream_status: final_status(head), ..c },
                    Ok(
                        PageView {
                            resp: cgi_resp(head),
                            body: Some(out.subrange(at, out.len() as int)),
                        },
                    ),
                )
            },
        }
    }
}

/// Builds the reply of a response that arrived in full.
pub fn complete_reply(ctx: &mut Ctx, conf: &FastCgiConf, out: &[u8], app_status: u32) -> (r: Result<
    Page,
    u16,
>)
    ensures
        ({
            let (next, reply) = completed_reply(old(ctx)@, *conf, out@, app_status);
            &&& final(ctx)@ == next
            &&& match r {
                Ok(p) => reply == Ok::<PageView, u16>(p@),
                Err(code) => reply == Err::<PageView, u16>(code),
            }
        }),
{
    if out.len() == 0 {
        if app_status != 0 {
            return Err(502);
        }
        ctx.upstream_status = 200;
        return Ok(Page { resp: Resp::new(200), body: None });
    }
    match find_header_end(out) {
        None => Err(502),
        Some((h, at)) => {
            let (resp, _) = parse_cgi_headers(ctx, conf, &out[0..h]);
            Ok(Page { resp, body: Some(bytes::copy(&out[at..out.len()])) })
        },
    }
}

/// Builds the reply of a response whose body is still arriving: `pre` is what arrived of
/// it, and `io` supplies the rest. An application that declared its own length is taken
/// at its word.
pub fn streaming_reply<M, F, S>(
    ctx: &mut Ctx,
    conf: &FastCgiConf,
    head: &[u8],
    pre: Vec<u8>,
    io: S,
) -> (r: Result<Reply<M, F, S>, u16>)
    ensures
        match block_end(head@) {
            None => r matches Err(code) && code == 502 && final(ctx)@ == old(ctx)@,
            Some((h, _)) => {
                let cgi = cgi_of(*conf, head@.subrange(0, h));
                &&& final(ctx)@ == (CtxView { upstream_status: final_status(cgi), ..old(ctx)@ })
                &&& r matches Ok(reply) && reply.resp@ == cgi_resp(cgi) && reply.body == (Body::<
                    M,
                    F,
                    S,
                >::Stream { pre, io, len: cgi.length })
            },
        },
{
    match find_header_end(head) {
        None => Err(502),
        Some((h, _)) => {
            let (resp, len) = parse_cgi_headers(ctx, conf, &head[0..h]);
            Ok(Reply { resp, body: Body::Stream { pre, io, len } })
        },
    }
}

} // verus!
