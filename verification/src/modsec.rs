//! Runs the configured firewall rules against a request.
//!
//! Only the request phases are wired: connection, URI, request headers and request
//! body.

use vstd::prelude::*;
use vstd::string::*;

use crate::bytes;
use crate::config::Addr;
use crate::ctx;
use crate::ctx::Ctx;
use crate::ctx::CtxView;
use crate::handler::Page;
use crate::handler::PageView;
use crate::http;
use crate::http::Resp;
use crate::http::RespView;
use crate::waf::Transaction;
use crate::waf::TransactionView;
use crate::waf::Verdict;
use crate::waf::VerdictView;

verus! {

/// The outcome, when the rules had something to say.
#[derive(Debug)]
pub enum Blocked {
    Status(u16),
    Redirect(Page),
}

/// The address and port the rules are shown. A client on a Unix socket has none, and an
/// obviously local one is better than an invented one.
pub open spec fn shown_addr(a: Option<Addr>) -> (Seq<u8>, u16) {
    match a {
        Some(_) => (ctx::addr_text(a), ctx::port_of(a)),
        None => (bytes::utf8("127.0.0.1"@), 0),
    }
}

fn show_addr(a: &Option<Addr>) -> (r: (Vec<u8>, u16))
    ensures
        (r.0@, r.1) == shown_addr(*a),
{
    match a {
        Some(_) => {
            let mut out: Vec<u8> = Vec::new();
            ctx::push_addr(&mut out, a);
            assert(out@ =~= ctx::addr_text(*a));
            (out, ctx::port(a))
        },
        None => (bytes::copy("127.0.0.1".as_bytes()), 0),
    }
}

/// The URI the rules are shown: the query string travels with the path.
pub open spec fn shown_uri(c: CtxView) -> Seq<u8> {
    if c.args.len() == 0 {
        c.uri
    } else {
        c.uri + seq![63u8] + c.args
    }
}

/// What the rules are shown of a request whose addresses, URI and method hold no zero
/// byte.
pub open spec fn transaction_of(c: CtxView) -> TransactionView {
    TransactionView {
        client: shown_addr(c.env.remote).0,
        client_port: shown_addr(c.env.remote).1,
        server: shown_addr(c.env.local).0,
        server_port: shown_addr(c.env.local).1,
        uri: shown_uri(c),
        method: c.env.req.method@,
        http_version: if c.env.req.minor == 0 {
            bytes::utf8("1.0"@)
        } else {
            bytes::utf8("1.1"@)
        },
        headers: http::fields(c.env.req.headers@),
        body: c.env.body@,
    }
}

/// Collects what the rules are shown of a request. What holds a zero byte cannot be
/// handed over, and stays empty.
pub fn transaction(ctx: &Ctx) -> (r: Transaction)
    ensures
        ({
            let all = transaction_of(ctx@);
            let addressed = !bytes::has(all.client, 0) && !bytes::has(all.server, 0);
            let named = !bytes::has(all.uri, 0) && !bytes::has(all.method, 0) && !bytes::has(
                all.http_version,
                0,
            );
            r@ == (TransactionView {
                client: if addressed {
                    all.client
                } else {
                    Seq::empty()
                },
                client_port: if addressed {
                    all.client_port
                } else {
                    0
                },
                server: if addressed {
                    all.server
                } else {
                    Seq::empty()
                },
                server_port: if addressed {
                    all.server_port
                } else {
                    0
                },
                uri: if named {
                    all.uri
                } else {
                    Seq::empty()
                },
                method: if named {
                    all.method
                } else {
                    Seq::empty()
                },
                http_version: if named {
                    all.http_version
                } else {
                    Seq::empty()
                },
                headers: all.headers,
                body: all.body,
            })
        }),
{
    let mut t: Transaction = Transaction::new();
    let (client, client_port) = show_addr(&ctx.env.remote);
    let (server, server_port) = show_addr(&ctx.env.local);
    t.connection(client.as_slice(), client_port, server.as_slice(), server_port);
    let mut uri: Vec<u8> = bytes::copy(ctx.uri.as_slice());
    if ctx.args.len() > 0 {
        uri.push(63);
        uri.extend_from_slice(ctx.args.as_slice());
    }
    assert(uri@ =~= shown_uri(ctx@));
    let version: &[u8] = if ctx.env.req.minor == 0 {
        "1.0".as_bytes()
    } else {
        "1.1".as_bytes()
    };
    t.uri(uri.as_slice(), ctx.env.req.method.as_slice(), version);
    let ghost base = t@;
    let hs = &ctx.env.req.headers;
    let ghost fs = http::fields(hs@);
    for i in 0..hs.len()
        invariant
            fs == http::fields(hs@),
            base.headers == Seq::<http::Field>::empty(),
            t@ == (TransactionView { headers: fs.subrange(0, i as int), ..base }),
    {
        assert(fs[i as int] == http::field(hs@[i as int]));
        t.request_header(hs[i].name.as_slice(), hs[i].value.as_slice());
        assert(t@.headers =~= fs.subrange(0, i + 1));
    }
    assert(fs.subrange(0, fs.len() as int) =~= fs);
    t.request_body(ctx.env.body.as_slice());
    assert(t@.body =~= ctx@.env.body@);
    t
}

/// Whether the body is judged too: only where the headers were allowed.
pub fn judges_body(headers: &Verdict) -> (r: bool)
    ensures
        r == (headers@ is Allow),
{
    match headers {
        Verdict::Allow => true,
        _ => false,
    }
}

/// The page of a redirect the rules asked for.
pub open spec fn redirect_page(status: u16, url: Seq<u8>) -> PageView {
    PageView {
        resp: RespView {
            headers: seq![
                (bytes::utf8("Location"@), url),
                (bytes::utf8("Content-Length"@), bytes::utf8("0"@)),
            ],
            ..http::bare(status)
        },
        body: Some(Seq::empty()),
    }
}

/// Turns a verdict into an outcome; nothing means carry on.
pub fn outcome(v: Verdict) -> (r: Option<Blocked>)
    ensures
        match v@ {
            VerdictView::Allow => r is None,
            VerdictView::Block { status } => r == Some(Blocked::Status(status)),
            VerdictView::Redirect { status, url } => r matches Some(Blocked::Redirect(p)) && p@
                == redirect_page(status, url),
        },
{
    match v {
        Verdict::Allow => None,
        Verdict::Block { status } => Some(Blocked::Status(status)),
        Verdict::Redirect { status, url } => {
            let mut resp = Resp::new(status);
            resp.header("Location", url.as_slice());
            resp.header("Content-Length", "0".as_bytes());
            assert(resp@.headers =~= redirect_page(status, url@).resp.headers);
            let p = Page { resp, body: Some(Vec::new()) };
            assert(p@.body->0 =~= Seq::<u8>::empty());
            Some(Blocked::Redirect(p))
        },
    }
}

} // verus!
