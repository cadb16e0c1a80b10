//! What the firewall rules are shown of a request, and what their answer means.

use vstd::prelude::*;

use crate::bytes;
use crate::http;
use crate::http::Header;

verus! {

/// What the rules decided. `Allow` covers both "no rule matched" and "a rule matched but
/// only logged".
#[derive(Debug)]
pub enum Verdict {
    Allow,
    Block { status: u16 },
    Redirect { status: u16, url: Vec<u8> },
}

/// A verdict as plain values.
#[verifier::ext_equal]
pub ghost enum VerdictView {
    Allow,
    Block { status: u16 },
    Redirect { status: u16, url: Seq<u8> },
}

impl View for Verdict {
    type V = VerdictView;

    open spec fn view(&self) -> VerdictView {
        match self {
            Verdict::Allow => VerdictView::Allow,
            Verdict::Block { status } => VerdictView::Block { status: *status },
            Verdict::Redirect { status, url } => VerdictView::Redirect {
                status: *status,
                url: url@,
            },
        }
    }
}

/// What the rule engine reports.
#[derive(Debug)]
pub struct Intervention {
    pub acted: bool,
    pub disruptive: bool,
    pub status: i32,
    pub url: Option<Vec<u8>>,
}

/// The status an intervention is answered with; one that is no HTTP status counts as
/// 403.
pub open spec fn answer_status(status: i32) -> u16 {
    if 100 <= status <= 599 {
        status as u16
    } else {
        403
    }
}

/// What an intervention means. A rule that matched and chose only to log must not affect
/// the response.
pub open spec fn verdict_of(it: Intervention) -> VerdictView {
    if !it.acted || !it.disruptive {
        VerdictView::Allow
    } else {
        match it.url {
            Some(url) => VerdictView::Redirect { status: answer_status(it.status), url: url@ },
            None => VerdictView::Block { status: answer_status(it.status) },
        }
    }
}

/// Decides what an intervention means.
pub fn judge(it: Intervention) -> (r: Verdict)
    ensures
        r@ == verdict_of(it),
{
    if !it.acted || !it.disruptive {
        return Verdict::Allow;
    }
    let status: u16 = if it.status >= 100 && it.status <= 599 {
        it.status as u16
    } else {
        403
    };
    match it.url {
        Some(url) => Verdict::Redirect { status, url },
        None => Verdict::Block { status },
    }
}

/// Rules that only detect never block.
pub proof fn law_detection_does_not_block(it: Intervention)
    requires
        !it.disruptive,
    ensures
        verdict_of(it) is Allow,
{
}

/// A block is always answered with an HTTP status.
pub proof fn law_blocks_have_a_status(it: Intervention)
    ensures
        verdict_of(it) matches VerdictView::Block { status } ==> 100 <= status <= 599,
        verdict_of(it) matches VerdictView::Redirect { status, url } ==> 100 <= status <= 599,
{
}

/// What the rules are shown of one request.
#[derive(Debug)]
pub struct Transaction {
    pub client: Vec<u8>,
    pub client_port: u16,
    pub server: Vec<u8>,
    pub server_port: u16,
    pub uri: Vec<u8>,
    pub method: Vec<u8>,
    pub http_version: Vec<u8>,
    pub headers: Vec<Header>,
    pub body: Vec<u8>,
}

/// What the rules are shown, as plain values.
#[verifier::ext_equal]
pub ghost struct TransactionView {
    pub client: Seq<u8>,
    pub client_port: u16,
    pub server: Seq<u8>,
    pub server_port: u16,
    pub uri: Seq<u8>,
    pub method: Seq<u8>,
    pub http_version: Seq<u8>,
    pub headers: Seq<http::Field>,
    pub body: Seq<u8>,
}

impl View for Transaction {
    type V = TransactionView;

    open spec fn view(&self) -> TransactionView {
        TransactionView {
            client: self.client@,
            client_port: self.client_port,
            server: self.server@,
            server_port: self.server_port,
            uri: self.uri@,
            method: self.method@,
            http_version: self.http_version@,
            headers: http::fields(self.headers@),
            body: self.body@,
        }
    }
}

impl Transaction {
    /// A transaction of which nothing is known yet.
    pub fn new() -> (r: Transaction)
        ensures
            r@ == (TransactionView {
                client: Seq::empty(),
                client_port: 0,
                server: Seq::empty(),
                server_port: 0,
                uri: Seq::empty(),
                method: Seq::empty(),
                http_version: Seq::empty(),
                headers: Seq::empty(),
                body: Seq::empty(),
            }),
    {
        let r = Transaction {
            client: Vec::new(),
            client_port: 0,
            server: Vec::new(),
            server_port: 0,
            uri: Vec::new(),
            method: Vec::new(),
            http_version: Vec::new(),
            headers: Vec::new(),
            body: Vec::new(),
        };
        assert(r@.headers =~= Seq::empty());
        r
    }

    /// Who talks to whom. An address with a zero byte in it cannot be handed over, and
    /// nothing is.
    pub fn connection(&mut self, client: &[u8], client_port: u16, server: &[u8], server_port: u16)
        ensures
            final(self)@ == if bytes::has(client@, 0) || bytes::has(server@, 0) {
                old(self)@
            } else {
                TransactionView {
                    client: client@,
                    client_port,
                    server: server@,
                    server_port,
                    ..old(self)@
                }
            },
    {
        if bytes::contains(client, 0) || bytes::contains(server, 0) {
            return;
        }
        self.client = bytes::copy(client);
        self.client_port = client_port;
        self.server = bytes::copy(server);
        self.server_port = server_port;
    }

    /// What is asked for. The URI must carry the query string: the rules read the
    /// arguments out of it.
    pub fn uri(&mut self, uri: &[u8], method: &[u8], http_version: &[u8])
        ensures
            final(self)@ == if bytes::has(uri@, 0) || bytes::has(method@, 0) || bytes::has(
                http_version@,
                0,
            ) {
                old(self)@
            } else {
                TransactionView {
                    uri: uri@,
                    method: method@,
                    http_version: http_version@,
                    ..old(self)@
                }
            },
    {
        if bytes::contains(uri, 0) || bytes::contains(method, 0) || bytes::contains(
            http_version,
            0,
        ) {
            return;
        }
        self.uri = bytes::copy(uri);
        self.method = bytes::copy(method);
        self.http_version = bytes::copy(http_version);
    }

    /// One header of the request.
    pub fn request_header(&mut self, name: &[u8], value: &[u8])
        ensures
            final(self)@ == (TransactionView {
                headers: old(self)@.headers.push((name@, value@)),
                ..old(self)@
            }),
    {
        let ghost before = self@.headers;
        self.headers.push(Header { name: bytes::copy(name), value: bytes::copy(value) });
        assert(self@.headers =~= before.push((name@, value@)));
    }

    /// The body of the request.
    pub fn request_body(&mut self, body: &[u8])
        ensures
            final(self)@ == (TransactionView { body: old(self)@.body + body@, ..old(self)@ }),
    {
        self.body.extend_from_slice(body);
    }
}

} // verus!
