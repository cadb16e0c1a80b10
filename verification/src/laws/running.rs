//! `server`, `waf` and `modsec`: the processes, their sockets and certificates, and what is
//! shown to the firewall.

use vstd::prelude::*;

use crate::bytes;
use crate::config::ListenAddr;
use crate::config::ServerName;
use crate::ctx::CtxView;
use crate::laws::variables;
use crate::modsec;
use crate::server;
use crate::server::Certificate;
use crate::server::Child;
use crate::server::Control;
use crate::server::Held;
use crate::server::Listen;
use crate::server::MasterStep;
use crate::server::Peeked;
use crate::server::Serving;
use crate::server::SocketPlan;
use crate::server::SupervisorView;
use crate::server::Task;
use crate::server::Waited;
use crate::waf;
use crate::waf::Intervention;
use crate::waf::VerdictView;

verus! {

// ---------------------------------------------------------------- control

/// The master is told to stop, to quit, to reload or to reopen by these words alone.
pub proof fn law_controls_have_names(name: Seq<u8>)
    ensures
        server::control_of(name) == Some(Control::Stop) <==> name == bytes::utf8("stop"@),
        server::control_of(name) == Some(Control::Quit) <==> name == bytes::utf8("quit"@),
        server::control_of(name) == Some(Control::Reload) <==> name == bytes::utf8("reload"@),
        server::control_of(name) == Some(Control::Reopen) <==> name == bytes::utf8("reopen"@),
        server::control_of(name) is None <==> name != bytes::utf8("stop"@) && name != bytes::utf8(
            "quit"@,
        ) && name != bytes::utf8("reload"@) && name != bytes::utf8("reopen"@),
{
    reveal_strlit("stop");
    reveal_strlit("quit");
    reveal_strlit("reload");
    reveal_strlit("reopen");
    bytes::lemma_utf8_injective("stop"@, "quit"@);
    bytes::lemma_utf8_injective("stop"@, "reload"@);
    bytes::lemma_utf8_injective("stop"@, "reopen"@);
    bytes::lemma_utf8_injective("quit"@, "reload"@);
    bytes::lemma_utf8_injective("quit"@, "reopen"@);
    bytes::lemma_utf8_injective("reload"@, "reopen"@);
    assert("stop"@[0] != "quit"@[0]);
    assert("reload"@[2] != "reopen"@[2]);
    assert("stop"@.len() == 4 && "quit"@.len() == 4 && "reload"@.len() == 6);
}

/// A process is named by its number.
pub proof fn law_processes_have_numbers(n: nat)
    ensures
        n <= 0x7fff_ffff ==> server::signed(bytes::decimal(n)) == Some(n as int),
        n > 0x7fff_ffff ==> server::signed(bytes::decimal(n)) is None,
        n <= 0x8000_0000 ==> server::signed(seq![45u8] + bytes::decimal(n)) == Some(-(n as int)),
{
    bytes::lemma_decimal(n);
    let d = bytes::decimal(n);
    assert(bytes::is_digit(d[0]));
    assert((seq![45u8] + d).subrange(1, d.len() as int + 1) =~= d);
}

// ---------------------------------------------------------------- sockets

/// A socket that the configuration before holds is taken over, by its address; one that
/// every worker binds for itself is left to them, and any other is bound.
pub proof fn law_sockets_are_taken_over(l: Listen, held: Seq<Held>, per_worker: bool, k: int)
    requires
        0 <= k <= held.len(),
        k < held.len() ==> server::same_addr(held[k].addr, l.addr),
        forall|j: int| 0 <= j < k ==> !server::same_addr((#[trigger] held[j]).addr, l.addr),
        held.len() <= usize::MAX,
    ensures
        server::planned(l, held, per_worker) == if per_worker && l.reuseport {
            SocketPlan::PerWorker
        } else if k < held.len() && held[k].bound {
            SocketPlan::Take(k as usize)
        } else {
            SocketPlan::Bind
        },
{
    lemma_held(held, l.addr, 0, k);
}

proof fn lemma_held(held: Seq<Held>, a: ListenAddr, i: int, k: int)
    requires
        0 <= i <= k <= held.len(),
        k < held.len() ==> server::same_addr(held[k].addr, a),
        forall|j: int| i <= j < k ==> !server::same_addr((#[trigger] held[j]).addr, a),
    ensures
        server::held_place(held, a, i) == k,
    decreases k - i,
{
    if i < k {
        assert(!server::same_addr(held[i].addr, a));
        lemma_held(held, a, i + 1, k);
    }
}

/// Addresses are the same where both are of the network or both paths, and say the same.
pub proof fn law_addresses_are_compared(x: Vec<u8>, y: Vec<u8>)
    ensures
        server::same_addr(ListenAddr::Tcp(x), ListenAddr::Tcp(y)) <==> x@ == y@,
        server::same_addr(ListenAddr::Unix(x), ListenAddr::Unix(y)) <==> x@ == y@,
        !server::same_addr(ListenAddr::Tcp(x), ListenAddr::Unix(y)),
        !server::same_addr(ListenAddr::Unix(x), ListenAddr::Tcp(y)),
{
}

// ---------------------------------------------------------------- workers

/// Every listener is served by every worker, a datagram listener over TLS where it has a
/// certificate, and every worker flushes its logs.
pub proof fn law_listeners_are_served(worker: usize, own_state: bool, s: Serving, i: usize)
    ensures
        i < s.listeners ==> server::tasks_of(worker, own_state, s).contains(Task::Http(i)),
        i < s.udp_listeners ==> server::tasks_of(worker, own_state, s).contains(Task::Udp(i)),
        i < s.stream_listeners ==> server::tasks_of(worker, own_state, s).contains(Task::Stream(i)),
        i < s.quic@.len() && s.quic@[i as int] ==> server::tasks_of(worker, own_state, s).contains(
            Task::Quic(i),
        ),
        server::tasks_of(worker, own_state, s).contains(Task::FlushLogs),
{
    let a = server::places(s.listeners).map_values(|i: usize| Task::Http(i));
    let q = server::marked(s.quic@, s.quic@.len() as int);
    let b = q.map_values(|i: usize| Task::Quic(i));
    let c = server::places(s.udp_listeners).map_values(|i: usize| Task::Udp(i));
    let d = server::places(s.stream_listeners).map_values(|i: usize| Task::Stream(i));
    let all = server::tasks_of(worker, own_state, s);
    if i < s.listeners {
        assert(all[i as int] == Task::Http(i));
    }
    if i < s.quic@.len() && s.quic@[i as int] {
        lemma_marked(s.quic@, s.quic@.len() as int, i);
        let k = choose|k: int| 0 <= k < q.len() && q[k] == i;
        assert(b[k] == Task::Quic(i));
        assert(all[a.len() as int + k] == Task::Quic(i));
    }
    if i < s.udp_listeners {
        assert(c[i as int] == Task::Udp(i));
        assert(all[(a.len() + b.len()) as int + i as int] == Task::Udp(i));
    }
    if i < s.stream_listeners {
        assert(d[i as int] == Task::Stream(i));
        assert(all[(a.len() + b.len() + c.len()) as int + i as int] == Task::Stream(i));
    }
    assert(all[all.len() - 1] == Task::FlushLogs);
}

proof fn lemma_marked(marks: Seq<bool>, n: int, i: usize)
    requires
        0 <= n <= marks.len(),
        i < n,
        marks[i as int],
    ensures
        server::marked(marks, n).contains(i),
    decreases n,
{
    let all = server::marked(marks, n);
    let before = server::marked(marks, n - 1);
    if i == n - 1 {
        assert(all[before.len() as int] == i);
    } else {
        lemma_marked(marks, n - 1, i);
        let k = choose|k: int| 0 <= k < before.len() && before[k] == i;
        assert(all[k] == i);
    }
}

/// A worker that ends on its own is started again in its place; one of a superseded
/// configuration, or of a master that stops, is not; the last to go ends the master.
pub proof fn law_the_master_looks_after_its_workers(s: SupervisorView, pid: i32, k: int)
    requires
        0 <= k < s.children.len(),
        s.children[k].pid == pid,
        forall|j: int| 0 <= j < k ==> (#[trigger] s.children[j]).pid != pid,
        forall|j: int| 0 <= j < s.retiring.len() ==> #[trigger] s.retiring[j] != pid,
    ensures
        ({
            let (left, step) = server::supervised(s, Waited::Exited(pid));
            &&& left.children.len() == s.children.len() - 1
            &&& left.retiring == s.retiring
            &&& !s.stopping ==> step == MasterStep::Respawn(s.children[k].worker)
            &&& s.stopping && s.children.len() == 1 && s.retiring.len() == 0 ==> step
                == MasterStep::End
            &&& s.stopping && (s.children.len() > 1 || s.retiring.len() > 0) ==> step
                == MasterStep::Wait
        }),
{
    lemma_child(s.children, pid, 0, k);
    lemma_retiring(s.retiring, pid, 0);
}

proof fn lemma_child(cs: Seq<Child>, pid: i32, i: int, k: int)
    requires
        0 <= i <= k < cs.len(),
        cs[k].pid == pid,
        forall|j: int| i <= j < k ==> (#[trigger] cs[j]).pid != pid,
    ensures
        server::child_place(cs, pid, i) == k,
    decreases k - i,
{
    if i < k {
        assert(cs[i].pid != pid);
        lemma_child(cs, pid, i + 1, k);
    }
}

proof fn lemma_retiring(ps: Seq<i32>, pid: i32, i: int)
    requires
        0 <= i <= ps.len(),
        forall|j: int| i <= j < ps.len() ==> #[trigger] ps[j] != pid,
    ensures
        server::retiring_place(ps, pid, i) == ps.len(),
    decreases ps.len() - i,
{
    if i < ps.len() {
        assert(ps[i] != pid);
        lemma_retiring(ps, pid, i + 1);
    }
}

/// What is not the end of a process is waited out, or ends the master.
pub proof fn law_the_master_waits(s: SupervisorView)
    ensures
        server::supervised(s, Waited::Interrupted) == (
            s,
            if s.stopping {
                MasterStep::QuitAll
            } else {
                MasterStep::Wait
            },
        ),
        server::supervised(s, Waited::NoChildren) == (s, MasterStep::End),
        server::supervised(s, Waited::Failed) == (s, MasterStep::Fail),
{
}

/// A reload puts new workers in the place of the old ones, which retire.
pub proof fn law_a_reload_retires_the_old(s: SupervisorView, fresh: Seq<Child>, k: int)
    requires
        0 <= k < s.children.len(),
    ensures
        ({
            let after = server::reloaded(s, Some(fresh));
            &&& after.children == fresh
            &&& after.stopping == s.stopping
            &&& after.retiring.len() == s.retiring.len() + s.children.len()
            &&& after.retiring.contains(s.children[k].pid)
        }),
{
    let after = server::reloaded(s, Some(fresh));
    assert(after.retiring[s.retiring.len() as int + k] == s.children[k].pid);
}

// ---------------------------------------------------------------- protocols

/// A connection that begins otherwise than HTTP/2 does is not HTTP/2.
pub proof fn law_other_beginnings_are_not_http2(buf: Seq<u8>, i: int)
    requires
        0 <= i < buf.len(),
        i < server::preface().len(),
        buf[i] != server::preface()[i],
    ensures
        server::peeked(buf) == Peeked::Http1,
{
    let p = server::preface();
    let have = if buf.len() < p.len() {
        buf.len() as int
    } else {
        p.len() as int
    };
    assert(buf.subrange(0, have)[i] != p.subrange(0, have)[i]);
}

/// HTTP/2 begins with its preface.
pub proof fn law_the_preface_is_spelled_out()
    ensures
        server::preface() == bytes::utf8("PRI * HTTP/2.0\r\n\r\nSM\r\n\r\n"@),
        server::preface().len() == 24,
{
    reveal_strlit("PRI * HTTP/2.0\r\n\r\nSM\r\n\r\n");
    bytes::lemma_ascii_len("PRI * HTTP/2.0\r\n\r\nSM\r\n\r\n"@);
}

// ---------------------------------------------------------------- certificates

proof fn lemma_star()
    ensures
        bytes::utf8("*."@) == seq![42u8, 46u8],
{
    let p = seq![42u8, 46u8];
    bytes::lemma_ascii_text(p);
    reveal_strlit("*.");
    assert(bytes::ascii_text(p) =~= "*."@);
}

/// A certificate's name covers a host of that name, whatever the case; one with a star
/// covers every host below it.
pub proof fn law_names_cover_hosts(name: Seq<u8>, more: Seq<u8>, sni: Seq<u8>)
    requires
        name.len() > 0,
        name[0] != 42,
    ensures
        server::covers(name, sni) <==> bytes::same_name(sni, name),
        server::covers(seq![42u8, 46u8] + name, more + seq![46u8] + name),
        !server::covers(seq![42u8, 46u8] + name, name),
        sni.len() > name.len() && sni[sni.len() - name.len() - 1] != 46 ==> !server::covers(
            seq![42u8, 46u8] + name,
            sni,
        ),
{
    lemma_star();
    let star = seq![42u8, 46u8];
    if bytes::starts(name, star) {
        assert(name.subrange(0, 2)[0] == 42);
    }
    let w = star + name;
    assert(w.subrange(0, 2) =~= star);
    assert(w.subrange(2, w.len() as int) =~= name);
    let h = more + seq![46u8] + name;
    assert(h.subrange(h.len() - name.len(), h.len() as int) =~= name);
    assert(h[h.len() - name.len() - 1] == 46);
}

proof fn lemma_any(names: Seq<Vec<u8>>, sni: Seq<u8>, i: int)
    requires
        0 <= i,
    ensures
        server::any_covers(names, sni, i) <==> exists|k: int|
            i <= k < names.len() && server::covers((#[trigger] names[k])@, sni),
    decreases names.len() - i,
{
    if i < names.len() {
        lemma_any(names, sni, i + 1);
        if server::any_covers(names, sni, i + 1) {
            let k = choose|k: int|
                i + 1 <= k < names.len() && server::covers((#[trigger] names[k])@, sni);
            assert(i <= k);
        }
    }
}

/// A host is shown a certificate that one of its names covers, and of several the first.
pub open spec fn is_for(c: Certificate, sni: Seq<u8>) -> bool {
    exists|k: int| 0 <= k < c.names@.len() && server::covers((#[trigger] c.names@[k])@, sni)
}

/// The first certificate for the host asked for is shown, and the first of all where there
/// is none, or where no host was asked for.
pub proof fn law_the_right_certificate_is_shown(cs: Seq<Certificate>, sni: Seq<u8>, k: int)
    requires
        cs.len() > 0,
        0 <= k <= cs.len(),
        k < cs.len() ==> is_for(cs[k], sni),
        forall|j: int| 0 <= j < k ==> !is_for(#[trigger] cs[j], sni),
    ensures
        server::resolved(cs, Some(sni)) == Some(
            if k < cs.len() {
                k
            } else {
                0
            },
        ),
        server::resolved(cs, None) == Some(0int),
{
    lemma_cert(cs, sni, 0, k);
}

proof fn lemma_cert(cs: Seq<Certificate>, sni: Seq<u8>, i: int, k: int)
    requires
        0 <= i <= k <= cs.len(),
        k < cs.len() ==> is_for(cs[k], sni),
        forall|j: int| i <= j < k ==> !is_for(#[trigger] cs[j], sni),
    ensures
        server::cert_place(cs, sni, i) == k,
    decreases k - i,
{
    if i < cs.len() {
        lemma_any(cs[i].names@, sni, 0);
    }
    if i < k {
        assert(!is_for(cs[i], sni));
        lemma_cert(cs, sni, i + 1, k);
    }
}

/// A certificate is for the names of its server: exact ones and those with a star in front.
pub proof fn law_certificates_have_the_servers_names(names: Seq<ServerName>, n: int)
    requires
        0 < n <= names.len(),
    ensures
        ({
            let before = server::sni_names(names, n - 1);
            server::sni_names(names, n) == match names[n - 1] {
                ServerName::Exact(e) => if e@.len() > 0 {
                    before.push(e@)
                } else {
                    before
                },
                ServerName::LeadingWildcard(x) => before.push(seq![42u8, 46u8] + x@),
                ServerName::TrailingWildcard(x) => before,
                ServerName::Regex(p) => before,
            }
        }),
        server::sni_names(names, 0).len() == 0,
{
    lemma_star();
}

// ---------------------------------------------------------------- the firewall

/// A request is stopped by a disruptive intervention alone: by a redirect where it names a
/// place, by a refusal where it does not; with its status where that is one.
pub proof fn law_interventions_are_followed(it: Intervention)
    ensures
        ({
            let status: u16 = if 100 <= it.status <= 599 {
                it.status as u16
            } else {
                403
            };
            &&& !(it.acted && it.disruptive) ==> waf::verdict_of(it) == VerdictView::Allow
            &&& it.acted && it.disruptive && it.url is None ==> waf::verdict_of(it)
                == (VerdictView::Block { status })
            &&& (it.url matches Some(u) ==> it.acted && it.disruptive ==> waf::verdict_of(it)
                == (VerdictView::Redirect { status, url: u@ }))
        }),
{
}

/// The firewall is shown the request as it came: addresses and ports, the path with its
/// arguments, method and version, every header and the body.
pub proof fn law_the_firewall_sees_the_request(c: CtxView)
    requires
        c.env.remote is Some,
        c.env.local is Some,
    ensures
        ({
            let t = modsec::transaction_of(c);
            &&& t.client == variables::written(c.env.remote)
            &&& t.client_port == variables::port_in(c.env.remote)
            &&& t.server == variables::written(c.env.local)
            &&& t.server_port == variables::port_in(c.env.local)
            &&& t.uri == if c.args.len() > 0 {
                c.uri + seq![63u8] + c.args
            } else {
                c.uri
            }
            &&& t.method == c.env.req.method@
            &&& c.env.req.minor == 0 ==> t.http_version == bytes::utf8("1.0"@)
            &&& c.env.req.minor != 0 ==> t.http_version == bytes::utf8("1.1"@)
            &&& t.headers.len() == c.env.req.headers@.len()
            &&& forall|i: int|
                0 <= i < t.headers.len() ==> #[trigger] t.headers[i] == (
                    c.env.req.headers@[i].name@,
                    c.env.req.headers@[i].value@,
                )
            &&& t.body == c.env.body@
        }),
{
}

/// A redirect of the firewall leads to its place, without a body.
pub proof fn law_the_firewall_redirects(status: u16, url: Seq<u8>)
    ensures
        ({
            let p = modsec::redirect_page(status, url);
            &&& p.resp.status == status
            &&& p.resp.headers.contains((bytes::utf8("Location"@), url))
            &&& (p.body matches Some(b) && b.len() == 0)
        }),
{
    let p = modsec::redirect_page(status, url);
    assert(p.resp.headers[0] == (bytes::utf8("Location"@), url));
}

/// A worker that is told to quit finishes what it has begun; one that is told to end does so
/// at once.
pub proof fn law_workers_stop_as_they_are_told()
    ensures
        server::stop_for(server::WorkerSignal::Quit) == Some(server::StopKind::Graceful),
        server::stop_for(server::WorkerSignal::Terminate) == Some(server::StopKind::Now),
        server::stop_for(server::WorkerSignal::Interrupt) == Some(server::StopKind::Now),
        server::stop_for(server::WorkerSignal::Reopen) is None,
{
}

} // verus!
