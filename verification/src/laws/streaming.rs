//! `stream`, `udp` and `preread`: connections that are passed on as they are.

use vstd::prelude::*;

use crate::bytes;
use crate::config::Part;
use crate::config::ProxyTarget;
use crate::config::Template;
use crate::config::Var;
use crate::conn::ReadEvent;
use crate::laws::variables;
use crate::preread;
use crate::preread::HelloView;
use crate::preread::Seen;
use crate::proxy;
use crate::stream;
use crate::stream::PickView;
use crate::stream::Relay;
use crate::stream::RelayAskView;
use crate::stream::RelayConf;
use crate::stream::RelayEvent;
use crate::stream::RelayStage;
use crate::stream::StreamVarsView;
use crate::text;
use crate::udp;
use crate::udp::Session;
use crate::udp::SessionEvent;
use crate::udp::SessionStep;

verus! {

// ---------------------------------------------------------------- where it goes

/// A peer without a port has the port of the web; a path and an address with a port stay.
pub proof fn law_peers_have_ports(host: Seq<u8>, port: Seq<u8>, path: Seq<u8>)
    requires
        !host.contains(58),
    ensures
        proxy::with_default_port(host + seq![58u8] + port) == host + seq![58u8] + port,
        proxy::with_default_port(host) == host + bytes::utf8(":80"@),
        proxy::with_default_port(bytes::utf8("unix:"@) + path) == bytes::utf8("unix:"@) + path,
{
    let a = host + seq![58u8] + port;
    bytes::lemma_find(a, 58, 0);
    if bytes::find(a, 58, 0) >= a.len() {
        assert(a[host.len() as int] == 58);
    }
    assert forall|j: int| 0 <= j < host.len() implies host[j] != 58 by {
        if host[j] == 58 {
            assert(host.contains(58));
        }
    }
    bytes::lemma_find_is(host, 58, 0, host.len() as int);
    let p = seq![117u8, 110u8, 105u8, 120u8, 58u8];
    bytes::lemma_ascii_text(p);
    reveal_strlit("unix:");
    assert(bytes::ascii_text(p) =~= "unix:"@);
    if bytes::starts(host, p) {
        assert(host.subrange(0, 5)[4] == 58);
    }
    assert((p + path).subrange(0, 5) =~= p);
}

proof fn lemma_group(groups: Seq<Vec<u8>>, name: Seq<u8>, i: int)
    requires
        0 <= i,
    ensures
        stream::names_group(groups, name, i) <==> exists|k: int|
            i <= k < groups.len() && (#[trigger] groups[k])@ == name,
    decreases groups.len() - i,
{
    if i < groups.len() {
        lemma_group(groups, name, i + 1);
        if stream::names_group(groups, name, i + 1) {
            let k = choose|k: int| i + 1 <= k < groups.len() && (#[trigger] groups[k])@ == name;
            assert(i <= k);
        }
    }
}

/// Some group has a name.
pub open spec fn is_group(groups: Seq<Vec<u8>>, name: Seq<u8>) -> bool {
    exists|k: int| 0 <= k < groups.len() && (#[trigger] groups[k])@ == name
}

/// A connection goes to the address, the path or the group it is configured for; to what
/// its variables make up, a group where one has that name; and nowhere without any.
pub proof fn law_streams_go_where_they_should(
    vars: StreamVarsView,
    host: Vec<u8>,
    port: u16,
    path: Vec<u8>,
    name: Vec<u8>,
    t: Template,
    groups: Seq<Vec<u8>>,
)
    ensures
        stream::picked(vars, ProxyTarget::Addr { host, port }, groups) == PickView::Address(
            host@ + seq![58u8] + bytes::decimal(port as nat),
        ),
        stream::picked(vars, ProxyTarget::Unix(path), groups) == PickView::Address(
            bytes::utf8("unix:"@) + path@,
        ),
        stream::picked(vars, ProxyTarget::Upstream(name), groups) == if is_group(groups, name@) {
            PickView::Group(name@)
        } else {
            PickView::Nowhere
        },
        ({
            let s = bytes::trimmed(vars.shown(t));
            stream::picked(vars, ProxyTarget::Dynamic(t), groups) == if s.len() == 0 {
                PickView::Nowhere
            } else if is_group(groups, s) {
                PickView::Group(s)
            } else {
                PickView::Address(proxy::with_default_port(s))
            }
        }),
{
    lemma_group(groups, name@, 0);
    lemma_group(groups, bytes::trimmed(vars.shown(t)), 0);
}

/// Variables of a connection are what its first message and its client say, and a template
/// is its parts one after another.
pub proof fn law_streams_have_variables(vars: StreamVarsView, t: Template, u: Template, p: Part)
    requires
        u.parts@ == t.parts@.push(p),
    ensures
        vars.shown(u) == vars.shown(t) + (match p {
            Part::Literal(s) => s@,
            Part::Variable(v) => vars.value(v, 0),
        }),
        (vars.hello matches Some(h) ==> vars.value(Var::SslPrereadServerName, 0) == bytes::utf8(
            h.server_name,
        ) && vars.value(Var::SslPrereadProtocol, 0) == bytes::utf8(h.protocol) && vars.value(
            Var::SslPrereadAlpnProtocols,
            0,
        ) == bytes::utf8(text::joined(h.alpn, ","@))),
        vars.hello is None ==> vars.value(Var::SslPrereadServerName, 0).len() == 0 && vars.value(
            Var::SslPrereadProtocol,
            0,
        ).len() == 0 && vars.value(Var::SslPrereadAlpnProtocols, 0).len() == 0,
        vars.remote is Some ==> vars.value(Var::RemoteAddr, 0) == variables::written(vars.remote)
            && vars.value(Var::RemotePort, 0) == bytes::decimal(
            variables::port_in(vars.remote) as nat,
        ),
{
    lemma_parts(vars, t.parts@, u.parts@, t.parts@.len() as int);
}

proof fn lemma_parts(vars: StreamVarsView, a: Seq<Part>, b: Seq<Part>, n: int)
    requires
        0 <= n <= a.len() <= b.len(),
        forall|i: int| 0 <= i < a.len() ==> a[i] == #[trigger] b[i],
    ensures
        vars.rendered(a, n, 0) == vars.rendered(b, n, 0),
    decreases n,
{
    if n > 0 {
        lemma_parts(vars, a, b, n - 1);
        assert(a[n - 1] == b[n - 1]);
    }
}

// ---------------------------------------------------------------- the relay

/// A connection is aimed by its first message where that is looked at, connected, passed on
/// both ways, and reported where it went to a group's peer.
pub proof fn law_a_connection_is_passed_on(conf: RelayConf, head: Seq<u8>, sent: u64, received: u64)
    ensures
        ({
            let r = Relay { stage: RelayStage::Connecting, grouped: true };
            let (r1, a1) = stream::relayed(r, conf, head, RelayEvent::Connected(true));
            let (r2, a2) = stream::relayed(r1, conf, head, RelayEvent::Copied { sent, received });
            &&& a1 == RelayAskView::Copy
            &&& a2 == RelayAskView::Report(sent == 0 || received > 0)
            &&& r2.stage == RelayStage::Done
        }),
        ({
            let r = Relay { stage: RelayStage::Connecting, grouped: false };
            let (r1, a1) = stream::relayed(r, conf, head, RelayEvent::Connected(true));
            let (r2, a2) = stream::relayed(r1, conf, head, RelayEvent::Copied { sent, received });
            a1 == RelayAskView::Copy && a2 == RelayAskView::Close && r2.stage == RelayStage::Done
        }),
{
}

/// A peer that cannot be connected to has failed, where it is one of a group; a group
/// without a peer closes the connection.
pub proof fn law_unreachable_peers_have_failed(
    conf: RelayConf,
    head: Seq<u8>,
    grouped: bool,
    addr: &[u8],
)
    ensures
        stream::relayed(
            Relay { stage: RelayStage::Connecting, grouped },
            conf,
            head,
            RelayEvent::Connected(false),
        ).1 == if grouped {
            RelayAskView::Report(false)
        } else {
            RelayAskView::Close
        },
        stream::relayed(
            Relay { stage: RelayStage::Choosing, grouped },
            conf,
            head,
            RelayEvent::Chosen(None),
        ).1 == RelayAskView::Close,
        stream::relayed(
            Relay { stage: RelayStage::Choosing, grouped },
            conf,
            head,
            RelayEvent::Chosen(Some(addr)),
        ) == (
            Relay { stage: RelayStage::Connecting, grouped },
            RelayAskView::Connect(proxy::with_default_port(addr@)),
        ),
{
}

/// Without a look at the first message a connection is aimed at once.
pub proof fn law_connections_are_aimed(conf: RelayConf, hello: Option<HelloView>)
    ensures
        !conf.ssl_preread ==> stream::relay_started(conf) == stream::aimed(conf, None),
        ({
            let p = stream::picked(
                StreamVarsView { maps: conf.maps@, remote: *conf.remote, hello },
                *conf.target,
                conf.groups@,
            );
            stream::aimed(conf, hello) == match p {
                PickView::Address(a) => (
                    Relay { stage: RelayStage::Connecting, grouped: false },
                    RelayAskView::Connect(a),
                ),
                PickView::Group(n) => (
                    Relay { stage: RelayStage::Choosing, grouped: true },
                    RelayAskView::Choose(n),
                ),
                PickView::Nowhere => (
                    Relay { stage: RelayStage::Done, grouped: false },
                    RelayAskView::Close,
                ),
            }
        }),
{
}

/// A first message that is looked at aims the connection once it is there; until then more
/// is read, while there is room for it.
pub proof fn law_the_first_message_aims(conf: RelayConf, head: Seq<u8>, n: usize, h: HelloView)
    requires
        n > 0,
    ensures
        ({
            let looking = Relay { stage: RelayStage::Looking, grouped: false };
            let next = stream::relayed(
                looking,
                conf,
                head,
                RelayEvent::Read(ReadEvent::Got(n)),
            );
            let room = conf.preread_buffer_size - head.len();
            &&& preread::seen(head) == Seen::Hello(h) ==> next == stream::aimed(conf, Some(h))
            &&& preread::seen(head) == Seen::NotTls ==> next == stream::aimed(conf, None)
            &&& preread::seen(head) == Seen::Incomplete && room > 0 ==> next == (
                looking,
                RelayAskView::Read(
                    if room < 4096 {
                        room
                    } else {
                        4096
                    },
                ),
            )
            &&& preread::seen(head) == Seen::Incomplete && room <= 0 ==> next == stream::aimed(
                conf,
                None,
            )
        }),
{
}

// ---------------------------------------------------------------- datagrams

/// A session goes on while datagrams pass, and ends after as many replies as are wanted.
pub proof fn law_sessions_go_on(s: Session, wanted: Option<u64>)
    requires
        s.responses < u64::MAX,
    ensures
        udp::session_next(s, SessionEvent::FromClient { passed: true }, wanted) == (
            Session { sent_any: true, ..s },
            SessionStep { goes_on: true, health: None },
        ),
        udp::session_next(s, SessionEvent::FromPeer { passed: true }, wanted) == (
            Session { responses: (s.responses + 1) as u64, ..s },
            SessionStep {
                goes_on: wanted is None || s.responses + 1 < wanted->0,
                health: Some(true),
            },
        ),
{
}

/// A peer that cannot be reached, or answers nothing of what it was sent, has failed; a
/// client that is gone says nothing about it.
pub proof fn law_sessions_end(s: Session, wanted: Option<u64>)
    ensures
        udp::session_next(s, SessionEvent::Unreachable, wanted).1 == (SessionStep {
            goes_on: false,
            health: Some(false),
        }),
        udp::session_next(s, SessionEvent::FromClient { passed: false }, wanted).1 == (SessionStep {
            goes_on: false,
            health: Some(false),
        }),
        udp::session_next(s, SessionEvent::PeerFailed, wanted).1 == (SessionStep {
            goes_on: false,
            health: Some(false),
        }),
        udp::session_next(s, SessionEvent::ClientGone, wanted).1 == (SessionStep {
            goes_on: false,
            health: None,
        }),
        udp::session_next(s, SessionEvent::FromPeer { passed: false }, wanted).1 == (SessionStep {
            goes_on: false,
            health: None,
        }),
        udp::session_next(s, SessionEvent::Idle, wanted).1 == (SessionStep {
            goes_on: false,
            health: if s.sent_any && s.responses == 0 && wanted != Some(0u64) {
                Some(false)
            } else {
                None
            },
        }),
{
}

// ---------------------------------------------------------------- the first message

/// A first message as it is written, without the four bytes in front of it.
pub open spec fn hello_bytes(
    version: nat,
    random: Seq<u8>,
    session: Seq<u8>,
    suites: Seq<u8>,
    methods: Seq<u8>,
    extensions: Seq<u8>,
) -> Seq<u8> {
    bytes::be(version, 2) + random + seq![session.len() as u8] + session + bytes::be(
        suites.len(),
        2,
    ) + suites + seq![methods.len() as u8] + methods + bytes::be(extensions.len(), 2) + extensions
}

/// One extension.
pub open spec fn extension(ty: nat, data: Seq<u8>) -> Seq<u8> {
    bytes::be(ty, 2) + bytes::be(data.len(), 2) + data
}

proof fn lemma_word(s: Seq<u8>, at: int, n: nat, width: nat)
    requires
        0 <= at,
        at + width <= s.len(),
        s.subrange(at, at + width) == bytes::be(n, width),
        n < bytes::pow256(width),
    ensures
        preread::word(s, at, width as int) == n,
{
    bytes::lemma_be_round_trip(n, width);
}

proof fn lemma_extensions_from(s: Seq<u8>, at: int, h: HelloView)
    requires
        0 <= at <= s.len(),
    ensures
        preread::extensions(s, at, h) == preread::extensions(s.subrange(at, s.len() as int), 0, h),
    decreases s.len() - at,
{
    let t = s.subrange(at, s.len() as int);
    if at + 4 <= s.len() {
        assert(t.subrange(2, 4) =~= s.subrange(at + 2, at + 4));
        assert(t.subrange(0, 2) =~= s.subrange(at, at + 2));
        let n = preread::word(s, at + 2, 2);
        assert(n >= 0);
        if at + 4 + n <= s.len() {
            let next = preread::with_extension(
                h,
                preread::word(s, at, 2),
                s.subrange(at + 4, at + 4 + n),
            );
            assert(t.subrange(4, 4 + n) =~= s.subrange(at + 4, at + 4 + n));
            lemma_extensions_from(s, at + 4 + n, next);
            lemma_extensions_from(t, 4 + n, next);
            assert(t.subrange(4 + n, t.len() as int) =~= s.subrange(at + 4 + n, s.len() as int));
        }
    }
}

/// Extensions are taken one after another.
pub proof fn law_extensions_are_taken_in_turn(ty: nat, data: Seq<u8>, rest: Seq<u8>, h: HelloView)
    requires
        ty < 0x1_0000,
        data.len() < 0x1_0000,
    ensures
        preread::extensions(extension(ty, data) + rest, 0, h) == preread::extensions(
            rest,
            0,
            preread::with_extension(h, ty as int, data),
        ),
        preread::extensions(Seq::empty(), 0, h) == Some(h),
{
    bytes::lemma_pow256();
    bytes::lemma_be_len(ty, 2);
    bytes::lemma_be_len(data.len(), 2);
    let s = extension(ty, data) + rest;
    assert(s.subrange(0, 2) =~= bytes::be(ty, 2));
    assert(s.subrange(2, 4) =~= bytes::be(data.len(), 2));
    lemma_word(s, 0, ty, 2);
    lemma_word(s, 2, data.len(), 2);
    assert(s.subrange(4, 4 + data.len() as int) =~= data);
    let next = preread::with_extension(h, ty as int, data);
    lemma_extensions_from(s, 4 + data.len() as int, next);
    assert(s.subrange(4 + data.len() as int, s.len() as int) =~= rest);
}

/// A first message is what its extensions make of it, beginning with its own version and
/// without a name; whatever else it offers does not matter.
pub proof fn law_a_first_message_is_read(
    version: nat,
    random: Seq<u8>,
    session: Seq<u8>,
    suites: Seq<u8>,
    methods: Seq<u8>,
    exts: Seq<u8>,
    h: HelloView,
)
    requires
        version < 0x1_0000,
        random.len() == 32,
        session.len() < 256,
        suites.len() < 0x1_0000,
        suites.len() % 2 == 0,
        methods.len() < 256,
        exts.len() < 0x1_0000,
        preread::extensions(
            exts,
            0,
            HelloView {
                server_name: Seq::empty(),
                alpn: Seq::empty(),
                protocol: preread::version_text(version as int),
            },
        ) == Some(h),
    ensures
        preread::client_hello(hello_bytes(version, random, session, suites, methods, exts))
            == Seen::Hello(h),
{
    bytes::lemma_pow256();
    bytes::lemma_be_len(version, 2);
    bytes::lemma_be_len(suites.len(), 2);
    bytes::lemma_be_len(exts.len(), 2);
    let b = hello_bytes(version, random, session, suites, methods, exts);
    assert(b.subrange(0, 2) =~= bytes::be(version, 2));
    lemma_word(b, 0, version, 2);
    assert(b[34] == session.len());
    let at = 35 + session.len() as int;
    assert(b.subrange(at, at + 2) =~= bytes::be(suites.len(), 2));
    lemma_word(b, at, suites.len(), 2);
    let m = at + 2 + suites.len();
    assert(b[m] == methods.len());
    let rest = m + 1 + methods.len();
    assert(b.subrange(rest, rest + 2) =~= bytes::be(exts.len(), 2));
    lemma_word(b, rest, exts.len(), 2);
    assert(b.subrange(rest + 2, rest + 2 + exts.len()) =~= exts);
    assert(b.len() == rest + 2 + exts.len());
}

/// Versions have their names.
pub proof fn law_versions_have_names()
    ensures
        preread::version_text(0x0300) == "SSLv3"@,
        preread::version_text(0x0301) == "TLSv1"@,
        preread::version_text(0x0302) == "TLSv1.1"@,
        preread::version_text(0x0303) == "TLSv1.2"@,
        preread::version_text(0x0304) == "TLSv1.3"@,
{
}

/// The name asked for is the host in its extension; the protocols offered are those in
/// theirs, and everything else leaves a message as it is.
pub proof fn law_extensions_say_what_they_are_for(h: HelloView, ty: int, data: Seq<u8>)
    ensures
        preread::server_name_of(data) matches Some(n) ==> preread::with_extension(h, 0, data) == (
        HelloView { server_name: n, ..h }),
        preread::alpn_of(data) matches Some(l) ==> preread::with_extension(h, 16, data) == (
        HelloView { alpn: l, ..h }),
        preread::best_version_of(data) matches Some(v) ==> preread::with_extension(h, 43, data) == (
        HelloView { protocol: v, ..h }),
        ty != 0 && ty != 16 && ty != 43 ==> preread::with_extension(h, ty, data) == h,
{
}

/// A host's name as it is written in its extension.
pub proof fn law_the_host_asked_for_is_read(host: Seq<char>)
    requires
        0 < bytes::utf8(host).len() < 0x1000,
        host.len() > 0,
    ensures
        ({
            let u = bytes::utf8(host);
            let entry = seq![0u8] + bytes::be(u.len(), 2) + u;
            preread::server_name_of(bytes::be(entry.len(), 2) + entry) == Some(host)
        }),
{
    let u = bytes::utf8(host);
    let entry = seq![0u8] + bytes::be(u.len(), 2) + u;
    let data = bytes::be(entry.len(), 2) + entry;
    bytes::lemma_pow256();
    bytes::lemma_be_len(u.len(), 2);
    bytes::lemma_be_len(entry.len(), 2);
    assert(data.subrange(0, 2) =~= bytes::be(entry.len(), 2));
    lemma_word(data, 0, entry.len(), 2);
    assert(data.subrange(2, 2 + entry.len() as int) =~= entry);
    assert(entry.subrange(1, 3) =~= bytes::be(u.len(), 2));
    lemma_word(entry, 1, u.len(), 2);
    assert(entry.subrange(3, 3 + u.len() as int) =~= u);
    vstd::utf8::encode_utf8_valid_utf8(host);
    vstd::utf8::encode_utf8_decode_utf8(host);
}

/// Protocols as they are written in their extension, from one on.
pub open spec fn protocol_list(names: Seq<Seq<char>>) -> Seq<u8>
    decreases names.len(),
{
    if names.len() == 0 {
        Seq::empty()
    } else {
        protocol_list(names.drop_last()) + seq![bytes::utf8(names.last()).len() as u8]
            + bytes::utf8(names.last())
    }
}

proof fn lemma_protocols(names: Seq<Seq<char>>, rest: Seq<u8>, acc: Seq<Seq<char>>)
    requires
        forall|i: int|
            0 <= i < names.len() ==> 0 < bytes::utf8(#[trigger] names[i]).len() < 256,
    ensures
        preread::protocols(protocol_list(names) + rest, 0, acc) == preread::protocols(
            protocol_list(names) + rest,
            protocol_list(names).len() as int,
            acc + names,
        ),
    decreases names.len(),
{
    if names.len() == 0 {
        assert(acc + names =~= acc);
    } else {
        let front = names.drop_last();
        assert forall|i: int| 0 <= i < front.len() implies 0 < bytes::utf8(
            #[trigger] front[i],
        ).len() < 256 by {
            assert(0 < bytes::utf8(names[i]).len() < 256);
        }
        let u = bytes::utf8(names.last());
        assert(0 < bytes::utf8(names[names.len() - 1]).len() < 256);
        let more = seq![u.len() as u8] + u + rest;
        lemma_protocols(front, more, acc);
        let s = protocol_list(names) + rest;
        assert(protocol_list(front) + more =~= s);
        let at = protocol_list(front).len() as int;
        assert(s[at] == u.len());
        assert(s.subrange(at + 1, at + 1 + u.len()) =~= u);
        vstd::utf8::encode_utf8_valid_utf8(names.last());
        vstd::utf8::encode_utf8_decode_utf8(names.last());
        assert((acc + front).push(names.last()) =~= acc + names);
        assert(at + 1 + u.len() == protocol_list(names).len());
    }
}

/// The protocols offered are read in their order.
pub proof fn law_the_protocols_offered_are_read(names: Seq<Seq<char>>)
    requires
        forall|i: int|
            0 <= i < names.len() ==> 0 < bytes::utf8(#[trigger] names[i]).len() < 256,
        protocol_list(names).len() < 0x1_0000,
    ensures
        preread::alpn_of(bytes::be(protocol_list(names).len(), 2) + protocol_list(names)) == Some(
            names,
        ),
{
    let list = protocol_list(names);
    let data = bytes::be(list.len(), 2) + list;
    bytes::lemma_pow256();
    bytes::lemma_be_len(list.len(), 2);
    assert(data.subrange(0, 2) =~= bytes::be(list.len(), 2));
    lemma_word(data, 0, list.len(), 2);
    assert(data.subrange(2, 2 + list.len() as int) =~= list);
    lemma_protocols(names, Seq::empty(), Seq::empty());
    assert(list + Seq::<u8>::empty() =~= list);
    assert(Seq::<Seq<char>>::empty() + names =~= names);
}

/// A version that is put in to be ignored: two equal bytes that end in ten.
pub open spec fn is_noise(v: int) -> bool {
    v / 256 == v % 256 && v % 16 == 10
}

/// Of the versions offered the highest counts, noise left out.
pub proof fn law_the_highest_version_counts(s: Seq<u8>, at: int, best: int)
    requires
        0 <= at,
        s.len() % 2 == at % 2,
        best >= 0,
    ensures
        ({
            let h = preread::highest(s, at, best);
            &&& h >= best
            &&& forall|i: int|
                at <= i && i + 2 <= s.len() && i % 2 == at % 2 && !is_noise(
                    #[trigger] preread::word(s, i, 2),
                ) ==> preread::word(s, i, 2) <= h
            &&& h == best || exists|i: int|
                at <= i && i + 2 <= s.len() && !is_noise(#[trigger] preread::word(s, i, 2))
                    && preread::word(s, i, 2) == h
        }),
    decreases s.len() - at,
{
    if at + 2 <= s.len() {
        let v = preread::word(s, at, 2);
        let next = if !is_noise(v) && v > best {
            v
        } else {
            best
        };
        law_the_highest_version_counts(s, at + 2, next);
        let h = preread::highest(s, at, best);
        assert forall|i: int|
            at <= i && i + 2 <= s.len() && i % 2 == at % 2 && !is_noise(
                #[trigger] preread::word(s, i, 2),
            ) implies preread::word(s, i, 2) <= h by {
            if i >= at + 2 {
                assert(i % 2 == (at + 2) % 2);
            }
        }
    }
}

/// The versions offered are as long as the byte in front of them says.
pub proof fn law_the_versions_offered_are_read(list: Seq<u8>)
    requires
        list.len() < 256,
        list.len() % 2 == 0,
        preread::version_text(preread::highest(list, 0, 0)) != ""@,
    ensures
        preread::best_version_of(seq![list.len() as u8] + list) == Some(
            preread::version_text(preread::highest(list, 0, 0)),
        ),
{
    let data = seq![list.len() as u8] + list;
    assert(data.subrange(1, 1 + list.len() as int) =~= list);
}

/// A message of the right kind is read up to the length it declares.
pub proof fn law_messages_are_as_long_as_they_say(body: Seq<u8>, rest: Seq<u8>, kind: u8)
    requires
        body.len() < 0x100_0000,
    ensures
        preread::message(seq![1u8] + bytes::be(body.len(), 3) + body + rest)
            == preread::client_hello(body),
        kind != 1 ==> preread::message(seq![kind] + bytes::be(body.len(), 3) + body + rest)
            == Seen::NotTls,
{
    bytes::lemma_pow256();
    bytes::lemma_be_len(body.len(), 3);
    let b = seq![1u8] + bytes::be(body.len(), 3) + body + rest;
    assert(b.subrange(1, 4) =~= bytes::be(body.len(), 3));
    lemma_word(b, 1, body.len(), 3);
    assert(b.subrange(4, 4 + body.len() as int) =~= body);
}

} // verus!
