//! The `stream` block: layer 4 TCP proxying.
//!
//! No HTTP is parsed here. A connection is accepted, an upstream is chosen, and bytes
//! are copied in both directions until one side closes or goes quiet. With
//! `ssl_preread on` the first bytes are inspected before a backend is chosen:
//! inspected, never consumed.

use vstd::prelude::*;
use vstd::string::*;

use crate::bytes;
use crate::config::Addr;
use crate::config::MapConf;
use crate::config::Part;
use crate::config::ProxyTarget;
use crate::config::Template;
use crate::config::Var;
use crate::conn::ReadEvent;
use crate::ctx;
use crate::preread;
use crate::preread::Hello;
use crate::preread::HelloView;
use crate::preread::Preread;
use crate::preread::Seen;
use crate::proxy;
use crate::text;

verus! {

/// Copy buffer per direction.
pub const BUF: usize = 32768;

/// The most bytes one read of a preread takes.
pub const PREREAD_CHUNK: usize = 4096;

/// The address of a peer in the form it is connected to: port 80 unless it has one.
pub fn peer_addr(addr: &[u8]) -> (r: Vec<u8>)
    ensures
        r@ == proxy::with_default_port(addr@),
{
    proxy::peer_addr(addr)
}

// ---------------------------------------------------------------- variables

/// What a `stream` connection can show: the peer's address, and whatever the TLS
/// ClientHello disclosed.
#[derive(Debug)]
pub struct StreamVars<'a> {
    pub maps: &'a Vec<MapConf>,
    pub remote: &'a Option<Addr>,
    pub hello: Option<&'a Hello>,
}

/// What a connection can show, as plain values.
#[verifier::ext_equal]
pub ghost struct StreamVarsView {
    pub maps: Seq<MapConf>,
    pub remote: Option<Addr>,
    pub hello: Option<HelloView>,
}

impl<'a> View for StreamVars<'a> {
    type V = StreamVarsView;

    open spec fn view(&self) -> StreamVarsView {
        StreamVarsView {
            maps: self.maps@,
            remote: *self.remote,
            hello: match self.hello {
                Some(h) => Some(h@),
                None => None,
            },
        }
    }
}

impl StreamVarsView {
    /// The value of a variable. Anything that is not known at layer 4 is empty.
    pub open spec fn value(self, v: Var, depth: int) -> Seq<u8>
        decreases 11 - depth, 1int,
    {
        match v {
            Var::SslPrereadServerName => match self.hello {
                Some(h) => bytes::utf8(h.server_name),
                None => Seq::empty(),
            },
            Var::SslPrereadAlpnProtocols => match self.hello {
                Some(h) => bytes::utf8(text::joined(h.alpn, ","@)),
                None => Seq::empty(),
            },
            Var::SslPrereadProtocol => match self.hello {
                Some(h) => bytes::utf8(h.protocol),
                None => Seq::empty(),
            },
            Var::RemoteAddr | Var::BinaryRemoteAddr => if self.remote is Some {
                ctx::addr_text(self.remote)
            } else {
                Seq::empty()
            },
            Var::RemotePort => if self.remote is Some {
                bytes::decimal(ctx::port_of(self.remote) as nat)
            } else {
                Seq::empty()
            },
            Var::User(name) => self.user_value(name@, depth),
            _ => Seq::empty(),
        }
    }

    /// The value of a variable defined by a `map` of the `stream` block.
    pub open spec fn user_value(self, name: Seq<u8>, depth: int) -> Seq<u8>
        decreases 11 - depth, 0int,
    {
        let m = ctx::map_place(self.maps, name, 0);
        if depth > ctx::MAX_MAP_DEPTH || !(0 <= m < self.maps.len()) {
            Seq::empty()
        } else {
            match ctx::looked_up(self.maps[m], self.value(self.maps[m].source, depth + 1)) {
                Some(t) => self.rendered(t.parts@, t.parts@.len() as int, depth + 1),
                None => Seq::empty(),
            }
        }
    }

    /// The first `n` parts of a template with the values of their variables.
    pub open spec fn rendered(self, parts: Seq<Part>, n: int, depth: int) -> Seq<u8>
        decreases 11 - depth, n + 1,
    {
        if n <= 0 {
            Seq::empty()
        } else {
            self.rendered(parts, n - 1, depth) + match parts[n - 1] {
                Part::Literal(s) => s@,
                Part::Variable(v) => self.value(v, depth),
            }
        }
    }

    /// What a template stands for.
    pub open spec fn shown(self, t: Template) -> Seq<u8> {
        self.rendered(t.parts@, t.parts@.len() as int, 0)
    }
}

impl<'a> StreamVars<'a> {
    fn find_map(&self, name: &[u8]) -> (r: Option<usize>)
        ensures
            match r {
                Some(i) => i < self.maps@.len() && ctx::map_place(self.maps@, name@, 0) == i,
                None => ctx::map_place(self.maps@, name@, 0) == self.maps@.len(),
            },
    {
        for i in 0..self.maps.len()
            invariant
                ctx::map_place(self.maps@, name@, 0) == ctx::map_place(
                    self.maps@,
                    name@,
                    i as int,
                ),
        {
            if bytes::same(self.maps[i].target.as_slice(), name) {
                return Some(i);
            }
        }
        None
    }

    fn var_depth(&self, v: &Var, out: &mut Vec<u8>, depth: u32)
        requires
            depth <= 11,
        ensures
            final(out)@ == old(out)@ + self@.value(*v, depth as int),
        decreases 11 - depth, 1int,
    {
        match v {
            Var::SslPrereadServerName => {
                if let Some(h) = self.hello {
                    out.extend_from_slice(h.server_name.as_str().as_bytes());
                }
            },
            Var::SslPrereadAlpnProtocols => {
                if let Some(h) = self.hello {
                    let list: String = h.alpn_list();
                    out.extend_from_slice(list.as_str().as_bytes());
                }
            },
            Var::SslPrereadProtocol => {
                if let Some(h) = self.hello {
                    out.extend_from_slice(h.protocol.as_bytes());
                }
            },
            Var::RemoteAddr | Var::BinaryRemoteAddr => {
                if self.remote.is_some() {
                    ctx::push_addr(out, self.remote);
                }
            },
            Var::RemotePort => {
                if self.remote.is_some() {
                    bytes::push_decimal(out, ctx::port(self.remote) as u64);
                }
            },
            Var::User(name) => {
                self.user_var(name.as_slice(), out, depth);
            },
            _ => {},
        }
        assert(out@ =~= old(out)@ + self@.value(*v, depth as int));
    }

    fn user_var(&self, name: &[u8], out: &mut Vec<u8>, depth: u32)
        requires
            depth <= 11,
        ensures
            final(out)@ == old(out)@ + self@.user_value(name@, depth as int),
        decreases 11 - depth, 0int,
    {
        if depth <= ctx::MAX_MAP_DEPTH {
            if let Some(i) = self.find_map(name) {
                let m: &MapConf = &self.maps[i];
                let mut key: Vec<u8> = Vec::new();
                self.var_depth(&m.source, &mut key, depth + 1);
                assert(key@ =~= self@.value(m.source, depth + 1));
                if let Some(t) = ctx::map_lookup(m, key.as_slice()) {
                    self.render_parts(&t.parts, out, depth + 1);
                }
            }
        }
        assert(out@ =~= old(out)@ + self@.user_value(name@, depth as int));
    }

    fn render_parts(&self, parts: &Vec<Part>, out: &mut Vec<u8>, depth: u32)
        requires
            depth <= 11,
        ensures
            final(out)@ == old(out)@ + self@.rendered(
                parts@,
                parts@.len() as int,
                depth as int,
            ),
        decreases 11 - depth, 2int,
    {
        let ghost before = out@;
        for i in 0..parts.len()
            invariant
                depth <= 11,
                out@ == before + self@.rendered(parts@, i as int, depth as int),
        {
            match &parts[i] {
                Part::Literal(s) => {
                    out.extend_from_slice(s.as_slice());
                },
                Part::Variable(v) => {
                    self.var_depth(v, out, depth);
                },
            }
            assert(out@ =~= before + self@.rendered(parts@, i + 1, depth as int));
        }
    }

    /// Appends the value of a variable.
    pub fn var(&self, v: &Var, out: &mut Vec<u8>)
        ensures
            final(out)@ == old(out)@ + self@.value(*v, 0),
    {
        self.var_depth(v, out, 0);
    }

    /// Renders a template.
    pub fn render(&self, t: &Template) -> (r: Vec<u8>)
        ensures
            r@ == self@.shown(*t),
    {
        let mut out: Vec<u8> = Vec::new();
        self.render_parts(&t.parts, &mut out, 0);
        assert(out@ =~= self@.shown(*t));
        out
    }
}

// ---------------------------------------------------------------- choosing a backend

/// Where a connection goes.
#[derive(Debug)]
pub enum Pick {
    /// To this address.
    Address(Vec<u8>),
    /// To a live peer of the upstream group of this name.
    Group(Vec<u8>),
    /// Nowhere: there is no backend, and picking an arbitrary one would send a client's
    /// session to a service it never asked for.
    Nowhere,
}

/// Where a connection goes, as plain values.
#[verifier::ext_equal]
pub ghost enum PickView {
    Address(Seq<u8>),
    Group(Seq<u8>),
    Nowhere,
}

impl View for Pick {
    type V = PickView;

    open spec fn view(&self) -> PickView {
        match self {
            Pick::Address(a) => PickView::Address(a@),
            Pick::Group(n) => PickView::Group(n@),
            Pick::Nowhere => PickView::Nowhere,
        }
    }
}

/// Whether a group has a name, from the `i`th on.
pub open spec fn names_group(groups: Seq<Vec<u8>>, name: Seq<u8>, i: int) -> bool
    decreases groups.len() - i,
{
    if i < 0 || i >= groups.len() {
        false
    } else {
        groups[i]@ == name || names_group(groups, name, i + 1)
    }
}

fn is_group(groups: &Vec<Vec<u8>>, name: &[u8]) -> (r: bool)
    ensures
        r == names_group(groups@, name@, 0),
{
    for i in 0..groups.len()
        invariant
            names_group(groups@, name@, 0) == names_group(groups@, name@, i as int),
    {
        if bytes::same(groups[i].as_slice(), name) {
            return true;
        }
    }
    false
}

/// Where a connection goes. What variables make up is a group if one has that name, and
/// an address otherwise.
pub open spec fn picked(vars: StreamVarsView, t: ProxyTarget, groups: Seq<Vec<u8>>) -> PickView {
    match t {
        ProxyTarget::Addr { host, port } => PickView::Address(
            host@ + seq![58u8] + bytes::decimal(port as nat),
        ),
        ProxyTarget::Unix(p) => PickView::Address(bytes::utf8("unix:"@) + p@),
        ProxyTarget::Upstream(name) => if names_group(groups, name@, 0) {
            PickView::Group(name@)
        } else {
            PickView::Nowhere
        },
        ProxyTarget::Dynamic(t) => {
            let s = bytes::trimmed(vars.shown(t));
            if s.len() == 0 {
                PickView::Nowhere
            } else if names_group(groups, s, 0) {
                PickView::Group(s)
            } else {
                PickView::Address(proxy::with_default_port(s))
            }
        },
    }
}

/// Decides where a connection goes. `groups` names the upstream groups there are.
pub fn resolve_target(vars: &StreamVars, t: &ProxyTarget, groups: &Vec<Vec<u8>>) -> (r: Pick)
    ensures
        r@ == picked(vars@, *t, groups@),
{
    match t {
        ProxyTarget::Addr { host, port } => {
            let mut a: Vec<u8> = bytes::copy(host.as_slice());
            a.push(58);
            bytes::push_decimal(&mut a, *port as u64);
            assert(a@ =~= host@ + seq![58u8] + bytes::decimal(*port as nat));
            Pick::Address(a)
        },
        ProxyTarget::Unix(p) => {
            let mut a: Vec<u8> = bytes::copy("unix:".as_bytes());
            a.extend_from_slice(p.as_slice());
            Pick::Address(a)
        },
        ProxyTarget::Upstream(name) => if is_group(groups, name.as_slice()) {
            Pick::Group(bytes::copy(name.as_slice()))
        } else {
            Pick::Nowhere
        },
        ProxyTarget::Dynamic(t) => {
            let rendered: Vec<u8> = vars.render(t);
            let s: &[u8] = bytes::trim(rendered.as_slice());
            if s.len() == 0 {
                Pick::Nowhere
            } else if is_group(groups, s) {
                Pick::Group(bytes::copy(s))
            } else {
                Pick::Address(peer_addr(s))
            }
        },
    }
}

// ---------------------------------------------------------------- looking ahead

/// What looking at a connection's first bytes leads to.
#[derive(Debug)]
pub enum Look {
    /// The ClientHello is complete.
    Found(Hello),
    /// None is coming, or it does not fit: go on without one.
    Without,
    /// Read up to this many bytes more.
    Read(usize),
}

/// How much more may be read: the buffer's size bounds what a client that dribbles
/// bytes can make us hold.
pub open spec fn read_room(held: int, buffer_size: int) -> int {
    let room = if held < buffer_size {
        buffer_size - held
    } else {
        0
    };
    if room < PREREAD_CHUNK {
        room
    } else {
        PREREAD_CHUNK as int
    }
}

/// Looks at what a client has sent so far. What was read is kept whatever the outcome:
/// those bytes belong to the client's stream.
pub fn look(head: &[u8], buffer_size: usize) -> (r: Look)
    ensures
        match preread::seen(head@) {
            Seen::Hello(h) => r matches Look::Found(x) && x@ == h,
            Seen::NotTls => r is Without,
            Seen::Incomplete => if read_room(head@.len() as int, buffer_size as int) == 0 {
                r is Without
            } else {
                r matches Look::Read(n) && n == read_room(head@.len() as int, buffer_size as int)
            },
        },
{
    match preread::parse(head) {
        Preread::Hello(h) => Look::Found(h),
        Preread::NotTls => Look::Without,
        Preread::Incomplete => {
            let room: usize = if head.len() < buffer_size {
                buffer_size - head.len()
            } else {
                0
            };
            let want: usize = if room < PREREAD_CHUNK {
                room
            } else {
                PREREAD_CHUNK
            };
            if want == 0 {
                Look::Without
            } else {
                Look::Read(want)
            }
        },
    }
}

/// A preread never holds more than the buffer's size.
pub proof fn law_a_preread_is_bounded(held: int, buffer_size: int, got: int)
    requires
        0 <= held <= buffer_size,
        0 <= got <= read_room(held, buffer_size),
    ensures
        held + got <= buffer_size,
{
}

/// A preread that stops coming is no reason to drop the client: it is proxied without
/// one.
pub fn preread_ended(e: ReadEvent) -> (r: bool)
    ensures
        r == (e matches ReadEvent::Got(n) ==> n == 0),
{
    match e {
        ReadEvent::Got(n) => n == 0,
        _ => true,
    }
}

// ---------------------------------------------------------------- copying

/// One direction of a connection.
#[derive(Debug, Clone, Copy, PartialEq, Eq, Structural)]
pub struct Copying {
    /// How many bytes were passed on.
    pub total: u64,
    pub open: bool,
}

impl Copying {
    /// A direction that starts with bytes at hand, and whether they could be passed on.
    /// They lead the stream: dropping them would hand the backend a handshake without
    /// its beginning.
    pub fn start(head_len: usize, passed: bool) -> (r: Copying)
        ensures
            r.open == (head_len == 0 || passed),
            r.total == if passed {
                head_len as u64
            } else {
                0
            },
    {
        if head_len == 0 || passed {
            Copying {
                total: if passed {
                    head_len as u64
                } else {
                    0
                },
                open: true,
            }
        } else {
            Copying { total: 0, open: false }
        }
    }

    /// Takes note of a read, and of whether what it gave could be passed on. A close, a
    /// failure and an idle timeout all end the direction.
    pub fn next(&mut self, e: ReadEvent, passed: bool)
        requires
            e matches ReadEvent::Got(n) ==> old(self).total + n <= u64::MAX,
        ensures
            match e {
                ReadEvent::Got(n) => if n > 0 && passed {
                    final(self).total == old(self).total + n && final(self).open == old(self).open
                } else {
                    final(self).total == old(self).total && !final(self).open
                },
                _ => final(self).total == old(self).total && !final(self).open,
            },
    {
        match e {
            ReadEvent::Got(n) => {
                if n > 0 && passed {
                    self.total = self.total + n as u64;
                } else {
                    self.open = false;
                }
            },
            _ => {
                self.open = false;
            },
        }
    }
}

/// Whether an exchange shows that the peer is broken: the client spoke and the peer said
/// nothing before closing. A client that never asked anything is not the peer's fault.
pub fn is_peer_failure(sent: u64, received: u64) -> (r: bool)
    ensures
        r == (sent > 0 && received == 0),
{
    sent > 0 && received == 0
}

// ---------------------------------------------------------------- one connection

/// What one connection is served by.
#[derive(Debug)]
pub struct RelayConf<'a> {
    pub maps: &'a Vec<MapConf>,
    pub remote: &'a Option<Addr>,
    pub target: &'a ProxyTarget,
    /// The names of the upstream groups.
    pub groups: &'a Vec<Vec<u8>>,
    pub ssl_preread: bool,
    pub preread_buffer_size: usize,
}

/// How far a connection has come.
#[derive(Debug, Clone, Copy, PartialEq, Eq, Structural)]
pub enum RelayStage {
    Looking,
    Choosing,
    Connecting,
    Copying,
    Done,
}

/// One connection.
#[derive(Debug, Clone, Copy, PartialEq, Eq, Structural)]
pub struct Relay {
    pub stage: RelayStage,
    /// Whether it goes to a peer of a group, whose health it tells about.
    pub grouped: bool,
}

/// What a connection needs done next.
#[derive(Debug)]
pub enum RelayAsk {
    /// Read up to this many bytes more from the client, and keep them.
    Read(usize),
    /// Choose a live peer of the group of this name.
    Choose(Vec<u8>),
    Connect(Vec<u8>),
    /// Pass on what was read so far, and then bytes both ways.
    Copy,
    /// Take note of the peer's success, or of its failure, and close.
    Report(bool),
    Close,
}

/// What a connection needs done next, as plain values.
#[verifier::ext_equal]
pub ghost enum RelayAskView {
    Read(int),
    Choose(Seq<u8>),
    Connect(Seq<u8>),
    Copy,
    Report(bool),
    Close,
}

impl View for RelayAsk {
    type V = RelayAskView;

    open spec fn view(&self) -> RelayAskView {
        match self {
            RelayAsk::Read(n) => RelayAskView::Read(*n as int),
            RelayAsk::Choose(n) => RelayAskView::Choose(n@),
            RelayAsk::Connect(a) => RelayAskView::Connect(a@),
            RelayAsk::Copy => RelayAskView::Copy,
            RelayAsk::Report(ok) => RelayAskView::Report(*ok),
            RelayAsk::Close => RelayAskView::Close,
        }
    }
}

/// What came of what was asked.
#[derive(Debug, Clone, Copy)]
pub enum RelayEvent<'a> {
    Read(ReadEvent),
    /// The address of the peer that was chosen, where there is one.
    Chosen(Option<&'a [u8]>),
    Connected(bool),
    /// How many bytes went to the peer and how many came from it.
    Copied { sent: u64, received: u64 },
}

/// What a connection can show once its first bytes were looked at.
pub open spec fn vars_of(conf: RelayConf, hello: Option<HelloView>) -> StreamVarsView {
    StreamVarsView { maps: conf.maps@, remote: *conf.remote, hello }
}

/// A connection whose backend is decided.
pub open spec fn aimed(conf: RelayConf, hello: Option<HelloView>) -> (Relay, RelayAskView) {
    match picked(vars_of(conf, hello), *conf.target, conf.groups@) {
        PickView::Address(a) => (
            Relay { stage: RelayStage::Connecting, grouped: false },
            RelayAskView::Connect(a),
        ),
        PickView::Group(n) => (
            Relay { stage: RelayStage::Choosing, grouped: true },
            RelayAskView::Choose(n),
        ),
        PickView::Nowhere => (
            Relay { stage: RelayStage::Done, grouped: false },
            RelayAskView::Close,
        ),
    }
}

/// A connection whose first bytes are looked at.
pub open spec fn looked_at(conf: RelayConf, head: Seq<u8>) -> (Relay, RelayAskView) {
    let room = read_room(head.len() as int, conf.preread_buffer_size as int);
    match preread::seen(head) {
        Seen::Hello(h) => aimed(conf, Some(h)),
        Seen::NotTls => aimed(conf, None),
        Seen::Incomplete => if room == 0 {
            aimed(conf, None)
        } else {
            (Relay { stage: RelayStage::Looking, grouped: false }, RelayAskView::Read(room))
        },
    }
}

/// A connection at its start.
pub open spec fn relay_started(conf: RelayConf) -> (Relay, RelayAskView) {
    if conf.ssl_preread {
        looked_at(conf, Seq::empty())
    } else {
        aimed(conf, None)
    }
}

/// A connection that is over.
pub open spec fn relay_over(r: Relay) -> Relay {
    Relay { stage: RelayStage::Done, ..r }
}

/// A connection after an event, with all the client has sent so far.
pub open spec fn relayed(r: Relay, conf: RelayConf, head: Seq<u8>, e: RelayEvent) -> (
    Relay,
    RelayAskView,
) {
    let told = |ok: bool|
        (
            relay_over(r),
            if r.grouped {
                RelayAskView::Report(ok)
            } else {
                RelayAskView::Close
            },
        );
    match (r.stage, e) {
        (RelayStage::Looking, RelayEvent::Read(got)) => if got matches ReadEvent::Got(n) && n > 0 {
            looked_at(conf, head)
        } else {
            aimed(conf, None)
        },
        (RelayStage::Choosing, RelayEvent::Chosen(Some(a))) => (
            Relay { stage: RelayStage::Connecting, ..r },
            RelayAskView::Connect(proxy::with_default_port(a@)),
        ),
        (RelayStage::Connecting, RelayEvent::Connected(ok)) => if ok {
            (Relay { stage: RelayStage::Copying, ..r }, RelayAskView::Copy)
        } else {
            told(false)
        },
        (RelayStage::Copying, RelayEvent::Copied { sent, received }) => told(
            !(sent > 0 && received == 0),
        ),
        _ => (relay_over(r), RelayAskView::Close),
    }
}

fn aim(conf: &RelayConf, hello: Option<&Hello>) -> (r: (Relay, RelayAsk))
    ensures
        (r.0, r.1@) == aimed(
            *conf,
            match hello {
                Some(h) => Some(h@),
                None => None,
            },
        ),
{
    let vars = StreamVars { maps: conf.maps, remote: conf.remote, hello };
    match resolve_target(&vars, conf.target, conf.groups) {
        Pick::Address(a) => (
            Relay { stage: RelayStage::Connecting, grouped: false },
            RelayAsk::Connect(a),
        ),
        Pick::Group(n) => (
            Relay { stage: RelayStage::Choosing, grouped: true },
            RelayAsk::Choose(n),
        ),
        Pick::Nowhere => (Relay { stage: RelayStage::Done, grouped: false }, RelayAsk::Close),
    }
}

fn look_at(conf: &RelayConf, head: &[u8]) -> (r: (Relay, RelayAsk))
    ensures
        (r.0, r.1@) == looked_at(*conf, head@),
{
    match look(head, conf.preread_buffer_size) {
        Look::Found(h) => aim(conf, Some(&h)),
        Look::Without => aim(conf, None),
        Look::Read(n) => (
            Relay { stage: RelayStage::Looking, grouped: false },
            RelayAsk::Read(n),
        ),
    }
}

impl Relay {
    /// Takes up a connection.
    pub fn start(conf: &RelayConf) -> (r: (Relay, RelayAsk))
        ensures
            (r.0, r.1@) == relay_started(*conf),
    {
        if conf.ssl_preread {
            let none: Vec<u8> = Vec::new();
            look_at(conf, none.as_slice())
        } else {
            aim(conf, None)
        }
    }

    fn told(&self, ok: bool) -> (r: RelayAsk)
        ensures
            r@ == if self.grouped {
                RelayAskView::Report(ok)
            } else {
                RelayAskView::Close
            },
    {
        if self.grouped {
            RelayAsk::Report(ok)
        } else {
            RelayAsk::Close
        }
    }

    /// Takes note of an event, and says what to do. `head` is all the client has sent
    /// until the backend is known.
    pub fn next(&mut self, conf: &RelayConf, head: &[u8], e: RelayEvent) -> (r: RelayAsk)
        ensures
            (*final(self), r@) == relayed(*old(self), *conf, head@, e),
    {
        match (self.stage, e) {
            (RelayStage::Looking, RelayEvent::Read(got)) => {
                let (next, ask) = if preread_ended(got) {
                    aim(conf, None)
                } else {
                    look_at(conf, head)
                };
                *self = next;
                ask
            },
            (RelayStage::Choosing, RelayEvent::Chosen(Some(a))) => {
                self.stage = RelayStage::Connecting;
                RelayAsk::Connect(peer_addr(a))
            },
            (RelayStage::Connecting, RelayEvent::Connected(ok)) => {
                if ok {
                    self.stage = RelayStage::Copying;
                    RelayAsk::Copy
                } else {
                    self.stage = RelayStage::Done;
                    self.told(false)
                }
            },
            (RelayStage::Copying, RelayEvent::Copied { sent, received }) => {
                self.stage = RelayStage::Done;
                self.told(!is_peer_failure(sent, received))
            },
            _ => {
                self.stage = RelayStage::Done;
                RelayAsk::Close
            },
        }
    }
}

/// A target of variables that come to nothing leads nowhere: the client is not sent to a
/// service it never asked for.
pub proof fn law_no_backend_means_no_connection(conf: RelayConf, hello: Option<HelloView>, t: Template)
    requires
        *conf.target == ProxyTarget::Dynamic(t),
        bytes::trimmed(vars_of(conf, hello).shown(t)).len() == 0,
    ensures
        aimed(conf, hello).1 is Close,
{
}

/// A client that sends no ClientHello, or none in time, is served as if none had been
/// looked for.
pub proof fn law_a_missing_hello_costs_nothing(conf: RelayConf, head: Seq<u8>, got: ReadEvent)
    ensures
        !(got matches ReadEvent::Got(n) && n > 0) ==> relayed(
            Relay { stage: RelayStage::Looking, grouped: false },
            conf,
            head,
            RelayEvent::Read(got),
        ) == relay_started(RelayConf { ssl_preread: false, ..conf }),
        preread::seen(head) is NotTls ==> looked_at(conf, head) == relay_started(
            RelayConf { ssl_preread: false, ..conf },
        ),
{
}

/// Only a peer of a group is reported on, and never before it was tried.
pub proof fn law_only_tried_peers_are_reported(r: Relay, conf: RelayConf, head: Seq<u8>, e: RelayEvent)
    ensures
        relayed(r, conf, head, e).1 is Report ==> r.grouped && (r.stage is Connecting
            || r.stage is Copying),
{
}

/// A peer that answers nothing to a client that spoke has failed; one that was not asked
/// anything has not.
pub proof fn law_a_silent_peer_has_failed(
    r: Relay,
    conf: RelayConf,
    head: Seq<u8>,
    sent: u64,
    received: u64,
)
    requires
        r.stage is Copying,
        r.grouped,
    ensures
        relayed(r, conf, head, RelayEvent::Copied { sent, received }).1 == RelayAskView::Report(
            sent == 0 || received > 0,
        ),
{
}

} // verus!
