//! Server-wide counters, and the `stub_status` endpoint that reports them.
//!
//! `Reading`, `Writing` and `Waiting` are what they say: the connection state
//! machine moves a connection between the three counters as it actually changes
//! state. `accepts` and `handled` would differ only if an accepted connection
//! could be dropped without being processed, which does not happen here, so the
//! two are always equal.

use vstd::prelude::*;
use vstd::string::*;

use crate::bytes;
use crate::sorting;
use crate::text;
use crate::upstream::{PeerHealth, Upstream, UpstreamServer};

verus! {

/// The counters of the whole server.
#[derive(Debug, Clone, Copy, PartialEq, Eq, Structural)]
pub struct Counters {
    pub accepts: u64,
    pub handled: u64,
    pub requests: u64,
    pub active: u64,
    pub reading: u64,
    pub writing: u64,
    pub waiting: u64,
}

/// The counters to go on with: those of before a reload, and else ones that start at zero.
pub fn init(held: Option<Counters>) -> (r: Counters)
    ensures
        r == match held {
            Some(c) => c,
            None => Counters {
                accepts: 0,
                handled: 0,
                requests: 0,
                active: 0,
                reading: 0,
                writing: 0,
                waiting: 0,
            },
        },
{
    match held {
        Some(c) => c,
        None => Counters {
            accepts: 0,
            handled: 0,
            requests: 0,
            active: 0,
            reading: 0,
            writing: 0,
            waiting: 0,
        },
    }
}

/// A connection was accepted.
pub fn accepted(c: &mut Counters)
    ensures
        *final(c) == (Counters {
            accepts: old(c).accepts.wrapping_add(1),
            handled: old(c).handled.wrapping_add(1),
            active: old(c).active.wrapping_add(1),
            ..*old(c)
        }),
{
    c.accepts = c.accepts.wrapping_add(1);
    c.handled = c.handled.wrapping_add(1);
    c.active = c.active.wrapping_add(1);
}

/// A connection ended, whatever state it was in.
pub fn closed(c: &mut Counters)
    ensures
        *final(c) == (Counters { active: old(c).active.wrapping_sub(1), ..*old(c) }),
{
    c.active = c.active.wrapping_sub(1);
}

/// One request was served.
pub fn request_done(c: &mut Counters)
    ensures
        *final(c) == (Counters { requests: old(c).requests.wrapping_add(1), ..*old(c) }),
{
    c.requests = c.requests.wrapping_add(1);
}

/// A live connection, counted until it is given back.
#[derive(Debug)]
pub struct ConnGuard {
    entered: bool,
}

impl ConnGuard {
    /// Counts a connection that was accepted.
    pub fn enter(c: &mut Counters) -> (r: ConnGuard)
        ensures
            *final(c) == (Counters {
                accepts: old(c).accepts.wrapping_add(1),
                handled: old(c).handled.wrapping_add(1),
                active: old(c).active.wrapping_add(1),
                ..*old(c)
            }),
    {
        accepted(c);
        ConnGuard { entered: true }
    }

    /// The connection ended.
    pub fn leave(self, c: &mut Counters)
        ensures
            *final(c) == (Counters { active: old(c).active.wrapping_sub(1), ..*old(c) }),
    {
        closed(c);
    }
}

/// Which of the three per-connection states a connection is in.
#[derive(Debug, Clone, Copy, PartialEq, Eq, Structural)]
pub enum State {
    Reading,
    Writing,
    Waiting,
}

/// How many connections are in a state.
pub open spec fn in_state(c: Counters, s: State) -> u64 {
    match s {
        State::Reading => c.reading,
        State::Writing => c.writing,
        State::Waiting => c.waiting,
    }
}

/// The counters with another number of connections in a state.
pub open spec fn with_state(c: Counters, s: State, n: u64) -> Counters {
    match s {
        State::Reading => Counters { reading: n, ..c },
        State::Writing => Counters { writing: n, ..c },
        State::Waiting => Counters { waiting: n, ..c },
    }
}

/// One connection more in a state.
pub open spec fn entered(c: Counters, s: State) -> Counters {
    with_state(c, s, in_state(c, s).wrapping_add(1))
}

/// One connection less in a state.
pub open spec fn left(c: Counters, s: State) -> Counters {
    with_state(c, s, in_state(c, s).wrapping_sub(1))
}

fn enter_state(c: &mut Counters, s: State)
    ensures
        *final(c) == entered(*old(c), s),
{
    match s {
        State::Reading => {
            c.reading = c.reading.wrapping_add(1);
        },
        State::Writing => {
            c.writing = c.writing.wrapping_add(1);
        },
        State::Waiting => {
            c.waiting = c.waiting.wrapping_add(1);
        },
    }
}

fn leave_state(c: &mut Counters, s: State)
    ensures
        *final(c) == left(*old(c), s),
{
    match s {
        State::Reading => {
            c.reading = c.reading.wrapping_sub(1);
        },
        State::Writing => {
            c.writing = c.writing.wrapping_sub(1);
        },
        State::Waiting => {
            c.waiting = c.waiting.wrapping_sub(1);
        },
    }
}

/// Holds a connection in one state, moving it as the connection progresses.
#[derive(Debug)]
pub struct StateGuard {
    pub current: State,
}

impl StateGuard {
    /// Counts a connection in a state.
    pub fn enter(c: &mut Counters, s: State) -> (r: StateGuard)
        ensures
            r.current == s,
            *final(c) == entered(*old(c), s),
    {
        enter_state(c, s);
        StateGuard { current: s }
    }

    /// Moves the connection to another state. The state it is in already is no
    /// move.
    pub fn switch(&mut self, c: &mut Counters, s: State)
        ensures
            final(self).current == s,
            *final(c) == if s == old(self).current {
                *old(c)
            } else {
                entered(left(*old(c), old(self).current), s)
            },
    {
        if s == self.current {
            return;
        }
        leave_state(c, self.current);
        enter_state(c, s);
        self.current = s;
    }

    /// Gives the count back.
    pub fn leave(self, c: &mut Counters)
        ensures
            *final(c) == left(*old(c), self.current),
    {
        leave_state(c, self.current);
    }
}

/// Whatever states a connection went through, leaving the last of them restores
/// what was there before it entered the first.
pub proof fn law_states_are_given_back(c: Counters, a: State, b: State)
    ensures
        left(entered(c, a), a) == c,
        left(entered(left(entered(c, a), a), b), b) == c,
        a != b ==> in_state(entered(left(entered(c, a), a), b), a) == in_state(c, a),
{
}

// ---------------------------------------------------------------- reports

/// The `stub_status` body. The trailing spaces and the exact line breaks are
/// part of it: monitoring agents parse this with regular expressions.
pub open spec fn stub_status_text(c: Counters) -> Seq<char> {
    "Active connections: "@ + text::decimal_text(c.active as nat)
        + " \nserver accepts handled requests\n "@ + text::decimal_text(c.accepts as nat) + " "@
        + text::decimal_text(c.handled as nat) + " "@ + text::decimal_text(c.requests as nat)
        + " \nReading: "@ + text::decimal_text(c.reading as nat) + " Writing: "@
        + text::decimal_text(c.writing as nat) + " Waiting: "@ + text::decimal_text(
        c.waiting as nat,
    ) + " \n"@
}

/// Renders the `stub_status` body.
pub fn stub_status_body(c: &Counters) -> (r: String)
    ensures
        r@ == stub_status_text(*c),
{
    let mut s: String = String::new();
    s.push_str("Active connections: ");
    text::push_decimal(&mut s, c.active);
    s.push_str(" \nserver accepts handled requests\n ");
    text::push_decimal(&mut s, c.accepts);
    s.push_str(" ");
    text::push_decimal(&mut s, c.handled);
    s.push_str(" ");
    text::push_decimal(&mut s, c.requests);
    s.push_str(" \nReading: ");
    text::push_decimal(&mut s, c.reading);
    s.push_str(" Writing: ");
    text::push_decimal(&mut s, c.writing);
    s.push_str(" Waiting: ");
    text::push_decimal(&mut s, c.waiting);
    s.push_str(" \n");
    assert(s@ =~= stub_status_text(*c));
    s
}

/// A character inside a JSON string.
pub open spec fn json_char(c: char) -> Seq<char> {
    if c == '"' {
        "\\\""@
    } else if c == '\\' {
        "\\\\"@
    } else if c == '\n' {
        "\\n"@
    } else if c == '\r' {
        "\\r"@
    } else if c == '\t' {
        "\\t"@
    } else if (c as u32) < 0x20 {
        "\\u"@ + bytes::ascii_text(bytes::hex_padded((c as u32) as nat, 4))
    } else {
        seq![c]
    }
}

/// Characters inside a JSON string.
pub open spec fn json_chars(s: Seq<char>) -> Seq<char>
    decreases s.len(),
{
    if s.len() == 0 {
        Seq::empty()
    } else {
        json_chars(s.drop_last()) + json_char(s.last())
    }
}

/// A JSON string.
pub open spec fn json_string(s: Seq<char>) -> Seq<char> {
    "\""@ + json_chars(s) + "\""@
}

/// Minimal JSON string escaping. A configuration is user input, and a stray
/// quote should not produce a document nobody can parse.
pub fn json_str(v: &str) -> (r: String)
    ensures
        r@ == json_string(v@),
{
    let mut out: String = String::new();
    out.push_str("\"");
    let ghost open = out@;
    for c in it: v.chars()
        invariant
            it.seq() == v@,
            out@ == open + json_chars(v@.subrange(0, it.index() as int)),
    {
        let ghost i = it.index() as int;
        let ghost before = out@;
        proof {
            assert(v@.subrange(0, i + 1).drop_last() =~= v@.subrange(0, i));
            assert(c == v@[i]);
        }
        if c == '"' {
            out.push_str("\\\"");
        } else if c == '\\' {
            out.push_str("\\\\");
        } else if c == '\n' {
            out.push_str("\\n");
        } else if c == '\r' {
            out.push_str("\\r");
        } else if c == '\t' {
            out.push_str("\\t");
        } else if (c as u32) < 0x20 {
            out.push_str("\\u");
            let mut hex: Vec<u8> = Vec::new();
            bytes::push_hex_padded(&mut hex, (c as u32) as u64, 4);
            proof {
                bytes::lemma_hex_padded((c as u32) as nat, 4);
                assert(hex@ =~= bytes::hex_padded((c as u32) as nat, 4));
            }
            out.push_str(bytes::ascii_string(hex.as_slice()).as_str());
        } else {
            out.push(c);
        }
        assert(out@ =~= before + json_char(c));
        assert(out@ =~= open + json_chars(v@.subrange(0, i + 1)));
    }
    assert(v@.subrange(0, v@.len() as int) =~= v@);
    out.push_str("\"");
    out
}

pub open spec fn bool_text(b: bool) -> Seq<char> {
    if b {
        "true"@
    } else {
        "false"@
    }
}

/// What a peer is reported as.
pub open spec fn peer_state(down: bool, h: PeerHealth, now_ms: u64) -> Seq<char> {
    if down {
        "down"@
    } else if h.down_at(now_ms as int) {
        "unhealthy"@
    } else {
        "up"@
    }
}

/// One peer in the JSON report.
pub open spec fn peer_json(s: UpstreamServer, h: PeerHealth, now_ms: u64) -> Seq<char> {
    "\n      {\"server\": "@ + json_string(s.addr@) + ", \"state\": \""@ + peer_state(
        s.down,
        h,
        now_ms,
    ) + "\", \"in_flight\": "@ + text::decimal_text(h.in_flight as nat) + ", \"weight\": "@
        + text::decimal_text(s.weight as nat) + ", \"backup\": "@ + bool_text(s.backup) + "}"@
}

/// The first `n` peers of a group, separated by commas.
pub open spec fn peers_json(up: Upstream, now_ms: u64, n: int) -> Seq<char>
    decreases n,
{
    if n <= 0 {
        Seq::empty()
    } else {
        peers_json(up, now_ms, n - 1) + (if n > 1 {
            ","@
        } else {
            Seq::empty()
        }) + peer_json(up.servers@[n - 1], up.health@[n - 1], now_ms)
    }
}

/// One group in the JSON report.
pub open spec fn group_json(up: Upstream, now_ms: u64) -> Seq<char> {
    "\n    "@ + json_string(up.name@) + ": ["@ + peers_json(up, now_ms, up.servers@.len() as int)
        + "\n    ]"@
}

/// The first `n` groups of an order, separated by commas.
pub open spec fn groups_json(ups: Seq<Upstream>, now_ms: Seq<u64>, order: Seq<int>, n: int) -> Seq<
    char,
>
    decreases n,
{
    if n <= 0 {
        Seq::empty()
    } else {
        groups_json(ups, now_ms, order, n - 1) + (if n > 1 {
            ","@
        } else {
            Seq::empty()
        }) + group_json(ups[order[n - 1]], now_ms[order[n - 1]])
    }
}

/// The connection counters in the JSON report.
pub open spec fn counters_json(c: Counters) -> Seq<char> {
    "{\n  \"connections\": {"@ + "\"active\": "@ + text::decimal_text(c.active as nat)
        + ", \"accepts\": "@ + text::decimal_text(c.accepts as nat) + ", \"handled\": "@
        + text::decimal_text(c.handled as nat) + ", \"requests\": "@ + text::decimal_text(
        c.requests as nat,
    ) + ", "@ + "\"reading\": "@ + text::decimal_text(c.reading as nat) + ", \"writing\": "@
        + text::decimal_text(c.writing as nat) + ", \"waiting\": "@ + text::decimal_text(
        c.waiting as nat,
    ) + "},\n"@
}

/// The names that groups are sorted by.
pub open spec fn group_keys(ups: Seq<Upstream>) -> Seq<(u8, Seq<u8>)> {
    ups.map_values(|u: Upstream| (0u8, bytes::utf8(u.name@)))
}

fn push_peer(s: &mut String, srv: &UpstreamServer, h: &PeerHealth, now_ms: u64)
    ensures
        final(s)@ == old(s)@ + peer_json(*srv, *h, now_ms),
{
    s.push_str("\n      {\"server\": ");
    s.push_str(json_str(srv.addr.as_str()).as_str());
    s.push_str(", \"state\": \"");
    if srv.down {
        s.push_str("down");
    } else if h.is_down(now_ms) {
        s.push_str("unhealthy");
    } else {
        s.push_str("up");
    }
    s.push_str("\", \"in_flight\": ");
    text::push_decimal(s, h.in_flight as u64);
    s.push_str(", \"weight\": ");
    text::push_decimal(s, srv.weight as u64);
    s.push_str(", \"backup\": ");
    if srv.backup {
        s.push_str("true");
    } else {
        s.push_str("false");
    }
    s.push_str("}");
    assert(s@ =~= old(s)@ + peer_json(*srv, *h, now_ms));
}

fn push_group(s: &mut String, up: &Upstream, now_ms: u64)
    requires
        up.wf(),
    ensures
        final(s)@ == old(s)@ + group_json(*up, now_ms),
{
    s.push_str("\n    ");
    s.push_str(json_str(up.name.as_str()).as_str());
    s.push_str(": [");
    let ghost open = s@;
    for j in 0..up.servers.len()
        invariant
            up.wf(),
            s@ == open + peers_json(*up, now_ms, j as int),
    {
        let ghost before = s@;
        if j > 0 {
            s.push_str(",");
        }
        push_peer(s, &up.servers[j], &up.health[j], now_ms);
        assert(s@ =~= open + peers_json(*up, now_ms, j + 1));
    }
    s.push_str("\n    ]");
    assert(s@ =~= old(s)@ + group_json(*up, now_ms));
}

fn push_counters(s: &mut String, c: &Counters)
    ensures
        final(s)@ == old(s)@ + counters_json(*c),
{
    s.push_str("{\n  \"connections\": {");
    s.push_str("\"active\": ");
    text::push_decimal(s, c.active);
    s.push_str(", \"accepts\": ");
    text::push_decimal(s, c.accepts);
    s.push_str(", \"handled\": ");
    text::push_decimal(s, c.handled);
    s.push_str(", \"requests\": ");
    text::push_decimal(s, c.requests);
    s.push_str(", ");
    s.push_str("\"reading\": ");
    text::push_decimal(s, c.reading);
    s.push_str(", \"writing\": ");
    text::push_decimal(s, c.writing);
    s.push_str(", \"waiting\": ");
    text::push_decimal(s, c.waiting);
    s.push_str("},\n");
    assert(s@ =~= old(s)@ + counters_json(*c));
}

/// The same counters plus per-peer upstream state, as JSON: `stub_status json`.
///
/// The groups come sorted by name, so that the output is stable between
/// requests. `now_ms` holds, for each group, the time since its origin.
pub fn json_body(c: &Counters, ups: &Vec<Upstream>, now_ms: &Vec<u64>) -> (r: String)
    requires
        now_ms@.len() == ups@.len(),
        forall|i: int| 0 <= i < ups@.len() ==> (#[trigger] ups@[i]).wf(),
    ensures
        exists|order: Seq<int>| #[trigger]
            sorting::is_order(group_keys(ups@), order, ups@.len() as int) && r@ == counters_json(*c)
                + "  \"upstreams\": {"@ + groups_json(ups@, now_ms@, order, ups@.len() as int)
                + "\n  }\n}\n"@,
{
    let mut s: String = String::new();
    push_counters(&mut s, c);
    s.push_str("  \"upstreams\": {");
    let mut keys: Vec<sorting::Key> = Vec::new();
    for i in 0..ups.len()
        invariant
            keys@.len() == i,
            sorting::key_views(keys@) == group_keys(ups@).subrange(0, i as int),
    {
        let ghost before = sorting::key_views(keys@);
        keys.push(sorting::Key { group: 0, name: bytes::copy(ups[i].name.as_str().as_bytes()) });
        assert(sorting::key_views(keys@) =~= before.push(group_keys(ups@)[i as int]));
        assert(sorting::key_views(keys@) =~= group_keys(ups@).subrange(0, i + 1));
    }
    assert(sorting::key_views(keys@) =~= group_keys(ups@));
    let order: Vec<usize> = sorting::order_of(&keys);
    let ghost sorted = sorting::numbers(order@);
    let ghost open = s@;
    for i in 0..order.len()
        invariant
            order@.len() == ups@.len(),
            now_ms@.len() == ups@.len(),
            sorted == sorting::numbers(order@),
            forall|i: int| 0 <= i < ups@.len() ==> (#[trigger] ups@[i]).wf(),
            forall|k: int| 0 <= k < order@.len() ==> (#[trigger] order@[k]) < ups@.len(),
            s@ == open + groups_json(ups@, now_ms@, sorted, i as int),
    {
        let k: usize = order[i];
        assert(sorted[i as int] == k);
        if i > 0 {
            s.push_str(",");
        }
        push_group(&mut s, &ups[k], now_ms[k]);
        assert(s@ =~= open + groups_json(ups@, now_ms@, sorted, i + 1));
    }
    s.push_str("\n  }\n}\n");
    assert(s@ =~= counters_json(*c) + "  \"upstreams\": {"@ + groups_json(
        ups@,
        now_ms@,
        sorted,
        ups@.len() as int,
    ) + "\n  }\n}\n"@);
    s
}

} // verus!
