//! `ctx`: what variables stand for.

use vstd::prelude::*;

use crate::bytes;
use crate::config::Addr;
use crate::config::ExactEntry;
use crate::config::MapConf;
use crate::config::Part;
use crate::config::RegexEntry;
use crate::config::ServerName;
use crate::config::Template;
use crate::config::Var;
use crate::config::WildcardEntry;
use crate::ctx;
use crate::ctx::CtxView;
use crate::ctx::LogVars;
use crate::http;
use crate::laws::serving;
use crate::pattern;

verus! {

// ---------------------------------------------------------------- templates

/// A template is its parts one after another: literals as they stand, variables by their
/// values.
pub proof fn law_templates_are_their_parts(c: CtxView, t: Template, u: Template, p: Part)
    requires
        u.parts@ == t.parts@.push(p),
    ensures
        ctx::shown(c, u) == ctx::shown(c, t) + (match p {
            Part::Literal(s) => s@,
            Part::Variable(v) => ctx::value(c, v, 0),
        }),
        t.parts@.len() == 0 ==> ctx::shown(c, t).len() == 0,
{
    lemma_prefix(c, t.parts@, u.parts@, t.parts@.len() as int);
}

proof fn lemma_prefix(c: CtxView, a: Seq<Part>, b: Seq<Part>, n: int)
    requires
        0 <= n <= a.len() <= b.len(),
        forall|i: int| 0 <= i < a.len() ==> a[i] == #[trigger] b[i],
    ensures
        ctx::rendered(c, a, n, 0) == ctx::rendered(c, b, n, 0),
    decreases n,
{
    if n > 0 {
        lemma_prefix(c, a, b, n - 1);
        assert(a[n - 1] == b[n - 1]);
    }
}

// ---------------------------------------------------------------- the request

/// What is said of the request is what it says.
pub proof fn law_the_request_is_shown(c: CtxView)
    ensures
        ctx::value(c, Var::Uri, 0) == c.uri,
        ctx::value(c, Var::DocumentUri, 0) == c.uri,
        ctx::value(c, Var::RequestUri, 0) == c.env.req.target@,
        ctx::value(c, Var::Args, 0) == c.args,
        ctx::value(c, Var::IsArgs, 0) == if c.args.len() > 0 {
            seq![63u8]
        } else {
            Seq::empty()
        },
        ctx::value(c, Var::Scheme, 0) == c.env.scheme@,
        ctx::value(c, Var::RequestMethod, 0) == c.env.req.method@,
        ctx::value(c, Var::Request, 0) == c.env.req.method@ + seq![32u8] + c.env.req.target@
            + seq![32u8] + ctx::value(c, Var::ServerProtocol, 0),
        c.env.req.minor == 0 ==> ctx::value(c, Var::ServerProtocol, 0) == bytes::utf8("HTTP/1.0"@),
        c.env.req.minor != 0 ==> ctx::value(c, Var::ServerProtocol, 0) == bytes::utf8("HTTP/1.1"@),
        ctx::value(c, Var::RequestLength, 0) == bytes::decimal(c.env.req.head_len as nat),
        c.env.scheme@ == bytes::utf8("https"@) ==> ctx::value(c, Var::Https, 0) == bytes::utf8(
            "on"@,
        ),
        c.env.scheme@ != bytes::utf8("https"@) ==> ctx::value(c, Var::Https, 0).len() == 0,
{
}

/// A host is shown in lower case; without one the server's own name is.
pub proof fn law_the_host_is_shown(c: CtxView)
    ensures
        c.env.req.host@.len() > 0 ==> ctx::value(c, Var::Host, 0) == bytes::lowered(c.env.req.host@),
        c.env.req.host@.len() == 0 ==> ctx::value(c, Var::Host, 0) == ctx::value(
            c,
            Var::ServerName,
            0,
        ),
{
}

/// The name of a server is its first, regular expressions and empty names left out.
pub proof fn law_a_server_has_its_first_name(c: CtxView, k: int)
    requires
        0 <= k < c.env.server.names@.len(),
        forall|j: int|
            0 <= j < k ==> (#[trigger] c.env.server.names@[j] is Regex || (
            c.env.server.names@[j] matches ServerName::Exact(e) && e@.len() == 0)),
    ensures
        match c.env.server.names@[k] {
            ServerName::Exact(e) => e@.len() > 0 ==> ctx::value(c, Var::ServerName, 0) == e@,
            ServerName::LeadingWildcard(x) => ctx::value(c, Var::ServerName, 0) == seq![42u8, 46u8]
                + x@,
            ServerName::TrailingWildcard(x) => ctx::value(c, Var::ServerName, 0) == x@
                + seq![46u8, 42u8],
            ServerName::Regex(_) => true,
        },
{
    lemma_name(c.env.server.names@, 0, k);
    let (p, q) = (seq![42u8, 46u8], seq![46u8, 42u8]);
    bytes::lemma_ascii_text(p);
    bytes::lemma_ascii_text(q);
    reveal_strlit("*.");
    reveal_strlit(".*");
    assert(bytes::ascii_text(p) =~= "*."@);
    assert(bytes::ascii_text(q) =~= ".*"@);
}

proof fn lemma_name(names: Seq<ServerName>, i: int, k: int)
    requires
        0 <= i <= k < names.len(),
        forall|j: int|
            i <= j < k ==> (#[trigger] names[j] is Regex || (names[j] matches ServerName::Exact(e)
                && e@.len() == 0)),
    ensures
        ctx::name_from(names, i) == ctx::name_from(names, k),
    decreases k - i,
{
    if i < k {
        assert(names[i] is Regex || (names[i] matches ServerName::Exact(e) && e@.len() == 0));
        lemma_name(names, i + 1, k);
    }
}

/// Addresses are written out with dots, or as they came; a client on a Unix socket has
/// none. Ports are numbers.
pub proof fn law_addresses_are_shown(c: CtxView)
    ensures
        ctx::value(c, Var::RemoteAddr, 0) == written(c.env.remote),
        ctx::value(c, Var::BinaryRemoteAddr, 0) == written(c.env.remote),
        ctx::value(c, Var::ServerAddr, 0) == written(c.env.local),
        ctx::value(c, Var::RemotePort, 0) == bytes::decimal(port_in(c.env.remote) as nat),
        ctx::value(c, Var::ServerPort, 0) == bytes::decimal(port_in(c.env.local) as nat),
{
}

/// An address as text.
pub open spec fn written(a: Option<Addr>) -> Seq<u8> {
    match a {
        None => bytes::utf8("unix:"@),
        Some(Addr::V4 { a, b, c, d, port }) => bytes::decimal(a as nat) + seq![46u8]
            + bytes::decimal(b as nat) + seq![46u8] + bytes::decimal(c as nat) + seq![46u8]
            + bytes::decimal(d as nat),
        Some(Addr::V6 { text, octets, port }) => text@,
    }
}

/// The port of an address; none has zero.
pub open spec fn port_in(a: Option<Addr>) -> u16 {
    match a {
        None => 0,
        Some(Addr::V4 { a, b, c, d, port }) => port,
        Some(Addr::V6 { text, octets, port }) => port,
    }
}

/// Headers of the request are shown by their names, and nothing where they are absent.
pub proof fn law_headers_are_shown(c: CtxView, name: Vec<u8>, t: Seq<char>, v: Seq<u8>)
    requires
        name@ == bytes::utf8(t),
    ensures
        serving::brings(c, t, v) ==> ctx::value(c, Var::Http(name), 0) == v,
        serving::lacks(c, t) ==> ctx::value(c, Var::Http(name), 0).len() == 0,
        serving::brings(c, "content-type"@, v) ==> ctx::value(c, Var::ContentType, 0) == v,
        serving::lacks(c, "content-type"@) ==> ctx::value(c, Var::ContentType, 0).len() == 0,
        serving::brings(c, "content-length"@, v) ==> ctx::value(c, Var::ContentLength, 0) == v,
        serving::lacks(c, "content-length"@) ==> ctx::value(c, Var::ContentLength, 0).len() == 0,
{
    serving::law_headers_are_found_by_name(c, t, v);
    serving::law_headers_are_found_by_name(c, "content-type"@, v);
    serving::law_headers_are_found_by_name(c, "content-length"@, v);
}

/// The addresses a request was forwarded for are followed by the client's own.
pub proof fn law_forwarding_adds_the_client(c: CtxView, v: Seq<u8>)
    ensures
        serving::lacks(c, "x-forwarded-for"@) ==> ctx::value(c, Var::ProxyAddXForwardedFor, 0)
            == written(c.env.remote),
        serving::brings(c, "x-forwarded-for"@, v) ==> ctx::value(c, Var::ProxyAddXForwardedFor, 0)
            == v + seq![44u8, 32u8] + written(c.env.remote),
{
    serving::law_headers_are_found_by_name(c, "x-forwarded-for"@, v);
    let p = seq![44u8, 32u8];
    bytes::lemma_ascii_text(p);
    reveal_strlit(", ");
    assert(bytes::ascii_text(p) =~= ", "@);
}

/// What was captured is counted from one.
pub proof fn law_captures_are_counted_from_one(c: CtxView, i: u8)
    ensures
        1 <= i <= c.captures.len() ==> ctx::value(c, Var::Capture(i), 0) == c.captures[i - 1],
        i == 0 || i > c.captures.len() ==> ctx::value(c, Var::Capture(i), 0).len() == 0,
{
}

/// What is known of the connection, the machine and the time is shown.
pub proof fn law_the_surroundings_are_shown(c: CtxView)
    ensures
        ctx::value(c, Var::Hostname, 0) == c.clock.hostname@,
        ctx::value(c, Var::TimeLocal, 0) == c.clock.time_local@,
        ctx::value(c, Var::TimeIso8601, 0) == c.clock.time_iso8601@,
        ctx::value(c, Var::Connection, 0) == bytes::decimal(c.env.conn_id as nat),
        ctx::value(c, Var::ConnectionRequests, 0) == bytes::decimal(c.env.conn_requests as nat),
        ctx::value(c, Var::Pid, 0) == bytes::decimal(c.clock.pid as nat),
        ctx::value(c, Var::NginxVersion, 0) == c.clock.version@,
        ctx::value(c, Var::RequestTime, 0) == ctx::seconds(c.clock.elapsed_us as int),
        ctx::value(c, Var::Msec, 0) == ctx::seconds(c.clock.now_us as int),
        ctx::value(c, Var::RequestFilename, 0) == c.filename,
        c.document_root.len() > 0 ==> ctx::value(c, Var::DocumentRoot, 0) == c.document_root,
        ctx::value(c, Var::FastcgiScriptName, 0) == c.fastcgi_script_name,
        ctx::value(c, Var::FastcgiPathInfo, 0) == c.fastcgi_path_info,
{
}

/// What is known of the upstream is shown, and nothing where there was none.
pub proof fn law_the_upstream_is_shown(c: CtxView, host: Seq<u8>, port: Seq<u8>)
    requires
        c.upstream_addr == host + seq![58u8] + port,
        !port.contains(58),
    ensures
        ctx::value(c, Var::UpstreamAddr, 0) == c.upstream_addr,
        ctx::value(c, Var::ProxyHost, 0) == c.upstream_addr,
        ctx::value(c, Var::ProxyPort, 0) == port,
        c.upstream_status > 0 ==> ctx::value(c, Var::UpstreamStatus, 0) == bytes::decimal(
            c.upstream_status as nat,
        ),
        c.upstream_status > 0 ==> ctx::value(c, Var::UpstreamResponseTime, 0) == ctx::seconds(
            c.upstream_us as int,
        ),
        c.upstream_status > 0 ==> ctx::value(c, Var::UpstreamConnectTime, 0) == ctx::seconds(
            c.upstream_us as int,
        ),
        c.upstream_status == 0 ==> ctx::value(c, Var::UpstreamStatus, 0).len() == 0 && ctx::value(
            c,
            Var::UpstreamResponseTime,
            0,
        ).len() == 0,
        ctx::value(c, Var::UpstreamCacheStatus, 0) == c.cache_status,
{
    lemma_last_colon(host, port);
    let s = c.upstream_addr;
    assert(s.subrange(host.len() as int + 1, s.len() as int) =~= port);
}

proof fn lemma_last_colon(host: Seq<u8>, port: Seq<u8>)
    requires
        !port.contains(58),
    ensures
        bytes::find_last(host + seq![58u8] + port, 58) == host.len(),
    decreases port.len(),
{
    let s = host + seq![58u8] + port;
    if port.len() > 0 {
        assert(port[port.len() - 1] != 58);
        let p = port.drop_last();
        assert(!p.contains(58)) by {
            if p.contains(58) {
                let i = choose|i: int| 0 <= i < p.len() && p[i] == 58;
                assert(port[i] == 58);
            }
        }
        lemma_last_colon(host, p);
        assert(s.drop_last() =~= host + seq![58u8] + p);
    } else {
        assert(s.last() == 58);
    }
}

/// The digits of a number of thousandths.
pub open spec fn thousandths(s: Seq<u8>) -> nat {
    bytes::decimal_value(s.subrange(0, s.len() - 4)) * 1000 + bytes::decimal_value(
        s.subrange(s.len() - 3, s.len() as int),
    )
}

proof fn lemma_three_digits(x: int, y: int, z: int)
    requires
        0 <= x < 10,
        0 <= y < 10,
        0 <= z < 10,
    ensures
        bytes::decimal_value(
            seq![bytes::digit(x as nat), bytes::digit(y as nat), bytes::digit(z as nat)],
        ) == x * 100 + y * 10 + z,
{
    let t = seq![bytes::digit(x as nat), bytes::digit(y as nat), bytes::digit(z as nat)];
    assert(t.drop_last() =~= seq![t[0], t[1]]);
    assert(seq![t[0], t[1]].drop_last() =~= seq![t[0]]);
    assert(seq![t[0]].drop_last() =~= Seq::<u8>::empty());
    assert(bytes::decimal_value(Seq::<u8>::empty()) == 0);
    assert(bytes::decimal_value(seq![t[0]]) == x);
    assert(bytes::decimal_value(seq![t[0], t[1]]) == x * 10 + y);
}

proof fn lemma_thousand(ms: int)
    requires
        ms >= 0,
    ensures
        ms == ms / 1000 * 1000 + (ms / 100 % 10) * 100 + (ms / 10 % 10) * 10 + ms % 10,
{
    assert(ms / 100 == (ms / 10) / 10);
    assert(ms / 1000 == (ms / 100) / 10);
}

/// Times are written in seconds, to the nearest of a thousandth, three digits behind the
/// point.
pub proof fn law_times_are_in_seconds(us: u64)
    ensures
        ({
            let s = ctx::seconds(us as int);
            &&& s.len() >= 5
            &&& s[s.len() - 4] == 46
            &&& us - 500 <= thousandths(s) * 1000 <= us + 500
            &&& forall|i: int|
                0 <= i < s.len() && i != s.len() - 4 ==> 48 <= #[trigger] s[i] <= 57
        }),
{
    let ms = ctx::nearest_ms(us as int);
    let whole = bytes::decimal((ms / 1000) as nat);
    let (x, y, z) = (ms / 100 % 10, ms / 10 % 10, ms % 10);
    let t = seq![
        bytes::digit(x as nat),
        bytes::digit(y as nat),
        bytes::digit(z as nat),
    ];
    let s = ctx::seconds(us as int);
    bytes::lemma_decimal((ms / 1000) as nat);
    assert(s =~= whole + seq![46u8] + t);
    assert(s.subrange(0, s.len() - 4) =~= whole);
    assert(s.subrange(s.len() - 3, s.len() as int) =~= t);
    lemma_three_digits(x, y, z);
    lemma_thousand(ms);
    assert forall|i: int| 0 <= i < s.len() && i != s.len() - 4 implies 48 <= #[trigger] s[i]
        <= 57 by {
        if i < whole.len() {
            assert(bytes::is_digit(whole[i]));
        } else {
            assert(s[i] == t[i - whole.len() - 1]);
        }
    }
}

// ---------------------------------------------------------------- arguments and cookies

/// An argument's value is what stands behind its name and an equals sign, up to the next
/// ampersand; of several the first counts.
pub proof fn law_arguments_have_values(name: Seq<u8>, v: Seq<u8>, rest: Seq<u8>)
    requires
        !name.contains(61) && !name.contains(38),
        !v.contains(38),
    ensures
        ctx::query_value(name + seq![61u8] + v, name) == Some(v),
        ctx::query_value(name + seq![61u8] + v + seq![38u8] + rest, name) == Some(v),
{
    let p = name + seq![61u8] + v;
    lemma_absent(name, v, 61, 38);
    bytes::lemma_find_is(p, 38, 0, p.len() as int);
    assert(p.subrange(0, p.len() as int) =~= p);
    lemma_name_ends(name, v, 61);
    assert(p.subrange(0, name.len() as int) =~= name);
    assert(p.subrange(name.len() as int + 1, p.len() as int) =~= v);
    let q = p + seq![38u8] + rest;
    bytes::lemma_find_is(q, 38, 0, p.len() as int);
    assert(q.subrange(0, p.len() as int) =~= p);
}

proof fn lemma_absent(name: Seq<u8>, v: Seq<u8>, sign: u8, c: u8)
    requires
        !name.contains(c),
        !v.contains(c),
        sign != c,
    ensures
        forall|j: int|
            0 <= j < (name + seq![sign] + v).len() ==> (name + seq![sign] + v)[j] != c,
{
    let p = name + seq![sign] + v;
    assert forall|j: int| 0 <= j < p.len() implies p[j] != c by {
        if j < name.len() {
            assert(p[j] == name[j]);
        } else if j > name.len() {
            assert(p[j] == v[j - name.len() - 1]);
        }
    }
}

proof fn lemma_name_ends(name: Seq<u8>, v: Seq<u8>, sign: u8)
    requires
        !name.contains(sign),
    ensures
        bytes::find(name + seq![sign] + v, sign, 0) == name.len(),
{
    let p = name + seq![sign] + v;
    assert forall|j: int| 0 <= j < name.len() implies p[j] != sign by {
        assert(p[j] == name[j]);
    }
    bytes::lemma_find_is(p, sign, 0, name.len() as int);
}

/// Arguments of other names are passed over, and an argument that is not there has no
/// value.
pub proof fn law_other_arguments_are_passed_over(
    other: Seq<u8>,
    v: Seq<u8>,
    rest: Seq<u8>,
    name: Seq<u8>,
)
    requires
        !other.contains(61) && !other.contains(38),
        !v.contains(38),
        other != name,
    ensures
        ctx::query_value(other + seq![61u8] + v + seq![38u8] + rest, name) == ctx::query_value(
            rest,
            name,
        ),
        ctx::query_value(other + seq![61u8] + v, name) is None,
        ctx::query_value(Seq::empty(), name) is None,
{
    let p = other + seq![61u8] + v;
    lemma_absent(other, v, 61, 38);
    bytes::lemma_find_is(p, 38, 0, p.len() as int);
    assert(p.subrange(0, p.len() as int) =~= p);
    lemma_name_ends(other, v, 61);
    assert(p.subrange(0, other.len() as int) =~= other);
    let q = p + seq![38u8] + rest;
    bytes::lemma_find_is(q, 38, 0, p.len() as int);
    assert(q.subrange(0, p.len() as int) =~= p);
    assert(q.subrange(p.len() as int + 1, q.len() as int) =~= rest);
}

/// The variable of an argument is its value, and nothing without one.
pub proof fn law_arguments_are_shown(c: CtxView, name: Vec<u8>)
    ensures
        ctx::value(c, Var::Arg(name), 0) == (match ctx::query_value(c.args, name@) {
            Some(v) => v,
            None => Seq::empty(),
        }),
{
}

/// A cookie's value is what stands behind its name and an equals sign, up to the next
/// semicolon, without white space around it.
pub proof fn law_cookies_have_values(name: Seq<u8>, v: Seq<u8>, rest: Seq<u8>)
    requires
        !name.contains(61) && !name.contains(59),
        name.len() > 0,
        32 < name[0] < 128,
        !v.contains(59),
    ensures
        ctx::cookie(name + seq![61u8] + v, name) == Some(bytes::trimmed(v)),
        ctx::cookie(name + seq![61u8] + v + seq![59u8] + rest, name) == Some(bytes::trimmed(v)),
{
    let p = name + seq![61u8] + v;
    lemma_absent(name, v, 61, 59);
    bytes::lemma_find_is(p, 59, 0, p.len() as int);
    assert(p.subrange(0, p.len() as int) =~= p);
    assert(p[0] == name[0]);
    lemma_name_ends(name, v, 61);
    assert(p.subrange(0, name.len() as int) =~= name);
    assert(p.subrange(name.len() as int + 1, p.len() as int) =~= v);
    let q = p + seq![59u8] + rest;
    bytes::lemma_find_is(q, 59, 0, p.len() as int);
    assert(q.subrange(0, p.len() as int) =~= p);
}

/// Other cookies are passed over, white space in front of a name too.
pub proof fn law_other_cookies_are_passed_over(
    other: Seq<u8>,
    v: Seq<u8>,
    rest: Seq<u8>,
    name: Seq<u8>,
)
    requires
        !other.contains(61) && !other.contains(59),
        other.len() > 0,
        32 < other[0] < 128,
        !v.contains(59),
        other != name,
    ensures
        ctx::cookie(other + seq![61u8] + v + seq![59u8] + rest, name) == ctx::cookie(rest, name),
        ctx::cookie(other + seq![61u8] + v, name) is None,
{
    let p = other + seq![61u8] + v;
    lemma_absent(other, v, 61, 59);
    bytes::lemma_find_is(p, 59, 0, p.len() as int);
    assert(p.subrange(0, p.len() as int) =~= p);
    assert(p[0] == other[0]);
    lemma_name_ends(other, v, 61);
    assert(p.subrange(0, other.len() as int) =~= other);
    let q = p + seq![59u8] + rest;
    bytes::lemma_find_is(q, 59, 0, p.len() as int);
    assert(q.subrange(0, p.len() as int) =~= p);
    assert(q.subrange(p.len() as int + 1, q.len() as int) =~= rest);
}

/// The variable of a cookie is its value in the request.
pub proof fn law_cookies_are_shown(c: CtxView, name: Vec<u8>, h: Seq<u8>)
    ensures
        serving::brings(c, "cookie"@, h) ==> ctx::value(c, Var::Cookie(name), 0) == (
        match ctx::cookie(h, name@) {
            Some(v) => v,
            None => Seq::empty(),
        }),
        serving::lacks(c, "cookie"@) ==> ctx::value(c, Var::Cookie(name), 0).len() == 0,
{
    serving::law_headers_are_found_by_name(c, "cookie"@, h);
}

// ---------------------------------------------------------------- the user of a request

/// The value of a letter of base64.
pub open spec fn letter(i: int) -> u8 {
    if i < 26 {
        (65 + i) as u8
    } else if i < 52 {
        (97 + i - 26) as u8
    } else if i < 62 {
        (48 + i - 52) as u8
    } else if i == 62 {
        43
    } else {
        47
    }
}

/// Bytes in base64, with padding.
pub open spec fn in_base64(s: Seq<u8>) -> Seq<u8>
    decreases s.len(),
{
    if s.len() == 0 {
        Seq::empty()
    } else if s.len() == 1 {
        seq![letter(s[0] as int / 4), letter(s[0] as int % 4 * 16), 61u8, 61u8]
    } else if s.len() == 2 {
        seq![
            letter(s[0] as int / 4),
            letter(s[0] as int % 4 * 16 + s[1] as int / 16),
            letter(s[1] as int % 16 * 4),
            61u8,
        ]
    } else {
        seq![
            letter(s[0] as int / 4),
            letter(s[0] as int % 4 * 16 + s[1] as int / 16),
            letter(s[1] as int % 16 * 4 + s[2] as int / 64),
            letter(s[2] as int % 64),
        ] + in_base64(s.subrange(3, s.len() as int))
    }
}

proof fn lemma_letter(i: int)
    requires
        0 <= i < 64,
    ensures
        ctx::sextet(letter(i)) == Some(i),
        letter(i) != 61,
{
}

spec fn is_letters(u: Seq<u8>) -> bool {
    forall|i: int| 0 <= i < u.len() ==> ctx::sextet(#[trigger] u[i]) is Some && u[i] != 61
}

spec fn sextets(u: Seq<u8>) -> Seq<int> {
    u.map_values(|c: u8| ctx::sextet(c)->0)
}

proof fn lemma_base64(s: Seq<u8>) -> (u: Seq<u8>)
    ensures
        is_letters(u),
        ctx::unpadded(in_base64(s)) == u,
        ctx::packed(sextets(u)) == s,
    decreases s.len(),
{
    let t = in_base64(s);
    if s.len() == 0 {
        let u = Seq::<u8>::empty();
        assert(ctx::unpadded(t) =~= u);
        assert(ctx::packed(sextets(u)) =~= s);
        u
    } else if s.len() == 1 {
        lemma_letter(s[0] as int / 4);
        lemma_letter(s[0] as int % 4 * 16);
        let u = seq![t[0], t[1]];
        bytes::lemma_find_is(t, 61, 0, 2);
        assert(ctx::unpadded(t) =~= u);
        let v = sextets(u);
        assert(v =~= seq![s[0] as int / 4, s[0] as int % 4 * 16]);
        assert(ctx::packed(v) =~= s);
        u
    } else if s.len() == 2 {
        lemma_letter(s[0] as int / 4);
        lemma_letter(s[0] as int % 4 * 16 + s[1] as int / 16);
        lemma_letter(s[1] as int % 16 * 4);
        let u = seq![t[0], t[1], t[2]];
        bytes::lemma_find_is(t, 61, 0, 3);
        assert(ctx::unpadded(t) =~= u);
        let v = sextets(u);
        assert(v =~= seq![
            s[0] as int / 4,
            s[0] as int % 4 * 16 + s[1] as int / 16,
            s[1] as int % 16 * 4,
        ]);
        assert(ctx::packed(v) =~= s);
        u
    } else {
        let rest = s.subrange(3, s.len() as int);
        let w = lemma_base64(rest);
        lemma_letter(s[0] as int / 4);
        lemma_letter(s[0] as int % 4 * 16 + s[1] as int / 16);
        lemma_letter(s[1] as int % 16 * 4 + s[2] as int / 64);
        lemma_letter(s[2] as int % 64);
        let four = seq![t[0], t[1], t[2], t[3]];
        let u = four + w;
        let tail = in_base64(rest);
        assert(t =~= four + tail);
        bytes::lemma_find(tail, 61, 0);
        let at = bytes::find(tail, 61, 0);
        assert forall|j: int| 0 <= j < at + 4 implies t[j] != 61 by {
            if j >= 4 {
                assert(t[j] == tail[j - 4]);
            }
        }
        bytes::lemma_find_is(t, 61, 0, at + 4);
        assert(ctx::unpadded(t) =~= u);
        assert(is_letters(u)) by {
            assert forall|i: int| 0 <= i < u.len() implies ctx::sextet(#[trigger] u[i]) is Some
                && u[i] != 61 by {
                if i >= 4 {
                    assert(u[i] == w[i - 4]);
                }
            }
        }
        let v = sextets(u);
        assert(v.subrange(4, v.len() as int) =~= sextets(w));
        assert(v[0] == s[0] as int / 4);
        assert(v[1] == s[0] as int % 4 * 16 + s[1] as int / 16);
        assert(v[2] == s[1] as int % 16 * 4 + s[2] as int / 64);
        assert(v[3] == s[2] as int % 64);
        if v.len() == 4 {
            assert(sextets(w).len() == 0);
        }
        assert(ctx::packed(v) =~= s);
        u
    }
}

/// What was put into base64 comes out of it, and nothing comes out of anything else.
pub proof fn law_base64_is_undone(s: Seq<u8>, t: Seq<u8>, i: int)
    ensures
        ctx::base64(in_base64(s)) == Some(s),
        0 <= i < bytes::find(t, 61, 0) && t[i] < 43 ==> ctx::base64(t) is None,
{
    let u = lemma_base64(s);
    assert(ctx::unpadded(in_base64(s)) == u);
    bytes::lemma_find(t, 61, 0);
    if 0 <= i < bytes::find(t, 61, 0) && t[i] < 43 {
        assert(ctx::unpadded(t)[i] == t[i]);
        assert(ctx::sextet(ctx::unpadded(t)[i]) is None);
    }
}

/// The user of a request is the name before the colon in its credentials.
pub proof fn law_the_user_is_shown(c: CtxView, h: Seq<u8>)
    ensures
        serving::lacks(c, "authorization"@) ==> ctx::value(c, Var::RemoteUser, 0).len() == 0,
        serving::brings(c, "authorization"@, h) ==> ctx::value(c, Var::RemoteUser, 0)
            == ctx::basic_user(h),
{
    serving::law_headers_are_found_by_name(c, "authorization"@, h);
}

/// Credentials of the basic scheme are a name, a colon and a password, in base64.
pub proof fn law_credentials_name_the_user(name: Seq<u8>, password: Seq<u8>)
    requires
        bytes::is_ascii(name),
        !name.contains(58),
        in_base64(name + seq![58u8] + password) == bytes::trimmed(
            in_base64(name + seq![58u8] + password),
        ),
    ensures
        ctx::basic_user(bytes::utf8("Basic "@) + in_base64(name + seq![58u8] + password)) == name,
{
    let d = name + seq![58u8] + password;
    let scheme = bytes::utf8("Basic "@);
    let h = scheme + in_base64(d);
    assert(h.subrange(0, scheme.len() as int) =~= scheme);
    assert(h.subrange(scheme.len() as int, h.len() as int) =~= in_base64(d));
    law_base64_is_undone(d, Seq::empty(), 0);
    lemma_name_ends(name, password, 58);
    assert(d.subrange(0, name.len() as int) =~= name);
    bytes::lemma_ascii_text(name);
    let n = bytes::ascii_text(name);
    vstd::utf8::encode_utf8_decode_utf8(n);
    assert(vstd::utf8::decode_utf8(name) == n);
}

// ---------------------------------------------------------------- maps

/// An exact key is looked for first, in lower case.
pub proof fn law_exact_keys_come_first(m: MapConf, key: Seq<u8>, k: int)
    requires
        0 <= k < m.exact@.len(),
        m.exact@[k].key@ == bytes::lowered(key),
        forall|j: int| 0 <= j < k ==> (#[trigger] m.exact@[j]).key@ != bytes::lowered(key),
    ensures
        ctx::looked_up(m, key) == Some(m.exact@[k].value),
{
    lemma_exact(m.exact@, bytes::lowered(key), 0, k);
}

proof fn lemma_exact(es: Seq<ExactEntry>, k: Seq<u8>, i: int, at: int)
    requires
        0 <= i <= at <= es.len(),
        at < es.len() ==> es[at].key@ == k,
        forall|j: int| i <= j < at ==> (#[trigger] es[j]).key@ != k,
    ensures
        ctx::exact_place(es, k, i) == at,
    decreases at - i,
{
    if i < at {
        assert(es[i].key@ != k);
        lemma_exact(es, k, i + 1, at);
    }
}

/// Some host is named by a wildcard: it ends, or begins, with the pattern and has more, set
/// off by a dot.
pub open spec fn is_wild_name(w: WildcardEntry, k: Seq<u8>) -> bool {
    exists|more: Seq<u8>|
        #![trigger more.len()]
        k == if w.leading {
            more + seq![46u8] + w.pattern@
        } else {
            w.pattern@ + seq![46u8] + more
        }
}

/// What a wildcard names.
pub proof fn law_wildcards_name_hosts(w: WildcardEntry, k: Seq<u8>)
    ensures
        ctx::wild_hit(w, k) <==> is_wild_name(w, k),
{
    let p = w.pattern@;
    if ctx::wild_hit(w, k) {
        if w.leading {
            let more = k.subrange(0, k.len() - p.len() - 1);
            assert(more.len() >= 0);
            assert(k =~= more + seq![46u8] + p) by {
                assert forall|i: int| 0 <= i < p.len() implies k[k.len() - p.len() + i]
                    == #[trigger] p[i] by {
                    assert(k.subrange(k.len() - p.len(), k.len() as int)[i] == p[i]);
                }
            }
        } else {
            let more = k.subrange(p.len() as int + 1, k.len() as int);
            assert(more.len() >= 0);
            assert(k =~= p + seq![46u8] + more) by {
                assert forall|i: int| 0 <= i < p.len() implies k[i] == #[trigger] p[i] by {
                    assert(k.subrange(0, p.len() as int)[i] == p[i]);
                }
            }
        }
    }
    if is_wild_name(w, k) {
        let more = choose|more: Seq<u8>|
            #![trigger more.len()]
            k == if w.leading {
                more + seq![46u8] + w.pattern@
            } else {
                w.pattern@ + seq![46u8] + more
            };
        if w.leading {
            assert(k.subrange(k.len() - p.len(), k.len() as int) =~= p);
        } else {
            assert(k.subrange(0, p.len() as int) =~= p);
        }
    }
}

/// Without an exact key the longest wildcard that names it is taken, of equally long ones
/// the first.
pub proof fn law_the_longest_wildcard_is_taken(m: MapConf, key: Seq<u8>, k: int)
    requires
        forall|j: int|
            0 <= j < m.exact@.len() ==> (#[trigger] m.exact@[j]).key@ != bytes::lowered(key),
        0 <= k < m.wildcards@.len(),
        is_wild_name(m.wildcards@[k], bytes::lowered(key)),
        forall|j: int|
            0 <= j < m.wildcards@.len() && is_wild_name(
                #[trigger] m.wildcards@[j],
                bytes::lowered(key),
            ) ==> m.wildcards@[j].pattern@.len() <= m.wildcards@[k].pattern@.len() && (j < k
                ==> m.wildcards@[j].pattern@.len() < m.wildcards@[k].pattern@.len()),
    ensures
        ctx::looked_up(m, key) == Some(m.wildcards@[k].value),
{
    let low = bytes::lowered(key);
    lemma_exact(m.exact@, low, 0, m.exact@.len() as int);
    assert forall|j: int| 0 <= j < m.wildcards@.len() && ctx::wild_hit(
        #[trigger] m.wildcards@[j],
        low,
    ) implies m.wildcards@[j].pattern@.len() <= m.wildcards@[k].pattern@.len() && (j < k
        ==> m.wildcards@[j].pattern@.len() < m.wildcards@[k].pattern@.len()) by {
        law_wildcards_name_hosts(m.wildcards@[j], low);
    }
    law_wildcards_name_hosts(m.wildcards@[k], low);
    lemma_best(m.wildcards@, low, m.wildcards@.len() as int, k);
}

proof fn lemma_best(ws: Seq<WildcardEntry>, low: Seq<u8>, n: int, k: int)
    requires
        0 <= n <= ws.len(),
        0 <= k < ws.len(),
        ctx::wild_hit(ws[k], low),
        forall|j: int|
            0 <= j < ws.len() && ctx::wild_hit(#[trigger] ws[j], low) ==> ws[j].pattern@.len()
                <= ws[k].pattern@.len() && (j < k ==> ws[j].pattern@.len() < ws[k].pattern@.len()),
    ensures
        ({
            let b = ctx::best_wild(ws, low, n);
            &&& -1 <= b < n
            &&& b >= 0 ==> ctx::wild_hit(ws[b], low)
            &&& k < n ==> b == k
        }),
    decreases n,
{
    if n > 0 {
        lemma_best(ws, low, n - 1, k);
    }
}

proof fn lemma_no_wild(ws: Seq<WildcardEntry>, low: Seq<u8>, n: int)
    requires
        0 <= n <= ws.len(),
        forall|j: int| 0 <= j < ws.len() ==> !ctx::wild_hit(#[trigger] ws[j], low),
    ensures
        ctx::best_wild(ws, low, n) == -1,
    decreases n,
{
    if n > 0 {
        lemma_no_wild(ws, low, n - 1);
        assert(!ctx::wild_hit(ws[n - 1], low));
    }
}

proof fn lemma_regex_place(rs: Seq<RegexEntry>, key: Seq<u8>, i: int, at: int)
    requires
        0 <= i <= at <= rs.len(),
        at < rs.len() ==> pattern::found(rs[at].pattern@, key),
        forall|j: int| i <= j < at ==> !pattern::found((#[trigger] rs[j]).pattern@, key),
    ensures
        ctx::regex_place(rs, key, i) == at,
    decreases at - i,
{
    if i < at {
        assert(!pattern::found(rs[i].pattern@, key));
        lemma_regex_place(rs, key, i + 1, at);
    }
}

/// Without a literal the first expression that is found in the key, as it came, is taken,
/// and without one the default.
pub proof fn law_expressions_come_last(m: MapConf, key: Seq<u8>, k: int)
    requires
        forall|j: int|
            0 <= j < m.exact@.len() ==> (#[trigger] m.exact@[j]).key@ != bytes::lowered(key),
        forall|j: int|
            0 <= j < m.wildcards@.len() ==> !is_wild_name(
                #[trigger] m.wildcards@[j],
                bytes::lowered(key),
            ),
        0 <= k <= m.regexes@.len(),
        k < m.regexes@.len() ==> pattern::found(m.regexes@[k].pattern@, key),
        forall|j: int| 0 <= j < k ==> !pattern::found((#[trigger] m.regexes@[j]).pattern@, key),
    ensures
        ctx::looked_up(m, key) == if k < m.regexes@.len() {
            Some(m.regexes@[k].value)
        } else {
            m.fallback
        },
{
    let low = bytes::lowered(key);
    lemma_exact(m.exact@, low, 0, m.exact@.len() as int);
    assert forall|j: int| 0 <= j < m.wildcards@.len() implies !ctx::wild_hit(
        #[trigger] m.wildcards@[j],
        low,
    ) by {
        law_wildcards_name_hosts(m.wildcards@[j], low);
    }
    lemma_no_wild(m.wildcards@, low, m.wildcards@.len() as int);
    lemma_regex_place(m.regexes@, key, 0, k);
}

/// A mapped variable is what its map makes of its source, where no `set` gave it a value.
pub proof fn law_maps_make_variables(c: CtxView, name: Vec<u8>, k: int)
    requires
        forall|j: int| 0 <= j < c.set_vars.len() ==> (#[trigger] c.set_vars[j]).0 != name@,
        0 <= k < c.env.maps@.len(),
        c.env.maps@[k].target@ == name@,
        forall|j: int| 0 <= j < k ==> (#[trigger] c.env.maps@[j]).target@ != name@,
    ensures
        ctx::value(c, Var::User(name), 0) == (match ctx::looked_up(
            c.env.maps@[k],
            ctx::value(c, c.env.maps@[k].source, 1),
        ) {
            Some(t) => ctx::rendered(c, t.parts@, t.parts@.len() as int, 1),
            None => Seq::empty(),
        }),
{
    lemma_set_place(c.set_vars, name@, 0);
    lemma_map_place(c.env.maps@, name@, 0, k);
}

proof fn lemma_set_place(vars: Seq<http::Field>, name: Seq<u8>, i: int)
    requires
        0 <= i <= vars.len(),
        forall|j: int| i <= j < vars.len() ==> (#[trigger] vars[j]).0 != name,
    ensures
        ctx::set_place(vars, name, i) == vars.len(),
    decreases vars.len() - i,
{
    if i < vars.len() {
        assert(vars[i].0 != name);
        lemma_set_place(vars, name, i + 1);
    }
}

proof fn lemma_map_place(maps: Seq<MapConf>, name: Seq<u8>, i: int, at: int)
    requires
        0 <= i <= at < maps.len(),
        maps[at].target@ == name,
        forall|j: int| i <= j < at ==> (#[trigger] maps[j]).target@ != name,
    ensures
        ctx::map_place(maps, name, i) == at,
    decreases at - i,
{
    if i < at {
        assert(maps[i].target@ != name);
        lemma_map_place(maps, name, i + 1, at);
    }
}

// ---------------------------------------------------------------- the log

/// Headers of the upstream's response are shown by their names.
pub proof fn law_the_upstreams_headers_are_shown(c: CtxView, name: Vec<u8>)
    ensures
        ctx::value(c, Var::UpstreamHttp(name), 0) == (match http::value_of(
            c.upstream_headers,
            name@,
        ) {
            Some(v) => v,
            None => Seq::empty(),
        }),
{
}

/// In a log the response is known: its status, what was sent of it, and its headers.
pub proof fn law_the_response_is_logged(l: LogVars, name: Vec<u8>, v: Var)
    ensures
        l.value(Var::Status) == bytes::decimal(l.status as nat),
        l.value(Var::BodyBytesSent) == bytes::decimal(l.body_bytes as nat),
        l.value(Var::BytesSent) == bytes::decimal(l.total_bytes as nat),
        l.value(Var::SentHttp(name)) == (match http::value_of(
            http::fields(l.resp.headers@),
            name@,
        ) {
            Some(x) => x,
            None => Seq::empty(),
        }),
        v != Var::Status && v != Var::BodyBytesSent && v != Var::BytesSent && !(v is SentHttp)
            ==> l.value(v) == ctx::value(l.ctx@, v, 0),
{
}

/// A line of a log is its format's parts one after another, and a record has the values of
/// its variables.
pub proof fn law_log_formats_are_their_parts(l: LogVars, parts: Seq<Part>, n: int)
    requires
        0 < n <= parts.len(),
    ensures
        l.rendered(parts, n) == l.rendered(parts, n - 1) + (match parts[n - 1] {
            Part::Literal(s) => s@,
            Part::Variable(v) => l.value(v),
        }),
        l.rendered(parts, 0).len() == 0,
        l.valued(parts, n) == (match parts[n - 1] {
            Part::Literal(s) => l.valued(parts, n - 1),
            Part::Variable(v) => l.valued(parts, n - 1).push(l.value(v)),
        }),
        l.valued(parts, 0).len() == 0,
{
}

// ---------------------------------------------------------------- settings

/// What a location sets holds there; outside of locations what the server sets.
pub proof fn law_a_location_has_its_settings(c: CtxView, i: usize)
    ensures
        c.matched == Some(i) && i < c.env.server.locations@.len() ==> ctx::core_of(c)
            == c.env.server.locations@[i as int].core,
        c.matched is None ==> ctx::core_of(c) == c.env.server.core,
{
}

/// Credentials without a colon, and those of another scheme, name nobody.
pub proof fn law_other_credentials_name_nobody(d: Seq<u8>, h: Seq<u8>)
    requires
        !d.contains(58),
        in_base64(d) == bytes::trimmed(in_base64(d)),
    ensures
        ctx::basic_user(bytes::utf8("Basic "@) + in_base64(d)).len() == 0,
        !bytes::starts(h, bytes::utf8("Basic "@)) ==> ctx::basic_user(h).len() == 0,
{
    let scheme = bytes::utf8("Basic "@);
    let all = scheme + in_base64(d);
    assert(all.subrange(0, scheme.len() as int) =~= scheme);
    assert(all.subrange(scheme.len() as int, all.len() as int) =~= in_base64(d));
    law_base64_is_undone(d, Seq::empty(), 0);
    assert forall|j: int| 0 <= j < d.len() implies d[j] != 58 by {
        if d[j] == 58 {
            assert(d.contains(58));
        }
    }
    bytes::lemma_find_is(d, 58, 0, d.len() as int);
}

} // verus!
