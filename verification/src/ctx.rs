//! Per-request context and variable resolution.
//!
//! One [`Ctx`] exists per request. It owns the mutable view of the request (the
//! URI and the arguments, which `rewrite` and internal redirects change) and the
//! parts that stay as they are.

use vstd::prelude::*;
use vstd::string::*;

use crate::bytes;
use crate::config::Addr;
use crate::config::Clock;
use crate::config::CoreConf;
use crate::config::Env;
use crate::config::ExactEntry;
use crate::config::MapConf;
use crate::config::Part;
use crate::config::RegexEntry;
use crate::config::ServerConf;
use crate::config::ServerName;
use crate::config::Template;
use crate::config::Var;
use crate::config::WildcardEntry;
use crate::http;
use crate::http::Header;
use crate::http::Resp;
use crate::pattern;
use crate::text;

verus! {

/// The state of one request.
#[derive(Debug)]
pub struct Ctx<'a> {
    pub env: &'a Env,
    pub clock: Clock,
    /// Normalised request path. Changed by `rewrite` and internal redirects.
    pub uri: Vec<u8>,
    /// Query string, without the `?`.
    pub args: Vec<u8>,
    /// `$1` and so on from the most recent regex match.
    pub captures: Vec<Vec<u8>>,
    /// Variables assigned by `set`.
    pub set_vars: Vec<Header>,
    /// `$document_root`: the root the file handler resolved.
    pub document_root: Vec<u8>,
    /// `$request_filename`: the path the file handler resolved.
    pub filename: Vec<u8>,
    pub fastcgi_script_name: Vec<u8>,
    pub fastcgi_path_info: Vec<u8>,
    pub upstream_addr: Vec<u8>,
    pub upstream_status: u16,
    pub upstream_us: u64,
    pub upstream_headers: Vec<Header>,
    pub cache_status: Vec<u8>,
    /// How many internal redirects have happened.
    pub redirects: u32,
    /// The location routing selected, by its place in the server.
    pub matched: Option<usize>,
    /// How deep in `auth_request` subrequests this request is.
    pub auth_depth: u32,
}

/// The state of one request as plain values.
#[verifier::ext_equal]
pub ghost struct CtxView {
    pub env: Env,
    pub clock: Clock,
    pub uri: Seq<u8>,
    pub args: Seq<u8>,
    pub captures: Seq<Seq<u8>>,
    pub set_vars: Seq<http::Field>,
    pub document_root: Seq<u8>,
    pub filename: Seq<u8>,
    pub fastcgi_script_name: Seq<u8>,
    pub fastcgi_path_info: Seq<u8>,
    pub upstream_addr: Seq<u8>,
    pub upstream_status: u16,
    pub upstream_us: u64,
    pub upstream_headers: Seq<http::Field>,
    pub cache_status: Seq<u8>,
    pub redirects: u32,
    pub matched: Option<usize>,
    pub auth_depth: u32,
}

impl<'a> View for Ctx<'a> {
    type V = CtxView;

    open spec fn view(&self) -> CtxView {
        CtxView {
            env: *self.env,
            clock: self.clock,
            uri: self.uri@,
            args: self.args@,
            captures: pattern::views(self.captures@),
            set_vars: http::fields(self.set_vars@),
            document_root: self.document_root@,
            filename: self.filename@,
            fastcgi_script_name: self.fastcgi_script_name@,
            fastcgi_path_info: self.fastcgi_path_info@,
            upstream_addr: self.upstream_addr@,
            upstream_status: self.upstream_status,
            upstream_us: self.upstream_us,
            upstream_headers: http::fields(self.upstream_headers@),
            cache_status: self.cache_status@,
            redirects: self.redirects,
            matched: self.matched,
            auth_depth: self.auth_depth,
        }
    }
}

// ---------------------------------------------------------------- numbers and addresses

/// Microseconds to the nearest millisecond, a half counted up.
pub open spec fn nearest_ms(us: int) -> int {
    (us + 500) / 1000
}

/// Microseconds as seconds with three decimals.
pub open spec fn seconds(us: int) -> Seq<u8> {
    let ms = nearest_ms(us);
    bytes::decimal((ms / 1000) as nat) + seq![46u8] + seq![
        bytes::digit((ms / 100 % 10) as nat),
        bytes::digit((ms / 10 % 10) as nat),
        bytes::digit((ms % 10) as nat),
    ]
}

/// Formats microseconds as seconds, rounded to three decimals.
pub fn push_secs(out: &mut Vec<u8>, us: u64)
    ensures
        final(out)@ == old(out)@ + seconds(us as int),
{
    let ms: u64 = if us % 1000 < 500 {
        us / 1000
    } else {
        us / 1000 + 1
    };
    assert(ms == nearest_ms(us as int));
    bytes::push_decimal(out, ms / 1000);
    out.push(46);
    out.push(48 + (ms / 100 % 10) as u8);
    out.push(48 + (ms / 10 % 10) as u8);
    out.push(48 + (ms % 10) as u8);
    assert(out@ =~= old(out)@ + seconds(us as int));
}

/// The text of a peer's address, which for one on a Unix socket is `unix:`.
pub open spec fn addr_text(a: Option<Addr>) -> Seq<u8> {
    match a {
        None => bytes::utf8("unix:"@),
        Some(Addr::V4 { a, b, c, d, port }) => bytes::decimal(a as nat) + seq![46u8]
            + bytes::decimal(b as nat) + seq![46u8] + bytes::decimal(c as nat) + seq![46u8]
            + bytes::decimal(d as nat),
        Some(Addr::V6 { text, octets, port }) => text@,
    }
}

/// Appends the text of a peer's address.
pub fn push_addr(out: &mut Vec<u8>, addr: &Option<Addr>)
    ensures
        final(out)@ == old(out)@ + addr_text(*addr),
{
    match addr {
        None => {
            out.extend_from_slice("unix:".as_bytes());
        },
        Some(Addr::V4 { a, b, c, d, port }) => {
            bytes::push_decimal(out, *a as u64);
            out.push(46);
            bytes::push_decimal(out, *b as u64);
            out.push(46);
            bytes::push_decimal(out, *c as u64);
            out.push(46);
            bytes::push_decimal(out, *d as u64);
        },
        Some(Addr::V6 { text, octets, port }) => {
            out.extend_from_slice(text.as_slice());
        },
    }
    assert(out@ =~= old(out)@ + addr_text(*addr));
}

/// The port of a peer, 0 where it has none.
pub open spec fn port_of(a: Option<Addr>) -> u16 {
    match a {
        None => 0,
        Some(Addr::V4 { a, b, c, d, port }) => port,
        Some(Addr::V6 { text, octets, port }) => port,
    }
}

/// Tells the port of a peer.
pub fn port(addr: &Option<Addr>) -> (r: u16)
    ensures
        r == port_of(*addr),
{
    match addr {
        None => 0,
        Some(Addr::V4 { a, b, c, d, port }) => *port,
        Some(Addr::V6 { text, octets, port }) => *port,
    }
}

// ---------------------------------------------------------------- names

/// The text of a server's first name, from the `i`th on.
pub open spec fn name_from(names: Seq<ServerName>, i: int) -> Seq<u8>
    decreases names.len() - i,
{
    if i < 0 || i >= names.len() {
        Seq::empty()
    } else {
        match names[i] {
            ServerName::Exact(e) => if e@.len() > 0 {
                e@
            } else {
                name_from(names, i + 1)
            },
            ServerName::LeadingWildcard(x) => bytes::utf8("*."@) + x@,
            ServerName::TrailingWildcard(x) => x@ + bytes::utf8(".*"@),
            ServerName::Regex(_) => name_from(names, i + 1),
        }
    }
}

/// The first name of a server that can be shown.
pub fn first_server_name(s: &ServerConf) -> (r: Vec<u8>)
    ensures
        r@ == name_from(s.names@, 0),
{
    for i in 0..s.names.len()
        invariant
            name_from(s.names@, 0) == name_from(s.names@, i as int),
    {
        match &s.names[i] {
            ServerName::Exact(e) => {
                if e.len() > 0 {
                    return bytes::copy(e.as_slice());
                }
            },
            ServerName::LeadingWildcard(x) => {
                let mut out: Vec<u8> = bytes::copy("*.".as_bytes());
                out.extend_from_slice(x.as_slice());
                return out;
            },
            ServerName::TrailingWildcard(x) => {
                let mut out: Vec<u8> = bytes::copy(x.as_slice());
                out.extend_from_slice(".*".as_bytes());
                return out;
            },
            ServerName::Regex(_) => {},
        }
    }
    Vec::new()
}

// ---------------------------------------------------------------- cookies and arguments

/// The value of a cookie. A part without `=` ends the search.
pub open spec fn cookie(header: Seq<u8>, name: Seq<u8>) -> Option<Seq<u8>>
    decreases header.len(),
{
    let i = bytes::find(header, 59, 0);
    if i < 0 || i > header.len() {
        None
    } else {
        let part = bytes::trimmed_start(header.subrange(0, i));
        let e = bytes::find(part, 61, 0);
        if e >= part.len() {
            None
        } else if part.subrange(0, e) == name {
            Some(bytes::trimmed(part.subrange(e + 1, part.len() as int)))
        } else if i < header.len() {
            cookie(header.subrange(i + 1, header.len() as int), name)
        } else {
            None
        }
    }
}

/// Finds the value of a cookie.
pub fn cookie_value<'a>(header: &'a [u8], name: &[u8]) -> (r: Option<&'a [u8]>)
    ensures
        match r {
            Some(v) => cookie(header@, name@) == Some(v@),
            None => cookie(header@, name@) is None,
        },
{
    let mut from: usize = 0;
    assert(header@.subrange(0, header@.len() as int) =~= header@);
    loop
        invariant
            from <= header.len(),
            cookie(header@, name@) == cookie(
                header@.subrange(from as int, header@.len() as int),
                name@,
            ),
        decreases header.len() - from,
    {
        let rest: &[u8] = &header[from..header.len()];
        let i: usize = bytes::find_from(rest, 59, 0);
        let part: &[u8] = bytes::trim_start(&rest[0..i]);
        let e: usize = bytes::find_from(part, 61, 0);
        if e >= part.len() {
            return None;
        }
        if bytes::same(&part[0..e], name) {
            return Some(bytes::trim(&part[e + 1..part.len()]));
        }
        if i >= rest.len() {
            return None;
        }
        assert(rest@.subrange(i + 1, rest@.len() as int) =~= header@.subrange(
            from + i + 1,
            header@.len() as int,
        ));
        from = from + i + 1;
    }
}

/// The value of the first argument of a name.
pub open spec fn query_value(args: Seq<u8>, name: Seq<u8>) -> Option<Seq<u8>>
    decreases args.len(),
{
    let i = bytes::find(args, 38, 0);
    if i < 0 || i > args.len() {
        None
    } else {
        let part = args.subrange(0, i);
        let e = bytes::find(part, 61, 0);
        if e < part.len() && part.subrange(0, e) == name {
            Some(part.subrange(e + 1, part.len() as int))
        } else if i < args.len() {
            query_value(args.subrange(i + 1, args.len() as int), name)
        } else {
            None
        }
    }
}

/// Finds the value of an argument.
pub fn query_param<'a>(args: &'a [u8], name: &[u8]) -> (r: Option<&'a [u8]>)
    ensures
        match r {
            Some(v) => query_value(args@, name@) == Some(v@),
            None => query_value(args@, name@) is None,
        },
{
    let mut from: usize = 0;
    assert(args@.subrange(0, args@.len() as int) =~= args@);
    loop
        invariant
            from <= args.len(),
            query_value(args@, name@) == query_value(
                args@.subrange(from as int, args@.len() as int),
                name@,
            ),
        decreases args.len() - from,
    {
        let rest: &[u8] = &args[from..args.len()];
        let i: usize = bytes::find_from(rest, 38, 0);
        let part: &[u8] = &rest[0..i];
        let e: usize = bytes::find_from(part, 61, 0);
        if e < part.len() && bytes::same(&part[0..e], name) {
            return Some(&part[e + 1..part.len()]);
        }
        if i >= rest.len() {
            return None;
        }
        assert(rest@.subrange(i + 1, rest@.len() as int) =~= args@.subrange(
            from + i + 1,
            args@.len() as int,
        ));
        from = from + i + 1;
    }
}

// ---------------------------------------------------------------- base64

/// The six bits a letter of the alphabet stands for.
pub open spec fn sextet(c: u8) -> Option<int> {
    if 65 <= c <= 90 {
        Some(c - 65)
    } else if 97 <= c <= 122 {
        Some(c - 71)
    } else if 48 <= c <= 57 {
        Some(c + 4)
    } else if c == 43 {
        Some(62)
    } else if c == 47 {
        Some(63)
    } else {
        None
    }
}

/// The bytes that groups of six bits make; bits that fill no byte are dropped.
pub open spec fn packed(v: Seq<int>) -> Seq<u8>
    decreases v.len(),
{
    if v.len() < 2 {
        Seq::empty()
    } else if v.len() == 2 {
        seq![(v[0] * 4 + v[1] / 16) as u8]
    } else if v.len() == 3 {
        seq![(v[0] * 4 + v[1] / 16) as u8, (v[1] % 16 * 16 + v[2] / 4) as u8]
    } else {
        seq![
            (v[0] * 4 + v[1] / 16) as u8,
            (v[1] % 16 * 16 + v[2] / 4) as u8,
            (v[2] % 4 * 64 + v[3]) as u8,
        ] + packed(v.subrange(4, v.len() as int))
    }
}

/// The part in front of the padding.
pub open spec fn unpadded(s: Seq<u8>) -> Seq<u8> {
    s.subrange(0, bytes::find(s, 61, 0))
}

/// What base64 text decodes to. Padding ends it.
pub open spec fn base64(s: Seq<u8>) -> Option<Seq<u8>> {
    let letters = unpadded(s);
    if exists|i: int| 0 <= i < letters.len() && sextet(#[trigger] letters[i]) is None {
        None
    } else {
        Some(packed(letters.map_values(|c: u8| sextet(c)->0)))
    }
}

fn sextet_of(c: u8) -> (r: Option<u8>)
    ensures
        match r {
            Some(v) => sextet(c) == Some(v as int) && v < 64,
            None => sextet(c) is None,
        },
{
    if c >= 65 && c <= 90 {
        Some(c - 65)
    } else if c >= 97 && c <= 122 {
        Some(c - 71)
    } else if c >= 48 && c <= 57 {
        Some(c + 4)
    } else if c == 43 {
        Some(62)
    } else if c == 47 {
        Some(63)
    } else {
        None
    }
}

/// Decodes base64 text.
pub fn base64_decode(s: &[u8]) -> (r: Option<Vec<u8>>)
    ensures
        match r {
            Some(v) => base64(s@) == Some(v@),
            None => base64(s@) is None,
        },
{
    let end: usize = bytes::find_from(s, 61, 0);
    let letters: &[u8] = &s[0..end];
    let ghost all = letters@.map_values(|c: u8| sextet(c)->0);
    let mut v: Vec<u8> = Vec::new();
    for i in 0..letters.len()
        invariant
            letters@ == unpadded(s@),
            v@.len() == i,
            forall|k: int| 0 <= k < i ==> sextet(#[trigger] letters@[k]) == Some(v@[k] as int),
            forall|k: int| 0 <= k < i ==> (#[trigger] v@[k]) < 64,
    {
        match sextet_of(letters[i]) {
            Some(x) => {
                v.push(x);
            },
            None => {
                assert(sextet(letters@[i as int]) is None);
                return None;
            },
        }
    }
    let ghost bits = v@.map_values(|x: u8| x as int);
    assert(bits =~= all);
    let mut out: Vec<u8> = Vec::new();
    let mut i: usize = 0;
    assert(bits.subrange(0, bits.len() as int) =~= bits);
    while v.len() - i >= 4
        invariant
            i <= v.len(),
            bits == v@.map_values(|x: u8| x as int),
            forall|k: int| 0 <= k < v@.len() ==> (#[trigger] v@[k]) < 64,
            packed(bits) == out@ + packed(bits.subrange(i as int, bits.len() as int)),
        decreases v.len() - i,
    {
        let ghost rest = bits.subrange(i as int, bits.len() as int);
        let (a, b, c, d): (u8, u8, u8, u8) = (v[i], v[i + 1], v[i + 2], v[i + 3]);
        assert(rest[0] == a && rest[1] == b && rest[2] == c && rest[3] == d);
        let ghost before = out@;
        let x: u8 = a * 4 + b / 16;
        let y: u8 = b % 16 * 16 + c / 4;
        let z: u8 = c % 4 * 64 + d;
        out.push(x);
        out.push(y);
        out.push(z);
        proof {
            assert(rest.subrange(4, rest.len() as int) =~= bits.subrange(
                i + 4,
                bits.len() as int,
            ));
            assert(out@ =~= before + seq![x, y, z]);
            assert(out@ + packed(bits.subrange(i + 4, bits.len() as int)) =~= before + packed(rest));
        }
        i = i + 4;
    }
    let ghost rest = bits.subrange(i as int, bits.len() as int);
    if v.len() - i >= 2 {
        assert(rest[0] == v@[i as int] && rest[1] == v@[i + 1]);
        out.push(v[i] * 4 + v[i + 1] / 16);
    }
    if v.len() - i == 3 {
        assert(rest[2] == v@[i + 2]);
        out.push(v[i + 1] % 16 * 16 + v[i + 2] / 4);
    }
    assert(out@ =~= packed(bits));
    assert forall|k: int| 0 <= k < letters@.len() implies sextet(#[trigger] letters@[k]) is Some by {}
    Some(out)
}

/// The user of a Basic `Authorization` header: what stands before the first colon
/// of the decoded text. There is none if it does not decode.
pub open spec fn basic_user(header: Seq<u8>) -> Seq<u8> {
    let scheme = bytes::utf8("Basic "@);
    if !bytes::starts(header, scheme) {
        Seq::empty()
    } else {
        match base64(bytes::trimmed(header.subrange(scheme.len() as int, header.len() as int))) {
            None => Seq::empty(),
            Some(d) => {
                let i = bytes::find(d, 58, 0);
                if i < d.len() {
                    bytes::utf8(text::lossy(d.subrange(0, i)))
                } else {
                    Seq::empty()
                }
            },
        }
    }
}

fn push_basic_user(out: &mut Vec<u8>, header: &[u8])
    ensures
        final(out)@ == old(out)@ + basic_user(header@),
{
    let scheme: &[u8] = "Basic ".as_bytes();
    if bytes::starts_with(header, scheme) {
        let rest: &[u8] = bytes::trim(&header[scheme.len()..header.len()]);
        if let Some(d) = base64_decode(rest) {
            let i: usize = bytes::find_from(d.as_slice(), 58, 0);
            if i < d.len() {
                let user: String = text::decode_lossy(&d.as_slice()[0..i]);
                out.extend_from_slice(user.as_str().as_bytes());
                return;
            }
        }
    }
    assert(out@ =~= old(out)@ + basic_user(header@));
}

// ---------------------------------------------------------------- maps

/// The place of the entry for a key, from the `i`th on, or the length.
pub open spec fn exact_place(es: Seq<ExactEntry>, k: Seq<u8>, i: int) -> int
    decreases es.len() - i,
{
    if i < 0 || i >= es.len() {
        es.len() as int
    } else if es[i].key@ == k {
        i
    } else {
        exact_place(es, k, i + 1)
    }
}

/// Whether a wildcard covers a host name: a dot stands between the two parts.
pub open spec fn wild_hit(w: WildcardEntry, k: Seq<u8>) -> bool {
    let p = w.pattern@;
    k.len() > p.len() && if w.leading {
        k[k.len() - p.len() - 1] == 46 && bytes::ends(k, p)
    } else {
        k[p.len() as int] == 46 && bytes::starts(k, p)
    }
}

/// The place of the longest wildcard among the first `n` that covers a host name,
/// the first of several equally long, or -1.
pub open spec fn best_wild(ws: Seq<WildcardEntry>, k: Seq<u8>, n: int) -> int
    decreases n,
{
    if n <= 0 {
        -1
    } else {
        let b = best_wild(ws, k, n - 1);
        if wild_hit(ws[n - 1], k) && (b < 0 || ws[n - 1].pattern@.len() > ws[b].pattern@.len()) {
            n - 1
        } else {
            b
        }
    }
}

/// The place of the first pattern that matches a key, from the `i`th on, or the
/// length.
pub open spec fn regex_place(rs: Seq<RegexEntry>, k: Seq<u8>, i: int) -> int
    decreases rs.len() - i,
{
    if i < 0 || i >= rs.len() {
        rs.len() as int
    } else if pattern::found(rs[i].pattern@, k) {
        i
    } else {
        regex_place(rs, k, i + 1)
    }
}

/// What the exact keys and the wildcards of a `map` give for a key in lower case:
/// an exact entry, then the longest wildcard.
pub open spec fn literal(m: MapConf, k: Seq<u8>) -> Option<Template> {
    let e = exact_place(m.exact@, k, 0);
    let w = best_wild(m.wildcards@, k, m.wildcards@.len() as int);
    if 0 <= e < m.exact@.len() {
        Some(m.exact@[e].value)
    } else if 0 <= w < m.wildcards@.len() {
        Some(m.wildcards@[w].value)
    } else {
        None
    }
}

/// What a `map` gives for a key: an exact entry, then the longest wildcard, then
/// the first pattern that matches, then the default. Exact keys and wildcards do
/// not tell upper case from lower case; patterns see the key as it is.
pub open spec fn looked_up(m: MapConf, key: Seq<u8>) -> Option<Template> {
    let x = regex_place(m.regexes@, key, 0);
    match literal(m, bytes::lowered(key)) {
        Some(t) => Some(t),
        None => if 0 <= x < m.regexes@.len() {
            Some(m.regexes@[x].value)
        } else {
            m.fallback
        },
    }
}

/// Looks a key up among the exact keys and the wildcards of a `map`.
pub fn map_literal<'m>(m: &'m MapConf, key: &[u8]) -> (r: Option<&'m Template>)
    ensures
        match r {
            Some(t) => literal(*m, bytes::lowered(key@)) == Some(*t),
            None => literal(*m, bytes::lowered(key@)) is None,
        },
{
    let lowered: Vec<u8> = bytes::to_lowered(key);
    let k: &[u8] = lowered.as_slice();
    for i in 0..m.exact.len()
        invariant
            k@ == bytes::lowered(key@),
            exact_place(m.exact@, k@, 0) == exact_place(m.exact@, k@, i as int),
    {
        if bytes::same(m.exact[i].key.as_slice(), k) {
            return Some(&m.exact[i].value);
        }
    }
    let mut best: Option<usize> = None;
    for i in 0..m.wildcards.len()
        invariant
            k@ == bytes::lowered(key@),
            match best {
                Some(b) => b < i && best_wild(m.wildcards@, k@, i as int) == b,
                None => best_wild(m.wildcards@, k@, i as int) == -1,
            },
    {
        let w: &WildcardEntry = &m.wildcards[i];
        let p: &[u8] = w.pattern.as_slice();
        let hit: bool = if k.len() <= p.len() {
            false
        } else if w.leading {
            k[k.len() - p.len() - 1] == 46 && bytes::ends_with(k, p)
        } else {
            k[p.len()] == 46 && bytes::starts_with(k, p)
        };
        assert(hit == wild_hit(*w, k@));
        let longer: bool = match best {
            Some(b) => p.len() > m.wildcards[b].pattern.len(),
            None => true,
        };
        if hit && longer {
            best = Some(i);
        }
    }
    if let Some(b) = best {
        return Some(&m.wildcards[b].value);
    }
    None
}

/// Looks a key up in a `map`.
pub fn map_lookup<'m>(m: &'m MapConf, key: &[u8]) -> (r: Option<&'m Template>)
    ensures
        match r {
            Some(t) => looked_up(*m, key@) == Some(*t),
            None => looked_up(*m, key@) is None,
        },
{
    if let Some(t) = map_literal(m, key) {
        return Some(t);
    }
    for i in 0..m.regexes.len()
        invariant
            regex_place(m.regexes@, key@, 0) == regex_place(m.regexes@, key@, i as int),
            literal(*m, bytes::lowered(key@)) is None,
    {
        if pattern::matches(m.regexes[i].pattern.as_str(), key) {
            return Some(&m.regexes[i].value);
        }
    }
    match &m.fallback {
        Some(t) => Some(t),
        None => None,
    }
}

// ---------------------------------------------------------------- variables

/// The deepest a map may look up another map. A cycle ends there.
pub const MAX_MAP_DEPTH: u32 = 8;

/// The deepest `$document_root` may be asked for; only a root that names itself
/// goes deeper.
pub const MAX_ROOT_DEPTH: u32 = 9;

/// The place of a variable assigned by `set`, from the `i`th on, or the length.
pub open spec fn set_place(vars: Seq<http::Field>, name: Seq<u8>, i: int) -> int
    decreases vars.len() - i,
{
    if i < 0 || i >= vars.len() {
        vars.len() as int
    } else if vars[i].0 == name {
        i
    } else {
        set_place(vars, name, i + 1)
    }
}

/// The place of the `map` that defines a variable, from the `i`th on, or the length.
pub open spec fn map_place(maps: Seq<MapConf>, name: Seq<u8>, i: int) -> int
    decreases maps.len() - i,
{
    if i < 0 || i >= maps.len() {
        maps.len() as int
    } else if maps[i].target@ == name {
        i
    } else {
        map_place(maps, name, i + 1)
    }
}

/// The configuration that applies: that of the matched location if there is one,
/// else that of the server.
pub open spec fn core_of(c: CtxView) -> CoreConf {
    match c.matched {
        Some(i) => if i < c.env.server.locations@.len() {
            c.env.server.locations@[i as int].core
        } else {
            c.env.server.core
        },
        None => c.env.server.core,
    }
}

/// The template of the root that applies: an `alias` before a `root`.
pub open spec fn root_template(c: CtxView) -> Template {
    match core_of(c).alias {
        Some(t) => t,
        None => core_of(c).root,
    }
}

/// A value that may be missing.
pub open spec fn or_empty(v: Option<Seq<u8>>) -> Seq<u8> {
    match v {
        Some(s) => s,
        None => Seq::empty(),
    }
}

/// A header of the request.
pub open spec fn header_of(c: CtxView, name: Seq<char>) -> Option<Seq<u8>> {
    http::value_of(http::fields(c.env.req.headers@), bytes::utf8(name))
}

/// The protocol of the request.
pub open spec fn protocol(c: CtxView) -> Seq<u8> {
    if c.env.req.minor == 0 {
        bytes::utf8("HTTP/1.0"@)
    } else {
        bytes::utf8("HTTP/1.1"@)
    }
}

/// What stands behind the last colon, or everything.
pub open spec fn after_last_colon(s: Seq<u8>) -> Seq<u8> {
    s.subrange(bytes::find_last(s, 58) + 1, s.len() as int)
}

/// The value of a variable. Variables of the response have none here.
pub open spec fn value(c: CtxView, v: Var, depth: int) -> Seq<u8>
    decreases 11 - depth, 1int,
{
    let r = c.env.req;
    match v {
        Var::Uri | Var::DocumentUri => c.uri,
        Var::RequestUri => r.target@,
        Var::Args => c.args,
        Var::IsArgs => if c.args.len() > 0 {
            seq![63u8]
        } else {
            Seq::empty()
        },
        Var::Arg(name) => or_empty(query_value(c.args, name@)),
        Var::Host => if r.host@.len() == 0 {
            name_from(c.env.server.names@, 0)
        } else {
            bytes::lowered(r.host@)
        },
        Var::Hostname => c.clock.hostname@,
        Var::Scheme => c.env.scheme@,
        Var::RequestMethod => r.method@,
        Var::Request => r.method@ + seq![32u8] + r.target@ + seq![32u8] + protocol(c),
        Var::ServerProtocol => protocol(c),
        Var::ServerName => name_from(c.env.server.names@, 0),
        Var::ServerPort => bytes::decimal(port_of(c.env.local) as nat),
        Var::ServerAddr => addr_text(c.env.local),
        Var::RemoteAddr | Var::BinaryRemoteAddr => addr_text(c.env.remote),
        Var::RemotePort => bytes::decimal(port_of(c.env.remote) as nat),
        Var::RemoteUser => match header_of(c, "authorization"@) {
            Some(h) => basic_user(h),
            None => Seq::empty(),
        },
        Var::RequestLength => bytes::decimal(r.head_len as nat),
        Var::RequestTime => seconds(c.clock.elapsed_us as int),
        Var::Msec => seconds(c.clock.now_us as int),
        Var::TimeLocal => c.clock.time_local@,
        Var::TimeIso8601 => c.clock.time_iso8601@,
        Var::DocumentRoot => if c.document_root.len() > 0 {
            c.document_root
        } else if depth > MAX_ROOT_DEPTH {
            Seq::empty()
        } else {
            let t = root_template(c);
            rendered(c, t.parts@, t.parts@.len() as int, depth + 1)
        },
        Var::RequestFilename => c.filename,
        Var::ContentType => or_empty(header_of(c, "content-type"@)),
        Var::ContentLength => or_empty(header_of(c, "content-length"@)),
        Var::Connection => bytes::decimal(c.env.conn_id as nat),
        Var::ConnectionRequests => bytes::decimal(c.env.conn_requests as nat),
        Var::Pid => bytes::decimal(c.clock.pid as nat),
        Var::NginxVersion => c.clock.version@,
        Var::Http(name) => or_empty(http::value_of(http::fields(r.headers@), name@)),
        Var::Cookie(name) => match header_of(c, "cookie"@) {
            Some(h) => or_empty(cookie(h, name@)),
            None => Seq::empty(),
        },
        Var::Capture(i) => if 1 <= i <= c.captures.len() {
            c.captures[i - 1]
        } else {
            Seq::empty()
        },
        Var::FastcgiScriptName => c.fastcgi_script_name,
        Var::FastcgiPathInfo => c.fastcgi_path_info,
        Var::Https => if c.env.scheme@ == bytes::utf8("https"@) {
            bytes::utf8("on"@)
        } else {
            Seq::empty()
        },
        Var::ProxyHost => c.upstream_addr,
        Var::ProxyPort => after_last_colon(c.upstream_addr),
        Var::ProxyAddXForwardedFor => match header_of(c, "x-forwarded-for"@) {
            Some(h) => h + bytes::utf8(", "@) + addr_text(c.env.remote),
            None => addr_text(c.env.remote),
        },
        Var::UpstreamAddr => c.upstream_addr,
        Var::UpstreamStatus => if c.upstream_status > 0 {
            bytes::decimal(c.upstream_status as nat)
        } else {
            Seq::empty()
        },
        Var::UpstreamResponseTime | Var::UpstreamConnectTime => if c.upstream_status > 0 {
            seconds(c.upstream_us as int)
        } else {
            Seq::empty()
        },
        Var::UpstreamCacheStatus => c.cache_status,
        Var::UpstreamHttp(name) => or_empty(http::value_of(c.upstream_headers, name@)),
        Var::User(name) => value_of_user(c, name@, depth),
        Var::SslPrereadServerName | Var::SslPrereadProtocol | Var::SslPrereadAlpnProtocols =>
            Seq::empty(),
        Var::Status | Var::BodyBytesSent | Var::BytesSent | Var::SentHttp(_) => Seq::empty(),
    }
}

/// The first `n` parts of a template with the values of their variables.
pub open spec fn rendered(c: CtxView, parts: Seq<Part>, n: int, depth: int) -> Seq<u8>
    decreases 11 - depth, n + 1,
{
    if n <= 0 {
        Seq::empty()
    } else {
        rendered(c, parts, n - 1, depth) + match parts[n - 1] {
            Part::Literal(s) => s@,
            Part::Variable(v) => value(c, v, depth),
        }
    }
}

/// What a template stands for.
pub open spec fn shown(c: CtxView, t: Template) -> Seq<u8> {
    rendered(c, t.parts@, t.parts@.len() as int, 0)
}

fn push_header(out: &mut Vec<u8>, hs: &Vec<Header>, name: &[u8])
    ensures
        final(out)@ == old(out)@ + or_empty(http::value_of(http::fields(hs@), name@)),
{
    if let Some(v) = http::header_value(hs, name) {
        out.extend_from_slice(v);
    }
    assert(out@ =~= old(out)@ + or_empty(http::value_of(http::fields(hs@), name@)));
}

impl<'a> Ctx<'a> {
    /// The state a request starts in.
    pub fn new(env: &'a Env, clock: Clock, uri: Vec<u8>, args: Vec<u8>) -> (r: Ctx<'a>)
        ensures
            r@ == (CtxView {
                env: *env,
                clock,
                uri: uri@,
                args: args@,
                captures: Seq::empty(),
                set_vars: Seq::empty(),
                document_root: Seq::empty(),
                filename: Seq::empty(),
                fastcgi_script_name: Seq::empty(),
                fastcgi_path_info: Seq::empty(),
                upstream_addr: Seq::empty(),
                upstream_status: 0,
                upstream_us: 0,
                upstream_headers: Seq::empty(),
                cache_status: Seq::empty(),
                redirects: 0,
                matched: None,
                auth_depth: 0,
            }),
    {
        let r = Ctx {
            env,
            clock,
            uri,
            args,
            captures: Vec::new(),
            set_vars: Vec::new(),
            document_root: Vec::new(),
            filename: Vec::new(),
            fastcgi_script_name: Vec::new(),
            fastcgi_path_info: Vec::new(),
            upstream_addr: Vec::new(),
            upstream_status: 0,
            upstream_us: 0,
            upstream_headers: Vec::new(),
            cache_status: Vec::new(),
            redirects: 0,
            matched: None,
            auth_depth: 0,
        };
        assert(r@.captures =~= Seq::empty());
        assert(r@.set_vars =~= Seq::empty());
        assert(r@.upstream_headers =~= Seq::empty());
        r
    }

    /// Assigns a variable, in place of the value it had.
    pub fn set(&mut self, name: &[u8], value: Vec<u8>)
        ensures
            final(self)@ == (CtxView {
                set_vars: assigned(old(self)@.set_vars, name@, value@),
                ..old(self)@
            }),
    {
        let ghost before = self@.set_vars;
        match self.find_set(name) {
            Some(i) => {
                assert(before[i as int] == http::field(self.set_vars@[i as int]));
                self.set_vars.set(i, Header { name: bytes::copy(name), value });
                assert(self@.set_vars =~= assigned(before, name@, value@));
            },
            None => {
                self.set_vars.push(Header { name: bytes::copy(name), value });
                assert(self@.set_vars =~= assigned(before, name@, value@));
            },
        }
        assert(self@ =~= (CtxView { set_vars: assigned(before, name@, value@), ..old(self)@ }));
    }

    fn find_set(&self, name: &[u8]) -> (r: Option<usize>)
        ensures
            match r {
                Some(i) => i < self.set_vars@.len() && set_place(self@.set_vars, name@, 0) == i,
                None => set_place(self@.set_vars, name@, 0) == self@.set_vars.len(),
            },
    {
        for i in 0..self.set_vars.len()
            invariant
                set_place(self@.set_vars, name@, 0) == set_place(self@.set_vars, name@, i as int),
        {
            assert(self@.set_vars[i as int] == http::field(self.set_vars@[i as int]));
            if bytes::same(self.set_vars[i].name.as_slice(), name) {
                return Some(i);
            }
        }
        None
    }

    fn find_map(&self, name: &[u8]) -> (r: Option<usize>)
        ensures
            match r {
                Some(i) => i < self.env.maps@.len() && map_place(self.env.maps@, name@, 0) == i,
                None => map_place(self.env.maps@, name@, 0) == self.env.maps@.len(),
            },
    {
        for i in 0..self.env.maps.len()
            invariant
                map_place(self.env.maps@, name@, 0) == map_place(self.env.maps@, name@, i as int),
        {
            if bytes::same(self.env.maps[i].target.as_slice(), name) {
                return Some(i);
            }
        }
        None
    }

    /// The configuration that applies.
    pub fn matched_core(&self) -> (r: &'a CoreConf)
        ensures
            *r == core_of(self@),
    {
        match self.matched {
            Some(i) => if i < self.env.server.locations.len() {
                &self.env.server.locations[i].core
            } else {
                &self.env.server.core
            },
            None => &self.env.server.core,
        }
    }

    /// The root that applies.
    pub fn root_of(&self) -> (r: &'a Template)
        ensures
            *r == root_template(self@),
    {
        let core = self.matched_core();
        match &core.alias {
            Some(t) => t,
            None => &core.root,
        }
    }

    /// Keeps what the groups of a match captured.
    pub fn set_captures(&mut self, groups: Vec<Vec<u8>>)
        ensures
            final(self)@ == (CtxView { captures: pattern::views(groups@), ..old(self)@ }),
    {
        self.captures = groups;
    }

    fn user_var(&self, name: &[u8], out: &mut Vec<u8>, depth: u32)
        requires
            depth <= 11,
        ensures
            final(out)@ == old(out)@ + value_of_user(self@, name@, depth as int),
        decreases 11 - depth, 0int,
    {
        if depth > MAX_MAP_DEPTH {
            assert(out@ =~= old(out)@ + value_of_user(self@, name@, depth as int));
            return;
        }
        match self.find_set(name) {
            Some(i) => {
                assert(self@.set_vars[i as int] == http::field(self.set_vars@[i as int]));
                out.extend_from_slice(self.set_vars[i].value.as_slice());
            },
            None => {
                if let Some(i) = self.find_map(name) {
                    let m: &MapConf = &self.env.maps[i];
                    let mut key: Vec<u8> = Vec::new();
                    self.var_depth(&m.source, &mut key, depth + 1);
                    assert(key@ =~= value(self@, m.source, depth + 1));
                    if let Some(t) = map_lookup(m, key.as_slice()) {
                        self.render_parts(&t.parts, out, depth + 1);
                    }
                }
            },
        }
        assert(out@ =~= old(out)@ + value_of_user(self@, name@, depth as int));
    }

    fn var_depth(&self, v: &Var, out: &mut Vec<u8>, depth: u32)
        requires
            depth <= 11,
        ensures
            final(out)@ == old(out)@ + value(self@, *v, depth as int),
        decreases 11 - depth, 1int,
    {
        let r = &self.env.req;
        match v {
            Var::Uri | Var::DocumentUri => {
                out.extend_from_slice(self.uri.as_slice());
            },
            Var::RequestUri => {
                out.extend_from_slice(r.target.as_slice());
            },
            Var::Args => {
                out.extend_from_slice(self.args.as_slice());
            },
            Var::IsArgs => {
                if self.args.len() > 0 {
                    out.push(63);
                }
            },
            Var::Arg(name) => {
                if let Some(x) = query_param(self.args.as_slice(), name.as_slice()) {
                    out.extend_from_slice(x);
                }
            },
            Var::Host => {
                if r.host.len() == 0 {
                    let name: Vec<u8> = first_server_name(&self.env.server);
                    out.extend_from_slice(name.as_slice());
                } else {
                    let low: Vec<u8> = bytes::to_lowered(r.host.as_slice());
                    out.extend_from_slice(low.as_slice());
                }
            },
            Var::Hostname => {
                out.extend_from_slice(self.clock.hostname.as_slice());
            },
            Var::Scheme => {
                out.extend_from_slice(self.env.scheme.as_slice());
            },
            Var::RequestMethod => {
                out.extend_from_slice(r.method.as_slice());
            },
            Var::Request => {
                out.extend_from_slice(r.method.as_slice());
                out.push(32);
                out.extend_from_slice(r.target.as_slice());
                out.push(32);
                self.push_protocol(out);
            },
            Var::ServerProtocol => {
                self.push_protocol(out);
            },
            Var::ServerName => {
                let name: Vec<u8> = first_server_name(&self.env.server);
                out.extend_from_slice(name.as_slice());
            },
            Var::ServerPort => {
                bytes::push_decimal(out, port(&self.env.local) as u64);
            },
            Var::ServerAddr => {
                push_addr(out, &self.env.local);
            },
            Var::RemoteAddr | Var::BinaryRemoteAddr => {
                push_addr(out, &self.env.remote);
            },
            Var::RemotePort => {
                bytes::push_decimal(out, port(&self.env.remote) as u64);
            },
            Var::RemoteUser => {
                if let Some(h) = http::header_value(&r.headers, "authorization".as_bytes()) {
                    push_basic_user(out, h);
                }
            },
            Var::RequestLength => {
                bytes::push_decimal(out, r.head_len);
            },
            Var::RequestTime => {
                push_secs(out, self.clock.elapsed_us);
            },
            Var::Msec => {
                push_secs(out, self.clock.now_us);
            },
            Var::TimeLocal => {
                out.extend_from_slice(self.clock.time_local.as_slice());
            },
            Var::TimeIso8601 => {
                out.extend_from_slice(self.clock.time_iso8601.as_slice());
            },
            Var::DocumentRoot => {
                if self.document_root.len() > 0 {
                    out.extend_from_slice(self.document_root.as_slice());
                } else if depth <= MAX_ROOT_DEPTH {
                    let t: &Template = self.root_of();
                    self.render_parts(&t.parts, out, depth + 1);
                }
            },
            Var::RequestFilename => {
                out.extend_from_slice(self.filename.as_slice());
            },
            Var::ContentType => {
                push_header(out, &r.headers, "content-type".as_bytes());
            },
            Var::ContentLength => {
                push_header(out, &r.headers, "content-length".as_bytes());
            },
            Var::Connection => {
                bytes::push_decimal(out, self.env.conn_id);
            },
            Var::ConnectionRequests => {
                bytes::push_decimal(out, self.env.conn_requests);
            },
            Var::Pid => {
                bytes::push_decimal(out, self.clock.pid);
            },
            Var::NginxVersion => {
                out.extend_from_slice(self.clock.version.as_slice());
            },
            Var::Http(name) => {
                push_header(out, &r.headers, name.as_slice());
            },
            Var::Cookie(name) => {
                if let Some(h) = http::header_value(&r.headers, "cookie".as_bytes()) {
                    if let Some(x) = cookie_value(h, name.as_slice()) {
                        out.extend_from_slice(x);
                    }
                }
            },
            Var::Capture(i) => {
                let n: usize = *i as usize;
                if n >= 1 && n <= self.captures.len() {
                    assert(self@.captures[n - 1] == self.captures@[n - 1]@);
                    out.extend_from_slice(self.captures[n - 1].as_slice());
                }
            },
            Var::FastcgiScriptName => {
                out.extend_from_slice(self.fastcgi_script_name.as_slice());
            },
            Var::FastcgiPathInfo => {
                out.extend_from_slice(self.fastcgi_path_info.as_slice());
            },
            Var::Https => {
                if bytes::is_text(self.env.scheme.as_slice(), "https") {
                    out.extend_from_slice("on".as_bytes());
                }
            },
            Var::ProxyHost | Var::UpstreamAddr => {
                out.extend_from_slice(self.upstream_addr.as_slice());
            },
            Var::ProxyPort => {
                let a: &[u8] = self.upstream_addr.as_slice();
                let n: usize = a.len();
                let from: usize = match bytes::rfind(a, 58) {
                    Some(i) => i + 1,
                    None => 0,
                };
                out.extend_from_slice(&a[from..n]);
            },
            Var::ProxyAddXForwardedFor => {
                // Append, never replace: dropping the inbound chain would hide
                // every proxy between the client and us.
                if let Some(h) = http::header_value(&r.headers, "x-forwarded-for".as_bytes()) {
                    out.extend_from_slice(h);
                    out.extend_from_slice(", ".as_bytes());
                }
                push_addr(out, &self.env.remote);
            },
            Var::UpstreamStatus => {
                if self.upstream_status > 0 {
                    bytes::push_decimal(out, self.upstream_status as u64);
                }
            },
            Var::UpstreamResponseTime | Var::UpstreamConnectTime => {
                if self.upstream_status > 0 {
                    push_secs(out, self.upstream_us);
                }
            },
            Var::UpstreamCacheStatus => {
                out.extend_from_slice(self.cache_status.as_slice());
            },
            Var::UpstreamHttp(name) => {
                push_header(out, &self.upstream_headers, name.as_slice());
            },
            Var::User(name) => {
                self.user_var(name.as_slice(), out, depth);
            },
            Var::SslPrereadServerName | Var::SslPrereadProtocol | Var::SslPrereadAlpnProtocols => {
            },
            // Resolved only once a response exists.
            Var::Status | Var::BodyBytesSent | Var::BytesSent | Var::SentHttp(_) => {},
        }
        assert(out@ =~= old(out)@ + value(self@, *v, depth as int));
    }

    fn push_protocol(&self, out: &mut Vec<u8>)
        ensures
            final(out)@ == old(out)@ + protocol(self@),
    {
        if self.env.req.minor == 0 {
            out.extend_from_slice("HTTP/1.0".as_bytes());
        } else {
            out.extend_from_slice("HTTP/1.1".as_bytes());
        }
    }

    fn render_parts(&self, parts: &Vec<Part>, out: &mut Vec<u8>, depth: u32)
        requires
            depth <= 11,
        ensures
            final(out)@ == old(out)@ + rendered(
                self@,
                parts@,
                parts@.len() as int,
                depth as int,
            ),
        decreases 11 - depth, 2int,
    {
        let ghost before = out@;
        for i in 0..parts.len()
            invariant
                depth <= 11,
                out@ == before + rendered(self@, parts@, i as int, depth as int),
        {
            match &parts[i] {
                Part::Literal(s) => {
                    out.extend_from_slice(s.as_slice());
                },
                Part::Variable(v) => {
                    self.var_depth(v, out, depth);
                },
            }
            assert(out@ =~= before + rendered(self@, parts@, i + 1, depth as int));
        }
    }

    /// Appends the value of a variable.
    pub fn var(&self, v: &Var, out: &mut Vec<u8>)
        ensures
            final(out)@ == old(out)@ + value(self@, *v, 0),
    {
        self.var_depth(v, out, 0);
    }

    /// Appends what a template stands for.
    pub fn render_into(&self, t: &Template, out: &mut Vec<u8>)
        ensures
            final(out)@ == old(out)@ + shown(self@, *t),
    {
        self.render_parts(&t.parts, out, 0);
    }

    /// Renders a template.
    pub fn render(&self, t: &Template) -> (r: Vec<u8>)
        ensures
            r@ == shown(self@, *t),
    {
        let mut out: Vec<u8> = Vec::new();
        self.render_into(t, &mut out);
        assert(out@ =~= shown(self@, *t));
        out
    }
}

/// The value of a variable defined by `set` or by a `map`.
pub open spec fn value_of_user(c: CtxView, name: Seq<u8>, depth: int) -> Seq<u8>
    decreases 11 - depth, 0int,
{
    let i = set_place(c.set_vars, name, 0);
    let m = map_place(c.env.maps@, name, 0);
    if depth > MAX_MAP_DEPTH {
        Seq::empty()
    } else if 0 <= i < c.set_vars.len() {
        c.set_vars[i].1
    } else if 0 <= m < c.env.maps@.len() {
        match looked_up(c.env.maps@[m], value(c, c.env.maps@[m].source, depth + 1)) {
            Some(t) => rendered(c, t.parts@, t.parts@.len() as int, depth + 1),
            None => Seq::empty(),
        }
    } else {
        Seq::empty()
    }
}

/// Variables with one assigned: in its place if it was there, else behind the
/// others.
pub open spec fn assigned(vars: Seq<http::Field>, name: Seq<u8>, v: Seq<u8>) -> Seq<http::Field> {
    let i = set_place(vars, name, 0);
    if 0 <= i < vars.len() {
        vars.update(i, (name, v))
    } else {
        vars.push((name, v))
    }
}

proof fn lemma_set_place(vars: Seq<http::Field>, name: Seq<u8>, i: int)
    requires
        0 <= i,
    ensures
        i <= set_place(vars, name, i) <= vars.len() || i > vars.len(),
        set_place(vars, name, i) < vars.len() ==> vars[set_place(vars, name, i)].0 == name,
        forall|k: int|
            i <= k < set_place(vars, name, i) && k < vars.len() ==> (#[trigger] vars[k]).0 != name,
    decreases vars.len() - i,
{
    if i < vars.len() && vars[i].0 != name {
        lemma_set_place(vars, name, i + 1);
    }
}

proof fn lemma_set_place_is(vars: Seq<http::Field>, name: Seq<u8>, i: int, at: int)
    requires
        0 <= i <= at < vars.len(),
        vars[at].0 == name,
        forall|k: int| i <= k < at ==> (#[trigger] vars[k]).0 != name,
    ensures
        set_place(vars, name, i) == at,
    decreases at - i,
{
    if i < at {
        lemma_set_place_is(vars, name, i + 1, at);
    }
}

/// A variable that was set has the value it was set to last.
pub proof fn law_a_set_variable_reads_back(c: CtxView, name: Vec<u8>, v: Seq<u8>)
    ensures
        value(
            CtxView { set_vars: assigned(c.set_vars, name@, v), ..c },
            Var::User(name),
            0,
        ) == v,
{
    let vars = c.set_vars;
    let after = assigned(vars, name@, v);
    lemma_set_place(vars, name@, 0);
    let i = set_place(vars, name@, 0);
    lemma_set_place_is(after, name@, 0, i);
}

/// Setting one variable leaves the value of another as it was, unless a `map`
/// looks at the one that was set: a variable set before keeps its value.
pub proof fn law_other_set_variables_stay(
    c: CtxView,
    name: Seq<u8>,
    v: Seq<u8>,
    other: Vec<u8>,
)
    requires
        other@ != name,
        set_place(c.set_vars, other@, 0) < c.set_vars.len(),
    ensures
        value(CtxView { set_vars: assigned(c.set_vars, name, v), ..c }, Var::User(other), 0)
            == value(c, Var::User(other), 0),
{
    let vars = c.set_vars;
    let after = assigned(vars, name, v);
    lemma_set_place(vars, other@, 0);
    lemma_set_place(vars, name, 0);
    lemma_set_place_is(after, other@, 0, set_place(vars, other@, 0));
}

// ---------------------------------------------------------------- the access log

/// What the access log can show: the request, and the response it got.
#[derive(Debug)]
pub struct LogVars<'a> {
    pub ctx: &'a Ctx<'a>,
    pub resp: &'a Resp,
    pub status: u16,
    pub body_bytes: u64,
    pub total_bytes: u64,
}

impl<'a> LogVars<'a> {
    /// The value of a variable in the access log.
    pub open spec fn value(&self, v: Var) -> Seq<u8> {
        match v {
            Var::Status => bytes::decimal(self.status as nat),
            Var::BodyBytesSent => bytes::decimal(self.body_bytes as nat),
            Var::BytesSent => bytes::decimal(self.total_bytes as nat),
            Var::SentHttp(name) => or_empty(
                http::value_of(http::fields(self.resp.headers@), name@),
            ),
            _ => value(self.ctx@, v, 0),
        }
    }

    /// The first `n` parts of a template in the access log.
    pub open spec fn rendered(&self, parts: Seq<Part>, n: int) -> Seq<u8>
        decreases n,
    {
        if n <= 0 {
            Seq::empty()
        } else {
            self.rendered(parts, n - 1) + match parts[n - 1] {
                Part::Literal(s) => s@,
                Part::Variable(v) => self.value(v),
            }
        }
    }

    /// Appends the value of a variable.
    pub fn var(&self, v: &Var, out: &mut Vec<u8>)
        ensures
            final(out)@ == old(out)@ + self.value(*v),
    {
        match v {
            Var::Status => {
                bytes::push_decimal(out, self.status as u64);
            },
            Var::BodyBytesSent => {
                bytes::push_decimal(out, self.body_bytes);
            },
            Var::BytesSent => {
                bytes::push_decimal(out, self.total_bytes);
            },
            Var::SentHttp(name) => {
                push_header(out, &self.resp.headers, name.as_slice());
            },
            _ => {
                self.ctx.var(v, out);
            },
        }
    }

    /// The values of the variables among the first `n` parts of a template.
    pub open spec fn valued(&self, parts: Seq<Part>, n: int) -> Seq<Seq<u8>>
        decreases n,
    {
        if n <= 0 {
            Seq::empty()
        } else {
            match parts[n - 1] {
                Part::Literal(s) => self.valued(parts, n - 1),
                Part::Variable(v) => self.valued(parts, n - 1).push(self.value(v)),
            }
        }
    }

    /// The values of the variables of a log format, in order. The text between them is
    /// dropped.
    pub fn values(&self, t: &Template) -> (r: Vec<Vec<u8>>)
        ensures
            pattern::views(r@) == self.valued(t.parts@, t.parts@.len() as int),
    {
        let mut out: Vec<Vec<u8>> = Vec::new();
        assert(pattern::views(out@) =~= Seq::empty());
        for i in 0..t.parts.len()
            invariant
                pattern::views(out@) == self.valued(t.parts@, i as int),
        {
            match &t.parts[i] {
                Part::Literal(s) => {},
                Part::Variable(v) => {
                    let ghost before = pattern::views(out@);
                    let mut x: Vec<u8> = Vec::new();
                    self.var(v, &mut x);
                    assert(x@ =~= self.value(*v));
                    out.push(x);
                    assert(pattern::views(out@) =~= before.push(self.value(*v)));
                },
            }
        }
        out
    }

    /// Renders a template of a log format.
    pub fn render(&self, t: &Template) -> (r: Vec<u8>)
        ensures
            r@ == self.rendered(t.parts@, t.parts@.len() as int),
    {
        let mut out: Vec<u8> = Vec::new();
        for i in 0..t.parts.len()
            invariant
                out@ == self.rendered(t.parts@, i as int),
        {
            match &t.parts[i] {
                Part::Literal(s) => {
                    out.extend_from_slice(s.as_slice());
                },
                Part::Variable(v) => {
                    self.var(v, &mut out);
                },
            }
            assert(out@ =~= self.rendered(t.parts@, i + 1));
        }
        out
    }
}

} // verus!
