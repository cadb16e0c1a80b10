//! `ssl_preread`: reading a TLS ClientHello without terminating TLS.
//!
//! The first handshake message says which host the client intends to talk to.
//! It is looked at, never consumed: every byte read is forwarded, so the
//! backend completes TLS against a handshake nobody touched.
//!
//! The bytes come from a peer nobody has authenticated. No length they hold is
//! used before it has been compared with what is actually there.

use vstd::prelude::*;

use crate::bytes;
use crate::text;

verus! {

/// Result of looking at the bytes read so far.
#[derive(Debug, PartialEq, Eq)]
pub enum Preread {
    /// A complete ClientHello was parsed.
    Hello(Hello),
    /// Might still become a ClientHello; read more and ask again.
    Incomplete,
    /// Definitely not one: either the leading byte rules out TLS, or the
    /// structure is malformed. Stop reading and proxy the connection blind.
    NotTls,
}

/// What a ClientHello tells.
#[derive(Debug, Default, PartialEq, Eq)]
pub struct Hello {
    /// SNI, or empty when the client sent none.
    pub server_name: String,
    /// ALPN protocol identifiers in the order offered.
    pub alpn: Vec<String>,
    /// The highest version the client offers: `TLSv1.3`, `TLSv1.2`, `TLSv1.1`,
    /// `TLSv1`, `SSLv3`. Empty if unrecognised.
    pub protocol: &'static str,
}

/// A `Hello` as plain values.
pub ghost struct HelloView {
    pub server_name: Seq<char>,
    pub alpn: Seq<Seq<char>>,
    pub protocol: Seq<char>,
}

/// A `Preread` as plain values.
pub ghost enum Seen {
    Hello(HelloView),
    Incomplete,
    NotTls,
}

impl View for Hello {
    type V = HelloView;

    open spec fn view(&self) -> HelloView {
        HelloView {
            server_name: self.server_name@,
            alpn: text::texts(self.alpn@),
            protocol: self.protocol@,
        }
    }
}

impl View for Preread {
    type V = Seen;

    open spec fn view(&self) -> Seen {
        match *self {
            Preread::Hello(h) => Seen::Hello(h@),
            Preread::Incomplete => Seen::Incomplete,
            Preread::NotTls => Seen::NotTls,
        }
    }
}

impl Hello {
    /// `$ssl_preread_alpn_protocols`: the identifiers, joined with commas.
    pub fn alpn_list(&self) -> (r: String)
        ensures
            r@ == text::joined(self@.alpn, ","@),
    {
        text::join(&self.alpn, ",")
    }
}

pub const REC_HANDSHAKE: u8 = 0x16;

pub const MSG_CLIENT_HELLO: u8 = 0x01;

pub const EXT_SERVER_NAME: u16 = 0x0000;

pub const EXT_ALPN: u16 = 0x0010;

pub const EXT_SUPPORTED_VERSIONS: u16 = 0x002b;

/// A TLS record body may not exceed 2^14 bytes. A larger length field is a
/// broken or hostile peer, not a big handshake.
pub const MAX_RECORD: usize = 16384;

// ---------------------------------------------------------------- the model

/// The number in the `width` bytes at `at`.
pub open spec fn word(s: Seq<u8>, at: int, width: int) -> int {
    bytes::be_value(s.subrange(at, at + width)) as int
}

/// Walking the records of a connection.
pub ghost enum Walk {
    /// The records hold a whole handshake message, and perhaps more.
    Message(Seq<u8>),
    Incomplete,
    NotTls,
}

/// A handshake message is all here: its header is, and as much as it declares.
pub open spec fn is_whole(got: Seq<u8>) -> bool {
    got.len() >= 4 && got.len() >= 4 + word(got, 1, 3)
}

/// Collects record payloads from `at` on, after `have`, until they hold a
/// whole handshake message.
pub open spec fn walk(buf: Seq<u8>, at: int, have: Seq<u8>) -> Walk
    decreases buf.len() - at,
{
    if at < 0 || at + 1 > buf.len() {
        Walk::Incomplete
    } else if buf[at] != REC_HANDSHAKE {
        Walk::NotTls
    } else if at + 3 > buf.len() {
        Walk::Incomplete
    } else if buf[at + 1] != 3 {
        Walk::NotTls
    } else if at + 5 > buf.len() {
        Walk::Incomplete
    } else {
        let n = word(buf, at + 3, 2);
        if n <= 0 || n > MAX_RECORD {
            Walk::NotTls
        } else if at + 5 + n > buf.len() {
            Walk::Incomplete
        } else {
            let got = have + buf.subrange(at + 5, at + 5 + n);
            if is_whole(got) {
                Walk::Message(got)
            } else {
                walk(buf, at + 5 + n, got)
            }
        }
    }
}

/// The name of a protocol version.
pub open spec fn version_text(v: int) -> Seq<char> {
    if v == 0x0300 {
        "SSLv3"@
    } else if v == 0x0301 {
        "TLSv1"@
    } else if v == 0x0302 {
        "TLSv1.1"@
    } else if v == 0x0303 {
        "TLSv1.2"@
    } else if v == 0x0304 {
        "TLSv1.3"@
    } else {
        ""@
    }
}

/// One of the sixteen values RFC 8701 reserves, `0x0a0a`, `0x1a1a`, ...
/// `0xfafa`: two equal bytes whose low half is `a`.
pub open spec fn grease(v: int) -> bool {
    v / 256 == v % 256 && v % 16 == 10
}

/// The largest version from `at` on that is not reserved, and at least `best`.
pub open spec fn highest(s: Seq<u8>, at: int, best: int) -> int
    decreases s.len() - at,
{
    if at < 0 || at + 2 > s.len() {
        best
    } else {
        let v = word(s, at, 2);
        highest(s, at + 2, if !grease(v) && v > best { v } else { best })
    }
}

/// RFC 8446 `supported_versions`: the name of the best version listed.
pub open spec fn best_version_of(data: Seq<u8>) -> Option<Seq<char>> {
    if data.len() < 1 || data[0] % 2 != 0 || data.len() < 1 + data[0] {
        None
    } else {
        let name = version_text(highest(data.subrange(1, 1 + data[0]), 0, 0));
        if name == ""@ {
            None
        } else {
            Some(name)
        }
    }
}

/// A list that a two-byte length introduces, when all of it is there.
pub open spec fn list_of(data: Seq<u8>) -> Option<Seq<u8>> {
    if data.len() < 2 || data.len() < 2 + word(data, 0, 2) {
        None
    } else {
        Some(data.subrange(2, 2 + word(data, 0, 2)))
    }
}

/// The first `host_name` entry from `at` on, if it is a nonempty text.
pub open spec fn first_host(s: Seq<u8>, at: int) -> Option<Seq<char>>
    decreases s.len() - at,
{
    if at < 0 || at + 3 > s.len() {
        None
    } else {
        let n = word(s, at + 1, 2);
        if n < 0 || at + 3 + n > s.len() {
            None
        } else if s[at] != 0 {
            first_host(s, at + 3 + n)
        } else {
            match text::decoded(s.subrange(at + 3, at + 3 + n)) {
                Some(t) if t.len() > 0 => Some(t),
                _ => None,
            }
        }
    }
}

/// RFC 6066 `ServerNameList`.
pub open spec fn server_name_of(data: Seq<u8>) -> Option<Seq<char>> {
    match list_of(data) {
        Some(list) => first_host(list, 0),
        None => None,
    }
}

/// The protocol names from `at` on, after `acc`: empty names and names that
/// are no text are left out.
pub open spec fn protocols(s: Seq<u8>, at: int, acc: Seq<Seq<char>>) -> Option<Seq<Seq<char>>>
    decreases s.len() - at,
{
    if at < 0 || at >= s.len() {
        Some(acc)
    } else {
        let n = s[at] as int;
        if at + 1 + n > s.len() {
            None
        } else {
            match text::decoded(s.subrange(at + 1, at + 1 + n)) {
                Some(t) if n > 0 => protocols(s, at + 1 + n, acc.push(t)),
                _ => protocols(s, at + 1 + n, acc),
            }
        }
    }
}

/// RFC 7301 `ProtocolNameList`.
pub open spec fn alpn_of(data: Seq<u8>) -> Option<Seq<Seq<char>>> {
    match list_of(data) {
        Some(list) => protocols(list, 0, Seq::empty()),
        None => None,
    }
}

/// What one extension adds to what is known.
pub open spec fn with_extension(h: HelloView, ty: int, data: Seq<u8>) -> HelloView {
    if ty == EXT_SERVER_NAME {
        match server_name_of(data) {
            Some(n) => HelloView { server_name: n, ..h },
            None => h,
        }
    } else if ty == EXT_ALPN {
        match alpn_of(data) {
            Some(l) => HelloView { alpn: l, ..h },
            None => h,
        }
    } else if ty == EXT_SUPPORTED_VERSIONS {
        match best_version_of(data) {
            Some(v) => HelloView { protocol: v, ..h },
            None => h,
        }
    } else {
        h
    }
}

/// What the extensions from `at` on add; nothing when one is cut short.
pub open spec fn extensions(s: Seq<u8>, at: int, h: HelloView) -> Option<HelloView>
    decreases s.len() - at,
{
    if at < 0 || at >= s.len() {
        Some(h)
    } else if at + 4 > s.len() {
        None
    } else {
        let n = word(s, at + 2, 2);
        if n < 0 || at + 4 + n > s.len() {
            None
        } else {
            extensions(
                s,
                at + 4 + n,
                with_extension(h, word(s, at, 2), s.subrange(at + 4, at + 4 + n)),
            )
        }
    }
}

/// A ClientHello without extensions, of the given legacy version.
pub open spec fn bare_hello(version: int) -> HelloView {
    HelloView { server_name: Seq::empty(), alpn: Seq::empty(), protocol: version_text(version) }
}

/// Reads the body of a ClientHello.
pub open spec fn client_hello(b: Seq<u8>) -> Seen {
    if b.len() < 35 {
        Seen::Incomplete
    } else {
        let suites = 35 + b[34];
        if b.len() < suites + 2 {
            Seen::Incomplete
        } else {
            let n = word(b, suites, 2);
            let methods = suites + 2 + n;
            if n % 2 != 0 {
                // Cipher suites come in pairs; an odd length cannot be repaired.
                Seen::NotTls
            } else if b.len() < methods + 1 {
                Seen::Incomplete
            } else {
                let rest = methods + 1 + b[methods];
                let base = bare_hello(word(b, 0, 2));
                if b.len() < rest {
                    Seen::Incomplete
                } else if b.len() == rest {
                    Seen::Hello(base)
                } else if b.len() < rest + 2 || b.len() < rest + 2 + word(b, rest, 2) {
                    Seen::Incomplete
                } else {
                    let all = b.subrange(rest + 2, rest + 2 + word(b, rest, 2));
                    match extensions(all, 0, base) {
                        Some(h) => Seen::Hello(h),
                        None => Seen::Incomplete,
                    }
                }
            }
        }
    }
}

/// Reads a handshake message.
pub open spec fn message(b: Seq<u8>) -> Seen {
    if b.len() < 1 {
        Seen::Incomplete
    } else if b[0] != MSG_CLIENT_HELLO {
        Seen::NotTls
    } else if !is_whole(b) {
        Seen::Incomplete
    } else {
        client_hello(b.subrange(4, 4 + word(b, 1, 3)))
    }
}

/// What the bytes a client has sent so far say.
pub open spec fn seen(buf: Seq<u8>) -> Seen {
    match walk(buf, 0, Seq::empty()) {
        Walk::Message(m) => message(m),
        Walk::Incomplete => Seen::Incomplete,
        Walk::NotTls => Seen::NotTls,
    }
}

// ---------------------------------------------------------------- reading

/// Parses `buf` as the start of a TLS connection.
///
/// `buf` is everything read so far, starting at the first byte the client
/// sent. Call it again with more bytes on [`Preread::Incomplete`].
pub fn parse(buf: &[u8]) -> (r: Preread)
    ensures
        r@ == seen(buf@),
{
    match records(buf) {
        Ok(m) => handshake(m.as_slice()),
        Err(e) => e,
    }
}

fn read(s: &[u8], at: usize, width: usize) -> (r: usize)
    requires
        0 < width <= 3,
        at + width <= s.len(),
    ensures
        r == word(s@, at as int, width as int),
        width == 1 ==> r < 0x100,
        width == 2 ==> r < 0x1_0000,
        width == 3 ==> r < 0x100_0000,
{
    proof {
        bytes::lemma_pow256();
    }
    bytes::read_be(s, at, width) as usize
}

/// Walks TLS records, collecting handshake payloads until they add up to a
/// whole message.
fn records(buf: &[u8]) -> (r: Result<Vec<u8>, Preread>)
    ensures
        match r {
            Ok(m) => walk(buf@, 0, Seq::empty()) == Walk::Message(m@),
            Err(e) => match walk(buf@, 0, Seq::empty()) {
                Walk::Message(_) => false,
                Walk::Incomplete => e is Incomplete,
                Walk::NotTls => e is NotTls,
            },
        },
{
    let mut got: Vec<u8> = Vec::new();
    let mut at: usize = 0;
    loop
        invariant
            at <= buf.len(),
            walk(buf@, 0, Seq::empty()) == walk(buf@, at as int, got@),
        decreases buf.len() - at,
    {
        let left: usize = buf.len() - at;
        if left < 1 {
            return Err(Preread::Incomplete);
        }
        if buf[at] != REC_HANDSHAKE {
            // Mid-stream, a non-handshake record means this was never the
            // handshake it was taken for.
            return Err(Preread::NotTls);
        }
        // Every TLS version has major 3 in the record header, 1.3 included.
        if left < 3 {
            return Err(Preread::Incomplete);
        }
        if buf[at + 1] != 3 {
            return Err(Preread::NotTls);
        }
        if left < 5 {
            return Err(Preread::Incomplete);
        }
        let n: usize = read(buf, at + 3, 2);
        if n == 0 || n > MAX_RECORD {
            return Err(Preread::NotTls);
        }
        if left - 5 < n {
            return Err(Preread::Incomplete);
        }
        let ghost have = got@;
        got.extend_from_slice(&buf[at + 5..at + 5 + n]);
        assert(got@ == have + buf@.subrange(at + 5, at + 5 + n));
        if got.len() >= 4 {
            let need: usize = read(got.as_slice(), 1, 3);
            if got.len() - 4 >= need {
                return Ok(got);
            }
        }
        at = at + 5 + n;
    }
}

/// Parses the handshake message itself. A structurally impossible message is
/// `NotTls`: no amount of extra data would repair it.
fn handshake(b: &[u8]) -> (r: Preread)
    ensures
        r@ == message(b@),
{
    if b.len() < 1 {
        return Preread::Incomplete;
    }
    if b[0] != MSG_CLIENT_HELLO {
        return Preread::NotTls;
    }
    if b.len() < 4 {
        return Preread::Incomplete;
    }
    let n: usize = read(b, 1, 3);
    if b.len() - 4 < n {
        return Preread::Incomplete;
    }
    hello(&b[4..4 + n])
}

/// Parses the body of a ClientHello.
fn hello(b: &[u8]) -> (r: Preread)
    ensures
        r@ == client_hello(b@),
{
    // legacy_version and random, then the session id.
    if b.len() < 35 {
        return Preread::Incomplete;
    }
    let legacy: usize = read(b, 0, 2);
    let suites: usize = 35 + b[34] as usize;
    if b.len() < suites + 2 {
        return Preread::Incomplete;
    }
    let n: usize = read(b, suites, 2);
    if n % 2 != 0 {
        return Preread::NotTls;
    }
    let methods: usize = suites + 2 + n;
    if b.len() < methods + 1 {
        return Preread::Incomplete;
    }
    let rest: usize = methods + 1 + b[methods] as usize;
    if b.len() < rest {
        return Preread::Incomplete;
    }
    let mut out = Hello {
        server_name: String::new(),
        alpn: Vec::new(),
        protocol: version_name(legacy),
    };
    assert(text::texts(out.alpn@) =~= Seq::empty());
    // Extensions are optional: early clients send none, and such a client
    // simply has no SNI to route on.
    if b.len() == rest {
        return Preread::Hello(out);
    }
    if b.len() < rest + 2 {
        return Preread::Incomplete;
    }
    let len: usize = read(b, rest, 2);
    if b.len() - rest - 2 < len {
        return Preread::Incomplete;
    }
    let all: &[u8] = &b[rest + 2..rest + 2 + len];
    let ghost base = bare_hello(legacy as int);
    let mut at: usize = 0;
    while at < all.len()
        invariant
            at <= all.len(),
            extensions(all@, 0, base) == extensions(all@, at as int, out@),
            client_hello(b@) == (match extensions(all@, 0, base) {
                Some(h) => Seen::Hello(h),
                None => Seen::Incomplete,
            }),
        decreases all.len() - at,
    {
        let left: usize = all.len() - at;
        if left < 4 {
            return Preread::Incomplete;
        }
        let ty: usize = read(all, at, 2);
        let n: usize = read(all, at + 2, 2);
        if left - 4 < n {
            return Preread::Incomplete;
        }
        let data: &[u8] = &all[at + 4..at + 4 + n];
        let ghost before = out@;
        if ty == EXT_SERVER_NAME as usize {
            if let Some(name) = server_name(data) {
                out.server_name = name;
            }
        } else if ty == EXT_ALPN as usize {
            if let Some(list) = alpn(data) {
                out.alpn = list;
            }
        } else if ty == EXT_SUPPORTED_VERSIONS as usize {
            // TLS 1.3 pins legacy_version at 1.2 and puts the truth here, so
            // this overrides rather than supplements.
            if let Some(v) = best_version(data) {
                out.protocol = v;
            }
        }
        assert(out@ == with_extension(before, ty as int, data@));
        at = at + 4 + n;
    }
    Preread::Hello(out)
}

/// RFC 6066 `ServerNameList`. Only `host_name` (type 0) is defined, and the
/// list may not repeat a type, so the first entry is the answer.
fn server_name(data: &[u8]) -> (r: Option<String>)
    ensures
        match r {
            Some(s) => server_name_of(data@) == Some(s@),
            None => server_name_of(data@) is None,
        },
{
    if data.len() < 2 {
        return None;
    }
    let len: usize = read(data, 0, 2);
    if data.len() - 2 < len {
        return None;
    }
    let list: &[u8] = &data[2..2 + len];
    let mut at: usize = 0;
    while at < list.len()
        invariant
            at <= list.len(),
            server_name_of(data@) == first_host(list@, at as int),
        decreases list.len() - at,
    {
        let left: usize = list.len() - at;
        if left < 3 {
            return None;
        }
        let n: usize = read(list, at + 1, 2);
        if left - 3 < n {
            return None;
        }
        if list[at] == 0 {
            // A hostname that is not UTF-8 is not a hostname. Decoding it
            // lossily would produce a routing key the client never sent.
            return match text::decode(&list[at + 3..at + 3 + n]) {
                Some(s) => if s.is_empty() {
                    None
                } else {
                    Some(s.to_owned())
                },
                None => None,
            };
        }
        at = at + 3 + n;
    }
    None
}

/// RFC 7301 `ProtocolNameList`.
fn alpn(data: &[u8]) -> (r: Option<Vec<String>>)
    ensures
        match r {
            Some(l) => alpn_of(data@) == Some(text::texts(l@)),
            None => alpn_of(data@) is None,
        },
{
    if data.len() < 2 {
        return None;
    }
    let len: usize = read(data, 0, 2);
    if data.len() - 2 < len {
        return None;
    }
    let list: &[u8] = &data[2..2 + len];
    let mut out: Vec<String> = Vec::new();
    let mut at: usize = 0;
    assert(text::texts(out@) =~= Seq::empty());
    while at < list.len()
        invariant
            at <= list.len(),
            alpn_of(data@) == protocols(list@, at as int, text::texts(out@)),
        decreases list.len() - at,
    {
        let n: usize = list[at] as usize;
        if list.len() - at - 1 < n {
            return None;
        }
        // A zero-length name is not a protocol the client offered. Keeping it
        // would put a stray comma into the string a `map` routes on.
        if let Some(s) = text::decode(&list[at + 1..at + 1 + n]) {
            if n > 0 {
                let ghost before = text::texts(out@);
                out.push(s.to_owned());
                assert(text::texts(out@) =~= before.push(s@));
            }
        }
        at = at + 1 + n;
    }
    Some(out)
}

/// RFC 8446 `supported_versions`: the client's whole list. Ordered best-first
/// by convention but not by requirement, so take the maximum.
fn best_version(data: &[u8]) -> (r: Option<&'static str>)
    ensures
        match r {
            Some(s) => best_version_of(data@) == Some(s@),
            None => best_version_of(data@) is None,
        },
{
    if data.len() < 1 {
        return None;
    }
    let len: usize = data[0] as usize;
    if len % 2 != 0 || data.len() - 1 < len {
        return None;
    }
    let list: &[u8] = &data[1..1 + len];
    let mut best: usize = 0;
    let mut at: usize = 0;
    while at < list.len()
        invariant
            at <= list.len(),
            at % 2 == 0,
            list.len() % 2 == 0,
            highest(list@, 0, 0) == highest(list@, at as int, best as int),
        decreases list.len() - at,
    {
        let v: usize = read(list, at, 2);
        // Reserved values are deliberate garbage clients send to catch servers
        // that fail to ignore unknown versions.
        if !is_grease(v) && v > best {
            best = v;
        }
        at += 2;
    }
    assert(best == highest(list@, 0, 0));
    let name: &'static str = version_name(best);
    proof {
        reveal_strlit("");
    }
    if name.is_empty() {
        assert(name@ =~= ""@);
        None
    } else {
        Some(name)
    }
}

/// RFC 8701 reserves the sixteen values `0x0a0a`, `0x1a1a`, ... `0xfafa`.
fn is_grease(v: usize) -> (r: bool)
    requires
        v < 0x1_0000,
    ensures
        r == grease(v as int),
{
    v % 16 == 10 && v / 256 == v % 256
}

fn version_name(v: usize) -> (r: &'static str)
    ensures
        r@ == version_text(v as int),
{
    if v == 0x0300 {
        "SSLv3"
    } else if v == 0x0301 {
        "TLSv1"
    } else if v == 0x0302 {
        "TLSv1.1"
    } else if v == 0x0303 {
        "TLSv1.2"
    } else if v == 0x0304 {
        "TLSv1.3"
    } else {
        ""
    }
}

// ---------------------------------------------------------------- laws

proof fn lemma_walk_prefix(buf: Seq<u8>, more: Seq<u8>, at: int, have: Seq<u8>)
    requires
        0 <= at,
    ensures
        !(walk(buf, at, have) is Incomplete) ==> walk(buf + more, at, have) == walk(buf, at, have),
    decreases buf.len() - at,
{
    let all = buf + more;
    if at + 5 <= buf.len() {
        let n = word(buf, at + 3, 2);
        assert(all.subrange(at + 3, at + 5) =~= buf.subrange(at + 3, at + 5));
        if 0 < n && at + 5 + n <= buf.len() {
            let got = have + buf.subrange(at + 5, at + 5 + n);
            assert(all.subrange(at + 5, at + 5 + n) =~= buf.subrange(at + 5, at + 5 + n));
            lemma_walk_prefix(buf, more, at + 5 + n, got);
        }
    }
}

/// A prefix never parses to a different answer than the whole: once the bytes
/// have been decided on, more bytes do not change the decision.
pub proof fn law_more_bytes_keep_the_answer(buf: Seq<u8>, more: Seq<u8>)
    ensures
        !(seen(buf) is Incomplete) ==> seen(buf + more) == seen(buf),
{
    lemma_walk_prefix(buf, more, 0, Seq::empty());
}

/// A first byte that is not that of a handshake record is refused at once.
pub proof fn law_other_protocols_are_refused_at_once(buf: Seq<u8>)
    requires
        buf.len() > 0,
        buf[0] != REC_HANDSHAKE,
    ensures
        seen(buf) is NotTls,
{
}

/// One TLS record, of minor version `minor`, around a payload.
pub open spec fn framed(payload: Seq<u8>, minor: u8) -> Seq<u8> {
    seq![REC_HANDSHAKE, 3u8, minor] + bytes::be(payload.len(), 2) + payload
}

/// Several payloads, each in a record of its own.
pub open spec fn framed_all(payloads: Seq<Seq<u8>>, minor: u8) -> Seq<u8>
    decreases payloads.len(),
{
    if payloads.len() == 0 {
        Seq::empty()
    } else {
        framed_all(payloads.drop_last(), minor) + framed(payloads.last(), minor)
    }
}

/// Payloads put together again.
pub open spec fn reassembled(payloads: Seq<Seq<u8>>) -> Seq<u8>
    decreases payloads.len(),
{
    if payloads.len() == 0 {
        Seq::empty()
    } else {
        reassembled(payloads.drop_last()) + payloads.last()
    }
}

/// Every payload fits a record.
pub open spec fn fit_records(payloads: Seq<Seq<u8>>) -> bool {
    forall|i: int| 0 <= i < payloads.len() ==> 0 < (#[trigger] payloads[i]).len() <= MAX_RECORD
}

/// A message that is exactly as long as it declares.
pub open spec fn is_exact(m: Seq<u8>) -> bool {
    m.len() >= 4 && m.len() == 4 + word(m, 1, 3)
}

/// Walking one record in the middle of a buffer.
proof fn lemma_walk_record(before: Seq<u8>, payload: Seq<u8>, minor: u8, after: Seq<u8>, have: Seq<u8>)
    requires
        0 < payload.len() <= MAX_RECORD,
    ensures
        ({
            let buf = before + framed(payload, minor) + after;
            walk(buf, before.len() as int, have) == if is_whole(have + payload) {
                Walk::Message(have + payload)
            } else {
                walk(buf, (before + framed(payload, minor)).len() as int, have + payload)
            }
        }),
{
    let f = framed(payload, minor);
    let buf = before + f + after;
    let at = before.len() as int;
    bytes::lemma_pow256();
    bytes::lemma_be_round_trip(payload.len(), 2);
    assert(buf[at] == REC_HANDSHAKE);
    assert(buf[at + 1] == 3);
    assert(buf.subrange(at + 3, at + 5) =~= bytes::be(payload.len(), 2));
    assert(buf.subrange(at + 5, at + 5 + payload.len()) =~= payload);
}

/// A strict prefix of a record, at the end of a buffer, asks for more.
proof fn lemma_walk_cut_record(before: Seq<u8>, payload: Seq<u8>, minor: u8, cut: int, have: Seq<u8>)
    requires
        0 < payload.len() <= MAX_RECORD,
        0 <= cut < framed(payload, minor).len(),
    ensures
        walk(before + framed(payload, minor).subrange(0, cut), before.len() as int, have)
            is Incomplete,
{
    let f = framed(payload, minor);
    let buf = before + f.subrange(0, cut);
    let at = before.len() as int;
    bytes::lemma_pow256();
    bytes::lemma_be_round_trip(payload.len(), 2);
    if cut >= 1 {
        assert(buf[at] == REC_HANDSHAKE);
    }
    if cut >= 3 {
        assert(buf[at + 1] == 3);
    }
    if cut >= 5 {
        assert(buf.subrange(at + 3, at + 5) =~= bytes::be(payload.len(), 2));
    }
}

/// The first payloads of a message that is not yet whole lead on to the rest.
proof fn lemma_walk_some(payloads: Seq<Seq<u8>>, minor: u8, after: Seq<u8>)
    requires
        fit_records(payloads),
        forall|i: int|
            0 <= i <= payloads.len() ==> !is_whole(reassembled(#[trigger] payloads.subrange(0, i))),
    ensures
        ({
            let f = framed_all(payloads, minor);
            walk(f + after, 0, Seq::empty()) == walk(
                f + after,
                f.len() as int,
                reassembled(payloads),
            )
        }),
    decreases payloads.len(),
{
    if payloads.len() > 0 {
        let init = payloads.drop_last();
        let last = payloads.last();
        assert(last == payloads[payloads.len() - 1]);
        assert forall|i: int| 0 <= i <= init.len() implies !is_whole(
            reassembled(#[trigger] init.subrange(0, i)),
        ) by {
            assert(init.subrange(0, i) =~= payloads.subrange(0, i));
        }
        let rest = framed(last, minor) + after;
        lemma_walk_some(init, minor, rest);
        assert(framed_all(init, minor) + rest =~= framed_all(payloads, minor) + after);
        lemma_walk_record(framed_all(init, minor), last, minor, after, reassembled(init));
        assert(payloads.subrange(0, payloads.len() as int) =~= payloads);
        assert(framed_all(init, minor) + framed(last, minor) + after =~= framed_all(payloads, minor)
            + after);
    } else {
        assert(framed_all(payloads, minor) + after =~= after);
    }
}

/// A strict part of an exact message is not whole.
proof fn lemma_part_is_not_whole(part: Seq<u8>, rest: Seq<u8>)
    requires
        is_exact(part + rest),
        rest.len() > 0,
    ensures
        !is_whole(part),
{
    if part.len() >= 4 {
        assert((part + rest).subrange(1, 4) =~= part.subrange(1, 4));
    }
}

/// A prefix of the payloads, with what is left of the message.
proof fn lemma_reassembled_prefix(payloads: Seq<Seq<u8>>, i: int) -> (rest: Seq<u8>)
    requires
        fit_records(payloads),
        0 <= i <= payloads.len(),
    ensures
        reassembled(payloads.subrange(0, i)) + rest == reassembled(payloads),
        i < payloads.len() ==> rest.len() > 0,
    decreases payloads.len() - i,
{
    if i == payloads.len() {
        assert(payloads.subrange(0, i) =~= payloads);
        assert(reassembled(payloads) + Seq::<u8>::empty() =~= reassembled(payloads));
        Seq::empty()
    } else {
        let next = lemma_reassembled_prefix(payloads, i + 1);
        let longer = payloads.subrange(0, i + 1);
        assert(longer.drop_last() =~= payloads.subrange(0, i));
        assert(longer.last() == payloads[i]);
        assert(reassembled(payloads.subrange(0, i)) + (payloads[i] + next) =~= reassembled(longer)
            + next);
        payloads[i] + next
    }
}

/// No strict prefix of the payloads of an exact message is whole.
proof fn lemma_strict_prefixes_are_not_whole(payloads: Seq<Seq<u8>>)
    requires
        fit_records(payloads),
        is_exact(reassembled(payloads)),
    ensures
        forall|i: int|
            0 <= i < payloads.len() ==> !is_whole(reassembled(#[trigger] payloads.subrange(0, i))),
{
    assert forall|i: int| 0 <= i < payloads.len() implies !is_whole(
        reassembled(#[trigger] payloads.subrange(0, i)),
    ) by {
        let rest = lemma_reassembled_prefix(payloads, i);
        lemma_part_is_not_whole(reassembled(payloads.subrange(0, i)), rest);
    }
}

/// The fragmentation boundary does not change the answer: however a message is
/// cut into records, it reads as the message itself.
pub proof fn law_fragmentation_does_not_matter(payloads: Seq<Seq<u8>>, minor: u8)
    requires
        fit_records(payloads),
        is_exact(reassembled(payloads)),
    ensures
        seen(framed_all(payloads, minor)) == message(reassembled(payloads)),
{
    let init = payloads.drop_last();
    let last = payloads.last();
    assert(payloads.len() > 0) by {
        assert(reassembled(Seq::<Seq<u8>>::empty()).len() == 0);
        if payloads.len() == 0 {
            assert(payloads =~= Seq::<Seq<u8>>::empty());
        }
    }
    assert(last == payloads[payloads.len() - 1]);
    lemma_strict_prefixes_are_not_whole(payloads);
    assert forall|i: int| 0 <= i <= init.len() implies !is_whole(
        reassembled(#[trigger] init.subrange(0, i)),
    ) by {
        assert(init.subrange(0, i) =~= payloads.subrange(0, i));
    }
    let f = framed(last, minor);
    lemma_walk_some(init, minor, f);
    lemma_walk_record(framed_all(init, minor), last, minor, Seq::empty(), reassembled(init));
    assert(framed_all(init, minor) + f + Seq::<u8>::empty() =~= framed_all(payloads, minor));
    assert(framed_all(init, minor) + f =~= framed_all(payloads, minor));
}

/// Every truncation of a whole message asks for more rather than guessing.
pub proof fn law_truncation_asks_for_more(payloads: Seq<Seq<u8>>, minor: u8, n: int)
    requires
        fit_records(payloads),
        is_exact(reassembled(payloads)),
        0 <= n < framed_all(payloads, minor).len(),
    ensures
        seen(framed_all(payloads, minor).subrange(0, n)) is Incomplete,
{
    lemma_strict_prefixes_are_not_whole(payloads);
    lemma_truncated(payloads, minor, n);
}

proof fn lemma_truncated(payloads: Seq<Seq<u8>>, minor: u8, n: int)
    requires
        fit_records(payloads),
        forall|i: int|
            0 <= i < payloads.len() ==> !is_whole(reassembled(#[trigger] payloads.subrange(0, i))),
        0 <= n < framed_all(payloads, minor).len(),
    ensures
        seen(framed_all(payloads, minor).subrange(0, n)) is Incomplete,
    decreases payloads.len(),
{
    let init = payloads.drop_last();
    let last = payloads.last();
    assert(last == payloads[payloads.len() - 1]);
    let f = framed_all(init, minor);
    let all = framed_all(payloads, minor);
    if n < f.len() {
        assert forall|i: int| 0 <= i < init.len() implies !is_whole(
            reassembled(#[trigger] init.subrange(0, i)),
        ) by {
            assert(init.subrange(0, i) =~= payloads.subrange(0, i));
        }
        lemma_truncated(init, minor, n);
        assert(all.subrange(0, n) =~= f.subrange(0, n));
    } else {
        let cut = n - f.len();
        let g = framed(last, minor).subrange(0, cut);
        assert(all.subrange(0, n) =~= f + g);
        assert forall|i: int| 0 <= i <= init.len() implies !is_whole(
            reassembled(#[trigger] init.subrange(0, i)),
        ) by {
            assert(init.subrange(0, i) =~= payloads.subrange(0, i));
        }
        lemma_walk_some(init, minor, g);
        lemma_walk_cut_record(f, last, minor, cut, reassembled(init));
    }
}

} // verus!
