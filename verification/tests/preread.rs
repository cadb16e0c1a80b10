use oxiserve::preread::{
    parse, Hello, Preread, EXT_ALPN, EXT_SERVER_NAME, EXT_SUPPORTED_VERSIONS, MSG_CLIENT_HELLO,
    REC_HANDSHAKE,
};
use oxiserve::config::{Part, ProxyTarget, Template, Var};
use oxiserve::conn::ReadEvent;
use oxiserve::stream::{Relay, RelayAsk, RelayConf, RelayEvent};

/// Builds a ClientHello so the tests read as intent rather than hex.
#[derive(Default)]
struct Build {
    sni: Option<&'static str>,
    alpn: Vec<&'static str>,
    versions: Vec<u16>,
    legacy: Option<u16>,
    session_id: usize,
    no_extensions: bool,
}

impl Build {
    fn new() -> Build {
        Build::default()
    }
    fn sni(mut self, s: &'static str) -> Build {
        self.sni = Some(s);
        self
    }
    fn alpn(mut self, p: &[&'static str]) -> Build {
        self.alpn = p.to_vec();
        self
    }
    fn versions(mut self, v: &[u16]) -> Build {
        self.versions = v.to_vec();
        self
    }
    fn legacy(mut self, v: u16) -> Build {
        self.legacy = Some(v);
        self
    }
    fn session_id(mut self, n: usize) -> Build {
        self.session_id = n;
        self
    }
    fn without_extensions(mut self) -> Build {
        self.no_extensions = true;
        self
    }

    fn body(&self) -> Vec<u8> {
        let mut b = Vec::new();
        b.extend_from_slice(&self.legacy.unwrap_or(0x0303).to_be_bytes());
        b.extend_from_slice(&[0x11; 32]); // random
        b.push(self.session_id as u8);
        b.extend(std::iter::repeat(0xab).take(self.session_id));
        b.extend_from_slice(&2u16.to_be_bytes()); // one cipher suite
        b.extend_from_slice(&[0x13, 0x01]);
        b.push(1); // one compression method
        b.push(0);
        if self.no_extensions {
            return b;
        }
        let mut ex = Vec::new();
        if let Some(s) = self.sni {
            ex.extend_from_slice(&ext(EXT_SERVER_NAME, &sni_data(s.as_bytes())));
        }
        if !self.alpn.is_empty() {
            let mut d = Vec::new();
            for p in &self.alpn {
                d.push(p.len() as u8);
                d.extend_from_slice(p.as_bytes());
            }
            ex.extend_from_slice(&ext(EXT_ALPN, &with_u16_len(&d)));
        }
        if !self.versions.is_empty() {
            let mut d = vec![(self.versions.len() * 2) as u8];
            for v in &self.versions {
                d.extend_from_slice(&v.to_be_bytes());
            }
            ex.extend_from_slice(&ext(EXT_SUPPORTED_VERSIONS, &d));
        }
        b.extend_from_slice(&(ex.len() as u16).to_be_bytes());
        b.extend_from_slice(&ex);
        b
    }

    /// The handshake message, without record framing.
    fn handshake(&self) -> Vec<u8> {
        wrap_handshake(&self.body())
    }

    /// Wrapped in one record, as every real client sends it.
    fn build(&self) -> Vec<u8> {
        record(&self.handshake())
    }

    /// Split across two records at `at` — which a hostile peer may do.
    fn build_split(&self, at: usize) -> Vec<u8> {
        let h = self.handshake();
        let mut out = record(&h[..at]);
        out.extend_from_slice(&record(&h[at..]));
        out
    }
}

fn with_u16_len(d: &[u8]) -> Vec<u8> {
    let mut out = (d.len() as u16).to_be_bytes().to_vec();
    out.extend_from_slice(d);
    out
}

fn sni_data(name: &[u8]) -> Vec<u8> {
    let mut entry = vec![0u8]; // host_name
    entry.extend_from_slice(&(name.len() as u16).to_be_bytes());
    entry.extend_from_slice(name);
    with_u16_len(&entry)
}

fn ext(ty: u16, data: &[u8]) -> Vec<u8> {
    let mut out = ty.to_be_bytes().to_vec();
    out.extend_from_slice(&(data.len() as u16).to_be_bytes());
    out.extend_from_slice(data);
    out
}

fn wrap_handshake(body: &[u8]) -> Vec<u8> {
    let mut h = vec![MSG_CLIENT_HELLO];
    h.extend_from_slice(&(body.len() as u32).to_be_bytes()[1..]);
    h.extend_from_slice(body);
    h
}

fn record(payload: &[u8]) -> Vec<u8> {
    let mut r = vec![REC_HANDSHAKE, 3, 1];
    r.extend_from_slice(&(payload.len() as u16).to_be_bytes());
    r.extend_from_slice(payload);
    r
}

fn hello(buf: &[u8]) -> Hello {
    match parse(buf) {
        Preread::Hello(h) => h,
        other => panic!("expected a ClientHello, got {other:?}"),
    }
}

#[test]
fn sni_is_extracted() {
    assert_eq!(hello(&Build::new().sni("api.example.com").build()).server_name, "api.example.com");
}

#[test]
fn a_hello_without_sni_yields_an_empty_name() {
    assert_eq!(hello(&Build::new().build()).server_name, "");
}

#[test]
fn alpn_is_extracted_in_the_order_offered() {
    let h = hello(&Build::new().sni("x.test").alpn(&["h2", "http/1.1"]).build());
    assert_eq!(h.alpn, ["h2", "http/1.1"]);
    assert_eq!(h.alpn_list(), "h2,http/1.1");
}

#[test]
fn supported_versions_overrides_the_legacy_field() {
    // A TLS 1.3 client is required to write 1.2 in legacy_version, so
    // reading that field alone would under-report every modern client.
    let h = hello(&Build::new().legacy(0x0303).versions(&[0x0304, 0x0303]).build());
    assert_eq!(h.protocol, "TLSv1.3");
}

#[test]
fn legacy_version_is_used_when_supported_versions_is_absent() {
    for (v, name) in
        [(0x0301u16, "TLSv1"), (0x0302, "TLSv1.1"), (0x0303, "TLSv1.2"), (0x0300, "SSLv3")]
    {
        assert_eq!(hello(&Build::new().legacy(v).build()).protocol, name, "legacy {v:#06x}");
    }
}

#[test]
fn grease_versions_are_ignored() {
    // Clients send deliberate garbage here to catch servers that fail to
    // ignore unknown values. A plain maximum would report 0xdada.
    assert_eq!(hello(&Build::new().versions(&[0xdada, 0x0304, 0x0303]).build()).protocol, "TLSv1.3");
}

#[test]
fn a_hello_with_no_extensions_at_all_still_parses() {
    // SSLv3 and early TLS 1.0 clients send none. Requiring the extensions
    // length would reject them instead of routing them to a default.
    let h = hello(&Build::new().legacy(0x0300).without_extensions().build());
    assert_eq!(h.protocol, "SSLv3");
    assert_eq!(h.server_name, "");
}

#[test]
fn a_long_session_id_does_not_shift_the_parse() {
    // Resumption fills this in; a parser that assumed it empty would read
    // the cipher-suite length out of the middle of the session id.
    assert_eq!(hello(&Build::new().session_id(32).sni("resumed.x").build()).server_name, "resumed.x");
}

#[test]
fn a_hello_split_across_records_is_reassembled() {
    let b = Build::new().sni("split.example.com").alpn(&["h2"]);
    // Split partway through, past where the SNI begins, so neither record
    // holds the field intact.
    let h = hello(&b.build_split(60));
    assert_eq!(h.server_name, "split.example.com");
    assert_eq!(h.alpn, ["h2"]);
}

#[test]
fn a_hello_split_at_every_offset_reassembles_identically() {
    // The fragmentation boundary must not change the answer — including
    // when it lands inside the 4-byte handshake header, where the length
    // itself has to be read across records.
    let b = Build::new().sni("frag.example.com").alpn(&["h2", "http/1.1"]);
    let whole = hello(&b.build());
    let len = b.handshake().len();
    for at in 1..len {
        assert_eq!(hello(&b.build_split(at)), whole, "split at {at} changed the parse");
    }
}

#[test]
fn every_truncation_of_a_valid_hello_asks_for_more_rather_than_guessing() {
    // The property that matters for a network parser: a prefix must never
    // produce an answer. Reporting an SNI from half a message would route
    // on data the client had not finished sending.
    let b = Build::new().sni("api.example.com").alpn(&["h2"]).build();
    for n in 1..b.len() {
        assert_eq!(parse(&b[..n]), Preread::Incomplete, "{n}-byte prefix of {}", b.len());
    }
    assert!(matches!(parse(&b), Preread::Hello(_)));
}

#[test]
fn non_tls_traffic_is_rejected_on_the_very_first_byte() {
    // Correctness, not just speed: protocols where the server speaks first
    // would deadlock if we waited for a handshake never coming.
    for s in [&b"GET / HTTP/1.1\r\n"[..], b"HELO mail.example.com\r\n", b"\x00\x00\x00\x08\x04"] {
        assert_eq!(parse(s), Preread::NotTls, "{:?}", &s[..4.min(s.len())]);
    }
}

#[test]
fn an_empty_buffer_is_incomplete_not_a_decision() {
    assert_eq!(parse(&[]), Preread::Incomplete);
}

#[test]
fn structural_nonsense_is_rejected_rather_than_awaited() {
    // No further byte could make any of these valid, so waiting would
    // stall the connection until the preread timeout fires.
    assert_eq!(parse(&[REC_HANDSHAKE, 3, 1, 0xff, 0xff]), Preread::NotTls, "oversized record");
    assert_eq!(parse(&[REC_HANDSHAKE, 3, 1, 0, 0]), Preread::NotTls, "zero-length record");
    assert_eq!(parse(&[REC_HANDSHAKE, 9, 1, 0, 5, 1, 2, 3, 4, 5]), Preread::NotTls, "bad major");
    // A ServerHello arriving where a client should be.
    assert_eq!(parse(&record(&[0x02, 0, 0, 1, 0])), Preread::NotTls, "not a ClientHello");
}

#[test]
fn a_length_field_that_overruns_its_container_is_not_believed() {
    // Claim a 64 KB extensions block inside a small record. The parser
    // must refuse; it must never read past the record it was handed.
    let mut body = Build::new().body();
    let n = body.len();
    body[n - 2..].copy_from_slice(&0xffffu16.to_be_bytes());
    assert!(!matches!(parse(&record(&wrap_handshake(&body))), Preread::Hello(_)));
}

#[test]
fn an_odd_cipher_suite_length_is_refused() {
    let mut body = Build::new().body();
    // The cipher-suite length sits after version(2) + random(32) + sid(1).
    body[35..37].copy_from_slice(&3u16.to_be_bytes());
    assert_eq!(parse(&record(&wrap_handshake(&body))), Preread::NotTls);
}

#[test]
fn a_non_utf8_sni_is_dropped_rather_than_repaired() {
    // A routing key built from lossily-decoded bytes is a key the client
    // never sent, and it would go on to select a backend.
    let mut body = Build::new().without_extensions().body();
    let ex = ext(EXT_SERVER_NAME, &sni_data(&[0xff, 0xfe]));
    body.extend_from_slice(&(ex.len() as u16).to_be_bytes());
    body.extend_from_slice(&ex);
    assert_eq!(hello(&record(&wrap_handshake(&body))).server_name, "");
}

#[test]
fn empty_alpn_entries_are_dropped() {
    // Regression, found by fuzzing. An entry of length zero is malformed
    // per RFC 7301, and carrying it through would render
    // `$ssl_preread_alpn_protocols` as ",h2" — a routing key describing a
    // protocol list the client never sent.
    let mut body = Build::new().without_extensions().body();
    let list = [0u8, 2, b'h', b'2', 0];
    let ex = ext(EXT_ALPN, &with_u16_len(&list));
    body.extend_from_slice(&(ex.len() as u16).to_be_bytes());
    body.extend_from_slice(&ex);
    let h = hello(&record(&wrap_handshake(&body)));
    assert_eq!(h.alpn, ["h2"]);
    assert_eq!(h.alpn_list(), "h2");
}

#[test]
fn unknown_and_grease_extensions_are_skipped() {
    // Real ClientHellos are full of extensions we do not care about, plus
    // GREASE ones with deliberately unassigned types.
    let mut body = Build::new().without_extensions().body();
    let mut ex = ext(0x0a0a, &[1, 2, 3]);
    ex.extend_from_slice(&ext(0x7fff, &[]));
    ex.extend_from_slice(&ext(EXT_SERVER_NAME, &sni_data(b"host.test")));
    body.extend_from_slice(&(ex.len() as u16).to_be_bytes());
    body.extend_from_slice(&ex);
    assert_eq!(hello(&record(&wrap_handshake(&body))).server_name, "host.test");
}

#[test]
fn a_connection_is_routed_once_its_hello_is_whole() {
    let (maps, remote, groups) = (vec![], None, vec![b"db.test".to_vec()]);
    let target = ProxyTarget::Dynamic(Template { parts: vec![Part::Variable(Var::SslPrereadServerName)] });
    let conf = RelayConf {
        maps: &maps,
        remote: &remote,
        target: &target,
        groups: &groups,
        ssl_preread: true,
        preread_buffer_size: 16384,
    };
    let sent = Build::new().sni("db.test").build();
    let (mut r, ask) = Relay::start(&conf);
    assert!(matches!(ask, RelayAsk::Read(4096)));
    let cut = sent.len() - 1;
    let ask = r.next(&conf, &sent[..cut], RelayEvent::Read(ReadEvent::Got(cut)));
    assert!(matches!(ask, RelayAsk::Read(4096)));
    let ask = r.next(&conf, &sent, RelayEvent::Read(ReadEvent::Got(1)));
    assert!(matches!(ask, RelayAsk::Choose(g) if g == b"db.test"));
    // A client that names nothing is sent nowhere.
    let sent = Build::new().build();
    let (mut r, _) = Relay::start(&conf);
    let ask = r.next(&conf, &sent, RelayEvent::Read(ReadEvent::Got(sent.len())));
    assert!(matches!(ask, RelayAsk::Close));
}
