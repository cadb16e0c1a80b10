use oxiserve::autoindex::is_hidden;
use oxiserve::config::Addr;
use oxiserve::ctx::{base64_decode, cookie_value, push_addr, push_secs, query_param};
use oxiserve::fastcgi::{find_header_end, split_header, split_lines};
use oxiserve::files::{etag_list_matches, io_status, make_etag, parse_range, IoFailure, Mtime, RangeSpec};
use oxiserve::proxy::hop_by_hop;
use oxiserve::stats::{
    accepted, closed, init, json_str, request_done, stub_status_body, ConnGuard, State, StateGuard,
};
use oxiserve::stream::peer_addr;
use oxiserve::udp::MAX_DATAGRAM;
use oxiserve::uri::{encode_path, escape_html};

/// A number of seconds in microseconds.
fn us(secs: f64) -> u64 {
    (secs * 1_000_000.0).round() as u64
}

#[test]
fn seconds_get_three_decimals() {
    let mut s = Vec::new();
    push_secs(&mut s, us(1.5));
    assert_eq!(s, b"1.500");
    s.clear();
    push_secs(&mut s, us(0.001));
    assert_eq!(s, b"0.001");
    s.clear();
    push_secs(&mut s, us(0.0));
    assert_eq!(s, b"0.000");
    s.clear();
    push_secs(&mut s, us(12.0345));
    assert_eq!(s, b"12.035");
}

#[test]
fn ipv4_formatting_avoids_allocation_path() {
    let mut s = Vec::new();
    push_addr(&mut s, &Some(Addr::V4 { a: 192, b: 168, c: 1, d: 10, port: 1234 }));
    assert_eq!(s, b"192.168.1.10");
    s.clear();
    push_addr(&mut s, &None);
    assert_eq!(s, b"unix:", "a Unix peer has no address");
}

#[test]
fn cookies_are_split_correctly() {
    let h = b"a=1; sessionid=abc123; b=2";
    assert_eq!(cookie_value(h, b"sessionid"), Some(&b"abc123"[..]));
    assert_eq!(cookie_value(h, b"a"), Some(&b"1"[..]));
    assert_eq!(cookie_value(h, b"missing"), None);
}

#[test]
fn query_parameters_are_found_by_name() {
    assert_eq!(query_param(b"a=1&b=two&c", b"b"), Some(&b"two"[..]));
    assert_eq!(query_param(b"a=1&b=two", b"c"), None);
}

#[test]
fn basic_auth_base64() {
    // "alice:secret"
    let d = base64_decode(b"YWxpY2U6c2VjcmV0").unwrap();
    assert_eq!(String::from_utf8(d).unwrap(), "alice:secret");
    assert!(base64_decode(b"not base64!").is_none());
}

#[test]
fn base64_handles_padding() {
    assert_eq!(base64_decode(b"YQ==").unwrap(), b"a");
    assert_eq!(base64_decode(b"YWI=").unwrap(), b"ab");
    assert_eq!(base64_decode(b"YWJj").unwrap(), b"abc");
}

// ---------------------------------------------------------------- FastCGI output

#[test]
fn header_block_ends_at_crlfcrlf_or_lflf() {
    let a = b"Content-Type: text/html\r\n\r\nbody";
    let (h, b) = find_header_end(a).unwrap();
    assert_eq!(&a[..h], b"Content-Type: text/html\r");
    assert_eq!(&a[b..], b"body");

    let c = b"Content-Type: text/html\n\nbody";
    let (h, b2) = find_header_end(c).unwrap();
    assert_eq!(&c[..h], b"Content-Type: text/html");
    assert_eq!(&c[b2..], b"body");
}

#[test]
fn headers_without_a_body_are_accepted() {
    let a = b"Status: 204 No Content\n";
    let (h, b) = find_header_end(a).unwrap();
    assert_eq!(b, a.len(), "no body after the header block");
    assert!(!a[..h].is_empty());
}

#[test]
fn missing_header_terminator_is_detected() {
    assert!(find_header_end(b"Content-Type: text/html").is_none());
}

#[test]
fn header_lines_split_on_the_first_colon() {
    assert_eq!(split_header(b"X-Time: 12:30:00"), Some((&b"X-Time"[..], &b"12:30:00"[..])));
    assert_eq!(
        split_header(b"Content-Type:text/html"),
        Some((&b"Content-Type"[..], &b"text/html"[..]))
    );
    assert_eq!(split_header(b"garbage"), None);
    assert_eq!(split_header(b": novalue"), None);
}

#[test]
fn lines_iterate_without_the_carriage_returns() {
    let v = split_lines(b"A: 1\r\nB: 2\r\n");
    assert_eq!(v, vec![&b"A: 1"[..], &b"B: 2"[..]]);
}

// ---------------------------------------------------------------- files

#[test]
fn range_full_and_partial() {
    assert_eq!(parse_range(b"bytes=0-99", 1000), RangeSpec::One(0, 100));
    assert_eq!(parse_range(b"bytes=100-", 1000), RangeSpec::One(100, 1000));
    assert_eq!(parse_range(b"bytes=0-", 1000), RangeSpec::One(0, 1000));
}

#[test]
fn suffix_range() {
    assert_eq!(parse_range(b"bytes=-100", 1000), RangeSpec::One(900, 1000));
    // A suffix longer than the file clamps to the whole file.
    assert_eq!(parse_range(b"bytes=-5000", 1000), RangeSpec::One(0, 1000));
}

#[test]
fn range_end_is_inclusive_and_clamped() {
    assert_eq!(parse_range(b"bytes=0-0", 1000), RangeSpec::One(0, 1));
    assert_eq!(parse_range(b"bytes=990-5000", 1000), RangeSpec::One(990, 1000));
}

#[test]
fn unsatisfiable_ranges() {
    assert_eq!(parse_range(b"bytes=1000-", 1000), RangeSpec::Unsatisfiable);
    assert_eq!(parse_range(b"bytes=2000-3000", 1000), RangeSpec::Unsatisfiable);
    assert_eq!(parse_range(b"bytes=-0", 1000), RangeSpec::Unsatisfiable);
}

#[test]
fn multi_and_malformed_ranges_fall_back_to_the_whole_entity() {
    assert_eq!(parse_range(b"bytes=0-10,20-30", 1000), RangeSpec::Whole);
    assert_eq!(parse_range(b"items=0-10", 1000), RangeSpec::Whole);
    assert_eq!(parse_range(b"bytes=abc", 1000), RangeSpec::Whole);
    assert_eq!(parse_range(b"bytes=x-y", 1000), RangeSpec::Whole);
}

#[test]
fn etag_shape_matches_nginx() {
    let t = Mtime { secs: 0x5f5e100, nanos: 0 };
    assert_eq!(make_etag(t, 255), b"\"5f5e100-ff\"");
}

#[test]
fn etag_list_matching() {
    assert!(etag_list_matches(b"\"abc\"", b"\"abc\"", false));
    assert!(etag_list_matches(b"\"x\", \"abc\"", b"\"abc\"", false));
    assert!(!etag_list_matches(b"\"x\"", b"\"abc\"", false));
    // Weak comparison ignores the W/ prefix; strong does not.
    assert!(etag_list_matches(b"W/\"abc\"", b"\"abc\"", true));
    assert!(!etag_list_matches(b"W/\"abc\"", b"\"abc\"", false));
}

#[test]
fn io_errors_map_to_sensible_statuses() {
    assert_eq!(io_status(IoFailure::NotFound), 404);
    assert_eq!(io_status(IoFailure::PermissionDenied), 403);
    assert_eq!(io_status(IoFailure::Other), 500);
}

#[test]
fn names_are_escaped_in_both_href_and_text() {
    // A file literally named `a<b>&c "d"` must not break out of either
    // the attribute or the text node.
    let mut href = Vec::new();
    encode_path(b"a<b>&c \"d\"", &mut href);
    assert!(!href.contains(&b'<'));
    assert!(!href.contains(&b'"'));

    let mut text = Vec::new();
    escape_html(b"a<b>&c \"d\"", &mut text);
    assert_eq!(text, b"a&lt;b&gt;&amp;c &quot;d&quot;");
}

#[test]
fn paths_are_encoded_byte_by_byte() {
    let mut out = Vec::new();
    encode_path("/a b/\u{e9}~x".as_bytes(), &mut out);
    assert_eq!(out, b"/a%20b/%C3%A9~x");
}

#[test]
fn dot_files_are_hidden() {
    assert!(is_hidden(b".git"));
    assert!(!is_hidden(b"git"));
}

// ---------------------------------------------------------------- peers

#[test]
fn hop_by_hop_list_is_lowercase_and_complete() {
    for h in hop_by_hop() {
        assert_eq!(h, h.to_ascii_lowercase());
    }
    assert!(hop_by_hop().contains(&"connection"));
    assert!(hop_by_hop().contains(&"transfer-encoding"));
    assert!(hop_by_hop().contains(&"upgrade"));
}

#[test]
fn peer_addresses_are_normalised() {
    assert_eq!(peer_addr(b"10.0.0.1:3306"), b"10.0.0.1:3306");
    assert_eq!(peer_addr(b"unix:/run/db.sock"), b"unix:/run/db.sock");
    assert_eq!(peer_addr(b"[::1]:5432"), b"[::1]:5432");
}

#[test]
fn http_peers_default_to_port_eighty() {
    assert_eq!(oxiserve::proxy::peer_addr(b"backend"), b"backend:80");
    assert_eq!(oxiserve::proxy::peer_addr(b"backend:81"), b"backend:81");
    assert_eq!(oxiserve::proxy::peer_addr(b"unix:/run/x"), b"unix:/run/x");
}

#[test]
fn a_datagram_buffer_cannot_truncate_a_legal_payload() {
    // 65535 is the ceiling a UDP length field can express, so a buffer of
    // that size always receives a whole datagram.
    assert_eq!(MAX_DATAGRAM, u16::MAX as usize);
}

// ---------------------------------------------------------------- counters

#[test]
fn the_stub_status_format_is_nginx_exact() {
    let body = stub_status_body(&init(None));
    let lines: Vec<&str> = body.split('\n').collect();
    // Four lines plus the trailing empty one from the final newline.
    assert_eq!(lines.len(), 5, "unexpected line count in {body:?}");
    assert!(lines[0].starts_with("Active connections: "), "{body:?}");
    assert!(lines[0].ends_with(' '), "nginx leaves a trailing space: {body:?}");
    assert_eq!(lines[1], "server accepts handled requests");
    assert!(lines[2].starts_with(' '), "the counters line is indented: {body:?}");
    assert!(lines[3].starts_with("Reading: "), "{body:?}");
    assert!(lines[3].contains(" Writing: ") && lines[3].contains(" Waiting: "), "{body:?}");
    assert_eq!(lines[4], "");
}

#[test]
fn the_stub_status_page_shows_every_counter() {
    let mut c = init(None);
    accepted(&mut c);
    accepted(&mut c);
    closed(&mut c);
    request_done(&mut c);
    let _w = StateGuard::enter(&mut c, State::Writing);
    assert_eq!(
        stub_status_body(&c),
        "Active connections: 1 \nserver accepts handled requests\n 2 2 1 \nReading: 0 Writing: 1 Waiting: 0 \n"
    );
}

#[test]
fn a_state_guard_returns_its_count_on_every_path() {
    let mut c = init(None);
    let before = c.reading;
    {
        let g = StateGuard::enter(&mut c, State::Reading);
        assert_eq!(c.reading, before + 1);
        g.leave(&mut c);
    }
    assert_eq!(c.reading, before, "leaving must release");
}

#[test]
fn switching_state_moves_the_count_rather_than_duplicating_it() {
    let mut c = init(None);
    let (r0, w0) = (c.reading, c.writing);
    let mut g = StateGuard::enter(&mut c, State::Reading);
    g.switch(&mut c, State::Writing);
    assert_eq!(c.reading, r0, "reading must be given back");
    assert_eq!(c.writing, w0 + 1);
    // Switching to the state already held is a no-op, not a double count.
    g.switch(&mut c, State::Writing);
    assert_eq!(c.writing, w0 + 1);
    g.leave(&mut c);
    assert_eq!(c.writing, w0);
}

#[test]
fn counters_work_before_init_without_panicking() {
    // `stub_status` in a config that counted nothing must report zeroes, not
    // abort a request.
    let mut c = init(None);
    assert!(stub_status_body(&c).contains("Active connections:"));
    request_done(&mut c);
}

#[test]
fn a_reload_keeps_the_counters() {
    let mut c = init(None);
    accepted(&mut c);
    request_done(&mut c);
    assert_eq!(init(Some(c)), c);
    assert_eq!((init(Some(c)).accepts, init(Some(c)).requests), (1, 1));
    assert_eq!((init(None).accepts, init(None).requests), (0, 0));
}

#[test]
fn a_connection_guard_counts_one_connection() {
    let mut c = init(None);
    let g = ConnGuard::enter(&mut c);
    assert_eq!((c.accepts, c.handled, c.active), (1, 1, 1));
    g.leave(&mut c);
    assert_eq!((c.accepts, c.handled, c.active), (1, 1, 0));
}

#[test]
fn json_strings_are_escaped() {
    assert_eq!(json_str("a\"b\\c"), "\"a\\\"b\\\\c\"");
    assert_eq!(json_str("tab\there"), "\"tab\\there\"");
}

#[test]
fn json_control_characters_are_escaped() {
    assert_eq!(json_str("\u{1}\n\r"), "\"\\u0001\\n\\r\"");
}
