use oxiserve::bytes;
use oxiserve::conn::{
    bare_error, body_failure, encode_record, find_crlf, forwarded, head_read, head_step,
    next_read, next_sendfile, note_written, parse_hex, plan_body, plan_write, stream_chunk,
    take_buffered, BodyPlan, ChunkDecoder, Conn, ConnAction, ConnEvent, ConnLimits, ConnState,
    HeadError, HeadStep, LogField, ParseResult, Progress, ReadEvent, ReqBody, Sent, Streaming,
    WritePlan, READ_BUF_INIT,
};
use oxiserve::http::{Framing, Resp};
use oxiserve::reply::{Body, Reply};

type AnyBody = Body<Vec<u8>, u32, u32>;

#[test]
fn conn_state_starts_with_room_for_a_typical_head() {
    let s = ConnState::default();
    assert!(s.read.capacity() >= READ_BUF_INIT);
    assert!(s.write.capacity() >= READ_BUF_INIT);
}

#[test]
fn lengths_are_reported_per_variant() {
    assert_eq!(AnyBody::Empty.known_len(), Some(0));
    assert_eq!(AnyBody::Bytes(vec![1, 2, 3]).known_len(), Some(3));
    assert_eq!(AnyBody::File { file: 0, offset: 0, len: 99 }.known_len(), Some(99));
}

#[test]
fn framing_follows_the_body() {
    let r = Reply::new(Resp::new(200), AnyBody::Bytes(vec![0; 10])).frame(true);
    assert_eq!(r.resp.framing, Framing::Length(10));
}

#[test]
fn bodyless_statuses_drop_the_body_and_the_length() {
    let r = Reply::new(Resp::new(304), AnyBody::Bytes(vec![0; 10])).frame(true);
    assert_eq!(r.resp.framing, Framing::Absent);
    assert!(r.body.is_empty());

    let r = Reply::new(Resp::new(204), AnyBody::Bytes(vec![0; 10])).frame(true);
    assert_eq!(r.resp.framing, Framing::Absent);
}

#[test]
fn headers_are_found_whatever_their_case() {
    let mut r = Resp::new(200);
    r.header("X-A", b"1");
    r.header("x-a", b"2");
    assert!(r.has("X-a"));
    assert_eq!(r.get("x-A"), Some(&b"1"[..]));
    r.set("X-A", b"3");
    assert_eq!(r.headers.len(), 2);
    assert_eq!(r.get("x-a"), Some(&b"3"[..]));
    assert_eq!(r.get("missing"), None);
}

// ---------------------------------------------------------------- request bodies

#[test]
fn line_ends_are_found() {
    assert_eq!(find_crlf(b"ab\r\ncd"), Some(2));
    assert_eq!(find_crlf(b"a\rb\r\n"), Some(3));
    assert_eq!(find_crlf(b"\n\r"), None);
    assert_eq!(find_crlf(b""), None);
}

#[test]
fn chunk_sizes_are_hexadecimal() {
    assert_eq!(parse_hex(b"1aF"), Some(0x1af));
    assert_eq!(parse_hex(b""), None);
    assert_eq!(parse_hex(b"g"), None);
    assert_eq!(parse_hex(b"ffffffffffffffff"), Some(u64::MAX));
    assert_eq!(parse_hex(b"10000000000000000"), None);
}

fn decode(wire: &[u8], step: usize, max: u64) -> (Progress, usize, Vec<u8>) {
    let mut d = ChunkDecoder::new(0);
    let mut end = 0;
    loop {
        end = (end + step).min(wire.len());
        match d.advance(&wire[..end], max) {
            Progress::Fill if end < wire.len() => {}
            p => return (p, d.pos, d.body),
        }
    }
}

#[test]
fn chunked_bodies_decode_however_they_arrive() {
    let wire = b"4\r\nWiki\r\n5;ext=1\r\npedia\r\n0\r\nTrailer: x\r\n\r\n";
    for step in 1..=wire.len() {
        let (p, pos, body) = decode(wire, step, 1000);
        assert_eq!(p, Progress::Done, "step {step}");
        assert_eq!(pos, wire.len(), "step {step}");
        assert_eq!(body, b"Wikipedia", "step {step}");
    }
}

#[test]
fn a_decoder_stops_at_the_next_request() {
    let wire = b"HEAD1\r\nx\r\n0\r\n\r\nGET /";
    let mut d = ChunkDecoder::new(4);
    assert_eq!(d.advance(wire, 10), Progress::Done);
    assert_eq!(d.body, b"x");
    assert_eq!(&wire[d.pos..], b"GET /");
}

#[test]
fn chunked_bodies_are_limited_and_checked() {
    assert_eq!(decode(b"5\r\nhello\r\n0\r\n\r\n", 100, 4).0, Progress::Fail(413));
    assert_eq!(decode(b"5\r\nhello\r\n0\r\n\r\n", 100, 5).0, Progress::Done);
    assert_eq!(decode(b"zz\r\nhello", 100, 100).0, Progress::Fail(400));
    assert_eq!(decode(b"2\r\nabXY\r\n", 100, 100).0, Progress::Fail(400));
    assert_eq!(decode(b"2\r\nab", 100, 100).0, Progress::Fill);
    assert_eq!(decode(&[b'0'; 2000], 2000, 100).0, Progress::Fail(400), "an absurd size line");
}

#[test]
fn bodies_are_planned_before_they_are_read() {
    assert_eq!(plan_body(ReqBody::NoBody, 10, false), BodyPlan::Nothing);
    assert_eq!(plan_body(ReqBody::Length(11), 10, true), BodyPlan::Refuse(413));
    assert_eq!(
        plan_body(ReqBody::Length(10), 10, false),
        BodyPlan::Exact { len: 10, send_continue: false }
    );
    assert_eq!(plan_body(ReqBody::Chunked, 10, true), BodyPlan::Chunked { send_continue: true });
}

#[test]
fn buffered_body_bytes_are_taken_first() {
    let mut st = ConnState::default();
    st.read.extend_from_slice(b"HEADbodyNEXT");
    assert_eq!(take_buffered(&mut st, 4, 4), 8);
    assert_eq!(st.body, b"body");
    st.consumed = 8;
    st.drop_consumed();
    assert_eq!(st.read, b"NEXT");
}

#[test]
fn a_broken_read_fails_the_body() {
    assert_eq!(body_failure(ReadEvent::Got(5)), None);
    assert_eq!(body_failure(ReadEvent::Got(0)), Some(400));
    assert_eq!(body_failure(ReadEvent::Failed), Some(400));
    assert_eq!(body_failure(ReadEvent::TimedOut), Some(408));
}

// ---------------------------------------------------------------- heads

#[test]
fn heads_grow_until_they_parse() {
    assert_eq!(head_step(0, ParseResult::Complete, 100), HeadStep::Read);
    assert_eq!(head_step(10, ParseResult::Partial, 100), HeadStep::Read);
    assert_eq!(head_step(101, ParseResult::Partial, 100), HeadStep::Failed(HeadError::TooLarge));
    assert_eq!(
        head_step(50, ParseResult::Complete, 100),
        HeadStep::Parsed(ParseResult::Complete)
    );
    assert_eq!(head_read(0, ReadEvent::Got(0)), Some(HeadError::Eof));
    assert_eq!(head_read(3, ReadEvent::Got(0)), Some(HeadError::Io));
    assert_eq!(head_read(3, ReadEvent::TimedOut), Some(HeadError::Timeout));
    assert_eq!(head_read(0, ReadEvent::Got(1)), None);
}

// ---------------------------------------------------------------- the connection

fn limits(keepalive_requests: u64) -> ConnLimits {
    ConnLimits { keepalive_requests, keepalive_timeout_ms: 75_000 }
}

/// Takes one request as far as the question whether to keep the connection.
fn one_request(c: &mut Conn, l: ConnLimits, refused: Option<u16>) -> ConnAction {
    assert_eq!(c.next(ConnEvent::Head(ParseResult::Complete), l), ConnAction::Normalise);
    assert_eq!(c.next(ConnEvent::Path(true), l), ConnAction::ReadBody);
    let expected = match refused {
        Some(code) => ConnAction::Refuse(code),
        None => ConnAction::Handle,
    };
    assert_eq!(c.next(ConnEvent::Body(refused), l), expected);
    c.next(ConnEvent::Replied { reply_keeps: true, client_keeps: true }, l)
}

#[test]
fn a_connection_serves_until_its_limit() {
    let (mut c, first) = Conn::new();
    assert_eq!(first, ConnAction::ReadHead { first: true });
    let l = limits(2);
    assert_eq!(one_request(&mut c, l, None), ConnAction::Write { keep: true });
    assert_eq!(c.next(ConnEvent::Written(true), l), ConnAction::ReadHead { first: false });
    assert_eq!(one_request(&mut c, l, None), ConnAction::Write { keep: false });
    assert_eq!(c.next(ConnEvent::Written(true), l), ConnAction::Close);
    assert_eq!(c.next(ConnEvent::Head(ParseResult::Complete), l), ConnAction::Close);
}

#[test]
fn a_refused_body_closes_the_connection() {
    let (mut c, _) = Conn::new();
    assert_eq!(one_request(&mut c, limits(100), Some(413)), ConnAction::Write { keep: false });
}

#[test]
fn broken_requests_get_a_bare_error() {
    let l = limits(100);
    let (mut c, _) = Conn::new();
    assert_eq!(c.next(ConnEvent::Head(ParseResult::Error(400)), l), ConnAction::BareError(400));
    let (mut c, _) = Conn::new();
    assert_eq!(c.next(ConnEvent::HeadFailed(HeadError::TooLarge), l), ConnAction::BareError(431));
    let (mut c, _) = Conn::new();
    assert_eq!(c.next(ConnEvent::HeadFailed(HeadError::Timeout), l), ConnAction::BareError(408));
    let (mut c, _) = Conn::new();
    assert_eq!(c.next(ConnEvent::HeadFailed(HeadError::Eof), l), ConnAction::Close);
    let (mut c, _) = Conn::new();
    c.next(ConnEvent::Head(ParseResult::Complete), l);
    assert_eq!(c.next(ConnEvent::Path(false), l), ConnAction::BareError(400));
}

#[test]
fn an_idle_keep_alive_just_closes() {
    let l = limits(100);
    let (mut c, _) = Conn::new();
    one_request(&mut c, l, None);
    c.next(ConnEvent::Written(true), l);
    assert_eq!(c.next(ConnEvent::HeadFailed(HeadError::Timeout), l), ConnAction::Close);
}

// ---------------------------------------------------------------- writing

#[test]
fn small_bodies_ride_with_the_head() {
    assert_eq!(plan_write(&AnyBody::Bytes(vec![0; 10]), false), WritePlan::Together);
    assert_eq!(plan_write(&AnyBody::Bytes(vec![0; 16384]), false), WritePlan::Together);
    assert_eq!(plan_write(&AnyBody::Bytes(vec![0; 16385]), false), WritePlan::Vectored);
    assert_eq!(plan_write(&AnyBody::Bytes(vec![0; 10]), true), WritePlan::HeadOnly);
    assert_eq!(
        plan_write(&AnyBody::File { file: 0, offset: 3, len: 9 }, false),
        WritePlan::StreamFile { offset: 3, len: 9 }
    );
}

#[test]
fn vectored_writes_are_counted() {
    let s = note_written(Sent { head: 0, body: 0 }, 10, 20, 15);
    assert_eq!(s, Sent { head: 10, body: 5 });
    let s = note_written(s, 10, 20, 15);
    assert_eq!(s, Sent { head: 10, body: 20 });
}

#[test]
fn files_are_read_in_chunks() {
    assert_eq!(stream_chunk(65536, 10), 10);
    assert_eq!(stream_chunk(1, 1 << 30), 16384);
    assert_eq!(stream_chunk(1 << 30, 1 << 30), 524288);
    assert_eq!(next_read(8192, 20000, 16384, 2), (3616, false));
    assert_eq!(next_read(8192, 20000, 0, 3), (8192, true), "many transfers leave the worker");
    assert_eq!(next_sendfile(100, 30), 70);
    assert_eq!(next_sendfile(u64::MAX, 0), 1 << 30);
}

#[test]
fn streams_are_counted_while_they_run() {
    let mut s = Streaming { active: 0 };
    s.enter();
    s.enter();
    s.leave();
    assert_eq!(s.active, 1);
}

#[test]
fn a_promised_length_is_not_exceeded() {
    assert_eq!(forwarded(Some(10), 8, 5), 2);
    assert_eq!(forwarded(Some(10), 10, 5), 0);
    assert_eq!(forwarded(None, 10, 5), 5);
}

#[test]
fn a_bare_error_has_a_page_and_closes() {
    let p = bare_error(400, b"<h1>bad</h1>".to_vec());
    assert_eq!(p.resp.status, 400);
    assert_eq!(p.body, Some(b"<h1>bad</h1>".to_vec()));
    assert!(!p.resp.keep_alive);
    assert_eq!(p.resp.framing, Framing::Length(12));
}

#[test]
fn a_log_record_is_one_map() {
    let fs = vec![
        LogField { name: "status".into(), value: "404".into(), decimal: None },
        LogField { name: "uri".into(), value: "/x".into(), decimal: None },
    ];
    let mut out = Vec::new();
    encode_record(&mut out, &fs, None);
    assert_eq!(out[0], 0x82);
    assert_eq!(&out[1..8], b"\xa6status");
    assert_eq!(&out[8..11], &[0xcd, 0x01, 0x94]);
    let mut with_db = Vec::new();
    encode_record(&mut with_db, &fs, Some("logs"));
    assert_eq!(with_db[0], 0x83);
}

// ---------------------------------------------------------------- bytes

#[test]
fn text_is_checked_before_it_is_used() {
    assert_eq!(bytes::to_lowered(b"AbC"), b"abc");
    assert_eq!(bytes::parse_unsigned(b"65535", 65535), Some(65535));
    assert_eq!(bytes::parse_unsigned(b"65536", 65535), None);
}
