use oxiserve::cache::KeyHash;
use oxiserve::cache_index::{store, tracked_count, Index, Zone};
use oxiserve::config::FastCgiConf;
use oxiserve::conn::{ChunkDecoder, Conn, ConnAction, ConnEvent, ConnLimits, ParseResult, Progress, ReadEvent};
use oxiserve::fastcgi::{BodyStep, Collected, Collector, FcgiBody};
use oxiserve::fcgi_proto::{push_record, RecordType};
use oxiserve::limit_conn;
use oxiserve::msgpack::map_header;
use oxiserve::sorting::{order_of, Key};
use oxiserve::upstream::{pooled, put, take, Pool, MAX_IDLE_MS};

fn conf(buffering: bool, buffer_budget: usize) -> FastCgiConf {
    FastCgiConf {
        keep_conn: false,
        split_path_info: None,
        index: None,
        params: Vec::new(),
        hide_headers: Vec::new(),
        buffering,
        buffer_budget,
    }
}

#[test]
fn a_chunked_body_decodes_the_same_byte_by_byte() {
    let body = b"GET\r\n5;x=y\r\nhello\r\n6\r\n world\r\n0\r\nTrailer: x\r\n\r\nNEXT";
    let mut whole = ChunkDecoder::new(5);
    assert_eq!(whole.advance(body, 100), Progress::Done);
    let mut d = ChunkDecoder::new(5);
    let mut end = 5;
    let mut last = Progress::Fill;
    while last == Progress::Fill && end < body.len() {
        end += 1;
        last = d.advance(&body[..end], 100);
    }
    assert_eq!(last, Progress::Done);
    assert_eq!(d.body, b"hello world");
    assert_eq!(d.body, whole.body);
    assert_eq!(d.pos, whole.pos);
    assert_eq!(&body[d.pos..], b"NEXT");
}

#[test]
fn a_response_comes_to_the_same_byte_by_byte() {
    let mut raw = Vec::new();
    push_record(&mut raw, RecordType::Stdout, b"Status: 200\r\n\r\n");
    push_record(&mut raw, RecordType::Stderr, b"noise");
    push_record(&mut raw, RecordType::Stdout, b"page");
    push_record(&mut raw, RecordType::EndRequest, &[0, 0, 0, 3, 0, 0, 0, 0]);

    let conf = conf(true, 1 << 16);
    let mut c = Collector::new();
    let mut got = Collected::More;
    for b in &raw {
        got = c.next(ReadEvent::Got(1), &[*b], &conf);
        if got != Collected::More {
            break;
        }
    }
    assert_eq!(got, Collected::Complete);
    assert_eq!(c.body.out, b"Status: 200\r\n\r\npage");
    assert_eq!(c.body.app_status, 3);
}

#[test]
fn a_reader_gets_the_payload_in_order_whatever_its_room() {
    let mut raw = Vec::new();
    push_record(&mut raw, RecordType::Stdout, b"abcdef");
    push_record(&mut raw, RecordType::Stdout, b"ghi");
    let mut body = FcgiBody::new();
    body.feed(&raw);
    let mut seen: Vec<u8> = Vec::new();
    loop {
        match body.poll(2) {
            BodyStep::Give(b) => {
                assert!(!b.is_empty() && b.len() <= 2);
                seen.extend_from_slice(&b);
            }
            BodyStep::Read => break,
            _ => panic!("the stream has not ended"),
        }
    }
    assert_eq!(seen, b"abcdefghi");
    body.close();
    assert!(matches!(body.poll(2), BodyStep::End));
}

#[test]
fn a_request_that_came_and_went_leaves_every_count() {
    let mut z = limit_conn::Zone::new("z", 64, 9);
    let other = z.acquire("other", 5);
    assert!(other.is_some());
    let g = z.acquire("k", 2);
    assert_eq!(z.count("k"), 1);
    assert_eq!(z.count("other"), 1);
    if let Some(g) = g {
        z.release(g);
    }
    assert_eq!(z.count("k"), 0);
    assert_eq!(z.count("other"), 1);
}

#[test]
fn storing_keeps_an_index_within_its_size() {
    let zone = Zone {
        name: "z".into(),
        root: "/tmp".into(),
        levels: vec![1, 2],
        max_entries: 20,
        max_size: 0,
        inactive: 0,
    };
    let mut index = Index::new();
    for i in 0..100u64 {
        store(&mut index, &zone, KeyHash::of(&format!("k{i}")), 10, i);
        assert!(tracked_count(&index, "z") <= 20);
    }
    // The one that was stored last is there, and the first ones went.
    assert!(index.get("z", KeyHash::of("k99")).is_some());
    assert!(index.get("z", KeyHash::of("k0")).is_none());
}

#[test]
fn the_connection_returned_last_is_taken_first() {
    let mut pool: Pool<u32> = Pool::new();
    put(&mut pool, "a:1", 1, 2, 0);
    put(&mut pool, "a:1", 2, 2, 10);
    put(&mut pool, "a:1", 3, 2, 20);
    assert_eq!(pooled(&pool, "a:1"), 2);
    assert_eq!(take(&mut pool, "a:1", 30, |_t: &u32| true), Some(3));
    assert_eq!(take(&mut pool, "a:1", 10 + MAX_IDLE_MS, |_t: &u32| true), None);
    assert_eq!(pooled(&pool, "a:1"), 0);
}

#[test]
fn map_headers_have_three_forms() {
    let mut out = Vec::new();
    map_header(&mut out, 15);
    map_header(&mut out, 16);
    map_header(&mut out, 65535);
    map_header(&mut out, 65536);
    assert_eq!(
        out,
        vec![0x8f, 0xde, 0, 16, 0xde, 0xff, 0xff, 0xdf, 0, 1, 0, 0]
    );
}

#[test]
fn a_connection_carries_no_more_requests_than_it_may() {
    let limits = ConnLimits { keepalive_requests: 3, keepalive_timeout_ms: 1000 };
    let (mut c, mut action) = Conn::new();
    let mut served = 0;
    while action != ConnAction::Close {
        let event = match action {
            ConnAction::ReadHead { .. } => ConnEvent::Head(ParseResult::Complete),
            ConnAction::Normalise => ConnEvent::Path(true),
            ConnAction::ReadBody => ConnEvent::Body(None),
            ConnAction::Handle => {
                served += 1;
                ConnEvent::Replied { reply_keeps: true, client_keeps: true }
            }
            ConnAction::Write { .. } => ConnEvent::Written(true),
            _ => panic!("nothing is refused here"),
        };
        action = c.next(event, limits);
    }
    assert_eq!(served, 3);
    assert_eq!(c.requests, 3);
}

#[test]
fn names_are_ordered_within_their_groups() {
    let key = |group: u8, name: &str| Key { group, name: name.as_bytes().to_vec() };
    let keys = vec![key(1, "b"), key(0, "z"), key(1, "a"), key(0, "z"), key(1, "ab")];
    assert_eq!(order_of(&keys), vec![1, 3, 2, 4, 0]);
}
