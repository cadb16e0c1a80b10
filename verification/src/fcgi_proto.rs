//! The FastCGI record protocol (FastCGI Specification 1.0).
//!
//! A responder exchange looks like this:
//!
//! ```text
//!   us -> app:  BEGIN_REQUEST(role=RESPONDER)
//!               PARAMS(name/value pairs...)  PARAMS(empty = end of params)
//!               STDIN(body...)               STDIN(empty = end of body)
//!   app -> us:  STDOUT(CGI headers + body...)  [STDERR(log text...)]
//!               END_REQUEST
//! ```

use vstd::prelude::*;
use vstd::string::*;

use crate::bytes;

verus! {

/// Every record starts with this fixed 8-byte header.
pub const HEADER_LEN: usize = 8;

pub const VERSION: u8 = 1;

/// Content length is a `u16`, so this is the most one record can carry.
pub const MAX_CONTENT: usize = 0xFFFF;

/// Only one request is ever opened per connection, so the id is constant.
pub const REQUEST_ID: u16 = 1;

/// The role of an application that answers requests.
pub const ROLE_RESPONDER: u16 = 1;

/// Asks the application to keep the connection open after `END_REQUEST` instead
/// of closing it.
pub const FLAG_KEEP_CONN: u8 = 1;

#[derive(Debug, Clone, Copy, PartialEq, Eq, Structural)]
pub enum RecordType {
    BeginRequest,
    AbortRequest,
    EndRequest,
    Params,
    Stdin,
    Stdout,
    Stderr,
    Data,
    GetValues,
    GetValuesResult,
    UnknownType,
}

impl RecordType {
    /// The number of a record type on the wire.
    pub open spec fn code(self) -> u8 {
        match self {
            RecordType::BeginRequest => 1,
            RecordType::AbortRequest => 2,
            RecordType::EndRequest => 3,
            RecordType::Params => 4,
            RecordType::Stdin => 5,
            RecordType::Stdout => 6,
            RecordType::Stderr => 7,
            RecordType::Data => 8,
            RecordType::GetValues => 9,
            RecordType::GetValuesResult => 10,
            RecordType::UnknownType => 11,
        }
    }

    /// The number of a record type on the wire.
    pub fn to_u8(self) -> (r: u8)
        ensures
            r == self.code(),
    {
        match self {
            RecordType::BeginRequest => 1,
            RecordType::AbortRequest => 2,
            RecordType::EndRequest => 3,
            RecordType::Params => 4,
            RecordType::Stdin => 5,
            RecordType::Stdout => 6,
            RecordType::Stderr => 7,
            RecordType::Data => 8,
            RecordType::GetValues => 9,
            RecordType::GetValuesResult => 10,
            RecordType::UnknownType => 11,
        }
    }

    /// The record type with a number, if there is one.
    pub fn from_u8(v: u8) -> (r: Option<RecordType>)
        ensures
            match r {
                Some(t) => t.code() == v,
                None => v < 1 || v > 11,
            },
    {
        if v == 1 {
            Some(RecordType::BeginRequest)
        } else if v == 2 {
            Some(RecordType::AbortRequest)
        } else if v == 3 {
            Some(RecordType::EndRequest)
        } else if v == 4 {
            Some(RecordType::Params)
        } else if v == 5 {
            Some(RecordType::Stdin)
        } else if v == 6 {
            Some(RecordType::Stdout)
        } else if v == 7 {
            Some(RecordType::Stderr)
        } else if v == 8 {
            Some(RecordType::Data)
        } else if v == 9 {
            Some(RecordType::GetValues)
        } else if v == 10 {
            Some(RecordType::GetValuesResult)
        } else if v == 11 {
            Some(RecordType::UnknownType)
        } else {
            None
        }
    }
}

// ---------------------------------------------------------------- writing

/// Bytes that bring a length to a multiple of eight.
pub open spec fn padding_for(n: int) -> int {
    (8 - n % 8) % 8
}

pub open spec fn zeros(n: int) -> Seq<u8> {
    Seq::new(n as nat, |i: int| 0u8)
}

/// A record header.
pub open spec fn header_bytes(ty: RecordType, content_len: nat, padding: u8) -> Seq<u8> {
    seq![VERSION, ty.code()] + bytes::be(REQUEST_ID as nat, 2) + bytes::be(content_len, 2) + seq![
        padding,
        0u8,
    ]
}

/// A complete record, padded to an 8-byte boundary.
pub open spec fn record_bytes(ty: RecordType, body: Seq<u8>) -> Seq<u8> {
    header_bytes(ty, body.len(), padding_for(body.len() as int) as u8) + body + zeros(
        padding_for(body.len() as int),
    )
}

fn push_header(out: &mut Vec<u8>, ty: RecordType, content_len: usize, padding: u8)
    ensures
        final(out)@ == old(out)@ + header_bytes(ty, content_len as nat, padding),
{
    out.push(VERSION);
    out.push(ty.to_u8());
    bytes::push_be(out, REQUEST_ID as u64, 2);
    bytes::push_be(out, content_len as u64, 2);
    out.push(padding);
    out.push(0);
    assert(out@ =~= old(out)@ + header_bytes(ty, content_len as nat, padding));
}

/// Appends a complete record, padding the body to an 8-byte boundary.
pub fn push_record(out: &mut Vec<u8>, ty: RecordType, body: &[u8])
    requires
        body@.len() <= MAX_CONTENT,
    ensures
        final(out)@ == old(out)@ + record_bytes(ty, body@),
{
    let padding: u8 = ((8 - body.len() % 8) % 8) as u8;
    push_header(out, ty, body.len(), padding);
    out.extend_from_slice(body);
    let ghost before = out@;
    for i in 0..padding
        invariant
            out@ == before + zeros(i as int),
    {
        out.push(0);
        assert(out@ =~= before + zeros(i + 1));
    }
    assert(out@ =~= old(out)@ + record_bytes(ty, body@));
}

/// The body of `BEGIN_REQUEST` for the responder role.
pub open spec fn begin_body(keep_conn: bool) -> Seq<u8> {
    bytes::be(ROLE_RESPONDER as nat, 2) + seq![
        if keep_conn {
            FLAG_KEEP_CONN
        } else {
            0u8
        },
    ] + zeros(5)
}

/// Appends `BEGIN_REQUEST` for the responder role.
pub fn push_begin_request(out: &mut Vec<u8>, keep_conn: bool)
    ensures
        final(out)@ == old(out)@ + record_bytes(RecordType::BeginRequest, begin_body(keep_conn)),
{
    let mut body: Vec<u8> = Vec::new();
    bytes::push_be(&mut body, ROLE_RESPONDER as u64, 2);
    body.push(if keep_conn { FLAG_KEEP_CONN } else { 0 });
    let ghost before = body@;
    for i in 0..5
        invariant
            body@ == before + zeros(i as int),
    {
        body.push(0);
        assert(body@ =~= before + zeros(i + 1));
    }
    assert(body@ =~= begin_body(keep_conn));
    proof {
        bytes::lemma_be_len(ROLE_RESPONDER as nat, 2);
    }
    push_record(out, RecordType::BeginRequest, body.as_slice());
}

/// A length: one byte below 128, else four with the top bit set.
pub open spec fn length_bytes(n: nat) -> Seq<u8> {
    if n < 128 {
        seq![n as u8]
    } else {
        bytes::be(0x8000_0000 + n % 0x8000_0000, 4)
    }
}

/// One name/value pair.
pub open spec fn pair_bytes(name: Seq<u8>, value: Seq<u8>) -> Seq<u8> {
    length_bytes(name.len()) + length_bytes(value.len()) + name + value
}

fn push_len(out: &mut Vec<u8>, n: usize)
    ensures
        final(out)@ == old(out)@ + length_bytes(n as nat),
{
    if n < 128 {
        out.push(n as u8);
        assert(out@ =~= old(out)@ + length_bytes(n as nat));
    } else {
        let low: u64 = (n as u64) % 0x8000_0000;
        bytes::push_be(out, 0x8000_0000 + low, 4);
    }
}

/// Encodes one name/value pair.
pub fn push_nv_pair(out: &mut Vec<u8>, name: &[u8], value: &[u8])
    ensures
        final(out)@ == old(out)@ + pair_bytes(name@, value@),
{
    push_len(out, name.len());
    push_len(out, value.len());
    out.extend_from_slice(name);
    out.extend_from_slice(value);
    assert(out@ =~= old(out)@ + pair_bytes(name@, value@));
}

/// A payload in as many records as it needs.
pub open spec fn chunked(ty: RecordType, s: Seq<u8>) -> Seq<u8>
    decreases s.len(),
{
    if s.len() == 0 {
        Seq::empty()
    } else if s.len() <= MAX_CONTENT {
        record_bytes(ty, s)
    } else {
        record_bytes(ty, s.subrange(0, MAX_CONTENT as int)) + chunked(
            ty,
            s.subrange(MAX_CONTENT as int, s.len() as int),
        )
    }
}

/// A payload in as many records as it needs, ended by an empty one.
pub open spec fn stream_bytes(ty: RecordType, s: Seq<u8>) -> Seq<u8> {
    chunked(ty, s) + record_bytes(ty, Seq::empty())
}

fn push_stream(out: &mut Vec<u8>, ty: RecordType, s: &[u8])
    ensures
        final(out)@ == old(out)@ + stream_bytes(ty, s@),
{
    let mut at: usize = 0;
    assert(s@.subrange(0, s@.len() as int) =~= s@);
    assert(out@ + chunked(ty, s@) =~= old(out)@ + chunked(ty, s@));
    while at < s.len()
        invariant
            at <= s.len(),
            out@ + chunked(ty, s@.subrange(at as int, s@.len() as int)) == old(out)@ + chunked(
                ty,
                s@,
            ),
        decreases s.len() - at,
    {
        let left: usize = s.len() - at;
        let n: usize = if left <= MAX_CONTENT {
            left
        } else {
            MAX_CONTENT
        };
        let ghost rest = s@.subrange(at as int, s@.len() as int);
        let ghost before = out@;
        push_record(out, ty, &s[at..at + n]);
        proof {
            let tail = s@.subrange(at + n, s@.len() as int);
            if n < left {
                assert(rest.subrange(0, MAX_CONTENT as int) =~= s@.subrange(at as int, at + n));
                assert(rest.subrange(MAX_CONTENT as int, rest.len() as int) =~= tail);
            } else {
                assert(rest =~= s@.subrange(at as int, at + n));
                assert(chunked(ty, tail) =~= Seq::empty());
            }
            assert(out@ + chunked(ty, tail) =~= before + chunked(ty, rest));
        }
        at = at + n;
    }
    let ghost before = out@;
    assert(before =~= old(out)@ + chunked(ty, s@));
    let empty: [u8; 0] = [];
    push_record(out, ty, empty.as_slice());
    proof {
        assert(empty@ =~= Seq::empty());
        assert(out@ =~= old(out)@ + stream_bytes(ty, s@));
    }
}

/// Splits an encoded name/value blob across as many `PARAMS` records as it
/// needs, then ends the stream with an empty one.
pub fn push_params(out: &mut Vec<u8>, params: &[u8])
    ensures
        final(out)@ == old(out)@ + stream_bytes(RecordType::Params, params@),
{
    push_stream(out, RecordType::Params, params);
}

/// The same for the request body on `STDIN`.
pub fn push_stdin(out: &mut Vec<u8>, body: &[u8])
    ensures
        final(out)@ == old(out)@ + stream_bytes(RecordType::Stdin, body@),
{
    push_stream(out, RecordType::Stdin, body);
}

// ---------------------------------------------------------------- reading

/// A record parsed out of the response stream.
#[derive(Debug, PartialEq, Eq)]
pub struct Record<'a> {
    pub ty: RecordType,
    pub request_id: u16,
    pub body: &'a [u8],
    /// Total bytes consumed, including header and padding.
    pub total: usize,
}

#[derive(Debug, PartialEq, Eq)]
pub enum ParseError {
    /// More bytes are needed before this record is complete.
    Incomplete,
    /// Unsupported version or an unknown record type.
    Malformed,
}

/// A record as plain values.
pub ghost struct RecordView {
    pub ty: u8,
    pub request_id: nat,
    pub body: Seq<u8>,
    pub total: int,
}

impl<'a> View for Record<'a> {
    type V = RecordView;

    open spec fn view(&self) -> RecordView {
        RecordView {
            ty: self.ty.code(),
            request_id: self.request_id as nat,
            body: self.body@,
            total: self.total as int,
        }
    }
}

/// The record at the front of some bytes.
pub open spec fn record_of(buf: Seq<u8>) -> Result<RecordView, ParseError> {
    if buf.len() < HEADER_LEN {
        Err(ParseError::Incomplete)
    } else if buf[0] != VERSION || buf[1] < 1 || buf[1] > 11 {
        Err(ParseError::Malformed)
    } else {
        let n = bytes::be_value(buf.subrange(4, 6)) as int;
        let total = 8 + n + buf[6];
        if buf.len() < total {
            Err(ParseError::Incomplete)
        } else {
            Ok(
                RecordView {
                    ty: buf[1],
                    request_id: bytes::be_value(buf.subrange(2, 4)),
                    body: buf.subrange(8, 8 + n),
                    total,
                },
            )
        }
    }
}

/// Parses one record from the front of `buf`.
pub fn parse_record(buf: &[u8]) -> (r: Result<Record<'_>, ParseError>)
    ensures
        match r {
            Ok(rec) => record_of(buf@) == Ok::<RecordView, ParseError>(rec@),
            Err(e) => record_of(buf@) == Err::<RecordView, ParseError>(e),
        },
{
    if buf.len() < HEADER_LEN {
        return Err(ParseError::Incomplete);
    }
    if buf[0] != VERSION {
        return Err(ParseError::Malformed);
    }
    let ty: RecordType = match RecordType::from_u8(buf[1]) {
        Some(t) => t,
        None => {
            return Err(ParseError::Malformed);
        },
    };
    proof {
        bytes::lemma_pow256();
    }
    let request_id: u16 = bytes::read_be(buf, 2, 2) as u16;
    let n: usize = bytes::read_be(buf, 4, 2) as usize;
    let total: usize = HEADER_LEN + n + buf[6] as usize;
    if buf.len() < total {
        return Err(ParseError::Incomplete);
    }
    Ok(Record { ty, request_id, body: &buf[HEADER_LEN..HEADER_LEN + n], total })
}

/// The application status and the protocol status inside `END_REQUEST`.
pub fn end_request_status(body: &[u8]) -> (r: Option<(u32, u8)>)
    ensures
        match r {
            Some((app, protocol)) => body@.len() >= 8 && app == bytes::be_value(
                body@.subrange(0, 4),
            ) && protocol == body@[4],
            None => body@.len() < 8,
        },
{
    if body.len() < 8 {
        return None;
    }
    proof {
        bytes::lemma_pow256();
    }
    Some((bytes::read_be(body, 0, 4) as u32, body[4]))
}

/// A byte of a header name in its CGI environment form.
pub open spec fn param_byte(b: u8) -> u8 {
    if b == 45 {
        95
    } else {
        bytes::upper(b)
    }
}

/// A header name in its CGI environment form.
pub open spec fn param_name(name: Seq<u8>) -> Seq<u8> {
    bytes::utf8("HTTP_"@) + Seq::new(name.len(), |i: int| param_byte(name[i]))
}

/// Turns a request header name into its CGI environment form:
/// `X-Forwarded-For` becomes `HTTP_X_FORWARDED_FOR`.
pub fn http_param_name(name: &str, out: &mut Vec<u8>)
    ensures
        final(out)@ == old(out)@ + param_name(bytes::utf8(name@)),
{
    push_param_name(name.as_bytes(), out);
}

/// The same for a name in bytes.
pub fn push_param_name(name: &[u8], out: &mut Vec<u8>)
    ensures
        final(out)@ == old(out)@ + param_name(name@),
{
    out.extend_from_slice("HTTP_".as_bytes());
    let ghost before = out@;
    for i in 0..name.len()
        invariant
            out@ == before + Seq::new(i as nat, |j: int| param_byte(name@[j])),
    {
        let b: u8 = name[i];
        out.push(if b == 45 { 95 } else { bytes::to_upper(b) });
        assert(out@ =~= before + Seq::new((i + 1) as nat, |j: int| param_byte(name@[j])));
    }
    assert(out@ =~= old(out)@ + param_name(name@));
}

// ---------------------------------------------------------------- laws

proof fn lemma_record_layout(ty: RecordType, body: Seq<u8>, rest: Seq<u8>)
    requires
        body.len() <= MAX_CONTENT,
    ensures
        ({
            let r = record_bytes(ty, body);
            let buf = r + rest;
            &&& r.len() == 8 + body.len() + padding_for(body.len() as int)
            &&& r.len() % 8 == 0
            &&& buf[0] == VERSION
            &&& buf[1] == ty.code()
            &&& bytes::be_value(buf.subrange(2, 4)) == REQUEST_ID
            &&& bytes::be_value(buf.subrange(4, 6)) == body.len()
            &&& buf[6] == padding_for(body.len() as int)
            &&& buf.subrange(8, 8 + body.len() as int) == body
        }),
{
    bytes::lemma_pow256();
    bytes::lemma_be_round_trip(REQUEST_ID as nat, 2);
    bytes::lemma_be_round_trip(body.len(), 2);
    let r = record_bytes(ty, body);
    let buf = r + rest;
    assert(buf.subrange(2, 4) =~= bytes::be(REQUEST_ID as nat, 2));
    assert(buf.subrange(4, 6) =~= bytes::be(body.len(), 2));
    assert(buf.subrange(8, 8 + body.len() as int) =~= body);
}

/// A written record is read back whole, and no further than its end.
pub proof fn law_records_read_back(ty: RecordType, body: Seq<u8>, rest: Seq<u8>)
    requires
        body.len() <= MAX_CONTENT,
    ensures
        record_of(record_bytes(ty, body) + rest) == Ok::<RecordView, ParseError>(
            RecordView {
                ty: ty.code(),
                request_id: REQUEST_ID as nat,
                body,
                total: record_bytes(ty, body).len() as int,
            },
        ),
{
    lemma_record_layout(ty, body, rest);
}

/// Every record is a multiple of eight bytes long.
pub proof fn law_records_are_aligned(ty: RecordType, body: Seq<u8>)
    requires
        body.len() <= MAX_CONTENT,
    ensures
        record_bytes(ty, body).len() % 8 == 0,
{
    lemma_record_layout(ty, body, Seq::empty());
}

/// Incomplete input is reported, not guessed: every strict prefix of a record
/// asks for more.
pub proof fn law_cut_records_are_incomplete(ty: RecordType, body: Seq<u8>, cut: int)
    requires
        body.len() <= MAX_CONTENT,
        0 <= cut < record_bytes(ty, body).len(),
    ensures
        record_of(record_bytes(ty, body).subrange(0, cut)) == Err::<RecordView, ParseError>(
            ParseError::Incomplete,
        ),
{
    let r = record_bytes(ty, body);
    lemma_record_layout(ty, body, Seq::empty());
    assert(r + Seq::<u8>::empty() =~= r);
    let p = r.subrange(0, cut);
    if cut >= 8 {
        assert(p.subrange(4, 6) =~= r.subrange(4, 6));
    }
}

/// The payload of a stream: the bodies of its records up to the empty one.
pub open spec fn payload_of(buf: Seq<u8>) -> Option<Seq<u8>>
    decreases buf.len(),
{
    match record_of(buf) {
        Ok(r) => if r.body.len() == 0 {
            Some(Seq::empty())
        } else if r.total <= 0 || r.total > buf.len() {
            None
        } else {
            match payload_of(buf.subrange(r.total, buf.len() as int)) {
                Some(rest) => Some(r.body + rest),
                None => None,
            }
        },
        Err(_) => None,
    }
}

/// A stream is its first record and the stream of what is left.
pub(crate) proof fn lemma_first_record(ty: RecordType, s: Seq<u8>, n: int)
    requires
        s.len() > 0,
        n == if s.len() <= MAX_CONTENT {
            s.len() as int
        } else {
            MAX_CONTENT as int
        },
    ensures
        stream_bytes(ty, s) == record_bytes(ty, s.subrange(0, n)) + stream_bytes(
            ty,
            s.subrange(n, s.len() as int),
        ),
{
    let first = record_bytes(ty, s.subrange(0, n));
    let rest = s.subrange(n, s.len() as int);
    let end = record_bytes(ty, Seq::empty());
    if s.len() <= MAX_CONTENT {
        assert(s.subrange(0, n) =~= s);
        assert(chunked(ty, rest) =~= Seq::empty());
        assert(chunked(ty, s) == first);
        assert(stream_bytes(ty, rest) =~= end);
    } else {
        assert(chunked(ty, s) == first + chunked(ty, rest));
        assert((first + chunked(ty, rest)) + end =~= first + (chunked(ty, rest) + end));
    }
}

/// No payload byte is lost, whatever the size: a stream reads back as what was
/// written into it, whatever follows it.
#[verifier::spinoff_prover]
#[verifier::rlimit(60)]
pub proof fn law_streams_read_back(ty: RecordType, s: Seq<u8>, more: Seq<u8>)
    ensures
        payload_of(stream_bytes(ty, s) + more) == Some(s),
    decreases s.len(),
{
    let all = stream_bytes(ty, s) + more;
    let end = record_bytes(ty, Seq::empty());
    if s.len() == 0 {
        assert(all =~= end + more);
        law_records_read_back(ty, Seq::empty(), more);
        assert(s =~= Seq::empty());
    } else {
        let n = if s.len() <= MAX_CONTENT {
            s.len() as int
        } else {
            MAX_CONTENT as int
        };
        let first = s.subrange(0, n);
        let rest = s.subrange(n, s.len() as int);
        let r = record_bytes(ty, first);
        let tail = stream_bytes(ty, rest) + more;
        lemma_first_record(ty, s, n);
        assert(all =~= r + tail);
        law_records_read_back(ty, first, tail);
        lemma_record_layout(ty, first, tail);
        assert(all.subrange(r.len() as int, all.len() as int) =~= tail);
        law_streams_read_back(ty, rest, more);
        assert(first + rest =~= s);
    }
}

/// A length read back, with the place behind it.
pub open spec fn length_of(s: Seq<u8>, at: int) -> Option<(int, int)> {
    if at < 0 || at >= s.len() {
        None
    } else if s[at] < 128 {
        Some((s[at] as int, at + 1))
    } else if at + 4 > s.len() {
        None
    } else {
        Some((bytes::be_value(s.subrange(at, at + 4)) - 0x8000_0000, at + 4))
    }
}

/// The name/value pair at the front of some bytes.
pub open spec fn pair_of(s: Seq<u8>) -> Option<(Seq<u8>, Seq<u8>)> {
    match length_of(s, 0) {
        Some((n, a)) => match length_of(s, a) {
            Some((v, b)) => if b + n + v <= s.len() && n >= 0 && v >= 0 {
                Some((s.subrange(b, b + n), s.subrange(b + n, b + n + v)))
            } else {
                None
            },
            None => None,
        },
        None => None,
    }
}

proof fn lemma_length_reads_back(before: Seq<u8>, n: nat, rest: Seq<u8>)
    requires
        n < 0x8000_0000,
    ensures
        length_of(before + length_bytes(n) + rest, before.len() as int) == Some(
            (n as int, (before + length_bytes(n)).len() as int),
        ),
{
    let s = before + length_bytes(n) + rest;
    let at = before.len() as int;
    if n < 128 {
        assert(s[at] == n as u8);
    } else {
        let v: nat = 0x8000_0000 + n;
        assert(n % 0x8000_0000 == n);
        bytes::lemma_pow256();
        bytes::lemma_be_round_trip(v, 4);
        let b = bytes::be(v, 4);
        assert(s.subrange(at, at + 4) =~= b);
        assert(s[at] == b[0]);
        assert(b[0] >= 128) by {
            assert(b.drop_last().drop_last().drop_last() =~= seq![b[0]]);
            let c3 = b.drop_last();
            let c2 = c3.drop_last();
            let c1 = c2.drop_last();
            assert(bytes::be_value(b) == bytes::be_value(c3) * 256 + b[3]);
            assert(bytes::be_value(c3) == bytes::be_value(c2) * 256 + c3[2]);
            assert(bytes::be_value(c2) == bytes::be_value(c1) * 256 + c2[1]);
            assert(c1.drop_last() =~= Seq::<u8>::empty());
            assert(bytes::be_value(c1) == c1[0]) by {
                assert(bytes::be_value(Seq::<u8>::empty()) == 0);
            }
        }
    }
}

/// A written pair is read back, name and value, at any length below 2^31.
pub proof fn law_pairs_read_back(name: Seq<u8>, value: Seq<u8>, rest: Seq<u8>)
    requires
        name.len() < 0x8000_0000,
        value.len() < 0x8000_0000,
    ensures
        pair_of(pair_bytes(name, value) + rest) == Some((name, value)),
{
    let a = length_bytes(name.len());
    let b = length_bytes(value.len());
    let s = pair_bytes(name, value) + rest;
    let empty = Seq::<u8>::empty();
    lemma_length_reads_back(empty, name.len(), b + name + value + rest);
    assert(s =~= empty + a + (b + name + value + rest));
    lemma_length_reads_back(a, value.len(), name + value + rest);
    assert(s =~= a + b + (name + value + rest));
    assert(empty + a =~= a);
    let at = (a + b).len() as int;
    assert(s.subrange(at, at + name.len()) =~= name);
    assert(s.subrange(at + name.len(), at + name.len() + value.len()) =~= value);
}

} // verus!
