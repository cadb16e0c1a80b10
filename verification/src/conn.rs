//! The per-connection state machine.
//!
//! One connection is handled start to finish with a read buffer and a write
//! buffer that are reused across every keep-alive request. What moves bytes
//! stays outside; here is what decides: where a head ends, how a body is decoded,
//! when the connection survives, and what is sent next.

use vstd::prelude::*;
use vstd::string::*;

use crate::bytes;
use crate::handler::Page;
use crate::handler::PageView;
use crate::http;
use crate::http::Framing;
use crate::http::Resp;
use crate::http::RespView;
use crate::msgpack;
use crate::reply::Body;

verus! {

/// Starting size of a connection's read buffer. It grows when a request head
/// needs it.
pub const READ_BUF_INIT: usize = 8192;

/// The buffers of one connection.
#[derive(Debug)]
pub struct ConnState {
    pub read: Vec<u8>,
    pub write: Vec<u8>,
    /// The decoded request body. Chunked encoding is resolved here, so handlers
    /// only ever see plain bytes.
    pub body: Vec<u8>,
    /// Bytes of `read` belonging to the current request (head + body). They are
    /// dropped once the response is written.
    pub consumed: usize,
}

impl Default for ConnState {
    /// Empty buffers, with room for a typical head.
    fn default() -> (r: ConnState)
        ensures
            r.read@ == Seq::<u8>::empty(),
            r.write@ == Seq::<u8>::empty(),
            r.body@ == Seq::<u8>::empty(),
            r.consumed == 0,
    {
        ConnState {
            read: Vec::with_capacity(READ_BUF_INIT),
            write: Vec::with_capacity(READ_BUF_INIT),
            body: Vec::new(),
            consumed: 0,
        }
    }
}

impl ConnState {
    /// Drops the bytes of the request that was answered, and keeps whatever a
    /// pipelined next request already sent.
    pub fn drop_consumed(&mut self)
        ensures
            final(self).read@ == if old(self).consumed >= old(self).read@.len() {
                Seq::<u8>::empty()
            } else {
                old(self).read@.subrange(old(self).consumed as int, old(self).read@.len() as int)
            },
            final(self).write == old(self).write,
            final(self).body == old(self).body,
            final(self).consumed == old(self).consumed,
    {
        if self.consumed >= self.read.len() {
            self.read.clear();
        } else {
            let rest: Vec<u8> = bytes::copy(&self.read.as_slice()[self.consumed..self.read.len()]);
            self.read = rest;
        }
    }
}

// ---------------------------------------------------------------- lines

/// `memchr::memchr`: the index of the first occurrence of a byte, or `None` when
/// it does not occur.
#[verifier::external_body]
pub(crate) fn memchr(needle: u8, haystack: &[u8]) -> (r: Option<usize>)
    ensures
        match r {
            Some(i) => i < haystack@.len() && haystack@[i as int] == needle && forall|j: int|
                0 <= j < i ==> haystack@[j] != needle,
            None => forall|j: int| 0 <= j < haystack@.len() ==> haystack@[j] != needle,
        },
{
    memchr::memchr(needle, haystack)
}

/// A line break.
pub open spec fn crlf() -> Seq<u8> {
    seq![13u8, 10u8]
}

/// The place of the first line break at or after `from`, or -1.
pub open spec fn line_end(s: Seq<u8>, from: int) -> int
    decreases s.len() - from,
{
    if from < 0 || from + 1 >= s.len() {
        -1
    } else if s[from] == 13 && s[from + 1] == 10 {
        from
    } else {
        line_end(s, from + 1)
    }
}

proof fn lemma_line_end_skip(s: Seq<u8>, from: int, to: int)
    requires
        0 <= from <= to,
        forall|j: int| from <= j < to && j + 1 < s.len() ==> !(#[trigger] s[j] == 13 && s[j + 1] == 10),
    ensures
        line_end(s, from) == line_end(s, to) || (to + 1 > s.len() && line_end(s, from) == -1),
    decreases to - from,
{
    if from < to && from + 1 < s.len() {
        assert(!(s[from] == 13 && s[from + 1] == 10));
        lemma_line_end_skip(s, from + 1, to);
    }
}

pub proof fn lemma_line_end(s: Seq<u8>, from: int)
    requires
        0 <= from,
    ensures
        line_end(s, from) == -1 || (from <= line_end(s, from) && line_end(s, from) + 1 < s.len()
            && s[line_end(s, from)] == 13 && s[line_end(s, from) + 1] == 10),
    decreases s.len() - from,
{
    if from + 1 < s.len() && !(s[from] == 13 && s[from + 1] == 10) {
        lemma_line_end(s, from + 1);
    }
}

/// Finds the first line break.
pub fn find_crlf(b: &[u8]) -> (r: Option<usize>)
    ensures
        match r {
            Some(i) => line_end(b@, 0) == i && i + 1 < b@.len(),
            None => line_end(b@, 0) == -1,
        },
{
    let mut i: usize = 0;
    while i < b.len()
        invariant
            i <= b.len(),
            line_end(b@, 0) == line_end(b@, i as int),
        decreases b.len() - i,
    {
        let rest: &[u8] = &b[i..b.len()];
        match memchr(13, rest) {
            Some(off) => {
                let p: usize = i + off;
                proof {
                    assert forall|j: int|
                        i <= j < p && j + 1 < b@.len() implies !(#[trigger] b@[j] == 13 && b@[j + 1]
                        == 10) by {
                        assert(rest@[j - i] == b@[j]);
                    }
                    lemma_line_end_skip(b@, i as int, p as int);
                    assert(rest@[off as int] == b@[p as int]);
                }
                if p + 1 < b.len() {
                    if b[p + 1] == 10 {
                        return Some(p);
                    }
                    i = p + 1;
                } else {
                    return None;
                }
            },
            None => {
                proof {
                    assert forall|j: int|
                        i <= j < b@.len() && j + 1 < b@.len() implies !(#[trigger] b@[j] == 13 && b@[
                        j + 1] == 10) by {
                        assert(rest@[j - i] == b@[j]);
                    }
                    lemma_line_end_skip(b@, i as int, b@.len() as int);
                }
                return None;
            },
        }
    }
    None
}

// ---------------------------------------------------------------- chunk sizes

/// The value of a hexadecimal digit.
pub open spec fn hex_value(c: u8) -> Option<int> {
    if 48 <= c <= 57 {
        Some(c - 48)
    } else if 97 <= c <= 102 {
        Some(c - 87)
    } else if 65 <= c <= 70 {
        Some(c - 55)
    } else {
        None
    }
}

/// The number some hexadecimal digits spell; blanks among them do not count.
pub open spec fn hex_number(s: Seq<u8>) -> Option<int>
    decreases s.len(),
{
    if s.len() == 0 {
        Some(0)
    } else {
        match hex_number(s.drop_last()) {
            Some(n) => if bytes::is_blank(s.last()) {
                Some(n)
            } else {
                match hex_value(s.last()) {
                    Some(d) => Some(n * 16 + d),
                    None => None,
                }
            },
            None => None,
        }
    }
}

/// The size on a chunk-size line: one to sixteen characters.
pub open spec fn chunk_size(s: Seq<u8>) -> Option<int> {
    if s.len() == 0 || s.len() > 16 {
        None
    } else {
        hex_number(s)
    }
}

spec fn pow16(n: int) -> int
    decreases n,
{
    if n <= 0 {
        1
    } else {
        16 * pow16(n - 1)
    }
}

proof fn lemma_hex_bound(s: Seq<u8>)
    requires
        hex_number(s) is Some,
    ensures
        0 <= hex_number(s)->0 < pow16(s.len() as int),
    decreases s.len(),
{
    if s.len() > 0 {
        lemma_hex_bound(s.drop_last());
    }
}

proof fn lemma_hex_number_none(s: Seq<u8>, i: int)
    requires
        0 <= i < s.len(),
        !bytes::is_blank(s[i]),
        hex_value(s[i]) is None,
    ensures
        hex_number(s) is None,
    decreases s.len(),
{
    if i < s.len() - 1 {
        lemma_hex_number_none(s.drop_last(), i);
    }
}

/// Reads a chunk size.
pub fn parse_hex(b: &[u8]) -> (r: Option<u64>)
    ensures
        match r {
            Some(n) => chunk_size(b@) == Some(n as int),
            None => chunk_size(b@) is None,
        },
{
    if b.len() == 0 || b.len() > 16 {
        return None;
    }
    let mut n: u64 = 0;
    for i in 0..b.len()
        invariant
            0 < b@.len() <= 16,
            hex_number(b@.subrange(0, i as int)) == Some(n as int),
    {
        let c: u8 = b[i];
        let ghost p = b@.subrange(0, i as int);
        let ghost q = b@.subrange(0, i + 1);
        proof {
            assert(q.drop_last() =~= p);
            lemma_hex_bound(p);
            assert(n < 0x1000_0000_0000_0000) by {
                reveal_with_fuel(pow16, 17);
            }
        }
        if c >= 48 && c <= 57 {
            n = n * 16 + (c - 48) as u64;
        } else if c >= 97 && c <= 102 {
            n = n * 16 + (c - 87) as u64;
        } else if c >= 65 && c <= 70 {
            n = n * 16 + (c - 55) as u64;
        } else if c != 32 && c != 9 {
            proof {
                lemma_hex_number_none(b@, i as int);
            }
            return None;
        }
    }
    assert(b@.subrange(0, b@.len() as int) =~= b@);
    Some(n)
}

// ---------------------------------------------------------------- chunked bodies

/// Where the decoder of a chunked body is.
#[derive(Debug, Clone, Copy, PartialEq, Eq, Structural)]
pub enum Phase {
    /// At a chunk-size line.
    Size,
    /// In the data of a chunk of this size.
    Data(u64),
    /// In the trailers behind the last chunk.
    Trailers,
}

/// What the decoder wants next.
#[derive(Debug, Clone, Copy, PartialEq, Eq, Structural)]
pub enum Progress {
    /// More bytes in the read buffer.
    Fill,
    /// The body is complete.
    Done,
    /// Answer with this status: 400 for a malformed body, 413 for one too large.
    Fail(u16),
}

/// A longer chunk-size line is absurd.
pub const MAX_SIZE_LINE: usize = 1024;

/// The decoder of a chunked body.
#[verifier::ext_equal]
pub ghost struct DecoderView {
    pub pos: int,
    pub body: Seq<u8>,
    pub phase: Phase,
}

/// The size part of a chunk-size line: an extension behind `;` is ignored.
pub open spec fn size_part(line: Seq<u8>) -> Seq<u8> {
    line.subrange(0, bytes::find(line, 59, 0))
}

/// One step of the decoder over what has been read: where it gets, and what it
/// wants, or `None` to go on.
pub open spec fn step(read: Seq<u8>, d: DecoderView, max: int) -> (DecoderView, Option<Progress>) {
    let e = line_end(read, d.pos);
    match d.phase {
        Phase::Size => if e < 0 {
            if read.len() - d.pos > MAX_SIZE_LINE {
                (d, Some(Progress::Fail(400)))
            } else {
                (d, Some(Progress::Fill))
            }
        } else {
            match chunk_size(size_part(read.subrange(d.pos, e))) {
                None => (d, Some(Progress::Fail(400))),
                Some(n) => {
                    let at = DecoderView { pos: e + 2, ..d };
                    if n == 0 {
                        (DecoderView { phase: Phase::Trailers, ..at }, None)
                    } else if d.body.len() + n > max {
                        (at, Some(Progress::Fail(413)))
                    } else {
                        (DecoderView { phase: Phase::Data(n as u64), ..at }, None)
                    }
                },
            }
        },
        Phase::Data(n) => if read.len() - d.pos < n + 2 {
            (d, Some(Progress::Fill))
        } else {
            let body = d.body + read.subrange(d.pos, d.pos + n);
            if read.subrange(d.pos + n, d.pos + n + 2) != crlf() {
                (DecoderView { pos: d.pos + n, body, phase: d.phase }, Some(Progress::Fail(400)))
            } else {
                (DecoderView { pos: d.pos + n + 2, body, phase: Phase::Size }, None)
            }
        },
        Phase::Trailers => if e < 0 {
            (d, Some(Progress::Fill))
        } else if e == d.pos {
            (DecoderView { pos: e + 2, ..d }, Some(Progress::Done))
        } else {
            (DecoderView { pos: e + 2, ..d }, None)
        },
    }
}

/// Decodes as far as what has been read goes.
pub open spec fn decoded(read: Seq<u8>, d: DecoderView, max: int) -> (DecoderView, Progress)
    decreases read.len() - d.pos,
{
    let (next, wants) = step(read, d, max);
    match wants {
        Some(p) => (next, p),
        None => if next.pos <= d.pos || next.pos > read.len() {
            (next, Progress::Fill)
        } else {
            decoded(read, next, max)
        },
    }
}

proof fn lemma_step_moves(read: Seq<u8>, d: DecoderView, max: int)
    requires
        0 <= d.pos <= read.len(),
    ensures
        step(read, d, max).1 is None ==> d.pos < step(read, d, max).0.pos <= read.len(),
        d.pos <= step(read, d, max).0.pos <= read.len(),
{
    lemma_line_end(read, d.pos);
}

/// The decoder of a chunked request body.
#[derive(Debug)]
pub struct ChunkDecoder {
    /// How much of the read buffer has been decoded.
    pub pos: usize,
    pub body: Vec<u8>,
    pub phase: Phase,
}

impl View for ChunkDecoder {
    type V = DecoderView;

    open spec fn view(&self) -> DecoderView {
        DecoderView { pos: self.pos as int, body: self.body@, phase: self.phase }
    }
}

impl ChunkDecoder {
    /// A decoder at the end of a request head.
    pub fn new(head_len: usize) -> (r: ChunkDecoder)
        ensures
            r@ == (DecoderView {
                pos: head_len as int,
                body: Seq::empty(),
                phase: Phase::Size,
            }),
    {
        ChunkDecoder { pos: head_len, body: Vec::new(), phase: Phase::Size }
    }

    /// Decodes as far as what has been read goes, and tells what is wanted next.
    pub fn advance(&mut self, read: &[u8], max: u64) -> (r: Progress)
        requires
            old(self).pos <= read@.len(),
        ensures
            (final(self)@, r) == decoded(read@, old(self)@, max as int),
            final(self).pos <= read@.len(),
    {
        loop
            invariant
                self.pos <= read.len(),
                decoded(read@, old(self)@, max as int) == decoded(read@, self@, max as int),
            decreases read.len() - self.pos,
        {
            let ghost d = self@;
            proof {
                lemma_step_moves(read@, d, max as int);
            }
            match self.advance_once(read, max) {
                Some(p) => {
                    return p;
                },
                None => {},
            }
        }
    }

    fn advance_once(&mut self, read: &[u8], max: u64) -> (r: Option<Progress>)
        requires
            old(self).pos <= read.len(),
        ensures
            (final(self)@, r) == step(read@, old(self)@, max as int),
    {
        let ghost d = self@;
        let rest: &[u8] = &read[self.pos..read.len()];
        proof {
            lemma_line_end_shift(read@, self.pos as int, 0);
            lemma_line_end(read@, self.pos as int);
        }
        match self.phase {
            Phase::Size => {
                match find_crlf(rest) {
                    None => {
                        if read.len() - self.pos > MAX_SIZE_LINE {
                            Some(Progress::Fail(400))
                        } else {
                            Some(Progress::Fill)
                        }
                    },
                    Some(i) => {
                        let line: &[u8] = &rest[0..i];
                        assert(line@ =~= read@.subrange(self.pos as int, self.pos + i));
                        let semi: usize = bytes::find_from(line, 59, 0);
                        match parse_hex(&line[0..semi]) {
                            None => Some(Progress::Fail(400)),
                            Some(n) => {
                                self.pos = self.pos + i + 2;
                                if n == 0 {
                                    self.phase = Phase::Trailers;
                                    return None;
                                }
                                let have: u64 = self.body.len() as u64;
                                if n > max || have > max - n {
                                    return Some(Progress::Fail(413));
                                }
                                self.phase = Phase::Data(n);
                                None
                            },
                        }
                    },
                }
            },
            Phase::Data(n) => {
                // The chunk data plus its trailing line break.
                let left: u64 = rest.len() as u64;
                if left < 2 || left - 2 < n {
                    return Some(Progress::Fill);
                }
                let k: usize = n as usize;
                self.body.extend_from_slice(&rest[0..k]);
                proof {
                    assert(rest@.subrange(0, k as int) =~= read@.subrange(
                        self.pos as int,
                        self.pos + k,
                    ));
                    let tail = read@.subrange(self.pos + k, self.pos + k + 2);
                    assert(tail[0] == rest@[k as int] && tail[1] == rest@[k + 1]);
                    assert(tail == crlf() <==> tail[0] == 13 && tail[1] == 10) by {
                        if tail[0] == 13 && tail[1] == 10 {
                            assert(tail =~= crlf());
                        }
                    }
                }
                self.pos = self.pos + k;
                if rest[k] != 13 || rest[k + 1] != 10 {
                    return Some(Progress::Fail(400));
                }
                self.pos = self.pos + 2;
                self.phase = Phase::Size;
                None
            },
            Phase::Trailers => {
                match find_crlf(rest) {
                    None => Some(Progress::Fill),
                    Some(i) => {
                        self.pos = self.pos + i + 2;
                        if i == 0 {
                            Some(Progress::Done)
                        } else {
                            None
                        }
                    },
                }
            },
        }
    }
}

/// Looking from a place on is looking in the rest.
proof fn lemma_line_end_shift(s: Seq<u8>, at: int, from: int)
    requires
        0 <= at <= s.len(),
        0 <= from,
    ensures
        ({
            let rest = s.subrange(at, s.len() as int);
            line_end(s, at + from) == if line_end(rest, from) < 0 {
                -1
            } else {
                at + line_end(rest, from)
            }
        }),
    decreases s.len() - at - from,
{
    let rest = s.subrange(at, s.len() as int);
    if from + 1 < rest.len() {
        assert(rest[from] == s[at + from]);
        assert(rest[from + 1] == s[at + from + 1]);
        lemma_line_end_shift(s, at, from + 1);
        lemma_line_end(rest, from);
    }
}

/// One chunk on the wire.
pub open spec fn chunk_bytes(data: Seq<u8>) -> Seq<u8> {
    bytes::hex(data.len()) + crlf() + data + crlf()
}

/// Chunks on the wire, from the `i`th on, and the end of the body.
pub open spec fn chunked_bytes(chunks: Seq<Seq<u8>>, i: int) -> Seq<u8>
    decreases chunks.len() - i,
{
    if i < 0 || i >= chunks.len() {
        seq![48u8] + crlf() + crlf()
    } else {
        chunk_bytes(chunks[i]) + chunked_bytes(chunks, i + 1)
    }
}

/// The data of the chunks from the `i`th on.
pub open spec fn joined(chunks: Seq<Seq<u8>>, i: int) -> Seq<u8>
    decreases chunks.len() - i,
{
    if i < 0 || i >= chunks.len() {
        Seq::empty()
    } else {
        chunks[i] + joined(chunks, i + 1)
    }
}

/// A size line written in lower-case hexadecimal reads back.
proof fn lemma_hex_reads_back(n: nat)
    ensures
        hex_number(bytes::hex(n)) == Some(n as int),
        bytes::hex(n).len() > 0,
        forall|i: int| 0 <= i < bytes::hex(n).len() ==> bytes::hex(n)[i] != 13 && bytes::hex(n)[i] != 59,
    decreases n,
{
    let h = bytes::hex(n);
    if n >= 16 {
        lemma_hex_reads_back(n / 16);
        assert(h.drop_last() =~= bytes::hex(n / 16));
    } else {
        assert(h.drop_last() =~= Seq::<u8>::empty());
        assert(hex_number(Seq::<u8>::empty()) == Some(0int));
    }
}

proof fn lemma_hex_len(n: nat, k: nat)
    requires
        n < pow16(k as int),
        k > 0,
    ensures
        bytes::hex(n).len() <= k,
    decreases k,
{
    if n >= 16 {
        if k == 1 {
            reveal_with_fuel(pow16, 2);
        } else {
            assert(pow16(k as int) == 16 * pow16(k - 1));
            lemma_hex_len(n / 16, (k - 1) as nat);
        }
    }
}

/// A line break stands where it was put, if none came before.
proof fn lemma_line_end_is(s: Seq<u8>, from: int, at: int)
    requires
        0 <= from <= at,
        at + 1 < s.len(),
        s[at] == 13,
        s[at + 1] == 10,
        forall|j: int| from <= j < at ==> s[j] != 13,
    ensures
        line_end(s, from) == at,
    decreases at - from,
{
    if from < at {
        lemma_line_end_is(s, from + 1, at);
    }
}

proof fn lemma_chunk_decodes(read: Seq<u8>, d: DecoderView, data: Seq<u8>, max: int)
    requires
        0 <= d.pos,
        d.phase == Phase::Size,
        0 < data.len() <= u64::MAX,
        d.pos + chunk_bytes(data).len() <= read.len(),
        read.subrange(d.pos, d.pos + chunk_bytes(data).len()) == chunk_bytes(data),
        d.body.len() + data.len() <= max,
    ensures
        decoded(read, d, max) == decoded(
            read,
            DecoderView {
                pos: d.pos + chunk_bytes(data).len(),
                body: d.body + data,
                phase: Phase::Size,
            },
            max,
        ),
{
    let c = chunk_bytes(data);
    let h = bytes::hex(data.len());
    let n = data.len() as int;
    let hl = h.len() as int;
    lemma_hex_reads_back(data.len());
    assert(data.len() < pow16(16)) by {
        reveal_with_fuel(pow16, 17);
    }
    lemma_hex_len(data.len(), 16);
    let e = d.pos + hl;
    assert forall|j: int| 0 <= j < c.len() implies read[d.pos + j] == c[j] by {
        assert(read.subrange(d.pos, d.pos + c.len())[j] == c[j]);
    }
    assert(c[hl] == 13 && c[hl + 1] == 10);
    assert(read[e] == 13 && read[e + 1] == 10);
    assert forall|j: int| d.pos <= j < e implies read[j] != 13 by {
        assert(read[d.pos + (j - d.pos)] == c[j - d.pos]);
        assert(c[j - d.pos] == h[j - d.pos]);
    }
    lemma_line_end_is(read, d.pos, e);
    let line = read.subrange(d.pos, e);
    assert(line =~= h) by {
        assert forall|j: int| 0 <= j < hl implies line[j] == h[j] by {
            assert(read[d.pos + j] == c[j]);
        }
    }
    bytes::lemma_find_is(line, 59, 0, line.len() as int);
    assert(size_part(line) =~= h);
    let d1 = DecoderView { pos: e + 2, body: d.body, phase: Phase::Data(n as u64) };
    assert(step(read, d, max) == (d1, None::<Progress>));
    assert(read.subrange(d1.pos, d1.pos + n) =~= data) by {
        assert forall|j: int| 0 <= j < n implies read.subrange(d1.pos, d1.pos + n)[j] == data[j] by {
            assert(read[d.pos + (hl + 2 + j)] == c[hl + 2 + j]);
        }
    }
    assert(read.subrange(d1.pos + n, d1.pos + n + 2) =~= crlf()) by {
        assert(read[d.pos + (hl + 2 + n)] == c[hl + 2 + n]);
        assert(read[d.pos + (hl + 3 + n)] == c[hl + 3 + n]);
    }
    let d2 = DecoderView { pos: d1.pos + n + 2, body: d.body + data, phase: Phase::Size };
    assert(step(read, d1, max) == (d2, None::<Progress>));
    assert(decoded(read, d, max) == decoded(read, d1, max));
    assert(decoded(read, d1, max) == decoded(read, d2, max));
}

proof fn lemma_chunks_decode(
    read: Seq<u8>,
    d: DecoderView,
    chunks: Seq<Seq<u8>>,
    i: int,
    max: int,
    rest: Seq<u8>,
)
    requires
        0 <= i <= chunks.len(),
        0 <= d.pos <= read.len(),
        d.phase == Phase::Size,
        read.subrange(d.pos, read.len() as int) == chunked_bytes(chunks, i) + rest,
        forall|j: int| 0 <= j < chunks.len() ==> 0 < (#[trigger] chunks[j]).len() <= u64::MAX,
        d.body.len() + joined(chunks, i).len() <= max,
    ensures
        decoded(read, d, max) == (
            DecoderView {
                pos: d.pos + chunked_bytes(chunks, i).len(),
                body: d.body + joined(chunks, i),
                phase: Phase::Trailers,
            },
            Progress::Done,
        ),
    decreases chunks.len() - i,
{
    let all = chunked_bytes(chunks, i);
    let tail = read.subrange(d.pos, read.len() as int);
    assert(tail.len() == read.len() - d.pos);
    assert(tail == all + rest);
    assert forall|j: int| 0 <= j < tail.len() implies read[d.pos + j] == (all + rest)[j] by {
        assert(tail[j] == read[d.pos + j]);
    }
    if i < chunks.len() {
        let c = chunk_bytes(chunks[i]);
        let next = chunked_bytes(chunks, i + 1);
        assert(all == c + next);
        assert(read.subrange(d.pos, d.pos + c.len()) =~= c) by {
            assert forall|j: int| 0 <= j < c.len() implies read[d.pos + j] == c[j] by {
                assert(tail[j] == (all + rest)[j]);
            }
        }
        lemma_chunk_decodes(read, d, chunks[i], max);
        let d2 = DecoderView {
            pos: d.pos + c.len(),
            body: d.body + chunks[i],
            phase: Phase::Size,
        };
        assert(read.subrange(d2.pos, read.len() as int) =~= next + rest) by {
            assert forall|j: int| 0 <= j < (next + rest).len() implies read[d2.pos + j] == (next
                + rest)[j] by {
                assert(tail[c.len() + j] == (all + rest)[c.len() + j]);
            }
        }
        assert(joined(chunks, i).len() == chunks[i].len() + joined(chunks, i + 1).len());
        lemma_chunks_decode(read, d2, chunks, i + 1, max, rest);
        assert(d2.body + joined(chunks, i + 1) =~= d.body + joined(chunks, i));
    } else {
        assert(all =~= seq![48u8, 13, 10, 13, 10]);
        assert(read[d.pos + 0] == (all + rest)[0]);
        assert(read[d.pos + 1] == (all + rest)[1]);
        assert(read[d.pos + 2] == (all + rest)[2]);
        assert(read[d.pos + 3] == (all + rest)[3]);
        assert(read[d.pos + 4] == (all + rest)[4]);
        lemma_line_end_is(read, d.pos, d.pos + 1);
        let line = read.subrange(d.pos, d.pos + 1);
        assert(line =~= seq![48u8]);
        bytes::lemma_find_is(line, 59, 0, 1);
        assert(size_part(line) =~= line);
        assert(hex_number(line) == Some(0int)) by {
            assert(line.drop_last() =~= Seq::<u8>::empty());
            assert(hex_number(Seq::<u8>::empty()) == Some(0int));
        }
        let d1 = DecoderView { pos: d.pos + 3, body: d.body, phase: Phase::Trailers };
        assert(step(read, d, max) == (d1, None::<Progress>));
        lemma_line_end_is(read, d.pos + 3, d.pos + 3);
        let d2 = DecoderView { pos: d.pos + 5, ..d1 };
        assert(step(read, d1, max) == (d2, Some(Progress::Done)));
        assert(d.body + joined(chunks, i) =~= d.body);
        assert(decoded(read, d, max) == decoded(read, d1, max));
    }
}

/// A chunked body decodes to the data of its chunks, and no further than its
/// end: what a pipelined next request sent is left alone.
pub proof fn law_chunked_bodies_decode(
    head: Seq<u8>,
    chunks: Seq<Seq<u8>>,
    rest: Seq<u8>,
    max: int,
)
    requires
        forall|j: int| 0 <= j < chunks.len() ==> 0 < (#[trigger] chunks[j]).len() <= u64::MAX,
        joined(chunks, 0).len() <= max,
    ensures
        decoded(
            head + chunked_bytes(chunks, 0) + rest,
            DecoderView { pos: head.len() as int, body: Seq::empty(), phase: Phase::Size },
            max,
        ) == (
            DecoderView {
                pos: (head + chunked_bytes(chunks, 0)).len() as int,
                body: joined(chunks, 0),
                phase: Phase::Trailers,
            },
            Progress::Done,
        ),
{
    let read = head + chunked_bytes(chunks, 0) + rest;
    let d = DecoderView { pos: head.len() as int, body: Seq::empty(), phase: Phase::Size };
    assert(read.subrange(d.pos, read.len() as int) =~= chunked_bytes(chunks, 0) + rest);
    lemma_chunks_decode(read, d, chunks, 0, max, rest);
    assert(d.body + joined(chunks, 0) =~= joined(chunks, 0));
}

/// A line break that was found stays where it is when more arrives.
proof fn lemma_line_end_extends(s: Seq<u8>, more: Seq<u8>, from: int)
    requires
        0 <= from,
        line_end(s, from) >= 0,
    ensures
        line_end(s + more, from) == line_end(s, from),
    decreases s.len() - from,
{
    assert((s + more)[from] == s[from]);
    assert((s + more)[from + 1] == s[from + 1]);
    if !(s[from] == 13 && s[from + 1] == 10) {
        lemma_line_end_extends(s, more, from + 1);
    }
}

/// A step that needed nothing more is the same step when more is there.
proof fn lemma_step_extends(read: Seq<u8>, more: Seq<u8>, d: DecoderView, max: int)
    requires
        0 <= d.pos <= read.len(),
        step(read, d, max).1 is None,
    ensures
        step(read + more, d, max) == step(read, d, max),
{
    let all = read + more;
    let e = line_end(read, d.pos);
    lemma_line_end(read, d.pos);
    if e >= 0 {
        lemma_line_end_extends(read, more, d.pos);
        assert(all.subrange(d.pos, e) =~= read.subrange(d.pos, e));
    }
    if let Phase::Data(n) = d.phase {
        assert(all.subrange(d.pos, d.pos + n) =~= read.subrange(d.pos, d.pos + n));
        assert(all.subrange(d.pos + n, d.pos + n + 2) =~= read.subrange(
            d.pos + n,
            d.pos + n + 2,
        ));
    }
}

/// In whatever pieces a body arrives, it decodes to the same: what was decoded before
/// more came is not looked at again.
pub proof fn law_bodies_may_come_in_pieces(
    read: Seq<u8>,
    more: Seq<u8>,
    d: DecoderView,
    max: int,
)
    requires
        0 <= d.pos <= read.len(),
        decoded(read, d, max).1 == Progress::Fill,
    ensures
        decoded(read + more, decoded(read, d, max).0, max) == decoded(read + more, d, max),
    decreases read.len() - d.pos,
{
    let (next, wants) = step(read, d, max);
    lemma_step_moves(read, d, max);
    if wants is None {
        lemma_step_extends(read, more, d, max);
        law_bodies_may_come_in_pieces(read, more, next, max);
    }
}

/// No more than `max` bytes of a body are ever accepted.
pub proof fn law_bodies_stay_within_the_limit(read: Seq<u8>, d: DecoderView, max: int)
    requires
        0 <= d.pos <= read.len(),
        d.body.len() <= max,
        d.phase matches Phase::Data(n) ==> d.body.len() + n <= max,
    ensures
        decoded(read, d, max).0.body.len() <= max,
    decreases read.len() - d.pos,
{
    let (next, wants) = step(read, d, max);
    lemma_step_moves(read, d, max);
    if wants is None {
        assert(next.phase matches Phase::Data(n) ==> next.body.len() + n <= max) by {
            if let Phase::Size = d.phase {
                let e = line_end(read, d.pos);
                let part = size_part(read.subrange(d.pos, e));
                if let Some(n) = chunk_size(part) {
                    lemma_hex_bound(part);
                    assert(n < 0x1_0000_0000_0000_0000) by {
                        lemma_pow16_grows(part.len() as int, 16);
                        reveal_with_fuel(pow16, 17);
                    }
                }
            }
        }
        law_bodies_stay_within_the_limit(read, next, max);
    }
}

proof fn lemma_pow16_grows(a: int, b: int)
    requires
        a <= b,
    ensures
        1 <= pow16(a) <= pow16(b),
    decreases b,
{
    if b > 0 {
        if a < b {
            lemma_pow16_grows(a, b - 1);
        } else {
            lemma_pow16_grows(a - 1, b - 1);
        }
    }
}

// ---------------------------------------------------------------- plain bodies

/// How a request says its body is delimited.
#[derive(Debug, Clone, Copy, PartialEq, Eq, Structural)]
pub enum ReqBody {
    NoBody,
    Length(u64),
    Chunked,
}

/// How the body of a request is read.
#[derive(Debug, Clone, Copy, PartialEq, Eq, Structural)]
pub enum BodyPlan {
    /// There is nothing to read.
    Nothing,
    /// Refuse it with this status.
    Refuse(u16),
    /// Read this many bytes; first answer `100 Continue` if asked to.
    Exact { len: u64, send_continue: bool },
    /// Decode chunks; first answer `100 Continue` if asked to.
    Chunked { send_continue: bool },
}

/// What is to be done about the body of a request.
pub open spec fn body_plan(body: ReqBody, max: u64, expects_continue: bool) -> BodyPlan {
    match body {
        ReqBody::NoBody => BodyPlan::Nothing,
        ReqBody::Length(n) => if n > max {
            BodyPlan::Refuse(413)
        } else {
            BodyPlan::Exact { len: n, send_continue: expects_continue }
        },
        ReqBody::Chunked => BodyPlan::Chunked { send_continue: expects_continue },
    }
}

/// Decides how the body of a request is read. A declared length over the limit is
/// refused before the client is told to send.
pub fn plan_body(body: ReqBody, max: u64, expects_continue: bool) -> (r: BodyPlan)
    ensures
        r == body_plan(body, max, expects_continue),
{
    match body {
        ReqBody::NoBody => BodyPlan::Nothing,
        ReqBody::Length(n) => if n > max {
            BodyPlan::Refuse(413)
        } else {
            BodyPlan::Exact { len: n, send_continue: expects_continue }
        },
        ReqBody::Chunked => BodyPlan::Chunked { send_continue: expects_continue },
    }
}

/// Takes whatever of a body of `n` bytes already arrived alongside the head.
pub fn take_buffered(st: &mut ConnState, pos: usize, n: usize) -> (r: usize)
    requires
        pos <= old(st).read@.len(),
    ensures
        ({
            let left = old(st).read@.len() - pos;
            let have = if left < n {
                left
            } else {
                n as int
            };
            &&& r == pos + have
            &&& final(st).body@ == old(st).body@ + old(st).read@.subrange(
                pos as int,
                pos + have,
            )
            &&& final(st).read == old(st).read
            &&& final(st).write == old(st).write
            &&& final(st).consumed == old(st).consumed
        }),
{
    let left: usize = st.read.len() - pos;
    let have: usize = if left < n {
        left
    } else {
        n
    };
    let part: Vec<u8> = bytes::copy(&st.read.as_slice()[pos..pos + have]);
    st.body.extend_from_slice(part.as_slice());
    pos + have
}

/// What came of reading more of a body.
#[derive(Debug, Clone, Copy, PartialEq, Eq, Structural)]
pub enum ReadEvent {
    /// This many bytes; none means that the client closed.
    Got(usize),
    Failed,
    TimedOut,
}

/// The status that a body ends with which cannot be read on.
pub open spec fn body_refusal(e: ReadEvent) -> Option<u16> {
    match e {
        ReadEvent::Got(n) => if n == 0 {
            Some(400u16)
        } else {
            None
        },
        ReadEvent::Failed => Some(400u16),
        ReadEvent::TimedOut => Some(408u16),
    }
}

/// The status a request is refused with when its body stops coming: 400 for a
/// client that vanished, 408 for one that is too slow.
pub fn body_failure(e: ReadEvent) -> (r: Option<u16>)
    ensures
        r == body_refusal(e),
{
    match e {
        ReadEvent::Got(n) => if n == 0 {
            Some(400)
        } else {
            None
        },
        ReadEvent::Failed => Some(400),
        ReadEvent::TimedOut => Some(408),
    }
}

// ---------------------------------------------------------------- the head

/// What the parser makes of the bytes of a request head.
#[derive(Debug, Clone, Copy, PartialEq, Eq, Structural)]
pub enum ParseResult {
    Complete,
    Partial,
    Error(u16),
}

/// Why a request head could not be read.
#[derive(Debug, Clone, Copy, PartialEq, Eq, Structural)]
pub enum HeadError {
    /// A clean close between requests.
    Eof,
    Timeout,
    TooLarge,
    Io,
}

/// What reading a request head does next.
#[derive(Debug, Clone, Copy, PartialEq, Eq, Structural)]
pub enum HeadStep {
    /// Read more from the socket.
    Read,
    /// The head is there, or is broken with this status.
    Parsed(ParseResult),
    Failed(HeadError),
}

/// What follows an attempt to read a head.
pub open spec fn head_turn(buffered: usize, parsed: ParseResult, max_head: usize) -> HeadStep {
    if buffered == 0 {
        HeadStep::Read
    } else if !(parsed is Partial) {
        HeadStep::Parsed(parsed)
    } else if buffered > max_head {
        HeadStep::Failed(HeadError::TooLarge)
    } else {
        HeadStep::Read
    }
}

/// Decides after looking at what is buffered. Bytes of a pipelined request are
/// looked at before the socket is touched; `parsed` is what the parser made of
/// them, of an empty buffer nothing.
pub fn head_step(buffered: usize, parsed: ParseResult, max_head: usize) -> (r: HeadStep)
    ensures
        r == head_turn(buffered, parsed, max_head),
{
    if buffered == 0 {
        return HeadStep::Read;
    }
    match parsed {
        ParseResult::Partial => if buffered > max_head {
            HeadStep::Failed(HeadError::TooLarge)
        } else {
            HeadStep::Read
        },
        _ => HeadStep::Parsed(parsed),
    }
}

/// How the reading of a head ends, if it does.
pub open spec fn head_failure(buffered: usize, e: ReadEvent) -> Option<HeadError> {
    match e {
        ReadEvent::Got(n) => if n > 0 {
            None
        } else if buffered == 0 {
            Some(HeadError::Eof)
        } else {
            Some(HeadError::Io)
        },
        ReadEvent::Failed => Some(HeadError::Io),
        ReadEvent::TimedOut => Some(HeadError::Timeout),
    }
}

/// Decides after a read: a close is clean only when nothing was buffered.
pub fn head_read(buffered: usize, e: ReadEvent) -> (r: Option<HeadError>)
    ensures
        r == head_failure(buffered, e),
{
    match e {
        ReadEvent::Got(n) => if n > 0 {
            None
        } else if buffered == 0 {
            Some(HeadError::Eof)
        } else {
            Some(HeadError::Io)
        },
        ReadEvent::Failed => Some(HeadError::Io),
        ReadEvent::TimedOut => Some(HeadError::Timeout),
    }
}

// ---------------------------------------------------------------- the connection

/// What a connection is governed by, out of the matched server's configuration.
#[derive(Debug, Clone, Copy, PartialEq, Eq, Structural)]
pub struct ConnLimits {
    pub keepalive_requests: u64,
    pub keepalive_timeout_ms: u64,
}

/// Where a connection is between two of the things it waits for.
#[derive(Debug, Clone, Copy, PartialEq, Eq, Structural)]
pub enum ConnPhase {
    /// Waiting for a request head.
    Head,
    /// Waiting for the normalised path of a request.
    Path,
    /// Waiting for the request body.
    Body,
    /// Waiting for the handler's reply; a status when the body was refused.
    Reply { refused: Option<u16> },
    /// Waiting for the reply to be written.
    Write { keep: bool },
    Closed,
}

/// A connection: where it is, and how many requests it has carried.
#[derive(Debug, Clone, Copy, PartialEq, Eq, Structural)]
pub struct Conn {
    pub phase: ConnPhase,
    pub requests: u64,
}

/// What happened to a connection.
#[derive(Debug, Clone, Copy, PartialEq, Eq, Structural)]
pub enum ConnEvent {
    Head(ParseResult),
    HeadFailed(HeadError),
    /// Whether the path could be normalised.
    Path(bool),
    /// The status the body was refused with, if it was.
    Body(Option<u16>),
    /// The handler replied: whether its reply and the client let the connection
    /// live.
    Replied { reply_keeps: bool, client_keeps: bool },
    /// Whether the reply could be written.
    Written(bool),
}

/// What to do with a connection.
#[derive(Debug, Clone, Copy, PartialEq, Eq, Structural)]
pub enum ConnAction {
    /// Read a request head; the first one under the header timeout, the later
    /// ones under the keep-alive timeout.
    ReadHead { first: bool },
    /// Normalise the path of the request.
    Normalise,
    ReadBody,
    /// Hand the request to the handler.
    Handle,
    /// Answer the request with the error page of a status.
    Refuse(u16),
    /// Write the reply, saying whether the connection stays open.
    Write { keep: bool },
    /// Answer a request too broken to route, and close.
    BareError(u16),
    Close,
}

/// Whether a connection survives a reply: everybody agrees, the request limit is
/// not reached, and the body left the stream aligned.
pub open spec fn survives(
    reply_keeps: bool,
    client_keeps: bool,
    requests: u64,
    body_read: bool,
    limits: ConnLimits,
) -> bool {
    reply_keeps && client_keeps && requests < limits.keepalive_requests && body_read
        && limits.keepalive_timeout_ms > 0
}

/// The next state of a connection and what to do.
pub open spec fn conn_next(c: Conn, e: ConnEvent, limits: ConnLimits) -> (Conn, ConnAction) {
    let closed = Conn { phase: ConnPhase::Closed, ..c };
    match (c.phase, e) {
        (ConnPhase::Head, ConnEvent::Head(ParseResult::Complete)) => (
            Conn { phase: ConnPhase::Path, requests: (c.requests + 1) as u64 },
            ConnAction::Normalise,
        ),
        (ConnPhase::Head, ConnEvent::Head(ParseResult::Error(code))) => (
            closed,
            ConnAction::BareError(code),
        ),
        (ConnPhase::Head, ConnEvent::Head(ParseResult::Partial)) => (
            c,
            ConnAction::ReadHead { first: c.requests == 0 },
        ),
        (ConnPhase::Head, ConnEvent::HeadFailed(HeadError::Timeout)) => (
            closed,
            if c.requests > 0 {
                ConnAction::Close
            } else {
                ConnAction::BareError(408)
            },
        ),
        (ConnPhase::Head, ConnEvent::HeadFailed(HeadError::TooLarge)) => (
            closed,
            ConnAction::BareError(431),
        ),
        (ConnPhase::Path, ConnEvent::Path(ok)) => if ok {
            (Conn { phase: ConnPhase::Body, ..c }, ConnAction::ReadBody)
        } else {
            (closed, ConnAction::BareError(400))
        },
        (ConnPhase::Body, ConnEvent::Body(refused)) => (
            Conn { phase: ConnPhase::Reply { refused }, ..c },
            match refused {
                Some(code) => ConnAction::Refuse(code),
                None => ConnAction::Handle,
            },
        ),
        (ConnPhase::Reply { refused }, ConnEvent::Replied { reply_keeps, client_keeps }) => {
            let keep = survives(reply_keeps, client_keeps, c.requests, refused is None, limits);
            (Conn { phase: ConnPhase::Write { keep }, ..c }, ConnAction::Write { keep })
        },
        (ConnPhase::Write { keep }, ConnEvent::Written(ok)) => if ok && keep {
            (Conn { phase: ConnPhase::Head, ..c }, ConnAction::ReadHead { first: false })
        } else {
            (closed, ConnAction::Close)
        },
        _ => (closed, ConnAction::Close),
    }
}

impl Conn {
    /// A connection that was just accepted.
    pub fn new() -> (r: (Conn, ConnAction))
        ensures
            r.0 == (Conn { phase: ConnPhase::Head, requests: 0 }),
            r.1 == (ConnAction::ReadHead { first: true }),
    {
        (Conn { phase: ConnPhase::Head, requests: 0 }, ConnAction::ReadHead { first: true })
    }

    /// Takes note of what happened and says what to do.
    pub fn next(&mut self, e: ConnEvent, limits: ConnLimits) -> (r: ConnAction)
        requires
            old(self).requests < u64::MAX,
        ensures
            (*final(self), r) == conn_next(*old(self), e, limits),
    {
        match (self.phase, e) {
            (ConnPhase::Head, ConnEvent::Head(ParseResult::Complete)) => {
                self.phase = ConnPhase::Path;
                self.requests = self.requests + 1;
                ConnAction::Normalise
            },
            (ConnPhase::Head, ConnEvent::Head(ParseResult::Error(code))) => {
                self.phase = ConnPhase::Closed;
                ConnAction::BareError(code)
            },
            (ConnPhase::Head, ConnEvent::Head(ParseResult::Partial)) => {
                ConnAction::ReadHead { first: self.requests == 0 }
            },
            (ConnPhase::Head, ConnEvent::HeadFailed(HeadError::Timeout)) => {
                self.phase = ConnPhase::Closed;
                if self.requests > 0 {
                    // Idle keep-alive expiry: just close.
                    ConnAction::Close
                } else {
                    ConnAction::BareError(408)
                }
            },
            (ConnPhase::Head, ConnEvent::HeadFailed(HeadError::TooLarge)) => {
                self.phase = ConnPhase::Closed;
                ConnAction::BareError(431)
            },
            (ConnPhase::Path, ConnEvent::Path(ok)) => {
                if ok {
                    self.phase = ConnPhase::Body;
                    ConnAction::ReadBody
                } else {
                    self.phase = ConnPhase::Closed;
                    ConnAction::BareError(400)
                }
            },
            (ConnPhase::Body, ConnEvent::Body(refused)) => {
                self.phase = ConnPhase::Reply { refused };
                match refused {
                    Some(code) => ConnAction::Refuse(code),
                    None => ConnAction::Handle,
                }
            },
            (ConnPhase::Reply { refused }, ConnEvent::Replied { reply_keeps, client_keeps }) => {
                let keep: bool = reply_keeps && client_keeps && self.requests
                    < limits.keepalive_requests && refused.is_none() && limits.keepalive_timeout_ms
                    > 0;
                self.phase = ConnPhase::Write { keep };
                ConnAction::Write { keep }
            },
            (ConnPhase::Write { keep }, ConnEvent::Written(ok)) => {
                if ok && keep {
                    self.phase = ConnPhase::Head;
                    ConnAction::ReadHead { first: false }
                } else {
                    self.phase = ConnPhase::Closed;
                    ConnAction::Close
                }
            },
            _ => {
                self.phase = ConnPhase::Closed;
                ConnAction::Close
            },
        }
    }
}

/// A connection carries no more than `keepalive_requests` requests: once it has,
/// the reply closes it.
pub proof fn law_the_request_limit_closes(c: Conn, reply_keeps: bool, client_keeps: bool, refused: Option<u16>, limits: ConnLimits)
    requires
        c.phase == (ConnPhase::Reply { refused }),
        c.requests >= limits.keepalive_requests,
    ensures
        conn_next(c, ConnEvent::Replied { reply_keeps, client_keeps }, limits).1
            == (ConnAction::Write { keep: false }),
{
}

/// Where a connection under some limits can be: it never carries more requests than
/// it may, but always one.
pub open spec fn is_within(c: Conn, limits: ConnLimits) -> bool {
    match c.phase {
        ConnPhase::Head => c.requests == 0 || c.requests < limits.keepalive_requests,
        ConnPhase::Write { keep } => (c.requests <= 1 || c.requests
            <= limits.keepalive_requests) && (keep ==> c.requests < limits.keepalive_requests),
        _ => c.requests <= 1 || c.requests <= limits.keepalive_requests,
    }
}

/// Whatever happens on a connection, it carries no more requests than it may.
pub proof fn law_connections_stay_within_their_limit(c: Conn, e: ConnEvent, limits: ConnLimits)
    requires
        is_within(c, limits),
        c.requests < u64::MAX,
    ensures
        is_within(conn_next(c, e, limits).0, limits),
{
}

/// A body that could not be read in full closes the connection after its answer.
pub proof fn law_a_misaligned_stream_is_closed(c: Conn, code: u16, reply_keeps: bool, client_keeps: bool, limits: ConnLimits)
    requires
        c.phase == (ConnPhase::Reply { refused: Some(code) }),
    ensures
        conn_next(c, ConnEvent::Replied { reply_keeps, client_keeps }, limits).1
            == (ConnAction::Write { keep: false }),
{
}

/// A closed connection stays closed.
pub proof fn law_closed_stays_closed(c: Conn, e: ConnEvent, limits: ConnLimits)
    requires
        c.phase == ConnPhase::Closed,
    ensures
        conn_next(c, e, limits) == (c, ConnAction::Close),
{
}

// ---------------------------------------------------------------- writing

/// Bodies up to this size ride along in the head buffer: one write.
pub const RIDE_ALONG: usize = 16384;

/// How a reply is put on the wire.
#[derive(Debug, Clone, Copy, PartialEq, Eq, Structural)]
pub enum WritePlan {
    HeadOnly,
    /// Head and body in one buffer.
    Together,
    /// Head and body in one vectored write.
    Vectored,
    /// Read the file into the head buffer.
    ReadInto { offset: u64, len: u64 },
    /// The head, then the file in pieces.
    StreamFile { offset: u64, len: u64 },
    /// The head, then what the upstream sends.
    StreamUpstream { total: Option<u64> },
}

/// Decides how a reply is put on the wire.
pub fn plan_write<M, F, S>(body: &Body<M, F, S>, head_only: bool) -> (r: WritePlan)
    ensures
        r == if head_only {
            WritePlan::HeadOnly
        } else {
            match body {
                Body::Empty => WritePlan::HeadOnly,
                Body::Bytes(b) => if b@.len() <= RIDE_ALONG {
                    WritePlan::Together
                } else {
                    WritePlan::Vectored
                },
                Body::Mmap { map, start, end } => WritePlan::Vectored,
                Body::Inline { file, offset, len } => WritePlan::ReadInto {
                    offset: *offset,
                    len: *len,
                },
                Body::File { file, offset, len } => WritePlan::StreamFile {
                    offset: *offset,
                    len: *len,
                },
                Body::Stream { pre, io, len } => WritePlan::StreamUpstream { total: *len },
            }
        },
{
    if head_only {
        return WritePlan::HeadOnly;
    }
    match body {
        Body::Empty => WritePlan::HeadOnly,
        Body::Bytes(b) => if b.len() <= RIDE_ALONG {
            WritePlan::Together
        } else {
            WritePlan::Vectored
        },
        Body::Mmap { map, start, end } => WritePlan::Vectored,
        Body::Inline { file, offset, len } => WritePlan::ReadInto { offset: *offset, len: *len },
        Body::File { file, offset, len } => WritePlan::StreamFile { offset: *offset, len: *len },
        Body::Stream { pre, io, len } => WritePlan::StreamUpstream { total: *len },
    }
}

/// How much of a head and a body a vectored write has put out.
#[derive(Debug, Clone, Copy, PartialEq, Eq, Structural)]
pub struct Sent {
    pub head: usize,
    pub body: usize,
}

/// Takes note of `n` more bytes written: those of the head come first.
pub fn note_written(sent: Sent, head_len: usize, body_len: usize, n: usize) -> (r: Sent)
    requires
        sent.head <= head_len,
        sent.body <= body_len,
        n <= (head_len - sent.head) + (body_len - sent.body),
    ensures
        r.head == if n < head_len - sent.head {
            sent.head + n
        } else {
            head_len as int
        },
        r.head + r.body == sent.head + sent.body + n,
        r.head <= head_len,
        r.body <= body_len,
{
    let left: usize = head_len - sent.head;
    let take: usize = if n < left {
        n
    } else {
        left
    };
    Sent { head: sent.head + take, body: sent.body + (n - take) }
}

/// The piece a large file is streamed in: the configured buffer, between 16 KiB
/// and 512 KiB, and no more than the file.
pub fn stream_chunk(buf_size: usize, len: u64) -> (r: usize)
    ensures
        ({
            let clamped = if buf_size < 16384 {
                16384
            } else if buf_size > 524288 {
                524288
            } else {
                buf_size as int
            };
            let most = if len < 1 {
                1
            } else {
                len as int
            };
            r == if most < clamped {
                most
            } else {
                clamped
            }
        }),
        r > 0,
{
    let clamped: usize = if buf_size < 16384 {
        16384
    } else if buf_size > 524288 {
        524288
    } else {
        buf_size
    };
    let most: u64 = if len < 1 {
        1
    } else {
        len
    };
    if most < clamped as u64 {
        most as usize
    } else {
        clamped
    }
}

/// Above this many concurrent large-file transfers on one worker, reads move to
/// the blocking pool. Below it, they run inline.
pub const INLINE_STREAM_MAX: usize = 2;

/// The bytes of a file to read next, and whether to read them off the worker.
pub fn next_read(chunk: usize, len: u64, sent: u64, active: usize) -> (r: (usize, bool))
    requires
        sent <= len,
    ensures
        r.0 == if len - sent < chunk {
            len - sent
        } else {
            chunk as int
        },
        r.1 == (active > INLINE_STREAM_MAX),
{
    let left: u64 = len - sent;
    let want: usize = if left < chunk as u64 {
        left as usize
    } else {
        chunk
    };
    (want, active > INLINE_STREAM_MAX)
}

/// The most bytes the kernel is asked to move from a file to a socket at once.
pub const SENDFILE_MAX: u64 = 1073741824;

/// How many bytes the kernel is asked to move next.
pub fn next_sendfile(len: u64, sent: u64) -> (r: u64)
    requires
        sent <= len,
    ensures
        r == if len - sent < SENDFILE_MAX {
            len - sent
        } else {
            SENDFILE_MAX as int
        },
{
    if len - sent < SENDFILE_MAX {
        len - sent
    } else {
        SENDFILE_MAX
    }
}

/// Large-file transfers under way on one worker.
#[derive(Debug)]
pub struct Streaming {
    pub active: usize,
}

impl Streaming {
    /// A transfer begins.
    pub fn enter(&mut self)
        requires
            old(self).active < usize::MAX,
        ensures
            final(self).active == old(self).active + 1,
    {
        self.active = self.active + 1;
    }

    /// A transfer is over, however it ended.
    pub fn leave(&mut self)
        ensures
            final(self).active == if old(self).active > 0 {
                old(self).active - 1
            } else {
                0
            },
    {
        self.active = self.active.saturating_sub(1);
    }
}

/// How many of `n` bytes an upstream sent are forwarded: no more than its
/// declared length leaves.
pub fn forwarded(len: Option<u64>, sent: u64, n: usize) -> (r: usize)
    ensures
        r == match len {
            Some(total) => if sent >= total {
                0
            } else if total - sent < n {
                total - sent
            } else {
                n as int
            },
            None => n as int,
        },
{
    match len {
        Some(total) => if sent >= total {
            0
        } else if total - sent < n as u64 {
            (total - sent) as usize
        } else {
            n
        },
        None => n,
    }
}

/// The answer to a request too broken to route. Its body is the page for the status,
/// and the connection closes behind it.
pub fn bare_error(code: u16, page: Vec<u8>) -> (r: Page)
    ensures
        r@ == (PageView {
            resp: RespView {
                headers: seq![(bytes::utf8("Content-Type"@), bytes::utf8("text/html"@))],
                framing: Framing::Length(page@.len() as u64),
                keep_alive: false,
                ..http::bare(code)
            },
            body: Some(page@),
        }),
{
    let mut resp = Resp::new(code);
    resp.keep_alive = false;
    resp.framing = Framing::Length(page.len() as u64);
    resp.header("Content-Type", "text/html".as_bytes());
    assert(resp@.headers =~= seq![(bytes::utf8("Content-Type"@), bytes::utf8("text/html"@))]);
    Page { resp, body: Some(page) }
}

// ---------------------------------------------------------------- log records

/// One field of a log record: its name, its text, and the bits of the number it
/// denotes if it denotes a decimal one.
#[derive(Debug)]
pub struct LogField {
    pub name: String,
    pub value: String,
    pub decimal: Option<u64>,
}

/// The first `n` fields of a record on the wire.
pub open spec fn log_fields(fs: Seq<LogField>, n: int) -> Seq<u8>
    decreases n,
{
    if n <= 0 {
        Seq::empty()
    } else {
        log_fields(fs, n - 1) + msgpack::str_bytes(bytes::utf8(fs[n - 1].name@))
            + msgpack::auto_bytes(bytes::utf8(fs[n - 1].value@), fs[n - 1].decimal)
    }
}

/// A log record on the wire: a map with the database it goes to, if any, and its
/// fields.
pub open spec fn record_bytes(fs: Seq<LogField>, db: Option<Seq<char>>) -> Seq<u8> {
    match db {
        Some(name) => msgpack::map_bytes(fs.len() + 1) + msgpack::str_bytes(bytes::utf8("db"@))
            + msgpack::str_bytes(bytes::utf8(name)) + log_fields(fs, fs.len() as int),
        None => msgpack::map_bytes(fs.len()) + log_fields(fs, fs.len() as int),
    }
}

/// Encodes one access-log record as a MessagePack map. Each variable of the log
/// format becomes a key; the database name travels in the field `db`.
pub fn encode_record(out: &mut Vec<u8>, fs: &Vec<LogField>, db: Option<&str>)
    requires
        fs@.len() < usize::MAX,
    ensures
        final(out)@ == old(out)@ + record_bytes(
            fs@,
            match db {
                Some(name) => Some(name@),
                None => None,
            },
        ),
{
    let n: usize = match db {
        Some(_) => fs.len() + 1,
        None => fs.len(),
    };
    msgpack::map_header(out, n);
    if let Some(name) = db {
        msgpack::write_str(out, "db");
        msgpack::write_str(out, name);
    }
    let ghost open = out@;
    for i in 0..fs.len()
        invariant
            out@ == open + log_fields(fs@, i as int),
    {
        msgpack::write_str(out, fs[i].name.as_str());
        msgpack::write_auto(out, fs[i].value.as_str(), fs[i].decimal);
        assert(out@ =~= open + log_fields(fs@, i + 1));
    }
    proof {
        let d = match db {
            Some(name) => Some(name@),
            None => None,
        };
        assert(out@ =~= old(out)@ + record_bytes(fs@, d));
    }
}

} // verus!
