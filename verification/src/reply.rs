//! What a handler produces: a response head plus a body the connection knows how
//! to put on the wire.
//!
//! The body variants exist to keep copies out of the hot path. What a body is
//! read from (a mapped file, an open file, an upstream connection) is the
//! caller's: `M`, `F` and `S`.

use vstd::prelude::*;

use crate::http::{Framing, Resp, RespView};
use crate::http;

verus! {

#[allow(inconsistent_fields)]
#[derive(Debug)]
pub enum Body<M, F, S> {
    Empty,
    /// Generated content: error pages, autoindex listings, `return` text.
    Bytes(Vec<u8>),
    /// A window into a memory-mapped file.
    Mmap { map: M, start: usize, end: usize },
    /// A small file read directly into the connection's write buffer, so the
    /// head and body leave in a single `write`.
    Inline { file: F, offset: u64, len: u64 },
    /// A file too large to map, streamed (or `sendfile`d) in chunks.
    File { file: F, offset: u64, len: u64 },
    /// A proxied upstream body. `pre` is whatever already arrived in the header
    /// read; `io` supplies the rest.
    Stream { pre: Vec<u8>, io: S, len: Option<u64> },
}

impl<M, F, S> Body<M, F, S> {
    /// The length of a body, where it is known up front.
    pub open spec fn length(&self) -> Option<int> {
        match self {
            Body::Empty => Some(0),
            Body::Bytes(b) => Some(b@.len() as int),
            Body::Mmap { map, start, end } => Some(
                if *start < *end {
                    *end - *start
                } else {
                    0
                },
            ),
            Body::Inline { file, offset, len } => Some(*len as int),
            Body::File { file, offset, len } => Some(*len as int),
            Body::Stream { pre, io, len } => match len {
                Some(n) => Some(*n as int),
                None => None,
            },
        }
    }

    /// Byte length when known up front, which is what sets `Content-Length`.
    pub fn known_len(&self) -> (r: Option<u64>)
        ensures
            match r {
                Some(n) => self.length() == Some(n as int),
                None => self.length() is None,
            },
    {
        match self {
            Body::Empty => Some(0),
            Body::Bytes(b) => Some(b.len() as u64),
            Body::Mmap { map, start, end } => if *start < *end {
                Some((*end - *start) as u64)
            } else {
                Some(0)
            },
            Body::Inline { file, offset, len } => Some(*len),
            Body::File { file, offset, len } => Some(*len),
            Body::Stream { pre, io, len } => *len,
        }
    }

    pub fn is_empty(&self) -> (r: bool)
        ensures
            r == (self.length() == Some(0int)),
    {
        match self.known_len() {
            Some(n) => n == 0,
            None => false,
        }
    }
}

#[derive(Debug)]
pub struct Reply<M, F, S> {
    pub resp: Resp,
    pub body: Body<M, F, S>,
}

/// The framing of a body whose handler did not choose one.
pub open spec fn framing_for(length: Option<int>, http11: bool) -> Framing {
    match length {
        Some(n) => Framing::Length(n as u64),
        None => if http11 {
            Framing::Chunked
        } else {
            Framing::UntilClose
        },
    }
}

/// A reply as it is sent: where its body ends is decided, and a status that has no body has
/// none.
pub open spec fn is_framed<M, F, S>(r: Reply<M, F, S>, out: Reply<M, F, S>, http11: bool) -> bool {
    if http::bodyless(r.resp.status) {
        out.body == Body::<M, F, S>::Empty && out.resp@ == (RespView {
            framing: Framing::Absent,
            ..r.resp@
        })
    } else if r.resp.framing != Framing::Absent {
        out == r
    } else {
        out.body == r.body && out.resp@ == (RespView {
            framing: framing_for(r.body.length(), http11),
            ..r.resp@
        })
    }
}

impl<M, F, S> Reply<M, F, S> {
    pub fn new(resp: Resp, body: Body<M, F, S>) -> (r: Reply<M, F, S>)
        ensures
            r.resp == resp,
            r.body == body,
    {
        Reply { resp, body }
    }

    /// Sets `Content-Length` from the body when the length is known, otherwise
    /// falls back to chunked framing.
    ///
    /// A handler that already chose its framing keeps it: the proxy relies on
    /// this to forward an upstream's chunked body verbatim. A status without a
    /// body drops both the body and the length.
    pub fn frame(self, http11: bool) -> (r: Reply<M, F, S>)
        ensures
            is_framed(self, r, http11),
    {
        let mut r = self;
        if http::is_bodyless(r.resp.status) {
            r.body = Body::Empty;
            // 304 must not carry Content-Length; 204 must not either.
            r.resp.framing = Framing::Absent;
            return r;
        }
        if r.resp.framing != Framing::Absent {
            return r;
        }
        r.resp.framing = match r.body.known_len() {
            Some(n) => Framing::Length(n),
            None => if http11 {
                Framing::Chunked
            } else {
                Framing::UntilClose
            },
        };
        r
    }
}

/// Whatever the body, framing decides how it ends, unless there is none.
pub proof fn law_framing_is_decided(length: Option<int>, http11: bool)
    ensures
        framing_for(length, http11) != Framing::Absent,
        length is Some ==> framing_for(length, http11) is Length,
{
}

} // verus!
