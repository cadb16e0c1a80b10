//! Requests and responses as plain values.

use vstd::prelude::*;
use vstd::string::*;

use crate::bytes;

verus! {

/// One header, as it stands on the wire.
#[derive(Debug, Clone)]
pub struct Header {
    pub name: Vec<u8>,
    pub value: Vec<u8>,
}

/// A header as plain values.
pub type Field = (Seq<u8>, Seq<u8>);

pub open spec fn field(h: Header) -> Field {
    (h.name@, h.value@)
}

/// Headers as plain values.
pub open spec fn fields(hs: Seq<Header>) -> Seq<Field> {
    hs.map_values(|h: Header| field(h))
}

/// The place of the first header of a name, up to case, or the length.
pub open spec fn place_of(hs: Seq<Field>, name: Seq<u8>, from: int) -> int
    decreases hs.len() - from,
{
    if from < 0 || from >= hs.len() {
        hs.len() as int
    } else if bytes::same_name(hs[from].0, name) {
        from
    } else {
        place_of(hs, name, from + 1)
    }
}

/// The value of the first header of a name.
pub open spec fn value_of(hs: Seq<Field>, name: Seq<u8>) -> Option<Seq<u8>> {
    let i = place_of(hs, name, 0);
    if 0 <= i < hs.len() {
        Some(hs[i].1)
    } else {
        None
    }
}

/// Headers with one of a name replaced in place, or added behind the others.
pub open spec fn with_header(hs: Seq<Field>, name: Seq<u8>, value: Seq<u8>) -> Seq<Field> {
    let i = place_of(hs, name, 0);
    if 0 <= i < hs.len() {
        hs.update(i, (hs[i].0, value))
    } else {
        hs.push((name, value))
    }
}

/// Finds the first header of a name.
pub fn find_header(hs: &Vec<Header>, name: &[u8]) -> (r: Option<usize>)
    ensures
        match r {
            Some(i) => i < hs@.len() && place_of(fields(hs@), name@, 0) == i,
            None => place_of(fields(hs@), name@, 0) == hs@.len(),
        },
{
    let ghost fs = fields(hs@);
    for i in 0..hs.len()
        invariant
            fs == fields(hs@),
            place_of(fs, name@, 0) == place_of(fs, name@, i as int),
    {
        assert(fs[i as int] == field(hs@[i as int]));
        if bytes::same_ignoring_case(hs[i].name.as_slice(), name) {
            return Some(i);
        }
    }
    None
}

/// The value of the first header of a name.
pub fn header_value<'a>(hs: &'a Vec<Header>, name: &[u8]) -> (r: Option<&'a [u8]>)
    ensures
        match r {
            Some(v) => value_of(fields(hs@), name@) == Some(v@),
            None => value_of(fields(hs@), name@) is None,
        },
{
    match find_header(hs, name) {
        Some(i) => {
            assert(fields(hs@)[i as int] == field(hs@[i as int]));
            Some(hs[i].value.as_slice())
        },
        None => None,
    }
}

/// Makes a header out of text.
pub fn make_header(name: &str, value: &[u8]) -> (r: Header)
    ensures
        field(r) == (bytes::utf8(name@), value@),
{
    Header { name: bytes::copy(name.as_bytes()), value: bytes::copy(value) }
}

/// How the end of a response body is told.
#[derive(Debug, Clone, Copy, PartialEq, Eq, Structural)]
pub enum Framing {
    /// Not decided, or no body at all.
    Absent,
    Length(u64),
    Chunked,
    UntilClose,
}

/// A response head.
#[derive(Debug)]
pub struct Resp {
    pub status: u16,
    pub headers: Vec<Header>,
    pub framing: Framing,
    pub keep_alive: bool,
}

/// A response head as plain values.
#[verifier::ext_equal]
pub ghost struct RespView {
    pub status: u16,
    pub headers: Seq<Field>,
    pub framing: Framing,
    pub keep_alive: bool,
}

impl View for Resp {
    type V = RespView;

    open spec fn view(&self) -> RespView {
        RespView {
            status: self.status,
            headers: fields(self.headers@),
            framing: self.framing,
            keep_alive: self.keep_alive,
        }
    }
}

/// A response head with a status and nothing else.
pub open spec fn bare(status: u16) -> RespView {
    RespView { status, headers: Seq::empty(), framing: Framing::Absent, keep_alive: true }
}

impl Resp {
    /// An empty head with a status.
    pub fn new(status: u16) -> (r: Resp)
        ensures
            r@ == bare(status),
    {
        let r = Resp { status, headers: Vec::new(), framing: Framing::Absent, keep_alive: true };
        assert(fields(r.headers@) =~= Seq::empty());
        r
    }

    /// Adds a header behind the others.
    pub fn header(&mut self, name: &str, value: &[u8])
        ensures
            final(self)@ == (RespView {
                headers: old(self)@.headers.push((bytes::utf8(name@), value@)),
                ..old(self)@
            }),
    {
        self.headers.push(make_header(name, value));
        assert(fields(self.headers@) =~= fields(old(self).headers@).push(
            (bytes::utf8(name@), value@),
        ));
    }

    /// Adds a header whose name is in bytes.
    pub fn header_bytes(&mut self, name: &[u8], value: &[u8])
        ensures
            final(self)@ == (RespView {
                headers: old(self)@.headers.push((name@, value@)),
                ..old(self)@
            }),
    {
        self.headers.push(Header { name: bytes::copy(name), value: bytes::copy(value) });
        assert(fields(self.headers@) =~= fields(old(self).headers@).push((name@, value@)));
    }

    /// Replaces the first header of a name, or adds one.
    pub fn set(&mut self, name: &str, value: &[u8])
        ensures
            final(self)@ == (RespView {
                headers: with_header(old(self)@.headers, bytes::utf8(name@), value@),
                ..old(self)@
            }),
    {
        match find_header(&self.headers, name.as_bytes()) {
            Some(i) => {
                let ghost before = fields(self.headers@);
                assert(before[i as int] == field(self.headers@[i as int]));
                self.headers[i].value = bytes::copy(value);
                assert(fields(self.headers@) =~= before.update(
                    i as int,
                    (before[i as int].0, value@),
                ));
            },
            None => {
                self.header(name, value);
            },
        }
    }

    /// Tells whether there is a header of a name.
    pub fn has(&self, name: &str) -> (r: bool)
        ensures
            r == (value_of(self@.headers, bytes::utf8(name@)) is Some),
    {
        header_value(&self.headers, name.as_bytes()).is_some()
    }

    /// The value of the first header of a name.
    pub fn get(&self, name: &str) -> (r: Option<&[u8]>)
        ensures
            match r {
                Some(v) => value_of(self@.headers, bytes::utf8(name@)) == Some(v@),
                None => value_of(self@.headers, bytes::utf8(name@)) is None,
            },
    {
        header_value(&self.headers, name.as_bytes())
    }
}

/// Statuses whose responses have no body.
pub open spec fn bodyless(status: u16) -> bool {
    100 <= status < 200 || status == 204 || status == 304
}

pub fn is_bodyless(status: u16) -> (r: bool)
    ensures
        r == bodyless(status),
{
    (status >= 100 && status < 200) || status == 204 || status == 304
}

} // verus!
