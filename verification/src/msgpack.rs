//! Minimal MessagePack encoder for the log sink.
//!
//! Only the types a log record actually contains: string-keyed maps, strings,
//! unsigned integers and floats.

use vstd::prelude::*;
use vstd::string::*;

use crate::bytes;

verus! {

/// A map header for `n` entries.
pub open spec fn map_bytes(n: nat) -> Seq<u8> {
    if n < 16 {
        seq![(0x80 + n) as u8]  // fixmap
    } else if n <= 0xffff {
        seq![0xdeu8] + bytes::be(n, 2)  // map16
    } else {
        seq![0xdfu8] + bytes::be(n, 4)  // map32
    }
}

/// Writes a map header for `n` entries.
pub fn map_header(out: &mut Vec<u8>, n: usize)
    ensures
        final(out)@ == old(out)@ + map_bytes(n as nat),
{
    if n < 16 {
        out.push(0x80 + n as u8);
    } else if n <= 0xffff {
        out.push(0xde);
        bytes::push_be(out, n as u64, 2);
    } else {
        out.push(0xdf);
        bytes::push_be(out, n as u64, 4);
    }
    assert(out@ =~= old(out)@ + map_bytes(n as nat));
}

/// A string's header and contents.
pub open spec fn str_bytes(s: Seq<u8>) -> Seq<u8> {
    let n = s.len();
    (if n < 32 {
        seq![(0xa0 + n) as u8]  // fixstr
    } else if n <= 0xff {
        seq![0xd9u8, n as u8]  // str8
    } else if n <= 0xffff {
        seq![0xdau8] + bytes::be(n, 2)  // str16
    } else {
        seq![0xdbu8] + bytes::be(n, 4)  // str32
    }) + s
}

/// Writes a string.
pub fn write_str(out: &mut Vec<u8>, s: &str)
    ensures
        final(out)@ == old(out)@ + str_bytes(bytes::utf8(s@)),
{
    let b: &[u8] = s.as_bytes();
    let n: usize = b.len();
    if n < 32 {
        out.push(0xa0 + n as u8);
    } else if n <= 0xff {
        out.push(0xd9);
        out.push(n as u8);
    } else if n <= 0xffff {
        out.push(0xda);
        bytes::push_be(out, n as u64, 2);
    } else {
        out.push(0xdb);
        bytes::push_be(out, n as u64, 4);
    }
    out.extend_from_slice(b);
    assert(out@ =~= old(out)@ + str_bytes(b@));
}

/// An unsigned integer in the narrowest form.
pub open spec fn uint_bytes(v: nat) -> Seq<u8> {
    if v < 128 {
        seq![v as u8]  // positive fixint
    } else if v <= 0xff {
        seq![0xccu8] + bytes::be(v, 1)
    } else if v <= 0xffff {
        seq![0xcdu8] + bytes::be(v, 2)
    } else if v <= 0xffff_ffff {
        seq![0xceu8] + bytes::be(v, 4)
    } else {
        seq![0xcfu8] + bytes::be(v, 8)
    }
}

/// Writes an unsigned integer.
pub fn write_uint(out: &mut Vec<u8>, v: u64)
    ensures
        final(out)@ == old(out)@ + uint_bytes(v as nat),
{
    if v < 128 {
        out.push(v as u8);
    } else if v <= 0xff {
        out.push(0xcc);
        bytes::push_be(out, v, 1);
    } else if v <= 0xffff {
        out.push(0xcd);
        bytes::push_be(out, v, 2);
    } else if v <= 0xffff_ffff {
        out.push(0xce);
        bytes::push_be(out, v, 4);
    } else {
        out.push(0xcf);
        bytes::push_be(out, v, 8);
    }
    assert(out@ =~= old(out)@ + uint_bytes(v as nat));
}

/// A double-precision number, given by its bits.
pub open spec fn double_bytes(bits: nat) -> Seq<u8> {
    seq![0xcbu8] + bytes::be(bits, 8)
}

/// Writes a double-precision number, given by its bits.
pub fn write_double(out: &mut Vec<u8>, bits: u64)
    ensures
        final(out)@ == old(out)@ + double_bytes(bits as nat),
{
    out.push(0xcb);
    bytes::push_be(out, bits, 8);
    assert(out@ =~= old(out)@ + double_bytes(bits as nat));
}

/// Entirely digits, of a value that an integer can have, and without the leading zero
/// that is significant in an identifier.
pub open spec fn is_numeric(s: Seq<u8>) -> bool {
    &&& s.len() > 0
    &&& bytes::all_digits(s)
    &&& s.len() == 1 || s[0] != 48
    &&& bytes::decimal_value(s) <= u64::MAX
}

/// Digits around exactly one dot.
pub open spec fn is_decimal(s: Seq<u8>) -> bool {
    &&& s.len() <= 24
    &&& exists|d: int|
        0 <= d < s.len() && #[trigger] s[d] == 46 && forall|i: int|
            0 <= i < s.len() && i != d ==> bytes::is_digit(#[trigger] s[i])
}

/// A log field as it is written. `decimal` holds the bits of the number the
/// field denotes, if it denotes one.
pub open spec fn auto_bytes(s: Seq<u8>, decimal: Option<u64>) -> Seq<u8> {
    if is_numeric(s) {
        uint_bytes(bytes::decimal_value(s))
    } else {
        match decimal {
            Some(bits) if is_decimal(s) => double_bytes(bits as nat),
            _ => str_bytes(s),
        }
    }
}

/// The number that a field of digits stands for.
fn numeric(s: &[u8]) -> (r: Option<u64>)
    ensures
        match r {
            Some(v) => is_numeric(s@) && v == bytes::decimal_value(s@),
            None => !is_numeric(s@),
        },
{
    if s.len() == 0 || s[0] == 43 || (s.len() > 1 && s[0] == 48) {
        assert(s@.len() > 0 && s@[0] == 43 ==> !bytes::is_digit(s@[0]));
        return None;
    }
    bytes::parse_unsigned(s, u64::MAX)
}

/// Tells whether a field has the shape of a decimal number.
pub fn decimal_shape(s: &[u8]) -> (r: bool)
    ensures
        r == is_decimal(s@),
{
    if s.len() > 24 {
        return false;
    }
    let dot: usize = bytes::find_from(s, 46, 0);
    if dot == s.len() {
        assert forall|d: int| 0 <= d < s@.len() implies #[trigger] s@[d] != 46 by {}
        return false;
    }
    for i in 0..s.len()
        invariant
            dot < s@.len(),
            s@[dot as int] == 46,
            forall|j: int| 0 <= j < i && j != dot ==> bytes::is_digit(#[trigger] s@[j]),
    {
        if i != dot && (s[i] < 48 || s[i] > 57) {
            proof {
                assert(!bytes::is_digit(s@[i as int]));
                assert forall|d: int| 0 <= d < s@.len() && #[trigger] s@[d] == 46 implies !(forall|
                    i: int,
                | 0 <= i < s@.len() && i != d ==> bytes::is_digit(#[trigger] s@[i])) by {
                    if d == i {
                        assert(!bytes::is_digit(s@[dot as int]));
                    }
                }
            }
            return false;
        }
    }
    true
}

/// Writes a value, choosing the narrowest sensible encoding.
///
/// Log fields arrive as text, but `$status` and `$body_bytes_sent` are far more
/// useful to a query engine as numbers than as strings: a field that is entirely
/// digits is written as an integer, and one that reads as a decimal
/// (`$request_time`) as a double. `decimal` holds the bits of the field read as
/// a double, when it can be read so.
pub fn write_auto(out: &mut Vec<u8>, s: &str, decimal: Option<u64>)
    ensures
        final(out)@ == old(out)@ + auto_bytes(bytes::utf8(s@), decimal),
{
    let b: &[u8] = s.as_bytes();
    if let Some(v) = numeric(b) {
        write_uint(out, v);
        return;
    } else if let Some(bits) = decimal {
        if decimal_shape(b) {
            write_double(out, bits);
            return;
        }
    }
    write_str(out, s);
}

// ---------------------------------------------------------------- laws

/// The integer at the front of some bytes, with its length.
pub open spec fn uint_of(s: Seq<u8>) -> Option<(nat, int)> {
    if s.len() < 1 {
        None
    } else if s[0] < 128 {
        Some((s[0] as nat, 1))
    } else if s[0] == 0xcc && s.len() >= 2 {
        Some((bytes::be_value(s.subrange(1, 2)), 2))
    } else if s[0] == 0xcd && s.len() >= 3 {
        Some((bytes::be_value(s.subrange(1, 3)), 3))
    } else if s[0] == 0xce && s.len() >= 5 {
        Some((bytes::be_value(s.subrange(1, 5)), 5))
    } else if s[0] == 0xcf && s.len() >= 9 {
        Some((bytes::be_value(s.subrange(1, 9)), 9))
    } else {
        None
    }
}

/// A written integer is read back.
pub proof fn law_integers_read_back(v: u64, rest: Seq<u8>)
    ensures
        uint_of(uint_bytes(v as nat) + rest) == Some(
            (v as nat, uint_bytes(v as nat).len() as int),
        ),
{
    bytes::lemma_pow256();
    let s = uint_bytes(v as nat) + rest;
    if v < 128 {
    } else if v <= 0xff {
        bytes::lemma_be_round_trip(v as nat, 1);
        assert(s.subrange(1, 2) =~= bytes::be(v as nat, 1));
    } else if v <= 0xffff {
        bytes::lemma_be_round_trip(v as nat, 2);
        assert(s.subrange(1, 3) =~= bytes::be(v as nat, 2));
    } else if v <= 0xffff_ffff {
        bytes::lemma_be_round_trip(v as nat, 4);
        assert(s.subrange(1, 5) =~= bytes::be(v as nat, 4));
    } else {
        bytes::lemma_be_round_trip(v as nat, 8);
        assert(s.subrange(1, 9) =~= bytes::be(v as nat, 8));
    }
}

/// The string at the front of some bytes.
pub open spec fn str_of(s: Seq<u8>) -> Option<Seq<u8>> {
    if s.len() < 1 {
        None
    } else {
        let (n, at) = if 0xa0 <= s[0] < 0xc0 {
            (s[0] - 0xa0, 1int)
        } else if s[0] == 0xd9 && s.len() >= 2 {
            (s[1] as int, 2int)
        } else if s[0] == 0xda && s.len() >= 3 {
            (bytes::be_value(s.subrange(1, 3)) as int, 3int)
        } else if s[0] == 0xdb && s.len() >= 5 {
            (bytes::be_value(s.subrange(1, 5)) as int, 5int)
        } else {
            (-1int, 0int)
        };
        if n < 0 || at + n > s.len() {
            None
        } else {
            Some(s.subrange(at, at + n))
        }
    }
}

/// A written string is read back, at any length below 2^32.
pub proof fn law_strings_read_back(t: Seq<u8>, rest: Seq<u8>)
    requires
        t.len() < 0x1_0000_0000,
    ensures
        str_of(str_bytes(t) + rest) == Some(t),
{
    bytes::lemma_pow256();
    let s = str_bytes(t) + rest;
    let n = t.len();
    if n < 32 {
        assert(s.subrange(1, 1 + n as int) =~= t);
    } else if n <= 0xff {
        assert(s.subrange(2, 2 + n as int) =~= t);
    } else if n <= 0xffff {
        bytes::lemma_be_round_trip(n, 2);
        assert(s.subrange(1, 3) =~= bytes::be(n, 2));
        assert(s.subrange(3, 3 + n as int) =~= t);
    } else {
        bytes::lemma_be_round_trip(n, 4);
        assert(s.subrange(1, 5) =~= bytes::be(n, 4));
        assert(s.subrange(5, 5 + n as int) =~= t);
    }
}

/// How many entries the map at the front of some bytes has, and the length of its
/// header.
pub open spec fn map_of(s: Seq<u8>) -> Option<(nat, int)> {
    if s.len() < 1 {
        None
    } else if 0x80 <= s[0] < 0x90 {
        Some(((s[0] - 0x80) as nat, 1))
    } else if s[0] == 0xde && s.len() >= 3 {
        Some((bytes::be_value(s.subrange(1, 3)), 3))
    } else if s[0] == 0xdf && s.len() >= 5 {
        Some((bytes::be_value(s.subrange(1, 5)), 5))
    } else {
        None
    }
}

/// A written map header is read back, for any number of entries below 2^32.
pub proof fn law_map_headers_read_back(n: nat, rest: Seq<u8>)
    requires
        n < 0x1_0000_0000,
    ensures
        map_of(map_bytes(n) + rest) == Some((n, map_bytes(n).len() as int)),
{
    bytes::lemma_pow256();
    let s = map_bytes(n) + rest;
    if n < 16 {
    } else if n <= 0xffff {
        bytes::lemma_be_round_trip(n, 2);
        assert(s.subrange(1, 3) =~= bytes::be(n, 2));
    } else {
        bytes::lemma_be_round_trip(n, 4);
        assert(s.subrange(1, 5) =~= bytes::be(n, 4));
    }
}

} // verus!
