//! Text: what the standard library's `String` and `str` do that the verifier
//! does not know by itself.

use vstd::prelude::*;
use vstd::string::*;

verus! {

/// `String::push_str` appends.
pub assume_specification[ String::push_str ](s: &mut String, t: &str)
    ensures
        final(s)@ == old(s)@ + t@,
;

/// `String::push` appends one character.
pub assume_specification[ String::push ](s: &mut String, c: char)
    ensures
        final(s)@ == old(s)@.push(c),
;

/// The text that bytes encode, when they encode one.
pub open spec fn decoded(s: Seq<u8>) -> Option<Seq<char>> {
    if vstd::utf8::valid_utf8(s) {
        Some(vstd::utf8::decode_utf8(s))
    } else {
        None
    }
}

/// Decodes bytes.
pub fn decode(s: &[u8]) -> (r: Option<&str>)
    ensures
        match r {
            Some(t) => decoded(s@) == Some(t@),
            None => decoded(s@) is None,
        },
{
    let r = crate::bytes::to_text(s);
    proof {
        if let Some(t) = r {
            vstd::utf8::encode_utf8_decode_utf8(t@);
        }
    }
    r
}

/// What `String::from_utf8_lossy` makes of bytes that are no valid UTF-8.
pub uninterp spec fn lossy_text(s: Seq<u8>) -> Seq<char>;

/// The text of bytes, with whatever is no valid UTF-8 replaced.
pub open spec fn lossy(s: Seq<u8>) -> Seq<char> {
    match decoded(s) {
        Some(t) => t,
        None => lossy_text(s),
    }
}

/// `String::from_utf8_lossy`: valid UTF-8 as it stands, and of anything else a
/// text that depends on the bytes alone.
#[verifier::external_body]
fn from_utf8_lossy(s: &[u8]) -> (r: String)
    ensures
        decoded(s@) matches Some(t) ==> r@ == t,
        decoded(s@) is None ==> r@ == lossy_text(s@),
{
    String::from_utf8_lossy(s).into_owned()
}

/// Decodes bytes, replacing whatever is no valid UTF-8.
pub fn decode_lossy(s: &[u8]) -> (r: String)
    ensures
        r@ == lossy(s@),
{
    from_utf8_lossy(s)
}

/// Texts joined with a separator between them.
pub open spec fn joined(parts: Seq<Seq<char>>, sep: Seq<char>) -> Seq<char>
    decreases parts.len(),
{
    if parts.len() == 0 {
        Seq::empty()
    } else if parts.len() == 1 {
        parts[0]
    } else {
        joined(parts.drop_last(), sep) + sep + parts.last()
    }
}

/// The contents of a list of texts.
pub open spec fn texts(v: Seq<String>) -> Seq<Seq<char>> {
    v.map_values(|s: String| s@)
}

/// Joins texts with a separator.
pub fn join(parts: &Vec<String>, sep: &str) -> (r: String)
    ensures
        r@ == joined(texts(parts@), sep@),
{
    let mut out: String = String::new();
    for i in 0..parts.len()
        invariant
            out@ == joined(texts(parts@).subrange(0, i as int), sep@),
    {
        let ghost before = texts(parts@).subrange(0, i as int);
        let ghost after = texts(parts@).subrange(0, i + 1);
        assert(after.drop_last() =~= before);
        if i > 0 {
            out.push_str(sep);
        }
        out.push_str(parts[i].as_str());
        assert(out@ =~= joined(after, sep@));
    }
    assert(texts(parts@).subrange(0, parts@.len() as int) =~= texts(parts@));
    out
}

/// Valid text on both sides of an ASCII byte.
pub proof fn lemma_valid_around_ascii(s: Seq<u8>, i: int)
    requires
        vstd::utf8::valid_utf8(s),
        0 <= i < s.len(),
        s[i] < 128,
    ensures
        vstd::utf8::valid_utf8(s.subrange(0, i)),
        vstd::utf8::valid_utf8(s.subrange(i + 1, s.len() as int)),
{
    let b = s[i];
    vstd::utf8::utf8_byte_ranges_bitwise(b);
    vstd::utf8::is_char_boundary_iff_not_is_continuation_byte(s, i);
    vstd::utf8::valid_utf8_split(s, i);
    let t = s.subrange(i, s.len() as int);
    assert(t[0] == b);
    assert(vstd::utf8::valid_utf8(t));
    assert(vstd::utf8::length_of_first_scalar(t) == 1);
    assert(t.subrange(1, t.len() as int) =~= s.subrange(i + 1, s.len() as int));
}

/// A number in decimal, as text.
pub open spec fn decimal_text(n: nat) -> Seq<char> {
    crate::bytes::ascii_text(crate::bytes::decimal(n))
}

/// Appends a number in decimal.
pub fn push_decimal(out: &mut String, n: u64)
    ensures
        final(out)@ == old(out)@ + decimal_text(n as nat),
{
    let mut v: Vec<u8> = Vec::new();
    crate::bytes::push_decimal(&mut v, n);
    proof {
        assert(v@ =~= crate::bytes::decimal(n as nat));
        crate::bytes::lemma_decimal_is_ascii(n as nat);
    }
    let s: String = crate::bytes::ascii_string(v.as_slice());
    out.push_str(s.as_str());
}

} // verus!
