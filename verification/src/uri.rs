//! Writing paths and text into URLs and HTML.

use vstd::prelude::*;
use vstd::string::*;

use crate::bytes;

verus! {

/// Bytes that stand for themselves in the path of a URL.
pub open spec fn is_plain(c: u8) -> bool {
    65 <= c <= 90 || 97 <= c <= 122 || 48 <= c <= 57 || c == 45 || c == 46 || c == 95 || c == 126
        || c == 47
}

/// An upper-case hexadecimal digit.
pub open spec fn upper_digit(d: int) -> u8 {
    if d < 10 {
        (48 + d) as u8
    } else {
        (55 + d) as u8
    }
}

/// One byte in the path of a URL.
pub open spec fn encoded_byte(c: u8) -> Seq<u8> {
    if is_plain(c) {
        seq![c]
    } else {
        seq![37u8, upper_digit(c as int / 16), upper_digit(c as int % 16)]
    }
}

/// A path in a URL.
pub open spec fn encoded(s: Seq<u8>) -> Seq<u8>
    decreases s.len(),
{
    if s.len() == 0 {
        Seq::empty()
    } else {
        encoded(s.drop_last()) + encoded_byte(s.last())
    }
}

fn digit(d: u8) -> (r: u8)
    requires
        d < 16,
    ensures
        r == upper_digit(d as int),
{
    if d < 10 {
        48 + d
    } else {
        55 + d
    }
}

/// Appends a path, percent-encoded.
pub fn encode_path(s: &[u8], out: &mut Vec<u8>)
    ensures
        final(out)@ == old(out)@ + encoded(s@),
{
    let ghost before = out@;
    assert(encoded(s@.subrange(0, 0)) =~= Seq::empty());
    for i in 0..s.len()
        invariant
            out@ == before + encoded(s@.subrange(0, i as int)),
    {
        let c: u8 = s[i];
        if (c >= 65 && c <= 90) || (c >= 97 && c <= 122) || (c >= 48 && c <= 57) || c == 45 || c
            == 46 || c == 95 || c == 126 || c == 47 {
            out.push(c);
        } else {
            out.push(37);
            out.push(digit(c / 16));
            out.push(digit(c % 16));
        }
        let ghost next = s@.subrange(0, i + 1);
        assert(next.drop_last() =~= s@.subrange(0, i as int));
        assert(next.last() == c);
        assert(out@ =~= before + encoded(next));
    }
    assert(s@.subrange(0, s@.len() as int) =~= s@);
}

/// One byte in the text of an HTML page.
pub open spec fn escaped_byte(c: u8) -> Seq<u8> {
    if c == 60 {
        bytes::utf8("&lt;"@)
    } else if c == 62 {
        bytes::utf8("&gt;"@)
    } else if c == 38 {
        bytes::utf8("&amp;"@)
    } else if c == 34 {
        bytes::utf8("&quot;"@)
    } else {
        seq![c]
    }
}

/// Text in an HTML page.
pub open spec fn escaped(s: Seq<u8>) -> Seq<u8>
    decreases s.len(),
{
    if s.len() == 0 {
        Seq::empty()
    } else {
        escaped(s.drop_last()) + escaped_byte(s.last())
    }
}

/// Appends text with the characters that HTML gives a meaning escaped.
pub fn escape_html(s: &[u8], out: &mut Vec<u8>)
    ensures
        final(out)@ == old(out)@ + escaped(s@),
{
    let ghost before = out@;
    assert(escaped(s@.subrange(0, 0)) =~= Seq::empty());
    for i in 0..s.len()
        invariant
            out@ == before + escaped(s@.subrange(0, i as int)),
    {
        let c: u8 = s[i];
        if c == 60 {
            out.extend_from_slice("&lt;".as_bytes());
        } else if c == 62 {
            out.extend_from_slice("&gt;".as_bytes());
        } else if c == 38 {
            out.extend_from_slice("&amp;".as_bytes());
        } else if c == 34 {
            out.extend_from_slice("&quot;".as_bytes());
        } else {
            out.push(c);
        }
        let ghost next = s@.subrange(0, i + 1);
        assert(next.drop_last() =~= s@.subrange(0, i as int));
        assert(next.last() == c);
        assert(out@ =~= before + escaped(next));
    }
    assert(s@.subrange(0, s@.len() as int) =~= s@);
}

/// What an encoded path holds: plain bytes and percent signs.
pub proof fn law_encoded_paths_are_plain(s: Seq<u8>)
    ensures
        forall|i: int|
            0 <= i < encoded(s).len() ==> is_plain(#[trigger] encoded(s)[i]) || encoded(s)[i]
                == 37,
    decreases s.len(),
{
    if s.len() > 0 {
        law_encoded_paths_are_plain(s.drop_last());
        assert forall|i: int| 0 <= i < encoded(s).len() implies is_plain(#[trigger] encoded(s)[i])
            || encoded(s)[i] == 37 by {
            let head = encoded(s.drop_last());
            if i < head.len() {
                assert(encoded(s)[i] == head[i]);
            } else {
                assert(encoded(s)[i] == encoded_byte(s.last())[i - head.len()]);
            }
        }
    }
}

proof fn lemma_entities()
    ensures
        forall|c: u8, i: int|
            0 <= i < escaped_byte(c).len() ==> {
                let b = #[trigger] escaped_byte(c)[i];
                b != 60 && b != 62 && b != 34
            },
{
    reveal_strlit("&lt;");
    reveal_strlit("&gt;");
    reveal_strlit("&amp;");
    reveal_strlit("&quot;");
    let lt = seq![38u8, 108, 116, 59];
    let gt = seq![38u8, 103, 116, 59];
    let amp = seq![38u8, 97, 109, 112, 59];
    let quot = seq![38u8, 113, 117, 111, 116, 59];
    bytes::lemma_ascii_text(lt);
    bytes::lemma_ascii_text(gt);
    bytes::lemma_ascii_text(amp);
    bytes::lemma_ascii_text(quot);
    assert(bytes::ascii_text(lt) =~= "&lt;"@);
    assert(bytes::ascii_text(gt) =~= "&gt;"@);
    assert(bytes::ascii_text(amp) =~= "&amp;"@);
    assert(bytes::ascii_text(quot) =~= "&quot;"@);
}

/// Escaped text cannot break out of an attribute or a text node: it holds neither
/// an angle bracket nor a quote.
pub proof fn law_escaped_text_is_inert(s: Seq<u8>)
    ensures
        forall|i: int|
            0 <= i < escaped(s).len() ==> {
                let b = #[trigger] escaped(s)[i];
                b != 60 && b != 62 && b != 34
            },
    decreases s.len(),
{
    lemma_entities();
    if s.len() > 0 {
        law_escaped_text_is_inert(s.drop_last());
        assert forall|i: int| 0 <= i < escaped(s).len() implies {
            let b = #[trigger] escaped(s)[i];
            b != 60 && b != 62 && b != 34
        } by {
            let head = escaped(s.drop_last());
            if i < head.len() {
                assert(escaped(s)[i] == head[i]);
            } else {
                assert(escaped(s)[i] == escaped_byte(s.last())[i - head.len()]);
            }
        }
    }
}

} // verus!
