//! Regular expressions.
//!
//! A pattern is kept as its text. Matching is the regex engine's; what follows
//! from a match is decided here.

use vstd::prelude::*;
use vstd::string::*;

use crate::bytes;
use crate::text;

verus! {

/// What the groups of a pattern capture in a text, the whole match first, or
/// nothing where the pattern does not match or is none.
pub uninterp spec fn regex_groups(pattern: Seq<char>, t: Seq<char>) -> Option<
    Seq<Option<Seq<char>>>,
>;

/// Whether a pattern matches a text; one that is none matches nothing.
pub uninterp spec fn regex_matches(pattern: Seq<char>, t: Seq<char>) -> bool;

/// Captured groups as plain values.
pub open spec fn group_texts(v: Seq<Option<String>>) -> Seq<Option<Seq<char>>> {
    v.map_values(
        |g: Option<String>|
            match g {
                Some(t) => Some(t@),
                None => None,
            },
    )
}

/// `regex::Regex::captures` with the pattern compiled by `regex::Regex::new`: the
/// groups it captures, as a function of the pattern and the text.
#[verifier::external_body]
fn captures(pattern: &str, t: &str) -> (r: Option<Vec<Option<String>>>)
    ensures
        match r {
            Some(v) => regex_groups(pattern@, t@) == Some(group_texts(v@)),
            None => regex_groups(pattern@, t@) is None,
        },
{
    let re = regex::Regex::new(pattern).ok()?;
    let caps = re.captures(t)?;
    Some(caps.iter().map(|m| m.map(|m| m.as_str().to_string())).collect())
}

/// `regex::Regex::is_match` with the pattern compiled by `regex::Regex::new`:
/// whether it matches, as a function of the pattern and the text.
#[verifier::external_body]
fn is_match(pattern: &str, t: &str) -> (r: bool)
    ensures
        r == regex_matches(pattern@, t@),
{
    match regex::Regex::new(pattern) {
        Ok(re) => re.is_match(t),
        Err(_) => false,
    }
}

/// Bytes of a captured group: one that did not take part captures nothing.
pub open spec fn group_bytes(g: Option<Seq<char>>) -> Seq<u8> {
    match g {
        Some(t) => bytes::utf8(t),
        None => Seq::empty(),
    }
}

/// The groups behind the whole match.
pub open spec fn numbered(groups: Seq<Option<Seq<char>>>) -> Seq<Seq<u8>> {
    Seq::new(
        if groups.len() > 0 {
            (groups.len() - 1) as nat
        } else {
            0
        },
        |i: int| group_bytes(groups[i + 1]),
    )
}

/// What `$1` and so on stand for after matching a pattern, if it matches. Bytes
/// that are no text match nothing.
pub open spec fn captured(pattern: Seq<char>, s: Seq<u8>) -> Option<Seq<Seq<u8>>> {
    match text::decoded(s) {
        Some(t) => match regex_groups(pattern, t) {
            Some(groups) => Some(numbered(groups)),
            None => None,
        },
        None => None,
    }
}

/// Whether a pattern matches bytes.
pub open spec fn found(pattern: Seq<char>, s: Seq<u8>) -> bool {
    match text::decoded(s) {
        Some(t) => regex_matches(pattern, t),
        None => false,
    }
}

/// Lists of bytes as plain values.
pub open spec fn views(v: Seq<Vec<u8>>) -> Seq<Seq<u8>> {
    v.map_values(|b: Vec<u8>| b@)
}

/// The groups behind the whole match, each as its own bytes.
pub fn numbered_groups(groups: &Vec<Option<String>>) -> (r: Vec<Vec<u8>>)
    ensures
        views(r@) == numbered(group_texts(groups@)),
{
    let mut out: Vec<Vec<u8>> = Vec::new();
    let ghost gs = group_texts(groups@);
    let mut i: usize = 1;
    while i < groups.len()
        invariant
            1 <= i,
            gs == group_texts(groups@),
            groups@.len() == 0 ==> i == 1,
            groups@.len() > 0 ==> i <= groups@.len(),
            out@.len() == i - 1,
            forall|k: int| 0 <= k < out@.len() ==> (#[trigger] out@[k])@ == group_bytes(gs[k + 1]),
        decreases groups.len() - i,
    {
        assert(gs[i as int] == match groups@[i as int] {
            Some(t) => Some(t@),
            None => None,
        });
        match &groups[i] {
            Some(t) => out.push(bytes::copy(t.as_str().as_bytes())),
            None => out.push(Vec::new()),
        }
        i = i + 1;
    }
    assert(views(out@) =~= numbered(gs));
    out
}

/// Matches a pattern and returns what `$1` and so on stand for.
pub fn capture(pattern: &str, s: &[u8]) -> (r: Option<Vec<Vec<u8>>>)
    ensures
        match r {
            Some(v) => captured(pattern@, s@) == Some(views(v@)),
            None => captured(pattern@, s@) is None,
        },
{
    match text::decode(s) {
        Some(t) => match captures(pattern, t) {
            Some(groups) => Some(numbered_groups(&groups)),
            None => None,
        },
        None => None,
    }
}

/// Tells whether a pattern matches.
pub fn matches(pattern: &str, s: &[u8]) -> (r: bool)
    ensures
        r == found(pattern@, s@),
{
    match text::decode(s) {
        Some(t) => is_match(pattern, t),
        None => false,
    }
}

} // verus!
