//! `proxy_cache`: an on-disk content cache with an in-process index.
//!
//! The index that every request consults is held in memory, and only the
//! bodies live on disk.
//!
//! # On-disk entry format
//!
//! ```text
//!   magic "OXCH"        4
//!   version             1
//!   status              2   HTTP status of the cached response
//!   created             8   unix seconds
//!   expires             8   unix seconds
//!   key_len             2
//!   headers_len         4
//!   body_len            8
//!   key                 key_len     the full cache key, verified on read
//!   headers             headers_len "Name: Value\r\n" repeated
//!   body                body_len
//! ```
//!
//! The key is stored and compared on every hit. A hash collision would
//! otherwise serve one URL's response for another.

use vstd::prelude::*;
use vstd::string::*;

use crate::bytes;
use crate::text;

pub use crate::cache_index::{load, note_load, note_use, store, tracked_count, Entry, Index, Zone};
pub use crate::cache_index::{is_locked, release, stale_allowed, try_lock, FetchLock, Fetching, StaleWhen};
pub use crate::cache_manager::{is_temporary, needs_touch, ManagerStats, OnDisk, Pass};

verus! {

pub const VERSION: u8 = 1;

pub const HEADER_LEN: usize = 37;

// ---------------------------------------------------------------- status

/// What a cache lookup produced: `$upstream_cache_status`.
#[derive(Debug, Clone, Copy, PartialEq, Eq, Structural)]
pub enum CacheStatus {
    Miss,
    Hit,
    Expired,
    Bypass,
    Stale,
    Revalidated,
}

impl CacheStatus {
    pub open spec fn name(self) -> Seq<char> {
        match self {
            CacheStatus::Miss => "MISS"@,
            CacheStatus::Hit => "HIT"@,
            CacheStatus::Expired => "EXPIRED"@,
            CacheStatus::Bypass => "BYPASS"@,
            CacheStatus::Stale => "STALE"@,
            CacheStatus::Revalidated => "REVALIDATED"@,
        }
    }

    /// The name the variable and the logs show.
    pub fn as_str(self) -> (r: &'static str)
        ensures
            r@ == self.name(),
    {
        match self {
            CacheStatus::Miss => "MISS",
            CacheStatus::Hit => "HIT",
            CacheStatus::Expired => "EXPIRED",
            CacheStatus::Bypass => "BYPASS",
            CacheStatus::Stale => "STALE",
            CacheStatus::Revalidated => "REVALIDATED",
        }
    }
}

/// Whether an entry can be used as it is.
pub open spec fn fresh_at(expires: u64, now: u64) -> CacheStatus {
    if now >= expires { CacheStatus::Expired } else { CacheStatus::Hit }
}

/// Tells a fresh entry from one past its expiry.
pub fn freshness(expires: u64, now: u64) -> (r: CacheStatus)
    ensures
        r == fresh_at(expires, now),
{
    if now >= expires {
        CacheStatus::Expired
    } else {
        CacheStatus::Hit
    }
}

// ---------------------------------------------------------------- key digest

/// A 128-bit key digest.
///
/// Not a cryptographic hash: it only needs to spread keys across directories.
/// Correctness rests on comparing the stored key on read.
#[derive(Debug, Clone, Copy, PartialEq, Eq, Hash, Structural)]
pub struct KeyHash(pub u64, pub u64);

pub const FNV_PRIME: u64 = 0x100000001b3;

pub const FNV_OFFSET: u64 = 0xcbf29ce484222325;

pub const SECOND_OFFSET: u64 = 0x9e3779b97f4a7c15;

/// FNV-1a over a byte string.
pub open spec fn fnv(s: Seq<u8>) -> u64
    decreases s.len(),
{
    if s.len() == 0 {
        FNV_OFFSET
    } else {
        (fnv(s.drop_last()) ^ (s.last() as u64)).wrapping_mul(FNV_PRIME)
    }
}

/// The second pass: FNV with a rotation by five before each byte.
pub open spec fn fnv_rotated(s: Seq<u8>) -> u64
    decreases s.len(),
{
    if s.len() == 0 {
        SECOND_OFFSET
    } else {
        let b = fnv_rotated(s.drop_last());
        (((b << 5) | (b >> 59)) ^ (s.last() as u64)).wrapping_mul(FNV_PRIME)
    }
}

/// A path with one more component.
pub open spec fn with_component(dir: Seq<u8>, name: Seq<u8>) -> Seq<u8> {
    if dir.len() == 0 || dir.last() == 47 {
        dir + name
    } else {
        dir.push(47) + name
    }
}

/// A number, or zero in place of a negative one.
pub open spec fn at_least_zero(n: int) -> int {
    if n < 0 {
        0
    } else {
        n
    }
}

/// `dir` followed by the directories of `levels`, whose names are taken from
/// the end of the first `end` digits.
pub open spec fn level_dirs(dir: Seq<u8>, hex: Seq<u8>, end: int, levels: Seq<u8>) -> Seq<u8>
    decreases levels.len(),
{
    if levels.len() == 0 {
        dir
    } else {
        let start = at_least_zero(end - levels[0]);
        level_dirs(
            with_component(dir, hex.subrange(start, end)),
            hex,
            start,
            levels.subrange(1, levels.len() as int),
        )
    }
}

fn push_component(path: &mut Vec<u8>, name: &[u8])
    ensures
        final(path)@ == with_component(old(path)@, name@),
{
    if path.len() > 0 && path[path.len() - 1] != 47 {
        path.push(47);
    }
    path.extend_from_slice(name);
}

impl KeyHash {
    /// The digest in hexadecimal.
    pub open spec fn hex(self) -> Seq<u8> {
        bytes::hex_padded(self.0 as nat, 16) + bytes::hex_padded(self.1 as nat, 16)
    }

    /// Digests a cache key.
    pub fn of(key: &str) -> (r: KeyHash)
        ensures
            r.0 == fnv(bytes::utf8(key@)),
            r.1 == fnv_rotated(bytes::utf8(key@)),
    {
        let s: &[u8] = key.as_bytes();
        let mut a: u64 = FNV_OFFSET;
        let mut b: u64 = SECOND_OFFSET;
        for i in 0..s.len()
            invariant
                a == fnv(s@.subrange(0, i as int)),
                b == fnv_rotated(s@.subrange(0, i as int)),
        {
            assert(s@.subrange(0, i + 1).drop_last() =~= s@.subrange(0, i as int));
            a = (a ^ (s[i] as u64)).wrapping_mul(FNV_PRIME);
            b = (((b << 5) | (b >> 59)) ^ (s[i] as u64)).wrapping_mul(FNV_PRIME);
        }
        assert(s@.subrange(0, s@.len() as int) =~= s@);
        KeyHash(a, b)
    }

    fn hex_digits(self) -> (r: Vec<u8>)
        ensures
            r@ == self.hex(),
            r@.len() == 32,
            bytes::is_ascii(r@),
    {
        let mut v: Vec<u8> = Vec::new();
        bytes::push_hex_padded(&mut v, self.0, 16);
        bytes::push_hex_padded(&mut v, self.1, 16);
        proof {
            bytes::lemma_hex_padded(self.0 as nat, 16);
            bytes::lemma_hex_padded(self.1 as nat, 16);
            assert(v@ =~= self.hex());
        }
        v
    }

    /// The digest as 32 hexadecimal digits.
    pub fn to_hex(self) -> (r: String)
        ensures
            bytes::utf8(r@) == self.hex(),
    {
        bytes::ascii_string(self.hex_digits().as_slice())
    }

    /// Builds the on-disk path, splitting into subdirectories as `levels=`
    /// asks. Levels 1 and 2 on hash `...abc` give `.../c/ab/<hash>`, which keeps
    /// any one directory small. The level digits come from the end of the hash.
    pub fn path(self, root: &str, levels: &[u8]) -> (r: Vec<u8>)
        ensures
            r@ == with_component(
                level_dirs(bytes::utf8(root@), self.hex(), 32, levels@),
                self.hex(),
            ),
    {
        let hex: Vec<u8> = self.hex_digits();
        let mut p: Vec<u8> = bytes::copy(root.as_bytes());
        let mut end: usize = hex.len();
        let ghost full = level_dirs(p@, hex@, 32, levels@);
        assert(levels@.subrange(0, levels@.len() as int) =~= levels@);
        for i in 0..levels.len()
            invariant
                end <= hex@.len(),
                full == level_dirs(
                    p@,
                    hex@,
                    end as int,
                    levels@.subrange(i as int, levels@.len() as int),
                ),
        {
            let ghost left = levels@.subrange(i as int, levels@.len() as int);
            assert(left.subrange(1, left.len() as int) =~= levels@.subrange(
                i + 1,
                levels@.len() as int,
            ));
            let n: usize = levels[i] as usize;
            let start: usize = if n <= end {
                end - n
            } else {
                0
            };
            push_component(&mut p, &hex.as_slice()[start..end]);
            end = start;
        }
        push_component(&mut p, hex.as_slice());
        p
    }
}

// ---------------------------------------------------------------- entries

/// A header block as plain values: names and values, in order.
pub open spec fn header_bytes(headers: Seq<(String, String)>) -> Seq<(Seq<u8>, Seq<u8>)> {
    headers.map_values(|h: (String, String)| (bytes::utf8(h.0@), bytes::utf8(h.1@)))
}

pub open spec fn colon_space() -> Seq<u8> {
    seq![58u8, 32u8]
}

pub open spec fn crlf() -> Seq<u8> {
    seq![13u8, 10u8]
}

/// One header as it is stored.
pub open spec fn header_line(h: (Seq<u8>, Seq<u8>)) -> Seq<u8> {
    h.0 + colon_space() + h.1 + crlf()
}

/// The headers from the `i`th on as they are stored.
pub open spec fn header_block(hs: Seq<(Seq<u8>, Seq<u8>)>, i: int) -> Seq<u8>
    decreases hs.len() - i,
{
    if i < 0 || i >= hs.len() {
        Seq::empty()
    } else {
        header_line(hs[i]) + header_block(hs, i + 1)
    }
}

/// The header a stored line holds: the part before the first `": "` and the
/// part after it.
pub open spec fn header_of(line: Seq<u8>) -> Option<(Seq<u8>, Seq<u8>)> {
    let i = bytes::find_seq(line, colon_space(), 0);
    if i < 0 {
        None
    } else {
        Some((line.subrange(0, i), line.subrange(i + 2, line.len() as int)))
    }
}

/// The headers a stored block holds.
pub open spec fn headers_of(s: Seq<u8>) -> Seq<(Seq<u8>, Seq<u8>)>
    decreases s.len(),
{
    if s.len() == 0 {
        Seq::empty()
    } else {
        let i = bytes::find_seq(s, crlf(), 0);
        let line = if i < 0 {
            s
        } else {
            s.subrange(0, i)
        };
        let rest = if i < 0 || i + 2 > s.len() {
            Seq::empty()
        } else {
            s.subrange(i + 2, s.len() as int)
        };
        match header_of(line) {
            Some(h) => seq![h] + headers_of(rest),
            None => headers_of(rest),
        }
    }
}

/// The bytes of an entry.
pub open spec fn entry_bytes(
    key: Seq<u8>,
    status: nat,
    created: nat,
    expires: nat,
    block: Seq<u8>,
    body: Seq<u8>,
) -> Seq<u8> {
    bytes::utf8("OXCH"@) + seq![VERSION] + bytes::be(status, 2) + bytes::be(created, 8) + bytes::be(
        expires,
        8,
    ) + bytes::be(key.len(), 2) + bytes::be(block.len(), 4) + bytes::be(body.len(), 8) + key + block
        + body
}

/// A decoded cache entry.
#[derive(Debug, PartialEq, Eq)]
pub struct Decoded {
    pub status: u16,
    pub headers: Vec<(String, String)>,
    pub body: Vec<u8>,
    pub expires: u64,
    pub created: u64,
}

/// A decoded cache entry as plain values.
pub ghost struct DecodedView {
    pub status: nat,
    pub headers: Seq<(Seq<u8>, Seq<u8>)>,
    pub body: Seq<u8>,
    pub expires: nat,
    pub created: nat,
}

impl View for Decoded {
    type V = DecodedView;

    open spec fn view(&self) -> DecodedView {
        DecodedView {
            status: self.status as nat,
            headers: header_bytes(self.headers@),
            body: self.body@,
            expires: self.expires as nat,
            created: self.created as nat,
        }
    }
}

#[derive(Debug, PartialEq, Eq)]
pub enum DecodeError {
    /// Not one of our files, or a format from a different version.
    NotAnEntry,
    /// Truncated: a write that was interrupted.
    Truncated,
    /// The stored key differs, so this file belongs to another URL.
    KeyMismatch,
}

/// The number in `width` bytes of an entry.
pub open spec fn field(buf: Seq<u8>, at: int, width: int) -> nat {
    bytes::be_value(buf.subrange(at, at + width))
}

/// What a file holds for `key`.
pub open spec fn entry_of(buf: Seq<u8>, key: Seq<u8>) -> Result<DecodedView, DecodeError> {
    if buf.len() < HEADER_LEN {
        Err(DecodeError::Truncated)
    } else if buf.subrange(0, 4) != bytes::utf8("OXCH"@) || buf[4] != VERSION {
        Err(DecodeError::NotAnEntry)
    } else {
        let k = field(buf, 23, 2) as int;
        let h = field(buf, 25, 4) as int;
        let b = field(buf, 29, 8) as int;
        if buf.len() < HEADER_LEN + k + h + b {
            Err(DecodeError::Truncated)
        } else if buf.subrange(37, 37 + k) != key {
            Err(DecodeError::KeyMismatch)
        } else {
            let block = buf.subrange(37 + k, 37 + k + h);
            Ok(
                DecodedView {
                    status: field(buf, 5, 2),
                    created: field(buf, 7, 8),
                    expires: field(buf, 15, 8),
                    headers: if vstd::utf8::valid_utf8(block) {
                        headers_of(block)
                    } else {
                        Seq::empty()
                    },
                    body: buf.subrange(37 + k + h, 37 + k + h + b),
                },
            )
        }
    }
}

/// Serialises a response into the on-disk entry format. `now` and `ttl` are in
/// seconds.
pub fn encode_entry(
    key: &str,
    status: u16,
    headers: &[(String, String)],
    body: &[u8],
    ttl: u64,
    now: u64,
) -> (r: Vec<u8>)
    requires
        now + ttl <= u64::MAX,
    ensures
        r@ == entry_bytes(
            bytes::utf8(key@),
            status as nat,
            now as nat,
            (now + ttl) as nat,
            header_block(header_bytes(headers@), 0),
            body@,
        ),
{
    let mut hdr: Vec<u8> = Vec::new();
    let ghost hs = header_bytes(headers@);
    for i in 0..headers.len()
        invariant
            hs == header_bytes(headers@),
            hdr@ + header_block(hs, i as int) == header_block(hs, 0),
    {
        let ghost before = hdr@;
        hdr.extend_from_slice(headers[i].0.as_str().as_bytes());
        hdr.push(58);
        hdr.push(32);
        hdr.extend_from_slice(headers[i].1.as_str().as_bytes());
        hdr.push(13);
        hdr.push(10);
        proof {
            assert(hdr@ =~= before + header_line(hs[i as int]));
            assert(hdr@ + header_block(hs, i + 1) =~= before + header_block(hs, i as int));
        }
    }
    assert(hdr@ =~= header_block(hs, 0));
    let k: &[u8] = key.as_bytes();
    let mut out: Vec<u8> = Vec::new();
    out.extend_from_slice("OXCH".as_bytes());
    out.push(VERSION);
    bytes::push_be(&mut out, status as u64, 2);
    bytes::push_be(&mut out, now, 8);
    bytes::push_be(&mut out, now + ttl, 8);
    bytes::push_be(&mut out, k.len() as u64, 2);
    bytes::push_be(&mut out, hdr.len() as u64, 4);
    bytes::push_be(&mut out, body.len() as u64, 8);
    out.extend_from_slice(k);
    out.extend_from_slice(hdr.as_slice());
    out.extend_from_slice(body);
    out
}

/// Reads the stored header lines.
fn read_headers(block: &[u8]) -> (r: Vec<(String, String)>)
    ensures
        header_bytes(r@) == if vstd::utf8::valid_utf8(block@) {
            headers_of(block@)
        } else {
            Seq::empty()
        },
{
    let mut out: Vec<(String, String)> = Vec::new();
    assert(header_bytes(out@) =~= Seq::empty());
    if text::decode(block).is_none() {
        return out;
    }
    let sep: [u8; 2] = [58, 32];
    let end: [u8; 2] = [13, 10];
    let mut at: usize = 0;
    assert(sep@ =~= colon_space());
    assert(end@ =~= crlf());
    assert(block@.subrange(0, block@.len() as int) =~= block@);
    while at < block.len()
        invariant
            at <= block.len(),
            sep@ == colon_space(),
            end@ == crlf(),
            vstd::utf8::valid_utf8(block@.subrange(at as int, block@.len() as int)),
            header_bytes(out@) + headers_of(block@.subrange(at as int, block@.len() as int))
                == headers_of(block@),
        decreases block.len() - at,
    {
        let s: &[u8] = &block[at..block.len()];
        let found: Option<usize> = bytes::find_slice(s, end.as_slice(), 0);
        let stop: usize = match found {
            Some(i) => i,
            None => s.len(),
        };
        let line: &[u8] = &s[0..stop];
        proof {
            if let Some(i) = found {
                lemma_found(s@, crlf(), i as int);
                text::lemma_valid_around_ascii(s@, i as int);
                let t = s@.subrange(i + 1, s@.len() as int);
                assert(t[0] == 10);
                text::lemma_valid_around_ascii(t, 0);
                assert(t.subrange(1, t.len() as int) =~= s@.subrange(i + 2, s@.len() as int));
            } else {
                assert(s@.subrange(0, s@.len() as int) =~= s@);
            }
        }
        let ghost before = header_bytes(out@);
        if let Some(j) = bytes::find_slice(line, sep.as_slice(), 0) {
            proof {
                lemma_found(line@, colon_space(), j as int);
                text::lemma_valid_around_ascii(line@, j as int);
                let t = line@.subrange(j + 1, line@.len() as int);
                assert(t[0] == 32);
                text::lemma_valid_around_ascii(t, 0);
                assert(t.subrange(1, t.len() as int) =~= line@.subrange(
                    j + 2,
                    line@.len() as int,
                ));
            }
            if let Some(n) = bytes::to_text(&line[0..j]) {
                if let Some(v) = bytes::to_text(&line[j + 2..line.len()]) {
                    out.push((n.to_owned(), v.to_owned()));
                    assert(header_bytes(out@) =~= before.push(
                        (line@.subrange(0, j as int), line@.subrange(j + 2, line@.len() as int)),
                    ));
                }
            }
        }
        proof {
            let whole = s@;
            let rest = if found is Some {
                whole.subrange(stop + 2, whole.len() as int)
            } else {
                Seq::empty()
            };
            match header_of(line@) {
                Some(h) => {
                    assert(header_bytes(out@) == before.push(h));
                    assert(before.push(h) + headers_of(rest) =~= before + (seq![h] + headers_of(
                        rest,
                    )));
                },
                None => {
                    assert(header_bytes(out@) == before);
                },
            }
            assert(before + headers_of(whole) == header_bytes(out@) + headers_of(rest));
            if found is Some {
                assert(rest =~= block@.subrange(at + stop + 2, block@.len() as int));
            } else {
                assert(block@.subrange(block@.len() as int, block@.len() as int) =~= rest);
            }
        }
        at = match found {
            Some(i) => at + i + 2,
            None => block.len(),
        };
    }
    assert(headers_of(block@.subrange(at as int, block@.len() as int)) =~= Seq::empty());
    assert(header_bytes(out@) =~= headers_of(block@));
    out
}

/// Where a pattern is found, its bytes stand.
proof fn lemma_found(s: Seq<u8>, p: Seq<u8>, i: int)
    requires
        p.len() == 2,
        bytes::find_seq(s, p, 0) == i,
        0 <= i,
    ensures
        i + 2 <= s.len(),
        s[i] == p[0],
        s[i + 1] == p[1],
{
    lemma_found_from(s, p, 0, i);
    assert(s.subrange(i, i + 2)[0] == s[i]);
    assert(s.subrange(i, i + 2)[1] == s[i + 1]);
}

proof fn lemma_found_from(s: Seq<u8>, p: Seq<u8>, from: int, i: int)
    requires
        bytes::find_seq(s, p, from) == i,
        0 <= from,
        0 <= i,
    ensures
        i + p.len() <= s.len(),
        s.subrange(i, i + p.len()) == p,
    decreases s.len() + 1 - from,
{
    if from + p.len() <= s.len() && s.subrange(from, from + p.len()) != p {
        lemma_found_from(s, p, from + 1, i);
    }
}

/// Parses an entry and verifies it really belongs to `key`.
pub fn decode_entry(buf: &[u8], key: &str) -> (r: Result<Decoded, DecodeError>)
    ensures
        match r {
            Ok(d) => entry_of(buf@, bytes::utf8(key@)) == Ok::<DecodedView, DecodeError>(d@),
            Err(e) => entry_of(buf@, bytes::utf8(key@)) == Err::<DecodedView, DecodeError>(e),
        },
{
    if buf.len() < HEADER_LEN {
        return Err(DecodeError::Truncated);
    }
    if !bytes::is_text(&buf[0..4], "OXCH") || buf[4] != VERSION {
        return Err(DecodeError::NotAnEntry);
    }
    proof {
        bytes::lemma_pow256();
    }
    let status: u16 = bytes::read_be(buf, 5, 2) as u16;
    let created: u64 = bytes::read_be(buf, 7, 8);
    let expires: u64 = bytes::read_be(buf, 15, 8);
    let key_len: u64 = bytes::read_be(buf, 23, 2);
    let hdr_len: u64 = bytes::read_be(buf, 25, 4);
    let body_len: u64 = bytes::read_be(buf, 29, 8);
    // These three lengths come off the disk and a corrupt file can claim any
    // value it likes: each is compared with what is left.
    let left: u64 = (buf.len() - HEADER_LEN) as u64;
    if left < key_len + hdr_len || left - key_len - hdr_len < body_len {
        return Err(DecodeError::Truncated);
    }
    let k: usize = key_len as usize;
    let h: usize = hdr_len as usize;
    let b: usize = body_len as usize;
    // The check that makes a non-cryptographic digest safe.
    if !bytes::same(&buf[37..37 + k], key.as_bytes()) {
        return Err(DecodeError::KeyMismatch);
    }
    let headers: Vec<(String, String)> = read_headers(&buf[37 + k..37 + k + h]);
    let body: Vec<u8> = bytes::copy(&buf[37 + k + h..37 + k + h + b]);
    Ok(Decoded { status, headers, body, expires, created })
}

// ---------------------------------------------------------------- entry laws

/// A header that a stored line gives back: the name holds no `": "`, and
/// neither part holds a line break.
pub open spec fn is_storable(h: (Seq<u8>, Seq<u8>)) -> bool {
    &&& bytes::no_pair(h.0, 58, 32)
    &&& bytes::no_pair(h.0, 13, 10)
    &&& bytes::no_pair(h.1, 13, 10)
    &&& vstd::utf8::valid_utf8(h.0)
    &&& vstd::utf8::valid_utf8(h.1)
}

proof fn lemma_line_reads_back(h: (Seq<u8>, Seq<u8>), rest: Seq<u8>)
    requires
        is_storable(h),
    ensures
        headers_of(header_line(h) + rest) == seq![h] + headers_of(rest),
{
    let line = h.0 + colon_space() + h.1;
    assert(bytes::no_pair(line, 13, 10));
    bytes::lemma_find_pair(line, 13, 10, rest);
    let s = header_line(h) + rest;
    assert(s =~= line + crlf() + rest);
    assert(s.subrange(0, line.len() as int) =~= line);
    assert(s.subrange(line.len() + 2int, s.len() as int) =~= rest);
    bytes::lemma_find_pair(h.0, 58, 32, h.1);
    assert(line.subrange(0, h.0.len() as int) =~= h.0);
    assert(line.subrange(h.0.len() + 2int, line.len() as int) =~= h.1);
}

proof fn lemma_block_reads_back(hs: Seq<(Seq<u8>, Seq<u8>)>, i: int)
    requires
        0 <= i <= hs.len(),
        forall|j: int| 0 <= j < hs.len() ==> is_storable(#[trigger] hs[j]),
    ensures
        headers_of(header_block(hs, i)) == hs.subrange(i, hs.len() as int),
        vstd::utf8::valid_utf8(header_block(hs, i)),
    decreases hs.len() - i,
{
    if i < hs.len() {
        lemma_block_reads_back(hs, i + 1);
        lemma_line_reads_back(hs[i], header_block(hs, i + 1));
        assert(seq![hs[i]] + hs.subrange(i + 1, hs.len() as int) =~= hs.subrange(
            i,
            hs.len() as int,
        ));
        let h = hs[i];
        let sep = colon_space();
        assert(bytes::is_ascii(sep));
        assert(bytes::is_ascii(crlf()));
        bytes::lemma_ascii_text(sep);
        bytes::lemma_ascii_text(crlf());
        vstd::utf8::valid_utf8_concat(h.0, sep);
        vstd::utf8::valid_utf8_concat(h.0 + sep, h.1);
        vstd::utf8::valid_utf8_concat(h.0 + sep + h.1, crlf());
        vstd::utf8::valid_utf8_concat(header_line(h), header_block(hs, i + 1));
    } else {
        assert(hs.subrange(i, hs.len() as int) =~= Seq::empty());
    }
}

proof fn lemma_magic()
    ensures
        bytes::utf8("OXCH"@) == seq![79u8, 88u8, 67u8, 72u8],
{
    reveal_strlit("OXCH");
    let s = seq![79u8, 88u8, 67u8, 72u8];
    bytes::lemma_ascii_text(s);
    assert(bytes::ascii_text(s) =~= "OXCH"@);
}

/// The fixed part of an entry, field by field.
proof fn lemma_entry_layout(
    key: Seq<u8>,
    status: nat,
    created: nat,
    expires: nat,
    block: Seq<u8>,
    body: Seq<u8>,
)
    ensures
        ({
            let e = entry_bytes(key, status, created, expires, block, body);
            &&& e.len() == 37int + key.len() + block.len() + body.len()
            &&& e.subrange(0, 4) == bytes::utf8("OXCH"@)
            &&& e[4] == VERSION
            &&& e.subrange(5, 7) == bytes::be(status, 2)
            &&& e.subrange(7, 15) == bytes::be(created, 8)
            &&& e.subrange(15, 23) == bytes::be(expires, 8)
            &&& e.subrange(23, 25) == bytes::be(key.len(), 2)
            &&& e.subrange(25, 29) == bytes::be(block.len(), 4)
            &&& e.subrange(29, 37) == bytes::be(body.len(), 8)
            &&& e.subrange(37, 37int + key.len()) == key
            &&& e.subrange(37int + key.len(), 37int + key.len() + block.len()) == block
            &&& e.subrange(
                37int + key.len() + block.len(),
                37int + key.len() + block.len() + body.len(),
            ) == body
        }),
{
    lemma_magic();
    bytes::lemma_be_len(status, 2);
    bytes::lemma_be_len(created, 8);
    bytes::lemma_be_len(expires, 8);
    bytes::lemma_be_len(key.len(), 2);
    bytes::lemma_be_len(block.len(), 4);
    bytes::lemma_be_len(body.len(), 8);
    let e = entry_bytes(key, status, created, expires, block, body);
    assert(e.subrange(0, 4) =~= bytes::utf8("OXCH"@));
    assert(e.subrange(5, 7) =~= bytes::be(status, 2));
    assert(e.subrange(7, 15) =~= bytes::be(created, 8));
    assert(e.subrange(15, 23) =~= bytes::be(expires, 8));
    assert(e.subrange(23, 25) =~= bytes::be(key.len(), 2));
    assert(e.subrange(25, 29) =~= bytes::be(block.len(), 4));
    assert(e.subrange(29, 37) =~= bytes::be(body.len(), 8));
    assert(e.subrange(37, 37int + key.len()) =~= key);
    assert(e.subrange(37int + key.len(), 37int + key.len() + block.len()) =~= block);
    assert(e.subrange(
        37int + key.len() + block.len(),
        37int + key.len() + block.len() + body.len(),
    ) =~= body);
}

/// The numbers of an entry fit their fields.
pub open spec fn fits(
    key: Seq<u8>,
    status: nat,
    created: nat,
    expires: nat,
    block: Seq<u8>,
    body: Seq<u8>,
) -> bool {
    &&& status < 0x1_0000
    &&& created < 0x1_0000_0000_0000_0000
    &&& expires < 0x1_0000_0000_0000_0000
    &&& key.len() < 0x1_0000
    &&& block.len() < 0x1_0000_0000
    &&& body.len() < 0x1_0000_0000_0000_0000
}

/// What was stored is what is read back: status, headers, body and both times.
pub proof fn law_entry_round_trips(
    key: Seq<u8>,
    status: nat,
    created: nat,
    expires: nat,
    headers: Seq<(Seq<u8>, Seq<u8>)>,
    body: Seq<u8>,
)
    requires
        fits(key, status, created, expires, header_block(headers, 0), body),
        forall|j: int| 0 <= j < headers.len() ==> is_storable(#[trigger] headers[j]),
    ensures
        entry_of(
            entry_bytes(key, status, created, expires, header_block(headers, 0), body),
            key,
        ) == Ok::<DecodedView, DecodeError>(DecodedView { status, headers, body, expires, created }),
{
    let block = header_block(headers, 0);
    bytes::lemma_pow256();
    lemma_entry_layout(key, status, created, expires, block, body);
    bytes::lemma_be_round_trip(status, 2);
    bytes::lemma_be_round_trip(created, 8);
    bytes::lemma_be_round_trip(expires, 8);
    bytes::lemma_be_round_trip(key.len(), 2);
    bytes::lemma_be_round_trip(block.len(), 4);
    bytes::lemma_be_round_trip(body.len(), 8);
    lemma_block_reads_back(headers, 0);
    assert(headers.subrange(0, headers.len() as int) =~= headers);
}

/// An entry is refused for any other key than its own.
pub proof fn law_other_keys_are_refused(
    key: Seq<u8>,
    other: Seq<u8>,
    status: nat,
    created: nat,
    expires: nat,
    block: Seq<u8>,
    body: Seq<u8>,
)
    requires
        fits(key, status, created, expires, block, body),
        key != other,
    ensures
        entry_of(entry_bytes(key, status, created, expires, block, body), other) == Err::<
            DecodedView,
            DecodeError,
        >(DecodeError::KeyMismatch),
{
    bytes::lemma_pow256();
    lemma_entry_layout(key, status, created, expires, block, body);
    bytes::lemma_be_round_trip(key.len(), 2);
    bytes::lemma_be_round_trip(block.len(), 4);
    bytes::lemma_be_round_trip(body.len(), 8);
}

/// A response is only ever decoded from a file that stores that very key.
pub proof fn law_a_hit_holds_the_key(buf: Seq<u8>, key: Seq<u8>)
    requires
        entry_of(buf, key) is Ok,
    ensures
        buf.len() >= 37int + key.len(),
        buf.subrange(37, 37int + key.len()) == key,
{
}

/// A truncated entry is rejected at every length, whatever key it is read for.
pub proof fn law_truncated_entries_are_rejected(
    key: Seq<u8>,
    status: nat,
    created: nat,
    expires: nat,
    block: Seq<u8>,
    body: Seq<u8>,
    cut: int,
    wanted: Seq<u8>,
)
    requires
        fits(key, status, created, expires, block, body),
        0 <= cut < entry_bytes(key, status, created, expires, block, body).len(),
    ensures
        entry_of(
            entry_bytes(key, status, created, expires, block, body).subrange(0, cut),
            wanted,
        ) == Err::<DecodedView, DecodeError>(DecodeError::Truncated),
{
    bytes::lemma_pow256();
    let e = entry_bytes(key, status, created, expires, block, body);
    lemma_entry_layout(key, status, created, expires, block, body);
    bytes::lemma_be_round_trip(key.len(), 2);
    bytes::lemma_be_round_trip(block.len(), 4);
    bytes::lemma_be_round_trip(body.len(), 8);
    let p = e.subrange(0, cut);
    if cut >= HEADER_LEN {
        assert(p.subrange(0, 4) =~= e.subrange(0, 4));
        assert(p.subrange(23, 25) =~= e.subrange(23, 25));
        assert(p.subrange(25, 29) =~= e.subrange(25, 29));
        assert(p.subrange(29, 37) =~= e.subrange(29, 37));
    }
}

} // verus!
