//! Static file serving: path resolution, conditional requests and ranges.
//!
//! Looking at the filesystem, and reading dates, is the caller's; what is answered
//! is decided here.

use vstd::prelude::*;
use vstd::string::*;

use crate::bytes;
use crate::config::CoreConf;
use crate::config::IfModifiedSince;
use crate::config::Template;
use crate::ctx;
use crate::ctx::Ctx;
use crate::ctx::CtxView;
use crate::handler;
use crate::handler::Page;
use crate::handler::PageView;
use crate::http;
use crate::http::Framing;
use crate::http::Resp;
use crate::http::RespView;
use crate::reply::Body;
use crate::uri;

verus! {

/// Files at or below this size are read straight into the write buffer.
pub const INLINE_MAX: u64 = 65536;

/// Files at or below this size are memory-mapped; above it they are streamed.
pub const MMAP_MAX: u64 = 262144;

/// When a file was modified last.
#[derive(Debug, Clone, Copy, PartialEq, Eq, Structural)]
pub struct Mtime {
    pub secs: u64,
    pub nanos: u32,
}

/// What the date headers of a request say, in seconds since the epoch, where they
/// can be read.
#[derive(Debug, Clone, Copy, PartialEq, Eq, Structural)]
pub struct Dates {
    pub if_unmodified_since: Option<u64>,
    pub if_modified_since: Option<u64>,
    pub if_range: Option<u64>,
}

/// Why a path could not be opened.
#[derive(Debug, Clone, Copy, PartialEq, Eq, Structural)]
pub enum IoFailure {
    NotFound,
    PermissionDenied,
    NameTooLong,
    TooManyLinks,
    Other,
}

/// The status a failure to open a file is answered with.
pub open spec fn failure_status(e: IoFailure) -> u16 {
    match e {
        IoFailure::NotFound => 404u16,
        IoFailure::PermissionDenied => 403u16,
        IoFailure::NameTooLong => 404u16,
        IoFailure::TooManyLinks => 404u16,
        IoFailure::Other => 500u16,
    }
}

/// The status for a path that could not be opened. A name too long and friends are
/// client errors, not server faults.
pub fn io_status(e: IoFailure) -> (r: u16)
    ensures
        r == failure_status(e),
{
    match e {
        IoFailure::NotFound => 404,
        IoFailure::PermissionDenied => 403,
        IoFailure::NameTooLong => 404,
        IoFailure::TooManyLinks => 404,
        IoFailure::Other => 500,
    }
}

// ---------------------------------------------------------------- paths

/// The part of a URI behind a prefix; nothing where there is none.
pub open spec fn behind(u: Seq<u8>, n: int) -> Seq<u8> {
    if n > u.len() || (n < u.len() && 0x80 <= u[n] < 0xc0) {
        Seq::empty()
    } else {
        u.subrange(n, u.len() as int)
    }
}

/// A directory and what is in it, with one slash between them.
pub open spec fn under(base: Seq<u8>, rest: Seq<u8>) -> Seq<u8> {
    if rest.len() == 0 {
        base
    } else if base.len() > 0 && base.last() == 47 && rest[0] == 47 {
        base.drop_last() + rest
    } else if !(base.len() > 0 && base.last() == 47) && rest[0] != 47 {
        base + seq![47u8] + rest
    } else {
        base + rest
    }
}

/// How much of the URI the matched location takes; all of it where it matches by a
/// pattern.
pub open spec fn prefix_len(c: CtxView) -> int {
    match c.matched {
        Some(i) => if i < c.env.server.locations@.len() {
            match c.env.server.locations@[i as int].prefix {
                Some(p) => p@.len() as int,
                None => c.uri.len() as int,
            }
        } else {
            c.uri.len() as int
        },
        None => c.uri.len() as int,
    }
}

/// The path a URI stands for. With `alias`, the matched prefix is replaced; with
/// `root`, the URI is appended.
pub open spec fn mapped(c: CtxView) -> Seq<u8> {
    let core = ctx::core_of(c);
    match core.alias {
        Some(a) => under(ctx::shown(c, a), behind(c.uri, prefix_len(c))),
        None => ctx::shown(c, core.root) + c.uri,
    }
}

/// Maps a request URI onto a filesystem path using `root` or `alias`.
pub fn map_path(ctx: &Ctx) -> (r: Vec<u8>)
    ensures
        r@ == mapped(ctx@),
{
    let core: &CoreConf = ctx.matched_core();
    match &core.alias {
        Some(a) => {
            let n: usize = match ctx.matched {
                Some(i) => if i < ctx.env.server.locations.len() {
                    match &ctx.env.server.locations[i].prefix {
                        Some(p) => p.len(),
                        None => ctx.uri.len(),
                    }
                } else {
                    ctx.uri.len()
                },
                None => ctx.uri.len(),
            };
            let u: &[u8] = ctx.uri.as_slice();
            let mut p: Vec<u8> = ctx.render(a);
            let ghost base = p@;
            let ghost rest = behind(u@, n as int);
            if n >= u.len() || (u[n] >= 0x80 && u[n] < 0xc0) {
                assert(rest =~= Seq::empty());
                return p;
            }
            let slashed: bool = p.len() > 0 && p[p.len() - 1] == 47;
            if slashed && u[n] == 47 {
                p.pop();
                assert(p@ =~= base.drop_last());
            } else if !slashed && u[n] != 47 {
                p.push(47);
            }
            assert(rest[0] == u@[n as int]);
            p.extend_from_slice(&u[n..u.len()]);
            assert(p@ =~= under(base, rest));
            p
        },
        None => {
            let mut p: Vec<u8> = ctx.render(&core.root);
            p.extend_from_slice(ctx.uri.as_slice());
            p
        },
    }
}

/// The state once the path of a request is known: `$document_root` and
/// `$request_filename` are set.
pub open spec fn resolved(c: CtxView) -> CtxView {
    let rooted = CtxView { document_root: ctx::shown(c, ctx::root_template(c)), ..c };
    CtxView { filename: mapped(rooted), ..rooted }
}

/// Resolves the path of a request.
pub fn resolve(ctx: &mut Ctx)
    ensures
        final(ctx)@ == resolved(old(ctx)@),
{
    ctx.document_root = ctx.render(ctx.root_of());
    ctx.filename = map_path(ctx);
}

/// With `root`, no path leaves the root: it begins with it, and goes on with the
/// URI.
pub proof fn law_root_paths_stay_under_the_root(c: CtxView)
    requires
        ctx::core_of(c).alias is None,
    ensures
        bytes::starts(mapped(c), ctx::shown(c, ctx::core_of(c).root)),
        bytes::ends(mapped(c), c.uri),
{
    let root = ctx::shown(c, ctx::core_of(c).root);
    assert(mapped(c).subrange(0, root.len() as int) =~= root);
    assert(mapped(c).subrange(
        mapped(c).len() - c.uri.len(),
        mapped(c).len() as int,
    ) =~= c.uri);
}

// ---------------------------------------------------------------- validators

/// An entity tag: `"<hex mtime>-<hex size>"`.
pub open spec fn etag_text(secs: u64, size: u64) -> Seq<u8> {
    seq![34u8] + bytes::hex(secs as nat) + seq![45u8] + bytes::hex(size as nat) + seq![34u8]
}

/// The entity tag of a file.
pub fn make_etag(mtime: Mtime, size: u64) -> (r: Vec<u8>)
    ensures
        r@ == etag_text(mtime.secs, size),
{
    let mut s: Vec<u8> = Vec::new();
    s.push(34);
    bytes::push_hex(&mut s, mtime.secs);
    s.push(45);
    bytes::push_hex(&mut s, size);
    s.push(34);
    assert(s@ =~= etag_text(mtime.secs, size));
    s
}

/// An entity tag without the marks of a weak one.
pub open spec fn unweakened(s: Seq<u8>) -> Seq<u8>
    decreases s.len(),
{
    if s.len() >= 2 && s[0] == 87 && s[1] == 47 {
        unweakened(s.subrange(2, s.len() as int))
    } else {
        s
    }
}

fn unweaken(s: &[u8]) -> (r: &[u8])
    ensures
        r@ == unweakened(s@),
{
    let mut i: usize = 0;
    assert(s@.subrange(0, s@.len() as int) =~= s@);
    loop
        invariant
            i <= s.len(),
            unweakened(s@) == unweakened(s@.subrange(i as int, s@.len() as int)),
        decreases s.len() - i,
    {
        let ghost rest = s@.subrange(i as int, s@.len() as int);
        if s.len() - i >= 2 && s[i] == 87 && s[i + 1] == 47 {
            assert(rest.subrange(2, rest.len() as int) =~= s@.subrange(i + 2, s@.len() as int));
            i = i + 2;
        } else {
            return &s[i..s.len()];
        }
    }
}

/// Whether a list of entity tags names one. Weak comparison ignores the marks of
/// weak ones.
pub open spec fn lists(list: Seq<u8>, etag: Seq<u8>, weak: bool) -> bool
    decreases list.len(),
{
    let i = bytes::find(list, 44, 0);
    if i < 0 || i > list.len() {
        false
    } else {
        let part = bytes::trimmed(list.subrange(0, i));
        let tag = if weak {
            unweakened(part)
        } else {
            part
        };
        tag == unweakened(etag) || (i < list.len() && lists(
            list.subrange(i + 1, list.len() as int),
            etag,
            weak,
        ))
    }
}

/// Matches a comma-separated list of entity tags.
pub fn etag_list_matches(list: &[u8], etag: &[u8], weak: bool) -> (r: bool)
    ensures
        r == lists(list@, etag@, weak),
{
    let target: &[u8] = unweaken(etag);
    let mut from: usize = 0;
    assert(list@.subrange(0, list@.len() as int) =~= list@);
    loop
        invariant
            from <= list.len(),
            target@ == unweakened(etag@),
            lists(list@, etag@, weak) == lists(
                list@.subrange(from as int, list@.len() as int),
                etag@,
                weak,
            ),
        decreases list.len() - from,
    {
        let rest: &[u8] = &list[from..list.len()];
        let i: usize = bytes::find_from(rest, 44, 0);
        let part: &[u8] = bytes::trim(&rest[0..i]);
        let tag: &[u8] = if weak {
            unweaken(part)
        } else {
            part
        };
        if bytes::same(tag, target) {
            return true;
        }
        if i >= rest.len() {
            return false;
        }
        assert(rest@.subrange(i + 1, rest@.len() as int) =~= list@.subrange(
            from + i + 1,
            list@.len() as int,
        ));
        from = from + i + 1;
    }
}

/// Whether a file was modified after a moment.
pub open spec fn is_later(m: Mtime, t: u64) -> bool {
    m.secs > t || (m.secs == t && m.nanos > 0)
}

/// The status a conditional request is answered with, before anything of the file
/// is read. `If-Match` and `If-Unmodified-Since` gate it; `If-None-Match` takes
/// precedence over `If-Modified-Since`, which is compared in whole seconds.
pub open spec fn precondition(
    c: CtxView,
    core: CoreConf,
    etag: Seq<u8>,
    m: Mtime,
    dates: Dates,
) -> Option<u16> {
    let star = seq![42u8];
    let gated = match ctx::header_of(c, "if-match"@) {
        Some(v) => bytes::trimmed(v) != star && !lists(v, etag, false),
        None => match dates.if_unmodified_since {
            Some(t) => is_later(m, t),
            None => false,
        },
    };
    if gated {
        Some(412)
    } else {
        match ctx::header_of(c, "if-none-match"@) {
            Some(v) => if bytes::trimmed(v) == star || lists(v, etag, true) {
                Some(304)
            } else {
                None
            },
            None => match dates.if_modified_since {
                Some(t) => if core.if_modified_since != IfModifiedSince::Off && m.secs <= t {
                    Some(304)
                } else {
                    None
                },
                None => None,
            },
        }
    }
}

fn is_star(v: &[u8]) -> (r: bool)
    ensures
        r == (bytes::trimmed(v@) == seq![42u8]),
{
    let t: &[u8] = bytes::trim(v);
    let r: bool = t.len() == 1 && t[0] == 42;
    assert(r == (t@ =~= seq![42u8]));
    r
}

/// Decides whether a conditional request is answered at once.
pub fn evaluate_preconditions(
    ctx: &Ctx,
    core: &CoreConf,
    etag: &[u8],
    m: Mtime,
    dates: Dates,
) -> (r: Option<u16>)
    ensures
        r == precondition(ctx@, *core, etag@, m, dates),
{
    let hs = &ctx.env.req.headers;
    if let Some(v) = http::header_value(hs, "if-match".as_bytes()) {
        if !is_star(v) && !etag_list_matches(v, etag, false) {
            return Some(412);
        }
    } else if let Some(t) = dates.if_unmodified_since {
        if m.secs > t || (m.secs == t && m.nanos > 0) {
            return Some(412);
        }
    }
    if let Some(v) = http::header_value(hs, "if-none-match".as_bytes()) {
        if is_star(v) || etag_list_matches(v, etag, true) {
            return Some(304);
        }
        return None;
    }
    if core.if_modified_since == IfModifiedSince::Off {
        return None;
    }
    match dates.if_modified_since {
        Some(t) => if m.secs <= t {
            Some(304)
        } else {
            None
        },
        None => None,
    }
}

/// Whether a range may be served: `If-Range` names this very entity, or is absent.
pub open spec fn range_applies(c: CtxView, etag: Seq<u8>, m: Mtime, dates: Dates) -> bool {
    match ctx::header_of(c, "if-range"@) {
        None => true,
        Some(h) => {
            let v = bytes::trimmed(h);
            if (v.len() > 0 && v[0] == 34) || bytes::starts(v, bytes::utf8("W/"@)) {
                v == etag
            } else {
                dates.if_range == Some(m.secs)
            }
        },
    }
}

fn if_range_matches(ctx: &Ctx, etag: &[u8], m: Mtime, dates: Dates) -> (r: bool)
    ensures
        r == range_applies(ctx@, etag@, m, dates),
{
    match http::header_value(&ctx.env.req.headers, "if-range".as_bytes()) {
        None => true,
        Some(h) => {
            let v: &[u8] = bytes::trim(h);
            if (v.len() > 0 && v[0] == 34) || bytes::starts_with(v, "W/".as_bytes()) {
                bytes::same(v, etag)
            } else {
                match dates.if_range {
                    Some(t) => t == m.secs,
                    None => false,
                }
            }
        },
    }
}

// ---------------------------------------------------------------- ranges

/// What a `Range` header asks for.
#[derive(Debug, Clone, Copy, PartialEq, Eq, Structural)]
pub enum RangeSpec {
    /// No usable range: the whole entity.
    Whole,
    Unsatisfiable,
    /// From the first place up to, and without, the second.
    One(u64, u64),
}

/// What a range of two ends asks for.
pub open spec fn bounded(a: Seq<u8>, b: Seq<u8>, size: u64) -> RangeSpec {
    let max = u64::MAX as nat;
    if a.len() == 0 {
        // The final bytes.
        match bytes::unsigned_within(b, max) {
            None => RangeSpec::Whole,
            Some(n) => if n == 0 {
                RangeSpec::Unsatisfiable
            } else if n < size {
                RangeSpec::One((size - n) as u64, size)
            } else {
                RangeSpec::One(0, size)
            },
        }
    } else {
        match bytes::unsigned_within(a, max) {
            None => RangeSpec::Whole,
            Some(start) => if start >= size {
                RangeSpec::Unsatisfiable
            } else if b.len() == 0 {
                RangeSpec::One(start as u64, size)
            } else {
                match bytes::unsigned_within(b, max) {
                    None => RangeSpec::Whole,
                    // The end is inclusive on the wire.
                    Some(n) => if n < start {
                        RangeSpec::Unsatisfiable
                    } else if n + 1 < size {
                        RangeSpec::One(start as u64, (n + 1) as u64)
                    } else {
                        RangeSpec::One(start as u64, size)
                    },
                }
            },
        }
    }
}

/// What a `Range` header asks for. Only single ranges are honoured; several degrade
/// to the whole entity.
pub open spec fn range_spec(h: Seq<u8>, size: u64) -> RangeSpec {
    let t = bytes::trimmed(h);
    let unit = bytes::utf8("bytes="@);
    if !bytes::starts(t, unit) {
        RangeSpec::Whole
    } else {
        let list = t.subrange(unit.len() as int, t.len() as int);
        let first = bytes::trimmed(list);
        let d = bytes::find(first, 45, 0);
        if bytes::has(list, 44) || d >= first.len() {
            RangeSpec::Whole
        } else {
            bounded(first.subrange(0, d), first.subrange(d + 1, first.len() as int), size)
        }
    }
}

fn bound(a: &[u8], b: &[u8], size: u64) -> (r: RangeSpec)
    ensures
        r == bounded(a@, b@, size),
{
    if a.len() == 0 {
        return match bytes::parse_unsigned(b, u64::MAX) {
            None => RangeSpec::Whole,
            Some(n) => if n == 0 {
                RangeSpec::Unsatisfiable
            } else if n < size {
                RangeSpec::One(size - n, size)
            } else {
                RangeSpec::One(0, size)
            },
        };
    }
    match bytes::parse_unsigned(a, u64::MAX) {
        None => RangeSpec::Whole,
        Some(start) => if start >= size {
            RangeSpec::Unsatisfiable
        } else if b.len() == 0 {
            RangeSpec::One(start, size)
        } else {
            match bytes::parse_unsigned(b, u64::MAX) {
                None => RangeSpec::Whole,
                Some(n) => if n < start {
                    RangeSpec::Unsatisfiable
                } else if n < size - 1 {
                    RangeSpec::One(start, n + 1)
                } else {
                    RangeSpec::One(start, size)
                },
            }
        },
    }
}

/// Parses a `Range` header.
pub fn parse_range(h: &[u8], size: u64) -> (r: RangeSpec)
    ensures
        r == range_spec(h@, size),
{
    let t: &[u8] = bytes::trim(h);
    let unit: &[u8] = "bytes=".as_bytes();
    if !bytes::starts_with(t, unit) {
        return RangeSpec::Whole;
    }
    let list: &[u8] = &t[unit.len()..t.len()];
    if bytes::contains(list, 44) {
        return RangeSpec::Whole;
    }
    let first: &[u8] = bytes::trim(list);
    let d: usize = bytes::find_from(first, 45, 0);
    if d >= first.len() {
        return RangeSpec::Whole;
    }
    bound(&first[0..d], &first[d + 1..first.len()], size)
}

/// A range lies within the file, and is empty only where the file is.
pub proof fn law_ranges_lie_within_the_file(h: Seq<u8>, size: u64)
    ensures
        range_spec(h, size) matches RangeSpec::One(start, end) ==> start <= end <= size && (size
            > 0 ==> start < end),
{
}

// ---------------------------------------------------------------- files

/// What came of serving a path.
#[derive(Debug)]
pub enum Served {
    Page(Page),
    /// A head, and the part of the file behind it.
    File { resp: Resp, start: u64, len: u64 },
    /// Route again, to this URI.
    Internal(Vec<u8>),
    Status(u16),
    /// Send a listing of the directory.
    Autoindex,
}

/// What came of serving a path, as plain values.
#[verifier::ext_equal]
pub ghost enum ServedView {
    Page(PageView),
    File { resp: RespView, start: u64, len: u64 },
    Internal(Seq<u8>),
    Status(u16),
    Autoindex,
}

impl View for Served {
    type V = ServedView;

    open spec fn view(&self) -> ServedView {
        match self {
            Served::Page(p) => ServedView::Page(p@),
            Served::File { resp, start, len } => ServedView::File {
                resp: resp@,
                start: *start,
                len: *len,
            },
            Served::Internal(u) => ServedView::Internal(u@),
            Served::Status(c) => ServedView::Status(*c),
            Served::Autoindex => ServedView::Autoindex,
        }
    }
}

/// The `Content-Type` of a file: its own or the default one, with the charset where
/// it is text.
pub open spec fn content_type(core: CoreConf, mime: Option<Seq<u8>>) -> Seq<u8> {
    let base = match mime {
        Some(t) => t,
        None => core.default_type@,
    };
    match core.charset {
        Some(cs) => if bytes::starts(base, bytes::utf8("text/"@)) || base == bytes::utf8(
            "application/javascript"@,
        ) {
            base + bytes::utf8("; charset="@) + cs@
        } else {
            base
        },
        None => base,
    }
}

fn write_content_type(core: &CoreConf, mime: Option<&[u8]>) -> (r: Vec<u8>)
    ensures
        r@ == content_type(
            *core,
            match mime {
                Some(t) => Some(t@),
                None => None,
            },
        ),
{
    let base: &[u8] = match mime {
        Some(t) => t,
        None => core.default_type.as_slice(),
    };
    let mut out: Vec<u8> = bytes::copy(base);
    if let Some(cs) = &core.charset {
        if bytes::starts_with(base, "text/".as_bytes()) || bytes::is_text(
            base,
            "application/javascript",
        ) {
            out.extend_from_slice("; charset=".as_bytes());
            out.extend_from_slice(cs.as_slice());
        }
    }
    out
}

/// Methods a file is served to.
pub open spec fn may_read(method: Seq<u8>) -> bool {
    method == bytes::utf8("GET"@) || method == bytes::utf8("HEAD"@) || method == bytes::utf8(
        "OPTIONS"@,
    )
}

/// A file that is asked for.
#[derive(Debug, Clone, Copy)]
pub struct FileInfo<'a> {
    pub size: u64,
    pub mtime: Mtime,
    /// Its media type, where its name tells.
    pub mime: Option<&'a [u8]>,
    /// When it was modified, as an HTTP date.
    pub last_modified: &'a [u8],
}

/// The headers every reply with a file has.
pub open spec fn file_headers(core: CoreConf, f: FileInfo) -> Seq<http::Field> {
    let mime = match f.mime {
        Some(t) => Some(t@),
        None => None,
    };
    let dated = seq![
        (bytes::utf8("Content-Type"@), content_type(core, mime)),
        (bytes::utf8("Last-Modified"@), f.last_modified@),
    ];
    let tagged = if core.etag {
        dated.push((bytes::utf8("ETag"@), etag_text(f.mtime.secs, f.size)))
    } else {
        dated
    };
    tagged.push((bytes::utf8("Accept-Ranges"@), bytes::utf8("bytes"@)))
}

/// The headers of a reply to a conditional request: a 304 repeats the validators.
pub open spec fn validators(core: CoreConf, f: FileInfo, status: u16) -> Seq<http::Field> {
    if status != 304 {
        Seq::empty()
    } else if core.etag {
        seq![
            (bytes::utf8("ETag"@), etag_text(f.mtime.secs, f.size)),
            (bytes::utf8("Last-Modified"@), f.last_modified@),
        ]
    } else {
        seq![(bytes::utf8("Last-Modified"@), f.last_modified@)]
    }
}

/// A range as it can be served: one without a byte, such as the final bytes of an empty
/// file, has no place that a `Content-Range` could name.
pub open spec fn with_a_byte(range: RangeSpec) -> RangeSpec {
    match range {
        RangeSpec::One(start, end) => if start < end {
            range
        } else {
            RangeSpec::Unsatisfiable
        },
        _ => range,
    }
}

fn servable(range: RangeSpec) -> (r: RangeSpec)
    ensures
        r == with_a_byte(range),
{
    match range {
        RangeSpec::One(start, end) => if start < end {
            range
        } else {
            RangeSpec::Unsatisfiable
        },
        _ => range,
    }
}

/// The range a request is served.
pub open spec fn requested(c: CtxView, core: CoreConf, f: FileInfo, dates: Dates) -> RangeSpec {
    match ctx::header_of(c, "range"@) {
        Some(h) => if core.max_ranges != Some(0u64) && range_applies(
            c,
            etag_text(f.mtime.secs, f.size),
            f.mtime,
            dates,
        ) {
            with_a_byte(range_spec(h, f.size))
        } else {
            RangeSpec::Whole
        },
        None => RangeSpec::Whole,
    }
}

/// The `Content-Range` of a part.
pub open spec fn content_range(start: u64, end: u64, size: u64) -> Seq<u8> {
    bytes::utf8("bytes "@) + bytes::decimal(start as nat) + seq![45u8] + bytes::decimal(
        (end - 1) as nat,
    ) + seq![47u8] + bytes::decimal(size as nat)
}

/// A head with the part of the file behind it; `HEAD` gets every header but no body.
pub open spec fn with_part(c: CtxView, resp: RespView, start: u64, len: u64) -> ServedView {
    if c.env.req.method@ == bytes::utf8("HEAD"@) {
        ServedView::Page(
            PageView { resp: RespView { framing: Framing::Length(len), ..resp }, body: None },
        )
    } else {
        ServedView::File { resp, start, len }
    }
}

/// What a request for a file is answered with.
pub open spec fn file_served(c: CtxView, core: CoreConf, f: FileInfo, dates: Dates) -> ServedView {
    let etag = etag_text(f.mtime.secs, f.size);
    let ok = RespView { headers: file_headers(core, f), ..http::bare(200) };
    if !may_read(c.env.req.method@) {
        ServedView::Status(405)
    } else {
        match precondition(c, core, etag, f.mtime, dates) {
            Some(status) => ServedView::Page(
                PageView {
                    resp: RespView {
                        headers: validators(core, f, status),
                        ..http::bare(status)
                    },
                    body: None,
                },
            ),
            None => match requested(c, core, f, dates) {
                RangeSpec::Unsatisfiable => ServedView::Page(
                    PageView {
                        resp: RespView {
                            status: 416,
                            headers: ok.headers.push(
                                (
                                    bytes::utf8("Content-Range"@),
                                    bytes::utf8("bytes */"@) + bytes::decimal(f.size as nat),
                                ),
                            ),
                            ..ok
                        },
                        body: None,
                    },
                ),
                RangeSpec::One(start, end) => with_part(
                    c,
                    RespView {
                        status: 206,
                        headers: ok.headers.push(
                            (
                                bytes::utf8("Content-Range"@),
                                content_range(start, end, f.size),
                            ),
                        ),
                        ..ok
                    },
                    start,
                    (end - start) as u64,
                ),
                RangeSpec::Whole => with_part(c, ok, 0, f.size),
            },
        }
    }
}

fn finish_file(ctx: &Ctx, resp: Resp, start: u64, len: u64) -> (r: Served)
    ensures
        r@ == with_part(ctx@, resp@, start, len),
{
    if bytes::is_text(ctx.env.req.method.as_slice(), "HEAD") {
        let mut head = resp;
        head.framing = Framing::Length(len);
        return Served::Page(Page { resp: head, body: None });
    }
    Served::File { resp, start, len }
}

fn file_head(core: &CoreConf, f: FileInfo, etag: &[u8]) -> (r: Resp)
    requires
        etag@ == etag_text(f.mtime.secs, f.size),
    ensures
        r@ == (RespView { headers: file_headers(*core, f), ..http::bare(200) }),
{
    let mut resp = Resp::new(200);
    let kind: Vec<u8> = write_content_type(core, f.mime);
    resp.header("Content-Type", kind.as_slice());
    resp.header("Last-Modified", f.last_modified);
    if core.etag {
        resp.header("ETag", etag);
    }
    resp.header("Accept-Ranges", "bytes".as_bytes());
    assert(resp@.headers =~= file_headers(*core, f));
    resp
}

/// Serves a file: its head, and which part of it follows.
pub fn serve_file(ctx: &Ctx, core: &CoreConf, f: FileInfo, dates: Dates) -> (r: Served)
    ensures
        r@ == file_served(ctx@, *core, f, dates),
{
    let method: &[u8] = ctx.env.req.method.as_slice();
    if !(bytes::is_text(method, "GET") || bytes::is_text(method, "HEAD") || bytes::is_text(
        method,
        "OPTIONS",
    )) {
        return Served::Status(405);
    }
    let etag: Vec<u8> = make_etag(f.mtime, f.size);
    if let Some(status) = evaluate_preconditions(ctx, core, etag.as_slice(), f.mtime, dates) {
        let mut resp = Resp::new(status);
        if status == 304 {
            if core.etag {
                resp.header("ETag", etag.as_slice());
            }
            resp.header("Last-Modified", f.last_modified);
        }
        assert(resp@.headers =~= validators(*core, f, status));
        return Served::Page(Page { resp, body: None });
    }
    let mut resp: Resp = file_head(core, f, etag.as_slice());
    let no_ranges: bool = match core.max_ranges {
        Some(n) => n == 0,
        None => false,
    };
    let range: RangeSpec = match http::header_value(&ctx.env.req.headers, "range".as_bytes()) {
        Some(h) => if !no_ranges && if_range_matches(ctx, etag.as_slice(), f.mtime, dates) {
            servable(parse_range(h, f.size))
        } else {
            RangeSpec::Whole
        },
        None => RangeSpec::Whole,
    };
    assert(range == requested(ctx@, *core, f, dates));
    match range {
        RangeSpec::Unsatisfiable => {
            resp.status = 416;
            let mut v: Vec<u8> = bytes::copy("bytes */".as_bytes());
            bytes::push_decimal(&mut v, f.size);
            resp.header("Content-Range", v.as_slice());
            Served::Page(Page { resp, body: None })
        },
        RangeSpec::One(start, end) => {
            resp.status = 206;
            let mut v: Vec<u8> = bytes::copy("bytes ".as_bytes());
            bytes::push_decimal(&mut v, start);
            v.push(45);
            bytes::push_decimal(&mut v, end - 1);
            v.push(47);
            bytes::push_decimal(&mut v, f.size);
            assert(v@ =~= content_range(start, end, f.size));
            resp.header("Content-Range", v.as_slice());
            finish_file(ctx, resp, start, end - start)
        },
        RangeSpec::Whole => finish_file(ctx, resp, 0, f.size),
    }
}

/// A request whose condition fails is never sent the file.
pub proof fn law_preconditions_come_first(c: CtxView, core: CoreConf, f: FileInfo, dates: Dates)
    requires
        may_read(c.env.req.method@),
        precondition(c, core, etag_text(f.mtime.secs, f.size), f.mtime, dates) is Some,
    ensures
        file_served(c, core, f, dates) matches ServedView::Page(p) && p.body is None && (
        p.resp.status == 304 || p.resp.status == 412),
{
}

/// Whether a part of a file is worth mapping.
pub open spec fn is_mapped(len: u64, sendfile: bool) -> bool {
    INLINE_MAX < len <= MMAP_MAX && !sendfile
}

/// Decides whether a part of a file is worth mapping. Small ones are read instead,
/// and with `sendfile` the kernel moves the file without a mapping at all.
pub fn wants_map(len: u64, sendfile: bool) -> (r: bool)
    ensures
        r == is_mapped(len, sendfile),
{
    len > INLINE_MAX && len <= MMAP_MAX && !sendfile
}

/// A body is a part of a file: read with the head while it is small, mapped while it is not
/// too large, and streamed otherwise.
pub open spec fn is_part<M, F, S>(
    r: Body<M, F, S>,
    file: F,
    start: u64,
    len: u64,
    sendfile: bool,
    map: Option<(M, usize)>,
) -> bool {
    if len == 0 {
        r is Empty
    } else if len <= INLINE_MAX {
        r == (Body::<M, F, S>::Inline { file, offset: start, len })
    } else {
        match map {
            Some((m, n)) => if is_mapped(len, sendfile) && start + len <= n {
                r == (Body::<M, F, S>::Mmap {
                    map: m,
                    start: start as usize,
                    end: (start + len) as usize,
                })
            } else {
                r == (Body::<M, F, S>::File { file, offset: start, len })
            },
            None => r == (Body::<M, F, S>::File { file, offset: start, len }),
        }
    }
}

/// Chooses how an open file goes on the wire. `map` is its mapping and the length
/// of that, where one was wanted and could be made.
pub fn make_body<M, F, S>(
    file: F,
    start: u64,
    len: u64,
    sendfile: bool,
    map: Option<(M, usize)>,
) -> (r: Body<M, F, S>)
    requires
        start + len <= u64::MAX,
    ensures
        is_part(r, file, start, len, sendfile, map),
{
    if len == 0 {
        return Body::Empty;
    }
    if len <= INLINE_MAX {
        return Body::Inline { file, offset: start, len };
    }
    if wants_map(len, sendfile) {
        if let Some((m, n)) = map {
            if start + len <= n as u64 {
                return Body::Mmap { map: m, start: start as usize, end: (start + len) as usize };
            }
        }
        // Mapping failed or the file shrank: a plain read.
    }
    Body::File { file, offset: start, len }
}

// ---------------------------------------------------------------- directories

/// The scheme, host and port in front of a redirect, where it is to be absolute.
pub open spec fn site(c: CtxView, core: CoreConf) -> Seq<u8> {
    let host = c.env.req.host@;
    let port = ctx::port_of(c.env.local);
    let own: u16 = if c.env.scheme@ == bytes::utf8("https"@) {
        443
    } else {
        80
    };
    if core.absolute_redirect {
        c.env.scheme@ + bytes::utf8("://"@) + (if host.len() == 0 {
            bytes::utf8("localhost"@)
        } else {
            host
        }) + (if core.port_in_redirect && port != own {
            seq![58u8] + bytes::decimal(port as nat)
        } else {
            Seq::empty()
        })
    } else {
        Seq::empty()
    }
}

fn site_of(ctx: &Ctx, core: &CoreConf) -> (r: Vec<u8>)
    ensures
        r@ == site(ctx@, *core),
{
    let mut out: Vec<u8> = Vec::new();
    if core.absolute_redirect {
        out.extend_from_slice(ctx.env.scheme.as_slice());
        out.extend_from_slice("://".as_bytes());
        if ctx.env.req.host.len() == 0 {
            out.extend_from_slice("localhost".as_bytes());
        } else {
            out.extend_from_slice(ctx.env.req.host.as_slice());
        }
        let port: u16 = ctx::port(&ctx.env.local);
        let own: u16 = if bytes::is_text(ctx.env.scheme.as_slice(), "https") {
            443
        } else {
            80
        };
        if core.port_in_redirect && port != own {
            out.push(58);
            bytes::push_decimal(&mut out, port as u64);
        }
    }
    assert(out@ =~= site(ctx@, *core));
    out
}

/// Where a request for a directory without its trailing slash is sent.
pub open spec fn slashed_location(c: CtxView, core: CoreConf) -> Seq<u8> {
    site(c, core) + uri::encoded(c.uri) + seq![47u8] + if c.args.len() > 0 {
        seq![63u8] + c.args
    } else {
        Seq::empty()
    }
}

fn location_with_slash(ctx: &Ctx, core: &CoreConf) -> (r: Vec<u8>)
    ensures
        r@ == slashed_location(ctx@, *core),
{
    let mut out: Vec<u8> = site_of(ctx, core);
    uri::encode_path(ctx.uri.as_slice(), &mut out);
    out.push(47);
    if ctx.args.len() > 0 {
        out.push(63);
        out.extend_from_slice(ctx.args.as_slice());
    }
    assert(out@ =~= slashed_location(ctx@, *core));
    out
}

/// The redirect of a directory to its name with the trailing slash, with the page of its
/// location.
pub open spec fn slash_redirect(c: CtxView, core: CoreConf) -> PageView {
    PageView {
        resp: RespView {
            headers: seq![
                (bytes::utf8("Location"@), slashed_location(c, core)),
                (bytes::utf8("Content-Type"@), bytes::utf8("text/html"@)),
            ],
            ..http::bare(301)
        },
        body: Some(core.moved_page@),
    }
}

/// Redirects a directory to its name with the trailing slash, so that relative links
/// inside its index page resolve.
pub fn dir_redirect(ctx: &Ctx, core: &CoreConf) -> (r: Page)
    ensures
        r@ == slash_redirect(ctx@, *core),
{
    let loc: Vec<u8> = location_with_slash(ctx, core);
    let mut resp = Resp::new(301);
    resp.header("Location", loc.as_slice());
    resp.header("Content-Type", "text/html".as_bytes());
    assert(resp@.headers =~= slash_redirect(ctx@, *core).resp.headers);
    Page { resp, body: Some(bytes::copy(core.moved_page.as_slice())) }
}

/// Text without the slashes in front.
pub open spec fn unslashed(s: Seq<u8>) -> Seq<u8>
    decreases s.len(),
{
    if s.len() > 0 && s[0] == 47 {
        unslashed(s.subrange(1, s.len() as int))
    } else {
        s
    }
}

pub(crate) fn unslash(s: &[u8]) -> (r: &[u8])
    ensures
        r@ == unslashed(s@),
{
    let mut i: usize = 0;
    assert(s@.subrange(0, s@.len() as int) =~= s@);
    while i < s.len() && s[i] == 47
        invariant
            i <= s.len(),
            unslashed(s@) == unslashed(s@.subrange(i as int, s@.len() as int)),
        decreases s.len() - i,
    {
        let ghost rest = s@.subrange(i as int, s@.len() as int);
        assert(rest.subrange(1, rest.len() as int) =~= s@.subrange(i + 1, s@.len() as int));
        i = i + 1;
    }
    &s[i..s.len()]
}

/// A name in a directory.
pub open spec fn joined(dir: Seq<u8>, name: Seq<u8>) -> Seq<u8> {
    if dir.len() > 0 && dir.last() == 47 {
        dir + unslashed(name)
    } else {
        dir + seq![47u8] + unslashed(name)
    }
}

fn join(dir: &[u8], name: &[u8]) -> (r: Vec<u8>)
    ensures
        r@ == joined(dir@, name@),
{
    let mut out: Vec<u8> = bytes::copy(dir);
    if !(dir.len() > 0 && dir[dir.len() - 1] == 47) {
        out.push(47);
    }
    out.extend_from_slice(unslash(name));
    assert(out@ =~= joined(dir@, name@));
    out
}

/// The paths of the index files of a directory, one for each `index` argument.
pub fn index_paths(ctx: &Ctx, core: &CoreConf, dir: &[u8]) -> (r: Vec<Vec<u8>>)
    ensures
        r@.len() == core.index@.len(),
        forall|k: int|
            0 <= k < r@.len() ==> (#[trigger] r@[k])@ == joined(
                dir@,
                ctx::shown(ctx@, core.index@[k]),
            ),
{
    let mut out: Vec<Vec<u8>> = Vec::new();
    for i in 0..core.index.len()
        invariant
            out@.len() == i,
            forall|k: int|
                0 <= k < i ==> (#[trigger] out@[k])@ == joined(
                    dir@,
                    ctx::shown(ctx@, core.index@[k]),
                ),
    {
        let name: Vec<u8> = ctx.render(&core.index[i]);
        out.push(join(dir, name.as_slice()));
    }
    out
}

/// The place of the first index file that is there, from the `i`th on, or the length.
pub open spec fn index_place(c: CtxView, index: Seq<Template>, found: Seq<bool>, i: int) -> int
    decreases index.len() - i,
{
    if i < 0 || i >= index.len() {
        index.len() as int
    } else if ctx::shown(c, index[i]).len() > 0 && found[i] {
        i
    } else {
        index_place(c, index, found, i + 1)
    }
}

/// What a request for a directory is answered with: a redirect to its name with the
/// slash, an internal redirect to its index file so that location selection runs
/// again, a listing, or 403.
pub open spec fn directory_served(c: CtxView, core: CoreConf, found: Seq<bool>) -> ServedView {
    let i = index_place(c, core.index@, found, 0);
    if !(c.uri.len() > 0 && c.uri.last() == 47) {
        ServedView::Page(slash_redirect(c, core))
    } else if 0 <= i < core.index@.len() {
        ServedView::Internal(joined(c.uri, ctx::shown(c, core.index@[i])))
    } else if core.autoindex {
        ServedView::Autoindex
    } else {
        ServedView::Status(403)
    }
}

/// Serves a directory, given which of the paths of its index files are files.
pub fn serve_directory(ctx: &Ctx, core: &CoreConf, found: &Vec<bool>) -> (r: Served)
    requires
        found@.len() == core.index@.len(),
    ensures
        r@ == directory_served(ctx@, *core, found@),
{
    let u: &[u8] = ctx.uri.as_slice();
    if !(u.len() > 0 && u[u.len() - 1] == 47) {
        return Served::Page(dir_redirect(ctx, core));
    }
    for i in 0..core.index.len()
        invariant
            found@.len() == core.index@.len(),
            u@ == ctx@.uri,
            u@.len() > 0 && u@.last() == 47,
            index_place(ctx@, core.index@, found@, 0) == index_place(
                ctx@,
                core.index@,
                found@,
                i as int,
            ),
    {
        let name: Vec<u8> = ctx.render(&core.index[i]);
        if name.len() > 0 && found[i] {
            return Served::Internal(join(u, name.as_slice()));
        }
    }
    if core.autoindex {
        Served::Autoindex
    } else {
        Served::Status(403)
    }
}

proof fn lemma_index_place(c: CtxView, index: Seq<Template>, found: Seq<bool>, i: int, k: int)
    requires
        0 <= i <= k < index.len(),
        ctx::shown(c, index[k]).len() > 0,
        found[k],
    ensures
        i <= index_place(c, index, found, i) <= k,
    decreases k - i,
{
    if i < k && !(ctx::shown(c, index[i]).len() > 0 && found[i]) {
        lemma_index_place(c, index, found, i + 1, k);
    }
}

/// A directory asked for with its slash, in which a file of its index is there, is routed
/// again, to the first such file: the file is never sent straight from the match.
pub proof fn law_an_index_match_routes_again(c: CtxView, core: CoreConf, found: Seq<bool>, k: int)
    requires
        c.uri.len() > 0 && c.uri.last() == 47,
        0 <= k < core.index@.len(),
        ctx::shown(c, core.index@[k]).len() > 0,
        found[k],
    ensures
        ({
            let i = index_place(c, core.index@, found, 0);
            0 <= i <= k && directory_served(c, core, found) == ServedView::Internal(
                joined(c.uri, ctx::shown(c, core.index@[i])),
            )
        }),
{
    lemma_index_place(c, core.index@, found, 0, k);
}

} // verus!
