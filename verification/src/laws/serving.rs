//! `files`: what is sent of a file or a directory.

use vstd::prelude::*;

use crate::bytes;
use crate::config::CoreConf;
use crate::config::IfModifiedSince;
use crate::config::Template;
use crate::ctx;
use crate::ctx::CtxView;
use crate::files;
use crate::files::Dates;
use crate::files::FileInfo;
use crate::files::IoFailure;
use crate::files::RangeSpec;
use crate::files::ServedView;
use crate::http;
use crate::http::Framing;
use crate::reply::Body;

verus! {

// ---------------------------------------------------------------- headers of a request

/// The request has no header of a name, in whatever case.
pub open spec fn lacks(c: CtxView, name: Seq<char>) -> bool {
    forall|i: int|
        0 <= i < c.env.req.headers@.len() ==> !bytes::same_name(
            (#[trigger] c.env.req.headers@[i]).name@,
            bytes::utf8(name),
        )
}

/// The first header of a name, in whatever case, has a value.
pub open spec fn brings(c: CtxView, name: Seq<char>, v: Seq<u8>) -> bool {
    exists|i: int|
        0 <= i < c.env.req.headers@.len() && bytes::same_name(
            (#[trigger] c.env.req.headers@[i]).name@,
            bytes::utf8(name),
        ) && c.env.req.headers@[i].value@ == v && forall|j: int|
            0 <= j < i ==> !bytes::same_name(
                (#[trigger] c.env.req.headers@[j]).name@,
                bytes::utf8(name),
            )
}

proof fn lemma_place(hs: Seq<http::Field>, name: Seq<u8>, from: int, i: int)
    requires
        0 <= from <= i <= hs.len(),
        i < hs.len() ==> bytes::same_name(hs[i].0, name),
        forall|j: int| from <= j < i ==> !bytes::same_name((#[trigger] hs[j]).0, name),
    ensures
        http::place_of(hs, name, from) == i,
    decreases i - from,
{
    if from < i {
        assert(!bytes::same_name(hs[from].0, name));
        lemma_place(hs, name, from + 1, i);
    }
}

/// A header is found by its name whatever the case, and of several the first counts.
pub proof fn law_headers_are_found_by_name(c: CtxView, name: Seq<char>, v: Seq<u8>)
    ensures
        lacks(c, name) ==> ctx::header_of(c, name) is None,
        brings(c, name, v) ==> ctx::header_of(c, name) == Some(v),
{
    let hs = c.env.req.headers@;
    let fs = http::fields(hs);
    assert forall|i: int| 0 <= i < hs.len() implies #[trigger] fs[i] == (
        hs[i].name@,
        hs[i].value@,
    ) by {}
    if lacks(c, name) {
        assert forall|j: int| 0 <= j < fs.len() implies !bytes::same_name(
            (#[trigger] fs[j]).0,
            bytes::utf8(name),
        ) by {
            assert(!bytes::same_name(hs[j].name@, bytes::utf8(name)));
        }
        lemma_place(fs, bytes::utf8(name), 0, fs.len() as int);
    }
    if brings(c, name, v) {
        let i = choose|i: int|
            0 <= i < hs.len() && bytes::same_name(
                (#[trigger] hs[i]).name@,
                bytes::utf8(name),
            ) && hs[i].value@ == v && forall|j: int|
                0 <= j < i ==> !bytes::same_name((#[trigger] hs[j]).name@, bytes::utf8(name));
        assert forall|j: int| 0 <= j < i implies !bytes::same_name(
            (#[trigger] fs[j]).0,
            bytes::utf8(name),
        ) by {
            assert(!bytes::same_name(hs[j].name@, bytes::utf8(name)));
        }
        lemma_place(fs, bytes::utf8(name), 0, i);
    }
}

/// The status of what is sent; nothing where the request is routed again.
pub open spec fn status_of(s: ServedView) -> Option<u16> {
    match s {
        ServedView::Page(p) => Some(p.resp.status),
        ServedView::File { resp, start, len } => Some(resp.status),
        ServedView::Status(code) => Some(code),
        _ => None,
    }
}

/// A method that a file can be asked for with.
pub open spec fn reads(c: CtxView) -> bool {
    let m = c.env.req.method@;
    m == bytes::utf8("GET"@) || m == bytes::utf8("HEAD"@) || m == bytes::utf8("OPTIONS"@)
}

/// The file itself is sent, whole or in part, or the part asked for is refused.
pub open spec fn is_sent(s: ServedView) -> bool {
    status_of(s) == Some(200u16) || status_of(s) == Some(206u16) || status_of(s) == Some(416u16)
}

// ---------------------------------------------------------------- conditional requests

/// Files cannot be written.
pub proof fn law_files_are_only_read(c: CtxView, core: CoreConf, f: FileInfo, dates: Dates)
    ensures
        !reads(c) <==> status_of(files::file_served(c, core, f, dates)) == Some(405u16),
{
}

/// A file that was not modified after the date the client has it from is not sent again,
/// and one modified in a later second is.
pub proof fn law_unmodified_files_are_not_sent_again(
    c: CtxView,
    core: CoreConf,
    f: FileInfo,
    dates: Dates,
)
    requires
        reads(c),
        lacks(c, "if-match"@),
        dates.if_unmodified_since is None,
        lacks(c, "if-none-match"@),
        core.if_modified_since != IfModifiedSince::Off,
    ensures
        ({
            let s = files::file_served(c, core, f, dates);
            &&& status_of(s) == Some(304u16) <==> (match dates.if_modified_since {
                Some(t) => f.mtime.secs <= t,
                None => false,
            })
            &&& status_of(s) == Some(304u16) || is_sent(s)
        }),
{
    law_headers_are_found_by_name(c, "if-match"@, Seq::empty());
    law_headers_are_found_by_name(c, "if-none-match"@, Seq::empty());
}

/// Without `if_modified_since` the date is not looked at.
pub proof fn law_dates_may_be_ignored(c: CtxView, core: CoreConf, f: FileInfo, dates: Dates)
    requires
        reads(c),
        lacks(c, "if-match"@),
        dates.if_unmodified_since is None,
        lacks(c, "if-none-match"@),
        core.if_modified_since == IfModifiedSince::Off,
    ensures
        is_sent(files::file_served(c, core, f, dates)),
{
    law_headers_are_found_by_name(c, "if-match"@, Seq::empty());
    law_headers_are_found_by_name(c, "if-none-match"@, Seq::empty());
}

/// A file that was modified after the date the client relies on is refused, to the
/// fraction of a second, and no other is.
pub proof fn law_changed_files_are_refused(
    c: CtxView,
    core: CoreConf,
    f: FileInfo,
    dates: Dates,
    t: u64,
)
    requires
        reads(c),
        lacks(c, "if-match"@),
        dates.if_unmodified_since == Some(t),
    ensures
        status_of(files::file_served(c, core, f, dates)) == Some(412u16) <==> f.mtime.secs > t || (
        f.mtime.secs == t && f.mtime.nanos > 0),
{
    law_headers_are_found_by_name(c, "if-match"@, Seq::empty());
}

/// Between two commas, or a comma and an end, of a list.
pub open spec fn is_member(list: Seq<u8>, i: int, j: int) -> bool {
    &&& 0 <= i <= j <= list.len()
    &&& i == 0 || list[i - 1] == 44
    &&& j == list.len() || list[j] == 44
    &&& forall|k: int| i <= k < j ==> list[k] != 44
}

/// A list has a tag: one of its members is it, but for white space around it.
pub open spec fn names_tag(list: Seq<u8>, etag: Seq<u8>) -> bool {
    exists|i: int, j: int|
        #[trigger] is_member(list, i, j) && bytes::trimmed(list.subrange(i, j)) == etag
}

/// The same where a member may be marked as weak.
pub open spec fn names_weakly(list: Seq<u8>, etag: Seq<u8>) -> bool {
    exists|i: int, j: int|
        #[trigger] is_member(list, i, j) && files::unweakened(
            bytes::trimmed(list.subrange(i, j)),
        ) == etag
}

/// The mark of a weak tag is no part of it.
pub proof fn law_the_mark_of_weakness_is_dropped(tag: Seq<u8>)
    requires
        tag.len() > 0,
        tag[0] != 87,
    ensures
        files::unweakened(tag) == tag,
        files::unweakened(seq![87u8, 47u8] + tag) == tag,
{
    reveal_with_fuel(files::unweakened, 2);
    assert((seq![87u8, 47u8] + tag).subrange(2, tag.len() as int + 2) =~= tag);
}

proof fn lemma_member(list: Seq<u8>, etag: Seq<u8>, weak: bool)
    requires
        etag.len() > 0,
        etag[0] == 34,
    ensures
        files::lists(list, etag, weak) <==> if weak {
            names_weakly(list, etag)
        } else {
            names_tag(list, etag)
        },
    decreases list.len(),
{
    law_the_mark_of_weakness_is_dropped(etag);
    bytes::lemma_find(list, 44, 0);
    let i = bytes::find(list, 44, 0);
    assert(is_member(list, 0, i));
    let first = bytes::trimmed(list.subrange(0, i));
    if i < list.len() {
        let rest = list.subrange(i + 1, list.len() as int);
        lemma_member(rest, etag, weak);
        assert forall|a: int, b: int| #[trigger] is_member(rest, a, b) implies is_member(
            list,
            a + i + 1,
            b + i + 1,
        ) && list.subrange(a + i + 1, b + i + 1) =~= rest.subrange(a, b) by {
            assert(rest.len() == list.len() - i - 1);
            if a > 0 {
                assert(rest[a - 1] == list[a + i]);
            }
            if b < rest.len() {
                assert(rest[b] == list[b + i + 1]);
            }
            assert forall|k: int| a + i + 1 <= k < b + i + 1 implies list[k] != 44 by {
                assert(rest[k - i - 1] == list[k]);
            }
        }
        assert forall|a: int, b: int| #[trigger] is_member(list, a, b) implies (a == 0 && b == i)
            || (a > i && is_member(rest, a - i - 1, b - i - 1) && list.subrange(a, b)
            =~= rest.subrange(a - i - 1, b - i - 1)) by {
            if a == 0 {
                if b > i {
                    assert(list[i] == 44);
                }
                if b < i {
                    assert(list[b] != 44);
                }
            } else {
                if a <= i {
                    assert(list[a - 1] != 44);
                }
                if a > i + 1 {
                    assert(rest[a - i - 2] == list[a - 1]);
                }
                if b < list.len() {
                    assert(rest[b - i - 1] == list[b]);
                }
                assert forall|k: int| a - i - 1 <= k < b - i - 1 implies rest[k] != 44 by {
                    assert(rest[k] == list[k + i + 1]);
                }
            }
        }
        if weak {
            if names_weakly(list, etag) {
                let (a, b) = choose|a: int, b: int|
                    #[trigger] is_member(list, a, b) && files::unweakened(
                        bytes::trimmed(list.subrange(a, b)),
                    ) == etag;
                if a > i {
                    assert(is_member(rest, a - i - 1, b - i - 1));
                    assert(names_weakly(rest, etag));
                }
            }
            if names_weakly(rest, etag) {
                let (a, b) = choose|a: int, b: int|
                    #[trigger] is_member(rest, a, b) && files::unweakened(
                        bytes::trimmed(rest.subrange(a, b)),
                    ) == etag;
                assert(is_member(list, a + i + 1, b + i + 1));
                assert(names_weakly(list, etag));
            }
        } else {
            if names_tag(list, etag) {
                let (a, b) = choose|a: int, b: int|
                    #[trigger] is_member(list, a, b) && bytes::trimmed(list.subrange(a, b)) == etag;
                if a > i {
                    assert(is_member(rest, a - i - 1, b - i - 1));
                    assert(names_tag(rest, etag));
                }
            }
            if names_tag(rest, etag) {
                let (a, b) = choose|a: int, b: int|
                    #[trigger] is_member(rest, a, b) && bytes::trimmed(rest.subrange(a, b)) == etag;
                assert(is_member(list, a + i + 1, b + i + 1));
                assert(names_tag(list, etag));
            }
        }
    } else {
        assert forall|a: int, b: int| #[trigger] is_member(list, a, b) implies a == 0 && b == i by {
            if a > 0 {
                assert(list[a - 1] != 44);
            }
            if b < i {
                assert(list[b] != 44);
            }
        }
    }
}

proof fn lemma_tag(secs: u64, size: u64)
    ensures
        files::etag_text(secs, size).len() > 0,
        files::etag_text(secs, size)[0] == 34,
{
}

/// A client that has the file, by its tag or by any tag, is not sent it again, whatever the
/// date says; one that has another is.
pub proof fn law_known_files_are_not_sent_again(
    c: CtxView,
    core: CoreConf,
    f: FileInfo,
    dates: Dates,
    v: Seq<u8>,
)
    requires
        reads(c),
        lacks(c, "if-match"@),
        dates.if_unmodified_since is None,
        brings(c, "if-none-match"@, v),
    ensures
        ({
            let s = files::file_served(c, core, f, dates);
            &&& status_of(s) == Some(304u16) <==> bytes::trimmed(v) == seq![42u8] || names_weakly(
                v,
                files::etag_text(f.mtime.secs, f.size),
            )
            &&& status_of(s) == Some(304u16) || is_sent(s)
        }),
{
    law_headers_are_found_by_name(c, "if-match"@, Seq::empty());
    law_headers_are_found_by_name(c, "if-none-match"@, v);
    lemma_tag(f.mtime.secs, f.size);
    lemma_member(v, files::etag_text(f.mtime.secs, f.size), true);
}

/// A client that relies on a tag is refused where the file has another, and only there.
pub proof fn law_other_files_are_refused(
    c: CtxView,
    core: CoreConf,
    f: FileInfo,
    dates: Dates,
    v: Seq<u8>,
)
    requires
        reads(c),
        brings(c, "if-match"@, v),
    ensures
        status_of(files::file_served(c, core, f, dates)) == Some(412u16) <==> bytes::trimmed(v)
            != seq![42u8] && !names_tag(v, files::etag_text(f.mtime.secs, f.size)),
{
    law_headers_are_found_by_name(c, "if-match"@, v);
    lemma_tag(f.mtime.secs, f.size);
    lemma_member(v, files::etag_text(f.mtime.secs, f.size), false);
}

/// What a hexadecimal number comes to.
pub open spec fn hex_value(s: Seq<u8>) -> nat
    decreases s.len(),
{
    if s.len() == 0 {
        0
    } else {
        hex_value(s.drop_last()) * 16 + (if s.last() < 58 {
            (s.last() - 48) as nat
        } else {
            (s.last() - 87) as nat
        })
    }
}

/// Numbers are written in hexadecimal, in lower case, so that they read back.
pub proof fn law_hex_reads_back(n: nat)
    ensures
        hex_value(bytes::hex(n)) == n,
        bytes::hex(n).len() > 0,
        forall|i: int|
            0 <= i < bytes::hex(n).len() ==> 48 <= #[trigger] bytes::hex(n)[i] <= 57 || 97
                <= bytes::hex(n)[i] <= 102,
    decreases n,
{
    if n >= 16 {
        law_hex_reads_back(n / 16);
        assert(bytes::hex(n).drop_last() =~= bytes::hex(n / 16));
    } else {
        assert(bytes::hex(n).drop_last() =~= Seq::<u8>::empty());
        assert(hex_value(Seq::<u8>::empty()) == 0);
    }
}

/// A tag is, in quotes, the second of the last change and the size, in hexadecimal.
pub proof fn law_a_tag_tells_time_and_size(secs: u64, size: u64)
    ensures
        exists|a: Seq<u8>, b: Seq<u8>|
            hex_value(a) == secs && hex_value(b) == size && !a.contains(45) && !b.contains(45)
                && files::etag_text(secs, size) == #[trigger] (seq![34u8] + a) + seq![45u8]
                + #[trigger] (b + seq![34u8]),
{
    let a = bytes::hex(secs as nat);
    let b = bytes::hex(size as nat);
    law_hex_reads_back(secs as nat);
    law_hex_reads_back(size as nat);
    assert(files::etag_text(secs, size) =~= (seq![34u8] + a) + seq![45u8] + (b + seq![34u8]));
}

// ---------------------------------------------------------------- parts of a file

/// A part of a file as a request writes it: from a byte to a byte, or to the end, or the
/// last bytes.
pub open spec fn written_range(first: Option<nat>, last: Option<nat>) -> Seq<u8> {
    bytes::utf8("bytes="@) + (match first {
        Some(a) => bytes::decimal(a),
        None => Seq::empty(),
    }) + seq![45u8] + (match last {
        Some(b) => bytes::decimal(b),
        None => Seq::empty(),
    })
}

proof fn lemma_bytes_is()
    ensures
        bytes::utf8("bytes="@) == seq![98u8, 121u8, 116u8, 101u8, 115u8, 61u8],
{
    let p = seq![98u8, 121u8, 116u8, 101u8, 115u8, 61u8];
    bytes::lemma_ascii_text(p);
    reveal_strlit("bytes=");
    assert(bytes::ascii_text(p) =~= "bytes="@);
}

/// What begins and ends without white space keeps all of itself.
pub proof fn law_text_without_white_ends_is_kept(s: Seq<u8>)
    requires
        s.len() > 0 ==> 32 < s[0] < 128 && 32 < s.last() < 128,
    ensures
        bytes::trimmed(s) == s,
{
}

proof fn lemma_written(first: Option<nat>, last: Option<nat>, size: u64)
    requires
        first is Some || last is Some,
    ensures
        files::range_spec(written_range(first, last), size) == files::bounded(
            match first {
                Some(a) => bytes::decimal(a),
                None => Seq::empty(),
            },
            match last {
                Some(b) => bytes::decimal(b),
                None => Seq::empty(),
            },
            size,
        ),
{
    lemma_bytes_is();
    let a: Seq<u8> = match first {
        Some(n) => bytes::decimal(n),
        None => Seq::empty(),
    };
    let b: Seq<u8> = match last {
        Some(n) => bytes::decimal(n),
        None => Seq::empty(),
    };
    if first is Some {
        bytes::lemma_decimal(first->0);
        assert(bytes::is_digit(a[0]) && bytes::is_digit(a.last()));
    }
    if last is Some {
        bytes::lemma_decimal(last->0);
        assert(bytes::is_digit(b[0]) && bytes::is_digit(b.last()));
    }
    let h = written_range(first, last);
    let list = a + seq![45u8] + b;
    assert(h.subrange(6, h.len() as int) =~= list);
    assert(h.subrange(0, 6) =~= bytes::utf8("bytes="@));
    assert(h.last() == if b.len() > 0 {
        b.last()
    } else {
        45
    });
    law_text_without_white_ends_is_kept(h);
    assert(list[0] == if a.len() > 0 {
        a[0]
    } else {
        45
    });
    assert(list.last() == h.last());
    law_text_without_white_ends_is_kept(list);
    assert forall|j: int| 0 <= j < list.len() implies list[j] != 44 && (j < a.len() ==> list[j]
        != 45) by {
        if j < a.len() {
            assert(bytes::is_digit(a[j]));
        } else if j > a.len() {
            assert(bytes::is_digit(b[j - a.len() - 1]));
        }
    }
    bytes::lemma_find_is(list, 44, 0, list.len() as int);
    bytes::lemma_find_is(list, 45, 0, a.len() as int);
    assert(list.subrange(0, a.len() as int) =~= a);
    assert(list.subrange(a.len() as int + 1, list.len() as int) =~= b);
}

/// From one byte to another, both of them with it, as far as the file goes; where the file
/// ends before the first of them, or they are the wrong way round, nothing.
pub proof fn law_a_range_is_from_byte_to_byte(first: u64, last: u64, size: u64)
    ensures
        files::range_spec(written_range(Some(first as nat), Some(last as nat)), size) == if first
            >= size || last < first {
            RangeSpec::Unsatisfiable
        } else if last < size - 1 {
            RangeSpec::One(first, (last + 1) as u64)
        } else {
            RangeSpec::One(first, size)
        },
{
    lemma_written(Some(first as nat), Some(last as nat), size);
    bytes::lemma_decimal(first as nat);
    bytes::lemma_decimal(last as nat);
}

/// From a byte to the end.
pub proof fn law_a_range_may_reach_to_the_end(first: u64, size: u64)
    ensures
        files::range_spec(written_range(Some(first as nat), None), size) == if first >= size {
            RangeSpec::Unsatisfiable
        } else {
            RangeSpec::One(first, size)
        },
{
    lemma_written(Some(first as nat), None, size);
    bytes::lemma_decimal(first as nat);
}

/// The last bytes: so many, or all there are.
pub proof fn law_a_range_may_be_the_last_bytes(count: u64, size: u64)
    ensures
        files::range_spec(written_range(None, Some(count as nat)), size) == if count == 0 {
            RangeSpec::Unsatisfiable
        } else if count < size {
            RangeSpec::One((size - count) as u64, size)
        } else {
            RangeSpec::One(0, size)
        },
{
    lemma_written(None, Some(count as nat), size);
    bytes::lemma_decimal(count as nat);
}

/// Anything else than bytes, and more than one range, is not looked at.
pub proof fn law_other_ranges_are_ignored(h: Seq<u8>, size: u64, i: int)
    requires
        0 <= i < h.len(),
        bytes::trimmed(h) == h,
        !bytes::starts(h, bytes::utf8("bytes="@)) || (i >= 6 && h[i] == 44),
    ensures
        files::range_spec(h, size) == RangeSpec::Whole,
{
    lemma_bytes_is();
    if bytes::starts(h, bytes::utf8("bytes="@)) {
        let list = h.subrange(6, h.len() as int);
        assert(list[i - 6] == 44);
        bytes::lemma_find(list, 44, 0);
    }
}

// ---------------------------------------------------------------- what is sent

/// A header of a response.
pub open spec fn holds(s: ServedView, name: Seq<char>, v: Seq<u8>) -> bool {
    match s {
        ServedView::Page(p) => p.resp.headers.contains((bytes::utf8(name), v)),
        ServedView::File { resp, start, len } => resp.headers.contains((bytes::utf8(name), v)),
        _ => false,
    }
}

/// How much of a body goes with a head, and from which byte of the file on; without any
/// body where only the head was asked for.
pub open spec fn carries(c: CtxView, s: ServedView, from: u64, count: u64) -> bool {
    if c.env.req.method@ == bytes::utf8("HEAD"@) {
        s matches ServedView::Page(p) && p.body is None && p.resp.framing == Framing::Length(count)
    } else {
        s matches ServedView::File { resp, start, len } && start == from && len == count
    }
}

/// Nothing keeps a file from being sent.
pub open spec fn is_plainly_asked(c: CtxView, dates: Dates) -> bool {
    &&& reads(c)
    &&& lacks(c, "if-match"@)
    &&& lacks(c, "if-none-match"@)
    &&& dates.if_unmodified_since is None
    &&& dates.if_modified_since is None
}

proof fn lemma_last_in<A>(s: Seq<A>, a: A)
    ensures
        s.push(a).contains(a),
{
    assert(s.push(a)[s.len() as int] == a);
}

proof fn lemma_still_in<A>(s: Seq<A>, a: A, x: A)
    requires
        s.contains(x),
    ensures
        s.push(a).contains(x),
{
    let i = choose|i: int| 0 <= i < s.len() && s[i] == x;
    assert(s.push(a)[i] == x);
}

proof fn lemma_file_headers(core: CoreConf, f: FileInfo)
    ensures
        ({
            let hs = files::file_headers(core, f);
            let mime = match f.mime {
                Some(t) => Some(t@),
                None => None,
            };
            &&& hs.contains((bytes::utf8("Content-Type"@), files::content_type(core, mime)))
            &&& hs.contains((bytes::utf8("Last-Modified"@), f.last_modified@))
            &&& hs.contains((bytes::utf8("Accept-Ranges"@), bytes::utf8("bytes"@)))
            &&& core.etag ==> hs.contains(
                (bytes::utf8("ETag"@), files::etag_text(f.mtime.secs, f.size)),
            )
        }),
{
    let hs = files::file_headers(core, f);
    assert(hs[0] == hs[0] && hs[1] == hs[1] && hs[2] == hs[2] && hs[3] == hs[3]);
    assert(hs.contains(hs[0]) && hs.contains(hs[1]) && hs.contains(hs[2]));
    if core.etag {
        assert(hs.contains(hs[3]));
    }
}

/// Without a range the whole file is sent, from its first byte to its last.
pub proof fn law_the_whole_file_is_sent(c: CtxView, core: CoreConf, f: FileInfo, dates: Dates)
    requires
        is_plainly_asked(c, dates),
        lacks(c, "range"@),
    ensures
        ({
            let s = files::file_served(c, core, f, dates);
            &&& status_of(s) == Some(200u16)
            &&& carries(c, s, 0, f.size)
            &&& holds(s, "Last-Modified"@, f.last_modified@)
            &&& holds(s, "Accept-Ranges"@, bytes::utf8("bytes"@))
            &&& core.etag ==> holds(s, "ETag"@, files::etag_text(f.mtime.secs, f.size))
        }),
{
    law_headers_are_found_by_name(c, "if-match"@, Seq::empty());
    law_headers_are_found_by_name(c, "if-none-match"@, Seq::empty());
    law_headers_are_found_by_name(c, "range"@, Seq::empty());
    lemma_file_headers(core, f);
}

/// With a range of the file that much of it is sent, and where it stands is said.
pub proof fn law_a_part_of_the_file_is_sent(
    c: CtxView,
    core: CoreConf,
    f: FileInfo,
    dates: Dates,
    first: u64,
    last: u64,
)
    requires
        is_plainly_asked(c, dates),
        lacks(c, "if-range"@),
        brings(c, "range"@, written_range(Some(first as nat), Some(last as nat))),
        core.max_ranges != Some(0u64),
        first <= last < f.size,
    ensures
        ({
            let s = files::file_served(c, core, f, dates);
            &&& status_of(s) == Some(206u16)
            &&& carries(c, s, first, (last - first + 1) as u64)
            &&& holds(s, "Last-Modified"@, f.last_modified@)
            &&& holds(
                s,
                "Content-Range"@,
                bytes::utf8("bytes "@) + bytes::decimal(first as nat) + seq![45u8]
                    + bytes::decimal(last as nat) + seq![47u8] + bytes::decimal(f.size as nat),
            )
        }),
{
    let v = written_range(Some(first as nat), Some(last as nat));
    law_headers_are_found_by_name(c, "if-match"@, Seq::empty());
    law_headers_are_found_by_name(c, "if-none-match"@, Seq::empty());
    law_headers_are_found_by_name(c, "if-range"@, Seq::empty());
    law_headers_are_found_by_name(c, "range"@, v);
    law_a_range_is_from_byte_to_byte(first, last, f.size);
    lemma_file_headers(core, f);
    let hs = files::file_headers(core, f);
    let part = (
        bytes::utf8("Content-Range"@),
        files::content_range(first, (last + 1) as u64, f.size),
    );
    lemma_last_in(hs, part);
    lemma_still_in(hs, part, (bytes::utf8("Last-Modified"@), f.last_modified@));
}

/// A part that the file does not have is refused, and its size is told.
pub proof fn law_what_is_not_there_is_refused(
    c: CtxView,
    core: CoreConf,
    f: FileInfo,
    dates: Dates,
    first: u64,
)
    requires
        is_plainly_asked(c, dates),
        lacks(c, "if-range"@),
        brings(c, "range"@, written_range(Some(first as nat), None)),
        core.max_ranges != Some(0u64),
        first >= f.size,
    ensures
        ({
            let s = files::file_served(c, core, f, dates);
            &&& status_of(s) == Some(416u16)
            &&& s matches ServedView::Page(p) && p.body is None
            &&& holds(
                s,
                "Content-Range"@,
                bytes::utf8("bytes */"@) + bytes::decimal(f.size as nat),
            )
        }),
{
    law_headers_are_found_by_name(c, "if-match"@, Seq::empty());
    law_headers_are_found_by_name(c, "if-none-match"@, Seq::empty());
    law_headers_are_found_by_name(c, "if-range"@, Seq::empty());
    law_headers_are_found_by_name(c, "range"@, written_range(Some(first as nat), None));
    law_a_range_may_reach_to_the_end(first, f.size);
    let hs = files::file_headers(core, f);
    lemma_last_in(
        hs,
        (
            bytes::utf8("Content-Range"@),
            bytes::utf8("bytes */"@) + bytes::decimal(f.size as nat),
        ),
    );
}

/// A client that has part of an older file is sent the new one whole: a tag must be the
/// file's own, a date its own second.
pub proof fn law_parts_of_other_files_are_not_mixed(
    c: CtxView,
    core: CoreConf,
    f: FileInfo,
    dates: Dates,
    v: Seq<u8>,
    first: u64,
    last: u64,
)
    requires
        is_plainly_asked(c, dates),
        brings(c, "range"@, written_range(Some(first as nat), Some(last as nat))),
        core.max_ranges != Some(0u64),
        first <= last < f.size,
        brings(c, "if-range"@, v),
        v.len() > 0,
        32 < v[0] < 128,
        32 < v.last() < 128,
    ensures
        ({
            let s = files::file_served(c, core, f, dates);
            let own = if v[0] == 34 || (v.len() > 1 && v[0] == 87 && v[1] == 47) {
                v == files::etag_text(f.mtime.secs, f.size)
            } else {
                dates.if_range == Some(f.mtime.secs)
            };
            &&& own ==> status_of(s) == Some(206u16)
            &&& !own ==> status_of(s) == Some(200u16) && carries(c, s, 0, f.size)
        }),
{
    law_headers_are_found_by_name(c, "if-match"@, Seq::empty());
    law_headers_are_found_by_name(c, "if-none-match"@, Seq::empty());
    law_headers_are_found_by_name(c, "if-range"@, v);
    law_headers_are_found_by_name(c, "range"@, written_range(Some(first as nat), Some(last as nat)));
    law_a_range_is_from_byte_to_byte(first, last, f.size);
    law_text_without_white_ends_is_kept(v);
    let p = seq![87u8, 47u8];
    bytes::lemma_ascii_text(p);
    reveal_strlit("W/");
    assert(bytes::ascii_text(p) =~= "W/"@);
    if v.len() > 1 && v[0] == 87 && v[1] == 47 {
        assert(v.subrange(0, 2) =~= p);
    } else if bytes::starts(v, p) {
        assert(v.subrange(0, 2)[0] == 87 && v.subrange(0, 2)[1] == 47);
    }
}

/// Ranges can be switched off.
pub proof fn law_ranges_can_be_switched_off(c: CtxView, core: CoreConf, f: FileInfo, dates: Dates)
    requires
        is_plainly_asked(c, dates),
        core.max_ranges == Some(0u64),
    ensures
        ({
            let s = files::file_served(c, core, f, dates);
            status_of(s) == Some(200u16) && carries(c, s, 0, f.size)
        }),
{
    law_headers_are_found_by_name(c, "if-match"@, Seq::empty());
    law_headers_are_found_by_name(c, "if-none-match"@, Seq::empty());
}

/// A file is sent as what its name tells, and as the default where it tells nothing; texts
/// are sent with the character set, where one is configured, and nothing else is.
pub proof fn law_files_are_sent_as_what_they_are(
    c: CtxView,
    core: CoreConf,
    f: FileInfo,
    dates: Dates,
    t: Seq<u8>,
)
    requires
        is_plainly_asked(c, dates),
        lacks(c, "range"@),
        t == (match f.mime {
            Some(m) => m@,
            None => core.default_type@,
        }),
    ensures
        ({
            let s = files::file_served(c, core, f, dates);
            let is_text = bytes::starts(t, bytes::utf8("text/"@)) || t == bytes::utf8(
                "application/javascript"@,
            );
            &&& core.charset is None || !is_text ==> holds(s, "Content-Type"@, t)
            &&& (core.charset matches Some(cs) ==> is_text ==> holds(
                s,
                "Content-Type"@,
                t + bytes::utf8("; charset="@) + cs@,
            ))
        }),
{
    law_headers_are_found_by_name(c, "if-match"@, Seq::empty());
    law_headers_are_found_by_name(c, "if-none-match"@, Seq::empty());
    law_headers_are_found_by_name(c, "range"@, Seq::empty());
    lemma_file_headers(core, f);
}

/// What is not sent again is identified: by its date, and by its tag where tags are on.
pub proof fn law_what_is_not_sent_is_identified(
    c: CtxView,
    core: CoreConf,
    f: FileInfo,
    dates: Dates,
)
    requires
        status_of(files::file_served(c, core, f, dates)) == Some(304u16),
    ensures
        ({
            let s = files::file_served(c, core, f, dates);
            &&& s matches ServedView::Page(p) && p.body is None
            &&& holds(s, "Last-Modified"@, f.last_modified@)
            &&& core.etag ==> holds(s, "ETag"@, files::etag_text(f.mtime.secs, f.size))
        }),
{
    let vs = files::validators(core, f, 304);
    assert(vs[0] == vs[0] && vs[1] == vs[1]);
    if core.etag {
        assert(vs.contains(vs[0]) && vs.contains(vs[1]));
    } else {
        assert(vs.contains(vs[0]));
    }
}

// ---------------------------------------------------------------- paths and directories

/// Under a root the file of a URI is the root followed by the URI.
pub proof fn law_a_root_is_put_in_front(c: CtxView)
    requires
        ctx::core_of(c).alias is None,
    ensures
        files::mapped(c) == ctx::shown(c, ctx::core_of(c).root) + c.uri,
{
}

/// An alias stands in the place of the location's prefix, with one slash between it and the
/// rest of the path.
pub proof fn law_an_alias_replaces_the_prefix(c: CtxView, a: Template, i: usize, rest: Seq<u8>)
    requires
        ctx::core_of(c).alias == Some(a),
        c.matched == Some(i),
        i < c.env.server.locations@.len(),
        c.env.server.locations@[i as int].prefix matches Some(p) && c.uri == p@ + rest,
        rest.len() > 0,
        rest[0] < 128,
        ctx::shown(c, a).len() > 0,
    ensures
        ({
            let base = ctx::shown(c, a);
            files::mapped(c) == if base.last() == 47 && rest[0] == 47 {
                base.drop_last() + rest
            } else if base.last() != 47 && rest[0] != 47 {
                base + seq![47u8] + rest
            } else {
                base + rest
            }
        }),
{
    let p = c.env.server.locations@[i as int].prefix->0;
    assert(c.uri.subrange(p@.len() as int, c.uri.len() as int) =~= rest);
    assert(c.uri[p@.len() as int] == rest[0]);
}

/// What a request's file and root come to is kept with it.
pub proof fn law_the_file_is_noted(c: CtxView)
    ensures
        ({
            let r = files::resolved(c);
            &&& r.document_root == ctx::shown(
                c,
                match ctx::core_of(c).alias {
                    Some(t) => t,
                    None => ctx::core_of(c).root,
                },
            )
            &&& r.filename == files::mapped(CtxView { document_root: r.document_root, ..c })
            &&& r == (CtxView { document_root: r.document_root, filename: r.filename, ..c })
        }),
{
}

/// A directory asked for without a slash is asked for again with one, the arguments with
/// it.
pub proof fn law_directories_end_with_a_slash(c: CtxView, core: CoreConf, found: Seq<bool>)
    requires
        c.uri.len() > 0,
        c.uri.last() != 47,
    ensures
        ({
            let s = files::directory_served(c, core, found);
            let to = files::site(c, core) + crate::uri::encoded(c.uri) + seq![47u8];
            &&& status_of(s) == Some(301u16)
            &&& holds(s, "Location"@, if c.args.len() > 0 {
                to + seq![63u8] + c.args
            } else {
                to
            })
        }),
{
    let hs = files::slash_redirect(c, core).resp.headers;
    assert(hs.contains(hs[0]));
    let to = files::site(c, core) + crate::uri::encoded(c.uri) + seq![47u8];
    assert(files::slashed_location(c, core) =~= if c.args.len() > 0 {
        to + seq![63u8] + c.args
    } else {
        to
    });
}

/// A redirect names scheme and host where it is absolute, and the port where it is not the
/// scheme's own and not kept out; otherwise nothing stands in front of the path.
pub proof fn law_redirects_name_the_site(c: CtxView, core: CoreConf, port: u16)
    requires
        c.env.local matches Some(a) && (match a {
            crate::config::Addr::V4 { a, b, c, d, port: p } => p == port,
            crate::config::Addr::V6 { text, octets, port: p } => p == port,
        }),
        c.env.req.host@.len() > 0,
    ensures
        ({
            let named = c.env.scheme@ + bytes::utf8("://"@) + c.env.req.host@;
            let is_own = port == if c.env.scheme@ == bytes::utf8("https"@) {
                443u16
            } else {
                80u16
            };
            &&& !core.absolute_redirect ==> files::site(c, core).len() == 0
            &&& core.absolute_redirect && (is_own || !core.port_in_redirect) ==> files::site(c, core)
                == named
            &&& core.absolute_redirect && !is_own && core.port_in_redirect ==> files::site(c, core)
                == named + seq![58u8] + bytes::decimal(port as nat)
        }),
{
    let named = c.env.scheme@ + bytes::utf8("://"@) + c.env.req.host@;
    assert(named + Seq::<u8>::empty() =~= named);
    assert(named + (seq![58u8] + bytes::decimal(port as nat)) =~= named + seq![58u8]
        + bytes::decimal(port as nat));
}

proof fn lemma_index_place(c: CtxView, index: Seq<Template>, found: Seq<bool>, from: int, k: int)
    requires
        0 <= from <= k <= index.len(),
        k < index.len() ==> ctx::shown(c, index[k]).len() > 0 && found[k],
        forall|j: int|
            from <= j < k ==> ctx::shown(c, #[trigger] index[j]).len() == 0 || !found[j],
    ensures
        files::index_place(c, index, found, from) == k,
    decreases k - from,
{
    if from < k {
        assert(ctx::shown(c, index[from]).len() == 0 || !found[from]);
        lemma_index_place(c, index, found, from + 1, k);
    }
}

/// In a directory the first index file that is there is routed to.
pub proof fn law_the_first_index_is_taken(
    c: CtxView,
    core: CoreConf,
    found: Seq<bool>,
    k: int,
    name: Seq<u8>,
)
    requires
        c.uri.len() > 0 && c.uri.last() == 47,
        0 <= k < core.index@.len(),
        name == ctx::shown(c, core.index@[k]),
        name.len() > 0 && name[0] != 47,
        found[k],
        forall|j: int|
            0 <= j < k ==> ctx::shown(c, #[trigger] core.index@[j]).len() == 0 || !found[j],
    ensures
        files::directory_served(c, core, found) == ServedView::Internal(c.uri + name),
{
    lemma_index_place(c, core.index@, found, 0, k);
}

/// Without an index a directory is listed where that is on, and forbidden where it is off.
pub proof fn law_a_directory_without_index_is_listed(c: CtxView, core: CoreConf, found: Seq<bool>)
    requires
        c.uri.len() > 0 && c.uri.last() == 47,
        forall|j: int|
            0 <= j < core.index@.len() ==> ctx::shown(c, #[trigger] core.index@[j]).len() == 0
                || !found[j],
    ensures
        core.autoindex ==> files::directory_served(c, core, found) == ServedView::Autoindex,
        !core.autoindex ==> status_of(files::directory_served(c, core, found)) == Some(403u16),
{
    lemma_index_place(c, core.index@, found, 0, core.index@.len() as int);
}

/// Leading slashes of an index file's name do not count.
pub proof fn law_paths_are_joined_with_one_slash(dir: Seq<u8>, name: Seq<u8>)
    requires
        name.len() > 0,
        name[0] != 47,
        dir.len() > 0,
        dir.last() != 47,
    ensures
        files::joined(dir, name) == dir + seq![47u8] + name,
        files::joined(dir.push(47), name) == dir + seq![47u8] + name,
        files::joined(dir, seq![47u8] + name) == dir + seq![47u8] + name,
{
    reveal_with_fuel(files::unslashed, 2);
    assert((seq![47u8] + name).subrange(1, name.len() as int + 1) =~= name);
    assert(dir.push(47) =~= dir + seq![47u8]);
}

/// In a location without a path of its own an alias names the file itself.
pub proof fn law_an_alias_may_name_the_file(c: CtxView, a: Template, i: usize)
    requires
        ctx::core_of(c).alias == Some(a),
        c.matched == Some(i) ==> i < c.env.server.locations@.len()
            && c.env.server.locations@[i as int].prefix is None,
        c.matched is None || c.matched == Some(i),
    ensures
        files::mapped(c) == ctx::shown(c, a),
{
    assert(c.uri.subrange(c.uri.len() as int, c.uri.len() as int).len() == 0);
}

/// No part of an empty file can be sent.
pub proof fn law_empty_files_have_no_parts(
    c: CtxView,
    core: CoreConf,
    f: FileInfo,
    dates: Dates,
    count: u64,
)
    requires
        is_plainly_asked(c, dates),
        lacks(c, "if-range"@),
        brings(c, "range"@, written_range(None, Some(count as nat))),
        core.max_ranges != Some(0u64),
        f.size == 0,
    ensures
        status_of(files::file_served(c, core, f, dates)) == Some(416u16),
{
    law_headers_are_found_by_name(c, "if-match"@, Seq::empty());
    law_headers_are_found_by_name(c, "if-none-match"@, Seq::empty());
    law_headers_are_found_by_name(c, "if-range"@, Seq::empty());
    law_headers_are_found_by_name(c, "range"@, written_range(None, Some(count as nat)));
    law_a_range_may_be_the_last_bytes(count, 0);
}

/// Any number of slashes in front of a name are dropped.
pub proof fn law_leading_slashes_are_dropped(name: Seq<u8>, slashes: Seq<u8>)
    requires
        name.len() == 0 || name[0] != 47,
        forall|i: int| 0 <= i < slashes.len() ==> #[trigger] slashes[i] == 47,
    ensures
        files::unslashed(slashes + name) == name,
    decreases slashes.len(),
{
    let s = slashes + name;
    if slashes.len() > 0 {
        assert(slashes[0] == 47);
        let fewer = slashes.subrange(1, slashes.len() as int);
        assert forall|i: int| 0 <= i < fewer.len() implies #[trigger] fewer[i] == 47 by {
            assert(slashes[i + 1] == 47);
        }
        assert(s.subrange(1, s.len() as int) =~= fewer + name);
        law_leading_slashes_are_dropped(name, fewer);
    } else {
        assert(s =~= name);
    }
}

/// A file that is not there, or has no possible name, is not found; one that may not be read
/// is forbidden; any other failure is the server's.
pub proof fn law_failures_to_open_are_answered()
    ensures
        files::failure_status(IoFailure::NotFound) == 404,
        files::failure_status(IoFailure::NameTooLong) == 404,
        files::failure_status(IoFailure::TooManyLinks) == 404,
        files::failure_status(IoFailure::PermissionDenied) == 403,
        files::failure_status(IoFailure::Other) == 500,
{
}

/// However a part of a file is sent, it is that part: from its first byte, as long as it is.
pub proof fn law_the_right_part_is_sent<M, F, S>(
    r: Body<M, F, S>,
    file: F,
    start: u64,
    len: u64,
    sendfile: bool,
    map: Option<(M, usize)>,
)
    requires
        start + len <= u64::MAX,
        files::is_part(r, file, start, len, sendfile, map),
    ensures
        r.length() == Some(len as int),
        len > 0 && len <= 65536 ==> r is Inline,
        sendfile ==> !(r is Mmap),
        len > 262144 ==> r is File,
        (r matches Body::Inline { file: f, offset, len: n } ==> f == file && offset == start && n
            == len),
        (r matches Body::File { file: f, offset, len: n } ==> f == file && offset == start && n
            == len),
        (r matches Body::Mmap { map: m, start: a, end: b } ==> a == start && b == start + len && (
        map matches Some(x) && m == x.0 && b <= x.1)),
{
}

} // verus!
