//! Directory listings for `autoindex on`.

use vstd::prelude::*;
use vstd::string::*;

use crate::bytes;
use crate::ctx::Ctx;
use crate::ctx::CtxView;
use crate::handler::Page;
use crate::handler::PageView;
use crate::http;
use crate::http::Resp;
use crate::http::RespView;
use crate::sorting;
use crate::sorting::Key;
use crate::uri;

verus! {

/// The displayed name is padded to this width before the date column.
pub const NAME_WIDTH: usize = 50;

/// The size column is this wide.
pub const SIZE_WIDTH: usize = 20;

/// One entry of a directory. `date` is its modification time as an HTTP date.
#[derive(Debug)]
pub struct DirEntry {
    pub name: Vec<u8>,
    pub is_dir: bool,
    pub size: u64,
    pub date: Vec<u8>,
}

/// An entry as plain values.
#[verifier::ext_equal]
pub ghost struct DirEntryView {
    pub name: Seq<u8>,
    pub is_dir: bool,
    pub size: u64,
    pub date: Seq<u8>,
}

impl View for DirEntry {
    type V = DirEntryView;

    open spec fn view(&self) -> DirEntryView {
        DirEntryView {
            name: self.name@,
            is_dir: self.is_dir,
            size: self.size,
            date: self.date@,
        }
    }
}

/// Dotfiles are hidden from listings.
pub fn is_hidden(name: &[u8]) -> (r: bool)
    ensures
        r == (name@.len() > 0 && name@[0] == 46),
{
    name.len() > 0 && name[0] == 46
}

// ---------------------------------------------------------------- characters

/// Whether a byte begins a character.
pub open spec fn begins_char(b: u8) -> bool {
    b < 0x80 || b >= 0xc0
}

/// How many characters text has.
pub open spec fn char_count(s: Seq<u8>) -> int
    decreases s.len(),
{
    if s.len() == 0 {
        0
    } else {
        char_count(s.drop_last()) + if begins_char(s.last()) {
            1int
        } else {
            0
        }
    }
}

fn count_chars(s: &[u8]) -> (r: usize)
    ensures
        r == char_count(s@),
{
    let mut n: usize = 0;
    for i in 0..s.len()
        invariant
            n <= i,
            n == char_count(s@.subrange(0, i as int)),
    {
        let ghost next = s@.subrange(0, i + 1);
        assert(next.drop_last() =~= s@.subrange(0, i as int));
        assert(next.last() == s@[i as int]);
        if s[i] < 0x80 || s[i] >= 0xc0 {
            n = n + 1;
        }
    }
    assert(s@.subrange(0, s@.len() as int) =~= s@);
    n
}

/// Where the first `n` characters from `i` on end.
pub open spec fn chars_end(s: Seq<u8>, n: int, i: int) -> int
    decreases s.len() - i,
{
    if i < 0 || i >= s.len() {
        s.len() as int
    } else if begins_char(s[i]) {
        if n <= 0 {
            i
        } else {
            chars_end(s, n - 1, i + 1)
        }
    } else {
        chars_end(s, n, i + 1)
    }
}

fn end_of_chars(s: &[u8], n: usize) -> (r: usize)
    ensures
        r == chars_end(s@, n as int, 0),
        r <= s@.len(),
{
    let mut left: usize = n;
    for i in 0..s.len()
        invariant
            chars_end(s@, n as int, 0) == chars_end(s@, left as int, i as int),
    {
        if s[i] < 0x80 || s[i] >= 0xc0 {
            if left == 0 {
                return i;
            }
            left = left - 1;
        }
    }
    s.len()
}

/// Text with every occurrence of a piece left out.
pub open spec fn without(s: Seq<u8>, p: Seq<u8>) -> Seq<u8>
    decreases s.len(),
{
    let i = bytes::find_seq(s, p, 0);
    if p.len() == 0 || i < 0 || i + p.len() > s.len() {
        s
    } else {
        s.subrange(0, i) + without(s.subrange(i + p.len(), s.len() as int), p)
    }
}

fn remove_all(s: &[u8], p: &[u8]) -> (r: Vec<u8>)
    requires
        p@.len() > 0,
    ensures
        r@ == without(s@, p@),
{
    let mut out: Vec<u8> = Vec::new();
    let mut from: usize = 0;
    assert(s@.subrange(0, s@.len() as int) =~= s@);
    loop
        invariant
            p@.len() > 0,
            from <= s.len(),
            without(s@, p@) == out@ + without(s@.subrange(from as int, s@.len() as int), p@),
        decreases s.len() - from,
    {
        let rest: &[u8] = &s[from..s.len()];
        match bytes::find_slice(rest, p, 0) {
            Some(i) => {
                let ghost before = out@;
                proof {
                    bytes::lemma_find_seq(rest@, p@, 0);
                }
                out.extend_from_slice(&rest[0..i]);
                proof {
                    let tail = rest@.subrange(i + p@.len(), rest@.len() as int);
                    assert(tail =~= s@.subrange(from + i + p@.len(), s@.len() as int));
                    assert(without(rest@, p@) == rest@.subrange(0, i as int) + without(tail, p@));
                    assert(out@ + without(tail, p@) =~= before + without(rest@, p@));
                }
                from = from + i + p.len();
            },
            None => {
                let ghost before = out@;
                out.extend_from_slice(rest);
                assert(out@ =~= before + without(rest@, p@));
                return out;
            },
        }
    }
}

// ---------------------------------------------------------------- the page

/// Blanks.
pub open spec fn blanks(n: int) -> Seq<u8> {
    Seq::new(
        if n > 0 {
            n as nat
        } else {
            0
        },
        |i: int| 32u8,
    )
}

fn push_blanks(out: &mut Vec<u8>, n: usize)
    ensures
        final(out)@ == old(out)@ + blanks(n as int),
{
    let ghost before = out@;
    for i in 0..n
        invariant
            out@ == before + blanks(i as int),
    {
        out.push(32);
        assert(out@ =~= before + blanks(i + 1));
    }
    assert(out@ =~= before + blanks(n as int));
}

/// A slash behind a directory.
pub open spec fn slash(is_dir: bool) -> Seq<u8> {
    if is_dir {
        seq![47u8]
    } else {
        Seq::empty()
    }
}

/// The name as it is shown: a long one is cut.
pub open spec fn shown_name(display: Seq<u8>) -> Seq<u8> {
    if char_count(display) > NAME_WIDTH {
        display.subrange(0, chars_end(display, NAME_WIDTH - 3, 0)) + bytes::utf8("..&gt;"@)
    } else {
        display
    }
}

/// The size column.
pub open spec fn size_column(e: DirEntryView) -> Seq<u8> {
    if e.is_dir {
        bytes::utf8("                   -"@)
    } else {
        blanks(SIZE_WIDTH - bytes::decimal(e.size as nat).len()) + bytes::decimal(e.size as nat)
    }
}

/// One row of a listing.
pub open spec fn row(e: DirEntryView) -> Seq<u8> {
    let display = uri::escaped(e.name) + slash(e.is_dir);
    let width = if char_count(display) < NAME_WIDTH {
        char_count(display)
    } else {
        NAME_WIDTH as int
    };
    bytes::utf8("<a href=\""@) + uri::encoded(e.name) + slash(e.is_dir) + bytes::utf8("\">"@)
        + shown_name(display) + bytes::utf8("</a>"@) + blanks(NAME_WIDTH + 1 - width)
        + bytes::trimmed_end(without(e.date, bytes::utf8("GMT"@))) + bytes::utf8("  "@)
        + size_column(e) + bytes::utf8("\r\n"@)
}

/// The first `n` rows of a listing, in an order.
pub open spec fn rows(es: Seq<DirEntryView>, order: Seq<int>, n: int) -> Seq<u8>
    decreases n,
{
    if n <= 0 {
        Seq::empty()
    } else {
        rows(es, order, n - 1) + row(es[order[n - 1]])
    }
}

/// What entries are ordered by: directories first, then names.
pub open spec fn entry_keys(es: Seq<DirEntryView>) -> Seq<(u8, Seq<u8>)> {
    es.map_values(
        |e: DirEntryView|
            (
                if e.is_dir {
                    0u8
                } else {
                    1u8
                },
                e.name,
            ),
    )
}

/// The HTML of a listing.
pub open spec fn listing(u: Seq<u8>, es: Seq<DirEntryView>, order: Seq<int>) -> Seq<u8> {
    bytes::utf8("<html>\r\n<head><title>Index of "@) + uri::escaped(u) + bytes::utf8(
        "</title></head>\r\n<body>\r\n<h1>Index of "@,
    ) + uri::escaped(u) + bytes::utf8("</h1><hr><pre><a href=\"../\">../</a>\r\n"@) + rows(
        es,
        order,
        order.len() as int,
    ) + bytes::utf8("</pre><hr></body>\r\n</html>\r\n"@)
}

/// Entries as plain values.
pub open spec fn entries(es: Seq<DirEntry>) -> Seq<DirEntryView> {
    es.map_values(|e: DirEntry| e@)
}

/// The head of a listing.
pub open spec fn listing_head(c: CtxView) -> RespView {
    RespView {
        headers: seq![
            (
                bytes::utf8("Content-Type"@),
                bytes::utf8("text/html; charset="@) + match c.env.server.core.charset {
                    Some(cs) => cs@,
                    None => bytes::utf8("utf-8"@),
                },
            ),
        ],
        ..http::bare(200)
    }
}

#[verifier::spinoff_prover]
#[verifier::rlimit(60)]
fn push_row(h: &mut Vec<u8>, e: &DirEntry)
    ensures
        final(h)@ == old(h)@ + row(e@),
{
    let mut display: Vec<u8> = Vec::new();
    uri::escape_html(e.name.as_slice(), &mut display);
    if e.is_dir {
        display.push(47);
    }
    assert(display@ =~= uri::escaped(e.name@) + slash(e.is_dir));
    let count: usize = count_chars(display.as_slice());

    let mut out: Vec<u8> = bytes::copy("<a href=\"".as_bytes());
    uri::encode_path(e.name.as_slice(), &mut out);
    let ghost named = out@;
    if e.is_dir {
        out.push(47);
    }
    assert(out@ =~= named + slash(e.is_dir));
    out.extend_from_slice("\">".as_bytes());
    let ghost opened = out@;
    if count > NAME_WIDTH {
        let end: usize = end_of_chars(display.as_slice(), NAME_WIDTH - 3);
        out.extend_from_slice(&display.as_slice()[0..end]);
        out.extend_from_slice("..&gt;".as_bytes());
    } else {
        out.extend_from_slice(display.as_slice());
    }
    assert(out@ =~= opened + shown_name(display@));
    out.extend_from_slice("</a>".as_bytes());
    let width: usize = if count < NAME_WIDTH {
        count
    } else {
        NAME_WIDTH
    };
    push_blanks(&mut out, NAME_WIDTH + 1 - width);
    proof {
        reveal_strlit("GMT");
        bytes::lemma_ascii_text(seq![71u8, 77, 84]);
        assert(bytes::ascii_text(seq![71u8, 77, 84]) =~= "GMT"@);
    }
    let date: Vec<u8> = remove_all(e.date.as_slice(), "GMT".as_bytes());
    out.extend_from_slice(bytes::trim_end(date.as_slice()));
    out.extend_from_slice("  ".as_bytes());
    push_size(&mut out, e);
    out.extend_from_slice("\r\n".as_bytes());
    assert(out@ == row(e@));
    h.extend_from_slice(out.as_slice());
}

fn push_size(out: &mut Vec<u8>, e: &DirEntry)
    ensures
        final(out)@ == old(out)@ + size_column(e@),
{
    if e.is_dir {
        out.extend_from_slice("                   -".as_bytes());
    } else {
        let mut size: Vec<u8> = Vec::new();
        bytes::push_decimal(&mut size, e.size);
        assert(size@ =~= bytes::decimal(e.size as nat));
        if size.len() < SIZE_WIDTH {
            push_blanks(out, SIZE_WIDTH - size.len());
        }
        out.extend_from_slice(size.as_slice());
    }
    assert(out@ =~= old(out)@ + size_column(e@));
}

/// Renders a listing of the entries of a directory.
pub fn render(ctx: &Ctx, found: &Vec<DirEntry>) -> (r: Page)
    ensures
        exists|order: Seq<int>|
            sorting::is_order(entry_keys(entries(found@)), order, found@.len() as int) && r@ == (
            PageView {
                resp: listing_head(ctx@),
                body: Some(#[trigger] listing(ctx@.uri, entries(found@), order)),
            }),
{
    let ghost es = entries(found@);
    let mut keys: Vec<Key> = Vec::new();
    for i in 0..found.len()
        invariant
            es == entries(found@),
            sorting::key_views(keys@) == entry_keys(es).subrange(0, i as int),
            keys@.len() == i,
    {
        let group: u8 = if found[i].is_dir {
            0
        } else {
            1
        };
        keys.push(Key { group, name: bytes::copy(found[i].name.as_slice()) });
        assert(es[i as int] == found@[i as int]@);
        assert(sorting::key_views(keys@) =~= entry_keys(es).subrange(0, i + 1));
    }
    assert(sorting::key_views(keys@) =~= entry_keys(es));
    let order: Vec<usize> = sorting::order_of(&keys);
    let ghost o = sorting::numbers(order@);

    let mut h: Vec<u8> = Vec::new();
    let mut title: Vec<u8> = Vec::new();
    uri::escape_html(ctx.uri.as_slice(), &mut title);
    assert(title@ =~= uri::escaped(ctx@.uri));
    h.extend_from_slice("<html>\r\n<head><title>Index of ".as_bytes());
    h.extend_from_slice(title.as_slice());
    h.extend_from_slice("</title></head>\r\n<body>\r\n<h1>Index of ".as_bytes());
    h.extend_from_slice(title.as_slice());
    h.extend_from_slice("</h1><hr><pre><a href=\"../\">../</a>\r\n".as_bytes());
    let ghost head = h@;
    for i in 0..order.len()
        invariant
            es == entries(found@),
            keys@.len() == found@.len(),
            o == sorting::numbers(order@),
            forall|k: int| 0 <= k < order@.len() ==> (#[trigger] order@[k]) < found@.len(),
            h@ == head + rows(es, o, i as int),
    {
        assert(o[i as int] == order@[i as int]);
        assert(es[o[i as int]] == found@[o[i as int]]@);
        push_row(&mut h, &found[order[i]]);
        assert(h@ =~= head + rows(es, o, i + 1));
    }
    h.extend_from_slice("</pre><hr></body>\r\n</html>\r\n".as_bytes());
    assert(h@ =~= listing(ctx@.uri, es, o));

    let mut resp = Resp::new(200);
    let mut kind: Vec<u8> = bytes::copy("text/html; charset=".as_bytes());
    match &ctx.env.server.core.charset {
        Some(cs) => {
            kind.extend_from_slice(cs.as_slice());
        },
        None => {
            kind.extend_from_slice("utf-8".as_bytes());
        },
    }
    resp.header("Content-Type", kind.as_slice());
    assert(kind@ == listing_head(ctx@).headers[0].1);
    assert(resp@.headers =~= listing_head(ctx@).headers);
    Page { resp, body: Some(h) }
}

} // verus!
