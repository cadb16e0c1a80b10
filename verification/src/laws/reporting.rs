//! `log`, `stats`, `autoindex`, `sorting` and the records of `conn`: what is told.

use vstd::prelude::*;

use crate::autoindex;
use crate::autoindex::DirEntryView;
use crate::bytes;
use crate::conn;
use crate::conn::LogField;
use crate::log;
use crate::log::Datagrams;
use crate::log::LogLevel;
use crate::log::Sink;
use crate::log::SinkView;
use crate::msgpack;
use crate::sorting;
use crate::stats;
use crate::stats::Counters;
use crate::stats::State;
use crate::text;
use crate::uri;

verus! {

// ---------------------------------------------------------------- logs

/// A line is written at once where nothing is buffered; otherwise it is held until the
/// buffer is full, and then all of it is written.
pub proof fn law_lines_are_held_until_the_buffer_is_full(s: SinkView, line: Seq<u8>, now: u64)
    ensures
        ({
            let (after, out) = log::lined(s, line, now);
            let all = s.buf + line.push(10);
            &&& s.cap == 0 ==> out == line.push(10) && after.buf.len() == 0
            &&& s.cap > 0 && all.len() >= s.cap ==> out == all && after.buf.len() == 0
                && after.last_flush == now
            &&& s.cap > 0 && all.len() < s.cap ==> out.len() == 0 && after.buf == all
        }),
{
}

/// What is held is written when its time has come.
pub proof fn law_held_lines_come_due(s: SinkView, every: u64, now: u64)
    requires
        s.flush_every == Some(every),
    ensures
        log::is_due(s, now) <==> s.buf.len() > 0 && now >= s.last_flush + every,
        log::flushed(s, now).1 == s.buf,
        log::flushed(s, now).0.buf.len() == 0,
        log::flushed(s, now).0.last_flush == now,
{
}

/// Without a time nothing comes due.
pub proof fn law_lines_may_be_held_for_good(s: SinkView, now: u64)
    requires
        s.flush_every is None,
    ensures
        !log::is_due(s, now),
{
}

/// One severity is above another.
pub open spec fn is_above(a: LogLevel, b: LogLevel) -> bool {
    match a {
        LogLevel::Debug => false,
        LogLevel::Info => b == LogLevel::Debug,
        LogLevel::Notice => b == LogLevel::Debug || b == LogLevel::Info,
        LogLevel::Warn => b == LogLevel::Debug || b == LogLevel::Info || b == LogLevel::Notice,
        LogLevel::Error => !(b == LogLevel::Error || b == LogLevel::Crit || b == LogLevel::Alert
            || b == LogLevel::Emerg),
        LogLevel::Crit => !(b == LogLevel::Crit || b == LogLevel::Alert || b == LogLevel::Emerg),
        LogLevel::Alert => !(b == LogLevel::Alert || b == LogLevel::Emerg),
        LogLevel::Emerg => b != LogLevel::Emerg,
    }
}

/// Messages are ranked by how severe they are.
pub proof fn law_messages_are_ranked(a: LogLevel, b: LogLevel)
    ensures
        a.rank() > b.rank() <==> is_above(a, b),
{
}

/// A line of the error log has the time, the severity in brackets, the process and the
/// message.
pub proof fn law_errors_are_written_out(time: Seq<u8>, level: LogLevel, pid: u64, msg: Seq<u8>)
    ensures
        log::error_line(time, level, pid, msg) == time + bytes::utf8(" ["@) + bytes::utf8(
            level.name(),
        ) + bytes::utf8("] "@) + bytes::decimal(pid as nat) + bytes::utf8(": "@) + msg,
        bytes::starts(log::error_line(time, level, pid, msg), time),
        bytes::ends(log::error_line(time, level, pid, msg), msg),
{
    let l = log::error_line(time, level, pid, msg);
    assert(l.subrange(0, time.len() as int) =~= time);
    assert(l.subrange(l.len() - msg.len(), l.len() as int) =~= msg);
}

// ---------------------------------------------------------------- records

/// A record is a map of as many pairs as it has fields, each a name and a value, in order;
/// the name of the database comes first, as one more.
pub proof fn law_records_are_maps(fs: Seq<LogField>, f: LogField, db: Seq<char>)
    ensures
        conn::record_bytes(fs, None) == msgpack::map_bytes(fs.len()) + conn::log_fields(
            fs,
            fs.len() as int,
        ),
        conn::record_bytes(fs, Some(db)) == msgpack::map_bytes(fs.len() + 1) + msgpack::str_bytes(
            bytes::utf8("db"@),
        ) + msgpack::str_bytes(bytes::utf8(db)) + conn::log_fields(fs, fs.len() as int),
        conn::log_fields(fs.push(f), fs.len() as int + 1) == conn::log_fields(
            fs,
            fs.len() as int,
        ) + msgpack::str_bytes(bytes::utf8(f.name@)) + msgpack::auto_bytes(
            bytes::utf8(f.value@),
            f.decimal,
        ),
        conn::log_fields(fs, 0).len() == 0,
{
    lemma_fields(fs, f, fs.len() as int);
}

proof fn lemma_fields(fs: Seq<LogField>, f: LogField, n: int)
    requires
        0 <= n <= fs.len(),
    ensures
        conn::log_fields(fs.push(f), n) == conn::log_fields(fs, n),
    decreases n,
{
    if n > 0 {
        lemma_fields(fs, f, n - 1);
        assert(fs.push(f)[n - 1] == fs[n - 1]);
    }
}

/// A value that is a plain number is a number in a record, and reads back as it; any other
/// text reads back as itself.
pub proof fn law_values_of_records_read_back(n: u64, s: Seq<u8>, i: int, rest: Seq<u8>)
    requires
        s.len() < 0x1_0000_0000,
    ensures
        msgpack::uint_of(msgpack::auto_bytes(bytes::decimal(n as nat), None) + rest) matches Some(
            r,
        ) && r.0 == n,
        0 <= i < s.len() && !(48 <= s[i] <= 57) ==> msgpack::str_of(
            msgpack::auto_bytes(s, None) + rest,
        ) == Some(s),
        s.len() > 1 && s[0] == 48 ==> msgpack::str_of(msgpack::auto_bytes(s, None) + rest) == Some(
            s,
        ),
{
    bytes::lemma_decimal(n as nat);
    crate::laws::texts::law_decimals_read_back(n as nat);
    msgpack::law_integers_read_back(n, rest);
    assert(bytes::decimal(n as nat).len() == 1 || n > 0);
    msgpack::law_strings_read_back(s, rest);
    if 0 <= i < s.len() && !(48 <= s[i] <= 57) {
        assert(!bytes::is_digit(s[i]));
    }
}

/// A fraction keeps the value it was read as.
pub proof fn law_fractions_are_doubles(a: Seq<u8>, b: Seq<u8>, bits: u64)
    requires
        bytes::all_digits(a),
        bytes::all_digits(b),
        a.len() + b.len() < 24,
    ensures
        msgpack::auto_bytes(a + seq![46u8] + b, Some(bits)) == seq![0xcbu8] + bytes::be(
            bits as nat,
            8,
        ),
{
    let s = a + seq![46u8] + b;
    let d = a.len() as int;
    assert(s[d] == 46);
    assert(!bytes::is_digit(s[d]));
    assert forall|i: int| 0 <= i < s.len() && i != d implies bytes::is_digit(#[trigger] s[i]) by {
        if i < d {
            assert(bytes::is_digit(a[i]));
        } else {
            assert(bytes::is_digit(b[i - d - 1]));
        }
    }
    assert(msgpack::is_decimal(s));
}

// ---------------------------------------------------------------- order

/// One name comes before another: by their first difference, or as its beginning.
pub open spec fn comes_before(a: Seq<u8>, b: Seq<u8>) -> bool {
    exists|i: int|
        #![trigger a.subrange(0, i)]
        0 <= i <= a.len() && i < b.len() && a.subrange(0, i) == b.subrange(0, i) && (i == a.len()
            || a[i] < b[i])
}

proof fn lemma_less(a: Seq<u8>, b: Seq<u8>, k: int)
    requires
        0 <= k <= a.len(),
        k <= b.len(),
        a.subrange(0, k) == b.subrange(0, k),
    ensures
        sorting::less_from(a, b, k) <==> comes_before(a, b),
    decreases b.len() - k,
{
    if k >= b.len() {
        if comes_before(a, b) {
            let i = choose|i: int|
                #![trigger a.subrange(0, i)]
                0 <= i <= a.len() && i < b.len() && a.subrange(0, i) == b.subrange(0, i) && (i
                    == a.len() || a[i] < b[i]);
            assert(a.subrange(0, k)[i] == a[i] && b.subrange(0, k)[i] == b[i]);
        }
    } else if k >= a.len() {
        assert(a.subrange(0, k) == b.subrange(0, k));
    } else if a[k] != b[k] {
        if a[k] < b[k] {
            assert(a.subrange(0, k) == b.subrange(0, k));
        }
        if comes_before(a, b) {
            let i = choose|i: int|
                #![trigger a.subrange(0, i)]
                0 <= i <= a.len() && i < b.len() && a.subrange(0, i) == b.subrange(0, i) && (i
                    == a.len() || a[i] < b[i]);
            if i < k {
                assert(a.subrange(0, k)[i] == a[i] && b.subrange(0, k)[i] == b[i]);
            }
            if i > k {
                assert(a.subrange(0, i)[k] == a[k] && b.subrange(0, i)[k] == b[k]);
            }
        }
    } else {
        assert(a.subrange(0, k + 1) =~= b.subrange(0, k + 1)) by {
            assert forall|j: int| 0 <= j < k implies a[j] == b[j] by {
                assert(a.subrange(0, k)[j] == a[j] && b.subrange(0, k)[j] == b[j]);
            }
        }
        lemma_less(a, b, k + 1);
    }
}

/// Names are in the order of their bytes.
pub proof fn law_names_are_ordered_by_bytes(a: Seq<u8>, b: Seq<u8>)
    ensures
        sorting::less(a, b) <==> comes_before(a, b),
{
    assert(a.subrange(0, 0) =~= b.subrange(0, 0));
    lemma_less(a, b, 0);
}

/// In an order everything stands behind what is less than it, and nothing is missing.
pub proof fn law_an_order_has_everything_in_its_place(
    keys: Seq<(u8, Seq<u8>)>,
    order: Seq<int>,
    i: int,
    j: int,
)
    requires
        sorting::is_order(keys, order, keys.len() as int),
        0 <= i < j < order.len(),
    ensures
        order.len() == keys.len(),
        0 <= order[i] < keys.len(),
        order[i] != order[j],
        ({
            let (a, b) = (keys[order[i]], keys[order[j]]);
            a.0 < b.0 || (a.0 == b.0 && comes_before(a.1, b.1)) || (a == b && order[i] < order[j])
        }),
{
    let (a, b) = (keys[order[i]], keys[order[j]]);
    law_names_are_ordered_by_bytes(a.1, b.1);
    assert(sorting::precedes(keys, order[i], order[j]));
    if order[i] == order[j] {
        assert(!comes_before(a.1, a.1)) by {
            if comes_before(a.1, a.1) {
                let i = choose|i: int|
                    #![trigger a.1.subrange(0, i)]
                    0 <= i <= a.1.len() && i < a.1.len() && a.1.subrange(0, i) == a.1.subrange(
                        0,
                        i,
                    ) && (i == a.1.len() || a.1[i] < a.1[i]);
            }
        }
    }
}

// ---------------------------------------------------------------- listings

/// Directories are listed before files, and both by their names.
pub proof fn law_directories_are_listed_first(es: Seq<DirEntryView>, i: int)
    requires
        0 <= i < es.len(),
    ensures
        autoindex::entry_keys(es)[i].1 == es[i].name,
        es[i].is_dir ==> autoindex::entry_keys(es)[i].0 == 0,
        !es[i].is_dir ==> autoindex::entry_keys(es)[i].0 == 1,
{
}

/// Every entry has its row, in the order of the listing.
pub proof fn law_every_entry_is_listed(es: Seq<DirEntryView>, order: Seq<int>, n: int)
    requires
        0 < n <= order.len(),
    ensures
        autoindex::rows(es, order, n) == autoindex::rows(es, order, n - 1) + autoindex::row(
            es[order[n - 1]],
        ),
        autoindex::rows(es, order, 0).len() == 0,
{
}

/// A row links to its entry, a directory with a slash behind it, and shows its name.
pub proof fn law_rows_link_to_their_entries(e: DirEntryView)
    requires
        autoindex::char_count(uri::escaped(e.name)) < 49,
    ensures
        ({
            let tail = if e.is_dir {
                seq![47u8]
            } else {
                Seq::<u8>::empty()
            };
            bytes::starts(
                autoindex::row(e),
                bytes::utf8("<a href=\""@) + uri::encoded(e.name) + tail + bytes::utf8("\">"@)
                    + uri::escaped(e.name) + tail + bytes::utf8("</a>"@),
            )
        }),
{
    let tail = if e.is_dir {
        seq![47u8]
    } else {
        Seq::<u8>::empty()
    };
    let display = uri::escaped(e.name) + tail;
    assert(autoindex::slash(e.is_dir) =~= tail);
    if e.is_dir {
        assert(display.drop_last() =~= uri::escaped(e.name));
    } else {
        assert(display =~= uri::escaped(e.name));
    }
    assert(autoindex::char_count(display) <= 49);
    let p = bytes::utf8("<a href=\""@) + uri::encoded(e.name) + tail + bytes::utf8("\">"@)
        + uri::escaped(e.name) + tail + bytes::utf8("</a>"@);
    assert(autoindex::row(e).subrange(0, p.len() as int) =~= p);
}

/// A size stands at the right of its column of twenty; a directory has a dash there.
pub proof fn law_sizes_stand_at_the_right(e: DirEntryView)
    requires
        bytes::decimal(e.size as nat).len() <= 20,
    ensures
        !e.is_dir ==> autoindex::size_column(e).len() == 20 && bytes::ends(
            autoindex::size_column(e),
            bytes::decimal(e.size as nat),
        ) && forall|i: int|
            0 <= i < 20 - bytes::decimal(e.size as nat).len() ==> #[trigger]
            autoindex::size_column(e)[i] == 32,
{
    let d = bytes::decimal(e.size as nat);
    let c = autoindex::size_column(e);
    if !e.is_dir {
        assert(c.subrange(c.len() - d.len(), c.len() as int) =~= d);
    }
}

// ---------------------------------------------------------------- status pages

/// How many connections are in a state is counted there, and nowhere else.
pub proof fn law_states_are_counted(c: Counters, s: State)
    requires
        stats::in_state(c, s) < u64::MAX,
    ensures
        stats::in_state(stats::entered(c, s), s) == stats::in_state(c, s) + 1,
        forall|t: State|
            t != s ==> stats::in_state(stats::entered(c, s), t) == #[trigger] stats::in_state(c, t),
        stats::entered(c, s).active == c.active,
        stats::entered(c, s).requests == c.requests,
        stats::entered(c, State::Reading).writing == c.writing,
        stats::in_state(c, State::Reading) == c.reading,
        stats::in_state(c, State::Writing) == c.writing,
        stats::in_state(c, State::Waiting) == c.waiting,
{
}

/// The status page tells the counters, each in its place.
pub proof fn law_the_status_page_tells_the_counters(c: Counters)
    ensures
        stats::stub_status_text(c) == "Active connections: "@ + text::decimal_text(c.active as nat)
            + " \nserver accepts handled requests\n "@ + text::decimal_text(c.accepts as nat)
            + " "@ + text::decimal_text(c.handled as nat) + " "@ + text::decimal_text(
            c.requests as nat,
        ) + " \nReading: "@ + text::decimal_text(c.reading as nat) + " Writing: "@
            + text::decimal_text(c.writing as nat) + " Waiting: "@ + text::decimal_text(
            c.waiting as nat,
        ) + " \n"@,
{
}

/// A peer is up, down or unhealthy.
pub proof fn law_peers_are_reported(down: bool, h: crate::upstream::PeerHealth, now_ms: u64)
    ensures
        down ==> stats::peer_state(down, h, now_ms) == "down"@,
        !down && h.down_until_ms > now_ms ==> stats::peer_state(down, h, now_ms) == "unhealthy"@,
        !down && h.down_until_ms <= now_ms ==> stats::peer_state(down, h, now_ms) == "up"@,
{
}

/// In JSON quotes, backslashes and control characters are escaped, and everything else is
/// written as it is.
pub proof fn law_json_escapes(s: Seq<char>, c: char)
    ensures
        stats::json_chars(s.push(c)) == stats::json_chars(s) + if c == '"' {
            "\\\""@
        } else if c == '\\' {
            "\\\\"@
        } else if c == '\n' {
            "\\n"@
        } else if c == '\r' {
            "\\r"@
        } else if c == '\t' {
            "\\t"@
        } else if (c as u32) < 32 {
            "\\u"@ + bytes::ascii_text(bytes::hex_padded((c as u32) as nat, 4))
        } else {
            seq![c]
        },
        stats::json_chars(Seq::empty()).len() == 0,
        stats::json_string(s) == "\""@ + stats::json_chars(s) + "\""@,
{
    assert(s.push(c).drop_last() =~= s);
}

/// Each peer is told with its address, its state, its requests, its weight and whether it
/// is a backup; the peers of a group one after another.
pub proof fn law_groups_are_reported(up: crate::upstream::Upstream, now_ms: u64, n: int)
    requires
        0 < n <= up.servers@.len(),
    ensures
        stats::peers_json(up, now_ms, n) == stats::peers_json(up, now_ms, n - 1) + (if n > 1 {
            ","@
        } else {
            Seq::empty()
        }) + ("\n      {\"server\": "@ + stats::json_string(up.servers@[n - 1].addr@)
            + ", \"state\": \""@ + stats::peer_state(
            up.servers@[n - 1].down,
            up.health@[n - 1],
            now_ms,
        ) + "\", \"in_flight\": "@ + text::decimal_text(up.health@[n - 1].in_flight as nat)
            + ", \"weight\": "@ + text::decimal_text(up.servers@[n - 1].weight as nat)
            + ", \"backup\": "@ + (if up.servers@[n - 1].backup {
            "true"@
        } else {
            "false"@
        }) + "}"@),
        stats::group_json(up, now_ms) == "\n    "@ + stats::json_string(up.name@) + ": ["@
            + stats::peers_json(up, now_ms, up.servers@.len() as int) + "\n    ]"@,
{
}

/// A log is found by its path, the first of it.
pub proof fn law_logs_are_found(ss: Seq<Sink>, path: Seq<u8>, i: int, k: int)
    requires
        0 <= i <= k <= ss.len(),
        k < ss.len() ==> ss[k].path@ == path,
        forall|j: int| i <= j < k ==> (#[trigger] ss[j]).path@ != path,
    ensures
        log::sink_place(ss, path, i) == k,
    decreases k - i,
{
    if i < k {
        assert(ss[i].path@ != path);
        law_logs_are_found(ss, path, i + 1, k);
    }
}

/// What records are sent to is found by its address, the first of it.
pub proof fn law_receivers_are_found(us: Seq<Datagrams>, addr: Seq<u8>, i: int, k: int)
    requires
        0 <= i <= k <= us.len(),
        k < us.len() ==> us[k].addr@ == addr,
        forall|j: int| i <= j < k ==> (#[trigger] us[j]).addr@ != addr,
    ensures
        log::udp_place(us, addr, i) == k,
    decreases k - i,
{
    if i < k {
        assert(us[i].addr@ != addr);
        law_receivers_are_found(us, addr, i + 1, k);
    }
}

/// Characters are counted, not bytes: the bytes that continue one do not count.
pub proof fn law_characters_are_counted(s: Seq<u8>, b: u8)
    ensures
        autoindex::char_count(s.push(b)) == autoindex::char_count(s) + if 0x80 <= b < 0xc0 {
            0int
        } else {
            1int
        },
        autoindex::char_count(Seq::empty()) == 0,
{
    assert(s.push(b).drop_last() =~= s);
}

/// A name too long for its column is cut behind its first characters, and marked.
pub proof fn law_long_names_are_cut(display: Seq<u8>)
    ensures
        autoindex::char_count(display) <= 50 ==> autoindex::shown_name(display) == display,
        autoindex::char_count(display) > 50 ==> autoindex::shown_name(display)
            == display.subrange(0, autoindex::chars_end(display, 47, 0)) + bytes::utf8("..&gt;"@),
{
}

/// The first characters of a text end where the next one begins.
pub proof fn law_first_characters_end_where_the_next_begins(s: Seq<u8>, n: int, i: int)
    requires
        0 <= i <= s.len(),
        n >= 0,
    ensures
        ({
            let e = autoindex::chars_end(s, n, i);
            &&& i <= e <= s.len()
            &&& e < s.len() ==> autoindex::begins_char(s[e]) && autoindex::char_count(
                s.subrange(i, e),
            ) == n
            &&& e == s.len() ==> autoindex::char_count(s.subrange(i, e)) <= n
        }),
    decreases s.len() - i,
{
    if i < s.len() {
        let begins = autoindex::begins_char(s[i]);
        if begins && n <= 0 {
            assert(s.subrange(i, i).len() == 0);
        } else {
            let m = if begins {
                n - 1
            } else {
                n
            };
            law_first_characters_end_where_the_next_begins(s, m, i + 1);
            let e = autoindex::chars_end(s, n, i);
            lemma_count_front(s.subrange(i, e));
            assert(s.subrange(i, e).subrange(1, e - i) =~= s.subrange(i + 1, e));
        }
    } else {
        assert(s.subrange(i, i).len() == 0);
    }
}

proof fn lemma_count_front(s: Seq<u8>)
    requires
        s.len() > 0,
    ensures
        autoindex::char_count(s) == autoindex::char_count(s.subrange(1, s.len() as int)) + if autoindex::begins_char(
            s[0],
        ) {
            1int
        } else {
            0int
        },
    decreases s.len(),
{
    let t = s.subrange(1, s.len() as int);
    if s.len() > 1 {
        lemma_count_front(s.drop_last());
        assert(s.drop_last().subrange(1, s.len() - 1) =~= t.drop_last());
        assert(t.last() == s.last());
    } else {
        assert(autoindex::char_count(s.drop_last()) == 0 && autoindex::char_count(t) == 0);
    }
}

/// A listing names the directory, in its title and its heading, and ends as it began.
pub proof fn law_listings_name_their_directory(u: Seq<u8>, es: Seq<DirEntryView>, order: Seq<int>)
    ensures
        autoindex::listing(u, es, order) == bytes::utf8("<html>\r\n<head><title>Index of "@)
            + uri::escaped(u) + bytes::utf8("</title></head>\r\n<body>\r\n<h1>Index of "@)
            + uri::escaped(u) + bytes::utf8("</h1><hr><pre><a href=\"../\">../</a>\r\n"@)
            + autoindex::rows(es, order, order.len() as int) + bytes::utf8(
            "</pre><hr></body>\r\n</html>\r\n"@,
        ),
{
}

} // verus!
