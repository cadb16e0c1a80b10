//! Access and error logging.
//!
//! Lines are buffered per worker, so that a request that logs does not pay a system
//! call. What is to be written comes back from each call; writing it is the caller's.

use vstd::prelude::*;
use vstd::string::*;

use crate::bytes;

verus! {

/// How serious a message is.
#[derive(Debug, Clone, Copy, PartialEq, Eq, Structural)]
pub enum LogLevel {
    Debug,
    Info,
    Notice,
    Warn,
    Error,
    Crit,
    Alert,
    Emerg,
}

impl LogLevel {
    /// The rank of a level: a higher one is more serious.
    pub open spec fn rank(self) -> int {
        match self {
            LogLevel::Debug => 0,
            LogLevel::Info => 1,
            LogLevel::Notice => 2,
            LogLevel::Warn => 3,
            LogLevel::Error => 4,
            LogLevel::Crit => 5,
            LogLevel::Alert => 6,
            LogLevel::Emerg => 7,
        }
    }

    fn number(self) -> (r: u8)
        ensures
            r == self.rank(),
    {
        match self {
            LogLevel::Debug => 0,
            LogLevel::Info => 1,
            LogLevel::Notice => 2,
            LogLevel::Warn => 3,
            LogLevel::Error => 4,
            LogLevel::Crit => 5,
            LogLevel::Alert => 6,
            LogLevel::Emerg => 7,
        }
    }

    /// The name of a level.
    pub open spec fn name(self) -> Seq<char> {
        match self {
            LogLevel::Debug => "debug"@,
            LogLevel::Info => "info"@,
            LogLevel::Notice => "notice"@,
            LogLevel::Warn => "warn"@,
            LogLevel::Error => "error"@,
            LogLevel::Crit => "crit"@,
            LogLevel::Alert => "alert"@,
            LogLevel::Emerg => "emerg"@,
        }
    }

    pub fn as_str(self) -> (r: &'static str)
        ensures
            r@ == self.name(),
    {
        match self {
            LogLevel::Debug => "debug",
            LogLevel::Info => "info",
            LogLevel::Notice => "notice",
            LogLevel::Warn => "warn",
            LogLevel::Error => "error",
            LogLevel::Crit => "crit",
            LogLevel::Alert => "alert",
            LogLevel::Emerg => "emerg",
        }
    }
}

// ---------------------------------------------------------------- one log

/// The buffer of one log. Times are in milliseconds.
#[derive(Debug)]
pub struct Sink {
    pub path: Vec<u8>,
    pub buf: Vec<u8>,
    /// Flush once the buffer reaches this size. Zero means unbuffered.
    pub cap: usize,
    pub flush_every: Option<u64>,
    pub last_flush: u64,
}

/// A buffer as plain values.
#[verifier::ext_equal]
pub ghost struct SinkView {
    pub path: Seq<u8>,
    pub buf: Seq<u8>,
    pub cap: usize,
    pub flush_every: Option<u64>,
    pub last_flush: u64,
}

impl View for Sink {
    type V = SinkView;

    open spec fn view(&self) -> SinkView {
        SinkView {
            path: self.path@,
            buf: self.buf@,
            cap: self.cap,
            flush_every: self.flush_every,
            last_flush: self.last_flush,
        }
    }
}

/// A line with its end.
pub open spec fn ended(line: Seq<u8>) -> Seq<u8> {
    line.push(10)
}

/// A buffer after a line, and what is written now: a line that is not buffered goes
/// out whole, in one write.
pub open spec fn lined(s: SinkView, line: Seq<u8>, now: u64) -> (SinkView, Seq<u8>) {
    let all = s.buf + ended(line);
    if s.cap == 0 {
        (SinkView { buf: Seq::empty(), ..s }, ended(line))
    } else if all.len() >= s.cap {
        (SinkView { buf: Seq::empty(), last_flush: now, ..s }, all)
    } else {
        (SinkView { buf: all, ..s }, Seq::empty())
    }
}

/// A buffer after it was flushed, and what is written.
pub open spec fn flushed(s: SinkView, now: u64) -> (SinkView, Seq<u8>) {
    (SinkView { buf: Seq::empty(), last_flush: now, ..s }, s.buf)
}

/// Whether a buffer holds lines that have waited long enough.
pub open spec fn is_due(s: SinkView, now: u64) -> bool {
    match s.flush_every {
        Some(every) => s.buf.len() > 0 && now >= s.last_flush && now - s.last_flush >= every,
        None => false,
    }
}

impl Sink {
    /// A buffer for a log.
    pub fn new(path: &[u8], cap: usize, flush_every: Option<u64>, now: u64) -> (r: Sink)
        ensures
            r@ == (SinkView {
                path: path@,
                buf: Seq::empty(),
                cap,
                flush_every,
                last_flush: now,
            }),
    {
        Sink { path: bytes::copy(path), buf: Vec::new(), cap, flush_every, last_flush: now }
    }

    /// Logs a line, and returns what is to be written now.
    pub fn write_line(&mut self, line: &[u8], now: u64) -> (r: Vec<u8>)
        ensures
            (final(self)@, r@) == lined(old(self)@, line@, now),
    {
        if self.cap == 0 {
            let mut out: Vec<u8> = bytes::copy(line);
            out.push(10);
            self.buf = Vec::new();
            return out;
        }
        let ghost before = self.buf@;
        self.buf.extend_from_slice(line);
        self.buf.push(10);
        assert(self.buf@ =~= before + ended(line@));
        if self.buf.len() >= self.cap {
            return self.flush(now);
        }
        Vec::new()
    }

    /// Empties the buffer, and returns what is to be written.
    pub fn flush(&mut self, now: u64) -> (r: Vec<u8>)
        ensures
            (final(self)@, r@) == flushed(old(self)@, now),
    {
        let out: Vec<u8> = bytes::copy(self.buf.as_slice());
        self.buf = Vec::new();
        self.last_flush = now;
        out
    }

    /// Empties a buffer whose lines have waited long enough.
    pub fn flush_if_due(&mut self, now: u64) -> (r: Vec<u8>)
        ensures
            if is_due(old(self)@, now) {
                (final(self)@, r@) == flushed(old(self)@, now)
            } else {
                *final(self) == *old(self) && r@ == Seq::<u8>::empty()
            },
    {
        if let Some(every) = self.flush_every {
            if self.buf.len() > 0 && now >= self.last_flush && now - self.last_flush >= every {
                return self.flush(now);
            }
        }
        Vec::new()
    }
}

/// Whether bytes are whole lines.
pub open spec fn are_lines(s: Seq<u8>) -> bool {
    s.len() == 0 || s.last() == 10
}

/// No line is lost or moved: what was written and what is still held is what was held
/// before, and the line.
pub proof fn law_lines_keep_their_order(s: SinkView, line: Seq<u8>, now: u64)
    requires
        s.cap == 0 ==> s.buf.len() == 0,
    ensures
        ({
            let (next, out) = lined(s, line, now);
            out + next.buf == s.buf + ended(line)
        }),
{
    let (next, out) = lined(s, line, now);
    assert(out + next.buf =~= s.buf + ended(line));
}

/// Every write is of whole lines, so lines of several writers never run together.
pub proof fn law_writes_are_whole_lines(s: SinkView, line: Seq<u8>, now: u64)
    requires
        are_lines(s.buf),
    ensures
        are_lines(lined(s, line, now).1),
        are_lines(lined(s, line, now).0.buf),
        are_lines(flushed(s, now).1),
{
    assert((s.buf + ended(line)).last() == 10);
}

// ---------------------------------------------------------------- all logs

/// A log that records are sent to as datagrams, and how many of them were refused.
#[derive(Debug)]
pub struct Datagrams {
    pub addr: Vec<u8>,
    pub dropped: u64,
}

/// Where errors go.
#[derive(Debug)]
pub enum ErrorLog {
    File(Sink),
    Stderr,
    Off,
}

/// What logging an error leads to.
#[derive(Debug)]
pub enum ErrorOut {
    Nothing,
    /// Append this to the file.
    File(Vec<u8>),
    /// Print this line.
    Stderr(Vec<u8>),
}

/// The logs of one worker.
#[derive(Debug)]
pub struct Logs {
    pub access: Vec<Sink>,
    pub udp: Vec<Datagrams>,
    pub error: ErrorLog,
    pub error_level: LogLevel,
}

/// The place of the log of a path, from the `i`th on, or the length.
pub open spec fn sink_place(ss: Seq<Sink>, path: Seq<u8>, i: int) -> int
    decreases ss.len() - i,
{
    if i < 0 || i >= ss.len() {
        ss.len() as int
    } else if ss[i].path@ == path {
        i
    } else {
        sink_place(ss, path, i + 1)
    }
}

/// The place of the log of an address, from the `i`th on, or the length.
pub open spec fn udp_place(us: Seq<Datagrams>, addr: Seq<u8>, i: int) -> int
    decreases us.len() - i,
{
    if i < 0 || i >= us.len() {
        us.len() as int
    } else if us[i].addr@ == addr {
        i
    } else {
        udp_place(us, addr, i + 1)
    }
}

/// The line of an error.
pub open spec fn error_line(time: Seq<u8>, level: LogLevel, pid: u64, msg: Seq<u8>) -> Seq<u8> {
    time + bytes::utf8(" ["@) + bytes::utf8(level.name()) + bytes::utf8("] "@) + bytes::decimal(
        pid as nat,
    ) + bytes::utf8(": "@) + msg
}

/// Whether errors go to a file of this path, which has to be opened for them. Two paths
/// stand for the standard error stream.
pub fn opens_error_log(disabled: bool, path: &[u8]) -> (r: bool)
    ensures
        r == (!disabled && path@ != bytes::utf8("stderr"@) && path@ != bytes::utf8(
            "/dev/stderr"@,
        )),
{
    !disabled && !bytes::is_text(path, "stderr") && !bytes::is_text(path, "/dev/stderr")
}

/// The local address that a log is sent from: one of the family of where it goes.
pub fn sends_from(addr: &[u8]) -> (r: &'static str)
    ensures
        r@ == if addr@.len() > 0 && addr@[0] == 91 {
            "[::]:0"@
        } else {
            "0.0.0.0:0"@
        },
{
    if addr.len() > 0 && addr[0] == 91 {
        "[::]:0"
    } else {
        "0.0.0.0:0"
    }
}

impl Logs {
    /// The logs of a worker. Errors go to the file if it could be opened, and else to
    /// the standard error stream, unless they are switched off.
    /// The file is not buffered.
    pub fn new(disabled: bool, file: Option<&[u8]>, level: LogLevel, now: u64) -> (r: Logs)
        ensures
            r.access@.len() == 0,
            r.udp@.len() == 0,
            r.error_level == level,
            if disabled {
                r.error is Off
            } else {
                match file {
                    Some(path) => r.error matches ErrorLog::File(s) && s@ == (SinkView {
                        path: path@,
                        buf: Seq::empty(),
                        cap: 0,
                        flush_every: None,
                        last_flush: now,
                    }),
                    None => r.error is Stderr,
                }
            },
    {
        let error = if disabled {
            ErrorLog::Off
        } else {
            match file {
                Some(path) => ErrorLog::File(Sink::new(path, 0, None, now)),
                None => ErrorLog::Stderr,
            }
        };
        Logs { access: Vec::new(), udp: Vec::new(), error, error_level: level }
    }

    /// Finds the log of a path.
    pub fn find(&self, path: &[u8]) -> (r: Option<usize>)
        ensures
            match r {
                Some(i) => i < self.access@.len() && sink_place(self.access@, path@, 0) == i,
                None => sink_place(self.access@, path@, 0) == self.access@.len(),
            },
    {
        for i in 0..self.access.len()
            invariant
                sink_place(self.access@, path@, 0) == sink_place(self.access@, path@, i as int),
        {
            if bytes::same(self.access[i].path.as_slice(), path) {
                return Some(i);
            }
        }
        None
    }

    /// Adds a log that was opened, unless there is one of that path already.
    pub fn open_access(&mut self, sink: Sink)
        ensures
            final(self).udp == old(self).udp,
            final(self).error == old(self).error,
            final(self).error_level == old(self).error_level,
            final(self).access@ == if sink_place(old(self).access@, sink.path@, 0)
                < old(self).access@.len() {
                old(self).access@
            } else {
                old(self).access@.push(sink)
            },
    {
        if self.find(sink.path.as_slice()).is_none() {
            self.access.push(sink);
        }
    }

    /// Logs a line to the log of a path, and returns what is to be written now. A path
    /// without a log takes nothing.
    pub fn access(&mut self, path: &[u8], line: &[u8], now: u64) -> (r: Vec<u8>)
        ensures
            final(self).udp == old(self).udp,
            final(self).error == old(self).error,
            final(self).error_level == old(self).error_level,
            final(self).access@.len() == old(self).access@.len(),
            ({
                let i = sink_place(old(self).access@, path@, 0);
                if 0 <= i < old(self).access@.len() {
                    &&& (final(self).access@[i]@, r@) == lined(
                        old(self).access@[i]@,
                        line@,
                        now,
                    )
                    &&& forall|k: int|
                        0 <= k < old(self).access@.len() && k != i ==> final(self).access@[k]
                            == old(self).access@[k]
                } else {
                    r@ == Seq::<u8>::empty() && final(self).access@ == old(self).access@
                }
            }),
    {
        match self.find(path) {
            Some(i) => self.access[i].write_line(line, now),
            None => Vec::new(),
        }
    }

    fn find_udp(&self, addr: &[u8]) -> (r: Option<usize>)
        ensures
            match r {
                Some(i) => i < self.udp@.len() && udp_place(self.udp@, addr@, 0) == i,
                None => udp_place(self.udp@, addr@, 0) == self.udp@.len(),
            },
    {
        for i in 0..self.udp.len()
            invariant
                udp_place(self.udp@, addr@, 0) == udp_place(self.udp@, addr@, i as int),
        {
            if bytes::same(self.udp[i].addr.as_slice(), addr) {
                return Some(i);
            }
        }
        None
    }

    /// Takes note of a datagram that was sent to an address, or refused: a loss is
    /// counted rather than silent.
    pub fn access_oxidb(&mut self, addr: &[u8], sent: bool)
        ensures
            final(self).access == old(self).access,
            final(self).error == old(self).error,
            final(self).error_level == old(self).error_level,
            final(self).udp@.len() == old(self).udp@.len(),
            ({
                let i = udp_place(old(self).udp@, addr@, 0);
                forall|k: int|
                    0 <= k < old(self).udp@.len() ==> (#[trigger] final(self).udp@[k]).addr
                        == old(self).udp@[k].addr && final(self).udp@[k].dropped == if k == i
                        && !sent && old(self).udp@[k].dropped < u64::MAX {
                        (old(self).udp@[k].dropped + 1) as u64
                    } else {
                        old(self).udp@[k].dropped
                    }
            }),
    {
        if !sent {
            if let Some(i) = self.find_udp(addr) {
                let n: u64 = self.udp[i].dropped;
                self.udp[i].dropped = n.saturating_add(1);
            }
        }
    }

    /// Adds a log that records are sent to, unless there is one already.
    pub fn open_oxidb(&mut self, addr: &[u8])
        ensures
            final(self).access == old(self).access,
            final(self).error == old(self).error,
            final(self).error_level == old(self).error_level,
            if udp_place(old(self).udp@, addr@, 0) < old(self).udp@.len() {
                final(self).udp@ == old(self).udp@
            } else {
                &&& final(self).udp@.len() == old(self).udp@.len() + 1
                &&& final(self).udp@.last().addr@ == addr@
                &&& final(self).udp@.last().dropped == 0
                &&& final(self).udp@.drop_last() == old(self).udp@
            },
    {
        if self.find_udp(addr).is_none() {
            let ghost before = self.udp@;
            self.udp.push(Datagrams { addr: bytes::copy(addr), dropped: 0 });
            assert(self.udp@.drop_last() =~= before);
        }
    }

    /// How many datagrams to an address were refused.
    pub fn dropped(&self, addr: &[u8]) -> (r: u64)
        ensures
            r == ({
                let i = udp_place(self.udp@, addr@, 0);
                if 0 <= i < self.udp@.len() {
                    self.udp@[i].dropped
                } else {
                    0u64
                }
            }),
    {
        match self.find_udp(addr) {
            Some(i) => self.udp[i].dropped,
            None => 0,
        }
    }

    /// Logs an error that is serious enough, and returns what is to be written.
    pub fn error(&mut self, level: LogLevel, time: &[u8], pid: u64, msg: &[u8], now: u64) -> (r:
        ErrorOut)
        ensures
            final(self).access == old(self).access,
            final(self).udp == old(self).udp,
            final(self).error_level == old(self).error_level,
            ({
                let line = error_line(time@, level, pid, msg@);
                if level.rank() < old(self).error_level.rank() {
                    r is Nothing && final(self).error == old(self).error
                } else {
                    match old(self).error {
                        ErrorLog::File(s) => (final(self).error matches ErrorLog::File(t)
                            && t@ == lined(s@, line, now).0) && (r matches ErrorOut::File(out)
                            && out@ == lined(s@, line, now).1),
                        ErrorLog::Stderr => final(self).error is Stderr && (
                        r matches ErrorOut::Stderr(out) && out@ == line),
                        ErrorLog::Off => final(self).error is Off && r is Nothing,
                    }
                }
            }),
    {
        if level.number() < self.error_level.number() {
            return ErrorOut::Nothing;
        }
        let mut line: Vec<u8> = bytes::copy(time);
        line.extend_from_slice(" [".as_bytes());
        line.extend_from_slice(level.as_str().as_bytes());
        line.extend_from_slice("] ".as_bytes());
        bytes::push_decimal(&mut line, pid);
        line.extend_from_slice(": ".as_bytes());
        line.extend_from_slice(msg);
        let mut log = ErrorLog::Off;
        std::mem::swap(&mut log, &mut self.error);
        match log {
            ErrorLog::File(s) => {
                let mut sink = s;
                let out: Vec<u8> = sink.write_line(line.as_slice(), now);
                self.error = ErrorLog::File(sink);
                ErrorOut::File(out)
            },
            ErrorLog::Stderr => {
                self.error = ErrorLog::Stderr;
                ErrorOut::Stderr(line)
            },
            ErrorLog::Off => ErrorOut::Nothing,
        }
    }

    /// Empties the buffers whose lines have waited long enough, and returns what is to be
    /// written to each log.
    pub fn flush_due(&mut self, now: u64) -> (r: Vec<Vec<u8>>)
        ensures
            final(self).udp == old(self).udp,
            final(self).error == old(self).error,
            final(self).error_level == old(self).error_level,
            final(self).access@.len() == old(self).access@.len(),
            r@.len() == old(self).access@.len(),
            forall|k: int|
                0 <= k < r@.len() ==> if is_due(old(self).access@[k]@, now) {
                    ((#[trigger] final(self).access@[k])@, r@[k]@) == flushed(
                        old(self).access@[k]@,
                        now,
                    )
                } else {
                    final(self).access@[k] == old(self).access@[k] && r@[k]@
                        == Seq::<u8>::empty()
                },
    {
        let mut out: Vec<Vec<u8>> = Vec::new();
        let n: usize = self.access.len();
        for i in 0..n
            invariant
                n == self.access@.len(),
                self.udp == old(self).udp,
                self.error == old(self).error,
                self.error_level == old(self).error_level,
                self.access@.len() == old(self).access@.len(),
                out@.len() == i,
                forall|k: int|
                    i <= k < self.access@.len() ==> self.access@[k] == old(self).access@[k],
                forall|k: int|
                    0 <= k < i ==> if is_due(old(self).access@[k]@, now) {
                        ((#[trigger] self.access@[k])@, out@[k]@) == flushed(
                            old(self).access@[k]@,
                            now,
                        )
                    } else {
                        self.access@[k] == old(self).access@[k] && out@[k]@ == Seq::<u8>::empty()
                    },
        {
            out.push(self.access[i].flush_if_due(now));
        }
        out
    }

    /// Empties all buffers, and returns what is to be written to each access log; errors
    /// are not buffered. The same is done before the files are opened anew, so that lines already formatted go
    /// to the old ones rather than being lost.
    pub fn flush_all(&mut self, now: u64) -> (r: Vec<Vec<u8>>)
        ensures
            final(self).udp == old(self).udp,
            final(self).error == old(self).error,
            final(self).error_level == old(self).error_level,
            final(self).access@.len() == old(self).access@.len(),
            r@.len() == old(self).access@.len(),
            forall|k: int|
                0 <= k < r@.len() ==> ((#[trigger] final(self).access@[k])@, r@[k]@) == flushed(
                    old(self).access@[k]@,
                    now,
                ),
    {
        let mut out: Vec<Vec<u8>> = Vec::new();
        let n: usize = self.access.len();
        for i in 0..n
            invariant
                n == self.access@.len(),
                self.udp == old(self).udp,
                self.error == old(self).error,
                self.error_level == old(self).error_level,
                self.access@.len() == old(self).access@.len(),
                out@.len() == i,
                forall|k: int|
                    i <= k < self.access@.len() ==> self.access@[k] == old(self).access@[k],
                forall|k: int|
                    0 <= k < i ==> ((#[trigger] self.access@[k])@, out@[k]@) == flushed(
                        old(self).access@[k]@,
                        now,
                    ),
        {
            out.push(self.access[i].flush(now));
        }
        out
    }
}

/// A request to open the log files anew is carried out once, before the next line.
pub fn reopen_if_asked(asked: &mut bool) -> (r: bool)
    ensures
        r == *old(asked),
        !*final(asked),
{
    let r: bool = *asked;
    *asked = false;
    r
}

} // verus!
