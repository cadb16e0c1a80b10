//! Keeping a cache directory within its limits.
//!
//! A pass is driven by what is on disk, not by the index: the index does not
//! know what other workers wrote and is empty after a restart.

use vstd::prelude::*;

use crate::bytes;
use crate::cache_index::Zone;

verus! {

/// What one maintenance pass did.
#[derive(Debug, Default, Clone, Copy, PartialEq, Eq, Structural)]
pub struct ManagerStats {
    pub entries: usize,
    pub bytes: u64,
    /// Removed for exceeding `inactive=`.
    pub removed_inactive: usize,
    /// Removed to get back under `max_size=`.
    pub removed_oversize: usize,
    /// Leftover temporary files from an interrupted write.
    pub removed_temp: usize,
}

/// One entry seen on disk.
#[derive(Debug, Clone, Copy)]
pub struct OnDisk {
    pub size: u64,
    /// Seconds since the epoch of the last write or touch.
    pub mtime: u64,
}

/// How stale an entry's timestamp may get before a hit refreshes it, in
/// seconds.
///
/// `inactive` is measured from the last use, so a hit has to move the
/// timestamp, but doing that on every hit would add a syscall to the hot path.
pub const TOUCH_INTERVAL: u64 = 60;

/// Tells whether a hit should refresh the entry's timestamp.
pub fn needs_touch(now: u64, mtime: u64) -> (r: bool)
    ensures
        r == (now - mtime >= TOUCH_INTERVAL),
{
    now >= mtime && now - mtime >= TOUCH_INTERVAL
}

/// Tells a temporary file by its extension. A temporary file means a write died
/// mid-flight; nothing else will ever clean it up.
pub fn is_temporary(extension: &[u8]) -> (r: bool)
    ensures
        r == bytes::starts(extension@, bytes::utf8("tmp"@)),
{
    bytes::starts_with(extension, "tmp".as_bytes())
}

// ---------------------------------------------------------------- the model

/// All the bytes on disk.
pub open spec fn total(found: Seq<OnDisk>) -> int
    decreases found.len(),
{
    if found.len() == 0 {
        0
    } else {
        total(found.drop_last()) + found.last().size
    }
}

/// Untouched for longer than `inactive` seconds, if that is a limit at all.
pub open spec fn is_idle(e: OnDisk, now: u64, inactive: u64) -> bool {
    inactive > 0 && now - e.mtime > inactive
}

/// The numbers of the first `n` entries that stay: those in use, and those
/// whose file could not be removed.
pub open spec fn stay(found: Seq<OnDisk>, now: u64, inactive: u64, ok: Seq<bool>, n: int) -> Seq<int>
    decreases n,
{
    if n <= 0 {
        Seq::empty()
    } else {
        let init = stay(found, now, inactive, ok, n - 1);
        if is_idle(found[n - 1], now, inactive) && ok[n - 1] {
            init
        } else {
            init.push(n - 1)
        }
    }
}

/// What a removal leaves of a number of bytes.
pub open spec fn less(bytes: int, size: int) -> int {
    if bytes < size {
        0
    } else {
        bytes - size
    }
}

/// The bytes left once the idle ones of the first `n` entries are gone.
pub open spec fn bytes_left(
    found: Seq<OnDisk>,
    now: u64,
    inactive: u64,
    ok: Seq<bool>,
    n: int,
) -> int
    decreases n,
{
    if n <= 0 {
        total(found)
    } else {
        let b = bytes_left(found, now, inactive, ok, n - 1);
        if is_idle(found[n - 1], now, inactive) && ok[n - 1] {
            less(b, found[n - 1].size as int)
        } else {
            b
        }
    }
}

/// The place of the oldest entry among the first `n` of a list; of equally old
/// ones the first.
pub open spec fn oldest(found: Seq<OnDisk>, left: Seq<int>, n: int) -> int
    decreases n,
{
    if n <= 1 {
        0
    } else {
        let p = oldest(found, left, n - 1);
        if found[left[n - 1]].mtime < found[left[p]].mtime {
            n - 1
        } else {
            p
        }
    }
}

proof fn lemma_oldest(found: Seq<OnDisk>, left: Seq<int>, n: int)
    requires
        1 <= n <= left.len(),
    ensures
        0 <= oldest(found, left, n) < n,
        forall|q: int|
            0 <= q < n ==> found[left[oldest(found, left, n)]].mtime <= (#[trigger] found[left[q]]).mtime,
    decreases n,
{
    if n > 1 {
        lemma_oldest(found, left, n - 1);
    }
}

/// The entries a trim tries to remove, oldest first, until `target` is reached.
pub open spec fn victims(
    found: Seq<OnDisk>,
    left: Seq<int>,
    bytes: int,
    target: int,
    ok: Seq<bool>,
) -> Seq<int>
    decreases left.len(),
{
    if left.len() == 0 || bytes <= target {
        Seq::empty()
    } else {
        let p = oldest(found, left, left.len() as int);
        let i = left[p];
        let rest = if 0 <= p < left.len() {
            left.remove(p)
        } else {
            Seq::empty()
        };
        seq![i] + victims(
            found,
            rest,
            if ok[i] {
                less(bytes, found[i].size as int)
            } else {
                bytes
            },
            target,
            ok,
        )
    }
}

/// How many of the removals succeeded.
pub open spec fn succeeded(tried: Seq<int>, ok: Seq<bool>) -> nat
    decreases tried.len(),
{
    if tried.len() == 0 {
        0
    } else {
        succeeded(tried.drop_last(), ok) + if ok[tried.last()] {
            1nat
        } else {
            0nat
        }
    }
}

/// The bytes left after those removals.
pub open spec fn bytes_after(found: Seq<OnDisk>, tried: Seq<int>, ok: Seq<bool>, bytes: int) -> int
    decreases tried.len(),
{
    if tried.len() == 0 {
        bytes
    } else {
        let b = bytes_after(found, tried.drop_last(), ok, bytes);
        if ok[tried.last()] {
            less(b, found[tried.last()].size as int)
        } else {
            b
        }
    }
}

/// Down to nine tenths rather than exactly to the limit, so the next few stores
/// do not each trigger another pass.
pub open spec fn trim_target(max_size: int) -> int {
    max_size - max_size / 10
}

/// The entries a pass tries to remove for their size.
pub open spec fn oversize(
    zone: &Zone,
    now: u64,
    found: Seq<OnDisk>,
    idle_ok: Seq<bool>,
    trim_ok: Seq<bool>,
) -> Seq<int> {
    let n = found.len() as int;
    let b = bytes_left(found, now, zone.inactive, idle_ok, n);
    if zone.max_size > 0 && b > zone.max_size {
        victims(
            found,
            stay(found, now, zone.inactive, idle_ok, n),
            b,
            trim_target(zone.max_size as int),
            trim_ok,
        )
    } else {
        Seq::empty()
    }
}

/// The entries that trimming leaves untried.
pub open spec fn left_over(
    found: Seq<OnDisk>,
    left: Seq<int>,
    bytes: int,
    target: int,
    ok: Seq<bool>,
) -> Seq<int>
    decreases left.len(),
{
    let p = oldest(found, left, left.len() as int);
    if left.len() == 0 || bytes <= target || !(0 <= p < left.len()) {
        left
    } else {
        let i = left[p];
        left_over(
            found,
            left.remove(p),
            if ok[i] {
                less(bytes, found[i].size as int)
            } else {
                bytes
            },
            target,
            ok,
        )
    }
}

/// What a pass comes to, given which removals work: `idle_ok` for the idle
/// entries, `trim_ok` for those tried when trimming.
pub open spec fn is_ended(
    v: PassView,
    zone: &Zone,
    now: u64,
    found: Seq<OnDisk>,
    removed_temp: usize,
    idle_ok: Seq<bool>,
    trim_ok: Seq<bool>,
) -> bool {
    let n = found.len() as int;
    let kept = stay(found, now, zone.inactive, idle_ok, n);
    let bytes = bytes_left(found, now, zone.inactive, idle_ok, n);
    let tried = oversize(zone, now, found, idle_ok, trim_ok);
    &&& v.asked is None
    &&& v.removed_temp == removed_temp
    &&& v.removed_inactive == n - kept.len()
    &&& v.removed_oversize == succeeded(tried, trim_ok)
    &&& v.entries == kept.len() - succeeded(tried, trim_ok)
    &&& v.bytes == bytes_after(found, tried, trim_ok, bytes)
    &&& v.left == if zone.max_size > 0 && bytes > zone.max_size {
        left_over(found, kept, bytes, trim_target(zone.max_size as int), trim_ok)
    } else {
        kept
    }
}

// ---------------------------------------------------------------- the pass

/// One maintenance pass over the entries found in a zone's directory.
///
/// It asks for one removal after the other, and is told whether each worked. First
/// anything untouched for longer than `inactive` goes, regardless of how much room is
/// left. Then the rest is trimmed to `max_size`, oldest first.
#[derive(Debug)]
pub struct Pass {
    found: Vec<OnDisk>,
    now: u64,
    inactive: u64,
    max_size: u64,
    at: usize,
    left: Vec<usize>,
    trimming: bool,
    stats: ManagerStats,
    asked: Option<usize>,
}

/// A pass as plain values.
#[verifier::ext_equal]
pub ghost struct PassView {
    pub found: Seq<OnDisk>,
    pub now: u64,
    pub inactive: u64,
    pub max_size: u64,
    /// How many entries were looked at for being idle.
    pub at: int,
    /// The entries that stay so far; while trimming, those that were not tried yet.
    pub left: Seq<int>,
    pub trimming: bool,
    pub entries: int,
    pub bytes: int,
    pub removed_inactive: int,
    pub removed_oversize: int,
    pub removed_temp: int,
    /// The entry whose removal is asked for.
    pub asked: Option<int>,
}

impl View for Pass {
    type V = PassView;

    closed spec fn view(&self) -> PassView {
        PassView {
            found: self.found@,
            now: self.now,
            inactive: self.inactive,
            max_size: self.max_size,
            at: self.at as int,
            left: numbers(self.left@),
            trimming: self.trimming,
            entries: self.stats.entries as int,
            bytes: self.stats.bytes as int,
            removed_inactive: self.stats.removed_inactive as int,
            removed_oversize: self.stats.removed_oversize as int,
            removed_temp: self.stats.removed_temp as int,
            asked: match self.asked {
                Some(i) => Some(i as int),
                None => None,
            },
        }
    }
}

/// The next removal of trimming: the oldest entry that was not tried, while the rest is
/// too large.
pub open spec fn trim_asked(v: PassView) -> PassView {
    PassView {
        asked: if v.left.len() == 0 || v.bytes <= trim_target(v.max_size as int) {
            None
        } else {
            Some(v.left[oldest(v.found, v.left, v.left.len() as int)])
        },
        ..v
    }
}

/// The next removal from the `at`th entry on: the next that is idle, and behind the last
/// of them what trimming asks for.
pub open spec fn idle_asked(v: PassView) -> PassView
    decreases v.found.len() - v.at,
{
    if v.at < 0 || v.at >= v.found.len() {
        if v.max_size > 0 && v.bytes > v.max_size {
            trim_asked(PassView { trimming: true, ..v })
        } else {
            PassView { asked: None, ..v }
        }
    } else if is_idle(v.found[v.at], v.now, v.inactive) {
        PassView { asked: Some(v.at), ..v }
    } else {
        idle_asked(PassView { at: v.at + 1, left: v.left.push(v.at), entries: v.entries + 1, ..v })
    }
}

/// A pass at its start.
pub open spec fn pass_started(zone: &Zone, now: u64, found: Seq<OnDisk>, removed_temp: usize) -> PassView {
    idle_asked(
        PassView {
            found,
            now,
            inactive: zone.inactive,
            max_size: zone.max_size,
            at: 0,
            left: Seq::empty(),
            trimming: false,
            entries: 0,
            bytes: total(found),
            removed_inactive: 0,
            removed_oversize: 0,
            removed_temp: removed_temp as int,
            asked: None,
        },
    )
}

/// A pass once it was told whether a removal worked.
pub open spec fn passed(v: PassView, removed: bool) -> PassView {
    match v.asked {
        None => v,
        Some(i) => {
            let bytes = if removed {
                less(v.bytes, v.found[i].size as int)
            } else {
                v.bytes
            };
            if v.trimming {
                let p = oldest(v.found, v.left, v.left.len() as int);
                trim_asked(
                    PassView {
                        left: v.left.remove(p),
                        bytes,
                        entries: if removed {
                            v.entries - 1
                        } else {
                            v.entries
                        },
                        removed_oversize: if removed {
                            v.removed_oversize + 1
                        } else {
                            v.removed_oversize
                        },
                        asked: None,
                        ..v
                    },
                )
            } else {
                idle_asked(
                    PassView {
                        at: v.at + 1,
                        left: if removed {
                            v.left
                        } else {
                            v.left.push(i)
                        },
                        bytes,
                        entries: if removed {
                            v.entries
                        } else {
                            v.entries + 1
                        },
                        removed_inactive: if removed {
                            v.removed_inactive + 1
                        } else {
                            v.removed_inactive
                        },
                        asked: None,
                        ..v
                    },
                )
            }
        },
    }
}

impl Pass {
    /// What the counters and lists of a pass keep to.
    pub closed spec fn wf(&self) -> bool {
        let v = self@;
        &&& v.at <= v.found.len() <= usize::MAX
        &&& forall|k: int| 0 <= k < self.left@.len() ==> (#[trigger] self.left@[k]) < self.found@.len()
        &&& v.removed_inactive <= v.at
        &&& v.left.len() <= v.entries
        &&& v.entries + v.removed_oversize <= v.at
        &&& match self.asked {
            Some(i) => i < self.found@.len() && if self.trimming {
                self.left@.len() > 0 && i == v.left[oldest(v.found, v.left, v.left.len() as int)]
            } else {
                i == self.at
            },
            None => true,
        }
    }

    /// Starts a pass, and says which entry to remove first. Nothing is asked for once the
    /// pass is over.
    pub fn start(zone: &Zone, now: u64, found: Vec<OnDisk>, removed_temp: usize) -> (r: (
        Pass,
        Option<usize>,
    ))
        requires
            total(found@) <= u64::MAX,
        ensures
            r.0.wf(),
            r.0@ == pass_started(zone, now, found@, removed_temp),
            match r.1 {
                Some(i) => r.0@.asked == Some(i as int) && i < found@.len(),
                None => r.0@.asked is None,
            },
    {
        let mut bytes: u64 = 0;
        for i in 0..found.len()
            invariant
                total(found@) <= u64::MAX,
                bytes == total(found@.subrange(0, i as int)),
        {
            proof {
                assert(found@.subrange(0, i + 1).drop_last() =~= found@.subrange(0, i as int));
                lemma_total_grows(found@, i + 1);
            }
            bytes = bytes + found[i].size;
        }
        assert(found@.subrange(0, found@.len() as int) =~= found@);
        let mut pass = Pass {
            found,
            now,
            inactive: zone.inactive,
            max_size: zone.max_size,
            at: 0,
            left: Vec::new(),
            trimming: false,
            stats: ManagerStats {
                entries: 0,
                bytes,
                removed_inactive: 0,
                removed_oversize: 0,
                removed_temp,
            },
            asked: None,
        };
        assert(numbers(pass.left@) =~= Seq::empty());
        pass.ask_idle();
        let first: Option<usize> = pass.asked;
        (pass, first)
    }

    fn ask_idle(&mut self)
        requires
            old(self).wf(),
            old(self)@.asked is None,
            !old(self)@.trimming,
        ensures
            final(self).wf(),
            final(self)@ == idle_asked(old(self)@),
            final(self)@.found == old(self)@.found,
    {
        while self.at < self.found.len()
            invariant
                self.wf(),
                self@.asked is None,
                !self@.trimming,
                idle_asked(self@) == idle_asked(old(self)@),
                self@.found == old(self)@.found,
            decreases self.found@.len() - self.at,
        {
            let e: OnDisk = self.found[self.at];
            if self.inactive > 0 && self.now >= e.mtime && self.now - e.mtime > self.inactive {
                self.asked = Some(self.at);
                return;
            }
            let ghost before = self@;
            let i: usize = self.at;
            self.left.push(i);
            assert(numbers(self.left@) =~= before.left.push(i as int));
            self.stats.entries = self.stats.entries + 1;
            self.at = i + 1;
            assert(self@ =~= PassView {
                at: before.at + 1,
                left: before.left.push(before.at),
                entries: before.entries + 1,
                ..before
            });
        }
        if self.max_size > 0 && self.stats.bytes > self.max_size {
            let ghost before = self@;
            self.trimming = true;
            assert(self@ =~= PassView { trimming: true, ..before });
            self.ask_trim();
        }
    }

    fn ask_trim(&mut self)
        requires
            old(self).wf(),
            old(self)@.asked is None,
            old(self)@.trimming,
        ensures
            final(self).wf(),
            final(self)@ == trim_asked(old(self)@),
            final(self)@.found == old(self)@.found,
    {
        let target: u64 = self.max_size - self.max_size / 10;
        if self.left.len() == 0 || self.stats.bytes <= target {
            return;
        }
        let p: usize = self.oldest_left();
        self.asked = Some(self.left[p]);
    }

    fn oldest_left(&self) -> (r: usize)
        requires
            self.wf(),
            self.left@.len() > 0,
        ensures
            r < self.left@.len(),
            r == oldest(self@.found, self@.left, self@.left.len() as int),
    {
        let mut p: usize = 0;
        for q in 1..self.left.len()
            invariant
                self.wf(),
                self.left@.len() > 0,
                p < q,
                q <= self.left@.len(),
                p == oldest(self@.found, self@.left, q as int),
        {
            if self.found[self.left[q]].mtime < self.found[self.left[p]].mtime {
                p = q;
            }
        }
        p
    }

    /// Takes note of whether the removal that was asked for worked, and says which entry
    /// to remove next.
    pub fn next(&mut self, removed: bool) -> (r: Option<usize>)
        requires
            old(self).wf(),
        ensures
            final(self).wf(),
            final(self)@ == passed(old(self)@, removed),
            final(self)@.found == old(self)@.found,
            match r {
                Some(i) => final(self)@.asked == Some(i as int) && i < final(self)@.found.len(),
                None => final(self)@.asked is None,
            },
    {
        let i: usize = match self.asked {
            Some(i) => i,
            None => {
                return None;
            },
        };
        let ghost before = self@;
        self.asked = None;
        if removed {
            let size: u64 = self.found[i].size;
            self.stats.bytes = if self.stats.bytes < size {
                0
            } else {
                self.stats.bytes - size
            };
        }
        if self.trimming {
            let p: usize = self.oldest_left();
            self.left.remove(p);
            assert(numbers(self.left@) =~= before.left.remove(p as int));
            if removed {
                self.stats.entries = self.stats.entries - 1;
                self.stats.removed_oversize = self.stats.removed_oversize + 1;
            }
            self.ask_trim();
        } else {
            if removed {
                self.stats.removed_inactive = self.stats.removed_inactive + 1;
            } else {
                self.left.push(i);
                assert(numbers(self.left@) =~= before.left.push(i as int));
                self.stats.entries = self.stats.entries + 1;
            }
            self.at = i + 1;
            self.ask_idle();
        }
        self.asked
    }

    /// What the pass did, once it is over.
    pub fn stats(&self) -> (r: ManagerStats)
        ensures
            is_report(r, self@),
    {
        self.stats
    }
}

/// A report of what a pass did so far.
pub open spec fn is_report(stats: ManagerStats, v: PassView) -> bool {
    &&& stats.entries == v.entries
    &&& stats.bytes == v.bytes
    &&& stats.removed_inactive == v.removed_inactive
    &&& stats.removed_oversize == v.removed_oversize
    &&& stats.removed_temp == v.removed_temp
}

/// The entries that are idle, from the `i`th on.
pub open spec fn idle_from(found: Seq<OnDisk>, now: u64, inactive: u64, i: int) -> Seq<int>
    decreases found.len() - i,
{
    if i < 0 || i >= found.len() {
        Seq::empty()
    } else if is_idle(found[i], now, inactive) {
        seq![i] + idle_from(found, now, inactive, i + 1)
    } else {
        idle_from(found, now, inactive, i + 1)
    }
}

/// The removals that a pass asks for in its next `n` steps, and what it comes to, when
/// each of them works as `idle_ok` and `trim_ok` tell of its entry.
pub open spec fn run(v: PassView, idle_ok: Seq<bool>, trim_ok: Seq<bool>, n: nat) -> (Seq<int>, PassView)
    decreases n,
{
    if n == 0 {
        (Seq::empty(), v)
    } else {
        match v.asked {
            None => (Seq::empty(), v),
            Some(i) => {
                let ok = if v.trimming {
                    trim_ok[i]
                } else {
                    idle_ok[i]
                };
                let (more, end) = run(passed(v, ok), idle_ok, trim_ok, (n - 1) as nat);
                (seq![i] + more, end)
            },
        }
    }
}

proof fn lemma_trim_run(v: PassView, idle_ok: Seq<bool>, trim_ok: Seq<bool>, n: nat)
    requires
        v.trimming,
        v == trim_asked(v),
        n > v.left.len(),
    ensures
        ({
            let tried = victims(
                v.found,
                v.left,
                v.bytes,
                trim_target(v.max_size as int),
                trim_ok,
            );
            let (asked, end) = run(v, idle_ok, trim_ok, n);
            let gone = succeeded(tried, trim_ok);
            &&& asked == tried
            &&& end.asked is None
            &&& end.bytes == bytes_after(v.found, tried, trim_ok, v.bytes)
            &&& end.entries == v.entries - gone
            &&& end.removed_oversize == v.removed_oversize + gone
            &&& end.removed_inactive == v.removed_inactive
            &&& end.removed_temp == v.removed_temp
            &&& end.left == left_over(v.found, v.left, v.bytes, trim_target(v.max_size as int), trim_ok)
        }),
    decreases v.left.len(),
{
    let target = trim_target(v.max_size as int);
    if v.asked is Some {
        let p = oldest(v.found, v.left, v.left.len() as int);
        lemma_oldest(v.found, v.left, v.left.len() as int);
        let i = v.left[p];
        let w = passed(v, trim_ok[i]);
        lemma_trim_run(w, idle_ok, trim_ok, (n - 1) as nat);
        let rest = victims(w.found, w.left, w.bytes, target, trim_ok);
        assert(victims(v.found, v.left, v.bytes, target, trim_ok) == seq![i] + rest);
        lemma_after_first(v.found, i, rest, trim_ok, v.bytes);
        lemma_succeeded_first(i, rest, trim_ok);
    }
}

proof fn lemma_succeeded_first(first: int, rest: Seq<int>, ok: Seq<bool>)
    ensures
        succeeded(seq![first] + rest, ok) == succeeded(rest, ok) + if ok[first] {
            1nat
        } else {
            0nat
        },
    decreases rest.len(),
{
    let all = seq![first] + rest;
    reveal_with_fuel(succeeded, 2);
    if rest.len() == 0 {
        assert(all.last() == first);
        assert(all.drop_last() =~= Seq::<int>::empty());
    } else {
        lemma_succeeded_first(first, rest.drop_last(), ok);
        assert(all.drop_last() =~= seq![first] + rest.drop_last());
        assert(all.last() == rest.last());
    }
}

proof fn lemma_idle_run(
    v: PassView,
    zone: &Zone,
    removed_temp: usize,
    idle_ok: Seq<bool>,
    trim_ok: Seq<bool>,
    n: nat,
)
    requires
        !v.trimming,
        v.asked is None,
        v.inactive == zone.inactive,
        v.max_size == zone.max_size,
        v.removed_temp == removed_temp,
        0 <= v.at <= v.found.len(),
        v.left == stay(v.found, v.now, v.inactive, idle_ok, v.at),
        v.bytes == bytes_left(v.found, v.now, v.inactive, idle_ok, v.at),
        v.entries == v.left.len(),
        v.left.len() <= v.at,
        v.removed_inactive == v.at - v.left.len(),
        v.removed_oversize == 0,
        n > 2 * v.found.len() - v.at,
    ensures
        ({
            let (asked, end) = run(idle_asked(v), idle_ok, trim_ok, n);
            &&& asked == idle_from(v.found, v.now, v.inactive, v.at) + oversize(
                zone,
                v.now,
                v.found,
                idle_ok,
                trim_ok,
            )
            &&& is_ended(end, zone, v.now, v.found, removed_temp, idle_ok, trim_ok)
        }),
    decreases v.found.len() - v.at,
{
    let none = Seq::<int>::empty();
    if v.at >= v.found.len() {
        if v.max_size > 0 && v.bytes > v.max_size {
            lemma_trim_run(idle_asked(v), idle_ok, trim_ok, n);
        }
        let tried = oversize(zone, v.now, v.found, idle_ok, trim_ok);
        assert(none + tried =~= tried);
        assert(tried == run(idle_asked(v), idle_ok, trim_ok, n).0);
    } else if is_idle(v.found[v.at], v.now, v.inactive) {
        let i = v.at;
        let w0 = PassView {
            at: i + 1,
            left: if idle_ok[i] {
                v.left
            } else {
                v.left.push(i)
            },
            bytes: if idle_ok[i] {
                less(v.bytes, v.found[i].size as int)
            } else {
                v.bytes
            },
            entries: if idle_ok[i] {
                v.entries
            } else {
                v.entries + 1
            },
            removed_inactive: if idle_ok[i] {
                v.removed_inactive + 1
            } else {
                v.removed_inactive
            },
            ..v
        };
        lemma_idle_run(w0, zone, removed_temp, idle_ok, trim_ok, (n - 1) as nat);
        assert(passed(idle_asked(v), idle_ok[i]) == idle_asked(w0));
        let more = idle_from(v.found, v.now, v.inactive, i + 1);
        let tried = oversize(zone, v.now, v.found, idle_ok, trim_ok);
        assert((seq![i] + more) + tried =~= seq![i] + (more + tried));
    } else {
        let w = PassView {
            at: v.at + 1,
            left: v.left.push(v.at),
            entries: v.entries + 1,
            ..v
        };
        lemma_idle_run(w, zone, removed_temp, idle_ok, trim_ok, n);
    }
}

/// A list of numbers.
pub open spec fn numbers(v: Seq<usize>) -> Seq<int> {
    v.map_values(|i: usize| i as int)
}

proof fn lemma_total_grows(found: Seq<OnDisk>, n: int)
    requires
        0 <= n <= found.len(),
    ensures
        0 <= total(found.subrange(0, n)) <= total(found),
    decreases found.len(),
{
    if n < found.len() {
        lemma_total_grows(found.drop_last(), n);
        assert(found.drop_last().subrange(0, n) =~= found.subrange(0, n));
    } else {
        assert(found.subrange(0, n) =~= found);
        if n > 0 {
            lemma_total_grows(found.drop_last(), n - 1);
        }
    }
}

/// Those that stay are numbered upwards.
proof fn lemma_stay(found: Seq<OnDisk>, now: u64, inactive: u64, ok: Seq<bool>, n: int)
    ensures
        forall|a: int, b: int|
            0 <= a < b < stay(found, now, inactive, ok, n).len() ==> #[trigger] stay(
                found,
                now,
                inactive,
                ok,
                n,
            )[a] < #[trigger] stay(found, now, inactive, ok, n)[b],
        forall|a: int|
            0 <= a < stay(found, now, inactive, ok, n).len() ==> 0 <= #[trigger] stay(
                found,
                now,
                inactive,
                ok,
                n,
            )[a] < n,
    decreases n,
{
    if n > 0 {
        lemma_stay(found, now, inactive, ok, n - 1);
        let t = stay(found, now, inactive, ok, n - 1);
        let s = stay(found, now, inactive, ok, n);
        assert forall|a: int| 0 <= a < t.len() implies s[a] == t[a] by {}
        assert forall|a: int, b: int| 0 <= a < b < s.len() implies #[trigger] s[a] < #[trigger] s[b] by {
            assert(s[a] == t[a]);
            if b < t.len() {
                assert(s[b] == t[b]);
            }
        }
        assert forall|a: int| 0 <= a < s.len() implies 0 <= #[trigger] s[a] < n by {
            if a < t.len() {
                assert(s[a] == t[a]);
            }
        }
    }
}

// ---------------------------------------------------------------- laws

/// The bytes of some entries.
pub open spec fn bytes_of(found: Seq<OnDisk>, some: Seq<int>) -> int
    decreases some.len(),
{
    if some.len() == 0 {
        0
    } else {
        bytes_of(found, some.drop_last()) + found[some.last()].size
    }
}

proof fn lemma_bytes_of_remove(found: Seq<OnDisk>, some: Seq<int>, p: int)
    requires
        0 <= p < some.len(),
    ensures
        bytes_of(found, some) == bytes_of(found, some.remove(p)) + found[some[p]].size,
        bytes_of(found, some) >= 0,
        bytes_of(found, some.remove(p)) >= 0,
    decreases some.len(),
{
    if p == some.len() - 1 {
        assert(some.remove(p) =~= some.drop_last());
        lemma_bytes_of_positive(found, some.drop_last());
    } else {
        lemma_bytes_of_remove(found, some.drop_last(), p);
        assert(some.remove(p).drop_last() =~= some.drop_last().remove(p));
    }
}

proof fn lemma_bytes_of_positive(found: Seq<OnDisk>, some: Seq<int>)
    ensures
        bytes_of(found, some) >= 0,
    decreases some.len(),
{
    if some.len() > 0 {
        lemma_bytes_of_positive(found, some.drop_last());
    }
}

proof fn lemma_after_first(
    found: Seq<OnDisk>,
    first: int,
    rest: Seq<int>,
    ok: Seq<bool>,
    bytes: int,
)
    ensures
        bytes_after(found, seq![first] + rest, ok, bytes) == bytes_after(
            found,
            rest,
            ok,
            if ok[first] {
                less(bytes, found[first].size as int)
            } else {
                bytes
            },
        ),
    decreases rest.len(),
{
    let all = seq![first] + rest;
    reveal_with_fuel(bytes_after, 2);
    if rest.len() == 0 {
        assert(all.last() == first);
        assert(all.drop_last() =~= Seq::<int>::empty());
    } else {
        lemma_after_first(found, first, rest.drop_last(), ok, bytes);
        assert(all.drop_last() =~= seq![first] + rest.drop_last());
        assert(all.last() == rest.last());
    }
}

proof fn lemma_trim_reaches(
    found: Seq<OnDisk>,
    left: Seq<int>,
    bytes: int,
    target: int,
    ok: Seq<bool>,
)
    requires
        bytes == bytes_of(found, left),
        target >= 0,
        forall|i: int| 0 <= i < ok.len() ==> #[trigger] ok[i],
        forall|q: int| 0 <= q < left.len() ==> 0 <= #[trigger] left[q] < ok.len(),
    ensures
        bytes_after(found, victims(found, left, bytes, target, ok), ok, bytes) <= target,
    decreases left.len(),
{
    if left.len() > 0 && bytes > target {
        let p = oldest(found, left, left.len() as int);
        lemma_oldest(found, left, left.len() as int);
        let i = left[p];
        lemma_bytes_of_remove(found, left, p);
        let b = less(bytes, found[i].size as int);
        assert(ok[i]);
        lemma_trim_reaches(found, left.remove(p), b, target, ok);
        lemma_after_first(found, i, victims(found, left.remove(p), b, target, ok), ok, bytes);
    }
}

proof fn lemma_left_is_stay(found: Seq<OnDisk>, now: u64, inactive: u64, ok: Seq<bool>, n: int)
    requires
        0 <= n <= found.len(),
    ensures
        bytes_left(found, now, inactive, ok, n) == bytes_of(
            found,
            stay(found, now, inactive, ok, n),
        ) + (total(found) - total(found.subrange(0, n))),
        bytes_left(found, now, inactive, ok, n) >= 0,
    decreases n,
{
    if n > 0 {
        lemma_left_is_stay(found, now, inactive, ok, n - 1);
        let s = stay(found, now, inactive, ok, n - 1);
        assert(found.subrange(0, n).drop_last() =~= found.subrange(0, n - 1));
        lemma_total_grows(found, n);
        lemma_bytes_of_positive(found, s);
        if !(is_idle(found[n - 1], now, inactive) && ok[n - 1]) {
            assert(s.push(n - 1).drop_last() =~= s);
        }
    } else {
        assert(found.subrange(0, 0) =~= Seq::<OnDisk>::empty());
        lemma_total_grows(found, 0);
    }
}

proof fn lemma_left_over(
    found: Seq<OnDisk>,
    left: Seq<int>,
    bytes: int,
    target: int,
    ok: Seq<bool>,
)
    requires
        bytes == bytes_of(found, left),
        forall|i: int| 0 <= i < ok.len() ==> #[trigger] ok[i],
        forall|q: int| 0 <= q < left.len() ==> 0 <= #[trigger] left[q] < ok.len(),
        forall|a: int, b: int| 0 <= a < b < left.len() ==> #[trigger] left[a] < #[trigger] left[b],
    ensures
        ({
            let tried = victims(found, left, bytes, target, ok);
            let rest = left_over(found, left, bytes, target, ok);
            &&& bytes_after(found, tried, ok, bytes) == bytes_of(found, rest)
            &&& succeeded(tried, ok) == tried.len()
            &&& tried.len() + rest.len() == left.len()
            &&& forall|j: int|
                #![trigger rest.contains(j)]
                rest.contains(j) <==> left.contains(j) && !tried.contains(j)
            &&& forall|j: int| #[trigger] tried.contains(j) ==> left.contains(j)
        }),
    decreases left.len(),
{
    let tried = victims(found, left, bytes, target, ok);
    let rest = left_over(found, left, bytes, target, ok);
    if left.len() > 0 && bytes > target {
        let p = oldest(found, left, left.len() as int);
        lemma_oldest(found, left, left.len() as int);
        let i = left[p];
        let l = left.remove(p);
        lemma_bytes_of_remove(found, left, p);
        let b = less(bytes, found[i].size as int);
        assert(ok[i]);
        lemma_left_over(found, l, b, target, ok);
        let more = victims(found, l, b, target, ok);
        assert(tried == seq![i] + more);
        assert(rest == left_over(found, l, b, target, ok));
        lemma_after_first(found, i, more, ok, bytes);
        lemma_succeeded_first(i, more, ok);
        assert forall|j: int| left.contains(j) <==> #[trigger] l.contains(j) || j == i by {
            if left.contains(j) {
                let q = choose|q: int| 0 <= q < left.len() && left[q] == j;
                if q < p {
                    assert(l[q] == j);
                } else if q > p {
                    assert(l[q - 1] == j);
                }
            }
            if l.contains(j) {
                let q = choose|q: int| 0 <= q < l.len() && l[q] == j;
                assert(left[if q < p { q } else { q + 1 }] == j);
            }
        }
        assert(!l.contains(i)) by {
            if l.contains(i) {
                let q = choose|q: int| 0 <= q < l.len() && l[q] == i;
                assert(left[if q < p { q } else { q + 1 }] == i);
            }
        }
        assert forall|j: int| #[trigger] tried.contains(j) <==> more.contains(j) || j == i by {
            assert(tried[0] == i);
            if tried.contains(j) {
                let q = choose|q: int| 0 <= q < tried.len() && tried[q] == j;
                if q > 0 {
                    assert(more[q - 1] == j);
                }
            }
            if more.contains(j) {
                let q = choose|q: int| 0 <= q < more.len() && more[q] == j;
                assert(tried[q + 1] == j);
            }
        }
        assert forall|j: int|
            #![trigger rest.contains(j)]
            rest.contains(j) <==> left.contains(j) && !tried.contains(j) by {
            assert(left.contains(j) <==> l.contains(j) || j == i);
            assert(tried.contains(j) <==> more.contains(j) || j == i);
        }
        assert forall|j: int| #[trigger] tried.contains(j) implies left.contains(j) by {
            assert(left.contains(j) <==> l.contains(j) || j == i);
        }
    }
}

/// The places that a pass asks for, in order, are those of the idle entries and then those
/// that trimming tries, and nothing else. It ends with the counts that this comes to,
/// whichever of the removals work.
pub proof fn law_a_pass_asks_for_what_it_should(
    zone: &Zone,
    now: u64,
    found: Seq<OnDisk>,
    removed_temp: usize,
    idle_ok: Seq<bool>,
    trim_ok: Seq<bool>,
    n: nat,
)
    requires
        n > 2 * found.len(),
    ensures
        ({
            let (asked, end) = run(
                pass_started(zone, now, found, removed_temp),
                idle_ok,
                trim_ok,
                n,
            );
            &&& asked == idle_from(found, now, zone.inactive, 0) + oversize(
                zone,
                now,
                found,
                idle_ok,
                trim_ok,
            )
            &&& is_ended(end, zone, now, found, removed_temp, idle_ok, trim_ok)
        }),
{
    let v = PassView {
        found,
        now,
        inactive: zone.inactive,
        max_size: zone.max_size,
        at: 0,
        left: Seq::empty(),
        trimming: false,
        entries: 0,
        bytes: total(found),
        removed_inactive: 0,
        removed_oversize: 0,
        removed_temp: removed_temp as int,
        asked: None,
    };
    lemma_idle_run(v, zone, removed_temp, idle_ok, trim_ok, n);
}

/// The places of the idle entries are exactly those at which an entry is idle.
pub proof fn law_idle_places(found: Seq<OnDisk>, now: u64, inactive: u64, i: int, k: int)
    requires
        0 <= i,
    ensures
        idle_from(found, now, inactive, i).contains(k) <==> i <= k < found.len() && is_idle(
            found[k],
            now,
            inactive,
        ),
    decreases found.len() - i,
{
    let s = idle_from(found, now, inactive, i);
    if i < found.len() {
        law_idle_places(found, now, inactive, i + 1, k);
        let t = idle_from(found, now, inactive, i + 1);
        if is_idle(found[i], now, inactive) {
            assert(s[0] == i);
            if t.contains(k) {
                let q = choose|q: int| 0 <= q < t.len() && t[q] == k;
                assert(s[q + 1] == k);
            }
            if s.contains(k) && k != i {
                let q = choose|q: int| 0 <= q < s.len() && s[q] == k;
                assert(t[q - 1] == k);
            }
        }
    }
}

/// When every removal works, what is left of a pass are the entries that are neither idle
/// nor tried by trimming, and the bytes it reports are theirs. Those trimmed and those
/// left are together as many as stayed for not being idle. A pass ends at or under
/// `max_size`, and nine tenths of it where it trimmed; without a `max_size` it trims
/// nothing.
pub proof fn law_what_a_pass_leaves(
    v: PassView,
    zone: &Zone,
    now: u64,
    found: Seq<OnDisk>,
    removed_temp: usize,
    ok: Seq<bool>,
)
    requires
        ok.len() == found.len(),
        forall|i: int| 0 <= i < ok.len() ==> #[trigger] ok[i],
        is_ended(v, zone, now, found, removed_temp, ok, ok),
    ensures
        v.bytes == bytes_of(found, v.left),
        v.entries == v.left.len(),
        v.removed_oversize + v.entries == found.len() - v.removed_inactive,
        forall|j: int|
            #![trigger v.left.contains(j)]
            v.left.contains(j) <==> 0 <= j < found.len() && !is_idle(found[j], now, zone.inactive)
                && !oversize(zone, now, found, ok, ok).contains(j),
        zone.max_size > 0 ==> v.bytes <= zone.max_size,
        v.removed_oversize > 0 ==> v.bytes <= trim_target(zone.max_size as int),
        zone.max_size == 0 ==> oversize(zone, now, found, ok, ok).len() == 0,
{
    let n = found.len() as int;
    let b = bytes_left(found, now, zone.inactive, ok, n);
    let kept = stay(found, now, zone.inactive, ok, n);
    let tried = oversize(zone, now, found, ok, ok);
    lemma_left_is_stay(found, now, zone.inactive, ok, n);
    assert(found.subrange(0, n) =~= found);
    lemma_stay(found, now, zone.inactive, ok, n);
    if zone.max_size > 0 && b > zone.max_size {
        let target = trim_target(zone.max_size as int);
        lemma_trim_reaches(found, kept, b, target, ok);
        lemma_left_over(found, kept, b, target, ok);
    }
    assert forall|j: int|
        #![trigger v.left.contains(j)]
        v.left.contains(j) <==> 0 <= j < found.len() && !is_idle(found[j], now, zone.inactive)
            && !tried.contains(j) by {
        lemma_stays(found, now, zone.inactive, ok, n, j);
    }
}

/// Trimming stops in time: before its last removal what was left was still too large.
pub proof fn law_trimming_stops_in_time(
    found: Seq<OnDisk>,
    left: Seq<int>,
    bytes: int,
    target: int,
    ok: Seq<bool>,
)
    requires
        victims(found, left, bytes, target, ok).len() > 0,
    ensures
        bytes_after(found, victims(found, left, bytes, target, ok).drop_last(), ok, bytes) > target,
    decreases left.len(),
{
    let p = oldest(found, left, left.len() as int);
    lemma_oldest(found, left, left.len() as int);
    let i = left[p];
    let l = left.remove(p);
    let b = if ok[i] {
        less(bytes, found[i].size as int)
    } else {
        bytes
    };
    let more = victims(found, l, b, target, ok);
    let tried = victims(found, left, bytes, target, ok);
    assert(tried == seq![i] + more);
    if more.len() > 0 {
        law_trimming_stops_in_time(found, l, b, target, ok);
        assert(tried.drop_last() =~= seq![i] + more.drop_last());
        lemma_after_first(found, i, more.drop_last(), ok, bytes);
    } else {
        assert(tried.drop_last() =~= Seq::<int>::empty());
    }
}

/// When every removal works, those that stay are those that are not idle.
proof fn lemma_stays(found: Seq<OnDisk>, now: u64, inactive: u64, ok: Seq<bool>, n: int, j: int)
    requires
        0 <= n <= found.len(),
        n <= ok.len(),
        forall|i: int| 0 <= i < ok.len() ==> #[trigger] ok[i],
    ensures
        stay(found, now, inactive, ok, n).contains(j) <==> 0 <= j < n && !is_idle(
            found[j],
            now,
            inactive,
        ),
    decreases n,
{
    if n > 0 {
        lemma_stays(found, now, inactive, ok, n - 1, j);
        let s = stay(found, now, inactive, ok, n);
        let t = stay(found, now, inactive, ok, n - 1);
        assert(ok[n - 1]);
        if !is_idle(found[n - 1], now, inactive) {
            assert(s == t.push(n - 1));
            assert(s[s.len() - 1] == n - 1);
            if t.contains(j) {
                let q = choose|q: int| 0 <= q < t.len() && t[q] == j;
                assert(s[q] == j);
            }
            if s.contains(j) && j != n - 1 {
                let q = choose|q: int| 0 <= q < s.len() && s[q] == j;
                assert(t[q] == j);
            }
        }
    }
}

/// Trimming takes the oldest first: whatever it tries is at most as recent as
/// whatever it leaves untried.
pub proof fn law_trimming_is_oldest_first(
    found: Seq<OnDisk>,
    left: Seq<int>,
    bytes: int,
    target: int,
    ok: Seq<bool>,
    i: int,
    j: int,
)
    requires
        victims(found, left, bytes, target, ok).contains(i),
        left.contains(j),
        !victims(found, left, bytes, target, ok).contains(j),
    ensures
        found[i].mtime <= found[j].mtime,
    decreases left.len(),
{
    let v = victims(found, left, bytes, target, ok);
    let p = oldest(found, left, left.len() as int);
    lemma_oldest(found, left, left.len() as int);
    let first = left[p];
    let b = if ok[first] {
        less(bytes, found[first].size as int)
    } else {
        bytes
    };
    let rest = victims(found, left.remove(p), b, target, ok);
    assert(v == seq![first] + rest);
    let q = choose|q: int| 0 <= q < left.len() && left[q] == j;
    assert(found[first].mtime <= found[left[q]].mtime);
    if i != first {
        let w = choose|w: int| 0 <= w < v.len() && v[w] == i;
        assert(rest[w - 1] == i);
        assert(v[0] == first);
        let r = left.remove(p);
        assert(r[if q < p { q } else { q - 1 }] == j);
        assert(!rest.contains(j)) by {
            if rest.contains(j) {
                let x = choose|x: int| 0 <= x < rest.len() && rest[x] == j;
                assert(v[x + 1] == j);
            }
        }
        law_trimming_is_oldest_first(found, r, b, target, ok, i, j);
    }
}

/// An entry that is not idle is never removed for inactivity.
pub proof fn law_entries_in_use_stay(
    found: Seq<OnDisk>,
    now: u64,
    inactive: u64,
    ok: Seq<bool>,
    n: int,
    i: int,
)
    requires
        0 <= i < n <= found.len(),
        !is_idle(found[i], now, inactive),
    ensures
        stay(found, now, inactive, ok, n).contains(i),
    decreases n,
{
    let s = stay(found, now, inactive, ok, n);
    if i == n - 1 {
        assert(s[s.len() - 1] == i);
    } else {
        law_entries_in_use_stay(found, now, inactive, ok, n - 1, i);
        let t = stay(found, now, inactive, ok, n - 1);
        let q = choose|q: int| 0 <= q < t.len() && t[q] == i;
        assert(s[q] == i);
    }
}

} // verus!
