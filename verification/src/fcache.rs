//! The open-file cache behind `open_file_cache`.
//!
//! It keeps what a path resolved to, per worker, so that a hit serves a request
//! without touching the filesystem. Within `valid` a cached result is trusted, so
//! changes of a file are not observed until its entry is looked at anew.

use vstd::prelude::*;

use crate::bytes;

verus! {

/// The `open_file_cache` directives. Times are in milliseconds.
#[derive(Debug, Clone, Copy, PartialEq, Eq, Structural)]
pub struct OpenFileCache {
    pub enabled: bool,
    pub max: usize,
    pub inactive: u64,
    pub valid: u64,
    pub min_uses: u32,
    pub errors: bool,
}

/// What a path resolved to. `F` is the open file.
#[derive(Debug)]
pub enum Cached<F> {
    File { file: F, size: u64, mtime_secs: u64, mtime_nanos: u32 },
    Dir,
    /// The HTTP status the failure maps to.
    Error(u16),
}

#[derive(Debug)]
pub struct Entry<F> {
    pub path: Vec<u8>,
    pub val: Cached<F>,
    /// When the entry was made.
    pub checked: u64,
    pub last_used: u64,
    pub uses: u32,
}

/// An entry as plain values.
#[verifier::ext_equal]
pub ghost struct EntryView<F> {
    pub path: Seq<u8>,
    pub val: Cached<F>,
    pub checked: u64,
    pub last_used: u64,
    pub uses: u32,
}

impl<F> View for Entry<F> {
    type V = EntryView<F>;

    open spec fn view(&self) -> EntryView<F> {
        EntryView {
            path: self.path@,
            val: self.val,
            checked: self.checked,
            last_used: self.last_used,
            uses: self.uses,
        }
    }
}

/// The cache of one worker.
#[derive(Debug)]
pub struct Cache<F> {
    pub entries: Vec<Entry<F>>,
}

impl<F> View for Cache<F> {
    type V = Seq<EntryView<F>>;

    open spec fn view(&self) -> Seq<EntryView<F>> {
        self.entries@.map_values(|e: Entry<F>| e@)
    }
}

/// Whether no path has two entries.
pub open spec fn is_map<F>(es: Seq<EntryView<F>>) -> bool {
    forall|i: int, j: int|
        0 <= i < j < es.len() ==> (#[trigger] es[i]).path != (#[trigger] es[j]).path
}

/// The place of the entry of a path, from the `i`th on, or the length.
pub open spec fn place<F>(es: Seq<EntryView<F>>, path: Seq<u8>, i: int) -> int
    decreases es.len() - i,
{
    if i < 0 || i >= es.len() {
        es.len() as int
    } else if es[i].path == path {
        i
    } else {
        place(es, path, i + 1)
    }
}

proof fn lemma_place<F>(es: Seq<EntryView<F>>, path: Seq<u8>, i: int)
    requires
        0 <= i <= es.len(),
    ensures
        i <= place(es, path, i) <= es.len(),
        place(es, path, i) < es.len() ==> es[place(es, path, i)].path == path,
        forall|k: int| i <= k < place(es, path, i) ==> (#[trigger] es[k]).path != path,
    decreases es.len() - i,
{
    if i < es.len() && es[i].path != path {
        lemma_place(es, path, i + 1);
    }
}

/// How long ago a moment was; one that is still to come was just now.
pub open spec fn age(now: u64, then_ms: u64) -> int {
    if now > then_ms {
        now - then_ms
    } else {
        0
    }
}

/// Whether an entry is still trusted.
pub open spec fn is_fresh<F>(e: EntryView<F>, p: OpenFileCache, now: u64) -> bool {
    age(now, e.checked) <= p.valid && age(now, e.last_used) <= p.inactive
}

/// An entry that was used once more.
pub open spec fn used<F>(e: EntryView<F>, now: u64) -> EntryView<F> {
    EntryView {
        last_used: now,
        uses: if e.uses < u32::MAX {
            (e.uses + 1) as u32
        } else {
            u32::MAX
        },
        ..e
    }
}

/// The entries after a path was looked up.
pub open spec fn after_get<F>(
    es: Seq<EntryView<F>>,
    path: Seq<u8>,
    p: OpenFileCache,
    now: u64,
) -> Seq<EntryView<F>> {
    let i = place(es, path, 0);
    if !p.enabled || !(0 <= i < es.len()) {
        es
    } else if is_fresh(es[i], p, now) {
        es.update(i, used(es[i], now))
    } else {
        es.remove(i)
    }
}

/// Whether one entry is given up before another: those that never reached
/// `min_uses` first, then the least recently used.
pub open spec fn worse<F>(a: EntryView<F>, b: EntryView<F>, min_uses: u32) -> bool {
    if (a.uses < min_uses) != (b.uses < min_uses) {
        a.uses < min_uses
    } else {
        a.last_used < b.last_used
    }
}

/// The place of the entry to give up first among the first `n`.
pub open spec fn victim<F>(es: Seq<EntryView<F>>, min_uses: u32, n: int) -> int
    decreases n,
{
    if n <= 1 {
        0
    } else {
        let v = victim(es, min_uses, n - 1);
        if worse(es[n - 1], es[v], min_uses) {
            n - 1
        } else {
            v
        }
    }
}

proof fn lemma_victim<F>(es: Seq<EntryView<F>>, min_uses: u32, n: int)
    requires
        1 <= n <= es.len(),
    ensures
        0 <= victim(es, min_uses, n) < n,
        forall|k: int|
            0 <= k < n ==> !worse(#[trigger] es[k], es[victim(es, min_uses, n)], min_uses),
    decreases n,
{
    if n > 1 {
        lemma_victim(es, min_uses, n - 1);
    }
}

/// The entries without the `n` that are given up first.
pub open spec fn evicted<F>(es: Seq<EntryView<F>>, min_uses: u32, n: int) -> Seq<EntryView<F>>
    decreases n,
{
    if n <= 0 || es.len() == 0 {
        es
    } else {
        evicted(es.remove(victim(es, min_uses, es.len() as int)), min_uses, n - 1)
    }
}

/// How many entries a full cache gives up: a tenth of its size, and at least one.
pub open spec fn eviction_size(max: usize) -> int {
    if max < 10 {
        1
    } else {
        max as int / 10
    }
}

/// The entries after a result was offered to the cache.
pub open spec fn after_put<F>(
    es: Seq<EntryView<F>>,
    path: Seq<u8>,
    val: Cached<F>,
    p: OpenFileCache,
    now: u64,
) -> Seq<EntryView<F>> {
    if !p.enabled || (val is Error && !p.errors) {
        es
    } else {
        let room = if es.len() >= p.max {
            evicted(es, p.min_uses, eviction_size(p.max))
        } else {
            es
        };
        let i = place(room, path, 0);
        let e = EntryView { path, val, checked: now, last_used: now, uses: 1 };
        if 0 <= i < room.len() {
            room.update(i, e)
        } else {
            room.push(e)
        }
    }
}

impl<F> Cache<F> {
    /// An empty cache.
    pub fn new() -> (r: Cache<F>)
        ensures
            r@ == Seq::<EntryView<F>>::empty(),
            is_map(r@),
    {
        let r = Cache { entries: Vec::new() };
        assert(r@ =~= Seq::<EntryView<F>>::empty());
        r
    }

    pub fn len(&self) -> (r: usize)
        ensures
            r == self@.len(),
    {
        self.entries.len()
    }

    fn find(&self, path: &[u8]) -> (r: Option<usize>)
        ensures
            match r {
                Some(i) => i < self.entries@.len() && place(self@, path@, 0) == i,
                None => place(self@, path@, 0) == self@.len(),
            },
    {
        for i in 0..self.entries.len()
            invariant
                place(self@, path@, 0) == place(self@, path@, i as int),
        {
            assert(self@[i as int] == self.entries@[i as int]@);
            if bytes::same(self.entries[i].path.as_slice(), path) {
                return Some(i);
            }
        }
        None
    }

    /// Looks a path up. A hit is the place of its entry; one past its time is
    /// dropped.
    pub fn get(&mut self, path: &[u8], p: &OpenFileCache, now: u64) -> (r: Option<usize>)
        ensures
            final(self)@ == after_get(old(self)@, path@, *p, now),
            is_map(old(self)@) ==> is_map(final(self)@),
            match r {
                Some(i) => p.enabled && place(old(self)@, path@, 0) == i && i < old(self)@.len()
                    && is_fresh(old(self)@[i as int], *p, now) && i < final(self).entries@.len(),
                None => !p.enabled || place(old(self)@, path@, 0) == old(self)@.len() || !is_fresh(
                    old(self)@[place(old(self)@, path@, 0)],
                    *p,
                    now,
                ),
            },
    {
        let ghost es = self@;
        proof {
            if is_map(es) {
                lemma_get_distinct(es, path@, *p, now);
            }
        }
        if !p.enabled {
            return None;
        }
        match self.find(path) {
            None => None,
            Some(i) => {
                assert(es[i as int] == self.entries@[i as int]@);
                let checked: u64 = self.entries[i].checked;
                let last: u64 = self.entries[i].last_used;
                let idle: u64 = if now > last {
                    now - last
                } else {
                    0
                };
                let old_ms: u64 = if now > checked {
                    now - checked
                } else {
                    0
                };
                if old_ms <= p.valid && idle <= p.inactive {
                    let uses: u32 = self.entries[i].uses;
                    self.entries[i].last_used = now;
                    self.entries[i].uses = if uses < u32::MAX {
                        uses + 1
                    } else {
                        uses
                    };
                    assert(self@ =~= es.update(i as int, used(es[i as int], now)));
                    Some(i)
                } else {
                    self.entries.remove(i);
                    assert(self@ =~= es.remove(i as int));
                    None
                }
            },
        }
    }

    fn evict(&mut self, min_uses: u32, n: usize)
        ensures
            final(self)@ == evicted(old(self)@, min_uses, n as int),
    {
        let mut left: usize = n;
        while left > 0 && self.entries.len() > 0
            invariant
                evicted(old(self)@, min_uses, n as int) == evicted(self@, min_uses, left as int),
            decreases left,
        {
            let ghost es = self@;
            let mut v: usize = 0;
            for i in 1..self.entries.len()
                invariant
                    es == self@,
                    self.entries@.len() > 0,
                    v < i,
                    victim(es, min_uses, i as int) == v,
            {
                let a = &self.entries[i];
                let b = &self.entries[v];
                assert(es[i as int] == self.entries@[i as int]@);
                assert(es[v as int] == self.entries@[v as int]@);
                let a_rare: bool = a.uses < min_uses;
                let b_rare: bool = b.uses < min_uses;
                let is_worse: bool = if a_rare != b_rare {
                    a_rare
                } else {
                    a.last_used < b.last_used
                };
                if is_worse {
                    v = i;
                }
            }
            self.entries.remove(v);
            assert(self@ =~= es.remove(v as int));
            left = left - 1;
        }
    }

    /// Offers what a path resolved to. Failures are kept only where asked for, and
    /// a full cache gives up entries first.
    pub fn put(&mut self, path: &[u8], val: Cached<F>, p: &OpenFileCache, now: u64)
        ensures
            final(self)@ == after_put(old(self)@, path@, val, *p, now),
            is_map(old(self)@) ==> is_map(final(self)@),
    {
        proof {
            if is_map(self@) {
                lemma_put_distinct(self@, path@, val, *p, now);
            }
        }
        if !p.enabled {
            return;
        }
        let is_error: bool = match &val {
            Cached::Error(_) => true,
            _ => false,
        };
        if is_error && !p.errors {
            return;
        }
        if self.entries.len() >= p.max {
            let n: usize = if p.max < 10 {
                1
            } else {
                p.max / 10
            };
            self.evict(p.min_uses, n);
        }
        let ghost room = self@;
        let e = Entry { path: bytes::copy(path), val, checked: now, last_used: now, uses: 1 };
        match self.find(path) {
            Some(i) => {
                self.entries.set(i, e);
                assert(self@ =~= room.update(i as int, e@));
            },
            None => {
                self.entries.push(e);
                assert(self@ =~= room.push(e@));
            },
        }
    }
}

proof fn lemma_evicted_len<F>(es: Seq<EntryView<F>>, min_uses: u32, n: int)
    requires
        0 <= n,
    ensures
        evicted(es, min_uses, n).len() == if n < es.len() {
            es.len() - n
        } else {
            0
        },
    decreases n,
{
    if n > 0 && es.len() > 0 {
        lemma_victim(es, min_uses, es.len() as int);
        lemma_evicted_len(es.remove(victim(es, min_uses, es.len() as int)), min_uses, n - 1);
    }
}

/// The cache never grows past its size.
pub proof fn law_the_cache_is_bounded<F>(
    es: Seq<EntryView<F>>,
    path: Seq<u8>,
    val: Cached<F>,
    p: OpenFileCache,
    now: u64,
)
    requires
        p.max >= 1,
        es.len() <= p.max,
    ensures
        after_put(es, path, val, p, now).len() <= p.max,
        after_get(es, path, p, now).len() <= p.max,
{
    lemma_evicted_len(es, p.min_uses, eviction_size(p.max));
    lemma_place(es, path, 0);
}

/// A result that was kept is what the next look gives, as long as it is trusted.
pub proof fn law_a_kept_result_is_found<F>(
    es: Seq<EntryView<F>>,
    path: Seq<u8>,
    val: Cached<F>,
    p: OpenFileCache,
    now: u64,
    later: u64,
)
    requires
        p.enabled,
        val is Error ==> p.errors,
        age(later, now) <= p.valid,
        age(later, now) <= p.inactive,
    ensures
        ({
            let kept = after_put(es, path, val, p, now);
            let i = place(kept, path, 0);
            0 <= i < kept.len() && kept[i].val == val && is_fresh(kept[i], p, later)
        }),
{
    let room = if es.len() >= p.max {
        evicted(es, p.min_uses, eviction_size(p.max))
    } else {
        es
    };
    let kept = after_put(es, path, val, p, now);
    lemma_place(room, path, 0);
    lemma_place(kept, path, 0);
    let i = place(room, path, 0);
    let at = if i < room.len() {
        i
    } else {
        room.len() as int
    };
    assert(kept[at].path == path);
    assert forall|k: int| 0 <= k < at implies (#[trigger] kept[k]).path != path by {
        assert(kept[k] == room[k]);
    }
}

/// Nothing is kept by a cache that is off, and no failure by one that was not asked
/// to keep them.
pub proof fn law_unwanted_results_are_not_kept<F>(
    es: Seq<EntryView<F>>,
    path: Seq<u8>,
    val: Cached<F>,
    p: OpenFileCache,
    now: u64,
)
    requires
        !p.enabled || (val is Error && !p.errors),
    ensures
        after_put(es, path, val, p, now) == es,
{
}

proof fn lemma_get_distinct<F>(es: Seq<EntryView<F>>, path: Seq<u8>, p: OpenFileCache, now: u64)
    requires
        is_map(es),
    ensures
        is_map(after_get(es, path, p, now)),
{
    lemma_place(es, path, 0);
    let i = place(es, path, 0);
    if i < es.len() {
        lemma_remove_distinct(es, i);
    }
}

proof fn lemma_put_distinct<F>(
    es: Seq<EntryView<F>>,
    path: Seq<u8>,
    val: Cached<F>,
    p: OpenFileCache,
    now: u64,
)
    requires
        is_map(es),
    ensures
        is_map(after_put(es, path, val, p, now)),
{
    let room = if es.len() >= p.max {
        evicted(es, p.min_uses, eviction_size(p.max))
    } else {
        es
    };
    lemma_evicted_distinct(es, p.min_uses, eviction_size(p.max));
    lemma_place(room, path, 0);
}

/// A look at a path, when the file system has `found` there now: a trusted entry is given
/// as it is; else what was found is given, and offered to the cache.
pub open spec fn looked_up<F>(
    es: Seq<EntryView<F>>,
    path: Seq<u8>,
    p: OpenFileCache,
    now: u64,
    found: Cached<F>,
) -> (Seq<EntryView<F>>, Cached<F>) {
    let i = place(es, path, 0);
    let left = after_get(es, path, p, now);
    if p.enabled && 0 <= i < es.len() && is_fresh(es[i], p, now) {
        (left, es[i].val)
    } else {
        (after_put(left, path, found, p, now), found)
    }
}

/// A result that a look found and kept is given again by the next look within `valid` and
/// `inactive`, whatever happened to the file since.
pub proof fn law_a_kept_result_is_given_again<F>(
    es: Seq<EntryView<F>>,
    path: Seq<u8>,
    p: OpenFileCache,
    now: u64,
    found: Cached<F>,
    later: u64,
    now_there: Cached<F>,
)
    requires
        p.enabled,
        found is Error ==> p.errors,
        !({
            let i = place(es, path, 0);
            0 <= i < es.len() && is_fresh(es[i], p, now)
        }),
        age(later, now) <= p.valid,
        age(later, now) <= p.inactive,
    ensures
        looked_up(looked_up(es, path, p, now, found).0, path, p, later, now_there).1 == found,
{
    law_a_kept_result_is_found(after_get(es, path, p, now), path, found, p, now, later);
}

/// A look that is answered from the cache leaves its result there: it is given again for
/// as long as it is trusted, counted from when the file was last looked at.
pub proof fn law_a_trusted_result_is_given_again<F>(
    es: Seq<EntryView<F>>,
    path: Seq<u8>,
    p: OpenFileCache,
    now: u64,
    found: Cached<F>,
    later: u64,
    now_there: Cached<F>,
)
    requires
        p.enabled,
        0 <= place(es, path, 0) < es.len(),
        is_fresh(es[place(es, path, 0)], p, now),
        age(later, es[place(es, path, 0)].checked) <= p.valid,
        age(later, now) <= p.inactive,
    ensures
        looked_up(es, path, p, now, found).1 == es[place(es, path, 0)].val,
        looked_up(looked_up(es, path, p, now, found).0, path, p, later, now_there).1 == es[place(
            es,
            path,
            0,
        )].val,
{
    let i = place(es, path, 0);
    let left = after_get(es, path, p, now);
    lemma_place(es, path, 0);
    lemma_place(left, path, 0);
    assert forall|k: int| 0 <= k < i implies (#[trigger] left[k]).path != path by {
        assert(left[k] == es[k]);
    }
    assert(left[i].path == path);
}

/// A cache that is off keeps nothing and gives what the file system has now.
pub proof fn law_a_cache_that_is_off_sees_the_file<F>(
    es: Seq<EntryView<F>>,
    path: Seq<u8>,
    p: OpenFileCache,
    now: u64,
    found: Cached<F>,
)
    requires
        !p.enabled,
    ensures
        looked_up(es, path, p, now, found) == (es, found),
{
}

/// A failure that is not to be kept is looked at again: the next look gives what the file
/// system has then.
pub proof fn law_an_unkept_failure_is_looked_at_again<F>(
    es: Seq<EntryView<F>>,
    path: Seq<u8>,
    p: OpenFileCache,
    now: u64,
    found: Cached<F>,
    later: u64,
    now_there: Cached<F>,
)
    requires
        is_map(es),
        !p.errors,
        found is Error,
        !({
            let i = place(es, path, 0);
            0 <= i < es.len() && is_fresh(es[i], p, now)
        }),
    ensures
        looked_up(looked_up(es, path, p, now, found).0, path, p, later, now_there).1 == now_there,
{
    let i = place(es, path, 0);
    let left = after_get(es, path, p, now);
    lemma_place(es, path, 0);
    lemma_place(left, path, 0);
    if p.enabled && i < es.len() {
        assert forall|k: int| 0 <= k < left.len() implies (#[trigger] left[k]).path != path by {
            let x = if k < i {
                k
            } else {
                k + 1
            };
            assert(left[k] == es[x]);
            if k < i {
                assert(es[k].path != es[i].path);
            } else {
                assert(es[i].path != es[x].path);
            }
        }
    }
}

proof fn lemma_remove_distinct<F>(es: Seq<EntryView<F>>, i: int)
    requires
        is_map(es),
        0 <= i < es.len(),
    ensures
        is_map(es.remove(i)),
{
    let r = es.remove(i);
    assert forall|a: int, b: int| 0 <= a < b < r.len() implies (#[trigger] r[a]).path != (
    #[trigger] r[b]).path by {
        let x = if a < i {
            a
        } else {
            a + 1
        };
        let y = if b < i {
            b
        } else {
            b + 1
        };
        assert(r[a] == es[x] && r[b] == es[y]);
    }
}

proof fn lemma_evicted_distinct<F>(es: Seq<EntryView<F>>, min_uses: u32, n: int)
    requires
        is_map(es),
    ensures
        is_map(evicted(es, min_uses, n)),
    decreases n,
{
    if n > 0 && es.len() > 0 {
        lemma_victim(es, min_uses, es.len() as int);
        let v = victim(es, min_uses, es.len() as int);
        lemma_remove_distinct(es, v);
        lemma_evicted_distinct(es.remove(v), min_uses, n - 1);
    }
}

} // verus!
