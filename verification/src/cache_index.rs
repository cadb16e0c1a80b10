//! What a worker knows of a cache without touching the disk: the index of
//! entries, the fetches under way, and when a stale entry may be served.

use vstd::prelude::*;
use vstd::string::*;

use crate::bytes;
use crate::cache;
use crate::cache::CacheStatus;
use crate::cache::Decoded;
use crate::cache::KeyHash;

verus! {

/// Everything the index keeps about one entry.
#[derive(Debug, Clone, Copy, PartialEq, Eq, Structural)]
pub struct Entry {
    pub expires: u64,
    /// Bytes on disk.
    pub size: u64,
    /// Requests seen for this key, for `proxy_cache_min_uses`.
    pub uses: u32,
    pub last_used: u64,
}

/// One cache zone as configured. Times are in seconds.
#[derive(Debug)]
pub struct Zone {
    pub name: String,
    pub root: String,
    pub levels: Vec<u8>,
    pub max_entries: usize,
    pub max_size: u64,
    pub inactive: u64,
}

/// An entry with what it is found by.
#[derive(Debug)]
pub struct Slot {
    pub zone: String,
    pub key: KeyHash,
    pub entry: Entry,
}

/// What an entry is found by: the zone's name and the key's digest.
pub type Name = (Seq<char>, KeyHash);

/// The name of the `i`th slot.
pub open spec fn name_at(slots: Seq<Slot>, i: int) -> Name {
    (slots[i].zone@, slots[i].key)
}

/// No name occurs twice.
pub open spec fn distinct(slots: Seq<Slot>) -> bool {
    forall|i: int, j: int|
        0 <= i < j < slots.len() ==> #[trigger] name_at(slots, i) != #[trigger] name_at(slots, j)
}

pub open spec fn holds(slots: Seq<Slot>, k: Name) -> bool {
    exists|i: int| 0 <= i < slots.len() && #[trigger] name_at(slots, i) == k
}

pub open spec fn place(slots: Seq<Slot>, k: Name) -> int {
    choose|i: int| 0 <= i < slots.len() && #[trigger] name_at(slots, i) == k
}

/// The slots as a map from names to entries.
pub open spec fn as_map(slots: Seq<Slot>) -> Map<Name, Entry> {
    Map::new(|k: Name| holds(slots, k), |k: Name| slots[place(slots, k)].entry)
}

/// A worker's index of the entries it knows of, over all zones.
#[derive(Debug)]
pub struct Index {
    slots: Vec<Slot>,
}

impl View for Index {
    type V = Map<Name, Entry>;

    closed spec fn view(&self) -> Map<Name, Entry> {
        as_map(self.slots@)
    }
}

/// The entries of one zone.
pub open spec fn members(m: Map<Name, Entry>, zone: Seq<char>) -> Set<Name> {
    m.dom().filter(|k: Name| k.0 == zone)
}

proof fn lemma_at(slots: Seq<Slot>, i: int)
    requires
        distinct(slots),
        0 <= i < slots.len(),
    ensures
        as_map(slots).contains_key(name_at(slots, i)),
        as_map(slots)[name_at(slots, i)] == slots[i].entry,
{
    let k = name_at(slots, i);
    assert(holds(slots, k));
    let p = place(slots, k);
    assert(name_at(slots, p) == k);
    if p < i {
        assert(name_at(slots, p) != name_at(slots, i));
    } else if i < p {
        assert(name_at(slots, i) != name_at(slots, p));
    }
}

proof fn lemma_update(slots: Seq<Slot>, i: int, new: Slot)
    requires
        distinct(slots),
        0 <= i < slots.len(),
        new.zone@ == slots[i].zone@,
        new.key == slots[i].key,
    ensures
        distinct(slots.update(i, new)),
        as_map(slots.update(i, new)) == as_map(slots).insert(name_at(slots, i), new.entry),
{
    let after = slots.update(i, new);
    assert forall|a: int| 0 <= a < slots.len() implies name_at(after, a) == name_at(slots, a) by {}
    assert(distinct(after));
    let m = as_map(slots).insert(name_at(slots, i), new.entry);
    assert forall|k: Name| as_map(after).contains_key(k) <==> m.contains_key(k) by {
        if holds(after, k) {
            let p = place(after, k);
            assert(name_at(slots, p) == k);
        }
        if holds(slots, k) {
            let p = place(slots, k);
            assert(name_at(after, p) == k);
        }
        assert(name_at(after, i) == name_at(slots, i));
    }
    assert forall|k: Name| as_map(after).contains_key(k) implies as_map(after)[k] == m[k] by {
        let p = place(after, k);
        lemma_at(after, p);
        lemma_at(slots, p);
        if p != i {
            if p < i {
                assert(name_at(slots, p) != name_at(slots, i));
            } else {
                assert(name_at(slots, i) != name_at(slots, p));
            }
        }
    }
    assert(as_map(after) =~= m);
}

proof fn lemma_push(slots: Seq<Slot>, new: Slot)
    requires
        distinct(slots),
        !holds(slots, (new.zone@, new.key)),
    ensures
        distinct(slots.push(new)),
        as_map(slots.push(new)) == as_map(slots).insert((new.zone@, new.key), new.entry),
{
    let after = slots.push(new);
    let n = (new.zone@, new.key);
    assert forall|a: int| 0 <= a < slots.len() implies name_at(after, a) == name_at(slots, a) by {}
    assert(name_at(after, slots.len() as int) == n);
    assert forall|a: int, b: int| 0 <= a < b < after.len() implies #[trigger] name_at(after, a)
        != #[trigger] name_at(after, b) by {
        assert(name_at(after, a) == name_at(slots, a));
        if b < slots.len() {
            assert(name_at(after, b) == name_at(slots, b));
        }
    }
    let m = as_map(slots).insert(n, new.entry);
    assert forall|k: Name| as_map(after).contains_key(k) <==> m.contains_key(k) by {
        if holds(after, k) {
            let p = place(after, k);
            if p < slots.len() {
                assert(name_at(slots, p) == k);
            }
        }
        if holds(slots, k) {
            let p = place(slots, k);
            assert(name_at(after, p) == k);
        }
    }
    assert forall|k: Name| as_map(after).contains_key(k) implies as_map(after)[k] == m[k] by {
        let p = place(after, k);
        lemma_at(after, p);
        if p < slots.len() {
            lemma_at(slots, p);
            assert(name_at(slots, p) == k);
        }
    }
    assert(as_map(after) =~= m);
}

proof fn lemma_remove(slots: Seq<Slot>, i: int)
    requires
        distinct(slots),
        0 <= i < slots.len(),
    ensures
        distinct(slots.remove(i)),
        as_map(slots.remove(i)) == as_map(slots).remove(name_at(slots, i)),
{
    let after = slots.remove(i);
    let from = |a: int| if a < i { a } else { a + 1 };
    assert forall|a: int| 0 <= a < after.len() implies name_at(after, a) == name_at(
        slots,
        from(a),
    ) by {}
    assert forall|a: int, b: int| 0 <= a < b < after.len() implies #[trigger] name_at(after, a)
        != #[trigger] name_at(after, b) by {
        assert(name_at(slots, from(a)) != name_at(slots, from(b)));
    }
    let gone = name_at(slots, i);
    let m = as_map(slots).remove(gone);
    assert forall|k: Name| as_map(after).contains_key(k) <==> m.contains_key(k) by {
        if holds(after, k) {
            let p = place(after, k);
            assert(name_at(slots, from(p)) == k);
            if from(p) < i {
                assert(name_at(slots, from(p)) != name_at(slots, i));
            } else {
                assert(name_at(slots, i) != name_at(slots, from(p)));
            }
        }
        if holds(slots, k) && k != gone {
            let p = place(slots, k);
            let q = if p < i {
                p
            } else {
                p - 1
            };
            assert(name_at(after, q) == k);
        }
    }
    assert forall|k: Name| as_map(after).contains_key(k) implies as_map(after)[k] == m[k] by {
        let p = place(after, k);
        lemma_at(after, p);
        lemma_at(slots, from(p));
    }
    assert(as_map(after) =~= m);
}

/// How many of the first `n` slots belong to a zone.
spec fn count(slots: Seq<Slot>, zone: Seq<char>) -> nat
    decreases slots.len(),
{
    if slots.len() == 0 {
        0
    } else {
        count(slots.drop_last(), zone) + if slots.last().zone@ == zone {
            1nat
        } else {
            0nat
        }
    }
}

proof fn lemma_count(slots: Seq<Slot>, zone: Seq<char>)
    requires
        distinct(slots),
    ensures
        as_map(slots).dom().finite(),
        as_map(slots).dom().len() == slots.len(),
        members(as_map(slots), zone).finite(),
        members(as_map(slots), zone).len() == count(slots, zone),
    decreases slots.len(),
{
    let m = as_map(slots);
    if slots.len() == 0 {
        assert(m.dom() =~= Set::empty());
        assert(members(m, zone) =~= Set::empty());
    } else {
        let init = slots.drop_last();
        let last = slots.last();
        let n = (last.zone@, last.key);
        assert forall|a: int| 0 <= a < init.len() implies name_at(init, a) == name_at(slots, a) by {}
        assert(distinct(init));
        lemma_count(init, zone);
        assert(slots =~= init.push(last));
        if holds(init, n) {
            let p = place(init, n);
            assert(name_at(slots, p) != name_at(slots, slots.len() - 1));
        }
        lemma_push(init, last);
        assert(m.dom() =~= as_map(init).dom().insert(n));
        if last.zone@ == zone {
            assert(members(m, zone) =~= members(as_map(init), zone).insert(n));
        } else {
            assert(members(m, zone) =~= members(as_map(init), zone));
        }
    }
}

/// `before` without the `n` least recently used entries of a zone, or without
/// all of them when there are fewer. Among equally old ones any may go.
pub open spec fn is_evicted(
    before: Map<Name, Entry>,
    after: Map<Name, Entry>,
    zone: Seq<char>,
    n: int,
) -> bool {
    &&& forall|k: Name| #[trigger]
        after.contains_key(k) ==> before.contains_key(k) && after[k] == before[k]
    &&& forall|k: Name| #[trigger]
        before.contains_key(k) && !after.contains_key(k) ==> k.0 == zone
    &&& forall|k: Name, l: Name|
        before.contains_key(k) && !after.contains_key(k) && after.contains_key(l) && l.0 == zone
            ==> (#[trigger] before[k]).last_used <= (#[trigger] before[l]).last_used
    &&& before.dom().len() - after.dom().len() == if n < members(before, zone).len() {
        n
    } else {
        members(before, zone).len() as int
    }
}

/// The largest of one and a number.
pub open spec fn at_least_one(n: int) -> int {
    if n < 1 {
        1
    } else {
        n
    }
}

/// Room made for one more entry: a tenth of the zone's entries goes when the index is
/// full.
pub open spec fn is_room_made(
    before: Map<Name, Entry>,
    after: Map<Name, Entry>,
    zone: Seq<char>,
    max_entries: int,
) -> bool {
    if before.dom().len() >= at_least_one(max_entries) {
        is_evicted(before, after, zone, at_least_one(members(before, zone).len() as int / 10))
    } else {
        after == before
    }
}

/// What is known of a name before anything was recorded.
pub open spec fn entry_or_new(m: Map<Name, Entry>, k: Name) -> Entry {
    if m.contains_key(k) {
        m[k]
    } else {
        Entry { expires: 0, size: 0, uses: 0, last_used: 0 }
    }
}

impl Index {
    /// Every name is there once.
    pub closed spec fn wf(&self) -> bool {
        distinct(self.slots@)
    }

    /// An index that knows of nothing.
    pub fn new() -> (r: Index)
        ensures
            r.wf(),
            r@ == Map::<Name, Entry>::empty(),
    {
        let r = Index { slots: Vec::new() };
        assert(r@ =~= Map::<Name, Entry>::empty());
        r
    }

    fn find(&self, zone: &str, key: KeyHash) -> (r: Option<usize>)
        ensures
            match r {
                Some(i) => i < self.slots@.len() && name_at(self.slots@, i as int) == (zone@, key),
                None => !holds(self.slots@, (zone@, key)),
            },
    {
        for i in 0..self.slots.len()
            invariant
                forall|j: int| 0 <= j < i ==> #[trigger] name_at(self.slots@, j) != (zone@, key),
        {
            if self.slots[i].key == key && bytes::same_text(self.slots[i].zone.as_str(), zone) {
                return Some(i);
            }
        }
        None
    }

    /// The entry recorded under a name.
    pub fn get(&self, zone: &str, key: KeyHash) -> (r: Option<Entry>)
        requires
            self.wf(),
        ensures
            match r {
                Some(e) => self@.contains_key((zone@, key)) && self@[(zone@, key)] == e,
                None => !self@.contains_key((zone@, key)),
            },
    {
        match self.find(zone, key) {
            Some(i) => {
                proof {
                    lemma_at(self.slots@, i as int);
                }
                Some(self.slots[i].entry)
            },
            None => None,
        }
    }

    /// Records an entry under a name, in place of what was there.
    pub fn put(&mut self, zone: &str, key: KeyHash, entry: Entry)
        requires
            old(self).wf(),
        ensures
            final(self).wf(),
            final(self)@ == old(self)@.insert((zone@, key), entry),
    {
        match self.find(zone, key) {
            Some(i) => {
                let ghost new = Slot {
                    zone: self.slots@[i as int].zone,
                    key: self.slots@[i as int].key,
                    entry,
                };
                proof {
                    lemma_update(self.slots@, i as int, new);
                }
                self.slots[i].entry = entry;
                assert(self.slots@ =~= old(self).slots@.update(i as int, new));
            },
            None => {
                let new = Slot { zone: zone.to_owned(), key, entry };
                proof {
                    lemma_push(self.slots@, new);
                }
                self.slots.push(new);
            },
        }
    }

    /// How many entries the index holds.
    pub fn len(&self) -> (r: usize)
        requires
            self.wf(),
        ensures
            r == self@.dom().len(),
    {
        proof {
            lemma_count(self.slots@, Seq::empty());
        }
        self.slots.len()
    }

    /// The least recently used slot of a zone.
    fn oldest(&self, zone: &str) -> (r: Option<usize>)
        ensures
            match r {
                Some(i) => i < self.slots@.len() && self.slots@[i as int].zone@ == zone@ && forall|
                    j: int,
                |
                    0 <= j < self.slots@.len() && (#[trigger] self.slots@[j]).zone@ == zone@
                        ==> self.slots@[i as int].entry.last_used
                        <= self.slots@[j].entry.last_used,
                None => forall|j: int|
                    0 <= j < self.slots@.len() ==> (#[trigger] self.slots@[j]).zone@ != zone@,
            },
    {
        let mut best: Option<usize> = None;
        for i in 0..self.slots.len()
            invariant
                match best {
                    Some(b) => b < i && self.slots@[b as int].zone@ == zone@ && forall|j: int|
                        0 <= j < i && (#[trigger] self.slots@[j]).zone@ == zone@
                            ==> self.slots@[b as int].entry.last_used
                            <= self.slots@[j].entry.last_used,
                    None => forall|j: int|
                        0 <= j < i ==> (#[trigger] self.slots@[j]).zone@ != zone@,
                },
        {
            if bytes::same_text(self.slots[i].zone.as_str(), zone) {
                match best {
                    Some(b) => {
                        if self.slots[i].entry.last_used < self.slots[b].entry.last_used {
                            best = Some(i);
                        }
                    },
                    None => {
                        best = Some(i);
                    },
                }
            }
        }
        best
    }

    /// Drops the least recently used tenth of a zone's entries.
    fn evict(&mut self, zone: &str)
        requires
            old(self).wf(),
        ensures
            final(self).wf(),
            is_evicted(
                old(self)@,
                final(self)@,
                zone@,
                at_least_one(members(old(self)@, zone@).len() as int / 10),
            ),
    {
        let ghost before = self@;
        let tenth: usize = tracked_count(self, zone) / 10;
        let n: usize = if tenth < 1 {
            1
        } else {
            tenth
        };
        proof {
            lemma_count(self.slots@, zone@);
            assert(is_evicted(before, self@, zone@, 0));
        }
        let ghost first = self.slots@;
        let mut j: usize = 0;
        while j < n
            invariant
                j <= n,
                self.wf(),
                distinct(first),
                before == old(self)@,
                before == as_map(first),
                is_evicted(before, self@, zone@, j as int),
                n == at_least_one(members(before, zone@).len() as int / 10),
            decreases n - j,
        {
            match self.oldest(zone) {
                Some(i) => {
                    let ghost slots = self.slots@;
                    let ghost m = self@;
                    let ghost gone = name_at(slots, i as int);
                    self.slots.remove(i);
                    proof {
                        lemma_remove(slots, i as int);
                        lemma_at(slots, i as int);
                        lemma_count(slots, zone@);
                        lemma_count(self.slots@, zone@);
                        lemma_count(first, zone@);
                        assert(members(m, zone@).contains(gone));
                        assert(members(m, zone@).subset_of(members(before, zone@)));
                        assert(m.dom().subset_of(before.dom()));
                        assert forall|k: Name, l: Name|
                            before.contains_key(k) && !self@.contains_key(k)
                                && self@.contains_key(l) && l.0 == zone@ implies (
                        #[trigger] before[k]).last_used <= (#[trigger] before[l]).last_used by {
                            let p = place(slots, l);
                            assert(m.contains_key(l));
                            assert(name_at(slots, p) == l);
                            lemma_at(slots, p);
                            assert(slots[p].zone@ == zone@);
                            assert(m.contains_key(k) ==> k == gone);
                        }
                        lemma_evicted_count(before, m, zone@, j as int);
                        assert(self@.dom() =~= m.dom().remove(gone));
                        assert(members(before, zone@).len() > j);
                    }
                    j = j + 1;
                },
                None => {
                    proof {
                        let slots = self.slots@;
                        lemma_count(slots, zone@);
                        lemma_count(first, zone@);
                        assert(members(self@, zone@) =~= Set::empty()) by {
                            assert forall|k: Name| !members(self@, zone@).contains(k) by {
                                if self@.contains_key(k) {
                                    let p = place(slots, k);
                                    assert(name_at(slots, p) == k);
                                    assert(slots[p].zone@ != zone@);
                                }
                            }
                        }
                        lemma_evicted_count(before, self@, zone@, j as int);
                        assert(is_evicted(before, self@, zone@, n as int));
                    }
                    return;
                },
            }
        }
    }
}

/// What is left of a zone after an eviction: what was there less what went.
proof fn lemma_evicted_count(
    before: Map<Name, Entry>,
    after: Map<Name, Entry>,
    zone: Seq<char>,
    n: int,
)
    requires
        before.dom().finite(),
        after.dom().finite(),
        is_evicted(before, after, zone, n),
    ensures
        members(before, zone).len() - members(after, zone).len() == before.dom().len()
            - after.dom().len(),
{
    let gone = before.dom().difference(after.dom());
    vstd::set_lib::lemma_set_disjoint(gone, after.dom());
    vstd::set_lib::lemma_set_disjoint_lens(gone, after.dom());
    assert(gone + after.dom() =~= before.dom());
    let a = members(after, zone);
    vstd::set_lib::lemma_set_disjoint_lens(gone, a);
    assert(gone + a =~= members(before, zone));
}

/// Records a request against a key and reports how many have been seen. Drives
/// `proxy_cache_min_uses`, which exists so a one-off URL does not earn a disk
/// write.
pub fn note_use(index: &mut Index, zone: &Zone, key: KeyHash, now: u64) -> (r: u32)
    requires
        old(index).wf(),
    ensures
        final(index).wf(),
        ({
            let k = (zone.name@, key);
            let e = entry_or_new(old(index)@, k);
            &&& r == if e.uses < u32::MAX { e.uses + 1 } else { e.uses as int }
            &&& final(index)@ == old(index)@.insert(k, Entry { uses: r, last_used: now, ..e })
        }),
{
    let mut e: Entry = match index.get(zone.name.as_str(), key) {
        Some(e) => e,
        None => Entry { expires: 0, size: 0, uses: 0, last_used: 0 },
    };
    e.uses = e.uses.saturating_add(1);
    e.last_used = now;
    index.put(zone.name.as_str(), key, e);
    e.uses
}

/// Records that an entry was read from disk; a name nobody asked for before
/// stays unknown.
pub fn note_load(index: &mut Index, zone: &Zone, key: KeyHash, expires: u64, size: u64)
    requires
        old(index).wf(),
    ensures
        final(index).wf(),
        ({
            let k = (zone.name@, key);
            final(index)@ == if old(index)@.contains_key(k) {
                old(index)@.insert(k, Entry { expires, size, ..old(index)@[k] })
            } else {
                old(index)@
            }
        }),
{
    if let Some(e) = index.get(zone.name.as_str(), key) {
        let mut e: Entry = e;
        e.expires = expires;
        e.size = size;
        index.put(zone.name.as_str(), key, e);
    }
}

/// Reads an entry from what its file holds, and takes note of it. A file that holds no
/// entry of that key is corrupt or foreign: it is to be removed, rather than tried again.
pub fn load(
    index: &mut Index,
    zone: &Zone,
    key: &str,
    hash: KeyHash,
    buf: &[u8],
    now: u64,
) -> (r: Option<(Decoded, CacheStatus)>)
    requires
        old(index).wf(),
    ensures
        final(index).wf(),
        match cache::entry_of(buf@, bytes::utf8(key@)) {
            Ok(d) => {
                let k = (zone.name@, hash);
                &&& r matches Some(x) && x.0@ == d && x.1 == if now >= d.expires {
                    CacheStatus::Expired
                } else {
                    CacheStatus::Hit
                }
                &&& final(index)@ == if old(index)@.contains_key(k) {
                    old(index)@.insert(
                        k,
                        Entry {
                            expires: d.expires as u64,
                            size: buf@.len() as u64,
                            ..old(index)@[k]
                        },
                    )
                } else {
                    old(index)@
                }
            },
            Err(_) => r is None && final(index)@ == old(index)@,
        },
{
    match cache::decode_entry(buf, key) {
        Ok(d) => {
            let status = cache::freshness(d.expires, now);
            note_load(index, zone, hash, d.expires, buf.len() as u64);
            Some((d, status))
        },
        Err(_) => None,
    }
}

/// Records that an entry was written to disk, making room for it first.
pub fn store(index: &mut Index, zone: &Zone, key: KeyHash, size: u64, now: u64)
    requires
        old(index).wf(),
    ensures
        final(index).wf(),
        exists|mid: Map<Name, Entry>|
            {
                &&& #[trigger] is_room_made(old(index)@, mid, zone.name@, zone.max_entries as int)
                &&& final(index)@ == mid.insert(
                    (zone.name@, key),
                    Entry { size, last_used: now, ..entry_or_new(mid, (zone.name@, key)) },
                )
            },
{
    let limit: usize = if zone.max_entries < 1 {
        1
    } else {
        zone.max_entries
    };
    if index.len() >= limit {
        index.evict(zone.name.as_str());
    }
    let ghost mid = index@;
    assert(is_room_made(old(index)@, mid, zone.name@, zone.max_entries as int));
    let mut e: Entry = match index.get(zone.name.as_str(), key) {
        Some(e) => e,
        None => Entry { expires: 0, size: 0, uses: 0, last_used: 0 },
    };
    e.size = size;
    e.last_used = now;
    index.put(zone.name.as_str(), key, e);
}

/// Storing never takes an index that holds one zone past the size of the zone, if it
/// was within it before.
pub proof fn law_storing_keeps_the_index_within_its_size(
    before: Map<Name, Entry>,
    mid: Map<Name, Entry>,
    zone: Seq<char>,
    max_entries: int,
    k: Name,
    e: Entry,
)
    requires
        before.dom().finite(),
        mid.dom().finite(),
        forall|l: Name| #[trigger] before.contains_key(l) ==> l.0 == zone,
        before.dom().len() <= at_least_one(max_entries),
        is_room_made(before, mid, zone, max_entries),
    ensures
        mid.insert(k, e).dom().len() <= at_least_one(max_entries),
{
    assert(members(before, zone) =~= before.dom());
    assert(mid.insert(k, e).dom() =~= mid.dom().insert(k));
}

/// Storing forgets no entry of another zone.
pub proof fn law_storing_leaves_other_zones_alone(
    before: Map<Name, Entry>,
    mid: Map<Name, Entry>,
    zone: Seq<char>,
    max_entries: int,
    l: Name,
)
    requires
        is_room_made(before, mid, zone, max_entries),
        before.contains_key(l),
        l.0 != zone,
    ensures
        mid.contains_key(l),
        mid[l] == before[l],
{
}

/// How many entries are known of a zone.
pub fn tracked_count(index: &Index, zone: &str) -> (r: usize)
    requires
        index.wf(),
    ensures
        r == members(index@, zone@).len(),
{
    let mut n: usize = 0;
    for i in 0..index.slots.len()
        invariant
            n == count(index.slots@.subrange(0, i as int), zone@),
            n <= i,
    {
        assert(index.slots@.subrange(0, i + 1).drop_last() =~= index.slots@.subrange(0, i as int));
        if bytes::same_text(index.slots[i].zone.as_str(), zone) {
            n = n + 1;
        }
    }
    proof {
        assert(index.slots@.subrange(0, index.slots@.len() as int) =~= index.slots@);
        lemma_count(index.slots@, zone@);
    }
    n
}

// ---------------------------------------------------------------- cache lock

/// Keys currently being fetched.
#[derive(Debug)]
pub struct Fetching {
    held: Vec<(String, KeyHash)>,
}

/// The right to fetch a key, until it is given back.
#[derive(Debug)]
pub struct FetchLock {
    zone: String,
    key: KeyHash,
}

impl FetchLock {
    /// What the lock is for.
    pub closed spec fn name(&self) -> Name {
        (self.zone@, self.key)
    }
}

spec fn held_at(held: Seq<(String, KeyHash)>, i: int) -> Name {
    (held[i].0@, held[i].1)
}

impl View for Fetching {
    type V = Set<Name>;

    closed spec fn view(&self) -> Set<Name> {
        Set::new(
            |k: Name|
                exists|i: int| 0 <= i < self.held@.len() && #[trigger] held_at(self.held@, i) == k,
        )
    }
}

impl Fetching {
    /// No key is held twice.
    pub closed spec fn wf(&self) -> bool {
        forall|i: int, j: int|
            0 <= i < j < self.held@.len() ==> #[trigger] held_at(self.held@, i)
                != #[trigger] held_at(self.held@, j)
    }

    /// Nothing is being fetched.
    pub fn new() -> (r: Fetching)
        ensures
            r.wf(),
            r@ == Set::<Name>::empty(),
    {
        let r = Fetching { held: Vec::new() };
        assert(r@ =~= Set::<Name>::empty());
        r
    }

    fn find(&self, zone: &str, key: KeyHash) -> (r: Option<usize>)
        ensures
            match r {
                Some(i) => i < self.held@.len() && held_at(self.held@, i as int) == (zone@, key)
                    && self@.contains((zone@, key)),
                None => !self@.contains((zone@, key)),
            },
    {
        for i in 0..self.held.len()
            invariant
                forall|j: int| 0 <= j < i ==> #[trigger] held_at(self.held@, j) != (zone@, key),
        {
            if self.held[i].1 == key && bytes::same_text(self.held[i].0.as_str(), zone) {
                assert(held_at(self.held@, i as int) == (zone@, key));
                return Some(i);
            }
        }
        None
    }
}

/// Claims the right to populate `key`, or reports that someone else has it.
pub fn try_lock(fetching: &mut Fetching, zone: &str, key: KeyHash) -> (r: Option<FetchLock>)
    requires
        old(fetching).wf(),
    ensures
        final(fetching).wf(),
        final(fetching)@ == old(fetching)@.insert((zone@, key)),
        match r {
            Some(l) => !old(fetching)@.contains((zone@, key)) && l.name() == (zone@, key),
            None => old(fetching)@.contains((zone@, key)),
        },
{
    match fetching.find(zone, key) {
        Some(_) => {
            assert(fetching@ =~= old(fetching)@.insert((zone@, key)));
            None
        },
        None => {
            let ghost held = fetching.held@;
            fetching.held.push((zone.to_owned(), key));
            proof {
                let after = fetching.held@;
                assert forall|i: int| 0 <= i < held.len() implies held_at(after, i) == held_at(
                    held,
                    i,
                ) by {}
                assert(held_at(after, held.len() as int) == (zone@, key));
                assert forall|i: int, j: int| 0 <= i < j < after.len() implies #[trigger] held_at(
                    after,
                    i,
                ) != #[trigger] held_at(after, j) by {
                    assert(held_at(after, i) == held_at(held, i));
                    if j < held.len() {
                        assert(held_at(after, j) == held_at(held, j));
                    }
                }
                assert forall|k: Name|
                    fetching@.contains(k) <==> old(fetching)@.insert((zone@, key)).contains(k) by {
                    if fetching@.contains(k) {
                        let i = choose|i: int|
                            0 <= i < after.len() && #[trigger] held_at(after, i) == k;
                        if i < held.len() {
                            assert(held_at(held, i) == k);
                        }
                    }
                    if old(fetching)@.contains(k) {
                        let i = choose|i: int|
                            0 <= i < held.len() && #[trigger] held_at(held, i) == k;
                        assert(held_at(after, i) == k);
                    }
                }
                assert(fetching@ =~= old(fetching)@.insert((zone@, key)));
            }
            Some(FetchLock { zone: zone.to_owned(), key })
        },
    }
}

/// Gives a lock back, so that a failed fetch cannot leave a key locked forever.
pub fn release(fetching: &mut Fetching, lock: FetchLock)
    requires
        old(fetching).wf(),
    ensures
        final(fetching).wf(),
        final(fetching)@ == old(fetching)@.remove(lock.name()),
{
    match fetching.find(lock.zone.as_str(), lock.key) {
        Some(i) => {
            let ghost held = fetching.held@;
            fetching.held.remove(i);
            proof {
                let after = fetching.held@;
                let from = |a: int| if a < i { a } else { a + 1 };
                assert forall|a: int| 0 <= a < after.len() implies held_at(after, a) == held_at(
                    held,
                    from(a),
                ) by {}
                assert forall|a: int, b: int| 0 <= a < b < after.len() implies #[trigger] held_at(
                    after,
                    a,
                ) != #[trigger] held_at(after, b) by {
                    assert(held_at(held, from(a)) != held_at(held, from(b)));
                }
                let gone = lock.name();
                assert forall|k: Name|
                    fetching@.contains(k) <==> old(fetching)@.remove(gone).contains(k) by {
                    if fetching@.contains(k) {
                        let p = choose|p: int|
                            0 <= p < after.len() && #[trigger] held_at(after, p) == k;
                        assert(held_at(held, from(p)) == k);
                        if from(p) < i {
                            assert(held_at(held, from(p)) != held_at(held, i as int));
                        } else {
                            assert(held_at(held, i as int) != held_at(held, from(p)));
                        }
                    }
                    if old(fetching)@.contains(k) && k != gone {
                        let p = choose|p: int|
                            0 <= p < held.len() && #[trigger] held_at(held, p) == k;
                        let q = if p < i {
                            p
                        } else {
                            p - 1
                        };
                        assert(held_at(after, q) == k);
                    }
                }
                assert(fetching@ =~= old(fetching)@.remove(gone));
            }
        },
        None => {
            assert(fetching@ =~= old(fetching)@.remove(lock.name()));
        },
    }
}

/// True while another task is fetching this key.
pub fn is_locked(fetching: &Fetching, zone: &str, key: KeyHash) -> (r: bool)
    ensures
        r == fetching@.contains((zone@, key)),
{
    fetching.find(zone, key).is_some()
}

// ---------------------------------------------------------------- stale

/// When a stale entry may be served instead of an error.
#[derive(Debug, Clone, Copy, PartialEq, Eq, Structural)]
pub enum StaleWhen {
    /// The upstream could not be reached or the connection failed.
    Error,
    /// The upstream timed out.
    Timeout,
    /// The upstream sent something that is not a response.
    InvalidHeader,
    /// Another request is already refreshing this entry: serve the old copy
    /// rather than queueing behind it.
    Updating,
    /// A specific upstream status, e.g. `http_503`.
    Status(u16),
}

/// The condition a word of `proxy_cache_use_stale` names.
pub open spec fn stale_word(s: Seq<char>) -> Option<StaleWhen> {
    let b = bytes::utf8(s);
    let p = bytes::utf8("http_"@);
    if s == "error"@ {
        Some(StaleWhen::Error)
    } else if s == "timeout"@ {
        Some(StaleWhen::Timeout)
    } else if s == "invalid_header"@ {
        Some(StaleWhen::InvalidHeader)
    } else if s == "updating"@ {
        Some(StaleWhen::Updating)
    } else if bytes::starts(b, p) {
        match bytes::unsigned_within(b.subrange(p.len() as int, b.len() as int), 0xffff) {
            Some(n) => Some(StaleWhen::Status(n as u16)),
            None => None,
        }
    } else {
        None
    }
}

impl StaleWhen {
    /// Reads one word of `proxy_cache_use_stale`. `off` names no condition.
    pub fn parse(s: &str) -> (r: Option<StaleWhen>)
        ensures
            r == stale_word(s@),
    {
        if bytes::same_text(s, "error") {
            Some(StaleWhen::Error)
        } else if bytes::same_text(s, "timeout") {
            Some(StaleWhen::Timeout)
        } else if bytes::same_text(s, "invalid_header") {
            Some(StaleWhen::InvalidHeader)
        } else if bytes::same_text(s, "updating") {
            Some(StaleWhen::Updating)
        } else {
            let b: &[u8] = s.as_bytes();
            let p: &[u8] = "http_".as_bytes();
            if !bytes::starts_with(b, p) {
                return None;
            }
            match bytes::parse_unsigned(&b[p.len()..b.len()], 0xffff) {
                Some(n) => Some(StaleWhen::Status(n as u16)),
                None => None,
            }
        }
    }
}

/// Whether a set of `proxy_cache_use_stale` conditions covers this outcome.
pub fn stale_allowed(conds: &[StaleWhen], outcome: StaleWhen) -> (r: bool)
    ensures
        r == conds@.contains(outcome),
{
    for i in 0..conds.len()
        invariant
            forall|j: int| 0 <= j < i ==> conds@[j] != outcome,
    {
        if conds[i] == outcome {
            return true;
        }
    }
    false
}

} // verus!
