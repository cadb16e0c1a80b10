//! `cache`, `cache_index`, `cache_manager` and `fcache`: what is kept, where, and for how
//! long.

use vstd::prelude::*;

use crate::bytes;
use crate::cache;
use crate::cache::KeyHash;
use crate::cache_index;
use crate::cache_index::StaleWhen;
use crate::cache_manager;
use crate::cache_manager::OnDisk;
use crate::fcache;
use crate::fcache::Cached;
use crate::fcache::EntryView;
use crate::fcache::OpenFileCache;
use crate::laws::balancing;
use crate::laws::serving;

verus! {

// ---------------------------------------------------------------- names of entries

/// One step of the second hash: five bits round, and a step of FNV-1a.
pub open spec fn rotated_step(h: u64, b: u8) -> u64 {
    (((h << 5) | (h >> 59)) ^ (b as u64)).wrapping_mul(0x100000001b3)
}

/// A key is hashed twice, over all of its bytes.
pub proof fn law_keys_are_hashed_twice(key: Seq<u8>)
    ensures
        cache::fnv(key) == key.fold_left(
            0xcbf29ce484222325u64,
            |h: u64, b: u8| balancing::fnv_step(h, b),
        ),
        cache::fnv_rotated(key) == key.fold_left(
            0x9e3779b97f4a7c15u64,
            |h: u64, b: u8| rotated_step(h, b),
        ),
    decreases key.len(),
{
    if key.len() > 0 {
        law_keys_are_hashed_twice(key.drop_last());
    }
}

/// Sixteen to the power of a number.
pub open spec fn pow16(n: nat) -> nat
    decreases n,
{
    if n == 0 {
        1
    } else {
        16 * pow16((n - 1) as nat)
    }
}

proof fn lemma_padded_value(n: nat, width: nat)
    requires
        n < pow16(width),
    ensures
        serving::hex_value(bytes::hex_padded(n, width)) == n,
        bytes::hex_padded(n, width).len() == width,
    decreases width,
{
    bytes::lemma_hex_padded(n, width);
    if width > 0 {
        lemma_padded_value(n / 16, (width - 1) as nat);
        let s = bytes::hex_padded(n, width);
        assert(s.drop_last() =~= bytes::hex_padded(n / 16, (width - 1) as nat));
    }
}

/// The name of an entry is its two hashes, sixteen digits each.
pub proof fn law_names_are_hashes(k: KeyHash)
    ensures
        k.hex().len() == 32,
        serving::hex_value(k.hex().subrange(0, 16)) == k.0,
        serving::hex_value(k.hex().subrange(16, 32)) == k.1,
{
    reveal_with_fuel(pow16, 17);
    lemma_padded_value(k.0 as nat, 16);
    lemma_padded_value(k.1 as nat, 16);
    assert(k.hex().subrange(0, 16) =~= bytes::hex_padded(k.0 as nat, 16));
    assert(k.hex().subrange(16, 32) =~= bytes::hex_padded(k.1 as nat, 16));
}

/// Entries stand in directories named by the last digits of their names: as many of them as
/// each level says, one level before the other.
pub proof fn law_levels_are_the_last_digits(root: Seq<u8>, hex: Seq<u8>, a: u8, b: u8)
    requires
        hex.len() == 32,
        root.len() > 0,
        root.last() != 47,
        a > 0,
        b > 0,
        a + b <= 32,
        forall|i: int| 0 <= i < 32 ==> #[trigger] hex[i] != 47,
    ensures
        cache::with_component(cache::level_dirs(root, hex, 32, seq![a, b]), hex) == root + seq![
            47u8,
        ] + hex.subrange(32 - a, 32) + seq![47u8] + hex.subrange(32 - a - b, 32 - a) + seq![47u8]
            + hex,
        cache::with_component(cache::level_dirs(root, hex, 32, seq![a]), hex) == root + seq![47u8]
            + hex.subrange(32 - a, 32) + seq![47u8] + hex,
        cache::with_component(cache::level_dirs(root, hex, 32, Seq::empty()), hex) == root + seq![
            47u8,
        ] + hex,
{
    reveal_with_fuel(cache::level_dirs, 3);
    let one = hex.subrange(32 - a, 32);
    let two = hex.subrange(32 - a - b, 32 - a);
    assert(one.last() == hex[31] && two.last() == hex[31 - a]);
    let d1 = root.push(47) + one;
    let d2 = d1.push(47) + two;
    assert(seq![a, b].subrange(1, 2) =~= seq![b]);
    assert(seq![b].subrange(1, 1) =~= Seq::<u8>::empty());
    assert(seq![a].subrange(1, 1) =~= Seq::<u8>::empty());
    assert(cache::level_dirs(root, hex, 32, seq![a]) == d1);
    assert(cache::level_dirs(root, hex, 32, seq![a, b]) == d2);
    assert(d1.last() == one.last() && d2.last() == two.last());
    assert(d2.push(47) + hex =~= root + seq![47u8] + one + seq![47u8] + two + seq![47u8] + hex);
    assert(d1.push(47) + hex =~= root + seq![47u8] + one + seq![47u8] + hex);
    assert(root.push(47) + hex =~= root + seq![47u8] + hex);
}

/// A root that ends with a slash gets no second one.
pub proof fn law_components_are_set_off_by_one_slash(dir: Seq<u8>, name: Seq<u8>)
    requires
        dir.len() > 0,
        dir.last() != 47,
    ensures
        cache::with_component(dir, name) == dir + seq![47u8] + name,
        cache::with_component(dir.push(47), name) == dir + seq![47u8] + name,
{
    assert(dir.push(47) + name =~= dir + seq![47u8] + name);
}

// ---------------------------------------------------------------- stale entries

/// An expired entry may be used by what is configured: the words for failures, and the
/// statuses of the upstream by their numbers.
pub proof fn law_stale_conditions_are_words(n: u16, s: Seq<char>)
    ensures
        cache_index::stale_word("error"@) == Some(StaleWhen::Error),
        cache_index::stale_word("timeout"@) == Some(StaleWhen::Timeout),
        cache_index::stale_word("invalid_header"@) == Some(StaleWhen::InvalidHeader),
        cache_index::stale_word("updating"@) == Some(StaleWhen::Updating),
        bytes::utf8(s) == bytes::utf8("http_"@) + bytes::decimal(n as nat)
            ==> cache_index::stale_word(s) == Some(StaleWhen::Status(n)),
{
    let p = bytes::utf8("http_"@);
    let five = seq![104u8, 116u8, 116u8, 112u8, 95u8];
    bytes::lemma_ascii_text(five);
    reveal_strlit("http_");
    assert(bytes::ascii_text(five) =~= "http_"@);
    reveal_strlit("error");
    reveal_strlit("timeout");
    reveal_strlit("invalid_header");
    reveal_strlit("updating");
    assert("timeout"@[0] != "error"@[0]);
    assert("invalid_header"@[0] != "error"@[0] && "invalid_header"@[0] != "timeout"@[0]);
    assert("updating"@[0] != "error"@[0] && "updating"@[0] != "timeout"@[0] && "updating"@[0]
        != "invalid_header"@[0]);
    if bytes::utf8(s) == p + bytes::decimal(n as nat) {
        let b = bytes::utf8(s);
        bytes::lemma_decimal(n as nat);
        assert(b[0] == 104);
        lemma_first_byte("error"@, 101);
        lemma_first_byte("timeout"@, 116);
        lemma_first_byte("invalid_header"@, 105);
        lemma_first_byte("updating"@, 117);
        assert(b.subrange(0, 5) =~= p);
        assert(b.subrange(5, b.len() as int) =~= bytes::decimal(n as nat));
    }
}

proof fn lemma_first_byte(t: Seq<char>, b: u8)
    requires
        vstd::utf8::is_ascii_chars(t),
        t.len() > 0,
        t[0] as u32 == b as u32,
    ensures
        bytes::utf8(t)[0] == b,
{
    bytes::lemma_ascii_len(t);
    let s = Seq::new(t.len(), |i: int| t[i] as u8);
    assert(bytes::is_ascii(s)) by {
        assert forall|i: int| 0 <= i < s.len() implies s[i] < 128 by {
            assert('\0' <= t[i] <= '\u{7f}');
        }
    }
    bytes::lemma_ascii_text(s);
    assert(bytes::ascii_text(s) =~= t) by {
        assert forall|i: int| 0 <= i < t.len() implies bytes::ascii_text(s)[i] == t[i] by {
            assert('\0' <= t[i] <= '\u{7f}');
        }
    }
}

// ---------------------------------------------------------------- the manager

/// An entry is idle once it was not used for longer than `inactive`; without that nothing
/// ever is.
pub proof fn law_entries_fall_idle(e: OnDisk, now: u64, inactive: u64)
    ensures
        cache_manager::is_idle(e, now, inactive) <==> inactive > 0 && now > e.mtime + inactive,
{
}

/// A cache that is too large is brought back to nine tenths of its size.
pub proof fn law_a_tenth_is_made_free(max_size: u64)
    ensures
        10 * cache_manager::trim_target(max_size as int) >= 9 * max_size,
        10 * cache_manager::trim_target(max_size as int) < 9 * max_size + 10,
        cache_manager::trim_target(max_size as int) <= max_size,
{
}

/// What is on disk is counted in full.
pub proof fn law_sizes_are_summed(found: Seq<OnDisk>, e: OnDisk)
    ensures
        cache_manager::total(found.push(e)) == cache_manager::total(found) + e.size,
        cache_manager::total(Seq::empty()) == 0,
{
    assert(found.push(e).drop_last() =~= found);
}

// ---------------------------------------------------------------- open files

/// A kept result that is too old, or was not used for too long, is looked at again; a fresh
/// one is not.
pub proof fn law_old_results_are_looked_at_again<F>(
    es: Seq<EntryView<F>>,
    path: Seq<u8>,
    p: OpenFileCache,
    now: u64,
    found: Cached<F>,
    k: int,
)
    requires
        p.enabled,
        0 <= k < es.len(),
        es[k].path == path,
        forall|j: int| 0 <= j < k ==> (#[trigger] es[j]).path != path,
    ensures
        fcache::looked_up(es, path, p, now, found).1 == if now - es[k].checked > p.valid || now
            - es[k].last_used > p.inactive {
            found
        } else {
            es[k].val
        },
{
    lemma_kept_place(es, path, 0, k);
}

proof fn lemma_kept_place<F>(es: Seq<EntryView<F>>, path: Seq<u8>, i: int, k: int)
    requires
        0 <= i <= k <= es.len(),
        k < es.len() ==> es[k].path == path,
        forall|j: int| i <= j < k ==> (#[trigger] es[j]).path != path,
    ensures
        fcache::place(es, path, i) == k,
    decreases k - i,
{
    if i < k {
        assert(es[i].path != path);
        lemma_kept_place(es, path, i + 1, k);
    }
}

/// A result that is used counts one use more, at its time; every other stays as it is.
pub proof fn law_uses_are_counted<F>(
    es: Seq<EntryView<F>>,
    path: Seq<u8>,
    p: OpenFileCache,
    now: u64,
    k: int,
    j: int,
)
    requires
        p.enabled,
        0 <= k < es.len(),
        es[k].path == path,
        forall|i: int| 0 <= i < k ==> (#[trigger] es[i]).path != path,
        now - es[k].checked <= p.valid,
        now - es[k].last_used <= p.inactive,
        es[k].uses < u32::MAX,
        0 <= j < es.len(),
    ensures
        ({
            let after = fcache::after_get(es, path, p, now);
            &&& after.len() == es.len()
            &&& after[k] == (EntryView { last_used: now, uses: (es[k].uses + 1) as u32, ..es[k] })
            &&& j != k ==> after[j] == es[j]
        }),
{
    lemma_kept_place(es, path, 0, k);
}

/// One entry goes before another: those used too seldom first, and among them, and among the
/// others, those used longest ago.
pub open spec fn goes_before<F>(a: EntryView<F>, b: EntryView<F>, min_uses: u32) -> bool {
    if a.uses < min_uses && b.uses >= min_uses {
        true
    } else if a.uses >= min_uses && b.uses < min_uses {
        false
    } else {
        a.last_used < b.last_used
    }
}

/// What makes room is what is worth least; nothing is kept that goes before it.
pub proof fn law_the_least_worth_makes_room<F>(es: Seq<EntryView<F>>, min_uses: u32, n: int, j: int)
    requires
        0 < n <= es.len(),
        0 <= j < n,
    ensures
        0 <= fcache::victim(es, min_uses, n) < n,
        !goes_before(es[j], es[fcache::victim(es, min_uses, n)], min_uses),
    decreases n,
{
    if n > 1 {
        let v = fcache::victim(es, min_uses, n - 1);
        if j < n - 1 {
            law_the_least_worth_makes_room(es, min_uses, n - 1, j);
        } else {
            law_the_least_worth_makes_room(es, min_uses, n - 1, 0);
        }
    }
}

/// A full cache makes room for a tenth of it, and for one entry at least.
pub proof fn law_a_tenth_makes_room(max: usize)
    ensures
        max >= 10 ==> fcache::eviction_size(max) == max as int / 10,
        max < 10 ==> fcache::eviction_size(max) == 1,
{
}

/// A new result is kept with its time and one use.
pub proof fn law_new_results_are_kept<F>(
    es: Seq<EntryView<F>>,
    path: Seq<u8>,
    val: Cached<F>,
    p: OpenFileCache,
    now: u64,
)
    requires
        p.enabled,
        !(val is Error) || p.errors,
        es.len() < p.max,
        forall|j: int| 0 <= j < es.len() ==> (#[trigger] es[j]).path != path,
    ensures
        fcache::after_put(es, path, val, p, now) == es.push(
            EntryView { path, val, checked: now, last_used: now, uses: 1 },
        ),
{
    lemma_kept_place(es, path, 0, es.len() as int);
}

/// The oldest goes first, and of equally old ones the first that was found.
pub proof fn law_the_oldest_goes_first(found: Seq<OnDisk>, left: Seq<int>, n: int, j: int)
    requires
        0 < n <= left.len(),
        0 <= j < n,
    ensures
        ({
            let p = cache_manager::oldest(found, left, n);
            &&& 0 <= p < n
            &&& found[left[p]].mtime <= found[left[j]].mtime
            &&& j < p ==> found[left[p]].mtime < found[left[j]].mtime
        }),
    decreases n,
{
    if n > 1 {
        if j < n - 1 {
            law_the_oldest_goes_first(found, left, n - 1, j);
        } else {
            law_the_oldest_goes_first(found, left, n - 1, 0);
        }
        let q = cache_manager::oldest(found, left, n - 1);
        if j < n - 1 && cache_manager::oldest(found, left, n) == n - 1 {
            assert(found[left[n - 1]].mtime < found[left[q]].mtime);
        }
    }
}

/// A cache within its size is left alone.
pub proof fn law_a_cache_within_its_size_is_left_alone(
    zone: &cache_index::Zone,
    now: u64,
    found: Seq<OnDisk>,
    idle_ok: Seq<bool>,
    trim_ok: Seq<bool>,
)
    requires
        zone.max_size == 0 || cache_manager::bytes_left(
            found,
            now,
            zone.inactive,
            idle_ok,
            found.len() as int,
        ) <= zone.max_size,
    ensures
        cache_manager::oversize(zone, now, found, idle_ok, trim_ok).len() == 0,
{
}

/// An entry is fresh until the second it expires at.
pub proof fn law_entries_expire(expires: u64, now: u64)
    ensures
        now < expires ==> cache::fresh_at(expires, now) == cache::CacheStatus::Hit,
        now >= expires ==> cache::fresh_at(expires, now) == cache::CacheStatus::Expired,
{
}

} // verus!
