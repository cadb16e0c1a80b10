use oxiserve::cache::{decode_entry, encode_entry, freshness, CacheStatus, DecodeError, KeyHash};
use oxiserve::cache_index::{
    is_locked, load, note_load, note_use, release, store, stale_allowed, tracked_count, try_lock,
    Fetching, Index, StaleWhen, Zone,
};
use oxiserve::cache_manager::{is_temporary, needs_touch, ManagerStats, OnDisk, Pass};
use std::cell::RefCell;

const NOW: u64 = 1_700_000_000;

fn hdrs() -> Vec<(String, String)> {
    vec![
        ("Content-Type".into(), "text/html".into()),
        ("X-Origin".into(), "backend-1".into()),
    ]
}

#[test]
fn entry_round_trips() {
    let e = encode_entry("k1", 200, &hdrs(), b"<h1>hi</h1>", 60, NOW);
    let d = decode_entry(&e, "k1").unwrap();
    assert_eq!(d.status, 200);
    assert_eq!(d.body, b"<h1>hi</h1>");
    assert_eq!(d.headers, hdrs());
    assert!(d.expires > d.created);
}

#[test]
fn an_empty_body_round_trips() {
    let e = encode_entry("k", 204, &[], b"", 10, NOW);
    let d = decode_entry(&e, "k").unwrap();
    assert_eq!(d.status, 204);
    assert!(d.body.is_empty());
    assert!(d.headers.is_empty());
}

#[test]
fn a_different_key_is_refused() {
    // The check that makes a non-cryptographic digest safe: without it a
    // collision would serve one URL's response for another.
    let e = encode_entry("/a", 200, &hdrs(), b"page A", 60, NOW);
    assert_eq!(decode_entry(&e, "/b"), Err(DecodeError::KeyMismatch));
    assert!(decode_entry(&e, "/a").is_ok());
}

#[test]
fn truncated_entries_are_rejected_at_every_length() {
    let e = encode_entry("k", 200, &hdrs(), b"body", 60, NOW);
    for cut in 0..e.len() {
        assert!(decode_entry(&e[..cut], "k").is_err(), "a {cut}-byte prefix must not decode");
    }
    assert!(decode_entry(&e, "k").is_ok());
}

#[test]
fn absurd_lengths_do_not_overflow_or_read_out_of_bounds() {
    // A corrupt entry claiming a body of nearly u64::MAX.
    let mut e = encode_entry("k", 200, &[], b"x", 1, NOW);
    e[29..37].copy_from_slice(&u64::MAX.to_be_bytes());
    assert_eq!(decode_entry(&e, "k"), Err(DecodeError::Truncated));

    // The same through each length field.
    let mut e2 = encode_entry("k", 200, &[], b"x", 1, NOW);
    e2[25..29].copy_from_slice(&u32::MAX.to_be_bytes());
    assert!(decode_entry(&e2, "k").is_err());

    let mut e3 = encode_entry("k", 200, &[], b"x", 1, NOW);
    e3[23..25].copy_from_slice(&u16::MAX.to_be_bytes());
    assert!(decode_entry(&e3, "k").is_err());
}

#[test]
fn foreign_files_are_not_mistaken_for_entries() {
    assert_eq!(
        decode_entry(b"not a cache entry at all!!!!!!!!!!!!!!", "k"),
        Err(DecodeError::NotAnEntry)
    );
    let mut e = encode_entry("k", 200, &[], b"x", 1, NOW);
    e[4] = 99; // a version we do not speak
    assert_eq!(decode_entry(&e, "k"), Err(DecodeError::NotAnEntry));
}

#[test]
fn key_hash_is_stable_and_distinct() {
    assert_eq!(KeyHash::of("/a"), KeyHash::of("/a"));
    assert_ne!(KeyHash::of("/a"), KeyHash::of("/b"));
    assert_eq!(KeyHash::of("/a").to_hex().len(), 32);
}

#[test]
fn levels_split_the_path_like_nginx() {
    let h = KeyHash(0x0123456789abcdef, 0xfedcba9876543210);
    let hex = h.to_hex();
    let s = String::from_utf8(h.path("/cache", &[1, 2])).unwrap();
    // Level digits come from the end of the hash.
    let last = &hex[hex.len() - 1..];
    let prev2 = &hex[hex.len() - 3..hex.len() - 1];
    assert_eq!(s, format!("/cache/{last}/{prev2}/{hex}"), "got {s}");
}

#[test]
fn no_levels_puts_everything_in_one_directory() {
    let h = KeyHash::of("k");
    let p = h.path("/c", &[]);
    assert_eq!(p, format!("/c/{}", h.to_hex()).into_bytes());
}

#[test]
fn expiry_is_recorded_from_the_ttl() {
    let e = encode_entry("k", 200, &[], b"x", 30, NOW);
    let d = decode_entry(&e, "k").unwrap();
    assert_eq!(d.expires - d.created, 30);
}

#[test]
fn an_expired_entry_loads_as_expired() {
    // A zero lifetime is already over.
    let d = decode_entry(&encode_entry("/old", 200, &[], b"stale", 0, NOW), "/old").unwrap();
    assert_eq!(freshness(d.expires, NOW), CacheStatus::Expired);
}

#[test]
fn an_entry_is_a_hit_until_it_expires() {
    assert_eq!(freshness(NOW + 1, NOW), CacheStatus::Hit);
    assert_eq!(freshness(NOW, NOW), CacheStatus::Expired);
    assert_eq!(CacheStatus::Hit.as_str(), "HIT");
    assert_eq!(CacheStatus::Expired.as_str(), "EXPIRED");
}

#[test]
fn the_digest_of_a_key_is_two_fnv_sums() {
    // FNV-1a of "a" from the usual offset.
    assert_eq!(KeyHash::of("").0, 0xcbf29ce484222325);
    assert_eq!(KeyHash::of("a").0, 0xaf63dc4c8601ec8c);
    assert_eq!(
        KeyHash(0x0123456789abcdef, 0xfedcba9876543210).to_hex(),
        "0123456789abcdeffedcba9876543210"
    );
}

#[test]
fn an_entry_has_a_fixed_layout() {
    let e = encode_entry("k", 404, &[("A".into(), "b".into())], b"xy", 5, 1);
    assert_eq!(&e[..5], b"OXCH\x01");
    assert_eq!(&e[5..7], &404u16.to_be_bytes());
    assert_eq!(&e[7..15], &1u64.to_be_bytes());
    assert_eq!(&e[15..23], &6u64.to_be_bytes());
    assert_eq!(&e[23..25], &1u16.to_be_bytes());
    assert_eq!(&e[29..37], &2u64.to_be_bytes());
    assert_eq!(e[37], b'k');
    assert!(e.ends_with(b"xy"));
}

// ---------------------------------------------------------------- the manager

fn mkzone(name: &str, max_size: u64, inactive_secs: u64) -> Zone {
    Zone {
        name: name.into(),
        root: "/nonexistent".into(),
        levels: vec![1, 2],
        max_entries: 1000,
        max_size,
        inactive: inactive_secs,
    }
}

fn aged(size: u64, age_secs: u64) -> OnDisk {
    OnDisk { size, mtime: NOW - age_secs }
}

/// Runs a pass to its end; `remove` says whether a removal works.
fn manager_pass(
    zone: &Zone,
    now: u64,
    found: &[OnDisk],
    removed_temp: usize,
    mut remove: impl FnMut(usize) -> bool,
) -> ManagerStats {
    let (mut pass, mut next) = Pass::start(zone, now, found.to_vec(), removed_temp);
    while let Some(i) = next {
        next = pass.next(remove(i));
    }
    pass.stats()
}

#[test]
fn manager_removes_entries_past_inactive() {
    let z = mkzone("inactive", 0, 100);
    let found = vec![aged(3, 10), aged(3, 500)];
    let gone: RefCell<Vec<usize>> = RefCell::new(Vec::new());
    let st = manager_pass(&z, NOW, &found, 0, |i| {
        gone.borrow_mut().push(i);
        true
    });
    assert_eq!(st.removed_inactive, 1, "only the stale entry should go");
    assert_eq!(*gone.borrow(), vec![1], "fresh must survive, stale must be gone");
    assert_eq!(st.bytes, 3);
    assert_eq!(st.entries, 1);
}

#[test]
fn manager_trims_to_max_size_oldest_first() {
    // Ten 10 KB entries against a 50 KB cap. The first is the oldest.
    let z = mkzone("maxsize", 50 * 1024, 0);
    let found: Vec<OnDisk> = (0..10).map(|i| aged(10 * 1024, (10 - i) * 10)).collect();
    let gone: RefCell<Vec<usize>> = RefCell::new(Vec::new());
    let st = manager_pass(&z, NOW, &found, 0, |i| {
        gone.borrow_mut().push(i);
        true
    });
    assert!(st.removed_oversize > 0, "must remove something to fit");
    assert!(st.bytes <= 50 * 1024, "must end under max_size, got {}", st.bytes);
    assert!(!gone.borrow().contains(&9), "newest must survive");
    assert!(gone.borrow().contains(&0), "oldest must be evicted first");
    // Down to nine tenths of the limit: four entries stay.
    assert_eq!(*gone.borrow(), vec![0, 1, 2, 3, 4, 5]);
    assert_eq!(st.entries, 4);
}

#[test]
fn manager_trims_in_order_of_age_not_of_discovery() {
    let z = mkzone("order", 100, 0);
    let found = vec![aged(50, 10), aged(50, 30), aged(50, 20)];
    let gone: RefCell<Vec<usize>> = RefCell::new(Vec::new());
    manager_pass(&z, NOW, &found, 0, |i| {
        gone.borrow_mut().push(i);
        true
    });
    assert_eq!(*gone.borrow(), vec![1, 2]);
}

#[test]
fn manager_keeps_counting_what_it_cannot_remove() {
    let z = mkzone("stuck", 0, 100);
    let st = manager_pass(&z, NOW, &vec![aged(7, 500)], 0, |_| false);
    assert_eq!(st.removed_inactive, 0);
    assert_eq!(st.entries, 1);
    assert_eq!(st.bytes, 7);
}

#[test]
fn manager_leaves_a_cache_under_the_limit_alone() {
    let z = mkzone("under", 10 * 1024 * 1024, 0);
    let found: Vec<OnDisk> = (0..5).map(|_| aged(5, 5)).collect();
    let st = manager_pass(&z, NOW, &found, 0, |_| panic!("nothing should be removed"));
    assert_eq!(st.removed_oversize, 0);
    assert_eq!(st.removed_inactive, 0);
    assert_eq!(st.entries, 5, "nothing should be touched");
}

#[test]
fn manager_cleans_up_temp_files_from_interrupted_writes() {
    // A crash between write and rename leaves a temp file that nothing else
    // will ever claim.
    assert!(is_temporary(b"tmp99999"));
    assert!(!is_temporary(b"html"));
    let z = mkzone("temp", 0, 0);
    let st = manager_pass(&z, NOW, &vec![aged(2, 1)], 1, |_| panic!("real entries untouched"));
    assert_eq!(st.removed_temp, 1, "the temp file must be reaped");
}

#[test]
fn manager_on_an_empty_or_missing_directory_is_harmless() {
    let z = mkzone("empty", 1024, 60);
    let st = manager_pass(&z, NOW, &vec![], 0, |_| true);
    assert_eq!(st, ManagerStats::default());
    assert_eq!(st.entries, 0);
}

#[test]
fn a_pass_asks_for_the_idle_first_and_then_for_the_oldest() {
    let z = mkzone("both", 100, 100);
    let found = vec![aged(40, 20), aged(9, 500), aged(40, 30), aged(9, 101), aged(40, 10)];
    let (mut pass, first) = Pass::start(&z, NOW, found, 0);
    assert_eq!(first, Some(1));
    assert_eq!(pass.next(true), Some(3));
    // 120 bytes are left: down to 90.
    assert_eq!(pass.next(true), Some(2));
    assert_eq!(pass.next(true), None);
    assert_eq!(
        pass.stats(),
        ManagerStats { entries: 2, bytes: 80, removed_inactive: 2, removed_oversize: 1, removed_temp: 0 }
    );
    assert_eq!(pass.next(true), None, "a pass that is over asks for nothing more");
}

#[test]
fn a_removal_that_fails_moves_on_to_the_next_oldest() {
    let z = mkzone("failing", 100, 0);
    let found = vec![aged(60, 30), aged(60, 20), aged(60, 10)];
    let mut asked = Vec::new();
    let st = manager_pass(&z, NOW, &found, 2, |i| {
        asked.push(i);
        i != 0
    });
    assert_eq!(asked, vec![0, 1, 2]);
    assert_eq!(
        st,
        ManagerStats { entries: 1, bytes: 60, removed_inactive: 0, removed_oversize: 2, removed_temp: 2 }
    );
}

#[test]
fn an_idle_entry_that_stays_counts_towards_the_size() {
    let z = mkzone("idle", 100, 100);
    let found = vec![aged(80, 500), aged(80, 10)];
    let mut asked = Vec::new();
    let st = manager_pass(&z, NOW, &found, 0, |i| {
        asked.push(i);
        asked.len() > 1
    });
    assert_eq!(asked, vec![0, 0]);
    assert_eq!((st.entries, st.bytes), (1, 80));
}

#[test]
fn a_hit_refreshes_an_old_timestamp_only() {
    assert!(!needs_touch(NOW, NOW - 59));
    assert!(needs_touch(NOW, NOW - 60));
    assert!(!needs_touch(NOW, NOW + 5));
}

// ---------------------------------------------------------------- the index

#[test]
fn min_uses_counting() {
    let mut index = Index::new();
    let zone = mkzone("counting", 0, 60);
    let h = KeyHash::of("/counted");
    assert_eq!(note_use(&mut index, &zone, h, NOW), 1);
    assert_eq!(note_use(&mut index, &zone, h, NOW), 2);
    assert_eq!(note_use(&mut index, &zone, h, NOW), 3);
    // A different key counts separately.
    assert_eq!(note_use(&mut index, &zone, KeyHash::of("/other"), NOW), 1);
}

#[test]
fn the_index_stays_bounded() {
    let mut index = Index::new();
    let mut zone = mkzone("bounded", 0, 60);
    zone.max_entries = 32;
    for i in 0..500 {
        note_use(&mut index, &zone, KeyHash::of(&format!("/k{i}")), NOW);
    }
    // Counting a use does not evict; storing does. What matters here is that
    // the counter is per key and does not corrupt.
    assert!(tracked_count(&index, "bounded") > 0);
}

#[test]
fn storing_evicts_the_least_recently_used() {
    let mut index = Index::new();
    let mut zone = mkzone("evicting", 0, 60);
    zone.max_entries = 4;
    for i in 0..4u64 {
        store(&mut index, &zone, KeyHash(i, i), 10, NOW + i);
    }
    assert_eq!(tracked_count(&index, "evicting"), 4);
    store(&mut index, &zone, KeyHash(9, 9), 10, NOW + 9);
    assert!(tracked_count(&index, "evicting") <= 4);
    assert!(index.get("evicting", KeyHash(9, 9)).is_some());
    assert!(index.get("evicting", KeyHash(0, 0)).is_none());
}

#[test]
fn a_full_index_gives_up_a_tenth_of_what_it_holds() {
    let mut index = Index::new();
    let mut zone = mkzone("tenth", 0, 60);
    zone.max_entries = 20;
    for i in 0..40u64 {
        note_use(&mut index, &zone, KeyHash(i, i), NOW + i);
    }
    assert_eq!(tracked_count(&index, "tenth"), 40);
    store(&mut index, &zone, KeyHash(99, 99), 10, NOW + 99);
    // A tenth of the forty, though the zone is made for twenty.
    assert_eq!(tracked_count(&index, "tenth"), 37);
    assert!(index.get("tenth", KeyHash(3, 3)).is_none());
    assert!(index.get("tenth", KeyHash(4, 4)).is_some());
}

#[test]
fn loading_records_what_is_on_disk() {
    let mut index = Index::new();
    let zone = mkzone("loading", 0, 60);
    let h = KeyHash::of("/x");
    note_use(&mut index, &zone, h, NOW);
    note_load(&mut index, &zone, h, NOW + 60, 123);
    let e = index.get("loading", h).unwrap();
    assert_eq!(e.expires, NOW + 60);
    assert_eq!(e.size, 123);
    assert_eq!(e.uses, 1);
}

#[test]
fn a_file_is_an_entry_of_its_key_or_none() {
    let mut index = Index::new();
    let zone = mkzone("files", 0, 60);
    let h = KeyHash::of("/x");
    let file = encode_entry("/x", 200, &hdrs(), b"body", 60, NOW);
    let (d, status) = load(&mut index, &zone, "/x", h, &file, NOW + 59).unwrap();
    assert_eq!(d.body, b"body");
    assert_eq!(status, CacheStatus::Hit);
    assert!(index.get("files", h).is_none(), "a name nobody asked for stays unknown");
    note_use(&mut index, &zone, h, NOW);
    let (_, status) = load(&mut index, &zone, "/x", h, &file, NOW + 60).unwrap();
    assert_eq!(status, CacheStatus::Expired);
    let e = index.get("files", h).unwrap();
    assert_eq!((e.expires, e.size), (NOW + 60, file.len() as u64));
    assert!(load(&mut index, &zone, "/y", h, &file, NOW).is_none());
    assert!(load(&mut index, &zone, "/x", h, b"garbage", NOW).is_none());
}

// ---------------------------------------------------------------- the lock

#[test]
fn only_one_holder_at_a_time() {
    let mut f = Fetching::new();
    let k = KeyHash::of("/contended");
    let first = try_lock(&mut f, "z", k).expect("first caller wins");
    assert!(try_lock(&mut f, "z", k).is_none(), "second caller must be refused");
    assert!(is_locked(&f, "z", k));
    release(&mut f, first);
    assert!(!is_locked(&f, "z", k), "releasing must clear the lock");
    assert!(try_lock(&mut f, "z", k).is_some(), "and let the next caller through");
}

#[test]
fn locks_are_per_key_and_per_zone() {
    let mut f = Fetching::new();
    let a = try_lock(&mut f, "z", KeyHash::of("/a")).unwrap();
    // A different key in the same zone is unaffected.
    let b = try_lock(&mut f, "z", KeyHash::of("/b")).unwrap();
    // As is the same key in a different zone.
    let c = try_lock(&mut f, "other", KeyHash::of("/a")).unwrap();
    release(&mut f, a);
    assert!(is_locked(&f, "z", KeyHash::of("/b")));
    assert!(is_locked(&f, "other", KeyHash::of("/a")));
    release(&mut f, b);
    release(&mut f, c);
}

#[test]
fn a_dropped_lock_cannot_deadlock_the_key() {
    // A fetch that fails must not leave the key locked forever.
    let mut f = Fetching::new();
    let k = KeyHash::of("/failing");
    {
        let l = try_lock(&mut f, "z", k).unwrap();
        // ...the fetch fails here and the caller gives up.
        release(&mut f, l);
    }
    assert!(!is_locked(&f, "z", k), "an early return must still release");
}

#[test]
fn stale_conditions_parse() {
    assert_eq!(StaleWhen::parse("error"), Some(StaleWhen::Error));
    assert_eq!(StaleWhen::parse("timeout"), Some(StaleWhen::Timeout));
    assert_eq!(StaleWhen::parse("updating"), Some(StaleWhen::Updating));
    assert_eq!(StaleWhen::parse("http_503"), Some(StaleWhen::Status(503)));
    assert_eq!(StaleWhen::parse("off"), None);
    assert_eq!(StaleWhen::parse("nonsense"), None);
}

#[test]
fn stale_conditions_parse_at_the_edges() {
    assert_eq!(StaleWhen::parse("invalid_header"), Some(StaleWhen::InvalidHeader));
    assert_eq!(StaleWhen::parse("http_65535"), Some(StaleWhen::Status(65535)));
    assert_eq!(StaleWhen::parse("http_65536"), None);
    assert_eq!(StaleWhen::parse("http_"), None);
    assert_eq!(StaleWhen::parse("http_+5"), Some(StaleWhen::Status(5)));
}

#[test]
fn stale_matching_is_exact() {
    let conds = vec![StaleWhen::Error, StaleWhen::Status(503)];
    assert!(stale_allowed(&conds, StaleWhen::Error));
    assert!(stale_allowed(&conds, StaleWhen::Status(503)));
    // A condition that was not listed must not open the door.
    assert!(!stale_allowed(&conds, StaleWhen::Timeout));
    assert!(!stale_allowed(&conds, StaleWhen::Status(500)));
    assert!(!stale_allowed(&[], StaleWhen::Error), "empty means never");
}
