use oxiserve::limit_conn::{decrement, increment, Zone};
use oxiserve::shm::{slot_count, Shared};

fn zone(entries: usize) -> Zone {
    Zone::new("z", entries, 0x5eed)
}

#[test]
fn a_lone_request_is_admitted() {
    let mut z = zone(1000);
    let g = z.acquire("1.1.1.1", 1);
    assert!(g.is_some());
    assert_eq!(z.count("1.1.1.1"), 1);
}

#[test]
fn the_limit_is_the_number_admitted_at_once() {
    let mut z = zone(1000);
    let held: Vec<_> = (0..3).map(|_| z.acquire("k", 3)).collect();
    assert!(held.iter().all(|g| g.is_some()), "3 concurrent under limit 3");
    assert!(z.acquire("k", 3).is_none(), "the fourth must be refused");
    assert_eq!(z.count("k"), 3);
}

#[test]
fn a_finished_request_frees_its_slot() {
    let mut z = zone(1000);
    let g = z.acquire("k", 1).expect("first admitted");
    assert!(z.acquire("k", 1).is_none(), "at the limit while the first is live");
    z.release(g);
    assert_eq!(z.count("k"), 0, "the count must come back down");
    assert!(z.acquire("k", 1).is_some(), "and the next request goes through");
}

#[test]
fn keys_do_not_share_a_budget() {
    let mut z = zone(1000);
    let _a = z.acquire("1.1.1.1", 1).expect("first client admitted");
    assert!(z.acquire("1.1.1.1", 1).is_none());
    assert!(z.acquire("2.2.2.2", 1).is_some(), "a second client is unaffected");
}

#[test]
fn releases_are_exact_over_many_cycles() {
    // The failure this guards against is a slow leak: any drift between
    // increment and decrement eventually locks a key out for good.
    let mut z = zone(1000);
    for _ in 0..10_000 {
        let a = z.acquire("k", 2).expect("under the limit");
        let b = z.acquire("k", 2).expect("at the limit");
        assert!(z.acquire("k", 2).is_none());
        z.release(a);
        z.release(b);
        assert_eq!(z.count("k"), 0);
    }
}

#[test]
fn a_full_window_refuses_rather_than_evicting_a_live_key() {
    // Fill the table with keys that are all still in flight, then check
    // that the holder of a slot keeps its count intact.
    let mut z = zone(64);
    let mut held = Vec::new();
    for i in 0..1000 {
        if let Some(g) = z.acquire(&format!("key{i}"), 1) {
            held.push((format!("key{i}"), g));
        }
    }
    assert!(!held.is_empty());
    assert!(z.active() <= 64, "active {} exceeds the table", z.active());
    for (k, _) in &held {
        assert_eq!(z.count(k), 1, "key {k} lost its count to an eviction");
    }
}

#[test]
fn a_finished_key_gives_its_slot_to_a_newcomer() {
    // The counterpart to the test above: zero-count entries must not
    // permanently occupy the table, or a long-running server would stop
    // limiting new keys entirely.
    let mut z = zone(64);
    for i in 0..1000 {
        if let Some(g) = z.acquire(&format!("key{i}"), 1) {
            z.release(g);
        }
    }
    assert_eq!(z.active(), 0);
    let g = z.acquire("fresh", 1);
    assert!(g.is_some(), "a table of finished keys must still admit a new one");
    assert_eq!(z.count("fresh"), 1);
}

#[test]
fn a_word_counts_up_and_down() {
    let one = increment(0, 7, 2).unwrap();
    let two = increment(one, 7, 2).unwrap();
    assert_eq!(increment(two, 7, 2), None, "at the limit");
    assert_eq!(decrement(two, 7), Some(one));
    assert_eq!(decrement(one, 8), None, "another key's word is left alone");
    assert_eq!(increment(0, 7, 0), None, "a limit of nothing admits nobody");
}

#[test]
fn a_zone_counts_in_memory_that_is_handed_to_it() {
    let mem = Shared::new(slot_count(64));
    let mut z = Zone::with_memory("z", 64, 7, mem);
    let first = z.acquire("k", 1);
    assert!(first.is_some());
    assert!(z.acquire("k", 1).is_none());
    assert_eq!(z.count("k"), 1);
    if let Some(g) = first {
        z.release(g);
    }
    assert_eq!(z.count("k"), 0);
    assert_eq!(z.active(), 0);
}

#[test]
fn a_limit_of_zero_admits_nobody() {
    let mut z = zone(1000);
    assert!(z.acquire("k", 0).is_none());
    assert_eq!(z.count("k"), 0);
    let g = z.acquire("k", 1).expect("the key is not held");
    assert!(z.acquire("k", 0).is_none());
    assert_eq!(z.count("k"), 1);
    z.release(g);
    assert_eq!(z.count("k"), 0);
}

#[test]
fn a_key_counts_exactly_its_live_guards() {
    let mut z = zone(1000);
    let a = z.acquire("a", 9).expect("admitted");
    let b = z.acquire("b", 9).expect("admitted");
    let c = z.acquire("a", 9).expect("admitted");
    assert_eq!((z.count("a"), z.count("b")), (2, 1));
    z.release(a);
    assert_eq!((z.count("a"), z.count("b")), (1, 1));
    z.release(b);
    z.release(c);
    assert_eq!((z.count("a"), z.count("b")), (0, 0));
}
