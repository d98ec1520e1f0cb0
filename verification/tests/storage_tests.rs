use kademlia::storage::Store;
use kademlia::storage::STALE_NANOS;

#[test]
fn upsert() {
    let mut store = Store::<usize, usize>::new();
    store.upsert(0, 0);
    assert_eq!(store.get(&0).unwrap().0, 0);
    // store.upsert(0, 0);
}

#[test]
fn stale_is_twenty_four_hours() {
    assert_eq!(STALE_NANOS, 24 * 60 * 60 * 1_000_000_000);
}

#[test]
fn get_gives_the_value_and_its_time() {
    let mut store = Store::<String, String>::new();
    assert_eq!(store.get(&"hello".to_string()), None);
    store.upsert_at("hello".to_string(), "world".to_string(), 17);
    assert_eq!(store.get(&"hello".to_string()), Some(("world".to_string(), 17)));
    assert_eq!(store.get(&"hell".to_string()), None);
    store.upsert_at("hello".to_string(), "there".to_string(), 40);
    assert_eq!(store.get(&"hello".to_string()), Some(("there".to_string(), 40)));
}

#[test]
fn upsert_stamps_with_the_clock() {
    let mut store = Store::<u64, String>::new();
    let before = store.now();
    let at = store.upsert(5, "five".to_string());
    let after = store.now();
    assert!(before <= at && at <= after);
    assert_eq!(store.get(&5), Some(("five".to_string(), at)));
    let again = store.upsert(5, "cinq".to_string());
    assert!(again >= at);
    assert_eq!(store.get(&5), Some(("cinq".to_string(), again)));
}

#[test]
fn sweep_removes_what_is_stale() {
    let mut store = Store::<usize, usize>::new();
    let now = 10 * STALE_NANOS;
    store.upsert_at(1, 10, now - STALE_NANOS - 1);
    store.upsert_at(2, 20, now - STALE_NANOS);
    store.upsert_at(3, 30, now - STALE_NANOS + 1);
    store.upsert_at(4, 40, now);
    store.upsert_at(5, 50, 0);
    store.upsert_at(6, 60, now + 5);
    store.remove_stale_at(now);
    assert_eq!(store.get(&1), None);
    assert_eq!(store.get(&2), None);
    assert_eq!(store.get(&3), Some((30, now - STALE_NANOS + 1)));
    assert_eq!(store.get(&4), Some((40, now)));
    assert_eq!(store.get(&5), None);
    assert_eq!(store.get(&6), Some((60, now + 5)));
    for k in 0..10usize {
        if let Some((_, t)) = store.get(&k) {
            assert!(now.saturating_sub(t) < STALE_NANOS);
        }
    }
    store.remove_stale_at(now + STALE_NANOS + 5);
    for k in 0..10usize {
        assert_eq!(store.get(&k), None);
    }
}

#[test]
fn a_new_write_refreshes_the_age() {
    let mut store = Store::<usize, usize>::new();
    store.upsert_at(1, 10, 0);
    store.upsert_at(1, 11, STALE_NANOS);
    store.remove_stale_at(STALE_NANOS + 1);
    assert_eq!(store.get(&1), Some((11, STALE_NANOS)));
}

#[test]
fn sweep_by_the_clock_keeps_what_was_just_written() {
    let mut store = Store::<String, String>::new();
    store.upsert("k".to_string(), "v".to_string());
    let now = store.remove_stale();
    let (v, t) = store.get(&"k".to_string()).unwrap();
    assert_eq!(v, "v");
    assert!(t <= now);
}

#[test]
fn the_time_to_live_can_be_chosen() {
    let mut store = Store::<usize, usize>::with_ttl(10);
    store.upsert_at(1, 1, 100);
    store.upsert_at(2, 2, 105);
    store.upsert_at(3, 3, 120);
    store.remove_stale_at(110);
    assert_eq!(store.get(&1), None);
    assert_eq!(store.get(&2), Some((2, 105)));
    assert_eq!(store.get(&3), Some((3, 120)));
    store.remove_stale_at(115);
    assert_eq!(store.get(&2), None);
    assert_eq!(store.get(&3), Some((3, 120)));
}

#[test]
fn with_no_time_to_live_everything_is_stale() {
    let mut store = Store::<usize, usize>::with_ttl(0);
    store.upsert_at(1, 1, 100);
    store.upsert_at(2, 2, 50);
    store.remove_stale_at(60);
    assert_eq!(store.get(&1), None);
    assert_eq!(store.get(&2), None);
}
