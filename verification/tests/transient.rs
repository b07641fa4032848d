use std::cell::Cell;
use transient_hashmap::{Timer, TransientHashMap};

struct TestTimer<'a> {
    time: &'a Cell<i64>,
}

impl<'a> Timer for TestTimer<'a> {
    fn get_time(&self) -> i64 {
        self.time.get()
    }
}

#[test]
fn should_not_track_lifetime_if_key_is_not_present() {
    // given
    let time: Cell<i64> = Cell::new(0);
    let timer = TestTimer { time: &time };
    let mut t_map: TransientHashMap<(), _> = TransientHashMap::new_with_timer(2, timer);

    // when
    t_map.contains_key(&2);

    // then: the lookup touches the key even on a miss, so the key now has a
    // full window; an untouched key reports the zero sentinel.
    assert_eq!(t_map.remaining_lifetime(&2), 2);
    assert_eq!(t_map.remaining_lifetime(&3), 0);
}

#[test]
fn should_return_correct_lifetime_when_negative() {
    // given
    let time: Cell<i64> = Cell::new(0);
    let timer = TestTimer { time: &time };
    let mut t_map = TransientHashMap::new_with_timer(2, timer);
    t_map.insert(1, 0);

    // when
    time.set(10);

    // then
    assert_eq!(t_map.remaining_lifetime(&1), 0);
}

#[test]
fn should_return_pruned_keys() {
    // given
    let time: Cell<i64> = Cell::new(0);
    let timer = TestTimer { time: &time };

    let mut t_map = TransientHashMap::new_with_timer(2, timer);
    t_map.insert(1, 0);
    t_map.insert(2, 0);
    t_map.insert(3, 0);
    time.set(1);
    t_map.insert(4, 0);
    assert_eq!(t_map.direct().len(), 4);

    // when
    time.set(2);
    let keys = t_map.prune();

    // then
    assert_eq!(t_map.direct().len(), 1);
    assert_eq!(keys.len(), 3);
    assert!(keys.contains(&1));
    assert!(keys.contains(&2));
    assert!(keys.contains(&3));
}

#[test]
fn it_works() {
    let time: Cell<i64> = Cell::new(0);
    let timer = TestTimer { time: &time };

    let mut t_map = TransientHashMap::new_with_timer(2, timer);
    assert_eq!(t_map.remaining_lifetime(&1), 0);

    t_map.insert(1, 1);
    assert_eq!(t_map.remaining_lifetime(&1), 2);

    time.set(1);
    assert_eq!(t_map.remaining_lifetime(&1), 1);

    time.set(2);
    assert_eq!(t_map.remaining_lifetime(&1), 0);

    time.set(1);
    assert_eq!(t_map.remaining_lifetime(&1), 1);

    t_map.prune();
    assert_eq!(t_map.remaining_lifetime(&1), 1);

    time.set(2);
    assert_eq!(t_map.remaining_lifetime(&1), 0);

    t_map.prune();
    assert_eq!(t_map.remaining_lifetime(&1), 0);
    assert!(t_map.direct().is_empty());

    time.set(1);
    assert_eq!(t_map.remaining_lifetime(&1), 0);
}

#[test]
fn lifetime_counts_down_and_prune_drops_the_key() {
    let time: Cell<i64> = Cell::new(0);
    let timer = TestTimer { time: &time };
    let mut t_map = TransientHashMap::new_with_timer(2, timer);

    t_map.insert(1, 0);
    assert_eq!(t_map.remaining_lifetime(&1), 2);

    time.set(1);
    assert_eq!(t_map.remaining_lifetime(&1), 1);

    time.set(2);
    assert_eq!(t_map.remaining_lifetime(&1), 0);

    let removed = t_map.prune();
    assert_eq!(removed, vec![1]);
    assert_eq!(t_map.remaining_lifetime(&1), 0);
    assert!(t_map.direct().get(&1).is_none());
}

#[test]
fn every_touching_operation_resets_the_window() {
    let time: Cell<i64> = Cell::new(0);
    let timer = TestTimer { time: &time };
    let mut t_map = TransientHashMap::new_with_timer(3, timer);

    t_map.insert(1, 0);
    time.set(2);
    assert_eq!(t_map.remaining_lifetime(&1), 1);

    t_map.get(&1);
    assert_eq!(t_map.remaining_lifetime(&1), 3);

    time.set(4);
    assert!(t_map.contains_key(&1));
    assert_eq!(t_map.remaining_lifetime(&1), 3);

    time.set(6);
    t_map.entry(1);
    assert_eq!(t_map.remaining_lifetime(&1), 3);

    time.set(8);
    t_map.insert(1, 9);
    assert_eq!(t_map.remaining_lifetime(&1), 3);

    time.set(10);
    t_map.get_mut(&1);
    assert_eq!(t_map.remaining_lifetime(&1), 3);
}

#[test]
fn insert_returns_the_previous_value() {
    let time: Cell<i64> = Cell::new(0);
    let timer = TestTimer { time: &time };
    let mut t_map = TransientHashMap::new_with_timer(2, timer);

    assert_eq!(t_map.insert(1, 10), None);
    assert_eq!(t_map.insert(1, 20), Some(10));
    assert_eq!(t_map.get(&1), Some(&20));
}

#[test]
fn insert_then_get_round_trip_keeps_the_window() {
    let time: Cell<i64> = Cell::new(0);
    let timer = TestTimer { time: &time };
    let mut t_map = TransientHashMap::new_with_timer(2, timer);

    t_map.insert(1, 42);
    assert_eq!(t_map.get(&1), Some(&42));
    assert_eq!(t_map.remaining_lifetime(&1), 2);
}

#[test]
fn entry_touches_even_without_a_write() {
    let time: Cell<i64> = Cell::new(0);
    let timer = TestTimer { time: &time };
    let mut t_map: TransientHashMap<i32, _> = TransientHashMap::new_with_timer(2, timer);

    t_map.entry(7);
    assert_eq!(t_map.remaining_lifetime(&7), 2);
    assert!(t_map.direct().get(&7).is_none());

    *t_map.entry(8).or_insert(5) += 1;
    assert_eq!(t_map.get(&8), Some(&6));
}

#[test]
fn get_mut_gives_a_writable_slot() {
    let time: Cell<i64> = Cell::new(0);
    let timer = TestTimer { time: &time };
    let mut t_map = TransientHashMap::new_with_timer(2, timer);

    t_map.insert(1, 5);
    if let Some(v) = t_map.get_mut(&1) {
        *v = 9;
    }
    assert_eq!(t_map.get(&1), Some(&9));
    assert_eq!(t_map.get_mut(&2), None);
}

#[test]
fn prune_removes_exactly_the_stale_keys() {
    let time: Cell<i64> = Cell::new(0);
    let timer = TestTimer { time: &time };
    let mut t_map = TransientHashMap::new_with_timer(2, timer);

    t_map.insert(1, 10);
    t_map.insert(2, 20);
    t_map.insert(3, 30);
    time.set(1);
    t_map.insert(4, 40);

    time.set(2);
    let mut removed = t_map.prune();
    removed.sort();
    assert_eq!(removed, vec![1, 2, 3]);

    // The survivor's value and window are untouched by the sweep.
    assert_eq!(t_map.direct().len(), 1);
    assert_eq!(t_map.direct().get(&4), Some(&40));
    assert_eq!(t_map.remaining_lifetime(&4), 1);
}

#[test]
fn after_prune_every_reachable_key_is_live() {
    let time: Cell<i64> = Cell::new(0);
    let timer = TestTimer { time: &time };
    let mut t_map = TransientHashMap::new_with_timer(2, timer);

    t_map.insert(1, 0);
    time.set(1);
    t_map.insert(2, 0);
    time.set(2);
    t_map.prune();

    for key in t_map.direct().keys() {
        assert!(t_map.remaining_lifetime(key) > 0);
    }
    assert_eq!(t_map.direct().len(), 1);
}

#[test]
fn prune_clears_a_dangling_stamp_once_it_expires() {
    let time: Cell<i64> = Cell::new(0);
    let timer = TestTimer { time: &time };
    let mut t_map: TransientHashMap<i32, _> = TransientHashMap::new_with_timer(2, timer);

    // A miss still records a stamp for the key.
    assert_eq!(t_map.get(&1), None);
    assert_eq!(t_map.remaining_lifetime(&1), 2);

    // While the stamp is fresh, the sweep keeps it, though it has no value.
    time.set(1);
    assert_eq!(t_map.prune(), Vec::<u64>::new());
    assert_eq!(t_map.remaining_lifetime(&1), 1);

    // Once the stamp expires, the sweep reports and drops it.
    time.set(3);
    assert_eq!(t_map.prune(), vec![1]);
    assert_eq!(t_map.remaining_lifetime(&1), 0);
}

#[test]
fn prune_removes_values_inserted_behind_its_back() {
    let time: Cell<i64> = Cell::new(0);
    let timer = TestTimer { time: &time };
    let mut t_map = TransientHashMap::new_with_timer(2, timer);

    t_map.insert(1, 10);
    t_map.direct_mut().insert(9, 90);
    assert_eq!(t_map.direct().len(), 2);

    // The key written through the direct view has no stamp, so the very next
    // sweep reconciles it away, and it is not among the reported stamp keys.
    let removed = t_map.prune();
    assert_eq!(removed, Vec::<u64>::new());
    assert_eq!(t_map.direct().len(), 1);
    assert_eq!(t_map.direct().get(&1), Some(&10));
    assert!(t_map.direct().get(&9).is_none());
}

#[test]
fn direct_views_do_not_touch() {
    let time: Cell<i64> = Cell::new(0);
    let timer = TestTimer { time: &time };
    let mut t_map = TransientHashMap::new_with_timer(2, timer);

    t_map.insert(1, 10);
    time.set(1);
    assert_eq!(t_map.direct().get(&1), Some(&10));
    if let Some(v) = t_map.direct_mut().get_mut(&1) {
        *v = 11;
    }
    assert_eq!(t_map.remaining_lifetime(&1), 1);

    time.set(2);
    t_map.prune();
    assert!(t_map.direct().get(&1).is_none());
}

#[test]
fn zero_lifetime_expires_immediately() {
    let time: Cell<i64> = Cell::new(0);
    let timer = TestTimer { time: &time };
    let mut t_map = TransientHashMap::new_with_timer(0, timer);

    t_map.insert(1, 10);
    assert_eq!(t_map.remaining_lifetime(&1), 0);

    let removed = t_map.prune();
    assert_eq!(removed, vec![1]);
    assert!(t_map.direct().is_empty());
}

#[test]
fn largest_lifetime_counts_down_without_clipping() {
    let time: Cell<i64> = Cell::new(0);
    let timer = TestTimer { time: &time };
    let mut t_map = TransientHashMap::new_with_timer(u32::MAX, timer);

    t_map.insert(1, 10);
    time.set(1);
    assert_eq!(t_map.remaining_lifetime(&1), u32::MAX - 1);
}

#[test]
fn timestamps_may_be_negative() {
    let time: Cell<i64> = Cell::new(-5);
    let timer = TestTimer { time: &time };
    let mut t_map = TransientHashMap::new_with_timer(2, timer);

    t_map.insert(1, 10);
    time.set(-4);
    assert_eq!(t_map.remaining_lifetime(&1), 1);
    time.set(-3);
    assert_eq!(t_map.remaining_lifetime(&1), 0);
}

#[test]
fn standard_timer_backs_the_default_constructor() {
    let mut t_map = TransientHashMap::new(1000);

    assert_eq!(t_map.remaining_lifetime(&2), 0);
    t_map.insert(1, 42);
    assert_eq!(t_map.get(&1), Some(&42));
    let remaining = t_map.remaining_lifetime(&1);
    assert!(remaining > 0 && remaining <= 1000);

    t_map.prune();
    assert_eq!(t_map.direct().len(), 1);
}
