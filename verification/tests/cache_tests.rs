use math_machines::{CacheError, MachineCache, Phase};

fn phase_with_input(n: u128) -> Phase {
    let mut p = Phase::new();
    p.setinput(n);
    p
}

#[test]
fn new_cache_is_empty() {
    let mut cache = MachineCache::new();
    assert_eq!(cache.len(), 0);
    assert_eq!(cache.highest_usage(), 0);
    assert_eq!(cache.find(0), Err(CacheError::PhaseNotFound));
    assert_eq!(cache.find_closest(u128::MAX), Err(CacheError::PhaseNotFound));
}

#[test]
fn find_returns_exact_match() {
    let mut cache = MachineCache::new();
    cache.push(phase_with_input(8));
    cache.push(phase_with_input(5));

    let value = cache.find(8).expect("phase stored under 8");
    assert_eq!(value.input(), 8);

    let value = cache.find(5).expect("phase stored under 5");
    assert_eq!(value.input(), 5);

    assert_eq!(cache.find(7), Err(CacheError::PhaseNotFound));
    assert_eq!(cache.len(), 2);
}

#[test]
fn floor_lookup_returns_greatest_key_at_most_query() {
    let mut cache = MachineCache::new();
    cache.push(phase_with_input(3));
    cache.push(phase_with_input(7));
    cache.push(phase_with_input(15));

    assert_eq!(cache.find_closest(2), Err(CacheError::PhaseNotFound));
    assert_eq!(cache.find_closest(3).expect("floor of 3").input(), 3);
    assert_eq!(cache.find_closest(10).expect("floor of 10").input(), 7);
    assert_eq!(cache.find_closest(15).expect("floor of 15").input(), 15);
    assert_eq!(cache.find_closest(100).expect("floor of 100").input(), 15);
}

#[test]
fn touches_age_every_other_entry_by_one() {
    let mut cache = MachineCache::new();

    cache.push(phase_with_input(8));
    assert_eq!(cache.highest_usage(), 0);

    cache.push(phase_with_input(16));
    // ages: 8 -> 1, 16 -> 0
    assert_eq!(cache.highest_usage(), 1);

    cache.find(16).expect("stored phase");
    // ages: 8 -> 2, 16 -> 0
    assert_eq!(cache.highest_usage(), 2);

    cache.push(phase_with_input(44));
    // ages: 8 -> 3, 16 -> 1, 44 -> 0
    assert_eq!(cache.len(), 3);
    assert_eq!(cache.highest_usage(), 3);

    cache.find(8).expect("stored phase");
    // ages: 8 -> 0, 16 -> 2, 44 -> 1
    assert_eq!(cache.highest_usage(), 2);

    let found = cache.find_closest(17).expect("closest preceding phase");
    assert_eq!(found.input(), 16);
    // ages: 8 -> 1, 16 -> 0, 44 -> 2
    assert_eq!(cache.highest_usage(), 2);
}

#[test]
fn miss_leaves_ages_unchanged() {
    let mut cache = MachineCache::new();
    cache.push(phase_with_input(10));
    cache.push(phase_with_input(20));
    // ages: 10 -> 1, 20 -> 0
    assert_eq!(cache.highest_usage(), 1);

    assert_eq!(cache.find(15), Err(CacheError::PhaseNotFound));
    assert_eq!(cache.find_closest(5), Err(CacheError::PhaseNotFound));
    assert_eq!(cache.highest_usage(), 1);
    assert_eq!(cache.len(), 2);
}

#[test]
fn push_replaces_phase_with_equal_key() {
    let mut cache = MachineCache::new();

    let mut first = Phase::new();
    first.setinput(9);
    first.set(0, 111);
    cache.push(first);

    let mut second = Phase::new();
    second.setinput(9);
    second.set(0, 222);
    cache.push(second);

    assert_eq!(cache.len(), 1);
    let found = cache.find(9).expect("stored phase");
    assert_eq!(found.result(), 222);
}

#[test]
fn drop_removes_the_entry() {
    let mut cache = MachineCache::new();
    cache.push(phase_with_input(8));
    cache.push(phase_with_input(16));

    let dropped = cache.drop(8).expect("phase stored under 8");
    assert_eq!(dropped.input(), 8);
    assert_eq!(cache.len(), 1);
    assert_eq!(cache.find(8), Err(CacheError::PhaseNotFound));
    assert_eq!(cache.drop(8), Err(CacheError::PhaseNotFound));
}

#[test]
fn eviction_removes_exactly_the_most_stale_entries() {
    let mut cache = MachineCache::new();
    cache.push(phase_with_input(8));
    cache.push(phase_with_input(16));
    cache.push(phase_with_input(44));
    // ages: 8 -> 2, 16 -> 1, 44 -> 0
    assert_eq!(cache.highest_usage(), 2);

    let removed = cache.drop_invalid().expect("sweep result");
    assert_eq!(removed.len(), 1);
    assert_eq!(removed[0].input(), 8);
    assert_eq!(cache.len(), 2);
    // survivors keep their ages: 16 -> 1, 44 -> 0
    assert_eq!(cache.highest_usage(), 1);
    assert_eq!(cache.find(16).expect("kept phase").input(), 16);
    assert_eq!(cache.find(44).expect("kept phase").input(), 44);
}

#[test]
fn eviction_removes_all_entries_tied_at_the_maximum_age() {
    let mut cache = MachineCache::new();
    cache.push(phase_with_input(1));
    // single entry with age 0: it is the most stale entry
    let removed = cache.drop_invalid().expect("sweep result");
    assert_eq!(removed.len(), 1);
    assert_eq!(cache.len(), 0);
}

#[test]
fn eviction_on_empty_cache_removes_nothing() {
    let mut cache = MachineCache::new();
    let removed = cache.drop_invalid().expect("sweep result");
    assert!(removed.is_empty());
    assert_eq!(cache.len(), 0);
}
