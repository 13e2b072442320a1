use lease_cache_sim::{AccessResult, CacheError, LeaseCache, TaggedObjectId};
use std::collections::HashMap;
use std::collections::HashSet;

#[test]
fn test_time_till_eviction() {
    let mut lease_cache = LeaseCache::<usize>::new();
    lease_cache.insert(1, 1);
    lease_cache.insert(2, 2);
    lease_cache.insert(3, 3);
    assert_eq!(lease_cache.time_until_eviction(&1), Some(1));
    assert_eq!(lease_cache.time_until_eviction(&2), Some(2));
    assert_eq!(lease_cache.time_until_eviction(&3), Some(3));
    lease_cache.advance_time();

    println!("{:?}", lease_cache.time_until_eviction(&1));
    assert_eq!(lease_cache.time_until_eviction(&2), Some(1));
    assert_eq!(lease_cache.time_until_eviction(&3), Some(2));
}

#[test]
fn test_lease_zero() {
    let mut lease_cache = LeaseCache::<usize>::new();
    lease_cache.update(&1, 2);
    lease_cache.update(&2, 0);
    assert_eq!(lease_cache.time_until_eviction(&1), Some(1));
    assert_eq!(lease_cache.time_until_eviction(&2), None);
    assert!(!lease_cache.contains(&2));
}

#[test]
fn test_lease_cache_insert() {
    let mut lease_cache = LeaseCache::<usize>::new();
    lease_cache.insert(1, 1);
    lease_cache.insert(2, 2);
    lease_cache.insert(3, 3);
    assert!(lease_cache.contains(&1));
    assert!(lease_cache.contains(&2));
    assert!(lease_cache.contains(&3));
    let abs_index = lease_cache.expiration_of(&1).unwrap();
    assert!(lease_cache.is_expiring_at(abs_index, &1));
}

#[test]
fn test_lease_cache_update() {
    let mut lease_cache = LeaseCache::<usize>::new();
    // Access object 1 with a lease of 1.
    lease_cache.update(&1, 1);
    let abs_index: usize = lease_cache.expiration_of(&1).unwrap();
    assert!(lease_cache.is_expiring_at(abs_index, &1));
    // Access object 1 again with a lease of 4.
    lease_cache.update(&1, 4);
    assert_eq!(lease_cache.get_cache_consumption(), 1);
    // The old bucket no longer holds object 1.
    assert!(lease_cache.expiring_count(abs_index) == 0);
    // The new bucket holds it.
    let abs_index_new = lease_cache.expiration_of(&1).unwrap();
    assert!(lease_cache.is_expiring_at(abs_index_new, &1));
}

#[test]
fn test_lease_cache_dump_expiring() {
    let mut lease_cache = LeaseCache::<usize>::new();
    // Each tick sweeps exactly the objects that expire at it.
    lease_cache.insert(1, 1);
    lease_cache.insert(2, 2);
    lease_cache.insert(3, 3);
    let mut expiring = lease_cache.advance_time();
    let mut expected = HashSet::new();
    expected.insert(1);
    assert_eq!(expiring, expected);
    expiring = lease_cache.advance_time();
    expected.insert(2);
    expected.remove(&1);
    assert_eq!(expiring, expected);
    assert!(!lease_cache.contains(&1));
    expiring = lease_cache.advance_time();
    expected.insert(3);
    expected.remove(&2);
    assert_eq!(expiring, expected);
    assert!(!lease_cache.contains(&2));
    assert_eq!(lease_cache.get_cache_consumption(), 0);
    assert!(lease_cache.get_cache_consumption() == 0)
}

#[test]
fn test_lease_cache_force_evict_string() {
    let epsilon = 0.1;
    let num_iters = 1000;
    // Each resident object should be evicted with the same chance.
    let mut eviction_counts = HashMap::new();
    let obj_1 = "x1";
    let obj_2 = "x2";
    let obj_3 = "x3";
    for _ in 0..num_iters {
        let mut lease_cache = LeaseCache::<String>::new();
        lease_cache.insert(obj_1.to_string(), 100000);
        lease_cache.insert(obj_2.to_string(), 100000);
        lease_cache.insert(obj_3.to_string(), 9);
        let evicted_obj = lease_cache.force_evict().unwrap();
        *eviction_counts.entry(evicted_obj).or_insert(0) += 1;
    }
    let expected_ratio = 1.0 / 3.0;
    for count in eviction_counts.values() {
        let ratio = *count as f64 / num_iters as f64;
        println!("Eviction ratio: {}", ratio);
        assert!(
            (ratio - expected_ratio).abs() < epsilon,
            "Eviction ratio {} differs from expected {}",
            ratio,
            expected_ratio
        );
    }
}

#[test]
fn test_remove_from_cache() {
    let mut lease_cache = LeaseCache::<usize>::new();
    lease_cache.insert(1, 1);
    lease_cache.insert(2, 2);
    lease_cache.insert(3, 3);
    lease_cache.remove(&1);
    assert!(!lease_cache.contains(&1));
    assert_eq!(lease_cache.get_cache_consumption(), 2);
    lease_cache.remove(&2);
    assert!(!lease_cache.contains(&2));
    assert_eq!(lease_cache.get_cache_consumption(), 1);
    lease_cache.remove(&3);
    assert!(!lease_cache.contains(&3));
    assert_eq!(lease_cache.get_cache_consumption(), 0);
}

#[test]
fn distinct_inserts_are_all_resident() {
    let mut cache = LeaseCache::<u64>::new();
    for i in 0..50u64 {
        cache.insert(i, (i as usize % 7) + 1);
    }
    assert_eq!(cache.get_cache_consumption(), 50);
}

#[test]
fn insert_gives_full_lease() {
    let mut cache = LeaseCache::<u64>::new();
    cache.update(&9, 0);
    cache.update(&9, 0);
    cache.insert(5, 17);
    assert_eq!(cache.time_until_eviction(&5), Some(17));
    assert_eq!(cache.expiration_of(&5), Some(19));
}

#[test]
fn reinsert_replaces_old_bucket() {
    let mut cache = LeaseCache::<u64>::new();
    cache.insert(5, 3);
    cache.insert(5, 8);
    assert_eq!(cache.get_cache_consumption(), 1);
    assert_eq!(cache.expiring_count(3), 0);
    assert!(cache.is_expiring_at(8, &5));
    assert!(cache.advance_time().is_empty());
    assert!(cache.advance_time().is_empty());
    assert!(cache.advance_time().is_empty());
    assert!(cache.contains(&5));
}

#[test]
fn lease_zero_on_absent_is_miss() {
    let mut cache = LeaseCache::<u64>::new();
    assert_eq!(cache.update(&4, 0), AccessResult::Miss);
    assert!(!cache.contains(&4));
    assert_eq!(cache.get_cache_consumption(), 0);
}

#[test]
fn lease_zero_on_present_is_hit_and_removes() {
    let mut cache = LeaseCache::<u64>::new();
    assert_eq!(cache.update(&4, 5), AccessResult::Miss);
    assert_eq!(cache.update(&4, 0), AccessResult::Hit);
    assert!(!cache.contains(&4));
    assert_eq!(cache.update(&4, 0), AccessResult::Miss);
}

#[test]
fn expired_object_is_a_miss() {
    let mut cache = LeaseCache::<u64>::new();
    assert_eq!(cache.update(&4, 1), AccessResult::Miss);
    assert_eq!(cache.update(&4, 1), AccessResult::Miss);
    assert_eq!(cache.update(&4, 2), AccessResult::Miss);
    assert_eq!(cache.update(&4, 2), AccessResult::Hit);
}

#[test]
fn capacity_bound_holds_after_every_access() {
    let mut cache = LeaseCache::<u64>::new();
    assert_eq!(cache.set_capacity(3), Ok(()));
    for i in 0..200u64 {
        cache.cache_access(TaggedObjectId(1000, i % 11));
        assert!(cache.get_cache_consumption() <= 3);
    }
    assert_eq!(cache.get_cache_consumption(), 3);
}

#[test]
fn capacity_eviction_keeps_leases() {
    let mut cache = LeaseCache::<u64>::new();
    assert_eq!(cache.set_capacity(1), Ok(()));
    cache.cache_access(TaggedObjectId(10, 1));
    cache.cache_access(TaggedObjectId(10, 2));
    assert_eq!(cache.get_cache_consumption(), 1);
    let kept = if cache.contains(&1) { 1 } else { 2 };
    let expected = if kept == 1 { 11 } else { 12 };
    assert_eq!(cache.expiration_of(&kept), Some(expected));
}

#[test]
fn capacity_errors() {
    let mut cache = LeaseCache::<u64>::new();
    assert_eq!(cache.set_capacity(0), Err(CacheError::ZeroCapacity));
    assert_eq!(cache.set_capacity(4), Ok(()));
    assert_eq!(cache.set_capacity(5), Err(CacheError::CapacityAlreadyFixed));
    let mut started = LeaseCache::<u64>::new();
    started.cache_access(TaggedObjectId(3, 1));
    assert_eq!(started.set_capacity(5), Err(CacheError::CapacityAlreadyFixed));
}

#[test]
fn force_evict_on_empty_cache_is_an_error() {
    let mut cache = LeaseCache::<u64>::new();
    assert_eq!(cache.force_evict(), Err(CacheError::EmptyCacheEviction));
    cache.insert(7, 2);
    assert_eq!(cache.force_evict(), Ok(7));
    assert_eq!(cache.force_evict(), Err(CacheError::EmptyCacheEviction));
    assert_eq!(cache.expiring_count(2), 0);
}

#[test]
fn force_evict_is_uniform_over_residents() {
    let num_iters = 3000;
    let mut counts = [0usize; 4];
    for _ in 0..num_iters {
        let mut cache = LeaseCache::<usize>::new();
        for o in 0..4usize {
            cache.insert(o, 50);
        }
        let evicted = cache.force_evict().unwrap();
        assert!(!cache.contains(&evicted));
        assert_eq!(cache.get_cache_consumption(), 3);
        counts[evicted] += 1;
    }
    for count in counts.iter() {
        let ratio = *count as f64 / num_iters as f64;
        assert!((ratio - 0.25).abs() < 0.05, "ratio {}", ratio);
    }
}

#[test]
fn three_tick_round_trip() {
    let mut cache = LeaseCache::<u64>::new();
    cache.insert(42, 3);
    assert!(!cache.advance_time().contains(&42));
    assert!(!cache.advance_time().contains(&42));
    let third = cache.advance_time();
    assert_eq!(third.len(), 1);
    assert!(third.contains(&42));
    assert!(!cache.contains(&42));
}

#[test]
fn staggered_leases_expire_one_per_tick() {
    let mut cache = LeaseCache::<u64>::new();
    cache.insert(1, 1);
    cache.insert(2, 2);
    cache.insert(3, 3);
    assert_eq!(cache.advance_time(), HashSet::from([1]));
    assert_eq!(cache.advance_time(), HashSet::from([2]));
    assert_eq!(cache.advance_time(), HashSet::from([3]));
    assert_eq!(cache.get_cache_consumption(), 0);
}

#[test]
fn access_path_with_string_objects() {
    let mut cache = LeaseCache::<String>::new();
    let a = "A".to_string();
    let b = "B".to_string();
    assert_eq!(cache.cache_access(TaggedObjectId(2, a.clone())), AccessResult::Miss);
    assert_eq!(cache.time_until_eviction(&a), Some(2));
    assert_eq!(cache.cache_access(TaggedObjectId(0, b.clone())), AccessResult::Miss);
    assert!(!cache.contains(&b));
    assert_eq!(cache.time_until_eviction(&a), Some(1));
    // The third tick is the one at which A's lease runs out.
    assert_eq!(cache.cache_access(TaggedObjectId(2, a.clone())), AccessResult::Miss);
    assert_eq!(cache.cache_access(TaggedObjectId(1, a.clone())), AccessResult::Hit);
}

#[test]
fn default_is_empty() {
    let cache: LeaseCache<u64> = LeaseCache::default();
    assert_eq!(cache.get_cache_consumption(), 0);
    assert_eq!(cache.time_until_eviction(&1), None);
}

#[test]
fn counts_follow_inserts_and_removals() {
    let mut cache = LeaseCache::<u64>::new();
    cache.insert(1, 4);
    cache.insert(2, 4);
    assert_eq!(cache.get_cache_consumption(), 2);
    cache.insert(2, 6);
    assert_eq!(cache.get_cache_consumption(), 2);
    cache.remove(&9);
    assert_eq!(cache.get_cache_consumption(), 2);
    assert_eq!(cache.update(&1, 0), AccessResult::Hit);
    assert_eq!(cache.get_cache_consumption(), 1);
    assert_eq!(cache.time_until_eviction(&2), Some(5));
    let copy = cache.clone();
    assert_eq!(copy.time_until_eviction(&2), Some(5));
}
