use hashmap_cache::cache::cache::Cache;
use hashmap_cache::cache::trait_cache::TraitCache;

#[test]
fn eviction_after_capacity_exceeded() {
    let mut cache: Cache<String> = Cache::new(2);
    cache.put(1, String::from("va"));
    cache.put(2, String::from("vb"));
    cache.put(3, String::from("vc"));
    assert_eq!(cache.get(1), None);
    assert_eq!(cache.get(2), Some(&String::from("vb")));
    assert_eq!(cache.get(3), Some(&String::from("vc")));
}

#[test]
fn get_hit_promotes_and_changes_eviction_order() {
    let mut cache: Cache<String> = Cache::new(3);
    cache.put(1, String::from("va"));
    cache.put(2, String::from("vb"));
    cache.put(3, String::from("vc"));
    assert_eq!(cache.get(1), Some(&String::from("va")));
    // order is now [2, 3, 1]; a fresh key evicts 2
    cache.put(4, String::from("vd"));
    assert_eq!(cache.get(2), None);
    assert_eq!(cache.get(3), Some(&String::from("vc")));
    assert_eq!(cache.get(1), Some(&String::from("va")));
    assert_eq!(cache.get(4), Some(&String::from("vd")));
}

#[test]
fn update_in_place_keeps_occupancy() {
    let mut cache: Cache<String> = Cache::new(2);
    cache.put(1, String::from("va"));
    cache.put(1, String::from("vb"));
    assert_eq!(cache.get(1), Some(&String::from("vb")));
    // occupancy is 1, not 2: two more fresh keys must both fit before
    // key 1 is the one evicted
    cache.put(2, String::from("vc"));
    cache.put(3, String::from("vd"));
    assert_eq!(cache.get(1), None);
    assert_eq!(cache.get(2), Some(&String::from("vc")));
    assert_eq!(cache.get(3), Some(&String::from("vd")));
}

#[test]
fn capacity_one_holds_latest_key_only() {
    let mut cache: Cache<String> = Cache::new(1);
    cache.put(1, String::from("va"));
    cache.put(2, String::from("vb"));
    assert_eq!(cache.get(1), None);
    assert_eq!(cache.get(2), Some(&String::from("vb")));
}

#[test]
fn get_on_fresh_cache_is_absent() {
    let mut cache: Cache<String> = Cache::new(3);
    assert_eq!(cache.get(7), None);
    cache.put(1, String::from("va"));
    assert_eq!(cache.get(1), Some(&String::from("va")));
}

#[test]
fn get_miss_mutates_nothing() {
    let mut cache: Cache<String> = Cache::new(2);
    cache.put(1, String::from("va"));
    cache.put(2, String::from("vb"));
    assert_eq!(cache.get(9), None);
    // the miss left the order [1, 2]: a fresh key still evicts 1
    cache.put(3, String::from("vc"));
    assert_eq!(cache.get(1), None);
    assert_eq!(cache.get(2), Some(&String::from("vb")));
    assert_eq!(cache.get(3), Some(&String::from("vc")));
}

#[test]
fn capacity_plus_one_inserts_evict_first_key_only() {
    let mut cache: Cache<u32> = Cache::new(3);
    cache.put(10, 100);
    cache.put(20, 200);
    cache.put(30, 300);
    cache.put(40, 400);
    assert_eq!(cache.get(10), None);
    assert_eq!(cache.get(20), Some(&200));
    assert_eq!(cache.get(30), Some(&300));
    assert_eq!(cache.get(40), Some(&400));
}

#[test]
fn capacity_bound_holds_over_many_puts() {
    let mut cache: Cache<u32> = Cache::new(2);
    for k in 1..=5u64 {
        cache.put(k, k as u32 * 10);
    }
    // only the last two of five distinct keys are resident
    assert_eq!(cache.get(1), None);
    assert_eq!(cache.get(2), None);
    assert_eq!(cache.get(3), None);
    assert_eq!(cache.get(4), Some(&40));
    assert_eq!(cache.get(5), Some(&50));
}

#[test]
fn update_promotes_recency() {
    let mut cache: Cache<String> = Cache::new(2);
    cache.put(1, String::from("va"));
    cache.put(2, String::from("vb"));
    cache.put(1, String::from("vc"));
    // order is now [2, 1]; a fresh key evicts 2
    cache.put(3, String::from("vd"));
    assert_eq!(cache.get(2), None);
    assert_eq!(cache.get(1), Some(&String::from("vc")));
    assert_eq!(cache.get(3), Some(&String::from("vd")));
}

#[test]
fn move_key_end_cache_protects_key_from_eviction() {
    let mut cache: Cache<String> = Cache::new(2);
    cache.put(1, String::from("va"));
    cache.put(2, String::from("vb"));
    cache.move_key_end_cache(&1);
    // order is now [2, 1]; a fresh key evicts 2
    cache.put(3, String::from("vc"));
    assert_eq!(cache.get(2), None);
    assert_eq!(cache.get(1), Some(&String::from("va")));
    assert_eq!(cache.get(3), Some(&String::from("vc")));
}
