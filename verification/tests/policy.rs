use memory_cache_rust::policy::{DefaultPolicy, SampledLFU, TinyLFU};

#[test]
fn test_policy_policy_push() {
    let mut p = DefaultPolicy::new(100, 10, None);
    let mut keep_count = 0;
    for _i in 0..10 {
        if p.push(vec![1, 2, 3, 4, 5]) {
            keep_count += 1;
        }
    }
    assert_ne!(keep_count, 0)
}

#[test]
fn test_policy_policy_add() {
    let mut p = DefaultPolicy::new(1000, 100, None);
    let v = p.add(1, 101);
    assert!(v.0.len() == 0 || v.1, "can't add an item bigger than entire cache");

    p.add(1, 1);
    p.admitter.increment(1);
    p.admitter.increment(2);
    p.admitter.increment(3);

    let v = p.add(1, 1);
    assert_eq!(v.0.len(), 0);
    assert_eq!(v.1, false);

    let v = p.add(2, 20);
    assert_eq!(v.0.len(), 0);
    assert_eq!(v.1, true);

    let v = p.add(3, 90);
    assert!(v.0.len() > 0);
    assert_eq!(v.1, true);

    let v = p.add(4, 20);
    assert_eq!(v.0.len(), 0);
    assert_eq!(v.1, false);
}

#[test]
fn test_policy_del() {
    let mut p = DefaultPolicy::new(1000, 100, None);

    p.add(1, 1);
    p.del(&1);
    p.del(&2);

    assert_eq!(p.has(1), false);
    assert_eq!(p.has(2), false);
}

#[test]
fn test_policy_cap() {
    let mut p = DefaultPolicy::new(100, 10, None);

    p.add(1, 1);

    assert_eq!(p.cap(), 9);
}

#[test]
fn test_policy_update() {
    let mut p = DefaultPolicy::new(100, 10, None);

    p.add(1, 1);
    p.add(1, 2);

    assert_eq!(p.evict.get(&1), Some(2));
}

#[test]
fn test_policy_cost() {
    let mut p = DefaultPolicy::new(100, 10, None);

    p.add(1, 1);

    assert_eq!(p.cost(&1), 1);
    assert_eq!(p.cost(&2), -1);
}

#[test]
fn test_policy_clear() {
    let mut p = DefaultPolicy::new(100, 10, None);

    p.add(1, 1);
    p.add(2, 2);
    p.add(3, 3);
    p.clear();

    assert_eq!(p.has(1), false);
    assert_eq!(p.has(2), false);
    assert_eq!(p.has(2), false);
}

#[test]
fn test_lfu_add() {
    let mut lfu = SampledLFU::new(4);
    lfu.add(1, 1);
    lfu.add(2, 2);
    lfu.add(3, 1);
    assert_eq!(lfu.used, 4);
    assert_eq!(lfu.get(&2), Some(2));
}

#[test]
fn test_lfu_del() {
    let mut lfu = SampledLFU::new(4);
    lfu.add(1, 1);
    lfu.add(2, 2);
    lfu.del(&2);
    assert_eq!(lfu.used, 1);
    assert_eq!(lfu.get(&2), None);
}

#[test]
fn test_lfu_update() {
    let mut lfu = SampledLFU::new(4);
    lfu.add(1, 1);

    assert_eq!(lfu.update_if_has(1, 2), true);
    assert_eq!(lfu.used, 2);
    assert_eq!(lfu.update_if_has(2, 2), false);
}

#[test]
fn test_lfu_clear() {
    let mut lfu = SampledLFU::new(4);
    lfu.add(1, 1);
    lfu.add(2, 2);
    // this third add exceeds the budget of 4, outside the reserved-room
    // precondition; at runtime it simply records the cost before the clear
    lfu.add(3, 3);
    lfu.clear();

    assert_eq!(lfu.used, 0);
    assert_eq!(lfu.key_costs.len(), 0);
}

#[test]
fn test_policy_oversized_item_is_refused() {
    let mut p = DefaultPolicy::new(1000, 100, None);
    let (victims, added) = p.add(1, 101);
    assert_eq!(victims.len(), 0);
    assert_eq!(added, false);
    assert_eq!(p.has(1), false);
}

#[test]
fn test_policy_eviction_keeps_cost_bound() {
    let mut p = DefaultPolicy::new(100, 10, None);
    for k in 1..=10u64 {
        let (_v, added) = p.add(k, 1);
        assert!(added);
    }
    assert_eq!(p.cap(), 0);
    p.admitter.increment(1);
    p.admitter.increment(2);
    p.admitter.increment(3);
    p.admitter.increment(11);
    p.admitter.increment(11);
    let (victims, added) = p.add(11, 1);
    assert!(added);
    assert_eq!(victims.len(), 1);
    // the budget still holds: one unit left the cache for one that entered
    assert_eq!(p.cap(), 0);
}

#[test]
fn test_policy_clear_is_idempotent() {
    let mut p = DefaultPolicy::new(100, 10, None);
    p.add(1, 1);
    p.admitter.increment(1);
    p.clear();
    let used_once = p.evict.used;
    let est_once = p.admitter.estimate(1);
    p.clear();
    assert_eq!(p.evict.used, used_once);
    assert_eq!(p.admitter.estimate(1), est_once);
    assert_eq!(p.has(1), false);
}

#[test]
fn test_doorkeeper_first_touch() {
    let mut p = DefaultPolicy::new(100, 10, None);
    p.clear();
    // the first touch only sets the doorkeeper: the sketch stays flat
    p.admitter.increment(7);
    assert_eq!(p.admitter.freq.estimate(7), 0);
    assert_eq!(p.admitter.estimate(7), 1);
    // the second touch reaches the sketch
    p.admitter.increment(7);
    assert_eq!(p.admitter.freq.estimate(7), 1);
    assert_eq!(p.admitter.estimate(7), 2);
}

#[test]
fn test_tinylfu_estimate_counts_door() {
    let mut t = TinyLFU::new(16);
    t.increment(1);
    t.increment(1);
    assert_eq!(t.estimate(1), 2);
}
