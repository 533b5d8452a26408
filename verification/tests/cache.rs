use memory_cache_rust::cache::{Cache, Config};

const ITER: u64 = 32 * 1024;

#[test]
fn check() {
    let _v = 1e7 as i64;
    let _s = 1 << 30;
    let _v2 = 1e6 as i64;
    let _s2 = 1 << 20;
    println!("")
}

#[test]
fn test_cache_key_to_hash() {
    let _key_to_hash_count = 0;
    let mut cache = Cache::new();

    let guard = cache.guard();
    cache.set(1, 2, 1, &guard);
    cache.set(2, 2, 1, &guard);
    println!("{:?}", cache.get(&1, &guard));
    println!("{:?}", cache.get(&2, &guard));
}

#[test]
fn cache_test_cache_key_to_hash() {
    let _key_to_hash_count = 0;
    let mut cache = Cache::new();

    let guard = cache.guard();
    cache.set(1, 2, 1, &guard);
    cache.set(2, 2, 1, &guard);
    println!("{:?}", cache.get(&1, &guard));
    println!("{:?}", cache.get(&2, &guard));
}

#[test]
fn test_cache_insert_thread() {
    let mut map = Cache::<u64>::new();
    let mut hashet = std::collections::HashSet::new();

    let guard = map.guard();
    for i in 0..300_u64 {
        if i == 256 {
            println!("")
        }
        let (key_hash, _conflict) = map.hash(&i);

        hashet.insert(key_hash);
    }

    let _size = hashet.len();

    for i in 0..300u64 {
        if let Some(v) = map.get(&i, &guard) {
            if &i != v {
                panic!("i not equel {i}",)
            }
            println!("key:{i}, value: {:?}", map.get(&i, &guard));
        } else {
            println!("key:{i}, value: None");
        }
    }
}

#[test]
fn test_cache_with_ttl2() {
    let _key_to_hash_count = 0;
    let mut cache = Cache::new();

    for i in 0..ITER {
        let guard = cache.guard();
        cache.set(i, i + 7, 1, &guard);
    }
}

#[test]
fn cache_test_cache_with_ttl2() {
    let _key_to_hash_count = 0;
    let mut cache = Cache::new();

    for i in 0..ITER {
        let guard = cache.guard();
        cache.set(i, i + 7, 1, &guard);
    }
}

#[test]
fn test_round_trip() {
    let mut cache = Cache::with_config(Config {
        numb_counters: 100,
        max_cost: 10,
        buffer_items: 64,
        metrics: true,
    });
    let guard = cache.guard();
    assert!(cache.set(1, 11u64, 1, &guard));
    assert!(cache.set(2, 22u64, 1, &guard));
    assert_eq!(cache.get(&1, &guard), Some(&11));
    assert_eq!(cache.get(&2, &guard), Some(&22));
    assert_eq!(cache.get(&3, &guard), None);
    // the two hits and the one miss are counted
    assert_eq!(cache.policy.metrics.get(memory_cache_rust::cache::HIT), 2);
    assert_eq!(cache.policy.metrics.get(memory_cache_rust::cache::MISS), 1);
}

#[test]
fn test_negative_ttl_is_dropped() {
    let mut cache = Cache::new();
    let guard = cache.guard();
    assert!(!cache.set_with_ttl(1, 5u64, 1, -1, &guard));
    assert_eq!(cache.get(&1, &guard), None);
}

#[test]
fn test_clear_then_clear() {
    let mut cache = Cache::new();
    let guard = cache.guard();
    cache.set(1, 10u64, 1, &guard);
    cache.clear(&guard);
    cache.clear(&guard);
    assert_eq!(cache.get(&1, &guard), None);
}

#[test]
fn test_del_removes() {
    let mut cache = Cache::new();
    let guard = cache.guard();
    cache.set(1, 10u64, 1, &guard);
    assert_eq!(cache.get(&1, &guard), Some(&10));
    cache.del(&1, &guard);
    assert_eq!(cache.get(&1, &guard), None);
}

// A unit struct without resources
#[derive(Debug, Clone, Copy)]
struct Unit;

// A tuple struct with resources that implements the `Clone` trait
#[derive(Clone, Debug)]
struct Pair(Box<i32>, Box<i32>);

#[test]
fn testclone() {
    let unit = Unit;
    let copied_unit = unit;

    println!("original: {:?}", unit);
    println!("copy: {:?}", copied_unit);

    let pair = Pair(Box::new(1), Box::new(2));
    println!("original: {:?}", pair);

    let moved_pair = pair;
    println!("moved: {:?}", moved_pair);

    let cloned_pair = moved_pair.clone();
    drop(moved_pair);

    println!("clone: {:?}", cloned_pair);
}
