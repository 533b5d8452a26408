use memory_cache_rust::store::{Node, Store};
use memory_cache_rust::cache::Item;
use memory_cache_rust::cache::ItemFlag::ItemNew;
use memory_cache_rust::policy::DefaultPolicy;

#[test]
fn test_set_get() {
    let mut s: Store<u64> = Store::new();

    for i in 0..20u64 {
        let (key, confilict) = (i, 0u64);
        let node = Node::new(key, confilict, i + 2, None);

        s.set(node);
        let v = s.get(key, confilict, 0);
        assert_eq!(v, Some(&(i + 2)))
    }
}

#[test]
fn test_set_del() {
    let mut s: Store<u64> = Store::new();

    for i in 0..20u64 {
        let (key, confilict) = (i, 0u64);
        let node = Node::new(key, confilict, i + 2, None);

        s.set(node);
        let d = s.del(&key, &confilict);
        assert_eq!(d.unwrap().1, i + 2);

        let v = s.get(key, confilict, 0);
        assert_eq!(v, None);
    }
}

#[test]
fn test_set_clear() {
    let mut s: Store<u64> = Store::new();

    for i in 0..20u64 {
        let (key, confilict) = (i, 0u64);
        let node = Node::new(key, confilict, i + 2, None);

        s.set(node);
    }
    s.clear();

    for i in 0..20u64 {
        let (key, confilict) = (i, 0u64);
        let v = s.get(key, confilict, 0);
        assert_eq!(v, None)
    }
}

#[test]
fn test_set_update() {
    let mut s: Store<u64> = Store::new();

    for i in 0..20u64 {
        let (key, confilict) = (i, 0u64);
        let node = Node::new(key, confilict, i + 2, None);

        s.set(node);
        let v = s.get(key, confilict, 0);
        assert_eq!(v, Some(&(i + 2)))
    }

    for i in 0..20u64 {
        let (key, conflict) = (i, 0u64);
        let node = Node::new(key, conflict, i + 4, None);
        assert!(s.update(node).is_ok());
        let v = s.get(key, conflict, 0);
        assert_eq!(v, Some(&(i + 4)))
    }
}

#[test]
fn test_set_collision() {
    let mut s: Store<u64> = Store::new();

    s.set(Node::new(1, 0, 1, None));
    let v = s.get(1, 1, 0);
    assert_eq!(v, None);

    // a non-zero conflict that differs from the stored one drops the write
    s.set(Node::new(1, 1, 2, None));
    let v = s.get(1, 0, 0);
    assert_ne!(v, Some(&2));

    assert!(s.update(Node::new(1, 1, 2, None)).is_err());

    s.del(&1, &1);
    let v = s.get(1, 0, 0);
    assert_eq!(v, Some(&1));
}

#[test]
fn test_ttl_lazy_expiry() {
    let mut s: Store<u64> = Store::new();
    s.set(Node::new(5, 0, 50, Some(1000)));
    // before the deadline the value is served, strictly after it is not,
    // even though no cleanup ran
    assert_eq!(s.get(5, 0, 900), Some(&50));
    assert_eq!(s.get(5, 0, 1000), Some(&50));
    assert_eq!(s.get(5, 0, 1001), None);
}

#[test]
fn test_conflict_safety() {
    let mut s: Store<u64> = Store::new();
    s.set(Node::new(9, 77, 123, None));
    // a non-zero conflict only matches the stored one
    assert_eq!(s.get(9, 78, 0), None);
    assert_eq!(s.get(9, 77, 0), Some(&123));
    assert_eq!(s.get(9, 0, 0), Some(&123));
}

#[test]
fn test_clean_up_evicts_past_buckets() {
    let mut s: Store<u64> = Store::new();
    let mut p = DefaultPolicy::new(100, 10, None);
    p.add(1, 1);
    p.add(2, 1);
    s.set(Node::new(1, 0, 11, Some(1000)));
    s.set(Node::new(2, 0, 22, Some(60_000)));
    // one bucket width later the first entry's bucket lies in the past
    s.clean_up(&mut p, 10_000);
    assert_eq!(s.get(1, 0, 0), None);
    assert_eq!(s.get(2, 0, 0), Some(&22));
    assert_eq!(p.has(1), false);
    assert_eq!(p.has(2), true);
}

#[test]
fn test_item_shape() {
    let it: Item<u64> = Item {
        flag: ItemNew,
        key: 1,
        conflict: 0,
        value: Some(5),
        cost: 1,
        expiration: None,
    };
    assert_eq!(it.key, 1);
}
