use memory_cache_rust::tiny_lfu::Policy;

#[test]
fn test_segmentation_defaults() {
    let p = Policy::new(3);
    assert_eq!(p.capacity, 3);
    assert_eq!(p.max_window, 1);
    assert_eq!(p.max_protected, 1);

    let p = Policy::new(1000);
    assert_eq!(p.max_window, 10);
    assert_eq!(p.max_protected, 792);
}

#[test]
fn test_record_admits_through_window() {
    let mut p = Policy::new(10);
    p.record(5);
    assert_eq!(p.len(), 1);
    p.record(5);
    assert_eq!(p.len(), 1);
    p.record(6);
    assert_eq!(p.len(), 3);
}
