use memory_cache_rust::ring::RingBuffer;
use memory_cache_rust::policy::DefaultPolicy;

#[test]
fn test_ring_drain() {}

#[test]
fn test_ring_drains_into_estimator() {
    let mut r = RingBuffer::new(4);
    let mut p = DefaultPolicy::new(100, 10, None);
    for k in [1u64, 2, 3] {
        assert!(r.push(k).is_none());
    }
    let batch = r.push(4).expect("fourth push fills the stripe");
    assert_eq!(batch, vec![1, 2, 3, 4]);
    assert!(p.push(batch));
    // each key was seen once: the doorkeeper holds it, the sketch does not
    assert_eq!(p.admitter.estimate(1), 1);
    assert_eq!(p.admitter.estimate(4), 1);
    // the stripe starts over
    assert!(r.push(9).is_none());
}
