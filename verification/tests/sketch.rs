use memory_cache_rust::cmsketch::{CmSketch, next_2_power};

#[allow(non_snake_case)]
#[test]
fn TestSketchClear() {
    let mut s = CmSketch::new(16);
    for i in 0..16 {
        s.increment(i);
    }
    s.clear()
}

#[test]
fn test_sketch_reset() {
    let mut s = CmSketch::new(16);
    s.increment(1);
    s.increment(1);
    s.increment(1);
    s.increment(1);
    s.reset();

    assert_eq!(s.estimate(1), 2);
}

#[test]
fn test_sketch_estimate() {
    let mut s = CmSketch::new(16);
    s.increment(1);
    s.increment(1);
    s.increment(9);
    assert_eq!(s.estimate(1), 2);
    assert_eq!(s.estimate(0), 0);
}

#[test]
fn test_sketch_increment() {
    let mut s = CmSketch::new(16);
    s.increment(1);
    s.increment(5);
    s.increment(9);

    for i in 0..4 {
        if s.row_string(i) == s.row_string(0) {
            println!("{}", s.row_string(i));
            break;
        }

        assert_eq!(i, 4 - 1, "identical rows, bad seeding");
    }
}

#[test]
fn test_sketch() {
    let s = CmSketch::new(5);
    assert_eq!(s.mask, 7)
}

#[test]
fn test_next_2_power() {
    let x: i64 = 10;
    let x = next_2_power(x);
    println!("{}", x)
}

#[test]
fn test_sketch_saturates_at_cap() {
    let mut s = CmSketch::new(16);
    for _ in 0..100 {
        s.increment(1);
    }
    assert_eq!(s.estimate(1), 15);
}
