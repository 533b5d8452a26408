use memory_cache_rust::bloom::{Bloom, getSize};

const N: usize = 1 << 16;

#[test]
fn test_has() {
    let mut bf = Bloom::new((N * 10) as u64, 7);

    let v = bf.has(18272025040905874063);
    assert_eq!(v, false);

    let _v = bf.has(18272025040905874063);
    bf.add_if_not_has(18272025040905874063);
    let v = bf.has(18272025040905874063);
    assert_eq!(v, true)
}

#[test]
fn oprator_test() {
    let a = 1;
    let b = 2;
    assert_eq!(a & b, 0);
    assert_eq!(a | b, 3);
    assert_eq!(a ^ b, 3);
    assert_eq!(a << 4, 16);
    assert_eq!(a >> b, 0);
    assert_eq!(31 >> 4, 1);
    assert_eq!(31 << 2, 124);
    assert_eq!(31 >> 3, 3);
}

#[test]
fn test_clear_forgets() {
    let mut bf = Bloom::new(1024, 7);
    bf.add(42);
    assert!(bf.has(42));
    bf.clear();
    assert!(!bf.has(42));
}

#[test]
fn test_get_size_floor() {
    let (size, exp) = getSize(10);
    assert_eq!(size, 512);
    assert_eq!(exp, 9);
    let (size, _exp) = getSize(600);
    assert_eq!(size, 1024);
}
