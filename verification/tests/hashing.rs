use memory_cache_rust::haskey::key_to_hash;

#[test]
fn hasher_test_hash() {}

#[test]
fn haskey_test_hash() {
    let a = "22";
    let d = key_to_hash(a);
    println!("{:?}", d);
}

#[test]
fn test_hash_pair_is_not_input() {
    let (kh, ch) = key_to_hash("22");
    // the two hashes come from different functions, so a wrapper handing its
    // argument back unchanged would make them equal
    assert_ne!(kh, ch);
    assert_eq!(key_to_hash("22"), key_to_hash("22"));
    assert_ne!(key_to_hash("22"), key_to_hash("23"));
}
