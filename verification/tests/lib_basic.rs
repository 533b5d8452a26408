#[allow(unused_imports)]
use memory_cache_rust::cache::Cache;

#[test]
fn lib_it_works() {}
