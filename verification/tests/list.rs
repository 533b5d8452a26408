use memory_cache_rust::list::LinkedList;

#[test]
fn test_push_front() {
    let mut list = LinkedList::new();
    list.push_front("key");
    list.push_front("key2");
    list.push_front("key3");

    assert_eq!(list.pop_front(), Some("key3"));
    assert_eq!(list.pop_front(), Some("key2"));
    assert_eq!(list.pop_front(), Some("key"));
    assert_eq!(list.pop_front(), None);
}

#[test]
fn test_push_back() {
    let mut list = LinkedList::new();
    list.push_back("key");
    list.push_back("key2");
    list.push_back("key3");

    assert_eq!(list.pop_back(), Some("key3"));
    assert_eq!(list.pop_back(), Some("key2"));
    assert_eq!(list.pop_back(), Some("key"));
    assert_eq!(list.pop_back(), None);
}
