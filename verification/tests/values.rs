use kademlia::values::ValueStore;

#[test]
fn a_stored_value_is_retrieved() {
    let mut store = ValueStore::new(Vec::new()).unwrap();

    assert_eq!(store.len(), 0);
    assert_eq!(store.retrieve("key"), None);

    store.store("key", b"hello");

    assert_eq!(store.len(), 1);
    assert_eq!(store.retrieve("key"), Some(&b"hello".to_vec()));
    assert_eq!(store.retrieve("other"), None);
}

#[test]
fn storing_again_overwrites() {
    let mut store = ValueStore::new(Vec::new()).unwrap();

    store.store("key", b"one");
    store.store("other", b"two");
    store.store("key", b"three");

    assert_eq!(store.len(), 2);
    assert_eq!(store.retrieve("key"), Some(&b"three".to_vec()));
    assert_eq!(store.retrieve("other"), Some(&b"two".to_vec()));
}

#[test]
fn a_store_is_made_from_its_entries_and_gives_them_back() {
    let entries = vec![
        (String::from("a"), vec![1u8]),
        (String::from("b"), vec![2u8]),
        (String::from("a"), vec![3u8]),
    ];

    let store = ValueStore::new(entries).unwrap();

    assert_eq!(store.len(), 2);
    assert_eq!(store.retrieve("a"), Some(&vec![3u8]));
    assert_eq!(
        store.values(),
        vec![(String::from("a"), vec![3u8]), (String::from("b"), vec![2u8])]
    );
}
