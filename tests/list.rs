use persistent::{ListStore, PersistenLinkedList};

#[test]
fn no_persistence_insert_begin() {
    let mut store = ListStore::new();
    let mut list = PersistenLinkedList::new();
    for i in 0..5 {
        list = list.insert(&mut store, 0, i).unwrap();
    }
    assert_eq!(list.crawl_debug(&store).len(), 5);
    for i in 0..5 {
        assert_eq!(list.get(&store, i), Some(&(4 - i)));
    }
}

#[test]
fn no_persistence_insert_end() {
    let mut store = ListStore::new();
    let mut list = PersistenLinkedList::new();
    for i in 0..5 {
        list = list.insert(&mut store, i, i).unwrap();
    }
    assert_eq!(list.crawl_debug(&store).len(), 5);
    for i in 0..5 {
        assert_eq!(list.get(&store, i), Some(&i));
    }
}

#[test]
fn no_persistence_insert_middle() {
    let mut store = ListStore::new();
    let mut list = PersistenLinkedList::new().insert(&mut store, 0, 10).unwrap();
    for i in 0..5 {
        list = list.insert(&mut store, 1, i).unwrap();
    }
    assert_eq!(list.crawl_debug(&store).len(), 6);
    assert_eq!(list.get(&store, 0), Some(&10));
    for i in 0..5 {
        assert_eq!(list.get(&store, i + 1), Some(&(4 - i)));
    }
}

#[test]
fn persistence_insert_begin() {
    let mut store = ListStore::new();
    let mut lists = vec![PersistenLinkedList::new()];
    for i in 0..5 {
        let next = lists.last().unwrap().insert(&mut store, 0, i).unwrap();
        lists.push(next);
    }
    for (len, list) in lists.into_iter().enumerate() {
        assert_eq!(list.crawl_debug(&store).len(), len);
        for i in 0..len {
            assert_eq!(list.get(&store, i), Some(&(len - i - 1)));
        }
    }
}

#[test]
fn list_branches_keep_their_own_history() {
    let mut store = ListStore::new();
    let one = PersistenLinkedList::new().insert(&mut store, 0, 0).unwrap();
    let two = one.insert(&mut store, 0, 1).unwrap();
    let branch = two.insert(&mut store, 0, 7).unwrap();
    let other = two.insert(&mut store, 2, 9).unwrap();
    assert_eq!(two.get(&store, 0), Some(&1));
    assert_eq!(two.get(&store, 1), Some(&0));
    assert_eq!(two.get(&store, 2), None);
    assert_eq!(branch.get(&store, 0), Some(&7));
    assert_eq!(branch.get(&store, 1), Some(&1));
    assert_eq!(branch.get(&store, 2), Some(&0));
    assert_eq!(other.get(&store, 0), Some(&1));
    assert_eq!(other.get(&store, 1), Some(&0));
    assert_eq!(other.get(&store, 2), Some(&9));
    assert_eq!(one.get(&store, 0), Some(&0));
    assert_eq!(one.get(&store, 1), None);
}

#[test]
fn list_insert_past_end_is_refused() {
    let mut store = ListStore::new();
    let list = PersistenLinkedList::new().insert(&mut store, 0, 3).unwrap();
    assert!(list.insert(&mut store, 2, 4).is_none());
    assert!(PersistenLinkedList::new().insert(&mut store, 1, 4).is_none());
    assert_eq!(list.get(&store, 0), Some(&3));
}
