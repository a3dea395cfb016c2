use persistent::link::get;
use persistent::{Link, PartialVersion, Tag};

#[test]
fn tag_reverse_pairs_roles() {
    assert!(Tag::LeftChild.reverse() == Tag::LeftParent);
    assert!(Tag::RightChild.reverse() == Tag::RightParent);
    assert!(Tag::LeftParent.reverse() == Tag::LeftChild);
    assert!(Tag::RightParent.reverse() == Tag::RightChild);
    assert!(Tag::LeftChild.reverse().reverse() == Tag::LeftChild);
}

#[test]
fn link_get_picks_latest_visible_slot() {
    let (mut list, v0) = PartialVersion::new();
    let v2 = v0.insert_after(&mut list);
    let v1 = v0.insert_after(&mut list);
    let v3 = v2.insert_after(&mut list);
    let links = vec![
        Some(Link { tag: Tag::LeftChild, version: v0, node_pointer: 10, link_pointer: 0 }),
        None,
        Some(Link { tag: Tag::LeftChild, version: v2, node_pointer: 12, link_pointer: 0 }),
        Some(Link { tag: Tag::RightChild, version: v1, node_pointer: 20, link_pointer: 0 }),
    ];
    assert_eq!(get(&links, &list, Tag::LeftChild, v0), Some(10));
    assert_eq!(get(&links, &list, Tag::LeftChild, v1), Some(10));
    assert_eq!(get(&links, &list, Tag::LeftChild, v2), Some(12));
    assert_eq!(get(&links, &list, Tag::LeftChild, v3), Some(12));
    assert_eq!(get(&links, &list, Tag::RightChild, v0), None);
    assert_eq!(get(&links, &list, Tag::RightChild, v3), Some(20));
    assert_eq!(get(&links, &list, Tag::LeftParent, v3), None);
}
