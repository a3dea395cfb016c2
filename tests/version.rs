use persistent::{PartialVersion, Version};

/// A small deterministic generator standing in for random choices.
struct Lcg(u64);

impl Lcg {
    fn next(&mut self) -> u64 {
        self.0 = self.0.wrapping_mul(6364136223846793005).wrapping_add(1442695040888963407);
        self.0 >> 33
    }

    fn below(&mut self, n: usize) -> usize {
        (self.next() % n as u64) as usize
    }
}

#[test]
fn version_test() {
    let mut rng = Lcg(7);
    let (mut list, first) = PartialVersion::new();
    let mut version_list = vec![first];
    for _ in 0..10000 {
        let i = rng.below(version_list.len());
        let new_version = version_list[i].insert_after(&mut list);
        version_list.insert(i + 1, new_version);
    }
    assert_eq!(list.size(), 10001);
    for k in 0..version_list.len() {
        assert!(list.same(version_list[k], version_list[k]));
        let i = rng.below(version_list.len() - 1);
        let j = i + 1 + rng.below(version_list.len() - i - 1);
        assert!(list.less(version_list[i], version_list[j]));
        assert!(!list.less(version_list[j], version_list[i]));
    }
}

#[test]
fn adversarial() {
    let mut rng = Lcg(11);
    let mut version_list = vec![];
    let (mut list, version) = PartialVersion::new();
    for _ in 0..100000 {
        version_list.push(version.insert_after(&mut list));
    }
    version_list.reverse();
    for k in 0..version_list.len() {
        assert!(list.same(version_list[k], version_list[k]));
        let i = rng.below(version_list.len() - 1);
        let j = i + 1 + rng.below(version_list.len() - i - 1);
        assert!(list.less(version_list[i], version_list[j]));
        assert!(!list.less(version_list[j], version_list[i]));
    }
    assert!(list.less(version, version_list[0]));
}

#[test]
fn version_order_is_total_on_small_list() {
    let (mut list, a) = PartialVersion::new();
    let c = a.insert_after(&mut list);
    let b = a.insert_after(&mut list);
    assert!(list.less(a, b));
    assert!(list.less(b, c));
    assert!(list.less(a, c));
    assert!(!list.less(b, b));
    assert!(!list.same(a, b));
    assert_eq!(list.size(), 3);
}

#[test]
fn first_version_orders_at_zero() {
    let (list, a) = PartialVersion::new();
    assert_eq!(list.ordering_values(a), (0, 0));
}

#[test]
fn intra_group_label_is_midpoint() {
    let (mut list, a) = PartialVersion::new();
    let b = a.insert_after(&mut list);
    // (u64::MAX - 0) rounded up, halved
    assert_eq!(list.ordering_values(b), (0, 1u64 << 63));
    let c = a.insert_after(&mut list);
    assert_eq!(list.ordering_values(c), (0, 1u64 << 62));
}

#[test]
fn full_group_splits_into_new_super_node() {
    let (mut list, a) = PartialVersion::new();
    let mut last = a;
    let mut all = vec![a];
    for _ in 0..63 {
        last = last.insert_after(&mut list);
        all.push(last);
    }
    // the 64th node split the group: the second half sits in a new super-node half way round
    let (major, minor) = list.ordering_values(all[63]);
    assert_eq!(major, 1u64 << 63);
    assert_eq!(minor, 31u64 << 32);
    assert_eq!(list.ordering_values(all[31]), (0, 31u64 << 32));
    assert_eq!(list.ordering_values(all[32]), (1u64 << 63, 0));
    for i in 0..63 {
        assert!(list.less(all[i], all[i + 1]));
    }
}

#[test]
fn pair_versions_follow_their_origin() {
    let (mut list, v) = Version::new();
    assert!(list.less(v.primary, v.secondary));
    let w = v.insert_after(&mut list);
    assert!(list.less(v.primary, w.primary));
    assert!(list.less(w.primary, w.secondary));
    assert!(list.less(w.secondary, v.secondary));
    assert!(v.less(w, &list));
    assert!(!w.less(v, &list));
}

#[test]
fn versions_are_equal_by_primary() {
    let (mut list, v) = Version::new();
    let w = v.insert_after(&mut list);
    let same_primary = Version { primary: v.primary, secondary: w.secondary };
    assert!(v == same_primary);
    assert!(v != w);
}

#[test]
fn new_partial_version_has_zero_labels() {
    let (list, v) = PartialVersion::new();
    assert_eq!(list.ordering_values(v), (0, 0));
    assert!(list.same(v, v));
    assert_eq!(list.size(), 1);
}
