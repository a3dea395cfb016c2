use persistent::{PersistentCell, Version};

struct Lcg(u64);

impl Lcg {
    fn next(&mut self) -> u64 {
        self.0 = self.0.wrapping_mul(6364136223846793005).wrapping_add(1442695040888963407);
        self.0
    }

    fn coin(&mut self) -> bool {
        self.next() >> 63 == 1
    }
}

#[test]
fn partial_persistent_test() {
    let mut rng = Lcg(3);
    let mut vec = Vec::new();
    let mut cell = PersistentCell::new();
    let (mut list, mut version) = Version::new();
    for _ in 0..10 {
        let value = rng.next();
        version = cell.insert_after(&mut list, version, value);
        vec.push((version, value));
    }
    for (version, value) in vec {
        assert_eq!(cell.get(&list, version), Some(&value));
    }
}

#[test]
fn double_test() {
    let mut rng = Lcg(5);
    let mut vec = Vec::new();
    let mut cell1 = PersistentCell::new();
    let mut cell2 = PersistentCell::new();
    let (mut list, mut version) = Version::new();
    vec.push((version, None, None));
    for _ in 0..20 {
        if rng.coin() {
            let value = rng.next();
            version = cell1.insert_after(&mut list, version, value);
            let (_, _, b) = *vec.last().unwrap();
            vec.push((version, Some(value), b));
        } else {
            let value = rng.next();
            version = cell2.insert_after(&mut list, version, value);
            let (_, a, _) = *vec.last().unwrap();
            vec.push((version, a, Some(value)));
        }
    }
    for (version, value1, value2) in vec {
        assert_eq!(cell1.get(&list, version), value1.as_ref());
        assert_eq!(cell2.get(&list, version), value2.as_ref());
    }
}

fn branch(
    rng: &mut Lcg,
    list: &mut persistent::VersionList,
    mut version: Version,
    cell1: &mut PersistentCell<u64>,
    cell2: &mut PersistentCell<u64>,
    value1: Option<u64>,
    value2: Option<u64>,
) {
    let mut vec = Vec::new();
    vec.push((version, value1, value2));
    for _ in 0..10 {
        if rng.coin() {
            let value = rng.next();
            version = cell1.insert_after(list, version, value);
            let (_, _, b) = *vec.last().unwrap();
            vec.push((version, Some(value), b));
        } else {
            let value = rng.next();
            version = cell2.insert_after(list, version, value);
            let (_, a, _) = *vec.last().unwrap();
            vec.push((version, a, Some(value)));
        }
    }
    for &(version, value1, value2) in &vec {
        assert_eq!(cell1.get(list, version), value1.as_ref());
        assert_eq!(cell2.get(list, version), value2.as_ref());
    }
}

#[test]
fn full_persistent_test() {
    let mut rng = Lcg(9);
    let mut vec = Vec::new();
    let mut cell1 = PersistentCell::new();
    let mut cell2 = PersistentCell::new();
    let (mut list, mut version) = Version::new();
    vec.push((version, None, None));
    for _ in 0..20 {
        if rng.coin() {
            let value = rng.next();
            version = cell1.insert_after(&mut list, version, value);
            let (_, _, b) = *vec.last().unwrap();
            vec.push((version, Some(value), b));
        } else {
            let value = rng.next();
            version = cell2.insert_after(&mut list, version, value);
            let (_, a, _) = *vec.last().unwrap();
            vec.push((version, a, Some(value)));
        }
    }
    for &(version, value1, value2) in &vec {
        assert_eq!(cell1.get(&list, version), value1.as_ref());
        assert_eq!(cell2.get(&list, version), value2.as_ref());
    }
    for &(version, value1, value2) in &vec {
        branch(&mut rng, &mut list, version, &mut cell1, &mut cell2, value1, value2);
    }
    for &(version, value1, value2) in &vec {
        assert_eq!(cell1.get(&list, version), value1.as_ref());
        assert_eq!(cell2.get(&list, version), value2.as_ref());
    }
}

#[test]
fn cell_is_empty_before_first_value() {
    let cell: PersistentCell<u32> = PersistentCell::new();
    let (list, v) = Version::new();
    assert_eq!(cell.get(&list, v), None);
}

#[test]
fn cell_secondary_restores_earlier_value() {
    let mut cell = PersistentCell::new();
    let (mut list, v0) = Version::new();
    let v1 = cell.insert_after(&mut list, v0, 1u8);
    let v2 = cell.insert_after(&mut list, v1, 2u8);
    // a branch off v1 sees 1 again at its secondary, not the later 2
    let b = cell.insert_after(&mut list, v1, 3u8);
    assert_eq!(cell.get(&list, b), Some(&3));
    let after_b = Version { primary: b.secondary, secondary: b.secondary };
    assert_eq!(cell.get(&list, after_b), Some(&1));
    assert_eq!(cell.get(&list, v2), Some(&2));
    assert_eq!(cell.get(&list, v1), Some(&1));
    assert_eq!(cell.get(&list, v0), None);
}

#[test]
fn cell_get_mut_changes_owned_value_only() {
    let mut cell = PersistentCell::new();
    let (mut list, v0) = Version::new();
    assert!(cell.get_mut(&list, v0).is_none());
    let v1 = cell.insert_after(&mut list, v0, 5u32);
    let after = Version { primary: v1.secondary, secondary: v1.secondary };
    assert!(cell.get_mut(&list, after).is_none());
    if let Some(x) = cell.get_mut(&list, v1) {
        *x = 6;
    }
    assert_eq!(cell.get(&list, v1), Some(&6));
    assert_eq!(cell.get(&list, v0), None);
}
