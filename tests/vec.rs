use persistent::vec::Vec as PVec;
use persistent::Version;

#[test]
fn vec_push_and_pop_keep_old_versions() {
    let mut v: PVec<u32> = PVec::new();
    let (mut list, v0) = Version::new();
    assert_eq!(v.len(&list, v0), 0);
    let v1 = v.push_after(&mut list, 10, v0);
    let v2 = v.push_after(&mut list, 20, v1);
    let v3 = v.pop_after(&mut list, v2);
    let v4 = v.push_after(&mut list, 30, v3);
    assert_eq!(v.len(&list, v1), 1);
    assert_eq!(v.len(&list, v2), 2);
    assert_eq!(v.len(&list, v3), 1);
    assert_eq!(v.len(&list, v4), 2);
    assert_eq!(v.view(&list, v2).index(1), Some(&20));
    assert_eq!(v.view(&list, v4).index(1), Some(&30));
    assert_eq!(v.view(&list, v4).index(0), Some(&10));
    assert_eq!(v.view(&list, v3).index(1), None);
    assert_eq!(v.view(&list, v0).index(0), None);
}

#[test]
fn vec_branches_are_independent() {
    let mut v: PVec<&str> = PVec::new();
    let (mut list, v0) = Version::new();
    let a = v.push_after(&mut list, "a", v0);
    let b = v.push_after(&mut list, "b", a);
    let c = v.push_after(&mut list, "c", a);
    assert_eq!(v.view(&list, b).index(1), Some(&"b"));
    assert_eq!(v.view(&list, c).index(1), Some(&"c"));
    assert_eq!(v.len(&list, a), 1);
    assert_eq!(v.view(&list, a).index(1), None);
}

#[test]
fn vec_length_sequence_after_pushes_and_pop() {
    let mut v: PVec<u64> = PVec::new();
    let (mut list, w0) = Version::new();
    let w1 = v.push_after(&mut list, 7, w0);
    let w2 = v.push_after(&mut list, 8, w1);
    let w3 = v.pop_after(&mut list, w2);
    assert_eq!(v.len(&list, w0), 0);
    assert_eq!(v.len(&list, w1), 1);
    assert_eq!(v.len(&list, w2), 2);
    assert_eq!(v.len(&list, w3), 1);
    assert_eq!(v.view(&list, w3).index(0), Some(&7));
    assert_eq!(v.view(&list, w2).index(0), Some(&7));
}
