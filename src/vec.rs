use crate::cell::{lemma_cell_after, lemma_cell_persists, lemma_cell_wf_extends, PersistentCell};
use crate::version::{lemma_id_determines, lemma_total_order, PartialVersion, Version, VersionList};
use vstd::prelude::*;

verus! {

/// A fully persistent vector: one persistent cell per position, and a persistent cell holding
/// the length at each version.
pub struct Vec<T> {
    vec: std::vec::Vec<PersistentCell<T>>,
    len: PersistentCell<usize>,
}

/// A view of a `Vec` at one version.
pub struct VecView<'a, T> {
    pub inner: &'a Vec<T>,
    pub list: &'a VersionList,
    pub version: Version,
}

impl<T> Vec<T> {
    /// Every cell is readable with `list`.
    pub closed spec fn wf(&self, list: &VersionList) -> bool {
        &&& self.cells_wf(list)
        &&& self.full(list)
    }

    spec fn cells_wf(&self, list: &VersionList) -> bool {
        &&& list.wf()
        &&& self.len.wf(list)
        &&& forall|i: int| 0 <= i < self.vec@.len() ==> (#[trigger] self.vec@[i]).wf(list)
    }

    /// At every version, every position below the length holds a value.
    spec fn full(&self, list: &VersionList) -> bool {
        forall|w: PartialVersion, i: int|
            list.contains(w) && 0 <= i < self.len_at(list, w) ==> #[trigger] self.elem_at(
                list,
                w,
                i,
            ) is Some
    }

    /// Versions of `earlier` read the same through `later`.
    proof fn lemma_persist(&self, earlier: &VersionList, later: &VersionList)
        requires
            self.cells_wf(earlier),
            later.extends(earlier),
        ensures
            self.cells_wf(later),
            forall|w: PartialVersion|
                earlier.contains(w) ==> #[trigger] self.len_at(later, w) == self.len_at(earlier, w),
            forall|w: PartialVersion, i: int|
                earlier.contains(w) ==> #[trigger] self.elem_at(later, w, i) == self.elem_at(
                    earlier,
                    w,
                    i,
                ),
    {
        lemma_cell_wf_extends(&self.len, earlier, later);
        assert forall|i: int| 0 <= i < self.vec@.len() implies (#[trigger] self.vec@[i]).wf(later) by {
            lemma_cell_wf_extends(&self.vec@[i], earlier, later);
        }
        assert forall|w: PartialVersion| earlier.contains(w) implies #[trigger] self.len_at(later, w)
            == self.len_at(earlier, w) by {
            lemma_cell_persists(&self.len, earlier, later, w);
        }
        assert forall|w: PartialVersion, i: int| earlier.contains(w) implies #[trigger] self.elem_at(
            later,
            w,
            i,
        ) == self.elem_at(earlier, w, i) by {
            if 0 <= i < self.vec@.len() {
                lemma_cell_persists(&self.vec@[i], earlier, later, w);
            }
        }
    }

    /// A version placed right after `v` reads what `v` read, in the cells other than `skip`.
    proof fn lemma_follow(
        &self,
        earlier: &VersionList,
        later: &VersionList,
        v: PartialVersion,
        nv: PartialVersion,
        skip: int,
    )
        requires
            self.cells_wf(earlier),
            later.extends(earlier),
            earlier.contains(v),
            later.contains(nv),
            later.precedes(v, nv),
            forall|a: PartialVersion|
                earlier.contains(a) && earlier.precedes(v, a) ==> later.precedes(nv, a),
        ensures
            self.len_at(later, nv) == self.len_at(earlier, v),
            forall|i: int| i != skip ==> #[trigger] self.elem_at(later, nv, i) == self.elem_at(earlier, v, i),
    {
        lemma_cell_after(&self.len, earlier, later, v, nv);
        assert forall|i: int| i != skip implies #[trigger] self.elem_at(later, nv, i) == self.elem_at(
            earlier,
            v,
            i,
        ) by {
            if 0 <= i < self.vec@.len() {
                lemma_cell_after(&self.vec@[i], earlier, later, v, nv);
            }
        }
    }

    /// Number of positions that have a cell.
    pub closed spec fn positions(&self) -> nat {
        self.vec@.len()
    }

    /// The length at version `v`: zero before the first push.
    pub closed spec fn len_at(&self, list: &VersionList, v: PartialVersion) -> int {
        match self.len.value_at(list, v) {
            Some(n) => n as int,
            None => 0,
        }
    }

    /// What position `i` holds at version `v`, if its cell was ever written.
    pub closed spec fn elem_at(&self, list: &VersionList, v: PartialVersion, i: int) -> Option<T> {
        if 0 <= i < self.vec@.len() {
            self.vec@[i].value_at(list, v)
        } else {
            None
        }
    }

    pub fn new() -> (r: Vec<T>)
        ensures
            forall|list: &VersionList| list.wf() ==> #[trigger] r.wf(list),
            forall|list: &VersionList, v: PartialVersion| #[trigger] r.len_at(list, v) == 0,
    {
        let r = Vec { vec: std::vec::Vec::new(), len: PersistentCell::new() };
        proof {
            assert forall|list: &VersionList| list.wf() implies #[trigger] r.wf(list) by {
                assert(r.len.wf(list));
                assert forall|w: PartialVersion| #[trigger] r.len_at(list, w) == 0 by {
                    assert(r.len.value_at(list, w) is None);
                }
            }
        }
        r
    }

    /// The length at `version`.
    pub fn len(&self, list: &VersionList, version: Version) -> (r: usize)
        requires
            self.wf(list),
            list.contains(version.primary),
        ensures
            r as int == self.len_at(list, version.primary),
    {
        match self.len.get(list, version) {
            Some(n) => *n,
            None => 0,
        }
    }

    /// Records length `len` at a new version after `version`.
    fn set_len_after(&mut self, list: &mut VersionList, version: Version, len: usize) -> (r:
        Version)
        requires
            old(self).wf(old(list)),
            old(list).contains(version.primary),
            old(list).len() + 2 < 0x4000_0000_0000_0000,
            old(list).len() + 2 < usize::MAX,
            forall|i: int|
                0 <= i < len ==> #[trigger] old(self).elem_at(old(list), version.primary, i) is Some,
        ensures
            final(self).wf(final(list)),
            final(list).extends(old(list)),
            final(list).contains(r.primary),
            final(list).len() == old(list).len() + 2,
            final(list).precedes(version.primary, r.primary),
            forall|a: PartialVersion|
                old(list).contains(a) && old(list).precedes(version.primary, a)
                    ==> final(list).precedes(r.primary, a),
            final(self).len_at(final(list), r.primary) == len,
            final(self).vec@ == old(self).vec@,
            forall|w: PartialVersion|
                old(list).contains(w) ==> #[trigger] final(self).len_at(final(list), w) == old(self).len_at(old(list), w),
            forall|w: PartialVersion, i: int|
                old(list).contains(w) ==> #[trigger] final(self).elem_at(final(list), w, i) == old(self).elem_at(old(list), w, i),
            forall|i: int|
                #[trigger] final(self).elem_at(final(list), r.primary, i) == old(self).elem_at(
                    old(list),
                    version.primary,
                    i,
                ),
    {
        let ghost l0 = *old(list);
        let ghost s0 = *old(self);
        let r = self.len.insert_after(list, version, len);
        proof {
            assert forall|a: PartialVersion|
                l0.contains(a) && l0.precedes(version.primary, a) implies list.precedes(
                r.primary,
                a,
            ) by {
                lemma_total_order(list, r.primary, r.secondary, a);
            }
            lemma_total_order(list, version.primary, r.primary, r.secondary);
            s0.lemma_persist(&l0, list);
            s0.lemma_follow(&l0, list, version.primary, r.primary, -1);
            s0.lemma_follow(&l0, list, version.primary, r.secondary, -1);
            assert forall|w: PartialVersion, i: int| l0.contains(w) implies #[trigger] self.elem_at(
                list,
                w,
                i,
            ) == s0.elem_at(&l0, w, i) by {
                assert(self.elem_at(list, w, i) == s0.elem_at(list, w, i));
            }
            assert forall|i: int| #[trigger] self.elem_at(list, r.primary, i) == s0.elem_at(
                &l0,
                version.primary,
                i,
            ) by {
                assert(self.elem_at(list, r.primary, i) == s0.elem_at(list, r.primary, i));
            }
            assert(self.cells_wf(list)) by {
                assert forall|i: int| 0 <= i < self.vec@.len() implies (#[trigger] self.vec@[i]).wf(
                    list,
                ) by {
                    assert(s0.vec@[i].wf(list));
                }
            }
            assert forall|w: PartialVersion, i: int|
                list.contains(w) && 0 <= i < self.len_at(list, w) implies #[trigger] self.elem_at(
                list,
                w,
                i,
            ) is Some by {
                assert(self.elem_at(list, w, i) == s0.elem_at(list, w, i));
                if w.id() < l0.len() {
                    assert(s0.elem_at(&l0, w, i) is Some);
                } else if w.id() == l0.len() {
                    lemma_id_determines(w, r.primary);
                } else {
                    lemma_id_determines(w, r.secondary);
                    assert(s0.elem_at(&l0, version.primary, i) is Some);
                }
            }
        }
        r
    }

    /// Appends `value` at a new version after `version`.
    pub fn push_after(&mut self, list: &mut VersionList, value: T, version: Version) -> (r:
        Version)
        requires
            old(self).wf(old(list)),
            old(list).contains(version.primary),
            old(list).len() + 4 < 0x4000_0000_0000_0000,
            old(list).len() + 4 < usize::MAX,
            old(self).len_at(old(list), version.primary) + 1 < usize::MAX,
        ensures
            final(self).wf(final(list)),
            final(list).extends(old(list)),
            final(list).len() == old(list).len() + 4,
            final(list).contains(r.primary),
            final(list).precedes(version.primary, r.primary),
            final(self).len_at(final(list), r.primary) == old(self).len_at(
                old(list),
                version.primary,
            ) + 1,
            forall|i: int|
                0 <= i < old(self).len_at(old(list), version.primary) ==> #[trigger] final(
                    self).elem_at(final(list), r.primary, i) == old(self).elem_at(
                    old(list),
                    version.primary,
                    i,
                ),
            final(self).elem_at(
                final(list),
                r.primary,
                old(self).len_at(old(list), version.primary),
            ) == Some(value),
            forall|w: PartialVersion|
                old(list).contains(w) ==> #[trigger] final(self).len_at(final(list), w) == old(self).len_at(old(list), w),
            forall|w: PartialVersion, i: int|
                old(list).contains(w) && 0 <= i < old(self).positions() ==> #[trigger] final(self).elem_at(final(list), w, i) == old(self).elem_at(old(list), w, i),
    {
        let ghost l0 = *old(list);
        let len = self.len(list, version);
        while self.vec.len() <= len
            invariant
                self.wf(list),
                *list == l0,
                self.len == old(self).len,
                self.vec@.len() >= old(self).vec@.len(),
                forall|i: int| 0 <= i < old(self).vec@.len() ==> self.vec@[i] == old(self).vec@[i],
            decreases len + 1 - self.vec@.len(),
        {
            let c = PersistentCell::new();
            proof {
                assert(list.wf());
                assert(c.wf(list));
            }
            let ghost pre = *self;
            self.vec.push(c);
            proof {
                assert forall|w: PartialVersion, i: int|
                    list.contains(w) && 0 <= i < self.len_at(list, w) implies #[trigger] self.elem_at(
                    list,
                    w,
                    i,
                ) is Some by {
                    assert(pre.elem_at(list, w, i) is Some);
                }
                assert forall|i: int| 0 <= i < self.vec@.len() implies (#[trigger] self.vec@[i]).wf(
                    list,
                ) by {
                    if i < pre.vec@.len() {
                        assert(self.vec@[i] == pre.vec@[i]);
                    }
                }
            }
        }
        let ghost s_mid = *self;
        let mut cell = self.vec.remove(len);
        let ghost mid = *list;
        let v1 = cell.insert_after(list, version, value);
        self.vec.insert(len, cell);
        proof {
            lemma_total_order(list, version.primary, v1.primary, v1.secondary);
            assert forall|a: PartialVersion|
                mid.contains(a) && mid.precedes(version.primary, a) implies list.precedes(
                v1.primary,
                a,
            ) by {
                lemma_total_order(list, v1.primary, v1.secondary, a);
            }
            s_mid.lemma_persist(&mid, list);
            s_mid.lemma_follow(&mid, list, version.primary, v1.primary, len as int);
            s_mid.lemma_follow(&mid, list, version.primary, v1.secondary, len as int);
            assert forall|i: int| 0 <= i < self.vec@.len() implies (#[trigger] self.vec@[i]).wf(
                list,
            ) by {
                if i != len {
                    assert(self.vec@[i] == s_mid.vec@[i]);
                }
            }
            assert forall|w: PartialVersion, i: int| mid.contains(w) implies #[trigger] self.elem_at(
                list,
                w,
                i,
            ) == s_mid.elem_at(&mid, w, i) by {
                if i != len {
                    assert(self.elem_at(list, w, i) == s_mid.elem_at(list, w, i));
                }
            }
            assert forall|i: int| i != len implies #[trigger] self.elem_at(list, v1.primary, i)
                == s_mid.elem_at(&mid, version.primary, i) by {
                assert(self.elem_at(list, v1.primary, i) == s_mid.elem_at(list, v1.primary, i));
            }
            assert forall|w: PartialVersion, i: int|
                list.contains(w) && 0 <= i < self.len_at(list, w) implies #[trigger] self.elem_at(
                list,
                w,
                i,
            ) is Some by {
                assert(self.len_at(list, w) == s_mid.len_at(list, w));
                if w.id() < mid.len() {
                    assert(s_mid.len_at(list, w) == s_mid.len_at(&mid, w));
                    assert(s_mid.elem_at(&mid, w, i) is Some);
                } else if w.id() == mid.len() {
                    lemma_id_determines(w, v1.primary);
                    assert(s_mid.elem_at(&mid, version.primary, i) is Some);
                } else {
                    lemma_id_determines(w, v1.secondary);
                    assert(self.elem_at(list, w, i) == s_mid.elem_at(list, w, i));
                    assert(s_mid.elem_at(&mid, version.primary, i) is Some);
                }
            }
            assert(self.wf(list));
            assert forall|i: int| 0 <= i < len + 1 implies #[trigger] self.elem_at(
                list,
                v1.primary,
                i,
            ) is Some by {
                if i < len {
                    assert(s_mid.elem_at(&mid, version.primary, i) is Some);
                }
            }
        }
        let ghost l1 = *list;
        let ghost s1 = *self;
        let r = self.set_len_after(list, v1, len + 1);
        proof {
            assert forall|i: int| 0 <= i < len implies #[trigger] self.elem_at(list, r.primary, i)
                == old(self).elem_at(&l0, version.primary, i) by {
                assert(self.elem_at(list, r.primary, i) == s1.elem_at(&l1, v1.primary, i));
                assert(old(self).elem_at(&l0, version.primary, i) is Some);
                assert(s_mid.vec@[i] == old(self).vec@[i]);
            }
            assert(list.precedes(version.primary, r.primary)) by {
                crate::version::lemma_total_order(list, version.primary, v1.primary, r.primary);
            }
            assert(self.vec@[len as int].value_at(list, r.primary) == Some(value)) by {
                lemma_cell_after(&self.vec@[len as int], &l1, list, v1.primary, r.primary);
            }
            assert forall|w: PartialVersion| l0.contains(w) implies #[trigger] self.len_at(list, w)
                == old(self).len_at(&l0, w) by {
                lemma_cell_persists(&old(self).len, &l0, &l1, w);
            }
            assert forall|w: PartialVersion, i: int|
                l0.contains(w) && 0 <= i < old(self).vec@.len() implies #[trigger] self.elem_at(
                list,
                w,
                i,
            ) == old(self).elem_at(&l0, w, i) by {
                if i == len {
                    assert(self.vec@[i].value_at(&l1, w) == old(self).vec@[i].value_at(&l0, w));
                } else {
                    lemma_cell_persists(&old(self).vec@[i], &l0, &l1, w);
                }
                lemma_cell_persists(&self.vec@[i], &l1, list, w);
            }
        }
        r
    }

    /// Removes the last element at a new version after `version`; the cells keep their
    /// contents, only the length shrinks.
    pub fn pop_after(&mut self, list: &mut VersionList, version: Version) -> (r: Version)
        requires
            old(self).wf(old(list)),
            old(list).contains(version.primary),
            old(list).len() + 2 < 0x4000_0000_0000_0000,
            old(list).len() + 2 < usize::MAX,
            old(self).len_at(old(list), version.primary) > 0,
        ensures
            final(self).wf(final(list)),
            final(list).extends(old(list)),
            final(list).len() == old(list).len() + 2,
            final(list).contains(r.primary),
            final(list).precedes(version.primary, r.primary),
            final(self).len_at(final(list), r.primary) == old(self).len_at(
                old(list),
                version.primary,
            ) - 1,
            forall|w: PartialVersion|
                old(list).contains(w) ==> #[trigger] final(self).len_at(final(list), w) == old(self).len_at(old(list), w),
            forall|i: int|
                #[trigger] final(self).elem_at(final(list), r.primary, i) == old(self).elem_at(
                    old(list),
                    version.primary,
                    i,
                ),
            forall|w: PartialVersion, i: int|
                old(list).contains(w) ==> #[trigger] final(self).elem_at(final(list), w, i) == old(self).elem_at(old(list), w, i),
    {
        let len = self.len(list, version);
        proof {
            assert forall|i: int| 0 <= i < len - 1 implies #[trigger] self.elem_at(
                list,
                version.primary,
                i,
            ) is Some by {}
        }
        self.set_len_after(list, version, len - 1)
    }

    /// The vector as it is at `version`.
    pub fn view<'a>(&'a self, list: &'a VersionList, version: Version) -> (r: VecView<'a, T>)
        requires
            self.wf(list),
            list.contains(version.primary),
        ensures
            r.inner == self,
            r.list == list,
            r.version == version,
    {
        VecView { inner: self, list, version }
    }
}

impl<'a, T> VecView<'a, T> {
    /// The element at `index`, or `None` when `index` is not below the length at this version.
    pub fn index(&self, index: usize) -> (r: Option<&'a T>)
        requires
            self.inner.wf(self.list),
            self.list.contains(self.version.primary),
        ensures
            (index as int) >= self.inner.len_at(self.list, self.version.primary) <==> r is None,
            match r {
                Some(x) => self.inner.elem_at(self.list, self.version.primary, index as int)
                    == Some(*x),
                None => true,
            },
    {
        let len = self.inner.len(self.list, self.version);
        if index >= len || index >= self.inner.vec.len() {
            return None;
        }
        self.inner.vec[index].get(self.list, self.version)
    }
}

} // verus!
