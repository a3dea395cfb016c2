use crate::version::{lemma_total_order, PartialVersion, Version, VersionList};
use vstd::prelude::*;

verus! {

/// What a cell records at one of its keys: a value of its own, or the index of the value that
/// was seen before the key.
#[derive(Clone, Copy)]
enum Slot {
    Owned(usize),
    Pointer(Option<usize>),
}

/// A fully persistent memory cell. Its keys are versions of one `VersionList`, kept in list
/// order; reading at a version finds the last key at or before it.
pub struct PersistentCell<T> {
    keys: Vec<PartialVersion>,
    slots: Vec<Slot>,
    values: Vec<T>,
}

impl<T> PersistentCell<T> {
    /// The cell's keys are versions of `list`, in increasing order.
    pub closed spec fn wf(&self, list: &VersionList) -> bool {
        &&& list.wf()
        &&& self.keys@.len() == self.slots@.len()
        &&& forall|i: int| 0 <= i < self.keys@.len() ==> list.contains(#[trigger] self.keys@[i])
        &&& forall|i: int, j: int|
            0 <= i < j < self.keys@.len() ==> list.precedes(
                #[trigger] self.keys@[i],
                #[trigger] self.keys@[j],
            )
        &&& forall|i: int|
            0 <= i < self.slots@.len() ==> match #[trigger] self.slots@[i] {
                Slot::Owned(x) => (x as int) < self.values@.len(),
                Slot::Pointer(Some(x)) => (x as int) < self.values@.len(),
                Slot::Pointer(None) => true,
            }
    }

    /// Keys before position `k` are at or before `v`; keys from `k` on come after it.
    spec fn splits_at(&self, list: &VersionList, v: PartialVersion, k: int) -> bool {
        &&& 0 <= k <= self.keys@.len()
        &&& forall|i: int| 0 <= i < k ==> !list.precedes(v, #[trigger] self.keys@[i])
        &&& forall|i: int| k <= i < self.keys@.len() ==> list.precedes(v, #[trigger] self.keys@[i])
    }

    spec fn slot_value(&self, i: int) -> Option<T> {
        match self.slots@[i] {
            Slot::Owned(x) => Some(self.values@[x as int]),
            Slot::Pointer(Some(x)) => Some(self.values@[x as int]),
            Slot::Pointer(None) => None,
        }
    }

    /// The value seen at version `v`: the one recorded at the last key at or before `v`.
    pub closed spec fn value_at(&self, list: &VersionList, v: PartialVersion) -> Option<T> {
        let k = choose|k: int| self.splits_at(list, v, k);
        if k <= 0 {
            None
        } else {
            self.slot_value(k - 1)
        }
    }

    proof fn lemma_split_unique(&self, list: &VersionList, v: PartialVersion, k1: int, k2: int)
        requires
            self.splits_at(list, v, k1),
            self.splits_at(list, v, k2),
        ensures
            k1 == k2,
    {
        if k1 < k2 {
            assert(!list.precedes(v, self.keys@[k1]));
        } else if k2 < k1 {
            assert(!list.precedes(v, self.keys@[k2]));
        }
    }

    proof fn lemma_value_at(&self, list: &VersionList, v: PartialVersion, k: int)
        requires
            self.splits_at(list, v, k),
        ensures
            self.value_at(list, v) == (if k == 0 {
                None
            } else {
                self.slot_value(k - 1)
            }),
    {
        let c = choose|c: int| self.splits_at(list, v, c);
        self.lemma_split_unique(list, v, c, k);
    }

    /// An empty cell, readable with every list.
    pub fn new() -> (r: PersistentCell<T>)
        ensures
            forall|list: &VersionList| list.wf() ==> #[trigger] r.wf(list),
            forall|list: &VersionList, v: PartialVersion| #[trigger] r.value_at(list, v) is None,
    {
        let r = PersistentCell { keys: Vec::new(), slots: Vec::new(), values: Vec::new() };
        proof {
            assert forall|list: &VersionList, v: PartialVersion| #[trigger] r.value_at(
                list,
                v,
            ) is None by {
                r.lemma_value_at(list, v, 0);
            }
        }
        r
    }

    /// Number of keys at or before `v`, found by binary search over the list order.
    fn split_point(&self, list: &VersionList, v: PartialVersion) -> (k: usize)
        requires
            self.wf(list),
            list.contains(v),
        ensures
            self.splits_at(list, v, k as int),
    {
        let mut lo: usize = 0;
        let mut hi: usize = self.keys.len();
        while lo < hi
            invariant
                self.wf(list),
                list.contains(v),
                lo <= hi <= self.keys@.len(),
                forall|i: int| 0 <= i < lo ==> !list.precedes(v, #[trigger] self.keys@[i]),
                forall|i: int| hi <= i < self.keys@.len() ==> list.precedes(v, #[trigger] self.keys@[i]),
            decreases hi - lo,
        {
            let mid = lo + (hi - lo) / 2;
            if list.less(v, self.keys[mid]) {
                proof {
                    assert forall|i: int| mid <= i < self.keys@.len() implies list.precedes(
                        v,
                        #[trigger] self.keys@[i],
                    ) by {
                        if i > mid {
                            lemma_total_order(list, v, self.keys@[mid as int], self.keys@[i]);
                        }
                    }
                }
                hi = mid;
            } else {
                proof {
                    assert forall|i: int| 0 <= i < mid + 1 implies !list.precedes(
                        v,
                        #[trigger] self.keys@[i],
                    ) by {
                        if i < mid {
                            lemma_total_order(list, v, self.keys@[i], self.keys@[mid as int]);
                        }
                    }
                }
                lo = mid + 1;
            }
        }
        lo
    }

    /// The value this cell holds at `version`, or `None` before the cell's first value.
    pub fn get<'a>(&'a self, list: &VersionList, version: Version) -> (r: Option<&'a T>)
        requires
            self.wf(list),
            list.contains(version.primary),
        ensures
            match r {
                Some(x) => self.value_at(list, version.primary) == Some(*x),
                None => self.value_at(list, version.primary) is None,
            },
    {
        let k = self.split_point(list, version.primary);
        proof {
            self.lemma_value_at(list, version.primary, k as int);
        }
        if k == 0 {
            return None;
        }
        match self.slots[k - 1] {
            Slot::Owned(x) => Some(&self.values[x]),
            Slot::Pointer(Some(x)) => Some(&self.values[x]),
            Slot::Pointer(None) => None,
        }
    }

    /// Stores `value` at a new version right after `version`. At the new version's primary
    /// the cell holds `value`; from its secondary on, what was seen at `version` is seen again;
    /// every version the list held before still reads as it did.
    #[verifier::rlimit(50)]
    pub fn insert_after(&mut self, list: &mut VersionList, version: Version, value: T) -> (r:
        Version)
        requires
            old(self).wf(old(list)),
            old(list).contains(version.primary),
            old(list).len() + 2 < 0x4000_0000_0000_0000,
            old(list).len() + 2 < usize::MAX,
        ensures
            final(self).wf(final(list)),
            final(list).extends(old(list)),
            final(list).contains(r.primary),
            final(list).contains(r.secondary),
            final(list).len() == old(list).len() + 2,
            r.primary.id() == old(list).len(),
            r.secondary.id() == old(list).len() + 1,
            final(list).precedes(version.primary, r.primary),
            final(list).precedes(r.primary, r.secondary),
            forall|a: PartialVersion|
                old(list).contains(a) && old(list).precedes(version.primary, a)
                    ==> final(list).precedes(r.secondary, a),
            final(self).value_at(final(list), r.primary) == Some(value),
            final(self).value_at(final(list), r.secondary) == old(self).value_at(
                old(list),
                version.primary,
            ),
            forall|w: PartialVersion|
                old(list).contains(w) ==> #[trigger] final(self).value_at(final(list), w) == old(self).value_at(old(list), w),
    {
        let k = self.split_point(list, version.primary);
        let ptr = self.get_pointer(list, version);
        let ghost l0 = *list;
        let ghost c0 = *self;
        let new_version = version.insert_after(list);
        let np = new_version.primary;
        let ns = new_version.secondary;
        let x = self.values.len();
        self.values.push(value);
        self.keys.insert(k, np);
        let len = self.keys.len();
        let k1 = k + 1;
        self.keys.insert(k1, ns);
        self.slots.insert(k, Slot::Owned(x));
        self.slots.insert(k1, Slot::Pointer(ptr));
        proof {
            let vp = version.primary;
            let n = c0.keys@.len() as int;
            let ki = k as int;
            assert forall|i: int| 0 <= i < self.keys@.len() implies #[trigger] self.keys@[i] == (
            if i < ki {
                c0.keys@[i]
            } else if i == ki {
                np
            } else if i == ki + 1 {
                ns
            } else {
                c0.keys@[i - 2]
            }) by {}
            assert forall|i: int| 0 <= i < self.slots@.len() implies #[trigger] self.slots@[i] == (
            if i < ki {
                c0.slots@[i]
            } else if i == ki {
                Slot::Owned(x)
            } else if i == ki + 1 {
                Slot::Pointer(ptr)
            } else {
                c0.slots@[i - 2]
            }) by {}
            // old keys keep their order; keys at or before `vp` come before `np`
            assert forall|i: int| 0 <= i < n implies l0.contains(#[trigger] c0.keys@[i]) by {}
            assert forall|i: int| 0 <= i < ki implies list.precedes(#[trigger] c0.keys@[i], np) by {
                assert(!l0.precedes(vp, c0.keys@[i]));
                lemma_total_order(&l0, vp, c0.keys@[i], vp);
                if c0.keys@[i] != vp {
                    assert(l0.precedes(c0.keys@[i], vp));
                    assert(list.precedes(c0.keys@[i], vp));
                    lemma_total_order(list, c0.keys@[i], vp, np);
                }
            }
            assert forall|i: int| ki <= i < n implies list.precedes(ns, #[trigger] c0.keys@[i]) by {
                assert(l0.precedes(vp, c0.keys@[i]));
            }
            assert forall|i: int| ki <= i < n implies list.precedes(np, #[trigger] c0.keys@[i]) by {
                assert(list.precedes(ns, c0.keys@[i]));
                lemma_total_order(list, np, ns, c0.keys@[i]);
            }
            assert forall|i: int, j: int|
                0 <= i < j < self.keys@.len() implies list.precedes(
                #[trigger] self.keys@[i],
                #[trigger] self.keys@[j],
            ) by {
                if i != ki && i != ki + 1 && j != ki && j != ki + 1 {
                    let a = if i < ki { i } else { i - 2 };
                    let b = if j < ki { j } else { j - 2 };
                    assert(l0.precedes(c0.keys@[a], c0.keys@[b]));
                } else if i < ki && j == ki + 1 {
                    lemma_total_order(list, c0.keys@[i], np, ns);
                }
            }
            assert forall|i: int| 0 <= i < self.keys@.len() implies list.contains(
                #[trigger] self.keys@[i],
            ) by {
                if i < ki {
                    assert(l0.contains(c0.keys@[i]));
                } else if i > ki + 1 {
                    assert(l0.contains(c0.keys@[i - 2]));
                }
            }
            assert forall|i: int| 0 <= i < self.slots@.len() implies match #[trigger] self.slots@[i] {
                Slot::Owned(y) => (y as int) < self.values@.len(),
                Slot::Pointer(Some(y)) => (y as int) < self.values@.len(),
                Slot::Pointer(None) => true,
            } by {
                if i < ki {
                    assert(c0.slots@[i] == self.slots@[i]);
                } else if i > ki + 1 {
                    assert(c0.slots@[i - 2] == self.slots@[i]);
                }
            }
            assert(self.wf(list));
            assert forall|i: int| 0 <= i < n implies #[trigger] c0.slot_value(i) == self.slot_value(
                if i < ki {
                    i
                } else {
                    i + 2
                },
            ) by {
                if i < ki {
                    assert(self.slots@[i] == c0.slots@[i]);
                } else {
                    assert(self.slots@[i + 2] == c0.slots@[i]);
                }
            }
            // the new primary
            assert(self.splits_at(list, np, ki + 1)) by {
                assert forall|i: int| 0 <= i < ki + 1 implies !list.precedes(
                    np,
                    #[trigger] self.keys@[i],
                ) by {
                    if i < ki {
                        lemma_total_order(list, c0.keys@[i], np, np);
                    } else {
                        lemma_total_order(list, np, np, np);
                    }
                }
            }
            self.lemma_value_at(list, np, ki + 1);
            // the new secondary
            assert(self.splits_at(list, ns, ki + 2)) by {
                assert forall|i: int| 0 <= i < ki + 2 implies !list.precedes(
                    ns,
                    #[trigger] self.keys@[i],
                ) by {
                    if i < ki {
                        lemma_total_order(list, c0.keys@[i], np, ns);
                        lemma_total_order(list, c0.keys@[i], ns, ns);
                    } else {
                        lemma_total_order(list, np, ns, ns);
                        lemma_total_order(list, ns, ns, ns);
                    }
                }
                assert forall|i: int| ki + 2 <= i < self.keys@.len() implies list.precedes(
                    ns,
                    #[trigger] self.keys@[i],
                ) by {
                    assert(self.keys@[i] == c0.keys@[i - 2]);
                }
            }
            self.lemma_value_at(list, ns, ki + 2);
            c0.lemma_value_at(&l0, vp, ki);
            // versions that were already there
            assert(self.slot_value(ki + 1) == (if ki == 0 {
                None
            } else {
                c0.slot_value(ki - 1)
            }));
            self.lemma_inserted_values(&c0, &l0, list, vp, np, ns, ki);
        }
        new_version
    }

    /// Every version of `l0` reads the same after `np` and `ns` were placed at `k`.
    proof fn lemma_inserted_values(
        &self,
        c0: &PersistentCell<T>,
        l0: &VersionList,
        list: &VersionList,
        vp: PartialVersion,
        np: PartialVersion,
        ns: PartialVersion,
        k: int,
    )
        requires
            c0.wf(l0),
            list.extends(l0),
            l0.contains(vp),
            list.contains(np),
            list.contains(ns),
            list.precedes(vp, np),
            list.precedes(np, ns),
            forall|a: PartialVersion| l0.contains(a) && l0.precedes(vp, a) ==> list.precedes(ns, a),
            c0.splits_at(l0, vp, k),
            self.keys@.len() == c0.keys@.len() + 2,
            forall|i: int| 0 <= i < self.keys@.len() ==> #[trigger] self.keys@[i] == (if i < k {
                c0.keys@[i]
            } else if i == k {
                np
            } else if i == k + 1 {
                ns
            } else {
                c0.keys@[i - 2]
            }),
            forall|i: int|
                0 <= i < c0.keys@.len() ==> #[trigger] c0.slot_value(i) == self.slot_value(
                    if i < k {
                        i
                    } else {
                        i + 2
                    },
                ),
            self.slot_value(k + 1) == (if k == 0 {
                None
            } else {
                c0.slot_value(k - 1)
            }),
        ensures
            forall|w: PartialVersion|
                l0.contains(w) ==> #[trigger] self.value_at(list, w) == c0.value_at(l0, w),
    {
        assert forall|w: PartialVersion| l0.contains(w) implies #[trigger] self.value_at(list, w)
            == c0.value_at(l0, w) by {
            lemma_splits_exist(c0, l0, w);
            let kw = choose|kw: int| c0.splits_at(l0, w, kw);
            c0.lemma_value_at(l0, w, kw);
            self.lemma_inserted_split(c0, l0, list, vp, np, ns, w, k, kw);
            if l0.precedes(vp, w) {
                self.lemma_value_at(list, w, kw + 2);
                if kw > k {
                    assert(c0.slot_value(kw - 1) == self.slot_value(kw + 1));
                }
            } else {
                self.lemma_value_at(list, w, kw);
                if kw > 0 {
                    assert(c0.slot_value(kw - 1) == self.slot_value(kw - 1));
                }
            }
        }
    }

    /// Where an old version `w` splits the keys after `np` and `ns` were placed at `k`.
    proof fn lemma_inserted_split(
        &self,
        c0: &PersistentCell<T>,
        l0: &VersionList,
        list: &VersionList,
        vp: PartialVersion,
        np: PartialVersion,
        ns: PartialVersion,
        w: PartialVersion,
        k: int,
        kw: int,
    )
        requires
            c0.wf(l0),
            list.extends(l0),
            l0.contains(vp),
            l0.contains(w),
            list.contains(np),
            list.contains(ns),
            list.precedes(vp, np),
            list.precedes(np, ns),
            forall|a: PartialVersion| l0.contains(a) && l0.precedes(vp, a) ==> list.precedes(ns, a),
            c0.splits_at(l0, vp, k),
            c0.splits_at(l0, w, kw),
            self.keys@.len() == c0.keys@.len() + 2,
            forall|i: int| 0 <= i < self.keys@.len() ==> #[trigger] self.keys@[i] == (if i < k {
                c0.keys@[i]
            } else if i == k {
                np
            } else if i == k + 1 {
                ns
            } else {
                c0.keys@[i - 2]
            }),
        ensures
            !l0.precedes(vp, w) ==> kw <= k && self.splits_at(list, w, kw),
            l0.precedes(vp, w) ==> kw >= k && self.splits_at(list, w, kw + 2),
    {
        let n = c0.keys@.len() as int;
        assert forall|i: int| 0 <= i < n implies l0.contains(#[trigger] c0.keys@[i]) by {}
        assert forall|i: int| 0 <= i < n implies (list.precedes(w, #[trigger] c0.keys@[i])
            == l0.precedes(w, c0.keys@[i])) by {}
        if !l0.precedes(vp, w) {
            if kw > k {
                assert(l0.precedes(vp, c0.keys@[k]));
                assert(!l0.precedes(w, c0.keys@[k]));
                lemma_total_order(l0, w, c0.keys@[k], w);
                lemma_total_order(l0, vp, c0.keys@[k], w);
            }
            lemma_total_order(l0, vp, w, w);
            assert(list.precedes(w, np)) by {
                if w != vp {
                    assert(l0.precedes(w, vp));
                    assert(list.precedes(w, vp));
                    lemma_total_order(list, w, vp, np);
                }
            }
            assert(list.precedes(w, ns)) by {
                lemma_total_order(list, w, np, ns);
            }
            assert forall|i: int| kw <= i < self.keys@.len() implies list.precedes(
                w,
                #[trigger] self.keys@[i],
            ) by {
                if i > k + 1 {
                    assert(self.keys@[i] == c0.keys@[i - 2]);
                }
            }
            assert forall|i: int| 0 <= i < kw implies !list.precedes(w, #[trigger] self.keys@[i]) by {
                assert(self.keys@[i] == c0.keys@[i]);
            }
        } else {
            if kw < k {
                assert(!l0.precedes(vp, c0.keys@[kw]));
                assert(l0.precedes(w, c0.keys@[kw]));
                lemma_total_order(l0, vp, c0.keys@[kw], vp);
                lemma_total_order(l0, w, c0.keys@[kw], vp);
                lemma_total_order(l0, vp, w, vp);
            }
            assert(list.precedes(ns, w));
            lemma_total_order(list, np, ns, w);
            lemma_total_order(list, w, ns, w);
            lemma_total_order(list, w, np, w);
            assert forall|i: int| 0 <= i < kw + 2 implies !list.precedes(w, #[trigger] self.keys@[i])
                by {
                if i > k + 1 {
                    assert(self.keys@[i] == c0.keys@[i - 2]);
                } else if i < k {
                    assert(self.keys@[i] == c0.keys@[i]);
                }
            }
            assert forall|i: int| kw + 2 <= i < self.keys@.len() implies list.precedes(
                w,
                #[trigger] self.keys@[i],
            ) by {
                assert(self.keys@[i] == c0.keys@[i - 2]);
            }
        }
    }

    /// Whether the last key at or before `v` owns its value (rather than pointing to an earlier
    /// one).
    pub closed spec fn owns_at(&self, list: &VersionList, v: PartialVersion) -> bool {
        let k = choose|k: int| self.splits_at(list, v, k);
        k > 0 && self.slots@[k - 1] is Owned
    }

    /// The value owned by the last key at or before `version`, for changing in place; `None`
    /// when that key only points to an earlier value, or there is none. A change shows at every
    /// version that reads this value.
    pub fn get_mut<'a>(&'a mut self, list: &VersionList, version: Version) -> (r: Option<&'a mut T>)
        requires
            old(self).wf(list),
            list.contains(version.primary),
        ensures
            r is Some <==> old(self).owns_at(list, version.primary),
            match r {
                Some(x) => old(self).value_at(list, version.primary) == Some(*x),
                None => *final(self) == *old(self),
            },
    {
        let k = self.split_point(list, version.primary);
        proof {
            self.lemma_value_at(list, version.primary, k as int);
            let c = choose|c: int| self.splits_at(list, version.primary, c);
            self.lemma_split_unique(list, version.primary, c, k as int);
        }
        if k == 0 {
            return None;
        }
        match self.slots[k - 1] {
            Slot::Owned(x) => Some(&mut self.values[x]),
            Slot::Pointer(_) => None,
        }
    }

    /// The index of the value seen at `version`.
    fn get_pointer(&self, list: &VersionList, version: Version) -> (r: Option<usize>)
        requires
            self.wf(list),
            list.contains(version.primary),
        ensures
            match r {
                Some(x) => (x as int) < self.values@.len() && self.value_at(list, version.primary)
                    == Some(self.values@[x as int]),
                None => self.value_at(list, version.primary) is None,
            },
    {
        let k = self.split_point(list, version.primary);
        proof {
            self.lemma_value_at(list, version.primary, k as int);
        }
        if k == 0 {
            return None;
        }
        match self.slots[k - 1] {
            Slot::Owned(x) => Some(x),
            Slot::Pointer(p) => p,
        }
    }
}

/// A cell read through a list that grew while keeping its order sees the same values at the
/// versions it had: cells that share a list never disturb each other.
pub proof fn lemma_cell_persists<T>(
    cell: &PersistentCell<T>,
    earlier: &VersionList,
    later: &VersionList,
    v: PartialVersion,
)
    requires
        cell.wf(earlier),
        later.extends(earlier),
        earlier.contains(v),
    ensures
        cell.wf(later),
        cell.value_at(later, v) == cell.value_at(earlier, v),
{
    lemma_cell_wf_extends(cell, earlier, later);
    lemma_splits_exist(cell, earlier, v);
    let k = choose|k: int| cell.splits_at(earlier, v, k);
    assert forall|i: int| 0 <= i < cell.keys@.len() implies (later.precedes(
        v,
        #[trigger] cell.keys@[i],
    ) == earlier.precedes(v, cell.keys@[i])) by {
        assert(earlier.contains(cell.keys@[i]));
    }
    assert(cell.splits_at(later, v, k));
    cell.lemma_value_at(earlier, v, k);
    cell.lemma_value_at(later, v, k);
}

/// A cell stays readable through a list that grew while keeping its order.
pub proof fn lemma_cell_wf_extends<T>(
    cell: &PersistentCell<T>,
    earlier: &VersionList,
    later: &VersionList,
)
    requires
        cell.wf(earlier),
        later.extends(earlier),
    ensures
        cell.wf(later),
{
    assert forall|i: int| 0 <= i < cell.keys@.len() implies later.contains(#[trigger] cell.keys@[i]) by {
        assert(earlier.contains(cell.keys@[i]));
    }
    assert forall|i: int, j: int|
        0 <= i < j < cell.keys@.len() implies later.precedes(
        #[trigger] cell.keys@[i],
        #[trigger] cell.keys@[j],
    ) by {
        assert(earlier.contains(cell.keys@[i]));
        assert(earlier.contains(cell.keys@[j]));
        assert(earlier.precedes(cell.keys@[i], cell.keys@[j]));
    }
}

/// A version placed right after `v` reads what `v` read, in a cell that has no key of its own
/// there.
pub proof fn lemma_cell_after<T>(
    cell: &PersistentCell<T>,
    earlier: &VersionList,
    later: &VersionList,
    v: PartialVersion,
    nv: PartialVersion,
)
    requires
        cell.wf(earlier),
        later.extends(earlier),
        earlier.contains(v),
        later.contains(nv),
        later.precedes(v, nv),
        forall|a: PartialVersion|
            earlier.contains(a) && earlier.precedes(v, a) ==> later.precedes(nv, a),
    ensures
        cell.value_at(later, nv) == cell.value_at(earlier, v),
{
    lemma_cell_persists(cell, earlier, later, v);
    lemma_splits_exist(cell, earlier, v);
    let k = choose|k: int| cell.splits_at(earlier, v, k);
    assert forall|i: int| 0 <= i < k implies !later.precedes(nv, #[trigger] cell.keys@[i]) by {
        assert(earlier.contains(cell.keys@[i]));
        assert(!later.precedes(v, cell.keys@[i]));
        lemma_total_order(later, v, cell.keys@[i], v);
        lemma_total_order(later, cell.keys@[i], v, nv);
        lemma_total_order(later, nv, cell.keys@[i], nv);
    }
    assert forall|i: int| k <= i < cell.keys@.len() implies later.precedes(
        nv,
        #[trigger] cell.keys@[i],
    ) by {
        assert(earlier.contains(cell.keys@[i]));
    }
    cell.lemma_value_at(earlier, v, k);
    cell.lemma_value_at(later, nv, k);
}

proof fn lemma_splits_exist<T>(cell: &PersistentCell<T>, list: &VersionList, v: PartialVersion)
    requires
        cell.wf(list),
        list.contains(v),
    ensures
        exists|k: int| cell.splits_at(list, v, k),
{
    let k = first_after(cell, list, v, 0);
    assert forall|i: int| k <= i < cell.keys@.len() implies list.precedes(v, #[trigger] cell.keys@[i]) by {
        if i > k {
            assert(list.contains(cell.keys@[k]));
            assert(list.contains(cell.keys@[i]));
            lemma_total_order(list, v, cell.keys@[k], cell.keys@[i]);
        }
    }
    assert(cell.splits_at(list, v, k));
}

/// The first position from `j` on that ends the keys or holds a key after `v`.
proof fn first_after<T>(cell: &PersistentCell<T>, list: &VersionList, v: PartialVersion, j: int) -> (k: int)
    requires
        cell.wf(list),
        list.contains(v),
        0 <= j <= cell.keys@.len(),
        forall|i: int| 0 <= i < j ==> !list.precedes(v, #[trigger] cell.keys@[i]),
    ensures
        j <= k <= cell.keys@.len(),
        forall|i: int| 0 <= i < k ==> !list.precedes(v, #[trigger] cell.keys@[i]),
        k == cell.keys@.len() || list.precedes(v, cell.keys@[k]),
    decreases cell.keys@.len() - j,
{
    if j == cell.keys@.len() || list.precedes(v, cell.keys@[j]) {
        j
    } else {
        first_after(cell, list, v, j + 1)
    }
}

} // verus!
