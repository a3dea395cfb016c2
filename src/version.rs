use vstd::prelude::*;
use vstd::relations::injective_on;
use vstd::set_lib::{lemma_int_range, lemma_len_subset, lemma_map_size, set_int_range};

verus! {

/// The gap that separates consecutive labels after a group is spread out.
pub const SPREAD: u64 = 0x1_0000_0000;

/// Largest number of nodes a super-node holds; reaching it splits the super-node in two.
pub const GROUP_LIMIT: usize = 64;

/// One past the largest super-node label distance.
pub open spec fn label_range() -> int {
    0x1_0000_0000_0000_0000
}

/// Distance of label `v` from label `b`, going up and wrapping at 2^64.
pub open spec fn distance(v: u64, b: u64) -> int {
    if v >= b {
        v - b
    } else {
        v - b + label_range()
    }
}

struct VersionNode {
    parent: usize,
    value: u64,
}

struct VersionSuperNode {
    next: usize,
    value: u64,
    list: Vec<usize>,
}

/// An order-maintenance list: a ring of super-nodes, starting at `base`, each holding a short
/// list of nodes. A node is ordered by the distance of its super-node's label from the base's
/// label, then by its own label.
pub struct VersionList {
    nodes: Vec<VersionNode>,
    supers: Vec<VersionSuperNode>,
    base: usize,
    size: usize,
    /// Super-nodes in ring order, starting at the base.
    ring: Ghost<Seq<usize>>,
    /// Position in `ring` of each super-node.
    rpos: Ghost<Seq<int>>,
    /// Position of each node in its super-node's list.
    slot: Ghost<Seq<int>>,
}

/// A handle to one node of a `VersionList`.
#[derive(Clone, Copy, PartialEq, Eq, Structural)]
pub struct PartialVersion {
    node: usize,
}

/// Two consecutive nodes of a `VersionList`: values stored at `primary` are seen up to
/// `secondary`, where the values seen before take over again. Versions are equal when their
/// primaries are.
#[derive(Clone, Copy)]
pub struct Version {
    pub primary: PartialVersion,
    pub secondary: PartialVersion,
}

impl PartialEq for Version {
    fn eq(&self, other: &Version) -> (r: bool) {
        self.primary.node == other.primary.node
    }
}

impl vstd::std_specs::cmp::PartialEqSpecImpl for Version {
    open spec fn obeys_eq_spec() -> bool {
        true
    }

    open spec fn eq_spec(&self, other: &Version) -> bool {
        self.primary == other.primary
    }
}

impl Eq for Version {}

impl PartialVersion {
    /// The node this handle names.
    pub closed spec fn id(self) -> int {
        self.node as int
    }
}

/// A version is determined by the node it names.
pub proof fn lemma_id_determines(a: PartialVersion, b: PartialVersion)
    ensures
        a.id() == b.id() ==> a == b,
{
}

impl VersionList {
    pub closed spec fn major(&self, s: int) -> int {
        distance(self.supers@[s].value, self.supers@[self.base as int].value)
    }

    pub closed spec fn parent(&self, n: int) -> int {
        self.nodes@[n].parent as int
    }

    pub closed spec fn minor(&self, n: int) -> int {
        self.nodes@[n].value as int
    }

    spec fn member(&self, s: int, k: int) -> int {
        self.supers@[s].list@[k] as int
    }

    spec fn group_len(&self, s: int) -> int {
        self.supers@[s].list@.len() as int
    }

    /// Ring order of super-nodes and their labels.
    #[verifier::opaque]
    spec fn ring_wf(&self) -> bool {
        let s = self.supers@.len() as int;
        &&& 1 <= s
        &&& self.ring@.len() == s
        &&& self.rpos@.len() == s
        &&& self.ring@[0] == self.base
        &&& forall|k: int|
            0 <= k < s ==> (#[trigger] self.ring@[k] as int) < s && self.rpos@[self.ring@[k] as int]
                == k
        &&& forall|x: int|
            0 <= x < s ==> 0 <= #[trigger] self.rpos@[x] < s && self.ring@[self.rpos@[x]] == x
        &&& forall|k: int|
            0 <= k < s ==> self.supers@[#[trigger] self.ring@[k] as int].next == (if k + 1 < s {
                self.ring@[k + 1]
            } else {
                self.base
            })
        &&& forall|k1: int, k2: int|
            0 <= k1 < k2 < s ==> self.major(#[trigger] self.ring@[k1] as int) < self.major(
                #[trigger] self.ring@[k2] as int,
            )
    }

    /// Each super-node lists exactly its nodes, in increasing label order.
    #[verifier::opaque]
    spec fn groups_wf(&self) -> bool {
        let s = self.supers@.len() as int;
        let n = self.nodes@.len() as int;
        &&& self.slot@.len() == n
        &&& forall|x: int| 0 <= x < s ==> 1 <= #[trigger] self.group_len(x) <= GROUP_LIMIT
        &&& forall|x: int, k: int|
            0 <= x < s && 0 <= k < self.group_len(x) ==> {
                &&& 0 <= #[trigger] self.member(x, k) < n
                &&& self.parent(self.member(x, k)) == x
                &&& self.slot@[self.member(x, k)] == k
            }
        &&& forall|x: int, k1: int, k2: int|
            0 <= x < s && 0 <= k1 < k2 < self.group_len(x) ==> self.minor(
                #[trigger] self.member(x, k1),
            ) < self.minor(#[trigger] self.member(x, k2))
        &&& forall|m: int|
            0 <= m < n ==> {
                &&& 0 <= #[trigger] self.parent(m) < s
                &&& 0 <= self.slot@[m] < self.group_len(self.parent(m))
                &&& self.member(self.parent(m), self.slot@[m]) == m
            }
    }

    /// Well formed, except that a super-node may be full.
    spec fn loose_wf(&self) -> bool {
        &&& self.ring_wf()
        &&& self.groups_wf()
        &&& self.supers@.len() <= self.nodes@.len()
        &&& (self.base as int) < self.supers@.len()
    }

    /// The list is well formed.
    pub closed spec fn wf(&self) -> bool {
        &&& self.loose_wf()
        &&& self.size == self.nodes@.len()
        &&& forall|x: int|
            0 <= x < self.supers@.len() ==> #[trigger] self.group_len(x) < GROUP_LIMIT
    }

    /// Number of versions in the list.
    pub closed spec fn len(&self) -> nat {
        self.nodes@.len()
    }

    /// `self` holds every version of `earlier`, in the same order.
    pub open spec fn extends(&self, earlier: &VersionList) -> bool {
        &&& self.wf()
        &&& earlier.len() <= self.len()
        &&& forall|a: PartialVersion, b: PartialVersion|
            earlier.contains(a) && earlier.contains(b) ==> (self.precedes(a, b) == earlier.precedes(
                a,
                b,
            ))
    }

    /// `v` names a version of this list.
    pub open spec fn contains(&self, v: PartialVersion) -> bool {
        0 <= v.id() < self.len()
    }

    /// `a` comes before `b` in the list: by super-node label distance from the base, then by
    /// node label.
    pub open spec fn precedes(&self, a: PartialVersion, b: PartialVersion) -> bool {
        let ma = self.major(self.parent(a.id()));
        let mb = self.major(self.parent(b.id()));
        ma < mb || (ma == mb && self.minor(a.id()) < self.minor(b.id()))
    }

    /// Position of the node in the order: super-node position in the ring, then list position.
    spec fn rank_lt(&self, a: int, b: int) -> bool {
        let ra = self.rpos@[self.parent(a)];
        let rb = self.rpos@[self.parent(b)];
        ra < rb || (ra == rb && self.slot@[a] < self.slot@[b])
    }

    proof fn lemma_major_by_rpos(&self, x: int, y: int)
        requires
            self.loose_wf(),
            0 <= x < self.supers@.len(),
            0 <= y < self.supers@.len(),
        ensures
            self.major(x) < self.major(y) <==> self.rpos@[x] < self.rpos@[y],
            self.major(x) == self.major(y) <==> x == y,
    {
        reveal(VersionList::ring_wf);
        let kx = self.rpos@[x];
        let ky = self.rpos@[y];
        assert(self.ring@[kx] as int == x);
        assert(self.ring@[ky] as int == y);
        if kx < ky {
            assert(self.major(self.ring@[kx] as int) < self.major(self.ring@[ky] as int));
        } else if ky < kx {
            assert(self.major(self.ring@[ky] as int) < self.major(self.ring@[kx] as int));
        }
    }

    /// Label order agrees with position order.
    proof fn lemma_precedes_rank(&self, va: PartialVersion, vb: PartialVersion)
        requires
            self.wf(),
            self.contains(va),
            self.contains(vb),
        ensures
            self.precedes(va, vb) <==> self.rank_lt(va.id(), vb.id()),
            va != vb ==> self.rank_lt(va.id(), vb.id()) || self.rank_lt(vb.id(), va.id()),
    {
        reveal(VersionList::groups_wf);
        reveal(VersionList::ring_wf);
        let a = va.id();
        let b = vb.id();
        let pa = self.parent(a);
        let pb = self.parent(b);
        assert(0 <= pa < self.supers@.len());
        assert(0 <= pb < self.supers@.len());
        self.lemma_major_by_rpos(pa, pb);
        if pa != pb {
            assert(self.rpos@[pa] != self.rpos@[pb]);
        }
        if pa == pb {
            let ka = self.slot@[a];
            let kb = self.slot@[b];
            assert(self.member(pa, ka) == a);
            assert(self.member(pa, kb) == b);
            if ka < kb {
                assert(self.minor(self.member(pa, ka)) < self.minor(self.member(pa, kb)));
            } else if kb < ka {
                assert(self.minor(self.member(pa, kb)) < self.minor(self.member(pa, ka)));
            }
        }
    }

    /// Order values of a version: its super-node's label distance from the base's label and
    /// its own label.
    pub fn ordering_values(&self, v: PartialVersion) -> (r: (u64, u64))
        requires
            self.wf(),
            self.contains(v),
        ensures
            r.0 as int == self.major(self.parent(v.id())),
            r.1 as int == self.minor(v.id()),
    {
        let p = self.nodes[v.node].parent;
        proof {
            reveal(VersionList::groups_wf);
            assert(0 <= self.parent(v.id()) < self.supers@.len());
        }
        let major = self.supers[p].value.wrapping_sub(self.supers[self.base].value);
        (major, self.nodes[v.node].value)
    }

    /// Whether `a` comes before `b`.
    pub fn less(&self, a: PartialVersion, b: PartialVersion) -> (r: bool)
        requires
            self.wf(),
            self.contains(a),
            self.contains(b),
        ensures
            r == self.precedes(a, b),
    {
        let (ma, na) = self.ordering_values(a);
        let (mb, nb) = self.ordering_values(b);
        ma < mb || (ma == mb && na < nb)
    }

    /// Same ring, same super-nodes, same node parents and positions; only node labels may differ.
    spec fn same_shape(&self, other: &VersionList) -> bool {
        &&& self.supers@ == other.supers@
        &&& self.base == other.base
        &&& self.size == other.size
        &&& self.ring@ == other.ring@
        &&& self.rpos@ == other.rpos@
        &&& self.slot@ == other.slot@
        &&& self.nodes@.len() == other.nodes@.len()
        &&& forall|m: int| 0 <= m < self.nodes@.len() ==> #[trigger] self.parent(m) == other.parent(m)
    }

    /// A copy of the node list of super-node `s`.
    fn members_of(&self, s: usize) -> (r: Vec<usize>)
        requires
            (s as int) < self.supers@.len(),
        ensures
            r@ == self.supers@[s as int].list@,
    {
        let mut r: Vec<usize> = Vec::new();
        let mut k: usize = 0;
        while k < self.supers[s].list.len()
            invariant
                (s as int) < self.supers@.len(),
                k <= self.supers@[s as int].list@.len(),
                r@ == self.supers@[s as int].list@.subrange(0, k as int),
            decreases self.supers@[s as int].list@.len() - k,
        {
            r.push(self.supers[s].list[k]);
            k = k + 1;
            proof {
                assert(r@ =~= self.supers@[s as int].list@.subrange(0, k as int));
            }
        }
        proof {
            assert(r@ =~= self.supers@[s as int].list@);
        }
        r
    }

    /// Spreads the labels of super-node `s`'s nodes evenly: the node at position `k` gets
    /// `k * SPREAD`.
    fn relabel_group(&mut self, s: usize)
        requires
            old(self).wf(),
            (s as int) < old(self).supers@.len(),
        ensures
            final(self).wf(),
            final(self).same_shape(old(self)),
            forall|k: int|
                0 <= k < final(self).group_len(s as int) ==> final(self).minor(
                    #[trigger] final(self).member(s as int, k),
                ) == k * SPREAD,
    {
        let members = self.members_of(s);
        let ghost old_self = *old(self);
        proof {
            reveal(VersionList::groups_wf);
        }
        let mut k: usize = 0;
        while k < members.len()
            invariant
                old_self == *old(self),
                forall|j: int|
                    0 <= j < old_self.group_len(s as int) ==> {
                        &&& 0 <= #[trigger] old_self.member(s as int, j) < old_self.nodes@.len()
                        &&& old_self.parent(old_self.member(s as int, j)) == s
                        &&& old_self.slot@[old_self.member(s as int, j)] == j
                    },
                (s as int) < old_self.supers@.len(),
                members@ == old_self.supers@[s as int].list@,
                members@.len() < GROUP_LIMIT,
                k <= members@.len(),
                self.same_shape(&old_self),
                forall|j: int|
                    0 <= j < k ==> self.minor(#[trigger] old_self.member(s as int, j)) == j
                        * SPREAD,
                forall|m: int|
                    0 <= m < self.nodes@.len() && (old_self.parent(m) != s || old_self.slot@[m]
                        >= k) ==> #[trigger] self.minor(m) == old_self.minor(m),
            decreases members@.len() - k,
        {
            let m = members[k];
            proof {
                assert(0 <= old_self.member(s as int, k as int) < old_self.nodes@.len());
                assert(old_self.parent(m as int) == s && old_self.slot@[m as int] == k);
            }
            let ghost pre = *self;
            let p = self.nodes[m].parent;
            let value: u64 = k as u64 * SPREAD;
            self.nodes.set(m, VersionNode { parent: p, value });
            proof {
                assert forall|j: int| 0 <= j < k + 1 implies self.minor(
                    #[trigger] old_self.member(s as int, j),
                ) == j * SPREAD by {
                    if j < k {
                        assert(old_self.slot@[old_self.member(s as int, j)] == j);
                    }
                }
                assert forall|mm: int|
                    0 <= mm < self.nodes@.len() && (old_self.parent(mm) != s || old_self.slot@[mm]
                        >= k + 1) implies #[trigger] self.minor(mm) == old_self.minor(mm) by {
                    if mm == m as int {
                        assert(old_self.slot@[old_self.member(s as int, k as int)] == k);
                    } else {
                        assert(pre.minor(mm) == old_self.minor(mm));
                    }
                }
                assert forall|mm: int| 0 <= mm < self.nodes@.len() implies #[trigger] self.parent(mm)
                    == old_self.parent(mm) by {
                    assert(self.parent(mm) == pre.parent(mm));
                }
            }
            k = k + 1;
        }
        proof {
            self.lemma_relabeled(&old_self, s as int);
        }
    }

    /// Relabeling one group with `k * SPREAD` keeps the list well formed.
    proof fn lemma_relabeled(&self, old_self: &VersionList, s: int)
        requires
            old_self.wf(),
            self.same_shape(old_self),
            0 <= s < old_self.supers@.len(),
            forall|k: int|
                0 <= k < old_self.group_len(s) ==> self.minor(#[trigger] old_self.member(s, k)) == k
                    * SPREAD,
            forall|m: int|
                0 <= m < self.nodes@.len() && (old_self.parent(m) != s || old_self.slot@[m]
                    >= old_self.group_len(s)) ==> #[trigger] self.minor(m) == old_self.minor(m),
        ensures
            self.wf(),
    {
        assert(self.ring_wf()) by {
            reveal(VersionList::ring_wf);
            assert forall|x: int| 0 <= x < self.supers@.len() implies #[trigger] self.major(x)
                == old_self.major(x) by {}
        }
        assert forall|x: int| 0 <= x < self.supers@.len() implies #[trigger] self.group_len(x)
            < GROUP_LIMIT by {
            assert(old_self.group_len(x) == self.group_len(x));
        }
        assert(self.groups_wf()) by {
            reveal(VersionList::groups_wf);
            assert forall|x: int, k1: int, k2: int|
                0 <= x < self.supers@.len() && 0 <= k1 < k2 < self.group_len(x) implies self.minor(
                #[trigger] self.member(x, k1),
            ) < self.minor(#[trigger] self.member(x, k2)) by {
                assert(old_self.member(x, k1) == self.member(x, k1));
                assert(old_self.member(x, k2) == self.member(x, k2));
                assert(old_self.parent(old_self.member(x, k1)) == x);
                assert(old_self.parent(old_self.member(x, k2)) == x);
                if x == s {
                    lemma_spread_increasing(k1, k2);
                } else {
                    assert(old_self.minor(old_self.member(x, k1)) < old_self.minor(
                        old_self.member(x, k2),
                    ));
                }
            }
            assert forall|x: int| 0 <= x < self.supers@.len() implies 1 <= #[trigger] self.group_len(
                x,
            ) <= GROUP_LIMIT by {
                assert(old_self.group_len(x) == self.group_len(x));
            }
            assert forall|x: int, kk: int|
                0 <= x < self.supers@.len() && 0 <= kk < self.group_len(x) implies {
                &&& 0 <= #[trigger] self.member(x, kk) < self.nodes@.len()
                &&& self.parent(self.member(x, kk)) == x
                &&& self.slot@[self.member(x, kk)] == kk
            } by {
                assert(old_self.member(x, kk) == self.member(x, kk));
            }
            assert forall|mm: int| 0 <= mm < self.nodes@.len() implies {
                &&& 0 <= #[trigger] self.parent(mm) < self.supers@.len()
                &&& 0 <= self.slot@[mm] < self.group_len(self.parent(mm))
                &&& self.member(self.parent(mm), self.slot@[mm]) == mm
            } by {
                assert(old_self.parent(mm) == self.parent(mm));
            }
        }
    }

    /// Old nodes keep their relative positions.
    spec fn keeps_order(&self, old_s: &VersionList) -> bool {
        forall|a: int, b: int|
            #![trigger self.rank_lt(a, b)]
            #![trigger old_s.rank_lt(a, b)]
            0 <= a < old_s.nodes@.len() && 0 <= b < old_s.nodes@.len() ==> (self.rank_lt(a, b)
                <==> old_s.rank_lt(a, b))
    }

    /// Position of node `v` in the list of its super-node `s`.
    fn slot_of(&self, s: usize, v: usize) -> (r: usize)
        requires
            self.loose_wf(),
            (v as int) < self.nodes@.len(),
            self.parent(v as int) == s,
        ensures
            r as int == self.slot@[v as int],
            self.member(s as int, r as int) == v,
            (r as int) < self.group_len(s as int),
    {
        proof {
            reveal(VersionList::groups_wf);
            assert(0 <= self.parent(v as int) < self.supers@.len());
        }
        let mut j: usize = 0;
        while j < self.supers[s].list.len()
            invariant
                self.loose_wf(),
                (v as int) < self.nodes@.len(),
                self.parent(v as int) == s,
                (s as int) < self.supers@.len(),
                0 <= self.slot@[v as int] < self.group_len(s as int),
                self.member(s as int, self.slot@[v as int]) == v,
                self.slot@.len() == self.nodes@.len(),
                j <= self.slot@[v as int],
            decreases self.group_len(s as int) - j,
        {
            if self.supers[s].list[j] == v {
                proof {
                    reveal(VersionList::groups_wf);
                    assert(self.slot@[self.member(s as int, j as int)] == j);
                }
                return j;
            }
            j = j + 1;
        }
        j
    }

    /// The labels around the gap after position `k` of super-node `s`: the label there, and the
    /// next label of the group or `u64::MAX` at its end.
    fn gap_after(&self, s: usize, k: usize) -> (r: (u64, u64))
        requires
            self.loose_wf(),
            (s as int) < self.supers@.len(),
            (k as int) < self.group_len(s as int),
        ensures
            r.0 as int == self.minor(self.member(s as int, k as int)),
            r.1 as int == (if k + 1 < self.group_len(s as int) {
                self.minor(self.member(s as int, k + 1))
            } else {
                u64::MAX as int
            }),
            r.0 < r.1 || (k + 1 == self.group_len(s as int) && r.0 == u64::MAX),
    {
        proof {
            reveal(VersionList::groups_wf);
            assert(0 <= self.member(s as int, k as int) < self.nodes@.len());
        }
        let lo = self.nodes[self.supers[s].list[k]].value;
        let hi = if k + 1 < self.supers[s].list.len() {
            proof {
                assert(0 <= self.member(s as int, k + 1) < self.nodes@.len());
                assert(self.minor(self.member(s as int, k as int)) < self.minor(
                    self.member(s as int, k + 1),
                ));
            }
            self.nodes[self.supers[s].list[k + 1]].value
        } else {
            u64::MAX
        };
        (lo, hi)
    }

    /// Places a new node right after node `v` in `v`'s super-node, which may become full.
    fn insert_node(&mut self, v: usize) -> (r: (usize, usize))
        requires
            old(self).wf(),
            (v as int) < old(self).nodes@.len(),
            old(self).nodes@.len() < 0x4000_0000_0000_0000,
            old(self).nodes@.len() + 1 < usize::MAX,
        ensures
            final(self).loose_wf(),
            final(self).size == old(self).size + 1,
            final(self).nodes@.len() == old(self).nodes@.len() + 1,
            r.0 as int == old(self).nodes@.len(),
            r.1 as int == final(self).parent(v as int),
            (r.1 as int) < final(self).supers@.len(),
            final(self).supers@.len() == old(self).supers@.len(),
            forall|x: int|
                0 <= x < final(self).supers@.len() && x != r.1 ==> #[trigger] final(self).group_len(x)
                    < GROUP_LIMIT,
            final(self).keeps_order(old(self)),
            final(self).rank_lt(v as int, r.0 as int),
            forall|a: int|
                0 <= a < old(self).nodes@.len() && old(self).rank_lt(v as int, a)
                    ==> #[trigger] final(self).rank_lt(r.0 as int, a),
    {
        proof {
            reveal(VersionList::groups_wf);
            assert(0 <= old(self).parent(v as int) < old(self).supers@.len());
        }
        let s = self.nodes[v].parent;
        let k = self.slot_of(s, v);
        let (mut lo, mut hi) = self.gap_after(s, k);
        if hi - lo < 2 {
            self.relabel_group(s);
            let (l2, h2) = self.gap_after(s, k);
            lo = l2;
            hi = h2;
            proof {
                assert(self.minor(self.member(s as int, k as int)) == k * SPREAD);
                if k + 1 < self.group_len(s as int) {
                    assert(self.minor(self.member(s as int, k + 1)) == (k + 1) * SPREAD);
                }
                assert(self.group_len(s as int) < GROUP_LIMIT);
            }
        }
        let d = hi - lo;
        let value = lo + (d / 2 + d % 2);
        let ghost mid = *self;
        let w = self.nodes.len();
        self.nodes.push(VersionNode { parent: s, value });
        self.size = self.size + 1;
        let mut members = self.members_of(s);
        members.insert(k + 1, w);
        let next = self.supers[s].next;
        let label = self.supers[s].value;
        self.supers.set(s, VersionSuperNode { next, value: label, list: members });
        let ghost new_slot = Seq::new(
            (w + 1) as nat,
            |m: int|
                if m == w {
                    k + 1
                } else if mid.parent(m) == s && mid.slot@[m] > k {
                    mid.slot@[m] + 1
                } else {
                    mid.slot@[m]
                },
        );
        self.slot = Ghost(new_slot);
        proof {
            self.lemma_group_insert(&mid, s as int, k as int, w as int);
            assert forall|a: int, b: int|
                0 <= a < old(self).nodes@.len() && 0 <= b < old(self).nodes@.len() implies (
                self.rank_lt(a, b) <==> old(self).rank_lt(a, b)) by {
                assert(mid.rank_lt(a, b) <==> old(self).rank_lt(a, b));
            }
            assert forall|a: int|
                0 <= a < old(self).nodes@.len() && old(self).rank_lt(v as int, a) implies #[trigger] self.rank_lt(
                w as int,
                a,
            ) by {
                assert(mid.rank_lt(v as int, a));
            }
            assert(mid.slot@[v as int] == k);
        }
        (w, s)
    }

    /// The effect of placing node `w` at position `k + 1` of super-node `s`.
    proof fn lemma_group_insert(&self, mid: &VersionList, s: int, k: int, w: int)
        requires
            mid.wf(),
            0 <= s < mid.supers@.len(),
            0 <= k < mid.group_len(s),
            w == mid.nodes@.len(),
            self.nodes@.len() == w + 1,
            forall|m: int| 0 <= m < w ==> #[trigger] self.nodes@[m] == mid.nodes@[m],
            self.nodes@[w].parent == s,
            mid.minor(mid.member(s, k)) < self.minor(w),
            k + 1 < mid.group_len(s) ==> self.minor(w) < mid.minor(mid.member(s, k + 1)),
            self.supers@.len() == mid.supers@.len(),
            forall|x: int|
                0 <= x < mid.supers@.len() && x != s ==> #[trigger] self.supers@[x] == mid.supers@[x],
            self.supers@[s].next == mid.supers@[s].next,
            self.supers@[s].value == mid.supers@[s].value,
            self.supers@[s].list@ == mid.supers@[s].list@.insert(k + 1, w as usize),
            self.base == mid.base,
            self.ring@ == mid.ring@,
            self.rpos@ == mid.rpos@,
            self.slot@ == Seq::new(
                (w + 1) as nat,
                |m: int|
                    if m == w {
                        k + 1
                    } else if mid.parent(m) == s && mid.slot@[m] > k {
                        mid.slot@[m] + 1
                    } else {
                        mid.slot@[m]
                    },
            ),
        ensures
            self.loose_wf(),
            forall|x: int|
                0 <= x < self.supers@.len() && x != s ==> #[trigger] self.group_len(x) < GROUP_LIMIT,
            forall|a: int, b: int|
                0 <= a < w && 0 <= b < w ==> (self.rank_lt(a, b) <==> mid.rank_lt(a, b)),
            self.rank_lt(mid.member(s, k), w),
            forall|a: int| 0 <= a < w && mid.rank_lt(mid.member(s, k), a) ==> self.rank_lt(w, a),
    {
        reveal(VersionList::groups_wf);
        reveal(VersionList::ring_wf);
        let v = mid.member(s, k);
        assert(self.ring_wf()) by {
            assert forall|x: int| 0 <= x < self.supers@.len() implies #[trigger] self.major(x)
                == mid.major(x) by {}
        }
        assert forall|m: int| 0 <= m < w implies #[trigger] self.parent(m) == mid.parent(m) by {}
        assert forall|x: int, j: int|
            0 <= x < self.supers@.len() && 0 <= j < self.group_len(x) implies {
            &&& 0 <= #[trigger] self.member(x, j) <= w
            &&& self.parent(self.member(x, j)) == x
            &&& self.slot@[self.member(x, j)] == j
        } by {
            if x == s {
                if j <= k {
                    assert(self.member(x, j) == mid.member(x, j));
                } else if j == k + 1 {
                } else {
                    assert(self.member(x, j) == mid.member(x, j - 1));
                }
            } else {
                assert(self.member(x, j) == mid.member(x, j));
            }
        }
        assert forall|x: int, k1: int, k2: int|
            0 <= x < self.supers@.len() && 0 <= k1 < k2 < self.group_len(x) implies self.minor(
            #[trigger] self.member(x, k1),
        ) < self.minor(#[trigger] self.member(x, k2)) by {
            if x == s {
                let a = if k1 <= k { mid.member(x, k1) } else if k1 == k + 1 { w } else { mid.member(x, k1 - 1) };
                let b = if k2 <= k { mid.member(x, k2) } else if k2 == k + 1 { w } else { mid.member(x, k2 - 1) };
                assert(self.member(x, k1) == a);
                assert(self.member(x, k2) == b);
                if k1 <= k && k2 <= k {
                    assert(mid.minor(mid.member(x, k1)) < mid.minor(mid.member(x, k2)));
                } else if k1 <= k && k2 == k + 1 {
                    if k1 < k {
                        assert(mid.minor(mid.member(x, k1)) < mid.minor(mid.member(x, k)));
                    }
                } else if k1 <= k {
                    assert(mid.minor(mid.member(x, k1)) < mid.minor(mid.member(x, k2 - 1)));
                } else if k1 == k + 1 {
                    if k2 - 1 > k + 1 {
                        assert(mid.minor(mid.member(x, k + 1)) < mid.minor(mid.member(x, k2 - 1)));
                    }
                } else {
                    assert(mid.minor(mid.member(x, k1 - 1)) < mid.minor(mid.member(x, k2 - 1)));
                }
            } else {
                assert(self.member(x, k1) == mid.member(x, k1));
                assert(self.member(x, k2) == mid.member(x, k2));
            }
        }
        assert forall|m: int| 0 <= m < self.nodes@.len() implies {
            &&& 0 <= #[trigger] self.parent(m) < self.supers@.len()
            &&& 0 <= self.slot@[m] < self.group_len(self.parent(m))
            &&& self.member(self.parent(m), self.slot@[m]) == m
        } by {
            if m < w {
                let p = mid.parent(m);
                assert(0 <= p < mid.supers@.len());
                assert(mid.member(p, mid.slot@[m]) == m);
            }
        }
        assert forall|x: int| 0 <= x < self.supers@.len() && x != s implies #[trigger] self.group_len(
            x,
        ) < GROUP_LIMIT by {
            assert(mid.group_len(x) < GROUP_LIMIT);
        }
        assert(mid.group_len(s) < GROUP_LIMIT);
        assert(self.slot@.len() == self.nodes@.len());
        assert forall|x: int| 0 <= x < self.supers@.len() implies 1 <= #[trigger] self.group_len(x)
            <= GROUP_LIMIT by {
            assert(mid.group_len(x) < GROUP_LIMIT);
        }
        assert(self.groups_wf());
        assert(mid.slot@[v] == k);
    }

    /// There are no more super-nodes than nodes: each super-node has a first node of its own.
    proof fn lemma_supers_bound(&self)
        requires
            self.groups_wf(),
        ensures
            self.supers@.len() <= self.nodes@.len(),
    {
        reveal(VersionList::groups_wf);
        let S = self.supers@.len() as int;
        let N = self.nodes@.len() as int;
        let f = |x: int| self.member(x, 0);
        let xs = set_int_range(0, S);
        lemma_int_range(0, S);
        lemma_int_range(0, N);
        assert(injective_on(f, xs)) by {
            assert forall|x: int, y: int| xs.contains(x) && xs.contains(y) && #[trigger] f(x) == #[trigger] f(y)
                implies x == y by {
                assert(self.parent(self.member(x, 0)) == x);
                assert(self.parent(self.member(y, 0)) == y);
            }
        }
        let ys = xs.map(f);
        lemma_map_size(xs, ys, f);
        assert(ys.subset_of(set_int_range(0, N))) by {
            assert forall|m: int| ys.contains(m) implies set_int_range(0, N).contains(m) by {
                let x = choose|x: int| xs.contains(x) && f(x) == m;
                assert(0 <= self.member(x, 0) < N);
            }
        }
        lemma_len_subset(ys, set_int_range(0, N));
    }

    proof fn lemma_node_facts(&self, m: int)
        requires
            self.loose_wf(),
            0 <= m < self.nodes@.len(),
        ensures
            0 <= self.parent(m) < self.supers@.len(),
            0 <= self.rpos@[self.parent(m)] < self.supers@.len(),
            0 <= self.slot@[m] < self.group_len(self.parent(m)),
            self.member(self.parent(m), self.slot@[m]) == m,
    {
        reveal(VersionList::ring_wf);
        reveal(VersionList::groups_wf);
        assert(0 <= self.parent(m) < self.supers@.len());
    }

    /// Only super-node labels may differ.
    spec fn same_groups(&self, other: &VersionList) -> bool {
        &&& self.nodes@ == other.nodes@
        &&& self.supers@.len() == other.supers@.len()
        &&& forall|x: int|
            0 <= x < self.supers@.len() ==> (#[trigger] self.supers@[x]).next == other.supers@[x].next
                && self.supers@[x].list@ == other.supers@[x].list@
        &&& self.base == other.base
        &&& self.size == other.size
        &&& self.ring@ == other.ring@
        &&& self.rpos@ == other.rpos@
        &&& self.slot@ == other.slot@
    }

    proof fn lemma_same_groups(&self, other: &VersionList)
        requires
            other.groups_wf(),
            self.same_groups(other),
        ensures
            self.groups_wf(),
    {
        reveal(VersionList::groups_wf);
        assert forall|x: int| 0 <= x < self.supers@.len() implies #[trigger] self.group_len(x)
            == other.group_len(x) by {}
        assert forall|x: int, kk: int|
            0 <= x < self.supers@.len() && 0 <= kk < self.group_len(x) implies #[trigger] self.member(
            x,
            kk,
        ) == other.member(x, kk) by {}
        assert forall|x: int| 0 <= x < self.supers@.len() implies 1 <= #[trigger] self.group_len(x)
            <= GROUP_LIMIT by {
            assert(self.group_len(x) == other.group_len(x));
        }
        assert forall|m: int| 0 <= m < self.nodes@.len() implies {
            &&& 0 <= #[trigger] self.parent(m) < self.supers@.len()
            &&& 0 <= self.slot@[m] < self.group_len(self.parent(m))
            &&& self.member(self.parent(m), self.slot@[m]) == m
        } by {
            assert(self.parent(m) == other.parent(m));
            assert(0 <= other.parent(m) < other.supers@.len());
            assert(self.group_len(self.parent(m)) == other.group_len(other.parent(m)));
            assert(self.member(self.parent(m), self.slot@[m]) == other.member(
                other.parent(m),
                other.slot@[m],
            ));
        }
        assert forall|x: int, k: int|
            0 <= x < self.supers@.len() && 0 <= k < self.group_len(x) implies {
            &&& 0 <= #[trigger] self.member(x, k) < self.nodes@.len()
            &&& self.parent(self.member(x, k)) == x
            &&& self.slot@[self.member(x, k)] == k
        } by {
            assert(self.member(x, k) == other.member(x, k));
        }
        assert forall|x: int, k1: int, k2: int|
            0 <= x < self.supers@.len() && 0 <= k1 < k2 < self.group_len(x) implies self.minor(
            #[trigger] self.member(x, k1),
        ) < self.minor(#[trigger] self.member(x, k2)) by {
            assert(self.member(x, k1) == other.member(x, k1));
            assert(self.member(x, k2) == other.member(x, k2));
        }
    }

    /// Label distance of the super-node after the one at ring position `k`: 2^64 past the end.
    spec fn next_major(&self, k: int) -> int {
        if k + 1 < self.supers@.len() {
            self.major(self.ring@[k + 1] as int)
        } else {
            label_range()
        }
    }

    /// Label distance from the base, as computed at run time.
    fn major_exec(&self, x: usize) -> (r: u64)
        requires
            (x as int) < self.supers@.len(),
            (self.base as int) < self.supers@.len(),
        ensures
            r as int == self.major(x as int),
    {
        self.supers[x].value.wrapping_sub(self.supers[self.base].value)
    }

    /// Spreads the super-node labels evenly around the ring: the super-node at ring position
    /// `k` gets distance `k * step` from the base, with `step = 2^64 / (count + 1)`.
    #[verifier::rlimit(50)]
    fn renumber(&mut self)
        requires
            old(self).loose_wf(),
            old(self).supers@.len() < 0x4000_0000_0000_0000,
        ensures
            final(self).loose_wf(),
            final(self).same_groups(old(self)),
            forall|k: int|
                0 <= k < final(self).supers@.len() ==> final(self).major(
                    #[trigger] final(self).ring@[k] as int,
                ) + 2 <= final(self).next_major(k),
    {
        proof {
            reveal(VersionList::ring_wf);
        }
        let count = self.supers.len();
        let step: u64 = (0xFFFF_FFFF_FFFF_FFFFu64 / (count as u64 + 1)) as u64;
        let base_value = self.supers[self.base].value;
        let ghost old_self = *old(self);
        proof {
            lemma_step(count as int, step as int);
        }
        let mut cur = self.base;
        let mut k: usize = 0;
        while k < count
            invariant
                old_self == *old(self),
                old_self.ring_wf(),
                (old_self.base as int) < old_self.supers@.len(),
                count == old_self.supers@.len(),
                count < 0x4000_0000_0000_0000,
                step as int * (count + 1) <= u64::MAX,
                step >= 2,
                base_value == old_self.supers@[old_self.base as int].value,
                old_self.ring@.len() == count,
                old_self.ring@[0] == old_self.base,
                forall|j: int|
                    0 <= j < count ==> (#[trigger] old_self.ring@[j] as int) < count
                        && old_self.rpos@[old_self.ring@[j] as int] == j,
                forall|j: int|
                    0 <= j < count ==> old_self.supers@[#[trigger] old_self.ring@[j] as int].next == (
                    if j + 1 < count {
                        old_self.ring@[j + 1]
                    } else {
                        old_self.base
                    }),
                self.same_groups(&old_self),
                k <= count,
                k < count ==> cur == old_self.ring@[k as int],
                k > 0 ==> self.supers@[self.base as int].value == base_value,
                k == 0 ==> self.supers@ == old_self.supers@,
                forall|j: int|
                    0 <= j < k ==> distance(
                        #[trigger] self.supers@[old_self.ring@[j] as int].value,
                        base_value,
                    ) == j * step,
                forall|j: int|
                    k <= j < count ==> #[trigger] self.supers@[old_self.ring@[j] as int].value
                        == old_self.supers@[old_self.ring@[j] as int].value,
            decreases count - k,
        {
            proof {
                lemma_mul_bound(k as int, step as int, count as int);
            }
            let value = base_value.wrapping_add(k as u64 * step);
            let next = self.supers[cur].next;
            let members = self.members_of(cur);
            let ghost pre = *self;
            self.supers.set(cur, VersionSuperNode { next, value, list: members });
            proof {
                assert forall|j: int| 0 <= j < k + 1 implies distance(
                    #[trigger] self.supers@[old_self.ring@[j] as int].value,
                    base_value,
                ) == j * step by {
                    if j < k {
                        assert(old_self.ring@[j] != old_self.ring@[k as int]);
                        assert(distance(pre.supers@[old_self.ring@[j] as int].value, base_value) == j
                            * step);
                    }
                }
                assert forall|j: int| k + 1 <= j < count implies #[trigger] self.supers@[old_self.ring@[j] as int].value == old_self.supers@[old_self.ring@[j] as int].value by {
                    assert(old_self.ring@[j] != old_self.ring@[k as int]);
                    assert(pre.supers@[old_self.ring@[j] as int].value == old_self.supers@[old_self.ring@[j] as int].value);
                }
                if k == 0 {
                    assert(self.supers@[self.base as int].value == base_value);
                } else {
                    assert(old_self.ring@[0] != old_self.ring@[k as int]);
                }
            }
            cur = next;
            k = k + 1;
        }
        proof {
            assert forall|j: int| 0 <= j < count implies #[trigger] self.major(
                self.ring@[j] as int,
            ) == j * step by {
                lemma_mul_bound(j, step as int, count as int);
                assert(distance(self.supers@[old_self.ring@[j] as int].value, base_value) == j * step);
                assert(self.supers@[old_self.base as int].value == base_value);
            }
            assert forall|k1: int, k2: int|
                0 <= k1 < k2 < count implies self.major(#[trigger] self.ring@[k1] as int) < self.major(
                #[trigger] self.ring@[k2] as int,
            ) by {
                lemma_mul_increasing(k1, k2, step as int);
            }
            assert forall|j: int| 0 <= j < count implies self.major(#[trigger] self.ring@[j] as int) + 2
                <= self.next_major(j) by {
                if j + 1 < count {
                    assert(self.major(self.ring@[j + 1] as int) == (j + 1) * step);
                    lemma_mul_succ(j, step as int);
                } else {
                    lemma_mul_bound(j, step as int, count as int);
                    lemma_mul_succ(j, step as int);
                }
            }
            assert(self.ring_wf());
            self.lemma_same_groups(&old_self);
        }
    }

    /// Gives the node at position `j` of `members` the parent `parent` and the label
    /// `j * SPREAD`.
    fn assign(&mut self, members: &Vec<usize>, parent: usize)
        requires
            members@.len() <= GROUP_LIMIT,
            forall|j: int| 0 <= j < members@.len() ==> (#[trigger] members@[j] as int) < old(self).nodes@.len(),
            forall|i: int, j: int| 0 <= i < j < members@.len() ==> members@[i] != members@[j],
        ensures
            final(self).supers@ == old(self).supers@,
            final(self).base == old(self).base,
            final(self).size == old(self).size,
            final(self).ring@ == old(self).ring@,
            final(self).rpos@ == old(self).rpos@,
            final(self).slot@ == old(self).slot@,
            final(self).nodes@.len() == old(self).nodes@.len(),
            forall|j: int|
                0 <= j < members@.len() ==> final(self).nodes@[#[trigger] members@[j] as int]
                    == (VersionNode { parent, value: (j * SPREAD) as u64 }),
            forall|m: int|
                0 <= m < old(self).nodes@.len() && (forall|j: int|
                    0 <= j < members@.len() ==> members@[j] != m as usize)
                    ==> #[trigger] final(self).nodes@[m] == old(self).nodes@[m],
    {
        let mut j: usize = 0;
        while j < members.len()
            invariant
                members@.len() <= GROUP_LIMIT,
                forall|i: int| 0 <= i < members@.len() ==> (#[trigger] members@[i] as int) < old(self).nodes@.len(),
                forall|i: int, jj: int| 0 <= i < jj < members@.len() ==> members@[i] != members@[jj],
                j <= members@.len(),
                self.supers@ == old(self).supers@,
                self.base == old(self).base,
                self.size == old(self).size,
                self.ring@ == old(self).ring@,
                self.rpos@ == old(self).rpos@,
                self.slot@ == old(self).slot@,
                self.nodes@.len() == old(self).nodes@.len(),
                forall|i: int|
                    0 <= i < j ==> self.nodes@[#[trigger] members@[i] as int] == (VersionNode {
                        parent,
                        value: (i * SPREAD) as u64,
                    }),
                forall|m: int|
                    0 <= m < old(self).nodes@.len() && (forall|i: int|
                        0 <= i < j ==> members@[i] != m as usize)
                        ==> #[trigger] self.nodes@[m] == old(self).nodes@[m],
            decreases members@.len() - j,
        {
            let m = members[j];
            let value: u64 = j as u64 * SPREAD;
            let ghost pre = *self;
            self.nodes.set(m, VersionNode { parent, value });
            proof {
                assert forall|i: int| 0 <= i < j + 1 implies self.nodes@[#[trigger] members@[i] as int]
                    == (VersionNode { parent, value: (i * SPREAD) as u64 }) by {
                    if i < j {
                        assert(members@[i] != members@[j as int]);
                    }
                }
                assert forall|mm: int|
                    0 <= mm < old(self).nodes@.len() && (forall|i: int|
                        0 <= i < j + 1 ==> members@[i] != mm as usize) implies #[trigger] self.nodes@[mm]
                    == old(self).nodes@[mm] by {
                    assert(members@[j as int] != mm as usize);
                    assert(pre.nodes@[mm] == old(self).nodes@[mm]);
                }
            }
            j = j + 1;
        }
    }

    /// The two halves of the full super-node `s` hold distinct nodes of the list.
    proof fn lemma_halves(&self, s: int)
        requires
            self.loose_wf(),
            0 <= s < self.supers@.len(),
            self.group_len(s) == GROUP_LIMIT,
        ensures
            forall|i: int, j: int|
                0 <= i < j < 32 ==> self.supers@[s].list@.subrange(0, 32)[i]
                    != self.supers@[s].list@.subrange(0, 32)[j],
            forall|i: int, j: int|
                0 <= i < j < 32 ==> self.supers@[s].list@.subrange(32, 64)[i]
                    != self.supers@[s].list@.subrange(32, 64)[j],
            forall|j: int|
                0 <= j < 32 ==> (#[trigger] self.supers@[s].list@.subrange(0, 32)[j] as int)
                    < self.nodes@.len(),
            forall|j: int|
                0 <= j < 32 ==> (#[trigger] self.supers@[s].list@.subrange(32, 64)[j] as int)
                    < self.nodes@.len(),
    {
        reveal(VersionList::groups_wf);
        assert forall|i: int, j: int| 0 <= i < j < 32 implies self.supers@[s].list@.subrange(0, 32)[i]
            != self.supers@[s].list@.subrange(0, 32)[j] by {
            assert(self.slot@[self.member(s, i)] == i);
            assert(self.slot@[self.member(s, j)] == j);
        }
        assert forall|i: int, j: int| 0 <= i < j < 32 implies self.supers@[s].list@.subrange(32, 64)[i]
            != self.supers@[s].list@.subrange(32, 64)[j] by {
            assert(self.slot@[self.member(s, i + 32)] == i + 32);
            assert(self.slot@[self.member(s, j + 32)] == j + 32);
        }
        assert forall|j: int| 0 <= j < 32 implies (#[trigger] self.supers@[s].list@.subrange(0, 32)[j]
            as int) < self.nodes@.len() by {
            assert(0 <= self.member(s, j) < self.nodes@.len());
        }
        assert forall|j: int| 0 <= j < 32 implies (#[trigger] self.supers@[s].list@.subrange(32, 64)[j]
            as int) < self.nodes@.len() by {
            assert(0 <= self.member(s, j + 32) < self.nodes@.len());
        }
    }

    /// Node contents after the two halves of full super-node `s` were assigned.
    proof fn lemma_assigned(
        &self,
        mid: &VersionList,
        after_head: &VersionList,
        head: Seq<usize>,
        tail: Seq<usize>,
        s: int,
        t: int,
    )
        requires
            mid.loose_wf(),
            0 <= s < mid.supers@.len(),
            mid.group_len(s) == GROUP_LIMIT,
            head == mid.supers@[s].list@.subrange(0, 32),
            tail == mid.supers@[s].list@.subrange(32, 64),
            after_head.nodes@.len() == mid.nodes@.len(),
            self.nodes@.len() == mid.nodes@.len(),
            forall|j: int|
                0 <= j < head.len() ==> after_head.nodes@[#[trigger] head[j] as int] == (VersionNode {
                    parent: s as usize,
                    value: (j * SPREAD) as u64,
                }),
            forall|m: int|
                0 <= m < mid.nodes@.len() && (forall|j: int|
                    0 <= j < head.len() ==> head[j] != m as usize)
                    ==> #[trigger] after_head.nodes@[m] == mid.nodes@[m],
            forall|j: int|
                0 <= j < tail.len() ==> self.nodes@[#[trigger] tail[j] as int] == (VersionNode {
                    parent: t as usize,
                    value: (j * SPREAD) as u64,
                }),
            forall|m: int|
                0 <= m < mid.nodes@.len() && (forall|j: int|
                    0 <= j < tail.len() ==> tail[j] != m as usize)
                    ==> #[trigger] self.nodes@[m] == after_head.nodes@[m],
        ensures
            forall|m: int|
                0 <= m < mid.nodes@.len() ==> #[trigger] self.nodes@[m] == (if mid.parent(m) == s
                    && mid.slot@[m] < 32 {
                    VersionNode { parent: s as usize, value: (mid.slot@[m] * SPREAD) as u64 }
                } else if mid.parent(m) == s {
                    VersionNode { parent: t as usize, value: ((mid.slot@[m] - 32) * SPREAD) as u64 }
                } else {
                    mid.nodes@[m]
                }),
    {
        reveal(VersionList::groups_wf);
        assert forall|m: int| 0 <= m < mid.nodes@.len() implies #[trigger] self.nodes@[m] == (
        if mid.parent(m) == s && mid.slot@[m] < 32 {
            VersionNode { parent: s as usize, value: (mid.slot@[m] * SPREAD) as u64 }
        } else if mid.parent(m) == s {
            VersionNode { parent: t as usize, value: ((mid.slot@[m] - 32) * SPREAD) as u64 }
        } else {
            mid.nodes@[m]
        }) by {
            assert(0 <= mid.parent(m) < mid.supers@.len());
            assert(mid.member(mid.parent(m), mid.slot@[m]) == m);
            if mid.parent(m) == s && mid.slot@[m] < 32 {
                assert(head[mid.slot@[m]] == m);
                assert forall|j: int| 0 <= j < tail.len() implies tail[j] != m as usize by {
                    assert(mid.slot@[mid.member(s, j + 32)] == j + 32);
                }
            } else if mid.parent(m) == s {
                assert(tail[mid.slot@[m] - 32] == m);
            } else {
                assert forall|j: int| 0 <= j < head.len() implies head[j] != m as usize by {
                    assert(mid.parent(mid.member(s, j)) == s);
                }
                assert forall|j: int| 0 <= j < tail.len() implies tail[j] != m as usize by {
                    assert(mid.parent(mid.member(s, j + 32)) == s);
                }
            }
        }
    }

    /// Where super-node `s` and its successor stand in the ring.
    proof fn lemma_ring_facts(&self, s: int)
        requires
            self.ring_wf(),
            0 <= s < self.supers@.len(),
            (self.base as int) < self.supers@.len(),
        ensures
            0 <= self.rpos@[s] < self.supers@.len(),
            self.ring@[self.rpos@[s]] == s,
            (self.supers@[s].next as int) < self.supers@.len(),
            self.rpos@[s] + 1 < self.supers@.len() ==> self.supers@[s].next == self.ring@[self.rpos@[s]
                + 1] && self.supers@[s].next != self.base,
            self.rpos@[s] + 1 == self.supers@.len() ==> self.supers@[s].next == self.base,
            self.next_major(self.rpos@[s]) == (if self.supers@[s].next == self.base {
                label_range()
            } else {
                self.major(self.supers@[s].next as int)
            }),
            self.major(s) < self.next_major(self.rpos@[s]),
            self.major(s) < label_range(),
    {
        reveal(VersionList::ring_wf);
        let p = self.rpos@[s];
        assert(self.ring@[p] == s);
        assert(self.rpos@[self.base as int] == 0);
        if p + 1 < self.supers@.len() {
            assert((self.ring@[p + 1] as int) < self.supers@.len());
        }
        if p + 1 < self.supers@.len() {
            assert(self.major(self.ring@[p] as int) < self.major(self.ring@[p + 1] as int));
        }
    }

    /// Spreads the labels of the super-nodes after `s` over an arc of the ring, leaving room
    /// right after `s`. Walking from `s`, the arc grows until the distance it covers is at
    /// least the square of its size plus one, or it reaches the base; the labels of its
    /// super-nodes are then set evenly apart. Returns false, changing nothing, when even the
    /// arc up to the base is too dense.
    #[verifier::rlimit(100)]
    fn renumber_local(&mut self, s: usize) -> (done: Option<(usize, u128)>)
        requires
            old(self).loose_wf(),
            (s as int) < old(self).supers@.len(),
            old(self).supers@.len() < 0x4000_0000_0000_0000,
        ensures
            final(self).loose_wf(),
            final(self).same_groups(old(self)),
            match done {
                Some((j, step)) => {
                    let p = old(self).rpos@[s as int];
                    let c = old(self).major(s as int);
                    &&& 1 <= j
                    &&& p + j <= old(self).supers@.len()
                    &&& step >= 1
                    &&& step * (j + 1) <= old(self).next_major(p + j - 1) - c
                    &&& (p + j < old(self).supers@.len() ==> (j + 1) * (j + 1) <= old(
                        self).next_major(p + j - 1) - c)
                    &&& forall|k: int|
                        0 <= k < old(self).supers@.len() ==> #[trigger] final(self).major(
                            old(self).ring@[k] as int,
                        ) == (if p + 1 <= k < p + j {
                            c + step * (k - p + 1)
                        } else {
                            old(self).major(old(self).ring@[k] as int)
                        })
                    &&& final(self).major(s as int) + 2 <= final(self).next_major(
                        final(self).rpos@[s as int],
                    )
                },
                None => {
                    &&& *final(self) == *old(self)
                    &&& label_range() - old(self).major(s as int) <= old(self).supers@.len()
                        - old(self).rpos@[s as int]
                },
            },
    {
        proof {
            old(self).lemma_ring_facts(s as int);
            reveal(VersionList::ring_wf);
        }
        let ghost old_self = *old(self);
        let ghost p = old_self.rpos@[s as int];
        let count = self.supers.len();
        let base = self.base;
        let base_value = self.supers[base].value;
        let c: u128 = self.major_exec(s) as u128;
        let mut cur = self.supers[s].next;
        let mut j: usize = 1;
        proof {
            lemma_square_bound(1, count as int);
        }
        let mut dist: u128 = if cur == base {
            0x1_0000_0000_0000_0000u128 - c
        } else {
            self.major_exec(cur) as u128 - c
        };
        proof {
            if p + 1 < count {
                assert(old_self.major(old_self.ring@[p] as int) < old_self.major(
                    old_self.ring@[p + 1] as int,
                ));
            }
        }
        while cur != base && dist < (j as u128 + 1) * (j as u128 + 1)
            invariant
                old_self == *old(self),
                *self == old_self,
                old_self.ring_wf(),
                old_self.loose_wf(),
                count == old_self.supers@.len(),
                count < 0x4000_0000_0000_0000,
                base == old_self.base,
                0 <= p < count,
                old_self.ring@[p] == s,
                c as int == old_self.major(s as int),
                1 <= j,
                p + j <= count,
                p + j < count ==> cur == old_self.ring@[p + j],
                p + j == count ==> cur == base,
                cur == base ==> p + j == count,
                dist as int == old_self.next_major(p + j - 1) - c,
                (j + 1) * (j + 1) < 0x1_0000_0000_0000_0000_0000_0000_0000_0000,
            decreases count - j,
        {
            proof {
                reveal(VersionList::ring_wf);
                assert(old_self.ring@[p + j] == cur);
            }
            cur = self.supers[cur].next;
            j = j + 1;
            dist = if cur == base {
                0x1_0000_0000_0000_0000u128 - c
            } else {
                self.major_exec(cur) as u128 - c
            };
            proof {
                reveal(VersionList::ring_wf);
                lemma_square_bound(j as int, count as int);
                if p + j < count {
                    assert(old_self.ring@[p + j] != base) by {
                        assert(old_self.rpos@[base as int] == 0);
                    }
                } else {
                    assert(cur == base);
                }
                if cur == base && p + j < count {
                    assert(old_self.rpos@[base as int] == 0);
                }
            }
        }
        let step: u128 = dist / (j as u128 + 1);
        if step == 0 {
            proof {
                lemma_div_zero(dist as int, j as int);
                if cur != base {
                    lemma_square_ge(j as int);
                }
                assert(p + j == count);
            }
            return None;
        }
        proof {
            lemma_step_bounds(step as int, dist as int, j as int);
        }
        let mut k: usize = 1;
        let mut node = self.supers[s].next;
        while k < j
            invariant
                old_self == *old(self),
                old_self.ring_wf(),
                old_self.loose_wf(),
                count == old_self.supers@.len(),
                base == old_self.base,
                base_value == old_self.supers@[base as int].value,
                0 <= p < count,
                old_self.ring@[p] == s,
                c as int == old_self.major(s as int),
                1 <= k <= j,
                p + j <= count,
                dist as int == old_self.next_major(p + j - 1) - c,
                c + dist <= 0x1_0000_0000_0000_0000,
                step >= 1,
                step * (j + 1) <= dist,
                k < j ==> node == old_self.ring@[p + k],
                self.same_groups(&old_self),
                self.supers@[base as int].value == base_value,
                forall|i: int|
                    1 <= i < k ==> distance(
                        #[trigger] self.supers@[old_self.ring@[p + i] as int].value,
                        base_value,
                    ) == c + step * (i + 1),
                forall|x: int|
                    0 <= x < count && !(p + 1 <= old_self.rpos@[x] < p + k) ==> (
                    #[trigger] self.supers@[x]).value == old_self.supers@[x].value,
            decreases j - k,
        {
            proof {
                reveal(VersionList::ring_wf);
                lemma_arc_label(c as int, step as int, k as int, j as int, dist as int);
                assert(old_self.rpos@[old_self.ring@[p + k] as int] == p + k);
                assert((node as int) < count);
            }
            let value = base_value.wrapping_add((c + step * (k as u128 + 1)) as u64);
            let next = self.supers[node].next;
            let members = self.members_of(node);
            let ghost pre = *self;
            self.supers.set(node, VersionSuperNode { next, value, list: members });
            proof {
                reveal(VersionList::ring_wf);
                assert(node != base) by {
                    assert(old_self.rpos@[base as int] == 0);
                }
                assert forall|i: int| 1 <= i < k + 1 implies distance(
                    #[trigger] self.supers@[old_self.ring@[p + i] as int].value,
                    base_value,
                ) == c + step * (i + 1) by {
                    if i < k {
                        assert(old_self.rpos@[old_self.ring@[p + i] as int] == p + i);
                        assert(old_self.ring@[p + i] != node);
                    }
                }
                assert forall|x: int|
                    0 <= x < count && !(p + 1 <= old_self.rpos@[x] < p + k + 1) implies (
                    #[trigger] self.supers@[x]).value == old_self.supers@[x].value by {
                    if x == node as int {
                        assert(old_self.rpos@[old_self.ring@[p + k] as int] == p + k);
                    } else {
                        assert(pre.supers@[x].value == old_self.supers@[x].value);
                    }
                }
                if k + 1 < j {
                    assert(old_self.ring@[p + k + 1] == next);
                }
            }
            node = next;
            k = k + 1;
        }
        proof {
            self.lemma_arc_relabeled(&old_self, p, j as int, c as int, step as int, dist as int);
        }
        Some((j, step))
    }

    #[verifier::rlimit(100)]
    proof fn lemma_arc_majors(
        &self,
        old_self: &VersionList,
        p: int,
        j: int,
        c: int,
        step: int,
        dist: int,
    )
        requires
            old_self.loose_wf(),
            self.same_groups(old_self),
            0 <= p < old_self.supers@.len(),
            1 <= j,
            p + j <= old_self.supers@.len(),
            self.supers@[old_self.base as int].value == old_self.supers@[old_self.base as int].value,
            forall|i: int|
                1 <= i < j ==> distance(
                    #[trigger] self.supers@[old_self.ring@[p + i] as int].value,
                    old_self.supers@[old_self.base as int].value,
                ) == c + step * (i + 1),
            forall|x: int|
                0 <= x < old_self.supers@.len() && !(p + 1 <= old_self.rpos@[x] < p + j) ==> (
                #[trigger] self.supers@[x]).value == old_self.supers@[x].value,
        ensures
            forall|k: int|
                0 <= k < old_self.supers@.len() ==> #[trigger] self.major(self.ring@[k] as int) == (
                if p + 1 <= k < p + j {
                    c + step * (k - p + 1)
                } else {
                    old_self.major(old_self.ring@[k] as int)
                }),
    {
        reveal(VersionList::ring_wf);
        let count = old_self.supers@.len() as int;
        assert forall|k: int| 0 <= k < count implies #[trigger] self.major(self.ring@[k] as int) == (
        if p + 1 <= k < p + j {
            c + step * (k - p + 1)
        } else {
            old_self.major(old_self.ring@[k] as int)
        }) by {
            assert(old_self.rpos@[old_self.ring@[k] as int] == k);
            if p + 1 <= k < p + j {
                let i = k - p;
                assert(p + i == k);
                assert(distance(self.supers@[old_self.ring@[p + i] as int].value,
                    old_self.supers@[old_self.base as int].value) == c + step * (i + 1));
            }
        }
    }

    #[verifier::rlimit(100)]
    proof fn lemma_arc_increasing(
        &self,
        old_self: &VersionList,
        p: int,
        j: int,
        c: int,
        step: int,
        dist: int,
    )
        requires
            old_self.loose_wf(),
            self.same_groups(old_self),
            0 <= p < old_self.supers@.len(),
            1 <= j,
            p + j <= old_self.supers@.len(),
            c == old_self.major(old_self.ring@[p] as int),
            dist == old_self.next_major(p + j - 1) - c,
            c + dist <= 0x1_0000_0000_0000_0000,
            step >= 1,
            step * (j + 1) <= dist,
            forall|k: int|
                0 <= k < old_self.supers@.len() ==> #[trigger] self.major(self.ring@[k] as int) == (
                if p + 1 <= k < p + j {
                    c + step * (k - p + 1)
                } else {
                    old_self.major(old_self.ring@[k] as int)
                }),
        ensures
            forall|k1: int, k2: int|
                0 <= k1 < k2 < old_self.supers@.len() ==> self.major(#[trigger] self.ring@[k1] as int)
                    < self.major(#[trigger] self.ring@[k2] as int),
    {
        reveal(VersionList::ring_wf);
        let count = old_self.supers@.len() as int;
        assert forall|k1: int, k2: int|
            0 <= k1 < k2 < count implies self.major(#[trigger] self.ring@[k1] as int) < self.major(
            #[trigger] self.ring@[k2] as int,
        ) by {
            let m1 = self.major(self.ring@[k1] as int);
            let m2 = self.major(self.ring@[k2] as int);
            assert(old_self.major(old_self.ring@[k1] as int) < old_self.major(old_self.ring@[k2] as int));
            if p + 1 <= k1 < p + j && p + 1 <= k2 < p + j {
                lemma_mul_increasing(k1 - p + 1, k2 - p + 1, step);
            } else if p + 1 <= k1 < p + j {
                // k2 is at or past the end of the arc
                lemma_arc_label(c, step, k1 - p, j, dist);
                if k2 > p + j {
                    assert(old_self.major(old_self.ring@[p + j] as int) < old_self.major(
                        old_self.ring@[k2] as int,
                    ));
                }
            } else if p + 1 <= k2 < p + j {
                lemma_arc_label(c, step, k2 - p, j, dist);
                if k1 < p {
                    assert(old_self.major(old_self.ring@[k1] as int) < old_self.major(
                        old_self.ring@[p] as int,
                    ));
                }
            }
        }
    }

    /// The ring after the arc of `j` super-nodes from ring position `p` was relabeled
    /// `c + step * (i + 1)`.
    #[verifier::rlimit(100)]
    proof fn lemma_arc_relabeled(
        &self,
        old_self: &VersionList,
        p: int,
        j: int,
        c: int,
        step: int,
        dist: int,
    )
        requires
            old_self.loose_wf(),
            self.same_groups(old_self),
            0 <= p < old_self.supers@.len(),
            1 <= j,
            p + j <= old_self.supers@.len(),
            c == old_self.major(old_self.ring@[p] as int),
            dist == old_self.next_major(p + j - 1) - c,
            c + dist <= 0x1_0000_0000_0000_0000,
            step >= 1,
            step * (j + 1) <= dist,
            self.supers@[old_self.base as int].value == old_self.supers@[old_self.base as int].value,
            forall|i: int|
                1 <= i < j ==> distance(
                    #[trigger] self.supers@[old_self.ring@[p + i] as int].value,
                    old_self.supers@[old_self.base as int].value,
                ) == c + step * (i + 1),
            forall|x: int|
                0 <= x < old_self.supers@.len() && !(p + 1 <= old_self.rpos@[x] < p + j) ==> (
                #[trigger] self.supers@[x]).value == old_self.supers@[x].value,
        ensures
            self.loose_wf(),
            self.major(self.ring@[p] as int) + 2 <= self.next_major(p),
            forall|k: int|
                0 <= k < old_self.supers@.len() ==> #[trigger] self.major(self.ring@[k] as int) == (
                if p + 1 <= k < p + j {
                    c + step * (k - p + 1)
                } else {
                    old_self.major(old_self.ring@[k] as int)
                }),
    {
        self.lemma_arc_majors(old_self, p, j, c, step, dist);
        self.lemma_arc_increasing(old_self, p, j, c, step, dist);
        reveal(VersionList::ring_wf);
        let count = old_self.supers@.len() as int;
        assert(self.ring_wf());
        self.lemma_same_groups(old_self);
        if j == 1 {
            if p + 1 < count {
                assert(self.major(self.ring@[p + 1] as int) == old_self.major(old_self.ring@[p + 1] as int));
            }
            assert(dist >= 2 * step) by (nonlinear_arith)
                requires
                    step * 2 <= dist,
            ;
        } else {
            assert(self.major(self.ring@[p + 1] as int) == c + step * 2);
        }
    }

    /// A label for a new super-node right after `s` in the ring, renumbering the ring first
    /// when there is no room.
    fn split_label(&mut self, s: usize) -> (value: u64)
        requires
            old(self).loose_wf(),
            (s as int) < old(self).supers@.len(),
            old(self).nodes@.len() < 0x4000_0000_0000_0000,
        ensures
            final(self).loose_wf(),
            final(self).same_groups(old(self)),
            final(self).major(s as int) < distance(
                value,
                final(self).supers@[final(self).base as int].value,
            ) < final(self).next_major(final(self).rpos@[s as int]),
            distance(value, final(self).supers@[final(self).base as int].value) == final(
                self).major(s as int) + (final(self).next_major(final(self).rpos@[s as int])
                - final(self).major(s as int)) / 2,
            old(self).major(s as int) + 2 <= old(self).next_major(old(self).rpos@[s as int])
                ==> *final(self) == *old(self),
    {
        proof {
            old(self).lemma_ring_facts(s as int);
        }
        let nx = self.supers[s].next;
        let mut c = self.major_exec(s);
        let mut n: u128 = if nx == self.base {
            0x1_0000_0000_0000_0000u128
        } else {
            self.major_exec(nx) as u128
        };
        if n < c as u128 + 2 {
            if self.renumber_local(s).is_none() {
                self.renumber();
            }
            c = self.major_exec(s);
            n = if nx == self.base {
                0x1_0000_0000_0000_0000u128
            } else {
                self.major_exec(nx) as u128
            };
            proof {
                self.lemma_ring_facts(s as int);
                let p = self.rpos@[s as int];
                assert(self.major(self.ring@[p] as int) + 2 <= self.next_major(p));
            }
        }
        let label: u64 = (c as u128 + (n - c as u128) / 2) as u64;
        let base_value = self.supers[self.base].value;
        let value = base_value.wrapping_add(label);
        proof {
            self.lemma_ring_facts(s as int);
        }
        value
    }

    /// Splits the full super-node `s`: its last half of nodes moves to a new super-node placed
    /// right after it in the ring, and both halves are relabeled `k * SPREAD`.
    #[verifier::rlimit(100)]
    fn split_super(&mut self, s: usize)
        requires
            old(self).loose_wf(),
            (s as int) < old(self).supers@.len(),
            old(self).group_len(s as int) == GROUP_LIMIT,
            forall|x: int|
                0 <= x < old(self).supers@.len() && x != s ==> #[trigger] old(self).group_len(x)
                    < GROUP_LIMIT,
            old(self).nodes@.len() < 0x4000_0000_0000_0000,
        ensures
            final(self).loose_wf(),
            forall|x: int|
                0 <= x < final(self).supers@.len() ==> #[trigger] final(self).group_len(x)
                    < GROUP_LIMIT,
            final(self).keeps_order(old(self)),
            final(self).nodes@.len() == old(self).nodes@.len(),
            final(self).size == old(self).size,
            final(self).supers@.len() == old(self).supers@.len() + 1,
            final(self).supers@[s as int].next == old(self).supers@.len(),
            final(self).supers@[old(self).supers@.len() as int].next == old(self).supers@[s as int].next,
            final(self).rpos@[old(self).supers@.len() as int] == final(self).rpos@[s as int] + 1,
            final(self).supers@[s as int].list@ == old(self).supers@[s as int].list@.subrange(0, 32),
            final(self).supers@[old(self).supers@.len() as int].list@ == old(self).supers@[
                s as int].list@.subrange(32, 64),
            forall|k: int|
                0 <= k < 32 ==> final(self).minor(#[trigger] final(self).member(s as int, k)) == k
                    * SPREAD && final(self).minor(final(self).member(
                    old(self).supers@.len() as int,
                    k,
                )) == k * SPREAD,
            final(self).major(old(self).supers@.len() as int) == final(self).major(s as int) + (
            final(self).next_major(final(self).rpos@[old(self).supers@.len() as int]) - final(
                self).major(s as int)) / 2,
            old(self).major(s as int) + 2 <= old(self).next_major(old(self).rpos@[s as int])
                ==> forall|x: int|
                0 <= x < old(self).supers@.len() ==> #[trigger] final(self).major(x) == old(
                    self).major(x),
    {
        let nx = self.supers[s].next;
        let value = self.split_label(s);
        let ghost mid = *self;
        proof {
            reveal(VersionList::ring_wf);
            assert(mid.keeps_order(old(self)));
        }
        let t = self.supers.len();
        let mut head = self.members_of(s);
        let tail = head.split_off(32);
        proof {
            mid.lemma_halves(s as int);
        }
        self.assign(&head, s);
        let ghost after_head = *self;
        self.assign(&tail, t);
        let sval = self.supers[s].value;
        self.supers.set(s, VersionSuperNode { next: t, value: sval, list: head });
        self.supers.push(VersionSuperNode { next: nx, value, list: tail });
        let ghost p = mid.rpos@[s as int];
        let ghost new_ring = mid.ring@.insert(p + 1, t);
        let ghost new_rpos = Seq::new(
            (t + 1) as nat,
            |x: int|
                if x == t {
                    p + 1
                } else if mid.rpos@[x] > p {
                    mid.rpos@[x] + 1
                } else {
                    mid.rpos@[x]
                },
        );
        let ghost new_slot = Seq::new(
            mid.nodes@.len(),
            |m: int|
                if mid.parent(m) == s && mid.slot@[m] >= 32 {
                    mid.slot@[m] - 32
                } else {
                    mid.slot@[m]
                },
        );
        self.ring = Ghost(new_ring);
        self.rpos = Ghost(new_rpos);
        self.slot = Ghost(new_slot);
        proof {
            self.lemma_assigned(&mid, &after_head, head@, tail@, s as int, t as int);
            let si = s as int;
            assert forall|x: int| 0 <= x < mid.supers@.len() && x != si implies #[trigger] mid.group_len(
                x,
            ) < GROUP_LIMIT by {
                assert(mid.supers@[x].list@ == old(self).supers@[x].list@);
                assert(old(self).group_len(x) < GROUP_LIMIT);
            }
            assert(mid.supers@[si].list@ == old(self).supers@[si].list@);
            assert(self.split_of(&mid, s as int, t as int, p));
            self.lemma_split(&mid, s as int, t as int, p);
            self.lemma_split_shape(&mid, s as int, t as int, p);
            assert forall|a: int, b: int|
                0 <= a < old(self).nodes@.len() && 0 <= b < old(self).nodes@.len() implies (
                self.rank_lt(a, b) <==> old(self).rank_lt(a, b)) by {
                assert(mid.rank_lt(a, b) <==> old(self).rank_lt(a, b));
            }
        }
    }

    /// `self` is `mid` with full super-node `s`, at ring position `p`, split into `s` and the
    /// new super-node `t`.
    spec fn split_of(&self, mid: &VersionList, s: int, t: int, p: int) -> bool {
        &&& mid.loose_wf()
        &&& 0 <= s < mid.supers@.len()
        &&& t == mid.supers@.len()
        &&& mid.group_len(s) == GROUP_LIMIT
        &&& forall|x: int|
                0 <= x < mid.supers@.len() && x != s ==> #[trigger] mid.group_len(x) < GROUP_LIMIT
        &&& p == mid.rpos@[s]
        &&& mid.major(s) < distance(self.supers@[t].value, mid.supers@[mid.base as int].value)
                < mid.next_major(p)
        &&& self.supers@.len() == t + 1
        &&& forall|x: int| 0 <= x < t && x != s ==> #[trigger] self.supers@[x] == mid.supers@[x]
        &&& self.supers@[s].next == t
        &&& self.supers@[s].value == mid.supers@[s].value
        &&& self.supers@[s].list@ == mid.supers@[s].list@.subrange(0, 32)
        &&& self.supers@[t].next == mid.supers@[s].next
        &&& self.supers@[t].list@ == mid.supers@[s].list@.subrange(32, 64)
        &&& self.base == mid.base
        &&& self.nodes@.len() == mid.nodes@.len()
        &&& forall|m: int|
                0 <= m < mid.nodes@.len() ==> #[trigger] self.nodes@[m] == (if mid.parent(m) == s
                    && mid.slot@[m] < 32 {
                    VersionNode { parent: s as usize, value: (mid.slot@[m] * SPREAD) as u64 }
                } else if mid.parent(m) == s {
                    VersionNode { parent: t as usize, value: ((mid.slot@[m] - 32) * SPREAD) as u64 }
                } else {
                    mid.nodes@[m]
                })
        &&& self.ring@ == mid.ring@.insert(p + 1, t as usize)
        &&& self.rpos@.len() == t + 1
        &&& forall|x: int|
            0 <= x <= t ==> #[trigger] self.rpos@[x] == (if x == t {
                p + 1
            } else if mid.rpos@[x] > p {
                mid.rpos@[x] + 1
            } else {
                mid.rpos@[x]
            })
        &&& self.slot@.len() == mid.nodes@.len()
        &&& forall|m: int|
            0 <= m < mid.nodes@.len() ==> #[trigger] self.slot@[m] == (if mid.parent(m) == s
                && mid.slot@[m] >= 32 {
                mid.slot@[m] - 32
            } else {
                mid.slot@[m]
            })
    }

    #[verifier::rlimit(100)]
    #[verifier::rlimit(100)]
    proof fn lemma_split_majors(&self, mid: &VersionList, s: int, t: int, p: int)
        requires
            self.split_of(mid, s, t, p),
            forall|x: int| 0 <= x < mid.supers@.len() ==> #[trigger] self.major(x) == mid.major(x),
        ensures
            forall|k1: int, k2: int|
                0 <= k1 < k2 < mid.supers@.len() + 1 ==> self.major(#[trigger] self.ring@[k1] as int)
                    < self.major(#[trigger] self.ring@[k2] as int),
    {
        reveal(VersionList::ring_wf);
        let S = mid.supers@.len() as int;
        assert(mid.ring@[p] == s);
        assert forall|k1: int, k2: int| 0 <= k1 < k2 < S + 1 implies self.major(
            #[trigger] self.ring@[k1] as int,
        ) < self.major(#[trigger] self.ring@[k2] as int) by {
            let a = if k1 <= p { k1 } else { k1 - 1 };
            let b = if k2 <= p { k2 } else { k2 - 1 };
            if k1 != p + 1 && k2 != p + 1 {
                assert(self.ring@[k1] == mid.ring@[a]);
                assert(self.ring@[k2] == mid.ring@[b]);
                assert(mid.major(mid.ring@[a] as int) < mid.major(mid.ring@[b] as int));
            } else if k1 == p + 1 {
                assert(self.ring@[k2] == mid.ring@[b]);
                if b > p + 1 {
                    assert(mid.major(mid.ring@[p + 1] as int) < mid.major(mid.ring@[b] as int));
                }
            } else {
                assert(self.ring@[k1] == mid.ring@[a]);
                if a < p {
                    assert(mid.major(mid.ring@[a] as int) < mid.major(mid.ring@[p] as int));
                }
            }
        }
    }

    #[verifier::rlimit(100)]
    proof fn lemma_split_ring(&self, mid: &VersionList, s: int, t: int, p: int)
        requires
            self.split_of(mid, s, t, p),
        ensures
            self.ring_wf(),
            forall|x: int| 0 <= x < mid.supers@.len() ==> #[trigger] self.major(x) == mid.major(x),
    {
        reveal(VersionList::ring_wf);
        let S = mid.supers@.len() as int;
        assert(mid.ring@[p] == s);
        assert forall|x: int| 0 <= x < S implies #[trigger] self.major(x) == mid.major(x) by {
            assert(mid.ring@[0] == mid.base);
        }
        // ring
        assert forall|k: int| 0 <= k < S + 1 implies (#[trigger] self.ring@[k] as int) < S + 1
            && self.rpos@[self.ring@[k] as int] == k by {
            if k <= p {
                assert(self.ring@[k] == mid.ring@[k]);
            } else if k > p + 1 {
                assert(self.ring@[k] == mid.ring@[k - 1]);
            }
        }
        assert forall|x: int| 0 <= x < S + 1 implies 0 <= #[trigger] self.rpos@[x] < S + 1
            && self.ring@[self.rpos@[x]] == x by {}
        assert forall|k: int| 0 <= k < S + 1 implies self.supers@[#[trigger] self.ring@[k] as int].next
            == (if k + 1 < S + 1 {
            self.ring@[k + 1]
        } else {
            self.base
        }) by {
            if k < p {
                assert(self.ring@[k] == mid.ring@[k]);
                assert(self.ring@[k + 1] == mid.ring@[k + 1]);
            } else if k == p {
            } else if k == p + 1 {
                if p + 1 < S {
                    assert(self.ring@[k + 1] == mid.ring@[p + 1]);
                }
            } else {
                assert(self.ring@[k] == mid.ring@[k - 1]);
                if k + 1 < S + 1 {
                    assert(self.ring@[k + 1] == mid.ring@[k]);
                }
            }
        }
        self.lemma_split_majors(mid, s, t, p);
        assert(self.ring_wf());
    }

    #[verifier::rlimit(50)]
    proof fn lemma_split_groups(&self, mid: &VersionList, s: int, t: int, p: int)
        requires
            self.split_of(mid, s, t, p),
        ensures
            self.groups_wf(),
            forall|x: int|
                0 <= x < self.supers@.len() ==> #[trigger] self.group_len(x) < GROUP_LIMIT,
    {
        reveal(VersionList::ring_wf);
        reveal(VersionList::groups_wf);
        let S = mid.supers@.len() as int;
        // groups
        assert forall|m: int| 0 <= m < mid.nodes@.len() implies 0 <= #[trigger] mid.parent(m) < S
            && mid.member(mid.parent(m), mid.slot@[m]) == m by {}
        assert forall|x: int| 0 <= x < S + 1 implies 1 <= #[trigger] self.group_len(x) < GROUP_LIMIT by {
            if x != s && x != t {
                assert(mid.group_len(x) < GROUP_LIMIT);
            }
        }
        assert forall|x: int, k: int| 0 <= x < S + 1 && 0 <= k < self.group_len(x) implies {
            &&& 0 <= #[trigger] self.member(x, k) < self.nodes@.len()
            &&& self.parent(self.member(x, k)) == x
            &&& self.slot@[self.member(x, k)] == k
        } by {
            if x == s {
                assert(self.member(x, k) == mid.member(s, k));
            } else if x == t {
                assert(self.member(x, k) == mid.member(s, k + 32));
            } else {
                assert(self.member(x, k) == mid.member(x, k));
            }
        }
        assert forall|x: int, k1: int, k2: int|
            0 <= x < S + 1 && 0 <= k1 < k2 < self.group_len(x) implies self.minor(
            #[trigger] self.member(x, k1),
        ) < self.minor(#[trigger] self.member(x, k2)) by {
            if x == s {
                assert(self.member(x, k1) == mid.member(s, k1));
                assert(self.member(x, k2) == mid.member(s, k2));
                lemma_spread_increasing(k1, k2);
            } else if x == t {
                assert(self.member(x, k1) == mid.member(s, k1 + 32));
                assert(self.member(x, k2) == mid.member(s, k2 + 32));
                lemma_spread_increasing(k1, k2);
            } else {
                assert(self.member(x, k1) == mid.member(x, k1));
                assert(self.member(x, k2) == mid.member(x, k2));
                assert(mid.minor(mid.member(x, k1)) < mid.minor(mid.member(x, k2)));
            }
        }
        assert forall|m: int| 0 <= m < self.nodes@.len() implies {
            &&& 0 <= #[trigger] self.parent(m) < S + 1
            &&& 0 <= self.slot@[m] < self.group_len(self.parent(m))
            &&& self.member(self.parent(m), self.slot@[m]) == m
        } by {
            assert(0 <= mid.parent(m) < S);
            assert(mid.member(mid.parent(m), mid.slot@[m]) == m);
        }
        assert(self.groups_wf());
    }

    /// Where the new super-node `t` stands after a split, and what its labels are.
    #[verifier::rlimit(100)]
    proof fn lemma_split_shape(&self, mid: &VersionList, s: int, t: int, p: int)
        requires
            self.split_of(mid, s, t, p),
        ensures
            self.rpos@[t] == self.rpos@[s] + 1,
            self.rpos@[s] == p,
            forall|x: int| 0 <= x < mid.supers@.len() ==> #[trigger] self.major(x) == mid.major(x),
            self.major(t) == distance(self.supers@[t].value, mid.supers@[mid.base as int].value),
            self.next_major(p + 1) == mid.next_major(p),
            forall|k: int|
                0 <= k < 32 ==> self.minor(#[trigger] self.member(s, k)) == k * SPREAD
                    && self.minor(self.member(t, k)) == k * SPREAD,
    {
        self.lemma_split_ring(mid, s, t, p);
        reveal(VersionList::ring_wf);
        reveal(VersionList::groups_wf);
        let S = mid.supers@.len() as int;
        assert(self.rpos@[s] == p);
        assert(self.supers@[mid.base as int].value == mid.supers@[mid.base as int].value);
        if p + 1 < S {
            assert(self.ring@[p + 2] == mid.ring@[p + 1]);
            assert((mid.ring@[p + 1] as int) < S);
        }
        assert forall|k: int| 0 <= k < 32 implies self.minor(#[trigger] self.member(s, k)) == k
            * SPREAD && self.minor(self.member(t, k)) == k * SPREAD by {
            assert(self.member(s, k) == mid.member(s, k));
            assert(self.member(t, k) == mid.member(s, k + 32));
            assert(mid.parent(mid.member(s, k)) == s && mid.slot@[mid.member(s, k)] == k);
            assert(mid.parent(mid.member(s, k + 32)) == s && mid.slot@[mid.member(s, k + 32)]
                == k + 32);
            let a = mid.member(s, k);
            let b = mid.member(s, k + 32);
            assert(0 <= a < mid.nodes@.len());
            assert(0 <= b < mid.nodes@.len());
            assert(self.nodes@[a].value == (k * SPREAD) as u64);
            assert(self.nodes@[b].value == ((k + 32 - 32) * SPREAD) as u64);
            assert(k * SPREAD < 0x1_0000_0000_0000_0000);
        }
    }

    /// The state after splitting super-node `s` into `s` and `t` is well formed and keeps the
    /// order of nodes.
    proof fn lemma_split(&self, mid: &VersionList, s: int, t: int, p: int)
        requires
            self.split_of(mid, s, t, p),
        ensures
            self.loose_wf(),
            forall|x: int|
                0 <= x < self.supers@.len() ==> #[trigger] self.group_len(x) < GROUP_LIMIT,
            forall|a: int, b: int|
                0 <= a < mid.nodes@.len() && 0 <= b < mid.nodes@.len() ==> (self.rank_lt(a, b)
                    <==> mid.rank_lt(a, b)),
    {
        self.lemma_split_ring(mid, s, t, p);
        self.lemma_split_groups(mid, s, t, p);
        self.lemma_supers_bound();
        assert forall|a: int| 0 <= a < mid.nodes@.len() implies {
            &&& #[trigger] self.rpos@[self.parent(a)] == (if mid.parent(a) == s && mid.slot@[a] >= 32 {
                p + 1
            } else if mid.rpos@[mid.parent(a)] > p {
                mid.rpos@[mid.parent(a)] + 1
            } else {
                mid.rpos@[mid.parent(a)]
            })
            &&& self.slot@[a] == (if mid.parent(a) == s && mid.slot@[a] >= 32 {
                mid.slot@[a] - 32
            } else {
                mid.slot@[a]
            })
            &&& (mid.parent(a) == s <==> mid.rpos@[mid.parent(a)] == p)
        } by {
            mid.lemma_node_facts(a);
            let pa = mid.parent(a);
            assert(self.nodes@[a] == self.nodes@[a]);
            mid.lemma_major_by_rpos(pa, s);
            mid.lemma_major_by_rpos(s, pa);
            assert(mid.rpos@[s] == p);
            assert(self.rpos@.len() == t + 1);
            if pa == s && mid.slot@[a] >= 32 {
                assert(self.parent(a) == t);
                assert(self.rpos@[t] == p + 1);
                assert(self.slot@[a] == mid.slot@[a] - 32);
            } else if pa == s {
                assert(self.parent(a) == s);
                assert(self.rpos@[s] == p);
                assert(self.slot@[a] == mid.slot@[a]);
            } else {
                assert(self.parent(a) == pa);
                assert(self.slot@[a] == mid.slot@[a]);
            }
        }
        assert forall|a: int, b: int|
            0 <= a < mid.nodes@.len() && 0 <= b < mid.nodes@.len() implies (self.rank_lt(a, b)
            <==> mid.rank_lt(a, b)) by {
            assert(self.rpos@[self.parent(a)] == self.rpos@[self.parent(a)]);
            assert(self.rpos@[self.parent(b)] == self.rpos@[self.parent(b)]);
        }
    }

    /// Whether `a` and `b` are the same version.
    pub fn same(&self, a: PartialVersion, b: PartialVersion) -> (r: bool)
        requires
            self.wf(),
            self.contains(a),
            self.contains(b),
        ensures
            r == (a == b),
            r == (!self.precedes(a, b) && !self.precedes(b, a)),
    {
        proof {
            lemma_total_order(self, a, b, b);
        }
        a.node == b.node
    }

    /// Number of versions in the list.
    pub fn size(&self) -> (r: usize)
        requires
            self.wf(),
        ensures
            r == self.len(),
    {
        self.size
    }
}

proof fn lemma_step(count: int, step: int)
    requires
        1 <= count < 0x4000_0000_0000_0000,
        step == 0xFFFF_FFFF_FFFF_FFFFint / (count + 1),
    ensures
        step * (count + 1) <= 0xFFFF_FFFF_FFFF_FFFF,
        step >= 2,
{
    assert(step * (count + 1) <= 0xFFFF_FFFF_FFFF_FFFF) by (nonlinear_arith)
        requires
            step == 0xFFFF_FFFF_FFFF_FFFFint / (count + 1),
            count >= 1,
    ;
    assert(step >= 2) by (nonlinear_arith)
        requires
            step == 0xFFFF_FFFF_FFFF_FFFFint / (count + 1),
            1 <= count < 0x4000_0000_0000_0000,
    ;
}

proof fn lemma_mul_bound(k: int, step: int, count: int)
    requires
        0 <= k <= count,
        0 <= step,
        step * (count + 1) <= 0xFFFF_FFFF_FFFF_FFFF,
    ensures
        0 <= k * step,
        k * step + step <= 0xFFFF_FFFF_FFFF_FFFF,
{
    assert(0 <= k * step && k * step + step <= step * (count + 1)) by (nonlinear_arith)
        requires
            0 <= k <= count,
            0 <= step,
    ;
}

proof fn lemma_mul_increasing(k1: int, k2: int, step: int)
    requires
        0 <= k1 < k2,
        1 <= step,
    ensures
        k1 * step < k2 * step,
{
    assert(k1 * step < k2 * step) by (nonlinear_arith)
        requires
            0 <= k1 < k2,
            1 <= step,
    ;
}

proof fn lemma_square_bound(j: int, count: int)
    requires
        1 <= j <= count,
        count < 0x4000_0000_0000_0000,
    ensures
        (j + 1) * (j + 1) < 0x1_0000_0000_0000_0000_0000_0000_0000_0000,
{
    assert((j + 1) * (j + 1) < 0x1_0000_0000_0000_0000_0000_0000_0000_0000) by (nonlinear_arith)
        requires
            1 <= j < 0x4000_0000_0000_0000,
    ;
}

proof fn lemma_div_zero(dist: int, j: int)
    requires
        0 <= dist,
        1 <= j,
        dist / (j + 1) == 0,
    ensures
        dist < j + 1,
{
    assert(dist < j + 1) by (nonlinear_arith)
        requires
            0 <= dist,
            1 <= j,
            dist / (j + 1) == 0,
    ;
}

proof fn lemma_square_ge(j: int)
    requires
        1 <= j,
    ensures
        j + 1 <= (j + 1) * (j + 1),
{
    assert(j + 1 <= (j + 1) * (j + 1)) by (nonlinear_arith)
        requires
            1 <= j,
    ;
}

proof fn lemma_step_bounds(step: int, dist: int, j: int)
    requires
        1 <= j,
        step == dist / (j + 1),
        step >= 1,
        dist >= 0,
    ensures
        step * (j + 1) <= dist,
{
    assert(step * (j + 1) <= dist) by (nonlinear_arith)
        requires
            1 <= j,
            step == dist / (j + 1),
            dist >= 0,
    ;
}

/// The label given at arc position `k` stays below the arc's end.
proof fn lemma_arc_label(c: int, step: int, k: int, j: int, dist: int)
    requires
        1 <= k < j,
        step >= 1,
        step * (j + 1) <= dist,
        c >= 0,
        c + dist <= 0x1_0000_0000_0000_0000,
    ensures
        c < c + step * (k + 1) < c + dist,
        c + step * (k + 1) < 0x1_0000_0000_0000_0000,
        step * (k + 1) >= 2,
{
    assert(0 < step * (k + 1) < dist && step * (k + 1) >= 2) by (nonlinear_arith)
        requires
            1 <= k < j,
            step >= 1,
            step * (j + 1) <= dist,
    ;
}

proof fn lemma_mul_succ(k: int, step: int)
    ensures
        (k + 1) * step == k * step + step,
{
    assert((k + 1) * step == k * step + step) by (nonlinear_arith);
}

proof fn lemma_spread_increasing(k1: int, k2: int)
    requires
        0 <= k1 < k2,
    ensures
        k1 * SPREAD < k2 * SPREAD,
{
    assert(k1 * (SPREAD as int) < k2 * (SPREAD as int)) by (nonlinear_arith)
        requires
            0 <= k1 < k2,
    ;
}

/// Versions of one list are strictly ordered: no version precedes itself, the order is
/// transitive, and of two different versions one precedes the other.
pub proof fn lemma_total_order(
    list: &VersionList,
    a: PartialVersion,
    b: PartialVersion,
    c: PartialVersion,
)
    requires
        list.wf(),
        list.contains(a),
        list.contains(b),
        list.contains(c),
    ensures
        !list.precedes(a, a),
        list.precedes(a, b) && list.precedes(b, c) ==> list.precedes(a, c),
        a != b ==> list.precedes(a, b) || list.precedes(b, a),
        !(list.precedes(a, b) && list.precedes(b, a)),
{
    list.lemma_precedes_rank(a, b);
    list.lemma_precedes_rank(b, a);
}

/// A sequence of versions listed in list order stays in list order when a version made by
/// `insert_after` on its element `i` is placed right after that element.
pub proof fn lemma_insert_keeps_sorted(
    earlier: &VersionList,
    later: &VersionList,
    vs: Seq<PartialVersion>,
    i: int,
    w: PartialVersion,
)
    requires
        earlier.wf(),
        later.extends(earlier),
        0 <= i < vs.len(),
        forall|k: int| 0 <= k < vs.len() ==> earlier.contains(#[trigger] vs[k]),
        forall|a: int, b: int| 0 <= a < b < vs.len() ==> earlier.precedes(#[trigger] vs[a], #[trigger] vs[b]),
        later.contains(w),
        later.precedes(vs[i], w),
        forall|a: PartialVersion| earlier.contains(a) && earlier.precedes(vs[i], a) ==> later.precedes(w, a),
    ensures
        forall|a: int, b: int|
            0 <= a < b < vs.len() + 1 ==> later.precedes(
                #[trigger] vs.insert(i + 1, w)[a],
                #[trigger] vs.insert(i + 1, w)[b],
            ),
{
    let ws = vs.insert(i + 1, w);
    assert forall|a: int, b: int| 0 <= a < b < vs.len() + 1 implies later.precedes(
        #[trigger] ws[a],
        #[trigger] ws[b],
    ) by {
        if a != i + 1 && b != i + 1 {
            let x = if a < i + 1 { a } else { a - 1 };
            let y = if b < i + 1 { b } else { b - 1 };
            assert(earlier.precedes(vs[x], vs[y]));
        } else if a == i + 1 {
            assert(earlier.precedes(vs[i], vs[b - 1]));
        } else {
            if a < i {
                assert(earlier.precedes(vs[a], vs[i]));
                assert(later.precedes(vs[a], vs[i]));
                lemma_total_order(later, vs[a], vs[i], w);
            }
        }
    }
}

impl PartialVersion {
    /// A new version right after `self`: every version that followed `self` now follows the new
    /// one, and the versions already in the list keep their order.
    pub fn insert_after(self, list: &mut VersionList) -> (r: PartialVersion)
        requires
            old(list).wf(),
            old(list).contains(self),
            old(list).len() + 1 < 0x4000_0000_0000_0000,
            old(list).len() + 1 < usize::MAX,
        ensures
            final(list).wf(),
            final(list).extends(old(list)),
            final(list).len() == old(list).len() + 1,
            r.id() == old(list).len(),
            final(list).contains(r),
            forall|a: PartialVersion, b: PartialVersion|
                old(list).contains(a) && old(list).contains(b) ==> (final(list).precedes(a, b)
                    == old(list).precedes(a, b)),
            final(list).precedes(self, r),
            forall|a: PartialVersion|
                old(list).contains(a) && old(list).precedes(self, a) ==> final(list).precedes(r, a),
    {
        let (w, s) = list.insert_node(self.node);
        proof {
            assert(old(list).size == old(list).nodes@.len());
        }
        if list.supers[s].list.len() == GROUP_LIMIT {
            list.split_super(s);
        } else {
            proof {
                assert forall|x: int| 0 <= x < list.supers@.len() implies #[trigger] list.group_len(x)
                    < GROUP_LIMIT by {
                    if x == s {
                        reveal(VersionList::groups_wf);
                    }
                }
            }
        }
        let r = PartialVersion { node: w };
        proof {
            list.lemma_precedes_rank(self, r);
            assert forall|a: PartialVersion, b: PartialVersion|
                old(list).contains(a) && old(list).contains(b) implies (final(list).precedes(a, b)
                == old(list).precedes(a, b)) by {
                old(list).lemma_precedes_rank(a, b);
                list.lemma_precedes_rank(a, b);
                assert(list.rank_lt(a.id(), b.id()) <==> old(list).rank_lt(a.id(), b.id()));
            }
            assert forall|a: PartialVersion|
                old(list).contains(a) && old(list).precedes(self, a) implies final(list).precedes(
                r,
                a,
            ) by {
                old(list).lemma_precedes_rank(self, a);
                list.lemma_precedes_rank(r, a);
            }
        }
        r
    }

    /// A new list holding one version, and that version.
    pub fn new() -> (r: (VersionList, PartialVersion))
        ensures
            r.0.wf(),
            r.0.len() == 1,
            r.0.contains(r.1),
            r.0.major(r.0.parent(r.1.id())) == 0,
            r.0.minor(r.1.id()) == 0,
    {
        let mut list: Vec<usize> = Vec::new();
        list.push(0);
        let mut nodes: Vec<VersionNode> = Vec::new();
        nodes.push(VersionNode { parent: 0, value: 0 });
        let mut supers: Vec<VersionSuperNode> = Vec::new();
        supers.push(VersionSuperNode { next: 0, value: 0, list });
        let ghost ring = seq![0usize];
        let ghost rpos = seq![0int];
        let ghost slot = seq![0int];
        let l = VersionList {
            nodes,
            supers,
            base: 0,
            size: 1,
            ring: Ghost(ring),
            rpos: Ghost(rpos),
            slot: Ghost(slot),
        };
        proof {
            assert(l.member(0, 0) == 0);
            reveal(VersionList::groups_wf);
            reveal(VersionList::ring_wf);
        }
        (l, PartialVersion { node: 0 })
    }
}

impl Version {
    /// A new list holding the two versions of a new `Version`.
    pub fn new() -> (r: (VersionList, Version))
        ensures
            r.0.wf(),
            r.0.len() == 2,
            r.0.contains(r.1.primary),
            r.0.contains(r.1.secondary),
            r.0.precedes(r.1.primary, r.1.secondary),
    {
        let (mut list, primary) = PartialVersion::new();
        let secondary = primary.insert_after(&mut list);
        (list, Version { primary, secondary })
    }

    /// A new `Version` whose two nodes come right after `self.primary`, in that order: every
    /// version that followed `self.primary` now follows both, and the versions already in the
    /// list keep their order.
    pub fn insert_after(self, list: &mut VersionList) -> (r: Version)
        requires
            old(list).wf(),
            old(list).contains(self.primary),
            old(list).len() + 2 < 0x4000_0000_0000_0000,
            old(list).len() + 2 < usize::MAX,
        ensures
            final(list).wf(),
            final(list).extends(old(list)),
            final(list).len() == old(list).len() + 2,
            r.primary.id() == old(list).len(),
            r.secondary.id() == old(list).len() + 1,
            final(list).contains(r.primary),
            final(list).contains(r.secondary),
            forall|a: PartialVersion, b: PartialVersion|
                old(list).contains(a) && old(list).contains(b) ==> (final(list).precedes(a, b)
                    == old(list).precedes(a, b)),
            final(list).precedes(self.primary, r.primary),
            final(list).precedes(r.primary, r.secondary),
            forall|a: PartialVersion|
                old(list).contains(a) && old(list).precedes(self.primary, a)
                    ==> final(list).precedes(r.secondary, a),
    {
        let ghost l0 = *old(list);
        let primary = self.primary.insert_after(list);
        let ghost l1 = *list;
        let secondary = primary.insert_after(list);
        proof {
            assert forall|a: PartialVersion|
                l0.contains(a) && l0.precedes(self.primary, a) implies list.precedes(secondary, a) by {
                assert(l1.precedes(primary, a));
            }
            assert(list.precedes(self.primary, primary)) by {
                assert(l1.precedes(self.primary, primary));
            }
        }
        Version { primary, secondary }
    }

    /// Whether `self` comes before `other`; only primaries are compared.
    pub fn less(self, other: Version, list: &VersionList) -> (r: bool)
        requires
            list.wf(),
            list.contains(self.primary),
            list.contains(other.primary),
        ensures
            r == list.precedes(self.primary, other.primary),
    {
        list.less(self.primary, other.primary)
    }
}

} // verus!
