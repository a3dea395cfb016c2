use crate::version::{lemma_total_order, PartialVersion, VersionList};
use vstd::prelude::*;

verus! {

/// The role of a link in a binary search tree. Every edge is stored twice, once at each end,
/// under a tag and its reverse.
#[derive(Clone, Copy, PartialEq, Eq, Structural)]
pub enum Tag {
    LeftChild,
    RightChild,
    LeftParent,
    RightParent,
}

/// The tag that the other end of an edge stores.
pub open spec fn reverse_of(t: Tag) -> Tag {
    match t {
        Tag::LeftChild => Tag::LeftParent,
        Tag::RightChild => Tag::RightParent,
        Tag::LeftParent => Tag::LeftChild,
        Tag::RightParent => Tag::RightChild,
    }
}

impl Tag {
    /// The tag that the other end of an edge stores.
    pub fn reverse(self) -> (r: Tag)
        ensures
            r == reverse_of(self),
    {
        match self {
            Tag::LeftChild => Tag::LeftParent,
            Tag::RightChild => Tag::RightParent,
            Tag::LeftParent => Tag::LeftChild,
            Tag::RightParent => Tag::RightChild,
        }
    }
}

/// Reversing a tag twice gives the tag back, and no tag is its own reverse.
pub proof fn lemma_reverse_involution(t: Tag)
    ensures
        reverse_of(reverse_of(t)) == t,
        reverse_of(t) != t,
{
}

/// One occupied link slot: the edge's tag, the version it was written at, the node it leads to,
/// and the slot at that node that stores the reverse edge.
#[derive(Clone, Copy)]
pub struct Link {
    pub tag: Tag,
    pub version: PartialVersion,
    pub node_pointer: usize,
    pub link_pointer: usize,
}

/// The slot holds a link with tag `tag` written no later than `version`.
pub open spec fn visible(list: &VersionList, slot: Option<Link>, tag: Tag, version: PartialVersion) -> bool {
    match slot {
        Some(l) => l.tag == tag && !list.precedes(version, l.version),
        None => false,
    }
}

/// The node that a node's slots lead to under `tag` at `version`: the target of the visible
/// slot with the latest version, or `None` when no slot is visible.
pub fn get(links: &Vec<Option<Link>>, list: &VersionList, tag: Tag, version: PartialVersion) -> (r:
    Option<usize>)
    requires
        list.wf(),
        list.contains(version),
        forall|i: int|
            0 <= i < links@.len() && (#[trigger] links@[i]) is Some ==> list.contains(
                links@[i]->0.version,
            ),
    ensures
        r is None <==> forall|i: int| 0 <= i < links@.len() ==> !visible(list, #[trigger] links@[i], tag, version),
        match r {
            Some(p) => exists|i: int|
                0 <= i < links@.len() && visible(list, #[trigger] links@[i], tag, version)
                    && links@[i]->0.node_pointer == p && forall|j: int|
                    0 <= j < links@.len() && visible(list, #[trigger] links@[j], tag, version)
                        ==> !list.precedes(links@[i]->0.version, links@[j]->0.version),
            None => true,
        },
{
    let mut best: Option<usize> = None;
    let mut k: usize = 0;
    while k < links.len()
        invariant
            list.wf(),
            list.contains(version),
            forall|i: int|
                0 <= i < links@.len() && (#[trigger] links@[i]) is Some ==> list.contains(
                    links@[i]->0.version,
                ),
            k <= links@.len(),
            match best {
                Some(b) => (b as int) < k && visible(list, links@[b as int], tag, version) && forall|j: int|
                    0 <= j < k && visible(list, #[trigger] links@[j], tag, version)
                        ==> !list.precedes(links@[b as int]->0.version, links@[j]->0.version),
                None => forall|j: int| 0 <= j < k ==> !visible(list, #[trigger] links@[j], tag, version),
            },
        decreases links@.len() - k,
    {
        if let Some(l) = links[k] {
            if l.tag == tag && !list.less(version, l.version) {
                let better = match best {
                    Some(b) => match links[b] {
                        Some(lb) => list.less(lb.version, l.version),
                        None => true,
                    },
                    None => true,
                };
                if better {
                    proof {
                        if let Some(b) = best {
                            assert forall|j: int|
                                0 <= j < k + 1 && visible(list, #[trigger] links@[j], tag, version)
                                    implies !list.precedes(l.version, links@[j]->0.version) by {
                                if j < k {
                                    assert(!list.precedes(links@[b as int]->0.version, links@[j]->0.version));
                                    lemma_total_order(list, links@[b as int]->0.version, l.version, links@[j]->0.version);
                                    lemma_total_order(list, l.version, links@[j]->0.version, links@[j]->0.version);
                                    lemma_total_order(list, links@[b as int]->0.version, links@[j]->0.version, l.version);
                                } else {
                                    lemma_total_order(list, l.version, l.version, l.version);
                                }
                            }
                        } else {
                            assert forall|j: int|
                                0 <= j < k + 1 && visible(list, #[trigger] links@[j], tag, version)
                                    implies !list.precedes(l.version, links@[j]->0.version) by {
                                lemma_total_order(list, l.version, l.version, l.version);
                            }
                        }
                    }
                    best = Some(k);
                } else {
                    proof {
                        let b = best->0;
                        assert forall|j: int|
                            0 <= j < k + 1 && visible(list, #[trigger] links@[j], tag, version)
                                implies !list.precedes(links@[b as int]->0.version, links@[j]->0.version) by {
                            if j == k {
                                assert(!list.precedes(links@[b as int]->0.version, l.version));
                            }
                        }
                    }
                }
            }
        }
        k = k + 1;
    }
    match best {
        Some(b) => match links[b] {
            Some(l) => Some(l.node_pointer),
            None => None,
        },
        None => None,
    }
}

} // verus!
