use std::marker::PhantomData;
use vstd::prelude::*;

verus! {

/// A node of the shared list arena. Nodes are never changed after they are pushed, so every
/// handle keeps observing the sequence it was created with.
struct ListNode {
    value: usize,
    next: Option<usize>,
}

/// Shared storage for all versions of persistent linked lists. Values are stored once and nodes
/// refer to them by index, so copying a node never copies a value.
pub struct ListStore<T> {
    values: Vec<T>,
    nodes: Vec<ListNode>,
}

/// A version of a persistent linked list: the head node of that version and its length.
pub struct PersistenLinkedList<T> {
    head: Option<usize>,
    len: usize,
    marker: PhantomData<T>,
}

impl<T> ListStore<T> {
    /// Every node points to an earlier node and to a stored value.
    pub closed spec fn wf(&self) -> bool {
        forall|i: int|
            0 <= i < self.nodes@.len() ==> {
                &&& (self.nodes@[i].value as int) < self.values@.len()
                &&& match self.nodes@[i].next {
                    Some(j) => (j as int) < i,
                    None => true,
                }
            }
    }

    /// The number of nodes in the arena.
    pub closed spec fn node_count(&self) -> nat {
        self.nodes@.len()
    }

    /// The sequence read from `head` by following next pointers.
    pub closed spec fn seq_from(&self, head: Option<usize>) -> Seq<T>
        decreases
            match head {
                Some(i) => i + 1,
                None => 0,
            },
    {
        match head {
            None => Seq::empty(),
            Some(i) => {
                if (i as int) < self.nodes@.len() && (self.nodes@[i as int].value as int)
                    < self.values@.len() && match self.nodes@[i as int].next {
                    Some(j) => j < i,
                    None => true,
                } {
                    seq![self.values@[self.nodes@[i as int].value as int]].add(
                        self.seq_from(self.nodes@[i as int].next),
                    )
                } else {
                    Seq::empty()
                }
            },
        }
    }

    pub fn new() -> (r: ListStore<T>)
        ensures
            r.wf(),
            r.node_count() == 0,
    {
        ListStore { values: Vec::new(), nodes: Vec::new() }
    }

    /// Pushing nodes never changes what an existing head reads.
    proof fn lemma_extend(old_s: &ListStore<T>, new_s: &ListStore<T>, head: Option<usize>)
        requires
            old_s.nodes@.len() <= new_s.nodes@.len(),
            old_s.values@.len() <= new_s.values@.len(),
            forall|i: int| 0 <= i < old_s.nodes@.len() ==> new_s.nodes@[i] == old_s.nodes@[i],
            forall|i: int| 0 <= i < old_s.values@.len() ==> new_s.values@[i] == old_s.values@[i],
            match head {
                Some(h) => (h as int) < old_s.nodes@.len(),
                None => true,
            },
            old_s.wf(),
        ensures
            new_s.seq_from(head) == old_s.seq_from(head),
        decreases
            match head {
                Some(i) => i + 1,
                None => 0,
            },
    {
        match head {
            None => {},
            Some(i) => {
                Self::lemma_extend(old_s, new_s, old_s.nodes@[i as int].next);
            },
        }
    }

    /// Builds the nodes of `seq_from(head)` with `value` inserted at `index`, copying the nodes
    /// in front of the insertion point and sharing the rest.
    fn insert_at(&mut self, head: Option<usize>, index: usize, value: usize) -> (r: usize)
        requires
            old(self).wf(),
            (value as int) < old(self).values@.len(),
            index <= old(self).seq_from(head).len(),
            match head {
                Some(h) => (h as int) < old(self).nodes@.len(),
                None => true,
            },
            old(self).nodes@.len() + index + 1 < usize::MAX,
        ensures
            final(self).wf(),
            final(self).values@ == old(self).values@,
            old(self).nodes@.len() < final(self).nodes@.len(),
            final(self).nodes@.len() == old(self).nodes@.len() + index + 1,
            forall|i: int|
                0 <= i < old(self).nodes@.len() ==> final(self).nodes@[i] == old(self).nodes@[i],
            (r as int) < final(self).nodes@.len(),
            final(self).seq_from(Some(r)) == old(self).seq_from(head).insert(
                index as int,
                old(self).values@[value as int],
            ),
        decreases index,
    {
        if index == 0 {
            let r = self.nodes.len();
            self.nodes.push(ListNode { value, next: head });
            proof {
                Self::lemma_extend(&*old(self), &*self, head);
                assert(self.seq_from(Some(r)) =~= seq![self.values@[value as int]].add(
                    old(self).seq_from(head),
                ));
                assert(self.seq_from(Some(r)) =~= old(self).seq_from(head).insert(
                    0,
                    old(self).values@[value as int],
                ));
            }
            r
        } else {
            let h = match head {
                Some(h) => h,
                None => { 0 },
            };
            proof {
                assert(head.is_some());
            }
            let node_value = self.nodes[h].value;
            let node_next = self.nodes[h].next;
            let ghost before = *self;
            let rest = self.insert_at(node_next, index - 1, value);
            let ghost mid = *self;
            let r = self.nodes.len();
            self.nodes.push(ListNode { value: node_value, next: Some(rest) });
            proof {
                let tail = before.seq_from(node_next);
                Self::lemma_extend(&mid, &*self, Some(rest));
                assert(self.seq_from(Some(r)) =~= seq![self.values@[node_value as int]].add(
                    tail.insert(index - 1, before.values@[value as int]),
                ));
                assert(old(self).seq_from(head) =~= seq![self.values@[node_value as int]].add(
                    tail,
                ));
                assert(self.seq_from(Some(r)) =~= old(self).seq_from(head).insert(
                    index as int,
                    old(self).values@[value as int],
                ));
            }
            r
        }
    }

    /// `self` holds everything `earlier` held, at the same places.
    pub closed spec fn extends(&self, earlier: &ListStore<T>) -> bool {
        &&& earlier.nodes@.len() <= self.nodes@.len()
        &&& earlier.values@.len() <= self.values@.len()
        &&& forall|i: int| 0 <= i < earlier.nodes@.len() ==> self.nodes@[i] == earlier.nodes@[i]
        &&& forall|i: int| 0 <= i < earlier.values@.len() ==> self.values@[i] == earlier.values@[i]
    }
}

impl<T> PersistenLinkedList<T> {
    /// The sequence this version of the list holds in `store`.
    pub closed spec fn view_in(&self, store: &ListStore<T>) -> Seq<T> {
        store.seq_from(self.head)
    }

    /// The handle was made with `store`.
    pub closed spec fn valid_in(&self, store: &ListStore<T>) -> bool {
        &&& match self.head {
            Some(h) => (h as int) < store.nodes@.len(),
            None => true,
        }
        &&& self.len as int == store.seq_from(self.head).len()
    }

    /// An empty list, valid in every store.
    pub fn new() -> (r: PersistenLinkedList<T>)
        ensures
            forall|store: &ListStore<T>| #[trigger] r.valid_in(store),
            forall|store: &ListStore<T>| #[trigger] r.view_in(store).len() == 0,
    {
        PersistenLinkedList { head: None, len: 0, marker: PhantomData }
    }

    /// Number of elements of this version.
    pub fn len(&self, store: &ListStore<T>) -> (r: usize)
        requires
            self.valid_in(store),
        ensures
            r as int == self.view_in(store).len(),
    {
        self.len
    }

    /// The element at `index` of this version, if there is one.
    pub fn get<'a>(&self, store: &'a ListStore<T>, index: usize) -> (r: Option<&'a T>)
        requires
            store.wf(),
            self.valid_in(store),
        ensures
            r == (if (index as int) < self.view_in(store).len() {
                Some(&self.view_in(store)[index as int])
            } else {
                None
            }),
    {
        if index >= self.len {
            return None;
        }
        let mut cur = self.head;
        let mut i: usize = 0;
        while i < index
            invariant
                store.wf(),
                i <= index < self.len,
                self.len as int == self.view_in(store).len(),
                match cur {
                    Some(c) => (c as int) < store.nodes@.len(),
                    None => true,
                },
                store.seq_from(cur) == self.view_in(store).subrange(i as int, self.len as int),
            decreases index - i,
        {
            let c = match cur {
                Some(c) => c,
                None => { 0 },
            };
            proof {
                assert(store.seq_from(cur).len() > 0);
                assert(store.seq_from(store.nodes@[c as int].next) =~= store.seq_from(cur).subrange(
                    1,
                    store.seq_from(cur).len() as int,
                ));
                assert(store.seq_from(store.nodes@[c as int].next) =~= self.view_in(store).subrange(
                    i + 1,
                    self.len as int,
                ));
            }
            cur = store.nodes[c].next;
            i = i + 1;
        }
        proof {
            assert(store.seq_from(cur).len() > 0);
            assert(store.seq_from(cur)[0] == self.view_in(store)[index as int]);
        }
        match cur {
            Some(c) => Some(&store.values[store.nodes[c].value]),
            None => None,
        }
    }

    /// A new version with `value` inserted before position `index`, or `None` when `index` is
    /// past the end. This version and every other version made with `store` keep their elements.
    pub fn insert(&self, store: &mut ListStore<T>, index: usize, value: T) -> (r: Option<
        PersistenLinkedList<T>,
    >)
        requires
            old(store).wf(),
            self.valid_in(old(store)),
            old(store).node_count() + self.view_in(old(store)).len() + 1 < usize::MAX,
        ensures
            final(store).wf(),
            final(store).extends(old(store)),
            (index as int) <= self.view_in(old(store)).len() <==> r.is_some(),
            match r {
                Some(l) => {
                    &&& final(store).node_count() == old(store).node_count() + index + 1
                    &&& l.valid_in(final(store))
                    &&& l.view_in(final(store)) == self.view_in(old(store)).insert(
                        index as int,
                        value,
                    )
                },
                None => *final(store) == *old(store),
            },
    {
        if index > self.len {
            return None;
        }
        let v = store.values.len();
        store.values.push(value);
        proof {
            ListStore::lemma_extend(&*old(store), &*store, self.head);
        }
        let head = store.insert_at(self.head, index, v);
        Some(PersistenLinkedList { head: Some(head), len: self.len + 1, marker: PhantomData })
    }

    /// The arena nodes this version walks through, from the head on.
    pub fn crawl_debug(&self, store: &ListStore<T>) -> (r: Vec<usize>)
        requires
            store.wf(),
            self.valid_in(store),
        ensures
            r@.len() == self.view_in(store).len(),
            forall|i: int| 0 <= i < r@.len() ==> (r@[i] as int) < store.node_count(),
            forall|i: int|
                0 <= i < r@.len() ==> store.seq_from(Some(#[trigger] r@[i])) == self.view_in(
                    store,
                ).subrange(i, self.view_in(store).len() as int),
    {
        let mut out: Vec<usize> = Vec::new();
        let mut cur = self.head;
        while out.len() < self.len
            invariant
                store.wf(),
                self.len as int == self.view_in(store).len(),
                out@.len() <= self.len,
                forall|i: int| 0 <= i < out@.len() ==> (out@[i] as int) < store.nodes@.len(),
                match cur {
                    Some(c) => (c as int) < store.nodes@.len(),
                    None => true,
                },
                store.seq_from(cur) == self.view_in(store).subrange(out@.len() as int, self.len as int),
                forall|i: int|
                    0 <= i < out@.len() ==> store.seq_from(Some(#[trigger] out@[i])) == self.view_in(
                        store,
                    ).subrange(i, self.len as int),
            decreases self.len - out@.len(),
        {
            let c = match cur {
                Some(c) => c,
                None => { 0 },
            };
            proof {
                assert(store.seq_from(cur).len() > 0);
                assert(store.seq_from(store.nodes@[c as int].next) =~= store.seq_from(cur).subrange(
                    1,
                    store.seq_from(cur).len() as int,
                ));
                assert(store.seq_from(store.nodes@[c as int].next) =~= self.view_in(store).subrange(
                    out@.len() + 1int,
                    self.len as int,
                ));
            }
            let ghost pre = out@;
            out.push(c);
            cur = store.nodes[c].next;
            proof {
                assert forall|i: int| 0 <= i < out@.len() implies store.seq_from(Some(#[trigger] out@[i]))
                    == self.view_in(store).subrange(i, self.len as int) by {
                    if i < pre.len() {
                        assert(out@[i] == pre[i]);
                    }
                }
            }
        }
        out
    }
}

/// Inserting into any version leaves every version that was already made with the store as it
/// was: the store is only ever extended.
pub proof fn lemma_versions_persist<T>(
    earlier: &ListStore<T>,
    later: &ListStore<T>,
    l: PersistenLinkedList<T>,
)
    requires
        earlier.wf(),
        later.extends(earlier),
        l.valid_in(earlier),
    ensures
        l.valid_in(later),
        l.view_in(later) == l.view_in(earlier),
{
    ListStore::lemma_extend(earlier, later, l.head);
}

} // verus!
