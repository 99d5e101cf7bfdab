use vstd::prelude::*;

use vstd::std_specs::cmp::PartialEqSpec;

use crate::node::{Node, NodeHandle, Slot};

verus! {

/// A doubly-linked list over an arena of slots.
///
/// `head` and `tail` hold the slot indices of the first and last node; each
/// node holds the slot indices of its neighbours. Vacant slots that may be
/// filled again are kept in `free`.
pub struct DoublyLinkedList<T> {
    slots: Vec<Slot<T>>,
    free: Vec<usize>,
    head: Option<usize>,
    tail: Option<usize>,
    /// The slot indices of the nodes, from head to tail.
    order: Ghost<Seq<usize>>,
    /// Every handle whose node has been removed from this list.
    removed: Ghost<Set<NodeHandle>>,
}

/// The slots after the node in slot `k` has its successor set to `next`.
spec fn with_next<T>(slots: Seq<Slot<T>>, k: int, next: Option<usize>) -> Seq<Slot<T>> {
    let n = slots[k].node->0;
    slots.update(k, Slot { generation: slots[k].generation, node: Some(Node { value: n.value, prev: n.prev, next }) })
}

/// The slots after the node in slot `k` has its predecessor set to `prev`.
spec fn with_prev<T>(slots: Seq<Slot<T>>, k: int, prev: Option<usize>) -> Seq<Slot<T>> {
    let n = slots[k].node->0;
    slots.update(k, Slot { generation: slots[k].generation, node: Some(Node { value: n.value, prev, next: n.next }) })
}

fn set_next<T>(slots: &mut Vec<Slot<T>>, k: usize, next: Option<usize>)
    requires
        k < old(slots)@.len(),
        old(slots)@[k as int].node is Some,
    ensures
        final(slots)@ == with_next(old(slots)@, k as int, next),
{
    let slot = &mut slots[k];
    match &mut slot.node {
        Some(n) => { n.next = next; },
        None => {},
    }
}

fn set_prev<T>(slots: &mut Vec<Slot<T>>, k: usize, prev: Option<usize>)
    requires
        k < old(slots)@.len(),
        old(slots)@[k as int].node is Some,
    ensures
        final(slots)@ == with_prev(old(slots)@, k as int, prev),
{
    let slot = &mut slots[k];
    match &mut slot.node {
        Some(n) => { n.prev = prev; },
        None => {},
    }
}

/// The slots after the node in slot `k` has left it.
spec fn vacated<T>(slots: Seq<Slot<T>>, k: int) -> Seq<Slot<T>> {
    let g = slots[k].generation;
    slots.update(k, Slot { generation: if g < u64::MAX { (g + 1) as u64 } else { g }, node: None })
}

/// Takes the node out of slot `k` and advances the slot's generation, unless
/// it has reached its largest value.
fn vacate<T>(slots: &mut Vec<Slot<T>>, k: usize) -> (n: Node<T>)
    requires
        k < old(slots)@.len(),
        old(slots)@[k as int].node is Some,
    ensures
        n == old(slots)@[k as int].node->0,
        final(slots)@ == vacated(old(slots)@, k as int),
{
    let slot = &mut slots[k];
    let taken = slot.node.take();
    if slot.generation < u64::MAX {
        slot.generation = slot.generation + 1;
    }
    taken.unwrap()
}

impl<T> DoublyLinkedList<T> {
    spec fn occupied(&self, k: int) -> bool {
        0 <= k < self.slots@.len() && self.slots@[k].node is Some
    }

    spec fn node_in(&self, k: int) -> Node<T> {
        self.slots@[k].node->0
    }

    /// The handle of the node at position `i`, counted from the head.
    spec fn handle_at(&self, i: int) -> NodeHandle {
        NodeHandle { index: self.order@[i], generation: self.slots@[self.order@[i] as int].generation }
    }

    /// The handles of the nodes, from head to tail.
    pub closed spec fn handles(&self) -> Seq<NodeHandle> {
        Seq::new(self.order@.len(), |i: int| self.handle_at(i))
    }

    /// The handles of every node that has been removed from this list.
    pub closed spec fn removed(&self) -> Set<NodeHandle> {
        self.removed@
    }

    /// The values of the nodes, from head to tail.
    pub closed spec fn view(&self) -> Seq<T> {
        Seq::new(self.order@.len(), |i: int| self.node_in(self.order@[i] as int).value)
    }

    /// The arena, the links, `head`, `tail` and the free list agree with the
    /// chain of nodes recorded in `order`.
    pub closed spec fn wf(&self) -> bool {
        let ord = self.order@;
        let n = ord.len();
        &&& forall|i: int, j: int| 0 <= i < j < n ==> ord[i] != ord[j]
        &&& forall|i: int| 0 <= i < n ==> #[trigger] self.occupied(ord[i] as int)
        &&& forall|i: int| 0 <= i < n ==> (#[trigger] self.node_in(ord[i] as int)).prev == (if i == 0 { None } else { Some(ord[i - 1]) })
        &&& forall|i: int| 0 <= i < n ==> (#[trigger] self.node_in(ord[i] as int)).next == (if i == n - 1 { None } else { Some(ord[i + 1]) })
        &&& self.head == (if n == 0 { None } else { Some(ord[0]) })
        &&& self.tail == (if n == 0 { None } else { Some(ord[n - 1]) })
        &&& forall|k: int| #[trigger] self.occupied(k) ==> ord.contains(k as usize)
        &&& forall|a: int, b: int| 0 <= a < b < self.free@.len() ==> self.free@[a] != self.free@[b]
        &&& forall|a: int| 0 <= a < self.free@.len() ==> {
            &&& #[trigger] self.free@[a] < self.slots@.len()
            &&& self.slots@[self.free@[a] as int].node is None
        }
        &&& forall|h: NodeHandle| #[trigger] self.removed@.contains(h) ==> {
            &&& h.index < self.slots@.len()
            &&& (h.generation < self.slots@[h.index as int].generation
                || (self.slots@[h.index as int].node is None && !self.free@.contains(h.index)))
        }
    }

    /// An empty list.
    pub fn new() -> (l: Self)
        ensures
            l.wf(),
            l@ == Seq::<T>::empty(),
            l.handles() == Seq::<NodeHandle>::empty(),
            l.removed() == Set::<NodeHandle>::empty(),
    {
        let l = DoublyLinkedList {
            slots: Vec::new(),
            free: Vec::new(),
            head: None,
            tail: None,
            order: Ghost(Seq::empty()),
            removed: Ghost(Set::empty()),
        };
        proof {
            assert(l@ =~= Seq::<T>::empty());
            assert(l.handles() =~= Seq::<NodeHandle>::empty());
        }
        l
    }

    /// Puts `value` in a new node at the tail.
    pub fn append(&mut self, value: T)
        requires
            old(self).wf(),
        ensures
            final(self).wf(),
            final(self)@ == old(self)@.push(value),
            final(self).handles() == old(self).handles().push(final(self).handles().last()),
            !old(self).removed().contains(final(self).handles().last()),
            final(self).removed() == old(self).removed(),
    {
        let ghost old_self = *self;
        let mut node = Node::new(value);
        node.prev = self.tail;
        let idx: usize;
        if self.free.len() > 0 {
            idx = self.free.pop().unwrap();
            proof {
                assert(old_self.free@[old_self.free@.len() - 1] == idx);
                assert forall|a: int| 0 <= a < self.free@.len() implies self.free@[a] != idx by {
                    assert(old_self.free@[a] == self.free@[a]);
                }
            }
            let slot = &mut self.slots[idx];
            slot.node = Some(node);
        } else {
            idx = self.slots.len();
            self.slots.push(Slot { generation: 0, node: Some(node) });
        }
        let ghost mid = self.slots@;
        proof {
            assert(!old_self.occupied(idx as int));
            assert(idx < mid.len());
            assert(mid.len() == old_self.slots@.len() || (mid.len() == old_self.slots@.len() + 1 && idx == old_self.slots@.len()));
            assert(mid[idx as int].node == Some(node));
            assert forall|k: int| 0 <= k < old_self.slots@.len() && k != idx implies #[trigger] mid[k] == old_self.slots@[k] by {}
            assert forall|i: int| 0 <= i < old_self.order@.len() implies old_self.order@[i] != idx by {
                assert(old_self.occupied(old_self.order@[i] as int));
            }
            if old_self.order@.len() > 0 {
                assert(old_self.occupied(old_self.order@[old_self.order@.len() - 1] as int));
            }
        }
        match self.tail {
            None => { self.head = Some(idx); },
            Some(t) => { set_next(&mut self.slots, t, Some(idx)); },
        }
        self.tail = Some(idx);
        self.order = Ghost(old_self.order@.push(idx));
        proof {
            assert(self.slots@.len() == mid.len());
            assert forall|k: int| 0 <= k < mid.len() && (old_self.order@.len() == 0 || k != old_self.order@.last()) implies
                #[trigger] self.slots@[k] == mid[k] by {}
            let ord = self.order@;
            let n = ord.len();
            assert(!old_self.order@.contains(idx));
            assert forall|i: int| 0 <= i < n - 1 implies #[trigger] ord[i] == old_self.order@[i] by {}
            assert forall|i: int| 0 <= i < n implies #[trigger] self.occupied(ord[i] as int) by {
                if i < n - 1 {
                    assert(ord[i] == old_self.order@[i]);
                    assert(old_self.occupied(old_self.order@[i] as int));
                } else {
                    assert(self.slots@[idx as int] == mid[idx as int]);
                }
            }
            assert forall|i: int| 0 <= i < n implies
                (#[trigger] self.node_in(ord[i] as int)).prev == (if i == 0 { None } else { Some(ord[i - 1]) })
                && self.node_in(ord[i] as int).next == (if i == n - 1 { None } else { Some(ord[i + 1]) }) by {
                if i < n - 1 {
                    assert(ord[i] == old_self.order@[i]);
                    assert(old_self.occupied(old_self.order@[i] as int));
                    if i < n - 2 {
                        assert(self.slots@[ord[i] as int] == mid[ord[i] as int]);
                        assert(mid[ord[i] as int] == old_self.slots@[ord[i] as int]);
                        assert(ord[i + 1] == old_self.order@[i + 1]);
                    } else {
                        let t = old_self.order@.last();
                        assert(ord[i] == t);
                        assert(self.slots@ == with_next(mid, t as int, Some(idx)));
                        assert(mid[t as int] == old_self.slots@[t as int]);
                        assert(self.node_in(t as int).prev == old_self.node_in(t as int).prev);
                    }
                    if i > 0 {
                        assert(ord[i - 1] == old_self.order@[i - 1]);
                    }
                } else {
                    assert(self.slots@[idx as int] == mid[idx as int]);
                    assert(self.node_in(idx as int) == node);
                    assert(node.prev == old_self.tail);
                    if i > 0 {
                        assert(ord[i - 1] == old_self.order@[i - 1]);
                    }
                }
            }
            assert forall|k: int| #[trigger] self.occupied(k) implies ord.contains(k as usize) by {
                if k != idx && (n < 2 || k != ord[n - 2]) {
                    assert(old_self.occupied(k));
                    assert(old_self.order@.contains(k as usize));
                    let j = choose|j: int| 0 <= j < n - 1 && old_self.order@[j] == k as usize;
                    assert(ord[j] == old_self.order@[j]);
                    assert(ord[j] == k as usize);
                } else if k == idx {
                    assert(ord[n - 1] == k);
                } else {
                    assert(ord[n - 2] == k);
                }
            }
            assert forall|h: NodeHandle| #[trigger] self.removed@.contains(h) implies h.index < self.slots@.len() && (h.generation < self.slots@[h.index as int].generation
                || (self.slots@[h.index as int].node is None && !self.free@.contains(h.index))) by {
                assert(old_self.removed@.contains(h));
                if h.index == idx && h.index < old_self.slots@.len() {
                    assert(old_self.free@.contains(idx));
                }
            }
            assert forall|i: int| 0 <= i < n - 1 implies
                #[trigger] self.slots@[ord[i] as int].generation == old_self.slots@[ord[i] as int].generation
                && self.node_in(ord[i] as int).value == old_self.node_in(ord[i] as int).value by {
                assert(old_self.occupied(old_self.order@[i] as int));
            }
            assert(self.slots@[idx as int] == mid[idx as int]);
            assert(self.node_in(idx as int).value == value);
            assert forall|i: int| 0 <= i < n implies #[trigger] self@[i] == old_self@.push(value)[i] by {
                if i < n - 1 {
                    assert(ord[i] == old_self.order@[i]);
                    assert(old_self.occupied(old_self.order@[i] as int));
                    assert(self.slots@[ord[i] as int].generation == old_self.slots@[ord[i] as int].generation);
                    assert(self.node_in(ord[i] as int).value == old_self.node_in(ord[i] as int).value);
                    assert(self@[i] == self.node_in(ord[i] as int).value);
                } else {
                    assert(ord[i] == idx);
                    assert(self@[i] == self.node_in(idx as int).value);
                }
            }
            assert(self@ =~= old_self@.push(value));
            assert(self.handles() =~= old_self.handles().push(self.handles().last()));
        }
    }

    /// Unlinks the node named by `target` and returns its value.
    #[verifier::rlimit(50)]
    fn unlink(&mut self, target: NodeHandle) -> (v: T)
        requires
            old(self).wf(),
            old(self).handles().contains(target),
        ensures
            final(self).wf(),
            v == old(self)@[old(self).handles().index_of(target)],
            final(self)@ == old(self)@.remove(old(self).handles().index_of(target)),
            final(self).handles() == old(self).handles().remove(old(self).handles().index_of(target)),
            final(self).removed() == old(self).removed().insert(target),
    {
        let ghost old_self = *self;
        let ghost ord = self.order@;
        let ghost n = ord.len();
        let ghost i = self.handles().index_of(target);
        let idx = target.index;
        proof {
            assert(self.handles()[i] == self.handle_at(i));
            assert(ord[i] == idx);
            assert(self.occupied(idx as int));
        }
        let (prev, next) = match &self.slots[idx].node {
            Some(node) => (node.prev, node.next),
            None => (None, None),
        };
        proof {
            assert(prev == self.node_in(ord[i] as int).prev);
            assert(next == self.node_in(ord[i] as int).next);
            if i > 0 {
                assert(self.occupied(ord[i - 1] as int));
            }
            if i < n - 1 {
                assert(self.occupied(ord[i + 1] as int));
            }
        }
        let ghost s0 = self.slots@;
        match prev {
            None => { self.head = next; },
            Some(p) => { set_next(&mut self.slots, p, next); },
        }
        let ghost s1 = self.slots@;
        proof {
            if i < n - 1 {
                assert(s1[ord[i + 1] as int].node is Some);
            }
            assert(s1[idx as int].node is Some);
        }
        match next {
            None => { self.tail = prev; },
            Some(q) => { set_prev(&mut self.slots, q, prev); },
        }
        let ghost s2 = self.slots@;
        let reusable = self.slots[idx].generation < u64::MAX;
        let removed_node = vacate(&mut self.slots, idx);
        let ghost s3 = self.slots@;
        if reusable {
            self.free.push(idx);
        }
        self.order = Ghost(ord.remove(i));
        self.removed = Ghost(old_self.removed@.insert(target));
        proof {
            let nord = self.order@;
            ord.remove_ensures(i);
            assert forall|k: int| 0 <= k < s0.len() && k != idx implies {
                &&& #[trigger] s3[k].generation == s0[k].generation
                &&& (s3[k].node is Some) == (s0[k].node is Some)
                &&& s0[k].node is Some ==> {
                    &&& s3[k].node->0.value == s0[k].node->0.value
                    &&& s3[k].node->0.prev == (if next == Some(k as usize) { prev } else { s0[k].node->0.prev })
                    &&& s3[k].node->0.next == (if prev == Some(k as usize) { next } else { s0[k].node->0.next })
                }
            } by {
                assert(k < old_self.slots.len());
                assert(s3[k] == s2[k]);
                if next == Some(k as usize) {
                    assert(s2 == with_prev(s1, k, prev));
                } else {
                    assert(s2[k] == s1[k]);
                }
                if prev == Some(k as usize) {
                    assert(s1 == with_next(s0, k, next));
                } else {
                    assert(s1[k] == s0[k]);
                }
            }
            assert forall|j: int| 0 <= j < n - 1 implies #[trigger] nord[j] != idx by {
                if j < i {
                    assert(nord[j] == ord[j]);
                } else {
                    assert(nord[j] == ord[j + 1]);
                }
            }
            assert forall|j: int| 0 <= j < n - 1 implies #[trigger] nord[j] == ord[if j < i { j } else { j + 1 }] by {}
            assert forall|j: int| 0 <= j < n - 1 implies #[trigger] self.occupied(nord[j] as int) by {
                let oj = if j < i { j } else { j + 1 };
                assert(old_self.occupied(ord[oj] as int));
            }
            assert forall|a: int, b: int| 0 <= a < b < n - 1 implies nord[a] != nord[b] by {
                let oa = if a < i { a } else { a + 1 };
                let ob = if b < i { b } else { b + 1 };
                assert(nord[a] == ord[oa]);
                assert(nord[b] == ord[ob]);
            }
            assert forall|j: int| 0 <= j < n - 1 implies
                (#[trigger] self.node_in(nord[j] as int)).prev == (if j == 0 { None } else { Some(nord[j - 1]) })
                && self.node_in(nord[j] as int).next == (if j == n - 2 { None } else { Some(nord[j + 1]) }) by {
                let oj = if j < i { j } else { j + 1 };
                let k = ord[oj];
                assert(nord[j] == k);
                assert(old_self.occupied(k as int));
                assert(old_self.node_in(k as int) == s0[k as int].node->0);
                if j > 0 {
                    assert(nord[j - 1] == ord[if j - 1 < i { j - 1 } else { j }]);
                }
                if j < n - 2 {
                    assert(nord[j + 1] == ord[if j + 1 < i { j + 1 } else { j + 2 }]);
                }
                if next == Some(k) {
                    assert(oj == i + 1);
                }
                if prev == Some(k) {
                    assert(oj == i - 1);
                }
            }
            assert forall|k: int| #[trigger] self.occupied(k) implies nord.contains(k as usize) by {
                assert(k < self.slots.len());
                assert(k != idx);
                assert(old_self.occupied(k));
                assert(ord.contains(k as usize));
                let oj = choose|oj: int| 0 <= oj < n && ord[oj] == k as usize;
                assert(ord[oj] == k);
                assert(ord[i] == idx);
                assert(oj != i);
                let j = if oj < i { oj } else { oj - 1 };
                assert(nord[j] == k as usize);
            }
            assert(!old_self.free@.contains(idx)) by {
                if old_self.free@.contains(idx) {
                    let a = choose|a: int| 0 <= a < old_self.free@.len() && old_self.free@[a] == idx;
                    assert(old_self.free@[a] < old_self.slots@.len());
                }
            }
            assert forall|a: int| 0 <= a < self.free@.len() implies {
                &&& #[trigger] self.free@[a] < self.slots@.len()
                &&& self.slots@[self.free@[a] as int].node is None
            } by {
                if a < old_self.free@.len() {
                    assert(self.free@[a] == old_self.free@[a]);
                    assert(old_self.free@[a] < old_self.slots@.len());
                }
            }
            assert forall|a: int, b: int| 0 <= a < b < self.free@.len() implies self.free@[a] != self.free@[b] by {
                if b == old_self.free@.len() {
                    assert(old_self.free@[a] != idx);
                }
            }
            assert forall|h: NodeHandle| #[trigger] self.removed@.contains(h) implies {
                &&& h.index < self.slots@.len()
                &&& (h.generation < self.slots@[h.index as int].generation
                    || (self.slots@[h.index as int].node is None && !self.free@.contains(h.index)))
            } by {
                if h != target {
                    assert(old_self.removed@.contains(h));
                    if h.index != idx && !(h.generation < old_self.slots@[h.index as int].generation) {
                        assert(!old_self.free@.contains(h.index));
                        if self.free@.contains(h.index) {
                            let a = choose|a: int| 0 <= a < self.free@.len() && self.free@[a] == h.index;
                            if a < old_self.free@.len() {
                                assert(old_self.free@[a] == h.index);
                            }
                        }
                    }
                } else if !reusable {
                    if self.free@.contains(idx) {
                        let a = choose|a: int| 0 <= a < self.free@.len() && self.free@[a] == idx;
                        assert(old_self.free@[a] == idx);
                    }
                }
            }
            assert forall|j: int| 0 <= j < n - 1 implies #[trigger] self@[j] == old_self@.remove(i)[j] by {
                let oj = if j < i { j } else { j + 1 };
                assert(old_self.occupied(ord[oj] as int));
            }
            assert(self@ =~= old_self@.remove(i));
            assert forall|j: int| 0 <= j < n - 1 implies #[trigger] self.handles()[j] == old_self.handles().remove(i)[j] by {
                let oj = if j < i { j } else { j + 1 };
                assert(old_self.occupied(ord[oj] as int));
            }
            assert(self.handles() =~= old_self.handles().remove(i));
        }
        removed_node.value
    }

    /// Removes the node named by `target` from the list.
    pub fn remove(&mut self, target: NodeHandle)
        requires
            old(self).wf(),
            old(self).handles().contains(target),
        ensures
            final(self).wf(),
            final(self)@ == old(self)@.remove(old(self).handles().index_of(target)),
            final(self).handles() == old(self).handles().remove(old(self).handles().index_of(target)),
            final(self).removed() == old(self).removed().insert(target),
            !final(self).handles().contains(target),
    {
        let _ = self.unlink(target);
        proof {
            self.lemma_handles_sound();
        }
    }
    /// The handle of the head node, if any.
    fn head_handle(&self) -> (r: Option<NodeHandle>)
        requires
            self.wf(),
        ensures
            r == (if self@.len() == 0 { None } else { Some(self.handles()[0]) }),
    {
        match self.head {
            None => None,
            Some(k) => {
                proof {
                    assert(self.occupied(self.order@[0] as int));
                    assert(self.handles()[0] == self.handle_at(0));
                }
                Some(NodeHandle { index: k, generation: self.slots[k].generation })
            },
        }
    }

    /// Takes the value at the head out of the list, if there is one.
    pub fn pop_front(&mut self) -> (r: Option<T>)
        requires
            old(self).wf(),
        ensures
            final(self).wf(),
            old(self)@.len() == 0 ==> r is None && final(self)@ == old(self)@,
            old(self)@.len() > 0 ==> r == Some(old(self)@[0]) && final(self)@ == old(self)@.drop_first(),
    {
        match self.head_handle() {
            None => None,
            Some(h) => {
                proof {
                    assert(self.handles().contains(h));
                    assert forall|j: int| 0 <= j < self.order@.len() && self.handles()[j] == h implies j == 0 by {
                        assert(self.handles()[j] == self.handle_at(j));
                        assert(self.handles()[0] == self.handle_at(0));
                    }
                    assert(self.handles().index_of(h) == 0);
                }
                let v = self.unlink(h);
                proof {
                    assert(old(self)@.remove(0) =~= old(self)@.drop_first());
                }
                Some(v)
            },
        }
    }

    /// A cursor over the values, from the head to the tail; it can also be
    /// walked from the tail towards the head.
    pub fn iter(&self) -> (it: DoublyLinkedListRefIterator<'_, T>)
        requires
            self.wf(),
        ensures
            it.wf(),
            it@ == self@,
    {
        let it = DoublyLinkedListRefIterator { list: self, front: self.head, back: self.tail, lo: Ghost(0), hi: Ghost(self.order@.len() as int) };
        proof {
            assert(self@.subrange(0, self.order@.len() as int) =~= self@);
        }
        it
    }

    /// Turns the list into a cursor that hands out its values by value,
    /// from the head to the tail.
    pub fn into_iter(self) -> (it: DoublyLinkedListIterator<T>)
        requires
            self.wf(),
        ensures
            it.wf(),
            it@ == self@,
    {
        DoublyLinkedListIterator { list: self }
    }

    /// The handle of the node that follows the node named by `h`, read
    /// from that node's successor link.
    pub closed spec fn successor(&self, h: NodeHandle) -> Option<NodeHandle> {
        match self.node_in(h.index as int).next {
            Some(k) => Some(NodeHandle { index: k, generation: self.slots@[k as int].generation }),
            None => None,
        }
    }

    /// The handle of the node that precedes the node named by `h`, read
    /// from that node's predecessor link.
    pub closed spec fn predecessor(&self, h: NodeHandle) -> Option<NodeHandle> {
        match self.node_in(h.index as int).prev {
            Some(k) => Some(NodeHandle { index: k, generation: self.slots@[k as int].generation }),
            None => None,
        }
    }

    /// Links agree in both directions: of two neighbouring nodes, the
    /// earlier one's successor is the later one and the later one's
    /// predecessor is the earlier one. The head has no predecessor and the
    /// tail no successor.
    pub proof fn lemma_links_agree(&self)
        requires
            self.wf(),
        ensures
            forall|i: int| 0 <= i < self.handles().len() - 1 ==> {
                &&& #[trigger] self.successor(self.handles()[i]) == Some(self.handles()[i + 1])
                &&& self.predecessor(self.handles()[i + 1]) == Some(self.handles()[i])
            },
            self.handles().len() > 0 ==> {
                &&& self.predecessor(self.handles()[0]) is None
                &&& self.successor(self.handles().last()) is None
            },
    {
        let hs = self.handles();
        assert forall|i: int| 0 <= i < hs.len() - 1 implies {
            &&& #[trigger] self.successor(hs[i]) == Some(hs[i + 1])
            &&& self.predecessor(hs[i + 1]) == Some(hs[i])
        } by {
            assert(hs[i] == self.handle_at(i));
            assert(hs[i + 1] == self.handle_at(i + 1));
            assert(self.occupied(self.order@[i] as int));
            assert(self.occupied(self.order@[i + 1] as int));
        }
        if hs.len() > 0 {
            assert(hs[0] == self.handle_at(0));
            assert(hs.last() == self.handle_at(hs.len() - 1));
            assert(self.occupied(self.order@[0] as int));
            assert(self.occupied(self.order@[hs.len() - 1] as int));
        }
    }

    /// Distinct nodes have distinct handles, and no handle of a removed
    /// node names a node of the list.
    pub proof fn lemma_handles_sound(&self)
        requires
            self.wf(),
        ensures
            self.handles().no_duplicates(),
            forall|h: NodeHandle| #[trigger] self.removed().contains(h) ==> !self.handles().contains(h),
    {
        let hs = self.handles();
        assert forall|i: int, j: int| 0 <= i < hs.len() && 0 <= j < hs.len() && i != j implies hs[i] != hs[j] by {
            assert(hs[i] == self.handle_at(i));
            assert(hs[j] == self.handle_at(j));
        }
        assert forall|h: NodeHandle| #[trigger] self.removed().contains(h) implies !hs.contains(h) by {
            if hs.contains(h) {
                let i = choose|i: int| 0 <= i < hs.len() && hs[i] == h;
                assert(hs[i] == self.handle_at(i));
                assert(self.occupied(self.order@[i] as int));
                assert(self.free@.contains(h.index) ==> !self.occupied(h.index as int)) by {
                    if self.free@.contains(h.index) {
                        let a = choose|a: int| 0 <= a < self.free@.len() && self.free@[a] == h.index;
                        assert(self.free@[a] < self.slots@.len());
                    }
                }
            }
        }
    }

    /// Whether the list has no values.
    pub fn is_empty(&self) -> (r: bool)
        requires
            self.wf(),
        ensures
            r == (self@.len() == 0),
    {
        self.head.is_none()
    }

    /// The value of the node named by `h`, or `None` if `h` names no node
    /// of this list.
    pub fn get(&self, h: NodeHandle) -> (r: Option<&T>)
        requires
            self.wf(),
        ensures
            self.handles().contains(h) ==> r == Some(&self@[self.handles().index_of(h)]),
            !self.handles().contains(h) ==> r is None,
    {
        if h.index < self.slots.len() && self.slots[h.index].generation == h.generation {
            match &self.slots[h.index].node {
                Some(node) => {
                    proof {
                        assert(self.occupied(h.index as int));
                        assert(self.order@.contains(h.index));
                        let i = choose|i: int| 0 <= i < self.order@.len() && self.order@[i] == h.index;
                        assert(self.handles()[i] == self.handle_at(i));
                        self.lemma_handles_sound();
                        let j = self.handles().index_of(h);
                        assert(self.handles()[j] == self.handle_at(j));
                    }
                    Some(&node.value)
                },
                None => {
                    proof {
                        self.lemma_not_contained(h);
                    }
                    None
                },
            }
        } else {
            proof {
                self.lemma_not_contained(h);
            }
            None
        }
    }

    proof fn lemma_not_contained(&self, h: NodeHandle)
        requires
            self.wf(),
            !(0 <= h.index < self.slots@.len() && self.slots@[h.index as int].generation == h.generation
                && self.slots@[h.index as int].node is Some),
        ensures
            !self.handles().contains(h),
    {
        if self.handles().contains(h) {
            let i = choose|i: int| 0 <= i < self.handles().len() && self.handles()[i] == h;
            assert(self.handles()[i] == self.handle_at(i));
            assert(self.occupied(self.order@[i] as int));
        }
    }

    /// Whether `h` names a node of this list.
    pub fn contains(&self, h: NodeHandle) -> (r: bool)
        requires
            self.wf(),
        ensures
            r == self.handles().contains(h),
    {
        self.get(h).is_some()
    }

}

impl<T: PartialEq> DoublyLinkedList<T> {
    /// The handle of the first node, from the head, whose value equals
    /// `value`, or `None` if there is none.
    pub fn find(&self, value: T) -> (r: Option<NodeHandle>)
        requires
            self.wf(),
        ensures
            r matches Some(h) ==> self.handles().contains(h),
            T::obeys_eq_spec() ==> match r {
                None => forall|i: int| 0 <= i < self@.len() ==> !self@[i].eq_spec(&value),
                Some(h) => exists|i: int| {
                    &&& 0 <= i < self@.len()
                    &&& self.handles()[i] == h
                    &&& self@[i].eq_spec(&value)
                    &&& forall|j: int| 0 <= j < i ==> !self@[j].eq_spec(&value)
                },
            },
    {
        let ghost ord = self.order@;
        let ghost n = ord.len();
        let mut current = self.head;
        let ghost mut pos: int = 0;
        while current.is_some()
            invariant
                self.wf(),
                ord == self.order@,
                n == ord.len(),
                0 <= pos <= n,
                current == (if pos < n { Some(ord[pos]) } else { None::<usize> }),
                T::obeys_eq_spec() ==> forall|j: int| 0 <= j < pos ==> !self@[j].eq_spec(&value),
            decreases n - pos,
        {
            let k = current.unwrap();
            proof {
                assert(self.occupied(ord[pos] as int));
            }
            let node = match &self.slots[k].node {
                Some(node) => node,
                None => { return None; },
            };
            proof {
                assert(node == self.node_in(ord[pos] as int));
                assert(self@[pos] == node.value);
            }
            if node.value.eq(&value) {
                proof {
                    assert(self.handles()[pos] == self.handle_at(pos));
                }
                return Some(NodeHandle { index: k, generation: self.slots[k].generation });
            }
            current = node.next;
            proof {
                pos = pos + 1;
            }
        }
        None
    }
}

/// A cursor over the values of a list, borrowed from it. Values are taken
/// from the front with `next` and from the back with `next_back`; the two
/// ends meet and never pass each other.
pub struct DoublyLinkedListRefIterator<'a, T> {
    list: &'a DoublyLinkedList<T>,
    front: Option<usize>,
    back: Option<usize>,
    /// Position, in the list, of the next value from the front.
    lo: Ghost<int>,
    /// One past the position of the next value from the back.
    hi: Ghost<int>,
}

impl<'a, T> DoublyLinkedListRefIterator<'a, T> {
    /// The values not yet handed out, in list order.
    pub closed spec fn view(&self) -> Seq<T> {
        self.list@.subrange(self.lo@, self.hi@)
    }

    /// The list is well formed and the two ends point at the nodes at
    /// positions `lo` and `hi - 1`, or at nothing once they have met.
    pub closed spec fn wf(&self) -> bool {
        let ord = self.list.order@;
        &&& self.list.wf()
        &&& 0 <= self.lo@ <= self.hi@ <= ord.len()
        &&& self.front == (if self.lo@ < self.hi@ { Some(ord[self.lo@]) } else { None })
        &&& self.back == (if self.lo@ < self.hi@ { Some(ord[self.hi@ - 1]) } else { None })
    }

    /// The next value from the front, or `None` once every value has been
    /// handed out.
    pub fn next(&mut self) -> (r: Option<&'a T>)
        requires
            old(self).wf(),
        ensures
            final(self).wf(),
            old(self)@.len() == 0 ==> r is None && final(self)@ == old(self)@,
            old(self)@.len() > 0 ==> r == Some(&old(self)@[0]) && final(self)@ == old(self)@.drop_first(),
    {
        let list = self.list;
        match self.front {
            None => None,
            Some(k) => {
                let ghost ord = list.order@;
                let ghost lo = self.lo@;
                proof {
                    assert(list.occupied(ord[lo] as int));
                }
                let node = match &list.slots[k].node {
                    Some(node) => node,
                    None => { return None; },
                };
                proof {
                    assert(node == list.node_in(ord[lo] as int));
                }
                if self.back == Some(k) {
                    self.front = None;
                    self.back = None;
                    proof {
                        assert(ord[self.hi@ - 1] == ord[lo]);
                    }
                } else {
                    self.front = node.next;
                    proof {
                        if lo == self.hi@ - 1 {
                            assert(ord[self.hi@ - 1] == ord[lo]);
                        }
                    }
                }
                self.lo = Ghost(lo + 1);
                proof {
                    assert(self@ =~= old(self)@.drop_first());
                }
                Some(&node.value)
            },
        }
    }

    /// The next value from the back, or `None` once every value has been
    /// handed out.
    pub fn next_back(&mut self) -> (r: Option<&'a T>)
        requires
            old(self).wf(),
        ensures
            final(self).wf(),
            old(self)@.len() == 0 ==> r is None && final(self)@ == old(self)@,
            old(self)@.len() > 0 ==> r == Some(&old(self)@.last()) && final(self)@ == old(self)@.drop_last(),
    {
        let list = self.list;
        match self.back {
            None => None,
            Some(k) => {
                let ghost ord = list.order@;
                let ghost hi = self.hi@;
                proof {
                    assert(list.occupied(ord[hi - 1] as int));
                }
                let node = match &list.slots[k].node {
                    Some(node) => node,
                    None => { return None; },
                };
                proof {
                    assert(node == list.node_in(ord[hi - 1] as int));
                }
                if self.front == Some(k) {
                    self.front = None;
                    self.back = None;
                    proof {
                        assert(ord[self.lo@] == ord[hi - 1]);
                    }
                } else {
                    self.back = node.prev;
                    proof {
                        if self.lo@ == hi - 1 {
                            assert(ord[self.lo@] == ord[hi - 1]);
                        }
                    }
                }
                self.hi = Ghost(hi - 1);
                proof {
                    assert(self@ =~= old(self)@.drop_last());
                }
                Some(&node.value)
            },
        }
    }
}

/// A cursor that owns what is left of a list and hands its values out from
/// the head.
pub struct DoublyLinkedListIterator<T> {
    list: DoublyLinkedList<T>,
}

impl<T> DoublyLinkedListIterator<T> {
    /// The values not yet handed out, in list order.
    pub closed spec fn view(&self) -> Seq<T> {
        self.list@
    }

    /// What is left of the list is well formed.
    pub closed spec fn wf(&self) -> bool {
        self.list.wf()
    }

    /// The next value, or `None` once every value has been handed out.
    pub fn next(&mut self) -> (r: Option<T>)
        requires
            old(self).wf(),
        ensures
            final(self).wf(),
            old(self)@.len() == 0 ==> r is None && final(self)@ == old(self)@,
            old(self)@.len() > 0 ==> r == Some(old(self)@[0]) && final(self)@ == old(self)@.drop_first(),
    {
        self.list.pop_front()
    }
}

} // verus!
