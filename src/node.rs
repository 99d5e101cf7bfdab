use vstd::prelude::*;

verus! {

/// One element of the chain: a value and the slot indices of its
/// predecessor and successor, if any.
pub struct Node<T> {
    pub(crate) value: T,
    pub(crate) prev: Option<usize>,
    pub(crate) next: Option<usize>,
}

impl<T> Node<T> {
    /// A node holding `value`, not yet linked to any other.
    pub(crate) fn new(value: T) -> (n: Node<T>)
        ensures
            n.value == value,
            n.prev is None,
            n.next is None,
    {
        Node { value, prev: None, next: None }
    }
}

/// Names one node of a list: the slot it occupies and the generation of
/// that slot when the node was put there.
#[derive(Clone, Copy, PartialEq, Eq, Structural, Debug)]
pub struct NodeHandle {
    pub(crate) index: usize,
    pub(crate) generation: u64,
}

/// One cell of the arena. `node` is `None` while the slot is vacant;
/// `generation` grows each time a node leaves the slot.
pub(crate) struct Slot<T> {
    pub(crate) generation: u64,
    pub(crate) node: Option<Node<T>>,
}

} // verus!
