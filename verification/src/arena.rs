//! Arena storage for plan nodes.

use vstd::prelude::*;

verus! {

/// Index of a node in its arena.
pub type Node = usize;

/// Grow-only storage; nodes refer to each other by index.
pub struct Arena<T> {
    pub items: Vec<T>,
}

impl<T> View for Arena<T> {
    type V = Seq<T>;

    open spec fn view(&self) -> Seq<T> {
        self.items@
    }
}

impl<T> Arena<T> {
    pub fn new() -> (arena: Self)
        ensures
            arena@ == Seq::<T>::empty(),
    {
        Arena { items: Vec::new() }
    }

    pub fn len(&self) -> (len: usize)
        ensures
            len == self@.len(),
    {
        self.items.len()
    }

    /// Appends `val` and returns its index.
    pub fn add(&mut self, val: T) -> (node: Node)
        ensures
            final(self)@ == old(self)@.push(val),
            node == old(self)@.len(),
    {
        let node: usize = self.items.len();
        self.items.push(val);
        node
    }

    pub fn get(&self, idx: Node) -> (val: &T)
        requires
            idx < self@.len(),
        ensures
            *val == self@[idx as int],
    {
        &self.items[idx]
    }

    pub fn get_mut(&mut self, idx: Node) -> (val: &mut T)
        requires
            idx < old(self)@.len(),
        ensures
            *val == old(self)@[idx as int],
            final(self)@ == old(self)@.update(idx as int, *final(val)),
    {
        &mut self.items[idx]
    }
}

pub(crate) fn copy_nodes(nodes: &[Node]) -> (copy: Vec<Node>)
    ensures
        copy@ == nodes@,
{
    let mut copy: Vec<Node> = Vec::new();
    let mut i: usize = 0;
    while i < nodes.len()
        invariant
            i <= nodes@.len(),
            copy@ == nodes@.take(i as int),
        decreases nodes@.len() - i,
    {
        copy.push(nodes[i]);
        i = i + 1;
    }
    copy
}

} // verus!
