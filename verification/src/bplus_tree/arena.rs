use vstd::prelude::*;
use super::node::{Node, NodeId};

verus! {

/// Owns every node of a tree; nodes refer to each other by index.
#[derive(Debug)]
pub(crate) struct Arena<V> {
    nodes: Vec<Node<V>>,
}

impl<V> Arena<V> {
    /// The nodes, by index.
    pub(crate) closed spec fn nodes(&self) -> Seq<Node<V>> {
        self.nodes@
    }

    pub(crate) fn new() -> (r: Self)
        ensures
            r.nodes() == Seq::<Node<V>>::empty(),
    {
        Self { nodes: Vec::new() }
    }

    /// Stores `node` at the next free index and returns that index.
    pub(crate) fn allocate(&mut self, node: Node<V>) -> (r: NodeId)
        ensures
            r.0 == old(self).nodes().len(),
            final(self).nodes() == old(self).nodes().push(node),
    {
        let id = NodeId(self.nodes.len());
        self.nodes.push(node);
        id
    }

    pub(crate) fn get(&self, id: NodeId) -> (r: &Node<V>)
        requires
            id.0 < self.nodes().len(),
        ensures
            *r == self.nodes()[id.0 as int],
    {
        &self.nodes[id.0]
    }

    pub(crate) fn get_mut(&mut self, id: NodeId) -> (r: &mut Node<V>)
        requires
            id.0 < old(self).nodes().len(),
        ensures
            *r == old(self).nodes()[id.0 as int],
            final(self).nodes() == old(self).nodes().update(id.0 as int, *final(r)),
    {
        &mut self.nodes[id.0]
    }
}

} // verus!
