use vstd::prelude::*;

verus! {

/// The index of a node in the arena.
#[derive(Debug, Clone, Copy, PartialEq, Eq)]
pub struct NodeId(pub usize);

/// A leaf: entries in key order, and the leaf to its right.
#[derive(Debug)]
pub struct LeafNode<V> {
    pub entries: Vec<(u64, V)>,
    pub next: Option<NodeId>,
}

/// An internal node: separator keys, and one more child than keys.
#[derive(Debug)]
pub struct InternalNode {
    pub keys: Vec<u64>,
    pub children: Vec<NodeId>,
}

#[derive(Debug)]
pub enum Node<V> {
    Leaf(LeafNode<V>),
    Internal(InternalNode),
}

impl<V> LeafNode<V> {
    pub(crate) fn empty() -> (r: Self)
        ensures
            r.entries@ == Seq::<(u64, V)>::empty(),
            r.next is None,
    {
        Self { entries: Vec::new(), next: None }
    }
}

} // verus!
