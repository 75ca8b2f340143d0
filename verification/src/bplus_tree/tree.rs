use vstd::prelude::*;
use crate::collection::Collection;
use super::arena::Arena;
use super::node::{LeafNode, Node, NodeId};
use super::shape::{wf, entries, entry_map, sorted_entries, lemma_entries_sorted, lemma_entry_map_len};
use super::leaves::{leaves, linked, link_at, leftmost, chain, leaf_entries, lemma_leaves_valid, lemma_chain,
    lemma_leaf_entries, lemma_distinct_bound};

verus! {

/// One past the largest key.
pub open spec fn key_limit() -> int {
    0x1_0000_0000_0000_0000
}

/// A map from `u64` keys to values, kept as a B+ tree whose nodes hold
/// between none and `2 * order` keys.
pub struct BPlusTree<V> {
    pub(crate) arena: Arena<V>,
    pub(crate) root: NodeId,
    pub(crate) order: usize,
    pub(crate) len: usize,
    pub(crate) height: Ghost<nat>,
}

impl<V> View for BPlusTree<V> {
    type V = Map<u64, V>;

    /// The keys and their values.
    closed spec fn view(&self) -> Map<u64, V> {
        entry_map(self.contents())
    }
}

impl<V> BPlusTree<V> {
    /// The entries of the leaves, in key order.
    pub closed spec fn contents(&self) -> Seq<(u64, V)> {
        entries(self.arena.nodes(), self.root.0 as int, self.height@)
    }

    /// The entries met by starting at the leftmost leaf and following the links
    /// from leaf to leaf.
    pub closed spec fn leaf_chain(&self) -> Seq<(u64, V)> {
        let nodes = self.arena.nodes();
        leaf_entries(nodes, chain(nodes, Some(leftmost(nodes, self.root.0 as int, self.height@)), nodes.len()))
    }

    /// Half the most keys a node holds.
    pub closed spec fn order_spec(&self) -> nat {
        self.order as nat
    }

    /// An empty tree whose nodes hold at most `2 * order` keys.
    pub fn new(order: usize) -> (r: Self)
        requires
            order > 0,
            order <= (usize::MAX - 2) / 2,
        ensures
            r.inv(),
            r@ == Map::<u64, V>::empty(),
            r.order_spec() == order,
    {
        let mut arena = Arena::new();
        let root = arena.allocate(Node::Leaf(LeafNode::empty()));
        let r = Self { arena, root, order, len: 0, height: Ghost(0) };
        proof {
            let nodes = r.arena.nodes();
            assert(leaves(nodes, 0, 0) =~= seq![0int]);
            assert(link_at(nodes, seq![0int], 0, None));
            assert(linked(nodes, leaves(nodes, 0, 0), None));
            r.lemma_tree_inv();
            assert(r.contents() =~= Seq::<(u64, V)>::empty());
            assert(r@ =~= Map::<u64, V>::empty());
        }
        r
    }

    /// What the invariant and the view are made of.
    pub(crate) proof fn lemma_tree_inv(&self)
        ensures
            self.inv() <==> (0 < self.order <= (usize::MAX - 2) / 2
                && wf(self.arena.nodes(), self.root.0 as int, self.height@, 0, key_limit(), self.order as nat)
                && self.len == self.contents().len()
                && linked(self.arena.nodes(), leaves(self.arena.nodes(), self.root.0 as int, self.height@), None)),
            self.contents() == entries(self.arena.nodes(), self.root.0 as int, self.height@),
            self@ == entry_map(self.contents()),
            self.len_spec() == self.len,
            self.order_spec() == self.order,
    {
        if wf(self.arena.nodes(), self.root.0 as int, self.height@, 0, key_limit(), self.order as nat)
            && linked(self.arena.nodes(), leaves(self.arena.nodes(), self.root.0 as int, self.height@), None) {
            self.lemma_chain_contents();
        }
    }

    /// In a valid tree whose leaves are linked left to right, the links from the
    /// leftmost leaf visit every entry in order.
    proof fn lemma_chain_contents(&self)
        requires
            wf(self.arena.nodes(), self.root.0 as int, self.height@, 0, key_limit(), self.order as nat),
            linked(self.arena.nodes(), leaves(self.arena.nodes(), self.root.0 as int, self.height@), None),
        ensures
            self.leaf_chain() == self.contents(),
    {
        let nodes = self.arena.nodes();
        let root = self.root.0 as int;
        let h = self.height@;
        let ls = leaves(nodes, root, h);
        lemma_leaves_valid(nodes, root, h, 0, key_limit(), self.order as nat);
        lemma_distinct_bound(nodes, ls);
        lemma_chain(nodes, ls, nodes.len());
        lemma_leaf_entries(nodes, root, h);
    }

    /// Starting at the leftmost leaf and following the links from leaf to leaf
    /// meets every entry of the tree, in key order.
    pub proof fn lemma_leaf_chain(&self)
        requires
            self.inv(),
        ensures
            self.leaf_chain() == self.contents(),
            sorted_entries(self.leaf_chain()),
            self@ == entry_map(self.leaf_chain()),
    {
        lemma_entries_sorted(self.arena.nodes(), self.root.0 as int, self.height@, 0, key_limit(), self.order as nat);
    }

    /// The map holds as many keys as the tree counts.
    pub proof fn lemma_len(&self)
        requires
            self.inv(),
        ensures
            self@.dom().finite(),
            self@.dom().len() == self.len_spec(),
    {
        lemma_entries_sorted(self.arena.nodes(), self.root.0 as int, self.height@, 0, key_limit(), self.order as nat);
        lemma_entry_map_len(self.contents());
    }

    /// Removes every entry, keeping the order.
    pub fn clear(&mut self)
        requires
            old(self).inv(),
        ensures
            final(self).inv(),
            final(self)@ == Map::<u64, V>::empty(),
            final(self).order_spec() == old(self).order_spec(),
    {
        *self = Self::new(self.order);
    }
}

impl<V> Collection for BPlusTree<V> {
    closed spec fn inv(&self) -> bool {
        &&& 0 < self.order <= (usize::MAX - 2) / 2
        &&& wf(self.arena.nodes(), self.root.0 as int, self.height@, 0, key_limit(), self.order as nat)
        &&& self.len == self.contents().len()
        &&& linked(self.arena.nodes(), leaves(self.arena.nodes(), self.root.0 as int, self.height@), None)
        &&& self.leaf_chain() == self.contents()
    }

    /// The number of entries.
    closed spec fn len_spec(&self) -> nat {
        self.len as nat
    }

    /// The number of keys in the map.
    fn len(&self) -> (r: usize)
        ensures
            r == self@.dom().len(),
    {
        proof { self.lemma_len(); }
        self.len
    }
}

/// A read after an insert gives the value written, and leaves every other
/// key as it was.
pub proof fn lemma_read_after_insert<V>(m: Map<u64, V>, key: u64, value: V, other: u64)
    ensures
        m.insert(key, value).contains_key(key),
        m.insert(key, value)[key] == value,
        other != key ==> (m.insert(key, value).contains_key(other) == m.contains_key(other)),
        other != key && m.contains_key(other) ==> m.insert(key, value)[other] == m[other],
{
}

/// Removing a key that an insert added gives back the map before the insert.
pub proof fn lemma_remove_undoes_insert<V>(m: Map<u64, V>, key: u64, value: V)
    requires
        !m.contains_key(key),
    ensures
        m.insert(key, value).remove(key) == m,
{
    assert(m.insert(key, value).remove(key) =~= m);
}

} // verus!
