use vstd::prelude::*;
use crate::collection::Collection;
use crate::general_tree::{GeneralTree, root_size};
use crate::tree_node::{TreeNode, sum_nat, sizes, lemma_sizes, lemma_sizes_last};

verus! {

/// A node of a general tree: a value and its ordered children.
#[derive(Debug)]
pub struct Node<T> {
    value: T,
    children: Vec<Node<T>>,
}

/// A general tree, possibly empty.
#[derive(Debug)]
pub struct Tree<T> {
    root: Option<Node<T>>,
}

impl<T> Node<T> {
    /// Nodes in the subtree.
    pub closed spec fn size(&self) -> nat
        decreases self,
    {
        1 + size_list(self.children@)
    }

    /// A leaf holding `value`.
    pub fn new(value: T) -> (r: Self)
        ensures
            r.value_spec() == value,
            r.children_spec() == Seq::<Self>::empty(),
            r.size_spec() == 1,
    {
        Self { value, children: Vec::new() }
    }
}

/// Nodes in the subtrees of a sequence of nodes.
pub closed spec fn size_list<T>(cs: Seq<Node<T>>) -> nat
    decreases cs,
{
    if cs.len() == 0 {
        0
    } else {
        size_list(cs.drop_last()) + cs.last().size()
    }
}

proof fn lemma_size_list<T>(cs: Seq<Node<T>>)
    ensures
        size_list(cs) == sum_nat(cs.map_values(|c: Node<T>| c.size_spec())),
    decreases cs.len(),
{
    if cs.len() > 0 {
        lemma_size_list(cs.drop_last());
        assert(cs.map_values(|c: Node<T>| c.size_spec()).drop_last() =~= cs.drop_last().map_values(|c: Node<T>| c.size_spec()));
    }
}

proof fn lemma_size_list_append<T>(a: Seq<Node<T>>, b: Seq<Node<T>>)
    ensures
        size_list(a + b) == size_list(a) + size_list(b),
    decreases b.len(),
{
    if b.len() == 0 {
        assert(a + b =~= a);
    } else {
        lemma_size_list_append(a, b.drop_last());
        assert((a + b).drop_last() =~= a + b.drop_last());
    }
}

/// Taking a child out of a sequence takes its nodes out of the count.
proof fn lemma_size_list_remove<T>(cs: Seq<Node<T>>, i: int)
    requires
        0 <= i < cs.len(),
    ensures
        size_list(cs) == size_list(cs.remove(i)) + cs[i].size(),
{
    let a = cs.subrange(0, i);
    let b = cs.subrange(i + 1, cs.len() as int);
    assert(cs =~= a + seq![cs[i]] + b);
    assert(cs.remove(i) =~= a + b);
    lemma_size_list_append(a + seq![cs[i]], b);
    lemma_size_list_append(a, seq![cs[i]]);
    lemma_size_list_append(a, b);
    assert(seq![cs[i]].drop_last() =~= Seq::<Node<T>>::empty());
    assert(seq![cs[i]].last() == cs[i]);
    assert(size_list(Seq::<Node<T>>::empty()) == 0);
    assert(size_list(seq![cs[i]]) == cs[i].size());
}

impl<T> TreeNode<T> for Node<T> {
    closed spec fn value_spec(&self) -> T {
        self.value
    }

    closed spec fn children_spec(&self) -> Seq<Self> {
        self.children@
    }

    closed spec fn size_spec(&self) -> nat {
        self.size()
    }

    proof fn lemma_node(&self) {
        lemma_size_list(self.children@);
    }

    fn value(&self) -> (r: &T) {
        &self.value
    }

    fn value_mut(&mut self) -> (r: &mut T) {
        &mut self.value
    }

    fn children(&self) -> (r: &[Self]) {
        self.children.as_slice()
    }

    fn children_mut(&mut self) -> (r: &mut [Self]) {
        self.children.as_mut_slice()
    }

    fn add_child(&mut self, value: T) -> (r: &mut Self) {
        self.add_subtree(Node::new(value))
    }

    #[verifier::spinoff_prover]
    fn add_subtree(&mut self, subtree: Self) -> (r: &mut Self) {
        let ghost cs = self.children@;
        self.children.push(subtree);
        let last = self.children.len() - 1;
        let r = &mut self.children[last];
        proof {
            assert(cs.push(*final(r)).drop_last() =~= cs);
            assert(cs.push(*final(r)).last() == *final(r));
            assert(size_list(cs.push(*final(r))) == size_list(cs) + final(r).size());
        }
        r
    }

    fn remove_child(&mut self, index: usize) -> (r: Option<Self>) {
        if index >= self.children.len() {
            return None;
        }
        proof { lemma_size_list_remove(self.children@, index as int); }
        Some(self.children.remove(index))
    }
}

impl<T> Tree<T> {
    pub fn new() -> (r: Self)
        ensures
            r.inv(),
            r.root_spec() is None,
    {
        Self { root: None }
    }

    /// A tree of one node holding `value`.
    pub fn with_root(value: T) -> (r: Self)
        ensures
            r.inv(),
            r.root_spec() matches Some(n) && n.value_spec() == value && n.children_spec() == Seq::<Node<T>>::empty()
                && n.size_spec() == 1,
    {
        let r = Self { root: Some(Node::new(value)) };
        proof {
            let n = r.root->0;
            n.lemma_node();
            assert(n.children_spec().map_values(|c: Node<T>| c.size_spec()) =~= Seq::<nat>::empty());
        }
        r
    }
}

/// Nodes in the stacked subtrees.
pub closed spec fn stack_nodes<T>(st: Seq<&Node<T>>) -> nat
    decreases st.len(),
{
    if st.len() == 0 {
        0
    } else {
        st.last().size() + stack_nodes(st.drop_last())
    }
}

/// Nodes in the stacked owned subtrees.
pub closed spec fn owned_nodes<T>(st: Seq<Node<T>>) -> nat
    decreases st.len(),
{
    if st.len() == 0 {
        0
    } else {
        st.last().size() + owned_nodes(st.drop_last())
    }
}

proof fn lemma_owned_append<T>(a: Seq<Node<T>>, b: Seq<Node<T>>)
    ensures
        owned_nodes(a + b) == owned_nodes(a) + size_list(b),
    decreases b.len(),
{
    if b.len() == 0 {
        assert(a + b =~= a);
    } else {
        lemma_owned_append(a, b.drop_last());
        assert((a + b).drop_last() =~= a + b.drop_last());
    }
}

impl<T> Collection for Tree<T> {
    closed spec fn inv(&self) -> bool {
        root_size::<T, Node<T>>(self.root) <= usize::MAX
    }

    closed spec fn len_spec(&self) -> nat {
        root_size::<T, Node<T>>(self.root)
    }

    /// Counts the nodes, without recursion.
    fn len(&self) -> (r: usize) {
        let ghost total = root_size::<T, Node<T>>(self.root);
        let mut count: usize = 0;
        let mut stack: Vec<&Node<T>> = Vec::new();
        if let Some(root) = self.root() {
            stack.push(root);
            proof {
                assert(stack@.drop_last() =~= Seq::<&Node<T>>::empty());
                assert(stack@.last() == root);
                assert(stack_nodes(Seq::<&Node<T>>::empty()) == 0);
            }
        } else {
            assert(stack_nodes(stack@) == 0);
        }
        while stack.len() > 0
            invariant
                total == root_size::<T, Node<T>>(self.root),
                total <= usize::MAX,
                count + stack_nodes(stack@) == total,
            decreases stack_nodes(stack@),
        {
            let ghost before = stack@;
            let node = stack.pop().unwrap();
            proof {
                assert(before.drop_last() =~= stack@);
                assert(before.last() == node);
            }
            count = count + 1;
            let children = node.children();
            let n = children.len();
            let ghost cs = children@;
            let ghost base = stack@;
            let mut i: usize = 0;
            proof { assert(cs.subrange(0, 0) =~= Seq::<Node<T>>::empty()); }
            while i < n
                invariant
                    cs == children@,
                    cs == node.children@,
                    n == cs.len(),
                    i <= n,
                    stack_nodes(stack@) == stack_nodes(base) + size_list(cs.subrange(0, i as int)),
                decreases n - i,
            {
                let ghost prev = stack@;
                stack.push(&children[i]);
                proof {
                    assert(stack@.drop_last() =~= prev);
                    assert(cs.subrange(0, i + 1).drop_last() =~= cs.subrange(0, i as int));
                }
                i = i + 1;
            }
            proof { assert(cs.subrange(0, n as int) =~= cs); }
        }
        count
    }

    fn is_empty(&self) -> (r: bool) {
        proof {
            if self.root is Some {
                self.root->0.lemma_node();
            }
        }
        self.root.is_none()
    }
}

impl<T> GeneralTree<T> for Tree<T> {
    type Node = Node<T>;

    closed spec fn root_spec(&self) -> Option<Node<T>> {
        self.root
    }

    proof fn lemma_inv(&self) {
    }

    proof fn lemma_inv_bound(&self) {
    }

    fn root(&self) -> (r: Option<&Node<T>>) {
        self.root.as_ref()
    }

    fn root_mut(&mut self) -> (r: Option<&mut Node<T>>) {
        match &mut self.root {
            Some(n) => Some(n),
            None => None,
        }
    }

    fn replace_root(&mut self, root: Node<T>) -> (r: Option<Node<T>>) {
        let mut new_root = Some(root);
        std::mem::swap(&mut self.root, &mut new_root);
        new_root
    }

    fn take_root(&mut self) -> (r: Option<Node<T>>) {
        self.root.take()
    }

    /// Drops the nodes one at a time, without recursion.
    fn clear(&mut self) {
        let mut stack: Vec<Node<T>> = Vec::new();
        if let Some(root) = self.root.take() {
            stack.push(root);
        }
        while stack.len() > 0
            invariant
                self.root is None,
            decreases owned_nodes(stack@),
        {
            let ghost before = stack@;
            let mut node = stack.pop().unwrap();
            proof {
                assert(before.drop_last() =~= stack@);
                assert(before.last() == node);
            }
            let ghost base = stack@;
            let ghost cs = node.children@;
            stack.append(&mut node.children);
            proof { lemma_owned_append(base, cs); }
        }
    }
}

} // verus!
