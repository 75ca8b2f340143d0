use vstd::prelude::*;

verus! {

/// A node with a value and any number of ordered children.
pub trait TreeNode<T>: Sized {
    spec fn value_spec(&self) -> T;

    spec fn children_spec(&self) -> Seq<Self>;

    /// Nodes in the subtree.
    spec fn size_spec(&self) -> nat;

    /// A subtree counts its node and its children's subtrees.
    proof fn lemma_node(&self)
        ensures
            self.size_spec() == 1 + sum_nat(self.children_spec().map_values(|c: Self| c.size_spec())),
    ;

    fn value(&self) -> (r: &T)
        ensures
            *r == self.value_spec(),
    ;

    fn value_mut(&mut self) -> (r: &mut T)
        ensures
            *r == old(self).value_spec(),
            final(self).value_spec() == *final(r),
            final(self).children_spec() == old(self).children_spec(),
            final(self).size_spec() == old(self).size_spec(),
    ;

    fn children(&self) -> (r: &[Self])
        ensures
            r@ == self.children_spec(),
    ;

    fn children_mut(&mut self) -> (r: &mut [Self])
        ensures
            r@ == old(self).children_spec(),
            final(self).children_spec() == final(r)@,
            final(self).value_spec() == old(self).value_spec(),
    ;

    /// Adds a leaf holding `value` as the last child and returns it.
    fn add_child(&mut self, value: T) -> (r: &mut Self)
        ensures
            r.value_spec() == value,
            r.children_spec() == Seq::<Self>::empty(),
            r.size_spec() == 1,
            final(self).children_spec() == old(self).children_spec().push(*final(r)),
            final(self).value_spec() == old(self).value_spec(),
            final(self).size_spec() == old(self).size_spec() + final(r).size_spec(),
    ;

    /// Adds `subtree` as the last child and returns it.
    fn add_subtree(&mut self, subtree: Self) -> (r: &mut Self)
        ensures
            *r == subtree,
            final(self).children_spec() == old(self).children_spec().push(*final(r)),
            final(self).value_spec() == old(self).value_spec(),
            final(self).size_spec() == old(self).size_spec() + final(r).size_spec(),
    ;

    /// Removes and returns the child at `index`, if there is one.
    fn remove_child(&mut self, index: usize) -> (r: Option<Self>)
        ensures
            index >= old(self).children_spec().len() ==> r is None
                && final(self).children_spec() == old(self).children_spec(),
            index < old(self).children_spec().len() ==> r == Some(old(self).children_spec()[index as int])
                && final(self).children_spec() == old(self).children_spec().remove(index as int),
            final(self).value_spec() == old(self).value_spec(),
            old(self).size_spec() == final(self).size_spec() + match r { Some(c) => c.size_spec(), None => 0 },
    ;

    fn child_count(&self) -> (r: usize)
        ensures
            r == self.children_spec().len(),
    {
        self.children().len()
    }

    fn is_leaf(&self) -> (r: bool)
        ensures
            r == (self.children_spec().len() == 0),
    {
        self.children().len() == 0
    }
}

/// The sum of a sequence of counts.
pub open spec fn sum_nat(s: Seq<nat>) -> nat
    decreases s.len(),
{
    if s.len() == 0 {
        0
    } else {
        sum_nat(s.drop_last()) + s.last()
    }
}

/// Nodes in the subtrees of a sequence of nodes.
pub open spec fn sizes<T, N: TreeNode<T>>(cs: Seq<N>) -> nat {
    sum_nat(cs.map_values(|c: N| c.size_spec()))
}

/// The sizes of a sequence without its last subtree.
pub proof fn lemma_sizes_last<T, N: TreeNode<T>>(cs: Seq<N>)
    requires
        cs.len() > 0,
    ensures
        sizes::<T, N>(cs) == sizes::<T, N>(cs.drop_last()) + cs.last().size_spec(),
{
    assert(cs.map_values(|c: N| c.size_spec()).drop_last() =~= cs.drop_last().map_values(|c: N| c.size_spec()));
}

/// Every subtree has a node, and every subtree of the sequence counts towards its total.
pub proof fn lemma_sizes<T, N: TreeNode<T>>(cs: Seq<N>)
    ensures
        forall|i: int| 0 <= i < cs.len() ==> 1 <= (#[trigger] cs[i]).size_spec() <= sizes::<T, N>(cs),
        cs.len() <= sizes::<T, N>(cs),
    decreases cs.len(),
{
    if cs.len() > 0 {
        lemma_sizes::<T, N>(cs.drop_last());
        lemma_sizes_last::<T, N>(cs);
        cs.last().lemma_node();
        assert forall|i: int| 0 <= i < cs.len() implies 1 <= (#[trigger] cs[i]).size_spec() <= sizes::<T, N>(cs) by {
            if i < cs.len() - 1 {
                assert(cs[i] == cs.drop_last()[i]);
            }
        }
    }
}

pub proof fn lemma_sizes_append<T, N: TreeNode<T>>(a: Seq<N>, b: Seq<N>)
    ensures
        sizes::<T, N>(a + b) == sizes::<T, N>(a) + sizes::<T, N>(b),
    decreases b.len(),
{
    if b.len() == 0 {
        assert(a + b =~= a);
    } else {
        lemma_sizes_append::<T, N>(a, b.drop_last());
        assert((a + b).drop_last() =~= a + b.drop_last());
        lemma_sizes_last::<T, N>(a + b);
        lemma_sizes_last::<T, N>(b);
    }
}

/// Values of the subtree: each node before its children's subtrees, children in order.
pub open spec fn preorder<T, N: TreeNode<T>>(n: N) -> Seq<T>
    decreases n.size_spec(), 1nat,
{
    proof {
        n.lemma_node();
    }
    seq![n.value_spec()] + preorder_all::<T, N>(n.children_spec())
}

/// The preorders of a sequence of subtrees, one after another.
pub open spec fn preorder_all<T, N: TreeNode<T>>(cs: Seq<N>) -> Seq<T>
    decreases sizes::<T, N>(cs), 2nat,
{
    if cs.len() == 0 {
        Seq::empty()
    } else {
        proof {
            lemma_sizes::<T, N>(cs);
            lemma_sizes_last::<T, N>(cs);
            assert(cs.last() == cs[cs.len() - 1]);
        }
        preorder_all::<T, N>(cs.drop_last()) + preorder::<T, N>(cs.last())
    }
}

/// Values of the subtree: each node after its children's subtrees, children in order.
pub open spec fn postorder<T, N: TreeNode<T>>(n: N) -> Seq<T>
    decreases n.size_spec(), 1nat,
{
    proof {
        n.lemma_node();
    }
    postorder_all::<T, N>(n.children_spec()) + seq![n.value_spec()]
}

pub open spec fn postorder_all<T, N: TreeNode<T>>(cs: Seq<N>) -> Seq<T>
    decreases sizes::<T, N>(cs), 2nat,
{
    if cs.len() == 0 {
        Seq::empty()
    } else {
        proof {
            lemma_sizes::<T, N>(cs);
            lemma_sizes_last::<T, N>(cs);
            assert(cs.last() == cs[cs.len() - 1]);
        }
        postorder_all::<T, N>(cs.drop_last()) + postorder::<T, N>(cs.last())
    }
}

/// Nodes on the longest path from the node down.
pub open spec fn height<T, N: TreeNode<T>>(n: N) -> nat
    decreases n.size_spec(), 1nat,
{
    proof {
        n.lemma_node();
    }
    1 + heights::<T, N>(n.children_spec())
}

/// The greatest height among a sequence of subtrees, or 0.
pub open spec fn heights<T, N: TreeNode<T>>(cs: Seq<N>) -> nat
    decreases sizes::<T, N>(cs), 2nat,
{
    if cs.len() == 0 {
        0
    } else {
        proof {
            lemma_sizes::<T, N>(cs);
            lemma_sizes_last::<T, N>(cs);
            assert(cs.last() == cs[cs.len() - 1]);
        }
        let a = heights::<T, N>(cs.drop_last());
        let b = height::<T, N>(cs.last());
        if a < b { b } else { a }
    }
}

/// Breadth-first order: the values of the waiting nodes, each node's children
/// queued behind the nodes already waiting.
pub open spec fn level_order<T, N: TreeNode<T>>(queue: Seq<N>) -> Seq<T>
    decreases sizes::<T, N>(queue),
{
    if queue.len() == 0 {
        Seq::empty()
    } else {
        proof {
            lemma_sizes::<T, N>(queue);
            queue[0].lemma_node();
            lemma_sizes_append::<T, N>(queue.drop_first(), queue[0].children_spec());
            lemma_sizes_append::<T, N>(seq![queue[0]], queue.drop_first());
            assert(seq![queue[0]] + queue.drop_first() =~= queue);
            lemma_sizes_last::<T, N>(seq![queue[0]]);
            assert(seq![queue[0]].drop_last() =~= Seq::<N>::empty());
            assert(sizes::<T, N>(Seq::<N>::empty()) == 0) by {
                assert(Seq::<N>::empty().map_values(|c: N| c.size_spec()) =~= Seq::<nat>::empty());
            }
        }
        seq![queue[0].value_spec()] + level_order::<T, N>(queue.drop_first() + queue[0].children_spec())
    }
}

/// The values of a sequence of nodes, in order.
pub open spec fn values<T, N: TreeNode<T>>(cs: Seq<N>) -> Seq<T> {
    cs.map_values(|c: N| c.value_spec())
}

/// The level below a sequence of nodes: their children, node after node.
pub open spec fn next_level<T, N: TreeNode<T>>(cs: Seq<N>) -> Seq<N>
    decreases cs.len(),
{
    if cs.len() == 0 {
        Seq::empty()
    } else {
        next_level::<T, N>(cs.drop_last()) + cs.last().children_spec()
    }
}

/// The values of `k` levels from `cs` down: the nodes of `cs`, then those one
/// level below, and so on, each level left to right.
pub open spec fn levels<T, N: TreeNode<T>>(cs: Seq<N>, k: nat) -> Seq<T>
    decreases k,
{
    if k == 0 {
        Seq::empty()
    } else {
        values::<T, N>(cs) + levels::<T, N>(next_level::<T, N>(cs), (k - 1) as nat)
    }
}

pub proof fn lemma_next_level_append<T, N: TreeNode<T>>(a: Seq<N>, b: Seq<N>)
    ensures
        next_level::<T, N>(a + b) == next_level::<T, N>(a) + next_level::<T, N>(b),
    decreases b.len(),
{
    if b.len() == 0 {
        assert(a + b =~= a);
        assert(next_level::<T, N>(a) + next_level::<T, N>(b) =~= next_level::<T, N>(a));
    } else {
        lemma_next_level_append::<T, N>(a, b.drop_last());
        assert((a + b).drop_last() =~= a + b.drop_last());
        assert((a + b).last() == b.last());
        assert(next_level::<T, N>(a + b) =~= next_level::<T, N>(a) + next_level::<T, N>(b));
    }
}

/// The level below holds every node of the subtrees but their roots.
pub proof fn lemma_next_level_sizes<T, N: TreeNode<T>>(cs: Seq<N>)
    ensures
        sizes::<T, N>(next_level::<T, N>(cs)) + cs.len() == sizes::<T, N>(cs),
    decreases cs.len(),
{
    if cs.len() == 0 {
        assert(Seq::<N>::empty().map_values(|c: N| c.size_spec()) =~= Seq::<nat>::empty());
        assert(cs =~= Seq::<N>::empty());
    } else {
        let init = cs.drop_last();
        lemma_next_level_sizes::<T, N>(init);
        lemma_sizes_last::<T, N>(cs);
        cs.last().lemma_node();
        lemma_sizes_append::<T, N>(next_level::<T, N>(init), cs.last().children_spec());
    }
}

/// Taking the nodes of `a` from the front of the queue lists their values and
/// queues their children behind `b`.
pub proof fn lemma_level_order_step<T, N: TreeNode<T>>(a: Seq<N>, b: Seq<N>)
    ensures
        level_order::<T, N>(a + b) == values::<T, N>(a) + level_order::<T, N>(b + next_level::<T, N>(a)),
    decreases a.len(),
{
    if a.len() == 0 {
        assert(a + b =~= b);
        assert(next_level::<T, N>(a) =~= Seq::<N>::empty());
        assert(b + next_level::<T, N>(a) =~= b);
        assert(values::<T, N>(a) =~= Seq::<T>::empty());
    } else {
        let a0 = a[0];
        let rest = a.drop_first();
        let q = a + b;
        assert(q[0] == a0);
        assert(q.drop_first() =~= rest + b);
        let b2 = b + a0.children_spec();
        lemma_level_order_step::<T, N>(rest, b2);
        assert(q.drop_first() + a0.children_spec() =~= rest + b2);
        assert(a =~= seq![a0] + rest);
        lemma_next_level_append::<T, N>(seq![a0], rest);
        assert(seq![a0].drop_last() =~= Seq::<N>::empty());
        assert(next_level::<T, N>(Seq::<N>::empty()) =~= Seq::<N>::empty());
        assert(next_level::<T, N>(seq![a0]) =~= a0.children_spec());
        assert(b2 + next_level::<T, N>(rest) =~= b + next_level::<T, N>(a));
        assert(values::<T, N>(a) =~= seq![a0.value_spec()] + values::<T, N>(rest));
    }
}

/// Breadth-first order lists the nodes level by level: first the waiting
/// nodes, then the level below them, and so on, each level left to right.
pub proof fn lemma_level_order_levels<T, N: TreeNode<T>>(cs: Seq<N>, k: nat)
    requires
        k >= sizes::<T, N>(cs),
    ensures
        level_order::<T, N>(cs) == levels::<T, N>(cs, k),
    decreases k,
{
    lemma_sizes::<T, N>(cs);
    if k == 0 {
        assert(cs =~= Seq::<N>::empty());
    } else {
        lemma_level_order_step::<T, N>(cs, Seq::<N>::empty());
        assert(cs + Seq::<N>::empty() =~= cs);
        assert(Seq::<N>::empty() + next_level::<T, N>(cs) =~= next_level::<T, N>(cs));
        lemma_next_level_sizes::<T, N>(cs);
        lemma_level_order_levels::<T, N>(next_level::<T, N>(cs), (k - 1) as nat);
    }
}

/// A subtree in breadth-first order: its root, then the nodes one level down,
/// then two levels down, and so on, each level left to right.
pub proof fn lemma_level_order_by_depth<T, N: TreeNode<T>>(n: N)
    ensures
        level_order::<T, N>(seq![n]) == levels::<T, N>(seq![n], n.size_spec()),
{
    lemma_sizes_last::<T, N>(seq![n]);
    assert(seq![n].drop_last() =~= Seq::<N>::empty());
    assert(sizes::<T, N>(Seq::<N>::empty()) == 0) by {
        assert(Seq::<N>::empty().map_values(|c: N| c.size_spec()) =~= Seq::<nat>::empty());
    }
    lemma_level_order_levels::<T, N>(seq![n], n.size_spec());
}

} // verus!
