use vstd::prelude::*;
use std::collections::VecDeque;
use crate::collection::{Collection, TraversalType};
use crate::tree_node::{TreeNode, sizes, lemma_sizes, lemma_sizes_last, lemma_sizes_append, preorder,
    preorder_all, postorder, postorder_all, height, heights, level_order, levels, lemma_level_order_by_depth};

verus! {

/// The values behind a sequence of references.
pub open spec fn derefs<T>(s: Seq<&T>) -> Seq<T> {
    s.map_values(|x: &T| *x)
}

/// The nodes behind a sequence of references.
pub open spec fn deref_nodes<N>(s: Seq<&N>) -> Seq<N> {
    s.map_values(|x: &N| *x)
}

pub open spec fn root_size<T, N: TreeNode<T>>(root: Option<N>) -> nat {
    match root { Some(n) => n.size_spec(), None => 0 }
}

pub open spec fn root_preorder<T, N: TreeNode<T>>(root: Option<N>) -> Seq<T> {
    match root { Some(n) => preorder::<T, N>(n), None => Seq::empty() }
}

pub open spec fn root_postorder<T, N: TreeNode<T>>(root: Option<N>) -> Seq<T> {
    match root { Some(n) => postorder::<T, N>(n), None => Seq::empty() }
}

pub open spec fn root_height<T, N: TreeNode<T>>(root: Option<N>) -> nat {
    match root { Some(n) => height::<T, N>(n), None => 0 }
}

pub open spec fn root_level_order<T, N: TreeNode<T>>(root: Option<N>) -> Seq<T> {
    match root { Some(n) => level_order::<T, N>(seq![n]), None => Seq::empty() }
}

/// The preorders of the stacked subtrees, top of the stack first.
pub open spec fn stack_preorder<T, N: TreeNode<T>>(st: Seq<&N>) -> Seq<T>
    decreases st.len(),
{
    if st.len() == 0 {
        Seq::empty()
    } else {
        preorder::<T, N>(*st.last()) + stack_preorder::<T, N>(st.drop_last())
    }
}

/// Nodes in the stacked subtrees.
pub open spec fn stack_size<T, N: TreeNode<T>>(st: Seq<&N>) -> nat
    decreases st.len(),
{
    if st.len() == 0 {
        0
    } else {
        st.last().size_spec() + stack_size::<T, N>(st.drop_last())
    }
}

/// What the stack of the postorder walk still yields, top first: a visited
/// node its value, another its subtree's postorder.
pub open spec fn stack_postorder<T, N: TreeNode<T>>(st: Seq<(&N, bool)>) -> Seq<T>
    decreases st.len(),
{
    if st.len() == 0 {
        Seq::empty()
    } else {
        let (n, visited) = st.last();
        (if visited { seq![n.value_spec()] } else { postorder::<T, N>(*n) })
            + stack_postorder::<T, N>(st.drop_last())
    }
}

pub open spec fn stack_post_work<T, N: TreeNode<T>>(st: Seq<(&N, bool)>) -> nat
    decreases st.len(),
{
    if st.len() == 0 {
        0
    } else {
        let (n, visited) = st.last();
        (if visited { 1 } else { 2 * n.size_spec() }) + stack_post_work::<T, N>(st.drop_last())
    }
}

/// The deepest level the stacked subtrees reach.
pub open spec fn stack_reach<T, N: TreeNode<T>>(st: Seq<(&N, usize)>) -> nat
    decreases st.len(),
{
    if st.len() == 0 {
        0
    } else {
        let (n, d) = st.last();
        let a = (d + height::<T, N>(*n) - 1) as nat;
        let b = stack_reach::<T, N>(st.drop_last());
        if a < b { b } else { a }
    }
}

pub open spec fn stack_depth_work<T, N: TreeNode<T>>(st: Seq<(&N, usize)>) -> nat
    decreases st.len(),
{
    if st.len() == 0 {
        0
    } else {
        st.last().0.size_spec() + stack_depth_work::<T, N>(st.drop_last())
    }
}

/// The preorder of a sequence with one subtree in front.
pub proof fn lemma_preorder_front<T, N: TreeNode<T>>(c: N, cs: Seq<N>)
    ensures
        preorder_all::<T, N>(seq![c] + cs) == preorder::<T, N>(c) + preorder_all::<T, N>(cs),
    decreases cs.len(),
{
    if cs.len() == 0 {
        assert(seq![c] + cs =~= seq![c]);
        assert(seq![c].drop_last() =~= Seq::<N>::empty());
        assert(seq![c].last() == c);
        assert(preorder_all::<T, N>(Seq::<N>::empty()) == Seq::<T>::empty());
        assert(preorder_all::<T, N>(seq![c]) == preorder_all::<T, N>(seq![c].drop_last()) + preorder::<T, N>(seq![c].last()));
        assert(preorder_all::<T, N>(seq![c]) =~= preorder::<T, N>(c));
    } else {
        lemma_preorder_front::<T, N>(c, cs.drop_last());
        assert((seq![c] + cs).drop_last() =~= seq![c] + cs.drop_last());
        assert(preorder_all::<T, N>(seq![c] + cs) =~= preorder::<T, N>(c) + preorder_all::<T, N>(cs));
    }
}

pub proof fn lemma_postorder_front<T, N: TreeNode<T>>(c: N, cs: Seq<N>)
    ensures
        postorder_all::<T, N>(seq![c] + cs) == postorder::<T, N>(c) + postorder_all::<T, N>(cs),
    decreases cs.len(),
{
    if cs.len() == 0 {
        assert(seq![c] + cs =~= seq![c]);
        assert(seq![c].drop_last() =~= Seq::<N>::empty());
        assert(seq![c].last() == c);
        assert(postorder_all::<T, N>(Seq::<N>::empty()) == Seq::<T>::empty());
        assert(postorder_all::<T, N>(seq![c]) == postorder_all::<T, N>(seq![c].drop_last()) + postorder::<T, N>(seq![c].last()));
        assert(postorder_all::<T, N>(seq![c]) =~= postorder::<T, N>(c));
    } else {
        lemma_postorder_front::<T, N>(c, cs.drop_last());
        assert((seq![c] + cs).drop_last() =~= seq![c] + cs.drop_last());
        assert(postorder_all::<T, N>(seq![c] + cs) =~= postorder::<T, N>(c) + postorder_all::<T, N>(cs));
    }
}

/// A subtree is no taller than it has nodes.
pub proof fn lemma_height_size<T, N: TreeNode<T>>(n: N)
    ensures
        1 <= height::<T, N>(n) <= n.size_spec(),
    decreases n.size_spec(), 1nat,
{
    n.lemma_node();
    lemma_heights_sizes::<T, N>(n.children_spec());
}

pub proof fn lemma_heights_sizes<T, N: TreeNode<T>>(cs: Seq<N>)
    ensures
        heights::<T, N>(cs) <= sizes::<T, N>(cs),
    decreases sizes::<T, N>(cs), 2nat,
{
    if cs.len() > 0 {
        lemma_sizes::<T, N>(cs);
        lemma_sizes_last::<T, N>(cs);
        assert(cs.last() == cs[cs.len() - 1]);
        lemma_heights_sizes::<T, N>(cs.drop_last());
        lemma_height_size::<T, N>(cs.last());
    }
}

/// Every traversal visits each node once: the preorder and the postorder of
/// a subtree hold as many values as it has nodes.
pub proof fn lemma_traversal_lengths<T, N: TreeNode<T>>(n: N)
    ensures
        preorder::<T, N>(n).len() == n.size_spec(),
        postorder::<T, N>(n).len() == n.size_spec(),
    decreases n.size_spec(), 1nat,
{
    n.lemma_node();
    lemma_traversal_lengths_all::<T, N>(n.children_spec());
}

proof fn lemma_traversal_lengths_all<T, N: TreeNode<T>>(cs: Seq<N>)
    ensures
        preorder_all::<T, N>(cs).len() == sizes::<T, N>(cs),
        postorder_all::<T, N>(cs).len() == sizes::<T, N>(cs),
    decreases sizes::<T, N>(cs), 2nat,
{
    if cs.len() > 0 {
        lemma_sizes::<T, N>(cs);
        lemma_sizes_last::<T, N>(cs);
        assert(cs.last() == cs[cs.len() - 1]);
        lemma_traversal_lengths_all::<T, N>(cs.drop_last());
        lemma_traversal_lengths::<T, N>(cs.last());
    }
}

/// Breadth-first order visits each waiting subtree's nodes once.
pub proof fn lemma_level_order_len<T, N: TreeNode<T>>(queue: Seq<N>)
    ensures
        level_order::<T, N>(queue).len() == sizes::<T, N>(queue),
    decreases sizes::<T, N>(queue),
{
    if queue.len() > 0 {
        let q0 = queue[0];
        let rest = queue.drop_first();
        lemma_sizes::<T, N>(queue);
        q0.lemma_node();
        lemma_sizes_append::<T, N>(rest, q0.children_spec());
        lemma_sizes_append::<T, N>(seq![q0], rest);
        assert(seq![q0] + rest =~= queue);
        lemma_sizes_last::<T, N>(seq![q0]);
        assert(seq![q0].drop_last() =~= Seq::<N>::empty());
        assert(sizes::<T, N>(Seq::<N>::empty()) == 0) by {
            assert(Seq::<N>::empty().map_values(|c: N| c.size_spec()) =~= Seq::<nat>::empty());
        }
        lemma_level_order_len::<T, N>(rest + q0.children_spec());
    }
}

/// A tree's length is the number of values each of its traversals gives.
pub proof fn lemma_len_is_traversal_len<T, G: GeneralTree<T>>(tree: &G)
    requires
        tree.inv(),
    ensures
        root_preorder::<T, G::Node>(tree.root_spec()).len() == tree.len_spec(),
        root_postorder::<T, G::Node>(tree.root_spec()).len() == tree.len_spec(),
        root_level_order::<T, G::Node>(tree.root_spec()).len() == tree.len_spec(),
{
    tree.lemma_inv();
    if let Some(n) = tree.root_spec() {
        lemma_traversal_lengths::<T, G::Node>(n);
        lemma_level_order_len::<T, G::Node>(seq![n]);
        lemma_sizes_last::<T, G::Node>(seq![n]);
        assert(seq![n].drop_last() =~= Seq::<G::Node>::empty());
        assert(sizes::<T, G::Node>(Seq::<G::Node>::empty()) == 0) by {
            assert(Seq::<G::Node>::empty().map_values(|c: G::Node| c.size_spec()) =~= Seq::<nat>::empty());
        }
    }
}

/// A tree whose nodes have any number of ordered children.
pub trait GeneralTree<T>: Collection + Sized {
    type Node: TreeNode<T>;

    spec fn root_spec(&self) -> Option<Self::Node>;

    /// The invariant bounds the number of nodes.
    proof fn lemma_inv(&self)
        requires
            self.inv(),
        ensures
            root_size::<T, Self::Node>(self.root_spec()) <= usize::MAX,
            self.len_spec() == root_size::<T, Self::Node>(self.root_spec()),
    ;

    /// The invariant holds exactly while the nodes can be counted in a `usize`,
    /// so a tree built through `root_mut` and the nodes' own methods, whose
    /// sizes they report, keeps it while it stays that small.
    proof fn lemma_inv_bound(&self)
        ensures
            self.inv() <==> root_size::<T, Self::Node>(self.root_spec()) <= usize::MAX,
    ;

    fn root(&self) -> (r: Option<&Self::Node>)
        ensures
            r is Some <==> self.root_spec() is Some,
            r matches Some(n) ==> *n == self.root_spec()->0,
    ;

    fn root_mut(&mut self) -> (r: Option<&mut Self::Node>)
        ensures
            r is Some <==> old(self).root_spec() is Some,
            r matches Some(n) ==> *n == old(self).root_spec()->0,
            final(self).root_spec() == (match r { Some(n) => Some(*final(n)), None => None }),
    ;

    /// Puts `root` in place of the root; returns the old one.
    fn replace_root(&mut self, root: Self::Node) -> (r: Option<Self::Node>)
        ensures
            r == old(self).root_spec(),
            final(self).root_spec() == Some(root),
    ;

    /// Takes the whole tree out, leaving it empty.
    fn take_root(&mut self) -> (r: Option<Self::Node>)
        ensures
            r == old(self).root_spec(),
            final(self).root_spec() is None,
            final(self).inv(),
    ;

    fn clear(&mut self)
        ensures
            final(self).root_spec() is None,
            final(self).inv(),
    ;

    /// Nodes on the longest path from the root down.
    fn height(&self) -> (r: usize)
        requires
            self.inv(),
        ensures
            r == root_height::<T, Self::Node>(self.root_spec()),
    {
        proof { self.lemma_inv(); }
        let ghost h = root_height::<T, Self::Node>(self.root_spec());
        let mut result: usize = 0;
        let mut stack: Vec<(&Self::Node, usize)> = Vec::new();
        if let Some(root) = self.root() {
            proof { lemma_height_size::<T, Self::Node>(*root); }
            stack.push((root, 1));
            proof {
                assert(stack@.drop_last() =~= Seq::<(&Self::Node, usize)>::empty());
                assert(stack@.last() == (root, 1usize));
                assert(stack_reach::<T, Self::Node>(Seq::<(&Self::Node, usize)>::empty()) == 0);
                assert(stack_reach::<T, Self::Node>(stack@) == h);
            }
        } else {
            assert(stack_reach::<T, Self::Node>(stack@) == 0);
        }
        while stack.len() > 0
            invariant
                h == root_height::<T, Self::Node>(self.root_spec()),
                h <= usize::MAX,
                result <= h,
                forall|i: int| 0 <= i < stack@.len() ==> (#[trigger] stack@[i]).1 >= 1
                    && stack@[i].1 + height::<T, Self::Node>(*stack@[i].0) - 1 <= h,
                max_nat(result as nat, stack_reach::<T, Self::Node>(stack@)) == h,
            decreases stack_depth_work::<T, Self::Node>(stack@),
        {
            let ghost before = stack@;
            let (node, depth) = stack.pop().unwrap();
            proof {
                assert(before == stack@.push((node, depth)));
                assert(before.drop_last() =~= stack@);
                assert(before[before.len() - 1] == (node, depth));
                node.lemma_node();
                assert(stack_depth_work::<T, Self::Node>(before)
                    == node.size_spec() + stack_depth_work::<T, Self::Node>(stack@));
            }
            if depth > result {
                result = depth;
            }
            let children = node.children();
            let n = children.len();
            let ghost cs = children@;
            let ghost base = stack@;
            let mut i: usize = 0;
            proof {
                lemma_sizes::<T, Self::Node>(cs);
                assert(cs.subrange(0, 0) =~= Seq::<Self::Node>::empty());
                assert(sizes::<T, Self::Node>(Seq::<Self::Node>::empty()) == 0) by {
                    assert(Seq::<Self::Node>::empty().map_values(|c: Self::Node| c.size_spec()) =~= Seq::<nat>::empty());
                }
            }
            while i < n
                invariant
                    cs == children@,
                    cs == node.children_spec(),
                    n == cs.len(),
                    i <= n,
                    h <= usize::MAX,
                    1 <= depth <= result,
                    depth + heights::<T, Self::Node>(cs) <= h,
                    base.len() <= stack@.len(),
                    forall|j: int| 0 <= j < stack@.len() ==> (#[trigger] stack@[j]).1 >= 1
                        && stack@[j].1 + height::<T, Self::Node>(*stack@[j].0) - 1 <= h,
                    stack_depth_work::<T, Self::Node>(stack@)
                        == stack_depth_work::<T, Self::Node>(base) + sizes::<T, Self::Node>(cs.subrange(0, i as int)),
                    max_nat(result as nat, stack_reach::<T, Self::Node>(stack@))
                        == max_nat(result as nat, max_nat(stack_reach::<T, Self::Node>(base),
                            (depth + heights::<T, Self::Node>(cs.subrange(0, i as int))) as nat)),
                decreases n - i,
            {
                let child = &children[i];
                let ghost prev = stack@;
                proof {
                    lemma_sizes::<T, Self::Node>(cs);
                    lemma_heights_le::<T, Self::Node>(cs, i as int);
                    lemma_height_size::<T, Self::Node>(*child);
                    let sub = cs.subrange(0, i + 1);
                    assert(sub.drop_last() =~= cs.subrange(0, i as int));
                    assert(sub.last() == cs[i as int]);
                    lemma_sizes_last::<T, Self::Node>(sub);
                    lemma_sizes::<T, Self::Node>(sub);
                }
                stack.push((child, depth + 1));
                proof {
                    assert(stack@.drop_last() =~= prev);
                    assert(stack@.last() == (child, (depth + 1) as usize));
                }
                i = i + 1;
            }
            proof {
                assert(cs.subrange(0, n as int) =~= cs);
                lemma_sizes::<T, Self::Node>(cs);
            }
        }
        result
    }

    /// Whether `predicate` holds of some value; values are tried in preorder
    /// and the search stops at the first that passes.
    fn contains<F>(&self, predicate: F) -> (r: bool)
        where
            F: Fn(&T) -> bool,
        requires
            self.inv(),
            forall|v: &T| predicate.requires((v,)),
        ensures
            r ==> exists|i: int| 0 <= i < root_preorder::<T, Self::Node>(self.root_spec()).len()
                && predicate.ensures((&root_preorder::<T, Self::Node>(self.root_spec())[i],), true),
            !r ==> forall|i: int| 0 <= i < root_preorder::<T, Self::Node>(self.root_spec()).len()
                ==> predicate.ensures((&root_preorder::<T, Self::Node>(self.root_spec())[i],), false),
    {
        let ghost total = root_preorder::<T, Self::Node>(self.root_spec());
        let mut stack: Vec<&Self::Node> = Vec::new();
        let ghost mut seen: Seq<T> = Seq::empty();
        if let Some(root) = self.root() {
            stack.push(root);
            proof { lemma_stack_preorder_push::<T, Self::Node>(Seq::empty(), root); }
        } else {
            proof { assert(stack_preorder::<T, Self::Node>(stack@) =~= Seq::<T>::empty()); }
        }
        proof { assert(seen + stack_preorder::<T, Self::Node>(stack@) =~= total); }
        while stack.len() > 0
            invariant
                total == root_preorder::<T, Self::Node>(self.root_spec()),
                seen + stack_preorder::<T, Self::Node>(stack@) == total,
                forall|v: &T| predicate.requires((v,)),
                forall|i: int| 0 <= i < seen.len() ==> predicate.ensures((&seen[i],), false),
            decreases stack_size::<T, Self::Node>(stack@),
        {
            let ghost before = stack@;
            let node = stack.pop().unwrap();
            proof {
                lemma_stack_preorder_pop::<T, Self::Node>(before);
                assert(before.drop_last() =~= stack@);
                node.lemma_node();
            }
            if predicate(node.value()) {
                proof { assert(total[seen.len() as int] == node.value_spec()); }
                return true;
            }
            proof { seen = seen.push(node.value_spec()); }
            push_children_reversed::<T, Self::Node>(&mut stack, node);
            proof {
                assert(seen + stack_preorder::<T, Self::Node>(stack@) =~= total);
            }
        }
        proof { assert(stack_preorder::<T, Self::Node>(stack@) =~= Seq::<T>::empty()); }
        false
    }

    /// Each value before its children's subtrees, children in order.
    fn preorder_traverse(&self) -> (r: Vec<&T>)
        requires
            self.inv(),
        ensures
            derefs(r@) == root_preorder::<T, Self::Node>(self.root_spec()),
    {
        let ghost total = root_preorder::<T, Self::Node>(self.root_spec());
        let mut values: Vec<&T> = Vec::new();
        let mut stack: Vec<&Self::Node> = Vec::new();
        if let Some(root) = self.root() {
            stack.push(root);
            proof { lemma_stack_preorder_push::<T, Self::Node>(Seq::empty(), root); }
        } else {
            proof { assert(stack_preorder::<T, Self::Node>(stack@) =~= Seq::<T>::empty()); }
        }
        proof { assert(derefs(values@) + stack_preorder::<T, Self::Node>(stack@) =~= total); }
        while stack.len() > 0
            invariant
                total == root_preorder::<T, Self::Node>(self.root_spec()),
                derefs(values@) + stack_preorder::<T, Self::Node>(stack@) == total,
            decreases stack_size::<T, Self::Node>(stack@),
        {
            let ghost before = stack@;
            let ghost old_values = values@;
            let node = stack.pop().unwrap();
            proof {
                lemma_stack_preorder_pop::<T, Self::Node>(before);
                assert(before.drop_last() =~= stack@);
                node.lemma_node();
            }
            values.push(node.value());
            push_children_reversed::<T, Self::Node>(&mut stack, node);
            proof {
                assert(derefs(values@) =~= derefs(old_values).push(node.value_spec()));
                assert(derefs(values@) + stack_preorder::<T, Self::Node>(stack@) =~= total);
            }
        }
        proof { assert(stack_preorder::<T, Self::Node>(stack@) =~= Seq::<T>::empty()); assert(derefs(values@) =~= total); }
        values
    }

    /// Each value after its children's subtrees, children in order.
    fn postorder_traverse(&self) -> (r: Vec<&T>)
        requires
            self.inv(),
        ensures
            derefs(r@) == root_postorder::<T, Self::Node>(self.root_spec()),
    {
        let ghost total = root_postorder::<T, Self::Node>(self.root_spec());
        let mut values: Vec<&T> = Vec::new();
        let mut stack: Vec<(&Self::Node, bool)> = Vec::new();
        if let Some(root) = self.root() {
            stack.push((root, false));
            proof {
                assert(stack@.drop_last() =~= Seq::<(&Self::Node, bool)>::empty());
                assert(stack@.last() == (root, false));
                assert(stack_postorder::<T, Self::Node>(Seq::<(&Self::Node, bool)>::empty()) == Seq::<T>::empty());
                assert(stack_postorder::<T, Self::Node>(stack@) =~= postorder::<T, Self::Node>(*root));
            }
        } else {
            proof { assert(stack_postorder::<T, Self::Node>(stack@) =~= Seq::<T>::empty()); }
        }
        proof { assert(derefs(values@) + stack_postorder::<T, Self::Node>(stack@) =~= total); }
        while stack.len() > 0
            invariant
                total == root_postorder::<T, Self::Node>(self.root_spec()),
                derefs(values@) + stack_postorder::<T, Self::Node>(stack@) == total,
            decreases stack_post_work::<T, Self::Node>(stack@),
        {
            let ghost before = stack@;
            let ghost old_values = values@;
            let (node, visited) = stack.pop().unwrap();
            proof {
                assert(before.drop_last() =~= stack@);
                assert(before.last() == (node, visited));
                node.lemma_node();
            }
            if visited {
                values.push(node.value());
                proof {
                    assert(derefs(values@) =~= derefs(old_values).push(node.value_spec()));
                    assert(derefs(values@) + stack_postorder::<T, Self::Node>(stack@) =~= total);
                }
            } else {
                let ghost base = stack@;
                stack.push((node, true));
                proof { assert(stack@.drop_last() =~= base); }
                let children = node.children();
                let n = children.len();
                let ghost cs = children@;
                let ghost mid = stack@;
                let mut i = n;
                proof {
                    assert(cs.subrange(n as int, n as int) =~= Seq::<Self::Node>::empty());
                    assert(postorder_all::<T, Self::Node>(Seq::<Self::Node>::empty()) =~= Seq::<T>::empty());
                    assert(sizes::<T, Self::Node>(Seq::<Self::Node>::empty()) == 0) by {
                        assert(Seq::<Self::Node>::empty().map_values(|c: Self::Node| c.size_spec()) =~= Seq::<nat>::empty());
                    }
                    assert(stack_postorder::<T, Self::Node>(mid) == seq![node.value_spec()] + stack_postorder::<T, Self::Node>(base));
                }
                while i > 0
                    invariant
                        cs == children@,
                        n == cs.len(),
                        i <= n,
                        stack_postorder::<T, Self::Node>(stack@)
                            == postorder_all::<T, Self::Node>(cs.subrange(i as int, n as int)) + stack_postorder::<T, Self::Node>(mid),
                        stack_post_work::<T, Self::Node>(stack@)
                            == 2 * sizes::<T, Self::Node>(cs.subrange(i as int, n as int)) + stack_post_work::<T, Self::Node>(mid),
                    decreases i,
                {
                    i = i - 1;
                    let child = &children[i];
                    let ghost prev = stack@;
                    stack.push((child, false));
                    proof {
                        assert(stack@.drop_last() =~= prev);
                        assert(stack@.last() == (child, false));
                        let rest = cs.subrange(i + 1, n as int);
                        assert(seq![cs[i as int]] + rest =~= cs.subrange(i as int, n as int));
                        lemma_postorder_front::<T, Self::Node>(cs[i as int], rest);
                        lemma_sizes_append::<T, Self::Node>(seq![cs[i as int]], rest);
                        lemma_sizes_last::<T, Self::Node>(seq![cs[i as int]]);
                        assert(seq![cs[i as int]].drop_last() =~= Seq::<Self::Node>::empty());
                        assert(sizes::<T, Self::Node>(Seq::<Self::Node>::empty()) == 0) by {
                            assert(Seq::<Self::Node>::empty().map_values(|c: Self::Node| c.size_spec()) =~= Seq::<nat>::empty());
                        }
                    }
                }
                proof {
                    assert(cs.subrange(0, n as int) =~= cs);
                    assert(derefs(values@) + stack_postorder::<T, Self::Node>(stack@) =~= total);
                }
            }
        }
        proof { assert(stack_postorder::<T, Self::Node>(stack@) =~= Seq::<T>::empty()); assert(derefs(values@) =~= total); }
        values
    }

    /// Values level by level, each level from left to right.
    fn level_order_traverse(&self) -> (r: Vec<&T>)
        requires
            self.inv(),
        ensures
            derefs(r@) == root_level_order::<T, Self::Node>(self.root_spec()),
            self.root_spec() is Some ==> derefs(r@) == levels::<T, Self::Node>(seq![self.root_spec()->0],
                self.root_spec()->0.size_spec()),
    {
        proof {
            if let Some(n) = self.root_spec() {
                lemma_level_order_by_depth::<T, Self::Node>(n);
            }
        }
        let ghost total = root_level_order::<T, Self::Node>(self.root_spec());
        let mut values: Vec<&T> = Vec::new();
        let mut queue: VecDeque<&Self::Node> = VecDeque::new();
        if let Some(root) = self.root() {
            queue.push_back(root);
            proof { assert(deref_nodes(queue@) =~= seq![*root]); }
        } else {
            proof {
                assert(deref_nodes(queue@) =~= Seq::<Self::Node>::empty());
                assert(level_order::<T, Self::Node>(Seq::<Self::Node>::empty()) =~= Seq::<T>::empty());
            }
        }
        proof { assert(derefs(values@) + level_order::<T, Self::Node>(deref_nodes(queue@)) =~= total); }
        loop
            invariant
                total == root_level_order::<T, Self::Node>(self.root_spec()),
                derefs(values@) + level_order::<T, Self::Node>(deref_nodes(queue@)) == total,
            ensures
                derefs(values@) == total,
            decreases sizes::<T, Self::Node>(deref_nodes(queue@)),
        {
            let ghost q = deref_nodes(queue@);
            let ghost old_values = values@;
            let node = match queue.pop_front() {
                Some(node) => node,
                None => {
                    proof {
                        assert(q =~= Seq::<Self::Node>::empty());
                        assert(derefs(values@) =~= total);
                    }
                    break;
                }
            };
            proof {
                assert(q[0] == *node);
                assert(deref_nodes(queue@) =~= q.drop_first());
                node.lemma_node();
                lemma_sizes::<T, Self::Node>(q);
                lemma_sizes_append::<T, Self::Node>(q.drop_first(), q[0].children_spec());
                lemma_sizes_append::<T, Self::Node>(seq![q[0]], q.drop_first());
                assert(seq![q[0]] + q.drop_first() =~= q);
                lemma_sizes_last::<T, Self::Node>(seq![q[0]]);
                assert(seq![q[0]].drop_last() =~= Seq::<Self::Node>::empty());
                assert(sizes::<T, Self::Node>(Seq::<Self::Node>::empty()) == 0) by {
                    assert(Seq::<Self::Node>::empty().map_values(|c: Self::Node| c.size_spec()) =~= Seq::<nat>::empty());
                }
            }
            values.push(node.value());
            let children = node.children();
            let n = children.len();
            let ghost cs = children@;
            let ghost base = deref_nodes(queue@);
            let mut i: usize = 0;
            proof { assert(cs.subrange(0, 0) =~= Seq::<Self::Node>::empty()); }
            while i < n
                invariant
                    cs == children@,
                    n == cs.len(),
                    i <= n,
                    deref_nodes(queue@) == base + cs.subrange(0, i as int),
                decreases n - i,
            {
                let ghost prev = queue@;
                queue.push_back(&children[i]);
                proof {
                    assert(deref_nodes(queue@) =~= deref_nodes(prev).push(cs[i as int]));
                    assert(cs.subrange(0, i + 1) =~= cs.subrange(0, i as int).push(cs[i as int]));
                }
                i = i + 1;
            }
            proof {
                assert(cs.subrange(0, n as int) =~= cs);
                assert(derefs(values@) =~= derefs(old_values).push(node.value_spec()));
                assert(derefs(values@) + level_order::<T, Self::Node>(deref_nodes(queue@)) =~= total);
            }
        }
        values
    }

    /// The values in the order asked for; a general tree has no in-order.
    fn traverse(&self, traversal_type: TraversalType) -> (r: Option<Vec<&T>>)
        requires
            self.inv(),
        ensures
            traversal_type is InOrder ==> r is None,
            traversal_type is LevelOrder ==> (r matches Some(v) && derefs(v@) == root_level_order::<T, Self::Node>(self.root_spec())),
            traversal_type is PostOrder ==> (r matches Some(v) && derefs(v@) == root_postorder::<T, Self::Node>(self.root_spec())),
            traversal_type is PreOrder ==> (r matches Some(v) && derefs(v@) == root_preorder::<T, Self::Node>(self.root_spec())),
    {
        match traversal_type {
            TraversalType::InOrder => None,
            TraversalType::LevelOrder => Some(self.level_order_traverse()),
            TraversalType::PostOrder => Some(self.postorder_traverse()),
            TraversalType::PreOrder => Some(self.preorder_traverse()),
        }
    }
}

/// Pushes the children of `node`, last first, so the first comes off the stack first.
fn push_children_reversed<'a, T, N: TreeNode<T>>(stack: &mut Vec<&'a N>, node: &'a N)
    ensures
        stack_preorder::<T, N>(final(stack)@)
            == preorder_all::<T, N>(node.children_spec()) + stack_preorder::<T, N>(old(stack)@),
        stack_size::<T, N>(final(stack)@)
            == sizes::<T, N>(node.children_spec()) + stack_size::<T, N>(old(stack)@),
{
    let children = node.children();
    let n = children.len();
    let ghost cs = children@;
    let ghost base = stack@;
    let mut i = n;
    proof {
        assert(cs.subrange(n as int, n as int) =~= Seq::<N>::empty());
        assert(preorder_all::<T, N>(Seq::<N>::empty()) =~= Seq::<T>::empty());
        assert(sizes::<T, N>(Seq::<N>::empty()) == 0) by {
            assert(Seq::<N>::empty().map_values(|c: N| c.size_spec()) =~= Seq::<nat>::empty());
        }
    }
    while i > 0
        invariant
            cs == children@,
            n == cs.len(),
            i <= n,
            stack_preorder::<T, N>(stack@)
                == preorder_all::<T, N>(cs.subrange(i as int, n as int)) + stack_preorder::<T, N>(base),
            stack_size::<T, N>(stack@)
                == sizes::<T, N>(cs.subrange(i as int, n as int)) + stack_size::<T, N>(base),
        decreases i,
    {
        i = i - 1;
        let child = &children[i];
        let ghost prev = stack@;
        stack.push(child);
        proof {
            lemma_stack_preorder_push::<T, N>(prev, child);
            let rest = cs.subrange(i + 1, n as int);
            assert(seq![cs[i as int]] + rest =~= cs.subrange(i as int, n as int));
            lemma_preorder_front::<T, N>(cs[i as int], rest);
            lemma_sizes_append::<T, N>(seq![cs[i as int]], rest);
            lemma_sizes_last::<T, N>(seq![cs[i as int]]);
            assert(seq![cs[i as int]].drop_last() =~= Seq::<N>::empty());
            assert(sizes::<T, N>(Seq::<N>::empty()) == 0) by {
                assert(Seq::<N>::empty().map_values(|c: N| c.size_spec()) =~= Seq::<nat>::empty());
            }
        }
    }
    proof { assert(cs.subrange(0, n as int) =~= cs); }
}

/// Pushing a node puts its preorder in front.
pub proof fn lemma_stack_preorder_push<T, N: TreeNode<T>>(st: Seq<&N>, n: &N)
    ensures
        stack_preorder::<T, N>(st.push(n)) == preorder::<T, N>(*n) + stack_preorder::<T, N>(st),
        stack_size::<T, N>(st.push(n)) == n.size_spec() + stack_size::<T, N>(st),
{
    assert(st.push(n).drop_last() =~= st);
}

/// Popping the top node takes its preorder off the front.
pub proof fn lemma_stack_preorder_pop<T, N: TreeNode<T>>(st: Seq<&N>)
    requires
        st.len() > 0,
    ensures
        stack_preorder::<T, N>(st) == preorder::<T, N>(*st.last()) + stack_preorder::<T, N>(st.drop_last()),
        stack_size::<T, N>(st) == st.last().size_spec() + stack_size::<T, N>(st.drop_last()),
        preorder::<T, N>(*st.last()) == seq![st.last().value_spec()] + preorder_all::<T, N>(st.last().children_spec()),
{
}

pub open spec fn max_nat(a: nat, b: nat) -> nat {
    if a < b { b } else { a }
}

/// Each subtree of a sequence is at most as high as the highest.
pub proof fn lemma_heights_le<T, N: TreeNode<T>>(cs: Seq<N>, i: int)
    requires
        0 <= i < cs.len(),
    ensures
        height::<T, N>(cs[i]) <= heights::<T, N>(cs),
        heights::<T, N>(cs.subrange(0, i + 1)) == max_nat(heights::<T, N>(cs.subrange(0, i)), height::<T, N>(cs[i])),
    decreases cs.len(),
{
    let sub = cs.subrange(0, i + 1);
    assert(sub.drop_last() =~= cs.subrange(0, i));
    assert(sub.last() == cs[i]);
    if i < cs.len() - 1 {
        lemma_heights_le::<T, N>(cs.drop_last(), i);
        assert(cs.drop_last()[i] == cs[i]);
        assert(cs.drop_last().subrange(0, i + 1) =~= sub);
        assert(cs.drop_last().subrange(0, i) =~= cs.subrange(0, i));
    }
}

} // verus!
