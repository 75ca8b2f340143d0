use vstd::prelude::*;
use crate::collection::Collection;
use crate::tree_node::TreeNode;
use crate::general_tree::{GeneralTree, derefs, root_size, root_preorder, root_postorder, root_height,
    root_level_order, max_nat};

verus! {

/// The preorder of one tree.
pub open spec fn tree_preorder<T, G: GeneralTree<T>>(t: G) -> Seq<T> {
    root_preorder::<T, G::Node>(t.root_spec())
}

/// The preorders of the trees, one tree after another.
pub open spec fn forest_preorder<T, G: GeneralTree<T>>(ts: Seq<G>) -> Seq<T>
    decreases ts.len(),
{
    if ts.len() == 0 {
        Seq::empty()
    } else {
        forest_preorder::<T, G>(ts.drop_last()) + root_preorder::<T, G::Node>(ts.last().root_spec())
    }
}

pub open spec fn forest_postorder<T, G: GeneralTree<T>>(ts: Seq<G>) -> Seq<T>
    decreases ts.len(),
{
    if ts.len() == 0 {
        Seq::empty()
    } else {
        forest_postorder::<T, G>(ts.drop_last()) + root_postorder::<T, G::Node>(ts.last().root_spec())
    }
}

pub open spec fn forest_level_order<T, G: GeneralTree<T>>(ts: Seq<G>) -> Seq<T>
    decreases ts.len(),
{
    if ts.len() == 0 {
        Seq::empty()
    } else {
        forest_level_order::<T, G>(ts.drop_last()) + root_level_order::<T, G::Node>(ts.last().root_spec())
    }
}

/// The height of the highest tree, or 0.
pub open spec fn forest_height<T, G: GeneralTree<T>>(ts: Seq<G>) -> nat
    decreases ts.len(),
{
    if ts.len() == 0 {
        0
    } else {
        max_nat(forest_height::<T, G>(ts.drop_last()), root_height::<T, G::Node>(ts.last().root_spec()))
    }
}

/// The height of a forest is that of its highest tree: at least the height of
/// every tree in it, and the height of one of them; 0 when it has no trees.
pub proof fn lemma_forest_height<T, G: GeneralTree<T>>(ts: Seq<G>)
    ensures
        forall|i: int| 0 <= i < ts.len()
            ==> root_height::<T, G::Node>((#[trigger] ts[i]).root_spec()) <= forest_height::<T, G>(ts),
        ts.len() == 0 ==> forest_height::<T, G>(ts) == 0,
        ts.len() > 0 ==> exists|i: int| 0 <= i < ts.len()
            && forest_height::<T, G>(ts) == root_height::<T, G::Node>((#[trigger] ts[i]).root_spec()),
    decreases ts.len(),
{
    if ts.len() > 0 {
        let init = ts.drop_last();
        lemma_forest_height::<T, G>(init);
        let last = ts.len() - 1;
        assert(ts.last() == ts[last]);
        assert forall|i: int| 0 <= i < ts.len()
            implies root_height::<T, G::Node>((#[trigger] ts[i]).root_spec()) <= forest_height::<T, G>(ts) by {
            if i < last {
                assert(init[i] == ts[i]);
            }
        }
        if forest_height::<T, G>(ts) == root_height::<T, G::Node>(ts[last].root_spec()) {
            assert(forest_height::<T, G>(ts) == root_height::<T, G::Node>(ts[last].root_spec()));
        } else {
            let j = choose|j: int| 0 <= j < init.len()
                && forest_height::<T, G>(init) == root_height::<T, G::Node>((#[trigger] init[j]).root_spec());
            assert(init[j] == ts[j]);
            assert(forest_height::<T, G>(ts) == root_height::<T, G::Node>(ts[j].root_spec()));
        }
    }
}

/// Nodes in all the trees.
pub open spec fn forest_size<T, G: GeneralTree<T>>(ts: Seq<G>) -> nat
    decreases ts.len(),
{
    if ts.len() == 0 {
        0
    } else {
        forest_size::<T, G>(ts.drop_last()) + root_size::<T, G::Node>(ts.last().root_spec())
    }
}

/// An ordered sequence of general trees.
pub trait GeneralForest<T>: Collection + Sized {
    type Tree: GeneralTree<T>;

    spec fn trees_spec(&self) -> Seq<Self::Tree>;

    /// The invariant holds of every tree and bounds the number of nodes.
    proof fn lemma_inv(&self)
        requires
            self.inv(),
        ensures
            forall|i: int| 0 <= i < self.trees_spec().len() ==> (#[trigger] self.trees_spec()[i]).inv(),
            forest_size::<T, Self::Tree>(self.trees_spec()) <= usize::MAX,
            self.len_spec() == forest_size::<T, Self::Tree>(self.trees_spec()),
    ;

    /// The invariant holds exactly while every tree keeps its own and the nodes
    /// of all trees can be counted in a `usize`.
    proof fn lemma_inv_bound(&self)
        ensures
            self.inv() <==> (forall|i: int| 0 <= i < self.trees_spec().len() ==> (#[trigger] self.trees_spec()[i]).inv())
                && forest_size::<T, Self::Tree>(self.trees_spec()) <= usize::MAX,
    ;

    fn trees(&self) -> (r: &[Self::Tree])
        ensures
            r@ == self.trees_spec(),
    ;

    fn trees_mut(&mut self) -> (r: &mut [Self::Tree])
        ensures
            r@ == old(self).trees_spec(),
            final(self).trees_spec() == final(r)@,
    ;

    /// Adds a tree at the end; returns its index.
    fn add_tree(&mut self, tree: Self::Tree) -> (r: usize)
        ensures
            r == old(self).trees_spec().len(),
            final(self).trees_spec() == old(self).trees_spec().push(tree),
    ;

    /// Adds a tree of one node holding `value` and returns it.
    fn add_root(&mut self, value: T) -> (r: &mut Self::Tree)
        ensures
            r.root_spec() matches Some(n) && n.value_spec() == value && n.children_spec().len() == 0
                && n.size_spec() == 1,
            final(self).trees_spec() == old(self).trees_spec().push(*final(r)),
    ;

    /// Removes and returns the tree at `index`, if there is one.
    fn remove_tree(&mut self, index: usize) -> (r: Option<Self::Tree>)
        ensures
            index >= old(self).trees_spec().len() ==> r is None
                && final(self).trees_spec() == old(self).trees_spec(),
            index < old(self).trees_spec().len() ==> r == Some(old(self).trees_spec()[index as int])
                && final(self).trees_spec() == old(self).trees_spec().remove(index as int),
    ;

    /// Moves the trees of `other` to the end of this forest.
    fn append(&mut self, other: &mut Self)
        ensures
            final(self).trees_spec() == old(self).trees_spec() + old(other).trees_spec(),
            final(other).trees_spec() == Seq::<Self::Tree>::empty(),
    ;

    fn clear(&mut self)
        ensures
            final(self).trees_spec() == Seq::<Self::Tree>::empty(),
    ;

    fn tree_count(&self) -> (r: usize)
        ensures
            r == self.trees_spec().len(),
    {
        self.trees().len()
    }

    fn get(&self, index: usize) -> (r: Option<&Self::Tree>)
        ensures
            r is Some <==> index < self.trees_spec().len(),
            r matches Some(t) ==> *t == self.trees_spec()[index as int],
    {
        let trees = self.trees();
        if index < trees.len() {
            Some(&trees[index])
        } else {
            None
        }
    }

    fn get_mut(&mut self, index: usize) -> (r: Option<&mut Self::Tree>)
        ensures
            r is Some <==> index < old(self).trees_spec().len(),
            r matches Some(t) ==> *t == old(self).trees_spec()[index as int],
            final(self).trees_spec() == (match r {
                Some(t) => old(self).trees_spec().update(index as int, *final(t)),
                None => old(self).trees_spec(),
            }),
    {
        let trees = self.trees_mut();
        if index < trees.len() {
            Some(&mut trees[index])
        } else {
            None
        }
    }

    /// Height of the highest tree.
    fn height(&self) -> (r: usize)
        requires
            self.inv(),
        ensures
            r == forest_height::<T, Self::Tree>(self.trees_spec()),
            forall|i: int| 0 <= i < self.trees_spec().len()
                ==> root_height::<T, <Self::Tree as GeneralTree<T>>::Node>((#[trigger] self.trees_spec()[i]).root_spec()) <= r,
            self.trees_spec().len() == 0 ==> r == 0,
            self.trees_spec().len() > 0 ==> exists|i: int| 0 <= i < self.trees_spec().len()
                && r == root_height::<T, <Self::Tree as GeneralTree<T>>::Node>((#[trigger] self.trees_spec()[i]).root_spec()),
    {
        proof { self.lemma_inv(); lemma_forest_height::<T, Self::Tree>(self.trees_spec()); }
        let trees = self.trees();
        let mut best: usize = 0;
        let mut i: usize = 0;
        while i < trees.len()
            invariant
                trees@ == self.trees_spec(),
                i <= trees@.len(),
                forall|j: int| 0 <= j < trees@.len() ==> (#[trigger] trees@[j]).inv(),
                best == forest_height::<T, Self::Tree>(trees@.subrange(0, i as int)),
            decreases trees@.len() - i,
        {
            let h = trees[i].height();
            if h > best {
                best = h;
            }
            proof {
                assert(trees@.subrange(0, i + 1).drop_last() =~= trees@.subrange(0, i as int));
            }
            i = i + 1;
        }
        proof { assert(trees@.subrange(0, i as int) =~= trees@); }
        best
    }

    /// Whether `predicate` holds of some value; trees are searched in order.
    fn contains<F>(&self, predicate: F) -> (r: bool)
        where
            F: Fn(&T) -> bool,
        requires
            self.inv(),
            forall|v: &T| predicate.requires((v,)),
        ensures
            r ==> exists|i: int| 0 <= i < forest_preorder::<T, Self::Tree>(self.trees_spec()).len()
                && predicate.ensures((&forest_preorder::<T, Self::Tree>(self.trees_spec())[i],), true),
            !r ==> forall|i: int| 0 <= i < forest_preorder::<T, Self::Tree>(self.trees_spec()).len()
                ==> predicate.ensures((&forest_preorder::<T, Self::Tree>(self.trees_spec())[i],), false),
    {
        proof { self.lemma_inv(); }
        let trees = self.trees();
        let mut i: usize = 0;
        proof { assert(trees@.subrange(0, 0) =~= Seq::<Self::Tree>::empty()); }
        while i < trees.len()
            invariant
                trees@ == self.trees_spec(),
                i <= trees@.len(),
                forall|j: int| 0 <= j < trees@.len() ==> (#[trigger] trees@[j]).inv(),
                forall|v: &T| predicate.requires((v,)),
                forall|k: int| 0 <= k < forest_preorder::<T, Self::Tree>(trees@.subrange(0, i as int)).len()
                    ==> predicate.ensures((&forest_preorder::<T, Self::Tree>(trees@.subrange(0, i as int))[k],), false),
            decreases trees@.len() - i,
        {
            let ghost before = forest_preorder::<T, Self::Tree>(trees@.subrange(0, i as int));
            let ghost tree_values = tree_preorder::<T, Self::Tree>(trees@[i as int]);
            proof {
                assert(trees@.subrange(0, i + 1).drop_last() =~= trees@.subrange(0, i as int));
                lemma_forest_preorder_prefix::<T, Self::Tree>(trees@, i as int + 1);
            }
            let found = trees[i].contains(&predicate);
            if found {
                proof {
                    let k = choose|k: int| 0 <= k < tree_values.len() && #[trigger] predicate.ensures((&tree_values[k],), true);
                    let sub = trees@.subrange(0, i + 1);
                    assert(sub.drop_last() =~= trees@.subrange(0, i as int));
                    assert(sub.last() == trees@[i as int]);
                    assert(forest_preorder::<T, Self::Tree>(sub) == before + tree_values);
                    assert(forest_preorder::<T, Self::Tree>(sub)[before.len() + k] == tree_values[k]);
                    assert(forest_preorder::<T, Self::Tree>(self.trees_spec())[before.len() + k] == tree_values[k]);
                }
                return true;
            }
            proof {
                let after = forest_preorder::<T, Self::Tree>(trees@.subrange(0, i + 1));
                assert(after == before + tree_values);
                assert forall|k: int| 0 <= k < after.len() implies predicate.ensures((&after[k],), false) by {
                    if k < before.len() {
                        assert(after[k] == before[k]);
                    } else {
                        assert(after[k] == tree_values[k - before.len()]);
                    }
                }
            }
            i = i + 1;
        }
        proof { assert(trees@.subrange(0, i as int) =~= trees@); }
        false
    }

    /// The preorders of the trees, one tree after another.
    fn preorder_traverse(&self) -> (r: Vec<&T>)
        requires
            self.inv(),
        ensures
            derefs(r@) == forest_preorder::<T, Self::Tree>(self.trees_spec()),
    {
        proof { self.lemma_inv(); }
        let trees = self.trees();
        let mut values: Vec<&T> = Vec::new();
        let mut i: usize = 0;
        proof { assert(derefs(values@) =~= forest_preorder::<T, Self::Tree>(trees@.subrange(0, 0))); }
        while i < trees.len()
            invariant
                trees@ == self.trees_spec(),
                i <= trees@.len(),
                forall|j: int| 0 <= j < trees@.len() ==> (#[trigger] trees@[j]).inv(),
                derefs(values@) == forest_preorder::<T, Self::Tree>(trees@.subrange(0, i as int)),
            decreases trees@.len() - i,
        {
            let ghost before = values@;
            let mut part = trees[i].preorder_traverse();
            let ghost p = part@;
            values.append(&mut part);
            proof {
                assert(trees@.subrange(0, i + 1).drop_last() =~= trees@.subrange(0, i as int));
                assert(derefs(values@) =~= derefs(before) + derefs(p));
            }
            i = i + 1;
        }
        proof { assert(trees@.subrange(0, i as int) =~= trees@); }
        values
    }

    /// The postorders of the trees, one tree after another.
    fn postorder_traverse(&self) -> (r: Vec<&T>)
        requires
            self.inv(),
        ensures
            derefs(r@) == forest_postorder::<T, Self::Tree>(self.trees_spec()),
    {
        proof { self.lemma_inv(); }
        let trees = self.trees();
        let mut values: Vec<&T> = Vec::new();
        let mut i: usize = 0;
        proof { assert(derefs(values@) =~= forest_postorder::<T, Self::Tree>(trees@.subrange(0, 0))); }
        while i < trees.len()
            invariant
                trees@ == self.trees_spec(),
                i <= trees@.len(),
                forall|j: int| 0 <= j < trees@.len() ==> (#[trigger] trees@[j]).inv(),
                derefs(values@) == forest_postorder::<T, Self::Tree>(trees@.subrange(0, i as int)),
            decreases trees@.len() - i,
        {
            let ghost before = values@;
            let mut part = trees[i].postorder_traverse();
            let ghost p = part@;
            values.append(&mut part);
            proof {
                assert(trees@.subrange(0, i + 1).drop_last() =~= trees@.subrange(0, i as int));
                assert(derefs(values@) =~= derefs(before) + derefs(p));
            }
            i = i + 1;
        }
        proof { assert(trees@.subrange(0, i as int) =~= trees@); }
        values
    }

    /// The level orders of the trees, one tree after another.
    fn level_order_traverse(&self) -> (r: Vec<&T>)
        requires
            self.inv(),
        ensures
            derefs(r@) == forest_level_order::<T, Self::Tree>(self.trees_spec()),
    {
        proof { self.lemma_inv(); }
        let trees = self.trees();
        let mut values: Vec<&T> = Vec::new();
        let mut i: usize = 0;
        proof { assert(derefs(values@) =~= forest_level_order::<T, Self::Tree>(trees@.subrange(0, 0))); }
        while i < trees.len()
            invariant
                trees@ == self.trees_spec(),
                i <= trees@.len(),
                forall|j: int| 0 <= j < trees@.len() ==> (#[trigger] trees@[j]).inv(),
                derefs(values@) == forest_level_order::<T, Self::Tree>(trees@.subrange(0, i as int)),
            decreases trees@.len() - i,
        {
            let ghost before = values@;
            let mut part = trees[i].level_order_traverse();
            let ghost p = part@;
            values.append(&mut part);
            proof {
                assert(trees@.subrange(0, i + 1).drop_last() =~= trees@.subrange(0, i as int));
                assert(derefs(values@) =~= derefs(before) + derefs(p));
            }
            i = i + 1;
        }
        proof { assert(trees@.subrange(0, i as int) =~= trees@); }
        values
    }
}

/// The preorder of the whole forest begins with that of any first trees.
pub proof fn lemma_forest_preorder_prefix<T, G: GeneralTree<T>>(ts: Seq<G>, i: int)
    requires
        0 <= i <= ts.len(),
    ensures
        forest_preorder::<T, G>(ts.subrange(0, i)).len() <= forest_preorder::<T, G>(ts).len(),
        forall|k: int| 0 <= k < forest_preorder::<T, G>(ts.subrange(0, i)).len()
            ==> forest_preorder::<T, G>(ts)[k] == #[trigger] forest_preorder::<T, G>(ts.subrange(0, i))[k],
    decreases ts.len() - i,
{
    if i < ts.len() {
        lemma_forest_preorder_prefix::<T, G>(ts, i + 1);
        let a = ts.subrange(0, i);
        let b = ts.subrange(0, i + 1);
        assert(b.drop_last() =~= a);
        assert(b.last() == ts[i]);
        assert(forest_preorder::<T, G>(b) == forest_preorder::<T, G>(a) + tree_preorder::<T, G>(ts[i]));
        assert forall|k: int| 0 <= k < forest_preorder::<T, G>(a).len()
            implies forest_preorder::<T, G>(ts)[k] == #[trigger] forest_preorder::<T, G>(a)[k] by {
            assert(forest_preorder::<T, G>(b)[k] == forest_preorder::<T, G>(a)[k]);
        }
    } else {
        assert(ts.subrange(0, i) =~= ts);
    }
}

} // verus!
