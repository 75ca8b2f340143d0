use vstd::prelude::*;
use crate::collection::Collection;
use crate::general_tree::{GeneralTree, root_size};
use crate::general_forest::{GeneralForest, forest_size};
use crate::tree::{Tree, Node};

verus! {

/// An ordered sequence of general trees.
#[derive(Debug)]
pub struct Forest<T> {
    trees: Vec<Tree<T>>,
}

impl<T> Forest<T> {
    pub fn new() -> (r: Self)
        ensures
            r.inv(),
            r.trees_spec() == Seq::<Tree<T>>::empty(),
    {
        let r = Self { trees: Vec::new() };
        proof { assert(forest_size::<T, Tree<T>>(r.trees@) == 0); }
        r
    }
}

impl<T> Collection for Forest<T> {
    closed spec fn inv(&self) -> bool {
        &&& forall|i: int| 0 <= i < self.trees@.len() ==> (#[trigger] self.trees@[i]).inv()
        &&& forest_size::<T, Tree<T>>(self.trees@) <= usize::MAX
    }

    closed spec fn len_spec(&self) -> nat {
        forest_size::<T, Tree<T>>(self.trees@)
    }

    /// Nodes in all the trees.
    fn len(&self) -> (r: usize) {
        let mut total: usize = 0;
        let mut i: usize = 0;
        while i < self.trees.len()
            invariant
                i <= self.trees@.len(),
                forall|j: int| 0 <= j < self.trees@.len() ==> (#[trigger] self.trees@[j]).inv(),
                forest_size::<T, Tree<T>>(self.trees@) <= usize::MAX,
                total == forest_size::<T, Tree<T>>(self.trees@.subrange(0, i as int)),
            decreases self.trees@.len() - i,
        {
            proof {
                let sub = self.trees@.subrange(0, i + 1);
                assert(sub.drop_last() =~= self.trees@.subrange(0, i as int));
                lemma_forest_size_prefix(self.trees@, i + 1);
                self.trees@[i as int].lemma_inv();
            }
            total = total + self.trees[i].len();
            i = i + 1;
        }
        proof { assert(self.trees@.subrange(0, i as int) =~= self.trees@); }
        total
    }

    /// Whether every tree is empty.
    fn is_empty(&self) -> (r: bool) {
        let mut i: usize = 0;
        while i < self.trees.len()
            invariant
                i <= self.trees@.len(),
                forall|j: int| 0 <= j < self.trees@.len() ==> (#[trigger] self.trees@[j]).inv(),
                forest_size::<T, Tree<T>>(self.trees@.subrange(0, i as int)) == 0,
            decreases self.trees@.len() - i,
        {
            let sub = Ghost(self.trees@.subrange(0, i + 1));
            proof {
                assert(sub@.drop_last() =~= self.trees@.subrange(0, i as int));
                lemma_forest_size_prefix(self.trees@, i + 1);
                self.trees@[i as int].lemma_inv();
            }
            if !self.trees[i].is_empty() {
                return false;
            }
            i = i + 1;
        }
        proof { assert(self.trees@.subrange(0, i as int) =~= self.trees@); }
        true
    }
}

/// The nodes of the first trees are counted in the whole forest's.
proof fn lemma_forest_size_prefix<T>(ts: Seq<Tree<T>>, i: int)
    requires
        0 <= i <= ts.len(),
    ensures
        forest_size::<T, Tree<T>>(ts.subrange(0, i)) <= forest_size::<T, Tree<T>>(ts),
    decreases ts.len() - i,
{
    if i < ts.len() {
        lemma_forest_size_prefix(ts, i + 1);
        assert(ts.subrange(0, i + 1).drop_last() =~= ts.subrange(0, i));
    } else {
        assert(ts.subrange(0, i) =~= ts);
    }
}

impl<T> GeneralForest<T> for Forest<T> {
    type Tree = Tree<T>;

    closed spec fn trees_spec(&self) -> Seq<Tree<T>> {
        self.trees@
    }

    proof fn lemma_inv(&self) {
    }

    proof fn lemma_inv_bound(&self) {
    }

    fn trees(&self) -> (r: &[Tree<T>]) {
        self.trees.as_slice()
    }

    fn trees_mut(&mut self) -> (r: &mut [Tree<T>]) {
        self.trees.as_mut_slice()
    }

    fn add_tree(&mut self, tree: Tree<T>) -> (r: usize) {
        let index = self.trees.len();
        self.trees.push(tree);
        index
    }

    fn add_root(&mut self, value: T) -> (r: &mut Tree<T>) {
        self.trees.push(Tree::with_root(value));
        let last = self.trees.len() - 1;
        &mut self.trees[last]
    }

    fn remove_tree(&mut self, index: usize) -> (r: Option<Tree<T>>) {
        if index >= self.trees.len() {
            return None;
        }
        Some(self.trees.remove(index))
    }

    fn append(&mut self, other: &mut Self) {
        self.trees.append(&mut other.trees);
    }

    /// Clears each tree, dropping its nodes one at a time, then the trees.
    fn clear(&mut self) {
        let n = self.trees.len();
        let mut i: usize = 0;
        while i < n
            invariant
                n == self.trees@.len(),
                i <= n,
            decreases n - i,
        {
            self.trees[i].clear();
            i = i + 1;
        }
        self.trees.clear();
    }
}

} // verus!
