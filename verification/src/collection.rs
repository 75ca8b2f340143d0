use vstd::prelude::*;

verus! {

/// Something that holds a number of values.
pub trait Collection {
    /// The collection's own invariant.
    spec fn inv(&self) -> bool;

    /// Number of values held.
    spec fn len_spec(&self) -> nat;

    fn len(&self) -> (r: usize)
        requires
            self.inv(),
        ensures
            r == self.len_spec(),
    ;

    fn is_empty(&self) -> (r: bool)
        requires
            self.inv(),
        ensures
            r == (self.len_spec() == 0),
    {
        self.len() == 0
    }
}

/// A node of a binary search tree keyed by `u64`.
pub trait SearchNode: Sized {
    spec fn key_spec(&self) -> u64;

    spec fn left_spec(&self) -> Option<Self>;

    spec fn right_spec(&self) -> Option<Self>;

    /// Number of nodes in the subtree.
    spec fn size_spec(&self) -> nat;

    /// Keys of the subtree in order.
    spec fn keys_spec(&self) -> Seq<u64>;

    /// Keys of the subtree, node before its children, left before right.
    spec fn pre_spec(&self) -> Seq<u64>;

    /// Keys of the subtree, children before their node, left before right.
    spec fn post_spec(&self) -> Seq<u64>;

    /// Nodes on the longest path from this node down.
    spec fn height_spec(&self) -> nat;

    /// How each measure of a node follows from its children's.
    proof fn lemma_node(&self)
        ensures
            self.left_spec() matches Some(l) ==> l.size_spec() < self.size_spec(),
            self.right_spec() matches Some(r) ==> r.size_spec() < self.size_spec(),
            self.size_spec() == (match self.left_spec() { Some(n) => n.size_spec(), None => 0 }) + (match self.right_spec() { Some(n) => n.size_spec(), None => 0 }) + 1,
            self.keys_spec() == (match self.left_spec() { Some(n) => n.keys_spec(), None => Seq::empty() }) + seq![self.key_spec()] + (match self.right_spec() { Some(n) => n.keys_spec(), None => Seq::empty() }),
            self.pre_spec() == seq![self.key_spec()] + (match self.left_spec() { Some(n) => n.pre_spec(), None => Seq::empty() }) + (match self.right_spec() { Some(n) => n.pre_spec(), None => Seq::empty() }),
            self.post_spec() == (match self.left_spec() { Some(n) => n.post_spec(), None => Seq::empty() }) + (match self.right_spec() { Some(n) => n.post_spec(), None => Seq::empty() }) + seq![self.key_spec()],
            self.height_spec() == 1 + if (match self.left_spec() { Some(n) => n.height_spec(), None => 0 }) < (match self.right_spec() { Some(n) => n.height_spec(), None => 0 }) {
                (match self.right_spec() { Some(n) => n.height_spec(), None => 0 })
            } else {
                (match self.left_spec() { Some(n) => n.height_spec(), None => 0 })
            },
    ;

    fn value(&self) -> (r: &u64)
        ensures
            *r == self.key_spec(),
    ;

    fn left(&self) -> (r: Option<&Self>)
        ensures
            r is Some <==> self.left_spec() is Some,
            r matches Some(n) ==> *n == self.left_spec()->0,
    ;

    fn right(&self) -> (r: Option<&Self>)
        ensures
            r is Some <==> self.right_spec() is Some,
            r matches Some(n) ==> *n == self.right_spec()->0,
    ;
}

pub open spec fn link_size<N: SearchNode>(l: Option<N>) -> nat {
    match l { Some(n) => n.size_spec(), None => 0 }
}

pub open spec fn link_keys<N: SearchNode>(l: Option<N>) -> Seq<u64> {
    match l { Some(n) => n.keys_spec(), None => Seq::empty() }
}

/// A subtree has as many keys as nodes.
pub proof fn lemma_keys_len<N: SearchNode>(l: Option<N>)
    ensures
        link_keys(l).len() == link_size(l),
    decreases link_size(l),
{
    if let Some(n) = l {
        n.lemma_node();
        lemma_keys_len(n.left_spec());
        lemma_keys_len(n.right_spec());
    }
}

pub open spec fn link_pre<N: SearchNode>(l: Option<N>) -> Seq<u64> {
    match l { Some(n) => n.pre_spec(), None => Seq::empty() }
}

pub open spec fn link_post<N: SearchNode>(l: Option<N>) -> Seq<u64> {
    match l { Some(n) => n.post_spec(), None => Seq::empty() }
}

pub open spec fn link_height<N: SearchNode>(l: Option<N>) -> nat {
    match l { Some(n) => n.height_spec(), None => 0 }
}

/// The node a borrowed link points to.
pub open spec fn deref_link<N>(o: Option<&N>) -> Option<N> {
    match o {
        Some(n) => Some(*n),
        None => None,
    }
}

/// Keys that strictly increase.
pub open spec fn sorted(s: Seq<u64>) -> bool {
    forall|i: int, j: int| 0 <= i < j < s.len() ==> s[i] < s[j]
}

/// How a traversal orders the values.
#[derive(Clone, Copy)]
pub enum TraversalType {
    InOrder,
    PreOrder,
    PostOrder,
    LevelOrder,
}

/// A binary search tree of distinct `u64` keys.
pub trait SearchTree: Collection + Sized {
    type Node: SearchNode;

    spec fn root_spec(&self) -> Option<Self::Node>;

    /// The invariant orders the keys and counts them.
    proof fn lemma_inv(&self)
        requires
            self.inv(),
        ensures
            sorted(link_keys(self.root_spec())),
            self.len_spec() == link_size(self.root_spec()),
            self.len_spec() <= usize::MAX,
    ;

    fn root(&self) -> (r: Option<&Self::Node>)
        ensures
            r is Some <==> self.root_spec() is Some,
            r matches Some(n) ==> *n == self.root_spec()->0,
    ;

    /// Adds `value`; returns whether it was absent.
    fn insert(&mut self, value: u64) -> (r: bool)
        requires
            old(self).inv(),
            old(self).len_spec() < usize::MAX,
        ensures
            final(self).inv(),
            link_keys(final(self).root_spec()).to_set() == link_keys(old(self).root_spec()).to_set().insert(value),
            r == !link_keys(old(self).root_spec()).contains(value),
            final(self).len_spec() == old(self).len_spec() + if r { 1nat } else { 0nat },
    ;

    /// Removes `value`; returns whether it was present.
    fn remove(&mut self, value: &u64) -> (r: bool)
        requires
            old(self).inv(),
        ensures
            final(self).inv(),
            link_keys(final(self).root_spec()).to_set() == link_keys(old(self).root_spec()).to_set().remove(*value),
            r == link_keys(old(self).root_spec()).contains(*value),
            old(self).len_spec() == final(self).len_spec() + if r { 1nat } else { 0nat },
    ;

    /// Removes every value.
    fn clear(&mut self)
        ensures
            final(self).inv(),
            final(self).root_spec() is None,
    ;

    /// The smallest key.
    fn min(&self) -> (r: Option<&u64>)
        requires
            self.inv(),
        ensures
            r is None <==> link_keys(self.root_spec()).len() == 0,
            r matches Some(k) ==> *k == link_keys(self.root_spec())[0],
    {
        proof { self.lemma_inv(); }
        let mut node = match self.root() {
            Some(n) => n,
            None => { return None; }
        };
        let ghost ks = link_keys(self.root_spec());
        proof { node.lemma_node(); }
        loop
            invariant_except_break
                node.keys_spec().len() > 0,
                node.keys_spec()[0] == ks[0],
            ensures
                node.left_spec() is None,
                node.keys_spec()[0] == ks[0],
            decreases node.size_spec(),
        {
            proof { node.lemma_node(); }
            match node.left() {
                Some(l) => {
                    proof { l.lemma_node(); }
                    node = l;
                }
                None => {
                    break;
                }
            }
        }
        proof { node.lemma_node(); }
        Some(node.value())
    }

    /// The largest key.
    fn max(&self) -> (r: Option<&u64>)
        requires
            self.inv(),
        ensures
            r is None <==> link_keys(self.root_spec()).len() == 0,
            r matches Some(k) ==> *k == link_keys(self.root_spec()).last(),
    {
        proof { self.lemma_inv(); }
        let mut node = match self.root() {
            Some(n) => n,
            None => { return None; }
        };
        let ghost ks = link_keys(self.root_spec());
        proof { node.lemma_node(); }
        loop
            invariant_except_break
                node.keys_spec().len() > 0,
                node.keys_spec().last() == ks.last(),
            ensures
                node.right_spec() is None,
                node.keys_spec().last() == ks.last(),
            decreases node.size_spec(),
        {
            proof { node.lemma_node(); }
            match node.right() {
                Some(r) => {
                    proof { r.lemma_node(); }
                    node = r;
                }
                None => {
                    break;
                }
            }
        }
        proof { node.lemma_node(); }
        Some(node.value())
    }

    /// Nodes on the longest path from the root down.
    fn height(&self) -> (r: usize)
        requires
            self.inv(),
        ensures
            r == link_height(self.root_spec()),
    {
        proof { self.lemma_inv(); lemma_height_size(self.root_spec()); }
        let ghost h = link_height(self.root_spec());
        let mut height: usize = 0;
        let mut stack: Vec<(&Self::Node, usize)> = Vec::new();
        if let Some(root) = self.root() {
            proof { root.lemma_node(); }
            stack.push((root, 1));
            proof {
                assert(stack@.drop_last() =~= Seq::<(&Self::Node, usize)>::empty());
                assert(stack_reach(Seq::<(&Self::Node, usize)>::empty()) == 0);
                assert(stack@.last() == (root, 1usize));
                assert(h == root.height_spec());
                assert(stack_reach(stack@) == h);
            }
        }
        while stack.len() > 0
            invariant
                h == link_height(self.root_spec()),
                h <= usize::MAX,
                height <= h,
                forall|i: int| 0 <= i < stack@.len() ==> stack@[i].1 >= 1 && stack@[i].1 + stack@[i].0.height_spec() - 1 <= h,
                (if height < stack_reach(stack@) { stack_reach(stack@) } else { height as nat }) == h,
            decreases stack_nodes(stack@),
        {
            let ghost before = stack@;
            let ghost old_height = height;
            let (node, depth) = stack.pop().unwrap();
            proof {
                assert(before == stack@.push((node, depth)));
                assert(before.drop_last() =~= stack@);
                node.lemma_node();
                assert(before[before.len() - 1] == (node, depth));
                assert(stack_reach(before) == if (depth + node.height_spec() - 1) < stack_reach(stack@) {
                    stack_reach(stack@) } else { (depth + node.height_spec() - 1) as nat });
                assert(stack_nodes(before) == stack_nodes(stack@) + node.size_spec());
            }
            if depth > height {
                height = depth;
            }
            let ghost mid = stack@;
            if let Some(left) = node.left() {
                proof { left.lemma_node(); }
                stack.push((left, depth + 1));
                proof {
                    assert(stack@.drop_last() =~= mid);
                    assert(stack_reach(stack@) == if (depth + 1 + left.height_spec() - 1) < stack_reach(mid) {
                        stack_reach(mid) } else { (depth + 1 + left.height_spec() - 1) as nat });
                    assert(stack_nodes(stack@) == stack_nodes(mid) + left.size_spec());
                }
            }
            let ghost mid2 = stack@;
            if let Some(right) = node.right() {
                proof { right.lemma_node(); }
                stack.push((right, depth + 1));
                proof {
                    assert(stack@.drop_last() =~= mid2);
                    assert(stack_reach(stack@) == if (depth + 1 + right.height_spec() - 1) < stack_reach(mid2) {
                        stack_reach(mid2) } else { (depth + 1 + right.height_spec() - 1) as nat });
                    assert(stack_nodes(stack@) == stack_nodes(mid2) + right.size_spec());
                }
            }
        }
        height
    }

    /// The smallest key greater than `value`.
    fn successor(&self, value: &u64) -> (r: Option<&u64>)
        requires
            self.inv(),
        ensures
            r matches Some(k) ==> link_keys(self.root_spec()).contains(*k) && *k > *value
                && forall|x: u64| link_keys(self.root_spec()).contains(x) && x > *value ==> x >= *k,
            r is None ==> forall|x: u64| link_keys(self.root_spec()).contains(x) ==> x <= *value,
    {
        proof { self.lemma_inv(); }
        let ghost ks = link_keys(self.root_spec());
        let mut cur = self.root();
        let mut candidate: Option<&u64> = None;
        while cur.is_some()
            invariant
                ks == link_keys(self.root_spec()),
                sorted(link_keys(deref_link(cur))),
                forall|x: u64| link_keys(deref_link(cur)).contains(x) ==> ks.contains(x),
                candidate matches Some(c) ==> ks.contains(*c) && *c > *value
                    && (forall|x: u64| ks.contains(x) && *value < x < *c ==> link_keys(deref_link(cur)).contains(x))
                    && (forall|x: u64| link_keys(deref_link(cur)).contains(x) ==> x < *c),
                candidate is None ==> forall|x: u64| ks.contains(x) && *value < x ==> link_keys(deref_link(cur)).contains(x),
            decreases link_size(deref_link(cur)),
        {
            let node = cur.unwrap();
            proof {
                node.lemma_node();
                let a = link_keys(node.left_spec());
                let b = link_keys(node.right_spec());
                lemma_sorted_split(a, node.key_spec(), b);
                assert((a + seq![node.key_spec()] + b)[a.len() as int] == node.key_spec());
                assert(ks.contains(node.key_spec()));
            }
            if *node.value() > *value {
                candidate = Some(node.value());
                cur = node.left();
            } else {
                cur = node.right();
            }
        }
        candidate
    }

    /// The largest key smaller than `value`.
    fn predecessor(&self, value: &u64) -> (r: Option<&u64>)
        requires
            self.inv(),
        ensures
            r matches Some(k) ==> link_keys(self.root_spec()).contains(*k) && *k < *value
                && forall|x: u64| link_keys(self.root_spec()).contains(x) && x < *value ==> x <= *k,
            r is None ==> forall|x: u64| link_keys(self.root_spec()).contains(x) ==> x >= *value,
    {
        proof { self.lemma_inv(); }
        let ghost ks = link_keys(self.root_spec());
        let mut cur = self.root();
        let mut candidate: Option<&u64> = None;
        while cur.is_some()
            invariant
                ks == link_keys(self.root_spec()),
                sorted(link_keys(deref_link(cur))),
                forall|x: u64| link_keys(deref_link(cur)).contains(x) ==> ks.contains(x),
                candidate matches Some(c) ==> ks.contains(*c) && *c < *value
                    && (forall|x: u64| ks.contains(x) && *c < x < *value ==> link_keys(deref_link(cur)).contains(x))
                    && (forall|x: u64| link_keys(deref_link(cur)).contains(x) ==> x > *c),
                candidate is None ==> forall|x: u64| ks.contains(x) && x < *value ==> link_keys(deref_link(cur)).contains(x),
            decreases link_size(deref_link(cur)),
        {
            let node = cur.unwrap();
            proof {
                node.lemma_node();
                let a = link_keys(node.left_spec());
                let b = link_keys(node.right_spec());
                lemma_sorted_split(a, node.key_spec(), b);
                assert((a + seq![node.key_spec()] + b)[a.len() as int] == node.key_spec());
                assert(ks.contains(node.key_spec()));
            }
            if *node.value() < *value {
                candidate = Some(node.value());
                cur = node.right();
            } else {
                cur = node.left();
            }
        }
        candidate
    }

    /// The keys in the order the traversal asks for; level order is not offered.
    fn travserse(&self, traversal_type: TraversalType) -> (r: Option<Vec<u64>>)
        requires
            self.inv(),
        ensures
            traversal_type is InOrder ==> (r matches Some(v) && v@ == link_keys(self.root_spec())),
            traversal_type is PreOrder ==> (r matches Some(v) && v@ == link_pre(self.root_spec())),
            traversal_type is PostOrder ==> (r matches Some(v) && v@ == link_post(self.root_spec())),
            traversal_type is LevelOrder ==> r is None,
    {
        match traversal_type {
            TraversalType::InOrder => Some(self.inorder_traverse()),
            TraversalType::PostOrder => Some(self.postorder_traverse()),
            TraversalType::PreOrder => Some(self.preorder_traverse()),
            TraversalType::LevelOrder => None,
        }
    }

    /// The keys in increasing order.
    fn inorder_traverse(&self) -> (r: Vec<u64>)
        requires
            self.inv(),
        ensures
            r@ == link_keys(self.root_spec()),
            sorted(r@),
            r@.len() == self.len_spec(),
    {
        proof { self.lemma_inv(); lemma_keys_len(self.root_spec()); }
        let ghost ks = link_keys(self.root_spec());
        let mut values: Vec<u64> = Vec::with_capacity(self.len());
        let mut cur = self.root();
        let mut stack: Vec<&Self::Node> = Vec::new();
        proof { assert(values@ + link_keys(deref_link(cur)) + stack_in(stack@) =~= ks); }
        while cur.is_some() || stack.len() > 0
            invariant
                ks == link_keys(self.root_spec()),
                values@ + link_keys(deref_link(cur)) + stack_in(stack@) == ks,
            decreases link_size(deref_link(cur)) + stack_in_work(stack@),
        {
            let ghost total = link_size(deref_link(cur)) + stack_in_work(stack@);
            while cur.is_some()
                invariant
                    values@ + link_keys(deref_link(cur)) + stack_in(stack@) == ks,
                    cur is Some || stack@.len() > 0,
                    link_size(deref_link(cur)) + stack_in_work(stack@) == total,
                decreases link_size(deref_link(cur)),
            {
                let node = cur.unwrap();
                let ghost s0 = stack@;
                proof { node.lemma_node(); }
                stack.push(node);
                cur = node.left();
                proof {
                    assert(stack@.drop_last() =~= s0);
                    assert(stack_in(stack@) == seq![node.key_spec()] + link_keys(node.right_spec()) + stack_in(s0));
                    assert(stack_in_work(stack@) == stack_in_work(s0) + 1 + link_size(node.right_spec()));
                    assert(values@ + link_keys(deref_link(cur)) + stack_in(stack@) =~= ks);
                }
            }
            let ghost s1 = stack@;
            let node = stack.pop().unwrap();
            proof {
                assert(s1 == stack@.push(node));
                assert(s1.drop_last() =~= stack@);
                assert(stack_in(s1) == seq![node.key_spec()] + link_keys(node.right_spec()) + stack_in(stack@));
                assert(stack_in_work(s1) == stack_in_work(stack@) + 1 + link_size(node.right_spec()));
            }
            values.push(*node.value());
            cur = node.right();
            proof {
                assert(values@ + link_keys(deref_link(cur)) + stack_in(stack@) =~= ks);
            }
        }
        proof { assert(values@ =~= ks); }
        values
    }

    /// Each key before those of its subtrees, left subtree first.
    #[verifier::spinoff_prover]
    #[verifier::rlimit(60)]
    fn preorder_traverse(&self) -> (r: Vec<u64>)
        requires
            self.inv(),
        ensures
            r@ == link_pre(self.root_spec()),
    {
        let ghost ks = link_pre(self.root_spec());
        let mut values: Vec<u64> = Vec::with_capacity(self.len());
        let mut stack: Vec<&Self::Node> = Vec::new();
        proof { assert(stack_pre(Seq::<&Self::Node>::empty()) =~= Seq::<u64>::empty()); }
        if let Some(root) = self.root() {
            stack.push(root);
            proof {
                assert(stack@.drop_last() =~= Seq::<&Self::Node>::empty());
                assert(stack_pre(stack@) == root.pre_spec() + stack_pre(Seq::<&Self::Node>::empty()));
            }
        }
        proof { assert(values@ + stack_pre(stack@) =~= ks); }
        while stack.len() > 0
            invariant
                ks == link_pre(self.root_spec()),
                values@ + stack_pre(stack@) == ks,
            decreases stack_count(stack@),
        {
            let ghost s1 = stack@;
            let node = stack.pop().unwrap();
            proof {
                node.lemma_node();
                assert(s1 == stack@.push(node));
                assert(s1.drop_last() =~= stack@);
                assert(stack_pre(s1) == node.pre_spec() + stack_pre(stack@));
                assert(stack_count(s1) == stack_count(stack@) + node.size_spec());
            }
            values.push(*node.value());
            let ghost s2 = stack@;
            if let Some(right) = node.right() {
                stack.push(right);
                proof {
                    assert(stack@.drop_last() =~= s2);
                    assert(stack_pre(stack@) == right.pre_spec() + stack_pre(s2));
                    assert(stack_count(stack@) == stack_count(s2) + right.size_spec());
                }
            }
            let ghost s3 = stack@;
            if let Some(left) = node.left() {
                stack.push(left);
                proof {
                    assert(stack@.drop_last() =~= s3);
                    assert(stack_pre(stack@) == left.pre_spec() + stack_pre(s3));
                    assert(stack_count(stack@) == stack_count(s3) + left.size_spec());
                }
            }
            proof { assert(values@ + stack_pre(stack@) =~= ks); }
        }
        proof { assert(values@ =~= ks); }
        values
    }

    /// Each key after those of its subtrees, left subtree first.
    fn postorder_traverse(&self) -> (r: Vec<u64>)
        requires
            self.inv(),
        ensures
            r@ == link_post(self.root_spec()),
    {
        let ghost ks = link_post(self.root_spec());
        let mut values: Vec<u64> = Vec::with_capacity(self.len());
        let mut stack: Vec<(&Self::Node, bool)> = Vec::new();
        proof { assert(stack_post(Seq::<(&Self::Node, bool)>::empty()) =~= Seq::<u64>::empty()); }
        if let Some(root) = self.root() {
            stack.push((root, false));
            proof {
                assert(stack@.drop_last() =~= Seq::<(&Self::Node, bool)>::empty());
                assert(stack_post(stack@) == root.post_spec() + stack_post(Seq::<(&Self::Node, bool)>::empty()));
            }
        }
        proof { assert(values@ + stack_post(stack@) =~= ks); }
        while stack.len() > 0
            invariant
                ks == link_post(self.root_spec()),
                values@ + stack_post(stack@) == ks,
            decreases stack_post_work(stack@),
        {
            let ghost s1 = stack@;
            let (node, visited) = stack.pop().unwrap();
            proof {
                node.lemma_node();
                assert(s1 == stack@.push((node, visited)));
                assert(s1.drop_last() =~= stack@);
                assert(s1.last() == (node, visited));
                assert(stack_post(s1) == (if visited { seq![node.key_spec()] } else { node.post_spec() }) + stack_post(stack@));
                assert(stack_post_work(s1) == stack_post_work(stack@) + if visited { 1nat } else { 2 * node.size_spec() });
            }
            if visited {
                values.push(*node.value());
                proof { assert(values@ + stack_post(stack@) =~= ks); }
            } else {
                let ghost s2 = stack@;
                stack.push((node, true));
                proof {
                    assert(stack@.drop_last() =~= s2);
                    assert(stack_post(stack@) == seq![node.key_spec()] + stack_post(s2));
                    assert(stack_post_work(stack@) == stack_post_work(s2) + 1);
                }
                let ghost s3 = stack@;
                if let Some(right) = node.right() {
                    stack.push((right, false));
                    proof {
                        assert(stack@.drop_last() =~= s3);
                        assert(stack_post(stack@) == right.post_spec() + stack_post(s3));
                        assert(stack_post_work(stack@) == stack_post_work(s3) + 2 * right.size_spec());
                    }
                }
                let ghost s4 = stack@;
                if let Some(left) = node.left() {
                    stack.push((left, false));
                    proof {
                        assert(stack@.drop_last() =~= s4);
                        assert(stack_post(stack@) == left.post_spec() + stack_post(s4));
                        assert(stack_post_work(stack@) == stack_post_work(s4) + 2 * left.size_spec());
                    }
                }
                proof { assert(values@ + stack_post(stack@) =~= ks); }
            }
        }
        proof { assert(values@ =~= ks); }
        values
    }

    /// Whether `value` is a key.
    fn contains(&self, value: &u64) -> (r: bool)
        requires
            self.inv(),
        ensures
            r == link_keys(self.root_spec()).contains(*value),
    {
        proof { self.lemma_inv(); }
        let ghost ks = link_keys(self.root_spec());
        let mut cur = self.root();
        loop
            invariant
                ks == link_keys(self.root_spec()),
                sorted(link_keys(deref_link(cur))),
                ks.contains(*value) == link_keys(deref_link(cur)).contains(*value),
            decreases link_size(deref_link(cur)),
        {
            match cur {
                None => {
                    return false;
                }
                Some(node) => {
                    proof {
                        node.lemma_node();
                        lemma_sorted_split(link_keys(node.left_spec()), node.key_spec(), link_keys(node.right_spec()));
                    }
                    let k = *node.value();
                    if *value < k {
                        cur = node.left();
                    } else if *value > k {
                        cur = node.right();
                    } else {
                        proof { assert(node.keys_spec()[link_keys(node.left_spec()).len() as int] == k); }
                        return true;
                    }
                }
            }
        }
    }
}

/// The largest of `depth + height - 1` over the stack's entries.
pub open spec fn stack_reach<N: SearchNode>(st: Seq<(&N, usize)>) -> nat
    decreases st.len(),
{
    if st.len() == 0 {
        0
    } else {
        let e = st.last();
        let here = (e.1 + e.0.height_spec() - 1) as nat;
        let rest = stack_reach(st.drop_last());
        if here < rest { rest } else { here }
    }
}

/// Total nodes under the stack's entries.
pub open spec fn stack_nodes<N: SearchNode>(st: Seq<(&N, usize)>) -> nat
    decreases st.len(),
{
    if st.len() == 0 { 0 } else { stack_nodes(st.drop_last()) + st.last().0.size_spec() }
}

/// Keys still to list in preorder, top of the stack first.
pub open spec fn stack_pre<N: SearchNode>(st: Seq<&N>) -> Seq<u64>
    decreases st.len(),
{
    if st.len() == 0 { Seq::empty() } else { st.last().pre_spec() + stack_pre(st.drop_last()) }
}

/// Total nodes under the stack's nodes.
pub open spec fn stack_count<N: SearchNode>(st: Seq<&N>) -> nat
    decreases st.len(),
{
    if st.len() == 0 { 0 } else { stack_count(st.drop_last()) + st.last().size_spec() }
}

/// Keys still to list in postorder, top of the stack first: a visited node
/// contributes its own key, an unvisited one its whole subtree.
pub open spec fn stack_post<N: SearchNode>(st: Seq<(&N, bool)>) -> Seq<u64>
    decreases st.len(),
{
    if st.len() == 0 {
        Seq::empty()
    } else {
        let e = st.last();
        (if e.1 { seq![e.0.key_spec()] } else { e.0.post_spec() }) + stack_post(st.drop_last())
    }
}

/// Work left for the postorder walk.
pub open spec fn stack_post_work<N: SearchNode>(st: Seq<(&N, bool)>) -> nat
    decreases st.len(),
{
    if st.len() == 0 {
        0
    } else {
        let e = st.last();
        stack_post_work(st.drop_last()) + if e.1 { 1nat } else { 2 * e.0.size_spec() }
    }
}

/// Keys still to list in order: for each stacked node, top first, its key then
/// its right subtree.
pub open spec fn stack_in<N: SearchNode>(st: Seq<&N>) -> Seq<u64>
    decreases st.len(),
{
    if st.len() == 0 {
        Seq::empty()
    } else {
        seq![st.last().key_spec()] + link_keys(st.last().right_spec()) + stack_in(st.drop_last())
    }
}

/// Work left for the in-order walk.
pub open spec fn stack_in_work<N: SearchNode>(st: Seq<&N>) -> nat
    decreases st.len(),
{
    if st.len() == 0 { 0 } else { stack_in_work(st.drop_last()) + 1 + link_size(st.last().right_spec()) }
}

/// A subtree is no taller than it has nodes.
pub proof fn lemma_height_size<N: SearchNode>(l: Option<N>)
    ensures
        link_height(l) <= link_size(l),
    decreases link_size(l),
{
    if let Some(n) = l {
        n.lemma_node();
        lemma_height_size(n.left_spec());
        lemma_height_size(n.right_spec());
    }
}

/// Joining two sorted sequences around a key between them keeps them sorted.
pub proof fn lemma_sorted_join(a: Seq<u64>, k: u64, b: Seq<u64>)
    requires
        sorted(a),
        sorted(b),
        forall|i: int| 0 <= i < a.len() ==> a[i] < k,
        forall|i: int| 0 <= i < b.len() ==> b[i] > k,
    ensures
        sorted(a + seq![k] + b),
        forall|x: u64| (a + seq![k] + b).contains(x) <==> (a.contains(x) || x == k || b.contains(x)),
{
    let s = a + seq![k] + b;
    assert forall|i: int, j: int| 0 <= i < j < s.len() implies s[i] < s[j] by {
        if j < a.len() {
        } else if j == a.len() {
        } else if i < a.len() {
            assert(s[j] == b[j - a.len() - 1]);
        } else if i == a.len() {
            assert(s[j] == b[j - a.len() - 1]);
        } else {
            assert(s[i] == b[i - a.len() - 1]);
            assert(s[j] == b[j - a.len() - 1]);
        }
    }
    lemma_sorted_split(a, k, b);
}

/// Splitting a sorted sequence around one key: everything before is smaller,
/// everything after larger.
pub proof fn lemma_sorted_split(a: Seq<u64>, k: u64, b: Seq<u64>)
    requires
        sorted(a + seq![k] + b),
    ensures
        sorted(a),
        sorted(b),
        forall|i: int| 0 <= i < a.len() ==> a[i] < k,
        forall|i: int| 0 <= i < b.len() ==> b[i] > k,
        forall|x: u64| (a + seq![k] + b).contains(x) <==> (a.contains(x) || x == k || b.contains(x)),
        forall|x: u64| x < k ==> ((a + seq![k] + b).contains(x) <==> a.contains(x)),
        forall|x: u64| x > k ==> ((a + seq![k] + b).contains(x) <==> b.contains(x)),
{
    let s = a + seq![k] + b;
    assert forall|i: int, j: int| 0 <= i < j < a.len() implies a[i] < a[j] by {
        assert(s[i] == a[i] && s[j] == a[j]);
    }
    assert forall|i: int, j: int| 0 <= i < j < b.len() implies b[i] < b[j] by {
        assert(s[a.len() + 1 + i] == b[i] && s[a.len() + 1 + j] == b[j]);
    }
    assert forall|i: int| 0 <= i < a.len() implies a[i] < k by {
        assert(s[i] == a[i] && s[a.len() as int] == k);
    }
    assert forall|i: int| 0 <= i < b.len() implies b[i] > k by {
        assert(s[a.len() + 1 + i] == b[i] && s[a.len() as int] == k);
    }
    assert forall|x: u64| s.contains(x) <==> (a.contains(x) || x == k || b.contains(x)) by {
        if s.contains(x) {
            let i = choose|i: int| 0 <= i < s.len() && s[i] == x;
            if i < a.len() { assert(a[i] == x); }
            else if i > a.len() { assert(b[i - a.len() - 1] == x); }
        }
        if a.contains(x) {
            let i = choose|i: int| 0 <= i < a.len() && a[i] == x;
            assert(s[i] == x);
        }
        if b.contains(x) {
            let i = choose|i: int| 0 <= i < b.len() && b[i] == x;
            assert(s[a.len() + 1 + i] == x);
        }
        if x == k {
            assert(s[a.len() as int] == x);
        }
    }
}

/// The set of a joined sequence is the union of the parts' sets and the key.
pub proof fn lemma_set_join(a: Seq<u64>, k: u64, b: Seq<u64>)
    ensures
        (a + seq![k] + b).to_set() == a.to_set().union(b.to_set()).insert(k),
{
    let s = a + seq![k] + b;
    assert forall|x: u64| #[trigger] s.to_set().contains(x) <==> a.to_set().union(b.to_set()).insert(k).contains(x) by {
        if s.contains(x) {
            let i = choose|i: int| 0 <= i < s.len() && s[i] == x;
            if i < a.len() { assert(a[i] == x); }
            else if i > a.len() { assert(b[i - a.len() - 1] == x); }
        }
        if a.contains(x) {
            let i = choose|i: int| 0 <= i < a.len() && a[i] == x;
            assert(s[i] == x);
        }
        if b.contains(x) {
            let i = choose|i: int| 0 <= i < b.len() && b[i] == x;
            assert(s[a.len() + 1 + i] == x);
        }
        if x == k {
            assert(s[a.len() as int] == x);
        }
    }
    assert(s.to_set() =~= a.to_set().union(b.to_set()).insert(k));
}

/// Removing a key that an insert added gives back the keys before the insert.
pub proof fn lemma_remove_undoes_insert(keys: Set<u64>, value: u64)
    requires
        !keys.contains(value),
    ensures
        keys.insert(value).remove(value) == keys,
{
    assert(keys.insert(value).remove(value) =~= keys);
}

} // verus!
