use vstd::prelude::*;
use crate::collection::{Collection, SearchNode, SearchTree, link_keys, link_size, sorted,
    lemma_sorted_join, lemma_sorted_split, lemma_set_join};

verus! {

/// A node of an unbalanced binary search tree.
#[derive(Debug)]
pub struct Node {
    value: u64,
    left: Option<Box<Node>>,
    right: Option<Box<Node>>,
}

pub open spec fn unbox(l: Option<Box<Node>>) -> Option<Node> {
    match l {
        Some(b) => Some(*b),
        None => None,
    }
}

impl Node {
    pub closed spec fn size(&self) -> nat
        decreases self,
    {
        1 + match self.left { Some(l) => l.size(), None => 0 } + match self.right { Some(r) => r.size(), None => 0 }
    }

    pub closed spec fn keys(&self) -> Seq<u64>
        decreases self,
    {
        (match self.left { Some(l) => l.keys(), None => Seq::empty() }) + seq![self.value]
            + (match self.right { Some(r) => r.keys(), None => Seq::empty() })
    }

    pub closed spec fn pre(&self) -> Seq<u64>
        decreases self,
    {
        seq![self.value] + (match self.left { Some(l) => l.pre(), None => Seq::empty() })
            + (match self.right { Some(r) => r.pre(), None => Seq::empty() })
    }

    pub closed spec fn post(&self) -> Seq<u64>
        decreases self,
    {
        (match self.left { Some(l) => l.post(), None => Seq::empty() })
            + (match self.right { Some(r) => r.post(), None => Seq::empty() }) + seq![self.value]
    }

    pub closed spec fn height(&self) -> nat
        decreases self,
    {
        let hl = match self.left { Some(l) => l.height(), None => 0 };
        let hr = match self.right { Some(r) => r.height(), None => 0 };
        1 + if hl < hr { hr } else { hl }
    }
}

impl SearchNode for Node {
    closed spec fn key_spec(&self) -> u64 {
        self.value
    }

    closed spec fn left_spec(&self) -> Option<Self> {
        unbox(self.left)
    }

    closed spec fn right_spec(&self) -> Option<Self> {
        unbox(self.right)
    }

    closed spec fn size_spec(&self) -> nat {
        self.size()
    }

    closed spec fn keys_spec(&self) -> Seq<u64> {
        self.keys()
    }

    closed spec fn pre_spec(&self) -> Seq<u64> {
        self.pre()
    }

    closed spec fn post_spec(&self) -> Seq<u64> {
        self.post()
    }

    closed spec fn height_spec(&self) -> nat {
        self.height()
    }

    proof fn lemma_node(&self) {
    }

    fn value(&self) -> (r: &u64) {
        &self.value
    }

    fn left(&self) -> (r: Option<&Self>) {
        match &self.left {
            Some(b) => Some(&**b),
            None => None,
        }
    }

    fn right(&self) -> (r: Option<&Self>) {
        match &self.right {
            Some(b) => Some(&**b),
            None => None,
        }
    }
}

/// Keys of a boxed link.
pub open spec fn bkeys(l: Option<Box<Node>>) -> Seq<u64> {
    link_keys(unbox(l))
}

/// Nodes of a boxed link.
pub open spec fn bsize(l: Option<Box<Node>>) -> nat {
    link_size(unbox(l))
}

/// The subtree after `value` goes in: a new leaf where the search for
/// `value` ends, or the subtree itself when `value` is in it.
pub closed spec fn inserted(l: Option<Box<Node>>, value: u64) -> Option<Box<Node>>
    decreases l,
{
    match l {
        None => Some(Box::new(Node { value, left: None, right: None })),
        Some(n) => if value < n.value {
            Some(Box::new(Node { value: n.value, left: inserted(n.left, value), right: n.right }))
        } else if value > n.value {
            Some(Box::new(Node { value: n.value, left: n.left, right: inserted(n.right, value) }))
        } else {
            l
        },
    }
}

/// The subtree without its leftmost node, whose right subtree takes its place.
pub closed spec fn without_min(l: Option<Box<Node>>) -> Option<Box<Node>>
    decreases l,
{
    match l {
        None => None,
        Some(n) => match n.left {
            None => n.right,
            Some(_) => Some(Box::new(Node { value: n.value, left: without_min(n.left), right: n.right })),
        },
    }
}

/// The subtree after `value` goes out: a node with at most one child gives
/// way to that child; a node with two takes the smallest key of its right
/// subtree, which leaves that subtree.
pub closed spec fn removed(l: Option<Box<Node>>, value: u64) -> Option<Box<Node>>
    decreases l,
{
    match l {
        None => None,
        Some(n) => if value < n.value {
            Some(Box::new(Node { value: n.value, left: removed(n.left, value), right: n.right }))
        } else if value > n.value {
            Some(Box::new(Node { value: n.value, left: n.left, right: removed(n.right, value) }))
        } else if n.left is None {
            n.right
        } else if n.right is None {
            n.left
        } else {
            Some(Box::new(Node { value: bkeys(n.right)[0], left: n.left, right: without_min(n.right) }))
        },
    }
}

/// A subtree as a boxed link.
pub open spec fn boxed(t: Option<Node>) -> Option<Box<Node>> {
    match t {
        Some(n) => Some(Box::new(n)),
        None => None,
    }
}

/// The tree with root `t` after `value` goes in.
pub open spec fn tree_inserted(t: Option<Node>, value: u64) -> Option<Node> {
    unbox(inserted(boxed(t), value))
}

/// Inserting a key that a sorted subtree holds leaves the subtree as it is.
proof fn lemma_inserted_present(l: Option<Box<Node>>, value: u64)
    requires
        sorted(bkeys(l)),
        bkeys(l).contains(value),
    ensures
        inserted(l, value) == l,
    decreases l,
{
    if let Some(n) = l {
        assert(bkeys(l) == bkeys(n.left) + seq![n.value] + bkeys(n.right));
        lemma_sorted_split(bkeys(n.left), n.value, bkeys(n.right));
        if value < n.value {
            lemma_inserted_present(n.left, value);
            assert(Box::new(Node { value: n.value, left: n.left, right: n.right }) == n);
        } else if value > n.value {
            lemma_inserted_present(n.right, value);
            assert(Box::new(Node { value: n.value, left: n.left, right: n.right }) == n);
        }
    }
}

/// Inserting a key that the tree holds leaves the tree as it is: no node
/// moves and none is added.
pub proof fn lemma_insert_present(t: Option<Node>, value: u64)
    requires
        sorted(link_keys(t)),
        link_keys(t).contains(value),
    ensures
        tree_inserted(t, value) == t,
{
    assert(bkeys(boxed(t)) == link_keys(t));
    lemma_inserted_present(boxed(t), value);
}

/// The tree with root `t` after `value` goes out.
pub open spec fn tree_removed(t: Option<Node>, value: u64) -> Option<Node> {
    unbox(removed(boxed(t), value))
}

/// The tree with root `t` without its smallest key.
pub open spec fn tree_without_min(t: Option<Node>) -> Option<Node> {
    unbox(without_min(boxed(t)))
}

proof fn lemma_boxed_unbox(l: Option<Box<Node>>)
    ensures
        boxed(unbox(l)) == l,
{
}

/// Where an insert puts the key: in a new leaf at an empty tree; below the
/// left or the right child, the root staying, when the key is smaller or
/// larger than the root's; nowhere when the root holds it.
pub proof fn lemma_inserted_shape(t: Option<Node>, value: u64)
    ensures
        t is None ==> (tree_inserted(t, value) matches Some(m) && m.key_spec() == value
            && m.left_spec() is None && m.right_spec() is None),
        t is Some && value < t->0.key_spec() ==> (tree_inserted(t, value) matches Some(m)
            && m.key_spec() == t->0.key_spec() && m.left_spec() == tree_inserted(t->0.left_spec(), value)
            && m.right_spec() == t->0.right_spec()),
        t is Some && value > t->0.key_spec() ==> (tree_inserted(t, value) matches Some(m)
            && m.key_spec() == t->0.key_spec() && m.left_spec() == t->0.left_spec()
            && m.right_spec() == tree_inserted(t->0.right_spec(), value)),
        t is Some && value == t->0.key_spec() ==> tree_inserted(t, value) == t,
{
    if let Some(n) = t {
        lemma_boxed_unbox(n.left);
        lemma_boxed_unbox(n.right);
    }
}

/// The shape after the smallest key leaves: a root without a left child gives
/// way to its right child; otherwise the smallest key leaves the left subtree.
pub proof fn lemma_without_min_shape(t: Option<Node>)
    ensures
        t is None ==> tree_without_min(t) is None,
        t is Some && t->0.left_spec() is None ==> tree_without_min(t) == t->0.right_spec(),
        t is Some && t->0.left_spec() is Some ==> (tree_without_min(t) matches Some(m)
            && m.key_spec() == t->0.key_spec() && m.left_spec() == tree_without_min(t->0.left_spec())
            && m.right_spec() == t->0.right_spec()),
{
    if let Some(n) = t {
        lemma_boxed_unbox(n.left);
        lemma_boxed_unbox(n.right);
    }
}

/// The shape after a remove: below the left or right child when the key is
/// smaller or larger than the root's; at the root, a missing child lets the
/// other take its place, and with two children the smallest key of the right
/// subtree takes the root's place and leaves that subtree.
pub proof fn lemma_removed_shape(t: Option<Node>, value: u64)
    ensures
        t is None ==> tree_removed(t, value) is None,
        t is Some && value < t->0.key_spec() ==> (tree_removed(t, value) matches Some(m)
            && m.key_spec() == t->0.key_spec() && m.left_spec() == tree_removed(t->0.left_spec(), value)
            && m.right_spec() == t->0.right_spec()),
        t is Some && value > t->0.key_spec() ==> (tree_removed(t, value) matches Some(m)
            && m.key_spec() == t->0.key_spec() && m.left_spec() == t->0.left_spec()
            && m.right_spec() == tree_removed(t->0.right_spec(), value)),
        t is Some && value == t->0.key_spec() && t->0.left_spec() is None ==> tree_removed(t, value) == t->0.right_spec(),
        t is Some && value == t->0.key_spec() && t->0.left_spec() is Some && t->0.right_spec() is None
            ==> tree_removed(t, value) == t->0.left_spec(),
        t is Some && value == t->0.key_spec() && t->0.left_spec() is Some && t->0.right_spec() is Some
            ==> (tree_removed(t, value) matches Some(m) && m.key_spec() == link_keys(t->0.right_spec())[0]
            && m.left_spec() == t->0.left_spec() && m.right_spec() == tree_without_min(t->0.right_spec())),
{
    if let Some(n) = t {
        lemma_boxed_unbox(n.left);
        lemma_boxed_unbox(n.right);
    }
}

/// A binary search tree that does not rebalance.
#[derive(Debug)]
pub struct BinarySearchTree {
    root: Option<Box<Node>>,
    len: usize,
}

impl BinarySearchTree {
    pub fn new() -> (r: Self)
        ensures
            r.inv(),
            r.root_spec() is None,
    {
        BinarySearchTree { root: None, len: 0 }
    }

    fn insert_into(link: &mut Option<Box<Node>>, value: u64) -> (r: bool)
        requires
            sorted(bkeys(*old(link))),
        ensures
            sorted(bkeys(*final(link))),
            bkeys(*final(link)).to_set() == bkeys(*old(link)).to_set().insert(value),
            r == !bkeys(*old(link)).contains(value),
            bsize(*final(link)) == bsize(*old(link)) + if r { 1nat } else { 0nat },
            bkeys(*final(link)).len() == bsize(*final(link)),
            *final(link) == inserted(*old(link), value),
        decreases *old(link),
    {
        proof { lemma_keys_len(*old(link)); }
        if link.is_none() {
            proof {
                assert(bkeys(*old(link)) =~= Seq::<u64>::empty());
                assert(bkeys(*old(link)).to_set() =~= Set::<u64>::empty());
            }
            *link = Some(Box::new(Node { value, left: None, right: None }));
            proof {
                assert(bkeys(*link) =~= seq![value]);
                assert forall|x: u64| #[trigger] bkeys(*link).to_set().contains(x) <==> Set::<u64>::empty().insert(value).contains(x) by {
                    if x == value { assert(bkeys(*link)[0] == x); }
                }
                assert(bkeys(*link).to_set() =~= Set::<u64>::empty().insert(value));
            }
            return true;
        }
        let mut tmp = None;
        std::mem::swap(&mut tmp, link);
        let mut node = tmp.unwrap();
        let ghost a = bkeys(node.left);
        let ghost b = bkeys(node.right);
        let ghost k = node.value;
        proof {
            assert(bkeys(*old(link)) == a + seq![k] + b);
            lemma_sorted_split(a, k, b);
            lemma_set_join(a, k, b);
        }
        let r;
        if value < node.value {
            r = Self::insert_into(&mut node.left, value);
            proof {
                let a2 = bkeys(node.left);
                assert forall|i: int| 0 <= i < a2.len() implies a2[i] < k by {
                    assert(a2.to_set().contains(a2[i]));
                    if a2[i] != value {
                        assert(a.to_set().contains(a2[i]));
                    }
                }
                lemma_sorted_join(a2, k, b);
                lemma_set_join(a2, k, b);
                assert(r == !a.contains(value));
                assert((a + seq![k] + b).contains(value) == a.contains(value));
            }
        } else if value > node.value {
            r = Self::insert_into(&mut node.right, value);
            proof {
                let b2 = bkeys(node.right);
                assert forall|i: int| 0 <= i < b2.len() implies b2[i] > k by {
                    assert(b2.to_set().contains(b2[i]));
                    if b2[i] != value {
                        assert(b.to_set().contains(b2[i]));
                    }
                }
                lemma_sorted_join(a, k, b2);
                lemma_set_join(a, k, b2);
                assert(r == !b.contains(value));
                assert((a + seq![k] + b).contains(value) == b.contains(value));
            }
        } else {
            r = false;
            proof { assert((a + seq![k] + b)[a.len() as int] == k); }
        }
        *link = Some(node);
        proof {
            assert(bkeys(*link).to_set() =~= bkeys(*old(link)).to_set().insert(value));
            lemma_keys_len(*link);
        }
        r
    }

    /// Removes and returns the smallest key of a nonempty subtree.
    fn take_min(link: &mut Option<Box<Node>>) -> (r: u64)
        requires
            old(link).is_some(),
            sorted(bkeys(*old(link))),
        ensures
            sorted(bkeys(*final(link))),
            bkeys(*old(link)).len() > 0,
            r == bkeys(*old(link))[0],
            bkeys(*final(link)) == bkeys(*old(link)).drop_first(),
            bsize(*final(link)) + 1 == bsize(*old(link)),
            *final(link) == without_min(*old(link)),
        decreases *old(link),
    {
        proof { lemma_keys_len(*old(link)); }
        let mut tmp = None;
        std::mem::swap(&mut tmp, link);
        let mut node = tmp.unwrap();
        let ghost a = bkeys(node.left);
        let ghost b = bkeys(node.right);
        let ghost k = node.value;
        proof {
            assert(bkeys(*old(link)) == a + seq![k] + b);
            lemma_sorted_split(a, k, b);
        }
        if node.left.is_some() {
            let r = Self::take_min(&mut node.left);
            proof {
                let a2 = bkeys(node.left);
                assert forall|i: int| 0 <= i < a2.len() implies a2[i] < k by {
                    assert(a2[i] == a[i + 1]);
                }
                lemma_sorted_join(a2, k, b);
                assert(a2 + seq![k] + b =~= (a + seq![k] + b).drop_first());
            }
            *link = Some(node);
            r
        } else {
            proof {
                assert(a =~= Seq::<u64>::empty());
                assert(b =~= (a + seq![k] + b).drop_first());
            }
            *link = node.right;
            node.value
        }
    }

    /// Removes `value` from a subtree; returns whether it was there.
    fn remove_from(link: &mut Option<Box<Node>>, value: u64) -> (r: bool)
        requires
            sorted(bkeys(*old(link))),
        ensures
            sorted(bkeys(*final(link))),
            bkeys(*final(link)).to_set() == bkeys(*old(link)).to_set().remove(value),
            r == bkeys(*old(link)).contains(value),
            bsize(*final(link)) + (if r { 1nat } else { 0nat }) == bsize(*old(link)),
            bkeys(*final(link)).len() == bsize(*final(link)),
            *final(link) == removed(*old(link), value),
        decreases *old(link),
    {
        proof { lemma_keys_len(*old(link)); }
        if link.is_none() {
            proof {
                assert(bkeys(*old(link)) =~= Seq::<u64>::empty());
                assert(bkeys(*old(link)).to_set() =~= Set::<u64>::empty());
                assert(Set::<u64>::empty().remove(value) =~= Set::<u64>::empty());
            }
            return false;
        }
        let mut tmp = None;
        std::mem::swap(&mut tmp, link);
        let mut node = tmp.unwrap();
        let ghost a = bkeys(node.left);
        let ghost b = bkeys(node.right);
        let ghost k = node.value;
        proof {
            assert(bkeys(*old(link)) == a + seq![k] + b);
            lemma_sorted_split(a, k, b);
            lemma_set_join(a, k, b);
            assert((a + seq![k] + b)[a.len() as int] == k);
        }
        if value < node.value {
            let r = Self::remove_from(&mut node.left, value);
            proof {
                let a2 = bkeys(node.left);
                assert forall|i: int| 0 <= i < a2.len() implies a2[i] < k by {
                    assert(a2.to_set().contains(a2[i]));
                    assert(a.to_set().contains(a2[i]));
                }
                lemma_sorted_join(a2, k, b);
                lemma_set_join(a2, k, b);
            }
            *link = Some(node);
            proof {
                assert(bkeys(*link).to_set() =~= bkeys(*old(link)).to_set().remove(value));
                lemma_keys_len(*link);
            }
            return r;
        }
        if value > node.value {
            let r = Self::remove_from(&mut node.right, value);
            proof {
                let b2 = bkeys(node.right);
                assert forall|i: int| 0 <= i < b2.len() implies b2[i] > k by {
                    assert(b2.to_set().contains(b2[i]));
                    assert(b.to_set().contains(b2[i]));
                }
                lemma_sorted_join(a, k, b2);
                lemma_set_join(a, k, b2);
            }
            *link = Some(node);
            proof {
                assert(bkeys(*link).to_set() =~= bkeys(*old(link)).to_set().remove(value));
                lemma_keys_len(*link);
            }
            return r;
        }
        proof {
            assert(!a.contains(k));
            assert(!b.contains(k));
        }
        if node.left.is_none() {
            proof {
                assert(a =~= Seq::<u64>::empty());
                assert(a.to_set() =~= Set::<u64>::empty());
            }
            *link = node.right;
            proof {
                assert(bkeys(*link).to_set() =~= bkeys(*old(link)).to_set().remove(value));
            }
        } else if node.right.is_none() {
            proof {
                assert(b =~= Seq::<u64>::empty());
                assert(b.to_set() =~= Set::<u64>::empty());
            }
            *link = node.left;
            proof {
                assert(bkeys(*link).to_set() =~= bkeys(*old(link)).to_set().remove(value));
            }
        } else {
            let m = Self::take_min(&mut node.right);
            node.value = m;
            proof {
                let b2 = bkeys(node.right);
                assert(b.len() > 0);
                assert forall|i: int| 0 <= i < a.len() implies a[i] < m by {
                    assert(b[0] > k);
                }
                assert forall|i: int| 0 <= i < b2.len() implies b2[i] > m by {
                    assert(b2[i] == b[i + 1]);
                }
                lemma_sorted_join(a, m, b2);
                lemma_set_join(a, m, b2);
                assert(b =~= seq![m] + b2);
                assert forall|x: u64| #[trigger] b.to_set().contains(x) <==> (x == m || b2.to_set().contains(x)) by {
                    if b.contains(x) {
                        let i = choose|i: int| 0 <= i < b.len() && b[i] == x;
                        if i > 0 { assert(b2[i - 1] == x); }
                    }
                    if b2.contains(x) {
                        let i = choose|i: int| 0 <= i < b2.len() && b2[i] == x;
                        assert(b[i + 1] == x);
                    }
                    if x == m { assert(b[0] == x); }
                }
            }
            *link = Some(node);
            proof {
                assert(bkeys(*link).to_set() =~= bkeys(*old(link)).to_set().remove(value));
            }
        }
        proof { lemma_keys_len(*link); }
        true
    }
}

/// Total nodes of the subtrees on a stack.
pub open spec fn stack_size(s: Seq<Box<Node>>) -> nat
    decreases s.len(),
{
    if s.len() == 0 { 0 } else { stack_size(s.drop_last()) + s.last().size() }
}

proof fn lemma_stack_size_push(s: Seq<Box<Node>>, n: Box<Node>)
    ensures
        stack_size(s.push(n)) == stack_size(s) + n.size(),
        n.size() == 1 + bsize(n.left) + bsize(n.right),
{
    assert(s.push(n).drop_last() =~= s);
}

/// Keys of a subtree are as many as its nodes.
proof fn lemma_keys_len(l: Option<Box<Node>>)
    ensures
        bkeys(l).len() == bsize(l),
    decreases l,
{
    if let Some(n) = l {
        lemma_keys_len(n.left);
        lemma_keys_len(n.right);
    }
}

impl Collection for BinarySearchTree {
    closed spec fn inv(&self) -> bool {
        &&& sorted(bkeys(self.root))
        &&& self.len == bsize(self.root)
    }

    closed spec fn len_spec(&self) -> nat {
        self.len as nat
    }

    fn len(&self) -> (r: usize) {
        self.len
    }
}

impl SearchTree for BinarySearchTree {
    type Node = Node;

    closed spec fn root_spec(&self) -> Option<Node> {
        unbox(self.root)
    }

    proof fn lemma_inv(&self) {
    }

    fn root(&self) -> (r: Option<&Node>) {
        match &self.root {
            Some(b) => Some(&**b),
            None => None,
        }
    }

    /// The new key becomes a leaf where the search for it ends.
    fn insert(&mut self, value: u64) -> (r: bool)
        ensures
            final(self).root_spec() == tree_inserted(old(self).root_spec(), value),
    {
        let inserted = Self::insert_into(&mut self.root, value);
        if inserted {
            self.len = self.len + 1;
        }
        inserted
    }

    /// A node with two children takes the next larger key in place of the one removed.
    fn remove(&mut self, value: &u64) -> (r: bool)
        ensures
            final(self).root_spec() == tree_removed(old(self).root_spec(), *value),
    {
        let removed = Self::remove_from(&mut self.root, *value);
        if removed {
            self.len = self.len - 1;
        }
        removed
    }

    /// Drops the nodes one at a time, without recursion.
    fn clear(&mut self) {
        let mut stack: Vec<Box<Node>> = Vec::new();
        let mut tmp = None;
        std::mem::swap(&mut tmp, &mut self.root);
        if let Some(root) = tmp {
            stack.push(root);
        }
        self.len = 0;
        while stack.len() > 0
            invariant
                self.root is None,
                self.len == 0,
            decreases stack_size(stack@),
        {
            let ghost before = stack@;
            let mut node = stack.pop().unwrap();
            proof { assert(before == stack@.push(node)); lemma_stack_size_push(stack@, node); }
            let ghost mid = stack@;
            let mut left = None;
            std::mem::swap(&mut left, &mut node.left);
            if let Some(l) = left {
                stack.push(l);
                proof { lemma_stack_size_push(mid, l); }
            }
            let ghost mid2 = stack@;
            let mut right = None;
            std::mem::swap(&mut right, &mut node.right);
            if let Some(r) = right {
                stack.push(r);
                proof { lemma_stack_size_push(mid2, r); }
            }
        }
    }
}

} // verus!
