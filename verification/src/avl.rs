use vstd::prelude::*;
use vstd::arithmetic::power2::{pow2, lemma_pow2_strictly_increases, lemma_pow2_unfold, lemma2_to64};
use crate::collection::{Collection, SearchNode, SearchTree, link_keys, link_size, link_height, sorted,
    lemma_sorted_join, lemma_sorted_split, lemma_set_join};

verus! {

/// A node of an AVL tree, caching the height of its subtree.
#[derive(Debug)]
pub struct Node {
    value: u64,
    left: Option<Box<Node>>,
    right: Option<Box<Node>>,
    height: usize,
}

pub open spec fn unbox(l: Option<Box<Node>>) -> Option<Node> {
    match l {
        Some(b) => Some(*b),
        None => None,
    }
}

pub open spec fn max_nat(a: nat, b: nat) -> nat {
    if a < b { b } else { a }
}

impl Node {
    /// Nodes in the subtree.
    pub closed spec fn size(&self) -> nat
        decreases self,
    {
        1 + match self.left { Some(l) => l.size(), None => 0 } + match self.right { Some(r) => r.size(), None => 0 }
    }

    /// Keys of the subtree in order.
    pub closed spec fn keys(&self) -> Seq<u64>
        decreases self,
    {
        (match self.left { Some(l) => l.keys(), None => Seq::empty() }) + seq![self.value]
            + (match self.right { Some(r) => r.keys(), None => Seq::empty() })
    }

    pub closed spec fn pre(&self) -> Seq<u64>
        decreases self,
    {
        seq![self.value] + (match self.left { Some(l) => l.pre(), None => Seq::empty() })
            + (match self.right { Some(r) => r.pre(), None => Seq::empty() })
    }

    pub closed spec fn post(&self) -> Seq<u64>
        decreases self,
    {
        (match self.left { Some(l) => l.post(), None => Seq::empty() })
            + (match self.right { Some(r) => r.post(), None => Seq::empty() }) + seq![self.value]
    }

    /// Nodes on the longest path down, counted from the structure.
    pub closed spec fn ht(&self) -> nat
        decreases self,
    {
        let hl = match self.left { Some(l) => l.ht(), None => 0 };
        let hr = match self.right { Some(r) => r.ht(), None => 0 };
        1 + if hl < hr { hr } else { hl }
    }
}

/// Height of a link.
pub closed spec fn h(l: Option<Box<Node>>) -> nat {
    match l {
        Some(n) => n.ht(),
        None => 0,
    }
}

pub closed spec fn asize(l: Option<Box<Node>>) -> nat {
    match l {
        Some(n) => n.size(),
        None => 0,
    }
}

pub closed spec fn akeys(l: Option<Box<Node>>) -> Seq<u64> {
    match l {
        Some(n) => n.keys(),
        None => Seq::empty(),
    }
}

/// Every cached height is right.
pub closed spec fn heights_ok(l: Option<Box<Node>>) -> bool
    decreases l,
{
    match l {
        Some(n) => n.height == n.ht() && heights_ok(n.left) && heights_ok(n.right),
        None => true,
    }
}

/// At every node the two subtrees' heights differ by at most one.
pub closed spec fn balanced(l: Option<Box<Node>>) -> bool
    decreases l,
{
    match l {
        Some(n) => h(n.left) <= h(n.right) + 1 && h(n.right) <= h(n.left) + 1
            && balanced(n.left) && balanced(n.right),
        None => true,
    }
}

/// A valid AVL subtree: cached heights right and balanced everywhere.
pub open spec fn avl(l: Option<Box<Node>>) -> bool {
    heights_ok(l) && balanced(l)
}

proof fn lemma_height_le_size(l: Option<Box<Node>>)
    ensures
        h(l) <= asize(l),
        akeys(l).len() == asize(l),
    decreases l,
{
    if let Some(n) = l {
        lemma_height_le_size(n.left);
        lemma_height_le_size(n.right);
    }
}

impl SearchNode for Node {
    closed spec fn key_spec(&self) -> u64 {
        self.value
    }

    closed spec fn left_spec(&self) -> Option<Self> {
        unbox(self.left)
    }

    closed spec fn right_spec(&self) -> Option<Self> {
        unbox(self.right)
    }

    closed spec fn size_spec(&self) -> nat {
        self.size()
    }

    closed spec fn keys_spec(&self) -> Seq<u64> {
        self.keys()
    }

    closed spec fn pre_spec(&self) -> Seq<u64> {
        self.pre()
    }

    closed spec fn post_spec(&self) -> Seq<u64> {
        self.post()
    }

    closed spec fn height_spec(&self) -> nat {
        self.ht()
    }

    proof fn lemma_node(&self) {
    }

    fn value(&self) -> (r: &u64) {
        &self.value
    }

    fn left(&self) -> (r: Option<&Self>) {
        match &self.left {
            Some(b) => Some(&**b),
            None => None,
        }
    }

    fn right(&self) -> (r: Option<&Self>) {
        match &self.right {
            Some(b) => Some(&**b),
            None => None,
        }
    }
}

/// The trait's view of a link matches the boxed one.
proof fn lemma_link(l: Option<Box<Node>>)
    ensures
        link_size(unbox(l)) == asize(l),
        link_keys(unbox(l)) == akeys(l),
        link_height(unbox(l)) == h(l),
{
}

impl Node {
    fn new(value: u64) -> (r: Self)
        ensures
            r.value == value,
            r.left is None,
            r.right is None,
            avl(Some(Box::new(r))),
    {
        let r = Node { value, left: None, right: None, height: 1 };
        proof { lemma_unfold(Box::new(r)); }
        r
    }

    /// The cached height of a link.
    fn link_height(link: &Option<Box<Node>>) -> (r: usize)
        requires
            heights_ok(*link),
        ensures
            r == h(*link),
    {
        match link {
            Some(node) => node.height,
            None => 0,
        }
    }

    /// Recomputes the cached height from the children's.
    fn update_height(&mut self)
        requires
            heights_ok(old(self).left),
            heights_ok(old(self).right),
            asize(Some(Box::new(*old(self)))) <= usize::MAX,
        ensures
            final(self).value == old(self).value,
            final(self).left == old(self).left,
            final(self).right == old(self).right,
            heights_ok(Some(Box::new(*final(self)))),
    {
        proof {
            lemma_height_le_size(Some(Box::new(*self)));
        }
        let hl = Self::link_height(&self.left);
        let hr = Self::link_height(&self.right);
        self.height = 1 + if hl < hr { hr } else { hl };
    }

    /// Left height minus right height.
    fn balance_factor(&self) -> (r: isize)
        requires
            heights_ok(self.left),
            heights_ok(self.right),
            h(self.left) <= 0x7fff_ffff,
            h(self.right) <= 0x7fff_ffff,
        ensures
            r == h(self.left) - h(self.right),
    {
        let hl = Self::link_height(&self.left);
        let hr = Self::link_height(&self.right);
        hl as isize - hr as isize
    }
}


/// A balanced subtree of height `h` has at least `2^(h/2) - 1` nodes.
pub proof fn lemma_balanced_size(l: Option<Box<Node>>)
    requires
        balanced(l),
    ensures
        pow2(h(l) / 2) <= asize(l) + 1,
    decreases l,
{
    if let Some(n) = l {
        lemma_balanced_size(n.left);
        lemma_balanced_size(n.right);
        lemma_unfold(n);
        let hl = h(n.left);
        let hr = h(n.right);
        let hh = h(l);
        if hh >= 2 {
            let e: nat = ((hh - 2) as nat) / 2;
            assert(hl + 2 >= hh && hr + 2 >= hh);
            assert(hl / 2 >= e && hr / 2 >= e);
            assert(pow2(e) <= pow2(hl / 2)) by {
                if e < hl / 2 { lemma_pow2_strictly_increases(e, hl / 2); }
            }
            assert(pow2(e) <= pow2(hr / 2)) by {
                if e < hr / 2 { lemma_pow2_strictly_increases(e, hr / 2); }
            }
            assert(hh / 2 == e + 1);
            lemma_pow2_unfold(hh / 2);
            assert(pow2(hh / 2) == 2 * pow2(e));
        } else {
            assert(hh / 2 == 0);
            lemma2_to64();
        }
    } else {
        lemma2_to64();
    }
}

/// A balanced subtree of at most `usize::MAX` nodes is at most 129 high.
proof fn lemma_height_bound(l: Option<Box<Node>>)
    requires
        balanced(l),
        asize(l) <= usize::MAX,
    ensures
        h(l) <= 129,
{
    lemma_balanced_size(l);
    lemma2_to64();
    if h(l) > 129 {
        lemma_pow2_strictly_increases(64, h(l) / 2);
    }
}

/// The shape `rotate_right` makes: the left child comes up, the node goes down right.
pub closed spec fn rotated_right(t: Box<Node>, r: Box<Node>) -> bool {
    &&& t.left is Some
    &&& r.value == t.left->0.value
    &&& r.left == t.left->0.left
    &&& r.right matches Some(q) && q.value == t.value && q.left == t.left->0.right && q.right == t.right
}

/// The shape `rotate_left` makes: the right child comes up, the node goes down left.
pub closed spec fn rotated_left(t: Box<Node>, r: Box<Node>) -> bool {
    &&& t.right is Some
    &&& r.value == t.right->0.value
    &&& r.right == t.right->0.right
    &&& r.left matches Some(q) && q.value == t.value && q.right == t.right->0.left && q.left == t.left
}

/// A node over the given subtrees, caching the height they give it.
pub closed spec fn mk(value: u64, left: Option<Box<Node>>, right: Option<Box<Node>>) -> Box<Node> {
    Box::new(Node { value, left, right, height: (1 + max_nat(h(left), h(right))) as usize })
}

/// The node `value` over `left` and `right` turned right: the root of
/// `left` comes up and the node goes down to its right.
pub closed spec fn turn_right(value: u64, left: Option<Box<Node>>, right: Option<Box<Node>>) -> Box<Node> {
    let p = left->0;
    mk(p.value, p.left, Some(mk(value, p.right, right)))
}

/// The node `value` over `left` and `right` turned left: the root of
/// `right` comes up and the node goes down to its left.
pub closed spec fn turn_left(value: u64, left: Option<Box<Node>>, right: Option<Box<Node>>) -> Box<Node> {
    let p = right->0;
    mk(p.value, Some(mk(value, left, p.left)), p.right)
}

/// The node `value` over `left` and `right`, turned where one side is two
/// higher than the other: once when the higher child leans outward or not
/// at all, twice when it leans inward.
pub closed spec fn rebalanced(value: u64, left: Option<Box<Node>>, right: Option<Box<Node>>) -> Box<Node> {
    if h(left) > h(right) + 1 {
        let p = left->0;
        if h(p.left) < h(p.right) {
            turn_right(value, Some(turn_left(p.value, p.left, p.right)), right)
        } else {
            turn_right(value, left, right)
        }
    } else if h(right) > h(left) + 1 {
        let p = right->0;
        if h(p.left) > h(p.right) {
            turn_left(value, left, Some(turn_right(p.value, p.left, p.right)))
        } else {
            turn_left(value, left, right)
        }
    } else {
        mk(value, left, right)
    }
}

/// The subtree after `value` goes in: a new leaf where the search for it
/// ends, each node on the way back up rebalanced; the subtree itself when
/// `value` is in it.
pub closed spec fn avl_inserted(l: Option<Box<Node>>, value: u64) -> Option<Box<Node>>
    decreases l,
{
    match l {
        None => Some(mk(value, None, None)),
        Some(n) => if value < n.value {
            if akeys(n.left).contains(value) { l } else { Some(rebalanced(n.value, avl_inserted(n.left, value), n.right)) }
        } else if value > n.value {
            if akeys(n.right).contains(value) { l } else { Some(rebalanced(n.value, n.left, avl_inserted(n.right, value))) }
        } else {
            l
        },
    }
}

/// The subtree without its leftmost node, whose right subtree takes its
/// place, each node on the way back up rebalanced.
pub closed spec fn avl_without_min(l: Option<Box<Node>>) -> Option<Box<Node>>
    decreases l,
{
    match l {
        None => None,
        Some(n) => match n.left {
            None => n.right,
            Some(_) => Some(rebalanced(n.value, avl_without_min(n.left), n.right)),
        },
    }
}

/// The subtree after `value` goes out: a node with at most one child gives
/// way to that child; a node with two takes the smallest key of its right
/// subtree, which leaves that subtree; each node on the way back up is
/// rebalanced. The subtree itself when `value` is not in it.
pub closed spec fn avl_removed(l: Option<Box<Node>>, value: u64) -> Option<Box<Node>>
    decreases l,
{
    match l {
        None => None,
        Some(n) => if value < n.value {
            if akeys(n.left).contains(value) { Some(rebalanced(n.value, avl_removed(n.left, value), n.right)) } else { l }
        } else if value > n.value {
            if akeys(n.right).contains(value) { Some(rebalanced(n.value, n.left, avl_removed(n.right, value))) } else { l }
        } else if n.left is None {
            n.right
        } else if n.right is None {
            n.left
        } else {
            Some(rebalanced(akeys(n.right)[0], n.left, avl_without_min(n.right)))
        },
    }
}

/// A subtree as a boxed link.
pub open spec fn boxed(t: Option<Node>) -> Option<Box<Node>> {
    match t {
        Some(n) => Some(Box::new(n)),
        None => None,
    }
}

/// The tree with root `t` after `value` goes in.
pub open spec fn tree_inserted(t: Option<Node>, value: u64) -> Option<Node> {
    unbox(avl_inserted(boxed(t), value))
}

/// The tree with root `t` after `value` goes out.
pub open spec fn tree_removed(t: Option<Node>, value: u64) -> Option<Node> {
    unbox(avl_removed(boxed(t), value))
}

/// A node holding `value` over `left` and `right`.
pub open spec fn tree_node(value: u64, left: Option<Node>, right: Option<Node>) -> Option<Node> {
    unbox(Some(mk(value, boxed(left), boxed(right))))
}

/// The node `value` over `left` and `right` turned right: the root of `left`
/// comes up and the node goes down to its right.
pub open spec fn turned_right(value: u64, left: Option<Node>, right: Option<Node>) -> Option<Node> {
    tree_node(left->0.key_spec(), left->0.left_spec(), tree_node(value, left->0.right_spec(), right))
}

/// The node `value` over `left` and `right` turned left: the root of `right`
/// comes up and the node goes down to its left.
pub open spec fn turned_left(value: u64, left: Option<Node>, right: Option<Node>) -> Option<Node> {
    tree_node(right->0.key_spec(), tree_node(value, left, right->0.left_spec()), right->0.right_spec())
}

/// The node `value` over `left` and `right` after rebalancing: turned once
/// when the higher side, two above the other, leans outward or not at all,
/// twice when it leans inward; as it is otherwise.
pub open spec fn balanced_node(value: u64, left: Option<Node>, right: Option<Node>) -> Option<Node> {
    if link_height(left) > link_height(right) + 1 {
        let p = left->0;
        if link_height(p.left_spec()) < link_height(p.right_spec()) {
            turned_right(value, turned_left(p.key_spec(), p.left_spec(), p.right_spec()), right)
        } else {
            turned_right(value, left, right)
        }
    } else if link_height(right) > link_height(left) + 1 {
        let p = right->0;
        if link_height(p.left_spec()) > link_height(p.right_spec()) {
            turned_left(value, left, turned_right(p.key_spec(), p.left_spec(), p.right_spec()))
        } else {
            turned_left(value, left, right)
        }
    } else {
        tree_node(value, left, right)
    }
}

/// The tree with root `t` without its smallest key.
pub open spec fn tree_without_min(t: Option<Node>) -> Option<Node> {
    unbox(avl_without_min(boxed(t)))
}

proof fn lemma_boxed_unbox(l: Option<Box<Node>>)
    ensures
        boxed(unbox(l)) == l,
        h(l) == link_height(unbox(l)),
        akeys(l) == link_keys(unbox(l)),
{
}

/// A node made over two subtrees holds the value and the subtrees given.
pub proof fn lemma_tree_node(value: u64, left: Option<Node>, right: Option<Node>)
    ensures
        tree_node(value, left, right) matches Some(m) && m.key_spec() == value && m.left_spec() == left
            && m.right_spec() == right,
{
}

proof fn lemma_turns(value: u64, left: Option<Box<Node>>, right: Option<Box<Node>>)
    ensures
        left is Some ==> unbox(Some(turn_right(value, left, right))) == turned_right(value, unbox(left), unbox(right)),
        right is Some ==> unbox(Some(turn_left(value, left, right))) == turned_left(value, unbox(left), unbox(right)),
{
    lemma_boxed_unbox(left);
    lemma_boxed_unbox(right);
    if let Some(p) = left {
        lemma_boxed_unbox(p.left);
        lemma_boxed_unbox(p.right);
    }
    if let Some(p) = right {
        lemma_boxed_unbox(p.left);
        lemma_boxed_unbox(p.right);
    }
}

/// Rebalancing a node gives the shape `balanced_node` describes.
pub proof fn lemma_rebalanced_shape(value: u64, left: Option<Node>, right: Option<Node>)
    ensures
        unbox(Some(rebalanced(value, boxed(left), boxed(right)))) == balanced_node(value, left, right),
{
    let bl = boxed(left);
    let br = boxed(right);
    lemma_boxed_unbox(bl);
    lemma_boxed_unbox(br);
    lemma_turns(value, bl, br);
    if let Some(p) = bl {
        lemma_boxed_unbox(p.left);
        lemma_boxed_unbox(p.right);
        lemma_turns(p.value, p.left, p.right);
        let inner = Some(turn_left(p.value, p.left, p.right));
        lemma_turns(value, inner, br);
        lemma_boxed_unbox(inner);
    }
    if let Some(p) = br {
        lemma_boxed_unbox(p.left);
        lemma_boxed_unbox(p.right);
        lemma_turns(p.value, p.left, p.right);
        let inner = Some(turn_right(p.value, p.left, p.right));
        lemma_turns(value, bl, inner);
        lemma_boxed_unbox(inner);
    }
}

/// Where an insert puts the key: in a new leaf at an empty tree; below the
/// left or right child, the node then rebalanced, when the key is smaller or
/// larger than the node's and not yet in that subtree; nowhere otherwise.
pub proof fn lemma_inserted_shape(t: Option<Node>, value: u64)
    ensures
        t is None ==> tree_inserted(t, value) == tree_node(value, None, None),
        t is Some && value < t->0.key_spec() ==> tree_inserted(t, value) == (if link_keys(t->0.left_spec()).contains(value) { t }
            else { balanced_node(t->0.key_spec(), tree_inserted(t->0.left_spec(), value), t->0.right_spec()) }),
        t is Some && value > t->0.key_spec() ==> tree_inserted(t, value) == (if link_keys(t->0.right_spec()).contains(value) { t }
            else { balanced_node(t->0.key_spec(), t->0.left_spec(), tree_inserted(t->0.right_spec(), value)) }),
        t is Some && value == t->0.key_spec() ==> tree_inserted(t, value) == t,
{
    if let Some(n) = t {
        lemma_boxed_unbox(n.left);
        lemma_boxed_unbox(n.right);
        let il = avl_inserted(n.left, value);
        let ir = avl_inserted(n.right, value);
        lemma_boxed_unbox(il);
        lemma_boxed_unbox(ir);
        lemma_rebalanced_shape(n.value, unbox(il), unbox(n.right));
        lemma_rebalanced_shape(n.value, unbox(n.left), unbox(ir));
    }
}

/// The shape after the smallest key leaves: a node without a left child gives
/// way to its right child; otherwise the smallest key leaves the left subtree
/// and the node is rebalanced.
pub proof fn lemma_without_min_shape(t: Option<Node>)
    ensures
        t is None ==> tree_without_min(t) is None,
        t is Some && t->0.left_spec() is None ==> tree_without_min(t) == t->0.right_spec(),
        t is Some && t->0.left_spec() is Some ==> tree_without_min(t)
            == balanced_node(t->0.key_spec(), tree_without_min(t->0.left_spec()), t->0.right_spec()),
{
    if let Some(n) = t {
        lemma_boxed_unbox(n.left);
        lemma_boxed_unbox(n.right);
        let wl = avl_without_min(n.left);
        lemma_boxed_unbox(wl);
        lemma_rebalanced_shape(n.value, unbox(wl), unbox(n.right));
    }
}

/// The shape after a remove: below the left or right child, the node then
/// rebalanced, when the key is smaller or larger than the node's and in that
/// subtree; at the node, a missing child lets the other take its place, and
/// with two children the smallest key of the right subtree takes the node's
/// place, leaves that subtree, and the node is rebalanced. The tree stays as
/// it is when the key is not in it.
pub proof fn lemma_removed_shape(t: Option<Node>, value: u64)
    ensures
        t is None ==> tree_removed(t, value) is None,
        t is Some && value < t->0.key_spec() ==> tree_removed(t, value) == (if link_keys(t->0.left_spec()).contains(value) {
            balanced_node(t->0.key_spec(), tree_removed(t->0.left_spec(), value), t->0.right_spec()) } else { t }),
        t is Some && value > t->0.key_spec() ==> tree_removed(t, value) == (if link_keys(t->0.right_spec()).contains(value) {
            balanced_node(t->0.key_spec(), t->0.left_spec(), tree_removed(t->0.right_spec(), value)) } else { t }),
        t is Some && value == t->0.key_spec() && t->0.left_spec() is None ==> tree_removed(t, value) == t->0.right_spec(),
        t is Some && value == t->0.key_spec() && t->0.left_spec() is Some && t->0.right_spec() is None
            ==> tree_removed(t, value) == t->0.left_spec(),
        t is Some && value == t->0.key_spec() && t->0.left_spec() is Some && t->0.right_spec() is Some
            ==> tree_removed(t, value) == balanced_node(link_keys(t->0.right_spec())[0], t->0.left_spec(),
                tree_without_min(t->0.right_spec())),
{
    if let Some(n) = t {
        lemma_boxed_unbox(n.left);
        lemma_boxed_unbox(n.right);
        let rl = avl_removed(n.left, value);
        let rr = avl_removed(n.right, value);
        let wr = avl_without_min(n.right);
        lemma_boxed_unbox(rl);
        lemma_boxed_unbox(rr);
        lemma_boxed_unbox(wr);
        lemma_rebalanced_shape(n.value, unbox(rl), unbox(n.right));
        lemma_rebalanced_shape(n.value, unbox(n.left), unbox(rr));
        if n.right is Some {
            lemma_rebalanced_shape(akeys(n.right)[0], unbox(n.left), unbox(wr));
        }
    }
}

proof fn lemma_unfold(n: Box<Node>)
    ensures
        h(Some(n)) == 1 + max_nat(h(n.left), h(n.right)),
        asize(Some(n)) == 1 + asize(n.left) + asize(n.right),
        akeys(Some(n)) == akeys(n.left) + seq![n.value] + akeys(n.right),
        heights_ok(Some(n)) == (n.height == h(Some(n)) && heights_ok(n.left) && heights_ok(n.right)),
        balanced(Some(n)) == (h(n.left) <= h(n.right) + 1 && h(n.right) <= h(n.left) + 1
            && balanced(n.left) && balanced(n.right)),
{
}

impl AvlTree {
    fn rotate_right(root: Box<Node>) -> (r: Box<Node>)
        requires
            root.left is Some,
            heights_ok(root.left),
            heights_ok(root.right),
            asize(Some(root)) <= usize::MAX,
        ensures
            rotated_right(root, r),
            r == turn_right(root.value, root.left, root.right),
            heights_ok(Some(r)),
            akeys(Some(r)) == akeys(Some(root)),
            asize(Some(r)) == asize(Some(root)),
    {
        let ghost t = root;
        let mut root = root;
        let mut pivot = root.left.take().unwrap();
        proof {
            lemma_unfold(t);
            lemma_unfold(pivot);
        }
        root.left = pivot.right.take();
        root.update_height();
        let ghost q = root;
        proof { lemma_unfold(q); }
        pivot.right = Some(root);
        pivot.update_height();
        proof {
            lemma_unfold(pivot);
            assert(akeys(Some(pivot)) =~= akeys(Some(t)));
        }
        pivot
    }

    fn rotate_left(root: Box<Node>) -> (r: Box<Node>)
        requires
            root.right is Some,
            heights_ok(root.left),
            heights_ok(root.right),
            asize(Some(root)) <= usize::MAX,
        ensures
            rotated_left(root, r),
            r == turn_left(root.value, root.left, root.right),
            heights_ok(Some(r)),
            akeys(Some(r)) == akeys(Some(root)),
            asize(Some(r)) == asize(Some(root)),
    {
        let ghost t = root;
        let mut root = root;
        let mut pivot = root.right.take().unwrap();
        proof {
            lemma_unfold(t);
            lemma_unfold(pivot);
        }
        root.right = pivot.left.take();
        root.update_height();
        let ghost q = root;
        proof { lemma_unfold(q); }
        pivot.left = Some(root);
        pivot.update_height();
        proof {
            lemma_unfold(pivot);
            assert(akeys(Some(pivot)) =~= akeys(Some(t)));
        }
        pivot
    }

    /// Restores balance at a node whose subtrees are AVL trees whose heights
    /// differ by at most two.
    #[verifier::spinoff_prover]
    #[verifier::rlimit(40)]
    fn rebalance(node: Box<Node>) -> (r: Box<Node>)
        requires
            avl(node.left),
            avl(node.right),
            h(node.left) <= h(node.right) + 2,
            h(node.right) <= h(node.left) + 2,
            asize(Some(node)) <= usize::MAX,
        ensures
            avl(Some(r)),
            r == rebalanced(node.value, node.left, node.right),
            akeys(Some(r)) == akeys(Some(node)),
            asize(Some(r)) == asize(Some(node)),
            max_nat(h(node.left), h(node.right)) <= h(Some(r)),
            h(Some(r)) <= max_nat(h(node.left), h(node.right)) + 1,
            h(node.left) <= h(node.right) + 1 && h(node.right) <= h(node.left) + 1
                ==> h(Some(r)) == max_nat(h(node.left), h(node.right)) + 1,
    {
        let ghost t = node;
        let mut node = node;
        proof {
            lemma_unfold(t);
            lemma_height_bound(t.left);
            lemma_height_bound(t.right);
        }
        node.update_height();
        let balance = node.balance_factor();
        if balance > 1 {
            let ghost p = t.left->0;
            proof {
                lemma_unfold(p);
                lemma_height_bound(p.left);
                lemma_height_bound(p.right);
            }
            let left_bf = match &node.left {
                Some(l) => l.balance_factor(),
                None => 0,
            };
            if left_bf < 0 {
                let left = node.left.take().unwrap();
                let ghost q = p.right->0;
                proof { lemma_unfold(q); }
                let new_left = Self::rotate_left(left);
                proof {
                    lemma_unfold(new_left);
                    lemma_unfold(new_left.left->0);
                }
                node.left = Some(new_left);
                proof { lemma_unfold(node); }
                let r = Self::rotate_right(node);
                proof {
                    lemma_unfold(r);
                    lemma_unfold(r.left->0);
                    lemma_unfold(r.right->0);
                }
                return r;
            }
            let r = Self::rotate_right(node);
            proof {
                lemma_unfold(r);
                lemma_unfold(r.right->0);
            }
            return r;
        }
        if balance < -1 {
            let ghost p = t.right->0;
            proof {
                lemma_unfold(p);
                lemma_height_bound(p.left);
                lemma_height_bound(p.right);
            }
            let right_bf = match &node.right {
                Some(l) => l.balance_factor(),
                None => 0,
            };
            if right_bf > 0 {
                let right = node.right.take().unwrap();
                let ghost q = p.left->0;
                proof { lemma_unfold(q); }
                let new_right = Self::rotate_right(right);
                proof {
                    lemma_unfold(new_right);
                    lemma_unfold(new_right.right->0);
                }
                node.right = Some(new_right);
                proof { lemma_unfold(node); }
                let r = Self::rotate_left(node);
                proof {
                    lemma_unfold(r);
                    lemma_unfold(r.left->0);
                    lemma_unfold(r.right->0);
                }
                return r;
            }
            let r = Self::rotate_left(node);
            proof {
                lemma_unfold(r);
                lemma_unfold(r.left->0);
            }
            return r;
        }
        proof { lemma_unfold(node); }
        node
    }

    pub fn new() -> (r: Self)
        ensures
            r.inv(),
            r.root_spec() is None,
    {
        AvlTree { root: None, len: 0 }
    }

    fn insert_into(link: &mut Option<Box<Node>>, value: u64) -> (r: bool)
        requires
            avl(*old(link)),
            sorted(akeys(*old(link))),
            asize(*old(link)) < usize::MAX,
        ensures
            avl(*final(link)),
            sorted(akeys(*final(link))),
            akeys(*final(link)).to_set() == akeys(*old(link)).to_set().insert(value),
            r == !akeys(*old(link)).contains(value),
            asize(*final(link)) == asize(*old(link)) + if r { 1nat } else { 0nat },
            !r ==> *final(link) == *old(link),
            h(*old(link)) <= h(*final(link)) <= h(*old(link)) + 1,
            *final(link) == avl_inserted(*old(link), value),
        decreases *old(link),
    {
        if link.is_none() {
            let n = Node::new(value);
            *link = Some(Box::new(n));
            proof {
                lemma_unfold(Box::new(n));
                assert(akeys(*old(link)) =~= Seq::<u64>::empty());
                assert(akeys(*old(link)).to_set() =~= Set::<u64>::empty());
                assert(akeys(*link) =~= seq![value]);
                assert forall|x: u64| #[trigger] akeys(*link).to_set().contains(x)
                    <==> Set::<u64>::empty().insert(value).contains(x) by {
                    if x == value { assert(akeys(*link)[0] == x); }
                }
                assert(akeys(*link).to_set() =~= Set::<u64>::empty().insert(value));
            }
            return true;
        }
        let mut node = link.take().unwrap();
        let ghost t = node;
        let ghost a = akeys(node.left);
        let ghost b = akeys(node.right);
        let ghost k = node.value;
        proof {
            lemma_unfold(t);
            lemma_sorted_split(a, k, b);
            lemma_set_join(a, k, b);
        }
        let inserted;
        if value < node.value {
            inserted = Self::insert_into(&mut node.left, value);
            proof {
                let a2 = akeys(node.left);
                assert forall|i: int| 0 <= i < a2.len() implies a2[i] < k by {
                    assert(a2.to_set().contains(a2[i]));
                    if a2[i] != value {
                        assert(a.to_set().contains(a2[i]));
                    }
                }
                lemma_sorted_join(a2, k, b);
                lemma_set_join(a2, k, b);
                lemma_unfold(node);
            }
        } else if value > node.value {
            inserted = Self::insert_into(&mut node.right, value);
            proof {
                let b2 = akeys(node.right);
                assert forall|i: int| 0 <= i < b2.len() implies b2[i] > k by {
                    assert(b2.to_set().contains(b2[i]));
                    if b2[i] != value {
                        assert(b.to_set().contains(b2[i]));
                    }
                }
                lemma_sorted_join(a, k, b2);
                lemma_set_join(a, k, b2);
                lemma_unfold(node);
            }
        } else {
            proof { assert((a + seq![k] + b)[a.len() as int] == k); }
            *link = Some(node);
            return false;
        }
        if inserted {
            *link = Some(Self::rebalance(node));
        } else {
            *link = Some(node);
        }
        proof {
            assert(akeys(*link).to_set() =~= akeys(*old(link)).to_set().insert(value));
        }
        inserted
    }

    /// Removes and returns the smallest key of a nonempty subtree.
    fn take_min(link: &mut Option<Box<Node>>) -> (r: u64)
        requires
            old(link).is_some(),
            avl(*old(link)),
            sorted(akeys(*old(link))),
            asize(*old(link)) <= usize::MAX,
        ensures
            avl(*final(link)),
            sorted(akeys(*final(link))),
            akeys(*old(link)).len() > 0,
            r == akeys(*old(link))[0],
            akeys(*final(link)) == akeys(*old(link)).drop_first(),
            asize(*final(link)) + 1 == asize(*old(link)),
            h(*final(link)) <= h(*old(link)) <= h(*final(link)) + 1,
            *final(link) == avl_without_min(*old(link)),
        decreases *old(link),
    {
        let mut node = link.take().unwrap();
        let ghost t = node;
        let ghost a = akeys(node.left);
        let ghost b = akeys(node.right);
        let ghost k = node.value;
        proof {
            lemma_unfold(t);
            lemma_sorted_split(a, k, b);
        }
        if node.left.is_none() {
            proof {
                assert(a =~= Seq::<u64>::empty());
                assert(b =~= (a + seq![k] + b).drop_first());
            }
            *link = node.right.take();
            return node.value;
        }
        let r = Self::take_min(&mut node.left);
        proof {
            let a2 = akeys(node.left);
            assert forall|i: int| 0 <= i < a2.len() implies a2[i] < k by {
                assert(a2[i] == a[i + 1]);
            }
            lemma_sorted_join(a2, k, b);
            assert(a2 + seq![k] + b =~= (a + seq![k] + b).drop_first());
            lemma_unfold(node);
        }
        *link = Some(Self::rebalance(node));
        r
    }

    /// Removes the key at the root of a subtree.
    fn remove_at(node: Box<Node>) -> (r: Option<Box<Node>>)
        requires
            avl(Some(node)),
            sorted(akeys(Some(node))),
            asize(Some(node)) <= usize::MAX,
        ensures
            avl(r),
            sorted(akeys(r)),
            akeys(r).to_set() == akeys(Some(node)).to_set().remove(node.value),
            asize(r) + 1 == asize(Some(node)),
            h(r) <= h(Some(node)) <= h(r) + 1,
            r == avl_removed(Some(node), node.value),
    {
        let mut node = node;
        let ghost t = node;
        let ghost a = akeys(node.left);
        let ghost b = akeys(node.right);
        let ghost k = node.value;
        proof {
            lemma_unfold(t);
            lemma_sorted_split(a, k, b);
            lemma_set_join(a, k, b);
            assert((a + seq![k] + b)[a.len() as int] == k);
            assert(!a.contains(k));
            assert(!b.contains(k));
        }
        if node.left.is_none() {
            proof {
                assert(a =~= Seq::<u64>::empty());
                assert(a.to_set() =~= Set::<u64>::empty());
            }
            let r = node.right.take();
            proof {
                assert(akeys(r).to_set() =~= akeys(Some(t)).to_set().remove(k));
            }
            return r;
        }
        if node.right.is_none() {
            proof {
                assert(b =~= Seq::<u64>::empty());
                assert(b.to_set() =~= Set::<u64>::empty());
            }
            let r = node.left.take();
            proof {
                assert(akeys(r).to_set() =~= akeys(Some(t)).to_set().remove(k));
            }
            return r;
        }
        let m = Self::take_min(&mut node.right);
        node.value = m;
        proof {
            let b2 = akeys(node.right);
            assert(b.len() > 0);
            assert forall|i: int| 0 <= i < a.len() implies a[i] < m by {
                assert(b[0] > k);
            }
            assert forall|i: int| 0 <= i < b2.len() implies b2[i] > m by {
                assert(b2[i] == b[i + 1]);
            }
            lemma_sorted_join(a, m, b2);
            lemma_set_join(a, m, b2);
            assert(b =~= seq![m] + b2);
            assert forall|x: u64| #[trigger] b.to_set().contains(x) <==> (x == m || b2.to_set().contains(x)) by {
                if b.contains(x) {
                    let i = choose|i: int| 0 <= i < b.len() && b[i] == x;
                    if i > 0 { assert(b2[i - 1] == x); }
                }
                if b2.contains(x) {
                    let i = choose|i: int| 0 <= i < b2.len() && b2[i] == x;
                    assert(b[i + 1] == x);
                }
                if x == m { assert(b[0] == x); }
            }
            lemma_unfold(node);
        }
        let r = Self::rebalance(node);
        proof {
            assert(akeys(Some(r)).to_set() =~= akeys(Some(t)).to_set().remove(k));
        }
        Some(r)
    }

    /// Removes `value` from a subtree; returns whether it was there.
    fn remove_from(link: &mut Option<Box<Node>>, value: u64) -> (r: bool)
        requires
            avl(*old(link)),
            sorted(akeys(*old(link))),
            asize(*old(link)) <= usize::MAX,
        ensures
            avl(*final(link)),
            sorted(akeys(*final(link))),
            akeys(*final(link)).to_set() == akeys(*old(link)).to_set().remove(value),
            r == akeys(*old(link)).contains(value),
            asize(*final(link)) + (if r { 1nat } else { 0nat }) == asize(*old(link)),
            !r ==> *final(link) == *old(link),
            h(*final(link)) <= h(*old(link)) <= h(*final(link)) + 1,
            *final(link) == avl_removed(*old(link), value),
        decreases *old(link),
    {
        if link.is_none() {
            proof {
                assert(akeys(*old(link)) =~= Seq::<u64>::empty());
                assert(akeys(*old(link)).to_set() =~= Set::<u64>::empty());
                assert(Set::<u64>::empty().remove(value) =~= Set::<u64>::empty());
            }
            return false;
        }
        let mut node = link.take().unwrap();
        let ghost t = node;
        let ghost a = akeys(node.left);
        let ghost b = akeys(node.right);
        let ghost k = node.value;
        proof {
            lemma_unfold(t);
            lemma_sorted_split(a, k, b);
            lemma_set_join(a, k, b);
            assert((a + seq![k] + b)[a.len() as int] == k);
        }
        let removed;
        if value < node.value {
            removed = Self::remove_from(&mut node.left, value);
            proof {
                let a2 = akeys(node.left);
                assert forall|i: int| 0 <= i < a2.len() implies a2[i] < k by {
                    assert(a2.to_set().contains(a2[i]));
                    assert(a.to_set().contains(a2[i]));
                }
                lemma_sorted_join(a2, k, b);
                lemma_set_join(a2, k, b);
                lemma_unfold(node);
            }
        } else if value > node.value {
            removed = Self::remove_from(&mut node.right, value);
            proof {
                let b2 = akeys(node.right);
                assert forall|i: int| 0 <= i < b2.len() implies b2[i] > k by {
                    assert(b2.to_set().contains(b2[i]));
                    assert(b.to_set().contains(b2[i]));
                }
                lemma_sorted_join(a, k, b2);
                lemma_set_join(a, k, b2);
                lemma_unfold(node);
            }
        } else {
            proof {
                assert(!a.contains(k));
                assert(!b.contains(k));
                assert(akeys(*old(link)).to_set().remove(value) =~= akeys(Some(t)).to_set().remove(t.value));
            }
            *link = Self::remove_at(node);
            return true;
        }
        if removed {
            *link = Some(Self::rebalance(node));
        } else {
            *link = Some(node);
        }
        proof {
            assert(akeys(*link).to_set() =~= akeys(*old(link)).to_set().remove(value));
        }
        removed
    }
}

/// An AVL tree of distinct `u64` keys.
#[derive(Debug)]
pub struct AvlTree {
    root: Option<Box<Node>>,
    len: usize,
}

/// Total nodes of the subtrees on a stack.
pub closed spec fn stack_size(s: Seq<Box<Node>>) -> nat
    decreases s.len(),
{
    if s.len() == 0 { 0 } else { stack_size(s.drop_last()) + s.last().size() }
}

proof fn lemma_stack_size_push(s: Seq<Box<Node>>, n: Box<Node>)
    ensures
        stack_size(s.push(n)) == stack_size(s) + n.size(),
        n.size() == 1 + asize(n.left) + asize(n.right),
{
    assert(s.push(n).drop_last() =~= s);
}

impl Collection for AvlTree {
    closed spec fn inv(&self) -> bool {
        &&& avl(self.root)
        &&& sorted(akeys(self.root))
        &&& self.len == asize(self.root)
    }

    closed spec fn len_spec(&self) -> nat {
        self.len as nat
    }

    fn len(&self) -> (r: usize) {
        self.len
    }
}

impl SearchTree for AvlTree {
    type Node = Node;

    closed spec fn root_spec(&self) -> Option<Node> {
        unbox(self.root)
    }

    proof fn lemma_inv(&self) {
        lemma_link(self.root);
    }

    fn root(&self) -> (r: Option<&Node>) {
        match &self.root {
            Some(b) => Some(&**b),
            None => None,
        }
    }

    /// The new key becomes a leaf where the search for it ends, and the
    /// nodes above it are rebalanced.
    fn insert(&mut self, value: u64) -> (r: bool)
        ensures
            final(self).root_spec() == tree_inserted(old(self).root_spec(), value),
    {
        proof { lemma_link(self.root); }
        let inserted = Self::insert_into(&mut self.root, value);
        if inserted {
            self.len = self.len + 1;
        }
        proof { lemma_link(self.root); }
        inserted
    }

    /// A node with two children takes the next larger key in place of the
    /// one removed, and the nodes above are rebalanced.
    fn remove(&mut self, value: &u64) -> (r: bool)
        ensures
            final(self).root_spec() == tree_removed(old(self).root_spec(), *value),
    {
        proof { lemma_link(self.root); }
        let removed = Self::remove_from(&mut self.root, *value);
        if removed {
            self.len = self.len - 1;
        }
        proof { lemma_link(self.root); }
        removed
    }

    /// Read from the root's cached height.
    fn height(&self) -> (r: usize) {
        proof { lemma_link(self.root); }
        Node::link_height(&self.root)
    }

    /// Drops the nodes one at a time, without recursion.
    fn clear(&mut self) {
        let mut stack: Vec<Box<Node>> = Vec::new();
        if let Some(root) = self.root.take() {
            stack.push(root);
        }
        self.len = 0;
        while stack.len() > 0
            invariant
                self.root is None,
                self.len == 0,
            decreases stack_size(stack@),
        {
            let ghost before = stack@;
            let mut node = stack.pop().unwrap();
            proof { assert(before == stack@.push(node)); lemma_stack_size_push(stack@, node); }
            let ghost mid = stack@;
            if let Some(l) = node.left.take() {
                stack.push(l);
                proof { lemma_stack_size_push(mid, l); }
            }
            let ghost mid2 = stack@;
            if let Some(r) = node.right.take() {
                stack.push(r);
                proof { lemma_stack_size_push(mid2, r); }
            }
        }
        proof {
            assert(akeys(self.root) =~= Seq::<u64>::empty());
        }
    }
}

/// An AVL tree holding `n` keys is at most about `2 log2(n + 1)` high:
/// two to the power of half its height is at most `n + 1`.
pub proof fn lemma_height_logarithmic(tree: &AvlTree)
    requires
        tree.inv(),
    ensures
        pow2(link_height(tree.root_spec()) / 2) <= tree.len_spec() + 1,
{
    lemma_link(tree.root);
    lemma_balanced_size(tree.root);
}
} // verus!
