use vstd::prelude::*;
use vstd::seq_lib::lemma_no_dup_in_concat;
use vstd::set_lib::{lemma_int_range, lemma_len_subset, set_int_range};
use super::node::{Node, NodeId};
use super::shape::{wf, reach, reach_list, entries, entries_list, child_lo, child_hi, lemma_reach_list_member,
    lemma_reach_valid};

verus! {

/// The leaves of the subtree at `id`, left to right.
pub open spec fn leaves<V>(nodes: Seq<Node<V>>, id: int, h: nat) -> Seq<int>
    decreases h, 0nat,
{
    if 0 <= id < nodes.len() {
        match nodes[id] {
            Node::Leaf(_) => seq![id],
            Node::Internal(n) => if h > 0 { leaves_list(nodes, n.children@, (h - 1) as nat) } else { Seq::empty() },
        }
    } else {
        Seq::empty()
    }
}

pub open spec fn leaves_list<V>(nodes: Seq<Node<V>>, cs: Seq<NodeId>, h: nat) -> Seq<int>
    decreases h, cs.len(),
{
    if cs.len() == 0 {
        Seq::empty()
    } else {
        leaves_list(nodes, cs.drop_last(), h) + leaves(nodes, cs.last().0 as int, h)
    }
}

/// The leaf at the bottom of the leftmost path below `id`.
pub open spec fn leftmost<V>(nodes: Seq<Node<V>>, id: int, h: nat) -> int
    decreases h,
{
    if h > 0 && 0 <= id < nodes.len() && nodes[id] is Internal && nodes[id]->Internal_0.children@.len() > 0 {
        leftmost(nodes, nodes[id]->Internal_0.children@[0].0 as int, (h - 1) as nat)
    } else {
        id
    }
}

/// The index a link points to.
pub open spec fn target(next: Option<NodeId>) -> Option<int> {
    match next {
        Some(n) => Some(n.0 as int),
        None => None,
    }
}

/// The leaf that should follow `ls[i]`: the next one in `ls`, or `tail` after the last.
pub open spec fn after_leaf(ls: Seq<int>, i: int, tail: Option<int>) -> Option<int> {
    if i + 1 < ls.len() { Some(ls[i + 1]) } else { tail }
}

/// The first of `ls`, or `tail` if there is none.
pub open spec fn first_or(ls: Seq<int>, tail: Option<int>) -> Option<int> {
    if ls.len() > 0 { Some(ls[0]) } else { tail }
}

/// `ls[i]` is a leaf of the arena whose link points to the leaf that follows it.
pub open spec fn link_at<V>(nodes: Seq<Node<V>>, ls: Seq<int>, i: int, tail: Option<int>) -> bool {
    &&& 0 <= ls[i] < nodes.len()
    &&& nodes[ls[i]] is Leaf
    &&& target(nodes[ls[i]]->Leaf_0.next) == after_leaf(ls, i, tail)
}

/// Each leaf of `ls` links to the one after it, and the last one to `tail`.
pub open spec fn linked<V>(nodes: Seq<Node<V>>, ls: Seq<int>, tail: Option<int>) -> bool {
    forall|i: int| 0 <= i < ls.len() ==> #[trigger] link_at(nodes, ls, i, tail)
}

/// The nodes at the indices `ls` are the same in both arenas.
pub open spec fn unchanged<V>(n0: Seq<Node<V>>, n1: Seq<Node<V>>, ls: Seq<int>) -> bool {
    forall|k: int| 0 <= k < ls.len() ==> 0 <= #[trigger] ls[k] < n0.len() && ls[k] < n1.len() && n1[ls[k]] == n0[ls[k]]
}

/// The leaves met by starting at `start` and following the links, at most `fuel` of them.
pub open spec fn chain<V>(nodes: Seq<Node<V>>, start: Option<int>, fuel: nat) -> Seq<int>
    decreases fuel,
{
    match start {
        Some(i) => if fuel > 0 && 0 <= i < nodes.len() && nodes[i] is Leaf {
            seq![i] + chain(nodes, target(nodes[i]->Leaf_0.next), (fuel - 1) as nat)
        } else {
            Seq::empty()
        },
        None => Seq::empty(),
    }
}

/// The entries of the leaves `ls`, one leaf after another.
pub open spec fn leaf_entries<V>(nodes: Seq<Node<V>>, ls: Seq<int>) -> Seq<(u64, V)>
    decreases ls.len(),
{
    if ls.len() == 0 {
        Seq::empty()
    } else {
        leaf_entries(nodes, ls.drop_last()) + nodes[ls.last()]->Leaf_0.entries@
    }
}

/// The leaves of the subtree at `id` are leaves of it, none twice, and there is one at least.
pub open spec fn leaves_ok<V>(nodes: Seq<Node<V>>, id: int, h: nat) -> bool {
    let ls = leaves(nodes, id, h);
    &&& ls.len() > 0
    &&& ls.no_duplicates()
    &&& forall|k: int| 0 <= k < ls.len() ==> reach(nodes, id, h).contains(#[trigger] ls[k]) && 0 <= ls[k] < nodes.len()
        && nodes[ls[k]] is Leaf
}

pub proof fn lemma_leaves_list_append<V>(nodes: Seq<Node<V>>, a: Seq<NodeId>, b: Seq<NodeId>, h: nat)
    ensures
        leaves_list(nodes, a + b, h) == leaves_list(nodes, a, h) + leaves_list(nodes, b, h),
    decreases b.len(),
{
    if b.len() == 0 {
        assert(a + b =~= a);
        assert(leaves_list(nodes, a, h) + leaves_list(nodes, b, h) =~= leaves_list(nodes, a, h));
    } else {
        lemma_leaves_list_append(nodes, a, b.drop_last(), h);
        assert((a + b).drop_last() =~= a + b.drop_last());
        assert((a + b).last() == b.last());
        assert(leaves_list(nodes, a + b, h) =~= leaves_list(nodes, a, h) + leaves_list(nodes, b, h));
    }
}

pub proof fn lemma_leaves_list_single<V>(nodes: Seq<Node<V>>, c: NodeId, h: nat)
    ensures
        leaves_list(nodes, seq![c], h) == leaves(nodes, c.0 as int, h),
{
    assert(seq![c].drop_last() =~= Seq::<NodeId>::empty());
    assert(seq![c].last() == c);
    assert(leaves_list(nodes, Seq::<NodeId>::empty(), h) == Seq::<int>::empty());
    assert(leaves_list(nodes, seq![c], h) =~= leaves(nodes, c.0 as int, h));
}

/// Children whose leaves are the same give the same leaves.
pub proof fn lemma_leaves_list_eq<V>(n0: Seq<Node<V>>, n1: Seq<Node<V>>, cs: Seq<NodeId>, h: nat)
    requires
        forall|i: int| 0 <= i < cs.len() ==> leaves(n1, (#[trigger] cs[i]).0 as int, h) == leaves(n0, cs[i].0 as int, h),
    ensures
        leaves_list(n1, cs, h) == leaves_list(n0, cs, h),
    decreases cs.len(),
{
    if cs.len() > 0 {
        assert forall|i: int| 0 <= i < cs.len() - 1 implies leaves(n1, (#[trigger] cs.drop_last()[i]).0 as int, h)
            == leaves(n0, cs.drop_last()[i].0 as int, h) by {
            assert(cs.drop_last()[i] == cs[i]);
        }
        lemma_leaves_list_eq(n0, n1, cs.drop_last(), h);
        assert(cs.last() == cs[cs.len() - 1]);
    }
}

/// Putting a leaf in place of a leaf leaves the leaves of every subtree as they were.
pub proof fn lemma_leaves_update_leaf<V>(nodes: Seq<Node<V>>, x: int, leaf: Node<V>, id: int, h: nat)
    requires
        0 <= x < nodes.len(),
        nodes[x] is Leaf,
        leaf is Leaf,
    ensures
        leaves(nodes.update(x, leaf), id, h) == leaves(nodes, id, h),
    decreases h, 0nat,
{
    if 0 <= id < nodes.len() && id != x {
        if let Node::Internal(n) = nodes[id] {
            if h > 0 {
                lemma_leaves_list_update_leaf(nodes, x, leaf, n.children@, (h - 1) as nat);
            }
        }
    }
}

pub proof fn lemma_leaves_list_update_leaf<V>(nodes: Seq<Node<V>>, x: int, leaf: Node<V>, cs: Seq<NodeId>, h: nat)
    requires
        0 <= x < nodes.len(),
        nodes[x] is Leaf,
        leaf is Leaf,
    ensures
        leaves_list(nodes.update(x, leaf), cs, h) == leaves_list(nodes, cs, h),
    decreases h, cs.len(),
{
    if cs.len() > 0 {
        lemma_leaves_list_update_leaf(nodes, x, leaf, cs.drop_last(), h);
        lemma_leaves_update_leaf(nodes, x, leaf, cs.last().0 as int, h);
    }
}

/// Putting a leaf with the same link in place of a leaf keeps every run of leaves linked as it was.
pub proof fn lemma_linked_update_leaf<V>(nodes: Seq<Node<V>>, x: int, leaf: Node<V>, ls: Seq<int>, tail: Option<int>)
    requires
        0 <= x < nodes.len(),
        nodes[x] is Leaf,
        leaf is Leaf,
        leaf->Leaf_0.next == nodes[x]->Leaf_0.next,
    ensures
        linked(nodes.update(x, leaf), ls, tail) == linked(nodes, ls, tail),
{
    let n2 = nodes.update(x, leaf);
    assert forall|i: int| 0 <= i < ls.len() implies #[trigger] link_at(n2, ls, i, tail) == link_at(nodes, ls, i, tail) by {
    }
    if linked(nodes, ls, tail) {
        assert forall|i: int| 0 <= i < ls.len() implies #[trigger] link_at(n2, ls, i, tail) by {
            assert(link_at(nodes, ls, i, tail));
        }
    }
    if linked(n2, ls, tail) {
        assert forall|i: int| 0 <= i < ls.len() implies #[trigger] link_at(nodes, ls, i, tail) by {
            assert(link_at(n2, ls, i, tail));
        }
    }
}

/// Leaves whose nodes are the same in two arenas are linked in one as in the other.
pub proof fn lemma_linked_same<V>(n0: Seq<Node<V>>, n1: Seq<Node<V>>, ls: Seq<int>, tail: Option<int>)
    requires
        unchanged(n0, n1, ls),
    ensures
        linked(n1, ls, tail) == linked(n0, ls, tail),
{
    assert forall|i: int| 0 <= i < ls.len() implies #[trigger] link_at(n1, ls, i, tail) == link_at(n0, ls, i, tail) by {
        assert(0 <= ls[i] < n0.len());
    }
    if linked(n0, ls, tail) {
        assert forall|i: int| 0 <= i < ls.len() implies #[trigger] link_at(n1, ls, i, tail) by {
            assert(link_at(n0, ls, i, tail));
        }
    }
    if linked(n1, ls, tail) {
        assert forall|i: int| 0 <= i < ls.len() implies #[trigger] link_at(n0, ls, i, tail) by {
            assert(link_at(n1, ls, i, tail));
        }
    }
}

/// A run of leaves is linked when its first part is linked to the start of the
/// second part, and the second part to `tail`.
pub proof fn lemma_linked_append<V>(nodes: Seq<Node<V>>, a: Seq<int>, b: Seq<int>, tail: Option<int>)
    ensures
        linked(nodes, a + b, tail) == (linked(nodes, a, first_or(b, tail)) && linked(nodes, b, tail)),
{
    let s = a + b;
    let m = first_or(b, tail);
    assert forall|i: int| 0 <= i < a.len() implies #[trigger] link_at(nodes, s, i, tail) == link_at(nodes, a, i, m) by {
        assert(s[i] == a[i]);
        if i + 1 < a.len() {
            assert(s[i + 1] == a[i + 1]);
        } else if b.len() > 0 {
            assert(s[i + 1] == b[0]);
        }
    }
    assert forall|j: int| 0 <= j < b.len() implies #[trigger] link_at(nodes, b, j, tail) == link_at(nodes, s, a.len() + j, tail) by {
        assert(s[a.len() + j] == b[j]);
        if j + 1 < b.len() {
            assert(s[a.len() + j + 1] == b[j + 1]);
        }
    }
    if linked(nodes, s, tail) {
        assert forall|i: int| 0 <= i < a.len() implies #[trigger] link_at(nodes, a, i, m) by {
            assert(link_at(nodes, s, i, tail));
        }
        assert forall|j: int| 0 <= j < b.len() implies #[trigger] link_at(nodes, b, j, tail) by {
            assert(link_at(nodes, s, a.len() + j, tail));
        }
    }
    if linked(nodes, a, m) && linked(nodes, b, tail) {
        assert forall|i: int| 0 <= i < s.len() implies #[trigger] link_at(nodes, s, i, tail) by {
            if i < a.len() {
                assert(link_at(nodes, a, i, m));
            } else {
                let j = i - a.len();
                assert(link_at(nodes, b, j, tail));
                assert(a.len() + j == i);
            }
        }
    }
}

/// The leaves of children that each meet `leaves_ok`: the first is that of the
/// first child, all lie below the children, and none repeats when no two
/// children share a node.
pub proof fn lemma_leaves_list_valid<V>(nodes: Seq<Node<V>>, cs: Seq<NodeId>, h: nat)
    requires
        forall|i: int| 0 <= i < cs.len() ==> leaves_ok(nodes, (#[trigger] cs[i]).0 as int, h),
    ensures
        cs.len() > 0 ==> leaves_list(nodes, cs, h).len() > 0
            && leaves_list(nodes, cs, h)[0] == leaves(nodes, cs[0].0 as int, h)[0],
        forall|k: int| 0 <= k < leaves_list(nodes, cs, h).len() ==> reach_list(nodes, cs, h).contains(
            #[trigger] leaves_list(nodes, cs, h)[k]) && 0 <= leaves_list(nodes, cs, h)[k] < nodes.len()
            && nodes[leaves_list(nodes, cs, h)[k]] is Leaf,
        (forall|i: int, j: int| 0 <= i < j < cs.len() ==> reach(nodes, (#[trigger] cs[i]).0 as int, h).disjoint(
            reach(nodes, (#[trigger] cs[j]).0 as int, h))) ==> leaves_list(nodes, cs, h).no_duplicates(),
    decreases cs.len(),
{
    if cs.len() > 0 {
        let init = cs.drop_last();
        let last = cs.last();
        assert(last == cs[cs.len() - 1]);
        assert forall|i: int| 0 <= i < init.len() implies leaves_ok(nodes, (#[trigger] init[i]).0 as int, h) by {
            assert(init[i] == cs[i]);
        }
        lemma_leaves_list_valid(nodes, init, h);
        let a = leaves_list(nodes, init, h);
        let b = leaves(nodes, last.0 as int, h);
        let ll = leaves_list(nodes, cs, h);
        assert(leaves_ok(nodes, last.0 as int, h));
        assert(ll == a + b);
        assert(reach_list(nodes, cs, h) == reach_list(nodes, init, h).union(reach(nodes, last.0 as int, h)));
        assert forall|k: int| 0 <= k < ll.len() implies reach_list(nodes, cs, h).contains(#[trigger] ll[k])
            && 0 <= ll[k] < nodes.len() && nodes[ll[k]] is Leaf by {
            if k < a.len() {
                assert(ll[k] == a[k]);
            } else {
                assert(ll[k] == b[k - a.len()]);
            }
        }
        if init.len() > 0 {
            assert(init[0] == cs[0]);
            assert(ll[0] == a[0]);
        } else {
            assert(a =~= Seq::<int>::empty());
            assert(ll[0] == b[0]);
        }
        if forall|i: int, j: int| 0 <= i < j < cs.len() ==> reach(nodes, (#[trigger] cs[i]).0 as int, h).disjoint(
            reach(nodes, (#[trigger] cs[j]).0 as int, h)) {
            assert forall|i: int, j: int| 0 <= i < j < init.len() implies reach(nodes, (#[trigger] init[i]).0 as int, h).disjoint(
                reach(nodes, (#[trigger] init[j]).0 as int, h)) by {
                assert(init[i] == cs[i] && init[j] == cs[j]);
            }
            lemma_reach_list_member(nodes, init, h);
            assert forall|i: int, j: int| 0 <= i < a.len() && 0 <= j < b.len() implies a[i] != b[j] by {
                assert(reach_list(nodes, init, h).contains(a[i]));
                let t = choose|t: int| 0 <= t < init.len() && #[trigger] reach(nodes, init[t].0 as int, h).contains(a[i]);
                assert(init[t] == cs[t]);
                assert(reach(nodes, cs[t].0 as int, h).disjoint(reach(nodes, cs[cs.len() - 1].0 as int, h)));
                assert(reach(nodes, last.0 as int, h).contains(b[j]));
            }
            lemma_no_dup_in_concat(a, b);
        }
    }
}

/// The leaves of a valid subtree meet `leaves_ok`, and the first is its leftmost leaf.
pub proof fn lemma_leaves_valid<V>(nodes: Seq<Node<V>>, id: int, h: nat, lo: int, hi: int, order: nat)
    requires
        wf(nodes, id, h, lo, hi, order),
    ensures
        leaves_ok(nodes, id, h),
        leaves(nodes, id, h)[0] == leftmost(nodes, id, h),
    decreases h,
{
    lemma_reach_valid(nodes, id, h, lo, hi, order);
    match nodes[id] {
        Node::Leaf(_) => {
            let ls = leaves(nodes, id, h);
            assert(ls =~= seq![id]);
            assert(ls.no_duplicates());
        },
        Node::Internal(n) => {
            let cs = n.children@;
            let hh = (h - 1) as nat;
            assert forall|i: int| 0 <= i < cs.len() implies leaves_ok(nodes, (#[trigger] cs[i]).0 as int, hh)
                && leaves(nodes, cs[i].0 as int, hh)[0] == leftmost(nodes, cs[i].0 as int, hh) by {
                lemma_leaves_valid(nodes, cs[i].0 as int, hh, child_lo(lo, n.keys@, i), child_hi(hi, n.keys@, i), order);
            }
            lemma_leaves_list_valid(nodes, cs, hh);
            assert(reach(nodes, id, h) == set![id].union(reach_list(nodes, cs, hh)));
            assert(leaves_ok(nodes, cs[0].0 as int, hh));
        },
    }
}

pub proof fn lemma_leaf_entries_append<V>(nodes: Seq<Node<V>>, a: Seq<int>, b: Seq<int>)
    ensures
        leaf_entries(nodes, a + b) == leaf_entries(nodes, a) + leaf_entries(nodes, b),
    decreases b.len(),
{
    if b.len() == 0 {
        assert(a + b =~= a);
        assert(leaf_entries(nodes, a) + leaf_entries(nodes, b) =~= leaf_entries(nodes, a));
    } else {
        lemma_leaf_entries_append(nodes, a, b.drop_last());
        assert((a + b).drop_last() =~= a + b.drop_last());
        assert((a + b).last() == b.last());
        assert(leaf_entries(nodes, a + b) =~= leaf_entries(nodes, a) + leaf_entries(nodes, b));
    }
}

/// The entries of the leaves of a subtree, leaf after leaf, are its entries.
pub proof fn lemma_leaf_entries<V>(nodes: Seq<Node<V>>, id: int, h: nat)
    ensures
        leaf_entries(nodes, leaves(nodes, id, h)) == entries(nodes, id, h),
    decreases h, 0nat,
{
    if 0 <= id < nodes.len() {
        match nodes[id] {
            Node::Leaf(l) => {
                assert(seq![id].drop_last() =~= Seq::<int>::empty());
                assert(seq![id].last() == id);
                assert(leaf_entries(nodes, Seq::<int>::empty()) == Seq::<(u64, V)>::empty());
                assert(leaf_entries(nodes, seq![id]) =~= l.entries@);
            },
            Node::Internal(n) => {
                if h > 0 {
                    lemma_leaf_entries_list(nodes, n.children@, (h - 1) as nat);
                }
            },
        }
    }
}

pub proof fn lemma_leaf_entries_list<V>(nodes: Seq<Node<V>>, cs: Seq<NodeId>, h: nat)
    ensures
        leaf_entries(nodes, leaves_list(nodes, cs, h)) == entries_list(nodes, cs, h),
    decreases h, cs.len(),
{
    if cs.len() > 0 {
        lemma_leaf_entries_list(nodes, cs.drop_last(), h);
        lemma_leaf_entries(nodes, cs.last().0 as int, h);
        lemma_leaf_entries_append(nodes, leaves_list(nodes, cs.drop_last(), h), leaves(nodes, cs.last().0 as int, h));
    }
}

/// Following the links from the first of a linked run of leaves visits the run,
/// given fuel for as many leaves.
pub proof fn lemma_chain<V>(nodes: Seq<Node<V>>, ls: Seq<int>, fuel: nat)
    requires
        linked(nodes, ls, None),
        ls.len() > 0,
        fuel >= ls.len(),
    ensures
        chain(nodes, Some(ls[0]), fuel) == ls,
    decreases ls.len(),
{
    let rest = ls.drop_first();
    assert(link_at(nodes, ls, 0, None));
    assert(ls =~= seq![ls[0]] + rest);
    lemma_linked_append(nodes, seq![ls[0]], rest, None);
    if rest.len() > 0 {
        lemma_chain(nodes, rest, (fuel - 1) as nat);
        assert(rest[0] == ls[1]);
    } else {
        assert(chain(nodes, None, (fuel - 1) as nat) =~= Seq::<int>::empty());
    }
}

/// Distinct indices of an arena are no more than its nodes.
pub proof fn lemma_distinct_bound<V>(nodes: Seq<Node<V>>, ls: Seq<int>)
    requires
        ls.no_duplicates(),
        forall|k: int| 0 <= k < ls.len() ==> 0 <= #[trigger] ls[k] < nodes.len(),
    ensures
        ls.len() <= nodes.len(),
{
    ls.unique_seq_to_set();
    lemma_int_range(0, nodes.len() as int);
    assert(ls.to_set().subset_of(set_int_range(0, nodes.len() as int))) by {
        assert forall|x: int| ls.to_set().contains(x) implies set_int_range(0, nodes.len() as int).contains(x) by {
            let k = choose|k: int| 0 <= k < ls.len() && ls[k] == x;
            assert(0 <= ls[k] < nodes.len());
        }
    }
    lemma_len_subset(ls.to_set(), set_int_range(0, nodes.len() as int));
}

} // verus!
