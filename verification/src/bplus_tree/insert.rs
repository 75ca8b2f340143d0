use vstd::prelude::*;
use crate::collection::Collection;
use super::node::{InternalNode, LeafNode, Node, NodeId};
use super::tree::{BPlusTree, key_limit};
use super::search::{partition_point_le, search_entries};
use super::shape::{wf, reach, reach_list, entries, entries_list, sorted_entries, sorted_keys, keys_within, has_key,
    lower, put, child_lo, child_hi, lemma_lower, lemma_put, lemma_entries_sorted, lemma_reach_valid, lemma_frame,
    lemma_frame_list, lemma_entries_list_append, lemma_reach_list_member, lemma_entries_list_single, lemma_range,
    lemma_put_middle, count_le, lemma_count_le, bound, lemma_entry_map_at};
use super::leaves::{leaves, leaves_list, linked, link_at, unchanged, first_or, leaves_ok, lemma_leaves_valid,
    lemma_leaves_list_valid, lemma_leaves_list_eq, lemma_leaves_list_append, lemma_leaves_list_single,
    lemma_linked_append, lemma_linked_same, lemma_linked_update_leaf};

verus! {

/// A node split in two: the separator, and the new node holding the upper half.
pub struct Split {
    pub separator: u64,
    pub right: NodeId,
}

/// What an insertion into a subtree gives back: the value it replaced, and
/// the split of the subtree's root, if it overflowed.
pub struct InsertResult<V> {
    pub previous: Option<V>,
    pub split: Option<Split>,
}

/// The entries below `id`, and below the node split off it, if any.
pub open spec fn after<V>(nodes: Seq<Node<V>>, id: int, h: nat, split: Option<Split>) -> Seq<(u64, V)> {
    match split {
        None => entries(nodes, id, h),
        Some(s) => entries(nodes, id, h) + entries(nodes, s.right.0 as int, h),
    }
}

/// The nodes below `id`, and below the node split off it, if any.
pub open spec fn reach_after<V>(nodes: Seq<Node<V>>, id: int, h: nat, split: Option<Split>) -> Set<int> {
    match split {
        None => reach(nodes, id, h),
        Some(s) => reach(nodes, id, h).union(reach(nodes, s.right.0 as int, h)),
    }
}

/// The leaves below `id`, and below the node split off it, if any.
pub open spec fn leaves_after<V>(nodes: Seq<Node<V>>, id: int, h: nat, split: Option<Split>) -> Seq<int> {
    match split {
        None => leaves(nodes, id, h),
        Some(s) => leaves(nodes, id, h) + leaves(nodes, s.right.0 as int, h),
    }
}

/// The subtree at `id` is valid for `[lo, hi)`, or it was split into two valid
/// subtrees on either side of the separator.
pub open spec fn shape_after<V>(nodes: Seq<Node<V>>, id: int, h: nat, lo: int, hi: int, order: nat,
    split: Option<Split>) -> bool {
    match split {
        None => wf(nodes, id, h, lo, hi, order),
        Some(s) => {
            &&& lo < s.separator < hi
            &&& wf(nodes, id, h, lo, s.separator as int, order)
            &&& wf(nodes, s.right.0 as int, h, s.separator as int, hi, order)
            &&& reach(nodes, id, h).disjoint(reach(nodes, s.right.0 as int, h))
        },
    }
}

/// What inserting `(key, value)` into the subtree at `id` did: nodes outside
/// it are untouched, new nodes only appended, the subtree (or its two halves)
/// valid, its entries those with the key put in, its leaves (or those of the two
/// halves) starting at the same leaf and linked on to wherever the last one
/// linked before, and the replaced value returned.
pub open spec fn inserted<V>(n0: Seq<Node<V>>, n1: Seq<Node<V>>, id: int, h: nat, lo: int, hi: int, order: nat,
    key: u64, value: V, r: InsertResult<V>) -> bool {
    let e = entries(n0, id, h);
    &&& n1.len() >= n0.len()
    &&& forall|y: int| 0 <= y < n0.len() && !reach(n0, id, h).contains(y) ==> #[trigger] n1[y] == n0[y]
    &&& shape_after(n1, id, h, lo, hi, order, r.split)
    &&& after(n1, id, h, r.split) == put(e, key, value)
    &&& forall|y: int| #[trigger] reach_after(n1, id, h, r.split).contains(y)
        ==> reach(n0, id, h).contains(y) || n0.len() <= y < n1.len()
    &&& r.previous == (if has_key(e, key) { Some(e[lower(e, key)].1) } else { None::<V> })
    &&& leaves_after(n1, id, h, r.split).len() > 0
    &&& leaves_after(n1, id, h, r.split)[0] == leaves(n0, id, h)[0]
    &&& forall|t: Option<int>| linked(n0, leaves(n0, id, h), t) ==> #[trigger] linked(n1, leaves_after(n1, id, h, r.split), t)
}

/// An internal node `n` at `id` meets every condition of validity for `[lo, hi)`
/// except the bound on its width.
pub open spec fn internal_ok<V>(nodes: Seq<Node<V>>, id: int, n: InternalNode, h: nat, lo: int, hi: int, order: nat) -> bool {
    &&& 0 <= id < nodes.len()
    &&& h > 0
    &&& n.children@.len() == n.keys@.len() + 1
    &&& sorted_keys(n.keys@)
    &&& forall|i: int| 0 <= i < n.keys@.len() ==> lo < #[trigger] n.keys@[i] < hi
    &&& forall|i: int| 0 <= i < n.children@.len() ==> wf(nodes, (#[trigger] n.children@[i]).0 as int,
        (h - 1) as nat, child_lo(lo, n.keys@, i), child_hi(hi, n.keys@, i), order)
    &&& forall|i: int, j: int| 0 <= i < j < n.children@.len()
        ==> reach(nodes, (#[trigger] n.children@[i]).0 as int, (h - 1) as nat).disjoint(
            reach(nodes, (#[trigger] n.children@[j]).0 as int, (h - 1) as nat))
    &&& forall|i: int| 0 <= i < n.children@.len()
        ==> !reach(nodes, (#[trigger] n.children@[i]).0 as int, (h - 1) as nat).contains(id)
}

/// Splitting an internal node of `2 * order + 1` separators around the middle
/// one leaves two valid nodes over the same children.
proof fn lemma_split_internal<V>(n0: Seq<Node<V>>, n1: Seq<Node<V>>, id: int, n: InternalNode, h: nat,
    lo: int, hi: int, order: nat, split: Split)
    requires
        order > 0,
        n0[id] == Node::<V>::Internal(n),
        internal_ok(n0, id, n, h, lo, hi, order),
        n.keys@.len() == 2 * order + 1,
        split.right.0 == n0.len(),
        split.separator == n.keys@[order as int],
        n1.len() == n0.len() + 1,
        n1[id] is Internal,
        n1[id]->Internal_0.keys@ == n.keys@.subrange(0, order as int),
        n1[id]->Internal_0.children@ == n.children@.subrange(0, order as int + 1),
        n1[split.right.0 as int] is Internal,
        n1[split.right.0 as int]->Internal_0.keys@ == n.keys@.subrange(order as int + 1, n.keys@.len() as int),
        n1[split.right.0 as int]->Internal_0.children@ == n.children@.subrange(order as int + 1, n.children@.len() as int),
        forall|y: int| 0 <= y < n0.len() && y != id ==> #[trigger] n1[y] == n0[y],
    ensures
        shape_after(n1, id, h, lo, hi, order, Some(split)),
        after(n1, id, h, Some(split)) == entries_list(n0, n.children@, (h - 1) as nat),
        reach_after(n1, id, h, Some(split)) == set![id, split.right.0 as int].union(reach_list(n0, n.children@, (h - 1) as nat)),
{
    let hh = (h - 1) as nat;
    let ks = n.keys@;
    let cs = n.children@;
    let o = order as int;
    let r = split.right.0 as int;
    let sep = split.separator as int;
    let ln = n1[id]->Internal_0;
    let rn = n1[r]->Internal_0;
    // the children are unchanged
    assert forall|i: int| 0 <= i < cs.len() implies
        wf(n1, (#[trigger] cs[i]).0 as int, hh, child_lo(lo, ks, i), child_hi(hi, ks, i), order)
        && reach(n1, cs[i].0 as int, hh) == reach(n0, cs[i].0 as int, hh)
        && entries(n1, cs[i].0 as int, hh) == entries(n0, cs[i].0 as int, hh)
        && !reach(n1, cs[i].0 as int, hh).contains(r) by {
        lemma_reach_valid(n0, cs[i].0 as int, hh, child_lo(lo, ks, i), child_hi(hi, ks, i), order);
        assert forall|y: int| #[trigger] reach(n0, cs[i].0 as int, hh).contains(y) implies
            0 <= y < n0.len() && y < n1.len() && n1[y] == n0[y] by {
        }
        lemma_frame(n0, n1, cs[i].0 as int, hh, child_lo(lo, ks, i), child_hi(hi, ks, i), order);
    }
    assert(sorted_keys(ln.keys@)) by {
        assert forall|i: int, j: int| 0 <= i < j < ln.keys@.len() implies ln.keys@[i] < ln.keys@[j] by {
            assert(ln.keys@[i] == ks[i] && ln.keys@[j] == ks[j]);
        }
    }
    assert(sorted_keys(rn.keys@)) by {
        assert forall|i: int, j: int| 0 <= i < j < rn.keys@.len() implies rn.keys@[i] < rn.keys@[j] by {
            assert(rn.keys@[i] == ks[o + 1 + i] && rn.keys@[j] == ks[o + 1 + j]);
        }
    }
    assert forall|i: int| 0 <= i < ln.keys@.len() implies lo < #[trigger] ln.keys@[i] < sep by {
        assert(ln.keys@[i] == ks[i]);
        assert(ks[i] < ks[o]);
    }
    assert forall|i: int| 0 <= i < rn.keys@.len() implies sep < #[trigger] rn.keys@[i] < hi by {
        assert(rn.keys@[i] == ks[o + 1 + i]);
        assert(ks[o] < ks[o + 1 + i]);
    }
    assert forall|i: int| 0 <= i < ln.children@.len() implies wf(n1, (#[trigger] ln.children@[i]).0 as int,
        hh, child_lo(lo, ln.keys@, i), child_hi(sep, ln.keys@, i), order) by {
        assert(ln.children@[i] == cs[i]);
        assert(child_lo(lo, ln.keys@, i) == child_lo(lo, ks, i));
        assert(child_hi(sep, ln.keys@, i) == child_hi(hi, ks, i));
    }
    assert forall|j: int| 0 <= j < rn.children@.len() implies wf(n1, (#[trigger] rn.children@[j]).0 as int,
        hh, child_lo(sep, rn.keys@, j), child_hi(hi, rn.keys@, j), order) by {
        assert(rn.children@[j] == cs[o + 1 + j]);
        assert(child_lo(sep, rn.keys@, j) == child_lo(lo, ks, o + 1 + j));
        assert(child_hi(hi, rn.keys@, j) == child_hi(hi, ks, o + 1 + j));
    }
    assert forall|i: int, j: int| 0 <= i < j < ln.children@.len() implies
        reach(n1, (#[trigger] ln.children@[i]).0 as int, hh).disjoint(reach(n1, (#[trigger] ln.children@[j]).0 as int, hh)) by {
        assert(ln.children@[i] == cs[i] && ln.children@[j] == cs[j]);
    }
    assert forall|i: int, j: int| 0 <= i < j < rn.children@.len() implies
        reach(n1, (#[trigger] rn.children@[i]).0 as int, hh).disjoint(reach(n1, (#[trigger] rn.children@[j]).0 as int, hh)) by {
        assert(rn.children@[i] == cs[o + 1 + i] && rn.children@[j] == cs[o + 1 + j]);
    }
    assert forall|i: int| 0 <= i < ln.children@.len() implies !reach(n1, (#[trigger] ln.children@[i]).0 as int, hh).contains(id) by {
        assert(ln.children@[i] == cs[i]);
    }
    assert forall|j: int| 0 <= j < rn.children@.len() implies !reach(n1, (#[trigger] rn.children@[j]).0 as int, hh).contains(r) by {
        assert(rn.children@[j] == cs[o + 1 + j]);
    }
    assert(wf(n1, id, h, lo, sep, order));
    assert(wf(n1, r, h, sep, hi, order));
    // entries and reach of the halves
    assert(cs =~= ln.children@ + rn.children@);
    lemma_entries_list_append(n1, ln.children@, rn.children@, hh);
    assert forall|i: int| 0 <= i < cs.len() implies reach(n1, (#[trigger] cs[i]).0 as int, hh) == reach(n0, cs[i].0 as int, hh)
        && entries(n1, cs[i].0 as int, hh) == entries(n0, cs[i].0 as int, hh) by {
    }
    lemma_frame_list(n0, n1, cs, hh);
    lemma_reach_list_member(n1, ln.children@, hh);
    lemma_reach_list_member(n1, rn.children@, hh);
    assert(reach(n1, id, h) == set![id].union(reach_list(n1, ln.children@, hh)));
    assert(reach(n1, r, h) == set![r].union(reach_list(n1, rn.children@, hh)));
    assert(reach(n1, id, h).disjoint(reach(n1, r, h))) by {
        assert forall|y: int| reach(n1, id, h).contains(y) && reach(n1, r, h).contains(y) implies false by {
            if y == id {
                if y != r {
                    let j = choose|j: int| 0 <= j < rn.children@.len() && #[trigger] reach(n1, rn.children@[j].0 as int, hh).contains(y);
                    assert(rn.children@[j] == cs[o + 1 + j]);
                }
            } else if y == r {
                let i = choose|i: int| 0 <= i < ln.children@.len() && #[trigger] reach(n1, ln.children@[i].0 as int, hh).contains(y);
                assert(ln.children@[i] == cs[i]);
            } else {
                let i = choose|i: int| 0 <= i < ln.children@.len() && #[trigger] reach(n1, ln.children@[i].0 as int, hh).contains(y);
                let j = choose|j: int| 0 <= j < rn.children@.len() && #[trigger] reach(n1, rn.children@[j].0 as int, hh).contains(y);
                assert(ln.children@[i] == cs[i]);
                assert(rn.children@[j] == cs[o + 1 + j]);
                assert(reach(n0, cs[i].0 as int, hh).disjoint(reach(n0, cs[o + 1 + j].0 as int, hh)));
            }
        }
    }
    assert(reach_after(n1, id, h, Some(split)) =~= set![id, r].union(reach_list(n0, cs, hh)));
}

/// Splitting an internal node keeps the leaves below it, in order, and their nodes.
proof fn lemma_split_internal_leaves<V>(n0: Seq<Node<V>>, n1: Seq<Node<V>>, id: int, n: InternalNode, h: nat,
    lo: int, hi: int, order: nat, split: Split)
    requires
        order > 0,
        n0[id] == Node::<V>::Internal(n),
        internal_ok(n0, id, n, h, lo, hi, order),
        n.keys@.len() == 2 * order + 1,
        split.right.0 == n0.len(),
        n1.len() == n0.len() + 1,
        n1[id] is Internal,
        n1[id]->Internal_0.children@ == n.children@.subrange(0, order as int + 1),
        n1[split.right.0 as int] is Internal,
        n1[split.right.0 as int]->Internal_0.children@ == n.children@.subrange(order as int + 1, n.children@.len() as int),
        forall|y: int| 0 <= y < n0.len() && y != id ==> #[trigger] n1[y] == n0[y],
    ensures
        leaves_after(n1, id, h, Some(split)) == leaves_list(n0, n.children@, (h - 1) as nat),
        unchanged(n0, n1, leaves_list(n0, n.children@, (h - 1) as nat)),
{
    let hh = (h - 1) as nat;
    let ks = n.keys@;
    let cs = n.children@;
    let r = split.right.0 as int;
    let ln = n1[id]->Internal_0;
    let rn = n1[r]->Internal_0;
    assert forall|i: int| 0 <= i < cs.len() implies leaves(n1, (#[trigger] cs[i]).0 as int, hh) == leaves(n0, cs[i].0 as int, hh)
        && leaves_ok(n0, cs[i].0 as int, hh) by {
        lemma_reach_valid(n0, cs[i].0 as int, hh, child_lo(lo, ks, i), child_hi(hi, ks, i), order);
        assert forall|y: int| #[trigger] reach(n0, cs[i].0 as int, hh).contains(y) implies
            0 <= y < n0.len() && y < n1.len() && n1[y] == n0[y] by {
        }
        lemma_frame(n0, n1, cs[i].0 as int, hh, child_lo(lo, ks, i), child_hi(hi, ks, i), order);
        lemma_leaves_valid(n0, cs[i].0 as int, hh, child_lo(lo, ks, i), child_hi(hi, ks, i), order);
    }
    lemma_leaves_list_eq(n0, n1, cs, hh);
    lemma_leaves_list_valid(n0, cs, hh);
    assert(cs =~= ln.children@ + rn.children@);
    lemma_leaves_list_append(n1, ln.children@, rn.children@, hh);
    let ll = leaves_list(n0, cs, hh);
    assert forall|k: int| 0 <= k < ll.len() implies 0 <= #[trigger] ll[k] < n0.len() && ll[k] < n1.len()
        && n1[ll[k]] == n0[ll[k]] by {
        assert(n0[ll[k]] is Leaf);
    }
}

/// A child of a valid internal node whose nodes an update left alone is unchanged.
proof fn lemma_sibling<V>(n0: Seq<Node<V>>, nn: Seq<Node<V>>, id: int, n: InternalNode, h: nat, lo: int, hi: int,
    order: nat, c: int, j: int)
    requires
        wf(n0, id, h, lo, hi, order),
        n0[id] == Node::<V>::Internal(n),
        0 <= c < n.children@.len(),
        0 <= j < n.children@.len(),
        j != c,
        nn.len() >= n0.len(),
        forall|y: int| 0 <= y < n0.len() && y != id && !reach(n0, n.children@[c].0 as int, (h - 1) as nat).contains(y)
            ==> #[trigger] nn[y] == n0[y],
    ensures
        wf(nn, n.children@[j].0 as int, (h - 1) as nat, child_lo(lo, n.keys@, j), child_hi(hi, n.keys@, j), order),
        reach(nn, n.children@[j].0 as int, (h - 1) as nat) == reach(n0, n.children@[j].0 as int, (h - 1) as nat),
        entries(nn, n.children@[j].0 as int, (h - 1) as nat) == entries(n0, n.children@[j].0 as int, (h - 1) as nat),
        leaves(nn, n.children@[j].0 as int, (h - 1) as nat) == leaves(n0, n.children@[j].0 as int, (h - 1) as nat),
        forall|y: int| #[trigger] reach(n0, n.children@[j].0 as int, (h - 1) as nat).contains(y)
            ==> 0 <= y < n0.len() && y != id && !reach(n0, n.children@[c].0 as int, (h - 1) as nat).contains(y),
{
    let hh = (h - 1) as nat;
    let cs = n.children@;
    let cj = cs[j].0 as int;
    assert(wf(n0, cj, hh, child_lo(lo, n.keys@, j), child_hi(hi, n.keys@, j), order));
    lemma_reach_valid(n0, cj, hh, child_lo(lo, n.keys@, j), child_hi(hi, n.keys@, j), order);
    if j < c {
        assert(reach(n0, cs[j].0 as int, hh).disjoint(reach(n0, cs[c].0 as int, hh)));
    } else {
        assert(reach(n0, cs[c].0 as int, hh).disjoint(reach(n0, cs[j].0 as int, hh)));
    }
    assert forall|y: int| #[trigger] reach(n0, cj, hh).contains(y) implies 0 <= y < n0.len() && y < nn.len() && nn[y] == n0[y] by {
        assert(y != id);
    }
    lemma_frame(n0, nn, cj, hh, child_lo(lo, n.keys@, j), child_hi(hi, n.keys@, j), order);
}

/// The leaves below a run of children that an update below child `c` left
/// alone are as they were, and so are their nodes.
proof fn lemma_side_leaves<V>(n0: Seq<Node<V>>, nn: Seq<Node<V>>, id: int, n: InternalNode, h: nat, lo: int, hi: int,
    order: nat, c: int, a: int, b: int)
    requires
        wf(n0, id, h, lo, hi, order),
        n0[id] == Node::<V>::Internal(n),
        0 <= c < n.children@.len(),
        0 <= a <= b <= n.children@.len(),
        b <= c || c < a,
        nn.len() >= n0.len(),
        forall|y: int| 0 <= y < n0.len() && y != id && !reach(n0, n.children@[c].0 as int, (h - 1) as nat).contains(y)
            ==> #[trigger] nn[y] == n0[y],
    ensures
        leaves_list(nn, n.children@.subrange(a, b), (h - 1) as nat) == leaves_list(n0, n.children@.subrange(a, b), (h - 1) as nat),
        unchanged(n0, nn, leaves_list(n0, n.children@.subrange(a, b), (h - 1) as nat)),
    decreases b - a,
{
    let hh = (h - 1) as nat;
    let cs = n.children@;
    if a < b {
        lemma_side_leaves(n0, nn, id, n, h, lo, hi, order, c, a, b - 1);
        let sub = cs.subrange(a, b);
        assert(sub.drop_last() =~= cs.subrange(a, b - 1));
        assert(sub.last() == cs[b - 1]);
        let cj = cs[b - 1].0 as int;
        lemma_sibling(n0, nn, id, n, h, lo, hi, order, c, b - 1);
        assert(wf(n0, cj, hh, child_lo(lo, n.keys@, b - 1), child_hi(hi, n.keys@, b - 1), order));
        lemma_leaves_valid(n0, cj, hh, child_lo(lo, n.keys@, b - 1), child_hi(hi, n.keys@, b - 1), order);
        let p = leaves_list(n0, cs.subrange(a, b - 1), hh);
        let q = leaves(n0, cj, hh);
        assert(leaves_list(n0, sub, hh) == p + q);
        assert(leaves_list(nn, sub, hh) == leaves_list(nn, cs.subrange(a, b - 1), hh) + leaves(nn, cj, hh));
        assert forall|k: int| 0 <= k < (p + q).len() implies 0 <= #[trigger] (p + q)[k] < n0.len() && (p + q)[k] < nn.len()
            && nn[(p + q)[k]] == n0[(p + q)[k]] by {
            if k < p.len() {
                assert((p + q)[k] == p[k]);
            } else {
                assert((p + q)[k] == q[k - p.len()]);
                assert(reach(n0, cj, hh).contains(q[k - p.len()]));
            }
        }
    } else {
        assert(cs.subrange(a, b) =~= Seq::<NodeId>::empty());
    }
}

/// The leaves of a valid internal node: those of the children before child
/// `c`, those of child `c`, and those of the children after it.
proof fn lemma_leaves_around<V>(nodes: Seq<Node<V>>, id: int, n: InternalNode, h: nat, c: int)
    requires
        0 <= id < nodes.len(),
        nodes[id] == Node::<V>::Internal(n),
        h > 0,
        0 <= c < n.children@.len(),
    ensures
        leaves(nodes, id, h) == leaves_list(nodes, n.children@.subrange(0, c), (h - 1) as nat)
            + leaves(nodes, n.children@[c].0 as int, (h - 1) as nat)
            + leaves_list(nodes, n.children@.subrange(c + 1, n.children@.len() as int), (h - 1) as nat),
{
    let hh = (h - 1) as nat;
    let cs = n.children@;
    let pre = cs.subrange(0, c);
    let suf = cs.subrange(c + 1, cs.len() as int);
    assert(cs =~= pre + seq![cs[c]] + suf);
    lemma_leaves_list_append(nodes, pre + seq![cs[c]], suf, hh);
    lemma_leaves_list_append(nodes, pre, seq![cs[c]], hh);
    lemma_leaves_list_single(nodes, cs[c], hh);
}

/// Leaves `p + c0 + s` linked on to `t` stay linked when `c0` is replaced by
/// leaves `c1` that start at the same leaf and link on to wherever `c0` did,
/// and the nodes of `p` and `s` are unchanged.
proof fn lemma_linked_middle<V>(n0: Seq<Node<V>>, n1: Seq<Node<V>>, p: Seq<int>, c0: Seq<int>, c1: Seq<int>,
    s: Seq<int>, t: Option<int>)
    requires
        c0.len() > 0,
        c1.len() > 0,
        c1[0] == c0[0],
        unchanged(n0, n1, p),
        unchanged(n0, n1, s),
    ensures
        linked(n0, p + c0 + s, t) && (linked(n0, c0, first_or(s, t)) ==> linked(n1, c1, first_or(s, t)))
            ==> linked(n1, p + c1 + s, t),
        (p + c1 + s).len() > 0,
        (p + c1 + s)[0] == (p + c0 + s)[0],
{
    assert(p + c0 + s =~= p + (c0 + s));
    assert(p + c1 + s =~= p + (c1 + s));
    lemma_linked_append(n0, p, c0 + s, t);
    lemma_linked_append(n0, c0, s, t);
    lemma_linked_append(n1, p, c1 + s, t);
    lemma_linked_append(n1, c1, s, t);
    assert(first_or(c0 + s, t) == first_or(c1 + s, t)) by {
        assert((c0 + s)[0] == c0[0]);
        assert((c1 + s)[0] == c1[0]);
    }
    lemma_linked_same(n0, n1, p, first_or(c0 + s, t));
    lemma_linked_same(n0, n1, s, t);
    if p.len() > 0 {
        assert((p + c1 + s)[0] == p[0]);
        assert((p + c0 + s)[0] == p[0]);
    } else {
        assert((p + c1 + s)[0] == c1[0]);
        assert((p + c0 + s)[0] == c0[0]);
    }
}

/// The child a search for `key` takes, with its bounds, inside a valid internal node.
proof fn lemma_descend<V>(n0: Seq<Node<V>>, id: int, n: InternalNode, h: nat, lo: int, hi: int, order: nat, key: u64)
    requires
        wf(n0, id, h, lo, hi, order),
        n0[id] == Node::<V>::Internal(n),
        lo <= key < hi,
    ensures
        0 <= count_le(n.keys@, key) < n.children@.len(),
        child_lo(lo, n.keys@, count_le(n.keys@, key)) <= key < child_hi(hi, n.keys@, count_le(n.keys@, key)),
        child_lo(lo, n.keys@, count_le(n.keys@, key)) == bound(lo, hi, n.keys@, count_le(n.keys@, key)),
        child_hi(hi, n.keys@, count_le(n.keys@, key)) == bound(lo, hi, n.keys@, count_le(n.keys@, key) + 1),
        wf(n0, n.children@[count_le(n.keys@, key)].0 as int, (h - 1) as nat,
            child_lo(lo, n.keys@, count_le(n.keys@, key)), child_hi(hi, n.keys@, count_le(n.keys@, key)), order),
        !reach(n0, n.children@[count_le(n.keys@, key)].0 as int, (h - 1) as nat).contains(id),
        reach(n0, n.children@[count_le(n.keys@, key)].0 as int, (h - 1) as nat).subset_of(reach(n0, id, h)),
{
    let c = count_le(n.keys@, key);
    lemma_count_le(n.keys@, key);
    if c > 0 { assert(n.keys@[c - 1] <= key); }
    if c < n.keys@.len() { assert(!(n.keys@[c] <= key)); }
    lemma_reach_list_member(n0, n.children@, (h - 1) as nat);
    assert(reach(n0, id, h) == set![id].union(reach_list(n0, n.children@, (h - 1) as nat)));
}

/// An insertion below a child that did not split leaves a valid node whose
/// entries have the key put in.
proof fn lemma_child_updated<V>(n0: Seq<Node<V>>, n1: Seq<Node<V>>, id: int, n: InternalNode, h: nat, lo: int,
    hi: int, order: nat, key: u64, value: V, rc: InsertResult<V>)
    requires
        wf(n0, id, h, lo, hi, order),
        n0[id] == Node::<V>::Internal(n),
        lo <= key < hi,
        inserted(n0, n1, n.children@[count_le(n.keys@, key)].0 as int, (h - 1) as nat,
            child_lo(lo, n.keys@, count_le(n.keys@, key)), child_hi(hi, n.keys@, count_le(n.keys@, key)),
            order, key, value, rc),
        rc.split is None,
    ensures
        inserted(n0, n1, id, h, lo, hi, order, key, value, InsertResult { previous: rc.previous, split: None }),
{
    lemma_child_updated_leaves(n0, n1, id, n, h, lo, hi, order, key, value, rc);
    let hh = (h - 1) as nat;
    let ks = n.keys@;
    let cs = n.children@;
    let c = count_le(ks, key);
    let child = cs[c].0 as int;
    let clo = child_lo(lo, ks, c);
    let chi = child_hi(hi, ks, c);
    lemma_descend(n0, id, n, h, lo, hi, order, key);
    lemma_reach_valid(n0, id, h, lo, hi, order);
    assert(n1[id] == n0[id]);
    assert forall|j: int| 0 <= j < cs.len() && j != c implies
        wf(n1, (#[trigger] cs[j]).0 as int, hh, child_lo(lo, ks, j), child_hi(hi, ks, j), order)
        && reach(n1, cs[j].0 as int, hh) == reach(n0, cs[j].0 as int, hh)
        && entries(n1, cs[j].0 as int, hh) == entries(n0, cs[j].0 as int, hh)
        && (forall|y: int| #[trigger] reach(n0, cs[j].0 as int, hh).contains(y)
            ==> 0 <= y < n0.len() && y != id && !reach(n0, child, hh).contains(y)) by {
        lemma_sibling(n0, n1, id, n, h, lo, hi, order, c, j);
    }
    // the node stays valid
    assert forall|i: int| 0 <= i < cs.len() implies wf(n1, (#[trigger] cs[i]).0 as int, hh, child_lo(lo, ks, i), child_hi(hi, ks, i), order) by {
        if i != c {
        }
    }
    assert forall|i: int, j: int| 0 <= i < j < cs.len() implies
        reach(n1, (#[trigger] cs[i]).0 as int, hh).disjoint(reach(n1, (#[trigger] cs[j]).0 as int, hh)) by {
        if i == c {
            assert forall|y: int| reach(n1, cs[i].0 as int, hh).contains(y) implies !reach(n1, cs[j].0 as int, hh).contains(y) by {
                assert(reach_after(n1, child, hh, rc.split).contains(y));
                if reach(n0, cs[j].0 as int, hh).contains(y) {
                }
            }
        } else if j == c {
            assert forall|y: int| reach(n1, cs[j].0 as int, hh).contains(y) implies !reach(n1, cs[i].0 as int, hh).contains(y) by {
                assert(reach_after(n1, child, hh, rc.split).contains(y));
                if reach(n0, cs[i].0 as int, hh).contains(y) {
                }
            }
        } else {
            assert(reach(n0, cs[i].0 as int, hh).disjoint(reach(n0, cs[j].0 as int, hh)));
        }
    }
    assert forall|i: int| 0 <= i < cs.len() implies !reach(n1, (#[trigger] cs[i]).0 as int, hh).contains(id) by {
        if i == c {
            if reach(n1, child, hh).contains(id) {
                assert(reach_after(n1, child, hh, rc.split).contains(id));
            }
        } else {
            assert(!reach(n0, cs[i].0 as int, hh).contains(id));
        }
    }
    assert(wf(n1, id, h, lo, hi, order));
    // entries
    let pre = cs.subrange(0, c);
    let suf = cs.subrange(c + 1, cs.len() as int);
    assert(cs =~= pre + seq![cs[c]] + suf);
    lemma_entries_list_append(n0, pre + seq![cs[c]], suf, hh);
    lemma_entries_list_append(n0, pre, seq![cs[c]], hh);
    lemma_entries_list_single(n0, cs[c], hh);
    lemma_entries_list_append(n1, pre + seq![cs[c]], suf, hh);
    lemma_entries_list_append(n1, pre, seq![cs[c]], hh);
    lemma_entries_list_single(n1, cs[c], hh);
    assert forall|i: int| 0 <= i < pre.len() implies reach(n1, (#[trigger] pre[i]).0 as int, hh) == reach(n0, pre[i].0 as int, hh)
        && entries(n1, pre[i].0 as int, hh) == entries(n0, pre[i].0 as int, hh) by {
        assert(pre[i] == cs[i]);
    }
    lemma_frame_list(n0, n1, pre, hh);
    assert forall|i: int| 0 <= i < suf.len() implies reach(n1, (#[trigger] suf[i]).0 as int, hh) == reach(n0, suf[i].0 as int, hh)
        && entries(n1, suf[i].0 as int, hh) == entries(n0, suf[i].0 as int, hh) by {
        assert(suf[i] == cs[c + 1 + i]);
    }
    lemma_frame_list(n0, n1, suf, hh);
    lemma_range(n0, id, h, lo, hi, order, 0, c);
    lemma_range(n0, id, h, lo, hi, order, c + 1, cs.len() as int);
    assert(bound(lo, hi, ks, 0) == lo);
    assert(bound(lo, hi, ks, cs.len() as int) == hi);
    lemma_entries_sorted(n0, child, hh, clo, chi, order);
    let a = entries_list(n0, pre, hh);
    let b = entries_list(n0, suf, hh);
    assert forall|i: int| 0 <= i < a.len() implies #[trigger] a[i].0 < clo by {}
    assert forall|i: int| 0 <= i < b.len() implies #[trigger] b[i].0 >= chi by {}
    lemma_put_middle(a, entries(n0, child, hh), b, clo, chi, key, value);
    assert(entries(n1, id, h) == a + entries(n1, child, hh) + b);
    // reach
    lemma_reach_list_member(n0, cs, hh);
    lemma_reach_list_member(n1, cs, hh);
    assert forall|y: int| #[trigger] reach(n1, id, h).contains(y) implies reach(n0, id, h).contains(y) || n0.len() <= y < n1.len() by {
        if y != id {
            let i = choose|i: int| 0 <= i < cs.len() && #[trigger] reach(n1, cs[i].0 as int, hh).contains(y);
            if i == c {
                assert(reach_after(n1, child, hh, rc.split).contains(y));
            } else {
                assert(reach(n0, cs[i].0 as int, hh).contains(y));
            }
        }
    }
    assert forall|y: int| 0 <= y < n0.len() && !reach(n0, id, h).contains(y) implies #[trigger] n1[y] == n0[y] by {
        assert(!reach(n0, child, hh).contains(y));
    }
}

/// An insertion below a child that did not split leaves the leaves of the node
/// starting at the same leaf and linked on as before.
proof fn lemma_child_updated_leaves<V>(n0: Seq<Node<V>>, n1: Seq<Node<V>>, id: int, n: InternalNode, h: nat, lo: int,
    hi: int, order: nat, key: u64, value: V, rc: InsertResult<V>)
    requires
        wf(n0, id, h, lo, hi, order),
        n0[id] == Node::<V>::Internal(n),
        lo <= key < hi,
        inserted(n0, n1, n.children@[count_le(n.keys@, key)].0 as int, (h - 1) as nat,
            child_lo(lo, n.keys@, count_le(n.keys@, key)), child_hi(hi, n.keys@, count_le(n.keys@, key)),
            order, key, value, rc),
        rc.split is None,
    ensures
        leaves(n1, id, h).len() > 0,
        leaves(n1, id, h)[0] == leaves(n0, id, h)[0],
        forall|t: Option<int>| linked(n0, leaves(n0, id, h), t) ==> #[trigger] linked(n1, leaves(n1, id, h), t),
{
    let hh = (h - 1) as nat;
    let cs = n.children@;
    let c = count_le(n.keys@, key);
    let child = cs[c].0 as int;
    lemma_descend(n0, id, n, h, lo, hi, order, key);
    lemma_reach_valid(n0, id, h, lo, hi, order);
    assert(n1[id] == n0[id]);
    lemma_side_leaves(n0, n1, id, n, h, lo, hi, order, c, 0, c);
    lemma_side_leaves(n0, n1, id, n, h, lo, hi, order, c, c + 1, cs.len() as int);
    lemma_leaves_around(n0, id, n, h, c);
    lemma_leaves_around(n1, id, n, h, c);
    lemma_leaves_valid(n0, child, hh, child_lo(lo, n.keys@, c), child_hi(hi, n.keys@, c), order);
    let p = leaves_list(n0, cs.subrange(0, c), hh);
    let s = leaves_list(n0, cs.subrange(c + 1, cs.len() as int), hh);
    let c0 = leaves(n0, child, hh);
    let c1 = leaves(n1, child, hh);
    assert(leaves_after(n1, child, hh, rc.split) == c1);
    lemma_linked_middle(n0, n1, p, c0, c1, s, None);
    assert forall|t: Option<int>| linked(n0, leaves(n0, id, h), t) implies #[trigger] linked(n1, leaves(n1, id, h), t) by {
        assert(linked(n0, c0, first_or(s, t)) ==> linked(n1, leaves_after(n1, child, hh, rc.split), first_or(s, t)));
        lemma_linked_middle(n0, n1, p, c0, c1, s, t);
    }
}

/// An insertion below a child that split: the leaves under the node's children,
/// the new node among them, start at the same leaf and link on as before.
proof fn lemma_child_split_leaves<V>(n0: Seq<Node<V>>, n1: Seq<Node<V>>, n2: Seq<Node<V>>, id: int, n: InternalNode,
    h: nat, lo: int, hi: int, order: nat, key: u64, value: V, rc: InsertResult<V>, m: InternalNode)
    requires
        wf(n0, id, h, lo, hi, order),
        n0[id] == Node::<V>::Internal(n),
        lo <= key < hi,
        inserted(n0, n1, n.children@[count_le(n.keys@, key)].0 as int, (h - 1) as nat,
            child_lo(lo, n.keys@, count_le(n.keys@, key)), child_hi(hi, n.keys@, count_le(n.keys@, key)),
            order, key, value, rc),
        rc.split is Some,
        m.children@ == n.children@.insert(count_le(n.keys@, key) + 1, rc.split->0.right),
        n2 == n1.update(id, Node::<V>::Internal(m)),
    ensures
        leaves_list(n2, m.children@, (h - 1) as nat).len() > 0,
        leaves_list(n2, m.children@, (h - 1) as nat)[0] == leaves(n0, id, h)[0],
        forall|t: Option<int>| linked(n0, leaves(n0, id, h), t)
            ==> #[trigger] linked(n2, leaves_list(n2, m.children@, (h - 1) as nat), t),
{
    let hh = (h - 1) as nat;
    let ks = n.keys@;
    let cs = n.children@;
    let c = count_le(ks, key);
    let child = cs[c].0 as int;
    let clo = child_lo(lo, ks, c);
    let chi = child_hi(hi, ks, c);
    let sp = rc.split->0;
    let sep = sp.separator as int;
    let right = sp.right.0 as int;
    let mc = m.children@;
    lemma_descend(n0, id, n, h, lo, hi, order, key);
    lemma_reach_valid(n0, id, h, lo, hi, order);
    lemma_reach_valid(n1, child, hh, clo, sep, order);
    lemma_reach_valid(n1, right, hh, sep, chi, order);
    assert forall|y: int| #[trigger] reach(n1, child, hh).contains(y) implies 0 <= y < n1.len() && y < n2.len() && n2[y] == n1[y] by {
        assert(reach_after(n1, child, hh, rc.split).contains(y));
    }
    assert forall|y: int| #[trigger] reach(n1, right, hh).contains(y) implies 0 <= y < n1.len() && y < n2.len() && n2[y] == n1[y] by {
        assert(reach_after(n1, child, hh, rc.split).contains(y));
    }
    lemma_frame(n1, n2, child, hh, clo, sep, order);
    lemma_frame(n1, n2, right, hh, sep, chi, order);
    assert forall|y: int| 0 <= y < n0.len() && y != id && !reach(n0, child, hh).contains(y) implies #[trigger] n2[y] == n0[y] by {
    }
    lemma_side_leaves(n0, n2, id, n, h, lo, hi, order, c, 0, c);
    lemma_side_leaves(n0, n2, id, n, h, lo, hi, order, c, c + 1, cs.len() as int);
    let pre = cs.subrange(0, c);
    let suf = cs.subrange(c + 1, cs.len() as int);
    assert(mc =~= pre + seq![cs[c], sp.right] + suf);
    assert(seq![cs[c], sp.right] =~= seq![cs[c]] + seq![sp.right]);
    lemma_leaves_list_append(n2, pre + seq![cs[c], sp.right], suf, hh);
    lemma_leaves_list_append(n2, pre, seq![cs[c], sp.right], hh);
    lemma_leaves_list_append(n2, seq![cs[c]], seq![sp.right], hh);
    lemma_leaves_list_single(n2, cs[c], hh);
    lemma_leaves_list_single(n2, sp.right, hh);
    lemma_leaves_around(n0, id, n, h, c);
    lemma_leaves_valid(n0, child, hh, clo, chi, order);
    lemma_leaves_valid(n1, child, hh, clo, sep, order);
    lemma_leaves_valid(n1, right, hh, sep, chi, order);
    let p = leaves_list(n0, pre, hh);
    let s = leaves_list(n0, suf, hh);
    let c0 = leaves(n0, child, hh);
    let la = leaves(n1, child, hh);
    let lb = leaves(n1, right, hh);
    let c1 = leaves_after(n1, child, hh, rc.split);
    assert(c1 == la + lb);
    assert(leaves_list(n2, mc, hh) == p + c1 + s);
    assert forall|k: int| 0 <= k < c1.len() implies 0 <= #[trigger] c1[k] < n1.len() && c1[k] < n2.len()
        && n2[c1[k]] == n1[c1[k]] by {
        if k < la.len() {
            assert(c1[k] == la[k]);
            assert(reach(n1, child, hh).contains(la[k]));
        } else {
            assert(c1[k] == lb[k - la.len()]);
            assert(reach(n1, right, hh).contains(lb[k - la.len()]));
        }
    }
    lemma_linked_middle(n0, n2, p, c0, c1, s, None);
    assert forall|t: Option<int>| linked(n0, leaves(n0, id, h), t)
        implies #[trigger] linked(n2, leaves_list(n2, mc, hh), t) by {
        assert(linked(n0, c0, first_or(s, t)) ==> linked(n1, c1, first_or(s, t)));
        lemma_linked_same(n1, n2, c1, first_or(s, t));
        lemma_linked_middle(n0, n2, p, c0, c1, s, t);
    }
}

/// An insertion below a child that split: with the separator and the new node
/// put in, the node meets every condition but its width, and its entries have
/// the key put in.
#[verifier::rlimit(40)]
proof fn lemma_child_split<V>(n0: Seq<Node<V>>, n1: Seq<Node<V>>, n2: Seq<Node<V>>, id: int, n: InternalNode,
    h: nat, lo: int, hi: int, order: nat, key: u64, value: V, rc: InsertResult<V>, m: InternalNode)
    requires
        wf(n0, id, h, lo, hi, order),
        n0[id] == Node::<V>::Internal(n),
        lo <= key < hi,
        inserted(n0, n1, n.children@[count_le(n.keys@, key)].0 as int, (h - 1) as nat,
            child_lo(lo, n.keys@, count_le(n.keys@, key)), child_hi(hi, n.keys@, count_le(n.keys@, key)),
            order, key, value, rc),
        rc.split is Some,
        m.keys@ == n.keys@.insert(count_le(n.keys@, key), rc.split->0.separator),
        m.children@ == n.children@.insert(count_le(n.keys@, key) + 1, rc.split->0.right),
        n2 == n1.update(id, Node::<V>::Internal(m)),
    ensures
        internal_ok(n2, id, m, h, lo, hi, order),
        m.keys@.len() == n.keys@.len() + 1,
        entries_list(n2, m.children@, (h - 1) as nat) == put(entries(n0, id, h), key, value),
        forall|y: int| #[trigger] reach_list(n2, m.children@, (h - 1) as nat).contains(y)
            ==> reach(n0, id, h).contains(y) || n0.len() <= y < n2.len(),
        forall|y: int| 0 <= y < n0.len() && y != id && !reach(n0, id, h).contains(y) ==> #[trigger] n2[y] == n0[y],
        n2.len() == n1.len(),
        n1.len() >= n0.len(),
        rc.previous == (if has_key(entries(n0, id, h), key) {
            Some(entries(n0, id, h)[lower(entries(n0, id, h), key)].1) } else { None::<V> }),
{
    let hh = (h - 1) as nat;
    let ks = n.keys@;
    let cs = n.children@;
    let c = count_le(ks, key);
    let child = cs[c].0 as int;
    let clo = child_lo(lo, ks, c);
    let chi = child_hi(hi, ks, c);
    let s = rc.split->0;
    let sep = s.separator;
    let right = s.right.0 as int;
    let mk = m.keys@;
    let mc = m.children@;
    lemma_descend(n0, id, n, h, lo, hi, order, key);
    lemma_reach_valid(n0, id, h, lo, hi, order);
    lemma_reach_valid(n1, child, hh, clo, sep as int, order);
    lemma_reach_valid(n1, right, hh, sep as int, chi, order);
    // the child and the new node are unchanged by the update of the node itself
    assert forall|y: int| #[trigger] reach(n1, child, hh).contains(y) implies 0 <= y < n1.len() && y < n2.len() && n2[y] == n1[y] by {
        assert(reach_after(n1, child, hh, rc.split).contains(y));
    }
    assert forall|y: int| #[trigger] reach(n1, right, hh).contains(y) implies 0 <= y < n1.len() && y < n2.len() && n2[y] == n1[y] by {
        assert(reach_after(n1, child, hh, rc.split).contains(y));
    }
    lemma_frame(n1, n2, child, hh, clo, sep as int, order);
    lemma_frame(n1, n2, right, hh, sep as int, chi, order);
    assert forall|j: int| 0 <= j < cs.len() && j != c implies
        wf(n2, (#[trigger] cs[j]).0 as int, hh, child_lo(lo, ks, j), child_hi(hi, ks, j), order)
        && reach(n2, cs[j].0 as int, hh) == reach(n0, cs[j].0 as int, hh)
        && entries(n2, cs[j].0 as int, hh) == entries(n0, cs[j].0 as int, hh)
        && (forall|y: int| #[trigger] reach(n0, cs[j].0 as int, hh).contains(y)
            ==> 0 <= y < n0.len() && y != id && !reach(n0, child, hh).contains(y)) by {
        lemma_sibling(n0, n2, id, n, h, lo, hi, order, c, j);
    }
    // what the new node's children and keys are
    assert forall|i: int| 0 <= i < mc.len() implies #[trigger] mc[i] == (if i <= c { cs[i] } else if i == c + 1 { s.right } else { cs[i - 1] }) by {}
    assert forall|i: int| 0 <= i < mk.len() implies #[trigger] mk[i] == (if i < c { ks[i] } else if i == c { sep } else { ks[i - 1] }) by {}
    assert(sorted_keys(mk)) by {
        assert forall|i: int, j: int| 0 <= i < j < mk.len() implies mk[i] < mk[j] by {
            if j < c {
            } else if j == c {
                if i < c { assert(ks[i] <= ks[c - 1]); }
            } else if i > c {
            } else if i == c {
                assert(ks[c] <= ks[j - 1]);
            } else {
                assert(ks[i] < ks[j - 1]);
            }
        }
    }
    assert forall|i: int| 0 <= i < mk.len() implies lo < #[trigger] mk[i] < hi by {
        if i < c { assert(mk[i] == ks[i]); } else if i > c { assert(mk[i] == ks[i - 1]); }
    }
    assert forall|i: int| 0 <= i < mc.len() implies wf(n2, (#[trigger] mc[i]).0 as int, hh, child_lo(lo, mk, i), child_hi(hi, mk, i), order) by {
        if i < c {
            assert(child_lo(lo, mk, i) == child_lo(lo, ks, i));
            assert(child_hi(hi, mk, i) == child_hi(hi, ks, i));
        } else if i == c {
            assert(child_lo(lo, mk, i) == clo);
            assert(child_hi(hi, mk, i) == sep);
        } else if i == c + 1 {
            assert(child_lo(lo, mk, i) == sep);
            assert(child_hi(hi, mk, i) == chi);
        } else {
            assert(child_lo(lo, mk, i) == child_lo(lo, ks, i - 1));
            assert(child_hi(hi, mk, i) == child_hi(hi, ks, i - 1));
        }
    }
    // where the nodes below each new child come from
    assert forall|i: int, y: int| 0 <= i < mc.len() && #[trigger] reach(n2, (#[trigger] mc[i]).0 as int, hh).contains(y) implies
        (if i == c || i == c + 1 { reach(n0, child, hh).contains(y) || n0.len() <= y < n1.len() }
         else { reach(n0, mc[i].0 as int, hh).contains(y) && 0 <= y < n0.len() && y != id && !reach(n0, child, hh).contains(y) }) by {
        if i == c || i == c + 1 {
            assert(reach_after(n1, child, hh, rc.split).contains(y));
        } else if i < c {
            assert(mc[i] == cs[i]);
        } else {
            assert(mc[i] == cs[i - 1]);
        }
    }
    assert forall|i: int, j: int| 0 <= i < j < mc.len() implies
        reach(n2, (#[trigger] mc[i]).0 as int, hh).disjoint(reach(n2, (#[trigger] mc[j]).0 as int, hh)) by {
        assert forall|y: int| reach(n2, mc[i].0 as int, hh).contains(y) implies !reach(n2, mc[j].0 as int, hh).contains(y) by {
            if reach(n2, mc[j].0 as int, hh).contains(y) {
                if i == c && j == c + 1 {
                    assert(reach(n1, child, hh).disjoint(reach(n1, right, hh)));
                } else if (i == c || i == c + 1) || (j == c || j == c + 1) {
                } else {
                    let ii = if i < c { i } else { i - 1 };
                    let jj = if j < c { j } else { j - 1 };
                    assert(mc[i] == cs[ii] && mc[j] == cs[jj]);
                    assert(reach(n0, cs[ii].0 as int, hh).disjoint(reach(n0, cs[jj].0 as int, hh)));
                }
            }
        }
    }
    assert forall|i: int| 0 <= i < mc.len() implies !reach(n2, (#[trigger] mc[i]).0 as int, hh).contains(id) by {
        if reach(n2, mc[i].0 as int, hh).contains(id) {
            if i != c && i != c + 1 {
            }
        }
    }
    assert(internal_ok(n2, id, m, h, lo, hi, order));
    // entries
    let pre = cs.subrange(0, c);
    let suf = cs.subrange(c + 1, cs.len() as int);
    assert(cs =~= pre + seq![cs[c]] + suf);
    assert(mc =~= pre + seq![cs[c], s.right] + suf);
    assert(seq![cs[c], s.right] =~= seq![cs[c]] + seq![s.right]);
    lemma_entries_list_append(n0, pre + seq![cs[c]], suf, hh);
    lemma_entries_list_append(n0, pre, seq![cs[c]], hh);
    lemma_entries_list_single(n0, cs[c], hh);
    lemma_entries_list_append(n2, pre + seq![cs[c], s.right], suf, hh);
    lemma_entries_list_append(n2, pre, seq![cs[c], s.right], hh);
    lemma_entries_list_append(n2, seq![cs[c]], seq![s.right], hh);
    lemma_entries_list_single(n2, cs[c], hh);
    lemma_entries_list_single(n2, s.right, hh);
    assert forall|i: int| 0 <= i < pre.len() implies reach(n2, (#[trigger] pre[i]).0 as int, hh) == reach(n0, pre[i].0 as int, hh)
        && entries(n2, pre[i].0 as int, hh) == entries(n0, pre[i].0 as int, hh) by {
        assert(pre[i] == cs[i]);
    }
    lemma_frame_list(n0, n2, pre, hh);
    assert forall|i: int| 0 <= i < suf.len() implies reach(n2, (#[trigger] suf[i]).0 as int, hh) == reach(n0, suf[i].0 as int, hh)
        && entries(n2, suf[i].0 as int, hh) == entries(n0, suf[i].0 as int, hh) by {
        assert(suf[i] == cs[c + 1 + i]);
    }
    lemma_frame_list(n0, n2, suf, hh);
    lemma_range(n0, id, h, lo, hi, order, 0, c);
    lemma_range(n0, id, h, lo, hi, order, c + 1, cs.len() as int);
    assert(bound(lo, hi, ks, 0) == lo);
    assert(bound(lo, hi, ks, cs.len() as int) == hi);
    lemma_entries_sorted(n0, child, hh, clo, chi, order);
    let a = entries_list(n0, pre, hh);
    let b = entries_list(n0, suf, hh);
    assert forall|i: int| 0 <= i < a.len() implies #[trigger] a[i].0 < clo by {}
    assert forall|i: int| 0 <= i < b.len() implies #[trigger] b[i].0 >= chi by {}
    lemma_put_middle(a, entries(n0, child, hh), b, clo, chi, key, value);
    assert(entries_list(n2, mc, hh) =~= a + (entries(n1, child, hh) + entries(n1, right, hh)) + b);
    // reach
    lemma_reach_list_member(n0, cs, hh);
    lemma_reach_list_member(n2, mc, hh);
    assert forall|y: int| #[trigger] reach_list(n2, mc, hh).contains(y) implies reach(n0, id, h).contains(y) || n0.len() <= y < n2.len() by {
        let i = choose|i: int| 0 <= i < mc.len() && #[trigger] reach(n2, mc[i].0 as int, hh).contains(y);
        if i != c && i != c + 1 {
            let ii = if i < c { i } else { i - 1 };
            assert(mc[i] == cs[ii]);
            assert(reach(n0, cs[ii].0 as int, hh).contains(y));
        }
    }
    assert forall|y: int| 0 <= y < n0.len() && y != id && !reach(n0, id, h).contains(y) implies #[trigger] n2[y] == n0[y] by {
        assert(!reach(n0, child, hh).contains(y));
    }
}

/// A leaf put in place of a leaf is the one leaf of its own subtree.
proof fn lemma_leaves_update_leaf_at<V>(n0: Seq<Node<V>>, x: int, leaf: Node<V>)
    requires
        0 <= x < n0.len(),
        n0[x] is Leaf,
        leaf is Leaf,
    ensures
        leaves(n0.update(x, leaf), x, 0) == seq![x],
        leaves(n0, x, 0) == seq![x],
{
    assert(leaves(n0.update(x, leaf), x, 0) =~= seq![x]);
    assert(leaves(n0, x, 0) =~= seq![x]);
}

/// A new root over the two halves of a split root has their leaves, in order,
/// with their nodes unchanged.
proof fn lemma_root_leaves<V>(n1: Seq<Node<V>>, n2: Seq<Node<V>>, root: NodeId, h: nat, hi: int, order: nat,
    split: Split, nr: InternalNode)
    requires
        shape_after(n1, root.0 as int, h, 0, hi, order, Some(split)),
        n2 == n1.push(Node::<V>::Internal(nr)),
        nr.children@ == seq![root, split.right],
    ensures
        leaves(n2, n1.len() as int, h + 1) == leaves_after(n1, root.0 as int, h, Some(split)),
        unchanged(n1, n2, leaves_after(n1, root.0 as int, h, Some(split))),
{
    let r = root.0 as int;
    let right = split.right.0 as int;
    let sep = split.separator as int;
    lemma_reach_valid(n1, r, h, 0, sep, order);
    lemma_reach_valid(n1, right, h, sep, hi, order);
    assert forall|y: int| #[trigger] reach(n1, r, h).contains(y) implies 0 <= y < n1.len() && y < n2.len() && n2[y] == n1[y] by {}
    assert forall|y: int| #[trigger] reach(n1, right, h).contains(y) implies 0 <= y < n1.len() && y < n2.len() && n2[y] == n1[y] by {}
    lemma_frame(n1, n2, r, h, 0, sep, order);
    lemma_frame(n1, n2, right, h, sep, hi, order);
    assert(seq![root, split.right] =~= seq![root] + seq![split.right]);
    lemma_leaves_list_append(n2, seq![root], seq![split.right], h);
    lemma_leaves_list_single(n2, root, h);
    lemma_leaves_list_single(n2, split.right, h);
    assert(n2[n1.len() as int] == Node::<V>::Internal(nr));
    lemma_leaves_valid(n1, r, h, 0, sep, order);
    lemma_leaves_valid(n1, right, h, sep, hi, order);
    let la = leaves(n1, r, h);
    let lb = leaves(n1, right, h);
    let ll = la + lb;
    assert forall|k: int| 0 <= k < ll.len() implies 0 <= #[trigger] ll[k] < n1.len() && ll[k] < n2.len()
        && n2[ll[k]] == n1[ll[k]] by {
        if k < la.len() {
            assert(ll[k] == la[k]);
        } else {
            assert(ll[k] == lb[k - la.len()]);
        }
    }
}

impl<V> BPlusTree<V> {
    /// Moves the upper half of an overfull leaf into a new leaf after it.
    fn split_leaf(&mut self, id: NodeId) -> (r: Split)
        requires
            0 < old(self).order <= (usize::MAX - 2) / 2,
            id.0 < old(self).arena.nodes().len(),
            old(self).arena.nodes()[id.0 as int] is Leaf,
            old(self).arena.nodes()[id.0 as int]->Leaf_0.entries@.len() == 2 * old(self).order + 1,
        ensures
            ({
                let n0 = old(self).arena.nodes();
                let leaf = n0[id.0 as int]->Leaf_0;
                let e = leaf.entries@;
                let o = old(self).order as int;
                &&& r.right.0 == n0.len()
                &&& r.separator == e[o].0
                &&& final(self).arena.nodes().len() == n0.len() + 1
                &&& final(self).arena.nodes()[id.0 as int] is Leaf
                &&& final(self).arena.nodes()[id.0 as int]->Leaf_0.entries@ == e.subrange(0, o)
                &&& final(self).arena.nodes()[r.right.0 as int] is Leaf
                &&& final(self).arena.nodes()[r.right.0 as int]->Leaf_0.entries@ == e.subrange(o, e.len() as int)
                &&& forall|y: int| 0 <= y < n0.len() && y != id.0 ==> #[trigger] final(self).arena.nodes()[y] == n0[y]
                &&& final(self).arena.nodes()[id.0 as int]->Leaf_0.next == Some(r.right)
                &&& final(self).arena.nodes()[r.right.0 as int]->Leaf_0.next == leaf.next
            }),
            final(self).root == old(self).root,
            final(self).order == old(self).order,
            final(self).len == old(self).len,
            final(self).height == old(self).height,
    {
        let ghost n0 = self.arena.nodes();
        let order = self.order;
        let (separator, right_entries, old_next) = match self.arena.get_mut(id) {
            Node::Leaf(leaf) => {
                let separator = leaf.entries[order].0;
                let right_entries = leaf.entries.split_off(order);
                (separator, right_entries, leaf.next)
            }
            Node::Internal(_) => {
                proof { assert(false); }
                (0, Vec::new(), None)
            }
        };
        let right = self.arena.allocate(Node::Leaf(LeafNode { entries: right_entries, next: old_next }));
        match self.arena.get_mut(id) {
            Node::Leaf(leaf) => {
                leaf.next = Some(right);
            }
            Node::Internal(_) => {}
        }
        Split { separator, right }
    }

    /// Puts `(key, value)` into the leaf at `id`, splitting it if it overflows.
    #[verifier::rlimit(40)]
    fn insert_leaf(&mut self, id: NodeId, key: u64, value: V, Ghost(lo): Ghost<int>, Ghost(hi): Ghost<int>)
        -> (r: InsertResult<V>)
        requires
            0 < old(self).order <= (usize::MAX - 2) / 2,
            wf(old(self).arena.nodes(), id.0 as int, 0, lo, hi, old(self).order as nat),
            lo <= key < hi,
        ensures
            inserted(old(self).arena.nodes(), final(self).arena.nodes(), id.0 as int, 0, lo, hi,
                old(self).order as nat, key, value, r),
            final(self).root == old(self).root,
            final(self).order == old(self).order,
            final(self).len == old(self).len,
            final(self).height == old(self).height,
    {
        let ghost n0 = self.arena.nodes();
        let ghost x = id.0 as int;
        let ghost e = n0[x]->Leaf_0.entries@;
        let ghost fs = *final(self);
        let order = self.order;
        proof {
            lemma_lower(e, key);
            lemma_put(e, key, value);
        }
        let overflow = match self.arena.get_mut(id) {
            Node::Leaf(leaf) => {
                let ghost fl = *final(leaf);
                match search_entries(&leaf.entries, key) {
                    Ok(index) => {
                        let mut previous = value;
                        std::mem::swap(&mut leaf.entries[index].1, &mut previous);
                        proof {
                            assert(fl.entries@ == e.update(index as int, (key, value)));
                            assert(fl.next == n0[x]->Leaf_0.next);
                            assert(leaves(n0, x, 0) =~= seq![x]);
                            lemma_leaves_update_leaf_at(n0, x, Node::Leaf(fl));
                            assert forall|t: Option<int>| linked(n0, leaves(n0, x, 0), t) implies
                                #[trigger] linked(fs.arena.nodes(), leaves_after(fs.arena.nodes(), x, 0, None), t) by {
                                lemma_linked_update_leaf(n0, x, Node::Leaf(fl), seq![x], t);
                            }
                            assert(fs.arena.nodes() == n0.update(x, Node::Leaf(fl)));
                            assert(fs.root == self.root && fs.height == self.height && fs.len == self.len && fs.order == self.order);
                            assert(lower(e, key) == index);
                            assert(reach(fs.arena.nodes(), x, 0) =~= reach(n0, x, 0));
                        }
                        return InsertResult { previous: Some(previous), split: None };
                    }
                    Err(index) => {
                        proof {
                            let q = lower(e, key);
                            if q < index { assert(e[q].0 < key); }
                            if q > index { assert(e[index as int].0 > key); }
                        }
                        leaf.entries.insert(index, (key, value));
                        leaf.entries.len() > 2 * order
                    }
                }
            }
            Node::Internal(_) => {
                proof { assert(false); }
                false
            }
        };
        let ghost n1 = self.arena.nodes();
        proof {
            assert(n1[x] is Leaf);
            assert(n1[x]->Leaf_0.entries@ == put(e, key, value));
            assert(n1 == n0.update(x, n1[x]));
            assert(n1[x]->Leaf_0.next == n0[x]->Leaf_0.next);
            assert(leaves(n0, x, 0) =~= seq![x]);
        }
        let split = if overflow {
            let s = self.split_leaf(id);
            proof {
                let n2 = self.arena.nodes();
                let p = put(e, key, value);
                let o = order as int;
                let sep = s.separator;
                assert(p.len() == 2 * order + 1);
                assert(sorted_entries(n2[x]->Leaf_0.entries@)) by {
                    assert forall|i: int, j: int| 0 <= i < j < o implies n2[x]->Leaf_0.entries@[i].0 < n2[x]->Leaf_0.entries@[j].0 by {
                        assert(n2[x]->Leaf_0.entries@[i] == p[i] && n2[x]->Leaf_0.entries@[j] == p[j]);
                    }
                }
                let rp = n2[s.right.0 as int]->Leaf_0.entries@;
                assert(sorted_entries(rp)) by {
                    assert forall|i: int, j: int| 0 <= i < j < rp.len() implies rp[i].0 < rp[j].0 by {
                        assert(rp[i] == p[o + i] && rp[j] == p[o + j]);
                    }
                }
                assert(keys_within(p, lo, hi));
                assert(lo <= p[0].0 < p[o].0 < hi);
                assert(keys_within(n2[x]->Leaf_0.entries@, lo, sep as int)) by {
                    assert forall|i: int| 0 <= i < o implies lo <= #[trigger] n2[x]->Leaf_0.entries@[i].0 < sep by {
                        assert(n2[x]->Leaf_0.entries@[i] == p[i]);
                    }
                }
                assert(keys_within(rp, sep as int, hi)) by {
                    assert forall|i: int| 0 <= i < rp.len() implies sep <= #[trigger] rp[i].0 < hi by {
                        assert(rp[i] == p[o + i]);
                    }
                }
                assert(reach(n2, x, 0) =~= set![x]);
                assert(reach(n2, s.right.0 as int, 0) =~= set![s.right.0 as int]);
                assert(n2[x]->Leaf_0.entries@ + rp =~= p);
                assert forall|y: int| 0 <= y < n0.len() && !reach(n0, x, 0).contains(y) implies #[trigger] n2[y] == n0[y] by {
                    assert(reach(n0, x, 0).contains(x));
                }
                let r = s.right.0 as int;
                assert(leaves(n2, x, 0) =~= seq![x]);
                assert(leaves(n2, r, 0) =~= seq![r]);
                assert(leaves_after(n2, x, 0, Some(s)) =~= seq![x, r]);
                let ls = seq![x, r];
                assert forall|t: Option<int>| linked(n0, leaves(n0, x, 0), t) implies
                    #[trigger] linked(n2, leaves_after(n2, x, 0, Some(s)), t) by {
                    assert(link_at(n0, seq![x], 0, t));
                    assert(link_at(n2, ls, 0, t));
                    assert(link_at(n2, ls, 1, t));
                    assert forall|i: int| 0 <= i < ls.len() implies #[trigger] link_at(n2, ls, i, t) by {}
                }
            }
            Some(s)
        } else {
            proof {
                assert(reach(n1, x, 0) =~= reach(n0, x, 0));
                assert(reach(n0, x, 0) =~= set![x]);
                lemma_leaves_update_leaf_at(n0, x, n1[x]);
                assert forall|t: Option<int>| linked(n0, leaves(n0, x, 0), t) implies
                    #[trigger] linked(n1, leaves_after(n1, x, 0, None), t) by {
                    lemma_linked_update_leaf(n0, x, n1[x], seq![x], t);
                }
            }
            None
        };
        InsertResult { previous: None, split }
    }

    /// Moves the upper half of an overfull internal node into a new node; the
    /// middle separator goes up.
    fn split_internal(&mut self, id: NodeId) -> (r: Split)
        requires
            0 < old(self).order <= (usize::MAX - 2) / 2,
            id.0 < old(self).arena.nodes().len(),
            old(self).arena.nodes()[id.0 as int] is Internal,
            old(self).arena.nodes()[id.0 as int]->Internal_0.keys@.len() == 2 * old(self).order + 1,
            old(self).arena.nodes()[id.0 as int]->Internal_0.children@.len()
                == old(self).arena.nodes()[id.0 as int]->Internal_0.keys@.len() + 1,
        ensures
            ({
                let n0 = old(self).arena.nodes();
                let n = n0[id.0 as int]->Internal_0;
                let n1 = final(self).arena.nodes();
                let o = old(self).order as int;
                &&& r.right.0 == n0.len()
                &&& r.separator == n.keys@[o]
                &&& n1.len() == n0.len() + 1
                &&& n1[id.0 as int] is Internal
                &&& n1[id.0 as int]->Internal_0.keys@ == n.keys@.subrange(0, o)
                &&& n1[id.0 as int]->Internal_0.children@ == n.children@.subrange(0, o + 1)
                &&& n1[r.right.0 as int] is Internal
                &&& n1[r.right.0 as int]->Internal_0.keys@ == n.keys@.subrange(o + 1, n.keys@.len() as int)
                &&& n1[r.right.0 as int]->Internal_0.children@ == n.children@.subrange(o + 1, n.children@.len() as int)
                &&& forall|y: int| 0 <= y < n0.len() && y != id.0 ==> #[trigger] n1[y] == n0[y]
            }),
            final(self).root == old(self).root,
            final(self).order == old(self).order,
            final(self).len == old(self).len,
            final(self).height == old(self).height,
    {
        let order = self.order;
        let (separator, right_keys, right_children) = match self.arena.get_mut(id) {
            Node::Internal(node) => {
                let right_keys = node.keys.split_off(order + 1);
                let separator = node.keys.pop().unwrap();
                let right_children = node.children.split_off(order + 1);
                (separator, right_keys, right_children)
            }
            Node::Leaf(_) => {
                proof { assert(false); }
                (0, Vec::new(), Vec::new())
            }
        };
        let right = self.arena.allocate(Node::Internal(InternalNode { keys: right_keys, children: right_children }));
        Split { separator, right }
    }

    /// Inserts below node `id`, a subtree of height `h` over keys in `[lo, hi)`;
    /// a node that overflows splits, and its upper half is handed to the caller.
    fn insert_into(&mut self, id: NodeId, key: u64, value: V, Ghost(h): Ghost<nat>, Ghost(lo): Ghost<int>,
        Ghost(hi): Ghost<int>) -> (r: InsertResult<V>)
        requires
            0 < old(self).order <= (usize::MAX - 2) / 2,
            wf(old(self).arena.nodes(), id.0 as int, h, lo, hi, old(self).order as nat),
            lo <= key < hi,
        ensures
            inserted(old(self).arena.nodes(), final(self).arena.nodes(), id.0 as int, h, lo, hi,
                old(self).order as nat, key, value, r),
            final(self).root == old(self).root,
            final(self).order == old(self).order,
            final(self).len == old(self).len,
            final(self).height == old(self).height,
        decreases h,
    {
        let ghost n0 = self.arena.nodes();
        let ghost x = id.0 as int;
        let dest = match self.arena.get(id) {
            Node::Leaf(_) => None,
            Node::Internal(node) => {
                let index = partition_point_le(&node.keys, key);
                proof { lemma_count_le(node.keys@, key); }
                Some((index, node.children[index]))
            }
        };
        let (child_index, child_id) = match dest {
            None => {
                return self.insert_leaf(id, key, value, Ghost(lo), Ghost(hi));
            }
            Some(d) => d,
        };
        let ghost n = n0[x]->Internal_0;
        let ghost c = child_index as int;
        proof { lemma_descend(n0, x, n, h, lo, hi, self.order as nat, key); }
        let result = self.insert_into(child_id, key, value, Ghost((h - 1) as nat),
            Ghost(child_lo(lo, n.keys@, c)), Ghost(child_hi(hi, n.keys@, c)));
        let ghost rc = result;
        let ghost n1 = self.arena.nodes();
        let split = match result.split {
            None => {
                proof { lemma_child_updated(n0, n1, x, n, h, lo, hi, self.order as nat, key, value, rc); }
                return InsertResult { previous: result.previous, split: None };
            }
            Some(split) => split,
        };
        proof {
            assert(n1[x] == n0[x]) by {
                assert(!reach(n0, child_id.0 as int, (h - 1) as nat).contains(x));
            }
        }
        let order = self.order;
        let ghost mut m: InternalNode = n;
        let overflow = match self.arena.get_mut(id) {
            Node::Internal(node) => {
                node.keys.insert(child_index, split.separator);
                node.children.insert(child_index + 1, split.right);
                proof { m = *node; }
                node.keys.len() > 2 * order
            }
            Node::Leaf(_) => {
                proof { assert(false); }
                false
            }
        };
        let ghost n2 = self.arena.nodes();
        proof {
            assert(n2 == n1.update(x, Node::<V>::Internal(m)));
            lemma_child_split(n0, n1, n2, x, n, h, lo, hi, order as nat, key, value, rc, m);
            lemma_child_split_leaves(n0, n1, n2, x, n, h, lo, hi, order as nat, key, value, rc, m);
        }
        let new_split = if overflow {
            let s = self.split_internal(id);
            proof {
                let n3 = self.arena.nodes();
                lemma_split_internal(n2, n3, x, m, h, lo, hi, order as nat, s);
                lemma_split_internal_leaves(n2, n3, x, m, h, lo, hi, order as nat, s);
                let ll = leaves_list(n2, m.children@, (h - 1) as nat);
                assert forall|t: Option<int>| linked(n0, leaves(n0, x, h), t) implies
                    #[trigger] linked(n3, leaves_after(n3, x, h, Some(s)), t) by {
                    lemma_linked_same(n2, n3, ll, t);
                }
                assert forall|y: int| 0 <= y < n0.len() && !reach(n0, x, h).contains(y) implies #[trigger] n3[y] == n0[y] by {
                    lemma_reach_valid(n0, x, h, lo, hi, order as nat);
                }
                assert forall|y: int| #[trigger] reach_after(n3, x, h, Some(s)).contains(y)
                    implies reach(n0, x, h).contains(y) || n0.len() <= y < n3.len() by {
                    lemma_reach_valid(n0, x, h, lo, hi, order as nat);
                    if y != x && y != s.right.0 {
                        assert(reach_list(n2, m.children@, (h - 1) as nat).contains(y));
                    }
                }
            }
            Some(s)
        } else {
            proof {
                assert(wf(n2, x, h, lo, hi, order as nat));
                assert(entries(n2, x, h) == entries_list(n2, m.children@, (h - 1) as nat));
                assert(leaves(n2, x, h) == leaves_list(n2, m.children@, (h - 1) as nat));
                assert(reach(n2, x, h) == set![x].union(reach_list(n2, m.children@, (h - 1) as nat)));
                lemma_reach_valid(n0, x, h, lo, hi, order as nat);
                assert forall|y: int| 0 <= y < n0.len() && !reach(n0, x, h).contains(y) implies #[trigger] n2[y] == n0[y] by {
                }
                assert forall|y: int| #[trigger] reach_after(n2, x, h, None).contains(y)
                    implies reach(n0, x, h).contains(y) || n0.len() <= y < n2.len() by {
                    if y != x {
                        assert(reach_list(n2, m.children@, (h - 1) as nat).contains(y));
                    }
                }
            }
            None
        };
        InsertResult { previous: result.previous, split: new_split }
    }

    /// Puts `value` at `key` and returns the value it replaced.
    pub fn insert(&mut self, key: u64, value: V) -> (r: Option<V>)
        requires
            old(self).inv(),
            old(self).len_spec() < usize::MAX,
        ensures
            final(self).inv(),
            final(self)@ == old(self)@.insert(key, value),
            r == (if old(self)@.contains_key(key) { Some(old(self)@[key]) } else { None::<V> }),
            final(self).order_spec() == old(self).order_spec(),
    {
        proof { self.lemma_tree_inv(); }
        let ghost n0 = self.arena.nodes();
        let ghost root = self.root.0 as int;
        let ghost h = self.height@;
        let ghost g = self.contents();
        let ghost order = self.order as nat;
        proof {
            lemma_entries_sorted(n0, root, h, 0, key_limit(), order);
            lemma_put(g, key, value);
        }
        let result = self.insert_into(self.root, key, value, Ghost(self.height@), Ghost(0), Ghost(key_limit()));
        let ghost n1 = self.arena.nodes();
        proof {
            assert(linked(n0, leaves(n0, root, h), None));
            assert(linked(n1, leaves_after(n1, root, h, result.split), None));
        }
        if let Some(split) = result.split {
            let new_root = InternalNode { keys: vec![split.separator], children: vec![self.root, split.right] };
            let ghost nr = new_root;
            self.root = self.arena.allocate(Node::Internal(new_root));
            self.height = Ghost(h + 1);
            proof {
                let n2 = self.arena.nodes();
                let r2 = self.root.0 as int;
                let right = split.right.0 as int;
                let sep = split.separator as int;
                lemma_reach_valid(n1, root, h, 0, sep, order);
                lemma_reach_valid(n1, right, h, sep, key_limit(), order);
                assert forall|y: int| #[trigger] reach(n1, root, h).contains(y) implies 0 <= y < n1.len() && y < n2.len() && n2[y] == n1[y] by {}
                assert forall|y: int| #[trigger] reach(n1, right, h).contains(y) implies 0 <= y < n1.len() && y < n2.len() && n2[y] == n1[y] by {}
                lemma_frame(n1, n2, root, h, 0, sep, order);
                lemma_frame(n1, n2, right, h, sep, key_limit(), order);
                assert(nr.children@ =~= seq![NodeId(root as usize), split.right]);
                assert(nr.keys@ =~= seq![split.separator]);
                assert(n2[r2] == Node::<V>::Internal(nr));
                assert forall|i: int| 0 <= i < nr.children@.len() implies wf(n2, (#[trigger] nr.children@[i]).0 as int, h,
                    child_lo(0, nr.keys@, i), child_hi(key_limit(), nr.keys@, i), order) by {
                }
                assert(wf(n2, r2, h + 1, 0, key_limit(), order));
                lemma_entries_list_append(n2, seq![NodeId(root as usize)], seq![split.right], h);
                lemma_entries_list_single(n2, NodeId(root as usize), h);
                lemma_entries_list_single(n2, split.right, h);
                assert(seq![NodeId(root as usize)] + seq![split.right] =~= nr.children@);
                lemma_root_leaves(n1, n2, NodeId(root as usize), h, key_limit(), order, split, nr);
                lemma_linked_same(n1, n2, leaves_after(n1, root, h, result.split), None);
                self.lemma_tree_inv();
                assert(self.contents() == put(g, key, value));
            }
        } else {
            proof {
                self.lemma_tree_inv();
                assert(self.contents() == put(g, key, value));
            }
        }
        if result.previous.is_none() {
            self.len = self.len + 1;
        }
        proof {
            self.lemma_tree_inv();
            lemma_lower(g, key);
            if has_key(g, key) {
                lemma_entry_map_at(g, lower(g, key));
            }
        }
        result.previous
    }
}

} // verus!
