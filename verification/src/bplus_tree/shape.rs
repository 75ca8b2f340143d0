use vstd::prelude::*;
use super::node::{Node, NodeId};
use super::leaves::{leaves, linked, lemma_leaves_list_eq, lemma_leaves_update_leaf, lemma_linked_update_leaf};

verus! {

pub open spec fn sorted_keys(k: Seq<u64>) -> bool {
    forall|i: int, j: int| 0 <= i < j < k.len() ==> k[i] < k[j]
}

pub open spec fn sorted_entries<V>(s: Seq<(u64, V)>) -> bool {
    forall|i: int, j: int| 0 <= i < j < s.len() ==> s[i].0 < s[j].0
}

pub open spec fn keys_within<V>(s: Seq<(u64, V)>, lo: int, hi: int) -> bool {
    forall|i: int| 0 <= i < s.len() ==> lo <= #[trigger] s[i].0 < hi
}

/// Where the keys below child `i` of a node start.
pub open spec fn child_lo(lo: int, keys: Seq<u64>, i: int) -> int {
    if i == 0 { lo } else { keys[i - 1] as int }
}

/// Where the keys below child `i` of a node end.
pub open spec fn child_hi(hi: int, keys: Seq<u64>, i: int) -> int {
    if i >= keys.len() { hi } else { keys[i] as int }
}

/// The nodes of the subtree at `id`, read `h` levels down.
pub open spec fn reach<V>(nodes: Seq<Node<V>>, id: int, h: nat) -> Set<int>
    decreases h, 0nat,
{
    if 0 <= id < nodes.len() && h > 0 {
        match nodes[id] {
            Node::Internal(n) => set![id].union(reach_list(nodes, n.children@, (h - 1) as nat)),
            Node::Leaf(_) => set![id],
        }
    } else {
        set![id]
    }
}

/// The nodes of the subtrees at `cs`, read `h` levels down.
pub open spec fn reach_list<V>(nodes: Seq<Node<V>>, cs: Seq<NodeId>, h: nat) -> Set<int>
    decreases h, cs.len(),
{
    if cs.len() == 0 {
        Set::empty()
    } else {
        reach_list(nodes, cs.drop_last(), h).union(reach(nodes, cs.last().0 as int, h))
    }
}

/// The entries of the leaves of the subtree at `id`, left to right.
pub open spec fn entries<V>(nodes: Seq<Node<V>>, id: int, h: nat) -> Seq<(u64, V)>
    decreases h, 0nat,
{
    if 0 <= id < nodes.len() {
        match nodes[id] {
            Node::Leaf(l) => l.entries@,
            Node::Internal(n) => if h > 0 { entries_list(nodes, n.children@, (h - 1) as nat) } else { Seq::empty() },
        }
    } else {
        Seq::empty()
    }
}

pub open spec fn entries_list<V>(nodes: Seq<Node<V>>, cs: Seq<NodeId>, h: nat) -> Seq<(u64, V)>
    decreases h, cs.len(),
{
    if cs.len() == 0 {
        Seq::empty()
    } else {
        entries_list(nodes, cs.drop_last(), h) + entries(nodes, cs.last().0 as int, h)
    }
}

/// The subtree at `id` is a B+ tree of height `h` whose keys lie in `[lo, hi)`:
/// leaves at the bottom with sorted entries, internal nodes with sorted
/// separators and one more child than separators, nodes at most `2 * order`
/// wide, and no node reached twice.
pub open spec fn wf<V>(nodes: Seq<Node<V>>, id: int, h: nat, lo: int, hi: int, order: nat) -> bool
    decreases h,
{
    &&& 0 <= id < nodes.len()
    &&& match nodes[id] {
        Node::Leaf(l) => {
            &&& h == 0
            &&& sorted_entries(l.entries@)
            &&& keys_within(l.entries@, lo, hi)
            &&& l.entries@.len() <= 2 * order
        },
        Node::Internal(n) => {
            &&& h > 0
            &&& n.children@.len() == n.keys@.len() + 1
            &&& n.keys@.len() <= 2 * order
            &&& sorted_keys(n.keys@)
            &&& forall|i: int| 0 <= i < n.keys@.len() ==> lo < #[trigger] n.keys@[i] < hi
            &&& forall|i: int| 0 <= i < n.children@.len() ==> wf(nodes, (#[trigger] n.children@[i]).0 as int,
                (h - 1) as nat, child_lo(lo, n.keys@, i), child_hi(hi, n.keys@, i), order)
            &&& forall|i: int, j: int| 0 <= i < j < n.children@.len()
                ==> reach(nodes, (#[trigger] n.children@[i]).0 as int, (h - 1) as nat).disjoint(
                    reach(nodes, (#[trigger] n.children@[j]).0 as int, (h - 1) as nat))
            &&& forall|i: int| 0 <= i < n.children@.len()
                ==> !reach(nodes, (#[trigger] n.children@[i]).0 as int, (h - 1) as nat).contains(id)
        },
    }
}

/// Two arenas hold the same nodes at the indices of `s`.
pub open spec fn agree<V>(a: Seq<Node<V>>, b: Seq<Node<V>>, s: Set<int>) -> bool {
    forall|x: int| #[trigger] s.contains(x) ==> 0 <= x < a.len() && x < b.len() && b[x] == a[x]
}

pub proof fn lemma_reach_list_member<V>(nodes: Seq<Node<V>>, cs: Seq<NodeId>, h: nat)
    ensures
        forall|i: int| 0 <= i < cs.len() ==> reach(nodes, (#[trigger] cs[i]).0 as int, h).subset_of(reach_list(nodes, cs, h)),
        forall|x: int| reach_list(nodes, cs, h).contains(x)
            ==> exists|i: int| 0 <= i < cs.len() && #[trigger] reach(nodes, cs[i].0 as int, h).contains(x),
    decreases cs.len(),
{
    if cs.len() > 0 {
        let init = cs.drop_last();
        lemma_reach_list_member(nodes, init, h);
        assert(reach_list(nodes, cs, h) == reach_list(nodes, init, h).union(reach(nodes, cs.last().0 as int, h)));
        assert forall|i: int| 0 <= i < cs.len() implies reach(nodes, (#[trigger] cs[i]).0 as int, h).subset_of(reach_list(nodes, cs, h)) by {
            if i < cs.len() - 1 {
                assert(cs[i] == init[i]);
                assert(reach(nodes, init[i].0 as int, h).subset_of(reach_list(nodes, init, h)));
            }
        }
        assert forall|x: int| reach_list(nodes, cs, h).contains(x)
            implies exists|i: int| 0 <= i < cs.len() && #[trigger] reach(nodes, cs[i].0 as int, h).contains(x) by {
            if reach(nodes, cs.last().0 as int, h).contains(x) {
                assert(reach(nodes, cs[cs.len() - 1].0 as int, h).contains(x));
            } else {
                assert(reach_list(nodes, init, h).contains(x));
                let i = choose|i: int| 0 <= i < init.len() && #[trigger] reach(nodes, init[i].0 as int, h).contains(x);
                assert(init[i] == cs[i]);
                assert(reach(nodes, cs[i].0 as int, h).contains(x));
            }
        }
    }
}

/// A valid subtree holds its root, and only indices of the arena.
pub proof fn lemma_reach_valid<V>(nodes: Seq<Node<V>>, id: int, h: nat, lo: int, hi: int, order: nat)
    requires
        wf(nodes, id, h, lo, hi, order),
    ensures
        reach(nodes, id, h).contains(id),
        forall|x: int| reach(nodes, id, h).contains(x) ==> 0 <= x < nodes.len(),
    decreases h,
{
    if let Node::Internal(n) = nodes[id] {
        let cs = n.children@;
        lemma_reach_list_member(nodes, cs, (h - 1) as nat);
        assert forall|x: int| reach(nodes, id, h).contains(x) implies 0 <= x < nodes.len() by {
            if x != id {
                let i = choose|i: int| 0 <= i < cs.len() && #[trigger] reach(nodes, cs[i].0 as int, (h - 1) as nat).contains(x);
                lemma_reach_valid(nodes, cs[i].0 as int, (h - 1) as nat, child_lo(lo, n.keys@, i), child_hi(hi, n.keys@, i), order);
            }
        }
    }
}

/// A subtree is unchanged by changes to nodes outside it.
pub proof fn lemma_frame<V>(nodes: Seq<Node<V>>, nodes2: Seq<Node<V>>, id: int, h: nat, lo: int, hi: int, order: nat)
    requires
        wf(nodes, id, h, lo, hi, order),
        agree(nodes, nodes2, reach(nodes, id, h)),
    ensures
        wf(nodes2, id, h, lo, hi, order),
        reach(nodes2, id, h) == reach(nodes, id, h),
        entries(nodes2, id, h) == entries(nodes, id, h),
        leaves(nodes2, id, h) == leaves(nodes, id, h),
    decreases h, 0nat,
{
    lemma_reach_valid(nodes, id, h, lo, hi, order);
    assert(nodes2[id] == nodes[id]);
    if let Node::Internal(n) = nodes[id] {
        let cs = n.children@;
        let hh = (h - 1) as nat;
        lemma_reach_list_member(nodes, cs, hh);
        assert forall|i: int| 0 <= i < cs.len() implies
            wf(nodes2, (#[trigger] cs[i]).0 as int, hh, child_lo(lo, n.keys@, i), child_hi(hi, n.keys@, i), order)
            && reach(nodes2, cs[i].0 as int, hh) == reach(nodes, cs[i].0 as int, hh)
            && entries(nodes2, cs[i].0 as int, hh) == entries(nodes, cs[i].0 as int, hh)
            && leaves(nodes2, cs[i].0 as int, hh) == leaves(nodes, cs[i].0 as int, hh) by {
            assert(reach(nodes, id, h) == set![id].union(reach_list(nodes, cs, hh)));
            assert(reach(nodes, cs[i].0 as int, hh).subset_of(reach_list(nodes, cs, hh)));
            lemma_agree_subset(nodes, nodes2, reach(nodes, id, h), reach(nodes, cs[i].0 as int, hh));
            lemma_frame(nodes, nodes2, cs[i].0 as int, hh, child_lo(lo, n.keys@, i), child_hi(hi, n.keys@, i), order);
        }
        lemma_frame_list(nodes, nodes2, cs, hh);
        lemma_leaves_list_eq(nodes, nodes2, cs, hh);
    }
}

pub proof fn lemma_frame_list<V>(nodes: Seq<Node<V>>, nodes2: Seq<Node<V>>, cs: Seq<NodeId>, h: nat)
    requires
        forall|i: int| 0 <= i < cs.len() ==> reach(nodes2, (#[trigger] cs[i]).0 as int, h) == reach(nodes, cs[i].0 as int, h)
            && entries(nodes2, cs[i].0 as int, h) == entries(nodes, cs[i].0 as int, h),
    ensures
        reach_list(nodes2, cs, h) == reach_list(nodes, cs, h),
        entries_list(nodes2, cs, h) == entries_list(nodes, cs, h),
    decreases cs.len(),
{
    if cs.len() > 0 {
        assert forall|i: int| 0 <= i < cs.len() - 1 implies reach(nodes2, (#[trigger] cs.drop_last()[i]).0 as int, h) == reach(nodes, cs.drop_last()[i].0 as int, h)
            && entries(nodes2, cs.drop_last()[i].0 as int, h) == entries(nodes, cs.drop_last()[i].0 as int, h) by {
            assert(cs.drop_last()[i] == cs[i]);
        }
        lemma_frame_list(nodes, nodes2, cs.drop_last(), h);
        assert(cs.last() == cs[cs.len() - 1]);
    }
}

pub proof fn lemma_agree_subset<V>(a: Seq<Node<V>>, b: Seq<Node<V>>, s1: Set<int>, s2: Set<int>)
    requires
        agree(a, b, s1),
        s2.subset_of(s1),
    ensures
        agree(a, b, s2),
{
    assert forall|x: int| #[trigger] s2.contains(x) implies 0 <= x < a.len() && x < b.len() && b[x] == a[x] by {
        assert(s1.contains(x));
    }
}

/// Where the keys below child `i` of a node start; `bound(.., i + 1)` is where they end.
pub open spec fn bound(lo: int, hi: int, keys: Seq<u64>, i: int) -> int {
    if i <= 0 { lo } else if i - 1 < keys.len() { keys[i - 1] as int } else { hi }
}

pub proof fn lemma_entries_list_append<V>(nodes: Seq<Node<V>>, a: Seq<NodeId>, b: Seq<NodeId>, h: nat)
    ensures
        entries_list(nodes, a + b, h) == entries_list(nodes, a, h) + entries_list(nodes, b, h),
        reach_list(nodes, a + b, h) == reach_list(nodes, a, h).union(reach_list(nodes, b, h)),
    decreases b.len(),
{
    if b.len() == 0 {
        assert(a + b =~= a);
        assert(entries_list(nodes, b, h) =~= Seq::<(u64, V)>::empty());
        assert(reach_list(nodes, a, h).union(reach_list(nodes, b, h)) =~= reach_list(nodes, a, h));
    } else {
        lemma_entries_list_append(nodes, a, b.drop_last(), h);
        assert((a + b).drop_last() =~= a + b.drop_last());
        assert((a + b).last() == b.last());
        assert(entries_list(nodes, a + b, h) =~= entries_list(nodes, a, h) + entries_list(nodes, b, h));
        assert(reach_list(nodes, a + b, h) =~= reach_list(nodes, a, h).union(reach_list(nodes, b, h)));
    }
}

pub proof fn lemma_entries_list_single<V>(nodes: Seq<Node<V>>, c: NodeId, h: nat)
    ensures
        entries_list(nodes, seq![c], h) == entries(nodes, c.0 as int, h),
        reach_list(nodes, seq![c], h) == reach(nodes, c.0 as int, h),
{
    assert(seq![c].drop_last() =~= Seq::<NodeId>::empty());
    assert(seq![c].last() == c);
    assert(entries_list(nodes, Seq::<NodeId>::empty(), h) == Seq::<(u64, V)>::empty());
    assert(reach_list(nodes, Seq::<NodeId>::empty(), h) == Set::<int>::empty());
    assert(entries_list(nodes, seq![c], h) =~= entries(nodes, c.0 as int, h));
    assert(reach_list(nodes, seq![c], h) =~= reach(nodes, c.0 as int, h));
}

/// The entries below a run of children of a valid internal node are sorted and
/// lie between the bounds of the run.
pub proof fn lemma_range<V>(nodes: Seq<Node<V>>, id: int, h: nat, lo: int, hi: int, order: nat, a: int, b: int)
    requires
        wf(nodes, id, h, lo, hi, order),
        nodes[id] is Internal,
        0 <= a <= b <= nodes[id]->Internal_0.children@.len(),
    ensures
        ({
            let n = nodes[id]->Internal_0;
            let e = entries_list(nodes, n.children@.subrange(a, b), (h - 1) as nat);
            &&& sorted_entries(e)
            &&& keys_within(e, bound(lo, hi, n.keys@, a), bound(lo, hi, n.keys@, b))
        }),
    decreases h, 0nat, b - a,
{
    let n = nodes[id]->Internal_0;
    let cs = n.children@;
    let hh = (h - 1) as nat;
    if a == b {
        assert(cs.subrange(a, b) =~= Seq::<NodeId>::empty());
    } else {
        lemma_range(nodes, id, h, lo, hi, order, a, b - 1);
        let sub = cs.subrange(a, b);
        assert(sub.drop_last() =~= cs.subrange(a, b - 1));
        assert(sub.last() == cs[b - 1]);
        let e1 = entries_list(nodes, cs.subrange(a, b - 1), hh);
        let e2 = entries(nodes, cs[b - 1].0 as int, hh);
        assert(wf(nodes, cs[b - 1].0 as int, hh, child_lo(lo, n.keys@, b - 1), child_hi(hi, n.keys@, b - 1), order));
        lemma_entries_sorted(nodes, cs[b - 1].0 as int, hh, child_lo(lo, n.keys@, b - 1), child_hi(hi, n.keys@, b - 1), order);
        assert(child_lo(lo, n.keys@, b - 1) == bound(lo, hi, n.keys@, b - 1));
        assert(child_hi(hi, n.keys@, b - 1) == bound(lo, hi, n.keys@, b));
        assert(bound(lo, hi, n.keys@, a) <= bound(lo, hi, n.keys@, b - 1)) by {
            if a > 0 && b - 1 > a {
                if b - 2 < n.keys@.len() {
                    assert(n.keys@[a - 1] <= n.keys@[b - 2]);
                }
            }
        }
        let e = e1 + e2;
        assert forall|i: int, j: int| 0 <= i < j < e.len() implies e[i].0 < e[j].0 by {
            if j < e1.len() {
            } else if i >= e1.len() {
                assert(e[i] == e2[i - e1.len()]);
                assert(e[j] == e2[j - e1.len()]);
            } else {
                assert(e[i] == e1[i]);
                assert(e[j] == e2[j - e1.len()]);
            }
        }
        assert forall|i: int| 0 <= i < e.len() implies bound(lo, hi, n.keys@, a) <= #[trigger] e[i].0 < bound(lo, hi, n.keys@, b) by {
            if i < e1.len() {
                assert(e[i] == e1[i]);
            } else {
                assert(e[i] == e2[i - e1.len()]);
            }
        }
    }
}

/// The entries of a valid subtree are sorted and lie within its bounds.
pub proof fn lemma_entries_sorted<V>(nodes: Seq<Node<V>>, id: int, h: nat, lo: int, hi: int, order: nat)
    requires
        wf(nodes, id, h, lo, hi, order),
    ensures
        sorted_entries(entries(nodes, id, h)),
        keys_within(entries(nodes, id, h), lo, hi),
    decreases h, 1nat, 0int,
{
    if let Node::Internal(n) = nodes[id] {
        let cs = n.children@;
        lemma_range(nodes, id, h, lo, hi, order, 0, cs.len() as int);
        assert(cs.subrange(0, cs.len() as int) =~= cs);
    }
}

/// How many separators are at most `key`: the child a search for `key` takes.
pub open spec fn count_le(keys: Seq<u64>, key: u64) -> int
    decreases keys.len(),
{
    if keys.len() == 0 {
        0
    } else {
        count_le(keys.drop_last(), key) + if keys.last() <= key { 1int } else { 0int }
    }
}

/// In sorted separators, those at most `key` come first.
pub proof fn lemma_count_le(keys: Seq<u64>, key: u64)
    requires
        sorted_keys(keys),
    ensures
        0 <= count_le(keys, key) <= keys.len(),
        forall|i: int| 0 <= i < keys.len() ==> (keys[i] <= key <==> i < count_le(keys, key)),
    decreases keys.len(),
{
    if keys.len() > 0 {
        let init = keys.drop_last();
        assert(sorted_keys(init)) by {
            assert forall|i: int, j: int| 0 <= i < j < init.len() implies init[i] < init[j] by {
                assert(init[i] == keys[i] && init[j] == keys[j]);
            }
        }
        lemma_count_le(init, key);
        assert forall|i: int| 0 <= i < keys.len() implies (keys[i] <= key <==> i < count_le(keys, key)) by {
            if i < keys.len() - 1 {
                assert(init[i] == keys[i]);
                assert(keys[i] < keys[keys.len() - 1]);
            }
        }
    }
}

/// The leaf a search for `key` reaches from node `id`.
pub open spec fn leaf_for<V>(nodes: Seq<Node<V>>, id: int, h: nat, key: u64) -> int
    decreases h,
{
    if h > 0 && 0 <= id < nodes.len() && nodes[id] is Internal {
        let n = nodes[id]->Internal_0;
        leaf_for(nodes, n.children@[count_le(n.keys@, key)].0 as int, (h - 1) as nat, key)
    } else {
        id
    }
}

/// The entries left of the search path for `key`.
pub open spec fn left_of<V>(nodes: Seq<Node<V>>, id: int, h: nat, key: u64) -> Seq<(u64, V)>
    decreases h,
{
    if h > 0 && 0 <= id < nodes.len() && nodes[id] is Internal {
        let n = nodes[id]->Internal_0;
        let c = count_le(n.keys@, key);
        entries_list(nodes, n.children@.subrange(0, c), (h - 1) as nat)
            + left_of(nodes, n.children@[c].0 as int, (h - 1) as nat, key)
    } else {
        Seq::empty()
    }
}

/// The entries right of the search path for `key`.
pub open spec fn right_of<V>(nodes: Seq<Node<V>>, id: int, h: nat, key: u64) -> Seq<(u64, V)>
    decreases h,
{
    if h > 0 && 0 <= id < nodes.len() && nodes[id] is Internal {
        let n = nodes[id]->Internal_0;
        let c = count_le(n.keys@, key);
        right_of(nodes, n.children@[c].0 as int, (h - 1) as nat, key)
            + entries_list(nodes, n.children@.subrange(c + 1, n.children@.len() as int), (h - 1) as nat)
    } else {
        Seq::empty()
    }
}

/// Where the keys of the leaf for `key` may start.
pub open spec fn leaf_lo<V>(nodes: Seq<Node<V>>, id: int, h: nat, lo: int, hi: int, key: u64) -> int
    decreases h,
{
    if h > 0 && 0 <= id < nodes.len() && nodes[id] is Internal {
        let n = nodes[id]->Internal_0;
        let c = count_le(n.keys@, key);
        leaf_lo(nodes, n.children@[c].0 as int, (h - 1) as nat, bound(lo, hi, n.keys@, c), bound(lo, hi, n.keys@, c + 1), key)
    } else {
        lo
    }
}

/// Where the keys of the leaf for `key` end.
pub open spec fn leaf_hi<V>(nodes: Seq<Node<V>>, id: int, h: nat, lo: int, hi: int, key: u64) -> int
    decreases h,
{
    if h > 0 && 0 <= id < nodes.len() && nodes[id] is Internal {
        let n = nodes[id]->Internal_0;
        let c = count_le(n.keys@, key);
        leaf_hi(nodes, n.children@[c].0 as int, (h - 1) as nat, bound(lo, hi, n.keys@, c), bound(lo, hi, n.keys@, c + 1), key)
    } else {
        hi
    }
}

/// The search path for `key` splits the entries of a subtree around one leaf:
/// every entry left of the leaf is below its range, every entry right of it above.
pub proof fn lemma_path<V>(nodes: Seq<Node<V>>, id: int, h: nat, lo: int, hi: int, order: nat, key: u64)
    requires
        wf(nodes, id, h, lo, hi, order),
        lo <= key < hi,
    ensures
        ({
            let x = leaf_for(nodes, id, h, key);
            let llo = leaf_lo(nodes, id, h, lo, hi, key);
            let lhi = leaf_hi(nodes, id, h, lo, hi, key);
            &&& 0 <= x < nodes.len()
            &&& nodes[x] is Leaf
            &&& wf(nodes, x, 0, llo, lhi, order)
            &&& lo <= llo <= key < lhi <= hi
            &&& reach(nodes, id, h).contains(x)
            &&& entries(nodes, id, h) == left_of(nodes, id, h, key) + entries(nodes, x, 0) + right_of(nodes, id, h, key)
            &&& keys_within(left_of(nodes, id, h, key), lo, llo)
            &&& keys_within(right_of(nodes, id, h, key), lhi, hi)
        }),
    decreases h,
{
    lemma_reach_valid(nodes, id, h, lo, hi, order);
    if let Node::Internal(n) = nodes[id] {
        let cs = n.children@;
        let hh = (h - 1) as nat;
        let c = count_le(n.keys@, key);
        lemma_count_le(n.keys@, key);
        let clo = bound(lo, hi, n.keys@, c);
        let chi = bound(lo, hi, n.keys@, c + 1);
        assert(clo == child_lo(lo, n.keys@, c));
        assert(chi == child_hi(hi, n.keys@, c));
        assert(clo <= key < chi) by {
            if c > 0 { assert(n.keys@[c - 1] <= key); }
            if c < n.keys@.len() { assert(!(n.keys@[c] <= key)); }
        }
        let child = cs[c].0 as int;
        assert(wf(nodes, child, hh, clo, chi, order));
        lemma_path(nodes, child, hh, clo, chi, order, key);
        lemma_reach_list_member(nodes, cs, hh);
        assert(reach(nodes, child, hh).subset_of(reach_list(nodes, cs, hh)));
        assert(cs =~= cs.subrange(0, c) + seq![cs[c]] + cs.subrange(c + 1, cs.len() as int));
        lemma_entries_list_append(nodes, cs.subrange(0, c) + seq![cs[c]], cs.subrange(c + 1, cs.len() as int), hh);
        lemma_entries_list_append(nodes, cs.subrange(0, c), seq![cs[c]], hh);
        lemma_entries_list_single(nodes, cs[c], hh);
        lemma_range(nodes, id, h, lo, hi, order, 0, c);
        lemma_range(nodes, id, h, lo, hi, order, c + 1, cs.len() as int);
        let x = leaf_for(nodes, child, hh, key);
        let llo = leaf_lo(nodes, child, hh, clo, chi, key);
        let lhi = leaf_hi(nodes, child, hh, clo, chi, key);
        let a = entries_list(nodes, cs.subrange(0, c), hh);
        let b = entries_list(nodes, cs.subrange(c + 1, cs.len() as int), hh);
        let la = left_of(nodes, child, hh, key);
        let rb = right_of(nodes, child, hh, key);
        assert(bound(lo, hi, n.keys@, 0) == lo);
        assert(bound(lo, hi, n.keys@, cs.len() as int) == hi);
        assert(entries(nodes, id, h) =~= (a + la) + entries(nodes, x, 0) + (rb + b));
        assert forall|i: int| 0 <= i < (a + la).len() implies lo <= #[trigger] (a + la)[i].0 < llo by {
            if i < a.len() {
                assert((a + la)[i] == a[i]);
                assert(a[i].0 < clo);
            } else {
                assert((a + la)[i] == la[i - a.len()]);
            }
        }
        assert forall|i: int| 0 <= i < (rb + b).len() implies lhi <= #[trigger] (rb + b)[i].0 < hi by {
            if i < rb.len() {
                assert((rb + b)[i] == rb[i]);
            } else {
                assert((rb + b)[i] == b[i - rb.len()]);
                assert(b[i - rb.len()].0 >= chi);
            }
        }
    }
}

/// Replacing the leaf that a search for `key` reaches by another whose entries
/// keep within its range keeps the subtree valid and swaps those entries in place.
pub proof fn lemma_replace_leaf<V>(nodes: Seq<Node<V>>, id: int, h: nat, lo: int, hi: int, order: nat,
    key: u64, leaf: Node<V>)
    requires
        wf(nodes, id, h, lo, hi, order),
        lo <= key < hi,
        leaf is Leaf,
        sorted_entries(leaf->Leaf_0.entries@),
        keys_within(leaf->Leaf_0.entries@, leaf_lo(nodes, id, h, lo, hi, key), leaf_hi(nodes, id, h, lo, hi, key)),
        leaf->Leaf_0.entries@.len() <= 2 * order,
    ensures
        ({
            let nodes2 = nodes.update(leaf_for(nodes, id, h, key), leaf);
            &&& wf(nodes2, id, h, lo, hi, order)
            &&& reach(nodes2, id, h) == reach(nodes, id, h)
            &&& entries(nodes2, id, h) == left_of(nodes, id, h, key) + leaf->Leaf_0.entries@ + right_of(nodes, id, h, key)
            &&& leaves(nodes2, id, h) == leaves(nodes, id, h)
            &&& leaf->Leaf_0.next == nodes[leaf_for(nodes, id, h, key)]->Leaf_0.next ==> forall|t: Option<int>|
                #[trigger] linked(nodes2, leaves(nodes, id, h), t) == linked(nodes, leaves(nodes, id, h), t)
        }),
    decreases h,
{
    lemma_path(nodes, id, h, lo, hi, order, key);
    let x = leaf_for(nodes, id, h, key);
    let nodes2 = nodes.update(x, leaf);
    lemma_leaves_update_leaf(nodes, x, leaf, id, h);
    if leaf->Leaf_0.next == nodes[x]->Leaf_0.next {
        assert forall|t: Option<int>| #[trigger] linked(nodes2, leaves(nodes, id, h), t) == linked(nodes, leaves(nodes, id, h), t) by {
            lemma_linked_update_leaf(nodes, x, leaf, leaves(nodes, id, h), t);
        }
    }
    lemma_reach_valid(nodes, id, h, lo, hi, order);
    if let Node::Internal(n) = nodes[id] {
        let cs = n.children@;
        let hh = (h - 1) as nat;
        let c = count_le(n.keys@, key);
        lemma_count_le(n.keys@, key);
        let clo = bound(lo, hi, n.keys@, c);
        let chi = bound(lo, hi, n.keys@, c + 1);
        assert(clo <= key < chi) by {
            if c > 0 { assert(n.keys@[c - 1] <= key); }
            if c < n.keys@.len() { assert(!(n.keys@[c] <= key)); }
        }
        let child = cs[c].0 as int;
        assert(wf(nodes, child, hh, child_lo(lo, n.keys@, c), child_hi(hi, n.keys@, c), order));
        lemma_replace_leaf(nodes, child, hh, clo, chi, order, key, leaf);
        lemma_path(nodes, child, hh, clo, chi, order, key);
        assert(x == leaf_for(nodes, child, hh, key));
        assert(nodes2[id] == nodes[id]) by {
            assert(!reach(nodes, child, hh).contains(id));
        }
        assert forall|j: int| 0 <= j < cs.len() && j != c implies
            wf(nodes2, (#[trigger] cs[j]).0 as int, hh, child_lo(lo, n.keys@, j), child_hi(hi, n.keys@, j), order)
            && reach(nodes2, cs[j].0 as int, hh) == reach(nodes, cs[j].0 as int, hh)
            && entries(nodes2, cs[j].0 as int, hh) == entries(nodes, cs[j].0 as int, hh) by {
            assert(wf(nodes, cs[j].0 as int, hh, child_lo(lo, n.keys@, j), child_hi(hi, n.keys@, j), order));
            lemma_reach_valid(nodes, cs[j].0 as int, hh, child_lo(lo, n.keys@, j), child_hi(hi, n.keys@, j), order);
            if j < c {
                assert(reach(nodes, cs[j].0 as int, hh).disjoint(reach(nodes, cs[c].0 as int, hh)));
            } else {
                assert(reach(nodes, cs[c].0 as int, hh).disjoint(reach(nodes, cs[j].0 as int, hh)));
            }
            assert forall|y: int| #[trigger] reach(nodes, cs[j].0 as int, hh).contains(y) implies
                0 <= y < nodes.len() && y < nodes2.len() && nodes2[y] == nodes[y] by {
                assert(y != x);
            }
            lemma_frame(nodes, nodes2, cs[j].0 as int, hh, child_lo(lo, n.keys@, j), child_hi(hi, n.keys@, j), order);
        }
        assert(child_lo(lo, n.keys@, c) == clo && child_hi(hi, n.keys@, c) == chi);
        assert forall|j: int| 0 <= j < cs.len() implies reach(nodes2, (#[trigger] cs[j]).0 as int, hh) == reach(nodes, cs[j].0 as int, hh) by {
        }
        // the node itself
        assert(nodes2[id] is Internal);
        assert forall|i: int| 0 <= i < cs.len() implies wf(nodes2, (#[trigger] cs[i]).0 as int,
            hh, child_lo(lo, n.keys@, i), child_hi(hi, n.keys@, i), order) by {
        }
        assert forall|i: int, j: int| 0 <= i < j < cs.len() implies
            reach(nodes2, (#[trigger] cs[i]).0 as int, hh).disjoint(reach(nodes2, (#[trigger] cs[j]).0 as int, hh)) by {
            assert(reach(nodes, cs[i].0 as int, hh).disjoint(reach(nodes, cs[j].0 as int, hh)));
        }
        assert forall|i: int| 0 <= i < cs.len() implies !reach(nodes2, (#[trigger] cs[i]).0 as int, hh).contains(id) by {
            assert(!reach(nodes, cs[i].0 as int, hh).contains(id));
        }
        assert(wf(nodes2, id, h, lo, hi, order));
        // entries and reach of the node
        let pre = cs.subrange(0, c);
        let suf = cs.subrange(c + 1, cs.len() as int);
        assert(cs =~= pre + seq![cs[c]] + suf);
        lemma_entries_list_append(nodes, pre + seq![cs[c]], suf, hh);
        lemma_entries_list_append(nodes, pre, seq![cs[c]], hh);
        lemma_entries_list_single(nodes, cs[c], hh);
        lemma_entries_list_append(nodes2, pre + seq![cs[c]], suf, hh);
        lemma_entries_list_append(nodes2, pre, seq![cs[c]], hh);
        lemma_entries_list_single(nodes2, cs[c], hh);
        assert forall|i: int| 0 <= i < pre.len() implies reach(nodes2, (#[trigger] pre[i]).0 as int, hh) == reach(nodes, pre[i].0 as int, hh)
            && entries(nodes2, pre[i].0 as int, hh) == entries(nodes, pre[i].0 as int, hh) by {
            assert(pre[i] == cs[i]);
        }
        lemma_frame_list(nodes, nodes2, pre, hh);
        assert forall|i: int| 0 <= i < suf.len() implies reach(nodes2, (#[trigger] suf[i]).0 as int, hh) == reach(nodes, suf[i].0 as int, hh)
            && entries(nodes2, suf[i].0 as int, hh) == entries(nodes, suf[i].0 as int, hh) by {
            assert(suf[i] == cs[c + 1 + i]);
        }
        lemma_frame_list(nodes, nodes2, suf, hh);
        assert(reach(nodes2, id, h) =~= reach(nodes, id, h));
        assert(entries(nodes2, id, h) =~= left_of(nodes, id, h, key) + leaf->Leaf_0.entries@ + right_of(nodes, id, h, key));
    } else {
        assert(x == id);
        assert(reach(nodes2, id, h) =~= reach(nodes, id, h));
        assert(left_of(nodes, id, h, key) =~= Seq::<(u64, V)>::empty());
        assert(right_of(nodes, id, h, key) =~= Seq::<(u64, V)>::empty());
        assert(entries(nodes2, id, h) =~= left_of(nodes, id, h, key) + leaf->Leaf_0.entries@ + right_of(nodes, id, h, key));
    }
}

/// Some entry has key `k`.
pub open spec fn has_key<V>(s: Seq<(u64, V)>, k: u64) -> bool {
    exists|i: int| 0 <= i < s.len() && s[i].0 == k
}

/// The map from keys to values that a sequence of entries holds.
pub open spec fn entry_map<V>(s: Seq<(u64, V)>) -> Map<u64, V> {
    Map::new(|k: u64| has_key(s, k), |k: u64| s[choose|i: int| 0 <= i < s.len() && s[i].0 == k].1)
}

/// In sorted entries, the map holds each entry's value at its key.
pub proof fn lemma_entry_map_at<V>(s: Seq<(u64, V)>, i: int)
    requires
        sorted_entries(s),
        0 <= i < s.len(),
    ensures
        entry_map(s).contains_key(s[i].0),
        entry_map(s)[s[i].0] == s[i].1,
{
    assert(has_key(s, s[i].0));
    let j = choose|j: int| 0 <= j < s.len() && s[j].0 == s[i].0;
    if j < i { assert(s[j].0 < s[i].0); }
    if j > i { assert(s[i].0 < s[j].0); }
}

/// Sorted entries hold as many keys as the map they stand for.
pub proof fn lemma_entry_map_len<V>(s: Seq<(u64, V)>)
    requires
        sorted_entries(s),
    ensures
        entry_map(s).dom().finite(),
        entry_map(s).dom().len() == s.len(),
    decreases s.len(),
{
    if s.len() == 0 {
        assert(entry_map(s).dom() =~= Set::<u64>::empty());
    } else {
        let n = s.len() - 1;
        let t = s.drop_last();
        lemma_entry_map_len(t);
        lemma_entry_map_insert(t, n, s[n].0, s[n].1);
        assert(t.insert(n, (s[n].0, s[n].1)) =~= s);
        assert(entry_map(s).dom() =~= entry_map(t).dom().insert(s[n].0));
        assert(!entry_map(t).dom().contains(s[n].0));
    }
}

pub proof fn lemma_entry_map_insert<V>(s: Seq<(u64, V)>, p: int, k: u64, v: V)
    requires
        sorted_entries(s),
        0 <= p <= s.len(),
        forall|i: int| 0 <= i < p ==> s[i].0 < k,
        forall|i: int| p <= i < s.len() ==> s[i].0 > k,
    ensures
        sorted_entries(s.insert(p, (k, v))),
        !has_key(s, k),
        entry_map(s.insert(p, (k, v))) == entry_map(s).insert(k, v),
{
    let t = s.insert(p, (k, v));
    assert forall|i: int| 0 <= i < t.len() implies t[i] == (if i < p { s[i] } else if i == p { (k, v) } else { s[i - 1] }) by {
    }
    assert(sorted_entries(t)) by {
        assert forall|i: int, j: int| 0 <= i < j < t.len() implies t[i].0 < t[j].0 by {
            if j < p {
            } else if i > p {
                assert(s[i - 1].0 < s[j - 1].0);
            } else if i == p {
                assert(s[j - 1].0 > k);
            } else if j == p {
            } else {
                assert(s[i].0 < k < s[j - 1].0);
            }
        }
    }
    assert(!has_key(s, k)) by {
        if has_key(s, k) {
            let i = choose|i: int| 0 <= i < s.len() && s[i].0 == k;
            if i < p { assert(s[i].0 < k); } else { assert(s[i].0 > k); }
        }
    }
    assert forall|x: u64| #[trigger] entry_map(t).contains_key(x) == entry_map(s).insert(k, v).contains_key(x) by {
        if has_key(t, x) {
            let i = choose|i: int| 0 <= i < t.len() && t[i].0 == x;
            if i < p { assert(s[i].0 == x); } else if i > p { assert(s[i - 1].0 == x); }
        }
        if has_key(s, x) {
            let i = choose|i: int| 0 <= i < s.len() && s[i].0 == x;
            if i < p { assert(t[i].0 == x); } else { assert(t[i + 1].0 == x); }
        }
        if x == k { assert(t[p].0 == x); }
    }
    assert forall|x: u64| entry_map(t).contains_key(x) implies #[trigger] entry_map(t)[x] == entry_map(s).insert(k, v)[x] by {
        let i = choose|i: int| 0 <= i < t.len() && t[i].0 == x;
        lemma_entry_map_at(t, i);
        if i < p {
            lemma_entry_map_at(s, i);
        } else if i > p {
            lemma_entry_map_at(s, i - 1);
        }
    }
    assert(entry_map(t) =~= entry_map(s).insert(k, v));
}

pub proof fn lemma_entry_map_update<V>(s: Seq<(u64, V)>, p: int, v: V)
    requires
        sorted_entries(s),
        0 <= p < s.len(),
    ensures
        sorted_entries(s.update(p, (s[p].0, v))),
        entry_map(s.update(p, (s[p].0, v))) == entry_map(s).insert(s[p].0, v),
{
    let k = s[p].0;
    let t = s.update(p, (k, v));
    assert forall|x: u64| #[trigger] entry_map(t).contains_key(x) == entry_map(s).insert(k, v).contains_key(x) by {
        if has_key(t, x) {
            let i = choose|i: int| 0 <= i < t.len() && t[i].0 == x;
            assert(s[i].0 == x);
        }
        if has_key(s, x) {
            let i = choose|i: int| 0 <= i < s.len() && s[i].0 == x;
            assert(t[i].0 == x);
        }
    }
    assert forall|x: u64| entry_map(t).contains_key(x) implies #[trigger] entry_map(t)[x] == entry_map(s).insert(k, v)[x] by {
        let i = choose|i: int| 0 <= i < t.len() && t[i].0 == x;
        lemma_entry_map_at(t, i);
        if i != p {
            lemma_entry_map_at(s, i);
        }
    }
    assert(entry_map(t) =~= entry_map(s).insert(k, v));
}

pub proof fn lemma_entry_map_remove<V>(s: Seq<(u64, V)>, p: int)
    requires
        sorted_entries(s),
        0 <= p < s.len(),
    ensures
        sorted_entries(s.remove(p)),
        entry_map(s.remove(p)) == entry_map(s).remove(s[p].0),
{
    let k = s[p].0;
    let t = s.remove(p);
    assert forall|i: int| 0 <= i < t.len() implies t[i] == (if i < p { s[i] } else { s[i + 1] }) by {
    }
    assert(sorted_entries(t)) by {
        assert forall|i: int, j: int| 0 <= i < j < t.len() implies t[i].0 < t[j].0 by {
            if j < p {
            } else if i >= p {
                assert(s[i + 1].0 < s[j + 1].0);
            } else {
                assert(s[i].0 < s[j + 1].0);
            }
        }
    }
    assert forall|x: u64| #[trigger] entry_map(t).contains_key(x) == entry_map(s).remove(k).contains_key(x) by {
        if has_key(t, x) {
            let i = choose|i: int| 0 <= i < t.len() && t[i].0 == x;
            if i < p {
                assert(s[i].0 == x);
                assert(s[i].0 < s[p].0);
            } else {
                assert(s[i + 1].0 == x);
                assert(s[p].0 < s[i + 1].0);
            }
        }
        if has_key(s, x) && x != k {
            let i = choose|i: int| 0 <= i < s.len() && s[i].0 == x;
            if i < p { assert(t[i].0 == x); } else { assert(i != p); assert(t[i - 1].0 == x); }
        }
    }
    assert forall|x: u64| entry_map(t).contains_key(x) implies #[trigger] entry_map(t)[x] == entry_map(s).remove(k)[x] by {
        let i = choose|i: int| 0 <= i < t.len() && t[i].0 == x;
        lemma_entry_map_at(t, i);
        if i < p {
            lemma_entry_map_at(s, i);
        } else {
            lemma_entry_map_at(s, i + 1);
        }
    }
    assert(entry_map(t) =~= entry_map(s).remove(k));
}

/// How many entries have a key below `key`: where `key` goes.
pub open spec fn lower<V>(s: Seq<(u64, V)>, key: u64) -> int
    decreases s.len(),
{
    if s.len() == 0 {
        0
    } else {
        lower(s.drop_last(), key) + if s.last().0 < key { 1int } else { 0int }
    }
}

/// The entries with `(key, value)` put in: in place of the entry at `key`,
/// else where `key` goes.
pub open spec fn put<V>(s: Seq<(u64, V)>, key: u64, value: V) -> Seq<(u64, V)> {
    let p = lower(s, key);
    if p < s.len() && s[p].0 == key {
        s.update(p, (key, value))
    } else {
        s.insert(p, (key, value))
    }
}

/// In sorted entries, those below `key` come first.
pub proof fn lemma_lower<V>(s: Seq<(u64, V)>, key: u64)
    requires
        sorted_entries(s),
    ensures
        0 <= lower(s, key) <= s.len(),
        forall|i: int| 0 <= i < s.len() ==> (s[i].0 < key <==> i < lower(s, key)),
        has_key(s, key) <==> (lower(s, key) < s.len() && s[lower(s, key)].0 == key),
    decreases s.len(),
{
    if s.len() > 0 {
        let init = s.drop_last();
        assert(sorted_entries(init)) by {
            assert forall|i: int, j: int| 0 <= i < j < init.len() implies init[i].0 < init[j].0 by {
                assert(init[i] == s[i] && init[j] == s[j]);
            }
        }
        lemma_lower(init, key);
        assert forall|i: int| 0 <= i < s.len() implies (s[i].0 < key <==> i < lower(s, key)) by {
            if i < s.len() - 1 {
                assert(init[i] == s[i]);
                assert(s[i].0 < s[s.len() - 1].0);
            }
        }
    }
    let p = lower(s, key);
    if has_key(s, key) {
        let i = choose|i: int| 0 <= i < s.len() && s[i].0 == key;
        if i < p {
        } else if i > p {
            assert(s[p].0 < s[i].0);
        }
    }
}

/// Putting a key into sorted entries: the map gains it, sortedness stays, and
/// only the value at `key` changes.
pub proof fn lemma_put<V>(s: Seq<(u64, V)>, key: u64, value: V)
    requires
        sorted_entries(s),
    ensures
        sorted_entries(put(s, key, value)),
        entry_map(put(s, key, value)) == entry_map(s).insert(key, value),
        has_key(s, key) ==> entry_map(s).contains_key(key) && entry_map(s)[key] == s[lower(s, key)].1,
        !has_key(s, key) ==> !entry_map(s).contains_key(key),
        put(s, key, value).len() == s.len() + if has_key(s, key) { 0int } else { 1int },
        forall|lo: int, hi: int| keys_within(s, lo, hi) && lo <= key < hi ==> keys_within(#[trigger] put(s, key, value), lo, hi),
{
    lemma_lower(s, key);
    let p = lower(s, key);
    if has_key(s, key) {
        lemma_entry_map_update(s, p, value);
        lemma_entry_map_at(s, p);
        assert forall|lo: int, hi: int| keys_within(s, lo, hi) && lo <= key < hi implies keys_within(#[trigger] put(s, key, value), lo, hi) by {
            assert forall|i: int| 0 <= i < put(s, key, value).len() implies lo <= #[trigger] put(s, key, value)[i].0 < hi by {
                if i != p { assert(put(s, key, value)[i] == s[i]); }
            }
        }
    } else {
        lemma_entry_map_insert(s, p, key, value);
        let t = s.insert(p, (key, value));
        assert forall|lo: int, hi: int| keys_within(s, lo, hi) && lo <= key < hi implies keys_within(#[trigger] put(s, key, value), lo, hi) by {
            assert forall|i: int| 0 <= i < t.len() implies lo <= #[trigger] t[i].0 < hi by {
                if i < p { assert(t[i] == s[i]); } else if i > p { assert(t[i] == s[i - 1]); }
            }
        }
    }
}

/// Putting a key whose range is that of the middle part changes only the middle part.
pub proof fn lemma_put_middle<V>(a: Seq<(u64, V)>, e: Seq<(u64, V)>, b: Seq<(u64, V)>, lo: int, hi: int,
    key: u64, value: V)
    requires
        sorted_entries(e),
        keys_within(e, lo, hi),
        forall|i: int| 0 <= i < a.len() ==> #[trigger] a[i].0 < lo,
        forall|i: int| 0 <= i < b.len() ==> #[trigger] b[i].0 >= hi,
        lo <= key < hi,
    ensures
        put(a + e + b, key, value) == a + put(e, key, value) + b,
        has_key(a + e + b, key) == has_key(e, key),
        has_key(e, key) ==> (a + e + b)[lower(a + e + b, key)] == e[lower(e, key)],
{
    let s = a + e + b;
    lemma_lower(e, key);
    let p = lower(e, key);
    let q = a.len() + p;
    assert(lower(s, key) == q) by {
        lemma_lower_at(s, key, q);
        assert forall|i: int| 0 <= i < s.len() implies (s[i].0 < key <==> i < q) by {
            if i < a.len() {
                assert(s[i] == a[i]);
            } else if i < a.len() + e.len() {
                assert(s[i] == e[i - a.len()]);
            } else {
                assert(s[i] == b[i - a.len() - e.len()]);
            }
        }
    }
    assert(has_key(s, key) == has_key(e, key)) by {
        if has_key(s, key) {
            let i = choose|i: int| 0 <= i < s.len() && s[i].0 == key;
            if i < a.len() {
                assert(s[i] == a[i]);
            } else if i < a.len() + e.len() {
                assert(s[i] == e[i - a.len()]);
            } else {
                assert(s[i] == b[i - a.len() - e.len()]);
            }
        }
        if has_key(e, key) {
            let i = choose|i: int| 0 <= i < e.len() && e[i].0 == key;
            assert(s[a.len() + i] == e[i]);
        }
    }
    if has_key(e, key) {
        assert(s[q] == e[p]);
        assert(put(s, key, value) =~= a + put(e, key, value) + b);
    } else {
        if q < s.len() && s[q].0 == key {
            if p < e.len() {
                assert(s[q] == e[p]);
            } else {
                assert(s[q] == b[0]);
            }
        }
        assert(put(s, key, value) =~= a + put(e, key, value) + b);
    }
}

/// `lower` is the one index that splits the keys below `key` from the rest.
pub proof fn lemma_lower_at<V>(s: Seq<(u64, V)>, key: u64, q: int)
    requires
        0 <= q <= s.len(),
        forall|i: int| 0 <= i < s.len() ==> (s[i].0 < key <==> i < q),
    ensures
        lower(s, key) == q,
    decreases s.len(),
{
    if s.len() > 0 {
        let init = s.drop_last();
        if q == s.len() {
            lemma_lower_at(init, key, q - 1);
            assert(s[s.len() - 1].0 < key);
        } else {
            assert forall|i: int| 0 <= i < init.len() implies (init[i].0 < key <==> i < q) by {
                assert(init[i] == s[i]);
            }
            lemma_lower_at(init, key, q);
            assert(!(s[s.len() - 1].0 < key));
        }
        assert forall|i: int| 0 <= i < init.len() implies (init[i].0 < key <==> i < if q == s.len() { q - 1 } else { q }) by {
            assert(init[i] == s[i]);
        }
    }
}

} // verus!
