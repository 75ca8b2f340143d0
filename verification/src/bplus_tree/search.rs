use vstd::prelude::*;
use crate::collection::Collection;
use super::node::{Node, NodeId};
use super::tree::{BPlusTree, key_limit};
use super::shape::{wf, sorted_keys, sorted_entries, count_le, lemma_count_le, leaf_for, leaf_lo, leaf_hi,
    left_of, right_of, entries, lemma_path, has_key, entry_map, lemma_entry_map_at, lemma_replace_leaf};

verus! {

/// How many of the sorted separators are at most `key`.
pub(crate) fn partition_point_le(keys: &Vec<u64>, key: u64) -> (r: usize)
    requires
        sorted_keys(keys@),
    ensures
        r == count_le(keys@, key),
{
    proof { lemma_count_le(keys@, key); }
    let mut lo: usize = 0;
    let mut hi: usize = keys.len();
    while lo < hi
        invariant
            lo <= hi <= keys@.len(),
            sorted_keys(keys@),
            forall|i: int| 0 <= i < lo ==> keys@[i] <= key,
            forall|i: int| hi <= i < keys@.len() ==> keys@[i] > key,
        decreases hi - lo,
    {
        let mid = lo + (hi - lo) / 2;
        if keys[mid] <= key {
            lo = mid + 1;
        } else {
            hi = mid;
        }
    }
    proof {
        let c = count_le(keys@, key);
        if c < lo { assert(keys@[c] <= key); }
        if c > lo { assert(keys@[lo as int] > key); }
    }
    lo
}

/// Where `key` is among sorted entries: `Ok` with its index, or `Err` with
/// the index it would be inserted at.
pub(crate) fn search_entries<V>(entries: &Vec<(u64, V)>, key: u64) -> (r: Result<usize, usize>)
    requires
        sorted_entries(entries@),
    ensures
        r matches Ok(i) ==> i < entries@.len() && entries@[i as int].0 == key,
        r matches Err(i) ==> i <= entries@.len()
            && (forall|j: int| 0 <= j < i ==> entries@[j].0 < key)
            && (forall|j: int| i <= j < entries@.len() ==> entries@[j].0 > key),
{
    let mut lo: usize = 0;
    let mut hi: usize = entries.len();
    while lo < hi
        invariant
            lo <= hi <= entries@.len(),
            sorted_entries(entries@),
            forall|j: int| 0 <= j < lo ==> entries@[j].0 < key,
            forall|j: int| hi <= j < entries@.len() ==> entries@[j].0 > key,
        decreases hi - lo,
    {
        let mid = lo + (hi - lo) / 2;
        let stored = entries[mid].0;
        if stored == key {
            return Ok(mid);
        } else if stored < key {
            lo = mid + 1;
        } else {
            hi = mid;
        }
    }
    Err(lo)
}

impl<V> BPlusTree<V> {
    /// The leaf where `key` is or belongs.
    pub(crate) fn find_leaf(&self, key: &u64) -> (r: NodeId)
        requires
            self.inv(),
        ensures
            r.0 == leaf_for(self.arena.nodes(), self.root.0 as int, self.height@, *key),
    {
        let ghost nodes = self.arena.nodes();
        proof { self.lemma_tree_inv(); }
        let mut id = self.root;
        let ghost mut h: nat = self.height@;
        let ghost mut lo: int = 0;
        let ghost mut hi: int = key_limit();
        loop
            invariant
                nodes == self.arena.nodes(),
                wf(nodes, id.0 as int, h, lo, hi, self.order as nat),
                lo <= *key < hi,
                leaf_for(nodes, self.root.0 as int, self.height@, *key) == leaf_for(nodes, id.0 as int, h, *key),
            decreases h,
        {
            match self.arena.get(id) {
                Node::Leaf(_) => {
                    return id;
                }
                Node::Internal(node) => {
                    let index = partition_point_le(&node.keys, *key);
                    proof {
                        lemma_count_le(node.keys@, *key);
                        let c = index as int;
                        let nlo = super::shape::bound(lo, hi, node.keys@, c);
                        let nhi = super::shape::bound(lo, hi, node.keys@, c + 1);
                        assert(wf(nodes, node.children@[c].0 as int, (h - 1) as nat,
                            super::shape::child_lo(lo, node.keys@, c), super::shape::child_hi(hi, node.keys@, c), self.order as nat));
                        assert(nlo <= *key < nhi) by {
                            if c > 0 { assert(node.keys@[c - 1] <= *key); }
                            if c < node.keys@.len() { assert(!(node.keys@[c] <= *key)); }
                        }
                        lo = nlo;
                        hi = nhi;
                        h = (h - 1) as nat;
                    }
                    id = node.children[index];
                }
            }
        }
    }

    /// The value at `key`.
    pub fn get(&self, key: &u64) -> (r: Option<&V>)
        requires
            self.inv(),
        ensures
            r is Some <==> self@.contains_key(*key),
            r matches Some(v) ==> *v == self@[*key],
    {
        let id = self.find_leaf(key);
        let ghost nodes = self.arena.nodes();
        proof { self.lemma_tree_inv(); lemma_path(nodes, self.root.0 as int, self.height@, 0, key_limit(), self.order as nat, *key); }
        match self.arena.get(id) {
            Node::Leaf(leaf) => {
                let ghost l = left_of(nodes, self.root.0 as int, self.height@, *key);
                let ghost rr = right_of(nodes, self.root.0 as int, self.height@, *key);
                let ghost e = leaf.entries@;
                proof {
                    assert(entries(nodes, id.0 as int, 0) == e);
                    super::shape::lemma_entries_sorted(nodes, self.root.0 as int, self.height@, 0, key_limit(), self.order as nat);
                }
                match search_entries(&leaf.entries, *key) {
                    Ok(index) => {
                        proof {
                            assert(self.contents() == l + e + rr);
                            assert(self.contents()[l.len() + index] == e[index as int]);
                            lemma_entry_map_at(self.contents(), l.len() + index);
                        }
                        Some(&leaf.entries[index].1)
                    }
                    Err(_) => {
                        proof { lemma_absent(self.contents(), l, e, rr, *key); }
                        None
                    }
                }
            }
            Node::Internal(_) => {
                proof { assert(false); }
                None
            }
        }
    }

    /// The value at `key`, to change in place.
    pub fn get_mut(&mut self, key: &u64) -> (r: Option<&mut V>)
        requires
            old(self).inv(),
        ensures
            r is Some <==> old(self)@.contains_key(*key),
            r matches Some(v) ==> *v == old(self)@[*key],
            final(self)@ == (match r {
                Some(v) => old(self)@.insert(*key, *final(v)),
                None => old(self)@,
            }),
            final(self).inv(),
            final(self).order_spec() == old(self).order_spec(),
    {
        let id = self.find_leaf(key);
        let ghost nodes = self.arena.nodes();
        let ghost root = self.root.0 as int;
        let ghost h = self.height@;
        let ghost order = self.order as nat;
        let ghost g = self.contents();
        let ghost l = left_of(nodes, root, h, *key);
        let ghost rr = right_of(nodes, root, h, *key);
        proof {
            self.lemma_tree_inv();
            lemma_path(nodes, root, h, 0, key_limit(), order, *key);
            super::shape::lemma_entries_sorted(nodes, root, h, 0, key_limit(), order);
        }
        let ghost x = id.0 as int;
        let ghost e = nodes[x]->Leaf_0.entries@;
        let ghost fs = *final(self);
        match self.arena.get_mut(id) {
            Node::Leaf(leaf) => {
                match search_entries(&leaf.entries, *key) {
                    Ok(index) => {
                        let ghost fl = *final(leaf);
                        let slot = &mut leaf.entries[index].1;
                        proof {
                            let p = l.len() + index;
                            assert(g == l + e + rr);
                            assert(g[p] == e[index as int]);
                            lemma_entry_map_at(g, p);
                            let e2 = e.update(index as int, (*key, *final(slot)));
                            super::shape::lemma_entry_map_update(e, index as int, *final(slot));
                            super::shape::lemma_entry_map_update(g, p, *final(slot));
                            assert(fl.entries@ == e2);
                            lemma_replace_leaf(nodes, root, h, 0, key_limit(), order, *key, Node::Leaf(fl));
                            assert(l + e2 + rr =~= g.update(p, (*key, *final(slot))));
                            assert(fs.arena.nodes() == nodes.update(x, Node::Leaf(fl)));
                            assert(fs.root == self.root && fs.height == self.height && fs.len == self.len && fs.order == self.order);
                            fs.lemma_tree_inv();
                            lemma_entry_map_at(g, p);
                            assert(fs.contents() == g.update(p, (*key, *final(slot))));
                            assert(fs@ == old(self)@.insert(*key, *final(slot)));
                            assert(fs.inv());
                        }
                        Some(slot)
                    }
                    Err(_) => {
                        proof {
                            lemma_absent(g, l, e, rr, *key);
                            assert(fs.arena.nodes() == nodes);
                            assert(fs.root == self.root && fs.height == self.height && fs.len == self.len && fs.order == self.order);
                            fs.lemma_tree_inv();
                        }
                        None
                    }
                }
            }
            Node::Internal(_) => {
                proof { assert(false); }
                None
            }
        }
    }

    pub fn contains_key(&self, key: &u64) -> (r: bool)
        requires
            self.inv(),
        ensures
            r == self@.contains_key(*key),
    {
        self.get(key).is_some()
    }
}

/// A key that no part of the entries holds is not in their map.
pub(crate) proof fn lemma_absent<V>(s: Seq<(u64, V)>, l: Seq<(u64, V)>, e: Seq<(u64, V)>, r: Seq<(u64, V)>, key: u64)
    requires
        s == l + e + r,
        !has_key(l, key),
        !has_key(e, key),
        !has_key(r, key),
    ensures
        !entry_map(s).contains_key(key),
{
    if has_key(s, key) {
        let i = choose|i: int| 0 <= i < s.len() && s[i].0 == key;
        if i < l.len() {
            assert(l[i].0 == key);
        } else if i < l.len() + e.len() {
            assert(e[i - l.len()].0 == key);
        } else {
            assert(r[i - l.len() - e.len()].0 == key);
        }
    }
}

} // verus!
