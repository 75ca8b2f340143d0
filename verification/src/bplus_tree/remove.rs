use vstd::prelude::*;
use crate::collection::Collection;
use super::node::{Node, LeafNode};
use super::tree::{BPlusTree, key_limit};
use super::search::{search_entries, lemma_absent};
use super::shape::{leaf_for, leaf_lo, leaf_hi, left_of, right_of, entries, lemma_path, lemma_entries_sorted,
    lemma_replace_leaf, lemma_entry_map_at, lemma_entry_map_remove};

verus! {

impl<V> BPlusTree<V> {
    /// Removes the entry at `key` and returns its value; leaves are not merged.
    pub fn remove(&mut self, key: &u64) -> (r: Option<V>)
        requires
            old(self).inv(),
        ensures
            final(self).inv(),
            final(self)@ == old(self)@.remove(*key),
            r == (if old(self)@.contains_key(*key) { Some(old(self)@[*key]) } else { None::<V> }),
            final(self).order_spec() == old(self).order_spec(),
    {
        let id = self.find_leaf(key);
        let ghost nodes = self.arena.nodes();
        let ghost root = self.root.0 as int;
        let ghost h = self.height@;
        let ghost order = self.order as nat;
        let ghost g = self.contents();
        let ghost l = left_of(nodes, root, h, *key);
        let ghost rr = right_of(nodes, root, h, *key);
        proof {
            self.lemma_tree_inv();
            lemma_path(nodes, root, h, 0, key_limit(), order, *key);
            lemma_entries_sorted(nodes, root, h, 0, key_limit(), order);
        }
        let ghost x = id.0 as int;
        let ghost e = nodes[x]->Leaf_0.entries@;
        let ghost mut changed: LeafNode<V> = nodes[x]->Leaf_0;
        let ghost mut at: int = 0;
        let result = match self.arena.get_mut(id) {
            Node::Leaf(leaf) => {
                match search_entries(&leaf.entries, *key) {
                    Ok(index) => {
                        let (_, value) = leaf.entries.remove(index);
                        proof {
                            changed = *leaf;
                            at = index as int;
                        }
                        Some(value)
                    }
                    Err(_) => None,
                }
            }
            Node::Internal(_) => {
                proof { assert(false); }
                None
            }
        };
        proof {
            assert(g == l + e + rr);
            if result is Some {
                let p = l.len() + at;
                assert(g[p] == e[at]);
                lemma_entry_map_at(g, p);
                lemma_entry_map_remove(e, at);
                lemma_entry_map_remove(g, p);
                assert(changed.entries@ == e.remove(at));
                assert(self.arena.nodes() == nodes.update(x, Node::Leaf(changed)));
                lemma_replace_leaf(nodes, root, h, 0, key_limit(), order, *key, Node::Leaf(changed));
                assert(l + e.remove(at) + rr =~= g.remove(p));
            } else {
                assert(self.arena.nodes() == nodes);
                lemma_absent(g, l, e, rr, *key);
                assert(g.remove(0) == g.remove(0));
            }
        }
        if result.is_some() {
            self.len = self.len - 1;
        }
        proof {
            self.lemma_tree_inv();
            if result is None {
                assert(self@ =~= old(self)@.remove(*key));
            }
        }
        result
    }
}

} // verus!
