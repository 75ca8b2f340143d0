# Verified collections

A library of data structures written in Verus, each operation with a contract
over a mathematical model and proved:

- `collection`, `bst`, `avl`: the collection and search-tree traits over `u64`
  keys, an unbalanced binary search tree and an AVL tree (keys kept sorted and
  distinct, AVL height at most about `2 log2(n + 1)`).
- `tree_node`, `general_tree`, `tree`, `general_forest`, `forest`: trees whose
  nodes have any number of ordered children, and forests of them, with
  preorder, postorder and level-order traversals.
- `min_heap`: an array heap of `u64` values, modelled as a multiset and the
  array itself. Values move up past greater parents at `(i - 1) / 2`, and down
  towards the entries at `4 * i` and `4 * i + 1`; the contracts state exactly
  where each value lands, and which inputs would make the move down reach past
  the end of the array.
- `bplus_tree`: an arena-backed B+ tree map from `u64` keys, modelled as a map;
  each leaf links to the next, so that following the links from the leftmost
  leaf meets every entry in key order.
- `word`, `ewah`: machine words and EWAH compressed bitmaps; encoding and
  decoding are inverse, the encoding of given words is unique, and the bitwise
  operations act word by word.
- `roaring`: roaring bitmaps of `u32` values (array, bitmap and run
  containers), modelled as a set.

`tests/` runs the library on concrete values; `app/` is a small program that
prints a few of the structures.
