pub mod collection;
pub mod avl;
pub mod bst;
pub mod bits;
pub mod roaring;
pub mod word;
pub mod ewah;
pub mod min_heap;
pub mod tree_node;
pub mod general_tree;
pub mod tree;
pub mod general_forest;
pub mod forest;
pub mod bplus_tree;
