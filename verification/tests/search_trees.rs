use lib::avl::AvlTree;
use lib::bst::BinarySearchTree;
use lib::collection::{Collection, SearchNode, SearchTree, TraversalType};

const AGES: [u64; 8] = [30, 20, 40, 25, 26, 29, 21, 67];

fn avl_of(values: &[u64]) -> AvlTree {
    let mut tree = AvlTree::new();
    for &v in values {
        tree.insert(v);
    }
    tree
}

fn bst_of(values: &[u64]) -> BinarySearchTree {
    let mut tree = BinarySearchTree::new();
    for &v in values {
        tree.insert(v);
    }
    tree
}

#[test]
fn avl_new_is_empty() {
    let tree = AvlTree::new();
    assert_eq!(tree.len(), 0);
    assert!(tree.is_empty());
    assert_eq!(tree.height(), 0);
    assert_eq!(tree.min(), None);
    assert_eq!(tree.max(), None);
    assert!(tree.root().is_none());
    assert_eq!(tree.inorder_traverse(), Vec::<u64>::new());
}

#[test]
fn avl_ages_shape() {
    let tree = avl_of(&AGES);
    assert_eq!(tree.len(), 8);
    assert_eq!(tree.inorder_traverse(), vec![20, 21, 25, 26, 29, 30, 40, 67]);
    assert_eq!(tree.preorder_traverse(), vec![26, 21, 20, 25, 30, 29, 40, 67]);
    assert_eq!(tree.postorder_traverse(), vec![20, 25, 21, 29, 67, 40, 30, 26]);
    assert_eq!(tree.height(), 4);
    assert_eq!(tree.min(), Some(&20));
    assert_eq!(tree.max(), Some(&67));
    assert_eq!(*tree.root().unwrap().value(), 26);
}

#[test]
fn avl_contains() {
    let tree = avl_of(&AGES);
    assert!(tree.contains(&30));
    assert!(tree.contains(&67));
    assert!(!tree.contains(&31));
    assert!(!tree.contains(&0));
}

#[test]
fn avl_insert_duplicate_is_refused() {
    let mut tree = avl_of(&AGES);
    assert!(!tree.insert(25));
    assert_eq!(tree.len(), 8);
    assert!(tree.insert(1));
    assert_eq!(tree.len(), 9);
}

#[test]
fn avl_remove_rebalances() {
    let mut tree = avl_of(&AGES);
    assert!(tree.remove(&30));
    assert_eq!(tree.preorder_traverse(), vec![26, 21, 20, 25, 40, 29, 67]);
    assert_eq!(tree.postorder_traverse(), vec![20, 25, 21, 29, 67, 40, 26]);
    assert_eq!(tree.height(), 3);
    assert!(tree.remove(&20));
    assert_eq!(tree.preorder_traverse(), vec![26, 21, 25, 40, 29, 67]);
    assert_eq!(tree.len(), 6);
    assert!(!tree.remove(&20));
    assert_eq!(tree.len(), 6);
}

#[test]
fn avl_ascending_inserts_stay_balanced() {
    let values: Vec<u64> = (1..=100).collect();
    let tree = avl_of(&values);
    assert_eq!(tree.len(), 100);
    assert_eq!(tree.height(), 7);
    assert_eq!(*tree.root().unwrap().value(), 64);
    let small = avl_of(&[1, 2, 3, 4, 5, 6, 7]);
    assert_eq!(small.preorder_traverse(), vec![4, 2, 1, 3, 6, 5, 7]);
    assert_eq!(small.height(), 3);
}

#[test]
fn avl_height_logarithmic_on_values() {
    // Height h of an AVL tree of n keys keeps 2^(h/2) <= n + 1.
    for n in 1..=200u64 {
        let values: Vec<u64> = (0..n).map(|i| (i * 37) % 211).collect();
        let tree = avl_of(&values);
        let h = tree.height() as u32;
        assert!(2u64.pow(h / 2) <= tree.len() as u64 + 1);
    }
}

#[test]
fn avl_successor_and_predecessor() {
    let tree = avl_of(&AGES);
    assert_eq!(tree.successor(&26), Some(&29));
    assert_eq!(tree.successor(&27), Some(&29));
    assert_eq!(tree.successor(&67), None);
    assert_eq!(tree.successor(&0), Some(&20));
    assert_eq!(tree.predecessor(&26), Some(&25));
    assert_eq!(tree.predecessor(&20), None);
    assert_eq!(tree.predecessor(&100), Some(&67));
}

#[test]
fn avl_traverse_by_type() {
    let tree = avl_of(&AGES);
    assert_eq!(tree.travserse(TraversalType::InOrder), Some(tree.inorder_traverse()));
    assert_eq!(tree.travserse(TraversalType::PreOrder), Some(tree.preorder_traverse()));
    assert_eq!(tree.travserse(TraversalType::PostOrder), Some(tree.postorder_traverse()));
    assert_eq!(tree.travserse(TraversalType::LevelOrder), None);
}

#[test]
fn avl_clear() {
    let mut tree = avl_of(&AGES);
    tree.clear();
    assert!(tree.is_empty());
    assert_eq!(tree.len(), 0);
    assert_eq!(tree.height(), 0);
    assert!(tree.root().is_none());
}

#[test]
fn avl_remove_undoes_insert() {
    let mut tree = avl_of(&AGES);
    let before = tree.inorder_traverse();
    assert!(tree.insert(33));
    assert!(tree.remove(&33));
    assert_eq!(tree.inorder_traverse(), before);
}

#[test]
fn bst_ages_shape() {
    let tree = bst_of(&AGES);
    assert_eq!(tree.len(), 8);
    assert_eq!(tree.inorder_traverse(), vec![20, 21, 25, 26, 29, 30, 40, 67]);
    assert_eq!(tree.preorder_traverse(), vec![30, 20, 25, 21, 26, 29, 40, 67]);
    assert_eq!(tree.postorder_traverse(), vec![21, 29, 26, 25, 20, 67, 40, 30]);
    assert_eq!(tree.height(), 5);
    assert_eq!(tree.min(), Some(&20));
    assert_eq!(tree.max(), Some(&67));
}

#[test]
fn bst_remove_takes_successor() {
    let mut tree = bst_of(&AGES);
    assert!(tree.remove(&30));
    assert_eq!(tree.preorder_traverse(), vec![40, 20, 25, 21, 26, 29, 67]);
    assert_eq!(tree.postorder_traverse(), vec![21, 29, 26, 25, 20, 67, 40]);
    assert_eq!(tree.height(), 5);
    assert!(tree.remove(&20));
    assert_eq!(tree.preorder_traverse(), vec![40, 25, 21, 26, 29, 67]);
    assert_eq!(tree.height(), 4);
    assert!(!tree.remove(&20));
    assert_eq!(tree.len(), 6);
}

#[test]
fn bst_duplicates_and_contains() {
    let mut tree = bst_of(&AGES);
    assert!(!tree.insert(40));
    assert_eq!(tree.len(), 8);
    assert!(tree.contains(&21));
    assert!(!tree.contains(&22));
    assert_eq!(tree.successor(&30), Some(&40));
    assert_eq!(tree.predecessor(&21), Some(&20));
}

#[test]
fn bst_clear_and_reuse() {
    let mut tree = bst_of(&AGES);
    tree.clear();
    assert!(tree.is_empty());
    assert_eq!(tree.height(), 0);
    assert!(tree.insert(5));
    assert_eq!(tree.inorder_traverse(), vec![5]);
}

#[test]
fn bst_node_accessors() {
    let tree = bst_of(&[10, 5, 15]);
    let root = tree.root().unwrap();
    assert_eq!(*root.value(), 10);
    assert_eq!(*root.left().unwrap().value(), 5);
    assert_eq!(*root.right().unwrap().value(), 15);
    assert!(root.left().unwrap().left().is_none());
}

#[test]
fn avl_three_inserts_shape() {
    let mut tree = AvlTree::new();
    assert!(tree.insert(1));
    assert!(tree.insert(2));
    assert!(tree.insert(3));
    assert!(!tree.insert(2));
    assert_eq!(tree.len(), 3);
    assert_eq!(*tree.root().unwrap().value(), 2);
    assert_eq!(tree.height(), 2);
    assert_eq!(tree.preorder_traverse(), vec![2, 1, 3]);
}

#[test]
fn avl_remove_root_of_perfect_tree() {
    let mut tree = avl_of(&[1, 2, 3, 4, 5, 6, 7]);
    assert_eq!(*tree.root().unwrap().value(), 4);
    assert!(tree.remove(&4));
    assert_eq!(tree.len(), 6);
    assert_eq!(*tree.root().unwrap().value(), 5);
    assert_eq!(tree.inorder_traverse(), vec![1, 2, 3, 5, 6, 7]);
    assert_eq!(tree.height(), 3);
    assert!(!tree.remove(&4));
    assert_eq!(tree.len(), 6);
}

#[test]
fn bst_remove_root_takes_successor() {
    let mut tree = bst_of(&[5, 3, 8, 7, 9]);
    assert!(tree.remove(&5));
    assert_eq!(tree.len(), 4);
    assert_eq!(*tree.root().unwrap().value(), 7);
    assert_eq!(tree.inorder_traverse(), vec![3, 7, 8, 9]);
    assert!(!tree.remove(&5));
    assert!(!tree.remove(&42));
    assert_eq!(tree.len(), 4);
}

#[test]
fn bst_seven_inserts_traversals() {
    let tree = bst_of(&[4, 2, 6, 1, 3, 5, 7]);
    assert_eq!(tree.postorder_traverse(), vec![1, 3, 2, 5, 7, 6, 4]);
    assert_eq!(tree.preorder_traverse(), vec![4, 2, 1, 3, 6, 5, 7]);
    assert_eq!(tree.inorder_traverse(), vec![1, 2, 3, 4, 5, 6, 7]);
}

#[test]
fn bst_insert_present_changes_nothing() {
    let mut tree = bst_of(&[4, 2, 6]);
    assert!(!tree.insert(2));
    assert_eq!(tree.len(), 3);
    assert_eq!(tree.preorder_traverse(), vec![4, 2, 6]);
    assert!(tree.insert(5));
    assert_eq!(tree.preorder_traverse(), vec![4, 2, 6, 5]);
    assert!(tree.root().unwrap().right().unwrap().left().unwrap().left().is_none());
}
