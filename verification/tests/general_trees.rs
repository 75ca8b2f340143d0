use lib::collection::{Collection, TraversalType};
use lib::forest::Forest;
use lib::general_forest::GeneralForest;
use lib::general_tree::GeneralTree;
use lib::tree::{Node, Tree};
use lib::tree_node::TreeNode;

fn family() -> Tree<&'static str> {
    let mut tree = Tree::with_root("Alice");
    {
        let root = tree.root_mut().unwrap();
        let bob = root.add_child("Bob");
        bob.add_child("Diana");
        bob.add_child("Eve");
        bob.add_child("Clarence");
        root.add_child("Charlie");
    }
    tree
}

fn owned(values: Vec<&&'static str>) -> Vec<&'static str> {
    values.into_iter().map(|v| *v).collect()
}

#[test]
fn tree_family_measures() {
    let tree = family();
    assert_eq!(tree.len(), 6);
    assert_eq!(tree.height(), 3);
    assert!(!tree.is_empty());
}

#[test]
fn tree_family_traversals() {
    let tree = family();
    assert_eq!(
        owned(tree.level_order_traverse()),
        vec!["Alice", "Bob", "Charlie", "Diana", "Eve", "Clarence"]
    );
    assert_eq!(
        owned(tree.preorder_traverse()),
        vec!["Alice", "Bob", "Diana", "Eve", "Clarence", "Charlie"]
    );
    assert_eq!(
        owned(tree.postorder_traverse()),
        vec!["Diana", "Eve", "Clarence", "Bob", "Charlie", "Alice"]
    );
    assert!(tree.traverse(TraversalType::InOrder).is_none());
    assert_eq!(owned(tree.traverse(TraversalType::PreOrder).unwrap()), owned(tree.preorder_traverse()));
    assert_eq!(owned(tree.traverse(TraversalType::PostOrder).unwrap()), owned(tree.postorder_traverse()));
    assert_eq!(owned(tree.traverse(TraversalType::LevelOrder).unwrap()), owned(tree.level_order_traverse()));
}

#[test]
fn tree_contains_by_predicate() {
    let tree = family();
    assert!(!tree.contains(|name: &&str| *name == "Dian"));
    assert!(tree.contains(|name: &&str| *name == "Diana"));
    assert!(tree.contains(|name: &&str| name.starts_with('C')));
}

#[test]
fn tree_clear_and_empty() {
    let mut tree = family();
    tree.clear();
    assert!(tree.is_empty());
    assert_eq!(tree.len(), 0);
    assert_eq!(tree.height(), 0);
    assert!(tree.preorder_traverse().is_empty());
    assert!(!tree.contains(|_: &&str| true));
    let empty: Tree<u32> = Tree::new();
    assert!(empty.is_empty());
    assert!(empty.root().is_none());
}

#[test]
fn tree_root_replacement() {
    let mut tree = family();
    let old = tree.replace_root(Node::new("Zed"));
    assert_eq!(*old.unwrap().value(), "Alice");
    assert_eq!(tree.len(), 1);
    let taken = tree.take_root();
    assert_eq!(*taken.unwrap().value(), "Zed");
    assert!(tree.is_empty());
    assert!(tree.take_root().is_none());
}

#[test]
fn node_children_operations() {
    let mut node = Node::new(1u32);
    assert!(node.is_leaf());
    node.add_child(2);
    let sub = node.add_subtree(Node::new(3));
    sub.add_child(4);
    assert_eq!(node.child_count(), 2);
    assert!(!node.is_leaf());
    assert_eq!(*node.children()[1].value(), 3);
    *node.value_mut() = 10;
    assert_eq!(*node.value(), 10);
    *node.children_mut()[0].value_mut() = 20;
    assert_eq!(*node.children()[0].value(), 20);
    assert!(node.remove_child(5).is_none());
    let removed = node.remove_child(0).unwrap();
    assert_eq!(*removed.value(), 20);
    assert_eq!(node.child_count(), 1);
    assert_eq!(*node.children()[0].value(), 3);
}

#[test]
fn tree_len_matches_preorder() {
    let mut tree = Tree::with_root(0u32);
    {
        let root = tree.root_mut().unwrap();
        for i in 1..5 {
            let child = root.add_child(i);
            for j in 0..i {
                child.add_child(10 * i + j);
            }
        }
    }
    assert_eq!(tree.len(), tree.preorder_traverse().len());
    assert_eq!(tree.len(), 15);
    assert_eq!(tree.height(), 3);
}

#[test]
fn forest_traversals_concatenate() {
    let mut forest = Forest::new();
    assert!(forest.is_empty());
    assert_eq!(forest.height(), 0);
    let first = forest.add_tree(family());
    assert_eq!(first, 0);
    {
        let second = forest.add_root("Root2");
        let r = second.root_mut().unwrap();
        r.add_child("Leaf");
    }
    assert_eq!(forest.tree_count(), 2);
    assert_eq!(forest.len(), 8);
    assert_eq!(forest.height(), 3);
    assert_eq!(
        owned(forest.preorder_traverse()),
        vec!["Alice", "Bob", "Diana", "Eve", "Clarence", "Charlie", "Root2", "Leaf"]
    );
    assert_eq!(
        owned(forest.postorder_traverse()),
        vec!["Diana", "Eve", "Clarence", "Bob", "Charlie", "Alice", "Leaf", "Root2"]
    );
    assert_eq!(
        owned(forest.level_order_traverse()),
        vec!["Alice", "Bob", "Charlie", "Diana", "Eve", "Clarence", "Root2", "Leaf"]
    );
    assert!(forest.contains(|name: &&str| *name == "Leaf"));
    assert!(!forest.contains(|name: &&str| *name == "Nobody"));
}

#[test]
fn forest_get_remove_append_clear() {
    let mut forest = Forest::new();
    forest.add_root(1u32);
    forest.add_root(2u32);
    assert_eq!(*forest.get(1).unwrap().root().unwrap().value(), 2);
    assert!(forest.get(2).is_none());
    if let Some(t) = forest.get_mut(0) {
        t.root_mut().unwrap().add_child(11);
    }
    assert_eq!(forest.len(), 3);
    assert!(forest.remove_tree(5).is_none());
    let removed = forest.remove_tree(0).unwrap();
    assert_eq!(removed.len(), 2);
    assert_eq!(forest.tree_count(), 1);
    let mut other = Forest::new();
    other.add_root(3u32);
    other.add_root(4u32);
    forest.append(&mut other);
    assert_eq!(other.tree_count(), 0);
    assert_eq!(forest.tree_count(), 3);
    assert_eq!(forest.trees().len(), 3);
    forest.trees_mut()[0].clear();
    assert_eq!(forest.len(), 2);
    assert!(!forest.is_empty());
    forest.clear();
    assert_eq!(forest.tree_count(), 0);
    assert!(forest.is_empty());
}

#[test]
fn tree_built_through_root_mut() {
    let mut tree = Tree::with_root(1);
    {
        let root = tree.root_mut().unwrap();
        let child = root.add_child(2);
        child.add_child(4);
        child.add_child(5);
        root.add_child(3);
    }
    assert_eq!(tree.postorder_traverse().into_iter().map(|v| *v).collect::<Vec<i32>>(), vec![4, 5, 2, 3, 1]);
    assert_eq!(tree.preorder_traverse().into_iter().map(|v| *v).collect::<Vec<i32>>(), vec![1, 2, 4, 5, 3]);
    assert_eq!(tree.level_order_traverse().into_iter().map(|v| *v).collect::<Vec<i32>>(), vec![1, 2, 3, 4, 5]);
    assert_eq!(tree.height(), 3);
    assert_eq!(tree.len(), 5);
}
