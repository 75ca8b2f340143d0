use lib::bplus_tree::BPlusTree;
use lib::collection::Collection;
use std::collections::BTreeMap;

#[test]
fn bplus_tree_against_btreemap() {
    for order in 1..300usize {
        let mut tree = BPlusTree::new(order);
        let mut expected = BTreeMap::new();

        for key in (0..100u64).rev() {
            assert_eq!(tree.insert(key, 10 * key), expected.insert(key, 10 * key));
        }
        assert_eq!(tree.len(), expected.len());

        for key in 0..100u64 {
            assert_eq!(tree.get(&key), expected.get(&key));
        }
        assert_eq!(tree.insert(50, 999), expected.insert(50, 999));

        for key in (0..100u64).step_by(2) {
            assert_eq!(tree.remove(&key), expected.remove(&key));
        }
        for key in 0..100u64 {
            assert_eq!(tree.get(&key), expected.get(&key));
        }
        for key in 0..100u64 {
            assert_eq!(tree.remove(&key), expected.remove(&key));
        }
        assert!(tree.is_empty());
        for key in 0..100u64 {
            assert_eq!(tree.insert(key, key), expected.insert(key, key));
        }
        for key in 0..100u64 {
            assert_eq!(tree.get(&key), expected.get(&key));
        }
        assert_eq!(tree.len(), expected.len());
    }
}

#[test]
fn bplus_tree_new_is_empty() {
    let tree: BPlusTree<u32> = BPlusTree::new(2);
    assert!(tree.is_empty());
    assert_eq!(tree.len(), 0);
    assert_eq!(tree.get(&7), None);
    assert!(!tree.contains_key(&7));
}

#[test]
fn bplus_tree_insert_replaces() {
    let mut tree = BPlusTree::new(1);
    assert_eq!(tree.insert(5, "five"), None);
    assert_eq!(tree.insert(5, "FIVE"), Some("five"));
    assert_eq!(tree.get(&5), Some(&"FIVE"));
    assert_eq!(tree.len(), 1);
}

#[test]
fn bplus_tree_read_after_write() {
    let mut tree = BPlusTree::new(2);
    for key in 0..50u64 {
        tree.insert(key * 3, key);
    }
    tree.insert(31, 1000);
    assert_eq!(tree.get(&31), Some(&1000));
    assert_eq!(tree.get(&30), Some(&10));
    assert_eq!(tree.get(&32), None);
    assert!(tree.contains_key(&147));
    assert!(!tree.contains_key(&148));
}

#[test]
fn bplus_tree_remove_undoes_insert() {
    let mut tree = BPlusTree::new(3);
    for key in 0..40u64 {
        tree.insert(key * 2, key);
    }
    assert_eq!(tree.insert(41, 7), None);
    assert_eq!(tree.remove(&41), Some(7));
    assert_eq!(tree.len(), 40);
    for key in 0..80u64 {
        let want = if key % 2 == 0 { Some(key / 2) } else { None };
        assert_eq!(tree.get(&key).copied(), want);
    }
    assert_eq!(tree.remove(&41), None);
}

#[test]
fn bplus_tree_get_mut() {
    let mut tree = BPlusTree::new(2);
    for key in 0..20u64 {
        tree.insert(key, key);
    }
    if let Some(v) = tree.get_mut(&7) {
        *v = 70;
    }
    assert_eq!(tree.get(&7), Some(&70));
    assert!(tree.get_mut(&100).is_none());
    assert_eq!(tree.len(), 20);
}

#[test]
fn bplus_tree_clear_keeps_working() {
    let mut tree = BPlusTree::new(1);
    for key in 0..30u64 {
        tree.insert(key, key);
    }
    tree.clear();
    assert!(tree.is_empty());
    assert_eq!(tree.get(&3), None);
    tree.insert(3, 9);
    assert_eq!(tree.get(&3), Some(&9));
    assert_eq!(tree.len(), 1);
}

#[test]
fn bplus_tree_extreme_keys() {
    let mut tree = BPlusTree::new(1);
    tree.insert(u64::MAX, 1u8);
    tree.insert(0, 2u8);
    tree.insert(u64::MAX - 1, 3u8);
    assert_eq!(tree.get(&u64::MAX), Some(&1));
    assert_eq!(tree.get(&0), Some(&2));
    assert_eq!(tree.remove(&u64::MAX), Some(1));
    assert_eq!(tree.len(), 2);
}
