use lib::roaring::bitmap::RoaringBitmap;
use lib::roaring::util::{join, split};

fn values(bitmap: &RoaringBitmap) -> Vec<u32> {
    let mut it = bitmap.iter();
    let mut out = Vec::new();
    while let Some(v) = it.next() {
        out.push(v);
    }
    out
}

fn of(vals: &[u32]) -> RoaringBitmap {
    RoaringBitmap::from_iter(&vals.to_vec())
}

#[test]
fn split_and_join() {
    assert_eq!(split(0x0001_0002), (1, 2));
    assert_eq!(split(u32::MAX), (0xffff, 0xffff));
    assert_eq!(join(1, 2), 0x0001_0002);
    assert_eq!(join(0xabcd, 0x1234), 0xabcd_1234);
}

#[test]
fn roaring_new_is_empty() {
    let bitmap = RoaringBitmap::new();
    assert!(bitmap.is_empty());
    assert_eq!(bitmap.len(), 0);
    assert_eq!(bitmap.container_count(), 0);
    assert!(!bitmap.contains(0));
    assert!(bitmap.validate());
    assert_eq!(values(&bitmap), Vec::<u32>::new());
}

#[test]
fn roaring_insert_contains_remove() {
    let mut bitmap = RoaringBitmap::new();
    assert!(bitmap.insert(5));
    assert!(!bitmap.insert(5));
    assert!(bitmap.insert(70_000));
    assert!(bitmap.insert(u32::MAX));
    assert_eq!(bitmap.len(), 3);
    assert_eq!(bitmap.container_count(), 3);
    assert!(bitmap.contains(70_000));
    assert!(!bitmap.contains(70_001));
    assert!(bitmap.remove(70_000));
    assert!(!bitmap.remove(70_000));
    assert_eq!(bitmap.len(), 2);
    assert_eq!(bitmap.container_count(), 2);
    assert_eq!(values(&bitmap), vec![5, u32::MAX]);
    assert!(bitmap.validate());
}

#[test]
fn roaring_iterates_in_order() {
    let bitmap = of(&[300_000, 1, 65_536, 2, 65_535, 1, 0]);
    assert_eq!(values(&bitmap), vec![0, 1, 2, 65_535, 65_536, 300_000]);
    assert_eq!(bitmap.len(), 6);
    let it = bitmap.iter();
    assert_eq!(it.size_hint(), (6, Some(6)));
    assert_eq!(it.count(), 6);
}

#[test]
fn roaring_many_values_become_bitmap_container() {
    let mut bitmap = RoaringBitmap::new();
    for v in 0..10_000u32 {
        assert!(bitmap.insert(v * 3));
    }
    assert_eq!(bitmap.len(), 10_000);
    assert!(bitmap.contains(29_997));
    assert!(!bitmap.contains(29_998));
    assert!(bitmap.validate());
    for v in 0..10_000u32 {
        assert!(bitmap.remove(v * 3));
    }
    assert!(bitmap.is_empty());
    assert_eq!(bitmap.container_count(), 0);
}

#[test]
fn roaring_insert_range_counts_new_values() {
    let mut bitmap = of(&[10, 20]);
    assert_eq!(bitmap.insert_range(5, 15), 10);
    assert_eq!(bitmap.len(), 12);
    assert_eq!(bitmap.insert_range(15, 5), 0);
    assert_eq!(bitmap.insert_range(65_530, 65_540), 11);
    assert!(bitmap.contains(65_536));
    assert_eq!(bitmap.len(), 23);
    assert!(bitmap.validate());
}

#[test]
fn roaring_remove_range_counts_removed_values() {
    let mut bitmap = RoaringBitmap::new();
    assert_eq!(bitmap.insert_range(0, 199_999), 200_000);
    assert_eq!(bitmap.remove_range(100, 199), 100);
    assert_eq!(bitmap.remove_range(100, 199), 0);
    assert_eq!(bitmap.len(), 199_900);
    assert!(!bitmap.contains(150));
    assert!(bitmap.contains(200));
    assert_eq!(bitmap.remove_range(0, u32::MAX), 199_900);
    assert!(bitmap.is_empty());
}

#[test]
fn roaring_full_range() {
    let mut bitmap = RoaringBitmap::new();
    assert_eq!(bitmap.insert_range(0, u32::MAX), 1u64 << 32);
    assert_eq!(bitmap.len(), 1u64 << 32);
    assert_eq!(bitmap.container_count(), 65_536);
    assert!(bitmap.contains(123_456_789));
}

#[test]
fn roaring_set_operations() {
    let a = of(&[1, 2, 3, 100_000, 200_000]);
    let b = of(&[2, 3, 4, 200_000, 300_000]);
    assert_eq!(values(&a.union(&b)), vec![1, 2, 3, 4, 100_000, 200_000, 300_000]);
    assert_eq!(values(&a.intersection(&b)), vec![2, 3, 200_000]);
    assert_eq!(values(&a.difference(&b)), vec![1, 100_000]);
    assert_eq!(values(&a.symmetric_difference(&b)), vec![1, 4, 100_000, 300_000]);
    let u = a.union(&b);
    let i = a.intersection(&b);
    assert_eq!(u.len() + i.len(), a.len() + b.len());
    assert!(u.validate());
    assert!(a.difference(&a).is_empty());
}

#[test]
fn roaring_operations_on_large_containers() {
    let mut a = RoaringBitmap::new();
    a.insert_range(0, 9_999);
    let mut b = RoaringBitmap::new();
    b.insert_range(5_000, 14_999);
    assert_eq!(a.union(&b).len(), 15_000);
    assert_eq!(a.intersection(&b).len(), 5_000);
    assert_eq!(a.difference(&b).len(), 5_000);
    assert_eq!(a.symmetric_difference(&b).len(), 10_000);
    assert!(a.symmetric_difference(&b).contains(14_999));
    assert!(!a.symmetric_difference(&b).contains(5_000));
}

#[test]
fn roaring_run_optimize() {
    let mut bitmap = RoaringBitmap::new();
    bitmap.insert_range(1_000, 5_000);
    assert!(bitmap.run_optimize());
    assert_eq!(bitmap.len(), 4_001);
    assert!(bitmap.contains(3_000));
    assert!(bitmap.validate());
    let mut scattered = of(&[1, 3, 5, 7]);
    assert!(!scattered.run_optimize());
    assert_eq!(values(&scattered), vec![1, 3, 5, 7]);
}

#[test]
fn roaring_extend_and_clear() {
    let mut bitmap = of(&[1]);
    bitmap.extend(&vec![5, 1, 9]);
    assert_eq!(values(&bitmap), vec![1, 5, 9]);
    bitmap.clear();
    assert!(bitmap.is_empty());
    assert_eq!(bitmap.container_count(), 0);
    let d = RoaringBitmap::default();
    assert!(d.is_empty());
}

#[test]
fn roaring_remove_undoes_insert() {
    let mut bitmap = of(&[4, 8, 15, 16, 23, 42]);
    let before = values(&bitmap);
    assert!(bitmap.insert(100));
    assert!(bitmap.remove(100));
    assert_eq!(values(&bitmap), before);
}

#[test]
fn roaring_operators() {
    let a = of(&[1, 2, 3, 70_000]);
    let b = of(&[3, 4, 70_000, 80_000]);
    assert_eq!(values(&(&a | &b)), vec![1, 2, 3, 4, 70_000, 80_000]);
    assert_eq!(values(&(&a & &b)), vec![3, 70_000]);
    assert_eq!(values(&(&a - &b)), vec![1, 2]);
    assert_eq!(values(&(&a ^ &b)), vec![1, 2, 4, 80_000]);
}

#[test]
fn roaring_run_forms_follow_operations() {
    let first_thousand: Vec<u32> = (0..1000).collect();
    let mut dense = RoaringBitmap::from_iter(&first_thousand);
    assert!(dense.run_optimize());
    let mut pair = RoaringBitmap::new();
    assert_eq!(pair.insert_range(10, 11), 2);
    assert!(!pair.run_optimize());
    let mut triple = RoaringBitmap::new();
    assert_eq!(triple.insert_range(10, 12), 3);
    assert!(triple.run_optimize());
    let mut sparse = RoaringBitmap::new();
    for v in 0..50u32 {
        sparse.insert(v * 1000);
    }
    assert!(!sparse.run_optimize());
    // a key on one side keeps that side's container, runs and all
    let mut kept = &triple | &of(&[70_000]);
    assert!(kept.run_optimize());
    // a key on both sides gets the form that suits the result: three values
    // take no fewer bytes as runs
    let mut met = &triple & &triple;
    assert_eq!(values(&met), vec![10, 11, 12]);
    assert!(!met.run_optimize());
    let mut mixed = &triple | &sparse;
    assert!(!mixed.run_optimize());
}

#[test]
fn roaring_clone_keeps_values() {
    let a = of(&[1, 2, 3, 70000, 140000]);
    let b = a.clone();
    assert_eq!(values(&b), values(&a));
    assert_eq!(b.len(), a.len());
}

#[test]
fn roaring_absent_remove_and_empty_ranges_change_nothing() {
    let mut a = of(&[5, 6, 7, 100000]);
    assert!(!a.remove(8));
    assert_eq!(a.insert_range(10, 9), 0);
    assert_eq!(a.remove_range(10, 9), 0);
    assert_eq!(values(&a), vec![5, 6, 7, 100000]);
}
