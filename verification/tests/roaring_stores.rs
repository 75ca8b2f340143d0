use lib::roaring::container::Container;
use lib::roaring::ops::{choose_store, combine, Operation};
use lib::roaring::store::array::{lower_bound, upper_bound, ArrayStore};
use lib::roaring::store::bitmap::{mask_between, mask_from, mask_through, word_and_mask, BitmapStore};
use lib::roaring::store::run::{runs_are_normalized, Run, RunStore};
use lib::roaring::store::{values_to_runs, Store};

#[test]
fn bit_masks() {
    assert_eq!(word_and_mask(0), (0, 1));
    assert_eq!(word_and_mask(65), (1, 2));
    assert_eq!(word_and_mask(65_535), (1023, 1 << 63));
    assert_eq!(mask_from(60), 0xf000_0000_0000_0000);
    assert_eq!(mask_from(0), u64::MAX);
    assert_eq!(mask_through(3), 0xf);
    assert_eq!(mask_through(63), u64::MAX);
    assert_eq!(mask_between(4, 7), 0xf0);
    assert_eq!(mask_between(5, 4), 0);
}

#[test]
fn array_bounds() {
    let values = vec![2u16, 4, 4, 8];
    assert_eq!(lower_bound(&vec![2u16, 4, 8], 4), 1);
    assert_eq!(upper_bound(&vec![2u16, 4, 8], 4), 2);
    assert_eq!(lower_bound(&vec![2u16, 4, 8], 9), 3);
    assert_eq!(upper_bound(&vec![2u16, 4, 8], 0), 0);
    assert_eq!(values.len(), 4);
}

#[test]
fn array_store_operations() {
    let mut s = ArrayStore::new();
    assert!(s.insert(5));
    assert!(s.insert(1));
    assert!(!s.insert(5));
    assert_eq!(s.len(), 2);
    assert_eq!(s.iter(), vec![1, 5]);
    assert_eq!(s.insert_range(3, 6), 3);
    assert_eq!(s.values(), &vec![1, 3, 4, 5, 6]);
    assert_eq!(s.remove_range(4, 10), 3);
    assert_eq!(s.iter(), vec![1, 3]);
    assert!(s.remove(1));
    assert!(!s.contains(1));
    assert!(s.contains(3));
    assert!(s.validate());
    assert_eq!(ArrayStore::singleton(9).into_values(), vec![9]);
    assert_eq!(ArrayStore::from_sorted_values(vec![1, 2, 3]).len(), 3);
}

#[test]
fn bitmap_store_operations() {
    let mut s = BitmapStore::new();
    assert!(s.is_empty());
    assert!(s.insert(100));
    assert!(!s.insert(100));
    assert_eq!(s.insert_range(60, 70), 11);
    assert_eq!(s.len(), 12);
    assert_eq!(s.remove_range(0, 64), 5);
    assert_eq!(s.iter(), vec![65, 66, 67, 68, 69, 70, 100]);
    assert!(s.remove(100));
    assert!(!s.contains(100));
    assert_eq!(s.words().len(), 1024);
    assert_eq!(s.words()[1], 0b111_1110);
    let array = s.into_array();
    assert_eq!(array.iter(), vec![65, 66, 67, 68, 69, 70]);
    let back = BitmapStore::from_array(array);
    assert_eq!(back.len(), 6);
    assert!(back.validate());
    let mut words = vec![0u64; 1024];
    words[0] = 0b101;
    assert_eq!(BitmapStore::from_words(words).iter(), vec![0, 2]);
}

#[test]
fn run_store_operations() {
    let r = Run::new(3, 5);
    assert_eq!(r.len(), 3);
    assert!(r.contains(4));
    assert!(!r.contains(6));
    let mut s = RunStore::from_range(10, 20);
    assert_eq!(s.len(), 11);
    assert_eq!(s.run_count(), 1);
    assert_eq!(s.insert_range(22, 25), 4);
    assert_eq!(s.run_count(), 2);
    assert!(s.insert(21));
    assert_eq!(s.run_count(), 1);
    assert_eq!(s.runs(), &vec![Run::new(10, 25)]);
    assert_eq!(s.remove_range(12, 13), 2);
    assert_eq!(s.runs(), &vec![Run::new(10, 11), Run::new(14, 25)]);
    assert!(s.remove(10));
    assert!(!s.remove(10));
    assert_eq!(s.iter(), vec![11, 14, 15, 16, 17, 18, 19, 20, 21, 22, 23, 24, 25]);
    assert!(s.validate());
    assert!(RunStore::new().is_empty());
    assert_eq!(RunStore::from_runs(vec![Run::new(0, 1), Run::new(5, 5)]).len(), 3);
}

#[test]
fn runs_from_values() {
    assert_eq!(values_to_runs(&vec![1, 2, 3, 7, 9, 10]), vec![Run::new(1, 3), Run::new(7, 7), Run::new(9, 10)]);
    assert_eq!(values_to_runs(&vec![]), Vec::<Run>::new());
    assert!(runs_are_normalized(&vec![Run::new(1, 3), Run::new(5, 6)]));
    assert!(!runs_are_normalized(&vec![Run::new(1, 3), Run::new(4, 6)]));
    assert!(!runs_are_normalized(&vec![Run::new(3, 1)]));
}

#[test]
fn store_conversions() {
    let mut s = Store::singleton(7);
    assert!(s.insert(8));
    assert_eq!(s.len(), 2);
    assert_eq!(s.insert_range(100, 199), 100);
    assert!(s.contains(150));
    assert!(s.remove(150));
    assert_eq!(s.remove_range(100, 120), 21);
    assert_eq!(s.len(), 80);
    let b = s.clone().into_bitmap();
    assert_eq!(b.iter(), s.iter());
    assert!(matches!(b, Store::Bitmap(_)));
    let a = b.into_array();
    assert!(matches!(a, Store::Array(_)));
    assert_eq!(a.len(), 80);
    let mut ranged = Store::singleton(0);
    ranged.insert_range(0, 999);
    assert!(ranged.run_optimize());
    assert!(matches!(ranged, Store::Run(_)));
    assert!(ranged.validate());
}

#[test]
fn store_combinations() {
    let mut a = Store::singleton(1);
    a.insert_range(1, 10);
    let mut b = Store::singleton(5);
    b.insert_range(5, 20);
    assert_eq!(combine(&a, &b, Operation::Union).len(), 20);
    assert_eq!(combine(&a, &b, Operation::Intersection).iter(), vec![5, 6, 7, 8, 9, 10]);
    assert_eq!(combine(&a, &b, Operation::Difference).iter(), vec![1, 2, 3, 4]);
    assert_eq!(combine(&a, &b, Operation::SymmetricDifference).len(), 14);
}

#[test]
fn choosing_a_store() {
    let mut dense = BitmapStore::new();
    dense.insert_range(0, 9_999);
    assert!(matches!(choose_store(dense), Store::Run(_)));
    let mut sparse = BitmapStore::new();
    for v in 0..100u16 {
        sparse.insert(v * 3);
    }
    assert!(matches!(choose_store(sparse), Store::Array(_)));
    assert!(matches!(choose_store(BitmapStore::new()), Store::Array(_)));
    let mut scattered = BitmapStore::new();
    for v in 0..5_000u16 {
        scattered.insert(v * 7);
    }
    assert!(matches!(choose_store(scattered), Store::Bitmap(_)));
}

#[test]
fn containers() {
    let mut c = Container::singleton(3, 10);
    assert_eq!(c.key, 3);
    assert_eq!(c.len(), 1);
    assert!(c.insert(11));
    assert!(!c.insert(11));
    assert_eq!(c.insert_range(20, 29), 10);
    assert_eq!(c.iter()[0], 10);
    assert!(c.contains(25));
    assert_eq!(c.remove_range(20, 24), 5);
    assert!(c.remove(10));
    assert_eq!(c.len(), 6);
    assert!(c.validate());
    let d = Container::from_range(3, 0, 99);
    assert_eq!(d.len(), 100);
    let e = c.combine(&d, Operation::Intersection);
    assert_eq!(e.iter(), vec![11, 25, 26, 27, 28, 29]);
    let mut f = Container::from_range(1, 5, 6);
    assert!(!f.is_empty());
    assert!(!f.run_optimize());
}
