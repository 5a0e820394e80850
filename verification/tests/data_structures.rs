use fuzzcheck::{HBitSet, LargeStepFindIter, Slab, SlabKey, WeightedIndex};

#[test]
fn test_large_step_find_iter() {
    let xs = vec![
        0, 1, 2, 3, 4, 5, 6, 7, 8, 9, 10, 11, 12, 13, 14, 15, 16, 17, 18, 19, 20, 21, 22, 23, 24,
        25, 26, 89, 90, 91,
    ];

    for x in &xs {
        let mut iter = LargeStepFindIter::new(&xs);
        let y = iter.find(*x);
        assert_eq!(y, Some(*x));
    }

    let mut iter = LargeStepFindIter::new(&xs);

    let _ = iter.find(8);

    let y = iter.find(9);
    assert_eq!(y, Some(9));

    let y = iter.find(86);
    assert_eq!(y, Some(89));
}

#[test]
fn find_on_empty_slice_is_none() {
    let xs: Vec<u64> = vec![];
    let mut iter = LargeStepFindIter::new(&xs);
    assert_eq!(iter.find(0), None);
}

#[test]
fn find_past_the_largest_element_is_none() {
    let xs = vec![1, 2, 3];
    let mut iter = LargeStepFindIter::new(&xs);
    assert_eq!(iter.find(2), Some(2));
    assert_eq!(iter.find(4), None);
}

#[test]
fn slab_keys_stay_stable_across_churn() {
    let mut slab: Slab<u32> = Slab::new();
    let a = slab.insert(10);
    let b = slab.insert(20);
    let c = slab.insert(30);
    assert_eq!(slab.get(a), Some(&10));
    assert_eq!(slab.get(b), Some(&20));
    assert_eq!(slab.get(c), Some(&30));

    slab.remove(b);
    assert_eq!(slab.get(a), Some(&10));
    assert_eq!(slab.get(b), None);
    assert_eq!(slab.get(c), Some(&30));

    // The released slot is reused by the next insert.
    let d = slab.insert(40);
    assert_eq!(d, b);
    assert_eq!(slab.get(d), Some(&40));
    assert_eq!(slab.get(a), Some(&10));
    assert_eq!(slab.get(c), Some(&30));
}

#[test]
fn slab_next_key_predicts_insert() {
    let mut slab: Slab<u8> = Slab::new();
    let k = slab.next_key();
    let k2 = slab.insert(7);
    assert_eq!(k, k2);
    slab.remove(k2);
    let k3 = slab.next_key();
    assert_eq!(k3, k2);
}

#[test]
fn slab_key_orders_by_slot() {
    let a = SlabKey::new(1);
    let b = SlabKey::new(2);
    assert!(a < b);
    assert_eq!(a, SlabKey::new(1));
}

#[test]
fn weighted_index_picks_first_strictly_greater() {
    let w = vec![1u64, 3, 3, 7];
    assert_eq!(WeightedIndex::index_for(&w, 0), 0);
    assert_eq!(WeightedIndex::index_for(&w, 1), 1);
    assert_eq!(WeightedIndex::index_for(&w, 2), 1);
    assert_eq!(WeightedIndex::index_for(&w, 3), 3);
    assert_eq!(WeightedIndex::index_for(&w, 6), 3);
}

#[test]
fn weighted_index_sample_stays_in_range() {
    let w = vec![2u64, 5, 9];
    let wi = WeightedIndex { cumulative_weights: &w };
    for _ in 0..100 {
        let i = wi.sample();
        assert!(i < w.len());
    }
}

#[test]
fn hbitset_drains_in_ascending_order_once_per_element() {
    let mut set = HBitSet::new();
    let values: Vec<u64> = vec![5, 0, 63, 64, 65, 4095, 4096, 100_000, 1 << 29, 5, 64];
    for &v in &values {
        set.set(v as usize);
    }
    let drained = set.drain();
    let mut expected: Vec<u64> = values.clone();
    expected.sort();
    expected.dedup();
    assert_eq!(drained, expected);

    // The drain is destructive: a second drain sees an empty set.
    let drained_again = set.drain();
    assert!(drained_again.is_empty());
}

#[test]
fn hbitset_set_after_drain_works() {
    let mut set = HBitSet::new();
    set.set(123);
    let _ = set.drain();
    set.set(77);
    set.set(123456);
    assert_eq!(set.drain(), vec![77, 123456]);
}
