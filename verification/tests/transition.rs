use algs4::transition::{BitmapStore, DenseStore, HashStore, TransitionStore};

fn binds_and_rebinds<S: TransitionStore>() {
    let mut s = S::new();
    for b in 0..=255u8 {
        assert_eq!(s.get(b), None);
    }
    s.set(200, 7);
    s.set(3, 9);
    s.set(255, 1);
    s.set(0, 4);
    s.set(100, 5);
    assert_eq!(s.get(200), Some(7));
    assert_eq!(s.get(3), Some(9));
    assert_eq!(s.get(255), Some(1));
    assert_eq!(s.get(0), Some(4));
    assert_eq!(s.get(100), Some(5));
    assert_eq!(s.get(101), None);
    assert_eq!(s.get(1), None);
    s.set(3, 11);
    s.set(255, 12);
    assert_eq!(s.get(3), Some(11));
    assert_eq!(s.get(255), Some(12));
    assert_eq!(s.get(200), Some(7));
    assert_eq!(s.get(0), Some(4));
    let bound: Vec<(u8, usize)> = (0..=255u8).filter_map(|b| s.get(b).map(|t| (b, t))).collect();
    assert_eq!(bound, vec![(0, 4), (3, 11), (100, 5), (200, 7), (255, 12)]);
}

#[test]
fn dense_store_binds_and_rebinds() {
    binds_and_rebinds::<DenseStore>();
}

#[test]
fn hash_store_binds_and_rebinds() {
    binds_and_rebinds::<HashStore>();
}

#[test]
fn bitmap_store_binds_and_rebinds() {
    binds_and_rebinds::<BitmapStore>();
}

#[test]
fn bitmap_store_holds_every_byte() {
    let mut s = BitmapStore::new();
    for b in (0..=255u8).rev() {
        s.set(b, b as usize + 1);
    }
    for b in 0..=255u8 {
        assert_eq!(s.get(b), Some(b as usize + 1));
    }
}

fn lists_children_in_byte_order<S: TransitionStore>() {
    let mut s = S::new();
    assert_eq!(s.children(), vec![]);
    for (b, t) in [(200u8, 7usize), (3, 9), (255, 1), (0, 4), (100, 5), (3, 11)] {
        s.set(b, t);
    }
    assert_eq!(s.children(), vec![(0, 4), (3, 11), (100, 5), (200, 7), (255, 1)]);
}

#[test]
fn dense_store_lists_children_in_byte_order() {
    lists_children_in_byte_order::<DenseStore>();
}

#[test]
fn hash_store_lists_children_in_byte_order() {
    lists_children_in_byte_order::<HashStore>();
}

#[test]
fn bitmap_store_lists_children_in_byte_order() {
    lists_children_in_byte_order::<BitmapStore>();
}

#[test]
fn bitmap_store_lists_every_byte() {
    let mut s = BitmapStore::new();
    for b in 0..=255u8 {
        s.set(b.wrapping_mul(37), b as usize + 1);
    }
    let listing = s.children();
    assert_eq!(listing.len(), 256);
    for (k, (b, t)) in listing.iter().enumerate() {
        assert_eq!(*b as usize, k);
        assert_eq!(s.get(*b), Some(*t));
    }
}
