use algs4::union_find::{
    QuickUnion, UnionFind, WeightedQuickUnion, WeightedQuickUnionWithPathCompression,
};

#[test]
fn quick_union_merges_and_resets() {
    let mut u = QuickUnion::new(6);
    assert!(!u.connected(0, 1));
    u.union(0, 1);
    u.union(2, 3);
    assert!(u.connected(0, 1));
    assert!(u.connected(3, 2));
    assert!(!u.connected(1, 2));
    u.union(1, 3);
    assert!(u.connected(0, 2));
    assert!(!u.connected(0, 5));
    assert_eq!(u.find(0), u.find(3));
    u.reset();
    assert!(!u.connected(0, 1));
    assert_eq!(u.find(4), 4);
}

fn merges_like_a_partition<U: UnionFind>() {
    let n = 64;
    let mut u = U::new(n);
    let mut class: Vec<usize> = (0..n).collect();
    let pairs =
        [(0, 1), (2, 3), (1, 3), (10, 20), (20, 30), (30, 0), (5, 5), (63, 62), (62, 10), (7, 8)];
    for &(p, q) in pairs.iter() {
        u.union(p, q);
        let (a, b) = (class[p], class[q]);
        for c in class.iter_mut() {
            if *c == a {
                *c = b;
            }
        }
        for x in 0..n {
            for y in 0..n {
                assert_eq!(u.connected(x, y), class[x] == class[y]);
            }
            let r = u.find(x);
            assert_eq!(u.find(r), r);
            assert_eq!(class[r], class[x]);
        }
    }
    u.reset();
    for x in 0..n {
        assert_eq!(u.find(x), x);
    }
}

#[test]
fn quick_union_is_a_partition() {
    merges_like_a_partition::<QuickUnion>();
}

#[test]
fn weighted_quick_union_is_a_partition() {
    merges_like_a_partition::<WeightedQuickUnion>();
}

#[test]
fn weighted_quick_union_with_path_compression_is_a_partition() {
    merges_like_a_partition::<WeightedQuickUnionWithPathCompression>();
}
