use algs4::percolation::Percolation;
use algs4::union_find::{QuickUnion, UnionFind, WeightedQuickUnion, WeightedQuickUnionWithPathCompression};

fn percolates_through_an_open_column<U: UnionFind>() {
    let n = 4;
    let mut p: Percolation<U> = Percolation::new(n);
    assert!(!p.percolates());
    for row in 0..n {
        assert!(!p.percolates());
        let pos = row * n + 2;
        assert!(!p.is_open(pos));
        p.open(pos);
        assert!(p.is_open(pos));
    }
    assert!(p.percolates());
    p.reset();
    assert!(!p.percolates());
    for pos in 0..n * n {
        assert!(!p.is_open(pos));
    }
}

#[test]
fn quick_union_grid_percolates_through_an_open_column() {
    percolates_through_an_open_column::<QuickUnion>();
}

#[test]
fn weighted_grid_percolates_through_an_open_column() {
    percolates_through_an_open_column::<WeightedQuickUnion>();
}

#[test]
fn compressing_grid_percolates_through_an_open_column() {
    percolates_through_an_open_column::<WeightedQuickUnionWithPathCompression>();
}

#[test]
fn rows_do_not_wrap_around() {
    let n = 3;
    let mut p: Percolation<WeightedQuickUnion> = Percolation::new(n);
    // the last site of a row and the first of the next are no neighbours
    p.open(2);
    p.open(3);
    p.open(6);
    assert!(!p.percolates());
    p.open(5);
    p.open(8);
    assert!(p.percolates());
}

#[test]
fn diagonal_sites_do_not_join() {
    let n = 3;
    let mut p: Percolation<QuickUnion> = Percolation::new(n);
    p.open(0);
    p.open(4);
    p.open(8);
    assert!(!p.percolates());
    p.open(3);
    assert!(!p.percolates());
    p.open(7);
    assert!(p.percolates());
}

#[test]
fn grid_percolates_as_flood_fill_says() {
    let n = 6;
    let order = [7usize, 30, 1, 14, 20, 33, 8, 26, 5, 19, 13, 25, 35, 2, 31, 21, 9, 32, 27, 15];
    let mut p: Percolation<WeightedQuickUnionWithPathCompression> = Percolation::new(n);
    let mut open = vec![false; n * n];
    for &pos in order.iter() {
        p.open(pos);
        open[pos] = true;
        let mut seen = vec![false; n * n];
        let mut stack: Vec<usize> = (0..n).filter(|&c| open[c]).collect();
        let mut through = false;
        while let Some(s) = stack.pop() {
            if seen[s] {
                continue;
            }
            seen[s] = true;
            if s >= n * (n - 1) {
                through = true;
            }
            let (r, c) = (s / n, s % n);
            if r > 0 && open[s - n] {
                stack.push(s - n);
            }
            if r + 1 < n && open[s + n] {
                stack.push(s + n);
            }
            if c > 0 && open[s - 1] {
                stack.push(s - 1);
            }
            if c + 1 < n && open[s + 1] {
                stack.push(s + 1);
            }
        }
        assert_eq!(p.percolates(), through);
    }
}
