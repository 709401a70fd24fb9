use algs4::sort::{
    bottom_up_merge_sort, insertion_sort, quick_sort, quick_sort_3way, top_down_merge_sort,
};

const N: usize = 5000;

fn generate_random_vec() -> Vec<i32> {
    (0..N).map(|_| rand::random::<i32>()).collect()
}

#[test]
fn test_insertion_sort() {
    let mut a = generate_random_vec();
    insertion_sort(&mut a, |a: &i32, b: &i32| a.cmp(b));
    assert!(a.is_sorted());
}

#[test]
fn test_top_down_merge_sort() {
    let mut a = generate_random_vec();
    top_down_merge_sort(&mut a, |a: &i32, b: &i32| a.cmp(b));
    assert!(a.is_sorted());
}

#[test]
fn insertion_sort_keeps_every_element() {
    let mut a = vec![3, 1, 2, 3, 1, 0, -7];
    insertion_sort(&mut a, |a: &i32, b: &i32| a.cmp(b));
    assert_eq!(a, vec![-7, 0, 1, 1, 2, 3, 3]);
}

#[test]
fn top_down_merge_sort_keeps_every_element() {
    let mut a = vec![3, 1, 2, 3, 1, 0, -7];
    top_down_merge_sort(&mut a, |a: &i32, b: &i32| a.cmp(b));
    assert_eq!(a, vec![-7, 0, 1, 1, 2, 3, 3]);
}

#[test]
fn sorts_accept_empty_and_single() {
    let mut e: Vec<i32> = vec![];
    insertion_sort(&mut e, |a: &i32, b: &i32| a.cmp(b));
    top_down_merge_sort(&mut e, |a: &i32, b: &i32| a.cmp(b));
    assert!(e.is_empty());
    let mut s = vec![5];
    insertion_sort(&mut s, |a: &i32, b: &i32| a.cmp(b));
    top_down_merge_sort(&mut s, |a: &i32, b: &i32| a.cmp(b));
    assert_eq!(s, vec![5]);
}

#[test]
fn sorts_by_reversed_comparator() {
    let mut a = vec![1, 5, 2, 4, 3];
    top_down_merge_sort(&mut a, |a: &i32, b: &i32| b.cmp(a));
    assert_eq!(a, vec![5, 4, 3, 2, 1]);
}

#[test]
fn test_bottom_up_merge_sort() {
    let mut a = generate_random_vec();
    bottom_up_merge_sort(&mut a, |a: &i32, b: &i32| a.cmp(b));
    assert!(a.is_sorted());
}

#[test]
fn bottom_up_merge_sort_keeps_every_element() {
    for n in 0..40usize {
        let mut a: Vec<i32> = (0..n).map(|k| ((k * 7919) % 13) as i32 - 6).collect();
        let mut expected = a.clone();
        expected.sort();
        bottom_up_merge_sort(&mut a, |a: &i32, b: &i32| a.cmp(b));
        assert_eq!(a, expected);
    }
}

#[test]
fn merge_sorts_are_stable() {
    let pairs: Vec<(i32, usize)> = (0..50usize).map(|k| (((k * 31) % 5) as i32, k)).collect();
    let mut expected = pairs.clone();
    expected.sort_by(|a, b| a.0.cmp(&b.0));
    let mut a = pairs.clone();
    top_down_merge_sort(&mut a, |a: &(i32, usize), b: &(i32, usize)| a.0.cmp(&b.0));
    assert_eq!(a, expected);
    let mut b = pairs.clone();
    bottom_up_merge_sort(&mut b, |a: &(i32, usize), b: &(i32, usize)| a.0.cmp(&b.0));
    assert_eq!(b, expected);
}

#[test]
fn test_quick_sort() {
    let mut a = generate_random_vec();
    quick_sort(&mut a, |a: &i32, b: &i32| a.cmp(b));
    assert!(a.is_sorted());
}

#[test]
fn test_quick_sort_3way() {
    let mut a = generate_random_vec();
    quick_sort_3way(&mut a, |a: &i32, b: &i32| a.cmp(b));
    assert!(a.is_sorted());
}

#[test]
fn quick_sorts_keep_every_element() {
    for n in 0..60usize {
        let a: Vec<i32> = (0..n).map(|k| ((k * 7919) % 11) as i32 - 5).collect();
        let mut expected = a.clone();
        expected.sort();
        let mut b = a.clone();
        quick_sort(&mut b, |a: &i32, b: &i32| a.cmp(b));
        assert_eq!(b, expected);
        let mut c = a.clone();
        quick_sort_3way(&mut c, |a: &i32, b: &i32| a.cmp(b));
        assert_eq!(c, expected);
    }
}

#[test]
fn quick_sorts_handle_equal_and_ordered_inputs() {
    let mut same = vec![4; 300];
    quick_sort(&mut same, |a: &i32, b: &i32| a.cmp(b));
    assert_eq!(same, vec![4; 300]);
    quick_sort_3way(&mut same, |a: &i32, b: &i32| a.cmp(b));
    assert_eq!(same, vec![4; 300]);
    let mut down: Vec<i32> = (0..500).rev().collect();
    quick_sort(&mut down, |a: &i32, b: &i32| a.cmp(b));
    assert_eq!(down, (0..500).collect::<Vec<i32>>());
    let mut up: Vec<i32> = (0..500).collect();
    quick_sort_3way(&mut up, |a: &i32, b: &i32| b.cmp(a));
    assert_eq!(up, (0..500).rev().collect::<Vec<i32>>());
}
