use algs4::dary_heap::DaryHeap;

#[test]
fn test_random_operations() {
    let mut heap: DaryHeap<i32, 2> = DaryHeap::new();
    let mut vec = Vec::new();

    (0..1000000).for_each(|_| {
        let num = rand::random_range(i32::MIN..i32::MAX);
        heap.push(num);
        vec.push(num);
    });

    vec.sort_unstable_by(|a, b| b.cmp(a));
    vec.iter().for_each(|&num| {
        assert_eq!(heap.pop(), Some(num));
    });
    assert_eq!(heap.pop(), None);
}

#[test]
fn heap_pops_in_descending_order_for_wide_nodes() {
    let mut heap: DaryHeap<u32, 5> = DaryHeap::with_capacity(16);
    for x in [4u32, 9, 1, 9, 7, 0, 3, 8, 2, 6, 5, 11, 10] {
        heap.push(x);
    }
    assert_eq!(heap.peek(), Some(&11));
    let mut out = Vec::new();
    while let Some(x) = heap.pop() {
        out.push(x);
    }
    assert_eq!(out, vec![11, 10, 9, 9, 8, 7, 6, 5, 4, 3, 2, 1, 0]);
    assert_eq!(heap.peek(), None);
}

#[test]
fn heap_clear_empties() {
    let mut heap: DaryHeap<i64, 3> = DaryHeap::new();
    heap.push(1);
    heap.push(2);
    heap.clear();
    assert_eq!(heap.pop(), None);
}
