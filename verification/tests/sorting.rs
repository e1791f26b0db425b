use filefinder::sorting::{find_sorted, intersect, sort, sort_dedup, MaxHeap};

fn scrambled(n: u32) -> Vec<u32> {
    (0..n).map(|i| i.wrapping_mul(2654435761) % (n / 2 + 1)).collect()
}

#[test]
fn sort_puts_in_order() {
    let mut v = scrambled(1000);
    let mut w = v.clone();
    sort(&mut v);
    w.sort();
    assert_eq!(v, w);
}

#[test]
fn sort_keeps_what_is_in_order() {
    let mut v: Vec<u32> = vec![1, 1, 2, 3, 5, 8];
    sort(&mut v);
    assert_eq!(v, vec![1, 1, 2, 3, 5, 8]);
    let mut none: Vec<u32> = Vec::new();
    sort(&mut none);
    assert!(none.is_empty());
}

#[test]
fn sort_dedup_leaves_one_of_each() {
    let mut v: Vec<usize> = vec![3, 1, 3, 2, 1, 1];
    sort_dedup(&mut v);
    assert_eq!(v, vec![1, 2, 3]);
}

#[test]
fn find_sorted_finds() {
    let v: Vec<usize> = (0..100).map(|i| 2 * i).collect();
    for i in 0..100usize {
        assert_eq!(find_sorted(&v, &(2 * i)), Some(i));
        assert_eq!(find_sorted(&v, &(2 * i + 1)), None);
    }
    let none: [usize; 0] = [];
    assert_eq!(find_sorted(&none, &1), None);
}

#[test]
fn intersect_keeps_what_both_hold() {
    assert_eq!(intersect(&[1u32, 3, 5, 7, 9], &[2, 3, 4, 7, 10]), vec![3, 7]);
    assert_eq!(intersect::<u32>(&[], &[1, 2]), Vec::<u32>::new());
    assert_eq!(intersect(&[1usize, 2], &[1, 2]), vec![1, 2]);
}

#[test]
fn heap_gives_out_the_largest_first() {
    let mut heap: MaxHeap<u32> = MaxHeap::with_capacity(4);
    for x in scrambled(50) {
        heap.push(x);
    }
    assert_eq!(heap.len(), 50);
    let mut out = Vec::new();
    while let Some(x) = heap.pop() {
        out.push(x);
    }
    let mut expected = scrambled(50);
    expected.sort();
    expected.reverse();
    assert_eq!(out, expected);
    assert_eq!(heap.pop(), None);
}

#[test]
fn heap_gives_up_all_items() {
    let mut heap: MaxHeap<usize> = MaxHeap::with_capacity(0);
    heap.push(4);
    heap.push(9);
    let mut items = heap.into_vec();
    items.sort();
    assert_eq!(items, vec![4, 9]);
}
