use structures::binary_heap::BinaryHeap;

fn drain(heap: &mut BinaryHeap<i32>) -> Vec<i32> {
    let mut out = Vec::new();
    while let Some(v) = heap.pop() {
        out.push(v);
    }
    out
}

fn walk(heap: &BinaryHeap<i32>) -> Vec<i32> {
    let mut it = heap.iter();
    let mut out = Vec::new();
    while let Some(v) = it.next() {
        out.push(*v);
    }
    out
}

#[test]
fn pops_largest_first() {
    let mut heap = BinaryHeap::new();
    for v in [5, 1, 8, 3, 9, 2, 7] {
        heap.push(v);
    }
    assert_eq!(heap.len(), 7);
    assert_eq!(heap.peek(), Some(&9));
    assert_eq!(drain(&mut heap), vec![9, 8, 7, 5, 3, 2, 1]);
    assert!(heap.is_empty());
    assert_eq!(heap.pop(), None);
}

#[test]
fn keeps_equal_elements() {
    let mut heap = BinaryHeap::new();
    for v in [4, 4, 1, 4, 1] {
        heap.push(v);
    }
    assert_eq!(drain(&mut heap), vec![4, 4, 4, 1, 1]);
}

#[test]
fn empty_heap() {
    let mut heap: BinaryHeap<i32> = BinaryHeap::new();
    assert_eq!(heap.peek(), None);
    assert_eq!(heap.len(), 0);
    assert!(heap.is_empty());
    assert_eq!(heap.pop(), None);
    assert_eq!(walk(&heap), Vec::<i32>::new());
}

#[test]
fn walk_visits_root_then_left_then_right() {
    let mut heap = BinaryHeap::new();
    for v in [1, 2, 3, 4, 5] {
        heap.push(v);
    }
    // layout after the pushes: [5, 4, 2, 1, 3]
    assert_eq!(walk(&heap), vec![5, 4, 1, 3, 2]);
}

#[test]
fn walk_covers_every_element() {
    let mut heap = BinaryHeap::new();
    for v in 0..50 {
        heap.push((v * 37) % 50);
    }
    let mut seen = walk(&heap);
    assert_eq!(seen[0], 49);
    seen.sort();
    assert_eq!(seen, (0..50).collect::<Vec<i32>>());
}

#[test]
fn heap_clear_empties() {
    let mut heap = BinaryHeap::new();
    heap.push(3);
    heap.push(6);
    heap.clear();
    assert!(heap.is_empty());
    assert_eq!(heap.peek(), None);
}

#[test]
fn append_merges_and_empties_other() {
    let mut a = BinaryHeap::new();
    let mut b = BinaryHeap::new();
    for v in [1, 6, 3] {
        a.push(v);
    }
    for v in [5, 2, 9] {
        b.push(v);
    }
    a.append(&mut b);
    assert!(b.is_empty());
    assert_eq!(a.len(), 6);
    assert_eq!(drain(&mut a), vec![9, 6, 5, 3, 2, 1]);
}

#[test]
fn pop_after_many_pushes_sorts() {
    let mut heap = BinaryHeap::new();
    let mut state: u64 = 11;
    let mut expected = Vec::new();
    for _ in 0..300 {
        state = state.wrapping_mul(6364136223846793005).wrapping_add(1442695040888963407);
        let v = ((state >> 33) % 1000) as i32;
        heap.push(v);
        expected.push(v);
    }
    expected.sort();
    expected.reverse();
    assert_eq!(drain(&mut heap), expected);
}
