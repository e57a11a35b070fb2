use structures::sequenced::SequencedList;

fn forward(list: &SequencedList<i32>) -> Vec<i32> {
    let mut it = list.iter();
    let mut out = Vec::new();
    while let Some(v) = it.next() {
        out.push(*v);
    }
    out
}

fn backward(list: &SequencedList<i32>) -> Vec<i32> {
    let mut it = list.iter();
    let mut out = Vec::new();
    while let Some(v) = it.next_back() {
        out.push(*v);
    }
    out
}

#[test]
fn push_at_both_ends() {
    let mut list = SequencedList::new();
    list.push_back(2);
    list.push_back(3);
    list.push_front(1);
    list.push_front(0);
    assert_eq!(forward(&list), vec![0, 1, 2, 3]);
    assert_eq!(backward(&list), vec![3, 2, 1, 0]);
    assert_eq!(list.len(), 4);
    assert!(!list.is_empty());
    assert_eq!(list.front(), Some(&0));
    assert_eq!(list.back(), Some(&3));
}

#[test]
fn get_by_index() {
    let mut list = SequencedList::new();
    for v in [10, 20, 30] {
        list.push_back(v);
    }
    assert_eq!(list.get(0), Some(&10));
    assert_eq!(list.get(2), Some(&30));
    assert_eq!(list.get(3), None);
}

#[test]
fn empty_list() {
    let list: SequencedList<i32> = SequencedList::new();
    assert!(list.is_empty());
    assert_eq!(list.len(), 0);
    assert_eq!(list.front(), None);
    assert_eq!(list.back(), None);
    assert_eq!(list.get(0), None);
    assert_eq!(forward(&list), Vec::<i32>::new());
}

#[test]
fn list_clear_empties() {
    let mut list = SequencedList::new();
    list.push_back(1);
    list.push_front(2);
    list.clear();
    assert!(list.is_empty());
    assert_eq!(forward(&list), Vec::<i32>::new());
    list.push_back(5);
    assert_eq!(forward(&list), vec![5]);
}

#[test]
fn append_moves_everything() {
    let mut a = SequencedList::new();
    let mut b = SequencedList::new();
    a.push_back(1);
    a.push_back(2);
    b.push_back(3);
    b.push_back(4);
    a.append(&mut b);
    assert_eq!(forward(&a), vec![1, 2, 3, 4]);
    assert_eq!(a.len(), 4);
    assert_eq!(a.back(), Some(&4));
    assert!(b.is_empty());
    assert_eq!(forward(&b), Vec::<i32>::new());
    b.push_back(9);
    assert_eq!(forward(&b), vec![9]);
}

#[test]
fn append_onto_empty() {
    let mut a = SequencedList::new();
    let mut b = SequencedList::new();
    b.push_back(7);
    b.push_back(8);
    a.append(&mut b);
    assert_eq!(forward(&a), vec![7, 8]);
    assert_eq!(a.front(), Some(&7));
    assert!(b.is_empty());
}

#[test]
fn iterate_from_both_ends_meets_in_middle() {
    let mut list = SequencedList::new();
    for v in 1..=5 {
        list.push_back(v);
    }
    let mut it = list.iter();
    assert_eq!(it.next(), Some(&1));
    assert_eq!(it.next_back(), Some(&5));
    assert_eq!(it.next(), Some(&2));
    assert_eq!(it.next_back(), Some(&4));
    assert_eq!(it.next(), Some(&3));
    assert_eq!(it.next(), None);
    assert_eq!(it.next_back(), None);
}
