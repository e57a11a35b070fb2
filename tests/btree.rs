use structures::btree::Btree;
use structures::InsertError;

fn keys(tree: &Btree<i32>) -> Vec<i32> {
    let mut it = tree.iter();
    let mut out = Vec::new();
    while let Some(k) = it.next() {
        out.push(*k);
    }
    out
}

#[test]
fn keys_come_out_sorted() {
    let mut tree = Btree::new();
    for k in [5, 2, 8, 1, 3] {
        assert_eq!(tree.insert(k), Ok(()));
    }
    assert_eq!(keys(&tree), vec![1, 2, 3, 5, 8]);
    assert_eq!(tree.len(), 5);
}

#[test]
fn splits_keep_every_key() {
    let mut tree = Btree::new();
    for k in (0..500).map(|i| (i * 263) % 500) {
        assert_eq!(tree.insert(k), Ok(()));
    }
    assert_eq!(tree.len(), 500);
    assert_eq!(keys(&tree), (0..500).collect::<Vec<i32>>());
}

#[test]
fn ascending_and_descending_insertions() {
    let mut up = Btree::new();
    let mut down = Btree::new();
    for k in 0..100 {
        up.insert(k).unwrap();
        down.insert(99 - k).unwrap();
    }
    assert_eq!(keys(&up), (0..100).collect::<Vec<i32>>());
    assert_eq!(keys(&down), (0..100).collect::<Vec<i32>>());
}

#[test]
fn btree_duplicate_is_refused() {
    let mut tree = Btree::new();
    for k in 0..20 {
        tree.insert(k).unwrap();
    }
    assert_eq!(tree.insert(7), Err(InsertError::DuplicateKey));
    assert_eq!(tree.insert(0), Err(InsertError::DuplicateKey));
    assert_eq!(tree.insert(19), Err(InsertError::DuplicateKey));
    assert_eq!(tree.len(), 20);
    assert_eq!(keys(&tree), (0..20).collect::<Vec<i32>>());
}

#[test]
fn iterate_from_both_ends() {
    let mut tree = Btree::new();
    for k in [4, 1, 3, 2] {
        tree.insert(k).unwrap();
    }
    let mut it = tree.iter();
    assert_eq!(it.next_back(), Some(&4));
    assert_eq!(it.next(), Some(&1));
    assert_eq!(it.next_back(), Some(&3));
    assert_eq!(it.next(), Some(&2));
    assert_eq!(it.next(), None);
    assert_eq!(it.next_back(), None);
}

#[test]
fn empty_btree() {
    let tree: Btree<i32> = Btree::new();
    assert_eq!(tree.len(), 0);
    assert_eq!(keys(&tree), Vec::<i32>::new());
}

#[test]
fn layout_shows_split_root() {
    let mut tree = Btree::new();
    for k in 1..=7 {
        tree.insert(k).unwrap();
    }
    let layout: Vec<(usize, Vec<i32>)> = tree.layout().into_iter().map(|(d, ks)| (d, ks.clone())).collect();
    assert_eq!(layout, vec![(0, vec![4]), (1, vec![1, 2, 3]), (1, vec![5, 6, 7])]);
}

#[test]
fn leaves_share_one_depth_and_nodes_stay_half_full() {
    let mut tree = Btree::new();
    for k in (0..400).map(|i| (i * 151) % 400) {
        tree.insert(k).unwrap();
    }
    let layout: Vec<(usize, Vec<i32>)> = tree.layout().into_iter().map(|(d, ks)| (d, ks.clone())).collect();
    let deepest = layout.iter().map(|(d, _)| *d).max().unwrap();
    assert!(deepest >= 2);
    for i in 0..layout.len() {
        let (depth, ks) = &layout[i];
        assert!(ks.len() <= 6);
        if *depth > 0 {
            assert!(ks.len() >= 3);
        }
        let is_leaf = i + 1 == layout.len() || layout[i + 1].0 <= *depth;
        if is_leaf {
            assert_eq!(*depth, deepest);
        }
    }
    let total: usize = layout.iter().map(|(_, ks)| ks.len()).sum();
    assert_eq!(total, 400);
}
