use structures::rbtree::{Color, Rbtree};
use structures::InsertError;

fn keys(tree: &Rbtree<i32>) -> Vec<i32> {
    let mut it = tree.iter();
    let mut out = Vec::new();
    while let Some(k) = it.next() {
        out.push(*k);
    }
    out
}

fn shuffled(n: i32, seed: u64) -> Vec<i32> {
    let mut v: Vec<i32> = (0..n).collect();
    let mut state = seed;
    for i in (1..v.len()).rev() {
        state = state.wrapping_mul(6364136223846793005).wrapping_add(1442695040888963407);
        let j = ((state >> 33) as usize) % (i + 1);
        v.swap(i, j);
    }
    v
}

#[test]
fn small_insertion_order() {
    let mut tree = Rbtree::new();
    for k in [5, 2, 8, 1, 3] {
        assert_eq!(tree.insert(k), Ok(()));
    }
    assert_eq!(keys(&tree), vec![1, 2, 3, 5, 8]);
    assert_eq!(tree.len(), 5);
    assert_eq!(tree.root_color(), Color::Black);
}

#[test]
fn ascending_insertions_stay_shallow() {
    let mut tree = Rbtree::new();
    for k in 1..=100 {
        assert_eq!(tree.insert(k), Ok(()));
        assert_eq!(tree.root_color(), Color::Black);
    }
    assert_eq!(tree.len(), 100);
    assert_eq!(keys(&tree), (1..=100).collect::<Vec<i32>>());
    let bound = 2.0 * (101f64).log2();
    assert!((tree.height() as f64) <= bound);
    assert!(tree.height() >= 7);
}

#[test]
fn duplicate_is_refused() {
    let mut tree = Rbtree::new();
    assert_eq!(tree.insert(10), Ok(()));
    assert_eq!(tree.insert(10), Err(InsertError::DuplicateKey));
    assert_eq!(tree.len(), 1);
    assert_eq!(keys(&tree), vec![10]);
}

#[test]
fn duplicate_leaves_tree_unchanged() {
    let mut tree = Rbtree::new();
    for k in shuffled(30, 7) {
        tree.insert(k).unwrap();
    }
    let before: Vec<(usize, Color, i32)> = tree.layout().into_iter().map(|(d, c, k)| (d, c, *k)).collect();
    assert_eq!(tree.insert(17), Err(InsertError::DuplicateKey));
    let after: Vec<(usize, Color, i32)> = tree.layout().into_iter().map(|(d, c, k)| (d, c, *k)).collect();
    assert_eq!(before, after);
    assert_eq!(tree.len(), 30);
    assert_eq!(keys(&tree), (0..30).collect::<Vec<i32>>());
}

#[test]
fn shuffled_insertions_iterate_in_order() {
    for seed in 1..6u64 {
        let mut tree = Rbtree::new();
        let order = shuffled(200, seed);
        for &k in &order {
            assert_eq!(tree.insert(k), Ok(()));
        }
        assert_eq!(tree.len(), 200);
        assert_eq!(keys(&tree), (0..200).collect::<Vec<i32>>());
        assert!((tree.height() as f64) <= 2.0 * (201f64).log2());
    }
}

#[test]
fn repeated_keys_counted_once() {
    let mut tree = Rbtree::new();
    for k in [4, 4, 9, 1, 9, 4, 1] {
        let _ = tree.insert(k);
    }
    assert_eq!(tree.len(), 3);
    assert_eq!(keys(&tree), vec![1, 4, 9]);
}

#[test]
fn empty_tree() {
    let tree: Rbtree<i32> = Rbtree::new();
    assert_eq!(tree.len(), 0);
    assert_eq!(keys(&tree), Vec::<i32>::new());
    assert_eq!(tree.root_color(), Color::Black);
    assert_eq!(tree.height(), 0);
    assert!(tree.layout().is_empty());
}

#[test]
fn layout_lists_root_first() {
    let mut tree = Rbtree::new();
    for k in [1, 2, 3] {
        tree.insert(k).unwrap();
    }
    let layout: Vec<(usize, Color, i32)> = tree.layout().into_iter().map(|(d, c, k)| (d, c, *k)).collect();
    assert_eq!(layout, vec![(0, Color::Black, 2), (1, Color::Red, 1), (1, Color::Red, 3)]);
}

#[test]
fn rebalancing_keeps_red_black_rules() {
    let mut tree = Rbtree::new();
    for k in shuffled(64, 3) {
        tree.insert(k).unwrap();
        let layout: Vec<(usize, Color, i32)> = tree.layout().into_iter().map(|(d, c, k)| (d, c, *k)).collect();
        // a red node is never followed, one level deeper, by a red child
        for i in 0..layout.len() {
            if layout[i].1 == Color::Red {
                let depth = layout[i].0;
                let mut j = i + 1;
                while j < layout.len() && layout[j].0 > depth {
                    if layout[j].0 == depth + 1 {
                        assert_eq!(layout[j].1, Color::Black);
                    }
                    j += 1;
                }
            }
        }
    }
}

/// Black nodes from the root down to each empty subtree, read off the layout.
fn black_counts_to_empty_subtrees(layout: &[(usize, Color, i32)]) -> Vec<usize> {
    let mut stack: Vec<(usize, usize)> = Vec::new();
    let mut counts = Vec::new();
    for i in 0..layout.len() {
        let (depth, color, _) = layout[i];
        while stack.last().map_or(false, |&(d, _)| d >= depth) {
            stack.pop();
        }
        let above = stack.last().map_or(0, |&(_, b)| b);
        let blacks = above + if color == Color::Black { 1 } else { 0 };
        stack.push((depth, blacks));
        let mut children = 0;
        let mut j = i + 1;
        while j < layout.len() && layout[j].0 > depth {
            if layout[j].0 == depth + 1 {
                children += 1;
            }
            j += 1;
        }
        for _ in children..2 {
            counts.push(blacks);
        }
    }
    counts
}

#[test]
fn every_path_meets_as_many_black_nodes() {
    let mut tree = Rbtree::new();
    for k in shuffled(80, 5) {
        tree.insert(k).unwrap();
        let layout: Vec<(usize, Color, i32)> = tree.layout().into_iter().map(|(d, c, k)| (d, c, *k)).collect();
        let counts = black_counts_to_empty_subtrees(&layout);
        assert_eq!(counts.len(), layout.len() + 1);
        assert!(counts.iter().all(|&c| c == counts[0]));
    }
}
