use avl::AVLTree;

fn collect_iter(tree: &AVLTree) -> Vec<usize> {
    let mut out: Vec<usize> = Vec::new();
    let mut it = tree.iter();
    while let Some(v) = it.next() {
        out.push(*v);
    }
    out
}

fn collect_into_iter(tree: AVLTree) -> Vec<usize> {
    let mut out: Vec<usize> = Vec::new();
    let mut it = tree.into_iter();
    while let Some(v) = it.next() {
        out.push(v);
    }
    out
}

#[test]
fn rotate_right() {
    let mut tree = AVLTree::Empty;
    tree.add(3usize);
    tree.add(4usize);
    tree.add(1usize);
    tree.add(2usize);
    tree.add(0usize);
    assert_eq!(tree.left().value().unwrap(), &1);
    assert_eq!(tree.left().left().value().unwrap(), &0);
    tree.rotate_right();
    assert_eq!(tree.value().unwrap(), &1);
    assert_eq!(tree.left().value().unwrap(), &0);
    assert_eq!(tree.right().value().unwrap(), &3);
    assert_eq!(tree.right().left().value().unwrap(), &2);
}

#[test]
fn rotate_left() {
    let mut tree = AVLTree::Empty;
    tree.add(3usize);
    tree.add(1usize);
    tree.add(10usize);
    tree.add(8usize);
    tree.add(13usize);
    tree.rotate_left();
    assert_eq!(tree.value().unwrap(), &10);
    assert_eq!(tree.left().value().unwrap(), &3);
    assert_eq!(tree.left().right().value().unwrap(), &8);
}

#[test]
fn empty_tree() {
    let tree = AVLTree::default();
    assert!(tree.is_empty());
    assert_eq!(tree.len(), 0);
    assert_eq!(tree.depth(), 0);
    assert_eq!(tree.get(&7), None);
    let mut it = tree.iter();
    assert_eq!(it.next(), None);
}

#[test]
fn insert_reports_new_values() {
    let mut tree = AVLTree::Empty;
    assert!(tree.insert(5));
    assert!(tree.insert(2));
    assert!(tree.insert(9));
    assert!(!tree.insert(5));
    assert!(!tree.insert(9));
    assert_eq!(tree.len(), 3);
    assert!(!tree.is_empty());
}

#[test]
fn len_counts_distinct_values() {
    let tree = AVLTree::from_iter(vec![4, 1, 4, 4, 2, 1, 8, 2, 0]);
    assert_eq!(tree.len(), 5);
}

#[test]
fn iter_is_sorted() {
    let input = vec![41usize, 7, 19, 3, 28, 7, 100, 0, 55, 19];
    let tree = AVLTree::from_iter(input.clone());
    let mut sorted = input.clone();
    sorted.sort();
    sorted.dedup();
    assert_eq!(collect_iter(&tree), sorted);
}

#[test]
fn into_iter_is_sorted_and_matches_iter() {
    let input = vec![12usize, 5, 33, 5, 0, 33, 97, 41];
    let tree = AVLTree::from_iter(input.clone());
    let borrowed = collect_iter(&tree);
    let owned = collect_into_iter(tree);
    let mut sorted = input;
    sorted.sort();
    sorted.dedup();
    assert_eq!(owned, sorted);
    assert_eq!(borrowed, sorted);
}

#[test]
fn into_iter_stays_exhausted() {
    let tree = AVLTree::from_iter(vec![2usize, 1]);
    let mut it = tree.into_iter();
    assert_eq!(it.next(), Some(1));
    assert_eq!(it.next(), Some(2));
    assert_eq!(it.next(), None);
    assert_eq!(it.next(), None);
}

#[test]
fn no_adjacent_duplicates() {
    let tree = AVLTree::from_iter(vec![6usize, 6, 6, 3, 3, 9, 9, 9, 9]);
    let values = collect_iter(&tree);
    for i in 1..values.len() {
        assert_ne!(values[i - 1], values[i]);
    }
    assert_eq!(values, vec![3, 6, 9]);
}

#[test]
fn get_and_index_agree() {
    let members = vec![10usize, 4, 17, 2, 8, 13, 30];
    let tree = AVLTree::from_iter(members.clone());
    for m in &members {
        assert_eq!(tree.get(m), Some(m));
        assert_eq!(tree.index(m), m);
    }
    for absent in [0usize, 3, 9, 11, 31, 1000] {
        assert_eq!(tree.get(&absent), None);
    }
}

#[test]
fn range_half_open() {
    let input = vec![1usize, 3, 5, 7, 9, 11, 13];
    let tree = AVLTree::from_iter(input.clone());
    let (l, r) = (3usize, 11usize);
    let mut got: Vec<usize> = Vec::new();
    let mut it = tree.range(Some(&l), Some(&r));
    while let Some(v) = it.next() {
        got.push(*v);
    }
    let expect: Vec<usize> = input.iter().copied().filter(|&x| l <= x && x < r).collect();
    assert_eq!(got, expect);
    assert_eq!(got, vec![3, 5, 7, 9]);
}

#[test]
fn range_unbounded_sides() {
    let tree = AVLTree::from_iter(vec![2usize, 4, 6, 8]);
    let b = 5usize;
    let mut low: Vec<usize> = Vec::new();
    let mut it = tree.range(None, Some(&b));
    while let Some(v) = it.next() {
        low.push(*v);
    }
    assert_eq!(low, vec![2, 4]);
    let mut high: Vec<usize> = Vec::new();
    let mut it = tree.range(Some(&b), None);
    while let Some(v) = it.next() {
        high.push(*v);
    }
    assert_eq!(high, vec![6, 8]);
}

#[test]
fn range_empty_when_bounds_equal() {
    let tree = AVLTree::from_iter(vec![1usize, 2, 3]);
    let b = 2usize;
    let mut it = tree.range(Some(&b), Some(&b));
    assert_eq!(it.next(), None);
}

#[test]
fn height_stays_balanced() {
    for n in [1usize, 2, 3, 7, 20, 63, 100, 200] {
        let mut tree = AVLTree::Empty;
        for v in 0..n {
            tree.insert(v);
        }
        assert_eq!(tree.len(), n);
        let h = tree.depth() as f64 - 1.0;
        let low = ((n + 1) as f64).log2() - 1.0;
        let high = 1.45 * ((n + 2) as f64).log2() - 1.32;
        assert!(low <= h && h < high);
    }
}
