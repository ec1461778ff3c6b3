use binary_tree::Tree;

#[test]
fn size_counts_every_insertion() {
    let mut t: Tree<i32> = Tree::new();
    let items: [i32; 8] = [4, 2, 7, 2, 4, 9, 0, -3];
    let mut k: usize = 0;
    for i in items.iter() {
        assert_eq!(t.size(), k);
        t.add(*i);
        k += 1;
        assert_eq!(t.size(), k);
    }
    assert_eq!(t.size(), items.len());
}

#[test]
fn contains_after_each_add_and_later() {
    let mut t: Tree<i32> = Tree::new();
    let items: [i32; 6] = [8, 3, 10, 1, 6, 14];
    for i in items.iter() {
        t.add(*i);
        assert!(t.contains(i));
    }
    for i in items.iter() {
        assert!(t.contains(i));
    }
}

#[test]
fn contains_rejects_absent_values() {
    let mut t: Tree<i32> = Tree::new();
    let absent: i32 = 7;
    assert!(!t.contains(&absent));
    let items: [i32; 7] = [1, 2, 5, 3, 6, 4, 9];
    for i in items.iter() {
        t.add(*i);
    }
    assert!(!t.contains(&7));
    assert!(!t.contains(&-1));
    assert!(!t.contains(&100));
    assert!(!t.contains(&0));
}

#[test]
fn scenario_from_sorted_insertion() {
    let mut t: Tree<i32> = Tree::new();
    let items: [i32; 7] = [1, 2, 5, 3, 6, 4, 9];
    for i in items.iter() {
        t.add(*i);
    }
    assert_eq!(t.size(), 7);
    assert!(t.contains(&4));
    assert!(!t.contains(&7));
    let mut yielded: Vec<i32> = Vec::new();
    let mut it = t.in_order_iter();
    while let Some(v) = it.next() {
        yielded.push(v);
    }
    assert_eq!(yielded, vec![1, 2, 3, 4, 5, 6, 9]);
}

#[test]
fn in_order_iter_is_sorted_and_exhaustive() {
    let mut t: Tree<i32> = Tree::new();
    let items: [i32; 9] = [12, -4, 12, 0, 7, 7, 3, -4, 20];
    for i in items.iter() {
        t.add(*i);
    }
    let mut yielded: Vec<i32> = Vec::new();
    let mut it = t.in_order_iter();
    while let Some(v) = it.next() {
        yielded.push(v);
    }
    assert_eq!(yielded.len(), t.size());
    for w in yielded.windows(2) {
        assert!(w[0] <= w[1]);
    }
    assert_eq!(yielded, vec![-4, -4, 0, 3, 7, 7, 12, 12, 20]);
}

#[test]
fn pre_order_iter_visits_every_value_once() {
    let mut t: Tree<i32> = Tree::new();
    let items: [i32; 7] = [5, 1, 3, 4, 6, 2, 9];
    for i in items.iter() {
        t.add(*i);
    }
    let mut yielded: Vec<i32> = Vec::new();
    let mut it = t.pre_order_iter();
    while let Some(v) = it.next() {
        yielded.push(v);
    }
    assert_eq!(yielded.len(), t.size());
    let mut sorted_yield: Vec<i32> = yielded.clone();
    sorted_yield.sort();
    let mut sorted_items: Vec<i32> = items.to_vec();
    sorted_items.sort();
    assert_eq!(sorted_yield, sorted_items);
}

#[test]
fn empty_tree_iterators_yield_nothing() {
    let t: Tree<i32> = Tree::new();
    let mut in_it = t.in_order_iter();
    assert_eq!(in_it.next(), None);
    assert_eq!(in_it.next(), None);
    let mut pre_it = t.pre_order_iter();
    assert_eq!(pre_it.next(), None);
    assert_eq!(pre_it.next(), None);
}

#[test]
fn exhausted_iterator_stays_exhausted() {
    let mut t: Tree<i32> = Tree::new();
    t.add(2);
    t.add(1);
    t.add(3);
    let mut it = t.in_order_iter();
    assert_eq!(it.next(), Some(1));
    assert_eq!(it.next(), Some(2));
    assert_eq!(it.next(), Some(3));
    assert_eq!(it.next(), None);
    assert_eq!(it.next(), None);
}

#[test]
fn iteration_leaves_the_tree_unchanged() {
    let mut t: Tree<i32> = Tree::new();
    let items: [i32; 5] = [4, 8, 2, 6, 0];
    for i in items.iter() {
        t.add(*i);
    }
    let size_before: usize = t.size();
    let mut it = t.in_order_iter();
    while let Some(_) = it.next() {}
    let mut pre_it = t.pre_order_iter();
    while let Some(_) = pre_it.next() {}
    assert_eq!(t.size(), size_before);
    for i in items.iter() {
        assert!(t.contains(i));
    }
    assert!(!t.contains(&5));
}

#[test]
fn repeated_queries_agree() {
    let mut t: Tree<i32> = Tree::new();
    t.add(3);
    t.add(-2);
    assert_eq!(t.size(), t.size());
    assert_eq!(t.size(), 2);
    assert_eq!(t.contains(&3), t.contains(&3));
    assert!(t.contains(&3));
    assert_eq!(t.contains(&5), t.contains(&5));
    assert!(!t.contains(&5));
}

#[test]
fn duplicates_are_kept() {
    let mut t: Tree<i32> = Tree::new();
    t.add(5);
    t.add(5);
    t.add(3);
    assert_eq!(t.size(), 3);
    assert!(t.contains(&5));
    assert!(t.contains(&3));
    let mut yielded: Vec<i32> = Vec::new();
    let mut it = t.in_order_iter();
    while let Some(v) = it.next() {
        yielded.push(v);
    }
    assert_eq!(yielded, vec![3, 5, 5]);
}

#[test]
fn preorder_on_known_shape() {
    let mut t: Tree<i32> = Tree::new();
    for i in [4, 2, 6, 1, 3, 5, 7].iter() {
        t.add(*i);
    }
    let mut yielded: Vec<i32> = Vec::new();
    let mut it = t.pre_order_iter();
    while let Some(v) = it.next() {
        yielded.push(v);
    }
    assert_eq!(yielded, vec![4, 2, 1, 3, 6, 5, 7]);
}

#[test]
fn u64_tree_works() {
    let mut t: Tree<u64> = Tree::new();
    for i in [10u64, 0, 25, 10].iter() {
        t.add(*i);
    }
    assert_eq!(t.size(), 4);
    assert!(t.contains(&25));
    assert!(!t.contains(&11));
    let mut yielded: Vec<u64> = Vec::new();
    let mut it = t.in_order_iter();
    while let Some(v) = it.next() {
        yielded.push(v);
    }
    assert_eq!(yielded, vec![0, 10, 10, 25]);
}

#[test]
fn i64_tree_works() {
    let mut t: Tree<i64> = Tree::new();
    for i in [-5i64, 9, -40, 3].iter() {
        t.add(*i);
    }
    assert_eq!(t.size(), 4);
    assert!(t.contains(&-40));
    assert!(!t.contains(&0));
    let mut yielded: Vec<i64> = Vec::new();
    let mut it = t.in_order_iter();
    while let Some(v) = it.next() {
        yielded.push(v);
    }
    assert_eq!(yielded, vec![-40, -5, 3, 9]);
}

#[test]
fn root_of_singleton_tree() {
    let mut t: Tree<i32> = Tree::new();
    t.add(42);
    let root = t.root();
    assert!(root.is_some());
    assert_eq!(*root.unwrap().item(), 42);
}
