use binary_tree::Tree;

#[test]
fn test_new() {
    let t: Tree<i32> = Tree::new();
    assert_eq!(t.size(), 0);
    assert!(t.root().is_none());
}

#[test]
fn test_add_once() {
    let mut t: Tree<i32> = Tree::new();
    let item: i32 = 0;
    t.add(item);
    assert_eq!(t.size(), 1);
    assert_eq!(*t.root().unwrap().item(), item);
}

#[test]
fn test_add() {
    let mut t: Tree<i32> = Tree::new();
    let items: [i32; 7] = [1, 2, 5, 3, 6, 4, 9];
    for i in items.iter() {
        t.add(*i);
    }
    for i in items.iter() {
        println!("{:?}", i);
        assert!(t.contains(i));
    }
    assert_eq!(t.size(), items.len());
}

#[test]
fn test_in_order_iter() {
    let mut t: Tree<i32> = Tree::new();
    let items: Vec<i32> = vec![5, 1, 3, 4, 6, 2, 9];
    for i in items.iter() {
        t.add(*i);
    }

    let mut iter_result: Vec<i32> = Vec::new();
    let mut it = t.pre_order_iter();
    while let Some(v) = it.next() {
        iter_result.push(v);
    }

    assert_eq!(iter_result, vec![5, 1, 3, 2, 4, 6, 9]);
}

#[test]
fn test_left_iter() {
    let mut t: Tree<i32> = Tree::new();
    let items: Vec<i32> = vec![5, 1, 3, 4, 6, 2, 9];
    for i in items.iter() {
        t.add(*i);
    }

    let mut iter_result: Vec<i32> = Vec::new();
    let mut it = t.in_order_iter();
    while let Some(v) = it.next() {
        iter_result.push(v);
    }

    assert_eq!(iter_result, vec![1, 2, 3, 4, 5, 6, 9]);
}
