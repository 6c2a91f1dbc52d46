use containers::binary_search_tree::BinarySearchTree;

#[test]
fn iter() {
    let mut tree = BinarySearchTree::new();

    tree.insert(1);
    tree.insert(45);
    tree.insert(13);
    tree.insert(0);

    let mut iter = tree.iter();
    assert_eq!(iter.next(), Some(&0));
    assert_eq!(iter.next(), Some(&1));
    assert_eq!(iter.next(), Some(&13));
    assert_eq!(iter.next(), Some(&45));
    assert_eq!(iter.next(), None);
    assert_eq!(iter.next(), None);
}

#[test]
fn into_iter() {
    let mut tree = BinarySearchTree::new();

    tree.insert(1);
    tree.insert(45);
    tree.insert(13);
    tree.insert(0);

    let mut iter = tree.into_iter();
    assert_eq!(iter.next(), Some(0));
    assert_eq!(iter.next(), Some(1));
    assert_eq!(iter.next(), Some(13));
    assert_eq!(iter.next(), Some(45));
    assert_eq!(iter.next(), None);
    assert_eq!(iter.next(), None);
}

#[test]
fn floor() {
    let mut tree = BinarySearchTree::new();

    tree.insert(1);
    tree.insert(45);
    tree.insert(13);
    tree.insert(0);

    assert_eq!(tree.floor(&1), Some(&0));
    assert_eq!(tree.floor(&5), Some(&1));
    assert_eq!(tree.floor(&100), Some(&45));
    assert_eq!(tree.floor(&20), Some(&13));
    assert_eq!(tree.floor(&0), None);

    let mut tree = BinarySearchTree::new();

    tree.insert(13);
    tree.insert(45);
    tree.insert(50);
    tree.insert(36);
    tree.insert(5);
    tree.insert(1);
    tree.insert(0);
    tree.insert(8);

    assert_eq!(tree.floor(&13), Some(&8));
    assert_eq!(tree.floor(&100), Some(&50));
    assert_eq!(tree.floor(&46), Some(&45));
    assert_eq!(tree.floor(&50), Some(&45));
    assert_eq!(tree.floor(&45), Some(&36));
    assert_eq!(tree.floor(&40), Some(&36));
    assert_eq!(tree.floor(&6), Some(&5));
    assert_eq!(tree.floor(&5), Some(&1));
    assert_eq!(tree.floor(&3), Some(&1));
    assert_eq!(tree.floor(&1), Some(&0));
    assert_eq!(tree.floor(&10), Some(&8));
}

#[test]
fn ceil() {
    let mut tree = BinarySearchTree::new();

    tree.insert(1);
    tree.insert(45);
    tree.insert(13);
    tree.insert(0);

    assert_eq!(tree.ceil(&1), Some(&13));
    assert_eq!(tree.ceil(&5), Some(&13));
    assert_eq!(tree.ceil(&100), None);
    assert_eq!(tree.ceil(&20), Some(&45));
    assert_eq!(tree.ceil(&0), Some(&1));

    let mut tree = BinarySearchTree::new();

    tree.insert(13);
    tree.insert(45);
    tree.insert(50);
    tree.insert(36);
    tree.insert(5);
    tree.insert(1);
    tree.insert(0);
    tree.insert(8);

    assert_eq!(tree.ceil(&13), Some(&36));
    assert_eq!(tree.ceil(&100), None);
    assert_eq!(tree.ceil(&46), Some(&50));
    assert_eq!(tree.ceil(&50), None);
    assert_eq!(tree.ceil(&45), Some(&50));
    assert_eq!(tree.ceil(&40), Some(&45));
    assert_eq!(tree.ceil(&6), Some(&8));
    assert_eq!(tree.ceil(&5), Some(&8));
    assert_eq!(tree.ceil(&3), Some(&5));
    assert_eq!(tree.ceil(&1), Some(&5));
    assert_eq!(tree.ceil(&10), Some(&13));
    assert_eq!(tree.ceil(&0), Some(&1));
    assert_eq!(tree.ceil(&-1), Some(&0));
}

#[test]
fn minimum() {
    let mut tree = BinarySearchTree::new();

    tree.insert(1);
    tree.insert(45);
    tree.insert(13);
    tree.insert(0);

    assert_eq!(tree.min(), Some(&0))
}

#[test]
fn minimum_on_empty() {
    let tree: BinarySearchTree<i32> = BinarySearchTree::new();
    assert_eq!(tree.min(), None)
}

#[test]
fn maximum() {
    let mut tree = BinarySearchTree::new();

    tree.insert(1);
    tree.insert(45);
    tree.insert(13);
    tree.insert(0);

    assert_eq!(tree.max(), Some(&45))
}

#[test]
fn maximum_on_empty() {
    let tree: BinarySearchTree<i32> = BinarySearchTree::new();
    assert_eq!(tree.max(), None)
}

#[test]
fn contains_number() {
    let mut tree = BinarySearchTree::new();

    tree.insert(1);
    tree.insert(45);
    tree.insert(13);
    tree.insert(0);
    tree.insert(10);
    tree.insert(7);
    tree.insert(12);
    tree.insert(31);
    tree.insert(37);
    tree.insert(24);
    tree.insert(2);
    tree.insert(27);
    tree.insert(17);
    tree.insert(7);

    assert!(tree.contains(&1));
    assert!(tree.contains(&12));
    assert!(tree.contains(&0));
    assert!(tree.contains(&7));
    assert!(tree.contains(&31));
    assert!(!tree.contains(&100));
    assert!(!tree.contains(&5));
    assert!(!tree.contains(&9));
    assert!(!tree.contains(&4));
    assert!(!tree.contains(&50));
}

#[test]
fn contains_str() {
    let mut tree = BinarySearchTree::new();

    tree.insert("1");
    tree.insert("45");
    tree.insert("13");
    tree.insert("0");
    tree.insert("10");
    tree.insert("7");
    tree.insert("12");
    tree.insert("31");
    tree.insert("37");
    tree.insert("24");
    tree.insert("2");
    tree.insert("27");
    tree.insert("17");
    tree.insert("7");

    assert!(tree.contains(&"1"));
    assert!(tree.contains(&"12"));
    assert!(tree.contains(&"0"));
    assert!(tree.contains(&"7"));
    assert!(tree.contains(&"31"));
    assert!(!tree.contains(&"100"));
    assert!(!tree.contains(&"5"));
    assert!(!tree.contains(&"9"));
    assert!(!tree.contains(&"4"));
    assert!(!tree.contains(&"50"));
}

#[test]
fn contains_string() {
    let mut tree = BinarySearchTree::new();

    tree.insert("1".to_string());
    tree.insert("45".to_string());
    tree.insert("13".to_string());
    tree.insert("0".to_string());
    tree.insert("10".to_string());
    tree.insert("7".to_string());
    tree.insert("12".to_string());
    tree.insert("31".to_string());
    tree.insert("37".to_string());
    tree.insert("24".to_string());
    tree.insert("2".to_string());
    tree.insert("27".to_string());
    tree.insert("17".to_string());
    tree.insert("7".to_string());

    assert!(tree.contains(&"1".to_string()));
    assert!(tree.contains(&"12".to_string()));
    assert!(tree.contains(&"0".to_string()));
    assert!(tree.contains(&"7".to_string()));
    assert!(tree.contains(&"31".to_string()));
    assert!(!tree.contains(&"100".to_string()));
    assert!(!tree.contains(&"5".to_string()));
    assert!(!tree.contains(&"9".to_string()));
    assert!(!tree.contains(&"4".to_string()));
    assert!(!tree.contains(&"50".to_string()));
}

#[test]
fn duplicates_collapse_in_traversal() {
    let mut tree = BinarySearchTree::new();
    tree.insert(5);
    tree.insert(3);
    tree.insert(5);
    tree.insert(8);
    tree.insert(3);
    tree.insert(1);

    let mut seen = Vec::new();
    {
        let mut it = tree.iter();
        while let Some(x) = it.next() {
            seen.push(*x);
        }
    }
    assert_eq!(seen, vec![1, 3, 5, 8]);

    let mut owned = Vec::new();
    let mut it = tree.into_iter();
    while let Some(x) = it.next() {
        owned.push(x);
    }
    assert_eq!(owned, vec![1, 3, 5, 8]);
}

#[test]
fn iter_is_restartable() {
    let mut tree = BinarySearchTree::new();
    tree.insert(2);
    tree.insert(1);
    tree.insert(3);
    let mut first = tree.iter();
    assert_eq!(first.next(), Some(&1));
    let mut second = tree.iter();
    assert_eq!(second.next(), Some(&1));
    assert_eq!(second.next(), Some(&2));
    assert_eq!(second.next(), Some(&3));
    assert_eq!(second.next(), None);
    assert!(tree.contains(&2));
}

#[test]
fn empty_tree_queries() {
    let tree: BinarySearchTree<i32> = BinarySearchTree::new();
    assert!(!tree.contains(&0));
    assert_eq!(tree.floor(&0), None);
    assert_eq!(tree.ceil(&0), None);
    let mut it = tree.iter();
    assert_eq!(it.next(), None);
}

#[test]
fn single_value_excludes_exact_match() {
    let mut tree = BinarySearchTree::new();
    tree.insert(7);
    tree.insert(7);
    assert_eq!(tree.min(), Some(&7));
    assert_eq!(tree.max(), Some(&7));
    assert_eq!(tree.floor(&7), None);
    assert_eq!(tree.ceil(&7), None);
    assert_eq!(tree.floor(&8), Some(&7));
    assert_eq!(tree.ceil(&6), Some(&7));
    assert!(tree.contains(&7));
    assert!(!tree.contains(&6));
}

#[test]
fn extreme_values() {
    let mut tree = BinarySearchTree::new();
    tree.insert(i64::MAX);
    tree.insert(i64::MIN);
    tree.insert(0);
    assert_eq!(tree.min(), Some(&i64::MIN));
    assert_eq!(tree.max(), Some(&i64::MAX));
    assert_eq!(tree.floor(&i64::MIN), None);
    assert_eq!(tree.ceil(&i64::MAX), None);
    assert_eq!(tree.floor(&i64::MAX), Some(&0));
    assert_eq!(tree.ceil(&i64::MIN), Some(&0));
}

#[test]
fn long_degenerate_tree_is_released() {
    let mut tree = BinarySearchTree::new();
    let mut i: u32 = 0;
    while i < 30_000 {
        tree.insert(i);
        i += 1;
    }
    drop(tree);
}

#[test]
fn long_degenerate_tree_is_consumed_in_order() {
    let mut tree = BinarySearchTree::new();
    let mut i: u32 = 30_000;
    while i > 0 {
        i -= 1;
        tree.insert(i);
    }
    tree.insert(15_000);
    let mut it = tree.into_iter();
    let mut expected: u32 = 0;
    while let Some(x) = it.next() {
        assert_eq!(x, expected);
        expected += 1;
    }
    assert_eq!(expected, 30_000);
}
