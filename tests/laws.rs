use btree::{BTree, KeyVal, Node};

#[test]
fn empty_tree_has_one_level() {
    let btree = BTree::<u64, 2>::new();
    assert_eq!(1, btree.level());
    assert_eq!(0, btree.size());
    assert_eq!(None, btree.get(&0));
}

#[test]
fn put_twice_returns_first_value() {
    let mut btree = BTree::<u64, 2>::new();
    assert_eq!(None, btree.put(7, 70));
    assert_eq!(Some(70), btree.put(7, 71));
    assert_eq!(Some(71), btree.get(&7));
    assert_eq!(1, btree.size());
}

#[test]
fn delete_absent_key_changes_nothing() {
    let mut btree = BTree::<u64, 2>::new();
    for i in 0..10u64 {
        btree.put(i * 2, i);
    }
    assert_eq!(None, btree.delete(&5));
    assert_eq!(10, btree.size());
    assert_eq!(Some(3), btree.delete(&6));
    assert_eq!(9, btree.size());
}

#[test]
fn delete_twice_returns_value_once() {
    let mut btree = BTree::<u64, 1>::new();
    for i in 0..20u64 {
        btree.put(i, i + 100);
    }
    assert_eq!(Some(105), btree.delete(&5));
    assert_eq!(None, btree.delete(&5));
    assert_eq!(19, btree.size());
    assert_eq!(None, btree.get(&5));
}

#[test]
fn size_counts_distinct_keys() {
    let mut btree = BTree::<u64, 2>::new();
    for i in 0..50u64 {
        btree.put(i % 17, i);
    }
    assert_eq!(17, btree.size());
    for i in 0..5u64 {
        btree.delete(&i);
    }
    assert_eq!(12, btree.size());
    for i in 0..5u64 {
        btree.delete(&i);
    }
    assert_eq!(12, btree.size());
}

#[test]
fn extreme_keys_are_stored() {
    let mut btree = BTree::<u64, 1>::new();
    btree.put(u64::MAX, 1);
    btree.put(0, 2);
    btree.put(u64::MAX - 1, 3);
    assert_eq!(Some(1), btree.get(&u64::MAX));
    assert_eq!(Some(2), btree.get(&0));
    assert_eq!(Some(3), btree.get(&(u64::MAX - 1)));
    assert_eq!(2, btree.level());
}

#[test]
fn order_one_grows_and_shrinks() {
    let mut btree = BTree::<u64, 1>::new();
    for i in 0..31u64 {
        btree.put(i, i);
    }
    assert_eq!(31, btree.size());
    assert!(btree.level() >= 4);
    for i in 0..31u64 {
        assert_eq!(Some(i), btree.delete(&i));
    }
    assert_eq!(0, btree.size());
    assert_eq!(1, btree.level());
    assert!(btree.root().is_leaf);
}

#[test]
fn from_root_accepts_a_valid_root() {
    let root = Node {
        is_leaf: false,
        keys: vec![KeyVal { key: 10, value: 100u64 }],
        pivots: vec![
            Node { is_leaf: true, keys: vec![KeyVal { key: 1, value: 1 }, KeyVal { key: 2, value: 2 }], pivots: vec![] },
            Node { is_leaf: true, keys: vec![KeyVal { key: 11, value: 11 }, KeyVal { key: 12, value: 12 }], pivots: vec![] },
        ],
    };
    let t = BTree::<u64, 2>::from_root(root).expect("valid root");
    assert_eq!(5, t.size());
    assert_eq!(2, t.level());
    assert_eq!(Some(100), t.get(&10));
    assert_eq!(Some(12), t.get(&12));
    assert!(t.check());
}

#[test]
fn from_root_rejects_unsorted_entries() {
    let root = Node {
        is_leaf: true,
        keys: vec![KeyVal { key: 2, value: 0u64 }, KeyVal { key: 1, value: 0 }],
        pivots: vec![],
    };
    assert!(BTree::<u64, 2>::from_root(root).is_none());
}

#[test]
fn from_root_rejects_underfull_child() {
    let root = Node {
        is_leaf: false,
        keys: vec![KeyVal { key: 10, value: 0u64 }],
        pivots: vec![
            Node { is_leaf: true, keys: vec![KeyVal { key: 1, value: 0 }], pivots: vec![] },
            Node { is_leaf: true, keys: vec![KeyVal { key: 11, value: 0 }, KeyVal { key: 12, value: 0 }], pivots: vec![] },
        ],
    };
    assert!(BTree::<u64, 2>::from_root(root).is_none());
}

#[test]
fn from_root_rejects_separator_out_of_order() {
    let root = Node {
        is_leaf: false,
        keys: vec![KeyVal { key: 10, value: 0u64 }],
        pivots: vec![
            Node { is_leaf: true, keys: vec![KeyVal { key: 1, value: 0 }, KeyVal { key: 15, value: 0 }], pivots: vec![] },
            Node { is_leaf: true, keys: vec![KeyVal { key: 11, value: 0 }, KeyVal { key: 12, value: 0 }], pivots: vec![] },
        ],
    };
    assert!(BTree::<u64, 2>::from_root(root).is_none());
}

#[test]
fn scenario_order_two_first_split() {
    let mut btree = BTree::<u64, 2>::new();
    for i in 0..4u64 {
        btree.put(i, i);
    }
    assert!(btree.root().is_leaf);
    assert_eq!(4, btree.root().keys.len());
    assert_eq!(1, btree.level());
    btree.put(4, 4);
    assert_eq!(2, btree.level());
    assert_eq!(1, btree.root().keys.len());
    assert_eq!(2, btree.root().keys[0].key);
    let left: Vec<u64> = btree.root().pivots[0].keys.iter().map(|kv| kv.key).collect();
    let right: Vec<u64> = btree.root().pivots[1].keys.iter().map(|kv| kv.key).collect();
    assert_eq!(vec![0, 1], left);
    assert_eq!(vec![3, 4], right);
}

#[test]
fn existing_key_leaves_shape_alone() {
    let mut btree = BTree::<u64, 2>::new();
    for i in 0..17u64 {
        btree.put(i, i);
    }
    let level = btree.level();
    let root_keys: Vec<u64> = btree.root().keys.iter().map(|kv| kv.key).collect();
    assert_eq!(Some(8), btree.put(8, 80));
    assert_eq!(level, btree.level());
    let after: Vec<u64> = btree.root().keys.iter().map(|kv| kv.key).collect();
    assert_eq!(root_keys, after);
    assert_eq!(Some(80), btree.get(&8));
}

#[test]
fn large_order_stays_one_leaf() {
    let mut btree = BTree::<u64, 1000>::new();
    for i in 0..2000u64 {
        btree.put(i, i);
    }
    assert_eq!(1, btree.level());
    btree.put(2000, 2000);
    assert_eq!(2, btree.level());
    assert_eq!(1000, btree.root().keys[0].key);
}
