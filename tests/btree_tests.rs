use btree::{BTree, Node};
use rand::{RngCore, SeedableRng};
use std::collections::HashMap;

fn validate<V: Copy, const S: usize>(btree: &BTree<V, S>) {
    assert!(btree.check());
    if let Err(msg) = validate_node(btree.root(), S, true, 0, None, None) {
        panic!("validation failed: {msg}");
    }
}

fn validate_node<V: Copy>(
    node: &Node<V>,
    s: usize,
    root: bool,
    depth: usize,
    lo: Option<u64>,
    hi: Option<u64>,
) -> Result<usize, String> {
    let (min, max) = match (root, node.is_leaf) {
        (true, true) => (0, 2 * s),
        (true, false) => (1, 2 * s),
        (false, _) => (s, 2 * s),
    };
    if node.keys.len() < min || node.keys.len() > max {
        return Err(format!("[{depth}] entry count {} not in {min}..={max}", node.keys.len()));
    }
    for i in 1..node.keys.len() {
        if node.keys[i - 1].key >= node.keys[i].key {
            return Err(format!("[{depth}] entries not sorted at {i}"));
        }
    }
    for kv in node.keys.iter() {
        if lo.map_or(false, |l| kv.key <= l) || hi.map_or(false, |h| kv.key >= h) {
            return Err(format!("[{depth}] key {} out of its separators", kv.key));
        }
    }
    if node.is_leaf {
        if !node.pivots.is_empty() {
            return Err(format!("[{depth}] leaf with children"));
        }
        return Ok(depth);
    }
    if node.pivots.len() != node.keys.len() + 1 {
        return Err(format!("[{depth}] child count {} for {} entries", node.pivots.len(), node.keys.len()));
    }
    let mut depths = Vec::new();
    for (i, child) in node.pivots.iter().enumerate() {
        let clo = if i == 0 { lo } else { Some(node.keys[i - 1].key) };
        let chi = if i == node.keys.len() { hi } else { Some(node.keys[i].key) };
        depths.push(validate_node(child, s, false, depth + 1, clo, chi)?);
    }
    if depths.iter().any(|d| *d != depths[0]) {
        return Err(format!("[{depth}] leaves at different depths: {depths:?}"));
    }
    Ok(depths[0])
}

#[test]
fn basic_structure_change() {
    let mut btree = BTree::<u64, 2>::new();
    for i in 0..=3 {
        btree.put(i, i);
    }
    assert!(btree.root().is_leaf);
    assert_eq!(1, btree.level());
    assert_eq!(4, btree.root().keys.len());

    // split
    btree.put(4, 4);
    assert!(!btree.root().is_leaf);
    assert_eq!(2, btree.level());
    assert_eq!(1, btree.root().keys.len());
    assert_eq!(2, btree.root().keys[0].key);
    assert_eq!(2, btree.root().pivots[0].keys.len());
    assert_eq!(2, btree.root().pivots[1].keys.len());

    // split
    btree.put(5, 5);
    btree.put(6, 6);
    btree.put(7, 7);
    assert!(!btree.root().is_leaf);
    assert_eq!(2, btree.level());
    assert_eq!(2, btree.root().keys.len());
    assert_eq!(2, btree.root().keys[0].key);
    assert_eq!(5, btree.root().keys[1].key);
    assert_eq!(2, btree.root().pivots[0].keys.len());
    assert_eq!(2, btree.root().pivots[1].keys.len());
    assert_eq!(2, btree.root().pivots[2].keys.len());

    // split twice
    for i in 7..=13 {
        btree.put(i, i);
    }
    assert!(!btree.root().is_leaf);
    assert_eq!(2, btree.level());
    assert_eq!(4, btree.root().keys.len());

    // split with a new level
    for i in 14..=16 {
        btree.put(i, i);
    }
    assert!(!btree.root().is_leaf);
    assert_eq!(3, btree.level());
    assert_eq!(1, btree.root().keys.len());

    // get
    for i in 0..=16 {
        assert_eq!(Some(i), btree.get(&i));
    }

    // delete with merge of the leftmost leaf
    assert_eq!(Some(0), btree.delete(&0));
    assert_eq!(2, btree.level());
    assert_eq!(4, btree.root().pivots[0].keys.len());
    assert_eq!(1, btree.root().pivots[0].keys[0].key);
    assert_eq!(2, btree.root().pivots[0].keys[1].key);
    assert_eq!(3, btree.root().pivots[0].keys[2].key);
    assert_eq!(4, btree.root().pivots[0].keys[3].key);
    assert_eq!(5, btree.root().keys[0].key);
    btree.put(0, 0);

    // delete with merge of the rightmost leaf
    assert_eq!(Some(16), btree.delete(&16));
    assert_eq!(2, btree.level());
    assert_eq!(4, btree.root().pivots[4].keys.len());
    assert_eq!(12, btree.root().pivots[4].keys[0].key);
    assert_eq!(13, btree.root().pivots[4].keys[1].key);
    assert_eq!(14, btree.root().pivots[4].keys[2].key);
    assert_eq!(15, btree.root().pivots[4].keys[3].key);
    assert_eq!(11, btree.root().keys[3].key);
    btree.put(16, 16);

    // delete an internal entry
    println!("-----");
    assert_eq!(Some(8), btree.delete(&8));
    assert_eq!(2, btree.level());
    assert_eq!(4, btree.root().pivots[1].keys.len());
    assert_eq!(3, btree.root().pivots[1].keys[0].key);
    assert_eq!(4, btree.root().pivots[1].keys[1].key);
    assert_eq!(5, btree.root().pivots[1].keys[2].key);
    assert_eq!(6, btree.root().pivots[1].keys[3].key);
    assert_eq!(7, btree.root().keys[1].key);
    btree.put(16, 16);
}

#[test]
fn sequential_put_delete() {
    const MAX: usize = 1000;
    let mut btree = BTree::<usize, 3>::new();
    for i in 0usize..MAX {
        btree.put(i as u64, i);
        validate(&btree);
    }

    for i in 0usize..MAX {
        assert_eq!(Some(i), btree.get(&(i as u64)));
    }

    assert_eq!(MAX, btree.size());
    assert_eq!(None, btree.delete(&(MAX as u64)));
    assert_eq!(None, btree.delete(&(MAX as u64 + 1)));
    assert_eq!(MAX, btree.size());
    for i in 0usize..MAX {
        let key = MAX - i - 1;
        assert_eq!(MAX - i, btree.size());
        assert_eq!(Some(key), btree.delete(&(key as u64)));
        assert_eq!(MAX - i - 1, btree.size());
        validate(&btree);
    }
    assert_eq!(0, btree.size());
}

#[test]
fn random_put_delete() {
    const MAX: usize = 1000;
    let mut btree = BTree::<u64, 3>::new();
    let seed = 4u64;
    let mut rng = rand::rngs::StdRng::seed_from_u64(seed);
    let mut expecteds = HashMap::with_capacity(MAX);
    for _ in 0usize..MAX {
        let (key, value) = loop {
            let key = rng.next_u32();
            if !expecteds.contains_key(&key) {
                break (key, rng.next_u64());
            }
        };
        expecteds.insert(key, value);
        btree.put(key as u64, value);
        validate(&btree);
    }

    for (key, expected) in expecteds.iter().take(MAX) {
        assert_eq!(Some(*expected), btree.get(&(*key as u64)));
    }

    assert_eq!(MAX, btree.size());
    let unregistered = (0u32..).find(|i| !expecteds.contains_key(i)).unwrap();
    assert_eq!(None, btree.delete(&(unregistered as u64)));
    assert_eq!(MAX, btree.size());
    for (i, (key, expected)) in expecteds.iter().enumerate() {
        if let Some(value) = btree.delete(&(*key as u64)) {
            assert_eq!(*expected, value);
            assert_eq!(MAX - i - 1, btree.size());
            validate(&btree);
        } else {
            panic!("key {key} was not found");
        }
    }
    assert_eq!(0, btree.size());
}

#[test]
fn fixed_random_put_delele() {
    let mut btree = BTree::<u32, 2>::new();
    let expecteds = [
        3281021079u32,
        6451452,
        2978716138,
        1490858745,
        3771312625,
        1946430169,
        3119100097,
        11229054,
        2340205904,
        832773000,
    ];

    validate(&btree);
    println!("{expecteds:?}");
    for key in expecteds.iter() {
        btree.put(*key as u64, *key);
        validate(&btree);
    }

    for key in expecteds.iter() {
        if let Some(value) = btree.delete(&(*key as u64)) {
            assert_eq!(*key, value);
            validate(&btree);
        } else {
            panic!();
        }
    }
}
