use ruql::btree::BTree;
use ruql::btree::Node;

#[test]
fn test_get_empty() {
    let b = BTree::new();
    let actual = b.findNode(10);
    assert!(actual.is_some());
}

#[test]
fn test_insert() {
    let mut b = BTree::new();
    b.insert(10, 10);
    let actual = b.get(10);
    assert_eq!(actual, Some(10));
}

#[test]
fn test_insert_unordered() {
    let mut b = BTree::new();
    b.insert(20, 20);
    b.insert(10, 10);
    let actual = b.get(10);
    assert_eq!(actual, Some(10));
}

#[test]
fn test_insert_overflow_root_node() {
    let mut b = BTree::new();
    b.insert(10, 10);
    b.insert(20, 20);
    b.insert(5, 5);
    b.insert(6, 6);
    b.insert(12, 12);
    b.insert(30, 30);
    b.insert(7, 7);
    b.insert(17, 17);

    let actual = b.get(10);
    assert_eq!(actual, Some(10));
}

#[test]
fn test_scenario_split_at_four() {
    // M = 2: a node holds at most 3 keys and splits when a fourth arrives.
    let mut b = BTree::new();
    b.insert(10, 100);
    b.insert(20, 200);
    b.insert(5, 50);

    // After three inserts the root is still one leaf holding [5, 6, 10]
    // sorted -- here [5, 10, 20].
    assert!(b.root.isLeafNode);
    assert_eq!(b.root.keys, vec![5, 10, 20]);

    // The fourth insert overflows the root leaf: left {5, 6}, right
    // {10, 20}, and the promoted median 10 becomes the new root's one key.
    b.insert(6, 60);
    assert!(!b.root.isLeafNode);
    assert_eq!(b.root.keys, vec![10]);
    assert_eq!(b.root.children.len(), 2);
    assert!(b.root.children[0].isLeafNode);
    assert!(b.root.children[1].isLeafNode);
    assert_eq!(b.root.children[0].keys, vec![5, 6]);
    assert_eq!(b.root.children[1].keys, vec![10, 20]);

    assert_eq!(b.get(10), Some(100));
    assert_eq!(b.get(99), None);
}

#[test]
fn test_split_correctness() {
    // Inserting 2M = 4 keys into a single empty leaf produces a root with
    // exactly one key and two leaf children of M = 2 keys each, whose key
    // union plus the promoted key equals the inserted key set.
    let mut b = BTree::new();
    let keys = [40u64, 10, 30, 20];
    for k in keys {
        b.insert(k, k + 1);
    }
    assert!(!b.root.isLeafNode);
    assert_eq!(b.root.keys.len(), 1);
    assert_eq!(b.root.children.len(), 2);
    assert_eq!(b.root.children[0].keys.len(), 2);
    assert_eq!(b.root.children[1].keys.len(), 2);
    let mut union: Vec<u64> = Vec::new();
    union.extend_from_slice(&b.root.children[0].keys);
    union.extend_from_slice(&b.root.children[1].keys);
    assert_eq!(union, vec![10, 20, 30, 40]);
    assert!(union.contains(&b.root.keys[0]));
    for k in keys {
        assert_eq!(b.get(k), Some(k + 1));
    }
}

#[test]
fn test_overwrite_keeps_latest_value() {
    let mut b = BTree::new();
    b.insert(7, 1);
    b.insert(7, 2);
    assert_eq!(b.get(7), Some(2));
    b.insert(3, 30);
    b.insert(9, 90);
    b.insert(7, 4);
    assert_eq!(b.get(7), Some(4));
}

#[test]
fn test_round_trip_ascending() {
    let mut b = BTree::new();
    for k in 1u64..=30 {
        b.insert(k, 1000 + k);
    }
    for k in 1u64..=30 {
        assert_eq!(b.get(k), Some(1000 + k));
    }
}

#[test]
fn test_round_trip_descending() {
    let mut b = BTree::new();
    for k in (1u64..=30).rev() {
        b.insert(k, 2 * k);
    }
    for k in 1u64..=30 {
        assert_eq!(b.get(k), Some(2 * k));
    }
    assert_eq!(b.get(0), None);
    assert_eq!(b.get(31), None);
}

#[test]
fn test_absent_key() {
    let mut b = BTree::new();
    assert_eq!(b.get(42), None);
    b.insert(1, 1);
    b.insert(2, 2);
    b.insert(3, 3);
    b.insert(4, 4);
    b.insert(5, 5);
    assert_eq!(b.get(42), None);
}

#[test]
fn test_large_mixed_order() {
    let mut b = BTree::new();
    // A spread-out insertion order that forces splits at several depths.
    let mut keys: Vec<u64> = Vec::new();
    let mut x: u64 = 17;
    for _ in 0..200 {
        x = (x * 73 + 41) % 1009;
        keys.push(x);
        b.insert(x, x * 3);
    }
    for k in keys {
        assert_eq!(b.get(k), Some(k * 3));
    }
    assert_eq!(b.get(2000), None);
}

#[test]
fn test_node_direct_insert_and_split() {
    let mut n = Node::new(true);
    assert!(n.isLeafNode);
    assert!(n.insert(3, 33).is_none());
    assert_eq!(n.get(3), Some(33));
    assert_eq!(n.get(4), None);
    assert!(n.findNode(3).is_some());

    // Overflowing a lone leaf hands the promoted median and the new right
    // sibling back to the caller.
    assert!(n.insert(1, 11).is_none());
    assert!(n.insert(2, 22).is_none());
    let split = n.insert(4, 44);
    assert!(split.is_some());
    let (sep, right) = split.unwrap();
    assert_eq!(sep, 3);
    assert_eq!(n.keys, vec![1, 2]);
    assert_eq!(right.keys, vec![3, 4]);
    assert!(right.isLeafNode);
}
