use byo_suite::btree::delete::{leaf_delete, node_merge};
use byo_suite::btree::insert::{leaf_insert, leaf_update, node_lookup_le};
use byo_suite::btree::keys::{compare_keys, keys_equal};
use byo_suite::btree::node::{BNode, BNODE_LEAF, PAGE_SIZE};
use byo_suite::btree::split::node_split3;
use byo_suite::btree::tree::{BTree, MemStore};

fn empty_leaf(size: usize) -> BNode {
    let mut n = BNode::with_capacity(size);
    n.set_header(BNODE_LEAF, 0);
    n
}

/// A leaf holding the given entries in order, built by insertions.
fn leaf(entries: &[(&[u8], &[u8])], size: usize) -> BNode {
    let mut node = empty_leaf(size);
    for (i, (k, v)) in entries.iter().enumerate() {
        let mut next = BNode::with_capacity(size);
        leaf_insert(&mut next, &node, i as u16, k, v);
        node = next;
    }
    node
}

#[test]
fn keys_compare_lexicographically() {
    assert_eq!(compare_keys(b"a", b"b"), -1);
    assert_eq!(compare_keys(b"b", b"a"), 1);
    assert_eq!(compare_keys(b"ab", b"a"), 1);
    assert_eq!(compare_keys(b"a", b"ab"), -1);
    assert_eq!(compare_keys(b"abc", b"abc"), 0);
    assert_eq!(compare_keys(b"", b""), 0);
    assert!(keys_equal(b"xy", b"xy"));
    assert!(!keys_equal(b"xy", b"x"));
}

#[test]
fn node_header_and_pointers() {
    let mut n = BNode::with_capacity(PAGE_SIZE);
    assert_eq!(n.data.len(), PAGE_SIZE);
    n.set_header(BNODE_LEAF, 3);
    assert_eq!(n.btype(), BNODE_LEAF);
    assert_eq!(n.nkeys(), 3);
    n.set_ptr(1, 0x0102030405060708);
    assert_eq!(n.get_ptr(1), 0x0102030405060708);
    assert_eq!(n.get_ptr(0), 0);
    n.set_offset(1, 6);
    assert_eq!(n.get_offset(1), 6);
    assert_eq!(n.get_offset(0), 0);
}

#[test]
fn leaf_insert_keeps_entries_in_place() {
    let node = leaf(&[(b"", b""), (b"a", b"1"), (b"c", b"3")], PAGE_SIZE);
    let mut next = BNode::with_capacity(PAGE_SIZE);
    leaf_insert(&mut next, &node, 2, b"b", b"2");
    assert_eq!(next.btype(), BNODE_LEAF);
    assert_eq!(next.nkeys(), 4);
    let keys: Vec<Vec<u8>> = (0..4).map(|i| next.get_key(i).to_vec()).collect();
    assert_eq!(keys, vec![b"".to_vec(), b"a".to_vec(), b"b".to_vec(), b"c".to_vec()]);
    assert_eq!(next.get_val(2), b"2");
    assert_eq!(next.get_val(3), b"3");
    // header, 4 pointers, 4 offsets, and 4 + klen + vlen per entry
    assert_eq!(next.nbytes(), 4 + 32 + 8 + 4 + 6 + 6 + 6);
}

#[test]
fn lookup_finds_the_last_key_not_after() {
    let node = leaf(&[(b"", b""), (b"b", b"1"), (b"d", b"2")], PAGE_SIZE);
    assert_eq!(node_lookup_le(&node, b"a"), 0);
    assert_eq!(node_lookup_le(&node, b"b"), 1);
    assert_eq!(node_lookup_le(&node, b"c"), 1);
    assert_eq!(node_lookup_le(&node, b"d"), 2);
    assert_eq!(node_lookup_le(&node, b"zz"), 2);
}

#[test]
fn leaf_update_replaces_one_value() {
    let node = leaf(&[(b"", b""), (b"k", b"old")], PAGE_SIZE);
    let mut next = BNode::with_capacity(PAGE_SIZE);
    leaf_update(&mut next, &node, 1, b"k", b"newer");
    assert_eq!(next.nkeys(), 2);
    assert_eq!(next.get_key(1), b"k");
    assert_eq!(next.get_val(1), b"newer");
}

#[test]
fn leaf_delete_removes_one_entry() {
    let node = leaf(&[(b"", b""), (b"a", b"1"), (b"b", b"2")], PAGE_SIZE);
    let mut next = BNode::with_capacity(PAGE_SIZE);
    leaf_delete(&mut next, &node, 1);
    assert_eq!(next.nkeys(), 2);
    assert_eq!(next.get_key(1), b"b");
    assert_eq!(next.get_val(1), b"2");
}

#[test]
fn merge_concatenates_two_nodes() {
    let left = leaf(&[(b"", b""), (b"a", b"1")], PAGE_SIZE);
    let right = leaf(&[(b"m", b"2"), (b"n", b"3")], PAGE_SIZE);
    let mut merged = BNode::with_capacity(PAGE_SIZE);
    node_merge(&mut merged, &left, &right);
    assert_eq!(merged.nkeys(), 4);
    assert_eq!(merged.get_key(2), b"m");
    assert_eq!(merged.get_val(3), b"3");
}

#[test]
fn split_leaves_a_small_node_whole() {
    let node = leaf(&[(b"", b""), (b"a", b"1")], 2 * PAGE_SIZE);
    let parts = node_split3(node);
    assert_eq!(parts.len(), 1);
    assert_eq!(parts[0].nkeys(), 2);
    assert_eq!(parts[0].data.len(), PAGE_SIZE);
}

#[test]
fn split_cuts_an_oversized_node() {
    let big = vec![7u8; 1000];
    let keys: Vec<Vec<u8>> = (0..6).map(|i| vec![b'a' + i as u8]).collect();
    let entries: Vec<(&[u8], &[u8])> = keys.iter().map(|k| (k.as_slice(), big.as_slice())).collect();
    let node = leaf(&entries, 2 * PAGE_SIZE);
    assert!(node.nbytes() as usize > PAGE_SIZE);
    let parts = node_split3(node);
    assert!(parts.len() >= 2 && parts.len() <= 3);
    let mut seen = Vec::new();
    for p in &parts {
        assert!((p.nbytes() as usize) <= PAGE_SIZE);
        for i in 0..p.nkeys() {
            seen.push(p.get_key(i).to_vec());
        }
    }
    assert_eq!(seen, keys);
}

#[test]
fn empty_tree_finds_nothing() {
    let mut t = BTree::new(MemStore::new());
    assert_eq!(t.get(b"k"), None);
    assert!(!t.delete(b"k"));
}

#[test]
fn first_insert_then_lookup() {
    let mut t = BTree::new(MemStore::new());
    t.insert(b"k", b"v");
    assert_ne!(t.root, 0);
    assert_eq!(t.get(b"k"), Some(b"v".to_vec()));
    assert_eq!(t.get(b"j"), None);
}

#[test]
fn insert_replaces_the_value() {
    let mut t = BTree::new(MemStore::new());
    t.insert(b"k", b"one");
    t.insert(b"k", b"two");
    assert_eq!(t.get(b"k"), Some(b"two".to_vec()));
}

#[test]
fn many_inserts_split_and_stay_readable() {
    let mut t = BTree::new(MemStore::new());
    let val = vec![b'x'; 200];
    for i in 0..300u32 {
        let k = format!("key{:05}", i);
        t.insert(k.as_bytes(), &val);
    }
    for i in 0..300u32 {
        let k = format!("key{:05}", i);
        assert_eq!(t.get(k.as_bytes()), Some(val.clone()), "{}", k);
    }
    assert_eq!(t.get(b"key99999"), None);
}

#[test]
fn deletes_remove_only_their_key() {
    let mut t = BTree::new(MemStore::new());
    for i in 0..100u32 {
        let k = format!("k{:03}", i);
        t.insert(k.as_bytes(), k.as_bytes());
    }
    for i in (0..100u32).step_by(2) {
        let k = format!("k{:03}", i);
        assert!(t.delete(k.as_bytes()));
    }
    for i in 0..100u32 {
        let k = format!("k{:03}", i);
        let got = t.get(k.as_bytes());
        if i % 2 == 0 {
            assert_eq!(got, None);
        } else {
            assert_eq!(got, Some(k.as_bytes().to_vec()));
        }
    }
    assert!(!t.delete(b"k000"));
}

#[test]
fn delete_reports_what_a_lookup_finds() {
    let mut t = BTree::new(MemStore::new());
    assert!(!t.delete(b"a"));
    t.insert(b"a", b"1");
    t.insert(b"c", b"3");
    assert_eq!(t.get(b"b"), None);
    assert!(!t.delete(b"b"));
    assert_eq!(t.get(b"c"), Some(b"3".to_vec()));
    assert!(t.delete(b"c"));
    assert_eq!(t.get(b"c"), None);
    assert!(!t.delete(b"c"));
}

#[test]
fn deleting_from_one_leaf_keeps_the_rest() {
    let mut t = BTree::new(MemStore::new());
    t.insert(b"a", b"1");
    t.insert(b"b", b"2");
    t.insert(b"c", b"3");
    assert!(t.delete(b"b"));
    assert_eq!(t.get(b"a"), Some(b"1".to_vec()));
    assert_eq!(t.get(b"b"), None);
    assert_eq!(t.get(b"c"), Some(b"3".to_vec()));
    t.insert(b"b", b"4");
    assert_eq!(t.get(b"b"), Some(b"4".to_vec()));
    assert!(t.delete(b"a"));
    assert!(t.delete(b"c"));
    assert_eq!(t.get(b"b"), Some(b"4".to_vec()));
}

#[test]
fn insert_keeps_every_other_key() {
    let mut t = BTree::new(MemStore::new());
    for i in 0..50u32 {
        let k = format!("x{:02}", i);
        t.insert(k.as_bytes(), b"old");
    }
    t.insert(b"x25", b"new");
    t.insert(b"x50", b"added");
    for i in 0..50u32 {
        let k = format!("x{:02}", i);
        let want: &[u8] = if i == 25 { b"new" } else { b"old" };
        assert_eq!(t.get(k.as_bytes()), Some(want.to_vec()));
    }
    assert_eq!(t.get(b"x50"), Some(b"added".to_vec()));
}

#[test]
fn deleting_from_a_split_tree_keeps_every_other_key() {
    let mut t = BTree::new(MemStore::new());
    let val = vec![b'v'; 30];
    for i in 0..150u32 {
        let k = format!("key{:05}", i);
        t.insert(k.as_bytes(), &val);
    }
    assert_eq!(t.store.slots[(t.root - 1) as usize].as_ref().unwrap().btype(), 1);
    for i in 0..150u32 {
        if i % 3 != 0 {
            let k = format!("key{:05}", i);
            assert!(t.delete(k.as_bytes()), "{}", k);
        }
    }
    for i in 0..150u32 {
        let k = format!("key{:05}", i);
        let got = t.get(k.as_bytes()).map(|v| v.len());
        let want = if i % 3 == 0 { Some(30) } else { None };
        assert!(got == want, "{}: {:?}", k, got);
    }
    for i in 0..150u32 {
        if i % 3 == 0 && i != 147 {
            let k = format!("key{:05}", i);
            assert!(t.delete(k.as_bytes()), "{}", k);
        }
    }
    assert!(t.get(b"key00147").map(|v| v.len()) == Some(30));
    assert!(t.get(b"key00000").is_none());
    assert!(!t.delete(b"key00000"));
    assert_eq!(t.store.slots[(t.root - 1) as usize].as_ref().unwrap().btype(), 2);
}

#[test]
fn try_delete_refuses_a_deletion_that_does_not_fit() {
    let mut t = BTree::new(MemStore::new());
    let val = vec![b'v'; 300];
    for i in 0..400u32 {
        let k = format!("key{:05}", i);
        t.insert(k.as_bytes(), &val);
    }
    assert!(!t.deletable(b"key00001"));
    assert_eq!(t.try_delete(b"key00001"), None);
    assert_eq!(t.get(b"key00001"), Some(val.clone()));
    assert_eq!(t.get(b"key00000"), Some(val.clone()));

    let mut s = BTree::new(MemStore::new());
    s.insert(b"a", b"1");
    s.insert(b"b", b"2");
    assert!(s.deletable(b"a"));
    assert_eq!(s.try_delete(b"a"), Some(true));
    assert_eq!(s.try_delete(b"a"), Some(false));
    assert_eq!(s.get(b"b"), Some(b"2".to_vec()));
}

#[test]
fn fitting_deletions_in_a_deep_tree_keep_every_other_key() {
    let mut t = BTree::new(MemStore::new());
    let val = vec![b'v'; 300];
    for i in 0..400u32 {
        let k = format!("key{:05}", i);
        t.insert(k.as_bytes(), &val);
    }
    let mut gone = vec![false; 400];
    for round in 0..3u32 {
        for i in 0..400u32 {
            if i % 3 != round % 3 && !gone[i as usize] {
                let k = format!("key{:05}", i);
                if let Some(found) = t.try_delete(k.as_bytes()) {
                    assert!(found, "{}", k);
                    gone[i as usize] = true;
                }
            }
        }
    }
    let mut deleted = 0;
    for i in 0..400u32 {
        let k = format!("key{:05}", i);
        let got = t.get(k.as_bytes()).map(|v| v.len());
        let want = if gone[i as usize] { None } else { Some(300) };
        assert!(got == want, "{}: {:?}", k, got);
        if gone[i as usize] {
            deleted += 1;
        }
    }
    assert!(deleted > 0);
}
