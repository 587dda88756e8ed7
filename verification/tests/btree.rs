use bptree::node::Node;
use bptree::BTreeMap;

#[test]
fn empty_map_behaviour() {
    let mut m = BTreeMap::<u32, 5>::new();
    assert_eq!(m.len(), 0);
    assert!(m.is_empty());
    assert_eq!(m.get(7), None);
    assert_eq!(m.entry(7), None);
    assert_eq!(m.remove(7), None);
    assert_eq!(m.remove_entry(7), None);
    assert_eq!(m.len(), 0);
}

#[test]
fn insert_get_remove_round_trip() {
    let mut m = BTreeMap::<&'static str, 5>::new();
    assert_eq!(m.insert(10, "ten"), None);
    assert_eq!(m.get(10), Some(&"ten"));
    assert_eq!(m.len(), 1);
    assert!(!m.is_empty());
    assert_eq!(m.remove(10), Some("ten"));
    assert_eq!(m.get(10), None);
    assert_eq!(m.len(), 0);
}

#[test]
fn replacing_a_value_keeps_the_length() {
    let mut m = BTreeMap::<u32, 5>::new();
    assert_eq!(m.insert(5, 1), None);
    assert_eq!(m.insert(5, 2), Some(1));
    assert_eq!(m.len(), 1);
    assert_eq!(m.get(5), Some(&2));
    assert_eq!(m.insert_entry(5, 3), Some((5, 2)));
    assert_eq!(m.remove_entry(5), Some((5, 3)));
    assert_eq!(m.len(), 0);
}

#[test]
fn entry_hands_back_the_key() {
    let mut m = BTreeMap::<u32, 5>::new();
    m.insert(3, 33);
    m.insert(1, 11);
    assert_eq!(m.entry(3), Some((3, &33)));
    assert_eq!(m.entry(1), Some((1, &11)));
    assert_eq!(m.entry(2), None);
}

#[test]
fn sixth_insert_splits_the_full_leaf() {
    let mut m = BTreeMap::<u32, 5>::new();
    for k in 1u64..=5 {
        assert_eq!(m.insert(k, k as u32), None);
        assert_eq!(m.len() as u64, k);
    }
    match &m.root {
        Some(Node::Leaf(leaf)) => assert_eq!(leaf.entries.len(), 5),
        _ => panic!("expected a single full leaf at the root"),
    }
    assert_eq!(m.get(3), Some(&3));
    assert_eq!(m.insert(6, 6), None);
    assert_eq!(m.len(), 6);
    assert_eq!(m.get(3), Some(&3));
    match &m.root {
        Some(Node::Internal(inner)) => {
            assert_eq!(inner.children.len(), 2);
            assert_eq!(inner.head, 1);
            assert_eq!(inner.tail, 6);
            match (&inner.children[0], &inner.children[1]) {
                (Node::Leaf(a), Node::Leaf(b)) => {
                    assert_eq!(a.entries.len(), 3);
                    assert_eq!(b.entries.len(), 3);
                },
                _ => panic!("expected two leaf children"),
            }
        },
        _ => panic!("expected an internal root with two leaves"),
    }
}

#[test]
fn removal_borrows_then_merges() {
    let mut m = BTreeMap::<u32, 5>::new();
    for k in 1u64..=8 {
        m.insert(k, k as u32);
    }
    // The leaves now hold {1,2,3} and {4,...,8}. Removing 1 leaves the
    // first leaf under the minimum fill of 3; its neighbour has one to
    // spare, so a single entry moves across.
    assert_eq!(m.remove(1), Some(1));
    match &m.root {
        Some(Node::Internal(inner)) => {
            assert_eq!(inner.children.len(), 2);
            match (&inner.children[0], &inner.children[1]) {
                (Node::Leaf(a), Node::Leaf(b)) => {
                    assert_eq!(a.entries.len(), 3);
                    assert_eq!(b.entries.len(), 4);
                },
                _ => panic!("expected two leaf children"),
            }
        },
        _ => panic!("expected an internal root"),
    }
    // Removing down to five entries leaves no neighbour with one to
    // spare: the right leaf drains into the left and the tree loses its
    // internal level.
    assert_eq!(m.remove(8), Some(8));
    assert_eq!(m.remove(7), Some(7));
    assert_eq!(m.len(), 5);
    match &m.root {
        Some(Node::Leaf(leaf)) => assert_eq!(leaf.entries.len(), 5),
        _ => panic!("expected the root to collapse to one leaf"),
    }
    for k in 2u64..=6 {
        assert_eq!(m.get(k), Some(&(k as u32)));
    }
}

#[test]
fn descending_inserts_keep_the_lower_boundary_fresh() {
    let mut m = BTreeMap::<u32, 5>::new();
    for k in (1u64..=20).rev() {
        assert_eq!(m.insert(k, k as u32), None);
    }
    assert_eq!(m.len(), 20);
    for k in 1u64..=20 {
        assert_eq!(m.get(k), Some(&(k as u32)));
    }
    match &m.root {
        Some(Node::Internal(inner)) => assert_eq!(inner.head, 1),
        _ => panic!("expected an internal root"),
    }
}

#[test]
fn extreme_keys_are_ordinary_keys() {
    let mut m = BTreeMap::<u32, 5>::new();
    assert_eq!(m.insert(u64::MAX, 1), None);
    assert_eq!(m.insert(0, 2), None);
    assert_eq!(m.insert(u64::MAX / 2, 3), None);
    assert_eq!(m.get(u64::MAX), Some(&1));
    assert_eq!(m.get(0), Some(&2));
    assert_eq!(m.get(u64::MAX / 2), Some(&3));
    assert_eq!(m.remove(0), Some(2));
    assert_eq!(m.get(0), None);
    assert_eq!(m.len(), 2);
}

#[test]
fn a_miss_leaves_the_map_untouched() {
    let mut m = BTreeMap::<u32, 5>::new();
    for k in 1u64..=8 {
        m.insert(k, k as u32);
    }
    assert_eq!(m.remove(0), None);
    assert_eq!(m.remove(42), None);
    assert_eq!(m.remove_entry(5000), None);
    assert_eq!(m.len(), 8);
    match &m.root {
        Some(Node::Internal(inner)) => {
            assert_eq!(inner.children.len(), 2);
            match (&inner.children[0], &inner.children[1]) {
                (Node::Leaf(a), Node::Leaf(b)) => {
                    assert_eq!(a.entries.len(), 3);
                    assert_eq!(b.entries.len(), 5);
                },
                _ => panic!("expected two leaf children"),
            }
        },
        _ => panic!("expected an internal root"),
    }
    for k in 1u64..=8 {
        assert_eq!(m.get(k), Some(&(k as u32)));
    }
}

#[test]
fn get_mut_updates_the_value_in_place() {
    let mut m = BTreeMap::<u32, 5>::new();
    for k in 1u64..=10 {
        m.insert(k, k as u32);
    }
    match m.get_mut(7) {
        Some(v) => *v = 700,
        None => panic!("key 7 should be present"),
    }
    assert_eq!(m.get(7), Some(&700));
    assert_eq!(m.get_mut(99), None);
    assert_eq!(m.len(), 10);
    match m.entry_mut(3) {
        Some((k, v)) => {
            assert_eq!(k, 3);
            *v += 1;
        },
        None => panic!("key 3 should be present"),
    }
    assert_eq!(m.get(3), Some(&4));
    assert_eq!(m.entry_mut(42), None);
}

#[test]
fn deep_tree_matches_reference_map() {
    let mut reference = std::collections::BTreeMap::new();
    let mut m = BTreeMap::<u64, 5>::new();
    // A fixed order that scatters keys enough to exercise splits at
    // several depths.
    let keys: Vec<u64> = (0u64..400).map(|i| (i * 37) % 401).collect();
    for &k in &keys {
        assert_eq!(reference.insert(k, k * 10), m.insert(k, k * 10));
        assert_eq!(reference.len(), m.len());
    }
    for k in 0u64..401 {
        assert_eq!(reference.get(&k), m.get(k));
    }
    for &k in keys.iter().rev() {
        assert_eq!(reference.remove(&k), m.remove(k));
        assert_eq!(reference.get(&k), m.get(k));
        assert_eq!(reference.len(), m.len());
    }
    assert!(m.is_empty());
}
