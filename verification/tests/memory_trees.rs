use bplus_tree::btree;
use bplus_tree::cbtre;
use bplus_tree::node::{Internal, Leaf, LeafEntry, Node};
use std::collections::BTreeMap;

type Shape = Vec<(usize, bool, Vec<u64>)>;

fn plain(t: usize, keys: &[u64]) -> btree::BPlusTree<u64, u64> {
    let mut tree = btree::BPlusTree::new(t);
    for k in keys {
        tree.insert(*k, *k * 10);
    }
    tree
}

fn shared(t: usize, keys: &[u64]) -> cbtre::BPlusTree<u64, u64> {
    let mut tree = cbtre::BPlusTree::new(t);
    for k in keys {
        tree.insert(*k, *k * 10);
    }
    tree
}

fn plain_shape(tree: &btree::BPlusTree<u64, u64>) -> Shape {
    let outline = tree.print_tree();
    outline
        .lines
        .iter()
        .map(|l| (l.depth, l.leaf, l.keys.iter().map(|k| **k).collect()))
        .collect()
}

fn shared_shape(tree: &cbtre::BPlusTree<u64, u64>) -> Shape {
    let outline = tree.print_tree();
    outline
        .lines
        .iter()
        .map(|l| (l.depth, l.leaf, l.keys.iter().map(|k| **k).collect()))
        .collect()
}

fn plain_entries(tree: &btree::BPlusTree<u64, u64>) -> Vec<(u64, u64)> {
    let mut it = tree.iter();
    let mut out = vec![];
    while let Some((k, v)) = it.next() {
        out.push((*k, *v));
    }
    out
}

fn shared_entries(tree: &cbtre::BPlusTree<u64, u64>) -> Vec<(u64, u64)> {
    let mut it = tree.iter();
    let mut out = vec![];
    while let Some(e) = it.next() {
        out.push(e);
    }
    out
}

/// Numbers that look random.
fn next(seed: &mut u64) -> u64 {
    *seed = seed.wrapping_mul(6364136223846793005).wrapping_add(1442695040888963407);
    *seed >> 33
}

#[test]
fn an_empty_plain_tree() {
    let tree = plain(2, &[]);
    assert_eq!(tree.len(), 0);
    assert!(tree.is_empty());
    assert_eq!(tree.search(&1), None);
    assert_eq!(plain_entries(&tree), vec![]);
    assert_eq!(plain_shape(&tree), vec![(0, true, vec![])]);
}

#[test]
fn five_entries_in_a_plain_tree() {
    let tree = plain(2, &[1, 2, 3, 4, 5]);
    assert_eq!(tree.len(), 5);
    assert!(!tree.is_empty());
    assert_eq!(
        plain_shape(&tree),
        vec![(0, false, vec![3]), (1, true, vec![1, 2]), (1, true, vec![3, 4, 5])]
    );
    assert_eq!(plain_entries(&tree), vec![(1, 10), (2, 20), (3, 30), (4, 40), (5, 50)]);
    assert_eq!(tree.print_tree().t, 2);
    assert_eq!(tree.print_tree().len, 5);
}

#[test]
fn a_full_leaf_of_a_plain_tree_gives_to_its_left_neighbour() {
    let tree = plain(2, &[1, 2, 3, 4, 5, 6]);
    assert_eq!(
        plain_shape(&tree),
        vec![(0, false, vec![4]), (1, true, vec![1, 2, 3]), (1, true, vec![4, 5, 6])]
    );
}

#[test]
fn a_full_leaf_of_a_shared_tree_is_split_next_to_a_leaf_that_is_nearly_full() {
    let tree = shared(2, &[1, 2, 3, 4, 5, 6]);
    assert_eq!(
        shared_shape(&tree),
        vec![
            (0, false, vec![3, 5]),
            (1, true, vec![1, 2]),
            (1, true, vec![3, 4]),
            (1, true, vec![5, 6]),
        ]
    );
}

#[test]
fn a_later_value_replaces_an_earlier_one() {
    let mut tree = plain(2, &[1, 2, 3, 4, 5]);
    tree.insert(3, 7);
    assert_eq!(tree.len(), 5);
    assert_eq!(tree.search(&3), Some(&7));
    let mut tree = shared(2, &[1, 2, 3, 4, 5]);
    tree.insert(3, 7);
    assert_eq!(tree.len(), 5);
    assert_eq!(tree.search(&3), Some(7));
}

#[test]
fn a_removal_hands_the_value_back() {
    let mut tree = plain(3, &[1, 2, 3, 4, 5, 6, 7]);
    assert_eq!(tree.remove(&4), Some(40));
    assert_eq!(tree.remove(&4), None);
    assert_eq!(tree.search(&4), None);
    assert_eq!(tree.len(), 6);
    let mut tree = shared(2, &[1, 2, 3, 4, 5, 6, 7]);
    assert_eq!(tree.remove(&4), Some(40));
    assert_eq!(tree.remove(&4), None);
    assert_eq!(tree.search(&4), None);
    assert_eq!(tree.len(), 6);
}

#[test]
fn a_plain_tree_of_degree_two_can_be_stuck() {
    let mut tree = plain(2, &[1, 2, 3, 4]);
    assert_eq!(tree.checked_remove(&1), Ok(Some(10)));
    assert_eq!(tree.checked_remove(&4), Ok(Some(40)));
    assert_eq!(tree.checked_remove(&3), Ok(Some(30)));
    assert_eq!(tree.checked_remove(&1), Err(btree::Stuck));
    assert_eq!(plain_entries(&tree), vec![(2, 20)]);
    assert_eq!(tree.len(), 1);
}

#[test]
fn the_shared_tree_of_degree_two_is_never_stuck() {
    let mut tree = shared(2, &[1, 2, 3, 4]);
    assert_eq!(tree.remove(&1), Some(10));
    assert_eq!(tree.remove(&4), Some(40));
    assert_eq!(tree.remove(&3), Some(30));
    assert_eq!(tree.remove(&1), None);
    assert_eq!(shared_entries(&tree), vec![(2, 20)]);
    assert_eq!(shared_shape(&tree), vec![(0, true, vec![2])]);
}

#[test]
fn ranges_of_a_plain_tree() {
    let tree = plain(2, &[10, 20, 30, 40, 50, 60, 70]);
    let keys = |start: u64, end: btree::Bound<u64>| {
        let mut it = tree.range_from(&start, end);
        let mut out = vec![];
        while let Some((k, _)) = it.next() {
            out.push(*k);
        }
        out
    };
    assert_eq!(keys(20, btree::Bound::Excluded(50)), vec![20, 30, 40]);
    assert_eq!(keys(20, btree::Bound::Included(50)), vec![20, 30, 40, 50]);
    assert_eq!(keys(25, btree::Bound::Unbounded), vec![30, 40, 50, 60, 70]);
    assert_eq!(keys(71, btree::Bound::Unbounded), vec![]);
    assert_eq!(keys(30, btree::Bound::Included(20)), vec![]);
    assert_eq!(keys(0, btree::Bound::Excluded(10)), vec![]);
}

#[test]
fn ranges_of_a_shared_tree() {
    let tree = shared(2, &[10, 20, 30, 40, 50, 60, 70]);
    let keys = |start: u64, end: cbtre::Bound<u64>| {
        let mut it = tree.range_from(&start, end);
        let mut out = vec![];
        while let Some((k, _)) = it.next() {
            out.push(k);
        }
        out
    };
    assert_eq!(keys(20, cbtre::Bound::Excluded(50)), vec![20, 30, 40]);
    assert_eq!(keys(20, cbtre::Bound::Included(50)), vec![20, 30, 40, 50]);
    assert_eq!(keys(25, cbtre::Bound::Unbounded), vec![30, 40, 50, 60, 70]);
    assert_eq!(keys(71, cbtre::Bound::Unbounded), vec![]);
}

#[test]
fn a_walk_that_has_ended_stays_ended() {
    let tree = shared(2, &[1, 2]);
    let mut it = tree.range_from(&1, cbtre::Bound::Included(1));
    assert_eq!(it.next(), Some((1, 10)));
    assert_eq!(it.next(), None);
    assert_eq!(it.next(), None);
}

#[test]
fn a_plain_tree_agrees_with_a_map() {
    for t in [3, 4, 7] {
        let mut tree = plain(t, &[]);
        let mut map = BTreeMap::new();
        let mut seed = 17 + t as u64;
        for step in 0..4000 {
            let k = next(&mut seed) % 300;
            if next(&mut seed) % 5 < 3 {
                tree.insert(k, step);
                map.insert(k, step);
            } else {
                assert_eq!(tree.remove(&k), map.remove(&k));
            }
            assert_eq!(tree.len(), map.len());
            let j = next(&mut seed) % 300;
            assert_eq!(tree.search(&j), map.get(&j));
        }
        let all: Vec<(u64, u64)> = map.iter().map(|(k, v)| (*k, *v)).collect();
        assert_eq!(plain_entries(&tree), all);
    }
}

#[test]
fn a_shared_tree_agrees_with_a_map_and_stays_balanced() {
    for t in [2, 3, 5] {
        let mut tree = shared(t, &[]);
        let mut map = BTreeMap::new();
        let mut seed = 99 + t as u64;
        for step in 0..3000 {
            let k = next(&mut seed) % 200;
            if next(&mut seed) % 2 == 0 {
                tree.insert(k, step);
                map.insert(k, step);
            } else {
                assert_eq!(tree.remove(&k), map.remove(&k));
            }
            assert_eq!(tree.len(), map.len());
        }
        let all: Vec<(u64, u64)> = map.iter().map(|(k, v)| (*k, *v)).collect();
        assert_eq!(shared_entries(&tree), all);
        let shape = shared_shape(&tree);
        for (depth, _, keys) in &shape {
            assert!(keys.len() <= 2 * t - 1);
            assert!(*depth == 0 || keys.len() >= t - 1);
        }
        let leaves: Vec<usize> = shape.iter().filter(|l| l.1).map(|l| l.0).collect();
        assert!(leaves.iter().all(|d| *d == leaves[0]));
    }
}

#[test]
fn emptying_a_shared_tree_leaves_one_leaf() {
    let keys: Vec<u64> = (0..100).collect();
    let mut tree = shared(2, &keys);
    for k in keys.iter().rev() {
        assert_eq!(tree.remove(k), Some(*k * 10));
    }
    assert!(tree.is_empty());
    assert_eq!(shared_shape(&tree), vec![(0, true, vec![])]);
}

#[test]
fn keys_of_another_type() {
    let mut tree: btree::BPlusTree<i32, String> = btree::BPlusTree::new(2);
    tree.insert(-5, String::from("a"));
    tree.insert(7, String::from("b"));
    tree.insert(0, String::from("c"));
    assert_eq!(tree.search(&-5), Some(&String::from("a")));
    let mut it = tree.iter();
    assert_eq!(it.next().map(|e| *e.0), Some(-5));
    assert_eq!(it.next().map(|e| *e.0), Some(0));
    assert_eq!(it.next().map(|e| *e.0), Some(7));
    assert_eq!(it.next(), None);
}

#[test]
fn nodes_say_what_they_hold() {
    let leaf: Node<u64, u64> =
        Node::Leaf(Leaf { entries: vec![LeafEntry { key: 4, value: 1 }, LeafEntry { key: 9, value: 2 }] });
    assert_eq!(leaf.first_key(), Some(&4));
    assert_eq!(leaf.key_count(), 2);
    assert!(leaf.is_leaf());
    assert!(!leaf.is_internal());
    let empty: Node<u64, u64> = Node::Leaf(Leaf::new());
    assert_eq!(empty.first_key(), None);
    let mut internal: Internal<u64, u64> = Internal::new();
    internal.keys = vec![5, 8];
    internal.children =
        vec![Box::new(Node::Leaf(Leaf::new())), Box::new(Node::Leaf(Leaf::new())), Box::new(Node::Leaf(Leaf::new()))];
    assert_eq!(internal.child_index(&4), 0);
    assert_eq!(internal.child_index(&5), 1);
    assert_eq!(internal.child_index(&7), 1);
    assert_eq!(internal.child_index(&8), 2);
    let node = Node::Internal(internal);
    assert_eq!(node.first_key(), Some(&5));
    assert!(node.is_internal());
}

#[test]
fn places_in_a_leaf() {
    let leaf: Leaf<u64, u64> =
        Leaf { entries: vec![LeafEntry { key: 4, value: 1 }, LeafEntry { key: 9, value: 2 }] };
    assert_eq!(leaf.find_pos(&3), Err(0));
    assert_eq!(leaf.find_pos(&4), Ok(0));
    assert_eq!(leaf.find_pos(&5), Err(1));
    assert_eq!(leaf.find_pos(&9), Ok(1));
    assert_eq!(leaf.find_pos(&10), Err(2));
}

fn leaf_of(keys: &[u64]) -> Box<Node<u64, u64>> {
    let entries = keys.iter().map(|k| LeafEntry { key: *k, value: *k }).collect();
    Box::new(Node::Leaf(Leaf { entries }))
}

fn leaf_keys(node: &Internal<u64, u64>) -> Vec<Vec<u64>> {
    node.children
        .iter()
        .map(|c| match &**c {
            Node::Leaf(leaf) => leaf.entries.iter().map(|e| e.key).collect(),
            Node::Internal(_) => vec![],
        })
        .collect()
}

#[test]
fn room_is_made_by_a_neighbour_that_can_be_had() {
    let mut node = Internal { keys: vec![4], children: vec![leaf_of(&[1, 2, 3]), leaf_of(&[4])] };
    node.make_room(0, 2, 2, true, true);
    assert_eq!(node.keys, vec![3]);
    assert_eq!(leaf_keys(&node), vec![vec![1, 2], vec![3, 4]]);
}

#[test]
fn a_child_is_split_when_no_neighbour_can_be_had() {
    let mut node = Internal { keys: vec![4], children: vec![leaf_of(&[1, 2, 3]), leaf_of(&[4])] };
    node.make_room(0, 2, 2, false, true);
    assert_eq!(node.keys, vec![3, 4]);
    assert_eq!(leaf_keys(&node), vec![vec![1, 2], vec![3], vec![4]]);
}

#[test]
fn the_left_neighbour_helps_when_the_right_one_cannot() {
    let children = vec![leaf_of(&[1]), leaf_of(&[2, 3, 4]), leaf_of(&[5])];
    let mut node = Internal { keys: vec![2, 5], children };
    node.make_room(1, 2, 2, false, true);
    assert_eq!(node.keys, vec![3, 5]);
    assert_eq!(leaf_keys(&node), vec![vec![1, 2], vec![3, 4], vec![5]]);
}

#[test]
fn who_can_be_had_decides_the_shape_and_not_the_map() {
    let mut one = shared(2, &[1, 2, 3, 4, 5]);
    let mut two = shared(2, &[1, 2, 3, 4, 5]);
    assert_eq!(one.remove(&2), Some(20));
    assert_eq!(two.remove(&2), Some(20));
    one.insert_among(6, 60, &vec![]);
    two.insert_among(6, 60, &vec![(true, false)]);
    assert_eq!(
        shared_shape(&one),
        vec![(0, false, vec![4]), (1, true, vec![1, 3]), (1, true, vec![4, 5, 6])]
    );
    assert_eq!(
        shared_shape(&two),
        vec![
            (0, false, vec![3, 5]),
            (1, true, vec![1]),
            (1, true, vec![3, 4]),
            (1, true, vec![5, 6]),
        ]
    );
    assert_eq!(shared_entries(&one), shared_entries(&two));
}

#[test]
fn a_map_does_not_depend_on_who_can_be_had() {
    let mut seed = 3;
    let mut tree = shared(3, &[]);
    let mut map = BTreeMap::new();
    for step in 0..2000 {
        let k = next(&mut seed) % 500;
        let free: Vec<(bool, bool)> =
            (0..3).map(|_| (next(&mut seed) % 2 == 0, next(&mut seed) % 2 == 0)).collect();
        tree.insert_among(k, step, &free);
        map.insert(k, step);
    }
    let all: Vec<(u64, u64)> = map.iter().map(|(k, v)| (*k, *v)).collect();
    assert_eq!(shared_entries(&tree), all);
    assert_eq!(tree.len(), map.len());
}
