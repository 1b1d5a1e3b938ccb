use merkle_path_set::{merge, Digest, MerkleError, MerklePathSet, NodeIndex};

fn int_to_node(n: u64) -> Digest {
    let mut d = [0u8; 32];
    d[..8].copy_from_slice(&n.to_le_bytes());
    d
}

fn int_to_leaf(n: u64) -> Digest {
    int_to_node(n)
}

fn is_even(pos: u64) -> bool {
    pos & 1 == 0
}

/// The parent of `node`, at position `node_pos`, and its `sibling`.
fn calculate_parent_hash(node: Digest, node_pos: u64, sibling: Digest) -> Digest {
    if is_even(node_pos) {
        merge(&node, &sibling)
    } else {
        merge(&sibling, &node)
    }
}

/// The root that `leaf` at `index` and its authentication path fold to.
fn fold_to_root(leaf: Digest, index: u64, path: &[Digest]) -> Digest {
    let mut node = leaf;
    let mut pos = index;
    for sibling in path {
        node = calculate_parent_hash(node, pos, *sibling);
        pos /= 2;
    }
    node
}

/// Leaves a..h of a tree of depth 3 and its inner nodes i..n and root.
struct Tree3 {
    leaves: [Digest; 8],
    i: Digest,
    j: Digest,
    k: Digest,
    l: Digest,
    m: Digest,
    n: Digest,
    root: Digest,
}

fn tree3() -> Tree3 {
    let leaves = [
        int_to_node(1),
        int_to_node(2),
        int_to_node(3),
        int_to_node(4),
        int_to_node(5),
        int_to_node(6),
        int_to_node(7),
        int_to_node(8),
    ];
    let i = merge(&leaves[0], &leaves[1]);
    let j = merge(&leaves[2], &leaves[3]);
    let k = merge(&leaves[4], &leaves[5]);
    let l = merge(&leaves[6], &leaves[7]);
    let m = merge(&i, &j);
    let n = merge(&k, &l);
    let root = merge(&m, &n);
    Tree3 { leaves, i, j, k, l, m, n, root }
}

#[test]
fn get_root() {
    let leaf0 = int_to_node(0);
    let leaf1 = int_to_node(1);
    let leaf2 = int_to_node(2);
    let leaf3 = int_to_node(3);

    let parent0 = calculate_parent_hash(leaf0, 0, leaf1);
    let parent1 = calculate_parent_hash(leaf2, 2, leaf3);

    let root_exp = calculate_parent_hash(parent0, 0, parent1);

    let set = MerklePathSet::new(2).with_paths(vec![(0, leaf0, vec![leaf1, parent1])]).unwrap();

    assert_eq!(set.root(), root_exp);
}

#[test]
fn add_and_get_path() {
    let path_6 = vec![int_to_node(7), int_to_node(45), int_to_node(123)];
    let hash_6 = int_to_node(6);
    let index = 6_u64;
    let depth = 3_u8;
    let set = MerklePathSet::new(depth).with_paths(vec![(index, hash_6, path_6.clone())]).unwrap();
    let stored_path_6 = set.get_path(NodeIndex::make(depth, index)).unwrap();

    assert_eq!(path_6, stored_path_6);
}

#[test]
fn get_node() {
    let path_6 = vec![int_to_node(7), int_to_node(45), int_to_node(123)];
    let hash_6 = int_to_node(6);
    let index = 6_u64;
    let depth = 3_u8;
    let set = MerklePathSet::new(depth).with_paths(vec![(index, hash_6, path_6)]).unwrap();

    assert_eq!(int_to_node(6u64), set.get_node(NodeIndex::make(depth, index)).unwrap());
}

#[test]
fn update_leaf() {
    let hash_4 = int_to_node(4);
    let hash_5 = int_to_node(5);
    let hash_6 = int_to_node(6);
    let hash_7 = int_to_node(7);
    let hash_45 = calculate_parent_hash(hash_4, 12u64, hash_5);
    let hash_67 = calculate_parent_hash(hash_6, 14u64, hash_7);

    let hash_0123 = int_to_node(123);

    let path_6 = vec![hash_7, hash_45, hash_0123];
    let path_5 = vec![hash_4, hash_67, hash_0123];
    let path_4 = vec![hash_5, hash_67, hash_0123];

    let index_6 = 6_u64;
    let index_5 = 5_u64;
    let index_4 = 4_u64;
    let depth = 3_u8;
    let mut set = MerklePathSet::new(depth)
        .with_paths(vec![(index_6, hash_6, path_6), (index_5, hash_5, path_5), (index_4, hash_4, path_4)])
        .unwrap();

    let new_hash_6 = int_to_leaf(100);
    let new_hash_5 = int_to_leaf(55);

    set.update_leaf(index_6, new_hash_6).unwrap();
    let new_path_4 = set.get_path(NodeIndex::make(depth, index_4)).unwrap();
    let new_hash_67 = calculate_parent_hash(new_hash_6, 14_u64, hash_7);
    assert_eq!(new_hash_67, new_path_4[1]);

    set.update_leaf(index_5, new_hash_5).unwrap();
    let new_path_4 = set.get_path(NodeIndex::make(depth, index_4)).unwrap();
    let new_path_6 = set.get_path(NodeIndex::make(depth, index_6)).unwrap();
    let new_hash_45 = calculate_parent_hash(new_hash_5, 13_u64, hash_4);
    assert_eq!(new_hash_45, new_path_6[1]);
    assert_eq!(new_hash_5, new_path_4[0]);
}

#[test]
fn depth_3_is_correct() {
    let t = tree3();
    let [a, b, _c, _d, e, f, g, h] = t.leaves;
    let (j, k, l, m, n, root) = (t.j, t.k, t.l, t.m, t.n, t.root);

    let mut set = MerklePathSet::new(3);

    let value = b;
    let index = 1;
    set.add_path(index, value, vec![a, j, n]).unwrap();
    assert_eq!(value, set.get_leaf(index).unwrap());
    assert_eq!(root, set.root());

    let value = e;
    let index = 4;
    set.add_path(index, value, vec![f, l, m]).unwrap();
    assert_eq!(value, set.get_leaf(index).unwrap());
    assert_eq!(root, set.root());

    let value = a;
    let index = 0;
    set.add_path(index, value, vec![b, j, n]).unwrap();
    assert_eq!(value, set.get_leaf(index).unwrap());
    assert_eq!(root, set.root());

    let value = h;
    let index = 7;
    set.add_path(index, value, vec![g, k, m]).unwrap();
    assert_eq!(value, set.get_leaf(index).unwrap());
    assert_eq!(root, set.root());
}

#[test]
fn merge_is_order_sensitive_and_not_identity() {
    let a = int_to_node(1);
    let b = int_to_node(2);
    let ab = merge(&a, &b);
    assert_ne!(ab, a);
    assert_ne!(ab, b);
    assert_ne!(ab, merge(&b, &a));
    assert_eq!(ab, merge(&a, &b));
}

#[test]
fn new_set_is_empty() {
    let set = MerklePathSet::new(4);
    assert_eq!(set.root(), [0u8; 32]);
    assert_eq!(set.depth(), 4);
    assert!(set.to_paths().is_empty());
    assert_eq!(set.get_leaf(3), Err(MerkleError::NodeNotInSet(NodeIndex::make(4, 3))));
}

#[test]
fn round_trip_of_every_inserted_path() {
    let t = tree3();
    let paths: [(u64, Vec<Digest>); 4] = [
        (1, vec![t.leaves[0], t.j, t.n]),
        (2, vec![t.leaves[3], t.i, t.n]),
        (5, vec![t.leaves[4], t.l, t.m]),
        (6, vec![t.leaves[7], t.k, t.m]),
    ];
    let mut set = MerklePathSet::new(3);
    for (index, path) in paths.iter() {
        set.add_path(*index, t.leaves[*index as usize], path.clone()).unwrap();
    }
    for (index, path) in paths.iter() {
        let address = NodeIndex::make(3, *index);
        assert_eq!(set.get_leaf(*index).unwrap(), t.leaves[*index as usize]);
        assert_eq!(set.get_node(address).unwrap(), t.leaves[*index as usize]);
        assert_eq!(&set.get_path(address).unwrap(), path);
    }
    assert_eq!(set.root(), t.root);
}

#[test]
fn sibling_leaf_is_answerable() {
    let t = tree3();
    let mut set = MerklePathSet::new(3);
    set.add_path(5, t.leaves[5], vec![t.leaves[4], t.l, t.m]).unwrap();
    assert_eq!(set.get_leaf(4).unwrap(), t.leaves[4]);
    assert_eq!(set.get_path(NodeIndex::make(3, 4)).unwrap(), vec![t.leaves[5], t.l, t.m]);
    assert_eq!(set.get_leaf(6), Err(MerkleError::NodeNotInSet(NodeIndex::make(3, 6))));
}

#[test]
fn depth_mismatch_is_rejected() {
    let t = tree3();
    let mut set = MerklePathSet::new(3);
    set.add_path(0, t.leaves[0], vec![t.leaves[1], t.j, t.n]).unwrap();
    let address = NodeIndex::make(2, 0);
    assert_eq!(set.get_node(address), Err(MerkleError::InvalidDepth { expected: 3, provided: 2 }));
    assert_eq!(set.get_path(address), Err(MerkleError::InvalidDepth { expected: 3, provided: 2 }));
    assert_eq!(
        set.add_path(2, t.leaves[2], vec![t.leaves[3], t.i]),
        Err(MerkleError::InvalidDepth { expected: 3, provided: 2 })
    );
    assert_eq!(
        set.add_path(2, t.leaves[2], vec![t.leaves[3], t.i, t.n, t.n]),
        Err(MerkleError::InvalidDepth { expected: 3, provided: 4 })
    );
}

#[test]
fn index_out_of_range_is_rejected() {
    let t = tree3();
    let mut set = MerklePathSet::new(3);
    assert_eq!(
        set.add_path(8, t.leaves[0], vec![t.leaves[1], t.j, t.n]),
        Err(MerkleError::InvalidIndex { depth: 3, value: 8 })
    );
    assert_eq!(set.get_leaf(9), Err(MerkleError::InvalidIndex { depth: 3, value: 9 }));
    assert_eq!(set.update_leaf(8, t.leaves[0]), Err(MerkleError::InvalidIndex { depth: 3, value: 8 }));
    assert_eq!(NodeIndex::new(3, 8), Err(MerkleError::InvalidIndex { depth: 3, value: 8 }));
    assert_eq!(NodeIndex::new(3, 7), Ok(NodeIndex::make(3, 7)));
    assert_eq!(NodeIndex::new(64, u64::MAX), Ok(NodeIndex::make(64, u64::MAX)));
}

#[test]
fn conflicting_root_leaves_state_untouched() {
    let t = tree3();
    let mut set = MerklePathSet::new(3);
    set.add_path(1, t.leaves[1], vec![t.leaves[0], t.j, t.n]).unwrap();
    let bad = int_to_node(99);
    let bad_root = merge(&t.m, &merge(&merge(&t.leaves[4], &bad), &t.l));
    let result = set.add_path(4, t.leaves[4], vec![bad, t.l, t.m]);
    match result {
        Err(MerkleError::ConflictingRoots { existing, computed }) => {
            assert_eq!(existing, t.root);
            assert_eq!(computed, bad_root);
        },
        other => panic!("expected a root conflict, got {:?}", other),
    }
    assert_eq!(set.root(), t.root);
    assert_eq!(set.get_leaf(1).unwrap(), t.leaves[1]);
    assert_eq!(set.get_path(NodeIndex::make(3, 1)).unwrap(), vec![t.leaves[0], t.j, t.n]);
    assert_eq!(set.get_leaf(4), Err(MerkleError::NodeNotInSet(NodeIndex::make(3, 4))));
    assert_eq!(set.to_paths().len(), 2);
}

#[test]
fn with_paths_stops_at_first_error() {
    let t = tree3();
    let result = MerklePathSet::new(3).with_paths(vec![
        (0, t.leaves[0], vec![t.leaves[1], t.j, t.n]),
        (2, t.leaves[2], vec![t.leaves[3], t.i]),
        (4, t.leaves[4], vec![t.leaves[5]]),
    ]);
    assert_eq!(result.err(), Some(MerkleError::InvalidDepth { expected: 3, provided: 2 }));
}

#[test]
fn update_leaf_of_missing_pair_fails() {
    let t = tree3();
    let mut set = MerklePathSet::new(3);
    set.add_path(0, t.leaves[0], vec![t.leaves[1], t.j, t.n]).unwrap();
    assert_eq!(
        set.update_leaf(2, int_to_node(50)),
        Err(MerkleError::NodeNotInSet(NodeIndex::make(3, 2)))
    );
    assert_eq!(set.root(), t.root);
}

#[test]
fn to_paths_lists_both_leaves_in_order() {
    let t = tree3();
    let mut set = MerklePathSet::new(3);
    set.add_path(7, t.leaves[7], vec![t.leaves[6], t.k, t.m]).unwrap();
    set.add_path(2, t.leaves[2], vec![t.leaves[3], t.i, t.n]).unwrap();
    let paths = set.to_paths();
    let indices: Vec<u64> = paths.iter().map(|(i, _)| *i).collect();
    assert_eq!(indices, vec![2, 3, 6, 7]);
    assert_eq!(paths[0].1.value, t.leaves[2]);
    assert_eq!(paths[0].1.path, vec![t.leaves[3], t.i, t.n]);
    assert_eq!(paths[1].1.value, t.leaves[3]);
    assert_eq!(paths[1].1.path, vec![t.leaves[2], t.i, t.n]);
    assert_eq!(paths[2].1.value, t.leaves[6]);
    assert_eq!(paths[2].1.path, vec![t.leaves[7], t.k, t.m]);
    assert_eq!(paths[3].1.value, t.leaves[7]);
    assert_eq!(paths[3].1.path, vec![t.leaves[6], t.k, t.m]);
    for (index, value_path) in paths.iter() {
        assert_eq!(fold_to_root(value_path.value, *index, &value_path.path), t.root);
    }
}

#[test]
fn update_propagates_to_paths_sharing_an_ancestor() {
    let t = tree3();
    let mut set = MerklePathSet::new(3);
    set.add_path(1, t.leaves[1], vec![t.leaves[0], t.j, t.n]).unwrap();
    set.add_path(4, t.leaves[4], vec![t.leaves[5], t.l, t.m]).unwrap();
    let new_b = int_to_node(200);
    set.update_leaf(1, new_b).unwrap();

    let new_i = merge(&t.leaves[0], &new_b);
    let new_m = merge(&new_i, &t.j);
    let new_root = merge(&new_m, &t.n);
    assert_eq!(set.root(), new_root);
    assert_eq!(set.get_leaf(1).unwrap(), new_b);

    let path_4 = set.get_path(NodeIndex::make(3, 4)).unwrap();
    assert_eq!(path_4, vec![t.leaves[5], t.l, new_m]);
    assert_eq!(fold_to_root(t.leaves[4], 4, &path_4), set.root());
    let path_0 = set.get_path(NodeIndex::make(3, 0)).unwrap();
    assert_eq!(fold_to_root(t.leaves[0], 0, &path_0), set.root());
}

#[test]
fn update_of_leaf_f_in_depth_3_tree() {
    let t = tree3();
    let mut set = MerklePathSet::new(3);
    set.add_path(0, t.leaves[0], vec![t.leaves[1], t.j, t.n]).unwrap();
    set.add_path(5, t.leaves[5], vec![t.leaves[4], t.l, t.m]).unwrap();
    set.add_path(7, t.leaves[7], vec![t.leaves[6], t.k, t.m]).unwrap();
    assert_eq!(set.root(), t.root);

    let new_f = int_to_node(60);
    set.update_leaf(5, new_f).unwrap();
    let new_k = merge(&t.leaves[4], &new_f);
    let new_n = merge(&new_k, &t.l);
    assert_eq!(set.root(), merge(&t.m, &new_n));
    assert_eq!(set.get_path(NodeIndex::make(3, 7)).unwrap(), vec![t.leaves[6], new_k, t.m]);
    assert_eq!(set.get_path(NodeIndex::make(3, 0)).unwrap(), vec![t.leaves[1], t.j, new_n]);
    assert_eq!(set.get_path(NodeIndex::make(3, 4)).unwrap(), vec![new_f, t.l, t.m]);
}
