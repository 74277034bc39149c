use merkle_tree::felt::{hash_edge, hash_felts, Felt};
use merkle_tree::node::Node;
use merkle_tree::errors::TrieError;
use merkle_tree::merkle_proof::{check_proof, verify_proof, ProofNode};
use merkle_tree::store::NodeStore;
use merkle_tree::trie::{Key, MerkleTree, KEY_BITS};

fn felt(n: u64) -> Felt {
    Felt { l0: n, l1: 0, l2: 0, l3: 0 }
}

fn key_from_bits(bits: Vec<bool>) -> Key {
    Key::new(bits).unwrap()
}

/// All-zero key bits.
fn k_zero() -> Key {
    key_from_bits(vec![false; KEY_BITS])
}

/// Most-significant bit set, rest zero.
fn k_msb() -> Key {
    let mut bits = vec![false; KEY_BITS];
    bits[0] = true;
    key_from_bits(bits)
}

/// A key whose two lowest bits are set.
fn k_low_bits() -> Key {
    let mut bits = vec![false; KEY_BITS];
    bits[KEY_BITS - 1] = true;
    bits[KEY_BITS - 3] = true;
    key_from_bits(bits)
}

#[test]
fn empty_trie_lookup_absent() {
    let store = NodeStore::new();
    let tree = MerkleTree::load(&store, Felt::zero()).unwrap();
    assert_eq!(tree.get(&k_zero()), Felt::zero());
    assert_eq!(tree.get(&k_msb()), Felt::zero());
    let proof = tree.get_proof(&k_low_bits());
    assert_eq!(proof.len(), 0);
    assert!(verify_proof(&proof, &k_low_bits(), Felt::zero(), Felt::zero()));
}

#[test]
fn single_insert_root_is_edge_hash() {
    let mut store = NodeStore::new();
    let key = k_low_bits();
    let mut tree = MerkleTree::empty();
    tree.set(&key, felt(0x2a));
    let root = tree.commit(&mut store).unwrap();
    let mut path = vec![false; KEY_BITS];
    path[KEY_BITS - 1] = true;
    path[KEY_BITS - 3] = true;
    let expected = hash_edge(felt(0x2a), &path);
    assert_eq!(root, expected);

    let reloaded = MerkleTree::load(&store, root).unwrap();
    assert_eq!(reloaded.get(&key), felt(0x2a));
}

fn split_tree() -> (MerkleTree, NodeStore) {
    let mut tree = MerkleTree::empty();
    tree.set(&k_zero(), felt(1));
    tree.set(&k_msb(), felt(2));
    (tree, NodeStore::new())
}

fn split_root() -> Felt {
    let rest = vec![false; KEY_BITS - 1];
    hash_felts(hash_edge(felt(1), &rest), hash_edge(felt(2), &rest))
}

#[test]
fn split_root_hash() {
    let (tree, mut store) = split_tree();
    let root = tree.commit(&mut store).unwrap();
    assert_eq!(root, split_root());
}

#[test]
fn overwrite_changes_only_leaf() {
    let (mut tree, mut store) = split_tree();
    tree.set(&k_zero(), felt(3));
    let root = tree.commit(&mut store).unwrap();
    let rest = vec![false; KEY_BITS - 1];
    let expected = hash_felts(hash_edge(felt(3), &rest), hash_edge(felt(2), &rest));
    assert_eq!(root, expected);
}

#[test]
fn delete_collapses_to_single_edge() {
    let (mut tree, mut store) = split_tree();
    tree.set(&k_msb(), Felt::zero());
    let root = tree.commit(&mut store).unwrap();
    let expected = hash_edge(felt(1), &vec![false; KEY_BITS]);
    assert_eq!(root, expected);
}

#[test]
fn proof_of_split_tree() {
    let (tree, _) = split_tree();
    let proof = tree.get_proof(&k_zero());
    assert_eq!(proof.len(), 2);
    let rest = vec![false; KEY_BITS - 1];
    match &proof[0] {
        ProofNode::Binary { left, right } => {
            assert_eq!(*left, hash_edge(felt(1), &rest));
            assert_eq!(*right, hash_edge(felt(2), &rest));
        }
        _ => panic!("expected a binary node at the root"),
    }
    match &proof[1] {
        ProofNode::Edge { path, child } => {
            assert_eq!(*path, rest);
            assert_eq!(*child, felt(1));
        }
        _ => panic!("expected an edge below the root"),
    }
    assert!(verify_proof(&proof, &k_zero(), felt(1), split_root()));
    assert!(!verify_proof(&proof, &k_zero(), felt(99), split_root()));
}

#[test]
fn proof_bit_flip_fails() {
    let (tree, _) = split_tree();
    let proof = tree.get_proof(&k_zero());
    let mut tampered: Vec<ProofNode> = Vec::new();
    for p in &proof {
        tampered.push(match p {
            ProofNode::Binary { left, right } => ProofNode::Binary {
                left: *left,
                right: Felt { l0: right.l0 ^ 1, l1: right.l1, l2: right.l2, l3: right.l3 },
            },
            ProofNode::Edge { path, child } => ProofNode::Edge {
                path: path.clone(),
                child: *child,
            },
        });
    }
    assert!(!verify_proof(&tampered, &k_zero(), felt(1), split_root()));
    assert!(matches!(
        check_proof(&tampered, &k_zero(), felt(1), split_root()),
        Err(TrieError::InvalidProof)
    ));
}

#[test]
fn proof_of_absence() {
    let (tree, _) = split_tree();
    let mut bits = vec![false; KEY_BITS];
    bits[1] = true;
    let absent = key_from_bits(bits);
    let proof = tree.get_proof(&absent);
    assert!(verify_proof(&proof, &absent, Felt::zero(), split_root()));
    assert!(!verify_proof(&proof, &absent, felt(1), split_root()));
}

#[test]
fn root_independent_of_insertion_order() {
    let mut store_a = NodeStore::new();
    let mut store_b = NodeStore::new();
    let mut a = MerkleTree::empty();
    a.set(&k_zero(), felt(1));
    a.set(&k_msb(), felt(2));
    a.set(&k_low_bits(), felt(7));
    let mut b = MerkleTree::empty();
    b.set(&k_low_bits(), felt(9));
    b.set(&k_msb(), felt(2));
    b.set(&k_zero(), felt(1));
    b.set(&k_low_bits(), felt(7));
    assert_eq!(a.commit(&mut store_a).unwrap(), b.commit(&mut store_b).unwrap());
}

#[test]
fn delete_of_absent_key_keeps_root() {
    let (tree, mut store) = split_tree();
    let before = tree.commit(&mut store).unwrap();
    let mut tree = MerkleTree::load(&store, before).unwrap();
    let mut bits = vec![false; KEY_BITS];
    bits[7] = true;
    tree.set(&key_from_bits(bits), Felt::zero());
    let after = tree.commit(&mut store).unwrap();
    assert_eq!(before, after);
}

#[test]
fn insert_then_delete_restores_root() {
    let (tree, mut store) = split_tree();
    let before = tree.commit(&mut store).unwrap();
    let mut tree = MerkleTree::load(&store, before).unwrap();
    let extra = k_low_bits();
    tree.set(&extra, felt(5));
    tree.set(&extra, Felt::zero());
    let after = tree.commit(&mut store).unwrap();
    assert_eq!(before, after);
}

#[test]
fn round_trip_set_commit_reload_get() {
    let mut store = NodeStore::new();
    let mut tree = MerkleTree::empty();
    tree.set(&k_zero(), felt(11));
    tree.set(&k_msb(), felt(12));
    tree.set(&k_low_bits(), felt(13));
    let root = tree.commit(&mut store).unwrap();
    let reloaded = MerkleTree::load(&store, root).unwrap();
    assert_eq!(reloaded.get(&k_zero()), felt(11));
    assert_eq!(reloaded.get(&k_msb()), felt(12));
    assert_eq!(reloaded.get(&k_low_bits()), felt(13));
}

#[test]
fn invalid_key_length_rejected() {
    assert!(matches!(Key::new(vec![false; 250]), Err(TrieError::InvalidKey)));
    assert!(matches!(Key::new(vec![false; 252]), Err(TrieError::InvalidKey)));
    assert!(Key::new(vec![true; 251]).is_ok());
}

#[test]
fn store_refuses_conflicting_bytes() {
    let mut store = NodeStore::new();
    assert!(store.insert(felt(9), vec![1, 2, 3]).is_ok());
    assert!(store.insert(felt(9), vec![1, 2, 3]).is_ok());
    assert!(matches!(
        store.insert(felt(9), vec![4, 5, 6]),
        Err(TrieError::StorageCorruption)
    ));
}

#[test]
fn load_of_missing_root_is_corruption() {
    let store = NodeStore::new();
    assert!(matches!(
        MerkleTree::load(&store, felt(77)),
        Err(TrieError::StorageCorruption)
    ));
}

#[test]
fn dfs_lists_parents_before_children() {
    let (tree, _) = split_tree();
    let entries = tree.dfs();
    // root binary, then left edge and its leaf, then right edge and its leaf
    assert_eq!(entries.len(), 5);
    assert_eq!(entries[0].path.len(), 0);
    assert_eq!(entries[0].hash, split_root());
    assert_eq!(entries[1].path, vec![false]);
    assert_eq!(entries[2].path.len(), 251);
    assert_eq!(entries[2].hash, felt(1));
    assert_eq!(entries[3].path, vec![true]);
    assert_eq!(entries[4].hash, felt(2));
}

#[test]
fn recommit_of_unmodified_trie_keeps_root() {
    let (tree, mut store) = split_tree();
    let root = tree.commit(&mut store).unwrap();
    let reloaded = MerkleTree::load(&store, root).unwrap();
    let root_again = reloaded.commit(&mut store).unwrap();
    assert_eq!(root, root_again);
}

#[test]
fn node_at_supports_pruned_walks() {
    let (tree, _) = split_tree();
    // the root is the binary node; a visitor may descend only to the right,
    // skipping the whole left subtree
    let rest = vec![false; KEY_BITS - 1];
    match tree.node_at(&vec![]).unwrap() {
        Node::Binary { left, right } => {
            assert!(matches!(*left, Node::Unresolved { hash } if hash == hash_edge(felt(1), &rest)));
            assert!(matches!(*right, Node::Unresolved { hash } if hash == hash_edge(felt(2), &rest)));
        }
        _ => panic!("binary root expected"),
    }
    match tree.node_at(&vec![true]).unwrap() {
        Node::Edge { path, child } => {
            assert_eq!(path, rest);
            assert!(matches!(*child, Node::Unresolved { hash } if hash == felt(2)));
        }
        _ => panic!("right edge expected"),
    }
    // no node sits one bit into the right edge's path
    assert!(tree.node_at(&vec![true, true]).is_none());
    assert!(MerkleTree::empty().node_at(&vec![]).is_none());
}
