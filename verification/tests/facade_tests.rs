use merkle_tree::codec::{decode_node, encode_binary_node, encode_edge_node, encode_leaf_node};
use merkle_tree::facade::{ContractsStorageTree, StorageCommitmentTree};
use merkle_tree::errors::TrieError;
use merkle_tree::felt::Felt;
use merkle_tree::node::Node;
use merkle_tree::reply::{BuiltinInstanceCounter, EmptyBuiltinInstanceCounter, Status, Type};
use merkle_tree::store::NodeStore;
use merkle_tree::trie::{Key, KEY_BITS};

fn felt(n: u64) -> Felt {
    Felt { l0: n, l1: 0, l2: 0, l3: 0 }
}

fn key(tag: u64) -> Key {
    let mut bits = vec![false; KEY_BITS];
    for i in 0..64 {
        bits[KEY_BITS - 1 - i] = (tag >> i) & 1 == 1;
    }
    Key::new(bits).unwrap()
}

#[test]
fn contracts_tree_set_get_commit_reload() {
    let mut store = NodeStore::new();
    let mut tree = ContractsStorageTree::load(Felt::zero());
    assert_eq!(tree.get(&store, &key(5)).unwrap(), None);
    tree.set(&store, &key(5), felt(500)).unwrap();
    tree.set(&store, &key(6), felt(600)).unwrap();
    assert_eq!(tree.get(&store, &key(5)).unwrap(), Some(felt(500)));
    let root = tree.commit_and_persist_changes(&mut store).unwrap();
    let reloaded = ContractsStorageTree::load(root);
    assert_eq!(reloaded.get(&store, &key(5)).unwrap(), Some(felt(500)));
    assert_eq!(reloaded.get(&store, &key(6)).unwrap(), Some(felt(600)));
    assert_eq!(reloaded.get(&store, &key(7)).unwrap(), None);
}

#[test]
fn load_never_fails_corruption_surfaces_on_access() {
    // loading an unknown root succeeds; the first read reports corruption
    let store = NodeStore::new();
    let tree = ContractsStorageTree::load(felt(123456));
    assert!(matches!(
        tree.get(&store, &key(1)),
        Err(TrieError::StorageCorruption)
    ));
    let mut writable = ContractsStorageTree::load(felt(123456));
    assert!(matches!(
        writable.set(&store, &key(1), felt(1)),
        Err(TrieError::StorageCorruption)
    ));
}

#[test]
fn commit_of_untouched_trie_returns_loaded_root() {
    let mut store = NodeStore::new();
    let untouched = StorageCommitmentTree::load(felt(777));
    let root = untouched.commit_and_persist_changes(&mut store).unwrap();
    assert_eq!(root, felt(777));
}

#[test]
fn commitment_tree_tracks_contract_state_hashes() {
    let mut store = NodeStore::new();
    let mut global = StorageCommitmentTree::load(Felt::zero());
    global.set(&store, &key(1), felt(0xaaaa)).unwrap();
    global.set(&store, &key(2), felt(0xbbbb)).unwrap();
    let root = global.commit_and_persist_changes(&mut store).unwrap();
    let reloaded = StorageCommitmentTree::load(root);
    assert_eq!(reloaded.get(&store, &key(1)).unwrap(), Some(felt(0xaaaa)));
    assert_eq!(reloaded.get(&store, &key(2)).unwrap(), Some(felt(0xbbbb)));

    let proof = reloaded.get_proof(&store, &key(1)).unwrap();
    assert!(!proof.is_empty());
    let listing = reloaded.dfs(&store).unwrap();
    assert_eq!(listing[0].path.len(), 0);
    assert_eq!(listing[0].hash, root);
}

#[test]
fn two_tries_use_their_own_tables() {
    // A leaf hashes to its value, so the global trie's leaf that carries a
    // contract root would collide with that contract root's own node: the
    // two tries persist in separate tables.
    let mut contracts_table = NodeStore::new();
    let mut global_table = NodeStore::new();
    let mut contract = ContractsStorageTree::load(Felt::zero());
    contract.set(&contracts_table, &key(3), felt(30)).unwrap();
    let contract_root = contract.commit_and_persist_changes(&mut contracts_table).unwrap();

    let mut global = StorageCommitmentTree::load(Felt::zero());
    global.set(&global_table, &key(3), contract_root).unwrap();
    let global_root = global.commit_and_persist_changes(&mut global_table).unwrap();

    let contract_again = ContractsStorageTree::load(contract_root);
    assert_eq!(
        contract_again.get(&contracts_table, &key(3)).unwrap(),
        Some(felt(30))
    );
    let global_again = StorageCommitmentTree::load(global_root);
    assert_eq!(
        global_again.get(&global_table, &key(3)).unwrap(),
        Some(contract_root)
    );
}

#[test]
fn node_encoding_round_trips() {
    let leaf = encode_leaf_node(felt(77));
    match decode_node(&leaf).unwrap() {
        Node::Leaf { value } => assert_eq!(value, felt(77)),
        _ => panic!("leaf expected"),
    }
    let binary = encode_binary_node(felt(1), felt(2));
    match decode_node(&binary).unwrap() {
        Node::Binary { left, right } => {
            assert!(matches!(*left, Node::Unresolved { hash } if hash == felt(1)));
            assert!(matches!(*right, Node::Unresolved { hash } if hash == felt(2)));
        }
        _ => panic!("binary expected"),
    }
    let edge = encode_edge_node(&vec![true, false, true], felt(9));
    match decode_node(&edge).unwrap() {
        Node::Edge { path, child } => {
            assert_eq!(path, vec![true, false, true]);
            assert!(matches!(*child, Node::Unresolved { hash } if hash == felt(9)));
        }
        _ => panic!("edge expected"),
    }
}

#[test]
fn decode_rejects_malformed_words() {
    // zero-valued leaf, bad tag, wrong length, path word that is not a bit
    assert!(decode_node(&vec![0, 0, 0, 0, 0]).is_err());
    assert!(decode_node(&vec![9, 1, 2]).is_err());
    assert!(decode_node(&vec![0, 1, 2, 3]).is_err());
    assert!(decode_node(&vec![2, 1, 7, 1, 0, 0, 0]).is_err());
    assert!(decode_node(&vec![2, 0, 1, 0, 0, 0]).is_err());
}

#[test]
fn reply_values_compare_by_content() {
    assert_eq!(Status::AcceptedOnL2, Status::AcceptedOnL2);
    assert_ne!(Status::Pending, Status::Rejected);
    assert_eq!(Type::Deploy, Type::Deploy);
    let empty = BuiltinInstanceCounter::Empty(EmptyBuiltinInstanceCounter {});
    assert_eq!(empty, empty.clone());
}
