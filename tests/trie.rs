use mpt_indexer::digest::hash_value;
use mpt_indexer::{DetailedLiveCell, MPTNode, Merkle, MerklePatriciaTree, TrieError};
use sha2::{Digest, Sha256};

fn sha(data: &[u8]) -> [u8; 32] {
    let mut h = Sha256::new();
    h.update(data);
    h.finalize().into()
}

#[test]
fn cat_car_cart_scenario() {
    let mut t = MerklePatriciaTree::new();
    assert_eq!(t.insert(b"cat", vec![1]), Ok(()));
    assert_eq!(t.insert(b"car", vec![2]), Ok(()));
    assert_eq!(t.insert(b"cart", vec![3]), Ok(()));
    assert_eq!(t.get(b"cat"), Some(&vec![1]));
    assert_eq!(t.get(b"car"), Some(&vec![2]));
    assert_eq!(t.get(b"cart"), Some(&vec![3]));
    assert_eq!(t.get(b"ca"), None);
    assert_eq!(t.remove(b"car"), Some(vec![2]));
    assert_eq!(t.get(b"car"), None);
    assert_eq!(t.get(b"cat"), Some(&vec![1]));
    assert_eq!(t.get(b"cart"), Some(&vec![3]));
    assert!(t.is_compressed());
}

#[test]
fn round_trip() {
    let mut t = MerklePatriciaTree::new();
    assert_eq!(t.insert(b"key", vec![9, 9]), Ok(()));
    assert_eq!(t.get(b"key"), Some(&vec![9, 9]));
    assert_eq!(t.get(b"ke"), None);
    assert_eq!(t.get(b"keys"), None);
}

#[test]
fn duplicate_rejected() {
    let mut t = MerklePatriciaTree::new();
    assert_eq!(t.insert(b"k", vec![1]), Ok(()));
    let before = t.root_hash();
    assert_eq!(t.insert(b"k", vec![2]), Err(TrieError::KeyExists));
    assert_eq!(t.get(b"k"), Some(&vec![1]));
    assert_eq!(t.root_hash(), before);
}

#[test]
fn deletion() {
    let mut t = MerklePatriciaTree::new();
    assert_eq!(t.insert(b"k", vec![5]), Ok(()));
    assert_eq!(t.remove(b"k"), Some(vec![5]));
    assert_eq!(t.get(b"k"), None);
    assert!(t.is_empty());
    assert_eq!(t.root_hash(), [0u8; 32]);
}

#[test]
fn remove_absent_keeps_digest() {
    let mut t = MerklePatriciaTree::new();
    assert_eq!(t.remove(b"x"), None);
    assert_eq!(t.root_hash(), [0u8; 32]);
    assert_eq!(t.insert(b"abc", vec![1]), Ok(()));
    assert_eq!(t.insert(b"abd", vec![2]), Ok(()));
    let before = t.root_hash();
    assert_eq!(t.remove(b"ab"), None);
    assert_eq!(t.remove(b"abx"), None);
    assert_eq!(t.remove(b"zzz"), None);
    assert_eq!(t.root_hash(), before);
}

#[test]
fn digest_independent_of_order() {
    let pairs: Vec<(&[u8], Vec<u8>)> = vec![
        (b"cat", vec![1]),
        (b"car", vec![2]),
        (b"cart", vec![3]),
        (b"", vec![4]),
        (b"dog", vec![5]),
    ];
    let mut a = MerklePatriciaTree::new();
    for (k, v) in pairs.iter() {
        assert_eq!(a.insert(k, v.clone()), Ok(()));
    }
    let mut b = MerklePatriciaTree::new();
    for (k, v) in pairs.iter().rev() {
        assert_eq!(b.insert(k, v.clone()), Ok(()));
    }
    assert_eq!(a.root_hash(), b.root_hash());
    assert!(a == b);
}

#[test]
fn insert_then_remove_restores_digest() {
    let mut t = MerklePatriciaTree::new();
    assert_eq!(t.insert(b"cat", vec![1]), Ok(()));
    assert_eq!(t.insert(b"cart", vec![3]), Ok(()));
    let before = t.root_hash();
    assert_eq!(t.insert(b"car", vec![2]), Ok(()));
    assert_ne!(t.root_hash(), before);
    assert_eq!(t.remove(b"car"), Some(vec![2]));
    assert_eq!(t.root_hash(), before);
}

#[test]
fn prefix_keys_are_independent() {
    let mut t = MerklePatriciaTree::new();
    assert_eq!(t.insert(b"ab", vec![1]), Ok(()));
    assert_eq!(t.insert(b"abc", vec![2]), Ok(()));
    assert_eq!(t.get(b"ab"), Some(&vec![1]));
    assert_eq!(t.get(b"abc"), Some(&vec![2]));
    assert_eq!(t.remove(b"ab"), Some(vec![1]));
    assert_eq!(t.get(b"abc"), Some(&vec![2]));
    assert!(t.is_compressed());
    let mut u = MerklePatriciaTree::new();
    assert_eq!(u.insert(b"abc", vec![2]), Ok(()));
    assert_eq!(u.insert(b"ab", vec![1]), Ok(()));
    assert_eq!(u.remove(b"abc"), Some(vec![2]));
    assert_eq!(u.get(b"ab"), Some(&vec![1]));
}

#[test]
fn empty_key_is_a_key() {
    let mut t = MerklePatriciaTree::new();
    assert_eq!(t.insert(b"", vec![7]), Ok(()));
    assert_eq!(t.insert(b"a", vec![8]), Ok(()));
    assert_eq!(t.get(b""), Some(&vec![7]));
    assert_eq!(t.remove(b""), Some(vec![7]));
    assert_eq!(t.get(b"a"), Some(&vec![8]));
    assert!(t.is_compressed());
}

#[test]
fn compression_cascades_on_remove() {
    let mut t = MerklePatriciaTree::new();
    for k in [&b"a"[..], b"ab", b"abc", b"abcd", b"b"] {
        assert_eq!(t.insert(k, k.to_vec()), Ok(()));
    }
    for k in [&b"abc"[..], b"ab", b"b", b"a"] {
        assert_eq!(t.remove(k), Some(k.to_vec()));
        assert!(t.is_compressed());
    }
    assert_eq!(t.get(b"abcd"), Some(&b"abcd".to_vec()));
    let mut fresh = MerklePatriciaTree::new();
    assert_eq!(fresh.insert(b"abcd", b"abcd".to_vec()), Ok(()));
    assert_eq!(t.root_hash(), fresh.root_hash());
}

#[test]
fn single_leaf_digest_is_sha256_of_label_and_value_digests() {
    let mut t = MerklePatriciaTree::new();
    assert_eq!(t.insert(b"a", vec![7, 8]), Ok(()));
    let encoded = bincode::serialize(&Some(vec![7u8, 8])).unwrap();
    assert_eq!(encoded, vec![1, 2, 0, 0, 0, 0, 0, 0, 0, 7, 8]);
    let mut input = sha(b"a").to_vec();
    input.extend_from_slice(&sha(&encoded));
    assert_eq!(t.root_hash(), sha(&input));
}

#[test]
fn branch_digest_folds_children_in_byte_order() {
    let mut t = MerklePatriciaTree::new();
    assert_eq!(t.insert(b"xb", vec![2]), Ok(()));
    assert_eq!(t.insert(b"xa", vec![1]), Ok(()));
    let leaf = |label: &[u8], v: Vec<u8>| {
        let mut input = sha(label).to_vec();
        input.extend_from_slice(&sha(&bincode::serialize(&Some(v)).unwrap()));
        sha(&input)
    };
    let mut input = sha(b"x").to_vec();
    input.extend_from_slice(&leaf(b"a", vec![1]));
    input.extend_from_slice(&leaf(b"b", vec![2]));
    assert_eq!(t.root_hash(), sha(&input));
}

#[test]
fn leaf_node_matches_single_key_trie() {
    let h = hash_value(&vec![3, 4]).unwrap();
    assert_ne!(h, [0u8; 32]);
    let leaf = MPTNode::new(b"leaf".to_vec(), vec![3, 4], h);
    assert_eq!(leaf.get(b"leaf"), Some(&vec![3, 4]));
    assert_eq!(leaf.get(b"lea"), None);
    let mut t = MerklePatriciaTree::new();
    assert_eq!(t.insert(b"leaf", vec![3, 4]), Ok(()));
    assert_eq!(leaf.hash, t.root_hash());
}

#[test]
fn trie_emptiness_follows_its_keys() {
    let mut t = MerklePatriciaTree::new();
    assert!(t.is_empty());
    assert_eq!(t.insert(b"", vec![]), Ok(()));
    assert!(!t.is_empty());
    assert_eq!(t.remove(b""), Some(vec![]));
    assert!(t.is_empty());
}

#[test]
fn detailed_live_cell_holds_plain_values() {
    let cell = DetailedLiveCell {
        block_number: 12,
        block_hash: [7u8; 32],
        tx_index: 3,
        cell_output: vec![1, 2],
        cell_data: vec![],
    };
    assert_eq!(cell.block_number, 12);
    assert_eq!(cell.tx_index, 3);
}
