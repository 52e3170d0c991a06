use mpt_indexer::MPT;

#[test]
fn test_insert_and_get() {
    let mut mpt = MPT::new();

    let _ = mpt.insert(vec![1, 2, 3], vec![4, 5, 6]);
    let _ = mpt.insert(vec![1, 2, 4], vec![7, 8, 9]);

    assert_eq!(mpt.get(&[1, 2, 3]), Some(&vec![4, 5, 6]));
    assert_eq!(mpt.get(&[1, 2, 4]), Some(&vec![7, 8, 9]));
    assert_eq!(mpt.get(&[1, 2, 5]), None);
}

#[test]
fn test_insert_duplicate_key() {
    let mut mpt = MPT::new();
    let _ = mpt.insert(vec![1, 2, 3], vec![4, 5, 6]);
    let _ = mpt.insert(vec![1, 2, 3], vec![7, 8, 9]);

    assert_eq!(mpt.get(&[1, 2, 3]), Some(&vec![7, 8, 9]));
}

#[test]
fn overwrite_changes_root_hash_like_a_fresh_insert() {
    let mut a = MPT::new();
    assert!(a.insert(vec![1, 2, 3], vec![4, 5, 6]).is_ok());
    assert!(a.insert(vec![1, 2, 3], vec![7, 8, 9]).is_ok());
    let mut b = MPT::new();
    assert!(b.insert(vec![1, 2, 3], vec![7, 8, 9]).is_ok());
    assert_eq!(a.root_hash(), b.root_hash());
}

#[test]
fn common_prefix_length_of_keys() {
    assert_eq!(MPT::common_prefix_length(b"cart", b"cat"), 2);
    assert_eq!(MPT::common_prefix_length(b"ab", b"abc"), 2);
    assert_eq!(MPT::common_prefix_length(b"", b"abc"), 0);
    assert_eq!(MPT::common_prefix_length(b"xyz", b"abc"), 0);
    assert_eq!(MPT::common_prefix_length(b"same", b"same"), 4);
}
