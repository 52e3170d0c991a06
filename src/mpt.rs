//! A byte-string key/value store with overwrite semantics, kept in a Merkle
//! radix trie.
use crate::digest::hash_value;
use crate::node::TrieError;
use crate::trie::{Merkle, MerklePatriciaTree};
use vstd::prelude::*;

verus! {

/// A key/value store in which storing under a present key replaces its value.
pub struct MPT {
    trie: MerklePatriciaTree,
}

impl View for MPT {
    type V = Map<Seq<u8>, Seq<u8>>;

    closed spec fn view(&self) -> Map<Seq<u8>, Seq<u8>> {
        self.trie@
    }
}

impl MPT {
    pub closed spec fn wf(&self) -> bool {
        self.trie.well_formed()
    }

    /// The root digest of the underlying trie.
    pub closed spec fn root_digest(&self) -> Seq<u8> {
        self.trie.root_digest()
    }

    pub fn new() -> (r: MPT)
        ensures
            r.wf(),
            r@ == Map::<Seq<u8>, Seq<u8>>::empty(),
    {
        MPT { trie: MerklePatriciaTree::new() }
    }

    /// Stores `value` under `key`, replacing any value there.
    pub fn insert(&mut self, key: Vec<u8>, value: Vec<u8>) -> (r: Result<(), TrieError>)
        requires
            old(self).wf(),
        ensures
            final(self).wf(),
            r is Ok,
            final(self)@ == old(self)@.insert(key@, value@),
    {
        match hash_value(&value) {
            Some(h) => {
                let ghost o = self@;
                let _ = self.trie.remove(key.as_slice());
                let r = self.trie.insert_hashed(key.as_slice(), value, h);
                assert(self@ =~= o.insert(key@, value@));
                r
            },
            None => Err(TrieError::EncodingFailure),
        }
    }

    /// The value stored under `key`.
    pub fn get(&self, key: &[u8]) -> (r: Option<&Vec<u8>>)
        requires
            self.wf(),
        ensures
            match r {
                Some(v) => self@.contains_key(key@) && self@[key@] == v@,
                None => !self@.contains_key(key@),
            },
    {
        self.trie.get(key)
    }

    /// The root digest.
    pub fn root_hash(&self) -> (r: [u8; 32])
        ensures
            r@ == self.root_digest(),
    {
        self.trie.root_hash()
    }

    /// The length of the longest common prefix of two byte strings.
    pub fn common_prefix_length(key1: &[u8], key2: &[u8]) -> (r: usize)
        ensures
            r <= key1@.len(),
            r <= key2@.len(),
            key1@.subrange(0, r as int) == key2@.subrange(0, r as int),
            r < key1@.len() && r < key2@.len() ==> key1@[r as int] != key2@[r as int],
    {
        let min_len = if key1.len() < key2.len() {
            key1.len()
        } else {
            key2.len()
        };
        let mut i: usize = 0;
        while i < min_len
            invariant
                i <= min_len,
                min_len <= key1@.len(),
                min_len <= key2@.len(),
                min_len == key1@.len() || min_len == key2@.len(),
                forall|j: int| 0 <= j < i ==> key1@[j] == key2@[j],
            decreases min_len - i,
        {
            if key1[i] != key2[i] {
                assert(key1@.subrange(0, i as int) =~= key2@.subrange(0, i as int));
                return i;
            }
            i = i + 1;
        }
        assert(key1@.subrange(0, i as int) =~= key2@.subrange(0, i as int));
        i
    }
}

} // verus!
