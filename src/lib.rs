//! A Merkle radix trie: a path-compressed trie over byte-string keys in which
//! every node carries a SHA-256 digest of its own content and of its subtree.

pub mod digest;
pub mod indexer;
pub mod mpt;
pub mod node;
pub mod trie;

pub use indexer::{DetailedLiveCell, TxIndex};
pub use mpt::MPT;
pub use node::{MPTNode, TrieError};
pub use trie::{Merkle, MerklePatriciaTree};
