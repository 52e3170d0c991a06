//! The record that an indexer keeps for a live cell, in plain values.
use vstd::prelude::*;

verus! {

/// The position of a transaction within its block.
pub type TxIndex = u32;

/// A live cell with where it was created: the block's number and hash, the
/// transaction's index, the molecule-encoded cell output, and the cell's data.
pub struct DetailedLiveCell {
    pub block_number: u64,
    pub block_hash: [u8; 32],
    pub tx_index: TxIndex,
    pub cell_output: Vec<u8>,
    pub cell_data: Vec<u8>,
}

} // verus!
