//! The configuration of a transfer.

use crate::cid_set::CidSet;
use bytes::Bytes;
use vstd::prelude::*;

verus! {

/// Configuration values (such as byte limits) for the CAR mirror protocol
#[derive(Clone, Debug)]
pub struct Config {
    /// The maximum number of bytes per request that a recipient should accept.
    ///
    /// This only has an effect in non-streaming versions of this protocol.
    /// In streaming versions, the validity of each block is checked while streaming.
    ///
    /// By default this is 2MB.
    pub receive_maximum: usize,
    /// The maximum number of bytes per block.
    ///
    /// As long as we can't verify the hash value of a block, we can't verify if we've
    /// been given the data we actually want or not, thus we need to put a maximum value
    /// on the byte size that we accept per block.
    ///
    /// By default this is 1MB.
    pub max_block_size: usize,
    /// The maximum number of roots per request that will be requested by the recipient
    /// to be sent by the sender.
    ///
    /// By default this is 1_000.
    pub max_roots_per_round: usize,
    /// Roots of subgraphs the receiving side does not need transferred: either because it
    /// already holds them *completely* or because it deliberately doesn't want them.
    ///
    /// Empty by default (no effect).
    pub skip_subgraph_roots: CidSet,
    /// Assume that when the receiver's bloom filter contains a CID, the
    /// receiver has that block's *entire subgraph*, and prune the send-side
    /// traversal below it.
    ///
    /// Off by default.
    pub bloom_implies_complete_subgraphs: bool,
}

impl Default for Config {
    fn default() -> (r: Config)
        ensures
            r.receive_maximum == 2_000_000,
            r.max_block_size == 1_000_000,
            r.max_roots_per_round == 1_000,
            r.skip_subgraph_roots@ == Set::<crate::cid::Cid>::empty(),
            !r.bloom_implies_complete_subgraphs,
    {
        Config {
            receive_maximum: 2_000_000,
            max_block_size: 1_000_000,
            max_roots_per_round: 1_000,
            skip_subgraph_roots: CidSet::new(),
            bloom_implies_complete_subgraphs: false,
        }
    }
}

/// Newtype around bytes that are supposed to represent a CAR file
#[derive(Clone, Debug)]
pub struct CarFile {
    /// The car file contents as bytes.
    /// (`CarFile` is cheap to clone, since `Bytes` is like an `Arc` wrapper around a byte buffer.)
    pub bytes: Bytes,
}

} // verus!
