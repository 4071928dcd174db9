//! What the two sides of a transfer send each other besides blocks.

use crate::cid::Cid;
use vstd::prelude::*;

verus! {

/// What the "client" of a pull asks for.
#[derive(Clone, Debug)]
pub struct PullRequest {
    /// Requested CIDs
    pub resources: Vec<Cid>,
    /// Bloom filter hash count
    pub bloom_hash_count: u32,
    /// Bloom filter bytes
    pub bloom_bytes: Vec<u8>,
    /// Roots whose entire subgraphs the sender should neither walk nor send
    pub skip_subgraph_roots: Vec<Cid>,
}

/// What the "server" of a push answers.
#[derive(Clone, Debug)]
pub struct PushResponse {
    /// Incomplete subgraph roots
    pub subgraph_roots: Vec<Cid>,
    /// Bloom filter hash count
    pub bloom_hash_count: u32,
    /// Bloom filter bytes
    pub bloom_bytes: Vec<u8>,
    /// Roots whose entire subgraphs the sender should neither walk nor send
    pub skip_subgraph_roots: Vec<Cid>,
}

impl PullRequest {
    /// Whether the requesting side has all the data that it needs.
    pub fn indicates_finished(&self) -> (r: bool)
        ensures
            r == (self.resources.len() == 0),
    {
        self.resources.len() == 0
    }
}

impl PushResponse {
    /// Whether the responding side has all the data that it needs.
    pub fn indicates_finished(&self) -> (r: bool)
        ensures
            r == (self.subgraph_roots.len() == 0),
    {
        self.subgraph_roots.len() == 0
    }
}

} // verus!
