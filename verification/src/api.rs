//! The request and response shapes the HTTP boundary exchanges, and the
//! admin key it gates the peer-registry endpoints with.

use crate::block::Block;
use crate::chain::ChainComparison;
use vstd::prelude::*;

verus! {

/// The secret the admin endpoints demand in a request header.
#[derive(Debug)]
pub struct AdminKey(pub String);

impl View for AdminKey {
    type V = Seq<char>;

    open spec fn view(&self) -> Seq<char> {
        self.0@
    }
}

impl AdminKey {
    pub fn new(s: &str) -> (k: AdminKey)
        ensures
            k@ == s@,
    {
        AdminKey(s.to_owned())
    }

    /// The key's text.
    pub fn get(&self) -> (r: String)
        ensures
            r@ == self@,
    {
        self.0.clone()
    }

    /// Whether the presented text equals the key.
    pub fn eq_str(&self, s: &str) -> (b: bool)
        ensures
            b == (self@ == s@),
    {
        self.0 == s.to_owned()
    }

    /// Whether the presented string equals the key.
    pub fn eq_string(&self, s: &String) -> (b: bool)
        ensures
            b == (self@ == s@),
    {
        self.0 == *s
    }
}

/// The envelope for endpoints with nothing else to say.
#[derive(Debug)]
pub enum TiafBoringResponse {
    Okay,
    Error(String),
}

/// The node identity shape.
#[derive(Debug)]
pub struct TiafNode {
    pub node_id: String,
}

/// The body of a data ingestion request.
#[derive(Debug)]
pub struct RecordPut {
    pub data: String,
}

/// The statistics snapshot a node reports.
#[derive(Debug)]
pub struct TiafStatistics {
    pub node_id: String,
    pub chain_length: u64,
    pub pool_size: u64,
    pub downstream_count: u64,
    pub upstream_count: u64,
}

/// A slice of a chain together with the chain's full length, as the tail and
/// since endpoints return it and the puller consumes it.
pub struct TiafPartialChain {
    pub total_length: u64,
    pub partial_blocks: Vec<Block>,
}

/// The outcome of the compare endpoint.
#[derive(Debug)]
pub struct TiafCompareResult {
    pub result: ChainComparison,
}

/// The upstream registry, as the admin endpoints exchange it.
#[derive(Debug)]
pub struct TiafUpstreams {
    pub hosts: Vec<String>,
    pub sweeping: bool,
}

/// The downstream registry, as the admin endpoints exchange it.
#[derive(Debug)]
pub struct TiafDownstreams {
    pub hosts: Vec<String>,
    pub sweeping: bool,
}

} // verus!
