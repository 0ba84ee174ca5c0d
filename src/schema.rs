//! Wire records of the linearized stream and of the node's queries. Their
//! field names are the JSON field names.
use vstd::prelude::*;

verus! {

/// One block of the linearized stream.
#[derive(Clone, Debug)]
pub struct LinearizedBlock {
    /// Block hash, hex.
    pub hash: String,
    pub blue_score: u64,
    /// Blue work, decimal.
    pub blue_work: String,
    /// Position in the total order.
    pub topological_index: u64,
    /// Parent hashes, hex.
    pub adjacency_list: Vec<String>,
    pub is_blue: bool,
    /// Selected parent, hex.
    pub selected_parent: Option<String>,
}

/// A snapshot of the linearized DAG.
#[derive(Clone, Debug)]
pub struct DagSnapshot {
    pub blocks: Vec<LinearizedBlock>,
    pub total_blocks: u64,
    pub k: u64,
    /// Hex hash of the bluest tip.
    pub tip: String,
    /// Milliseconds since the epoch.
    pub generated_at: u64,
}

/// Reply to a smart submit: the bluest tips proposed as parents.
#[derive(Clone, Debug)]
pub struct SmartSubmitResponse {
    pub accepted: bool,
    pub selected_parents: Vec<String>,
    pub parent_blue_scores: Vec<u64>,
    pub suggested_timestamp: u64,
}

/// A smart-submit request.
#[derive(Clone, Debug)]
pub struct SmartSubmitRequest {
    /// Opaque payload, hex.
    pub payload: String,
    /// How many parents to select; clamped to 3..=5.
    pub parent_count: usize,
}

/// Number of parents asked for when a request names none.
pub fn default_parent_count() -> (r: usize)
    ensures
        r == 3,
{
    3
}

} // verus!
