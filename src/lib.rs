//! A GhostDAG block-DAG engine: an in-memory DAG store, PHANTOM k-cluster
//! coloring, the total order derived from it, the greedy path intersection
//! between local and peer chains, and the decisions of a self-healing agent.
use vstd::prelude::*;

pub mod agent;
pub mod block;
pub mod canon;
pub mod coloring;
pub mod dag;
pub mod errors;
pub mod lca;
pub mod ordering;
pub mod recovery;
pub mod schema;
pub mod server;
pub mod stream;

pub use agent::{AgentCommand, AgentCore, AgentEvent, AgentStateLabel};
pub use block::{BlockHash, BlockHeader};
pub use coloring::{color_dag, selected_parent_chain, ColoringOutput};
pub use dag::DagStore;
pub use errors::{GhostDagError, GhostDagResult};
pub use lca::{greedy_path_intersection, has_diverged, LcaResult};
pub use ordering::{compare_blocks, total_order, total_order_hashes, OrderedEntry};
pub use recovery::{ingest_and_recolor, RecoveryConfig, TickAction};
pub use schema::{DagSnapshot, LinearizedBlock, SmartSubmitRequest, SmartSubmitResponse};
pub use server::{bluest_tips, clamp_parent_count, linearize_range_filter, max_blue_score, smart_submit_response, snapshot_of};
pub use stream::{linearize_dag, StreamFrame};

verus! {

} // verus!
