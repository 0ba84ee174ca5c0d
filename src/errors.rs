//! Errors of DAG construction, coloring and ordering.
use vstd::prelude::*;

use crate::block::BlockHash;

verus! {

/// All errors that can arise during DAG construction, coloring, or ordering.
#[derive(Debug, Clone)]
pub enum GhostDagError {
    BlockNotFound(BlockHash),
    DuplicateBlock(BlockHash),
    MissingParent { child: BlockHash, parent: BlockHash },
    OrphanBlock(BlockHash),
    NoGenesis,
    InvalidK(u64),
    OrderingError(String),
    Internal(String),
}

pub type GhostDagResult<T> = Result<T, GhostDagError>;

} // verus!
