//! Recovery: merging fetched blocks, and the decision of one monitoring tick.
use vstd::prelude::*;

use crate::block::{BlockHash, BlockHeader};
use crate::coloring::{color_dag, colored, output_matches, selected_parent_chain, ColoringOutput};
use crate::dag::{is_bluest, DagStore};
use crate::errors::GhostDagError;
use crate::lca::{depth_of, greedy_path_intersection, has_diverged, lca_index, lca_matches, local_chain, LcaResult};

verus! {

/// `b` can be added to a store whose hashes are `known`.
pub open spec fn insertable(known: Set<BlockHash>, b: BlockHeader) -> bool {
    &&& !known.contains(b.hash)
    &&& b.parents@.len() > 0
    &&& forall|k: int| 0 <= k < b.parents@.len() ==> known.contains(#[trigger] b.parents@[k])
}

/// The headers that ingesting `blocks` in order adds to a store whose hashes
/// are `known`: each block that is new and whose parents are all present.
pub open spec fn ingested(known: Set<BlockHash>, blocks: Seq<BlockHeader>) -> Seq<BlockHeader>
    decreases blocks.len(),
{
    if blocks.len() == 0 {
        Seq::empty()
    } else if insertable(known, blocks[0]) {
        seq![blocks[0]] + ingested(known.insert(blocks[0].hash), blocks.drop_first())
    } else {
        ingested(known, blocks.drop_first())
    }
}

/// The hashes stored in `dag`.
pub open spec fn known_of(dag: &DagStore) -> Set<BlockHash> {
    Set::new(|h: BlockHash| dag.has(h))
}

/// Adds, in order, each block that is new and whose parents are present;
/// skips the others.
pub fn ingest_blocks(dag: &mut DagStore, blocks: Vec<BlockHeader>)
    requires
        old(dag).wf(),
    ensures
        final(dag).wf(),
        final(dag).headers_seq() == old(dag).headers_seq() + ingested(known_of(old(dag)), blocks@),
{
    let mut blocks = blocks;
    let ghost all = blocks@;
    let ghost known0 = known_of(dag);
    let ghost start = dag.headers_seq();
    let ghost mut added: Seq<BlockHeader> = Seq::empty();
    while blocks.len() > 0
        invariant
            dag.wf(),
            dag.headers_seq() == start + added,
            added + ingested(known_of(dag), blocks@) == ingested(known0, all),
        decreases blocks@.len(),
    {
        let b = blocks.remove(0);
        let ghost rest = blocks@;
        let ghost before = *dag;
        let ghost known = known_of(dag);
        proof {
            assert(rest == (seq![b] + rest).drop_first());
        }
        let r = dag.add_block(b);
        proof {
            let ins = insertable(known, b);
            assert(ins ==> forall|k: int| 0 <= k < b.parents@.len() ==> before.has(#[trigger] b.parents@[k]));
            if ins {
                assert(r is Ok);
                assert(known_of(dag) =~= known.insert(b.hash)) by {
                    assert forall|h: BlockHash| dag.has(h) <==> (before.has(h) || h == b.hash) by {
                        if dag.has(h) {
                            let i = choose|i: int| 0 <= i < dag.n() && #[trigger] dag.hash_at(i) == h;
                            if i < before.n() {
                                assert(before.hash_at(i) == h);
                            }
                        }
                        if before.has(h) {
                            let i = choose|i: int| 0 <= i < before.n() && #[trigger] before.hash_at(i) == h;
                            assert(dag.hash_at(i) == h);
                        }
                        if h == b.hash {
                            assert(dag.hash_at(before.n()) == h);
                        }
                    }
                }
                added = added + seq![b];
                assert(dag.headers_seq() =~= start + added);
                assert(added + ingested(known_of(dag), rest) =~= ingested(known0, all));
            } else {
                if r is Ok {
                    assert(!before.has(b.hash));
                    assert(b.parents@.len() > 0);
                    assert(forall|k: int| 0 <= k < b.parents@.len() ==> known.contains(#[trigger] b.parents@[k]));
                }
                assert(*dag == before);
                assert(added + ingested(known_of(dag), rest) =~= ingested(known0, all));
            }
        }
    }
    proof {
        assert(added =~= ingested(known0, all));
    }
}

/// Ingests a batch of blocks as `ingest_blocks` does, then re-colors the DAG.
pub fn ingest_and_recolor(dag: &mut DagStore, blocks: Vec<BlockHeader>, k: u64) -> (r: Result<ColoringOutput, GhostDagError>)
    requires
        old(dag).wf(),
    ensures
        final(dag).wf(),
        final(dag).headers_seq().len() == old(dag).n() + ingested(known_of(old(dag)), blocks@).len(),
        forall|i: int| 0 <= i < final(dag).n() ==> (#[trigger] final(dag).headers_seq()[i]).hash
            == (old(dag).headers_seq() + ingested(known_of(old(dag)), blocks@))[i].hash
            && final(dag).headers_seq()[i].parents@ == (old(dag).headers_seq() + ingested(
            known_of(old(dag)),
            blocks@,
        ))[i].parents@ && final(dag).headers_seq()[i].timestamp == (old(dag).headers_seq()
            + ingested(known_of(old(dag)), blocks@))[i].timestamp,
        k == 0 ==> r == Err::<ColoringOutput, GhostDagError>(GhostDagError::InvalidK(k)),
        k >= 1 && final(dag).n() == 0 ==> r == Err::<ColoringOutput, GhostDagError>(GhostDagError::NoGenesis),
        k >= 1 && final(dag).n() > 0 ==> r is Ok,
        r is Ok ==> colored(final(dag), k as int) && output_matches(final(dag), k, &r->Ok_0),
{
    ingest_blocks(dag, blocks);
    let ghost mid = *dag;
    let r = color_dag(dag, k);
    proof {
        assert forall|i: int| 0 <= i < dag.n() implies (#[trigger] dag.headers_seq()[i]).hash == mid.headers_seq()[i].hash
            && dag.headers_seq()[i].parents@ == mid.headers_seq()[i].parents@
            && dag.headers_seq()[i].timestamp == mid.headers_seq()[i].timestamp by {
            assert(dag.hash_at(i) == mid.hash_at(i));
        }
    }
    r
}

/// Settings of the recovery monitor.
#[derive(Clone, Debug)]
pub struct RecoveryConfig {
    pub check_interval_ms: u64,
    pub k: u64,
    pub max_recovery_batch: usize,
    pub partition_threshold_multiplier: u64,
}

impl Default for RecoveryConfig {
    /// One second between checks, `k = 3`, batches of 256, threshold 3k.
    fn default() -> (r: RecoveryConfig)
        ensures
            r.check_interval_ms == 1000,
            r.k == 3,
            r.max_recovery_batch == 256,
            r.partition_threshold_multiplier == 3,
    {
        RecoveryConfig { check_interval_ms: 1000, k: 3, max_recovery_batch: 256, partition_threshold_multiplier: 3 }
    }
}

/// What one monitoring tick decides.
#[derive(Clone, Debug)]
pub enum TickAction {
    /// No peer tip is known, or the DAG is empty.
    Skip,
    /// The peer tip is not stored: ask the agent to check divergence.
    CheckDivergence { network_tip: BlockHash },
    /// The local tip is on the peer chain.
    InSync,
    /// The divergence is deeper than the partition threshold.
    Partitioned { local_tip: BlockHash, network_tip: BlockHash, divergence_depth: u64 },
    /// Ask the agent to recover from the LCA with (a batch of) the missing blocks.
    Recover { lca: BlockHash, missing_blocks: Vec<BlockHash> },
    /// A core operation failed; the monitor goes on ticking.
    Failed { error: GhostDagError },
}

/// The first `max` entries of `s` (all of them when there are fewer).
pub open spec fn batch(s: Seq<BlockHash>, max: int) -> Seq<BlockHash> {
    if s.len() > max {
        s.subrange(0, max)
    } else {
        s
    }
}

/// Decides one tick of the recovery monitor from the DAG and the cached peer
/// tip. The peer chain is derived from the local DAG.
pub fn tick_decision(dag: &DagStore, network_tip: Option<BlockHash>, config: &RecoveryConfig) -> (r: TickAction)
    requires
        dag.wf(),
    ensures
        (network_tip is None || dag.n() == 0) ==> r is Skip,
        network_tip is Some && dag.n() > 0 && !dag.has(network_tip->0) ==> r == (TickAction::CheckDivergence { network_tip: network_tip->0 }),
        network_tip is Some && dag.n() > 0 && dag.has(network_tip->0) ==> ({
            let nt = network_tip->0;
            let net = local_chain(dag, nt);
            forall|lt: BlockHash| is_bluest(dag, lt) ==> {
                let lc = local_chain(dag, lt);
                let depth = depth_of(net, lc);
                let threshold = config.partition_threshold_multiplier as int * config.k as int;
                &&& net.contains(lt) ==> r is InSync
                &&& !net.contains(lt) && lca_index(net, lc) < 0 ==> r is Failed
                &&& !net.contains(lt) && lca_index(net, lc) >= 0 && depth > threshold ==> r == (TickAction::Partitioned {
                    local_tip: lt,
                    network_tip: nt,
                    divergence_depth: depth as u64,
                })
                &&& !net.contains(lt) && lca_index(net, lc) >= 0 && depth <= threshold ==> r is Recover
                    && r->Recover_lca == net[lca_index(net, lc)]
                    && r->Recover_missing_blocks@ == batch(
                        crate::lca::absent_from(dag, net.subrange(lca_index(net, lc) + 1, net.len() as int)),
                        config.max_recovery_batch as int,
                    )
            }
        }),
{
    let nt = match network_tip {
        Some(t) => t,
        None => return TickAction::Skip,
    };
    let local_tip = match dag.bluest_tip() {
        Some(t) => t,
        None => return TickAction::Skip,
    };
    if !dag.contains(&nt) {
        return TickAction::CheckDivergence { network_tip: nt };
    }
    let network_chain = match selected_parent_chain(dag, &nt) {
        Ok(c) => c,
        Err(e) => return TickAction::Failed { error: e },
    };
    if !has_diverged(&local_tip, network_chain.as_slice()) {
        proof {
            lemma_bluest_unique(dag, local_tip);
        }
        return TickAction::InSync;
    }
    proof {
        crate::coloring::lemma_chain_terminates(dag, dag.index_of(nt));
        lemma_bluest_unique(dag, local_tip);
    }
    let res: LcaResult = match greedy_path_intersection(dag, &local_tip, network_chain.as_slice()) {
        Ok(r) => r,
        Err(e) => return TickAction::Failed { error: e },
    };
    let threshold_exceeded = if config.k == 0 {
        res.divergence_depth > 0
    } else if config.partition_threshold_multiplier > u64::MAX / config.k {
        false
    } else {
        proof {
            assert(config.partition_threshold_multiplier * config.k <= u64::MAX) by (nonlinear_arith)
                requires config.partition_threshold_multiplier <= u64::MAX / config.k, config.k > 0;
        }
        res.divergence_depth > config.partition_threshold_multiplier * config.k
    };
    proof {
        if config.k > 0 && config.partition_threshold_multiplier > u64::MAX / config.k {
            assert(config.partition_threshold_multiplier as int * config.k as int > u64::MAX) by (nonlinear_arith)
                requires config.partition_threshold_multiplier > u64::MAX / config.k, config.k > 0;
        }
    }
    if threshold_exceeded {
        return TickAction::Partitioned {
            local_tip,
            network_tip: nt,
            divergence_depth: res.divergence_depth,
        };
    }
    let mut missing = res.missing_blocks;
    if missing.len() > config.max_recovery_batch {
        missing.truncate(config.max_recovery_batch);
    }
    let r = TickAction::Recover { lca: res.lca, missing_blocks: missing };
    proof {
        let net = local_chain(dag, nt);
        let lc = local_chain(dag, local_tip);
        assert(network_chain@ == net);
        assert(!net.contains(local_tip));
        assert(lca_matches(dag, net, lc, res));
        assert(r->Recover_missing_blocks@ == batch(
            crate::lca::absent_from(dag, net.subrange(lca_index(net, lc) + 1, net.len() as int)),
            config.max_recovery_batch as int,
        ));
    }
    r
}

/// Only one block is the bluest.
pub proof fn lemma_bluest_unique(dag: &DagStore, h: BlockHash)
    requires
        dag.wf(),
        is_bluest(dag, h),
    ensures
        forall|y: BlockHash| is_bluest(dag, y) ==> y == h,
{
    assert forall|y: BlockHash| is_bluest(dag, y) implies y == h by {
        let i = dag.index_of(h);
        let j = dag.index_of(y);
        assert(dag.headers_seq()[i].hash == h);
        assert(dag.headers_seq()[j].hash == y);
        let hi = dag.headers_seq()[i];
        let hj = dag.headers_seq()[j];
        if y != h {
            assert(hi.blue_score <= hj.blue_score);
            assert(hj.blue_score <= hi.blue_score);
            assert(crate::block::hash_lt(y, h));
            assert(crate::block::hash_lt(h, y));
            crate::block::lemma_hash_lt_asymmetric(y, h);
        }
    }
}

} // verus!
