//! Greedy path intersection: the latest common block of the local
//! selected-parent chain and a peer's chain.
use vstd::prelude::*;

use crate::block::BlockHash;
use crate::coloring::{selected_parent_chain, walk_down};
use crate::dag::DagStore;
use crate::errors::GhostDagError;

verus! {

/// Result of the greedy path intersection.
#[derive(Clone, Debug)]
pub struct LcaResult {
    /// The latest block of the peer chain that is on the local chain.
    pub lca: BlockHash,
    /// Peer-chain blocks after the LCA that the local DAG lacks, in peer order.
    pub missing_blocks: Vec<BlockHash>,
    /// Number of local-chain blocks strictly beyond the LCA.
    pub divergence_depth: u64,
}

/// The local selected-parent chain ending at `tip`, genesis first.
pub open spec fn local_chain(dag: &DagStore, tip: BlockHash) -> Seq<BlockHash> {
    walk_down(dag, dag.index_of(tip)).reverse()
}

/// The entries of `s` that `dag` does not hold, in order.
pub open spec fn absent_from(dag: &DagStore, s: Seq<BlockHash>) -> Seq<BlockHash>
    decreases s.len(),
{
    if s.len() == 0 {
        Seq::empty()
    } else if dag.has(s.last()) {
        absent_from(dag, s.drop_last())
    } else {
        absent_from(dag, s.drop_last()).push(s.last())
    }
}

/// The latest position below `m` of `net` whose block is on `chain`, or -1.
pub open spec fn latest_on(net: Seq<BlockHash>, chain: Seq<BlockHash>, m: int) -> int
    decreases m,
{
    if m <= 0 {
        -1
    } else if chain.contains(net[m - 1]) {
        m - 1
    } else {
        latest_on(net, chain, m - 1)
    }
}

/// The first position at or after `i` where `h` occurs in `s` (or `s.len()`).
pub open spec fn first_from(s: Seq<BlockHash>, h: BlockHash, i: int) -> int
    decreases s.len() - i,
{
    if i >= s.len() || i < 0 {
        s.len() as int
    } else if s[i] == h {
        i
    } else {
        first_from(s, h, i + 1)
    }
}

/// Position of the latest block of `net` that is on `chain` (-1 if none).
pub open spec fn lca_index(net: Seq<BlockHash>, chain: Seq<BlockHash>) -> int {
    latest_on(net, chain, net.len() as int)
}

/// Divergence depth: local-chain entries strictly beyond the LCA.
pub open spec fn depth_of(net: Seq<BlockHash>, chain: Seq<BlockHash>) -> int {
    chain.len() - 1 - first_from(chain, net[lca_index(net, chain)], 0)
}

/// `res` is the intersection of `net` with the local chain `chain`.
pub open spec fn lca_matches(dag: &DagStore, net: Seq<BlockHash>, chain: Seq<BlockHash>, res: LcaResult) -> bool {
    let i = lca_index(net, chain);
    &&& res.lca == net[i]
    &&& res.missing_blocks@ == absent_from(dag, net.subrange(i + 1, net.len() as int))
    &&& res.divergence_depth == depth_of(net, chain)
}

/// `latest_on` is the last position below `m` whose block is on `chain`.
proof fn lemma_latest_on(net: Seq<BlockHash>, chain: Seq<BlockHash>, m: int)
    requires
        0 <= m <= net.len(),
    ensures
        -1 <= latest_on(net, chain, m) < m,
        latest_on(net, chain, m) >= 0 ==> chain.contains(net[latest_on(net, chain, m)]),
        forall|j: int| latest_on(net, chain, m) < j < m ==> !chain.contains(#[trigger] net[j]),
        latest_on(net, chain, m) == -1 <==> forall|j: int| 0 <= j < m ==> !chain.contains(#[trigger] net[j]),
    decreases m,
{
    if m > 0 {
        lemma_latest_on(net, chain, m - 1);
    }
}

/// `first_from` is the first occurrence of `h` at or after `i`.
proof fn lemma_first_from(s: Seq<BlockHash>, h: BlockHash, i: int)
    requires
        0 <= i <= s.len(),
    ensures
        i <= first_from(s, h, i) <= s.len(),
        first_from(s, h, i) < s.len() ==> s[first_from(s, h, i)] == h,
        forall|q: int| i <= q < first_from(s, h, i) ==> s[q] != h,
    decreases s.len() - i,
{
    if i < s.len() && s[i] != h {
        lemma_first_from(s, h, i + 1);
    }
}

/// The LCA is on the peer chain and on the local chain, and no later block of
/// the peer chain is on the local chain; the depth counts the local-chain
/// entries after its first occurrence there.
pub proof fn lemma_lca_sound(net: Seq<BlockHash>, chain: Seq<BlockHash>)
    requires
        lca_index(net, chain) >= 0,
    ensures
        0 <= lca_index(net, chain) < net.len(),
        chain.contains(net[lca_index(net, chain)]),
        forall|j: int| lca_index(net, chain) < j < net.len() ==> !chain.contains(#[trigger] net[j]),
        exists|pos: int|
            0 <= pos < chain.len() && chain[pos] == net[lca_index(net, chain)] && (forall|q: int|
                0 <= q < pos ==> #[trigger] chain[q] != net[lca_index(net, chain)])
                && depth_of(net, chain) == chain.len() - 1 - pos,
{
    lemma_latest_on(net, chain, net.len() as int);
    let i = lca_index(net, chain);
    lemma_first_from(chain, net[i], 0);
    let pos = first_from(chain, net[i], 0);
    if pos == chain.len() {
        let q = choose|q: int| 0 <= q < chain.len() && chain[q] == net[i];
        assert(chain[q] != net[i]);
    }
}

/// Whether the local tip is missing from the peer chain.
pub fn has_diverged(local_tip: &BlockHash, network_chain: &[BlockHash]) -> (r: bool)
    ensures
        r == !network_chain@.contains(*local_tip),
{
    let mut i: usize = 0;
    while i < network_chain.len()
        invariant
            i <= network_chain@.len(),
            forall|j: int| 0 <= j < i ==> network_chain@[j] != *local_tip,
        decreases network_chain@.len() - i,
    {
        if network_chain[i].same(local_tip) {
            return false;
        }
        i = i + 1;
    }
    true
}

/// Position of the first occurrence of `h` in `s`.
fn position_of(s: &Vec<BlockHash>, h: &BlockHash) -> (r: Option<usize>)
    ensures
        match r {
            Some(p) => p < s@.len() && s@[p as int] == *h && forall|q: int| 0 <= q < p ==> s@[q] != *h,
            None => !s@.contains(*h),
        },
        r is Some ==> r->0 as int == first_from(s@, *h, 0),
{
    let mut i: usize = 0;
    while i < s.len()
        invariant
            i <= s@.len(),
            forall|q: int| 0 <= q < i ==> s@[q] != *h,
            first_from(s@, *h, 0) == first_from(s@, *h, i as int),
        decreases s@.len() - i,
    {
        if s[i].same(h) {
            return Some(i);
        }
        i = i + 1;
    }
    None
}

/// Intersects the local selected-parent chain from `local_tip` with the peer
/// chain `network_chain` (genesis first, peer tip last). Fails with
/// `Internal` for an empty peer chain or when the chains share no block, and
/// with `BlockNotFound` when the local tip is not stored.
pub fn greedy_path_intersection(
    local_dag: &DagStore,
    local_tip: &BlockHash,
    network_chain: &[BlockHash],
) -> (r: Result<LcaResult, GhostDagError>)
    requires
        local_dag.wf(),
    ensures
        network_chain@.len() == 0 ==> r is Err && r->Err_0 is Internal,
        network_chain@.len() > 0 && !local_dag.has(*local_tip) ==> r == Err::<LcaResult, GhostDagError>(
            GhostDagError::BlockNotFound(*local_tip),
        ),
        network_chain@.len() > 0 && local_dag.has(*local_tip) && lca_index(
            network_chain@,
            local_chain(local_dag, *local_tip),
        ) < 0 ==> r is Err && r->Err_0 is Internal,
        network_chain@.len() > 0 && local_dag.has(*local_tip) && lca_index(
            network_chain@,
            local_chain(local_dag, *local_tip),
        ) >= 0 ==> r is Ok,
        r is Ok ==> lca_matches(local_dag, network_chain@, local_chain(local_dag, *local_tip), r->Ok_0),
{
    if network_chain.len() == 0 {
        return Err(GhostDagError::Internal("network chain is empty".to_owned()));
    }
    let chain = match selected_parent_chain(local_dag, local_tip) {
        Ok(c) => c,
        Err(e) => return Err(e),
    };
    let ghost lc = local_chain(local_dag, *local_tip);
    let n = network_chain.len();
    let mut i: usize = n;
    loop
        invariant_except_break
            i <= n,
            latest_on(network_chain@, lc, n as int) == latest_on(network_chain@, lc, i as int),
        invariant
            chain@ == lc,
            n == network_chain@.len(),
            n > 0,
        ensures
            i <= n,
            latest_on(network_chain@, lc, n as int) == if i == 0 {
                -1
            } else {
                i - 1
            },
        decreases i,
    {
        if i == 0 {
            break;
        }
        if position_of(&chain, &network_chain[i - 1]).is_some() {
            break;
        }
        i = i - 1;
    }
    if i == 0 {
        return Err(GhostDagError::Internal("no common ancestor found between local and network chains".to_owned()));
    }
    let idx = i - 1;
    let lca = network_chain[idx];
    let mut missing: Vec<BlockHash> = Vec::new();
    let mut j: usize = idx + 1;
    while j < n
        invariant
            local_dag.wf(),
            n == network_chain@.len(),
            idx < n,
            idx + 1 <= j <= n,
            missing@ == absent_from(local_dag, network_chain@.subrange(idx + 1, j as int)),
        decreases n - j,
    {
        let h = network_chain[j];
        let ghost before = network_chain@.subrange(idx + 1, j as int);
        proof {
            assert(network_chain@.subrange(idx + 1, j + 1).drop_last() =~= before);
            assert(network_chain@.subrange(idx + 1, j + 1).last() == h);
        }
        if !local_dag.contains(&h) {
            missing.push(h);
        }
        j = j + 1;
    }
    proof {
        lemma_latest_on(network_chain@, lc, n as int);
    }
    let pos = match position_of(&chain, &lca) {
        Some(p) => p,
        None => {
            return Err(GhostDagError::Internal("no common ancestor found between local and network chains".to_owned()));
        },
    };
    let depth = (chain.len() - 1 - pos) as u64;
    let res = LcaResult { lca, missing_blocks: missing, divergence_depth: depth };
    Ok(res)
}

} // verus!
