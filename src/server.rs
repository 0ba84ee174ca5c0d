//! What the node's queries compute: the bluest tips, parent selection for a
//! smart submit, snapshots, score ranges and health counters. Serving them
//! over the network is left to the caller.
use vstd::prelude::*;

use crate::block::{hex_of, BlockHash};
use crate::coloring::ColoringOutput;
use crate::dag::DagStore;
use crate::errors::GhostDagError;
use crate::ordering::is_order_of;
use crate::schema::{DagSnapshot, LinearizedBlock, SmartSubmitResponse};
use crate::stream::{linearize_dag, record_ok};

verus! {

/// `y` is stored and no block lists it as a parent.
pub open spec fn is_tip(dag: &DagStore, y: BlockHash) -> bool {
    dag.has(y) && forall|z: BlockHash| !dag.is_child(y, z)
}

/// The number of parents used for a smart submit: `n` clamped to 3..=5.
pub fn clamp_parent_count(n: usize) -> (r: usize)
    ensures
        r == if n < 3 {
            3
        } else if n > 5 {
            5
        } else {
            n
        },
{
    if n < 3 {
        3
    } else if n > 5 {
        5
    } else {
        n
    }
}

/// Up to `count` tips with their blue scores, highest score first. Every
/// tip left out scores no higher than every tip returned.
pub fn bluest_tips(dag: &DagStore, count: usize) -> (r: Vec<(BlockHash, u64)>)
    requires
        dag.wf(),
    ensures
        r@.len() <= count,
        forall|i: int| 0 <= i < r@.len() ==> is_tip(dag, (#[trigger] r@[i]).0) && r@[i].1 == dag.header_of(r@[i].0).blue_score,
        forall|i: int, j: int| 0 <= i < j < r@.len() ==> (#[trigger] r@[i]).0 != (#[trigger] r@[j]).0,
        forall|i: int, j: int| 0 <= i < j < r@.len() ==> (#[trigger] r@[i]).1 >= (#[trigger] r@[j]).1,
        forall|y: BlockHash|
            is_tip(dag, y) && !(exists|i: int| 0 <= i < r@.len() && (#[trigger] r@[i]).0 == y) ==> r@.len() == count
                && forall|i: int| 0 <= i < r@.len() ==> dag.header_of(y).blue_score <= (#[trigger] r@[i]).1,
{
    let tips = dag.tips();
    let nt = tips.len();
    proof {
        assert forall|y: BlockHash| tips@.contains(y) <==> is_tip(dag, y) by {}
        assert forall|a: int| 0 <= a < nt implies dag.has(#[trigger] tips@[a]) by {
            assert(tips@.contains(tips@[a]));
        }
    }
    let mut scores: Vec<u64> = Vec::new();
    let mut i: usize = 0;
    while i < nt
        invariant
            dag.wf(),
            nt == tips@.len(),
            i <= nt,
            scores@.len() == i,
            forall|a: int| 0 <= a < i ==> #[trigger] scores@[a] == dag.header_of(tips@[a]).blue_score,
            forall|a: int| 0 <= a < nt ==> dag.has(#[trigger] tips@[a]),
            forall|y: BlockHash| tips@.contains(y) <==> is_tip(dag, y),
        decreases nt - i,
    {
        proof {
            assert(tips@.contains(tips@[i as int]));
        }
        let s = match dag.get(&tips[i]) {
            Ok(hdr) => hdr.blue_score,
            Err(_) => 0,
        };
        scores.push(s);
        i = i + 1;
    }
    let mut taken: Vec<bool> = Vec::new();
    i = 0;
    while i < nt
        invariant
            i <= nt,
            taken@.len() == i,
            forall|a: int| 0 <= a < i ==> !(#[trigger] taken@[a]),
        decreases nt - i,
    {
        taken.push(false);
        i = i + 1;
    }
    let mut r: Vec<(BlockHash, u64)> = Vec::new();
    let ghost mut picked: Seq<int> = Seq::empty();
    loop
        invariant
            nt == tips@.len(),
            scores@.len() == nt,
            taken@.len() == nt,
            r@.len() <= count,
            picked.len() == r@.len(),
            forall|q: int| 0 <= q < picked.len() ==> 0 <= #[trigger] picked[q] < nt,
            forall|q: int| 0 <= q < picked.len() ==> (#[trigger] r@[q]) == (tips@[picked[q]], scores@[picked[q]]),
            forall|a: int| 0 <= a < nt ==> (#[trigger] taken@[a] <==> exists|q: int| 0 <= q < picked.len() && picked[q] == a),
            forall|q: int, w: int| 0 <= q < w < picked.len() ==> #[trigger] picked[q] != #[trigger] picked[w],
            forall|q: int, w: int| 0 <= q < w < r@.len() ==> (#[trigger] r@[q]).1 >= (#[trigger] r@[w]).1,
            forall|a: int, q: int| 0 <= a < nt && !taken@[a] && 0 <= q < r@.len() ==> #[trigger] scores@[a] <= (#[trigger] r@[q]).1,
        ensures
            r@.len() == count || forall|a: int| 0 <= a < nt ==> #[trigger] taken@[a],
        decreases count - r@.len(),
    {
        if r.len() >= count {
            break;
        }
        let mut best: usize = nt;
        let mut j: usize = 0;
        while j < nt
            invariant
                nt == tips@.len(),
                scores@.len() == nt,
                taken@.len() == nt,
                j <= nt,
                best == nt || (best < j && !taken@[best as int]),
                forall|a: int| #![trigger taken@[a]] 0 <= a < j && !taken@[a] ==> best < nt && scores@[a] <= scores@[best as int],
            decreases nt - j,
        {
            let ghost ob = best;
            if !taken[j] && (best == nt || scores[j] > scores[best]) {
                best = j;
            }
            proof {
                assert forall|a: int| #![trigger taken@[a]] 0 <= a < j + 1 && !taken@[a] implies best < nt && scores@[a] <= scores@[best as int] by {
                    if a < j {
                        assert(ob < nt && scores@[a] <= scores@[ob as int]);
                    }
                }
            }
            j = j + 1;
        }
        if best == nt {
            proof {
                assert forall|a: int| 0 <= a < nt implies #[trigger] taken@[a] by {
                    if !taken@[a] {
                        assert(best < nt);
                    }
                }
            }
            break;
        }
        let ghost old_taken = taken@;
        let ghost old_picked = picked;
        taken.set(best, true);
        r.push((tips[best], scores[best]));
        proof {
            picked = picked.push(best as int);
            assert forall|a: int| 0 <= a < nt implies (#[trigger] taken@[a] <==> exists|q: int| 0 <= q < picked.len() && picked[q] == a) by {
                if a == best as int {
                    assert(picked[picked.len() - 1] == a);
                } else {
                    if old_taken[a] {
                        let q = choose|q: int| 0 <= q < old_picked.len() && old_picked[q] == a;
                        assert(picked[q] == a);
                    }
                    if exists|q: int| 0 <= q < picked.len() && picked[q] == a {
                        let q = choose|q: int| 0 <= q < picked.len() && picked[q] == a;
                        assert(q < old_picked.len());
                        assert(old_picked[q] == a);
                    }
                }
            }
            assert forall|q: int, w: int| 0 <= q < w < picked.len() implies #[trigger] picked[q] != #[trigger] picked[w] by {
                if w == picked.len() - 1 {
                    if picked[q] == best as int {
                        assert(old_picked[q] == best as int);
                        assert(old_taken[best as int]);
                    }
                } else {
                    assert(old_picked[q] != old_picked[w]);
                }
            }
        }
    }
    proof {
        assert forall|i: int| 0 <= i < r@.len() implies is_tip(dag, (#[trigger] r@[i]).0) && r@[i].1 == dag.header_of(r@[i].0).blue_score by {
            assert(tips@.contains(tips@[picked[i]]));
        }
        assert forall|i: int, j: int| 0 <= i < j < r@.len() implies (#[trigger] r@[i]).0 != (#[trigger] r@[j]).0 by {
            assert(picked[i] != picked[j]);
        }
        assert forall|y: BlockHash|
            is_tip(dag, y) && !(exists|i: int| 0 <= i < r@.len() && (#[trigger] r@[i]).0 == y) implies r@.len() == count
                && forall|i: int| 0 <= i < r@.len() ==> dag.header_of(y).blue_score <= (#[trigger] r@[i]).1 by {
            assert(tips@.contains(y));
            let a = choose|a: int| 0 <= a < tips@.len() && tips@[a] == y;
            if taken@[a] {
                let q = choose|q: int| 0 <= q < picked.len() && picked[q] == a;
                assert(r@[q].0 == y);
            }
            assert(!taken@[a]);
            assert(scores@[a] == dag.header_of(y).blue_score);
            assert forall|i: int| 0 <= i < r@.len() implies dag.header_of(y).blue_score <= (#[trigger] r@[i]).1 by {
                assert(scores@[a] <= r@[i].1);
            }
        }
    }
    r
}

/// The reply to a smart submit at time `now` that proposes `tips` (as
/// `bluest_tips` returns them) as parents: accepted when there is at least one.
pub fn smart_submit_response(tips: &Vec<(BlockHash, u64)>, now: u64) -> (r: SmartSubmitResponse)
    ensures
        r.selected_parents@.len() == tips@.len(),
        r.parent_blue_scores@.len() == tips@.len(),
        forall|i: int| 0 <= i < tips@.len() ==> (#[trigger] r.selected_parents@[i])@ == hex_of(tips@[i].0.0@),
        forall|i: int| 0 <= i < tips@.len() ==> #[trigger] r.parent_blue_scores@[i] == tips@[i].1,
        r.accepted == (tips@.len() > 0),
        r.suggested_timestamp == now,
{
    let mut parents: Vec<String> = Vec::new();
    let mut scores: Vec<u64> = Vec::new();
    let mut i: usize = 0;
    while i < tips.len()
        invariant
            i <= tips@.len(),
            parents@.len() == i,
            scores@.len() == i,
            forall|a: int| 0 <= a < i ==> (#[trigger] parents@[a])@ == hex_of(tips@[a].0.0@),
            forall|a: int| 0 <= a < i ==> #[trigger] scores@[a] == tips@[a].1,
        decreases tips@.len() - i,
    {
        parents.push(tips[i].0.to_hex());
        scores.push(tips[i].1);
        i = i + 1;
    }
    let accepted = parents.len() > 0;
    SmartSubmitResponse { accepted, selected_parents: parents, parent_blue_scores: scores, suggested_timestamp: now }
}

/// The record's blue score lies in `from_score..=to_score`.
pub open spec fn in_range(b: LinearizedBlock, from_score: u64, to_score: u64) -> bool {
    from_score <= b.blue_score && b.blue_score <= to_score
}

/// The records whose blue score lies in `from..=to`, in order.
pub fn linearize_range_filter(blocks: Vec<LinearizedBlock>, from_score: u64, to_score: u64) -> (r: Vec<LinearizedBlock>)
    ensures
        r@ == blocks@.filter(|b: LinearizedBlock| in_range(b, from_score, to_score)),
{
    let mut blocks = blocks;
    let ghost all = blocks@;
    let mut kept: Vec<LinearizedBlock> = Vec::new();
    while blocks.len() > 0
        invariant
            blocks@.len() <= all.len(),
            blocks@ == all.subrange(all.len() - blocks@.len(), all.len() as int),
            kept@ == all.take(all.len() - blocks@.len()).filter(|b: LinearizedBlock| in_range(b, from_score, to_score)),
        decreases blocks@.len(),
    {
        let ghost done = (all.len() - blocks@.len()) as int;
        let b = blocks.remove(0);
        proof {
            assert(all[done] == b);
            assert(all.take(done + 1) =~= all.take(done).push(b));
            all.take(done).lemma_filter_push(b, |b: LinearizedBlock| in_range(b, from_score, to_score));
            assert(blocks@ =~= all.subrange(all.len() - blocks@.len(), all.len() as int));
        }
        if from_score <= b.blue_score && b.blue_score <= to_score {
            kept.push(b);
        }
    }
    proof {
        assert(all.take(all.len() as int) =~= all);
    }
    kept
}

/// The last `n` records of the whole linearized DAG, with the bluest tip.
pub fn snapshot_of(dag: &DagStore, coloring: &ColoringOutput, n: usize, k: u64, now: u64) -> (r: Result<DagSnapshot, GhostDagError>)
    requires
        dag.wf(),
    ensures
        r is Ok,
        r->Ok_0.total_blocks == dag.n(),
        r->Ok_0.k == k,
        r->Ok_0.generated_at == now,
        r->Ok_0.blocks@.len() == if dag.n() > n {
            n as int
        } else {
            dag.n()
        },
        exists|s: Seq<BlockHash>|
            is_order_of(dag, s) && forall|p: int|
                0 <= p < r->Ok_0.blocks@.len() ==> record_ok(
                    dag,
                    coloring,
                    #[trigger] r->Ok_0.blocks@[p],
                    s[dag.n() - r->Ok_0.blocks@.len() + p],
                    dag.n() - r->Ok_0.blocks@.len() + p,
                ),
        dag.n() == 0 ==> r->Ok_0.tip@.len() == 0,
        dag.n() > 0 ==> exists|t: BlockHash|
            is_tip(dag, t) && r->Ok_0.tip@ == hex_of(t.0@) && forall|y: BlockHash|
                is_tip(dag, y) ==> dag.header_of(y).blue_score <= dag.header_of(t).blue_score,
{
    let all = match linearize_dag(dag, coloring) {
        Ok(b) => b,
        Err(e) => return Err(e),
    };
    let total = all.len();
    let start = if total > n {
        total - n
    } else {
        0
    };
    let mut all = all;
    let blocks = all.split_off(start);
    let top = bluest_tips(dag, 1);
    let tip = if top.len() > 0 {
        top[0].0.to_hex()
    } else {
        String::new()
    };
    proof {
        if dag.n() > 0 {
            assert(dag.has(dag.hash_at(0)));
            lemma_some_tip(dag);
            let t = top@[0].0;
            assert forall|y: BlockHash| is_tip(dag, y) implies dag.header_of(y).blue_score <= dag.header_of(t).blue_score by {
                if y != t {
                    assert(!(exists|i: int| 0 <= i < top@.len() && (#[trigger] top@[i]).0 == y));
                }
            }
        }
    }
    Ok(DagSnapshot { blocks, total_blocks: total as u64, k, tip, generated_at: now })
}

/// A non-empty store has a tip: its last block.
proof fn lemma_some_tip(dag: &DagStore)
    requires
        dag.wf(),
        dag.n() > 0,
    ensures
        is_tip(dag, dag.hash_at(dag.n() - 1)),
{
    let i = dag.n() - 1;
    dag.lemma_index_of(i);
    let h = dag.hash_at(i);
    if !is_tip(dag, h) {
        let z = choose|z: BlockHash| dag.is_child(h, z);
        let j = dag.index_of(z);
        assert(dag.hash_at(j) == z);
        crate::dag::lemma_topological(dag, j, h);
    }
}

/// The highest blue score of any block (0 for an empty store).
pub fn max_blue_score(dag: &DagStore) -> (r: u64)
    requires
        dag.wf(),
    ensures
        forall|i: int| 0 <= i < dag.n() ==> (#[trigger] dag.headers_seq()[i]).blue_score <= r,
        dag.n() == 0 ==> r == 0,
        dag.n() > 0 ==> exists|i: int| 0 <= i < dag.n() && (#[trigger] dag.headers_seq()[i]).blue_score == r,
{
    let hs = dag.headers();
    let mut best: u64 = 0;
    let mut i: usize = 0;
    while i < hs.len()
        invariant
            hs@ == dag.headers_seq(),
            i <= hs@.len(),
            forall|a: int| 0 <= a < i ==> (#[trigger] hs@[a]).blue_score <= best,
            i == 0 ==> best == 0,
            i > 0 ==> exists|a: int| 0 <= a < i && (#[trigger] hs@[a]).blue_score == best,
        decreases hs@.len() - i,
    {
        if i == 0 || hs[i].blue_score > best {
            best = hs[i].blue_score;
        }
        i = i + 1;
    }
    best
}

} // verus!
