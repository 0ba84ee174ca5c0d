//! The canonical topological order of a DAG: Kahn's algorithm that always
//! takes the ready block with the smallest hash. It depends only on which
//! blocks are stored and on their parents, not on the order of insertion.
use core::cmp::Ordering;
use vstd::prelude::*;

use crate::block::{hash_lt, BlockHash};
use crate::dag::DagStore;

verus! {

/// `h` can come next after `prefix`: it is stored, not yet listed, and all
/// its parents are listed.
pub open spec fn ready(dag: &DagStore, prefix: Seq<BlockHash>, h: BlockHash) -> bool {
    &&& dag.has(h)
    &&& !prefix.contains(h)
    &&& forall|k: int|
        0 <= k < dag.header_of(h).parents@.len() ==> prefix.contains(
            #[trigger] dag.header_of(h).parents@[k],
        )
}

/// `s` is the canonical order of `dag`: every block once, each ready after
/// those before it, and each the smallest ready hash at its step.
pub open spec fn is_canonical_order(dag: &DagStore, s: Seq<BlockHash>) -> bool {
    &&& s.len() == dag.n()
    &&& forall|h: BlockHash| dag.has(h) ==> s.contains(h)
    &&& forall|t: int| 0 <= t < s.len() ==> #[trigger] ready(dag, s.take(t), s[t])
    &&& forall|t: int, h: BlockHash|
        0 <= t < s.len() && #[trigger] ready(dag, s.take(t), h) ==> h == s[t] || hash_lt(s[t], h)
}

/// The canonical order of `dag`.
pub open spec fn canon_of(dag: &DagStore) -> Seq<BlockHash> {
    choose|s: Seq<BlockHash>| is_canonical_order(dag, s)
}

/// Two stores hold the same blocks with the same parents, whatever order
/// they were inserted in.
pub open spec fn same_blocks(d1: &DagStore, d2: &DagStore) -> bool {
    &&& d1.n() == d2.n()
    &&& forall|h: BlockHash| d1.has(h) <==> d2.has(h)
    &&& forall|h: BlockHash| d1.has(h) ==> d1.header_of(h).parents@ == d2.header_of(h).parents@
}

/// The hashes of positions `ord`.
pub open spec fn hashes_of(dag: &DagStore, ord: Seq<usize>) -> Seq<BlockHash> {
    ord.map_values(|p: usize| dag.hash_at(p as int))
}

/// Number of `false` entries.
pub open spec fn count_false(s: Seq<bool>) -> nat
    decreases s.len(),
{
    if s.len() == 0 {
        0
    } else {
        count_false(s.drop_last()) + if s.last() {
            0nat
        } else {
            1nat
        }
    }
}

proof fn lemma_count_set(s: Seq<bool>, i: int)
    requires
        0 <= i < s.len(),
        !s[i],
    ensures
        count_false(s.update(i, true)) + 1 == count_false(s),
    decreases s.len(),
{
    let u = s.update(i, true);
    if i < s.len() - 1 {
        assert(u.drop_last() =~= s.drop_last().update(i, true));
        lemma_count_set(s.drop_last(), i);
    } else {
        assert(u.drop_last() =~= s.drop_last());
    }
}

proof fn lemma_count_zero(s: Seq<bool>)
    requires
        forall|i: int| 0 <= i < s.len() ==> #[trigger] s[i],
    ensures
        count_false(s) == 0,
    decreases s.len(),
{
    if s.len() > 0 {
        lemma_count_zero(s.drop_last());
    }
}

/// The canonical order is a function of the blocks and their parents: two
/// stores holding the same blocks with the same parents have the same one.
pub proof fn lemma_canonical_unique(d1: &DagStore, d2: &DagStore, s1: Seq<BlockHash>, s2: Seq<BlockHash>)
    requires
        same_blocks(d1, d2),
        is_canonical_order(d1, s1),
        is_canonical_order(d2, s2),
    ensures
        s1 == s2,
{
    lemma_canonical_prefix(d1, d2, s1, s2, s1.len() as int);
    assert(s1 =~= s2);
}

proof fn lemma_canonical_prefix(d1: &DagStore, d2: &DagStore, s1: Seq<BlockHash>, s2: Seq<BlockHash>, m: int)
    requires
        same_blocks(d1, d2),
        is_canonical_order(d1, s1),
        is_canonical_order(d2, s2),
        0 <= m <= s1.len(),
    ensures
        forall|t: int| 0 <= t < m ==> s1[t] == s2[t],
    decreases m,
{
    if m > 0 {
        let t = m - 1;
        lemma_canonical_prefix(d1, d2, s1, s2, t);
        let pre = s1.take(t);
        assert(s2.take(t) =~= pre);
        assert(ready(d1, pre, s1[t]));
        assert(ready(d2, pre, s2[t]));
        assert(ready(d2, pre, s1[t]));
        assert(ready(d1, pre, s2[t]));
        if s1[t] != s2[t] {
            assert(hash_lt(s2[t], s1[t]));
            assert(hash_lt(s1[t], s2[t]));
            crate::block::lemma_hash_lt_asymmetric(s1[t], s2[t]);
        }
    }
}

/// Stores with the same shape hold the same blocks with the same parents.
pub proof fn lemma_same_shape_blocks(d1: &DagStore, d2: &DagStore)
    requires
        d1.wf(),
        d2.wf(),
        d1.same_shape(d2),
    ensures
        same_blocks(d1, d2),
{
    assert forall|h: BlockHash| d1.has(h) <==> d2.has(h) by {
        if d1.has(h) {
            let i = d1.index_of(h);
            assert(d2.hash_at(i) == h);
        }
        if d2.has(h) {
            let i = d2.index_of(h);
            assert(d1.hash_at(i) == h);
        }
    }
    assert forall|h: BlockHash| d1.has(h) implies d1.header_of(h).parents@ == d2.header_of(h).parents@ by {
        let i = d1.index_of(h);
        d1.lemma_index_of(i);
        assert(d2.hash_at(i) == h);
        d2.lemma_index_of(i);
    }
}

/// A canonical order of one store is one of every store with the same
/// blocks and parents.
pub proof fn lemma_same_blocks_order(d1: &DagStore, d2: &DagStore, s: Seq<BlockHash>)
    requires
        same_blocks(d1, d2),
        is_canonical_order(d1, s),
    ensures
        is_canonical_order(d2, s),
{
    assert forall|p: Seq<BlockHash>, h: BlockHash| ready(d1, p, h) <==> ready(d2, p, h) by {}
    assert forall|t: int| 0 <= t < s.len() implies #[trigger] ready(d2, s.take(t), s[t]) by {
        assert(ready(d1, s.take(t), s[t]));
    }
    assert forall|t: int, h: BlockHash| 0 <= t < s.len() && #[trigger] ready(d2, s.take(t), h) implies h == s[t] || hash_lt(s[t], h) by {
        assert(ready(d1, s.take(t), h));
    }
}

/// Topological order: every parent of the block at position `i` of the
/// canonical order stands at an earlier position.
pub proof fn lemma_canonical_topological(dag: &DagStore, s: Seq<BlockHash>, i: int, p: BlockHash)
    requires
        is_canonical_order(dag, s),
        0 <= i < s.len(),
        dag.header_of(s[i]).parents@.contains(p),
    ensures
        exists|j: int| 0 <= j < i && s[j] == p,
{
    assert(ready(dag, s.take(i), s[i]));
    let k = choose|k: int| 0 <= k < dag.header_of(s[i]).parents@.len() && dag.header_of(s[i]).parents@[k] == p;
    assert(s.take(i).contains(p));
    let j = choose|j: int| 0 <= j < i && s.take(i)[j] == p;
    assert(s[j] == p);
}

/// A canonical order lists no block twice.
pub proof fn lemma_canonical_distinct(dag: &DagStore, s: Seq<BlockHash>)
    requires
        is_canonical_order(dag, s),
    ensures
        forall|a: int, b: int| 0 <= a < b < s.len() ==> #[trigger] s[a] != #[trigger] s[b],
{
    assert forall|a: int, b: int| 0 <= a < b < s.len() implies #[trigger] s[a] != #[trigger] s[b] by {
        assert(ready(dag, s.take(b), s[b]));
        assert(s.take(b)[a] == s[a]);
    }
}

/// `p` is listed in `ord`.
pub open spec fn listed(ord: Seq<usize>, p: int) -> bool {
    exists|t: int| 0 <= t < ord.len() && ord[t] == p
}

/// All parents of position `q` are marked in `taken`.
pub open spec fn parents_taken(dag: &DagStore, taken: Seq<bool>, q: int) -> bool {
    forall|k: int| 0 <= k < dag.graph()[q].len() ==> taken[#[trigger] dag.graph()[q][k]]
}

/// Whether all parents of position `q` are marked in `taken`.
fn all_parents_taken(dag: &DagStore, taken: &Vec<bool>, q: usize) -> (r: bool)
    requires
        dag.wf(),
        q < dag.n(),
        taken@.len() == dag.n(),
    ensures
        r == parents_taken(dag, taken@, q as int),
{
    let ps = dag.parent_positions(q);
    let mut k: usize = 0;
    while k < ps.len()
        invariant
            dag.wf(),
            q < dag.n(),
            taken@.len() == dag.n(),
            k <= ps@.len(),
            ps@.len() == dag.graph()[q as int].len(),
            forall|i: int| 0 <= i < ps@.len() ==> ps@[i] as int == dag.graph()[q as int][i],
            forall|i: int| 0 <= i < k ==> taken@[#[trigger] dag.graph()[q as int][i]],
        decreases ps@.len() - k,
    {
        assert(0 <= dag.graph()[q as int][k as int] < q);
        if !taken[ps[k]] {
            return false;
        }
        k = k + 1;
    }
    true
}

/// Translates `ready` at the hash of position `q` into marks, given that
/// `taken` marks exactly the listed positions.
proof fn lemma_ready_marks(dag: &DagStore, ord: Seq<usize>, taken: Seq<bool>, q: int)
    requires
        dag.wf(),
        0 <= q < dag.n(),
        taken.len() == dag.n(),
        forall|t: int| 0 <= t < ord.len() ==> (#[trigger] ord[t]) < dag.n(),
        forall|p: int| 0 <= p < dag.n() ==> (#[trigger] taken[p] <==> listed(ord, p)),
    ensures
        ready(dag, hashes_of(dag, ord), dag.hash_at(q)) <==> (!taken[q] && parents_taken(dag, taken, q)),
{
    let s = hashes_of(dag, ord);
    dag.lemma_index_of(q);
    let g = dag.graph();
    assert forall|p: int| 0 <= p < dag.n() implies (s.contains(#[trigger] dag.hash_at(p)) <==> taken[p]) by {
        if s.contains(dag.hash_at(p)) {
            let t = choose|t: int| 0 <= t < s.len() && s[t] == dag.hash_at(p);
            assert(dag.hash_at(ord[t] as int) == dag.hash_at(p));
            assert(ord[t] as int == p);
            assert(listed(ord, p));
        }
        if taken[p] {
            assert(listed(ord, p));
            let t = choose|t: int| 0 <= t < ord.len() && ord[t] == p;
            assert(s[t] == dag.hash_at(p));
        }
    }
    let h = dag.headers_seq()[q];
    if ready(dag, s, dag.hash_at(q)) {
        assert forall|k: int| 0 <= k < g[q].len() implies taken[#[trigger] g[q][k]] by {
            assert(0 <= g[q][k] < q);
            assert(dag.hash_at(g[q][k]) == h.parents@[k]);
            assert(s.contains(h.parents@[k]));
        }
    }
    if !taken[q] && parents_taken(dag, taken, q) {
        assert forall|k: int| 0 <= k < h.parents@.len() implies s.contains(#[trigger] h.parents@[k]) by {
            assert(0 <= g[q][k] < q);
            assert(taken[g[q][k]]);
            assert(dag.hash_at(g[q][k]) == h.parents@[k]);
        }
    }
}

/// Positions in canonical order.
pub fn canonical_order(dag: &DagStore) -> (ord: Vec<usize>)
    requires
        dag.wf(),
    ensures
        ord@.len() == dag.n(),
        forall|t: int| 0 <= t < ord@.len() ==> (#[trigger] ord@[t]) < dag.n(),
        is_canonical_order(dag, hashes_of(dag, ord@)),
{
    let n = dag.len();
    let mut taken: Vec<bool> = Vec::new();
    let mut i: usize = 0;
    while i < n
        invariant
            i <= n,
            taken@.len() == i,
            forall|a: int| 0 <= a < i ==> !(#[trigger] taken@[a]),
            count_false(taken@) == i,
        decreases n - i,
    {
        let ghost t0 = taken@;
        taken.push(false);
        proof {
            assert(taken@.drop_last() =~= t0);
            assert(!taken@.last());
        }
        i = i + 1;
    }
    let mut ord: Vec<usize> = Vec::new();
    let mut low: usize = 0;
    while low < n
        invariant
            dag.wf(),
            n == dag.n(),
            taken@.len() == n,
            ord@.len() + count_false(taken@) == n,
            forall|t: int| 0 <= t < ord@.len() ==> (#[trigger] ord@[t]) < n,
            forall|p: int| 0 <= p < n ==> (#[trigger] taken@[p] <==> listed(ord@, p)),
            low <= n,
            forall|p: int| 0 <= p < low ==> #[trigger] taken@[p],
            low < n ==> !taken@[low as int],
            forall|t: int|
                0 <= t < ord@.len() ==> #[trigger] ready(dag, hashes_of(dag, ord@).take(t), hashes_of(dag, ord@)[t]),
            forall|t: int, h: BlockHash|
                0 <= t < ord@.len() && #[trigger] ready(dag, hashes_of(dag, ord@).take(t), h) ==> h
                    == hashes_of(dag, ord@)[t] || hash_lt(hashes_of(dag, ord@)[t], h),
        decreases count_false(taken@),
    {
        // The smallest unlisted position is ready, so a ready block exists.
        let mut best: usize = n;
        let mut q: usize = 0;
        while q < n
            invariant
                dag.wf(),
                n == dag.n(),
                taken@.len() == n,
                low < n,
                !taken@[low as int],
                forall|p: int| 0 <= p < low ==> #[trigger] taken@[p],
                q <= n,
                best == n || (best < q && !taken@[best as int] && parents_taken(dag, taken@, best as int)),
                forall|p: int|
                    #![trigger taken@[p]]
                    0 <= p < q && !taken@[p] && parents_taken(dag, taken@, p) ==> best < n && (p == best
                        || hash_lt(dag.hash_at(best as int), dag.hash_at(p))),
                q > low ==> best < n,
            decreases n - q,
        {
            proof {
                if q == low {
                    let g = dag.graph();
                    assert forall|k: int| 0 <= k < g[low as int].len() implies taken@[#[trigger] g[low as int][k]] by {
                        assert(0 <= g[low as int][k] < low);
                    }
                }
            }
            if !taken[q] && all_parents_taken(dag, &taken, q) {
                let better = if best == n {
                    true
                } else {
                    match dag.header_at(q).hash.compare(&dag.header_at(best).hash) {
                        Ordering::Less => true,
                        _ => false,
                    }
                };
                let ghost ob = best;
                if better {
                    best = q;
                }
                proof {
                    if better && ob < n {
                        assert forall|p: int|
                            #![trigger taken@[p]]
                            0 <= p < q && !taken@[p] && parents_taken(dag, taken@, p) implies (p == best
                                || hash_lt(dag.hash_at(best as int), dag.hash_at(p))) by {
                            if p != ob as int {
                                crate::block::lemma_hash_lt_transitive(dag.hash_at(q as int), dag.hash_at(ob as int), dag.hash_at(p));
                            }
                        }
                    }
                    if !better {
                        assert(q != best);
                        assert(dag.hash_at(q as int) != dag.hash_at(best as int));
                    }
                }
            }
            q = q + 1;
        }
        let ghost s0 = hashes_of(dag, ord@);
        let ghost old_taken = taken@;
        let ghost old_ord = ord@;
        proof {
            lemma_ready_marks(dag, ord@, taken@, best as int);
            assert forall|h: BlockHash| ready(dag, s0, h) implies h == dag.hash_at(best as int) || hash_lt(dag.hash_at(best as int), h) by {
                let p = dag.index_of(h);
                dag.lemma_index_of(p);
                lemma_ready_marks(dag, ord@, taken@, p);
            }
            lemma_count_set(taken@, best as int);
        }
        ord.push(best);
        taken.set(best, true);
        proof {
            let s1 = hashes_of(dag, ord@);
            assert(s1.take(old_ord.len() as int) =~= s0);
            assert forall|t: int| 0 <= t < old_ord.len() implies #[trigger] s1.take(t) == s0.take(t) && s1[t] == s0[t] by {
                assert(s1.take(t) =~= s0.take(t));
            }
            assert forall|p: int| 0 <= p < n implies (#[trigger] taken@[p] <==> listed(ord@, p)) by {
                if p == best as int {
                    assert(ord@[old_ord.len() as int] == p);
                } else {
                    if listed(old_ord, p) {
                        let t = choose|t: int| 0 <= t < old_ord.len() && old_ord[t] == p;
                        assert(ord@[t] == p);
                    }
                    if listed(ord@, p) {
                        let t = choose|t: int| 0 <= t < ord@.len() && ord@[t] == p;
                        assert(t < old_ord.len());
                        assert(old_ord[t] == p);
                    }
                }
            }
            assert forall|t: int| 0 <= t < ord@.len() implies #[trigger] ready(dag, s1.take(t), s1[t]) by {
                if t < old_ord.len() {
                    assert(s1.take(t) == s0.take(t) && s1[t] == s0[t]);
                }
            }
            assert forall|t: int, h: BlockHash|
                0 <= t < ord@.len() && #[trigger] ready(dag, s1.take(t), h) implies h == s1[t] || hash_lt(s1[t], h) by {
                if t < old_ord.len() {
                    assert(s1.take(t) == s0.take(t) && s1[t] == s0[t]);
                }
            }
        }
        while low < n && taken[low]
            invariant
                n == dag.n(),
                taken@.len() == n,
                low <= n,
                forall|p: int| 0 <= p < low ==> #[trigger] taken@[p],
            decreases n - low,
        {
            low = low + 1;
        }
    }
    proof {
        let s = hashes_of(dag, ord@);
        lemma_count_zero(taken@);
        assert forall|h: BlockHash| dag.has(h) implies s.contains(h) by {
            let p = dag.index_of(h);
            assert(taken@[p]);
            let t = choose|t: int| 0 <= t < ord@.len() && ord@[t] == p;
            assert(s[t] == h);
        }
    }
    ord
}

} // verus!
