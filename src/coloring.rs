//! PHANTOM k-cluster coloring.
//!
//! Blocks are processed in the canonical topological order (Kahn's algorithm,
//! smallest ready hash first), so the result depends only on the blocks, their
//! parents and `k`. A block is blue when at most `k` of the blue blocks
//! processed before it lie in its anticone.
use vstd::prelude::*;

use core::cmp::Ordering;

use crate::block::{hash_lt, BlockHash};
use crate::canon::{canon_of, canonical_order, hashes_of, is_canonical_order, lemma_canonical_distinct, lemma_canonical_unique, lemma_same_shape_blocks, ready, same_blocks};
use crate::dag::{ancestry_of, anc, graph_of, parents_before, DagStore};
use crate::errors::GhostDagError;

verus! {

/// Among the first `m` positions, the blue ones (per `c`) that are not
/// ancestors of `x`.
pub open spec fn blue_anticone_upto(g: Seq<Seq<int>>, c: Seq<bool>, x: int, m: int) -> nat
    decreases m,
{
    if m <= 0 {
        0
    } else {
        blue_anticone_upto(g, c, x, m - 1) + if c[m - 1] && !anc(g, x, m - 1) {
            1nat
        } else {
            0nat
        }
    }
}

/// Among the first `m` positions, the blue ones (per `c`) that are
/// ancestors of `x`.
pub open spec fn blue_past_upto(g: Seq<Seq<int>>, c: Seq<bool>, x: int, m: int) -> nat
    decreases m,
{
    if m <= 0 {
        0
    } else {
        blue_past_upto(g, c, x, m - 1) + if c[m - 1] && anc(g, x, m - 1) {
            1nat
        } else {
            0nat
        }
    }
}

/// The colors of the first `m` blocks (true for blue): genesis is blue, and
/// each later block is blue when its blue anticone among the earlier blocks
/// has at most `k` members.
pub open spec fn colors(g: Seq<Seq<int>>, k: int, m: int) -> Seq<bool>
    decreases m,
{
    if m <= 0 {
        Seq::empty()
    } else {
        let c = colors(g, k, m - 1);
        c.push(m - 1 == 0 || blue_anticone_upto(g, c, m - 1, m - 1) <= k)
    }
}

/// Blue score of every position: the number of blue strict ancestors.
pub open spec fn scores(g: Seq<Seq<int>>, c: Seq<bool>) -> Seq<int> {
    Seq::new(g.len(), |x: int| blue_past_upto(g, c, x, x) as int)
}

/// `q` beats `b` as selected parent: higher score, or equal score and the
/// smaller hash.
pub open spec fn beats(hs: Seq<BlockHash>, sc: Seq<int>, q: int, b: int) -> bool {
    sc[q] > sc[b] || (sc[q] == sc[b] && hash_lt(hs[q], hs[b]))
}

/// Position of the best among the first `k` parents of `x`.
pub open spec fn best_parent(g: Seq<Seq<int>>, hs: Seq<BlockHash>, sc: Seq<int>, x: int, k: int) -> int
    decreases k,
{
    if k <= 1 {
        g[x][0]
    } else {
        let b = best_parent(g, hs, sc, x, k - 1);
        let q = g[x][k - 1];
        if beats(hs, sc, q, b) {
            q
        } else {
            b
        }
    }
}

/// Position of the selected parent of `x`.
pub open spec fn sel_parent(g: Seq<Seq<int>>, hs: Seq<BlockHash>, sc: Seq<int>, x: int) -> int {
    best_parent(g, hs, sc, x, g[x].len() as int)
}

/// Blue work of `x`: one for genesis, then the work of the selected parent
/// plus one when `x` is blue.
pub open spec fn work(g: Seq<Seq<int>>, hs: Seq<BlockHash>, c: Seq<bool>, x: int) -> int
    decreases x,
{
    if x <= 0 {
        1
    } else {
        let p = sel_parent(g, hs, scores(g, c), x);
        if 0 <= p < x {
            work(g, hs, c, p) + if c[x] {
                1int
            } else {
                0int
            }
        } else {
            0
        }
    }
}

/// Position of `h` in `s`.
pub open spec fn pos_in(s: Seq<BlockHash>, h: BlockHash) -> int {
    choose|i: int| 0 <= i < s.len() && s[i] == h
}

/// The parent links of `dag` as positions in the order `s`.
pub open spec fn canon_graph(dag: &DagStore, s: Seq<BlockHash>) -> Seq<Seq<int>> {
    Seq::new(
        s.len() as nat,
        |t: int|
            Seq::new(
                dag.header_of(s[t]).parents@.len() as nat,
                |k: int| pos_in(s, dag.header_of(s[t]).parents@[k]),
            ),
    )
}

/// The final colors, in canonical order, for parameter `k`.
pub open spec fn final_colors(dag: &DagStore, k: int) -> Seq<bool> {
    colors(canon_graph(dag, canon_of(dag)), k, dag.n())
}

/// Whether `h` is blue in the coloring of `dag` with parameter `k`.
pub open spec fn is_blue(dag: &DagStore, k: int, h: BlockHash) -> bool {
    dag.has(h) && final_colors(dag, k)[pos_in(canon_of(dag), h)]
}

/// The header of the block at canonical position `t` carries the coloring
/// fields of the `k` coloring.
pub open spec fn colored_at(dag: &DagStore, k: int, t: int) -> bool {
    let s = canon_of(dag);
    let g = canon_graph(dag, s);
    let c = colors(g, k, dag.n());
    let h = dag.header_of(s[t]);
    &&& h.blue_score == scores(g, c)[t]
    &&& h.blue_work == work(g, s, c, t)
    &&& h.selected_parent == if t == 0 {
        None
    } else {
        Some(s[sel_parent(g, s, scores(g, c), t)])
    }
}

/// Every header carries the coloring fields of the `k` coloring, computed
/// over the canonical order.
pub open spec fn colored(dag: &DagStore, k: int) -> bool {
    &&& is_canonical_order(dag, canon_of(dag))
    &&& forall|t: int| 0 <= t < dag.n() ==> #[trigger] colored_at(dag, k, t)
}

/// Result of a coloring pass.
#[derive(Clone, Debug)]
pub struct ColoringOutput {
    pub blue_set: Vec<BlockHash>,
    pub red_set: Vec<BlockHash>,
    pub k: u64,
}

/// What a successful coloring pass returns for `dag` and `k`.
pub open spec fn output_matches(dag: &DagStore, k: u64, out: &ColoringOutput) -> bool {
    &&& out.k == k
    &&& out.blue_set@.no_duplicates()
    &&& out.red_set@.no_duplicates()
    &&& forall|y: BlockHash| out.blue_set@.contains(y) <==> is_blue(dag, k as int, y)
    &&& forall|y: BlockHash| out.red_set@.contains(y) <==> (dag.has(y) && !is_blue(dag, k as int, y))
}

/// `colors` of `m` blocks has `m` entries.
pub proof fn lemma_colors_len(g: Seq<Seq<int>>, k: int, m: int)
    requires
        m >= 0,
    ensures
        colors(g, k, m).len() == m,
    decreases m,
{
    if m > 0 {
        lemma_colors_len(g, k, m - 1);
    }
}

/// Colors of earlier blocks do not change when more blocks are colored.
pub proof fn lemma_colors_prefix(g: Seq<Seq<int>>, k: int, m: int, n: int, j: int)
    requires
        0 <= j < m <= n,
    ensures
        colors(g, k, m)[j] == colors(g, k, n)[j],
    decreases n - m,
{
    if m < n {
        lemma_colors_prefix(g, k, m + 1, n, j);
        lemma_colors_len(g, k, m);
    }
}

/// A count over the first `m` positions is at most `m`.
pub proof fn lemma_upto_bounds(g: Seq<Seq<int>>, c: Seq<bool>, x: int, m: int)
    requires
        m >= 0,
    ensures
        blue_anticone_upto(g, c, x, m) <= m,
        blue_past_upto(g, c, x, m) <= m,
    decreases m,
{
    if m > 0 {
        lemma_upto_bounds(g, c, x, m - 1);
    }
}

/// Counts blue positions before `x` that are (or are not) ancestors of `x`.
fn count_blue(m: &Vec<Vec<bool>>, flags: &Vec<bool>, x: usize, ancestors: bool, Ghost(g): Ghost<Seq<Seq<int>>>) -> (r: u64)
    requires
        x < m@.len(),
        x <= flags@.len(),
        (m@[x as int])@.len() == m@.len(),
        forall|j: int| 0 <= j < m@.len() ==> (#[trigger] m@[x as int]@[j]) == anc(g, x as int, j),
    ensures
        ancestors ==> r == blue_past_upto(g, flags@, x as int, x as int),
        !ancestors ==> r == blue_anticone_upto(g, flags@, x as int, x as int),
{
    let mut cnt: u64 = 0;
    let mut j: usize = 0;
    while j < x
        invariant
            j <= x,
            x < m@.len(),
            x <= flags@.len(),
            (m@[x as int])@.len() == m@.len(),
            forall|a: int| 0 <= a < m@.len() ==> (#[trigger] m@[x as int]@[a]) == anc(g, x as int, a),
            ancestors ==> cnt == blue_past_upto(g, flags@, x as int, j as int),
            !ancestors ==> cnt == blue_anticone_upto(g, flags@, x as int, j as int),
            cnt <= j,
        decreases x - j,
    {
        if flags[j] && m[x][j] == ancestors {
            cnt = cnt + 1;
        }
        j = j + 1;
    }
    cnt
}

/// The coloring of a graph given by parent positions in topological order
/// (`cp`) with block hashes `hv`: colors, blue scores, blue work and
/// selected parents, position by position.
fn color_graph(cp: &Vec<Vec<usize>>, hv: &Vec<BlockHash>, k: u64) -> (r: (Vec<bool>, Vec<u64>, Vec<u64>, Vec<usize>))
    requires
        parents_before(cp@),
        hv@.len() == cp@.len(),
        forall|t: int| 0 < t < cp@.len() ==> (#[trigger] cp@[t])@.len() > 0,
    ensures
        r.0@ == colors(graph_of(cp@), k as int, cp@.len() as int),
        r.1@.len() == cp@.len(),
        r.2@.len() == cp@.len(),
        r.3@.len() == cp@.len(),
        forall|a: int| 0 <= a < cp@.len() ==> (#[trigger] r.1@[a]) as int == scores(graph_of(cp@), r.0@)[a],
        forall|a: int| 0 <= a < cp@.len() ==> (#[trigger] r.2@[a]) as int == work(graph_of(cp@), hv@, r.0@, a),
        forall|a: int| 0 < a < cp@.len() ==> (#[trigger] r.3@[a]) as int == sel_parent(graph_of(cp@), hv@, scores(graph_of(cp@), r.0@), a),
        forall|a: int| 0 < a < cp@.len() ==> (#[trigger] r.3@[a]) < a,
{
    let n = cp.len();
    let m = ancestry_of(cp);
    let ghost g = graph_of(cp@);
    let ghost hs = hv@;

    // Colors, in topological order.
    let mut flags: Vec<bool> = Vec::new();
    let mut x: usize = 0;
    while x < n
        invariant
            n == cp@.len(),
            g == graph_of(cp@),
            m@.len() == n,
            forall|a: int| 0 <= a < n ==> (#[trigger] m@[a])@.len() == n,
            forall|a: int, j: int| 0 <= a < n && 0 <= j < n ==> (#[trigger] m@[a]@[j]) == anc(g, a, j),
            x <= n,
            flags@ == colors(g, k as int, x as int),
        decreases n - x,
    {
        proof {
            lemma_colors_len(g, k as int, x as int);
        }
        if x == 0 {
            flags.push(true);
        } else {
            let cnt = count_blue(&m, &flags, x, false, Ghost(g));
            flags.push(cnt <= k);
        }
        x = x + 1;
    }
    let ghost c = flags@;
    proof {
        lemma_colors_len(g, k as int, n as int);
    }

    // Blue scores.
    let mut sc: Vec<u64> = Vec::new();
    x = 0;
    while x < n
        invariant
            n == cp@.len(),
            g == graph_of(cp@),
            g.len() == n,
            m@.len() == n,
            forall|a: int| 0 <= a < n ==> (#[trigger] m@[a])@.len() == n,
            forall|a: int, j: int| 0 <= a < n && 0 <= j < n ==> (#[trigger] m@[a]@[j]) == anc(g, a, j),
            flags@ == c,
            c.len() == n,
            x <= n,
            sc@.len() == x,
            forall|a: int| 0 <= a < x ==> (#[trigger] sc@[a]) as int == scores(g, c)[a],
        decreases n - x,
    {
        let cnt = count_blue(&m, &flags, x, true, Ghost(g));
        sc.push(cnt);
        x = x + 1;
    }

    // Selected parents and blue work.
    let mut works: Vec<u64> = Vec::new();
    let mut sps: Vec<usize> = Vec::new();
    x = 0;
    while x < n
        invariant
            parents_before(cp@),
            forall|t: int| 0 < t < n ==> (#[trigger] cp@[t])@.len() > 0,
            n == cp@.len(),
            g == graph_of(cp@),
            hs == hv@,
            hv@.len() == n,
            g.len() == n,
            flags@ == c,
            c.len() == n,
            sc@.len() == n,
            forall|a: int| 0 <= a < n ==> (#[trigger] sc@[a]) as int == scores(g, c)[a],
            x <= n,
            works@.len() == x,
            sps@.len() == x,
            forall|a: int| 0 <= a < x ==> (#[trigger] works@[a]) as int == work(g, hs, c, a),
            forall|a: int| 0 <= a < x ==> (#[trigger] works@[a]) <= a + 1,
            forall|a: int| 0 < a < x ==> (#[trigger] sps@[a]) as int == sel_parent(g, hs, scores(g, c), a),
            forall|a: int| 0 < a < x ==> (#[trigger] sps@[a]) < a,
        decreases n - x,
    {
        if x == 0 {
            works.push(1);
            sps.push(0);
        } else {
            let ghost scs = scores(g, c);
            let ps = &cp[x];
            assert(g[x as int].len() > 0);
            let mut best = ps[0];
            assert(0 <= g[x as int][0] < x);
            let mut kk: usize = 1;
            while kk < ps.len()
                invariant
                    parents_before(cp@),
                    n == cp@.len(),
                    g == graph_of(cp@),
                    hs == hv@,
                    hv@.len() == n,
                    0 < x < n,
                    1 <= kk <= ps@.len(),
                    ps@.len() == g[x as int].len(),
                    forall|q: int| 0 <= q < ps@.len() ==> ps@[q] as int == g[x as int][q],
                    sc@.len() == n,
                    forall|a: int| 0 <= a < n ==> (#[trigger] sc@[a]) as int == scs[a],
                    best < x,
                    best as int == best_parent(g, hs, scs, x as int, kk as int),
                decreases ps@.len() - kk,
            {
                let q = ps[kk];
                assert(0 <= g[x as int][kk as int] < x);
                let lt = match hv[q].compare(&hv[best]) {
                    Ordering::Less => true,
                    _ => false,
                };
                if sc[q] > sc[best] || (sc[q] == sc[best] && lt) {
                    best = q;
                }
                kk = kk + 1;
            }
            let w = works[best] + if flags[x] {
                1
            } else {
                0
            };
            works.push(w);
            sps.push(best);
        }
        x = x + 1;
    }

    (flags, sc, works, sps)
}

/// Runs the k-cluster coloring over the whole DAG: rewrites every header's
/// `selected_parent`, `blue_score` and `blue_work`, and returns the blue and
/// red sets. Fails with `InvalidK` for `k == 0` and `NoGenesis` on an empty
/// store.
pub fn color_dag(dag: &mut DagStore, k: u64) -> (r: Result<ColoringOutput, GhostDagError>)
    requires
        old(dag).wf(),
    ensures
        final(dag).wf(),
        final(dag).same_shape(old(dag)),
        k == 0 ==> r == Err::<ColoringOutput, GhostDagError>(GhostDagError::InvalidK(k))
            && *final(dag) == *old(dag),
        k >= 1 && old(dag).n() == 0 ==> r == Err::<ColoringOutput, GhostDagError>(
            GhostDagError::NoGenesis,
        ) && *final(dag) == *old(dag),
        k >= 1 && old(dag).n() > 0 ==> r is Ok,
        r is Ok ==> colored(final(dag), k as int) && output_matches(final(dag), k, &r->Ok_0),
{
    if k < 1 {
        return Err(GhostDagError::InvalidK(k));
    }
    if dag.genesis().is_none() {
        return Err(GhostDagError::NoGenesis);
    }
    let n = dag.len();
    let ghost old_dag = *dag;
    let (ord, cp, hv) = canonical_graph(dag);
    let ghost s = hv@;
    let ghost g = graph_of(cp@);
    let (flags, sc, works, sps) = color_graph(&cp, &hv, k);
    let ghost c = flags@;
    proof {
        lemma_colors_len(g, k as int, n as int);
    }

    // Write the fields back.
    let mut t: usize = 0;
    while t < n
        invariant
            dag.wf(),
            dag.same_shape(&old_dag),
            n == dag.n(),
            ord@.len() == n,
            forall|a: int| 0 <= a < n ==> (#[trigger] ord@[a]) < n,
            forall|a: int, b: int| 0 <= a < b < n ==> #[trigger] ord@[a] != #[trigger] ord@[b],
            hv@ == s,
            s.len() == n,
            forall|a: int| 0 <= a < n ==> #[trigger] s[a] == old_dag.hash_at(ord@[a] as int),
            g.len() == n,
            c.len() == n,
            sc@.len() == n,
            works@.len() == n,
            sps@.len() == n,
            forall|a: int| 0 <= a < n ==> (#[trigger] sc@[a]) as int == scores(g, c)[a],
            forall|a: int| 0 <= a < n ==> (#[trigger] works@[a]) as int == work(g, s, c, a),
            forall|a: int| 0 < a < n ==> (#[trigger] sps@[a]) as int == sel_parent(g, s, scores(g, c), a),
            forall|a: int| 0 < a < n ==> (#[trigger] sps@[a]) < a,
            t <= n,
            forall|a: int|
                0 <= a < t ==> {
                    let h = #[trigger] dag.headers_seq()[ord@[a] as int];
                    &&& h.blue_score == scores(g, c)[a]
                    &&& h.blue_work == work(g, s, c, a)
                    &&& h.selected_parent == if a == 0 {
                        None
                    } else {
                        Some(s[sel_parent(g, s, scores(g, c), a)])
                    }
                },
        decreases n - t,
    {
        let sp = if t == 0 {
            None
        } else {
            Some(hv[sps[t]])
        };
        dag.set_coloring(ord[t], sc[t], works[t], sp);
        t = t + 1;
    }
    proof {
        lemma_same_shape_blocks(dag, &old_dag);
        lemma_same_shape_blocks(&old_dag, dag);
        crate::canon::lemma_same_blocks_order(&old_dag, dag, s);
        lemma_canonical_unique(dag, dag, s, canon_of(dag));
        lemma_canon_graph_same(&old_dag, dag, s);
        assert forall|a: int| 0 <= a < n implies #[trigger] colored_at(dag, k as int, a) by {
            let i = ord@[a] as int;
            assert(dag.hash_at(i) == old_dag.hash_at(i));
            dag.lemma_index_of(i);
            assert(dag.headers_seq()[ord@[a] as int] == dag.header_of(s[a]));
        }
    }

    // The blue and red sets.
    let mut blue_set: Vec<BlockHash> = Vec::new();
    let mut red_set: Vec<BlockHash> = Vec::new();
    t = 0;
    while t < n
        invariant
            dag.wf(),
            n == dag.n(),
            hv@ == s,
            s.len() == n,
            flags@ == c,
            c.len() == n,
            forall|a: int, b: int| 0 <= a < b < n ==> #[trigger] s[a] != #[trigger] s[b],
            t <= n,
            blue_set@.no_duplicates(),
            red_set@.no_duplicates(),
            forall|y: BlockHash| blue_set@.contains(y) <==> exists|a: int| 0 <= a < t && c[a] && #[trigger] s[a] == y,
            forall|y: BlockHash| red_set@.contains(y) <==> exists|a: int| 0 <= a < t && !c[a] && #[trigger] s[a] == y,
        decreases n - t,
    {
        let ghost b0 = blue_set@;
        let ghost r0 = red_set@;
        proof {
            assert forall|y: BlockHash| (b0.contains(y) || r0.contains(y)) implies y != s[t as int] by {
                if b0.contains(y) {
                    let a = choose|a: int| 0 <= a < t && c[a] && #[trigger] s[a] == y;
                    assert(s[a] != s[t as int]);
                }
                if r0.contains(y) {
                    let a = choose|a: int| 0 <= a < t && !c[a] && #[trigger] s[a] == y;
                    assert(s[a] != s[t as int]);
                }
            }
        }
        if flags[t] {
            blue_set.push(hv[t]);
        } else {
            red_set.push(hv[t]);
        }
        proof {
            assert(!b0.contains(s[t as int]));
            assert(!r0.contains(s[t as int]));
            assert forall|a: int, b: int| 0 <= a < blue_set@.len() && 0 <= b < blue_set@.len() && a != b
                implies blue_set@[a] != blue_set@[b] by {
                if a < b0.len() && b < b0.len() {
                } else if a == b0.len() {
                    assert(b0.contains(blue_set@[b]));
                } else {
                    assert(b0.contains(blue_set@[a]));
                }
            }
            assert forall|a: int, b: int| 0 <= a < red_set@.len() && 0 <= b < red_set@.len() && a != b
                implies red_set@[a] != red_set@[b] by {
                if a < r0.len() && b < r0.len() {
                } else if a == r0.len() {
                    assert(r0.contains(red_set@[b]));
                } else {
                    assert(r0.contains(red_set@[a]));
                }
            }
            assert forall|y: BlockHash| blue_set@.contains(y) <==> exists|a: int| 0 <= a < t + 1 && c[a] && #[trigger] s[a] == y by {
                if blue_set@.contains(y) && !b0.contains(y) {
                    let q = choose|q: int| 0 <= q < blue_set@.len() && blue_set@[q] == y;
                    assert(q == b0.len());
                    assert(s[t as int] == y);
                }
                if b0.contains(y) {
                    let q = choose|q: int| 0 <= q < b0.len() && b0[q] == y;
                    assert(blue_set@[q] == y);
                }
                if exists|a: int| 0 <= a < t + 1 && c[a] && #[trigger] s[a] == y {
                    let a = choose|a: int| 0 <= a < t + 1 && c[a] && #[trigger] s[a] == y;
                    if a == t {
                        assert(blue_set@[b0.len() as int] == y);
                    }
                }
            }
            assert forall|y: BlockHash| red_set@.contains(y) <==> exists|a: int| 0 <= a < t + 1 && !c[a] && #[trigger] s[a] == y by {
                if red_set@.contains(y) && !r0.contains(y) {
                    let q = choose|q: int| 0 <= q < red_set@.len() && red_set@[q] == y;
                    assert(q == r0.len());
                    assert(s[t as int] == y);
                }
                if r0.contains(y) {
                    let q = choose|q: int| 0 <= q < r0.len() && r0[q] == y;
                    assert(red_set@[q] == y);
                }
                if exists|a: int| 0 <= a < t + 1 && !c[a] && #[trigger] s[a] == y {
                    let a = choose|a: int| 0 <= a < t + 1 && !c[a] && #[trigger] s[a] == y;
                    if a == t {
                        assert(red_set@[r0.len() as int] == y);
                    }
                }
            }
        }
        t = t + 1;
    }
    let out = ColoringOutput { blue_set, red_set, k };
    proof {
        assert(final_colors(dag, k as int) == c);
        assert forall|y: BlockHash| out.blue_set@.contains(y) <==> is_blue(dag, k as int, y) by {
            lemma_pos_in(dag, s, y);
        }
        assert forall|y: BlockHash| out.red_set@.contains(y) <==> (dag.has(y) && !is_blue(dag, k as int, y)) by {
            lemma_pos_in(dag, s, y);
        }
    }
    Ok(out)
}

/// `pos_in` finds a stored block in a canonical order, and finds the block
/// at position `t` at `t`.
pub proof fn lemma_pos_in(dag: &DagStore, s: Seq<BlockHash>, y: BlockHash)
    requires
        is_canonical_order(dag, s),
    ensures
        dag.has(y) ==> 0 <= pos_in(s, y) < s.len() && s[pos_in(s, y)] == y,
        forall|t: int| 0 <= t < s.len() && s[t] == y ==> pos_in(s, y) == t,
        (exists|t: int| 0 <= t < s.len() && s[t] == y) ==> dag.has(y),
{
    lemma_canonical_distinct(dag, s);
    if exists|t: int| 0 <= t < s.len() && s[t] == y {
        let t = choose|t: int| 0 <= t < s.len() && s[t] == y;
        assert(ready(dag, s.take(t), s[t]));
    }
    if dag.has(y) {
        assert(s.contains(y));
    }
}

/// Stores with the same blocks and parents have the same graph over `s`.
pub proof fn lemma_canon_graph_same(d1: &DagStore, d2: &DagStore, s: Seq<BlockHash>)
    requires
        same_blocks(d1, d2),
        is_canonical_order(d1, s),
    ensures
        canon_graph(d1, s) == canon_graph(d2, s),
{
    assert forall|t: int| 0 <= t < s.len() implies #[trigger] canon_graph(d1, s)[t] == canon_graph(d2, s)[t] by {
        assert(ready(d1, s.take(t), s[t]));
        assert(canon_graph(d1, s)[t] =~= canon_graph(d2, s)[t]);
    }
    assert(canon_graph(d1, s) =~= canon_graph(d2, s));
}

/// The canonical order of `dag` as insertion positions `ord`, the graph over
/// it (`cp`) and its hashes (`hv`).
fn canonical_graph(dag: &DagStore) -> (r: (Vec<usize>, Vec<Vec<usize>>, Vec<BlockHash>))
    requires
        dag.wf(),
        dag.n() > 0,
    ensures
        r.0@.len() == dag.n(),
        forall|a: int| 0 <= a < dag.n() ==> (#[trigger] r.0@[a]) < dag.n(),
        forall|a: int, b: int| 0 <= a < b < dag.n() ==> #[trigger] r.0@[a] != #[trigger] r.0@[b],
        r.2@ == canon_of(dag),
        forall|a: int| 0 <= a < dag.n() ==> #[trigger] r.2@[a] == dag.hash_at(r.0@[a] as int),
        is_canonical_order(dag, canon_of(dag)),
        graph_of(r.1@) == canon_graph(dag, canon_of(dag)),
        parents_before(r.1@),
        r.1@.len() == dag.n(),
        forall|t: int| 0 < t < dag.n() ==> (#[trigger] r.1@[t])@.len() > 0,
{
    let n = dag.len();
    let ord = canonical_order(dag);
    let ghost s = hashes_of(dag, ord@);
    proof {
        lemma_canonical_unique(dag, dag, s, canon_of(dag));
        lemma_canonical_distinct(dag, s);
    }
    let mut hv: Vec<BlockHash> = Vec::new();
    let mut rank: Vec<usize> = Vec::new();
    let mut t: usize = 0;
    while t < n
        invariant
            n == dag.n(),
            ord@.len() == n,
            forall|a: int| 0 <= a < n ==> (#[trigger] ord@[a]) < n,
            s == hashes_of(dag, ord@),
            t <= n,
            hv@ == s.take(t as int),
            rank@.len() == t,
            forall|a: int| 0 <= a < t ==> #[trigger] rank@[a] == 0,
        decreases n - t,
    {
        hv.push(dag.header_at(ord[t]).hash);
        rank.push(0);
        t = t + 1;
        proof {
            assert(hv@ =~= s.take(t as int));
        }
    }
    proof {
        assert(hv@ =~= s);
    }
    t = 0;
    while t < n
        invariant
            n == dag.n(),
            ord@.len() == n,
            forall|a: int| 0 <= a < n ==> (#[trigger] ord@[a]) < n,
            forall|a: int, b: int| 0 <= a < b < n ==> #[trigger] s[a] != #[trigger] s[b],
            s == hashes_of(dag, ord@),
            rank@.len() == n,
            t <= n,
            forall|a: int| 0 <= a < t ==> #[trigger] rank@[ord@[a] as int] == a,
        decreases n - t,
    {
        proof {
            assert forall|a: int| 0 <= a < t implies ord@[a] != ord@[t as int] by {
                assert(s[a] != s[t as int]);
            }
        }
        rank.set(ord[t], t);
        t = t + 1;
    }
    proof {
        assert forall|a: int, b: int| 0 <= a < b < n implies #[trigger] ord@[a] != #[trigger] ord@[b] by {
            assert(s[a] != s[b]);
        }
        assert forall|j: int| 0 <= j < n implies (#[trigger] rank@[j]) < n && ord@[rank@[j] as int] == j by {
            dag.lemma_index_of(j);
            assert(s.contains(dag.hash_at(j)));
            let a = choose|a: int| 0 <= a < s.len() && s[a] == dag.hash_at(j);
            assert(dag.hash_at(ord@[a] as int) == dag.hash_at(j));
            assert(rank@[ord@[a] as int] == a);
        }
    }
    let mut cp: Vec<Vec<usize>> = Vec::new();
    t = 0;
    while t < n
        invariant
            dag.wf(),
            n == dag.n(),
            ord@.len() == n,
            forall|a: int| 0 <= a < n ==> (#[trigger] ord@[a]) < n,
            s == hashes_of(dag, ord@),
            s == canon_of(dag),
            is_canonical_order(dag, s),
            forall|a: int, b: int| 0 <= a < b < n ==> #[trigger] s[a] != #[trigger] s[b],
            rank@.len() == n,
            forall|j: int| 0 <= j < n ==> (#[trigger] rank@[j]) < n && ord@[rank@[j] as int] == j,
            t <= n,
            cp@.len() == t,
            forall|a: int| 0 <= a < t ==> #[trigger] graph_of(cp@)[a] == canon_graph(dag, s)[a],
            forall|a: int, q: int| 0 <= a < t && 0 <= q < cp@[a]@.len() ==> (#[trigger] cp@[a]@[q]) < a,
            forall|a: int| 0 <= a < t ==> (#[trigger] cp@[a])@.len() == dag.header_of(s[a]).parents@.len(),
        decreases n - t,
    {
        let x = ord[t];
        let ps = dag.parent_positions(x);
        let ghost hdr = dag.header_of(s[t as int]);
        proof {
            dag.lemma_index_of(x as int);
            assert(hdr == dag.headers_seq()[x as int]);
            assert(ready(dag, s.take(t as int), s[t as int]));
        }
        let mut row: Vec<usize> = Vec::new();
        let mut q: usize = 0;
        while q < ps.len()
            invariant
                dag.wf(),
                n == dag.n(),
                x < n,
                t < n,
                hdr == dag.headers_seq()[x as int],
                ready(dag, s.take(t as int), s[t as int]),
                s[t as int] == dag.hash_at(x as int),
                s.len() == n,
                forall|a: int, b: int| 0 <= a < b < n ==> #[trigger] s[a] != #[trigger] s[b],
                s == hashes_of(dag, ord@),
                ord@.len() == n,
                rank@.len() == n,
                forall|j: int| 0 <= j < n ==> (#[trigger] rank@[j]) < n && ord@[rank@[j] as int] == j,
                ps@.len() == dag.graph()[x as int].len(),
                forall|i: int| 0 <= i < ps@.len() ==> ps@[i] as int == dag.graph()[x as int][i],
                q <= ps@.len(),
                row@.len() == q,
                forall|i: int| 0 <= i < q ==> (#[trigger] row@[i]) as int == pos_in(s, hdr.parents@[i]),
                forall|i: int| 0 <= i < q ==> (#[trigger] row@[i]) < t,
            decreases ps@.len() - q,
        {
            let j = ps[q];
            assert(0 <= dag.graph()[x as int][q as int] < x);
            let rj = rank[j];
            proof {
                let p = hdr.parents@[q as int];
                assert(dag.hash_at(j as int) == p);
                assert(s[rj as int] == p);
                assert forall|i: int| 0 <= i < s.len() && s[i] == p implies i == rj by {
                    if i != rj {
                        if i < rj {
                            assert(s[i] != s[rj as int]);
                        } else {
                            assert(s[rj as int] != s[i]);
                        }
                    }
                }
                assert(pos_in(s, p) == rj);
                assert(s.take(t as int).contains(p));
                let i = choose|i: int| 0 <= i < t && s.take(t as int)[i] == p;
                assert(s[i] == p);
            }
            row.push(rj);
            q = q + 1;
        }
        let ghost cp0 = cp@;
        cp.push(row);
        proof {
            assert(graph_of(cp@)[t as int] =~= canon_graph(dag, s)[t as int]);
            assert forall|a: int| 0 <= a < t + 1 implies #[trigger] graph_of(cp@)[a] == canon_graph(dag, s)[a] by {
                if a < t {
                    assert(cp@[a] == cp0[a]);
                    assert(graph_of(cp@)[a] == graph_of(cp0)[a]);
                }
            }
            assert forall|a: int, q: int| 0 <= a < t + 1 && 0 <= q < cp@[a]@.len() implies (#[trigger] cp@[a]@[q]) < a by {
                if a < t {
                    assert(cp@[a] == cp0[a]);
                }
            }
            assert forall|a: int| 0 <= a < t + 1 implies (#[trigger] cp@[a])@.len() == dag.header_of(s[a]).parents@.len() by {
                if a < t {
                    assert(cp@[a] == cp0[a]);
                }
            }
        }
        t = t + 1;
    }
    proof {
        assert(graph_of(cp@) =~= canon_graph(dag, s));
        lemma_canon_genesis_first(dag, s);
        assert forall|a: int| 0 < a < n implies (#[trigger] cp@[a])@.len() > 0 by {}
    }
    (ord, cp, hv)
}

/// In a canonical order, genesis comes first and every later block has a
/// parent.
pub proof fn lemma_canon_genesis_first(dag: &DagStore, s: Seq<BlockHash>)
    requires
        dag.wf(),
        dag.n() > 0,
        is_canonical_order(dag, s),
    ensures
        s[0] == dag.hash_at(0),
        forall|t: int| 0 < t < s.len() ==> dag.header_of(#[trigger] s[t]).parents@.len() > 0,
{
    lemma_canonical_distinct(dag, s);
    assert(ready(dag, s.take(0), s[0]));
    let i = dag.index_of(s[0]);
    dag.lemma_index_of(i);
    if dag.header_of(s[0]).parents@.len() > 0 {
        assert(s.take(0).contains(dag.header_of(s[0]).parents@[0]));
    }
    assert(dag.graph()[i].len() == 0);
    assert(i == 0);
    assert forall|t: int| 0 < t < s.len() implies dag.header_of(#[trigger] s[t]).parents@.len() > 0 by {
        assert(ready(dag, s.take(t), s[t]));
        let x = dag.index_of(s[t]);
        dag.lemma_index_of(x);
        assert(s[t] != s[0]);
        assert(x != 0);
        assert(dag.graph()[x].len() > 0);
    }
}

/// Blue and red sets partition the blocks: no block is in both, and every
/// block of the store is in one of them.
pub proof fn lemma_partition(dag: &DagStore, k: u64, out: &ColoringOutput)
    requires
        dag.wf(),
        output_matches(dag, k, out),
    ensures
        forall|y: BlockHash| !(out.blue_set@.contains(y) && out.red_set@.contains(y)),
        forall|y: BlockHash| (out.blue_set@.contains(y) || out.red_set@.contains(y)) <==> dag.has(y),
{
    assert forall|y: BlockHash| !(out.blue_set@.contains(y) && out.red_set@.contains(y)) by {
        if out.blue_set@.contains(y) {
            assert(is_blue(dag, k as int, y));
        }
    }
    assert forall|y: BlockHash| (out.blue_set@.contains(y) || out.red_set@.contains(y)) <==> dag.has(y) by {
        assert(out.blue_set@.contains(y) <==> is_blue(dag, k as int, y));
        assert(out.red_set@.contains(y) <==> (dag.has(y) && !is_blue(dag, k as int, y)));
    }
}

/// Genesis is in the blue set of every successful coloring.
pub proof fn lemma_genesis_in_blue_set(dag: &DagStore, k: u64, out: &ColoringOutput)
    requires
        dag.wf(),
        dag.n() > 0,
        colored(dag, k as int),
        output_matches(dag, k, out),
    ensures
        out.blue_set@.contains(dag.hash_at(0)),
{
    lemma_genesis_blue(dag, k as int);
}

/// Genesis is always blue.
pub proof fn lemma_genesis_blue(dag: &DagStore, k: int)
    requires
        dag.wf(),
        dag.n() > 0,
        is_canonical_order(dag, canon_of(dag)),
    ensures
        is_blue(dag, k, dag.hash_at(0)),
{
    let s = canon_of(dag);
    let g = canon_graph(dag, s);
    dag.lemma_index_of(0);
    lemma_canon_genesis_first(dag, s);
    lemma_pos_in(dag, s, dag.hash_at(0));
    lemma_colors_prefix(g, k, 1, dag.n(), 0);
    lemma_colors_len(g, k, 0);
    assert(colors(g, k, 1) == colors(g, k, 0).push(true));
}

/// With `k` at least the number of blocks, every block is blue.
pub proof fn lemma_high_k_all_blue(dag: &DagStore, k: int, y: BlockHash)
    requires
        dag.wf(),
        k >= dag.n(),
        dag.has(y),
        is_canonical_order(dag, canon_of(dag)),
    ensures
        is_blue(dag, k, y),
{
    let s = canon_of(dag);
    let g = canon_graph(dag, s);
    lemma_pos_in(dag, s, y);
    let x = pos_in(s, y);
    lemma_colors_prefix(g, k, x + 1, dag.n(), x);
    lemma_colors_len(g, k, x);
    lemma_upto_bounds(g, colors(g, k, x), x, x);
    let c = colors(g, k, x);
    assert(colors(g, k, x + 1) == c.push(x == 0 || blue_anticone_upto(g, c, x, x) <= k));
}

/// With `k` at least the number of blocks, the red set is empty.
pub proof fn lemma_high_k_no_red(dag: &DagStore, k: u64, out: &ColoringOutput)
    requires
        dag.wf(),
        k >= dag.n(),
        colored(dag, k as int),
        output_matches(dag, k, out),
    ensures
        out.red_set@.len() == 0,
{
    if out.red_set@.len() > 0 {
        let y = out.red_set@[0];
        assert(out.red_set@.contains(y));
        lemma_high_k_all_blue(dag, k as int, y);
    }
}

/// Stores holding the same blocks with the same parents, inserted in any
/// order and both colored with `k`, give every block the same coloring
/// fields.
pub proof fn lemma_colored_fields_same(d1: &DagStore, d2: &DagStore, k: int)
    requires
        d1.wf(),
        d2.wf(),
        same_blocks(d1, d2),
        colored(d1, k),
        colored(d2, k),
    ensures
        forall|h: BlockHash|
            d1.has(h) ==> (#[trigger] d1.header_of(h)).blue_score == d2.header_of(h).blue_score
                && d1.header_of(h).blue_work == d2.header_of(h).blue_work
                && d1.header_of(h).selected_parent == d2.header_of(h).selected_parent,
{
    let s = canon_of(d1);
    lemma_canonical_unique(d1, d2, s, canon_of(d2));
    lemma_canon_graph_same(d1, d2, s);
    assert forall|h: BlockHash| d1.has(h) implies (#[trigger] d1.header_of(h)).blue_score == d2.header_of(h).blue_score
        && d1.header_of(h).blue_work == d2.header_of(h).blue_work
        && d1.header_of(h).selected_parent == d2.header_of(h).selected_parent by {
        lemma_pos_in(d1, s, h);
        let t = pos_in(s, h);
        assert(colored_at(d1, k, t));
        assert(colored_at(d2, k, t));
    }
}

/// Coloring depends only on the blocks, their parents and `k`: two stores
/// holding the same blocks with the same parents, inserted in any order and
/// both colored with `k`, give every block the same coloring fields and
/// have the same blue and red sets.
pub proof fn lemma_coloring_deterministic(
    d1: &DagStore,
    d2: &DagStore,
    k: u64,
    o1: &ColoringOutput,
    o2: &ColoringOutput,
)
    requires
        d1.wf(),
        d2.wf(),
        same_blocks(d1, d2),
        colored(d1, k as int),
        colored(d2, k as int),
        output_matches(d1, k, o1),
        output_matches(d2, k, o2),
    ensures
        forall|h: BlockHash|
            d1.has(h) ==> (#[trigger] d1.header_of(h)).blue_score == d2.header_of(h).blue_score
                && d1.header_of(h).blue_work == d2.header_of(h).blue_work
                && d1.header_of(h).selected_parent == d2.header_of(h).selected_parent,
        forall|y: BlockHash| o1.blue_set@.contains(y) <==> o2.blue_set@.contains(y),
        forall|y: BlockHash| o1.red_set@.contains(y) <==> o2.red_set@.contains(y),
{
    lemma_colored_fields_same(d1, d2, k as int);
    let s = canon_of(d1);
    lemma_canonical_unique(d1, d2, s, canon_of(d2));
    lemma_canon_graph_same(d1, d2, s);
    assert forall|y: BlockHash| is_blue(d1, k as int, y) <==> is_blue(d2, k as int, y) by {}
    assert forall|y: BlockHash| o1.blue_set@.contains(y) <==> o2.blue_set@.contains(y) by {
        assert(is_blue(d1, k as int, y) <==> is_blue(d2, k as int, y));
    }
    assert forall|y: BlockHash| o1.red_set@.contains(y) <==> o2.red_set@.contains(y) by {
        assert(is_blue(d1, k as int, y) <==> is_blue(d2, k as int, y));
        assert(d1.has(y) <==> d2.has(y));
    }
}

/// The selected-parent walk from position `i`, tip first. It stops at a
/// header without a selected parent, or whose selected parent is not stored
/// before it.
pub open spec fn walk_down(dag: &DagStore, i: int) -> Seq<BlockHash>
    decreases i,
{
    match dag.headers_seq()[i].selected_parent {
        None => seq![dag.hash_at(i)],
        Some(p) => {
            let j = dag.index_of(p);
            if dag.has(p) && 0 <= j < i {
                seq![dag.hash_at(i)] + walk_down(dag, j)
            } else {
                seq![dag.hash_at(i)]
            }
        },
    }
}

/// The best of the first `k` parents is one of them.
proof fn lemma_best_parent_in(g: Seq<Seq<int>>, hs: Seq<BlockHash>, sc: Seq<int>, x: int, k: int)
    requires
        k >= 1,
    ensures
        exists|q: int| 0 <= q < k && best_parent(g, hs, sc, x, k) == g[x][q],
    decreases k,
{
    if k > 1 {
        lemma_best_parent_in(g, hs, sc, x, k - 1);
        let q = choose|q: int| 0 <= q < k - 1 && best_parent(g, hs, sc, x, k - 1) == g[x][q];
        if best_parent(g, hs, sc, x, k) == g[x][k - 1] {
            assert(0 <= k - 1 < k);
        } else {
            assert(best_parent(g, hs, sc, x, k) == g[x][q]);
        }
    } else {
        assert(best_parent(g, hs, sc, x, k) == g[x][0]);
    }
}

/// In a colored store genesis has no selected parent, and every other block
/// has one of its parents, stored before it.
pub proof fn lemma_colored_selected_parent(dag: &DagStore, k: int, i: int)
    requires
        dag.wf(),
        colored(dag, k),
        0 <= i < dag.n(),
    ensures
        i == 0 ==> dag.headers_seq()[i].selected_parent is None,
        i > 0 ==> dag.headers_seq()[i].selected_parent is Some && dag.has(dag.headers_seq()[i].selected_parent->0)
            && dag.index_of(dag.headers_seq()[i].selected_parent->0) < i
            && dag.headers_seq()[i].parents@.contains(dag.headers_seq()[i].selected_parent->0),
{
    let s = canon_of(dag);
    let g = canon_graph(dag, s);
    let h = dag.hash_at(i);
    dag.lemma_index_of(i);
    lemma_pos_in(dag, s, h);
    lemma_canon_genesis_first(dag, s);
    lemma_canonical_distinct(dag, s);
    let t = pos_in(s, h);
    assert(colored_at(dag, k, t));
    assert(dag.header_of(s[t]) == dag.headers_seq()[i]);
    if i == 0 {
        lemma_pos_in(dag, s, dag.hash_at(0));
        assert(t == 0);
    } else {
        if t == 0 {
            assert(s[0] == dag.hash_at(0));
            assert(dag.hash_at(i) != dag.hash_at(0));
        }
        assert(t > 0);
        let hdr = dag.headers_seq()[i];
        let c = colors(g, k, dag.n());
        let sc = scores(g, c);
        let len = g[t].len() as int;
        assert(len == hdr.parents@.len());
        lemma_best_parent_in(g, s, sc, t, len);
        let q = choose|q: int| 0 <= q < len && best_parent(g, s, sc, t, len) == g[t][q];
        let p = hdr.parents@[q];
        assert(g[t][q] == pos_in(s, p));
        assert(ready(dag, s.take(t), s[t]));
        assert(s.take(t).contains(p));
        let a = choose|a: int| 0 <= a < t && s.take(t)[a] == p;
        assert(s[a] == p);
        lemma_pos_in(dag, s, p);
        assert(s[pos_in(s, p)] == p);
        assert(hdr.selected_parent == Some(p));
        let gi = dag.graph();
        assert(0 <= gi[i][q] < i);
        assert(dag.hash_at(gi[i][q]) == p);
        dag.lemma_index_of(gi[i][q]);
        assert(hdr.parents@[q] == p);
    }
}

/// Walking selected parents from any block ends after finitely many steps,
/// each step following the header's `selected_parent`. Once the store is
/// colored, the walk ends at genesis, which has no selected parent.
pub proof fn lemma_chain_terminates(dag: &DagStore, i: int)
    requires
        dag.wf(),
        0 <= i < dag.n(),
    ensures
        walk_down(dag, i).len() >= 1,
        walk_down(dag, i)[0] == dag.hash_at(i),
        forall|q: int|
            0 <= q < walk_down(dag, i).len() - 1 ==> dag.header_of(#[trigger] walk_down(dag, i)[q]).selected_parent
                == Some(walk_down(dag, i)[q + 1]),
        forall|k: int| colored(dag, k) ==> walk_down(dag, i).last() == dag.hash_at(0)
            && dag.header_of(walk_down(dag, i).last()).selected_parent is None,
    decreases i,
{
    dag.lemma_index_of(i);
    let w = walk_down(dag, i);
    match dag.headers_seq()[i].selected_parent {
        None => {
            assert forall|k: int| colored(dag, k) implies w.last() == dag.hash_at(0)
                && dag.header_of(w.last()).selected_parent is None by {
                if i != 0 {
                    lemma_colored_selected_parent(dag, k, i);
                }
            }
        },
        Some(p) => {
            let j = dag.index_of(p);
            if dag.has(p) && 0 <= j < i {
                lemma_chain_terminates(dag, j);
                dag.lemma_index_of(j);
                let rest = walk_down(dag, j);
                assert(w == seq![dag.hash_at(i)] + rest);
                assert(w.last() == rest.last());
                assert forall|q: int| 0 <= q < w.len() - 1 implies dag.header_of(#[trigger] w[q]).selected_parent
                    == Some(w[q + 1]) by {
                    if q == 0 {
                        assert(w[0] == dag.hash_at(i));
                        assert(w[1] == rest[0]);
                    } else {
                        assert(w[q] == rest[q - 1]);
                        assert(w[q + 1] == rest[q]);
                    }
                }
            } else {
                assert forall|k: int| colored(dag, k) implies w.last() == dag.hash_at(0)
                    && dag.header_of(w.last()).selected_parent is None by {
                    lemma_colored_selected_parent(dag, k, i);
                }
            }
        },
    }
}

/// The selected-parent chain from genesis to `tip`, genesis first.
pub fn selected_parent_chain(dag: &DagStore, tip: &BlockHash) -> (r: Result<Vec<BlockHash>, GhostDagError>)
    requires
        dag.wf(),
    ensures
        !dag.has(*tip) ==> r == Err::<Vec<BlockHash>, GhostDagError>(
            GhostDagError::BlockNotFound(*tip),
        ),
        dag.has(*tip) ==> r is Ok && r->Ok_0@ == walk_down(dag, dag.index_of(*tip)).reverse(),
{
    let i0 = match dag.find(tip) {
        Some(i) => i,
        None => return Err(GhostDagError::BlockNotFound(*tip)),
    };
    let mut cur = i0;
    let mut rev: Vec<BlockHash> = Vec::new();
    loop
        invariant_except_break
            dag.wf(),
            cur < dag.n(),
            rev@ + walk_down(dag, cur as int) == walk_down(dag, i0 as int),
        ensures
            rev@ == walk_down(dag, i0 as int),
        decreases cur,
    {
        let h = dag.header_at(cur);
        let ghost before = rev@;
        rev.push(h.hash);
        match h.selected_parent {
            None => {
                proof {
                    assert(walk_down(dag, cur as int) == seq![dag.hash_at(cur as int)]);
                    assert(rev@ =~= before + walk_down(dag, cur as int));
                }
                break;
            },
            Some(p) => {
                let next = dag.find(&p);
                match next {
                    Some(j) => {
                        if j < cur {
                            proof {
                                assert(rev@ + walk_down(dag, j as int) =~= before + walk_down(dag, cur as int));
                            }
                            cur = j;
                        } else {
                            proof {
                                assert(rev@ =~= before + walk_down(dag, cur as int));
                            }
                            break;
                        }
                    },
                    None => {
                        proof {
                            assert(rev@ =~= before + walk_down(dag, cur as int));
                        }
                        break;
                    },
                }
            },
        }
    }
    let mut out: Vec<BlockHash> = Vec::new();
    let mut q: usize = rev.len();
    while q > 0
        invariant
            q <= rev@.len(),
            out@ == rev@.subrange(q as int, rev@.len() as int).reverse(),
        decreases q,
    {
        q = q - 1;
        out.push(rev[q]);
        proof {
            assert(out@ =~= rev@.subrange(q as int, rev@.len() as int).reverse());
        }
    }
    proof {
        assert(rev@.subrange(0, rev@.len() as int) =~= rev@);
    }
    Ok(out)
}

/// In the graph over a canonical order every parent stands before its
/// child, and every block after the first has a parent.
pub proof fn lemma_canon_graph_before(dag: &DagStore, s: Seq<BlockHash>)
    requires
        dag.wf(),
        dag.n() > 0,
        is_canonical_order(dag, s),
    ensures
        forall|t: int, q: int|
            0 <= t < s.len() && 0 <= q < canon_graph(dag, s)[t].len() ==> 0 <= #[trigger] canon_graph(dag, s)[t][q] < t,
        forall|t: int| 0 < t < s.len() ==> #[trigger] canon_graph(dag, s)[t].len() > 0,
{
    let g = canon_graph(dag, s);
    lemma_canon_genesis_first(dag, s);
    lemma_canonical_distinct(dag, s);
    assert forall|t: int, q: int| 0 <= t < s.len() && 0 <= q < g[t].len() implies 0 <= #[trigger] g[t][q] < t by {
        let p = dag.header_of(s[t]).parents@[q];
        assert(ready(dag, s.take(t), s[t]));
        assert(s.take(t).contains(p));
        let a = choose|a: int| 0 <= a < t && s.take(t)[a] == p;
        assert(s[a] == p);
        lemma_pos_in(dag, s, p);
    }
}

/// In a graph whose parents stand before their children and where every
/// node after the first has a parent, node 0 is an ancestor of every other.
pub proof fn lemma_first_ancestor(g: Seq<Seq<int>>, x: int)
    requires
        forall|t: int, q: int| 0 <= t < g.len() && 0 <= q < g[t].len() ==> 0 <= #[trigger] g[t][q] < t,
        forall|t: int| 0 < t < g.len() ==> #[trigger] g[t].len() > 0,
        0 < x < g.len(),
    ensures
        anc(g, x, 0),
    decreases x,
{
    assert(g[x].len() > 0);
    let p = g[x][0];
    assert(0 <= p < x);
    if p != 0 {
        lemma_first_ancestor(g, p);
    }
}

/// A blue genesis among the ancestors of `x` is counted once `m >= 1`.
proof fn lemma_past_upto_monotone(g: Seq<Seq<int>>, c: Seq<bool>, x: int, m: int)
    requires
        1 <= m,
        c[0],
        anc(g, x, 0),
    ensures
        blue_past_upto(g, c, x, m) >= 1,
    decreases m,
{
    if m > 1 {
        lemma_past_upto_monotone(g, c, x, m - 1);
    }
}

/// In a colored store genesis has blue score 0 and every other block a
/// blue score of at least 1.
pub proof fn lemma_colored_scores(dag: &DagStore, k: int, x: int)
    requires
        dag.wf(),
        colored(dag, k),
        0 <= x < dag.n(),
    ensures
        x == 0 ==> dag.headers_seq()[x].blue_score == 0,
        x > 0 ==> dag.headers_seq()[x].blue_score >= 1,
{
    let s = canon_of(dag);
    let g = canon_graph(dag, s);
    let c = final_colors(dag, k);
    let h = dag.hash_at(x);
    dag.lemma_index_of(x);
    lemma_pos_in(dag, s, h);
    lemma_canon_genesis_first(dag, s);
    let t = pos_in(s, h);
    assert(colored_at(dag, k, t));
    assert(dag.header_of(s[t]) == dag.headers_seq()[x]);
    lemma_pos_in(dag, s, dag.hash_at(0));
    if x == 0 {
        assert(t == 0);
    } else {
        assert(t != 0);
        lemma_genesis_blue(dag, k);
        lemma_canon_graph_before(dag, s);
        lemma_first_ancestor(g, t);
        lemma_past_upto_monotone(g, c, t, t);
    }
}

/// Among the first `m` positions, those in the anticone of `h` whose hash is
/// in `blue`.
pub open spec fn anticone_in_set(dag: &DagStore, h: BlockHash, blue: Seq<BlockHash>, m: int) -> nat
    decreases m,
{
    if m <= 0 {
        0
    } else {
        anticone_in_set(dag, h, blue, m - 1) + if dag.in_anticone(h, dag.hash_at(m - 1)) && blue.contains(
            dag.hash_at(m - 1),
        ) {
            1nat
        } else {
            0nat
        }
    }
}

/// `|anticone(h) ∩ blue_set|`.
pub fn blue_anticone_size(dag: &DagStore, hash: &BlockHash, blue_set: &Vec<BlockHash>) -> (r: Result<u64, GhostDagError>)
    requires
        dag.wf(),
    ensures
        !dag.has(*hash) ==> r == Err::<u64, GhostDagError>(GhostDagError::BlockNotFound(*hash)),
        dag.has(*hash) ==> r is Ok && r->Ok_0 == anticone_in_set(dag, *hash, blue_set@, dag.n()),
{
    let i = match dag.find(hash) {
        Some(i) => i,
        None => return Err(GhostDagError::BlockNotFound(*hash)),
    };
    let m = dag.ancestry();
    let n = dag.len();
    let mut cnt: u64 = 0;
    let mut j: usize = 0;
    while j < n
        invariant
            dag.wf(),
            n == dag.n(),
            i < n,
            dag.index_of(*hash) == i,
            dag.hash_at(i as int) == *hash,
            m@.len() == n,
            forall|a: int| 0 <= a < n ==> (#[trigger] m@[a])@.len() == n,
            forall|a: int, b: int| 0 <= a < n && 0 <= b < n ==> (#[trigger] m@[a]@[b]) == anc(dag.graph(), a, b),
            j <= n,
            cnt == anticone_in_set(dag, *hash, blue_set@, j as int),
            cnt <= j,
        decreases n - j,
    {
        let y = dag.header_at(j).hash;
        proof {
            dag.lemma_index_of(j as int);
        }
        if j != i && !m[i][j] && !m[j][i] && crate::stream::contains_hash(blue_set, &y) {
            cnt = cnt + 1;
        }
        j = j + 1;
    }
    Ok(cnt)
}

} // verus!
