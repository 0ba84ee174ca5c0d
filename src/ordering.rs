//! PHANTOM total ordering: blue score ascending, then the XOR tiebreak key
//! (`hash XOR selected_parent`, with the zero hash for genesis) ascending.
use core::cmp::Ordering;
use vstd::prelude::*;

use crate::block::{bytes_lt, hash_lt, lemma_bytes_lt_asymmetric, lemma_hash_eq, BlockHash, BlockHeader};
use crate::canon::same_blocks;
use crate::coloring::{colored, lemma_colored_fields_same, lemma_colored_scores};
use crate::dag::DagStore;
use crate::errors::GhostDagError;

verus! {

/// One block's place in the total order.
#[derive(Clone, Debug)]
pub struct OrderedEntry {
    pub hash: BlockHash,
    pub blue_score: u64,
    pub topological_index: u64,
    /// `hash XOR selected_parent` (the hash itself when there is none).
    pub tiebreak_key: BlockHash,
}

/// Bytes of the tiebreak key of `h`: its hash XOR its selected parent (the
/// zero hash when it has none).
pub open spec fn tiebreak_bytes(h: BlockHeader) -> Seq<u8> {
    Seq::new(
        32,
        |i: int|
            h.hash.0@[i] ^ match h.selected_parent {
                Some(p) => p.0@[i],
                None => 0u8,
            },
    )
}

/// Strictly smaller ordering key: lower score, or equal score and smaller
/// tiebreak key.
pub open spec fn key_lt(s1: u64, t1: BlockHash, s2: u64, t2: BlockHash) -> bool {
    s1 < s2 || (s1 == s2 && hash_lt(t1, t2))
}

/// Header `a` has a strictly smaller ordering key than header `b`.
pub open spec fn header_key_lt(a: BlockHeader, b: BlockHeader) -> bool {
    a.blue_score < b.blue_score || (a.blue_score == b.blue_score && bytes_lt(
        tiebreak_bytes(a),
        tiebreak_bytes(b),
    ))
}

/// Block `a` comes before block `b` in the total order: a smaller key, or
/// the same key and the smaller hash.
pub open spec fn hash_before(dag: &DagStore, a: BlockHash, b: BlockHash) -> bool {
    let ha = dag.header_of(a);
    let hb = dag.header_of(b);
    header_key_lt(ha, hb) || (ha.blue_score == hb.blue_score && tiebreak_bytes(ha)
        == tiebreak_bytes(hb) && hash_lt(a, b))
}

/// `s` lists every block of `dag` exactly once, each before the next.
pub open spec fn is_order_of(dag: &DagStore, s: Seq<BlockHash>) -> bool {
    &&& s.len() == dag.n()
    &&& forall|p: int| 0 <= p < s.len() ==> dag.has(#[trigger] s[p])
    &&& forall|j: int| 0 <= j < dag.n() ==> s.contains(#[trigger] dag.hash_at(j))
    &&& forall|p: int, q: int| 0 <= p < q < s.len() ==> hash_before(dag, #[trigger] s[p], #[trigger] s[q])
}

/// `e` is the entry of its block at position `p`.
pub open spec fn entry_ok(dag: &DagStore, e: OrderedEntry, p: int) -> bool {
    &&& e.topological_index == p
    &&& e.blue_score == dag.header_of(e.hash).blue_score
    &&& e.tiebreak_key.0@ == tiebreak_bytes(dag.header_of(e.hash))
}

/// The hashes of a list of entries.
pub open spec fn entry_hashes(s: Seq<OrderedEntry>) -> Seq<BlockHash> {
    s.map_values(|e: OrderedEntry| e.hash)
}

/// Position `i` has a smaller key than position `j` (scores `sc`, tiebreak keys `tb`).
pub open spec fn idx_key_lt(sc: Seq<u64>, tb: Seq<BlockHash>, i: int, j: int) -> bool {
    key_lt(sc[i], tb[i], sc[j], tb[j])
}

/// Position `i` sorts before position `j`: smaller key, or equal key and
/// smaller hash (`hs` holds the hashes).
pub open spec fn idx_before(sc: Seq<u64>, tb: Seq<BlockHash>, hs: Seq<BlockHash>, i: int, j: int) -> bool {
    idx_key_lt(sc, tb, i, j) || (sc[i] == sc[j] && tb[i] == tb[j] && hash_lt(hs[i], hs[j]))
}

/// `idx_before` is transitive.
proof fn lemma_idx_before_trans(sc: Seq<u64>, tb: Seq<BlockHash>, hs: Seq<BlockHash>, i: int, j: int, l: int)
    requires
        idx_before(sc, tb, hs, i, j),
        idx_before(sc, tb, hs, j, l),
    ensures
        idx_before(sc, tb, hs, i, l),
{
    if idx_key_lt(sc, tb, i, j) && idx_key_lt(sc, tb, j, l) {
        if sc[i] == sc[j] && sc[j] == sc[l] {
            crate::block::lemma_hash_lt_transitive(tb[i], tb[j], tb[l]);
        }
    } else if !idx_key_lt(sc, tb, i, j) && !idx_key_lt(sc, tb, j, l) {
        crate::block::lemma_hash_lt_transitive(hs[i], hs[j], hs[l]);
    }
}

/// Inserting `x` at `pos` keeps the order sorted.
proof fn lemma_insert_sorted(sc: Seq<u64>, tb: Seq<BlockHash>, hs: Seq<BlockHash>, ord: Seq<usize>, x: usize, pos: int)
    requires
        0 <= pos <= ord.len(),
        forall|a: int, b: int| 0 <= a < b < ord.len() ==> idx_before(sc, tb, hs, #[trigger] ord[a] as int, #[trigger] ord[b] as int),
        forall|a: int| 0 <= a < pos ==> idx_before(sc, tb, hs, #[trigger] ord[a] as int, x as int),
        pos < ord.len() ==> idx_before(sc, tb, hs, x as int, ord[pos] as int),
    ensures
        forall|a: int, b: int|
            0 <= a < b < ord.len() + 1 ==> idx_before(sc, tb, hs, #[trigger] ord.insert(pos, x)[a] as int, #[trigger] ord.insert(pos, x)[b] as int),
{
    let o2 = ord.insert(pos, x);
    assert forall|a: int, b: int| 0 <= a < b < ord.len() + 1 implies idx_before(sc, tb, hs, #[trigger] o2[a] as int, #[trigger] o2[b] as int) by {
        if b < pos {
            assert(o2[a] == ord[a] && o2[b] == ord[b]);
        } else if b == pos {
            assert(o2[a] == ord[a]);
            assert(o2[b] == x);
        } else if a == pos {
            assert(o2[a] == x);
            assert(o2[b] == ord[b - 1]);
            if b - 1 > pos {
                assert(idx_before(sc, tb, hs, ord[pos] as int, ord[b - 1] as int));
                lemma_idx_before_trans(sc, tb, hs, x as int, ord[pos] as int, ord[b - 1] as int);
            }
        } else if a < pos {
            assert(o2[a] == ord[a] && o2[b] == ord[b - 1]);
        } else {
            assert(o2[a] == ord[a - 1] && o2[b] == ord[b - 1]);
        }
    }
}

/// `v` occurs in `ord`.
pub open spec fn covers(ord: Seq<usize>, v: int) -> bool {
    exists|a: int| 0 <= a < ord.len() && ord[a] == v
}

/// Tiebreak key of a header.
fn tiebreak_of(h: &BlockHeader) -> (t: BlockHash)
    ensures
        t.0@ == tiebreak_bytes(*h),
{
    let t = match h.selected_parent {
        Some(p) => h.hash.xor(&p),
        None => h.hash.xor(&BlockHash::zero()),
    };
    proof {
        assert(t.0@ =~= tiebreak_bytes(*h));
    }
    t
}

/// Positions sorted by (score, tiebreak key, hash); the hashes are distinct.
fn sorted_positions(sc: &Vec<u64>, tb: &Vec<BlockHash>, hs: &Vec<BlockHash>) -> (ord: Vec<usize>)
    requires
        sc@.len() == tb@.len(),
        hs@.len() == sc@.len(),
        forall|i: int, j: int| 0 <= i < j < hs@.len() ==> #[trigger] hs@[i] != #[trigger] hs@[j],
    ensures
        ord@.len() == sc@.len(),
        forall|a: int| 0 <= a < ord@.len() ==> #[trigger] ord@[a] < sc@.len(),
        forall|v: int| 0 <= v < sc@.len() ==> #[trigger] covers(ord@, v),
        forall|a: int, b: int|
            0 <= a < b < ord@.len() ==> idx_before(sc@, tb@, hs@, #[trigger] ord@[a] as int, #[trigger] ord@[b] as int),
{
    let n = sc.len();
    let mut ord: Vec<usize> = Vec::new();
    let mut x: usize = 0;
    while x < n
        invariant
            n == sc@.len(),
            sc@.len() == tb@.len(),
            hs@.len() == n,
            forall|i: int, j: int| 0 <= i < j < hs@.len() ==> #[trigger] hs@[i] != #[trigger] hs@[j],
            x <= n,
            ord@.len() == x,
            forall|a: int| 0 <= a < ord@.len() ==> 0 <= #[trigger] ord@[a] < x,
            forall|v: int| 0 <= v < x ==> #[trigger] covers(ord@, v),
            forall|a: int, b: int|
                0 <= a < b < ord@.len() ==> idx_before(sc@, tb@, hs@, #[trigger] ord@[a] as int, #[trigger] ord@[b] as int),
        decreases n - x,
    {
        let mut pos: usize = 0;
        loop
            invariant
                n == sc@.len(),
                sc@.len() == tb@.len(),
                hs@.len() == n,
                forall|i: int, j: int| 0 <= i < j < hs@.len() ==> #[trigger] hs@[i] != #[trigger] hs@[j],
                x < n,
                pos <= ord@.len(),
                forall|a: int| 0 <= a < ord@.len() ==> 0 <= #[trigger] ord@[a] < x,
                forall|a: int| 0 <= a < pos ==> idx_before(sc@, tb@, hs@, #[trigger] ord@[a] as int, x as int),
            ensures
                pos <= ord@.len(),
                forall|a: int| 0 <= a < pos ==> idx_before(sc@, tb@, hs@, #[trigger] ord@[a] as int, x as int),
                pos < ord@.len() ==> idx_before(sc@, tb@, hs@, x as int, ord@[pos as int] as int),
            decreases ord@.len() - pos,
        {
            if pos == ord.len() {
                break;
            }
            let i = ord[pos];
            let key_cmp = tb[x].compare(&tb[i]);
            let hash_cmp = hs[x].compare(&hs[i]);
            let later = sc[i] > sc[x] || (sc[i] == sc[x] && match key_cmp {
                Ordering::Less => true,
                Ordering::Equal => match hash_cmp {
                    Ordering::Less => true,
                    _ => false,
                },
                _ => false,
            });
            proof {
                assert(hs@[x as int] != hs@[i as int]);
            }
            if later {
                break;
            }
            pos = pos + 1;
        }
        proof {
            lemma_insert_sorted(sc@, tb@, hs@, ord@, x, pos as int);
        }
        let ghost before = ord@;
        ord.insert(pos, x);
        proof {
            assert forall|v: int| 0 <= v < x + 1 implies #[trigger] covers(ord@, v) by {
                if v == x {
                    assert(ord@[pos as int] == v);
                } else {
                    assert(covers(before, v));
                    let a = choose|a: int| 0 <= a < before.len() && before[a] == v;
                    if a < pos {
                        assert(ord@[a] == v);
                    } else {
                        assert(ord@[a + 1] == v);
                    }
                }
            }
        }
        x = x + 1;
    }
    ord
}

/// The PHANTOM total order of all blocks, with positions assigned. The DAG
/// should have been colored; otherwise every score is as stored.
pub fn total_order(dag: &DagStore) -> (r: Result<Vec<OrderedEntry>, GhostDagError>)
    requires
        dag.wf(),
    ensures
        r is Ok,
        is_order_of(dag, entry_hashes(r->Ok_0@)),
        forall|p: int| 0 <= p < r->Ok_0@.len() ==> entry_ok(dag, #[trigger] r->Ok_0@[p], p),
{
    let n = dag.len();
    let mut sc: Vec<u64> = Vec::new();
    let mut tb: Vec<BlockHash> = Vec::new();
    let mut hs: Vec<BlockHash> = Vec::new();
    let mut x: usize = 0;
    while x < n
        invariant
            n == dag.n(),
            x <= n,
            sc@.len() == x,
            tb@.len() == x,
            hs@.len() == x,
            forall|a: int| 0 <= a < x ==> #[trigger] sc@[a] == dag.headers_seq()[a].blue_score,
            forall|a: int| 0 <= a < x ==> (#[trigger] tb@[a]).0@ == tiebreak_bytes(dag.headers_seq()[a]),
            forall|a: int| 0 <= a < x ==> #[trigger] hs@[a] == dag.hash_at(a),
        decreases n - x,
    {
        let h = dag.header_at(x);
        sc.push(h.blue_score);
        tb.push(tiebreak_of(h));
        hs.push(h.hash);
        x = x + 1;
    }
    let ord = sorted_positions(&sc, &tb, &hs);
    let mut out: Vec<OrderedEntry> = Vec::new();
    let mut p: usize = 0;
    while p < n
        invariant
            dag.wf(),
            n == dag.n(),
            p <= n,
            hs@.len() == n,
            forall|a: int| 0 <= a < n ==> #[trigger] hs@[a] == dag.hash_at(a),
            sc@.len() == n,
            tb@.len() == n,
            ord@.len() == n,
            forall|a: int| 0 <= a < n ==> #[trigger] ord@[a] < n,
            out@.len() == p,
            forall|a: int|
                0 <= a < p ==> {
                    let e = #[trigger] out@[a];
                    &&& e.hash == dag.hash_at(ord@[a] as int)
                    &&& e.blue_score == sc@[ord@[a] as int]
                    &&& e.tiebreak_key == tb@[ord@[a] as int]
                    &&& e.topological_index == a
                },
        decreases n - p,
    {
        let i = ord[p];
        out.push(
            OrderedEntry {
                hash: dag.header_at(i).hash,
                blue_score: sc[i],
                topological_index: p as u64,
                tiebreak_key: tb[i],
            },
        );
        p = p + 1;
    }
    proof {
        let eh = entry_hashes(out@);
        assert(eh.len() == n);
        assert forall|a: int| 0 <= a < n implies dag.has(#[trigger] eh[a]) by {
            dag.lemma_index_of(ord@[a] as int);
        }
        assert forall|p: int| 0 <= p < out@.len() implies entry_ok(dag, #[trigger] out@[p], p) by {
            dag.lemma_index_of(ord@[p] as int);
        }
        assert forall|j: int| 0 <= j < n implies eh.contains(#[trigger] dag.hash_at(j)) by {
            assert(covers(ord@, j));
            let a = choose|a: int| 0 <= a < ord@.len() && ord@[a] == j;
            assert(eh[a] == dag.hash_at(j));
        }
        assert forall|p: int, q: int| 0 <= p < q < eh.len() implies hash_before(dag, #[trigger] eh[p], #[trigger] eh[q]) by {
            let i = ord@[p] as int;
            let j = ord@[q] as int;
            assert(idx_before(sc@, tb@, hs@, i, j));
            dag.lemma_index_of(i);
            dag.lemma_index_of(j);
            lemma_hash_eq(tb@[i], tb@[j]);
        }
        assert(forall|p: int| 0 <= p < eh.len() ==> dag.has(#[trigger] eh[p]));
        assert(forall|p: int, q: int| 0 <= p < q < eh.len() ==> hash_before(dag, #[trigger] eh[p], #[trigger] eh[q]));
        assert(is_order_of(dag, eh));
    }
    Ok(out)
}

/// The hashes of the total order.
pub fn total_order_hashes(dag: &DagStore) -> (r: Result<Vec<BlockHash>, GhostDagError>)
    requires
        dag.wf(),
    ensures
        r is Ok,
        is_order_of(dag, r->Ok_0@),
{
    let entries = match total_order(dag) {
        Ok(e) => e,
        Err(e) => return Err(e),
    };
    let mut out: Vec<BlockHash> = Vec::new();
    let mut p: usize = 0;
    while p < entries.len()
        invariant
            p <= entries@.len(),
            out@ == entry_hashes(entries@).take(p as int),
        decreases entries@.len() - p,
    {
        out.push(entries[p].hash);
        p = p + 1;
        proof {
            assert(out@ =~= entry_hashes(entries@).take(p as int));
        }
    }
    proof {
        assert(out@ =~= entry_hashes(entries@));
    }
    Ok(out)
}

/// Compares two blocks by the total-order key (score, then tiebreak key).
/// `Equal` means equal keys.
pub fn compare_blocks(dag: &DagStore, a: &BlockHash, b: &BlockHash) -> (r: Result<Ordering, GhostDagError>)
    requires
        dag.wf(),
    ensures
        !dag.has(*a) ==> r == Err::<Ordering, GhostDagError>(GhostDagError::BlockNotFound(*a)),
        dag.has(*a) && !dag.has(*b) ==> r == Err::<Ordering, GhostDagError>(
            GhostDagError::BlockNotFound(*b),
        ),
        dag.has(*a) && dag.has(*b) ==> r is Ok,
        r is Ok ==> (r->Ok_0 is Less <==> header_key_lt(dag.header_of(*a), dag.header_of(*b))),
        r is Ok ==> (r->Ok_0 is Greater <==> header_key_lt(dag.header_of(*b), dag.header_of(*a))),
        r is Ok ==> (r->Ok_0 is Equal <==> (dag.header_of(*a).blue_score == dag.header_of(*b).blue_score
            && tiebreak_bytes(dag.header_of(*a)) == tiebreak_bytes(dag.header_of(*b)))),
{
    let ha = match dag.get(a) {
        Ok(h) => h,
        Err(e) => return Err(e),
    };
    let hb = match dag.get(b) {
        Ok(h) => h,
        Err(e) => return Err(e),
    };
    let ta = tiebreak_of(ha);
    let tb = tiebreak_of(hb);
    if ha.blue_score < hb.blue_score {
        return Ok(Ordering::Less);
    }
    if ha.blue_score > hb.blue_score {
        return Ok(Ordering::Greater);
    }
    let o = ta.compare(&tb);
    proof {
        lemma_hash_eq(ta, tb);
    }
    Ok(o)
}

/// No two blocks each come before the other.
proof fn lemma_before_asymmetric(dag: &DagStore, a: BlockHash, b: BlockHash)
    requires
        hash_before(dag, a, b),
    ensures
        !hash_before(dag, b, a),
{
    let ta = tiebreak_bytes(dag.header_of(a));
    let tb = tiebreak_bytes(dag.header_of(b));
    if bytes_lt(ta, tb) {
        lemma_bytes_lt_asymmetric(ta, tb);
    }
    if bytes_lt(tb, ta) {
        lemma_bytes_lt_asymmetric(tb, ta);
    }
    if hash_lt(a, b) {
        crate::block::lemma_hash_lt_asymmetric(a, b);
    }
}

/// The total order lists every block exactly once; once the store is
/// colored, genesis comes first.
pub proof fn lemma_order_each_once(dag: &DagStore, s: Seq<BlockHash>)
    requires
        dag.wf(),
        is_order_of(dag, s),
    ensures
        s.no_duplicates(),
        forall|h: BlockHash| s.contains(h) <==> dag.has(h),
        forall|k: int| colored(dag, k) && dag.n() > 0 ==> s[0] == dag.hash_at(0),
{
    assert forall|p: int, q: int| 0 <= p < q < s.len() implies s[p] != s[q] by {
        assert(hash_before(dag, s[p], s[q]));
        if s[p] == s[q] {
            lemma_before_asymmetric(dag, s[p], s[q]);
        }
    }
    assert forall|h: BlockHash| s.contains(h) <==> dag.has(h) by {
        if dag.has(h) {
            let j = dag.index_of(h);
            assert(s.contains(dag.hash_at(j)));
        }
    }
    assert forall|k: int| colored(dag, k) && dag.n() > 0 implies s[0] == dag.hash_at(0) by {
        let g0 = dag.hash_at(0);
        assert(s.contains(g0));
        let q = choose|q: int| 0 <= q < s.len() && s[q] == g0;
        if q != 0 {
            let h = s[0];
            assert(hash_before(dag, h, g0));
            let x = dag.index_of(h);
            dag.lemma_index_of(0);
            lemma_colored_scores(dag, k, 0);
            lemma_colored_scores(dag, k, x);
            if x == 0 {
                assert(h == g0);
                lemma_before_asymmetric(dag, h, g0);
            }
        }
    }
}

/// Two stores hold the same blocks, each with the same blue score and
/// selected parent in both, whatever order they were inserted in.
pub open spec fn same_headers(d1: &DagStore, d2: &DagStore) -> bool {
    &&& d1.n() == d2.n()
    &&& forall|h: BlockHash| d1.has(h) <==> d2.has(h)
    &&& forall|h: BlockHash|
        d1.has(h) ==> (#[trigger] d1.header_of(h)).blue_score == d2.header_of(h).blue_score
            && d1.header_of(h).selected_parent == d2.header_of(h).selected_parent
}

/// The stored header of `h` has hash `h`.
proof fn lemma_header_of_hash(dag: &DagStore, h: BlockHash)
    requires
        dag.wf(),
        dag.has(h),
    ensures
        dag.header_of(h).hash == h,
{
    let i = dag.index_of(h);
    dag.lemma_index_of(i);
}

/// Under `same_headers`, both stores order any two stored blocks alike.
proof fn lemma_same_headers_before(d1: &DagStore, d2: &DagStore, a: BlockHash, b: BlockHash)
    requires
        d1.wf(),
        d2.wf(),
        same_headers(d1, d2),
        d1.has(a),
        d1.has(b),
    ensures
        hash_before(d1, a, b) == hash_before(d2, a, b),
{
    lemma_header_of_hash(d1, a);
    lemma_header_of_hash(d1, b);
    lemma_header_of_hash(d2, a);
    lemma_header_of_hash(d2, b);
    assert(d1.header_of(a).blue_score == d2.header_of(a).blue_score);
    assert(d1.header_of(b).blue_score == d2.header_of(b).blue_score);
    assert(tiebreak_bytes(d1.header_of(a)) =~= tiebreak_bytes(d2.header_of(a)));
    assert(tiebreak_bytes(d1.header_of(b)) =~= tiebreak_bytes(d2.header_of(b)));
}

/// Total orders of two stores with the same headers agree on every position
/// up to `p`.
proof fn lemma_order_prefix(d1: &DagStore, d2: &DagStore, s1: Seq<BlockHash>, s2: Seq<BlockHash>, p: int)
    requires
        d1.wf(),
        d2.wf(),
        same_headers(d1, d2),
        is_order_of(d1, s1),
        is_order_of(d2, s2),
        0 <= p < s1.len(),
    ensures
        forall|q: int| 0 <= q <= p ==> s1[q] == s2[q],
    decreases p,
{
    lemma_order_each_once(d1, s1);
    lemma_order_each_once(d2, s2);
    if p > 0 {
        lemma_order_prefix(d1, d2, s1, s2, p - 1);
    }
    let a = s1[p];
    let b = s2[p];
    if a != b {
        assert(d2.has(b));
        assert(s1.contains(b));
        let q1 = choose|q: int| 0 <= q < s1.len() && s1[q] == b;
        assert(d1.has(a));
        assert(s2.contains(a));
        let q2 = choose|q: int| 0 <= q < s2.len() && s2[q] == a;
        if q1 < p {
            assert(s2[q1] == b);
        } else if q2 < p {
            assert(s1[q2] == a);
        } else {
            assert(hash_before(d1, s1[p], s1[q1]));
            assert(hash_before(d2, s2[p], s2[q2]));
            lemma_same_headers_before(d1, d2, b, a);
            assert(hash_before(d1, b, a));
            lemma_before_asymmetric(d1, a, b);
        }
    }
}

/// The total order is a function of the headers: for two stores holding the
/// same headers, inserted in any order, the sequences that satisfy it are
/// equal, and so are the entry lists that satisfy the contract of
/// `total_order`.
pub proof fn lemma_total_order_unique(
    d1: &DagStore,
    d2: &DagStore,
    e1: Seq<OrderedEntry>,
    e2: Seq<OrderedEntry>,
)
    requires
        d1.wf(),
        d2.wf(),
        same_headers(d1, d2),
        is_order_of(d1, entry_hashes(e1)),
        is_order_of(d2, entry_hashes(e2)),
        forall|p: int| 0 <= p < e1.len() ==> entry_ok(d1, #[trigger] e1[p], p),
        forall|p: int| 0 <= p < e2.len() ==> entry_ok(d2, #[trigger] e2[p], p),
    ensures
        entry_hashes(e1) == entry_hashes(e2),
        e1 == e2,
{
    let s1 = entry_hashes(e1);
    let s2 = entry_hashes(e2);
    if s1.len() > 0 {
        lemma_order_prefix(d1, d2, s1, s2, s1.len() - 1);
    }
    assert(s1 =~= s2);
    assert forall|p: int| 0 <= p < e1.len() implies e1[p] == e2[p] by {
        assert(s1[p] == s2[p]);
        assert(entry_ok(d1, e1[p], p));
        assert(entry_ok(d2, e2[p], p));
        assert(d1.has(s1[p]));
        lemma_header_of_hash(d1, s1[p]);
        lemma_header_of_hash(d2, s1[p]);
        assert(tiebreak_bytes(d1.header_of(s1[p])) =~= tiebreak_bytes(d2.header_of(s1[p])));
        lemma_hash_eq(e1[p].tiebreak_key, e2[p].tiebreak_key);
    }
    assert(e1 =~= e2);
}

/// Two stores holding the same blocks with the same parents, inserted in any
/// order and both colored with `k`, have the same total order.
pub proof fn lemma_colored_order_deterministic(
    d1: &DagStore,
    d2: &DagStore,
    k: int,
    e1: Seq<OrderedEntry>,
    e2: Seq<OrderedEntry>,
)
    requires
        d1.wf(),
        d2.wf(),
        same_blocks(d1, d2),
        colored(d1, k),
        colored(d2, k),
        is_order_of(d1, entry_hashes(e1)),
        is_order_of(d2, entry_hashes(e2)),
        forall|p: int| 0 <= p < e1.len() ==> entry_ok(d1, #[trigger] e1[p], p),
        forall|p: int| 0 <= p < e2.len() ==> entry_ok(d2, #[trigger] e2[p], p),
    ensures
        e1 == e2,
{
    lemma_colored_fields_same(d1, d2, k);
    lemma_total_order_unique(d1, d2, e1, e2);
}

} // verus!
