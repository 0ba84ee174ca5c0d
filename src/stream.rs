//! The linearized stream: the colored DAG flattened into its total order.
use vstd::prelude::*;

use crate::block::{hex_of, BlockHash};
use crate::coloring::ColoringOutput;
use crate::dag::DagStore;
use crate::ordering::{is_order_of, total_order};
use crate::schema::LinearizedBlock;
use crate::errors::GhostDagError;

verus! {

/// A message broadcast to stream clients: a JSON-encoded list of blocks.
#[derive(Clone, Debug)]
pub struct StreamFrame {
    pub json: String,
}

/// Decimal digit character of a value below 10.
pub open spec fn digit_char(d: nat) -> char {
    (('0' as u8) + (d as u8)) as char
}

/// Decimal digits of `n`, most significant first, without leading zeros.
pub open spec fn decimal_of(n: nat) -> Seq<char>
    decreases n,
{
    if n < 10 {
        seq![digit_char(n)]
    } else {
        decimal_of(n / 10).push(digit_char(n % 10))
    }
}

/// Relies on num-bigint's `Display` for `BigUint` (`to_str_radix(10)`): the
/// decimal digits of the value, most significant first, no sign or padding.
#[verifier::external_body]
fn decimal_string(v: u64) -> (r: String)
    ensures
        r@ == decimal_of(v as nat),
{
    num_bigint::BigUint::from(v).to_string()
}

/// `r` is the stream record of block `h` at position `p`.
pub open spec fn record_ok(dag: &DagStore, coloring: &ColoringOutput, r: LinearizedBlock, h: BlockHash, p: int) -> bool {
    let hdr = dag.header_of(h);
    &&& r.hash@ == hex_of(h.0@)
    &&& r.blue_score == hdr.blue_score
    &&& r.blue_work@ == decimal_of(hdr.blue_work as nat)
    &&& r.topological_index == p
    &&& r.adjacency_list@.len() == hdr.parents@.len()
    &&& forall|q: int| 0 <= q < hdr.parents@.len() ==> (#[trigger] r.adjacency_list@[q])@ == hex_of(hdr.parents@[q].0@)
    &&& r.is_blue == coloring.blue_set@.contains(h)
    &&& match hdr.selected_parent {
        None => r.selected_parent is None,
        Some(sp) => r.selected_parent is Some && r.selected_parent->0@ == hex_of(sp.0@),
    }
}

pub(crate) fn contains_hash(v: &Vec<BlockHash>, h: &BlockHash) -> (r: bool)
    ensures
        r == v@.contains(*h),
{
    let mut i: usize = 0;
    while i < v.len()
        invariant
            i <= v@.len(),
            forall|j: int| 0 <= j < i ==> v@[j] != *h,
        decreases v@.len() - i,
    {
        if v[i].same(h) {
            return true;
        }
        i = i + 1;
    }
    false
}

/// The stream record of one header.
fn record_of(dag: &DagStore, coloring: &ColoringOutput, h: &BlockHash, p: u64) -> (r: LinearizedBlock)
    requires
        dag.wf(),
        dag.has(*h),
    ensures
        record_ok(dag, coloring, r, *h, p as int),
{
    let hdr = match dag.get(h) {
        Ok(x) => x,
        Err(_) => {
            proof {
                assert(false);
            }
            return LinearizedBlock {
                hash: String::new(),
                blue_score: 0,
                blue_work: String::new(),
                topological_index: 0,
                adjacency_list: Vec::new(),
                is_blue: false,
                selected_parent: None,
            };
        },
    };
    let mut adj: Vec<String> = Vec::new();
    let mut q: usize = 0;
    while q < hdr.parents.len()
        invariant
            q <= hdr.parents@.len(),
            adj@.len() == q,
            forall|a: int| 0 <= a < q ==> (#[trigger] adj@[a])@ == hex_of(hdr.parents@[a].0@),
        decreases hdr.parents@.len() - q,
    {
        adj.push(hdr.parents[q].to_hex());
        q = q + 1;
    }
    let sp = match hdr.selected_parent {
        Some(s) => Some(s.to_hex()),
        None => None,
    };
    LinearizedBlock {
        hash: h.to_hex(),
        blue_score: hdr.blue_score,
        blue_work: decimal_string(hdr.blue_work),
        topological_index: p,
        adjacency_list: adj,
        is_blue: contains_hash(&coloring.blue_set, h),
        selected_parent: sp,
    }
}

/// Flattens the colored DAG into stream records, in total order.
pub fn linearize_dag(dag: &DagStore, coloring: &ColoringOutput) -> (r: Result<Vec<LinearizedBlock>, GhostDagError>)
    requires
        dag.wf(),
    ensures
        r is Ok,
        exists|s: Seq<BlockHash>|
            is_order_of(dag, s) && s.len() == r->Ok_0@.len() && forall|p: int|
                0 <= p < s.len() ==> record_ok(dag, coloring, #[trigger] r->Ok_0@[p], s[p], p),
{
    let ordered = match total_order(dag) {
        Ok(o) => o,
        Err(e) => return Err(e),
    };
    let ghost s = crate::ordering::entry_hashes(ordered@);
    let mut out: Vec<LinearizedBlock> = Vec::new();
    let mut p: usize = 0;
    while p < ordered.len()
        invariant
            dag.wf(),
            s == crate::ordering::entry_hashes(ordered@),
            is_order_of(dag, s),
            forall|a: int| 0 <= a < ordered@.len() ==> crate::ordering::entry_ok(dag, #[trigger] ordered@[a], a),
            p <= ordered@.len(),
            out@.len() == p,
            forall|a: int| 0 <= a < p ==> record_ok(dag, coloring, #[trigger] out@[a], s[a], a),
        decreases ordered@.len() - p,
    {
        let h = ordered[p].hash;
        assert(dag.has(s[p as int]));
        out.push(record_of(dag, coloring, &h, p as u64));
        p = p + 1;
    }
    Ok(out)
}

} // verus!
