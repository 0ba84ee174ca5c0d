//! The in-memory block DAG.
//!
//! Headers are kept in insertion order. Since every parent must already be
//! present when a block is added, that order is topological, and each parent
//! link is also recorded as the position of the parent.
use vstd::prelude::*;

use crate::block::{BlockHash, BlockHeader};
use crate::errors::GhostDagError;

verus! {

/// Strict ancestry over parent positions: `j` is reached from `x` by one or
/// more parent links, where `g[x]` lists the positions of the parents of `x`.
pub open spec fn anc(g: Seq<Seq<int>>, x: int, j: int) -> bool
    decreases x,
{
    exists|k: int|
        0 <= k < g[x].len() && 0 <= #[trigger] g[x][k] < x && (g[x][k] == j || anc(g, g[x][k], j))
}

/// A graph given by parent positions, as a sequence of integer sequences.
pub open spec fn graph_of(ps: Seq<Vec<usize>>) -> Seq<Seq<int>> {
    ps.map_values(|v: Vec<usize>| v@.map_values(|x: usize| x as int))
}

/// Every parent position is below its child's.
pub open spec fn parents_before(ps: Seq<Vec<usize>>) -> bool {
    forall|x: int, k: int| 0 <= x < ps.len() && 0 <= k < ps[x]@.len() ==> (#[trigger] ps[x]@[k]) < x
}

/// Row `x` of the ancestry matrix, from the rows of earlier blocks.
fn ancestry_row(gs: &Vec<Vec<usize>>, m: &Vec<Vec<bool>>, x: usize) -> (row: Vec<bool>)
    requires
        parents_before(gs@),
        x < gs@.len(),
        m@.len() == x,
        forall|a: int| 0 <= a < x ==> (#[trigger] m@[a])@.len() == gs@.len(),
        forall|a: int, j: int|
            0 <= a < x && 0 <= j < gs@.len() ==> (#[trigger] m@[a]@[j]) == anc(graph_of(gs@), a, j),
    ensures
        row@.len() == gs@.len(),
        forall|j: int| 0 <= j < gs@.len() ==> (#[trigger] row@[j]) == anc(graph_of(gs@), x as int, j),
{
    let n = gs.len();
    let ghost g = graph_of(gs@);
    let xp = &gs[x];
    let mut row: Vec<bool> = Vec::new();
    let mut j: usize = 0;
    while j < n
        invariant
            j <= n,
            n == gs@.len(),
            row@.len() == j,
            forall|a: int| 0 <= a < j ==> !(#[trigger] row@[a]),
        decreases n - j,
    {
        row.push(false);
        j = j + 1;
    }
    let mut k: usize = 0;
    while k < xp.len()
        invariant
            parents_before(gs@),
            g == graph_of(gs@),
            n == gs@.len(),
            x < n,
            k <= xp@.len(),
            xp@.len() == g[x as int].len(),
            forall|q: int| 0 <= q < xp@.len() ==> xp@[q] as int == g[x as int][q],
            m@.len() == x,
            forall|a: int| 0 <= a < x ==> (#[trigger] m@[a])@.len() == n,
            forall|a: int, b: int| 0 <= a < x && 0 <= b < n ==> (#[trigger] m@[a]@[b]) == anc(g, a, b),
            row@.len() == n,
            forall|b: int| 0 <= b < n ==> (#[trigger] row@[b]) == anc_via(g, x as int, b, k as int),
        decreases xp@.len() - k,
    {
        let p = xp[k];
        assert(0 <= g[x as int][k as int] < x);
        let mut j: usize = 0;
        while j < n
            invariant
                j <= n,
                n == gs@.len(),
                (p as int) < (x as int),
                p as int == g[x as int][k as int],
                k < g[x as int].len(),
                m@.len() == x,
                forall|a: int| 0 <= a < x ==> (#[trigger] m@[a])@.len() == n,
                forall|a: int, b: int|
                    0 <= a < x && 0 <= b < n ==> (#[trigger] m@[a]@[b]) == anc(g, a, b),
                row@.len() == n,
                forall|b: int| 0 <= b < j ==> (#[trigger] row@[b]) == anc_via(g, x as int, b, k + 1),
                forall|b: int| j <= b < n ==> (#[trigger] row@[b]) == anc_via(g, x as int, b, k as int),
            decreases n - j,
        {
            let hit = j == p || m[p][j];
            let ghost jj = j as int;
            if hit {
                row.set(j, true);
            }
            proof {
                if hit {
                    assert(g[x as int][k as int] == jj || anc(g, g[x as int][k as int], jj));
                    assert(anc_via(g, x as int, jj, k + 1));
                } else {
                    if anc_via(g, x as int, jj, k + 1) {
                        let q = choose|q: int|
                            0 <= q < k + 1 && (#[trigger] g[x as int][q] == jj || anc(g, g[x as int][q], jj));
                        if q == k {
                            assert(false);
                        }
                        assert(anc_via(g, x as int, jj, k as int));
                    }
                }
            }
            j = j + 1;
        }
        k = k + 1;
    }
    proof {
        assert forall|b: int| 0 <= b < n implies (#[trigger] row@[b]) == anc(g, x as int, b) by {
            if anc(g, x as int, b) {
                let q = choose|q: int|
                    0 <= q < g[x as int].len() && 0 <= #[trigger] g[x as int][q] < x
                        && (g[x as int][q] == b || anc(g, g[x as int][q], b));
                assert(anc_via(g, x as int, b, k as int));
            }
            if anc_via(g, x as int, b, k as int) {
                let q = choose|q: int|
                    0 <= q < k && (#[trigger] g[x as int][q] == b || anc(g, g[x as int][q], b));
                assert(0 <= g[x as int][q] < x);
            }
        }
    }
    row
}

/// The ancestry matrix of a graph given by parent positions: entry `[x][j]`
/// says whether `j` is a strict ancestor of `x`.
pub(crate) fn ancestry_of(gs: &Vec<Vec<usize>>) -> (m: Vec<Vec<bool>>)
    requires
        parents_before(gs@),
    ensures
        m@.len() == gs@.len(),
        forall|a: int| 0 <= a < gs@.len() ==> (#[trigger] m@[a])@.len() == gs@.len(),
        forall|a: int, j: int|
            0 <= a < gs@.len() && 0 <= j < gs@.len() ==> (#[trigger] m@[a]@[j]) == anc(
                graph_of(gs@),
                a,
                j,
            ),
{
    let n = gs.len();
    let mut m: Vec<Vec<bool>> = Vec::new();
    let mut x: usize = 0;
    while x < n
        invariant
            parents_before(gs@),
            n == gs@.len(),
            x <= n,
            m@.len() == x,
            forall|a: int| 0 <= a < x ==> (#[trigger] m@[a])@.len() == n,
            forall|a: int, j: int|
                0 <= a < x && 0 <= j < n ==> (#[trigger] m@[a]@[j]) == anc(graph_of(gs@), a, j),
        decreases n - x,
    {
        let row = ancestry_row(gs, &m, x);
        m.push(row);
        x = x + 1;
    }
    m
}

/// The in-memory DAG store.
#[derive(Clone, Debug)]
pub struct DagStore {
    headers: Vec<BlockHeader>,
    parent_idx: Vec<Vec<usize>>,
    genesis: Option<BlockHash>,
}

impl DagStore {
    /// The stored headers, in insertion order.
    pub closed spec fn headers_seq(&self) -> Seq<BlockHeader> {
        self.headers@
    }

    /// The parent links as positions: `graph()[i][k]` is the position of the
    /// `k`-th parent of the block at position `i`.
    pub closed spec fn graph(&self) -> Seq<Seq<int>> {
        graph_of(self.parent_idx@)
    }

    pub closed spec fn genesis_field(&self) -> Option<BlockHash> {
        self.genesis
    }

    /// Number of stored blocks.
    pub open spec fn n(&self) -> int {
        self.headers_seq().len() as int
    }

    /// Hash of the block at position `i`.
    pub open spec fn hash_at(&self, i: int) -> BlockHash {
        self.headers_seq()[i].hash
    }

    /// All hashes, in insertion order.
    pub open spec fn hashes(&self) -> Seq<BlockHash> {
        self.headers_seq().map_values(|h: BlockHeader| h.hash)
    }

    /// A block with hash `h` is stored.
    pub open spec fn has(&self, h: BlockHash) -> bool {
        exists|i: int| 0 <= i < self.n() && #[trigger] self.hash_at(i) == h
    }

    /// Position of the block with hash `h`.
    pub open spec fn index_of(&self, h: BlockHash) -> int {
        choose|i: int| 0 <= i < self.n() && #[trigger] self.hash_at(i) == h
    }

    /// The header stored under `h`.
    pub open spec fn header_of(&self, h: BlockHash) -> BlockHeader {
        self.headers_seq()[self.index_of(h)]
    }

    /// The store's invariant: unique hashes, parents stored before their
    /// children, and exactly one parentless block (genesis, at position 0).
    pub open spec fn wf(&self) -> bool {
        let hs = self.headers_seq();
        let g = self.graph();
        &&& g.len() == hs.len()
        &&& forall|i: int| 0 <= i < g.len() ==> #[trigger] g[i].len() == hs[i].parents@.len()
        &&& forall|i: int, k: int|
            0 <= i < g.len() && 0 <= k < g[i].len() ==> 0 <= #[trigger] g[i][k] < i
                && self.hash_at(g[i][k]) == hs[i].parents@[k]
        &&& forall|i: int, j: int|
            0 <= i < hs.len() && 0 <= j < hs.len() && i != j ==> #[trigger] self.hash_at(i)
                != #[trigger] self.hash_at(j)
        &&& hs.len() > 0 ==> g[0].len() == 0
        &&& forall|i: int| 0 < i < g.len() ==> #[trigger] g[i].len() > 0
        &&& self.genesis_field() == (if hs.len() == 0 {
            None
        } else {
            Some(hs[0].hash)
        })
    }

    /// Blocks at the same positions with the same hashes and parent links.
    pub open spec fn same_shape(&self, other: &DagStore) -> bool {
        &&& self.graph() == other.graph()
        &&& self.n() == other.n()
        &&& forall|i: int| 0 <= i < self.n() ==> #[trigger] self.hash_at(i) == other.hash_at(i)
        &&& forall|i: int|
            0 <= i < self.n() ==> (#[trigger] self.headers_seq()[i]).parents@
                == other.headers_seq()[i].parents@
        &&& forall|i: int|
            0 <= i < self.n() ==> (#[trigger] self.headers_seq()[i]).timestamp
                == other.headers_seq()[i].timestamp
    }

    /// `b` is a strict ancestor of `a`.
    pub open spec fn in_past(&self, a: BlockHash, b: BlockHash) -> bool {
        self.has(a) && self.has(b) && anc(self.graph(), self.index_of(a), self.index_of(b))
    }

    /// `b` is neither `a`, nor an ancestor, nor a descendant of `a`.
    pub open spec fn in_anticone(&self, a: BlockHash, b: BlockHash) -> bool {
        self.has(a) && self.has(b) && a != b && !self.in_past(a, b) && !self.in_past(b, a)
    }

    /// `b` lists `a` among its parents.
    pub open spec fn is_child(&self, a: BlockHash, b: BlockHash) -> bool {
        self.has(b) && self.header_of(b).parents@.contains(a)
    }

    /// The block at position `i` is stored, and `index_of` finds it there.
    pub proof fn lemma_index_of(&self, i: int)
        requires
            self.wf(),
            0 <= i < self.n(),
        ensures
            self.has(self.hash_at(i)),
            self.index_of(self.hash_at(i)) == i,
    {
        let h = self.hash_at(i);
        assert(self.has(h));
        let j = self.index_of(h);
        assert(self.hash_at(j) == h);
    }

    /// An empty store.
    pub fn new() -> (r: DagStore)
        ensures
            r.wf(),
            r.n() == 0,
    {
        let r = DagStore { headers: Vec::new(), parent_idx: Vec::new(), genesis: None };
        proof {
            assert(r.graph() =~= Seq::empty());
        }
        r
    }

    /// The genesis hash, if genesis has been added.
    pub fn genesis(&self) -> (r: Option<BlockHash>)
        requires
            self.wf(),
        ensures
            r == (if self.n() == 0 {
                None
            } else {
                Some(self.hash_at(0))
            }),
    {
        self.genesis
    }

    /// Number of blocks.
    pub fn len(&self) -> (r: usize)
        ensures
            r == self.n(),
    {
        self.headers.len()
    }

    /// Whether no block is stored.
    pub fn is_empty(&self) -> (r: bool)
        ensures
            r == (self.n() == 0),
    {
        self.headers.len() == 0
    }

    /// The position of the block with hash `h`.
    pub fn find(&self, h: &BlockHash) -> (r: Option<usize>)
        requires
            self.wf(),
        ensures
            match r {
                Some(i) => i < self.n() && self.hash_at(i as int) == *h && self.index_of(*h) == i,
                None => !self.has(*h),
            },
    {
        let mut i: usize = 0;
        while i < self.headers.len()
            invariant
                self.wf(),
                i <= self.n(),
                forall|j: int| 0 <= j < i ==> self.hash_at(j) != *h,
            decreases self.n() - i,
        {
            if self.headers[i].hash.same(h) {
                proof {
                    self.lemma_index_of(i as int);
                }
                return Some(i);
            }
            i = i + 1;
        }
        None
    }

    /// Inserts the genesis block. Fails with `DuplicateBlock` once genesis is
    /// present, and with `MissingParent` for a header that lists parents.
    pub fn add_genesis(&mut self, header: BlockHeader) -> (r: Result<(), GhostDagError>)
        requires
            old(self).wf(),
        ensures
            final(self).wf(),
            old(self).n() > 0 ==> r == Err::<(), GhostDagError>(
                GhostDagError::DuplicateBlock(header.hash),
            ) && *final(self) == *old(self),
            old(self).n() == 0 && header.parents@.len() > 0 ==> r == Err::<(), GhostDagError>(
                GhostDagError::MissingParent { child: header.hash, parent: header.parents@[0] },
            ) && *final(self) == *old(self),
            old(self).n() == 0 && header.parents@.len() == 0 ==> r is Ok
                && final(self).headers_seq() == seq![header],
    {
        if self.genesis.is_some() {
            return Err(GhostDagError::DuplicateBlock(header.hash));
        }
        if header.parents.len() > 0 {
            return Err(GhostDagError::MissingParent { child: header.hash, parent: header.parents[0] });
        }
        let hash = header.hash;
        let ghost given = header;
        self.headers.push(header);
        self.parent_idx.push(Vec::new());
        self.genesis = Some(hash);
        proof {
            assert(self.headers_seq() =~= seq![given]);
            assert(self.parent_idx@.len() == 1);
            assert(self.graph()[0] =~= Seq::<int>::empty());
            assert(self.graph() =~= seq![Seq::<int>::empty()]);
        }
        Ok(())
    }

    /// Inserts a non-genesis block. Fails with `DuplicateBlock` when the hash
    /// is present, with `OrphanBlock` when the header has no parents, and with
    /// `MissingParent` naming the first parent that is not stored.
    pub fn add_block(&mut self, header: BlockHeader) -> (r: Result<(), GhostDagError>)
        requires
            old(self).wf(),
        ensures
            final(self).wf(),
            old(self).has(header.hash) ==> r == Err::<(), GhostDagError>(
                GhostDagError::DuplicateBlock(header.hash),
            ),
            !old(self).has(header.hash) && header.parents@.len() == 0 ==> r == Err::<
                (),
                GhostDagError,
            >(GhostDagError::OrphanBlock(header.hash)),
            !old(self).has(header.hash) && header.parents@.len() > 0 && (exists|k: int|
                0 <= k < header.parents@.len() && !old(self).has(#[trigger] header.parents@[k]))
                ==> exists|k: int|
                0 <= k < header.parents@.len() && !old(self).has(header.parents@[k]) && (forall|
                    q: int,
                | 0 <= q < k ==> old(self).has(#[trigger] header.parents@[q])) && r == Err::<
                    (),
                    GhostDagError,
                >(
                    GhostDagError::MissingParent {
                        child: header.hash,
                        parent: #[trigger] header.parents@[k],
                    },
                ),
            r is Err ==> *final(self) == *old(self),
            r is Ok <==> (!old(self).has(header.hash) && header.parents@.len() > 0 && forall|
                k: int,
            | 0 <= k < header.parents@.len() ==> old(self).has(#[trigger] header.parents@[k])),
            r is Ok ==> final(self).headers_seq() == old(self).headers_seq().push(header)
                && final(self).graph().drop_last() == old(self).graph(),
    {
        if self.find(&header.hash).is_some() {
            return Err(GhostDagError::DuplicateBlock(header.hash));
        }
        if header.parents.len() == 0 {
            return Err(GhostDagError::OrphanBlock(header.hash));
        }
        let mut pos: Vec<usize> = Vec::new();
        let mut k: usize = 0;
        while k < header.parents.len()
            invariant
                self.wf(),
                *self == *old(self),
                !self.has(header.hash),
                header.parents@.len() > 0,
                k <= header.parents@.len(),
                pos@.len() == k,
                forall|q: int| 0 <= q < k ==> (pos@[q] as int) < self.n(),
                forall|q: int| 0 <= q < k ==> self.hash_at(#[trigger] pos@[q] as int) == header.parents@[q],
                forall|q: int| 0 <= q < k ==> self.has(#[trigger] header.parents@[q]),
            decreases header.parents@.len() - k,
        {
            match self.find(&header.parents[k]) {
                Some(i) => {
                    pos.push(i);
                },
                None => {
                    return Err(
                        GhostDagError::MissingParent { child: header.hash, parent: header.parents[k] },
                    );
                },
            }
            k = k + 1;
        }
        let ghost old_self = *self;
        let ghost pos_s = pos@;
        let ghost given = header;
        self.headers.push(header);
        self.parent_idx.push(pos);
        proof {
            let n = old_self.n();
            assert(self.headers_seq() =~= old_self.headers_seq().push(given));
            assert forall|i: int| 0 <= i < n implies #[trigger] self.hash_at(i) == old_self.hash_at(i) by {}
            assert(self.graph().drop_last() =~= old_self.graph());
            assert(self.graph()[n] =~= pos_s.map_values(|x: usize| x as int));
            assert(self.graph()[n].len() == self.headers_seq()[n].parents@.len());
            assert(old_self.has(header.parents@[0]));
            assert(n > 0);
            assert(self.headers_seq()[0] == old_self.headers_seq()[0]);
            assert forall|i: int| 0 < i < self.graph().len() implies #[trigger] self.graph()[i].len() > 0 by {
                if i < n {
                    assert(self.graph()[i] == old_self.graph()[i]);
                }
            }
            assert forall|i: int| 0 <= i < self.graph().len() implies #[trigger] self.graph()[i].len()
                == self.headers_seq()[i].parents@.len() by {
                if i < n {
                    assert(self.graph()[i] == old_self.graph()[i]);
                }
            }
            assert forall|i: int, k: int|
                0 <= i < self.graph().len() && 0 <= k < self.graph()[i].len()
                implies 0 <= #[trigger] self.graph()[i][k] < i
                && self.hash_at(self.graph()[i][k]) == self.headers_seq()[i].parents@[k] by {
                if i < n {
                    assert(self.graph()[i] == old_self.graph()[i]);
                }
            }
            assert forall|i: int, j: int|
                0 <= i < self.n() && 0 <= j < self.n() && i != j implies #[trigger] self.hash_at(i)
                != #[trigger] self.hash_at(j) by {
                if i < n && j < n {
                    assert(old_self.hash_at(i) != old_self.hash_at(j));
                } else if i == n {
                    assert(!old_self.has(self.hash_at(i)));
                    assert(self.hash_at(j) == old_self.hash_at(j));
                } else {
                    assert(!old_self.has(self.hash_at(j)));
                    assert(self.hash_at(i) == old_self.hash_at(i));
                }
            }
        }
        Ok(())
    }

    /// Overwrites the coloring fields of the block at position `x`.
    pub(crate) fn set_coloring(&mut self, x: usize, score: u64, work: u64, sp: Option<BlockHash>)
        requires
            old(self).wf(),
            x < old(self).n(),
        ensures
            final(self).wf(),
            final(self).same_shape(old(self)),
            final(self).headers_seq() == old(self).headers_seq().update(
                x as int,
                BlockHeader {
                    blue_score: score,
                    blue_work: work,
                    selected_parent: sp,
                    ..old(self).headers_seq()[x as int]
                },
            ),
    {
        let ghost old_self = *self;
        let mut h = self.headers.remove(x);
        h.blue_score = score;
        h.blue_work = work;
        h.selected_parent = sp;
        self.headers.insert(x, h);
        proof {
            assert(self.headers_seq() =~= old_self.headers_seq().update(x as int, h));
            assert forall|i: int| 0 <= i < self.n() implies #[trigger] self.hash_at(i) == old_self.hash_at(i) by {}
            assert forall|i: int, j: int|
                0 <= i < self.n() && 0 <= j < self.n() && i != j implies #[trigger] self.hash_at(i)
                != #[trigger] self.hash_at(j) by {
                assert(old_self.hash_at(i) != old_self.hash_at(j));
            }
        }
    }

    /// Whether a block with hash `h` is stored.
    pub fn contains(&self, h: &BlockHash) -> (r: bool)
        requires
            self.wf(),
        ensures
            r == self.has(*h),
    {
        self.find(h).is_some()
    }

    /// The header stored under `h`.
    pub fn get(&self, h: &BlockHash) -> (r: Result<&BlockHeader, GhostDagError>)
        requires
            self.wf(),
        ensures
            self.has(*h) ==> r == Ok::<&BlockHeader, GhostDagError>(&self.header_of(*h)),
            !self.has(*h) ==> r == Err::<&BlockHeader, GhostDagError>(
                GhostDagError::BlockNotFound(*h),
            ),
    {
        match self.find(h) {
            Some(i) => Ok(&self.headers[i]),
            None => Err(GhostDagError::BlockNotFound(*h)),
        }
    }

    /// The header at position `i`.
    pub fn header_at(&self, i: usize) -> (r: &BlockHeader)
        requires
            i < self.n(),
        ensures
            *r == self.headers_seq()[i as int],
    {
        &self.headers[i]
    }

    /// Positions of the parents of the block at position `i`.
    pub fn parent_positions(&self, i: usize) -> (r: &Vec<usize>)
        requires
            self.wf(),
            i < self.n(),
        ensures
            r@.len() == self.graph()[i as int].len(),
            forall|k: int| 0 <= k < r@.len() ==> r@[k] as int == self.graph()[i as int][k],
    {
        &self.parent_idx[i]
    }

    /// Direct parents of `h`.
    pub fn parents(&self, h: &BlockHash) -> (r: Result<&[BlockHash], GhostDagError>)
        requires
            self.wf(),
        ensures
            self.has(*h) ==> r is Ok && r->Ok_0@ == self.header_of(*h).parents@,
            !self.has(*h) ==> r == Err::<&[BlockHash], GhostDagError>(
                GhostDagError::BlockNotFound(*h),
            ),
    {
        match self.find(h) {
            Some(i) => Ok(self.headers[i].parents.as_slice()),
            None => Err(GhostDagError::BlockNotFound(*h)),
        }
    }

    /// All hashes, in insertion order.
    pub fn all_hashes(&self) -> (r: Vec<BlockHash>)
        ensures
            r@ == self.hashes(),
    {
        let mut r: Vec<BlockHash> = Vec::new();
        let mut i: usize = 0;
        while i < self.headers.len()
            invariant
                i <= self.n(),
                r@ == self.hashes().take(i as int),
            decreases self.n() - i,
        {
            r.push(self.headers[i].hash);
            i = i + 1;
            proof {
                assert(r@ =~= self.hashes().take(i as int));
            }
        }
        proof {
            assert(r@ =~= self.hashes());
        }
        r
    }

    /// All headers, in insertion order.
    pub fn headers(&self) -> (r: &[BlockHeader])
        ensures
            r@ == self.headers_seq(),
    {
        self.headers.as_slice()
    }
}

impl Default for DagStore {
    fn default() -> (r: DagStore)
        ensures
            r.wf(),
            r.n() == 0,
    {
        DagStore::new()
    }
}

/// Some parent among the first `k` of `x` is `j` or has `j` as an ancestor.
pub open spec fn anc_via(g: Seq<Seq<int>>, x: int, j: int, k: int) -> bool {
    exists|q: int| 0 <= q < k && (#[trigger] g[x][q] == j || anc(g, g[x][q], j))
}

impl DagStore {
    /// The ancestry matrix: entry `[x][j]` says whether the block at position
    /// `j` is a strict ancestor of the block at position `x`.
    pub fn ancestry(&self) -> (m: Vec<Vec<bool>>)
        requires
            self.wf(),
        ensures
            m@.len() == self.n(),
            forall|a: int| 0 <= a < self.n() ==> (#[trigger] m@[a])@.len() == self.n(),
            forall|a: int, j: int|
                0 <= a < self.n() && 0 <= j < self.n() ==> (#[trigger] m@[a]@[j]) == anc(
                    self.graph(),
                    a,
                    j,
                ),
    {
        assert forall|x: int, k: int| 0 <= x < self.parent_idx@.len() && 0 <= k < self.parent_idx@[x]@.len()
            implies (#[trigger] self.parent_idx@[x]@[k]) < x by {
            assert(self.graph()[x][k] == self.parent_idx@[x]@[k] as int);
        }
        ancestry_of(&self.parent_idx)
    }

    /// The hashes of the positions marked in `marks`, in position order.
    pub(crate) fn collect_marked(&self, marks: &Vec<bool>) -> (r: Vec<BlockHash>)
        requires
            self.wf(),
            marks@.len() == self.n(),
        ensures
            r@.no_duplicates(),
            forall|y: BlockHash|
                r@.contains(y) <==> exists|j: int|
                    0 <= j < self.n() && marks@[j] && #[trigger] self.hash_at(j) == y,
    {
        let n = self.headers.len();
        let mut r: Vec<BlockHash> = Vec::new();
        let ghost mut ids: Seq<int> = Seq::empty();
        let mut j: usize = 0;
        while j < n
            invariant
                self.wf(),
                n == self.n(),
                marks@.len() == n,
                j <= n,
                r@.no_duplicates(),
                ids.len() == r@.len(),
                forall|q: int| 0 <= q < ids.len() ==> 0 <= #[trigger] ids[q] < j,
                forall|q: int| 0 <= q < ids.len() ==> self.hash_at(#[trigger] ids[q]) == r@[q],
                forall|y: BlockHash|
                    r@.contains(y) <==> exists|a: int|
                        0 <= a < j && marks@[a] && #[trigger] self.hash_at(a) == y,
            decreases n - j,
        {
            if marks[j] {
                let h = self.headers[j].hash;
                let ghost r0 = r@;
                proof {
                    if r@.contains(h) {
                        let q = choose|q: int| 0 <= q < r@.len() && r@[q] == h;
                        assert(self.hash_at(ids[q]) == self.hash_at(j as int));
                    }
                }
                r.push(h);
                proof {
                    ids = ids.push(j as int);
                    assert forall|q: int| 0 <= q < ids.len() implies self.hash_at(#[trigger] ids[q])
                        == r@[q] by {
                        if q < ids.len() - 1 {
                            assert(r@[q] == r0[q]);
                        }
                    }
                    assert forall|y: BlockHash| r@.contains(y) <==> exists|a: int|
                        0 <= a < j + 1 && marks@[a] && #[trigger] self.hash_at(a) == y by {
                        if y == h {
                            assert(r@[r@.len() - 1] == y);
                            assert(self.hash_at(j as int) == y);
                        } else {
                            if r@.contains(y) {
                                let q = choose|q: int| 0 <= q < r@.len() && r@[q] == y;
                                assert(r0[q] == y);
                                assert(r0.contains(y));
                            }
                            if exists|a: int|
                                0 <= a < j + 1 && marks@[a] && #[trigger] self.hash_at(a) == y {
                                let a = choose|a: int|
                                    0 <= a < j + 1 && marks@[a] && #[trigger] self.hash_at(a) == y;
                                assert(a < j);
                                assert(r0.contains(y));
                                let q = choose|q: int| 0 <= q < r0.len() && r0[q] == y;
                                assert(r@[q] == y);
                            }
                        }
                    }
                }
            }
            j = j + 1;
        }
        r
    }
}

impl DagStore {
    /// `past(h)`: every strict ancestor of `h`.
    pub fn past(&self, h: &BlockHash) -> (r: Result<Vec<BlockHash>, GhostDagError>)
        requires
            self.wf(),
        ensures
            !self.has(*h) ==> r == Err::<Vec<BlockHash>, GhostDagError>(
                GhostDagError::BlockNotFound(*h),
            ),
            self.has(*h) ==> r is Ok,
            r is Ok ==> r->Ok_0@.no_duplicates(),
            r is Ok ==> forall|y: BlockHash| r->Ok_0@.contains(y) <==> self.in_past(*h, y),
    {
        let i = match self.find(h) {
            Some(i) => i,
            None => return Err(GhostDagError::BlockNotFound(*h)),
        };
        let m = self.ancestry();
        let v = self.collect_marked(&m[i]);
        proof {
            assert forall|y: BlockHash| self.in_past(*h, y) implies v@.contains(y) by {
                if self.in_past(*h, y) {
                    let j = self.index_of(y);
                    assert(m@[i as int]@[j]);
                }
            }
            assert forall|y: BlockHash| v@.contains(y) implies self.in_past(*h, y) by {
                if v@.contains(y) {
                    let j = choose|j: int| 0 <= j < self.n() && m@[i as int]@[j] && #[trigger] self.hash_at(j) == y;
                    self.lemma_index_of(j);
                }
            }
        }
        Ok(v)
    }

    /// `future(h)`: every strict descendant of `h`.
    pub fn future(&self, h: &BlockHash) -> (r: Result<Vec<BlockHash>, GhostDagError>)
        requires
            self.wf(),
        ensures
            !self.has(*h) ==> r == Err::<Vec<BlockHash>, GhostDagError>(
                GhostDagError::BlockNotFound(*h),
            ),
            self.has(*h) ==> r is Ok,
            r is Ok ==> r->Ok_0@.no_duplicates(),
            r is Ok ==> forall|y: BlockHash| r->Ok_0@.contains(y) <==> self.in_past(y, *h),
    {
        let i = match self.find(h) {
            Some(i) => i,
            None => return Err(GhostDagError::BlockNotFound(*h)),
        };
        let m = self.ancestry();
        let n = self.headers.len();
        let mut marks: Vec<bool> = Vec::new();
        let mut x: usize = 0;
        while x < n
            invariant
                n == self.n(),
                x <= n,
                i < n,
                m@.len() == n,
                forall|a: int| 0 <= a < n ==> (#[trigger] m@[a])@.len() == n,
                marks@.len() == x,
                forall|a: int| 0 <= a < x ==> #[trigger] marks@[a] == m@[a]@[i as int],
            decreases n - x,
        {
            marks.push(m[x][i]);
            x = x + 1;
        }
        let v = self.collect_marked(&marks);
        proof {
            assert forall|y: BlockHash| self.in_past(y, *h) implies v@.contains(y) by {
                if self.in_past(y, *h) {
                    let j = self.index_of(y);
                    assert(marks@[j]);
                }
            }
            assert forall|y: BlockHash| v@.contains(y) implies self.in_past(y, *h) by {
                if v@.contains(y) {
                    let j = choose|j: int| 0 <= j < self.n() && marks@[j] && #[trigger] self.hash_at(j) == y;
                    self.lemma_index_of(j);
                }
            }
        }
        Ok(v)
    }

    /// `anticone(h)`: every block other than `h` that is neither an ancestor
    /// nor a descendant of `h`.
    pub fn anticone(&self, h: &BlockHash) -> (r: Result<Vec<BlockHash>, GhostDagError>)
        requires
            self.wf(),
        ensures
            !self.has(*h) ==> r == Err::<Vec<BlockHash>, GhostDagError>(
                GhostDagError::BlockNotFound(*h),
            ),
            self.has(*h) ==> r is Ok,
            r is Ok ==> r->Ok_0@.no_duplicates(),
            r is Ok ==> forall|y: BlockHash| r->Ok_0@.contains(y) <==> self.in_anticone(*h, y),
    {
        let i = match self.find(h) {
            Some(i) => i,
            None => return Err(GhostDagError::BlockNotFound(*h)),
        };
        let m = self.ancestry();
        let marks = anticone_marks(&m, i);
        let v = self.collect_marked(&marks);
        proof {
            assert forall|y: BlockHash| self.in_anticone(*h, y) implies v@.contains(y) by {
                if self.in_anticone(*h, y) {
                    let j = self.index_of(y);
                    assert(marks@[j]);
                }
            }
            assert forall|y: BlockHash| v@.contains(y) implies self.in_anticone(*h, y) by {
                if v@.contains(y) {
                    let j = choose|j: int| 0 <= j < self.n() && marks@[j] && #[trigger] self.hash_at(j) == y;
                    self.lemma_index_of(j);
                    self.lemma_index_of(i as int);
                }
            }
        }
        Ok(v)
    }

    /// Whether some block lists position `p` among its parents, for every `p`.
    fn child_marks(&self) -> (r: Vec<bool>)
        requires
            self.wf(),
        ensures
            r@.len() == self.n(),
            forall|p: int|
                0 <= p < self.n() ==> #[trigger] r@[p] == exists|x: int, k: int|
                    0 <= x < self.n() && 0 <= k < self.graph()[x].len() && #[trigger] self.graph()[x][k] == p,
    {
        let n = self.headers.len();
        let ghost g = self.graph();
        let mut r: Vec<bool> = Vec::new();
        let mut j: usize = 0;
        while j < n
            invariant
                j <= n,
                n == self.n(),
                r@.len() == j,
                forall|a: int| 0 <= a < j ==> !(#[trigger] r@[a]),
            decreases n - j,
        {
            r.push(false);
            j = j + 1;
        }
        let mut x: usize = 0;
        while x < n
            invariant
                self.wf(),
                g == self.graph(),
                n == self.n(),
                x <= n,
                r@.len() == n,
                forall|p: int|
                    0 <= p < n ==> #[trigger] r@[p] == exists|a: int, k: int|
                        0 <= a < x && 0 <= k < g[a].len() && #[trigger] g[a][k] == p,
            decreases n - x,
        {
            let ps = self.parent_positions(x);
            let mut k: usize = 0;
            while k < ps.len()
                invariant
                    self.wf(),
                    g == self.graph(),
                    n == self.n(),
                    x < n,
                    k <= ps@.len(),
                    ps@.len() == g[x as int].len(),
                    forall|q: int| 0 <= q < ps@.len() ==> ps@[q] as int == g[x as int][q],
                    r@.len() == n,
                    forall|p: int|
                        0 <= p < n ==> #[trigger] r@[p] == ((exists|a: int, q: int|
                            0 <= a < x && 0 <= q < g[a].len() && #[trigger] g[a][q] == p) || (exists|q: int|
                            0 <= q < k && #[trigger] g[x as int][q] == p)),
                decreases ps@.len() - k,
            {
                let p = ps[k];
                assert(0 <= g[x as int][k as int] < x);
                r.set(p, true);
                proof {
                    assert forall|pp: int| 0 <= pp < n implies #[trigger] r@[pp] == ((exists|a: int, q: int|
                        0 <= a < x && 0 <= q < g[a].len() && #[trigger] g[a][q] == pp) || (exists|q: int|
                        0 <= q < k + 1 && #[trigger] g[x as int][q] == pp)) by {
                        if pp == p as int {
                            assert(g[x as int][k as int] == pp);
                        }
                    }
                }
                k = k + 1;
            }
            proof {
                assert forall|p: int| 0 <= p < n implies #[trigger] r@[p] == exists|a: int, q: int|
                    0 <= a < x + 1 && 0 <= q < g[a].len() && #[trigger] g[a][q] == p by {
                    if exists|a: int, q: int| 0 <= a < x + 1 && 0 <= q < g[a].len() && #[trigger] g[a][q] == p {
                        let (a, q) = choose|a: int, q: int| 0 <= a < x + 1 && 0 <= q < g[a].len() && #[trigger] g[a][q] == p;
                        if a == x {
                            assert(g[x as int][q] == p);
                        } else {
                            assert(g[a][q] == p);
                        }
                    }
                }
            }
            x = x + 1;
        }
        r
    }

    /// "Lists the hash at position `i` as a parent", in terms of parent positions.
    proof fn lemma_child_position(&self, i: int, x: int)
        requires
            self.wf(),
            0 <= i < self.n(),
            0 <= x < self.n(),
        ensures
            self.headers_seq()[x].parents@.contains(self.hash_at(i)) <==> exists|k: int|
                0 <= k < self.graph()[x].len() && #[trigger] self.graph()[x][k] == i,
    {
        let g = self.graph();
        if self.headers_seq()[x].parents@.contains(self.hash_at(i)) {
            let k = choose|k: int| 0 <= k < self.headers_seq()[x].parents@.len() && self.headers_seq()[x].parents@[k] == self.hash_at(i);
            assert(self.hash_at(g[x][k]) == self.hash_at(i));
            assert(g[x][k] == i);
        }
        if exists|k: int| 0 <= k < g[x].len() && #[trigger] g[x][k] == i {
            let k = choose|k: int| 0 <= k < g[x].len() && #[trigger] g[x][k] == i;
            assert(self.headers_seq()[x].parents@[k] == self.hash_at(i));
        }
    }

    /// Direct children of `h`: the blocks that list `h` among their parents.
    pub fn children_of(&self, h: &BlockHash) -> (r: Result<Vec<BlockHash>, GhostDagError>)
        requires
            self.wf(),
        ensures
            !self.has(*h) ==> r == Err::<Vec<BlockHash>, GhostDagError>(
                GhostDagError::BlockNotFound(*h),
            ),
            self.has(*h) ==> r is Ok,
            r is Ok ==> r->Ok_0@.no_duplicates(),
            r is Ok ==> forall|y: BlockHash| r->Ok_0@.contains(y) <==> self.is_child(*h, y),
    {
        let i = match self.find(h) {
            Some(i) => i,
            None => return Err(GhostDagError::BlockNotFound(*h)),
        };
        let n = self.headers.len();
        let ghost g = self.graph();
        let mut marks: Vec<bool> = Vec::new();
        let mut x: usize = 0;
        while x < n
            invariant
                self.wf(),
                g == self.graph(),
                n == self.n(),
                x <= n,
                i < n,
                marks@.len() == x,
                forall|a: int|
                    0 <= a < x ==> #[trigger] marks@[a] == exists|k: int|
                        0 <= k < g[a].len() && #[trigger] g[a][k] == i,
            decreases n - x,
        {
            let ps = self.parent_positions(x);
            let mut found = false;
            let mut k: usize = 0;
            while k < ps.len()
                invariant
                    k <= ps@.len(),
                    ps@.len() == g[x as int].len(),
                    forall|q: int| 0 <= q < ps@.len() ==> ps@[q] as int == g[x as int][q],
                    found == exists|q: int| 0 <= q < k && #[trigger] g[x as int][q] == i,
                decreases ps@.len() - k,
            {
                if ps[k] == i {
                    found = true;
                }
                proof {
                    if ps@[k as int] == i {
                        assert(g[x as int][k as int] == i);
                    }
                }
                k = k + 1;
            }
            marks.push(found);
            x = x + 1;
        }
        let v = self.collect_marked(&marks);
        proof {
            assert forall|y: BlockHash| v@.contains(y) <==> self.is_child(*h, y) by {
                if self.is_child(*h, y) {
                    let j = self.index_of(y);
                    self.lemma_child_position(i as int, j);
                    assert(marks@[j]);
                }
                if v@.contains(y) {
                    let j = choose|j: int| 0 <= j < self.n() && marks@[j] && #[trigger] self.hash_at(j) == y;
                    self.lemma_index_of(j);
                    self.lemma_child_position(i as int, j);
                }
            }
        }
        Ok(v)
    }

    /// The tips: blocks that no block lists as a parent.
    pub fn tips(&self) -> (r: Vec<BlockHash>)
        requires
            self.wf(),
        ensures
            r@.no_duplicates(),
            forall|y: BlockHash|
                r@.contains(y) <==> (self.has(y) && forall|z: BlockHash| !self.is_child(y, z)),
    {
        let cm = self.child_marks();
        let n = self.headers.len();
        let mut marks: Vec<bool> = Vec::new();
        let mut x: usize = 0;
        while x < n
            invariant
                n == self.n(),
                x <= n,
                cm@.len() == n,
                marks@.len() == x,
                forall|a: int| 0 <= a < x ==> #[trigger] marks@[a] == !cm@[a],
            decreases n - x,
        {
            marks.push(!cm[x]);
            x = x + 1;
        }
        let v = self.collect_marked(&marks);
        proof {
            let g = self.graph();
            assert forall|y: BlockHash| v@.contains(y) <==> (self.has(y) && forall|z: BlockHash| !self.is_child(y, z)) by {
                if self.has(y) {
                    let i = self.index_of(y);
                    if forall|z: BlockHash| !self.is_child(y, z) {
                        if cm@[i] {
                            let (a, k) = choose|a: int, k: int| 0 <= a < self.n() && 0 <= k < g[a].len() && #[trigger] g[a][k] == i;
                            self.lemma_child_position(i, a);
                            self.lemma_index_of(a);
                            assert(self.is_child(y, self.hash_at(a)));
                        }
                        assert(marks@[i]);
                    } else {
                        let z = choose|z: BlockHash| self.is_child(y, z);
                        let a = self.index_of(z);
                        self.lemma_child_position(i, a);
                        let k = choose|k: int| 0 <= k < g[a].len() && #[trigger] g[a][k] == i;
                        assert(cm@[i]);
                        if v@.contains(y) {
                            let j = choose|j: int| 0 <= j < self.n() && marks@[j] && #[trigger] self.hash_at(j) == y;
                            self.lemma_index_of(j);
                        }
                    }
                }
                if v@.contains(y) {
                    let j = choose|j: int| 0 <= j < self.n() && marks@[j] && #[trigger] self.hash_at(j) == y;
                    self.lemma_index_of(j);
                }
            }
        }
        v
    }

    /// The topological order of all blocks by Kahn's algorithm, taking the
    /// ready block with the smallest hash first: genesis comes first, every
    /// parent precedes its children, and the order depends only on the blocks
    /// and their parents.
    pub fn topological_order(&self) -> (r: Result<Vec<BlockHash>, GhostDagError>)
        requires
            self.wf(),
        ensures
            r is Ok,
            crate::canon::is_canonical_order(self, r->Ok_0@),
    {
        let ord = crate::canon::canonical_order(self);
        let mut out: Vec<BlockHash> = Vec::new();
        let mut t: usize = 0;
        while t < ord.len()
            invariant
                t <= ord@.len(),
                ord@.len() == self.n(),
                forall|a: int| 0 <= a < ord@.len() ==> (#[trigger] ord@[a]) < self.n(),
                out@ == crate::canon::hashes_of(self, ord@).take(t as int),
            decreases ord@.len() - t,
        {
            out.push(self.headers[ord[t]].hash);
            t = t + 1;
            proof {
                assert(out@ =~= crate::canon::hashes_of(self, ord@).take(t as int));
            }
        }
        proof {
            assert(out@ =~= crate::canon::hashes_of(self, ord@));
        }
        Ok(out)
    }
}

/// Marks of the anticone of position `i` in an ancestry matrix.
fn anticone_marks(m: &Vec<Vec<bool>>, i: usize) -> (r: Vec<bool>)
    requires
        i < m@.len(),
        forall|a: int| 0 <= a < m@.len() ==> (#[trigger] m@[a])@.len() == m@.len(),
    ensures
        r@.len() == m@.len(),
        forall|a: int|
            0 <= a < m@.len() ==> #[trigger] r@[a] == (a != i && !m@[i as int]@[a] && !m@[a]@[i as int]),
{
    let n = m.len();
    let mut r: Vec<bool> = Vec::new();
    let mut x: usize = 0;
    while x < n
        invariant
            n == m@.len(),
            x <= n,
            i < n,
            forall|a: int| 0 <= a < n ==> (#[trigger] m@[a])@.len() == n,
            r@.len() == x,
            forall|a: int|
                0 <= a < x ==> #[trigger] r@[a] == (a != i && !m@[i as int]@[a] && !m@[a]@[i as int]),
        decreases n - x,
    {
        r.push(x != i && !m[i][x] && !m[x][i]);
        x = x + 1;
    }
    r
}

/// Every parent of the block inserted at position `i` was inserted earlier.
pub proof fn lemma_topological(dag: &DagStore, i: int, p: BlockHash)
    requires
        dag.wf(),
        0 <= i < dag.n(),
        dag.headers_seq()[i].parents@.contains(p),
    ensures
        dag.has(p),
        0 <= dag.index_of(p) < i,
        dag.hashes()[dag.index_of(p)] == p,
{
    let k = choose|k: int| 0 <= k < dag.headers_seq()[i].parents@.len() && dag.headers_seq()[i].parents@[k] == p;
    let g = dag.graph();
    assert(0 <= g[i][k] < i);
    dag.lemma_index_of(g[i][k]);
}

/// Past and future are dual: `b` is in the past of `a` exactly when `a` is
/// in the future of `b`.
pub proof fn lemma_past_future_duality(
    dag: &DagStore,
    a: BlockHash,
    b: BlockHash,
    past_a: Seq<BlockHash>,
    future_b: Seq<BlockHash>,
)
    requires
        dag.wf(),
        forall|y: BlockHash| past_a.contains(y) <==> dag.in_past(a, y),
        forall|y: BlockHash| future_b.contains(y) <==> dag.in_past(y, b),
    ensures
        past_a.contains(b) <==> future_b.contains(a),
{
}

/// Anticone membership is symmetric, and a block of the anticone of `b` is
/// neither `b` nor in its past or future.
pub proof fn lemma_anticone_symmetric(
    dag: &DagStore,
    a: BlockHash,
    b: BlockHash,
    anticone_a: Seq<BlockHash>,
    anticone_b: Seq<BlockHash>,
    past_b: Seq<BlockHash>,
    future_b: Seq<BlockHash>,
)
    requires
        dag.wf(),
        forall|y: BlockHash| anticone_a.contains(y) <==> dag.in_anticone(a, y),
        forall|y: BlockHash| anticone_b.contains(y) <==> dag.in_anticone(b, y),
        forall|y: BlockHash| past_b.contains(y) <==> dag.in_past(b, y),
        forall|y: BlockHash| future_b.contains(y) <==> dag.in_past(y, b),
    ensures
        anticone_b.contains(a) <==> anticone_a.contains(b),
        anticone_b.contains(a) ==> !past_b.contains(a) && !future_b.contains(a) && a != b,
{
    assert(anticone_b.contains(a) <==> dag.in_anticone(b, a));
    assert(anticone_a.contains(b) <==> dag.in_anticone(a, b));
    assert(past_b.contains(a) <==> dag.in_past(b, a));
    assert(future_b.contains(a) <==> dag.in_past(a, b));
}

/// `h` is the bluest block: the highest blue score, ties going to the
/// lexicographically smaller hash.
pub open spec fn is_bluest(dag: &DagStore, h: BlockHash) -> bool {
    &&& dag.has(h)
    &&& forall|i: int|
        0 <= i < dag.n() ==> {
            let y = #[trigger] dag.headers_seq()[i];
            y.blue_score < dag.header_of(h).blue_score || (y.blue_score == dag.header_of(h).blue_score
                && (y.hash == h || crate::block::hash_lt(h, y.hash)))
        }
}

impl DagStore {
    /// The bluest block, or `None` for an empty store.
    pub fn bluest_tip(&self) -> (r: Option<BlockHash>)
        requires
            self.wf(),
        ensures
            self.n() == 0 <==> r is None,
            r is Some ==> is_bluest(self, r->0),
    {
        let n = self.headers.len();
        if n == 0 {
            return None;
        }
        let mut best: usize = 0;
        let mut i: usize = 1;
        while i < n
            invariant
                self.wf(),
                n == self.n(),
                1 <= i <= n,
                best < i,
                forall|a: int|
                    0 <= a < i ==> {
                        let y = #[trigger] self.headers_seq()[a];
                        y.blue_score < self.headers_seq()[best as int].blue_score || (y.blue_score
                            == self.headers_seq()[best as int].blue_score && (y.hash == self.hash_at(
                            best as int,
                        ) || crate::block::hash_lt(self.hash_at(best as int), y.hash)))
                    },
            decreases n - i,
        {
            let hb = &self.headers[best];
            let hi = &self.headers[i];
            let better = hi.blue_score > hb.blue_score || (hi.blue_score == hb.blue_score && match hi.hash.compare(&hb.hash) {
                core::cmp::Ordering::Less => true,
                _ => false,
            });
            if better {
                proof {
                    let ob = best as int;
                    assert forall|a: int| 0 <= a < i + 1 implies {
                        let y = #[trigger] self.headers_seq()[a];
                        y.blue_score < self.headers_seq()[i as int].blue_score || (y.blue_score
                            == self.headers_seq()[i as int].blue_score && (y.hash == self.hash_at(i as int)
                            || crate::block::hash_lt(self.hash_at(i as int), y.hash)))
                    } by {
                        let y = self.headers_seq()[a];
                        if a < i && y.blue_score == self.headers_seq()[i as int].blue_score {
                            if y.hash != self.hash_at(ob) {
                                crate::block::lemma_hash_lt_transitive(self.hash_at(i as int), self.hash_at(ob), y.hash);
                            }
                        }
                    }
                }
                best = i;
            } else {
                proof {
                    let ob = best as int;
                    let y = self.headers_seq()[i as int];
                    if y.blue_score == self.headers_seq()[ob].blue_score && y.hash != self.hash_at(ob) {
                        assert(self.hash_at(i as int) != self.hash_at(ob));
                    }
                }
            }
            i = i + 1;
        }
        let r = self.headers[best].hash;
        proof {
            self.lemma_index_of(best as int);
        }
        Some(r)
    }
}

} // verus!
