//! Merging of edges through hash buckets: every candidate goes to the reservoir of its source,
//! under the bucket that its sketch gives it there.

use crate::arith::Arithmetic;
use crate::candidate_pool::Candidate;
use crate::knn::Edge;
use crate::lsh::LshState;
use crate::number::Real;
use crate::reservoir::{
    absorb, absorb_all, drained, empty_slot, keeps_closest_buckets, reservoir_keeps_closest_buckets,
    rounded_up_to_32, slot_valid, Kept, OnlineHashPrune, SlotView, L_MAX_MAX,
};
use crate::sink::EdgeSink;
use vstd::prelude::*;

verus! {

/// The entry that an edge makes in the reservoir of its source; ids wrap at 32 bits.
pub open spec fn kept_of<A: Arithmetic>(ops: A, lsh: LshState, e: Edge) -> Kept {
    Kept {
        hash: lsh.bucket(ops, e.src as int, e.dst as int) as u16,
        dist: e.distance.coarse(),
        neighbor: (e.dst as int % 0x1_0000_0000) as u32,
    }
}

/// The slot of source `p` once the edges have come in.
pub open spec fn absorb_edges<A: Arithmetic>(
    ops: A,
    lsh: LshState,
    l_max: nat,
    p: int,
    had: SlotView,
    edges: Seq<Edge>,
) -> SlotView
    decreases edges.len(),
{
    if edges.len() == 0 {
        had
    } else {
        let before = absorb_edges(ops, lsh, l_max, p, had, edges.drop_last());
        if edges.last().src == p {
            absorb(before, l_max, kept_of(ops, lsh, edges.last()))
        } else {
            before
        }
    }
}

proof fn absorb_edges_appends<A: Arithmetic>(
    ops: A,
    lsh: LshState,
    l_max: nat,
    p: int,
    had: SlotView,
    first: Seq<Edge>,
    second: Seq<Edge>,
)
    ensures
        absorb_edges(ops, lsh, l_max, p, absorb_edges(ops, lsh, l_max, p, had, first), second)
            == absorb_edges(ops, lsh, l_max, p, had, first + second),
    decreases second.len(),
{
    let all = first + second;
    if second.len() == 0 {
        assert(all =~= first);
    } else {
        absorb_edges_appends(ops, lsh, l_max, p, had, first, second.drop_last());
        assert(all.drop_last() =~= first + second.drop_last());
        assert(all.last() == second.last());
    }
}

/// The entries that a list of edges offers to source `p`, in order.
pub open spec fn offers<A: Arithmetic>(ops: A, lsh: LshState, p: int, edges: Seq<Edge>) -> Seq<Kept>
    decreases edges.len(),
{
    if edges.len() == 0 {
        Seq::empty()
    } else {
        let before = offers(ops, lsh, p, edges.drop_last());
        if edges.last().src == p {
            before.push(kept_of(ops, lsh, edges.last()))
        } else {
            before
        }
    }
}

/// However many edges have been merged, the slot of a source holds the closest candidate of each
/// of the `l_max` closest buckets among the edges that leave it.
pub proof fn merged_keeps_closest_buckets<A: Arithmetic>(
    ops: A,
    lsh: LshState,
    l_max: nat,
    p: int,
    edges: Seq<Edge>,
)
    ensures
        ({
            let slot = absorb_edges(ops, lsh, l_max, p, empty_slot(), edges);
            &&& slot_valid(slot, l_max)
            &&& keeps_closest_buckets(slot.entries, l_max, offers(ops, lsh, p, edges))
        }),
{
    absorb_edges_history(ops, lsh, l_max, p, edges);
    reservoir_keeps_closest_buckets(l_max, offers(ops, lsh, p, edges));
}

pub(crate) proof fn absorb_edges_history<A: Arithmetic>(
    ops: A,
    lsh: LshState,
    l_max: nat,
    p: int,
    edges: Seq<Edge>,
)
    ensures
        absorb_edges(ops, lsh, l_max, p, empty_slot(), edges) == absorb_all(
            l_max,
            offers(ops, lsh, p, edges),
        ),
    decreases edges.len(),
{
    if edges.len() > 0 {
        absorb_edges_history(ops, lsh, l_max, p, edges.drop_last());
        let before = offers(ops, lsh, p, edges.drop_last());
        if edges.last().src == p {
            let e = kept_of(ops, lsh, edges.last());
            assert(before.push(e).drop_last() =~= before);
        }
    }
}

/// The ids in a drained slot.
pub open spec fn drained_ids(s: SlotView, max_degree: nat) -> Seq<u32> {
    drained(s.entries, max_degree).map_values(|c: (u32, Real)| c.0)
}

/// Reservoirs for all points, with the sketches that sort candidates into buckets.
pub struct HashPrune<'a, A> {
    ops: &'a A,
    lsh: LshState,
    reservoir: OnlineHashPrune,
    max_degree: usize,
}

impl<'a, A: Arithmetic> HashPrune<'a, A> {
    /// The arithmetic in use.
    pub closed spec fn arithmetic(&self) -> A {
        *self.ops
    }

    /// The sketches in use.
    pub closed spec fn sketches(&self) -> LshState {
        self.lsh
    }

    /// Most entries per point.
    pub closed spec fn capacity(&self) -> nat {
        self.reservoir.capacity()
    }

    /// Most neighbours per point.
    pub closed spec fn degree(&self) -> nat {
        self.max_degree as nat
    }

    /// Number of points.
    pub closed spec fn npoints(&self) -> nat {
        self.reservoir.npoints()
    }

    /// The slot of a point.
    pub closed spec fn slot(&self, p: int) -> SlotView {
        self.reservoir.slot(p)
    }

    /// The parts are in order.
    pub closed spec fn valid(&self) -> bool {
        self.ops.ready() && self.lsh.wf() && self.reservoir.wf()
    }

    /// Empty reservoirs of at most `l_max` entries for `npoints` points.
    pub fn from_sketches(
        ops: &'a A,
        lsh: LshState,
        npoints: usize,
        l_max: usize,
        max_degree: usize,
    ) -> (r: Self)
        requires
            ops.ready(),
            lsh.wf(),
            l_max <= L_MAX_MAX,
            npoints * (if l_max == 0 { 32 } else { rounded_up_to_32(l_max as int) }) <= usize::MAX,
        ensures
            r.valid(),
            r.arithmetic() == *ops,
            r.sketches() == lsh,
            r.capacity() == l_max,
            r.degree() == max_degree,
            r.npoints() == npoints,
            forall|p: int| 0 <= p < npoints ==> #[trigger] r.slot(p) == empty_slot(),
    {
        HashPrune { ops, lsh, reservoir: OnlineHashPrune::new(npoints, l_max), max_degree }
    }

    /// Offers every edge to the reservoir of its source.
    pub fn add_edges_batched(&mut self, edges: &[Edge])
        requires
            old(self).valid(),
            forall|i: int| 0 <= i < edges@.len() ==> (#[trigger] edges@[i]).src < old(self).npoints(),
        ensures
            final(self).valid(),
            final(self).arithmetic() == old(self).arithmetic(),
            final(self).sketches() == old(self).sketches(),
            final(self).capacity() == old(self).capacity(),
            final(self).degree() == old(self).degree(),
            final(self).npoints() == old(self).npoints(),
            forall|p: int|
                0 <= p < old(self).npoints() ==> (#[trigger] final(self).slot(p)) == absorb_edges(
                    old(self).arithmetic(),
                    old(self).sketches(),
                    old(self).capacity(),
                    p,
                    old(self).slot(p),
                    edges@,
                ),
    {
        let ghost before = *self;
        let mut i: usize = 0;
        assert(edges@.take(0) =~= Seq::<Edge>::empty());
        while i < edges.len()
            invariant
                i <= edges@.len(),
                forall|i: int| 0 <= i < edges@.len() ==> (#[trigger] edges@[i]).src < before.npoints(),
                self.valid(),
                self.ops == before.ops,
                self.lsh == before.lsh,
                self.max_degree == before.max_degree,
                self.capacity() == before.capacity(),
                self.npoints() == before.npoints(),
                forall|p: int|
                    0 <= p < before.npoints() ==> #[trigger] self.slot(p) == absorb_edges(
                        before.arithmetic(),
                        before.sketches(),
                        before.capacity(),
                        p,
                        before.slot(p),
                        edges@.take(i as int),
                    ),
            decreases edges@.len() - i,
        {
            let e = edges[i];
            let ghost prior = *self;
            assert(edges@[i as int].src < before.npoints());
            let hash: u16 = self.lsh.relative_hash(self.ops, e.src, e.dst);
            let id: u32 = (e.dst as u64 % 0x1_0000_0000) as u32;
            self.reservoir.add_edge(e.src, id, hash, e.distance);
            proof {
                assert(edges@.take(i + 1).drop_last() =~= edges@.take(i as int));
                assert(edges@.take(i + 1).last() == e);
                assert forall|p: int| 0 <= p < before.npoints() implies #[trigger] self.slot(p)
                    == absorb_edges(
                    before.arithmetic(),
                    before.sketches(),
                    before.capacity(),
                    p,
                    before.slot(p),
                    edges@.take(i + 1),
                ) by {
                    assert(prior.slot(p) == absorb_edges(
                        before.arithmetic(),
                        before.sketches(),
                        before.capacity(),
                        p,
                        before.slot(p),
                        edges@.take(i as int),
                    ));
                    if p != e.src {
                        assert(self.reservoir.slot(p) == prior.reservoir.slot(p));
                    }
                }
            }
            i += 1;
        }
        assert(edges@.take(i as int) =~= edges@);
    }

    /// The closest neighbours of every point, cut to the degree.
    pub fn extract_graph(&self) -> (out: Vec<Vec<u32>>)
        requires
            self.valid(),
        ensures
            out@.len() == self.npoints(),
            forall|p: int|
                0 <= p < out@.len() ==> (#[trigger] out@[p])@ == drained_ids(
                    self.slot(p),
                    self.degree(),
                ),
    {
        let n: usize = self.reservoir.len();
        let mut out: Vec<Vec<u32>> = Vec::with_capacity(n);
        let mut p: usize = 0;
        while p < n
            invariant
                p <= n,
                n == self.npoints(),
                self.valid(),
                out@.len() == p,
                forall|q: int|
                    0 <= q < p ==> (#[trigger] out@[q])@ == drained_ids(
                        self.slot(q),
                        self.degree(),
                    ),
            decreases n - p,
        {
            let kept = self.reservoir.get_neighbors(p, self.max_degree);
            let mut ids: Vec<u32> = Vec::with_capacity(kept.len());
            let mut i: usize = 0;
            while i < kept.len()
                invariant
                    i <= kept@.len(),
                    ids@.len() == i,
                    forall|j: int| 0 <= j < i ==> #[trigger] ids@[j] == kept@[j].0,
                decreases kept@.len() - i,
            {
                ids.push(kept[i].0);
                i += 1;
            }
            assert(ids@ =~= drained_ids(self.slot(p as int), self.degree()));
            out.push(ids);
            p += 1;
        }
        out
    }

    /// Everything that the reservoirs hold, with distances, for a final prune.
    pub fn extract_graph_for_prune(&self) -> (out: Vec<Vec<Candidate>>)
        requires
            self.valid(),
        ensures
            out@.len() == self.npoints(),
            forall|p: int|
                0 <= p < out@.len() ==> (#[trigger] out@[p])@ == drained(
                    self.slot(p).entries,
                    self.capacity(),
                ),
    {
        let n: usize = self.reservoir.len();
        let l_max: usize = self.reservoir.l_max();
        let mut out: Vec<Vec<Candidate>> = Vec::with_capacity(n);
        let mut p: usize = 0;
        while p < n
            invariant
                p <= n,
                n == self.npoints(),
                l_max == self.capacity(),
                self.valid(),
                out@.len() == p,
                forall|q: int|
                    0 <= q < p ==> (#[trigger] out@[q])@ == drained(
                        self.slot(q).entries,
                        self.capacity(),
                    ),
            decreases n - p,
        {
            out.push(self.reservoir.get_neighbors(p, l_max));
            p += 1;
        }
        out
    }
}

impl<'a, A: Arithmetic> EdgeSink for HashPrune<'a, A> {
    type State = SlotView;

    type Setup = (A, LshState, nat, nat);

    open spec fn setup(&self) -> (A, LshState, nat, nat) {
        (self.arithmetic(), self.sketches(), self.capacity(), self.degree())
    }

    open spec fn sources(&self) -> nat {
        self.npoints()
    }

    open spec fn wf(&self) -> bool {
        self.valid()
    }

    open spec fn collected(&self, p: int) -> SlotView {
        self.slot(p)
    }

    open spec fn after(&self, p: int, had: SlotView, edges: Seq<Edge>) -> SlotView {
        absorb_edges(self.arithmetic(), self.sketches(), self.capacity(), p, had, edges)
    }

    proof fn after_appends(&self, p: int, had: SlotView, first: Seq<Edge>, second: Seq<Edge>) {
        absorb_edges_appends(
            self.arithmetic(),
            self.sketches(),
            self.capacity(),
            p,
            had,
            first,
            second,
        );
    }

    fn sink_edges(&mut self, edges: &[Edge]) {
        self.add_edges_batched(edges);
    }
}

} // verus!
