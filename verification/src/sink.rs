//! Where the edges of leaves go.

use crate::knn::Edge;
use vstd::prelude::*;

verus! {

/// Something that collects edges by source, in batches.
pub trait EdgeSink {
    /// What is collected for one source.
    type State;

    /// What the sink was made with.
    type Setup;

    /// What the sink was made with; taking edges does not change it.
    spec fn setup(&self) -> Self::Setup;

    /// Number of sources.
    spec fn sources(&self) -> nat;

    /// The sink can take edges.
    spec fn wf(&self) -> bool;

    /// What was collected for source `p`.
    spec fn collected(&self, p: int) -> Self::State;

    /// What source `p` has, given what it had, once a list of edges has come in; only those that
    /// leave `p` count.
    spec fn after(&self, p: int, had: Self::State, edges: Seq<Edge>) -> Self::State;

    /// Two lists one after the other have the effect of both as one.
    proof fn after_appends(&self, p: int, had: Self::State, first: Seq<Edge>, second: Seq<Edge>)
        ensures
            self.after(p, self.after(p, had, first), second) == self.after(p, had, first + second),
            self.after(p, had, Seq::empty()) == had,
    ;

    /// Takes a batch of edges.
    fn sink_edges(&mut self, edges: &[Edge])
        requires
            old(self).wf(),
            forall|i: int| 0 <= i < edges@.len() ==> (#[trigger] edges@[i]).src < old(self).sources(),
        ensures
            final(self).wf(),
            final(self).setup() == old(self).setup(),
            final(self).sources() == old(self).sources(),
            forall|p: int|
                0 <= p < old(self).sources() ==> (#[trigger] final(self).collected(p)) == old(self).after(
                    p,
                    old(self).collected(p),
                    edges@,
                ),
            forall|p: int, had: Self::State, list: Seq<Edge>|
                (#[trigger] final(self).after(p, had, list)) == old(self).after(p, had, list),
    ;
}

} // verus!
