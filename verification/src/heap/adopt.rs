//! Taking in a payload that owns handles: the payload is traced once, and
//! the handles it shows are from then on counted as held inside the heap.

use crate::allocation::Allocation;
use crate::graph::targets_in_range;
use crate::handle::Gc;
use crate::heap::Heap;
use crate::model::{
    adjacency, allocated, external, holds, holds_all, lemma_adjacency_push,
    lemma_in_count_push_edges, node_ok, nothing_returns,
};
use crate::rooted::rooted;
use crate::trace::{targets, Trace, Visitor};
use vstd::prelude::*;

verus! {

impl<T: Trace> Heap<T> {
    /// Makes an allocation for a payload that owns handles, and returns the
    /// one handle to it, which carries the metadata `meta`.
    ///
    /// The payload is traced, and the handles it shows belong to the new
    /// allocation from then on: the allocations they name count as many
    /// handles as before, of which these are now held inside the heap.
    ///
    /// Hands the payload back, and changes nothing, if tracing fails: the
    /// payload shows more live handles than a pass may trace allocations.
    pub fn adopt(&mut self, payload: T, meta: usize) -> (r: Result<Gc, T>)
        requires
            old(self).wf(),
            old(self).nodes().len() < usize::MAX,
            holds_all(old(self).nodes(), targets(payload.handles())),
        ensures
            final(self).wf(),
            rooted(old(self).nodes()) ==> rooted(final(self).nodes()),
            nothing_returns(old(self).nodes(), final(self).nodes()),
            final(self).spec_threshold() == old(self).spec_threshold(),
            final(self).spec_trace_limit() == old(self).spec_trace_limit(),
            match r {
                Err(back) => {
                    &&& targets(payload.handles()).len() > old(self).spec_trace_limit()
                    &&& back == payload
                    &&& final(self).nodes() == old(self).nodes()
                },
                Ok(gc) => {
                    &&& targets(payload.handles()).len() <= old(self).spec_trace_limit()
                    &&& allocated(
                        old(self).nodes(),
                        payload,
                        meta,
                        targets(payload.handles()),
                        gc,
                        final(self).nodes(),
                    )
                    &&& holds(final(self).nodes(), gc)
                    &&& forall|v: usize|
                        v < old(self).nodes().len() ==> external(final(self).nodes(), v)
                            == #[trigger] external(old(self).nodes(), v) - crate::graph::count_in(
                            targets(payload.handles()),
                            v,
                        )
                },
            },
    {
        let mut visitor = Visitor::new(self.trace_limit);
        let shown = payload.accept(&mut visitor);
        if shown.is_err() {
            return Err(payload);
        }
        let edges = visitor.into_noted();
        let slot = self.records.len();
        let rec = Allocation::with_edges(payload, meta, edges);
        proof {
            let g = self.records@;
            let g2 = g.push(rec);
            let adj = adjacency(g);
            let adj2 = adjacency(g2);
            let list = targets(payload.handles());
            assert(Seq::<usize>::empty() + list =~= list);
            assert(rec.edges@ == list);
            lemma_adjacency_push(g, rec);
            assert(targets_in_range(adj2)) by {
                assert forall|u: int, k: int|
                    0 <= u < adj2.len() && 0 <= k < adj2[u].len() implies (#[trigger] adj2[u][k])
                    < adj2.len() by {
                    if u < adj.len() {
                        assert(adj2[u][k] == adj[u][k]);
                    } else {
                        assert(list[k] < g.len());
                    }
                }
            }
            assert forall|v: usize| v < g.len() implies external(g2, v) == #[trigger] external(g, v)
                - crate::graph::count_in(list, v) by {
                lemma_in_count_push_edges(adj, Set::full(), list, v);
            }
            assert forall|v: int| 0 <= v < g2.len() implies #[trigger] node_ok(g2, v) by {
                lemma_in_count_push_edges(adj, Set::full(), list, v as usize);
                if v < g.len() {
                    assert(node_ok(g, v));
                    assert(external(g2, v as usize) == external(g, v as usize)
                        - crate::graph::count_in(list, v as usize));
                }
            }
            assert(g2.drop_last() =~= g);
            assert forall|v: int| 0 <= v < g.len() implies (#[trigger] g2[v]) == g[v] by {}
            lemma_in_count_push_edges(adj, Set::full(), list, slot);
            if rooted(g) {
                crate::rooted::lemma_rooted_extended(g, g2, list);
            }
        }
        self.records.push(rec);
        self.root_pos.push(0);
        Ok(Gc::live(slot, meta))
    }
}

} // verus!
