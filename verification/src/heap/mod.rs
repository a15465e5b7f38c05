//! The heap of one execution context: its allocation records and the set of
//! candidate roots that the next collection pass will analyse.
//!
//! The heap is passed to every operation: making an allocation
//! ([`Heap::allocate`], [`Heap::adopt`]), copying a handle
//! ([`Heap::clone_gc`]), giving one back ([`Heap::drop_gc`]), moving a handle
//! into a payload and out of it ([`Heap::link`], [`Heap::unlink`]), and
//! collecting ([`Heap::collect`], or by itself once more candidate roots are
//! buffered than the threshold allows: [`Heap::drop_gc_collecting`]).
//!
//! The record of an allocation lists the handles that its payload owns: what
//! tracing the payload reports. The heap walks these lists in four ways. When
//! the last handle to an allocation is given back, each handle the
//! allocation owned is given back in turn. A pass takes each handle held
//! within the traced part from the trial count of the allocation it names,
//! adds those held by allocations it keeps back again, and in the end
//! destroys what it condemned and takes its handles off the real counts.
//!
//! A handle is good for the heap that made it. The contracts say so with
//! [`crate::model::names`] (the handle names a live allocation) and
//! [`crate::model::holds`] (and is one of the handles counted as held outside
//! the heap); [`Heap::knows`] and [`Heap::owns`] test the same at run time.

use crate::allocation::Allocation;
use crate::graph::targets_in_range;
use crate::handle::Gc;
use crate::model::{
    adjacency, allocated, cloned, external, holds, keeps_handles, lemma_adjacency_keep,
    lemma_adjacency_push, lemma_in_count_push_node, names, node_ok, nothing_returns,
    outside_handles_moved, well_formed,
};
use crate::rooted::{lemma_rooted_cloned, lemma_rooted_extended, rooted};
use vstd::prelude::*;

pub mod adjust;
pub mod adopt;
pub mod collect;
pub mod edges;
pub mod flood;
pub mod query;
pub mod release;
pub mod settle;

verus! {

/// A heap of reference-counted allocations that can also reclaim cycles.
///
/// Allocations are named by their index. An index is never given out twice:
/// the record of a destroyed allocation stays behind, without its payload,
/// so that an allocation is destroyed once and a handle never comes to name
/// another allocation than the one it was made for.
pub struct Heap<T> {
    records: Vec<Allocation<T>>,
    /// The candidate roots: exactly the allocations whose `buffered` flag is set.
    roots: Vec<usize>,
    /// For a buffered allocation, where it stands in `roots`.
    root_pos: Vec<usize>,
    /// A collection pass is due once more than this many roots are buffered.
    threshold: usize,
    /// The most allocations that one collection pass will trace.
    trace_limit: usize,
}

impl<T> Heap<T> {
    /// The allocation records, by index.
    pub closed spec fn nodes(&self) -> Seq<Allocation<T>> {
        self.records@
    }

    /// The number of buffered roots above which a collection pass is due.
    pub closed spec fn spec_threshold(&self) -> usize {
        self.threshold
    }

    /// The most allocations that one collection pass will trace.
    pub closed spec fn spec_trace_limit(&self) -> usize {
        self.trace_limit
    }

    /// The list of candidate roots agrees with the `buffered` flags.
    pub closed spec fn index_ok(&self) -> bool {
        &&& self.root_pos@.len() == self.records@.len()
        &&& forall|v: int|
            0 <= v < self.records@.len() && (#[trigger] self.records@[v]).buffered ==> {
                &&& self.root_pos@[v] < self.roots@.len()
                &&& self.roots@[self.root_pos@[v] as int] == v
            }
        &&& forall|i: int|
            0 <= i < self.roots@.len() ==> {
                &&& (#[trigger] self.roots@[i]) < self.records@.len()
                &&& self.records@[self.roots@[i] as int].buffered
                &&& self.root_pos@[self.roots@[i] as int] == i
            }
    }

    /// The heap is consistent.
    pub open spec fn wf(&self) -> bool {
        well_formed(self.nodes()) && self.index_ok()
    }

    /// A heap without allocations. A collection pass is due when more than
    /// `threshold` candidate roots are buffered, and a pass gives up rather
    /// than trace more than `trace_limit` allocations.
    pub fn new(threshold: usize, trace_limit: usize) -> (heap: Self)
        ensures
            heap.wf(),
            rooted(heap.nodes()),
            heap.nodes().len() == 0,
            heap.spec_threshold() == threshold,
            heap.spec_trace_limit() == trace_limit,
    {
        let heap = Heap {
            records: Vec::new(),
            roots: Vec::new(),
            root_pos: Vec::new(),
            threshold,
            trace_limit,
        };
        heap
    }

    /// The number of allocations ever made, destroyed ones included.
    pub fn len(&self) -> (n: usize)
        ensures
            n == self.nodes().len(),
    {
        self.records.len()
    }

    /// The number of buffered roots above which a collection pass is due.
    #[verifier::when_used_as_spec(spec_threshold)]
    pub fn threshold(&self) -> (t: usize)
        ensures
            t == self.spec_threshold(),
    {
        self.threshold
    }

    /// Sets the number of buffered roots above which a collection pass is due.
    pub fn set_threshold(&mut self, threshold: usize)
        ensures
            final(self).wf() == old(self).wf(),
            final(self).nodes() == old(self).nodes(),
            final(self).spec_threshold() == threshold,
            final(self).spec_trace_limit() == old(self).spec_trace_limit(),
    {
        self.threshold = threshold;
    }

    /// The most allocations that one collection pass will trace.
    #[verifier::when_used_as_spec(spec_trace_limit)]
    pub fn trace_limit(&self) -> (t: usize)
        ensures
            t == self.spec_trace_limit(),
    {
        self.trace_limit
    }

    /// Sets the most allocations that one collection pass will trace.
    pub fn set_trace_limit(&mut self, trace_limit: usize)
        ensures
            final(self).wf() == old(self).wf(),
            final(self).nodes() == old(self).nodes(),
            final(self).spec_threshold() == old(self).spec_threshold(),
            final(self).spec_trace_limit() == trace_limit,
    {
        self.trace_limit = trace_limit;
    }

    /// Makes an allocation for `payload` and returns the one handle to it.
    /// The handle and every copy of it carry the metadata `meta`.
    pub fn allocate_with_metadata(&mut self, payload: T, meta: usize) -> (gc: Gc)
        requires
            old(self).wf(),
            old(self).nodes().len() < usize::MAX,
        ensures
            final(self).wf(),
            allocated(old(self).nodes(), payload, meta, Seq::empty(), gc, final(self).nodes()),
            holds(final(self).nodes(), gc),
            external(final(self).nodes(), old(self).nodes().len() as usize) == 1,
            outside_handles_moved(old(self).nodes(), final(self).nodes(), None, 0),
            keeps_handles(old(self).nodes(), final(self).nodes()),
            nothing_returns(old(self).nodes(), final(self).nodes()),
            rooted(old(self).nodes()) ==> rooted(final(self).nodes()),
            final(self).spec_threshold() == old(self).spec_threshold(),
            final(self).spec_trace_limit() == old(self).spec_trace_limit(),
    {
        let slot = self.records.len();
        let rec = Allocation::new(payload, meta);
        proof {
            let g = self.records@;
            let g2 = g.push(rec);
            lemma_adjacency_push(g, rec);
            assert(rec.edges@ =~= Seq::<usize>::empty());
            let adj = adjacency(g);
            let adj2 = adjacency(g2);
            assert(targets_in_range(adj2)) by {
                assert forall|u: int, k: int|
                    0 <= u < adj2.len() && 0 <= k < adj2[u].len() implies (#[trigger] adj2[u][k])
                    < adj2.len() by {
                    assert(adj2[u][k] == adj[u][k]);
                }
            }
            assert forall|v: int| 0 <= v < g2.len() implies #[trigger] node_ok(g2, v) by {
                lemma_in_count_push_node(adj, Set::full(), v as usize);
                if v < g.len() {
                    assert(node_ok(g, v));
                }
            }
            assert(g2.drop_last() =~= g);
            lemma_in_count_push_node(adj, Set::full(), slot);
            assert forall|v: int| 0 <= v < g.len() implies (#[trigger] g2[v]) == g[v] by {}
            assert forall|other: Gc| holds(g, other) implies #[trigger] holds(g2, other) by {
                if other.target() is Some {
                    lemma_in_count_push_node(adj, Set::full(), other.target().unwrap());
                }
            }
            assert forall|v: usize| v < g.len() implies #[trigger] external(g2, v) == external(
                g,
                v,
            ) by {
                lemma_in_count_push_node(adj, Set::full(), v);
            }
            if rooted(g) {
                assert forall|v: usize| v < g.len() implies external(g2, v) == #[trigger] external(
                    g,
                    v,
                ) - crate::graph::count_in(Seq::<usize>::empty(), v) by {
                    crate::graph::lemma_count_in_empty(v);
                    assert(external(g2, v) == external(g, v));
                }
                lemma_rooted_extended(g, g2, Seq::<usize>::empty());
            }
        }
        self.records.push(rec);
        self.root_pos.push(0);
        Gc::live(slot, meta)
    }

    /// Makes an allocation for `payload` and returns the one handle to it.
    pub fn allocate(&mut self, payload: T) -> (gc: Gc)
        requires
            old(self).wf(),
            old(self).nodes().len() < usize::MAX,
        ensures
            final(self).wf(),
            allocated(old(self).nodes(), payload, 0, Seq::empty(), gc, final(self).nodes()),
            holds(final(self).nodes(), gc),
            external(final(self).nodes(), old(self).nodes().len() as usize) == 1,
            outside_handles_moved(old(self).nodes(), final(self).nodes(), None, 0),
            keeps_handles(old(self).nodes(), final(self).nodes()),
            nothing_returns(old(self).nodes(), final(self).nodes()),
            rooted(old(self).nodes()) ==> rooted(final(self).nodes()),
            final(self).spec_threshold() == old(self).spec_threshold(),
            final(self).spec_trace_limit() == old(self).spec_trace_limit(),
    {
        self.allocate_with_metadata(payload, 0)
    }

    /// Copies a handle. The copy of a live handle names the same allocation,
    /// which counts one handle more; the copy of a dead handle is dead. The
    /// metadata is copied with it.
    pub fn clone_gc(&mut self, gc: &Gc) -> (copy: Gc)
        requires
            old(self).wf(),
            names(old(self).nodes(), *gc),
            gc.target() is Some ==> old(self).nodes()[gc.target().unwrap() as int].strong_count
                < usize::MAX,
        ensures
            final(self).wf(),
            cloned(old(self).nodes(), *gc, copy, final(self).nodes()),
            holds(final(self).nodes(), copy),
            outside_handles_moved(old(self).nodes(), final(self).nodes(), gc.target(), -1),
            keeps_handles(old(self).nodes(), final(self).nodes()),
            nothing_returns(old(self).nodes(), final(self).nodes()),
            rooted(old(self).nodes()) ==> rooted(final(self).nodes()),
            final(self).spec_threshold() == old(self).spec_threshold(),
            final(self).spec_trace_limit() == old(self).spec_trace_limit(),
    {
        match gc.slot() {
            None => Gc::dead_with_metadata(gc.metadata()),
            Some(s) => {
                proof {
                    let g = self.records@;
                    let rec = g[s as int].incremented();
                    lemma_adjacency_keep(g, s as int, rec);
                    let g2 = g.update(s as int, rec);
                    assert forall|v: int| 0 <= v < g2.len() implies #[trigger] node_ok(g2, v) by {
                        assert(node_ok(g, v));
                    }
                    assert(node_ok(g, s as int));
                    if rooted(g) {
                        lemma_rooted_cloned(g, s);
                    }
                }
                self.records[s].increment();
                Gc::live(s, gc.metadata())
            },
        }
    }

    /// The number of handles to the allocation that `gc` names; zero for a
    /// dead handle.
    pub fn ref_count(&self, gc: &Gc) -> (count: usize)
        requires
            self.wf(),
            names(self.nodes(), *gc),
        ensures
            count == match gc.target() {
                None => 0,
                Some(s) => self.nodes()[s as int].strong_count,
            },
    {
        match gc.slot() {
            None => 0,
            Some(s) => self.records[s].strong_count,
        }
    }

    /// The payload that `gc` names; `None` for a dead handle.
    pub fn get(&self, gc: &Gc) -> (payload: Option<&T>)
        requires
            self.wf(),
            names(self.nodes(), *gc),
        ensures
            match gc.target() {
                None => payload is None,
                Some(s) => payload is Some && self.nodes()[s as int].payload == Some(
                    *payload.unwrap(),
                ),
            },
    {
        match gc.slot() {
            None => None,
            Some(s) => self.records[s].payload.as_ref(),
        }
    }

    /// The list of candidate roots agrees with the `buffered` flags, except
    /// that `c` may be flagged without being listed.
    pub closed spec fn index_ok_but(&self, c: usize) -> bool {
        &&& self.root_pos@.len() == self.records@.len()
        &&& forall|v: int|
            0 <= v < self.records@.len() && v != c && (#[trigger] self.records@[v]).buffered ==> {
                &&& self.root_pos@[v] < self.roots@.len()
                &&& self.roots@[self.root_pos@[v] as int] == v
            }
        &&& forall|i: int|
            0 <= i < self.roots@.len() ==> {
                &&& (#[trigger] self.roots@[i]) < self.records@.len()
                &&& self.roots@[i] != c
                &&& self.records@[self.roots@[i] as int].buffered
                &&& self.root_pos@[self.roots@[i] as int] == i
            }
    }

    /// Lists the flagged allocation `c` among the candidate roots.
    fn list_root(&mut self, c: usize)
        requires
            c < old(self).records@.len(),
            old(self).records@[c as int].buffered,
            old(self).index_ok_but(c),
        ensures
            final(self).index_ok(),
            final(self).records@ == old(self).records@,
            final(self).threshold == old(self).threshold,
            final(self).trace_limit == old(self).trace_limit,
    {
        let pos = self.roots.len();
        self.roots.push(c);
        self.root_pos[c] = pos;
    }

    /// Counts one handle to `c` fewer, and queues `c` for cycle analysis if
    /// it survives that. Returns the count that is left.
    fn release_handle(&mut self, c: usize) -> (left: usize)
        requires
            c < old(self).records@.len(),
            old(self).records@[c as int].strong_count > 0,
            old(self).index_ok(),
        ensures
            final(self).index_ok(),
            final(self).records@ == old(self).records@.update(
                c as int,
                old(self).records@[c as int].decremented(),
            ),
            left == old(self).records@[c as int].strong_count - 1,
            final(self).threshold == old(self).threshold,
            final(self).trace_limit == old(self).trace_limit,
    {
        let (left, became_buffered) = self.records[c].decrement();
        if became_buffered {
            self.list_root(c);
        }
        left
    }

    /// Takes `u` out of the candidate roots.
    fn unbuffer(&mut self, u: usize)
        requires
            u < old(self).records@.len(),
            old(self).records@[u as int].buffered,
            old(self).index_ok(),
        ensures
            final(self).index_ok(),
            final(self).records@ == old(self).records@.update(
                u as int,
                (Allocation { buffered: false, ..old(self).records@[u as int] }),
            ),
            final(self).threshold == old(self).threshold,
            final(self).trace_limit == old(self).trace_limit,
    {
        let pos = self.root_pos[u];
        let last = self.roots.pop().unwrap();
        if last != u {
            self.roots[pos] = last;
            self.root_pos[last] = pos;
        }
        self.records[u].buffered = false;
    }
}

} // verus!
