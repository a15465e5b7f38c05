//! What lies behind the lock of a shared heap: the heap itself and, for
//! each allocation that is held outside of it, the one handle by which the
//! heap counts all of them.
//!
//! Threads count the handles they hold outside the heap among themselves,
//! in the atomic count that the handles share. The heap counts them as one:
//! the anchor. The thread that gives back the last of them takes the lock and
//! gives back the anchor; a handle that moves out of a payload into a heap
//! without an anchor for its allocation becomes one.

use crate::allocation::Allocation;
use crate::handle::Gc;
use crate::heap::Heap;
use crate::model::{
    allocated, buffered, edges_replaced, external, gave_back_collecting, holds, holds_both,
    keeps_edges, names, node_ok, nothing_returns, pass_outcome, well_formed, Deferred,
};
use crate::rooted::rooted;
use crate::sync::count::SharedCount;
use crate::sync::handle::SharedGc;
use std::sync::Arc;
use vstd::prelude::*;

verus! {

/// The heap of a shared domain with its anchors.
pub struct Table<T> {
    heap: Heap<T>,
    /// For each allocation, the handle that stands for all handles held
    /// outside the heap, if there are any.
    anchors: Vec<Option<Gc>>,
    /// For each anchored allocation, the count that those handles share.
    counts: Vec<Option<Arc<SharedCount>>>,
    /// For each allocation, how often it went from not being held outside
    /// the heap to being held.
    generations: Vec<u64>,
}

impl<T> Table<T> {
    /// The allocation records, by index.
    pub closed spec fn nodes(&self) -> Seq<Allocation<T>> {
        self.heap.nodes()
    }

    /// Whether the heap counts handles to `v` that are held outside of it.
    pub closed spec fn anchored(&self, v: int) -> bool {
        self.anchors@[v] is Some
    }

    /// The generation of outside handles to `v`.
    pub closed spec fn generation_of(&self, v: int) -> u64 {
        self.generations@[v]
    }

    /// The number of buffered roots above which a pass is due.
    pub closed spec fn spec_threshold(&self) -> usize {
        self.heap.spec_threshold()
    }

    /// The most allocations that one pass will trace.
    pub closed spec fn spec_trace_limit(&self) -> usize {
        self.heap.spec_trace_limit()
    }

    /// The anchor of `v` is in order: it names `v`, which is alive, and is
    /// the one handle to `v` that the heap counts as held outside of it; or
    /// there is none, and the heap counts no such handle.
    pub closed spec fn slot_ok(&self, v: int) -> bool {
        let g = self.heap.nodes();
        match self.anchors@[v] {
            Some(a) => {
                &&& a.target() == Some(v as usize)
                &&& names(g, a)
                &&& external(g, v as usize) == 1
                &&& self.counts@[v] is Some
            },
            None => external(g, v as usize) == 0 && self.counts@[v] is None,
        }
    }

    /// The table is in order: the heap is consistent and keeps track of
    /// everything alive, and the anchors are exactly the handles that it
    /// counts as held outside of it.
    pub closed spec fn inv(&self) -> bool {
        &&& self.heap.wf()
        &&& rooted(self.heap.nodes())
        &&& self.anchors@.len() == self.heap.nodes().len()
        &&& self.counts@.len() == self.heap.nodes().len()
        &&& self.generations@.len() == self.heap.nodes().len()
        &&& forall|v: int| 0 <= v < self.heap.nodes().len() ==> #[trigger] self.slot_ok(v)
    }

    /// The handle is one of the outside handles that the table knows: it
    /// names an anchored allocation and belongs to its present generation.
    pub closed spec fn current(&self, gc: SharedGc) -> bool {
        match gc.name().target() {
            None => false,
            Some(s) => s < self.heap.nodes().len() && self.anchors@[s as int] is Some
                && self.generations@[s as int] == gc.spec_generation() && gc.name().spec_metadata()
                == self.heap.nodes()[s as int].meta,
        }
    }

    /// Moving a handle to `c` from outside the heap into the payload that
    /// `owner` names turns this table into `after`. If the handle was the
    /// last of its generation (`last`), the heap counts as many handles to
    /// `c` as before and has no anchor for it any more; else, and where the
    /// payload is that of `c` itself, it counts one handle more and keeps
    /// the anchor. Either way the payload owns the handle behind those it
    /// owned before.
    pub open spec fn linked_into(&self, owner: SharedGc, c: usize, last: bool, after: Table<T>) -> bool {
        let o = owner.name().target().unwrap();
        let g = self.nodes();
        if last && o != c {
            &&& edges_replaced(g, o, g[o as int].edges@.push(c), after.nodes())
            &&& !after.anchored(c as int)
        } else {
            let mid = g.update(c as int, g[c as int].incremented());
            &&& edges_replaced(mid, o, mid[o as int].edges@.push(c), after.nodes())
            &&& after.anchored(c as int)
        }
    }

    /// Moving the `k`-th handle out of the payload that `owner` names turns
    /// this table into `after` with the result `r`: the payload owns the
    /// other handles as before, and the result names what the handle named
    /// and is known to the table; or, where there is no result though the
    /// payload owned such a handle, the handle stands behind the others now.
    /// Where the payload owned no such handle, nothing changes.
    pub open spec fn unlinked_from(
        &self,
        owner: SharedGc,
        k: usize,
        r: Option<SharedGc>,
        after: Table<T>,
    ) -> bool {
        let o = owner.name().target().unwrap();
        let g = self.nodes();
        let g2 = after.nodes();
        if k < g[o as int].edges@.len() {
            let c = g[o as int].edges@[k as int];
            match r {
                Some(gc) => {
                    &&& gc.name().target() == Some(c)
                    &&& after.current(gc)
                    &&& g2[o as int].edges@ == g[o as int].edges@.remove(k as int)
                },
                None => g2[o as int].edges@ == g[o as int].edges@.remove(k as int).push(c),
            }
        } else {
            r is None && g2 == g
        }
    }

    /// The number of handles to the allocation that `gc` names which
    /// payloads own: all that the heap counts but the anchor. Zero if the
    /// table does not know the handle.
    pub open spec fn inside(&self, gc: SharedGc) -> usize {
        if self.current(gc) {
            (self.nodes()[gc.name().target().unwrap() as int].strong_count - 1) as usize
        } else {
            0
        }
    }

    /// The table knows the handle, and its allocation can count another one.
    pub open spec fn roomy(&self, gc: SharedGc) -> bool {
        self.current(gc) && self.nodes()[gc.name().target().unwrap() as int].strong_count
            < usize::MAX
    }

    /// Telling this table that the last handle of the generation
    /// `generation` to `slot` held outside the heap is gone turns it into
    /// `after` and gives `report`. If the table has an anchor for `slot` and
    /// that generation is the present one, the anchor is given back as a
    /// handle is, a pass runs if that made one due, and `slot` has no anchor
    /// afterwards. Else nothing changes and nothing is reported.
    pub open spec fn last_gone_to(
        &self,
        slot: usize,
        generation: u64,
        report: (usize, Option<Result<usize, Deferred>>),
        after: Table<T>,
    ) -> bool {
        if slot < self.nodes().len() && self.anchored(slot as int) && self.generation_of(
            slot as int,
        ) == generation {
            &&& gave_back_collecting(
                self.nodes(),
                Some(slot),
                self.spec_threshold(),
                self.spec_trace_limit(),
                report,
                after.nodes(),
            )
            &&& !after.anchored(slot as int)
        } else {
            report == (0usize, None::<Result<usize, Deferred>>) && after.nodes() == self.nodes()
        }
    }

    /// What is in order says of the records.
    pub proof fn lemma_inv(&self)
        requires
            self.inv(),
        ensures
            well_formed(self.nodes()),
            rooted(self.nodes()),
            forall|v: usize|
                v < self.nodes().len() ==> external(self.nodes(), v) == if self.anchored(v as int) {
                    1int
                } else {
                    0int
                },
            forall|gc: SharedGc| #[trigger]
                self.current(gc) ==> names(self.nodes(), gc.name()) && gc.name().target() is Some,
    {
        assert forall|v: usize| v < self.nodes().len() implies external(self.nodes(), v)
            == if self.anchored(v as int) {
            1int
        } else {
            0int
        } by {
            assert(self.slot_ok(v as int));
        }
        assert forall|gc: SharedGc| #[trigger] self.current(gc) implies names(
            self.nodes(),
            gc.name(),
        ) && gc.name().target() is Some by {
            let s = gc.name().target().unwrap();
            assert(self.slot_ok(s as int));
        }
    }

    /// A handle that the table knows names an anchored allocation.
    pub proof fn lemma_current(&self, gc: SharedGc)
        requires
            self.inv(),
            self.current(gc),
        ensures
            gc.name().target() is Some,
            gc.name().target().unwrap() < self.nodes().len(),
            self.anchored(gc.name().target().unwrap() as int),
    {
    }

    /// A dead handle is not one that the table knows.
    pub proof fn lemma_dead_unknown(&self, gc: SharedGc)
        ensures
            gc.name().target() is None ==> !self.current(gc),
    {
    }

    /// A table without allocations.
    pub fn new(threshold: usize, trace_limit: usize) -> (table: Self)
        ensures
            table.inv(),
            table.nodes().len() == 0,
            table.spec_threshold() == threshold,
            table.spec_trace_limit() == trace_limit,
    {
        Table {
            heap: Heap::new(threshold, trace_limit),
            anchors: Vec::new(),
            counts: Vec::new(),
            generations: Vec::new(),
        }
    }

    /// Whether the handle is one of the outside handles that the table knows.
    pub fn is_current(&self, gc: &SharedGc) -> (ok: bool)
        requires
            self.inv(),
        ensures
            ok == self.current(*gc),
    {
        match gc.slot() {
            None => false,
            Some(s) => {
                if s >= self.anchors.len() {
                    return false;
                }
                proof {
                    assert(self.slot_ok(s as int));
                }
                match &self.anchors[s] {
                    None => false,
                    Some(anchor) => self.generations[s] == gc.generation() && anchor.metadata()
                        == gc.metadata(),
                }
            },
        }
    }

    /// From one table to the next, the anchor of `v` stays in order if it
    /// is the same anchor, still good for the heap, and the heap counts as
    /// many handles to `v` held outside of it as before.
    proof fn lemma_slot_carries(&self, next: &Table<T>, v: int)
        requires
            self.inv(),
            0 <= v < self.nodes().len(),
            next.heap.wf(),
            next.nodes().len() >= self.nodes().len(),
            next.anchors@.len() > v,
            next.counts@.len() > v,
            next.anchors@[v] == self.anchors@[v],
            next.counts@[v] == self.counts@[v],
            self.anchors@[v] matches Some(a) ==> holds(next.nodes(), a),
            next.nodes()[v].is_live() ==> external(next.nodes(), v as usize) == external(
                self.nodes(),
                v as usize,
            ),
        ensures
            next.slot_ok(v),
    {
        assert(self.slot_ok(v));
        assert(node_ok(next.nodes(), v));
    }

    /// Makes an allocation for `payload` and returns the first handle to
    /// it, which carries the metadata `meta`. Hands `payload` back if the
    /// heap cannot name another allocation.
    pub fn allocate(&mut self, payload: T, meta: usize) -> (r: Result<SharedGc, T>)
        requires
            old(self).inv(),
        ensures
            final(self).inv(),
            final(self).spec_threshold() == old(self).spec_threshold(),
            final(self).spec_trace_limit() == old(self).spec_trace_limit(),
            match r {
                Ok(gc) => {
                    &&& allocated(
                        old(self).nodes(),
                        payload,
                        meta,
                        Seq::empty(),
                        gc.name(),
                        final(self).nodes(),
                    )
                    &&& final(self).current(gc)
                },
                Err(back) => back == payload && final(self).nodes() == old(self).nodes()
                    && old(self).nodes().len() == usize::MAX,
            },
    {
        if self.heap.len() == usize::MAX {
            return Err(payload);
        }
        let ghost before = *self;
        let slot = self.heap.len();
        let anchor = self.heap.allocate_with_metadata(payload, meta);
        let count = Arc::new(SharedCount::new());
        let gc = SharedGc::live(slot, meta, 0, Arc::clone(&count));
        self.anchors.push(Some(anchor));
        self.counts.push(Some(count));
        self.generations.push(0);
        proof {
            assert forall|v: int| 0 <= v < self.heap.nodes().len() implies #[trigger] self.slot_ok(
                v,
            ) by {
                if v < before.nodes().len() {
                    assert(before.slot_ok(v));
                    before.lemma_slot_carries(self, v);
                }
            }
        }
        Ok(gc)
    }

    /// The last handle of the generation `generation` to `slot` held
    /// outside the heap has been given back: gives back the anchor, and runs
    /// a pass if that made one due. Nothing happens if the heap knows of no
    /// such generation: `slot` was anchored again since.
    pub fn last_gone(&mut self, slot: usize, generation: u64) -> (report: (
        usize,
        Option<Result<usize, Deferred>>,
    ))
        requires
            old(self).inv(),
        ensures
            final(self).inv(),
            final(self).spec_threshold() == old(self).spec_threshold(),
            final(self).spec_trace_limit() == old(self).spec_trace_limit(),
            nothing_returns(old(self).nodes(), final(self).nodes()),
            old(self).last_gone_to(slot, generation, report, *final(self)),
    {
        if slot >= self.anchors.len() || self.generations[slot] != generation {
            return (0, None);
        }
        let ghost before = *self;
        proof {
            assert(self.slot_ok(slot as int));
        }
        match self.anchors[slot].take() {
            None => {
                proof {
                    assert(self.anchors@ =~= before.anchors@);
                    assert forall|v: int| 0 <= v < self.heap.nodes().len() implies #[trigger] self.slot_ok(
                    v) by {
                        assert(before.slot_ok(v));
                    }
                }
                (0, None)
            },
            Some(anchor) => {
                self.counts[slot] = None;
                let report = self.heap.drop_gc_collecting(anchor);
                proof {
                    let g = before.nodes();
                    let g2 = self.heap.nodes();
                    assert forall|v: int| 0 <= v < g2.len() implies #[trigger] self.slot_ok(
                        v,
                    ) by {
                        assert(before.slot_ok(v));
                        assert(node_ok(g2, v));
                        if v != slot {
                            if before.anchors@[v] is Some {
                                let a = before.anchors@[v].unwrap();
                                assert(holds(g, a));
                                assert(holds(g2, a));
                            }
                            if g2[v].is_live() {
                                assert(external(g2, v as usize) == external(g, v as usize));
                            }
                            before.lemma_slot_carries(self, v);
                        } else {
                            if g2[v].is_live() {
                                assert(external(g2, v as usize) == external(g, v as usize) - 1);
                            }
                        }
                    }
                }
                report
            },
        }
    }

    /// Runs one collection pass, now.
    pub fn collect(&mut self) -> (r: Result<usize, Deferred>)
        requires
            old(self).inv(),
        ensures
            final(self).inv(),
            final(self).spec_threshold() == old(self).spec_threshold(),
            final(self).spec_trace_limit() == old(self).spec_trace_limit(),
            nothing_returns(old(self).nodes(), final(self).nodes()),
            pass_outcome(old(self).nodes(), old(self).spec_trace_limit(), r, final(self).nodes()),
            forall|gc: SharedGc| old(self).current(gc) ==> #[trigger] final(self).current(gc),
    {
        let ghost before = *self;
        let r = self.heap.collect();
        proof {
            assert forall|v: int| 0 <= v < self.heap.nodes().len() implies #[trigger] self.slot_ok(
                v,
            ) by {
                assert(before.slot_ok(v));
                before.lemma_slot_carries(self, v);
            }
            assert forall|gc: SharedGc| before.current(gc) implies #[trigger] self.current(gc) by {
                let s = gc.name().target().unwrap();
                assert(before.slot_ok(s as int));
                assert(self.slot_ok(s as int));
            }
        }
        r
    }

    /// The number of candidate roots that wait for the next pass.
    pub fn buffered_count(&self) -> (n: usize)
        requires
            self.inv(),
        ensures
            buffered(self.nodes()).finite(),
            n == buffered(self.nodes()).len(),
    {
        self.heap.buffered_count()
    }

    /// The payload that `gc` names; `None` if the table does not know the handle.
    pub fn get(&self, gc: &SharedGc) -> (payload: Option<&T>)
        requires
            self.inv(),
        ensures
            match payload {
                Some(value) => self.current(*gc) && self.nodes()[gc.name().target().unwrap() as int].payload
                    == Some(*value),
                None => !self.current(*gc),
            },
    {
        if !self.is_current(gc) {
            return None;
        }
        proof {
            self.lemma_inv();
        }
        match gc.slot() {
            None => None,
            Some(s) => match &self.anchors[s] {
                None => None,
                Some(anchor) => {
                    proof {
                        assert(self.slot_ok(s as int));
                    }
                    self.heap.get(anchor)
                },
            },
        }
    }

    /// The number of handles to the allocation that `gc` names which
    /// payloads own; zero if the table does not know the handle.
    pub fn inside_count(&self, gc: &SharedGc) -> (n: usize)
        requires
            self.inv(),
        ensures
            n == self.inside(*gc),
    {
        if !self.is_current(gc) {
            return 0;
        }
        match gc.slot() {
            None => 0,
            Some(s) => match &self.anchors[s] {
                None => 0,
                Some(anchor) => {
                    proof {
                        assert(self.slot_ok(s as int));
                        assert(node_ok(self.heap.nodes(), s as int));
                    }
                    self.heap.ref_count(anchor) - 1
                },
            },
        }
    }

    /// Moves a handle to `c`, given back by its holder outside the heap,
    /// into the payload that `owner` names. If that handle was the last of
    /// its generation (`last`), the anchor of `c` itself moves into the
    /// payload; if others remain, the heap counts one handle more for the
    /// payload to own.
    pub fn link(&mut self, owner: &SharedGc, c: usize, last: bool)
        requires
            old(self).inv(),
            old(self).current(*owner),
            c < old(self).nodes().len(),
            old(self).anchored(c as int),
            !last ==> old(self).nodes()[c as int].strong_count < usize::MAX,
            last && owner.name().target() == Some(c) ==> old(self).nodes()[c as int].strong_count
                < usize::MAX,
        ensures
            final(self).inv(),
            final(self).spec_threshold() == old(self).spec_threshold(),
            final(self).spec_trace_limit() == old(self).spec_trace_limit(),
            nothing_returns(old(self).nodes(), final(self).nodes()),
            final(self).current(*owner),
            old(self).linked_into(*owner, c, last, *final(self)),
    {
        let ghost before = *self;
        let o = match owner.slot() {
            Some(o) => o,
            None => {
                return;
            },
        };
        proof {
            assert(self.slot_ok(o as int));
            assert(self.slot_ok(c as int));
        }
        if last && o != c {
            let child = match self.anchors[c].take() {
                Some(child) => child,
                None => {
                    return;
                },
            };
            self.counts[c] = None;
            let ghost g = self.heap.nodes();
            match &self.anchors[o] {
                Some(anchor) => {
                    proof {
                        assert(holds_both(g, *anchor, child));
                    }
                    let _ = self.heap.link(anchor, child);
                },
                None => {},
            }
            proof {
                let g2 = self.heap.nodes();
                assert forall|v: int| 0 <= v < g2.len() implies #[trigger] self.slot_ok(v) by {
                    assert(before.slot_ok(v));
                    assert(node_ok(g2, v));
                    if v != c {
                        if before.anchors@[v] is Some {
                            let a = before.anchors@[v].unwrap();
                            assert(holds(g, a));
                            assert(holds(g2, a));
                        }
                        if g2[v].is_live() {
                            assert(external(g2, v as usize) == external(g, v as usize));
                        }
                        before.lemma_slot_carries(self, v);
                    } else {
                        if g2[v].is_live() {
                            assert(external(g2, v as usize) == external(g, v as usize) - 1);
                        }
                    }
                }
            }
        } else {
            let ghost g = self.heap.nodes();
            let extra = match &self.anchors[c] {
                Some(anchor) => self.heap.clone_gc(anchor),
                None => {
                    return;
                },
            };
            let ghost mid = self.heap.nodes();
            proof {
                assert(external(mid, c) == 2);
            }
            match &self.anchors[o] {
                Some(anchor) => {
                    proof {
                        assert(holds(g, *anchor));
                        assert(holds(mid, *anchor));
                        assert(holds_both(mid, *anchor, extra));
                    }
                    let _ = self.heap.link(anchor, extra);
                },
                None => {},
            }
            proof {
                let g2 = self.heap.nodes();
                assert forall|v: int| 0 <= v < g2.len() implies #[trigger] self.slot_ok(v) by {
                    assert(before.slot_ok(v));
                    assert(node_ok(g2, v));
                    if before.anchors@[v] is Some {
                        let a = before.anchors@[v].unwrap();
                        assert(holds(g, a));
                        assert(holds(mid, a));
                        assert(holds(g2, a));
                    }
                    if g2[v].is_live() {
                        assert(mid[v].is_live());
                        assert(external(mid, v as usize) == external(g, v as usize) + if v == c {
                            1int
                        } else {
                            0int
                        });
                        assert(external(g2, v as usize) == external(mid, v as usize) - if v == c {
                            1int
                        } else {
                            0int
                        });
                    }
                    before.lemma_slot_carries(self, v);
                }
            }
        }
    }

    /// Moves the `k`-th handle that the payload named by `owner` owns out
    /// of the payload and returns it as a handle held outside the heap.
    ///
    /// If the heap has an anchor for the allocation that the handle names,
    /// the handle joins the outside handles that share its count, and the
    /// heap counts one handle fewer; if their last one was just given back,
    /// or there is no anchor, the handle starts a new generation. Returns
    /// `None` if the payload owns no such handle, and changes nothing. Also
    /// returns `None` if the count cannot count another handle: the handle
    /// then goes back into the payload, behind the others.
    pub fn unlink(&mut self, owner: &SharedGc, k: usize) -> (r: Option<SharedGc>)
        requires
            old(self).inv(),
            old(self).current(*owner),
        ensures
            final(self).inv(),
            final(self).spec_threshold() == old(self).spec_threshold(),
            final(self).spec_trace_limit() == old(self).spec_trace_limit(),
            nothing_returns(old(self).nodes(), final(self).nodes()),
            final(self).nodes().len() == old(self).nodes().len(),
            old(self).unlinked_from(*owner, k, r, *final(self)),
    {
        let ghost before = *self;
        let o = match owner.slot() {
            Some(o) => o,
            None => {
                return None;
            },
        };
        proof {
            assert(self.slot_ok(o as int));
        }
        let ghost g = self.heap.nodes();
        let moved = match &self.anchors[o] {
            Some(anchor) => self.heap.unlink(anchor, k),
            None => None,
        };
        let gc = match moved {
            Some(gc) => gc,
            None => {
                proof {
                    assert forall|v: int| 0 <= v < g.len() implies #[trigger] self.slot_ok(v) by {
                        assert(before.slot_ok(v));
                    }
                }
                return None;
            },
        };
        let ghost mid = self.heap.nodes();
        let c = match gc.slot() {
            Some(c) => c,
            None => {
                proof {
                    assert(false);
                }
                return None;
            },
        };
        let meta = gc.metadata();
        proof {
            assert(before.slot_ok(c as int));
            assert(external(mid, c) == external(g, c) + 1);
            assert forall|v: int| 0 <= v < mid.len() && v != c && (#[trigger] mid[v]).is_live() implies external(
                mid,
                v as usize,
            ) == external(g, v as usize) by {}
        }
        // does the heap count outside handles to the allocation already?
        let joined: Option<Result<Arc<SharedCount>, bool>> = match &self.counts[c] {
            None => None,
            Some(count) => match count.increment() {
                Ok(_) => Some(Ok(Arc::clone(count))),
                Err(crate::sync::count::CountError::Dead) => Some(Err(true)),
                Err(crate::sync::count::CountError::Overflow) => Some(Err(false)),
            },
        };
        match joined {
            Some(Ok(count)) => {
                // the handle joins the others: the anchor stands for it too
                let _ = self.heap.drop_gc(gc);
                let generation = self.generations[c];
                proof {
                    self.lemma_after_extra(&before, g, mid, c);
                    self.lemma_unlinked(&before, g, mid, o, c, k);
                }
                Some(SharedGc::live(c, meta, generation, count))
            },
            Some(Err(true)) => {
                // the last of the others was just given back: a new generation
                let _ = self.heap.drop_gc(gc);
                let count = Arc::new(SharedCount::new());
                self.counts[c] = Some(Arc::clone(&count));
                let generation = self.generations[c].wrapping_add(1);
                self.generations[c] = generation;
                proof {
                    self.lemma_after_extra(&before, g, mid, c);
                    self.lemma_unlinked(&before, g, mid, o, c, k);
                }
                Some(SharedGc::live(c, meta, generation, count))
            },
            Some(Err(false)) => {
                // the count is full: the handle goes back into the payload
                match &self.anchors[o] {
                    Some(anchor) => {
                        proof {
                            assert(holds(g, *anchor));
                            assert(holds(mid, *anchor));
                            assert(external(mid, c) == 2);
                            assert(holds_both(mid, *anchor, gc));
                        }
                        let _ = self.heap.link(anchor, gc);
                    },
                    None => {},
                }
                proof {
                    self.lemma_after_extra(&before, g, mid, c);
                }
                None
            },
            None => {
                // no anchor yet: the handle becomes the anchor of a new generation
                let count = Arc::new(SharedCount::new());
                self.anchors[c] = Some(gc);
                self.counts[c] = Some(Arc::clone(&count));
                let generation = self.generations[c].wrapping_add(1);
                self.generations[c] = generation;
                proof {
                    let g2 = self.heap.nodes();
                    assert forall|v: int| 0 <= v < g2.len() implies #[trigger] self.slot_ok(v) by {
                        assert(before.slot_ok(v));
                        assert(node_ok(g2, v));
                        if v != c {
                            if before.anchors@[v] is Some {
                                let a = before.anchors@[v].unwrap();
                                assert(holds(g, a));
                                assert(holds(g2, a));
                            }
                            before.lemma_slot_carries(self, v);
                        }
                    }
                }
                Some(SharedGc::live(c, meta, generation, count))
            },
        }
    }

    /// After the `k`-th handle of `o`, which names the anchored allocation
    /// `c`, has moved out of the payload and the heap has stopped counting it
    /// apart from the anchor, both allocations are alive and the payload of
    /// `o` owns the other handles as before.
    proof fn lemma_unlinked(
        &self,
        before: &Table<T>,
        g: Seq<Allocation<T>>,
        mid: Seq<Allocation<T>>,
        o: usize,
        c: usize,
        k: usize,
    )
        requires
            before.inv(),
            self.inv(),
            g == before.nodes(),
            self.nodes().len() == g.len(),
            mid.len() == g.len(),
            o < g.len(),
            c < g.len(),
            self.anchors@ == before.anchors@,
            before.anchored(o as int),
            before.anchored(c as int),
            mid[o as int].edges@ == g[o as int].edges@.remove(k as int),
            mid[c as int].meta == g[c as int].meta,
            keeps_edges(mid, self.nodes()),
            nothing_returns(mid, self.nodes()),
        ensures
            self.nodes()[o as int].is_live(),
            self.nodes()[c as int].is_live(),
            self.nodes()[o as int].edges@ == g[o as int].edges@.remove(k as int),
            self.nodes()[c as int].meta == g[c as int].meta,
    {
        assert(self.slot_ok(o as int));
        assert(self.slot_ok(c as int));
    }

    /// After a handle to the anchored allocation `c` has moved out of a
    /// payload and the heap has stopped counting it apart from the anchor,
    /// the anchors are in order.
    proof fn lemma_after_extra(
        &self,
        before: &Table<T>,
        g: Seq<Allocation<T>>,
        mid: Seq<Allocation<T>>,
        c: usize,
    )
        requires
            before.inv(),
            g == before.nodes(),
            c < g.len(),
            before.anchored(c as int),
            self.heap.wf(),
            rooted(self.heap.nodes()),
            well_formed(mid),
            mid.len() == g.len(),
            self.nodes().len() == g.len(),
            self.anchors@ == before.anchors@,
            self.counts@.len() == before.counts@.len(),
            self.generations@.len() == before.generations@.len(),
            forall|v: int| 0 <= v < g.len() && v != c ==> self.counts@[v] == before.counts@[v],
            self.counts@[c as int] is Some,
            forall|a: Gc| holds(g, a) ==> #[trigger] holds(mid, a),
            forall|a: Gc|
                holds(mid, a) && (a.target() == Some(c) ==> external(mid, c) >= 2)
                    ==> #[trigger] holds(self.nodes(), a),
            forall|v: usize|
                v < g.len() && mid[v as int].is_live() ==> #[trigger] external(mid, v) == external(
                    g,
                    v,
                ) + if v == c {
                    1int
                } else {
                    0int
                },
            forall|v: usize|
                v < g.len() && self.nodes()[v as int].is_live() ==> #[trigger] external(
                    self.nodes(),
                    v,
                ) == external(mid, v) - if v == c {
                    1int
                } else {
                    0int
                },
            forall|v: int| 0 <= v < g.len() && (#[trigger] self.nodes()[v]).is_live() ==> mid[v].is_live(),
        ensures
            self.inv(),
    {
        let g2 = self.nodes();
        assert(before.slot_ok(c as int));
        assert forall|v: int| 0 <= v < g2.len() implies #[trigger] self.slot_ok(v) by {
            assert(before.slot_ok(v));
            assert(node_ok(g2, v));
            if before.anchors@[v] is Some {
                let a = before.anchors@[v].unwrap();
                assert(holds(g, a));
                assert(holds(mid, a));
                if v == c {
                    assert(mid[c as int].is_live());
                    assert(external(mid, c) == external(g, c) + 1);
                }
                assert(holds(g2, a));
            }
            if g2[v].is_live() {
                assert(mid[v].is_live());
                assert(external(mid, v as usize) == external(g, v as usize) + if v == c {
                    1int
                } else {
                    0int
                });
                assert(external(g2, v as usize) == external(mid, v as usize) - if v == c {
                    1int
                } else {
                    0int
                });
            }
        }
    }

    /// Whether the allocation that `gc` names can count another handle;
    /// `false` if the table does not know the handle.
    pub fn has_room(&self, gc: &SharedGc) -> (ok: bool)
        requires
            self.inv(),
        ensures
            ok == self.roomy(*gc),
    {
        if !self.is_current(gc) {
            return false;
        }
        match gc.slot() {
            None => false,
            Some(s) => match &self.anchors[s] {
                None => false,
                Some(anchor) => {
                    proof {
                        assert(self.slot_ok(s as int));
                    }
                    self.heap.ref_count(anchor) < usize::MAX
                },
            },
        }
    }
}

} // verus!
