//! A heap that threads share.
//!
//! Handles are copied and given back without the heap: they count
//! themselves in the atomic count that the handles to one allocation share.
//! The heap lies behind a lock, which a thread takes to make an allocation,
//! to tell the heap that the last handle to an allocation held outside of it
//! is gone, to move a handle into a payload or out of one, and to collect;
//! so these, and collection passes, run one after another.
//!
//! What such an operation finds in the heap depends on what other threads
//! did before. Its contract therefore speaks of some table in order: whatever
//! the operation returns, it is what the same operation of [`Table`] returns
//! on the table that the thread found when it got the lock.

use crate::model::{allocated, buffered, pass_outcome, Deferred};
use crate::sync::count::{observes, spec_released, Released};
use crate::sync::handle::SharedGc;
use crate::sync::table::Table;
use crate::sync::word::Op;
use vstd::prelude::*;
use vstd::rwlock::RwLock;

verus! {

/// A heap behind a lock, for handles that threads pass to each other.
#[verifier::reject_recursive_types(T)]
pub struct SharedHeap<T> {
    lock: RwLock<Table<T>, spec_fn(Table<T>) -> bool>,
    /// A pass is due once more than this many roots are buffered.
    threshold: usize,
    /// The most allocations that one pass will trace.
    trace_limit: usize,
}

/// Whether the report of a handle given back to its count says that it
/// was the last handle held outside the heap.
pub open spec fn last_went(rep: Option<Released>) -> bool {
    rep matches Some(r) && r.left == 0
}

impl<T> SharedHeap<T> {
    /// The lock admits exactly the tables that are in order and work with
    /// the limits of this heap.
    #[verifier::type_invariant]
    spec fn admits_tables_in_order(self) -> bool {
        forall|table: Table<T>| #[trigger]
            self.lock.inv(table) <==> table.inv() && table.spec_threshold() == self.threshold
                && table.spec_trace_limit() == self.trace_limit
    }

    /// The number of buffered roots above which a pass is due.
    pub closed spec fn spec_threshold(&self) -> usize {
        self.threshold
    }

    /// The most allocations that one pass will trace.
    pub closed spec fn spec_trace_limit(&self) -> usize {
        self.trace_limit
    }

    /// The table `table` is one that the lock of this heap may hold: it is
    /// in order and works with the limits of this heap.
    pub open spec fn admits(&self, table: Table<T>) -> bool {
        table.inv() && table.spec_threshold() == self.spec_threshold() && table.spec_trace_limit()
            == self.spec_trace_limit()
    }

    /// What is left to do for a handle of the generation `generation` to
    /// `slot`, once it has been given back to its count with the report
    /// `rep`, gave `report`: if it was not the last handle held outside the
    /// heap, nothing, and nothing is reported; if it was, the heap was told
    /// so, on some table that the lock may hold.
    pub open spec fn finished(
        &self,
        slot: usize,
        generation: u64,
        rep: Option<Released>,
        report: (usize, Option<Result<usize, Deferred>>),
    ) -> bool {
        if last_went(rep) {
            exists|before: Table<T>, after: Table<T>|
                self.admits(before) && self.admits(after) && #[trigger] before.last_gone_to(
                    slot,
                    generation,
                    report,
                    after,
                )
        } else {
            report == (0usize, None::<Result<usize, Deferred>>)
        }
    }

    /// A shared heap without allocations. A pass is due when more than
    /// `threshold` candidate roots are buffered, and a pass gives up rather
    /// than trace more than `trace_limit` allocations.
    pub fn new(threshold: usize, trace_limit: usize) -> (shared: Self)
        ensures
            shared.spec_threshold() == threshold,
            shared.spec_trace_limit() == trace_limit,
    {
        let table = Table::new(threshold, trace_limit);
        let ghost in_order: spec_fn(Table<T>) -> bool = |t: Table<T>|
            t.inv() && t.spec_threshold() == threshold && t.spec_trace_limit() == trace_limit;
        SharedHeap { lock: RwLock::new(table, Ghost(in_order)), threshold, trace_limit }
    }

    /// The number of buffered roots above which a pass is due.
    #[verifier::when_used_as_spec(spec_threshold)]
    pub fn threshold(&self) -> (t: usize)
        ensures
            t == self.spec_threshold(),
    {
        self.threshold
    }

    /// The most allocations that one pass will trace.
    #[verifier::when_used_as_spec(spec_trace_limit)]
    pub fn trace_limit(&self) -> (t: usize)
        ensures
            t == self.spec_trace_limit(),
    {
        self.trace_limit
    }

    /// Makes an allocation for `payload` and returns the first handle to it,
    /// which carries the metadata `meta`. Hands `payload` back if the heap
    /// cannot name another allocation.
    pub fn allocate_with_metadata(&self, payload: T, meta: usize) -> (r: Result<SharedGc, T>)
        ensures
            match r {
                Ok(gc) => exists|before: Table<T>, after: Table<T>|
                    before.inv() && after.inv() && after.current(gc) && #[trigger] allocated(
                        before.nodes(),
                        payload,
                        meta,
                        Seq::empty(),
                        gc.name(),
                        after.nodes(),
                    ),
                Err(back) => back == payload,
            },
    {
        proof {
            use_type_invariant(self);
        }
        let (mut table, guard) = self.lock.acquire_write();
        let ghost before = table;
        let r = table.allocate(payload, meta);
        proof {
            if r is Ok {
                assert(before.inv() && table.inv() && table.current(r->Ok_0) && allocated(
                    before.nodes(),
                    payload,
                    meta,
                    Seq::empty(),
                    (r->Ok_0).name(),
                    table.nodes(),
                ));
            }
        }
        guard.release_write(table);
        r
    }

    /// Makes an allocation for `payload` and returns the first handle to it.
    pub fn allocate(&self, payload: T) -> (r: Result<SharedGc, T>)
        ensures
            match r {
                Ok(gc) => exists|before: Table<T>, after: Table<T>|
                    before.inv() && after.inv() && after.current(gc) && #[trigger] allocated(
                        before.nodes(),
                        payload,
                        0,
                        Seq::empty(),
                        gc.name(),
                        after.nodes(),
                    ),
                Err(back) => back == payload,
            },
    {
        self.allocate_with_metadata(payload, 0)
    }

    /// Gives a handle back. Unless it was the last handle to its allocation
    /// held outside the heap, nothing but the count that the handles share
    /// is touched. The thread that gives back the last one takes the lock:
    /// the heap stops counting outside handles to the allocation, destroys it
    /// if no payload owns a handle to it, makes it a candidate root if one
    /// does, and runs a pass if that is due.
    ///
    /// Returns the number of allocations destroyed without a pass and, if a
    /// pass ran, how it went: nothing for a dead handle, and for a live one
    /// what [`SharedHeap::finish_drop`] makes of the report of the one atomic
    /// step that gives the handle back to its count.
    pub fn drop_gc(&self, gc: SharedGc) -> (report: (usize, Option<Result<usize, Deferred>>))
        ensures
            match gc.name().target() {
                None => report == (0usize, None::<Result<usize, Deferred>>),
                Some(slot) => exists|observed: Result<usize, usize>|
                    observes(Op::Release, observed) && #[trigger] self.finished(
                        slot,
                        gc.spec_generation(),
                        spec_released(observed),
                        report,
                    ),
            },
    {
        let slot = match gc.slot() {
            None => {
                return (0, None);
            },
            Some(slot) => slot,
        };
        let generation = gc.generation();
        let rep = gc.release();
        let report = self.finish_drop(slot, generation, rep);
        proof {
            let observed = choose|observed: Result<usize, usize>|
                observes(Op::Release, observed) && rep == #[trigger] spec_released(observed);
            assert(observes(Op::Release, observed) && self.finished(
                slot,
                generation,
                spec_released(observed),
                report,
            ));
        }
        report
    }

    /// Does what is left to do for a handle of the generation `generation`
    /// to `slot`, once it has been given back to its count with the report
    /// `rep`. If the report says that other handles are left, or there is no
    /// report, nothing is left to do. If it says that the handle was the
    /// last one held outside the heap, the thread takes the lock and tells
    /// the heap so ([`Table::last_gone`]).
    pub fn finish_drop(&self, slot: usize, generation: u64, rep: Option<Released>) -> (report: (
        usize,
        Option<Result<usize, Deferred>>,
    ))
        ensures
            self.finished(slot, generation, rep, report),
    {
        proof {
            use_type_invariant(self);
        }
        let last = match rep {
            None => false,
            Some(r) => r.left == 0,
        };
        if !last {
            return (0, None);
        }
        let (mut table, guard) = self.lock.acquire_write();
        let ghost before = table;
        let report = table.last_gone(slot, generation);
        proof {
            assert(self.admits(before) && self.admits(table) && before.last_gone_to(
                slot,
                generation,
                report,
                table,
            ));
        }
        guard.release_write(table);
        report
    }

    /// Moves the handle `child` into the payload that `owner` names, which
    /// owns it from then on. A dead `child` is taken and not recorded. Hands
    /// `child` back, and changes nothing, if the heap does not know one of
    /// the handles, or the allocation that `child` names cannot count
    /// another handle.
    pub fn link(&self, owner: &SharedGc, child: SharedGc) -> (r: Result<(), SharedGc>)
        ensures
            match r {
                Err(back) => back == child && child.name().target() is Some && exists|
                    before: Table<T>,
                |
                    #[trigger] before.inv() && !(before.current(*owner) && before.roomy(child)),
                Ok(_) => child.name().target() is None || exists|
                    before: Table<T>,
                    last: bool,
                    after: Table<T>,
                |
                    before.inv() && before.current(*owner) && before.current(child) && after.inv()
                        && #[trigger] before.linked_into(
                        *owner,
                        child.name().target().unwrap(),
                        last,
                        after,
                    ),
            },
    {
        proof {
            use_type_invariant(self);
        }
        if child.is_dead() {
            return Ok(());
        }
        let (mut table, guard) = self.lock.acquire_write();
        let ghost before = table;
        if !table.is_current(owner) || !table.has_room(&child) {
            proof {
                assert(before.inv() && !(before.current(*owner) && before.roomy(child)));
            }
            guard.release_write(table);
            return Err(child);
        }
        let c = match child.slot() {
            Some(c) => c,
            None => {
                proof {
                    assert(false);
                }
                guard.release_write(table);
                return Err(child);
            },
        };
        proof {
            before.lemma_current(child);
        }
        let last = match child.release() {
            None => false,
            Some(rep) => rep.left == 0,
        };
        table.link(owner, c, last);
        proof {
            assert(before.inv() && before.current(*owner) && before.current(child) && table.inv()
                && before.linked_into(*owner, c, last, table));
        }
        guard.release_write(table);
        Ok(())
    }

    /// Moves the `k`-th handle that the payload named by `owner` owns out
    /// of the payload and returns it. Returns `None` if the heap does not
    /// know `owner`, the payload owns no such handle, or the allocation that
    /// the handle names cannot count another outside handle.
    pub fn unlink(&self, owner: &SharedGc, k: usize) -> (r: Option<SharedGc>)
        ensures
            (exists|before: Table<T>, after: Table<T>|
                before.inv() && after.inv() && before.current(*owner)
                    && #[trigger] before.unlinked_from(*owner, k, r, after)) || (r is None
                && exists|before: Table<T>| #[trigger] before.inv() && !before.current(*owner)),
    {
        proof {
            use_type_invariant(self);
        }
        let (mut table, guard) = self.lock.acquire_write();
        let ghost before = table;
        let r = if table.is_current(owner) {
            table.unlink(owner, k)
        } else {
            None
        };
        proof {
            if before.current(*owner) {
                assert(before.inv() && table.inv() && before.unlinked_from(*owner, k, r, table));
            } else {
                assert(before.inv() && !before.current(*owner));
            }
        }
        guard.release_write(table);
        r
    }

    /// The number of handles to the allocation that `gc` names: those that
    /// payloads own, as the heap counts them, and those held outside the
    /// heap, as their shared count has it at some moment during the call.
    /// Zero for a dead handle.
    pub fn ref_count(&self, gc: &SharedGc) -> (count: usize)
        ensures
            gc.name().target() is None ==> count == 0,
            exists|before: Table<T>|
                #[trigger] before.inv() && (count == usize::MAX || count >= before.inside(*gc)),
    {
        proof {
            use_type_invariant(self);
        }
        let guard = self.lock.acquire_read();
        let table = guard.borrow();
        let inside = table.inside_count(gc);
        proof {
            table.lemma_dead_unknown(*gc);
            assert(table.inv() && inside == table.inside(*gc));
        }
        guard.release_read();
        let outside = gc.outside_count();
        if inside > usize::MAX - outside {
            usize::MAX
        } else {
            inside + outside
        }
    }

    /// Runs one collection pass, now, and returns the number of allocations
    /// it destroyed. No other operation on the heap runs while it does.
    pub fn collect(&self) -> (r: Result<usize, Deferred>)
        ensures
            exists|before: Table<T>, after: Table<T>|
                self.admits(before) && self.admits(after) && #[trigger] pass_outcome(
                    before.nodes(),
                    self.spec_trace_limit(),
                    r,
                    after.nodes(),
                ),
    {
        proof {
            use_type_invariant(self);
        }
        let (mut table, guard) = self.lock.acquire_write();
        let ghost before = table;
        let r = table.collect();
        proof {
            assert(self.admits(before) && self.admits(table) && pass_outcome(
                before.nodes(),
                self.spec_trace_limit(),
                r,
                table.nodes(),
            ));
        }
        guard.release_write(table);
        r
    }

    /// The number of candidate roots that wait for the next pass.
    pub fn buffered_count(&self) -> (n: usize)
        ensures
            exists|before: Table<T>|
                #[trigger] before.inv() && buffered(before.nodes()).finite() && n == buffered(
                    before.nodes(),
                ).len(),
    {
        proof {
            use_type_invariant(self);
        }
        let guard = self.lock.acquire_read();
        let table = guard.borrow();
        let n = table.buffered_count();
        proof {
            assert(table.inv());
        }
        guard.release_read();
        n
    }
}

impl<T: Clone> SharedHeap<T> {
    /// A copy of the payload that `gc` names; `None` if the heap does not
    /// know the handle.
    pub fn get_cloned(&self, gc: &SharedGc) -> (payload: Option<T>)
        ensures
            exists|before: Table<T>|
                #[trigger] before.inv() && (payload is Some <==> before.current(*gc)),
    {
        proof {
            use_type_invariant(self);
        }
        let guard = self.lock.acquire_read();
        let table = guard.borrow();
        let payload = match table.get(gc) {
            Some(value) => Some(value.clone()),
            None => None,
        };
        proof {
            assert(table.inv());
        }
        guard.release_read();
        payload
    }
}

} // verus!
