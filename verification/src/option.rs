//! An optional handle that takes no more room than a handle: the dead
//! handle stands for "no value".

use crate::handle::Gc;
use crate::heap::Heap;
use crate::model::{cloned, holds, names};
use vstd::prelude::*;

verus! {

/// Either a live handle or nothing.
///
/// A handle that dies while it is stored here (an allocation may observe
/// dead handles among its own while it is torn down) reads as nothing.
#[derive(Debug)]
pub struct OptGc {
    gc: Gc,
}

impl OptGc {
    /// The handle stored, dead or alive.
    pub closed spec fn inner(&self) -> Gc {
        self.gc
    }

    /// The handle that this option holds, if it holds one.
    pub open spec fn view(&self) -> Option<Gc> {
        if self.inner().target() is Some {
            Some(self.inner())
        } else {
            None
        }
    }

    /// The option that holds nothing.
    pub fn none() -> (opt: OptGc)
        ensures
            opt@ is None,
            opt.inner().spec_metadata() == 0,
    {
        OptGc { gc: Gc::dead() }
    }

    /// The option that holds `gc`. A dead `gc` makes an option that holds nothing.
    pub fn some(gc: Gc) -> (opt: OptGc)
        ensures
            opt.inner() == gc,
    {
        OptGc { gc }
    }

    /// Whether the option holds a handle.
    pub fn is_some(&self) -> (some: bool)
        ensures
            some == (self@ is Some),
    {
        !self.gc.is_dead()
    }

    /// Whether the option holds nothing.
    pub fn is_none(&self) -> (none: bool)
        ensures
            none == (self@ is None),
    {
        self.gc.is_dead()
    }

    /// The handle held, by reference.
    pub fn as_ref(&self) -> (r: Option<&Gc>)
        ensures
            match r {
                Some(gc) => self@ == Some(*gc),
                None => self@ is None,
            },
    {
        if self.gc.is_dead() {
            return None;
        }
        Some(&self.gc)
    }

    /// The payload that the handle held names.
    pub fn as_deref<'a, T>(&self, heap: &'a Heap<T>) -> (r: Option<&'a T>)
        requires
            heap.wf(),
            names(heap.nodes(), self.inner()),
        ensures
            match self@ {
                Some(gc) => r is Some && heap.nodes()[gc.target().unwrap() as int].payload == Some(
                    *r.unwrap(),
                ),
                None => r is None,
            },
    {
        heap.get(&self.gc)
    }

    /// The handle held, by value.
    pub fn into_option(self) -> (r: Option<Gc>)
        ensures
            r == self@,
    {
        if self.gc.is_dead() {
            return None;
        }
        Some(self.gc)
    }

    /// The handle stored; a dead one if the option holds nothing.
    pub fn into_maybe_dead_gc(self) -> (gc: Gc)
        ensures
            gc == self.inner(),
    {
        self.gc
    }

    /// The option that holds `gc`, or nothing if `gc` is dead.
    pub fn from_maybe_dead_gc(gc: Gc) -> (opt: OptGc)
        ensures
            opt.inner() == gc,
    {
        OptGc { gc }
    }

    /// The option that holds what `value` holds.
    pub fn from_option(value: Option<Gc>) -> (opt: OptGc)
        ensures
            opt@ == match value {
                Some(gc) if gc.target() is Some => Some(gc),
                _ => None,
            },
            value is Some ==> opt.inner() == value.unwrap(),
            value is None ==> opt.inner().spec_metadata() == 0,
    {
        match value {
            Some(gc) => OptGc { gc },
            None => OptGc::none(),
        }
    }

    /// Whether the two options hold identical handles. Two options that hold
    /// nothing are identical.
    pub fn ptr_eq(&self, other: &OptGc) -> (same: bool)
        ensures
            same == self.inner().spec_ptr_eq(other.inner()),
    {
        self.gc.ptr_eq(&other.gc)
    }

    /// The number of handles to the allocation that the handle held names;
    /// zero if the option holds nothing.
    pub fn ref_count<T>(&self, heap: &Heap<T>) -> (count: usize)
        requires
            heap.wf(),
            names(heap.nodes(), self.inner()),
        ensures
            count == match self@ {
                Some(gc) => heap.nodes()[gc.target().unwrap() as int].strong_count,
                None => 0,
            },
    {
        match self.as_ref() {
            Some(gc) => heap.ref_count(gc),
            None => 0,
        }
    }

    /// A copy of the option: a copy of the handle held, which the heap
    /// counts, or nothing.
    pub fn clone_in<T>(&self, heap: &mut Heap<T>) -> (copy: OptGc)
        requires
            old(heap).wf(),
            names(old(heap).nodes(), self.inner()),
            self@ is Some ==> old(heap).nodes()[self.inner().target().unwrap() as int].strong_count
                < usize::MAX,
        ensures
            final(heap).wf(),
            cloned(old(heap).nodes(), self.inner(), copy.inner(), final(heap).nodes()),
            holds(final(heap).nodes(), copy.inner()),
            final(heap).spec_threshold() == old(heap).spec_threshold(),
            final(heap).spec_trace_limit() == old(heap).spec_trace_limit(),
    {
        OptGc { gc: heap.clone_gc(&self.gc) }
    }
}

impl Default for OptGc {
    /// The option that holds nothing.
    fn default() -> (opt: OptGc)
        ensures
            opt@ is None,
    {
        OptGc::none()
    }
}

} // verus!
