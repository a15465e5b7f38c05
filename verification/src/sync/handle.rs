//! Handles of the shared domain: copying one and giving one back touches
//! nothing but the atomic count of its allocation.

use crate::handle::Gc;
use crate::sync::count::{observes, spec_released, Released, SharedCount};
use crate::sync::word::Op;
use std::sync::Arc;
use vstd::prelude::*;

verus! {

/// An owning handle that threads may pass to each other.
///
/// A live handle shares, with the other handles to its allocation, the
/// atomic count of those handles. The heap of the domain is only needed when
/// the last of them is given back, or when a handle moves into a payload or
/// out of one.
pub struct SharedGc {
    name: Gc,
    generation: u64,
    count: Option<Arc<SharedCount>>,
}

impl SharedGc {
    /// A live handle shares a count, a dead one is counted nowhere.
    #[verifier::type_invariant]
    spec fn counted_iff_live(self) -> bool {
        self.name.target() is Some <==> self.count is Some
    }

    /// What the handle names, and the metadata it carries.
    pub closed spec fn name(&self) -> Gc {
        self.name
    }

    /// The generation of outside handles that the handle belongs to: all
    /// handles that share one count are of one generation.
    pub closed spec fn spec_generation(&self) -> u64 {
        self.generation
    }

    /// A dead handle for a payload type that needs no metadata.
    pub fn dead() -> (gc: SharedGc)
        ensures
            gc.name().target() is None,
            gc.name().spec_metadata() == 0,
    {
        SharedGc { name: Gc::dead(), generation: 0, count: None }
    }

    /// A dead handle that carries the metadata `meta`.
    pub fn dead_with_metadata(meta: usize) -> (gc: SharedGc)
        ensures
            gc.name().target() is None,
            gc.name().spec_metadata() == meta,
    {
        SharedGc { name: Gc::dead_with_metadata(meta), generation: 0, count: None }
    }

    /// A live handle to `slot`, which shares `count` with the other
    /// handles of its generation.
    pub(crate) fn live(slot: usize, meta: usize, generation: u64, count: Arc<SharedCount>) -> (gc:
        SharedGc)
        ensures
            gc.name().target() == Some(slot),
            gc.name().spec_metadata() == meta,
            gc.spec_generation() == generation,
    {
        SharedGc { name: Gc::live(slot, meta), generation, count: Some(count) }
    }

    /// The allocation this handle names, if any.
    pub fn slot(&self) -> (slot: Option<usize>)
        ensures
            slot == self.name().target(),
    {
        self.name.slot()
    }

    /// The generation of outside handles that the handle belongs to.
    #[verifier::when_used_as_spec(spec_generation)]
    pub fn generation(&self) -> (generation: u64)
        ensures
            generation == self.spec_generation(),
    {
        self.generation
    }

    /// The metadata the handle carries.
    pub fn metadata(&self) -> (meta: usize)
        ensures
            meta == self.name().spec_metadata(),
    {
        self.name.metadata()
    }

    /// Whether the handle is a dead sentinel.
    pub fn is_dead(&self) -> (dead: bool)
        ensures
            dead == (self.name().target() is None),
    {
        self.name.is_dead()
    }

    /// Whether the handle names an allocation.
    pub fn is_live(&self) -> (live: bool)
        ensures
            live == (self.name().target() is Some),
    {
        self.name.is_live()
    }

    /// Whether the two handles are identical: both dead, or both naming the
    /// same allocation.
    pub fn ptr_eq(&self, other: &SharedGc) -> (same: bool)
        ensures
            same == self.name().spec_ptr_eq(other.name()),
    {
        self.name.ptr_eq(&other.name)
    }

    /// Copies the handle, without a look at the heap: the copy names the
    /// same allocation, carries the same metadata and shares the count, which
    /// counts one handle more. The copy of a dead handle is dead. Returns
    /// `None` if the count cannot count another handle.
    pub fn try_clone(&self) -> (r: Option<SharedGc>)
        ensures
            r matches Some(copy) ==> copy.name().spec_ptr_eq(self.name()) && copy.name().spec_metadata()
                == self.name().spec_metadata() && (self.name().target() is Some
                ==> copy.spec_generation() == self.spec_generation()),
            r is None ==> self.name().target() is Some,
    {
        match self.name.slot() {
            None => Some(SharedGc::dead_with_metadata(self.name.metadata())),
            Some(slot) => match &self.count {
                None => None,
                Some(count) => match count.increment() {
                    Ok(_) => Some(
                        SharedGc::live(
                            slot,
                            self.name.metadata(),
                            self.generation,
                            Arc::clone(count),
                        ),
                    ),
                    Err(_) => None,
                },
            },
        }
    }

    /// The number of handles that share the count of this one, as it was at
    /// some moment during the call; zero for a dead handle.
    pub fn outside_count(&self) -> (n: usize)
        ensures
            self.name().target() is None ==> n == 0,
    {
        match self.name.slot() {
            None => 0,
            Some(_) => match &self.count {
                None => 0,
                Some(count) => count.count(),
            },
        }
    }

    /// Gives the handle back to its count, and tells what is left to do: the
    /// thread that is told that no handle is left tells the heap so
    /// ([`crate::sync::table::Table::last_gone`]). Returns `None` for a dead
    /// handle, which is counted nowhere.
    ///
    /// For a live handle the result is the report of the one atomic step
    /// that gives a handle back to the shared count: what is left depends on
    /// what the other threads did, and there is no report only if the count
    /// held no handle to give back.
    pub fn release(self) -> (r: Option<Released>)
        ensures
            match self.name().target() {
                None => r is None,
                Some(_) => exists|observed: Result<usize, usize>|
                    observes(Op::Release, observed) && r == #[trigger] spec_released(observed),
            },
            r matches Some(rep) ==> (rep.became_buffered ==> rep.left > 0 && !rep.was_buffered),
    {
        proof {
            use_type_invariant(&self);
        }
        match self.name.slot() {
            None => None,
            Some(_) => match self.count {
                None => None,
                Some(count) => count.decrement(),
            },
        }
    }
}

} // verus!
