//! Owning handles: a live one names an allocation of a heap and is counted by
//! it, a dead one names none and is counted nowhere.

use vstd::prelude::*;

verus! {

/// An owning handle.
///
/// A handle is deliberately neither `Clone` nor `Copy`: the heap that issued
/// it counts it, so copies are made by the heap and handles are given back to
/// the heap when they are no longer needed.
#[derive(Debug)]
pub struct Gc {
    slot: Option<usize>,
    meta: usize,
}

impl Gc {
    /// The allocation this handle names, or `None` for a dead handle.
    pub closed spec fn target(&self) -> Option<usize> {
        self.slot
    }

    /// The type metadata the handle carries (for instance a slice length).
    pub closed spec fn spec_metadata(&self) -> usize {
        self.meta
    }

    /// A dead handle for a payload type that needs no metadata.
    pub fn dead() -> (gc: Gc)
        ensures
            gc.target() is None,
            gc.spec_metadata() == 0,
    {
        Gc { slot: None, meta: 0 }
    }

    /// A dead handle that carries the metadata `meta`, as a live handle to a
    /// payload of the same shape would.
    pub fn dead_with_metadata(meta: usize) -> (gc: Gc)
        ensures
            gc.target() is None,
            gc.spec_metadata() == meta,
    {
        Gc { slot: None, meta }
    }

    /// A live handle to `slot`. Only a heap makes these, and counts them.
    pub(crate) fn live(slot: usize, meta: usize) -> (gc: Gc)
        ensures
            gc.target() == Some(slot),
            gc.spec_metadata() == meta,
    {
        Gc { slot: Some(slot), meta }
    }

    /// The allocation this handle names, if any.
    pub fn slot(&self) -> (slot: Option<usize>)
        ensures
            slot == self.target(),
    {
        self.slot
    }

    /// The metadata the handle carries.
    #[verifier::when_used_as_spec(spec_metadata)]
    pub fn metadata(&self) -> (meta: usize)
        ensures
            meta == self.spec_metadata(),
    {
        self.meta
    }

    /// Whether the handle is a dead sentinel.
    pub fn is_dead(&self) -> (dead: bool)
        ensures
            dead == (self.target() is None),
    {
        self.slot.is_none()
    }

    /// Whether the handle names an allocation.
    pub fn is_live(&self) -> (live: bool)
        ensures
            live == (self.target() is Some),
    {
        self.slot.is_some()
    }

    /// Identity of handles: two dead handles are identical whatever metadata
    /// they carry, two live ones are identical when they name the same
    /// allocation, and a dead handle is never identical to a live one.
    pub open spec fn spec_ptr_eq(&self, other: Gc) -> bool {
        self.target() == other.target()
    }

    /// Whether the two handles are identical.
    pub fn ptr_eq(&self, other: &Gc) -> (same: bool)
        ensures
            same == self.spec_ptr_eq(*other),
    {
        match (self.slot, other.slot) {
            (None, None) => true,
            (Some(a), Some(b)) => a == b,
            _ => false,
        }
    }
}

} // verus!
