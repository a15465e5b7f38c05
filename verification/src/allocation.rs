//! The allocation record: one payload with the bookkeeping the collector needs.

use vstd::prelude::*;

verus! {

/// What a collection pass has found out about an allocation so far.
#[derive(Clone, Copy, Debug, PartialEq, Eq, Structural)]
pub enum Mark {
    /// Not looked at by the pass (the state between passes).
    Clear,
    /// Found by the mark phase, not yet judged.
    InProgress,
    /// Held from outside the traced part of the heap, directly or through others.
    Reachable,
    /// Held only from within the traced part, as far as the pass has seen.
    Unreachable,
}

/// The record behind one collectible value.
#[derive(Debug)]
pub struct Allocation<T> {
    /// The value, until it is destroyed.
    pub payload: Option<T>,
    /// The number of handles to this allocation: those held outside the heap
    /// and those owned by other payloads.
    pub strong_count: usize,
    /// Scratch for the collector; zero between passes.
    pub trial_count: usize,
    /// Whether the allocation is queued for cycle analysis.
    pub buffered: bool,
    /// Scratch for the collector; `Clear` between passes.
    pub mark: Mark,
    /// The handles the payload owns: what tracing the payload reports, one
    /// entry per handle.
    pub edges: Vec<usize>,
    /// Type metadata shared by all handles to this allocation.
    pub meta: usize,
}

impl<T> Allocation<T> {
    /// Whether the payload has not been destroyed.
    pub open spec fn is_live(&self) -> bool {
        self.payload is Some
    }

    /// The record as one more handle leaves it behind.
    pub open spec fn incremented(self) -> Self {
        Allocation { strong_count: (self.strong_count + 1) as usize, ..self }
    }

    /// The record as one handle fewer leaves it behind: the count drops, and
    /// an allocation that survives the drop becomes a candidate root.
    pub open spec fn decremented(self) -> Self {
        Allocation {
            strong_count: (self.strong_count - 1) as usize,
            buffered: self.buffered || self.strong_count > 1,
            ..self
        }
    }

    /// A fresh record that owns `payload`, held by one handle.
    pub fn new(payload: T, meta: usize) -> (rec: Self)
        ensures
            rec.payload == Some(payload),
            rec.strong_count == 1,
            rec.trial_count == 0,
            !rec.buffered,
            rec.mark == Mark::Clear,
            rec.edges@.len() == 0,
            rec.meta == meta,
    {
        Allocation {
            payload: Some(payload),
            strong_count: 1,
            trial_count: 0,
            buffered: false,
            mark: Mark::Clear,
            edges: Vec::new(),
            meta,
        }
    }

    /// A fresh record that owns `payload` and, through it, the handles that
    /// name the allocations in `edges`; held by one handle.
    pub fn with_edges(payload: T, meta: usize, edges: Vec<usize>) -> (rec: Self)
        ensures
            rec.payload == Some(payload),
            rec.strong_count == 1,
            rec.trial_count == 0,
            !rec.buffered,
            rec.mark == Mark::Clear,
            rec.edges == edges,
            rec.meta == meta,
    {
        Allocation {
            payload: Some(payload),
            strong_count: 1,
            trial_count: 0,
            buffered: false,
            mark: Mark::Clear,
            edges,
            meta,
        }
    }

    /// Counts one more handle.
    pub fn increment(&mut self)
        requires
            old(self).strong_count < usize::MAX,
        ensures
            *final(self) == old(self).incremented(),
    {
        self.strong_count = self.strong_count + 1;
    }

    /// Counts one handle fewer. Returns the count that is left and whether
    /// the allocation became a candidate root by this very call.
    pub fn decrement(&mut self) -> (r: (usize, bool))
        requires
            old(self).strong_count > 0,
        ensures
            *final(self) == old(self).decremented(),
            r.0 == old(self).strong_count - 1,
            r.1 == (!old(self).buffered && old(self).strong_count > 1),
    {
        self.strong_count = self.strong_count - 1;
        let became_buffered = self.strong_count > 0 && !self.buffered;
        if became_buffered {
            self.buffered = true;
        }
        (self.strong_count, became_buffered)
    }

    /// Destroys the payload. It can be called once: afterwards there is no
    /// payload left to destroy.
    pub fn destroy_payload(&mut self)
        requires
            old(self).payload is Some,
        ensures
            *final(self) == (Allocation { payload: None, ..*old(self) }),
    {
        self.payload = None;
    }
}

} // verus!
