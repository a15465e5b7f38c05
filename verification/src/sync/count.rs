//! The count of handles to one shared allocation, kept in an atomic word.
//!
//! A thread that copies a handle or gives one back makes one atomic step on
//! the word and learns from what the step replaced what is left for it to
//! do. Whatever the threads do at once, exactly one of them learns that it
//! gave back the last handle. The word also carries the `buffered` flag, set
//! in the same step by the thread that first leaves other handles behind, for
//! a heap that wants to hear of candidate roots that early.

use crate::sync::word::{count_of, flagged, fresh, spec_step, step, Op};
use std::sync::atomic::AtomicUsize;
use vstd::prelude::*;

verus! {

/// Why a handle could not be copied.
#[derive(Clone, Copy, Debug, PartialEq, Eq, Structural)]
pub enum CountError {
    /// The allocation is being destroyed, or has been: nothing can hold it again.
    Dead,
    /// The count of handles is at its limit.
    Overflow,
}

/// What a thread that gave back a handle has to do next.
#[derive(Clone, Copy, Debug, PartialEq, Eq, Structural)]
pub struct Released {
    /// The number of handles that were left.
    pub left: usize,
    /// Whether this step queued the allocation for cycle analysis; the
    /// thread then adds it to the set of candidate roots.
    pub became_buffered: bool,
    /// Whether the allocation was queued before; the thread that destroys
    /// an allocation takes it out of the set of candidate roots if it was.
    pub was_buffered: bool,
}

/// What an atomic update that makes the step `op` may observe: `Ok` of the
/// value replaced, to which the step applied, or `Err` of the value found,
/// to which it did not.
pub open spec fn observes(op: Op, observed: Result<usize, usize>) -> bool {
    match observed {
        Ok(prev) => spec_step(op, prev) is Some,
        Err(prev) => spec_step(op, prev) is None,
    }
}

/// What copying a handle reports, given what the atomic step observed: the
/// new count if the step was made, and else why it was not.
pub open spec fn spec_acquired(observed: Result<usize, usize>) -> Result<usize, CountError> {
    match observed {
        Ok(prev) => Ok((count_of(prev) + 1) as usize),
        Err(prev) => if count_of(prev) == 0 {
            Err(CountError::Dead)
        } else {
            Err(CountError::Overflow)
        },
    }
}

/// What giving back a handle reports, given what the atomic step observed:
/// `None` if there was no handle to give back.
pub open spec fn spec_released(observed: Result<usize, usize>) -> Option<Released> {
    match observed {
        Ok(prev) => Some(
            Released {
                left: (count_of(prev) - 1) as usize,
                became_buffered: !flagged(prev) && count_of(prev) > 1,
                was_buffered: flagged(prev),
            },
        ),
        Err(_) => None,
    }
}

/// What copying a handle reports, given what the atomic step observed.
pub fn acquired(observed: Result<usize, usize>) -> (r: Result<usize, CountError>)
    requires
        observes(Op::Acquire, observed),
    ensures
        r == spec_acquired(observed),
        r matches Ok(n) ==> n >= 2,
{
    match observed {
        Ok(prev) => Ok(prev / 2 + 1),
        Err(prev) => if prev / 2 == 0 {
            Err(CountError::Dead)
        } else {
            Err(CountError::Overflow)
        },
    }
}

/// What giving back a handle reports, given what the atomic step observed.
pub fn released(observed: Result<usize, usize>) -> (r: Option<Released>)
    requires
        observes(Op::Release, observed),
    ensures
        r == spec_released(observed),
        r matches Some(rep) ==> (rep.became_buffered ==> rep.left > 0 && !rep.was_buffered),
{
    match observed {
        Ok(prev) => Some(
            Released {
                left: prev / 2 - 1,
                became_buffered: prev % 2 == 0 && prev / 2 > 1,
                was_buffered: prev % 2 == 1,
            },
        ),
        Err(_) => None,
    }
}

/// Whether clearing the flag found it set, given what the atomic step observed.
pub fn unbuffered(observed: Result<usize, usize>) -> (was_set: bool)
    requires
        observes(Op::Unbuffer, observed),
    ensures
        was_set == observed is Ok,
        was_set == flagged(
            match observed {
                Ok(prev) => prev,
                Err(prev) => prev,
            },
        ),
{
    observed.is_ok()
}

/// Makes the step `op` on the word in one atomic update.
///
/// This calls `AtomicUsize::fetch_update` with sequentially consistent
/// ordering. As documented for it, the result is `Ok` of the value that the
/// update replaced if the step applied to that value, and `Err` of the value
/// found if the step did not apply to it; which value that is depends on the
/// other threads.
#[verifier::external_body]
fn update(word: &AtomicUsize, op: Op) -> (observed: Result<usize, usize>)
    ensures
        observes(op, observed),
{
    word.fetch_update(
        std::sync::atomic::Ordering::SeqCst,
        std::sync::atomic::Ordering::SeqCst,
        |w| step(op, w),
    )
}

/// The count of handles to one allocation and its `buffered` flag, which
/// threads change together in single atomic steps.
pub struct SharedCount {
    word: AtomicUsize,
}

impl SharedCount {
    /// The count of a fresh allocation: one handle, not buffered.
    pub fn new() -> (count: Self) {
        SharedCount { word: AtomicUsize::new(fresh()) }
    }

    /// Counts one more handle, and returns the new count. The caller holds a
    /// handle, so another thread cannot have given back the last one; if the
    /// count is zero all the same, nothing is counted.
    pub fn increment(&self) -> (r: Result<usize, CountError>)
        ensures
            exists|observed: Result<usize, usize>|
                observes(Op::Acquire, observed) && r == #[trigger] spec_acquired(observed),
            r matches Ok(n) ==> n >= 2,
    {
        let observed = update(&self.word, Op::Acquire);
        let r = acquired(observed);
        proof {
            assert(observes(Op::Acquire, observed) && r == spec_acquired(observed));
        }
        r
    }

    /// Counts one handle fewer and tells the caller what is left to do: the
    /// thread that is told that no handle is left destroys the allocation,
    /// the one that is told that the allocation became buffered queues it.
    /// Returns `None`, and counts nothing, if no handle was counted.
    pub fn decrement(&self) -> (r: Option<Released>)
        ensures
            exists|observed: Result<usize, usize>|
                observes(Op::Release, observed) && r == #[trigger] spec_released(observed),
            r matches Some(rep) ==> (rep.became_buffered ==> rep.left > 0 && !rep.was_buffered),
    {
        let observed = update(&self.word, Op::Release);
        let r = released(observed);
        proof {
            assert(observes(Op::Release, observed) && r == spec_released(observed));
        }
        r
    }

    /// Clears the `buffered` flag. Returns whether it was set: the thread
    /// that is told so, and no other, takes the allocation out of the set of
    /// candidate roots.
    pub fn unbuffer(&self) -> (was_set: bool) {
        let observed = update(&self.word, Op::Unbuffer);
        unbuffered(observed)
    }

    /// The count of handles, as it was at some moment during the call.
    pub fn count(&self) -> (n: usize)
        ensures
            n <= usize::MAX / 2,
    {
        let observed = self.word.load(std::sync::atomic::Ordering::SeqCst);
        crate::sync::word::count(observed)
    }
}

} // verus!
