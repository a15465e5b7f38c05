//! The state of one shared allocation, packed into a single word so that one
//! atomic step can change the count of handles and the `buffered` flag
//! together: the lowest bit is the flag, the bits above it are the count.

use vstd::prelude::*;

verus! {

/// A step on the packed state.
#[derive(Clone, Copy, Debug, PartialEq, Eq, Structural)]
pub enum Op {
    /// Count one more handle (a handle is copied).
    Acquire,
    /// Count one handle fewer (a handle is given back), and flag the
    /// allocation as a candidate root if it survives that.
    Release,
    /// Clear the flag (the allocation leaves the set of candidate roots).
    Unbuffer,
}

/// The count of handles in the packed state.
pub open spec fn count_of(word: usize) -> nat {
    (word / 2) as nat
}

/// The `buffered` flag in the packed state.
pub open spec fn flagged(word: usize) -> bool {
    word % 2 == 1
}

/// The packed state of an allocation that `count` handles name.
pub open spec fn packed(count: nat, buffered: bool) -> nat {
    2 * count + if buffered {
        1nat
    } else {
        0nat
    }
}

/// The packed state after the step, or `None` where the step does not apply:
/// no handle can be copied or given back once the count is zero, a count at
/// its limit cannot grow, and only a set flag can be cleared.
pub open spec fn spec_step(op: Op, word: usize) -> Option<usize> {
    match op {
        Op::Acquire => if 2 <= word <= usize::MAX - 2 {
            Some((word + 2) as usize)
        } else {
            None
        },
        Op::Release => if word < 2 {
            None
        } else if word < 4 || word % 2 == 1 {
            Some((word - 2) as usize)
        } else {
            Some((word - 1) as usize)
        },
        Op::Unbuffer => if word % 2 == 1 {
            Some((word - 1) as usize)
        } else {
            None
        },
    }
}

/// The packed state of a fresh allocation: one handle, not buffered.
pub fn fresh() -> (word: usize)
    ensures
        count_of(word) == 1,
        !flagged(word),
{
    2
}

/// The count of handles in the packed state.
pub fn count(word: usize) -> (n: usize)
    ensures
        n == count_of(word),
{
    word / 2
}

/// The `buffered` flag in the packed state.
pub fn is_flagged(word: usize) -> (set: bool)
    ensures
        set == flagged(word),
{
    word % 2 == 1
}

/// The packed state after the step, or `None` where the step does not apply.
#[verifier::when_used_as_spec(spec_step)]
pub fn step(op: Op, word: usize) -> (next: Option<usize>)
    ensures
        next == spec_step(op, word),
{
    match op {
        Op::Acquire => if 2 <= word && word <= usize::MAX - 2 {
            Some(word + 2)
        } else {
            None
        },
        Op::Release => if word < 2 {
            None
        } else if word < 4 || word % 2 == 1 {
            Some(word - 2)
        } else {
            Some(word - 1)
        },
        Op::Unbuffer => if word % 2 == 1 {
            Some(word - 1)
        } else {
            None
        },
    }
}

/// The word packs its count and its flag, and nothing else.
pub proof fn lemma_packed(word: usize, count: nat, buffered: bool)
    ensures
        packed(count_of(word), flagged(word)) == word,
        packed(count, buffered) <= usize::MAX ==> count_of(packed(count, buffered) as usize)
            == count && flagged(packed(count, buffered) as usize) == buffered,
{
}

/// What a step does, said of the count and the flag.
pub proof fn lemma_step(op: Op, word: usize)
    ensures
        match op {
            Op::Acquire => match spec_step(op, word) {
                Some(next) => count_of(next) == count_of(word) + 1 && flagged(next) == flagged(
                    word,
                ) && count_of(word) >= 1,
                None => count_of(word) == 0 || word > usize::MAX - 2,
            },
            Op::Release => match spec_step(op, word) {
                Some(next) => count_of(next) == count_of(word) - 1 && flagged(next) == (flagged(
                    word,
                ) || count_of(next) > 0),
                None => count_of(word) == 0,
            },
            Op::Unbuffer => match spec_step(op, word) {
                Some(next) => count_of(next) == count_of(word) && !flagged(next) && flagged(word),
                None => !flagged(word),
            },
        },
{
}

/// Whether the step gave back the last handle: the thread that makes this
/// step, and no other, destroys the allocation.
pub open spec fn frees_at(op: Op, word: usize) -> bool {
    op == Op::Release && count_of(word) == 1
}

/// The packed state after the steps of `ops`, made one after another in any
/// interleaving of the threads that make them; a step that does not apply
/// leaves the state as it is.
pub open spec fn run(word: usize, ops: Seq<Op>) -> usize
    decreases ops.len(),
{
    if ops.len() == 0 {
        word
    } else {
        let before = run(word, ops.drop_last());
        match spec_step(ops.last(), before) {
            Some(next) => next,
            None => before,
        }
    }
}

/// The number of steps of `ops` that gave back the last handle.
pub open spec fn frees(word: usize, ops: Seq<Op>) -> nat
    decreases ops.len(),
{
    if ops.len() == 0 {
        0
    } else {
        frees(word, ops.drop_last()) + if frees_at(ops.last(), run(word, ops.drop_last())) {
            1nat
        } else {
            0nat
        }
    }
}

/// An allocation is on the way to being destroyed, or it can be buffered,
/// never both: the step that gives back the last handle sets no flag, and
/// every other step that gives back a handle leaves the flag set.
pub proof fn lemma_freed_or_buffered(word: usize)
    ensures
        match spec_step(Op::Release, word) {
            Some(next) => if frees_at(Op::Release, word) {
                count_of(next) == 0 && flagged(next) == flagged(word)
            } else {
                count_of(next) > 0 && flagged(next)
            },
            None => count_of(word) == 0,
        },
{
}

/// Once the count is zero it stays zero, whatever steps follow, and none of
/// them gives back a last handle again.
pub proof fn lemma_dead_stays_dead(word: usize, ops: Seq<Op>)
    requires
        count_of(word) == 0,
    ensures
        count_of(run(word, ops)) == 0,
        frees(word, ops) == 0,
    decreases ops.len(),
{
    if ops.len() > 0 {
        lemma_dead_stays_dead(word, ops.drop_last());
        lemma_step(ops.last(), run(word, ops.drop_last()));
    }
}

/// Whatever the steps and however they interleave, at most one of them
/// gives back the last handle; and one of them did exactly if handles were
/// counted at first and the count is zero in the end.
pub proof fn lemma_freed_at_most_once(word: usize, ops: Seq<Op>)
    ensures
        frees(word, ops) <= 1,
        frees(word, ops) == 1 <==> count_of(word) > 0 && count_of(run(word, ops)) == 0,
    decreases ops.len(),
{
    if ops.len() > 0 {
        let before = run(word, ops.drop_last());
        lemma_freed_at_most_once(word, ops.drop_last());
        lemma_step(ops.last(), before);
        if count_of(word) == 0 {
            lemma_dead_stays_dead(word, ops.drop_last());
        }
    }
}

/// The run in which each of `n` handles is given back once.
pub open spec fn all_released(n: nat) -> Seq<Op> {
    Seq::new(n, |i: int| Op::Release)
}

/// When each of the `n` handles to an allocation is given back once, in
/// whatever order the threads get to it, the count goes to zero and exactly
/// one of the steps, the last one, gives back the last handle.
pub proof fn lemma_all_released(word: usize, n: nat)
    requires
        count_of(word) == n,
    ensures
        count_of(run(word, all_released(n))) == 0,
        n > 0 ==> frees(word, all_released(n)) == 1,
        forall|m: nat| m < n ==> #[trigger] frees(word, all_released(m)) == 0,
{
    assert forall|m: nat| m <= n implies count_of(#[trigger] run(word, all_released(m))) == n
        - m by {
        lemma_released_count(word, n, m);
    }
    lemma_freed_at_most_once(word, all_released(n));
    assert forall|m: nat| m < n implies #[trigger] frees(word, all_released(m)) == 0 by {
        lemma_freed_at_most_once(word, all_released(m));
        assert(count_of(run(word, all_released(m))) == n - m);
    }
}

/// After `m` of the `n` handles are given back, `n - m` are left.
proof fn lemma_released_count(word: usize, n: nat, m: nat)
    requires
        count_of(word) == n,
        m <= n,
    ensures
        count_of(run(word, all_released(m))) == n - m,
    decreases m,
{
    if m > 0 {
        lemma_released_count(word, n, (m - 1) as nat);
        assert(all_released(m).drop_last() =~= all_released((m - 1) as nat));
        lemma_step(Op::Release, run(word, all_released((m - 1) as nat)));
    }
}

} // verus!
