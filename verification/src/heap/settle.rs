//! The steps of a pass that look at one allocation at a time.

use crate::allocation::{Allocation, Mark};
use crate::graph::{lemma_push_to_set, lemma_take_to_set};
use crate::model::is_destroyed;
use vstd::prelude::*;

verus! {

/// What a pass does to each allocation of a list, one list at a time.
#[derive(Clone, Copy, Debug, PartialEq, Eq, Structural)]
pub enum Step {
    /// Start the trial count from the count of handles.
    Prime,
    /// Mark as held only from within, until shown otherwise.
    Condemn,
    /// Destroy what is still marked so; for the rest, make the trial count
    /// the count of handles and clean the scratch fields.
    Commit,
    /// Clean the scratch fields.
    Reset,
}

/// The record `after` is what the step makes of the record `before`.
pub open spec fn settled<T>(step: Step, before: Allocation<T>, after: Allocation<T>) -> bool {
    match step {
        Step::Prime => after == (Allocation { trial_count: before.strong_count, ..before }),
        Step::Condemn => after == (Allocation { mark: Mark::Unreachable, ..before }),
        Step::Commit => if before.mark == Mark::Unreachable {
            is_destroyed(after) && after.meta == before.meta
        } else {
            after == (Allocation {
                strong_count: before.trial_count,
                trial_count: 0,
                mark: Mark::Clear,
                buffered: false,
                ..before
            })
        },
        Step::Reset => after == (Allocation { trial_count: 0, mark: Mark::Clear, ..before }),
    }
}

/// Whether the step reports the allocation: condemning reports those whose
/// trial count is positive, committing those that it destroys.
pub open spec fn picks<T>(step: Step, before: Allocation<T>) -> bool {
    match step {
        Step::Prime => false,
        Step::Condemn => before.trial_count > 0,
        Step::Commit => before.mark == Mark::Unreachable,
        Step::Reset => false,
    }
}

/// What holds while a step goes down a list: the first `j` allocations of
/// the list are settled, the others untouched, and those reported are known.
pub open spec fn settle_inv<T>(
    g0: Seq<Allocation<T>>,
    list: Seq<usize>,
    step: Step,
    j: int,
    picked: Seq<usize>,
    cur: Seq<Allocation<T>>,
) -> bool {
    &&& cur.len() == g0.len()
    &&& 0 <= j <= list.len()
    &&& picked.no_duplicates()
    &&& forall|v: usize|
        v < g0.len() ==> if list.take(j).contains(v) {
            settled(step, g0[v as int], #[trigger] cur[v as int])
        } else {
            cur[v as int] == g0[v as int]
        }
    &&& forall|v: usize|
        picked.contains(v) <==> list.take(j).contains(v) && picks(step, g0[v as int])
}

/// Settling the next allocation of the list.
proof fn lemma_settle_next<T>(
    g0: Seq<Allocation<T>>,
    list: Seq<usize>,
    step: Step,
    j: int,
    picked: Seq<usize>,
    cur: Seq<Allocation<T>>,
    cur2: Seq<Allocation<T>>,
)
    requires
        list.no_duplicates(),
        forall|i: int| 0 <= i < list.len() ==> (#[trigger] list[i]) < g0.len(),
        settle_inv(g0, list, step, j, picked, cur),
        0 <= j < list.len(),
        cur2.len() == cur.len(),
        forall|v: int| 0 <= v < cur.len() && v != list[j] ==> cur2[v] == cur[v],
        settled(step, cur[list[j] as int], cur2[list[j] as int]),
    ensures
        cur[list[j] as int] == g0[list[j] as int],
        settle_inv(
            g0,
            list,
            step,
            j + 1,
            if picks(step, g0[list[j] as int]) {
                picked.push(list[j])
            } else {
                picked
            },
            cur2,
        ),
{
    let u = list[j];
    let picked2 = if picks(step, g0[u as int]) {
        picked.push(u)
    } else {
        picked
    };
    lemma_take_to_set(list, j);
    assert(list.take(j + 1) =~= list.take(j).push(u));
    lemma_push_to_set(list.take(j), u);
    lemma_push_to_set(picked, u);
    assert(!list.take(j).contains(u));
    assert(!picked.contains(u));
    assert(picked2.no_duplicates());
    assert(cur[u as int] == g0[u as int]);
    assert forall|v: usize| picked2.contains(v) <==> list.take(j + 1).contains(v) && picks(
        step,
        g0[v as int],
    ) by {
        assert(list.take(j + 1).to_set().contains(v) == (list.take(j).contains(v) || v == u));
        assert(picked.push(u).to_set().contains(v) == (picked.contains(v) || v == u));
    }
    assert forall|v: usize| v < g0.len() implies if list.take(j + 1).contains(v) {
        settled(step, g0[v as int], #[trigger] cur2[v as int])
    } else {
        cur2[v as int] == g0[v as int]
    } by {
        assert(list.take(j + 1).to_set().contains(v) == (list.take(j).contains(v) || v == u));
        if list.take(j).contains(v) {
            assert(settled(step, g0[v as int], cur[v as int]));
        }
    }
}

/// Applies one step of a pass to each allocation of `list`, and returns the
/// allocations that the step reports.
pub fn settle<T>(records: &mut Vec<Allocation<T>>, list: &Vec<usize>, step: Step) -> (picked: Vec<
    usize,
>)
    requires
        list@.no_duplicates(),
        forall|i: int| 0 <= i < list@.len() ==> (#[trigger] list@[i]) < old(records)@.len(),
        step == Step::Commit ==> forall|i: int|
            0 <= i < list@.len() && old(records)@[(#[trigger] list@[i]) as int].mark
                == Mark::Unreachable ==> old(records)@[list@[i] as int].payload is Some,
    ensures
        final(records)@.len() == old(records)@.len(),
        picked@.no_duplicates(),
        forall|v: usize|
            v < old(records)@.len() ==> if list@.contains(v) {
                settled(step, old(records)@[v as int], #[trigger] final(records)@[v as int])
            } else {
                final(records)@[v as int] == old(records)@[v as int]
            },
        forall|v: usize|
            picked@.contains(v) <==> list@.contains(v) && picks(step, old(records)@[v as int]),
{
    let ghost g0 = records@;
    let mut picked: Vec<usize> = Vec::new();
    let mut j: usize = 0;
    proof {
        assert(list@.take(0) =~= Seq::<usize>::empty());
    }
    while j < list.len()
        invariant
            list@.no_duplicates(),
            forall|i: int| 0 <= i < list@.len() ==> (#[trigger] list@[i]) < g0.len(),
            step == Step::Commit ==> forall|i: int|
                0 <= i < list@.len() && g0[(#[trigger] list@[i]) as int].mark == Mark::Unreachable
                    ==> g0[list@[i] as int].payload is Some,
            settle_inv(g0, list@, step, j as int, picked@, records@),
            g0 == old(records)@,
        decreases list.len() - j,
    {
        let v = list[j];
        let ghost before = records@;
        let ghost reported = picked@;
        proof {
            lemma_take_to_set(list@, j as int);
            assert(!list@.take(j as int).contains(v));
            assert(records@[v as int] == g0[v as int]);
        }
        match step {
            Step::Prime => {
                records[v].trial_count = records[v].strong_count;
            },
            Step::Condemn => {
                if records[v].trial_count > 0 {
                    picked.push(v);
                }
                records[v].mark = Mark::Unreachable;
            },
            Step::Commit => {
                if records[v].mark == Mark::Unreachable {
                    picked.push(v);
                    records[v].destroy_payload();
                    records[v].edges.clear();
                    records[v].strong_count = 0;
                } else {
                    records[v].strong_count = records[v].trial_count;
                }
                records[v].trial_count = 0;
                records[v].mark = Mark::Clear;
                records[v].buffered = false;
            },
            Step::Reset => {
                records[v].trial_count = 0;
                records[v].mark = Mark::Clear;
            },
        }
        proof {
            lemma_settle_next(g0, list@, step, j as int, reported, before, records@);
        }
        j += 1;
    }
    proof {
        assert(list@.take(list@.len() as int) =~= list@);
    }
    picked
}

} // verus!
