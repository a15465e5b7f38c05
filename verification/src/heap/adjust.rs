//! Moving trial counts by the handles that a list of allocations holds:
//! down to discount them, up to count them again.

use crate::allocation::Allocation;
use crate::graph::{
    count_in, in_count, lemma_count_in_empty, lemma_count_in_take, lemma_edge_counted_in,
    lemma_in_count_empty, lemma_in_count_insert, lemma_push_to_set, lemma_take_to_set,
    targets_in_range,
};
use crate::model::adjacency;
use vstd::prelude::*;

verus! {

/// The record with its trial count moved by `by`.
pub open spec fn adjusted<T>(rec: Allocation<T>, by: nat, up: bool) -> Allocation<T> {
    Allocation {
        trial_count: (if up {
            rec.trial_count + by
        } else {
            rec.trial_count - by
        }) as usize,
        ..rec
    }
}

/// What may be asked of `adjust`: the trial counts can take the change.
pub open spec fn adjust_pre<T>(g0: Seq<Allocation<T>>, list: Seq<usize>, up: bool) -> bool {
    let adj = adjacency(g0);
    &&& g0.len() <= usize::MAX
    &&& targets_in_range(adj)
    &&& list.no_duplicates()
    &&& forall|j: int| 0 <= j < list.len() ==> (#[trigger] list[j]) < g0.len()
    &&& forall|v: usize|
        v < g0.len() ==> if up {
            (#[trigger] g0[v as int]).trial_count + in_count(adj, list.to_set(), v) <= usize::MAX
        } else {
            in_count(adj, list.to_set(), v) <= g0[v as int].trial_count
        }
}

/// The handles to `v` seen so far: those of the first `i` allocations of
/// `list` and the first `k` of the next one.
pub open spec fn seen(adj: Seq<Seq<usize>>, list: Seq<usize>, i: int, k: int, v: usize) -> nat {
    in_count(adj, list.take(i).to_set(), v) + if i < list.len() {
        count_in(adj[list[i] as int].take(k), v)
    } else {
        0
    }
}

/// What holds while the trial counts are moved: each has taken the change
/// for the handles seen so far.
pub open spec fn adjust_inv<T>(
    g0: Seq<Allocation<T>>,
    list: Seq<usize>,
    up: bool,
    i: int,
    k: int,
    cur: Seq<Allocation<T>>,
) -> bool {
    &&& cur.len() == g0.len()
    &&& 0 <= i <= list.len()
    &&& forall|v: usize|
        v < g0.len() ==> (#[trigger] cur[v as int]) == adjusted(
            g0[v as int],
            seen(adjacency(g0), list, i, k, v),
            up,
        )
}

/// Before any handle is seen, no trial count has moved.
proof fn lemma_adjust_start<T>(g0: Seq<Allocation<T>>, list: Seq<usize>, up: bool)
    requires
        adjust_pre(g0, list, up),
    ensures
        adjust_inv(g0, list, up, 0, 0, g0),
{
    let adj = adjacency(g0);
    assert(list.take(0).to_set() =~= Set::<usize>::empty());
    assert forall|v: usize| v < g0.len() implies (#[trigger] g0[v as int]) == adjusted(
        g0[v as int],
        seen(adj, list, 0, 0, v),
        up,
    ) by {
        lemma_in_count_empty(adj, v, adj.len());
        if 0 < list.len() {
            assert(adj[list[0] as int].take(0) =~= Seq::<usize>::empty());
            lemma_count_in_empty(v);
        }
    }
}

/// One more handle is seen: its target can take the change, and takes it.
proof fn lemma_adjust_edge<T>(
    g0: Seq<Allocation<T>>,
    list: Seq<usize>,
    up: bool,
    i: int,
    k: int,
    cur: Seq<Allocation<T>>,
)
    requires
        adjust_pre(g0, list, up),
        adjust_inv(g0, list, up, i, k, cur),
        0 <= i < list.len(),
        0 <= k < g0[list[i] as int].edges@.len(),
    ensures
        ({
            let c = g0[list[i] as int].edges@[k];
            &&& c < g0.len()
            &&& up ==> cur[c as int].trial_count < usize::MAX
            &&& !up ==> cur[c as int].trial_count > 0
            &&& adjust_inv(
                g0,
                list,
                up,
                i,
                k + 1,
                cur.update(
                    c as int,
                    (Allocation {
                        trial_count: (if up {
                            cur[c as int].trial_count + 1
                        } else {
                            cur[c as int].trial_count - 1
                        }) as usize,
                        ..cur[c as int]
                    }),
                ),
            )
        }),
{
    let adj = adjacency(g0);
    let u = list[i];
    let c = g0[u as int].edges@[k];
    assert(adj[u as int][k] == c);
    lemma_take_to_set(list, i);
    assert(list.to_set().contains(u));
    lemma_edge_counted_in(adj, list.to_set(), list.take(i).to_set(), u, k);
    assert(cur[c as int] == adjusted(g0[c as int], seen(adj, list, i, k, c), up));
    let cur2 = cur.update(
        c as int,
        (Allocation {
            trial_count: (if up {
                cur[c as int].trial_count + 1
            } else {
                cur[c as int].trial_count - 1
            }) as usize,
            ..cur[c as int]
        }),
    );
    assert forall|v: usize| v < g0.len() implies (#[trigger] cur2[v as int]) == adjusted(
        g0[v as int],
        seen(adj, list, i, k + 1, v),
        up,
    ) by {
        assert(cur[v as int] == adjusted(g0[v as int], seen(adj, list, i, k, v), up));
        lemma_count_in_take(adj[u as int], k, v);
    }
}

/// All handles of the `i`-th allocation are seen.
proof fn lemma_adjust_next<T>(
    g0: Seq<Allocation<T>>,
    list: Seq<usize>,
    up: bool,
    i: int,
    cur: Seq<Allocation<T>>,
)
    requires
        adjust_pre(g0, list, up),
        0 <= i < list.len(),
        adjust_inv(g0, list, up, i, g0[list[i] as int].edges@.len() as int, cur),
    ensures
        adjust_inv(g0, list, up, i + 1, 0, cur),
{
    let adj = adjacency(g0);
    let u = list[i];
    let k = g0[u as int].edges@.len() as int;
    assert(list.take(i + 1) =~= list.take(i).push(u));
    lemma_push_to_set(list.take(i), u);
    lemma_take_to_set(list, i);
    assert(adj[u as int].take(k) =~= adj[u as int]);
    assert forall|v: usize| v < g0.len() implies (#[trigger] cur[v as int]) == adjusted(
        g0[v as int],
        seen(adj, list, i + 1, 0, v),
        up,
    ) by {
        assert(cur[v as int] == adjusted(g0[v as int], seen(adj, list, i, k, v), up));
        lemma_in_count_insert(adj, list.take(i).to_set(), u, v);
        if i + 1 < list.len() {
            assert(adj[list[i + 1] as int].take(0) =~= Seq::<usize>::empty());
            lemma_count_in_empty(v);
        }
    }
}

/// Moves the trial count of every allocation by the number of handles that
/// the allocations of `list` hold to it: up, or down.
pub fn adjust<T>(records: &mut Vec<Allocation<T>>, list: &Vec<usize>, up: bool)
    requires
        adjust_pre(old(records)@, list@, up),
    ensures
        final(records)@.len() == old(records)@.len(),
        forall|v: usize|
            v < old(records)@.len() ==> (#[trigger] final(records)@[v as int]) == adjusted(
                old(records)@[v as int],
                in_count(adjacency(old(records)@), list@.to_set(), v),
                up,
            ),
{
    let ghost g0 = records@;
    let ghost adj = adjacency(g0);
    proof {
        lemma_adjust_start(g0, list@, up);
    }
    let mut i: usize = 0;
    while i < list.len()
        invariant
            adjust_pre(g0, list@, up),
            adjust_inv(g0, list@, up, i as int, 0, records@),
            g0 == old(records)@,
            adj == adjacency(g0),
        decreases list.len() - i,
    {
        let u = list[i];
        proof {
            assert(records@[u as int] == adjusted(g0[u as int], seen(adj, list@, i as int, 0, u), up));
        }
        let n_edges = records[u].edges.len();
        let mut k: usize = 0;
        while k < n_edges
            invariant
                adjust_pre(g0, list@, up),
                adjust_inv(g0, list@, up, i as int, k as int, records@),
                g0 == old(records)@,
                adj == adjacency(g0),
                i < list.len(),
                u == list@[i as int],
                n_edges == g0[u as int].edges@.len(),
                k <= n_edges,
            decreases n_edges - k,
        {
            proof {
                assert(records@[u as int] == adjusted(
                    g0[u as int],
                    seen(adj, list@, i as int, k as int, u),
                    up,
                ));
                lemma_adjust_edge(g0, list@, up, i as int, k as int, records@);
            }
            let c = records[u].edges[k];
            if up {
                records[c].trial_count = records[c].trial_count + 1;
            } else {
                records[c].trial_count = records[c].trial_count - 1;
            }
            k += 1;
        }
        proof {
            lemma_adjust_next(g0, list@, up, i as int, records@);
        }
        i += 1;
    }
    proof {
        assert(list@.take(list@.len() as int) =~= list@);
        assert forall|v: usize| v < g0.len() implies (#[trigger] records@[v as int]) == adjusted(
            g0[v as int],
            in_count(adj, list@.to_set(), v),
            up,
        ) by {
            assert(records@[v as int] == adjusted(
                g0[v as int],
                seen(adj, list@, list@.len() as int, 0, v),
                up,
            ));
        }
    }
}

} // verus!
