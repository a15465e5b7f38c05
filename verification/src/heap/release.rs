//! Giving a handle back: the count drops, and an allocation whose count
//! reaches zero is destroyed together with the handles its payload owned.

use crate::allocation::Allocation;
use crate::graph::{
    count_in, in_degree, lemma_count_in_empty, lemma_count_in_take, lemma_distinct_len,
    lemma_edge_counted, lemma_in_count_empty, lemma_in_count_insert, lemma_in_count_mono,
    lemma_push_to_set, targets_in_range,
};
use crate::handle::Gc;
use crate::heap::Heap;
use crate::model::{
    adjacency, dropped, external, handles_lost, holds, is_destroyed, keeps_edges, keeps_handles_but,
    lemma_in_degree_after_clearing, node_ok, nothing_returns, outside_handles_moved, survivor,
    well_formed,
};
use crate::rooted::rooted;
use vstd::prelude::*;

verus! {

/// The heap and the handle that a cascade starts from.
spec fn start_ok<T>(g0: Seq<Allocation<T>>, x: usize) -> bool {
    &&& well_formed(g0)
    &&& x < g0.len()
    &&& g0[x as int].is_live()
    &&& external(g0, x) >= 1
}

/// The handles to `v` that the allocation being destroyed has given back so far.
spec fn part_count<T>(g0: Seq<Allocation<T>>, busy: Option<usize>, k: int, v: usize) -> nat {
    match busy {
        Some(u) => count_in(g0[u as int].edges@.take(k), v),
        None => 0,
    }
}

/// The handles to `v` that have gone so far.
spec fn lost_so_far<T>(
    g0: Seq<Allocation<T>>,
    x: usize,
    done: Seq<usize>,
    busy: Option<usize>,
    k: int,
    v: usize,
) -> nat {
    handles_lost(adjacency(g0), done.to_set(), x, v) + part_count(g0, busy, k, v)
}

/// The `i`-th allocation destroyed is destroyed, and was held by nothing
/// but what went before it.
spec fn done_ok<T>(
    g0: Seq<Allocation<T>>,
    x: usize,
    done: Seq<usize>,
    cur: Seq<Allocation<T>>,
    i: int,
) -> bool {
    let d = done[i];
    &&& d < g0.len()
    &&& g0[d as int].is_live()
    &&& is_destroyed(cur[d as int])
    &&& cur[d as int].meta == g0[d as int].meta
    &&& g0[d as int].strong_count == handles_lost(adjacency(g0), done.take(i).to_set(), x, d)
}

/// The `j`-th allocation listed for destruction is alive and held by nothing.
spec fn pend_ok<T>(
    g0: Seq<Allocation<T>>,
    done: Seq<usize>,
    busy: Option<usize>,
    pending: Seq<usize>,
    cur: Seq<Allocation<T>>,
    j: int,
) -> bool {
    let p = pending[j];
    &&& p < g0.len()
    &&& !done.contains(p)
    &&& busy != Some(p)
    &&& g0[p as int].is_live()
    &&& cur[p as int].strong_count == 0
}

/// The record of `v` is what the handles gone so far leave of it.
spec fn rest_ok<T>(
    g0: Seq<Allocation<T>>,
    x: usize,
    done: Seq<usize>,
    busy: Option<usize>,
    k: int,
    pending: Seq<usize>,
    cur: Seq<Allocation<T>>,
    v: usize,
) -> bool {
    let lost = lost_so_far(g0, x, done, busy, k, v);
    let was = g0[v as int];
    let now = cur[v as int];
    if done.contains(v) {
        true
    } else if busy == Some(v) {
        &&& now == (Allocation { payload: None, strong_count: 0, buffered: false, ..was })
        &&& was.is_live()
        &&& was.strong_count == handles_lost(adjacency(g0), done.to_set(), x, v)
        &&& 0 <= k <= was.edges@.len()
        &&& !pending.contains(v)
    } else {
        &&& now == (Allocation { strong_count: now.strong_count, buffered: now.buffered, ..was })
        &&& now.strong_count + lost == was.strong_count
        &&& !was.is_live() ==> now == was
        &&& now.strong_count > 0 ==> now.buffered == (was.buffered || lost > 0)
        &&& was.is_live() && now.strong_count == 0 ==> pending.contains(v)
    }
}

/// What holds while a cascade runs: `done` lists the allocations destroyed
/// so far, `busy` is the one whose first `k` handles have been given back,
/// and `pending` lists those whose count has reached zero.
spec fn cascade_inv<T>(
    g0: Seq<Allocation<T>>,
    x: usize,
    done: Seq<usize>,
    busy: Option<usize>,
    k: int,
    pending: Seq<usize>,
    cur: Seq<Allocation<T>>,
) -> bool {
    &&& cur.len() == g0.len()
    &&& done.no_duplicates()
    &&& pending.no_duplicates()
    &&& busy is Some ==> busy.unwrap() < g0.len() && !done.contains(busy.unwrap())
    &&& forall|i: int| 0 <= i < done.len() ==> #[trigger] done_ok(g0, x, done, cur, i)
    &&& forall|j: int|
        0 <= j < pending.len() ==> #[trigger] pend_ok(g0, done, busy, pending, cur, j)
    &&& forall|v: usize|
        v < g0.len() ==> #[trigger] rest_ok(g0, x, done, busy, k, pending, cur, v)
}

/// Every count covers the handles held inside the heap, and that of `x` the
/// handle being given back as well.
proof fn lemma_budget<T>(g0: Seq<Allocation<T>>, x: usize, v: usize)
    requires
        start_ok(g0, x),
        v < g0.len(),
    ensures
        g0[v as int].strong_count >= in_degree(adjacency(g0), v) + if v == x {
            1nat
        } else {
            0nat
        },
{
    assert(node_ok(g0, v as int));
}

/// A count that has reached zero stays out of reach of every handle that is
/// still to be given back.
proof fn lemma_no_handle_left<T>(g0: Seq<Allocation<T>>, x: usize, set: Set<usize>, u: usize, k: int)
    requires
        start_ok(g0, x),
        u < g0.len(),
        !set.contains(u),
        0 <= k < g0[u as int].edges@.len(),
    ensures
        g0[u as int].edges@[k] < g0.len(),
        g0[g0[u as int].edges@[k] as int].strong_count >= handles_lost(
            adjacency(g0),
            set,
            x,
            g0[u as int].edges@[k],
        ) + count_in(g0[u as int].edges@.take(k), g0[u as int].edges@[k]) + 1,
{
    let adj = adjacency(g0);
    let c = g0[u as int].edges@[k];
    assert(adj[u as int][k] == c);
    assert(c < g0.len());
    lemma_edge_counted(adj, set, u, k);
    lemma_budget(g0, x, c);
}

/// With the handle given back, the cascade starts: with its allocation
/// listed for destruction if that was the last handle to it.
proof fn lemma_cascade_start<T>(g0: Seq<Allocation<T>>, x: usize)
    requires
        start_ok(g0, x),
    ensures
        g0[x as int].strong_count == 1 ==> cascade_inv(
            g0,
            x,
            Seq::<usize>::empty(),
            None,
            0,
            seq![x],
            g0.update(x as int, g0[x as int].decremented()),
        ),
        g0[x as int].strong_count > 1 ==> cascade_inv(
            g0,
            x,
            Seq::<usize>::empty(),
            None,
            0,
            Seq::<usize>::empty(),
            g0.update(x as int, g0[x as int].decremented()),
        ),
{
    let done = Seq::<usize>::empty();
    let cur = g0.update(x as int, g0[x as int].decremented());
    let pending = if g0[x as int].strong_count == 1 {
        seq![x]
    } else {
        Seq::<usize>::empty()
    };
    assert(done.to_set() =~= Set::<usize>::empty());
    assert forall|v: usize| v < g0.len() implies #[trigger] rest_ok(
        g0,
        x,
        done,
        None,
        0,
        pending,
        cur,
        v,
    ) by {
        lemma_in_count_empty(adjacency(g0), v, g0.len());
        assert(node_ok(g0, v as int));
        if v == x && g0[x as int].strong_count == 1 {
            assert(pending[0] == x);
        }
    }
    assert forall|j: int| 0 <= j < pending.len() implies #[trigger] pend_ok(
        g0,
        done,
        None,
        pending,
        cur,
        j,
    ) by {}
}

/// Taking an allocation whose count is zero off the list and destroying its payload.
proof fn lemma_cascade_pop<T>(
    g0: Seq<Allocation<T>>,
    x: usize,
    done: Seq<usize>,
    pending: Seq<usize>,
    cur: Seq<Allocation<T>>,
    cur2: Seq<Allocation<T>>,
)
    requires
        start_ok(g0, x),
        cascade_inv(g0, x, done, None, 0, pending, cur),
        pending.len() > 0,
        cur2 == cur.update(
            pending.last() as int,
            (Allocation { payload: None, buffered: false, ..cur[pending.last() as int] }),
        ),
    ensures
        cascade_inv(g0, x, done, Some(pending.last()), 0, pending.drop_last(), cur2),
        pending.last() < g0.len(),
        cur[pending.last() as int].payload is Some,
{
    let u = pending.last();
    let rest = pending.drop_last();
    let last = pending.len() - 1;
    assert(pend_ok(g0, done, None, pending, cur, last));
    assert(rest_ok(g0, x, done, None, 0, pending, cur, u));
    assert(g0[u as int].edges@.take(0) =~= Seq::<usize>::empty());
    assert forall|i: int| 0 <= i < done.len() implies #[trigger] done_ok(g0, x, done, cur2, i) by {
        assert(done_ok(g0, x, done, cur, i));
    }
    assert forall|j: int| 0 <= j < rest.len() implies #[trigger] pend_ok(
        g0,
        done,
        Some(u),
        rest,
        cur2,
        j,
    ) by {
        assert(pend_ok(g0, done, None, pending, cur, j));
        assert(pending[j] != pending[last]);
    }
    assert forall|v: usize| v < g0.len() implies #[trigger] rest_ok(
        g0,
        x,
        done,
        Some(u),
        0,
        rest,
        cur2,
        v,
    ) by {
        assert(rest_ok(g0, x, done, None, 0, pending, cur, v));
        lemma_count_in_empty(v);
        if v == u {
            if rest.contains(u) {
                let j = choose|j: int| 0 <= j < rest.len() && rest[j] == u;
                assert(pending[j] == pending[last]);
            }
        } else if !done.contains(v) {
            if g0[v as int].is_live() && cur[v as int].strong_count == 0 {
                let j = choose|j: int| 0 <= j < pending.len() && pending[j] == v;
                assert(rest[j] == v);
            }
        }
    }
}

/// Giving back the `k`-th handle of the allocation being destroyed.
proof fn lemma_cascade_edge<T>(
    g0: Seq<Allocation<T>>,
    x: usize,
    done: Seq<usize>,
    u: usize,
    k: int,
    pending: Seq<usize>,
    cur: Seq<Allocation<T>>,
)
    requires
        start_ok(g0, x),
        cascade_inv(g0, x, done, Some(u), k, pending, cur),
        0 <= k < g0[u as int].edges@.len(),
    ensures
        ({
            let c = g0[u as int].edges@[k];
            let cur2 = cur.update(c as int, cur[c as int].decremented());
            let pending2 = if cur[c as int].strong_count == 1 {
                pending.push(c)
            } else {
                pending
            };
            &&& c < g0.len()
            &&& c != u
            &&& cur[c as int].strong_count > 0
            &&& cascade_inv(g0, x, done, Some(u), k + 1, pending2, cur2)
        }),
{
    let adj = adjacency(g0);
    let c = g0[u as int].edges@[k];
    let dset = done.to_set();
    assert(rest_ok(g0, x, done, Some(u), k, pending, cur, u));
    lemma_no_handle_left(g0, x, dset, u, k);
    // the target is neither destroyed nor the allocation being destroyed
    if c == u {
        lemma_in_count_empty(adj, c, 0);
    }
    if done.contains(c) {
        let i = choose|i: int| 0 <= i < done.len() && done[i] == c;
        assert(done_ok(g0, x, done, cur, i));
        let before = done.take(i).to_set();
        if before.contains(u) {
            let j = choose|j: int| 0 <= j < done.take(i).len() && done.take(i)[j] == u;
            assert(done[j] == u);
        }
        lemma_no_handle_left(g0, x, before, u, k);
    }
    assert(rest_ok(g0, x, done, Some(u), k, pending, cur, c));
    let cur2 = cur.update(c as int, cur[c as int].decremented());
    let pending2 = if cur[c as int].strong_count == 1 {
        pending.push(c)
    } else {
        pending
    };
    if cur[c as int].strong_count == 1 {
        if pending.contains(c) {
            let j = choose|j: int| 0 <= j < pending.len() && pending[j] == c;
            assert(pend_ok(g0, done, Some(u), pending, cur, j));
        }
        assert(node_ok(g0, c as int));
    }
    assert(pending2.no_duplicates());
    assert forall|i: int| 0 <= i < done.len() implies #[trigger] done_ok(g0, x, done, cur2, i) by {
        assert(done_ok(g0, x, done, cur, i));
    }
    assert forall|j: int| 0 <= j < pending2.len() implies #[trigger] pend_ok(
        g0,
        done,
        Some(u),
        pending2,
        cur2,
        j,
    ) by {
        if j < pending.len() {
            assert(pend_ok(g0, done, Some(u), pending, cur, j));
        }
    }
    assert forall|v: usize| v < g0.len() implies #[trigger] rest_ok(
        g0,
        x,
        done,
        Some(u),
        k + 1,
        pending2,
        cur2,
        v,
    ) by {
        assert(rest_ok(g0, x, done, Some(u), k, pending, cur, v));
        assert(node_ok(g0, v as int));
        lemma_count_in_take(g0[u as int].edges@, k, v);
        if !done.contains(v) && v != u {
            if g0[v as int].is_live() && cur2[v as int].strong_count == 0 {
                if v == c {
                    assert(pending2[pending.len() as int] == c);
                } else {
                    let j = choose|j: int| 0 <= j < pending.len() && pending[j] == v;
                    assert(pending2[j] == v);
                }
            }
        }
        if v == u {
            if pending2.contains(u) {
                let j = choose|j: int| 0 <= j < pending2.len() && pending2[j] == u;
                if j < pending.len() {
                    assert(pending[j] == u);
                }
            }
        }
    }
}

/// The last handle of the allocation being destroyed has been given back.
proof fn lemma_cascade_finish<T>(
    g0: Seq<Allocation<T>>,
    x: usize,
    done: Seq<usize>,
    u: usize,
    pending: Seq<usize>,
    cur: Seq<Allocation<T>>,
    cur2: Seq<Allocation<T>>,
)
    requires
        start_ok(g0, x),
        cascade_inv(g0, x, done, Some(u), g0[u as int].edges@.len() as int, pending, cur),
        cur2.len() == cur.len(),
        forall|v: int| 0 <= v < cur.len() && v != u ==> cur2[v] == cur[v],
        is_destroyed(cur2[u as int]),
        cur2[u as int].meta == cur[u as int].meta,
    ensures
        cascade_inv(g0, x, done.push(u), None, 0, pending, cur2),
        done.push(u).len() <= g0.len(),
{
    let adj = adjacency(g0);
    let done2 = done.push(u);
    let k = g0[u as int].edges@.len() as int;
    assert(rest_ok(g0, x, done, Some(u), k, pending, cur, u));
    assert(g0[u as int].edges@.take(k) =~= g0[u as int].edges@);
    lemma_push_to_set(done, u);
    assert(done2.take(done.len() as int) =~= done);
    assert(done2.no_duplicates());
    assert forall|i: int| 0 <= i < done2.len() implies #[trigger] done_ok(g0, x, done2, cur2, i) by {
        if i < done.len() {
            assert(done_ok(g0, x, done, cur, i));
            assert(done2.take(i) =~= done.take(i));
        }
    }
    assert forall|j: int| 0 <= j < pending.len() implies #[trigger] pend_ok(
        g0,
        done2,
        None,
        pending,
        cur2,
        j,
    ) by {
        assert(pend_ok(g0, done, Some(u), pending, cur, j));
    }
    assert forall|v: usize| v < g0.len() implies #[trigger] rest_ok(
        g0,
        x,
        done2,
        None,
        0,
        pending,
        cur2,
        v,
    ) by {
        assert(rest_ok(g0, x, done, Some(u), k, pending, cur, v));
        lemma_in_count_insert(adj, done.to_set(), u, v);
        assert(adj[u as int] == g0[u as int].edges@);
        assert(done2.to_set().contains(v) == (done.contains(v) || v == u));
        assert(done2.contains(v) == (done.contains(v) || v == u));
    }
    assert forall|i: int| 0 <= i < done2.len() implies done2[i] < g0.len() by {
        assert(done_ok(g0, x, done2, cur2, i));
    }
    lemma_distinct_len(done2, g0.len());
}

/// Nothing is left to destroy: the heap is consistent again, and it is what
/// giving back the handle should leave behind.
proof fn lemma_cascade_end<T>(
    g0: Seq<Allocation<T>>,
    x: usize,
    done: Seq<usize>,
    cur: Seq<Allocation<T>>,
)
    requires
        start_ok(g0, x),
        cascade_inv(g0, x, done, None, 0, Seq::<usize>::empty(), cur),
    ensures
        dropped(g0, x, done, cur),
        well_formed(cur),
{
    let adj = adjacency(g0);
    let adj2 = adjacency(cur);
    let dset = done.to_set();
    let none = Seq::<usize>::empty();
    assert forall|i: int| 0 <= i < done.len() implies {
        &&& (#[trigger] done[i]) < g0.len()
        &&& g0[done[i] as int].is_live()
        &&& g0[done[i] as int].strong_count == handles_lost(
            adj,
            done.take(i).to_set(),
            x,
            done[i],
        )
    } by {
        assert(done_ok(g0, x, done, cur, i));
    }
    assert forall|v: usize| v < g0.len() implies if done.contains(v) {
        is_destroyed(#[trigger] cur[v as int]) && cur[v as int].meta == g0[v as int].meta
    } else {
        &&& handles_lost(adj, dset, x, v) <= g0[v as int].strong_count
        &&& cur[v as int] == survivor(g0[v as int], handles_lost(adj, dset, x, v))
        &&& g0[v as int].is_live() ==> cur[v as int].strong_count > 0
    } by {
        assert(rest_ok(g0, x, done, None, 0, none, cur, v));
        if done.contains(v) {
            let i = choose|i: int| 0 <= i < done.len() && done[i] == v;
            assert(done_ok(g0, x, done, cur, i));
        } else {
            assert(node_ok(g0, v as int));
            if !g0[v as int].is_live() {
                lemma_budget(g0, x, v);
                lemma_in_count_mono(adj, dset, Set::full(), v, adj.len());
            }
        }
    }
    // the graph that is left
    assert forall|u: usize| u < adj.len() implies (#[trigger] adj2[u as int]) == if dset.contains(
        u,
    ) {
        Seq::<usize>::empty()
    } else {
        adj[u as int]
    } by {
        assert(rest_ok(g0, x, done, None, 0, none, cur, u));
        if done.contains(u) {
            let i = choose|i: int| 0 <= i < done.len() && done[i] == u;
            assert(done_ok(g0, x, done, cur, i));
            assert(adj2[u as int] =~= Seq::<usize>::empty());
        }
    }
    assert(targets_in_range(adj2)) by {
        assert forall|u: int, k: int|
            0 <= u < adj2.len() && 0 <= k < adj2[u].len() implies (#[trigger] adj2[u][k])
            < adj2.len() by {
            assert(adj2[(u as usize) as int] == adj2[u]);
            assert(adj2[u][k] == adj[u][k]);
        }
    }
    assert forall|v: int| 0 <= v < cur.len() implies #[trigger] node_ok(cur, v) by {
        let vu = v as usize;
        assert(rest_ok(g0, x, done, None, 0, none, cur, vu));
        assert(node_ok(g0, v));
        lemma_in_degree_after_clearing(adj, adj2, dset, vu);
        lemma_budget(g0, x, vu);
        if done.contains(vu) {
            let i = choose|i: int| 0 <= i < done.len() && done[i] == vu;
            assert(done_ok(g0, x, done, cur, i));
            assert forall|w: usize| done.take(i).to_set().contains(w) implies dset.contains(
                w,
            ) by {
                let j = choose|j: int| 0 <= j < done.take(i).len() && done.take(i)[j] == w;
                assert(done[j] == w);
            }
            lemma_in_count_mono(adj, done.take(i).to_set(), dset, vu, adj.len());
        }
    }
}

impl<T> Heap<T> {
    /// Gives a handle back to the heap.
    ///
    /// A dead handle changes nothing. A live one is counted no longer: if
    /// other handles remain, its allocation becomes a candidate root for the
    /// next collection pass; if it was the last, the allocation is destroyed
    /// and the handles that its payload owned are given back in turn.
    /// Returns the number of allocations destroyed.
    pub fn drop_gc(&mut self, gc: Gc) -> (freed: usize)
        requires
            old(self).wf(),
            holds(old(self).nodes(), gc),
        ensures
            final(self).wf(),
            final(self).spec_threshold() == old(self).spec_threshold(),
            final(self).spec_trace_limit() == old(self).spec_trace_limit(),
            match gc.target() {
                None => freed == 0 && final(self).nodes() == old(self).nodes(),
                Some(x) => exists|order: Seq<usize>|
                    order.len() == freed && #[trigger] dropped(
                        old(self).nodes(),
                        x,
                        order,
                        final(self).nodes(),
                    ),
            },
            outside_handles_moved(old(self).nodes(), final(self).nodes(), gc.target(), 1),
            rooted(old(self).nodes()) ==> rooted(final(self).nodes()),
            keeps_handles_but(old(self).nodes(), final(self).nodes(), gc.target()),
            nothing_returns(old(self).nodes(), final(self).nodes()),
            keeps_edges(old(self).nodes(), final(self).nodes()),
    {
        let x = match gc.slot() {
            None => {
                return 0;
            },
            Some(x) => x,
        };
        let ghost g0 = self.records@;
        proof {
            lemma_cascade_start(g0, x);
        }
        let left = self.release_handle(x);
        let mut pending: Vec<usize> = Vec::new();
        if left == 0 {
            pending.push(x);
        }
        let ghost mut done = Seq::<usize>::empty();
        let mut freed: usize = 0;
        proof {
            assert(pending@ =~= if left == 0 {
                seq![x]
            } else {
                Seq::<usize>::empty()
            });
        }
        while pending.len() > 0
            invariant
                start_ok(g0, x),
                self.index_ok(),
                cascade_inv(g0, x, done, None, 0, pending@, self.records@),
                freed == done.len(),
                done.len() <= g0.len(),
                self.threshold == old(self).threshold,
                self.trace_limit == old(self).trace_limit,
            decreases g0.len() - done.len(),
        {
            let ghost before = self.records@;
            let ghost listed = pending@;
            let u = pending.pop().unwrap();
            proof {
                assert(pend_ok(g0, done, None, listed, before, listed.len() - 1));
            }
            if self.records[u].buffered {
                self.unbuffer(u);
            }
            proof {
                let mid = self.records@;
                let gone = mid.update(u as int, (Allocation { payload: None, ..mid[u as int] }));
                assert(gone =~= before.update(
                    u as int,
                    (Allocation { payload: None, buffered: false, ..before[u as int] }),
                ));
                lemma_cascade_pop(g0, x, done, listed, before, gone);
            }
            self.records[u].destroy_payload();
            let n_edges = self.records[u].edges.len();
            proof {
                assert(rest_ok(g0, x, done, Some(u), 0, pending@, self.records@, u));
            }
            let mut k: usize = 0;
            while k < n_edges
                invariant
                    start_ok(g0, x),
                    self.index_ok(),
                    u < g0.len(),
                    n_edges == g0[u as int].edges@.len(),
                    k <= n_edges,
                    cascade_inv(g0, x, done, Some(u), k as int, pending@, self.records@),
                    self.threshold == old(self).threshold,
                    self.trace_limit == old(self).trace_limit,
                decreases n_edges - k,
            {
                proof {
                    assert(rest_ok(g0, x, done, Some(u), k as int, pending@, self.records@, u));
                    lemma_cascade_edge(g0, x, done, u, k as int, pending@, self.records@);
                }
                let c = self.records[u].edges[k];
                let left = self.release_handle(c);
                if left == 0 {
                    pending.push(c);
                }
                k += 1;
            }
            let ghost busy = self.records@;
            self.records[u].edges.clear();
            proof {
                assert(rest_ok(g0, x, done, Some(u), n_edges as int, pending@, busy, u));
                assert(node_ok(g0, u as int));
                lemma_cascade_finish(g0, x, done, u, pending@, busy, self.records@);
                done = done.push(u);
            }
            freed += 1;
        }
        proof {
            assert(pending@ =~= Seq::<usize>::empty());
            lemma_cascade_end(g0, x, done, self.records@);
            assert(done.len() == freed && dropped(old(self).nodes(), x, done, self.nodes()));
            assert forall|v: usize|
                v < g0.len() && self.records@[v as int].is_live() implies #[trigger] external(
                self.records@,
                v,
            ) == external(g0, v) - if gc.target() == Some(v) {
                1int
            } else {
                0int
            } by {
                crate::laws::lemma_dropped_external(g0, x, done, self.records@, v);
            }
            if rooted(g0) {
                crate::rooted::lemma_rooted_dropped(g0, gc, done, self.records@);
            }
            assert forall|v: int|
                0 <= v < g0.len() && (#[trigger] self.records@[v]).is_live() implies self.records@[v].payload
                == g0[v].payload && self.records@[v].meta == g0[v].meta by {
                let vu = v as usize;
                assert(self.records@[vu as int] == self.records@[v]);
                if done.contains(vu) {
                    assert(is_destroyed(self.records@[vu as int]));
                }
            }
            assert forall|other: Gc|
                holds(g0, other) && (other.target() == gc.target() ==> external(g0, x)
                    >= 2) implies #[trigger] holds(self.records@, other) by {
                crate::laws::lemma_dropped_keeps_handles(g0, gc, done, self.records@, other);
            }
        }
        freed
    }
}

} // verus!
