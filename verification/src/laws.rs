//! What holds of the heap across its operations, stated over the model and
//! proved from it.

use crate::allocation::Allocation;
use crate::graph::{
    in_count, in_degree, lemma_count_in_contains, lemma_in_count_empty, lemma_in_count_insert,
    lemma_in_count_mono, lemma_in_count_split, lemma_in_count_witness, lemma_reach_closed,
    lemma_reach_source, lemma_reach_step, lemma_take_to_set, reach_level, reach_within, reachable,
    successors,
};
use crate::handle::Gc;
use crate::heap::collect::lemma_traced_facts;
use crate::model::{
    adjacency, anchored, buffered, collected, dropped, external, garbage, handles_lost, holds,
    is_destroyed, lemma_in_degree_after_clearing, node_ok, retained, traced, well_formed,
};
use vstd::prelude::*;

verus! {

// ---------------------------------------------------------------------------
// Heaps without cycles
// ---------------------------------------------------------------------------
/// `rank` numbers the allocations so that every handle a payload owns points
/// from a higher number to a lower one.
pub open spec fn ranked(adj: Seq<Seq<usize>>, rank: Seq<nat>) -> bool {
    &&& rank.len() == adj.len()
    &&& forall|u: int, k: int|
        0 <= u < adj.len() && 0 <= k < adj[u].len() && (#[trigger] adj[u][k]) < adj.len()
            ==> rank[adj[u][k] as int] < rank[u]
}

/// The graph has no cycle: its allocations can be numbered so that every
/// handle points downwards.
pub open spec fn acyclic(adj: Seq<Seq<usize>>) -> bool {
    exists|rank: Seq<nat>| ranked(adj, rank)
}

/// Among the first `n` allocations, a live one of the highest rank, if any is alive.
proof fn lemma_highest_live<T>(g: Seq<Allocation<T>>, rank: Seq<nat>, n: nat) -> (top: Option<usize>)
    requires
        n <= g.len() <= usize::MAX,
        rank.len() == g.len(),
    ensures
        top is None ==> forall|v: int| 0 <= v < n ==> !g[v].is_live(),
        top is Some ==> top.unwrap() < n && g[top.unwrap() as int].is_live() && forall|v: int|
            0 <= v < n && g[v].is_live() ==> rank[v] <= rank[top.unwrap() as int],
    decreases n,
{
    if n == 0 {
        None
    } else {
        let rest = lemma_highest_live(g, rank, (n - 1) as nat);
        let last = (n - 1) as usize;
        if !g[last as int].is_live() {
            rest
        } else {
            match rest {
                None => Some(last),
                Some(t) => if rank[t as int] >= rank[last as int] {
                    rest
                } else {
                    Some(last)
                },
            }
        }
    }
}

/// In a heap without cycles, an allocation can only be alive while some
/// handle outside the heap keeps something alive: once no handle is held
/// outside the heap, every allocation has been destroyed.
pub proof fn lemma_acyclic_unheld_is_empty<T>(g: Seq<Allocation<T>>)
    requires
        well_formed(g),
        acyclic(adjacency(g)),
        forall|v: usize| v < g.len() ==> external(g, v) == 0,
    ensures
        forall|v: int| 0 <= v < g.len() ==> !(#[trigger] g[v]).is_live(),
{
    let adj = adjacency(g);
    let rank = choose|rank: Seq<nat>| ranked(adj, rank);
    let top = lemma_highest_live(g, rank, g.len());
    if top is Some {
        let t = top.unwrap();
        assert(node_ok(g, t as int));
        assert(external(g, t) == 0);
        let p = lemma_in_count_witness(adj, Set::full(), t, adj.len());
        assert(node_ok(g, p as int));
        assert(g[p as int].edges@.len() > 0);
        let k = choose|k: int| 0 <= k < adj[p as int].len() && adj[p as int][k] == t;
        assert(rank[adj[p as int][k] as int] < rank[p as int]);
        assert(false);
    }
}

/// Giving back a handle leaves a heap without cycles without cycles.
pub proof fn lemma_dropped_keeps_acyclic<T>(
    g: Seq<Allocation<T>>,
    x: usize,
    order: Seq<usize>,
    g2: Seq<Allocation<T>>,
)
    requires
        well_formed(g),
        acyclic(adjacency(g)),
        dropped(g, x, order, g2),
    ensures
        acyclic(adjacency(g2)),
{
    let adj = adjacency(g);
    let adj2 = adjacency(g2);
    let rank = choose|rank: Seq<nat>| ranked(adj, rank);
    assert forall|u: int, k: int|
        0 <= u < adj2.len() && 0 <= k < adj2[u].len() && (#[trigger] adj2[u][k])
            < adj2.len() implies rank[adj2[u][k] as int] < rank[u] by {
        let uu = u as usize;
        assert(is_destroyed(g2[uu as int]) || g2[uu as int].edges == g[uu as int].edges);
        assert(adj2[u][k] == adj[u][k]);
    }
    assert(ranked(adj2, rank));
}

/// A pass leaves a heap without cycles without cycles.
pub proof fn lemma_collected_keeps_acyclic<T>(g: Seq<Allocation<T>>, g2: Seq<Allocation<T>>)
    requires
        well_formed(g),
        acyclic(adjacency(g)),
        collected(g, g2),
    ensures
        acyclic(adjacency(g2)),
{
    let adj = adjacency(g);
    let adj2 = adjacency(g2);
    let rank = choose|rank: Seq<nat>| ranked(adj, rank);
    assert forall|u: int, k: int|
        0 <= u < adj2.len() && 0 <= k < adj2[u].len() && (#[trigger] adj2[u][k])
            < adj2.len() implies rank[adj2[u][k] as int] < rank[u] by {
        let uu = u as usize;
        assert(is_destroyed(g2[uu as int]) || g2[uu as int].edges == g[uu as int].edges);
        assert(adj2[u][k] == adj[u][k]);
    }
    assert(ranked(adj2, rank));
}

/// Among the first `n` allocations, a piece of garbage of the highest rank,
/// if there is garbage among them.
proof fn lemma_highest_garbage<T>(g: Seq<Allocation<T>>, rank: Seq<nat>, n: nat) -> (top: Option<
    usize,
>)
    requires
        n <= g.len() <= usize::MAX,
        rank.len() == g.len(),
    ensures
        top is None ==> forall|v: usize| v < n ==> !garbage(g).contains(v),
        top is Some ==> top.unwrap() < n && garbage(g).contains(top.unwrap()) && forall|v: usize|
            v < n && garbage(g).contains(v) ==> rank[v as int] <= rank[top.unwrap() as int],
    decreases n,
{
    if n == 0 {
        None
    } else {
        let rest = lemma_highest_garbage(g, rank, (n - 1) as nat);
        let last = (n - 1) as usize;
        if !garbage(g).contains(last) {
            rest
        } else {
            match rest {
                None => Some(last),
                Some(t) => if rank[t as int] >= rank[last as int] {
                    rest
                } else {
                    Some(last)
                },
            }
        }
    }
}

/// A heap without cycles holds no garbage for a pass to find: counting
/// handles destroys everything in time, and a pass destroys nothing.
pub proof fn lemma_acyclic_no_garbage<T>(g: Seq<Allocation<T>>)
    requires
        well_formed(g),
        acyclic(adjacency(g)),
    ensures
        garbage(g) =~= Set::<usize>::empty(),
{
    let adj = adjacency(g);
    let rank = choose|rank: Seq<nat>| ranked(adj, rank);
    let top = lemma_highest_garbage(g, rank, g.len());
    if top is Some {
        let d = top.unwrap();
        lemma_traced_facts(g, d);
        assert(node_ok(g, d as int));
        let p = lemma_in_count_witness(adj, garbage(g), d, adj.len());
        let k = choose|k: int| 0 <= k < adj[p as int].len() && adj[p as int][k] == d;
        assert(rank[adj[p as int][k] as int] < rank[p as int]);
        assert(false);
    }
    assert forall|v: usize| !garbage(g).contains(v) by {
        if garbage(g).contains(v) {
            crate::graph::lemma_reach_in_range(adj, buffered(g), v);
        }
    }
}

// ---------------------------------------------------------------------------
// Giving a handle back
// ---------------------------------------------------------------------------
/// No allocation is destroyed while a handle to it is left: each allocation
/// that giving back a handle to `x` destroys was held by nothing but the
/// destroyed allocations and, in the case of `x`, the handle given back.
pub proof fn lemma_dropped_unheld<T>(
    g: Seq<Allocation<T>>,
    gc: Gc,
    order: Seq<usize>,
    g2: Seq<Allocation<T>>,
    i: int,
)
    requires
        well_formed(g),
        holds(g, gc),
        gc.target() is Some,
        dropped(g, gc.target().unwrap(), order, g2),
        0 <= i < order.len(),
    ensures
        external(g, order[i]) == if order[i] == gc.target().unwrap() {
            1int
        } else {
            0int
        },
        in_degree(adjacency(g), order[i]) == in_count(adjacency(g), order.to_set(), order[i]),
{
    let adj = adjacency(g);
    let x = gc.target().unwrap();
    let d = order[i];
    assert(node_ok(g, d as int));
    lemma_take_to_set(order, i);
    lemma_in_count_mono(adj, order.take(i).to_set(), order.to_set(), d, adj.len());
    lemma_in_count_mono(adj, order.to_set(), Set::full(), d, adj.len());
}

/// Giving back a handle to `x` takes one handle held outside the heap away
/// from `x`, if `x` lives on, and leaves every other surviving allocation
/// with as many handles held outside the heap as it had.
pub proof fn lemma_dropped_external<T>(
    g: Seq<Allocation<T>>,
    x: usize,
    order: Seq<usize>,
    g2: Seq<Allocation<T>>,
    v: usize,
)
    requires
        well_formed(g),
        dropped(g, x, order, g2),
        v < g.len(),
        !order.contains(v),
    ensures
        external(g2, v) == external(g, v) - if v == x {
            1int
        } else {
            0int
        },
{
    let adj = adjacency(g);
    let adj2 = adjacency(g2);
    let gone = order.to_set();
    assert forall|u: usize| u < adj.len() implies (#[trigger] adj2[u as int]) == if gone.contains(
        u,
    ) {
        Seq::<usize>::empty()
    } else {
        adj[u as int]
    } by {
        assert(is_destroyed(g2[u as int]) || g2[u as int].edges == g[u as int].edges);
        if gone.contains(u) {
            assert(adj2[u as int] =~= Seq::<usize>::empty());
        }
    }
    lemma_in_degree_after_clearing(adj, adj2, gone, v);
    assert(g2[v as int].strong_count == g[v as int].strong_count - handles_lost(adj, gone, x, v));
}

/// An allocation is destroyed once: what was destroyed before a handle is
/// given back is neither destroyed again nor brought back.
pub proof fn lemma_dropped_once<T>(
    g: Seq<Allocation<T>>,
    x: usize,
    order: Seq<usize>,
    g2: Seq<Allocation<T>>,
    v: usize,
)
    requires
        well_formed(g),
        x < g.len(),
        g[x as int].is_live(),
        dropped(g, x, order, g2),
        v < g.len(),
        !g[v as int].is_live(),
    ensures
        !order.contains(v),
        g2[v as int] == g[v as int],
{
    let adj = adjacency(g);
    if order.contains(v) {
        let i = choose|i: int| 0 <= i < order.len() && order[i] == v;
        assert(g[order[i] as int].is_live());
    }
    assert(node_ok(g, v as int));
    lemma_in_count_mono(adj, order.to_set(), Set::full(), v, adj.len());
}

// ---------------------------------------------------------------------------
// The collection pass
// ---------------------------------------------------------------------------
/// What can be reached from a set can be reached from one of its members.
pub proof fn lemma_reach_from_one(adj: Seq<Seq<usize>>, from: Set<usize>, v: usize, k: nat) -> (a:
    usize)
    requires
        reach_within(adj, from, v, k),
    ensures
        from.contains(a),
        a < adj.len(),
        reachable(adj, set![a], v),
    decreases k,
{
    if k == 0 {
        lemma_reach_source(adj, set![v], v);
        v
    } else {
        let before = reach_level(adj, from, (k - 1) as nat);
        if before.contains(v) {
            lemma_reach_from_one(adj, from, v, (k - 1) as nat)
        } else {
            assert(successors(adj, before).contains(v));
            let u = choose|u: usize|
                u < adj.len() && #[trigger] before.contains(u) && adj[u as int].contains(v);
            let a = lemma_reach_from_one(adj, from, u, (k - 1) as nat);
            lemma_reach_step(adj, set![a], u, v);
            a
        }
    }
}

/// A pass never destroys what a handle outside the heap keeps alive: an
/// allocation that can be reached from one that is held outside the heap is
/// no garbage.
pub proof fn lemma_collect_spares_held<T>(g: Seq<Allocation<T>>, u: usize, v: usize)
    requires
        well_formed(g),
        u < g.len(),
        external(g, u) > 0,
        reachable(adjacency(g), set![u], v),
    ensures
        !garbage(g).contains(v),
{
    let adj = adjacency(g);
    let k = choose|k: nat| reach_within(adj, set![u], v, k);
    lemma_spared_within(g, u, v, k);
}

/// The same, for what can be reached along at most `k` handles.
proof fn lemma_spared_within<T>(g: Seq<Allocation<T>>, u: usize, v: usize, k: nat)
    requires
        well_formed(g),
        u < g.len(),
        external(g, u) > 0,
        reach_within(adjacency(g), set![u], v, k),
    ensures
        traced(g).contains(v) ==> retained(g).contains(v),
    decreases k,
{
    let adj = adjacency(g);
    let s = traced(g);
    if traced(g).contains(v) {
        crate::graph::lemma_reach_in_range(adj, buffered(g), v);
        lemma_traced_facts(g, v);
        if k == 0 {
            lemma_in_count_mono(adj, s, Set::full(), v, adj.len());
            assert(anchored(g).contains(v));
            lemma_reach_source(adj, anchored(g), v);
        } else {
            let before = reach_level(adj, set![u], (k - 1) as nat);
            if before.contains(v) {
                lemma_spared_within(g, u, v, (k - 1) as nat);
            } else {
                assert(successors(adj, before).contains(v));
                let p = choose|p: usize|
                    p < adj.len() && #[trigger] before.contains(p) && adj[p as int].contains(v);
                lemma_spared_within(g, u, p, (k - 1) as nat);
                if s.contains(p) {
                    lemma_reach_step(adj, anchored(g), p, v);
                } else {
                    lemma_in_count_insert(adj, s, p, v);
                    lemma_in_count_mono(adj, s.insert(p), Set::full(), v, adj.len());
                    lemma_count_in_contains(adj[p as int], v);
                    assert(node_ok(g, v as int));
                    assert(anchored(g).contains(v));
                    lemma_reach_source(adj, anchored(g), v);
                }
            }
        }
    }
}

/// A pass destroys the cycles that nothing holds: a traced allocation is
/// garbage if every allocation from which it can be reached is traced and
/// held by no handle outside the heap.
pub proof fn lemma_collect_frees_unheld<T>(g: Seq<Allocation<T>>, v: usize)
    requires
        well_formed(g),
        traced(g).contains(v),
        forall|w: usize|
            w < g.len() && #[trigger] reachable(adjacency(g), set![w], v) ==> traced(g).contains(w)
                && external(g, w) == 0,
    ensures
        garbage(g).contains(v),
{
    let adj = adjacency(g);
    let s = traced(g);
    if retained(g).contains(v) {
        let k = choose|k: nat| reach_within(adj, anchored(g), v, k);
        let a = lemma_reach_from_one(adj, anchored(g), v, k);
        assert(reachable(adj, set![a], v));
        assert(external(g, a) == 0);
        let rest = Set::<usize>::full().difference(s);
        assert(s.union(rest) =~= Set::<usize>::full());
        lemma_in_count_split(adj, s, rest, a, adj.len());
        let p = lemma_in_count_witness(adj, rest, a, adj.len());
        lemma_reach_source(adj, set![p], p);
        lemma_reach_step(adj, set![p], p, a);
        assert forall|t: usize| set![a].contains(t) && t < adj.len() implies reachable(
            adj,
            set![p],
            t,
        ) by {}
        crate::graph::lemma_reach_trans(adj, set![p], set![a], v);
        assert(reachable(adj, set![p], v));
        assert(false);
    }
}

/// A pass takes no handle held outside the heap from any allocation that it
/// leaves alive.
pub proof fn lemma_collected_external<T>(g: Seq<Allocation<T>>, g2: Seq<Allocation<T>>, v: usize)
    requires
        well_formed(g),
        collected(g, g2),
        v < g.len(),
        !garbage(g).contains(v),
    ensures
        external(g2, v) == external(g, v),
{
    let adj = adjacency(g);
    let adj2 = adjacency(g2);
    let gone = garbage(g);
    assert forall|u: usize| u < adj.len() implies (#[trigger] adj2[u as int]) == if gone.contains(
        u,
    ) {
        Seq::<usize>::empty()
    } else {
        adj[u as int]
    } by {
        assert(is_destroyed(g2[u as int]) || g2[u as int].edges == g[u as int].edges);
        if gone.contains(u) {
            assert(adj2[u as int] =~= Seq::<usize>::empty());
        }
    }
    lemma_in_degree_after_clearing(adj, adj2, gone, v);
    assert(g2[v as int].strong_count == g[v as int].strong_count - in_count(adj, gone, v));
}

/// An allocation is destroyed once: what was destroyed before a pass is
/// neither destroyed again nor brought back by it.
pub proof fn lemma_collected_once<T>(g: Seq<Allocation<T>>, g2: Seq<Allocation<T>>, v: usize)
    requires
        well_formed(g),
        collected(g, g2),
        v < g.len(),
        !g[v as int].is_live(),
    ensures
        !garbage(g).contains(v),
        g2[v as int] == g[v as int],
{
    lemma_traced_facts(g, v);
    assert(node_ok(g, v as int));
    lemma_in_count_mono(adjacency(g), garbage(g), traced(g), v, adjacency(g).len());
}

/// With no candidate root buffered, a pass has nothing to trace.
pub proof fn lemma_nothing_buffered_nothing_traced<T>(g: Seq<Allocation<T>>)
    requires
        buffered(g) =~= Set::<usize>::empty(),
    ensures
        traced(g) =~= Set::<usize>::empty(),
        garbage(g) =~= Set::<usize>::empty(),
        traced(g).len() == 0,
        garbage(g).len() == 0,
{
    let adj = adjacency(g);
    let none = Set::<usize>::empty();
    assert(crate::graph::closed_under_edges(adj, none));
    assert forall|v: usize| !traced(g).contains(v) by {
        if reachable(adj, buffered(g), v) {
            lemma_reach_closed(adj, buffered(g), none, v);
        }
    }
    assert(traced(g) =~= none);
    assert(garbage(g) =~= none);
}

/// With no candidate root buffered, a pass changes nothing.
pub proof fn lemma_collect_nothing_buffered<T>(g: Seq<Allocation<T>>, g2: Seq<Allocation<T>>)
    requires
        well_formed(g),
        buffered(g) =~= Set::<usize>::empty(),
        collected(g, g2),
    ensures
        traced(g) =~= Set::<usize>::empty(),
        g2 == g,
{
    let adj = adjacency(g);
    lemma_nothing_buffered_nothing_traced(g);
    assert forall|v: int| 0 <= v < g.len() implies g2[v] == g[v] by {
        let vu = v as usize;
        lemma_in_count_empty(adj, vu, adj.len());
        assert(!buffered(g).contains(vu));
        assert(g2[vu as int] == g[vu as int]);
    }
    assert(g2 =~= g);
}

/// A pass that follows a pass, with nothing given back in between, changes nothing.
pub proof fn lemma_collect_twice<T>(
    g: Seq<Allocation<T>>,
    g2: Seq<Allocation<T>>,
    g3: Seq<Allocation<T>>,
)
    requires
        well_formed(g),
        well_formed(g2),
        collected(g, g2),
        collected(g2, g3),
    ensures
        g3 == g2,
{
    assert forall|v: usize| !buffered(g2).contains(v) by {
        if v < g2.len() {
            assert(is_destroyed(g2[v as int]) || !g2[v as int].buffered);
        }
    }
    assert(buffered(g2) =~= Set::<usize>::empty());
    lemma_collect_nothing_buffered(g2, g3);
}

// ---------------------------------------------------------------------------
// Identity of handles
// ---------------------------------------------------------------------------
/// Identity of handles is an equivalence, all dead handles are identical
/// whatever metadata they carry, and a dead handle is identical to no live one.
pub proof fn lemma_ptr_eq(a: Gc, b: Gc, c: Gc)
    ensures
        a.spec_ptr_eq(a),
        a.spec_ptr_eq(b) == b.spec_ptr_eq(a),
        a.spec_ptr_eq(b) && b.spec_ptr_eq(c) ==> a.spec_ptr_eq(c),
        a.target() is None && b.target() is None ==> a.spec_ptr_eq(b),
        a.target() is None && b.target() is Some ==> !a.spec_ptr_eq(b),
{
}

/// Handles to different allocations are not identical, whatever the
/// allocations hold; handles to the same allocation are.
pub proof fn lemma_ptr_eq_live(a: Gc, b: Gc)
    requires
        a.target() is Some,
        b.target() is Some,
    ensures
        a.spec_ptr_eq(b) == (a.target().unwrap() == b.target().unwrap()),
{
}

// ---------------------------------------------------------------------------
// Handles stay good
// ---------------------------------------------------------------------------
/// Giving back one handle leaves every other handle that the heap counted
/// as good as it was: its allocation is alive and still counts it.
pub proof fn lemma_dropped_keeps_handles<T>(
    g: Seq<Allocation<T>>,
    gc: Gc,
    order: Seq<usize>,
    g2: Seq<Allocation<T>>,
    other: Gc,
)
    requires
        well_formed(g),
        holds(g, gc),
        gc.target() is Some,
        dropped(g, gc.target().unwrap(), order, g2),
        holds(g, other),
        other.target() == gc.target() ==> external(g, gc.target().unwrap()) >= 2,
    ensures
        holds(g2, other),
{
    if other.target() is Some {
        let v = other.target().unwrap();
        if order.contains(v) {
            let i = choose|i: int| 0 <= i < order.len() && order[i] == v;
            lemma_dropped_unheld(g, gc, order, g2, i);
        }
        lemma_dropped_external(g, gc.target().unwrap(), order, g2, v);
    }
}

/// A pass leaves every handle that the heap counted as good as it was: a
/// pass never destroys an allocation that a handle outside the heap names.
pub proof fn lemma_collected_keeps_handles<T>(
    g: Seq<Allocation<T>>,
    g2: Seq<Allocation<T>>,
    other: Gc,
)
    requires
        well_formed(g),
        collected(g, g2),
        holds(g, other),
    ensures
        holds(g2, other),
{
    if other.target() is Some {
        let v = other.target().unwrap();
        lemma_reach_source(adjacency(g), set![v], v);
        lemma_collect_spares_held(g, v, v);
        lemma_collected_external(g, g2, v);
    }
}

} // verus!
