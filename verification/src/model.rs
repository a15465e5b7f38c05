//! What a heap is, seen as a sequence of allocation records: its reference
//! graph, the handles held outside of it, and what makes it well formed.

use crate::allocation::{Allocation, Mark};
use crate::graph::{
    count_in, in_count, in_degree, lemma_count_in_contains, lemma_count_in_empty,
    lemma_in_count_insert, lemma_in_count_none, lemma_in_count_same, lemma_in_count_split,
    reach_set, targets_in_range,
};
use crate::handle::Gc;
use vstd::prelude::*;

verus! {

/// The reference graph of the records `g`.
pub open spec fn adjacency<T>(g: Seq<Allocation<T>>) -> Seq<Seq<usize>> {
    Seq::new(g.len(), |i: int| g[i].edges@)
}

/// The number of handles to `v` that are held outside the heap: its count
/// less the handles that payloads own.
pub open spec fn external<T>(g: Seq<Allocation<T>>, v: usize) -> int {
    g[v as int].strong_count - in_degree(adjacency(g), v)
}

/// The allocations that some handle outside the heap names.
pub open spec fn held<T>(g: Seq<Allocation<T>>) -> Set<usize> {
    Set::new(|v: usize| v < g.len() && external(g, v) > 0)
}

/// The allocations queued for cycle analysis.
pub open spec fn buffered<T>(g: Seq<Allocation<T>>) -> Set<usize> {
    Set::new(|v: usize| v < g.len() && g[v as int].buffered)
}

/// The allocations whose payload has not been destroyed.
pub open spec fn live<T>(g: Seq<Allocation<T>>) -> Set<usize> {
    Set::new(|v: usize| v < g.len() && g[v as int].is_live())
}

/// What holds of each record between two operations of the heap.
pub open spec fn node_ok<T>(g: Seq<Allocation<T>>, v: int) -> bool {
    &&& g[v].is_live() == (g[v].strong_count > 0)
    &&& !g[v].is_live() ==> g[v].edges@.len() == 0 && !g[v].buffered
    &&& g[v].trial_count == 0
    &&& g[v].mark == Mark::Clear
    &&& g[v].strong_count >= in_degree(adjacency(g), v as usize)
}

/// The records `g` form a consistent heap: every handle a payload owns is
/// counted by the allocation it names, only destroyed allocations have a
/// count of zero, and the collector's scratch fields are clean.
pub open spec fn well_formed<T>(g: Seq<Allocation<T>>) -> bool {
    &&& g.len() <= usize::MAX
    &&& targets_in_range(adjacency(g))
    &&& forall|v: int| 0 <= v < g.len() ==> #[trigger] node_ok(g, v)
}

/// The handle `gc` names nothing, or a live allocation of the records `g`
/// whose metadata it carries. This is what holds of any handle that is
/// counted, wherever it is kept: outside the heap or inside a payload.
pub open spec fn names<T>(g: Seq<Allocation<T>>, gc: Gc) -> bool {
    match gc.target() {
        None => true,
        Some(s) => s < g.len() && g[s as int].is_live() && gc.spec_metadata() == g[s as int].meta,
    }
}

/// The handle `gc` is one of the handles that the records `g` count and
/// that are held outside the heap: it is dead, or it names a live allocation
/// that is held from outside the heap, and carries its metadata.
pub open spec fn holds<T>(g: Seq<Allocation<T>>, gc: Gc) -> bool {
    &&& names(g, gc)
    &&& gc.target() is Some ==> external(g, gc.target().unwrap()) >= 1
}

/// The record of an allocation that has been destroyed.
pub open spec fn is_destroyed<T>(rec: Allocation<T>) -> bool {
    &&& rec.payload is None
    &&& rec.strong_count == 0
    &&& rec.trial_count == 0
    &&& !rec.buffered
    &&& rec.mark == Mark::Clear
    &&& rec.edges@.len() == 0
}

/// The record of an allocation that was just made for `payload`, which
/// owns handles to the allocations in `edges`.
pub open spec fn is_fresh_with<T>(
    rec: Allocation<T>,
    payload: T,
    meta: usize,
    edges: Seq<usize>,
) -> bool {
    &&& rec.payload == Some(payload)
    &&& rec.strong_count == 1
    &&& rec.trial_count == 0
    &&& !rec.buffered
    &&& rec.mark == Mark::Clear
    &&& rec.edges@ == edges
    &&& rec.meta == meta
}

// ---------------------------------------------------------------------------
// How the graph follows the records
// ---------------------------------------------------------------------------
/// Replacing a record by one with the same edges leaves the graph as it was.
pub proof fn lemma_adjacency_keep<T>(g: Seq<Allocation<T>>, v: int, rec: Allocation<T>)
    requires
        0 <= v < g.len(),
        rec.edges@ == g[v].edges@,
    ensures
        adjacency(g.update(v, rec)) == adjacency(g),
{
    assert(adjacency(g.update(v, rec)) =~= adjacency(g));
}

/// Replacing a record changes the graph at that record only.
pub proof fn lemma_adjacency_update<T>(g: Seq<Allocation<T>>, v: int, rec: Allocation<T>)
    requires
        0 <= v < g.len(),
    ensures
        adjacency(g.update(v, rec)) == adjacency(g).update(v, rec.edges@),
{
    assert(adjacency(g.update(v, rec)) =~= adjacency(g).update(v, rec.edges@));
}

/// A new record extends the graph by its edges.
pub proof fn lemma_adjacency_push<T>(g: Seq<Allocation<T>>, rec: Allocation<T>)
    ensures
        adjacency(g.push(rec)) == adjacency(g).push(rec.edges@),
{
    assert(adjacency(g.push(rec)) =~= adjacency(g).push(rec.edges@));
}

/// A node without edges, added at the end, changes no count; and nothing
/// names the new node yet.
pub proof fn lemma_in_count_push_node(adj: Seq<Seq<usize>>, from: Set<usize>, v: usize)
    requires
        adj.len() < usize::MAX,
        targets_in_range(adj),
    ensures
        v < adj.len() ==> in_count(adj.push(Seq::empty()), from, v) == in_count(adj, from, v),
        v == adj.len() ==> in_count(adj.push(Seq::empty()), from, v) == 0,
{
    let adj2 = adj.push(Seq::empty());
    lemma_count_in_empty(v);
    assert forall|u: usize| u < adj.len() && from.contains(u) implies count_in(
        #[trigger] adj2[u as int],
        v,
    ) == count_in(adj[u as int], v) by {}
    lemma_in_count_same(adj2, adj, from, v, adj.len());
    if v == adj.len() {
        assert forall|u: usize| u < adj.len() && from.contains(u) implies count_in(
            #[trigger] adj[u as int],
            v,
        ) == 0 by {
            if count_in(adj[u as int], v) > 0 {
                lemma_count_in_contains(adj[u as int], v);
                let k = choose|k: int| 0 <= k < adj[u as int].len() && adj[u as int][k] == v;
                assert(adj[u as int][k] < adj.len());
            }
        }
        lemma_in_count_none(adj, from, v, adj.len());
    }
}

/// Changing the edges of one allocation changes a count by the difference
/// in what that allocation holds, if the allocation is counted at all.
pub proof fn lemma_in_count_update(
    adj: Seq<Seq<usize>>,
    from: Set<usize>,
    u: usize,
    edges: Seq<usize>,
    v: usize,
)
    requires
        adj.len() <= usize::MAX,
        u < adj.len(),
    ensures
        in_count(adj.update(u as int, edges), from, v) + (if from.contains(u) {
            count_in(adj[u as int], v)
        } else {
            0
        }) == in_count(adj, from, v) + (if from.contains(u) {
            count_in(edges, v)
        } else {
            0
        }),
{
    let adj2 = adj.update(u as int, edges);
    let rest = from.remove(u);
    let n = adj.len();
    assert forall|w: usize| w < n && rest.contains(w) implies count_in(
        #[trigger] adj2[w as int],
        v,
    ) == count_in(adj[w as int], v) by {}
    lemma_in_count_same(adj2, adj, rest, v, n);
    if from.contains(u) {
        assert(rest.insert(u) =~= from);
        lemma_in_count_insert(adj, rest, u, v);
        lemma_in_count_insert(adj2, rest, u, v);
    } else {
        assert(rest =~= from);
    }
}

/// The number of handles to `v` that go away when one handle to `x` held
/// outside the heap is given back and the allocations in `gone` are destroyed.
pub open spec fn handles_lost(adj: Seq<Seq<usize>>, gone: Set<usize>, x: usize, v: usize) -> nat {
    in_count(adj, gone, v) + if v == x {
        1nat
    } else {
        0nat
    }
}

/// The record of an allocation that lives on while `lost` of the handles to
/// it go away: the count drops by `lost`, and an allocation that lost a handle
/// is a candidate root.
pub open spec fn survivor<T>(rec: Allocation<T>, lost: nat) -> Allocation<T> {
    Allocation {
        strong_count: (rec.strong_count - lost) as usize,
        buffered: rec.buffered || lost > 0,
        ..rec
    }
}

/// Giving back one handle to `x` turns the records `g` into `g2`, destroying
/// the allocations of `order` in that order.
///
/// Each allocation of `order` was, when its turn came, held by nothing but
/// the handle given back and the handles of allocations destroyed before it.
/// Every other allocation keeps its payload and its edges, loses the handles
/// that the destroyed allocations held to it, and is still held by something
/// if it was alive.
pub open spec fn dropped<T>(
    g: Seq<Allocation<T>>,
    x: usize,
    order: Seq<usize>,
    g2: Seq<Allocation<T>>,
) -> bool {
    let adj = adjacency(g);
    &&& g2.len() == g.len()
    &&& order.no_duplicates()
    &&& forall|i: int|
        0 <= i < order.len() ==> {
            &&& (#[trigger] order[i]) < g.len()
            &&& g[order[i] as int].is_live()
            &&& g[order[i] as int].strong_count == handles_lost(
                adj,
                order.take(i).to_set(),
                x,
                order[i],
            )
        }
    &&& forall|v: usize|
        v < g.len() ==> if order.contains(v) {
            is_destroyed(#[trigger] g2[v as int]) && g2[v as int].meta == g[v as int].meta
        } else {
            &&& handles_lost(adj, order.to_set(), x, v) <= g[v as int].strong_count
            &&& g2[v as int] == survivor(g[v as int], handles_lost(adj, order.to_set(), x, v))
            &&& g[v as int].is_live() ==> g2[v as int].strong_count > 0
        }
}

/// Emptying the edge lists of the allocations in `gone` takes exactly their
/// handles out of every count.
pub proof fn lemma_in_degree_after_clearing(
    adj: Seq<Seq<usize>>,
    adj2: Seq<Seq<usize>>,
    gone: Set<usize>,
    v: usize,
)
    requires
        adj.len() <= usize::MAX,
        adj2.len() == adj.len(),
        forall|u: usize|
            u < adj.len() ==> (#[trigger] adj2[u as int]) == if gone.contains(u) {
                Seq::<usize>::empty()
            } else {
                adj[u as int]
            },
    ensures
        in_degree(adj2, v) + in_count(adj, gone, v) == in_degree(adj, v),
{
    let n = adj.len();
    let rest = Set::<usize>::full().difference(gone);
    let inside = Set::<usize>::full().intersect(gone);
    assert(inside =~= gone);
    assert(rest.union(gone) =~= Set::<usize>::full());
    lemma_in_count_split(adj, rest, gone, v, n);
    lemma_in_count_split(adj2, rest, gone, v, n);
    lemma_count_in_empty(v);
    assert forall|u: usize| u < n && gone.contains(u) implies count_in(
        #[trigger] adj2[u as int],
        v,
    ) == 0 by {}
    lemma_in_count_none(adj2, gone, v, n);
    assert forall|u: usize| u < n && rest.contains(u) implies count_in(
        #[trigger] adj2[u as int],
        v,
    ) == count_in(adj[u as int], v) by {}
    lemma_in_count_same(adj2, adj, rest, v, n);
}

/// The part of the heap that a collection pass looks at: what can be
/// reached from the candidate roots.
pub open spec fn traced<T>(g: Seq<Allocation<T>>) -> Set<usize> {
    reach_set(adjacency(g), buffered(g))
}

/// The traced allocations that are held from outside the traced part: by a
/// handle outside the heap, or by an allocation that the pass does not trace.
pub open spec fn anchored<T>(g: Seq<Allocation<T>>) -> Set<usize> {
    Set::new(
        |w: usize|
            traced(g).contains(w) && g[w as int].strong_count > in_count(
                adjacency(g),
                traced(g),
                w,
            ),
    )
}

/// The traced allocations that a pass keeps: what can be reached from an
/// anchored one.
pub open spec fn retained<T>(g: Seq<Allocation<T>>) -> Set<usize> {
    reach_set(adjacency(g), anchored(g))
}

/// The traced allocations that a pass destroys: those held only from within
/// the traced part and not reachable from an anchored one.
pub open spec fn garbage<T>(g: Seq<Allocation<T>>) -> Set<usize> {
    traced(g).difference(retained(g))
}

/// A collection pass turns the records `g` into `g2`: the garbage is
/// destroyed, every other allocation keeps its payload and its edges and
/// loses the handles that garbage held to it, and no candidate root is left.
pub open spec fn collected<T>(g: Seq<Allocation<T>>, g2: Seq<Allocation<T>>) -> bool {
    let adj = adjacency(g);
    &&& g2.len() == g.len()
    &&& forall|v: usize|
        v < g.len() ==> if garbage(g).contains(v) {
            is_destroyed(#[trigger] g2[v as int]) && g2[v as int].meta == g[v as int].meta
        } else {
            &&& in_count(adj, garbage(g), v) <= g[v as int].strong_count
            &&& g2[v as int] == (Allocation {
                strong_count: (g[v as int].strong_count - in_count(adj, garbage(g), v)) as usize,
                buffered: false,
                ..g[v as int]
            })
        }
}

/// A pass gave up: more allocations can be reached from the candidate roots
/// than one pass may trace. The heap is as it was, and the candidate roots
/// stay buffered for a later pass.
#[derive(Clone, Copy, Debug, PartialEq, Eq, Structural)]
pub struct Deferred;

/// What a pass that may trace `limit` allocations makes of the records `g`:
/// it collects and reports the number of allocations destroyed, if the traced
/// part is no larger than `limit`, and else gives up and changes nothing.
pub open spec fn pass_outcome<T>(
    g: Seq<Allocation<T>>,
    limit: usize,
    r: Result<usize, Deferred>,
    g2: Seq<Allocation<T>>,
) -> bool {
    match r {
        Ok(freed) => {
            &&& traced(g).len() <= limit
            &&& collected(g, g2)
            &&& freed == garbage(g).len()
        },
        Err(_) => {
            &&& traced(g).len() > limit
            &&& g2 == g
        },
    }
}

/// Giving back a handle that names `target` turns the records `g` into `g2`,
/// destroying the allocations of `order`: nothing at all for a dead handle.
pub open spec fn gave_back<T>(
    g: Seq<Allocation<T>>,
    target: Option<usize>,
    order: Seq<usize>,
    g2: Seq<Allocation<T>>,
) -> bool {
    match target {
        None => order.len() == 0 && g2 == g,
        Some(x) => dropped(g, x, order, g2),
    }
}

/// The handles `a` and `b` are two of the handles that the records `g`
/// count: each is counted, and where both name the same allocation, that
/// allocation is held at least twice from outside the heap.
pub open spec fn holds_both<T>(g: Seq<Allocation<T>>, a: Gc, b: Gc) -> bool {
    &&& holds(g, a)
    &&& holds(g, b)
    &&& a.target() is Some && a.target() == b.target() ==> external(g, a.target().unwrap()) >= 2
}

/// The allocations that `list` names are alive, and each is held from
/// outside the heap at least as often as `list` names it: the handles that
/// `list` stands for can all move into a payload.
pub open spec fn holds_all<T>(g: Seq<Allocation<T>>, list: Seq<usize>) -> bool {
    &&& forall|k: int|
        0 <= k < list.len() ==> (#[trigger] list[k]) < g.len() && g[list[k] as int].is_live()
    &&& forall|v: usize| v < g.len() ==> count_in(list, v) <= #[trigger] external(g, v)
}

/// From the records `g` to the records `g2`, no allocation has gone and none
/// has come back: whatever is alive in `g2` was alive in `g`, with the same
/// payload and metadata. An allocation is destroyed once and for all.
pub open spec fn nothing_returns<T>(g: Seq<Allocation<T>>, g2: Seq<Allocation<T>>) -> bool {
    &&& g2.len() >= g.len()
    &&& forall|v: int|
        0 <= v < g.len() && (#[trigger] g2[v]).is_live() ==> g2[v].payload == g[v].payload
            && g2[v].meta == g[v].meta
}

/// From the records `g` to the records `g2`, whatever is alive in `g2`
/// owns the handles it owned in `g`.
pub open spec fn keeps_edges<T>(g: Seq<Allocation<T>>, g2: Seq<Allocation<T>>) -> bool {
    forall|v: int|
        0 <= v < g.len() && v < g2.len() && (#[trigger] g2[v]).is_live() ==> g2[v].edges
            == g[v].edges
}

/// From the records `g` to the records `g2`, every handle that was counted
/// as held outside the heap still is, but perhaps for handles to `x`: those
/// still are if `x` was held at least twice.
pub open spec fn keeps_handles_but<T>(
    g: Seq<Allocation<T>>,
    g2: Seq<Allocation<T>>,
    x: Option<usize>,
) -> bool {
    forall|other: Gc|
        holds(g, other) && (x is Some && other.target() == x ==> external(g, x.unwrap()) >= 2)
            ==> #[trigger] holds(g2, other)
}

/// From the records `g` to the records `g2`, every handle that was counted
/// as held outside the heap still is: no such handle has lost its allocation.
pub open spec fn keeps_handles<T>(g: Seq<Allocation<T>>, g2: Seq<Allocation<T>>) -> bool {
    keeps_handles_but(g, g2, None)
}

/// From the records `g` to the records `g2`, the allocation `x`, if any,
/// lost `by` of the handles held to it outside the heap (or gained them, for
/// a negative `by`), and every other allocation that is alive in `g2` is
/// held by as many handles outside the heap as before.
pub open spec fn outside_handles_moved<T>(
    g: Seq<Allocation<T>>,
    g2: Seq<Allocation<T>>,
    x: Option<usize>,
    by: int,
) -> bool {
    forall|v: usize|
        v < g.len() && v < g2.len() && g2[v as int].is_live() ==> #[trigger] external(g2, v)
            == external(g, v) - if x == Some(v) {
            by
        } else {
            0
        }
}

/// A node added at the end, with the edges `edges`, adds what it holds to
/// each count that counts it; and nothing names the new node yet.
pub proof fn lemma_in_count_push_edges(
    adj: Seq<Seq<usize>>,
    from: Set<usize>,
    edges: Seq<usize>,
    v: usize,
)
    requires
        adj.len() < usize::MAX,
        targets_in_range(adj),
        forall|k: int| 0 <= k < edges.len() ==> edges[k] < adj.len(),
    ensures
        v < adj.len() ==> in_count(adj.push(edges), from, v) == in_count(adj, from, v) + if from.contains(
            adj.len() as usize,
        ) {
            count_in(edges, v)
        } else {
            0
        },
        v == adj.len() ==> in_count(adj.push(edges), from, v) == 0,
{
    let adj2 = adj.push(edges);
    assert forall|u: usize| u < adj.len() && from.contains(u) implies count_in(
        #[trigger] adj2[u as int],
        v,
    ) == count_in(adj[u as int], v) by {}
    lemma_in_count_same(adj2, adj, from, v, adj.len());
    if v == adj.len() {
        assert forall|u: usize| u < adj2.len() && from.contains(u) implies count_in(
            #[trigger] adj2[u as int],
            v,
        ) == 0 by {
            if count_in(adj2[u as int], v) > 0 {
                lemma_count_in_contains(adj2[u as int], v);
                let k = choose|k: int| 0 <= k < adj2[u as int].len() && adj2[u as int][k] == v;
                if u < adj.len() {
                    assert(adj[u as int][k] < adj.len());
                } else {
                    assert(edges[k] < adj.len());
                }
            }
        }
        lemma_in_count_none(adj2, from, v, adj2.len());
    }
}

// ---------------------------------------------------------------------------
// What the operations do
// ---------------------------------------------------------------------------
/// Making an allocation for `payload`, which owns handles to the
/// allocations in `edges`, turns the records `g` into `g2` and yields the
/// handle `gc`: a fresh record is added behind the others, which stay as
/// they are, and `gc` names it.
pub open spec fn allocated<T>(
    g: Seq<Allocation<T>>,
    payload: T,
    meta: usize,
    edges: Seq<usize>,
    gc: Gc,
    g2: Seq<Allocation<T>>,
) -> bool {
    &&& g2.len() == g.len() + 1
    &&& g2.drop_last() == g
    &&& is_fresh_with(g2.last(), payload, meta, edges)
    &&& gc.target() == Some(g.len() as usize)
    &&& gc.spec_metadata() == meta
}

/// Copying the handle `gc` turns the records `g` into `g2` and yields
/// `copy`: the copy names what `gc` names and carries the same metadata, and
/// the allocation named counts one handle more. Copying a dead handle
/// changes nothing.
pub open spec fn cloned<T>(g: Seq<Allocation<T>>, gc: Gc, copy: Gc, g2: Seq<Allocation<T>>) -> bool {
    &&& copy.target() == gc.target()
    &&& copy.spec_metadata() == gc.spec_metadata()
    &&& match gc.target() {
        None => g2 == g,
        Some(s) => g2 == g.update(s as int, g[s as int].incremented()),
    }
}

/// The records `g2` are the records `g` but for the handles that the payload
/// of `o` owns, which are `edges`.
pub open spec fn edges_replaced<T>(
    g: Seq<Allocation<T>>,
    o: usize,
    edges: Seq<usize>,
    g2: Seq<Allocation<T>>,
) -> bool {
    &&& g2.len() == g.len()
    &&& g2 == g.update(o as int, (Allocation { edges: g2[o as int].edges, ..g[o as int] }))
    &&& g2[o as int].edges@ == edges
}

/// Moving the handle `child` into the payload that `owner` names turns the
/// records `g` into `g2` with the result `r`: the payload owns the handle
/// behind those it owned before. A dead child is taken and changes nothing;
/// with a dead owner nothing changes and the child is handed back.
pub open spec fn linked<T>(
    g: Seq<Allocation<T>>,
    owner: Gc,
    child: Gc,
    r: Result<(), Gc>,
    g2: Seq<Allocation<T>>,
) -> bool {
    match (owner.target(), child.target()) {
        (None, _) => r == Err::<(), Gc>(child) && g2 == g,
        (Some(_), None) => r is Ok && g2 == g,
        (Some(o), Some(c)) => r is Ok && edges_replaced(g, o, g[o as int].edges@.push(c), g2),
    }
}

/// Moving the `k`-th handle out of the payload that `owner` names turns the
/// records `g` into `g2` with the result `r`: the payload owns the other
/// handles as before, and `r` names what the handle named. With a dead
/// owner, or one that owns no more than `k` handles, nothing changes and
/// there is no result.
pub open spec fn unlinked<T>(
    g: Seq<Allocation<T>>,
    owner: Gc,
    k: usize,
    r: Option<Gc>,
    g2: Seq<Allocation<T>>,
) -> bool {
    match owner.target() {
        Some(o) if k < g[o as int].edges@.len() => {
            &&& r is Some
            &&& r.unwrap().target() == Some(g[o as int].edges@[k as int])
            &&& edges_replaced(g, o, g[o as int].edges@.remove(k as int), g2)
        },
        _ => r is None && g2 == g,
    }
}

/// Giving back a handle that names `target`, and running a pass if that
/// left more than `threshold` candidate roots buffered, turns the records
/// `before` into `after` and gives `report`: the number of allocations that
/// giving the handle back destroyed and, if a pass ran, how it went.
pub open spec fn gave_back_collecting<T>(
    before: Seq<Allocation<T>>,
    target: Option<usize>,
    threshold: usize,
    limit: usize,
    report: (usize, Option<Result<usize, Deferred>>),
    after: Seq<Allocation<T>>,
) -> bool {
    exists|order: Seq<usize>, mid: Seq<Allocation<T>>|
        {
            &&& #[trigger] gave_back(before, target, order, mid)
            &&& order.len() == report.0
            &&& well_formed(mid)
            &&& if buffered(mid).len() > threshold {
                report.1 is Some && pass_outcome(mid, limit, report.1.unwrap(), after)
            } else {
                report.1 is None && after == mid
            }
        }
}

} // verus!
