//! The reference graph as mathematics: who points at whom, how often, and
//! what can be reached from where.
//!
//! A graph is an adjacency list `Seq<Seq<usize>>`: entry `u` lists the
//! allocations that allocation `u` holds a handle to, once per handle.

use vstd::prelude::*;

verus! {

/// How many handles to `v` the edge list `edges` holds.
pub open spec fn count_in(edges: Seq<usize>, v: usize) -> nat {
    edges.to_multiset().count(v)
}

/// How many handles to `v` are held by the allocations below `n` that belong to `from`.
pub open spec fn in_count_upto(adj: Seq<Seq<usize>>, from: Set<usize>, v: usize, n: nat) -> nat
    decreases n,
{
    if n == 0 {
        0
    } else {
        let u = (n - 1) as nat;
        in_count_upto(adj, from, v, u) + if from.contains(u as usize) && u < adj.len() {
            count_in(adj[u as int], v)
        } else {
            0
        }
    }
}

/// How many handles to `v` are held by the allocations in `from`.
pub open spec fn in_count(adj: Seq<Seq<usize>>, from: Set<usize>, v: usize) -> nat {
    in_count_upto(adj, from, v, adj.len())
}

/// How many handles to `v` are held inside the heap at all.
pub open spec fn in_degree(adj: Seq<Seq<usize>>, v: usize) -> nat {
    in_count(adj, Set::full(), v)
}

/// The allocations that some member of `set` holds a handle to.
pub open spec fn successors(adj: Seq<Seq<usize>>, set: Set<usize>) -> Set<usize> {
    Set::new(
        |v: usize|
            exists|u: usize| u < adj.len() && #[trigger] set.contains(u) && adj[u as int].contains(v),
    )
}

/// What can be reached from a member of `from` along at most `k` handles.
pub open spec fn reach_level(adj: Seq<Seq<usize>>, from: Set<usize>, k: nat) -> Set<usize>
    decreases k,
{
    if k == 0 {
        from.intersect(below(adj.len()))
    } else {
        let before = reach_level(adj, from, (k - 1) as nat);
        before.union(successors(adj, before))
    }
}

/// `v` can be reached from a member of `from` along at most `k` handles.
pub open spec fn reach_within(adj: Seq<Seq<usize>>, from: Set<usize>, v: usize, k: nat) -> bool {
    reach_level(adj, from, k).contains(v)
}

/// `v` can be reached from a member of `from` by following handles.
pub open spec fn reachable(adj: Seq<Seq<usize>>, from: Set<usize>, v: usize) -> bool {
    exists|k: nat| reach_within(adj, from, v, k)
}

/// Everything that can be reached from `from`.
pub open spec fn reach_set(adj: Seq<Seq<usize>>, from: Set<usize>) -> Set<usize> {
    Set::new(|v: usize| reachable(adj, from, v))
}

/// Every handle held in the graph names an allocation of the graph.
pub open spec fn targets_in_range(adj: Seq<Seq<usize>>) -> bool {
    forall|u: int, k: int|
        0 <= u < adj.len() && 0 <= k < adj[u].len() ==> (#[trigger] adj[u][k]) < adj.len()
}

/// `set` contains the successors of each of its members.
pub open spec fn closed_under_edges(adj: Seq<Seq<usize>>, set: Set<usize>) -> bool {
    forall|u: usize, k: int|
        set.contains(u) && u < adj.len() && 0 <= k < adj[u as int].len() ==> set.contains(
            #[trigger] adj[u as int][k],
        )
}

/// The allocations with an index below `n`.
pub open spec fn below(n: nat) -> Set<usize> {
    Set::new(|v: usize| v < n)
}

// ---------------------------------------------------------------------------
// Counting handles
// ---------------------------------------------------------------------------
/// One more handle in a list counts for the allocation it names.
pub proof fn lemma_count_in_push(edges: Seq<usize>, c: usize, v: usize)
    ensures
        count_in(edges.push(c), v) == count_in(edges, v) + if c == v {
            1nat
        } else {
            0nat
        },
{
    vstd::seq_lib::to_multiset_build(edges, c);
}

/// The handles before position `k + 1` are those before `k` and the `k`-th.
pub proof fn lemma_count_in_take(edges: Seq<usize>, k: int, v: usize)
    requires
        0 <= k < edges.len(),
    ensures
        count_in(edges.take(k + 1), v) == count_in(edges.take(k), v) + if edges[k] == v {
            1nat
        } else {
            0nat
        },
{
    assert(edges.take(k + 1) =~= edges.take(k).push(edges[k]));
    lemma_count_in_push(edges.take(k), edges[k], v);
}

/// The first handles of a list are no more than all of them.
pub proof fn lemma_count_in_prefix(edges: Seq<usize>, k: int, v: usize)
    requires
        0 <= k <= edges.len(),
    ensures
        count_in(edges.take(k), v) <= count_in(edges, v),
    decreases edges.len() - k,
{
    if k == edges.len() {
        assert(edges.take(k) =~= edges);
    } else {
        lemma_count_in_take(edges, k, v);
        lemma_count_in_prefix(edges, k + 1, v);
    }
}

/// An empty list holds no handle.
pub proof fn lemma_count_in_empty(v: usize)
    ensures
        count_in(Seq::<usize>::empty(), v) == 0,
{
    Seq::<usize>::empty().to_multiset_ensures();
    assert(Seq::<usize>::empty().to_multiset().len() == 0);
    if Seq::<usize>::empty().to_multiset().count(v) > 0 {
        assert(Seq::<usize>::empty().contains(v));
    }
}

/// A list holds a handle to `v` exactly if `v` occurs in it.
pub proof fn lemma_count_in_contains(edges: Seq<usize>, v: usize)
    ensures
        edges.contains(v) <==> count_in(edges, v) > 0,
{
    edges.to_multiset_ensures();
}

/// Taking the `k`-th handle out of a list takes one handle from the
/// allocation it names.
pub proof fn lemma_count_in_remove(edges: Seq<usize>, k: int, v: usize)
    requires
        0 <= k < edges.len(),
    ensures
        count_in(edges.remove(k), v) + (if edges[k] == v {
            1nat
        } else {
            0nat
        }) == count_in(edges, v),
{
    vstd::seq_lib::to_multiset_remove(edges, k);
    edges.to_multiset_ensures();
    assert(edges.contains(edges[k]));
}

/// No allocations hold no handles.
pub proof fn lemma_in_count_empty(adj: Seq<Seq<usize>>, v: usize, n: nat)
    ensures
        in_count_upto(adj, Set::empty(), v, n) == 0,
    decreases n,
{
    if n > 0 {
        lemma_in_count_empty(adj, v, (n - 1) as nat);
    }
}

/// Counting from one allocation alone gives what that allocation holds.
pub proof fn lemma_in_count_single(adj: Seq<Seq<usize>>, u: usize, v: usize, n: nat)
    requires
        n <= adj.len() <= usize::MAX,
    ensures
        in_count_upto(adj, set![u], v, n) == if u < n {
            count_in(adj[u as int], v)
        } else {
            0
        },
    decreases n,
{
    if n > 0 {
        lemma_in_count_single(adj, u, v, (n - 1) as nat);
    }
}

/// Counting from two disjoint sets adds up.
pub proof fn lemma_in_count_split(
    adj: Seq<Seq<usize>>,
    a: Set<usize>,
    b: Set<usize>,
    v: usize,
    n: nat,
)
    requires
        a.disjoint(b),
    ensures
        in_count_upto(adj, a.union(b), v, n) == in_count_upto(adj, a, v, n) + in_count_upto(
            adj,
            b,
            v,
            n,
        ),
    decreases n,
{
    if n > 0 {
        lemma_in_count_split(adj, a, b, v, (n - 1) as nat);
    }
}

/// Adding one allocation to the counted set adds what it holds.
pub proof fn lemma_in_count_insert(adj: Seq<Seq<usize>>, from: Set<usize>, u: usize, v: usize)
    requires
        adj.len() <= usize::MAX,
        !from.contains(u),
    ensures
        in_count(adj, from.insert(u), v) == in_count(adj, from, v) + if u < adj.len() {
            count_in(adj[u as int], v)
        } else {
            0
        },
{
    lemma_in_count_split(adj, from, set![u], v, adj.len());
    lemma_in_count_single(adj, u, v, adj.len());
    assert(from.union(set![u]) =~= from.insert(u));
}

/// A larger set holds at least as many handles.
pub proof fn lemma_in_count_mono(
    adj: Seq<Seq<usize>>,
    a: Set<usize>,
    b: Set<usize>,
    v: usize,
    n: nat,
)
    requires
        a.subset_of(b),
    ensures
        in_count_upto(adj, a, v, n) <= in_count_upto(adj, b, v, n),
    decreases n,
{
    if n > 0 {
        lemma_in_count_mono(adj, a, b, v, (n - 1) as nat);
    }
}

/// Two graphs whose counted allocations hold the same number of handles to `v` count alike.
pub proof fn lemma_in_count_same(
    adj1: Seq<Seq<usize>>,
    adj2: Seq<Seq<usize>>,
    from: Set<usize>,
    v: usize,
    n: nat,
)
    requires
        n <= adj1.len(),
        n <= adj2.len(),
        n <= usize::MAX,
        forall|u: usize|
            u < n && from.contains(u) ==> count_in(#[trigger] adj1[u as int], v) == count_in(
                adj2[u as int],
                v,
            ),
    ensures
        in_count_upto(adj1, from, v, n) == in_count_upto(adj2, from, v, n),
    decreases n,
{
    if n > 0 {
        lemma_in_count_same(adj1, adj2, from, v, (n - 1) as nat);
        let u = ((n - 1) as nat) as usize;
        if from.contains(u) {
            assert(count_in(adj1[u as int], v) == count_in(adj2[u as int], v));
        }
    }
}

/// Allocations that hold no handle to `v` contribute nothing.
pub proof fn lemma_in_count_none(adj: Seq<Seq<usize>>, from: Set<usize>, v: usize, n: nat)
    requires
        n <= adj.len() <= usize::MAX,
        forall|u: usize|
            u < n && from.contains(u) ==> count_in(#[trigger] adj[u as int], v) == 0,
    ensures
        in_count_upto(adj, from, v, n) == 0,
    decreases n,
{
    if n > 0 {
        lemma_in_count_none(adj, from, v, (n - 1) as nat);
        let u = ((n - 1) as nat) as usize;
        if from.contains(u) {
            assert(count_in(adj[u as int], v) == 0);
        }
    }
}

/// A counted allocation that holds a handle to `v` makes the count positive.
pub proof fn lemma_in_count_bound(
    adj: Seq<Seq<usize>>,
    from: Set<usize>,
    u: usize,
    v: usize,
    n: nat,
)
    requires
        n <= adj.len() <= usize::MAX,
        u < n,
        from.contains(u),
    ensures
        count_in(adj[u as int], v) <= in_count_upto(adj, from, v, n),
{
    lemma_in_count_single(adj, u, v, n);
    lemma_in_count_mono(adj, set![u], from, v, n);
}

/// A positive count has a source: some counted allocation holds a handle to `v`.
pub proof fn lemma_in_count_witness(adj: Seq<Seq<usize>>, from: Set<usize>, v: usize, n: nat) -> (u:
    usize)
    requires
        n <= adj.len() <= usize::MAX,
        in_count_upto(adj, from, v, n) > 0,
    ensures
        u < n,
        from.contains(u),
        adj[u as int].contains(v),
    decreases n,
{
    let last = ((n - 1) as nat) as usize;
    if from.contains(last) && count_in(adj[last as int], v) > 0 {
        lemma_count_in_contains(adj[last as int], v);
        last
    } else {
        lemma_in_count_witness(adj, from, v, (n - 1) as nat)
    }
}

/// An allocation outside a set that is closed under edges is held by no
/// allocation of the set.
pub proof fn lemma_in_count_closed(adj: Seq<Seq<usize>>, set: Set<usize>, v: usize)
    requires
        adj.len() <= usize::MAX,
        closed_under_edges(adj, set),
        !set.contains(v),
    ensures
        in_count(adj, set, v) == 0,
{
    if in_count(adj, set, v) > 0 {
        let u = lemma_in_count_witness(adj, set, v, adj.len());
        let k = choose|k: int| 0 <= k < adj[u as int].len() && adj[u as int][k] == v;
        assert(set.contains(adj[u as int][k]));
    }
}

/// The `k`-th handle of `u` is one handle to its target that neither the
/// handles of `set`, to which `u` does not belong, nor the handles of `u`
/// before it account for: any set that holds `set` and `u` counts it on top.
pub proof fn lemma_edge_counted_in(
    adj: Seq<Seq<usize>>,
    all: Set<usize>,
    set: Set<usize>,
    u: usize,
    k: int,
)
    requires
        adj.len() <= usize::MAX,
        u < adj.len(),
        !set.contains(u),
        set.subset_of(all),
        all.contains(u),
        0 <= k < adj[u as int].len(),
    ensures
        in_count(adj, all, adj[u as int][k]) >= in_count(adj, set, adj[u as int][k]) + count_in(
            adj[u as int].take(k),
            adj[u as int][k],
        ) + 1,
{
    let c = adj[u as int][k];
    lemma_in_count_insert(adj, set, u, c);
    lemma_in_count_mono(adj, set.insert(u), all, c, adj.len());
    lemma_count_in_take(adj[u as int], k, c);
    lemma_count_in_prefix(adj[u as int], k + 1, c);
}

/// The same, against all the handles held inside the heap.
pub proof fn lemma_edge_counted(adj: Seq<Seq<usize>>, set: Set<usize>, u: usize, k: int)
    requires
        adj.len() <= usize::MAX,
        u < adj.len(),
        !set.contains(u),
        0 <= k < adj[u as int].len(),
    ensures
        in_degree(adj, adj[u as int][k]) >= in_count(adj, set, adj[u as int][k]) + count_in(
            adj[u as int].take(k),
            adj[u as int][k],
        ) + 1,
{
    lemma_edge_counted_in(adj, Set::full(), set, u, k);
}

/// Counting over more of the graph counts no less.
pub proof fn lemma_in_count_upto_mono(
    adj: Seq<Seq<usize>>,
    from: Set<usize>,
    v: usize,
    a: nat,
    b: nat,
)
    requires
        a <= b,
    ensures
        in_count_upto(adj, from, v, a) <= in_count_upto(adj, from, v, b),
    decreases b,
{
    if a < b {
        lemma_in_count_upto_mono(adj, from, v, a, (b - 1) as nat);
    }
}

// ---------------------------------------------------------------------------
// Reachability
// ---------------------------------------------------------------------------
/// A source that is an allocation of the graph is reachable.
pub proof fn lemma_reach_source(adj: Seq<Seq<usize>>, from: Set<usize>, v: usize)
    requires
        from.contains(v),
        v < adj.len(),
    ensures
        reachable(adj, from, v),
{
    assert(reach_within(adj, from, v, 0));
}

/// What a reachable allocation holds a handle to is reachable.
pub proof fn lemma_reach_step(adj: Seq<Seq<usize>>, from: Set<usize>, u: usize, v: usize)
    requires
        reachable(adj, from, u),
        u < adj.len(),
        adj[u as int].contains(v),
    ensures
        reachable(adj, from, v),
{
    let k = choose|k: nat| reach_within(adj, from, u, k);
    let k1 = (k + 1) as nat;
    assert((k1 - 1) as nat == k);
    assert(reach_level(adj, from, k).contains(u));
    assert(successors(adj, reach_level(adj, from, k)).contains(v));
    assert(reach_within(adj, from, v, k1));
}

/// A set that holds the sources and is closed under edges holds what can be
/// reached along at most `k` handles.
pub proof fn lemma_reach_within_closed(
    adj: Seq<Seq<usize>>,
    from: Set<usize>,
    set: Set<usize>,
    v: usize,
    k: nat,
)
    requires
        forall|s: usize| from.contains(s) && s < adj.len() ==> set.contains(s),
        closed_under_edges(adj, set),
        reach_within(adj, from, v, k),
    ensures
        set.contains(v),
    decreases k,
{
    if k > 0 {
        let before = reach_level(adj, from, (k - 1) as nat);
        if before.contains(v) {
            lemma_reach_within_closed(adj, from, set, v, (k - 1) as nat);
        } else {
            assert(successors(adj, before).contains(v));
            let u = choose|u: usize|
                u < adj.len() && #[trigger] before.contains(u) && adj[u as int].contains(v);
            lemma_reach_within_closed(adj, from, set, u, (k - 1) as nat);
            let j = choose|j: int| 0 <= j < adj[u as int].len() && adj[u as int][j] == v;
            assert(set.contains(adj[u as int][j]));
        }
    }
}

/// The same, for all that is reachable.
pub proof fn lemma_reach_closed(
    adj: Seq<Seq<usize>>,
    from: Set<usize>,
    set: Set<usize>,
    v: usize,
)
    requires
        forall|s: usize| from.contains(s) && s < adj.len() ==> set.contains(s),
        closed_under_edges(adj, set),
        reachable(adj, from, v),
    ensures
        set.contains(v),
{
    let k = choose|k: nat| reach_within(adj, from, v, k);
    lemma_reach_within_closed(adj, from, set, v, k);
}

/// What is reachable from `from` is itself closed under edges.
pub proof fn lemma_reach_set_closed(adj: Seq<Seq<usize>>, from: Set<usize>)
    ensures
        closed_under_edges(adj, reach_set(adj, from)),
{
    assert forall|u: usize, k: int|
        reach_set(adj, from).contains(u) && u < adj.len() && 0 <= k < adj[u as int].len()
        implies reach_set(adj, from).contains(#[trigger] adj[u as int][k]) by {
        assert(adj[u as int].contains(adj[u as int][k]));
        lemma_reach_step(adj, from, u, adj[u as int][k]);
    }
}

/// Whatever is reachable lies in the graph.
pub proof fn lemma_reach_in_range(adj: Seq<Seq<usize>>, from: Set<usize>, v: usize)
    requires
        targets_in_range(adj),
        reachable(adj, from, v),
    ensures
        v < adj.len(),
{
    let inside = below(adj.len());
    assert(closed_under_edges(adj, inside));
    lemma_reach_closed(adj, from, inside, v);
}

/// Reaching from sources that are themselves reachable reaches nothing new.
pub proof fn lemma_reach_trans(
    adj: Seq<Seq<usize>>,
    from: Set<usize>,
    via: Set<usize>,
    v: usize,
)
    requires
        forall|s: usize| via.contains(s) && s < adj.len() ==> reachable(adj, from, s),
        reachable(adj, via, v),
    ensures
        reachable(adj, from, v),
{
    lemma_reach_set_closed(adj, from);
    lemma_reach_closed(adj, via, reach_set(adj, from), v);
}

/// What is reachable but is no source has a reachable predecessor.
pub proof fn lemma_reach_pred(adj: Seq<Seq<usize>>, from: Set<usize>, v: usize, k: nat) -> (u: usize)
    requires
        reach_within(adj, from, v, k),
        !from.contains(v),
    ensures
        u < adj.len(),
        reachable(adj, from, u),
        adj[u as int].contains(v),
    decreases k,
{
    let before = reach_level(adj, from, (k - 1) as nat);
    if before.contains(v) {
        lemma_reach_pred(adj, from, v, (k - 1) as nat)
    } else {
        assert(successors(adj, before).contains(v));
        let u = choose|u: usize|
            u < adj.len() && #[trigger] before.contains(u) && adj[u as int].contains(v);
        assert(reach_within(adj, from, u, (k - 1) as nat));
        u
    }
}

/// From one graph to another, reachability carries over to the allocations
/// of `ok`, if every source in `ok` can still be reached, and every handle
/// to an allocation of `ok` is either still there, in an owner of `ok`, or
/// names an allocation that can be reached in the new graph all the same.
pub proof fn lemma_reach_carries(
    adj: Seq<Seq<usize>>,
    from: Set<usize>,
    adj2: Seq<Seq<usize>>,
    from2: Set<usize>,
    ok: Set<usize>,
    v: usize,
    k: nat,
)
    requires
        adj2.len() >= adj.len(),
        forall|a: usize|
            from.contains(a) && a < adj.len() && ok.contains(a) ==> #[trigger] reachable(
                adj2,
                from2,
                a,
            ),
        forall|p: usize, j: int|
            p < adj.len() && 0 <= j < adj[p as int].len() && ok.contains(
                #[trigger] adj[p as int][j],
            ) ==> (ok.contains(p) && adj2[p as int].contains(adj[p as int][j])) || reachable(
                adj2,
                from2,
                adj[p as int][j],
            ),
        reach_within(adj, from, v, k),
        ok.contains(v),
    ensures
        reachable(adj2, from2, v),
    decreases k,
{
    if k > 0 {
        let before = reach_level(adj, from, (k - 1) as nat);
        if before.contains(v) {
            lemma_reach_carries(adj, from, adj2, from2, ok, v, (k - 1) as nat);
        } else {
            assert(successors(adj, before).contains(v));
            let p = choose|p: usize|
                p < adj.len() && #[trigger] before.contains(p) && adj[p as int].contains(v);
            let j = choose|j: int| 0 <= j < adj[p as int].len() && adj[p as int][j] == v;
            assert(ok.contains(adj[p as int][j]));
            if ok.contains(p) && adj2[p as int].contains(adj[p as int][j]) {
                lemma_reach_carries(adj, from, adj2, from2, ok, p, (k - 1) as nat);
                lemma_reach_step(adj2, from2, p, v);
            }
        }
    }
}

/// Within a set that is closed under edges, and on which two graphs agree,
/// what can be reached from sources of the set in one graph can be reached
/// in the other, and lies in the set.
pub proof fn lemma_reach_inside(
    adj: Seq<Seq<usize>>,
    adj2: Seq<Seq<usize>>,
    from: Set<usize>,
    inside: Set<usize>,
    v: usize,
    k: nat,
)
    requires
        adj2.len() == adj.len(),
        closed_under_edges(adj, inside),
        forall|a: usize| from.contains(a) && a < adj.len() ==> inside.contains(a),
        forall|u: usize|
            inside.contains(u) && u < adj.len() ==> (#[trigger] adj2[u as int]) == adj[u as int],
        reach_within(adj, from, v, k),
    ensures
        inside.contains(v),
        reachable(adj2, from, v),
    decreases k,
{
    if k == 0 {
        lemma_reach_source(adj2, from, v);
    } else {
        let before = reach_level(adj, from, (k - 1) as nat);
        if before.contains(v) {
            lemma_reach_inside(adj, adj2, from, inside, v, (k - 1) as nat);
        } else {
            assert(successors(adj, before).contains(v));
            let p = choose|p: usize|
                p < adj.len() && #[trigger] before.contains(p) && adj[p as int].contains(v);
            lemma_reach_inside(adj, adj2, from, inside, p, (k - 1) as nat);
            let j = choose|j: int| 0 <= j < adj[p as int].len() && adj[p as int][j] == v;
            assert(inside.contains(adj[p as int][j]));
            assert(adj2[p as int] == adj[p as int]);
            lemma_reach_step(adj2, from, p, v);
        }
    }
}

/// More sources reach no less.
pub proof fn lemma_reach_more_sources(
    adj: Seq<Seq<usize>>,
    from: Set<usize>,
    from2: Set<usize>,
    v: usize,
)
    requires
        from.subset_of(from2),
        reachable(adj, from, v),
    ensures
        reachable(adj, from2, v),
{
    assert forall|s: usize| from.contains(s) && s < adj.len() implies reachable(adj, from2, s) by {
        lemma_reach_source(adj, from2, s);
    }
    lemma_reach_trans(adj, from2, from, v);
}

// ---------------------------------------------------------------------------
// Finite sets of allocations
// ---------------------------------------------------------------------------
/// There are exactly `n` allocations below `n`.
pub proof fn lemma_below_len(n: nat)
    requires
        n <= usize::MAX,
    ensures
        below(n).finite(),
        below(n).len() == n,
    decreases n,
{
    if n == 0 {
        assert(below(0) =~= Set::<usize>::empty());
    } else {
        lemma_below_len((n - 1) as nat);
        let last = ((n - 1) as nat) as usize;
        assert(below(n) =~= below((n - 1) as nat).insert(last));
    }
}

/// A list of distinct allocations of a graph is no longer than the graph.
pub proof fn lemma_distinct_len(order: Seq<usize>, n: nat)
    requires
        n <= usize::MAX,
        order.no_duplicates(),
        forall|i: int| 0 <= i < order.len() ==> order[i] < n,
    ensures
        order.len() <= n,
        order.to_set().finite(),
        order.to_set().len() == order.len(),
{
    order.unique_seq_to_set();
    lemma_below_len(n);
    assert(order.to_set().subset_of(below(n)));
    vstd::set_lib::lemma_len_subset(order.to_set(), below(n));
}

/// Appending an allocation to a list adds it to the set of the listed.
pub proof fn lemma_push_to_set(order: Seq<usize>, u: usize)
    ensures
        order.push(u).to_set() == order.to_set().insert(u),
{
    let longer = order.push(u);
    assert forall|w: usize| longer.to_set().contains(w) <==> order.to_set().insert(u).contains(
        w,
    ) by {
        if longer.contains(w) {
            let j = choose|j: int| 0 <= j < longer.len() && longer[j] == w;
            if j < order.len() {
                assert(order[j] == w);
            }
        }
        if order.contains(w) {
            let j = choose|j: int| 0 <= j < order.len() && order[j] == w;
            assert(longer[j] == w);
        }
        if w == u {
            assert(longer[order.len() as int] == u);
        }
    }
    assert(longer.to_set() =~= order.to_set().insert(u));
}

/// The allocations listed before position `i` are among the listed.
pub proof fn lemma_take_to_set(order: Seq<usize>, i: int)
    requires
        0 <= i <= order.len(),
    ensures
        order.take(i).to_set().subset_of(order.to_set()),
        order.no_duplicates() && i < order.len() ==> !order.take(i).to_set().contains(order[i]),
{
    assert forall|w: usize| order.take(i).to_set().contains(w) implies order.to_set().contains(
        w,
    ) by {
        let j = choose|j: int| 0 <= j < order.take(i).len() && order.take(i)[j] == w;
        assert(order[j] == w);
    }
    if order.no_duplicates() && i < order.len() && order.take(i).to_set().contains(order[i]) {
        let j = choose|j: int| 0 <= j < order.take(i).len() && order.take(i)[j] == order[i];
        assert(order[j] == order[i]);
    }
}

} // verus!
