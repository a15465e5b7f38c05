//! Nothing is forgotten: as long as every live allocation can be reached
//! from one that is held outside the heap or waits as a candidate root, no
//! operation of the heap loses track of an allocation, and a collection pass
//! leaves nothing alive but what handles outside the heap keep alive.

use crate::allocation::Allocation;
use crate::graph::{
    count_in, lemma_count_in_contains, lemma_in_count_bound, lemma_in_count_split,
    lemma_in_count_witness, lemma_reach_carries, lemma_reach_inside, lemma_reach_more_sources,
    lemma_reach_set_closed, lemma_reach_source, lemma_reach_step, lemma_reach_trans, reach_within,
    reachable,
};
use crate::handle::Gc;
use crate::heap::collect::lemma_traced_facts;
use crate::laws::{lemma_collected_external, lemma_dropped_external};
use crate::model::{
    adjacency, anchored, buffered, collected, dropped, external, garbage, handles_lost, held, holds,
    holds_both, is_destroyed, node_ok, retained, traced, well_formed,
};
use vstd::prelude::*;

verus! {

/// The allocations from which the heap keeps track of the others: those
/// held outside the heap and the candidate roots.
pub open spec fn roots<T>(g: Seq<Allocation<T>>) -> Set<usize> {
    held(g).union(buffered(g))
}

/// Every live allocation can be reached from a root: whatever is alive is
/// kept alive by a handle outside the heap, or will be looked at by the next
/// collection pass.
pub open spec fn rooted<T>(g: Seq<Allocation<T>>) -> bool {
    forall|v: usize|
        v < g.len() && g[v as int].is_live() ==> #[trigger] reachable(adjacency(g), roots(g), v)
}

/// Every live allocation can be reached from one that is held outside the
/// heap: the heap holds no garbage.
pub open spec fn all_held<T>(g: Seq<Allocation<T>>) -> bool {
    forall|v: usize|
        v < g.len() && g[v as int].is_live() ==> #[trigger] reachable(adjacency(g), held(g), v)
}

/// In a heap without garbage, an allocation is alive only as long as some
/// handle outside the heap keeps something alive: once the last such handle
/// is gone and a pass has run, nothing is left.
pub proof fn lemma_all_held_none_held<T>(g: Seq<Allocation<T>>)
    requires
        well_formed(g),
        all_held(g),
        forall|v: usize| v < g.len() && g[v as int].is_live() ==> external(g, v) == 0,
    ensures
        forall|v: int| 0 <= v < g.len() ==> !(#[trigger] g[v]).is_live(),
{
    let adj = adjacency(g);
    let none = Set::<usize>::empty();
    assert forall|v: usize| !held(g).contains(v) by {
        if v < g.len() {
            assert(node_ok(g, v as int));
        }
    }
    assert(crate::graph::closed_under_edges(adj, none));
    assert forall|v: int| 0 <= v < g.len() implies !(#[trigger] g[v]).is_live() by {
        if g[v].is_live() {
            assert(reachable(adj, held(g), v as usize));
            crate::graph::lemma_reach_closed(adj, held(g), none, v as usize);
        }
    }
}

/// A heap without garbage keeps track of everything.
pub proof fn lemma_all_held_rooted<T>(g: Seq<Allocation<T>>)
    requires
        all_held(g),
    ensures
        rooted(g),
{
    assert forall|v: usize| v < g.len() && g[v as int].is_live() implies #[trigger] reachable(
        adjacency(g),
        roots(g),
        v,
    ) by {
        assert(reachable(adjacency(g), held(g), v));
        lemma_reach_more_sources(adjacency(g), held(g), roots(g), v);
    }
}

/// A new allocation, which takes over the handles named by `list`, leaves
/// everything tracked: it is held itself, and what the handles kept alive
/// it keeps alive.
pub proof fn lemma_rooted_extended<T>(g: Seq<Allocation<T>>, g2: Seq<Allocation<T>>, list: Seq<usize>)
    requires
        well_formed(g),
        well_formed(g2),
        rooted(g),
        g2.len() == g.len() + 1,
        g2.drop_last() == g,
        g2.last().is_live(),
        g2.last().edges@ == list,
        external(g2, g.len() as usize) >= 1,
        forall|v: usize|
            v < g.len() ==> external(g2, v) == #[trigger] external(g, v) - count_in(list, v),
    ensures
        rooted(g2),
{
    let adj = adjacency(g);
    let adj2 = adjacency(g2);
    let n = g.len() as usize;
    assert forall|u: int| 0 <= u < g.len() implies g2[u] == g[u] by {
        assert(g2.drop_last()[u] == g2[u]);
    }
    assert(held(g2).contains(n));
    lemma_reach_source(adj2, roots(g2), n);
    assert forall|a: usize|
        roots(g).contains(a) && a < adj.len() && Set::<usize>::full().contains(
            a,
        ) implies #[trigger] reachable(adj2, roots(g2), a) by {
        if g[a as int].buffered {
            assert(buffered(g2).contains(a));
            lemma_reach_source(adj2, roots(g2), a);
        } else {
            assert(external(g2, a) == external(g, a) - count_in(list, a));
            if external(g2, a) > 0 {
                assert(held(g2).contains(a));
                lemma_reach_source(adj2, roots(g2), a);
            } else {
                lemma_count_in_contains(list, a);
                assert(adj2[n as int].contains(a));
                lemma_reach_step(adj2, roots(g2), n, a);
            }
        }
    }
    assert forall|p: usize, j: int|
        p < adj.len() && 0 <= j < adj[p as int].len() && Set::<usize>::full().contains(
            #[trigger] adj[p as int][j],
        ) implies (Set::<usize>::full().contains(p) && adj2[p as int].contains(adj[p as int][j]))
        || reachable(adj2, roots(g2), adj[p as int][j]) by {
        assert(adj2[p as int] == adj[p as int]);
    }
    assert forall|v: usize| v < g2.len() && g2[v as int].is_live() implies #[trigger] reachable(
        adj2,
        roots(g2),
        v,
    ) by {
        if v < n {
            assert(reachable(adj, roots(g), v));
            let k = choose|k: nat| reach_within(adj, roots(g), v, k);
            lemma_reach_carries(adj, roots(g), adj2, roots(g2), Set::full(), v, k);
        }
    }
}

/// A copied handle leaves everything tracked.
pub proof fn lemma_rooted_cloned<T>(g: Seq<Allocation<T>>, s: usize)
    requires
        well_formed(g),
        rooted(g),
        s < g.len(),
        g[s as int].strong_count < usize::MAX,
    ensures
        rooted(g.update(s as int, g[s as int].incremented())),
{
    let g2 = g.update(s as int, g[s as int].incremented());
    let adj = adjacency(g);
    crate::model::lemma_adjacency_keep(g, s as int, g[s as int].incremented());
    assert forall|v: usize| v < g2.len() && g2[v as int].is_live() implies #[trigger] reachable(
        adjacency(g2),
        roots(g2),
        v,
    ) by {
        assert(reachable(adj, roots(g), v));
        assert forall|a: usize| roots(g).contains(a) implies roots(g2).contains(a) by {
            if held(g).contains(a) {
                assert(held(g2).contains(a));
            } else {
                assert(buffered(g2).contains(a));
            }
        }
        lemma_reach_more_sources(adj, roots(g), roots(g2), v);
    }
}

/// A handle given back leaves everything tracked: what it kept alive, and
/// what the allocations destroyed with it kept alive, is destroyed or has
/// become a candidate root.
pub proof fn lemma_rooted_dropped<T>(
    g: Seq<Allocation<T>>,
    gc: Gc,
    order: Seq<usize>,
    g2: Seq<Allocation<T>>,
)
    requires
        well_formed(g),
        well_formed(g2),
        rooted(g),
        holds(g, gc),
        gc.target() is Some,
        dropped(g, gc.target().unwrap(), order, g2),
    ensures
        rooted(g2),
{
    let adj = adjacency(g);
    let adj2 = adjacency(g2);
    let x = gc.target().unwrap();
    let gone = order.to_set();
    let ok = Set::<usize>::full().difference(gone);
    assert forall|a: usize|
        roots(g).contains(a) && a < adj.len() && ok.contains(a) implies #[trigger] reachable(
        adj2,
        roots(g2),
        a,
    ) by {
        assert(!order.contains(a));
        assert(g2[a as int] == crate::model::survivor(
            g[a as int],
            handles_lost(adj, gone, x, a),
        ));
        if g[a as int].buffered {
            assert(buffered(g2).contains(a));
        } else {
            lemma_dropped_external(g, x, order, g2, a);
            if external(g2, a) > 0 {
                assert(held(g2).contains(a));
            } else {
                assert(buffered(g2).contains(a));
            }
        }
        lemma_reach_source(adj2, roots(g2), a);
    }
    assert forall|p: usize, j: int|
        p < adj.len() && 0 <= j < adj[p as int].len() && ok.contains(
            #[trigger] adj[p as int][j],
        ) implies (ok.contains(p) && adj2[p as int].contains(adj[p as int][j])) || reachable(
        adj2,
        roots(g2),
        adj[p as int][j],
    ) by {
        let w = adj[p as int][j];
        assert(w < g.len());
        assert(!order.contains(w));
        assert(g2[w as int] == crate::model::survivor(
            g[w as int],
            handles_lost(adj, gone, x, w),
        ));
        if order.contains(p) {
            assert(adj[p as int].contains(w));
            lemma_count_in_contains(adj[p as int], w);
            lemma_in_count_bound(adj, gone, p, w, adj.len());
            assert(buffered(g2).contains(w));
            lemma_reach_source(adj2, roots(g2), w);
        } else {
            assert(g2[p as int] == crate::model::survivor(
                g[p as int],
                handles_lost(adj, gone, x, p),
            ));
            assert(adj2[p as int] == adj[p as int]);
        }
    }
    assert forall|v: usize| v < g2.len() && g2[v as int].is_live() implies #[trigger] reachable(
        adj2,
        roots(g2),
        v,
    ) by {
        if order.contains(v) {
            assert(is_destroyed(g2[v as int]));
        }
        assert(g2[v as int] == crate::model::survivor(
            g[v as int],
            handles_lost(adj, gone, x, v),
        ));
        assert(reachable(adj, roots(g), v));
        let k = choose|k: nat| reach_within(adj, roots(g), v, k);
        lemma_reach_carries(adj, roots(g), adj2, roots(g2), ok, v, k);
    }
}

/// A handle moved into a payload leaves everything tracked, if the owner is
/// held by another handle outside the heap: what the handle kept alive, the
/// owner keeps alive.
pub proof fn lemma_rooted_linked<T>(
    g: Seq<Allocation<T>>,
    owner: Gc,
    child: Gc,
    g2: Seq<Allocation<T>>,
)
    requires
        well_formed(g),
        rooted(g),
        holds_both(g, owner, child),
        owner.target() is Some,
        child.target() is Some,
        g2.len() == g.len(),
        forall|v: int|
            0 <= v < g.len() && v != owner.target().unwrap() ==> #[trigger] g2[v] == g[v],
        g2[owner.target().unwrap() as int].is_live(),
        g2[owner.target().unwrap() as int].buffered == g[owner.target().unwrap() as int].buffered,
        g2[owner.target().unwrap() as int].edges@ == g[owner.target().unwrap() as int].edges@.push(
            child.target().unwrap(),
        ),
        forall|v: usize|
            v < g.len() ==> external(g2, v) == #[trigger] external(g, v) - if v
                == child.target().unwrap() {
                1int
            } else {
                0int
            },
    ensures
        rooted(g2),
{
    let adj = adjacency(g);
    let adj2 = adjacency(g2);
    let o = owner.target().unwrap();
    let c = child.target().unwrap();
    let all = Set::<usize>::full();
    assert(adj2[o as int][adj[o as int].len() as int] == c);
    assert(adj2[o as int].contains(c));
    assert forall|a: usize|
        roots(g).contains(a) && a < adj.len() && all.contains(a) implies #[trigger] reachable(
        adj2,
        roots(g2),
        a,
    ) by {
        assert(external(g2, a) == external(g, a) - if a == c {
            1int
        } else {
            0int
        });
        if g[a as int].buffered {
            assert(buffered(g2).contains(a));
            lemma_reach_source(adj2, roots(g2), a);
        } else if external(g2, a) > 0 {
            assert(held(g2).contains(a));
            lemma_reach_source(adj2, roots(g2), a);
        } else {
            assert(a == c && o != c);
            assert(external(g2, o) == external(g, o));
            assert(held(g2).contains(o));
            lemma_reach_source(adj2, roots(g2), o);
            lemma_reach_step(adj2, roots(g2), o, c);
        }
    }
    assert forall|p: usize, j: int|
        p < adj.len() && 0 <= j < adj[p as int].len() && all.contains(
            #[trigger] adj[p as int][j],
        ) implies (all.contains(p) && adj2[p as int].contains(adj[p as int][j])) || reachable(
        adj2,
        roots(g2),
        adj[p as int][j],
    ) by {
        if p == o {
            assert(adj2[p as int][j] == adj[p as int][j]);
        } else {
            assert(g2[p as int] == g[p as int]);
            assert(adj2[p as int] == adj[p as int]);
        }
    }
    assert forall|v: usize| v < g2.len() && g2[v as int].is_live() implies #[trigger] reachable(
        adj2,
        roots(g2),
        v,
    ) by {
        if v != o {
            assert(g2[v as int] == g[v as int]);
        }
        assert(reachable(adj, roots(g), v));
        let k = choose|k: nat| reach_within(adj, roots(g), v, k);
        lemma_reach_carries(adj, roots(g), adj2, roots(g2), all, v, k);
    }
}

/// A handle moved out of a payload leaves everything tracked: what the
/// payload kept alive through it is now held outside the heap.
pub proof fn lemma_rooted_unlinked<T>(
    g: Seq<Allocation<T>>,
    o: usize,
    k: int,
    g2: Seq<Allocation<T>>,
)
    requires
        well_formed(g),
        rooted(g),
        o < g.len(),
        0 <= k < g[o as int].edges@.len(),
        g2.len() == g.len(),
        forall|v: int| 0 <= v < g.len() && v != o ==> #[trigger] g2[v] == g[v],
        g2[o as int].is_live() == g[o as int].is_live(),
        g2[o as int].buffered == g[o as int].buffered,
        g2[o as int].edges@ == g[o as int].edges@.remove(k),
        forall|v: usize|
            v < g.len() ==> external(g2, v) == #[trigger] external(g, v) + if v
                == g[o as int].edges@[k] {
                1int
            } else {
                0int
            },
    ensures
        rooted(g2),
{
    let adj = adjacency(g);
    let adj2 = adjacency(g2);
    let c = g[o as int].edges@[k];
    let all = Set::<usize>::full();
    assert(adj[o as int][k] == c);
    assert(c < g.len());
    assert(node_ok(g, c as int));
    assert(external(g2, c) == external(g, c) + 1);
    assert(held(g2).contains(c));
    lemma_reach_source(adj2, roots(g2), c);
    assert forall|a: usize|
        roots(g).contains(a) && a < adj.len() && all.contains(a) implies #[trigger] reachable(
        adj2,
        roots(g2),
        a,
    ) by {
        assert(external(g2, a) == external(g, a) + if a == c {
            1int
        } else {
            0int
        });
        if g[a as int].buffered {
            assert(buffered(g2).contains(a));
        } else {
            assert(held(g2).contains(a));
        }
        lemma_reach_source(adj2, roots(g2), a);
    }
    assert forall|p: usize, j: int|
        p < adj.len() && 0 <= j < adj[p as int].len() && all.contains(
            #[trigger] adj[p as int][j],
        ) implies (all.contains(p) && adj2[p as int].contains(adj[p as int][j])) || reachable(
        adj2,
        roots(g2),
        adj[p as int][j],
    ) by {
        let w = adj[p as int][j];
        if p == o {
            if w != c {
                if j < k {
                    assert(adj2[p as int][j] == w);
                } else {
                    assert(adj2[p as int][j - 1] == w);
                }
            }
        } else {
            assert(g2[p as int] == g[p as int]);
            assert(adj2[p as int] == adj[p as int]);
        }
    }
    assert forall|v: usize| v < g2.len() && g2[v as int].is_live() implies #[trigger] reachable(
        adj2,
        roots(g2),
        v,
    ) by {
        if v != o {
            assert(g2[v as int] == g[v as int]);
        }
        assert(reachable(adj, roots(g), v));
        let kk = choose|kk: nat| reach_within(adj, roots(g), v, kk);
        lemma_reach_carries(adj, roots(g), adj2, roots(g2), all, v, kk);
    }
}

/// A pass leaves no garbage: if the heap kept track of everything before
/// the pass, then every allocation that is alive after it can be reached
/// from one that is held outside the heap.
pub proof fn lemma_collected_all_held<T>(g: Seq<Allocation<T>>, g2: Seq<Allocation<T>>)
    requires
        well_formed(g),
        rooted(g),
        collected(g, g2),
    ensures
        all_held(g2),
{
    assert forall|v: usize| v < g2.len() && g2[v as int].is_live() implies #[trigger] reachable(
        adjacency(g2),
        held(g2),
        v,
    ) by {
        if garbage(g).contains(v) {
            assert(is_destroyed(g2[v as int]));
        }
        if traced(g).contains(v) {
            lemma_kept_is_held(g, g2, v);
        } else {
            lemma_untraced_is_held(g, g2, v);
        }
    }
}

/// The graph after a pass: as before, but for the garbage, which holds nothing.
proof fn lemma_collected_graph<T>(g: Seq<Allocation<T>>, g2: Seq<Allocation<T>>, u: usize)
    requires
        well_formed(g),
        collected(g, g2),
        u < g.len(),
        !garbage(g).contains(u),
    ensures
        adjacency(g2)[u as int] == adjacency(g)[u as int],
        g2[u as int].is_live() == g[u as int].is_live(),
{
    assert(g2[u as int].edges == g[u as int].edges);
}

/// After a pass, what was alive outside the traced part can be reached from
/// an allocation held outside the heap.
proof fn lemma_untraced_is_held<T>(g: Seq<Allocation<T>>, g2: Seq<Allocation<T>>, v: usize)
    requires
        well_formed(g),
        rooted(g),
        collected(g, g2),
        v < g.len(),
        g[v as int].is_live(),
        !traced(g).contains(v),
    ensures
        reachable(adjacency(g2), held(g2), v),
{
    let adj = adjacency(g);
    let adj2 = adjacency(g2);
    let s = traced(g);
    let ok = Set::<usize>::full().difference(s);
    lemma_reach_set_closed(adj, buffered(g));
    assert forall|a: usize|
        roots(g).contains(a) && a < adj.len() && ok.contains(a) implies #[trigger] reachable(
        adj2,
        held(g2),
        a,
    ) by {
        lemma_traced_facts(g, a);
        lemma_collected_external(g, g2, a);
        assert(held(g2).contains(a));
        lemma_reach_source(adj2, held(g2), a);
    }
    assert forall|p: usize, j: int|
        p < adj.len() && 0 <= j < adj[p as int].len() && ok.contains(
            #[trigger] adj[p as int][j],
        ) implies (ok.contains(p) && adj2[p as int].contains(adj[p as int][j])) || reachable(
        adj2,
        held(g2),
        adj[p as int][j],
    ) by {
        if s.contains(p) {
            assert(s.contains(adj[p as int][j]));
        }
        lemma_collected_graph(g, g2, p);
    }
    assert(reachable(adj, roots(g), v));
    let k = choose|k: nat| reach_within(adj, roots(g), v, k);
    lemma_reach_carries(adj, roots(g), adj2, held(g2), ok, v, k);
}

/// After a pass, what it traced and kept can be reached from an allocation
/// held outside the heap.
proof fn lemma_kept_is_held<T>(g: Seq<Allocation<T>>, g2: Seq<Allocation<T>>, v: usize)
    requires
        well_formed(g),
        rooted(g),
        collected(g, g2),
        v < g.len(),
        traced(g).contains(v),
        !garbage(g).contains(v),
    ensures
        reachable(adjacency(g2), held(g2), v),
{
    let adj = adjacency(g);
    let adj2 = adjacency(g2);
    let s = traced(g);
    let kept = retained(g);
    assert(kept.contains(v));
    lemma_reach_set_closed(adj, anchored(g));
    assert forall|a: usize| anchored(g).contains(a) && a < adj.len() implies kept.contains(a) by {
        lemma_reach_source(adj, anchored(g), a);
    }
    assert forall|u: usize| kept.contains(u) && u < adj.len() implies (#[trigger] adj2[u as int])
        == adj[u as int] by {
        lemma_collected_graph(g, g2, u);
    }
    let k = choose|k: nat| reach_within(adj, anchored(g), v, k);
    lemma_reach_inside(adj, adj2, anchored(g), kept, v, k);
    assert forall|w: usize| anchored(g).contains(w) && w < adj2.len() implies reachable(
        adj2,
        held(g2),
        w,
    ) by {
        lemma_reach_source(adj, anchored(g), w);
        assert(!garbage(g).contains(w));
        assert(node_ok(g, w as int));
        if external(g, w) > 0 {
            lemma_collected_external(g, g2, w);
            lemma_traced_facts(g, w);
            lemma_collected_graph(g, g2, w);
            assert(held(g2).contains(w));
            lemma_reach_source(adj2, held(g2), w);
        } else {
            let rest = Set::<usize>::full().difference(s);
            assert(s.union(rest) =~= Set::<usize>::full());
            lemma_in_count_split(adj, s, rest, w, adj.len());
            let p = lemma_in_count_witness(adj, rest, w, adj.len());
            assert(node_ok(g, p as int));
            assert(g[p as int].edges@.len() > 0);
            lemma_untraced_is_held(g, g2, p);
            lemma_collected_graph(g, g2, p);
            lemma_reach_step(adj2, held(g2), p, w);
        }
    }
    lemma_reach_trans(adj2, held(g2), anchored(g), v);
}

} // verus!
