//! The collection pass: trial deletion over what can be reached from the
//! candidate roots.
//!
//! A pass marks what can be reached from the candidate roots and takes from
//! each trial count the handles held within the marked part (mark). What is
//! left with a positive trial count is held from outside; from there the
//! pass marks what is reachable and counts its handles again (scan). What
//! is then still condemned is destroyed, and the trial counts of the rest
//! become their counts of handles (sweep).

use crate::allocation::{Allocation, Mark};
use crate::graph::{
    below, closed_under_edges, in_count, lemma_count_in_contains, lemma_distinct_len,
    lemma_in_count_bound, lemma_in_count_closed, lemma_in_count_mono, lemma_in_count_split,
    lemma_push_to_set, lemma_reach_closed, lemma_reach_in_range, lemma_reach_pred,
    lemma_reach_set_closed, lemma_reach_source, reach_set, reach_within, reachable,
    targets_in_range,
};
use crate::handle::Gc;
use crate::heap::adjust::{adjust, adjust_pre, adjusted};
use crate::heap::flood::{flood, flood_inv, flood_pre, with_mark};
use crate::heap::settle::{picks, settle, settled, Step};
use crate::heap::Heap;
use crate::model::{
    adjacency, anchored, buffered, collected, dropped, external, garbage, gave_back,
    gave_back_collecting, holds, is_destroyed, keeps_edges, keeps_handles, keeps_handles_but,
    lemma_in_degree_after_clearing, live, node_ok, nothing_returns, outside_handles_moved,
    pass_outcome, retained, traced, well_formed, Deferred,
};
use crate::rooted::{all_held, rooted};
use vstd::prelude::*;

verus! {

/// The record with the collector's scratch fields set.
pub open spec fn scratch<T>(rec: Allocation<T>, mark: Mark, trial: int) -> Allocation<T> {
    Allocation { mark, trial_count: trial as usize, ..rec }
}

/// The records after the mark phase: each traced allocation carries `mark`
/// and, as its trial count, the number of handles to it that are held from
/// outside the traced part.
pub open spec fn after_mark<T>(g0: Seq<Allocation<T>>, g: Seq<Allocation<T>>, mark: Mark) -> bool {
    let adj = adjacency(g0);
    &&& g.len() == g0.len()
    &&& forall|v: usize|
        v < g0.len() ==> (#[trigger] g[v as int]) == if traced(g0).contains(v) {
            scratch(g0[v as int], mark, g0[v as int].strong_count - in_count(adj, traced(g0), v))
        } else {
            g0[v as int]
        }
}

/// The records after the scan phase: each retained allocation is marked
/// reachable and carries, as its trial count, the number of handles to it
/// that garbage does not hold; the other traced ones are marked unreachable.
pub open spec fn after_scan<T>(g0: Seq<Allocation<T>>, g: Seq<Allocation<T>>) -> bool {
    let adj = adjacency(g0);
    &&& g.len() == g0.len()
    &&& forall|v: usize|
        v < g0.len() ==> (#[trigger] g[v as int]) == if retained(g0).contains(v) {
            scratch(
                g0[v as int],
                Mark::Reachable,
                g0[v as int].strong_count - in_count(adj, garbage(g0), v),
            )
        } else if traced(g0).contains(v) {
            scratch(g0[v as int], Mark::Unreachable, 0)
        } else {
            g0[v as int]
        }
}

/// Records with the same edge lists have the same graph.
proof fn lemma_same_edges<T>(g: Seq<Allocation<T>>, g2: Seq<Allocation<T>>)
    requires
        g2.len() == g.len(),
        forall|v: int| 0 <= v < g.len() ==> (#[trigger] g2[v]).edges == g[v].edges,
    ensures
        adjacency(g2) == adjacency(g),
{
    assert(adjacency(g2) =~= adjacency(g));
}

/// An allocation that another one holds a handle to is alive.
proof fn lemma_target_live<T>(g0: Seq<Allocation<T>>, u: usize, k: int)
    requires
        well_formed(g0),
        u < g0.len(),
        0 <= k < g0[u as int].edges@.len(),
    ensures
        g0[u as int].edges@[k] < g0.len(),
        g0[g0[u as int].edges@[k] as int].is_live(),
{
    let adj = adjacency(g0);
    let c = g0[u as int].edges@[k];
    assert(adj[u as int][k] == c);
    assert(adj[u as int].contains(c));
    lemma_count_in_contains(adj[u as int], c);
    lemma_in_count_bound(adj, Set::full(), u, c, adj.len());
    assert(node_ok(g0, c as int));
}

/// What holds of the traced part, seen from one allocation.
pub proof fn lemma_traced_facts<T>(g0: Seq<Allocation<T>>, v: usize)
    requires
        well_formed(g0),
        v < g0.len(),
    ensures
        traced(g0).contains(v) ==> g0[v as int].is_live(),
        g0[v as int].buffered ==> traced(g0).contains(v),
        !traced(g0).contains(v) ==> in_count(adjacency(g0), traced(g0), v) == 0,
        in_count(adjacency(g0), traced(g0), v) <= g0[v as int].strong_count,
        retained(g0).subset_of(traced(g0)),
        in_count(adjacency(g0), traced(g0), v) == in_count(adjacency(g0), retained(g0), v)
            + in_count(adjacency(g0), garbage(g0), v),
        garbage(g0).contains(v) ==> in_count(adjacency(g0), retained(g0), v) == 0
            && g0[v as int].strong_count == in_count(adjacency(g0), traced(g0), v),
        retained(g0).contains(v) ==> g0[v as int].strong_count > in_count(
            adjacency(g0),
            garbage(g0),
            v,
        ),
{
    let adj = adjacency(g0);
    let s = traced(g0);
    let l = retained(g0);
    let d = garbage(g0);
    let n = adj.len();
    assert(node_ok(g0, v as int));
    lemma_reach_set_closed(adj, buffered(g0));
    lemma_reach_set_closed(adj, anchored(g0));
    // traced allocations are alive
    if s.contains(v) {
        assert(closed_under_edges(adj, live(g0))) by {
            assert forall|u: usize, k: int|
                live(g0).contains(u) && u < adj.len() && 0 <= k < adj[u as int].len() implies live(
                g0,
            ).contains(#[trigger] adj[u as int][k]) by {
                lemma_target_live(g0, u, k);
            }
        }
        assert forall|r: usize| buffered(g0).contains(r) && r < adj.len() implies live(
            g0,
        ).contains(r) by {
            assert(node_ok(g0, r as int));
        }
        lemma_reach_closed(adj, buffered(g0), live(g0), v);
    }
    if g0[v as int].buffered {
        lemma_reach_source(adj, buffered(g0), v);
    }
    if !s.contains(v) {
        lemma_in_count_closed(adj, s, v);
    }
    lemma_in_count_mono(adj, s, Set::full(), v, n);
    // the retained ones are traced
    assert forall|w: usize| l.contains(w) implies s.contains(w) by {
        lemma_reach_closed(adj, anchored(g0), s, w);
    }
    assert(l.union(d) =~= s);
    assert(l.disjoint(d));
    lemma_in_count_split(adj, l, d, v, n);
    if d.contains(v) {
        lemma_in_count_closed(adj, l, v);
        if g0[v as int].strong_count > in_count(adj, s, v) {
            assert(anchored(g0).contains(v));
            lemma_reach_source(adj, anchored(g0), v);
        }
    }
    if l.contains(v) {
        if !anchored(g0).contains(v) {
            let k = choose|k: nat| reach_within(adj, anchored(g0), v, k);
            let u = lemma_reach_pred(adj, anchored(g0), v, k);
            lemma_count_in_contains(adj[u as int], v);
            lemma_in_count_bound(adj, l, u, v, n);
        }
    }
}

/// The traced part is finite, and everything in it is an allocation of the heap.
pub proof fn lemma_traced_finite<T>(g0: Seq<Allocation<T>>)
    requires
        well_formed(g0),
    ensures
        traced(g0).finite(),
        traced(g0).subset_of(below(g0.len())),
        traced(g0).len() <= g0.len(),
        garbage(g0).finite(),
        garbage(g0).len() <= traced(g0).len(),
{
    let adj = adjacency(g0);
    assert forall|v: usize| traced(g0).contains(v) implies below(g0.len()).contains(v) by {
        lemma_reach_in_range(adj, buffered(g0), v);
    }
    crate::graph::lemma_below_len(g0.len());
    vstd::set_lib::lemma_len_subset(traced(g0), below(g0.len()));
    vstd::set_lib::lemma_len_subset(garbage(g0), traced(g0));
}

/// After the marks have spread from the candidate roots and the trial
/// counts have been primed, the counts can be taken down.
proof fn lemma_stage_primed<T>(
    g0: Seq<Allocation<T>>,
    roots: Seq<usize>,
    order: Seq<usize>,
    g1: Seq<Allocation<T>>,
    g2: Seq<Allocation<T>>,
)
    requires
        well_formed(g0),
        roots.to_set() == buffered(g0),
        flood_inv(g0, roots, Mark::Clear, Mark::InProgress, order, g1),
        order.to_set() == reach_set(adjacency(g0), roots.to_set()),
        g2.len() == g1.len(),
        forall|v: usize|
            v < g1.len() ==> if order.contains(v) {
                settled(Step::Prime, g1[v as int], #[trigger] g2[v as int])
            } else {
                g2[v as int] == g1[v as int]
            },
    ensures
        adjust_pre(g2, order, false),
        adjacency(g2) == adjacency(g0),
        order.to_set() == traced(g0),
        forall|v: usize|
            v < g0.len() ==> (#[trigger] g2[v as int]) == if traced(g0).contains(v) {
                scratch(g0[v as int], Mark::InProgress, g0[v as int].strong_count as int)
            } else {
                g0[v as int]
            },
{
    let adj = adjacency(g0);
    assert forall|v: usize| v < g0.len() implies (#[trigger] g2[v as int]) == if traced(
        g0,
    ).contains(v) {
        scratch(g0[v as int], Mark::InProgress, g0[v as int].strong_count as int)
    } else {
        g0[v as int]
    } by {
        assert(node_ok(g0, v as int));
        assert(order.to_set().contains(v) == order.contains(v));
        assert(g1[v as int].mark == if order.contains(v) {
            Mark::InProgress
        } else {
            g0[v as int].mark
        });
    }
    assert forall|v: int| 0 <= v < g0.len() implies (#[trigger] g2[v]).edges == g0[v].edges by {
        assert(g2[(v as usize) as int] == g2[v]);
    }
    lemma_same_edges(g0, g2);
    assert forall|v: usize| v < g2.len() implies in_count(adjacency(g2), order.to_set(), v) <= (
    #[trigger] g2[v as int]).trial_count by {
        lemma_traced_facts(g0, v);
        assert(node_ok(g0, v as int));
    }
    assert forall|j: int| 0 <= j < order.len() implies (#[trigger] order[j]) < g2.len() by {}
}

/// After the counts have been taken down, what is left is the mark phase's result.
proof fn lemma_stage_marked<T>(
    g0: Seq<Allocation<T>>,
    order: Seq<usize>,
    g2: Seq<Allocation<T>>,
    g3: Seq<Allocation<T>>,
)
    requires
        well_formed(g0),
        order.to_set() == traced(g0),
        adjacency(g2) == adjacency(g0),
        g2.len() == g0.len(),
        forall|v: usize|
            v < g0.len() ==> (#[trigger] g2[v as int]) == if traced(g0).contains(v) {
                scratch(g0[v as int], Mark::InProgress, g0[v as int].strong_count as int)
            } else {
                g0[v as int]
            },
        g3.len() == g2.len(),
        forall|v: usize|
            v < g2.len() ==> (#[trigger] g3[v as int]) == adjusted(
                g2[v as int],
                in_count(adjacency(g2), order.to_set(), v),
                false,
            ),
    ensures
        after_mark(g0, g3, Mark::InProgress),
{
    assert forall|v: usize| v < g0.len() implies (#[trigger] g3[v as int]) == if traced(
        g0,
    ).contains(v) {
        scratch(
            g0[v as int],
            Mark::InProgress,
            g0[v as int].strong_count - in_count(adjacency(g0), traced(g0), v),
        )
    } else {
        g0[v as int]
    } by {
        lemma_traced_facts(g0, v);
        assert(node_ok(g0, v as int));
        assert(g2[v as int] == if traced(g0).contains(v) {
            scratch(g0[v as int], Mark::InProgress, g0[v as int].strong_count as int)
        } else {
            g0[v as int]
        });
    }
}

/// After the traced allocations have been condemned, the marks can spread
/// from the anchored ones.
proof fn lemma_stage_condemned<T>(
    g0: Seq<Allocation<T>>,
    order: Seq<usize>,
    g3: Seq<Allocation<T>>,
    g4: Seq<Allocation<T>>,
    anchors: Seq<usize>,
)
    requires
        well_formed(g0),
        order.to_set() == traced(g0),
        after_mark(g0, g3, Mark::InProgress),
        g4.len() == g3.len(),
        anchors.no_duplicates(),
        forall|v: usize|
            v < g3.len() ==> if order.contains(v) {
                settled(Step::Condemn, g3[v as int], #[trigger] g4[v as int])
            } else {
                g4[v as int] == g3[v as int]
            },
        forall|v: usize|
            anchors.contains(v) <==> order.contains(v) && picks(Step::Condemn, g3[v as int]),
    ensures
        after_mark(g0, g4, Mark::Unreachable),
        adjacency(g4) == adjacency(g0),
        anchors.to_set() == anchored(g0),
        flood_pre(g4, anchors, Mark::Unreachable, Mark::Reachable),
{
    let adj = adjacency(g0);
    lemma_traced_finite(g0);
    assert forall|v: usize| v < g0.len() implies (#[trigger] g4[v as int]) == if traced(
        g0,
    ).contains(v) {
        scratch(
            g0[v as int],
            Mark::Unreachable,
            g0[v as int].strong_count - in_count(adj, traced(g0), v),
        )
    } else {
        g0[v as int]
    } by {
        assert(order.to_set().contains(v) == order.contains(v));
        assert(g3[v as int] == if traced(g0).contains(v) {
            scratch(
                g0[v as int],
                Mark::InProgress,
                g0[v as int].strong_count - in_count(adj, traced(g0), v),
            )
        } else {
            g0[v as int]
        });
    }
    assert forall|v: int| 0 <= v < g0.len() implies (#[trigger] g4[v]).edges == g0[v].edges by {
        assert(g4[(v as usize) as int] == g4[v]);
    }
    lemma_same_edges(g0, g4);
    assert forall|v: usize| anchors.to_set().contains(v) <==> anchored(g0).contains(v) by {
        assert(order.to_set().contains(v) == order.contains(v));
        if traced(g0).contains(v) {
            assert(below(g0.len()).contains(v));
            lemma_traced_facts(g0, v);
            assert(g3[v as int] == scratch(
                g0[v as int],
                Mark::InProgress,
                g0[v as int].strong_count - in_count(adj, traced(g0), v),
            ));
        }
    }
    assert(anchors.to_set() =~= anchored(g0));
    assert forall|j: int| 0 <= j < anchors.len() implies (#[trigger] anchors[j]) < g4.len()
        && g4[anchors[j] as int].mark == Mark::Unreachable by {
        assert(anchors.contains(anchors[j]));
        assert(order.to_set().contains(anchors[j]));
        assert(below(g0.len()).contains(anchors[j]));
    }
    assert forall|v: int| 0 <= v < g4.len() implies (#[trigger] g4[v]).mark != Mark::Reachable by {
        assert(g4[(v as usize) as int] == g4[v]);
        assert(node_ok(g0, v));
    }
    lemma_reach_set_closed(adj, buffered(g0));
    assert(closed_under_edges(adjacency(g4), with_mark(g4, Mark::Unreachable))) by {
        assert forall|u: usize, k: int|
            with_mark(g4, Mark::Unreachable).contains(u) && u < adj.len() && 0 <= k < adj[u as int].len() implies with_mark(
            g4,
            Mark::Unreachable,
        ).contains(#[trigger] adj[u as int][k]) by {
            assert(node_ok(g0, u as int));
            assert(g4[u as int].mark == Mark::Unreachable);
            assert(traced(g0).contains(u));
            let c = adj[u as int][k];
            assert(traced(g0).contains(c));
            assert(below(g0.len()).contains(c));
            assert(g4[c as int].mark == Mark::Unreachable);
        }
    }
}

/// After the marks have spread from the anchored allocations, the counts
/// can be restored.
proof fn lemma_stage_flooded<T>(
    g0: Seq<Allocation<T>>,
    anchors: Seq<usize>,
    g4: Seq<Allocation<T>>,
    g5: Seq<Allocation<T>>,
    kept: Seq<usize>,
)
    requires
        well_formed(g0),
        after_mark(g0, g4, Mark::Unreachable),
        adjacency(g4) == adjacency(g0),
        anchors.to_set() == anchored(g0),
        flood_inv(g4, anchors, Mark::Unreachable, Mark::Reachable, kept, g5),
        kept.to_set() == reach_set(adjacency(g4), anchors.to_set()),
    ensures
        kept.to_set() == retained(g0),
        adjacency(g5) == adjacency(g0),
        adjust_pre(g5, kept, true),
        forall|v: usize|
            v < g0.len() ==> (#[trigger] g5[v as int]) == if retained(g0).contains(v) {
                scratch(
                    g0[v as int],
                    Mark::Reachable,
                    g0[v as int].strong_count - in_count(adjacency(g0), traced(g0), v),
                )
            } else {
                g4[v as int]
            },
{
    let adj = adjacency(g0);
    assert forall|v: usize| v < g0.len() implies (#[trigger] g5[v as int]) == if retained(
        g0,
    ).contains(v) {
        scratch(
            g0[v as int],
            Mark::Reachable,
            g0[v as int].strong_count - in_count(adj, traced(g0), v),
        )
    } else {
        g4[v as int]
    } by {
        lemma_traced_facts(g0, v);
        assert(kept.to_set().contains(v) == kept.contains(v));
        assert(g4[v as int] == if traced(g0).contains(v) {
            scratch(
                g0[v as int],
                Mark::Unreachable,
                g0[v as int].strong_count - in_count(adj, traced(g0), v),
            )
        } else {
            g0[v as int]
        });
    }
    assert forall|v: int| 0 <= v < g0.len() implies (#[trigger] g5[v]).edges == g0[v].edges by {
        assert(g5[(v as usize) as int] == g5[v]);
        assert(g4[(v as usize) as int] == g4[v]);
    }
    lemma_same_edges(g0, g5);
    assert forall|v: usize| v < g5.len() implies (#[trigger] g5[v as int]).trial_count + in_count(
        adjacency(g5),
        kept.to_set(),
        v,
    ) <= usize::MAX by {
        lemma_traced_facts(g0, v);
        assert(node_ok(g0, v as int));
        assert(g4[v as int] == if traced(g0).contains(v) {
            scratch(
                g0[v as int],
                Mark::Unreachable,
                g0[v as int].strong_count - in_count(adj, traced(g0), v),
            )
        } else {
            g0[v as int]
        });
    }
    assert forall|j: int| 0 <= j < kept.len() implies (#[trigger] kept[j]) < g5.len() by {}
}

/// After the counts have been restored, what is left is the scan phase's
/// result, and the pass may commit.
proof fn lemma_stage_scanned<T>(
    g0: Seq<Allocation<T>>,
    g4: Seq<Allocation<T>>,
    g5: Seq<Allocation<T>>,
    kept: Seq<usize>,
    g6: Seq<Allocation<T>>,
)
    requires
        well_formed(g0),
        after_mark(g0, g4, Mark::Unreachable),
        kept.to_set() == retained(g0),
        adjacency(g5) == adjacency(g0),
        g5.len() == g0.len(),
        forall|v: usize|
            v < g0.len() ==> (#[trigger] g5[v as int]) == if retained(g0).contains(v) {
                scratch(
                    g0[v as int],
                    Mark::Reachable,
                    g0[v as int].strong_count - in_count(adjacency(g0), traced(g0), v),
                )
            } else {
                g4[v as int]
            },
        g6.len() == g5.len(),
        forall|v: usize|
            v < g5.len() ==> (#[trigger] g6[v as int]) == adjusted(
                g5[v as int],
                in_count(adjacency(g5), kept.to_set(), v),
                true,
            ),
    ensures
        after_scan(g0, g6),
{
    let adj = adjacency(g0);
    assert forall|v: usize| v < g0.len() implies (#[trigger] g6[v as int]) == if retained(
        g0,
    ).contains(v) {
        scratch(
            g0[v as int],
            Mark::Reachable,
            g0[v as int].strong_count - in_count(adj, garbage(g0), v),
        )
    } else if traced(g0).contains(v) {
        scratch(g0[v as int], Mark::Unreachable, 0)
    } else {
        g0[v as int]
    } by {
        lemma_traced_facts(g0, v);
        assert(node_ok(g0, v as int));
        assert(g5[v as int] == if retained(g0).contains(v) {
            scratch(
                g0[v as int],
                Mark::Reachable,
                g0[v as int].strong_count - in_count(adj, traced(g0), v),
            )
        } else {
            g4[v as int]
        });
        assert(g4[v as int] == if traced(g0).contains(v) {
            scratch(
                g0[v as int],
                Mark::Unreachable,
                g0[v as int].strong_count - in_count(adj, traced(g0), v),
            )
        } else {
            g0[v as int]
        });
        if !retained(g0).contains(v) {
            if traced(g0).contains(v) {
                assert(garbage(g0).contains(v));
            } else {
                lemma_in_count_mono(adj, retained(g0), traced(g0), v, adj.len());
            }
        }
    }
}

/// After the pass has committed, the garbage is gone and the heap is
/// consistent again.
proof fn lemma_stage_committed<T>(
    g0: Seq<Allocation<T>>,
    order: Seq<usize>,
    g6: Seq<Allocation<T>>,
    g7: Seq<Allocation<T>>,
    gone: Seq<usize>,
)
    requires
        well_formed(g0),
        order.to_set() == traced(g0),
        after_scan(g0, g6),
        g7.len() == g6.len(),
        gone.no_duplicates(),
        forall|v: usize|
            v < g6.len() ==> if order.contains(v) {
                settled(Step::Commit, g6[v as int], #[trigger] g7[v as int])
            } else {
                g7[v as int] == g6[v as int]
            },
        forall|v: usize|
            gone.contains(v) <==> order.contains(v) && picks(Step::Commit, g6[v as int]),
    ensures
        collected(g0, g7),
        well_formed(g7),
        gone.to_set() == garbage(g0),
        garbage(g0).finite(),
        gone.len() == garbage(g0).len(),
        forall|v: int| 0 <= v < g7.len() ==> !(#[trigger] g7[v]).buffered,
{
    let adj = adjacency(g0);
    let adj7 = adjacency(g7);
    let d = garbage(g0);
    lemma_traced_finite(g0);
    assert forall|v: usize| v < g0.len() implies if d.contains(v) {
        is_destroyed(#[trigger] g7[v as int]) && g7[v as int].meta == g0[v as int].meta
    } else {
        &&& in_count(adj, d, v) <= g0[v as int].strong_count
        &&& g7[v as int] == (Allocation {
            strong_count: (g0[v as int].strong_count - in_count(adj, d, v)) as usize,
            buffered: false,
            ..g0[v as int]
        })
    } by {
        lemma_traced_facts(g0, v);
        assert(node_ok(g0, v as int));
        assert(order.to_set().contains(v) == order.contains(v));
        assert(g6[v as int] == if retained(g0).contains(v) {
            scratch(
                g0[v as int],
                Mark::Reachable,
                g0[v as int].strong_count - in_count(adj, d, v),
            )
        } else if traced(g0).contains(v) {
            scratch(g0[v as int], Mark::Unreachable, 0)
        } else {
            g0[v as int]
        });
    }
    assert forall|v: usize| gone.to_set().contains(v) <==> d.contains(v) by {
        assert(order.to_set().contains(v) == order.contains(v));
        if traced(g0).contains(v) {
            assert(below(g0.len()).contains(v));
            lemma_traced_facts(g0, v);
            assert(node_ok(g0, v as int));
            assert(g6[v as int] == if retained(g0).contains(v) {
                scratch(
                    g0[v as int],
                    Mark::Reachable,
                    g0[v as int].strong_count - in_count(adj, d, v),
                )
            } else {
                scratch(g0[v as int], Mark::Unreachable, 0)
            });
        }
    }
    assert(gone.to_set() =~= d);
    assert forall|j: int| 0 <= j < gone.len() implies gone[j] < g0.len() by {
        assert(gone.to_set().contains(gone[j]));
        assert(below(g0.len()).contains(gone[j]));
    }
    lemma_distinct_len(gone, g0.len());
    // the graph that is left
    assert forall|u: usize| u < adj.len() implies (#[trigger] adj7[u as int]) == if d.contains(u) {
        Seq::<usize>::empty()
    } else {
        adj[u as int]
    } by {
        assert(is_destroyed(g7[u as int]) || g7[u as int].edges == g0[u as int].edges);
        if d.contains(u) {
            assert(adj7[u as int] =~= Seq::<usize>::empty());
        }
    }
    assert(targets_in_range(adj7)) by {
        assert forall|u: int, k: int|
            0 <= u < adj7.len() && 0 <= k < adj7[u].len() implies (#[trigger] adj7[u][k])
            < adj7.len() by {
            assert(adj7[(u as usize) as int] == adj7[u]);
            assert(adj7[u][k] == adj[u][k]);
        }
    }
    assert forall|v: int| 0 <= v < g7.len() implies #[trigger] node_ok(g7, v) by {
        let vu = v as usize;
        lemma_traced_facts(g0, vu);
        assert(node_ok(g0, v));
        lemma_in_degree_after_clearing(adj, adj7, d, vu);
        lemma_in_count_mono(adj, traced(g0), Set::full(), vu, adj.len());
        assert(is_destroyed(g7[vu as int]) || g7[vu as int].edges == g0[vu as int].edges);
    }
    assert forall|v: int| 0 <= v < g7.len() implies !(#[trigger] g7[v]).buffered by {
        assert(g7[(v as usize) as int] == g7[v]);
    }
}

/// Giving up leaves the heap as it was, once the scratch fields are clean,
/// and shows that the traced part is larger than a pass may trace.
proof fn lemma_stage_aborted<T>(
    g0: Seq<Allocation<T>>,
    roots: Seq<usize>,
    partial: Seq<usize>,
    limit: usize,
    g1: Seq<Allocation<T>>,
    g2: Seq<Allocation<T>>,
)
    requires
        well_formed(g0),
        roots.to_set() == buffered(g0),
        flood_inv(g0, roots, Mark::Clear, Mark::InProgress, partial, g1),
        partial.len() == limit,
        exists|c: usize|
            !partial.contains(c) && c < g0.len() && #[trigger] reachable(
                adjacency(g0),
                roots.to_set(),
                c,
            ),
        g2.len() == g1.len(),
        forall|v: usize|
            v < g1.len() ==> if partial.contains(v) {
                settled(Step::Reset, g1[v as int], #[trigger] g2[v as int])
            } else {
                g2[v as int] == g1[v as int]
            },
    ensures
        g2 == g0,
        traced(g0).finite(),
        traced(g0).len() > limit,
{
    assert forall|v: int| 0 <= v < g0.len() implies g2[v] == g0[v] by {
        let vu = v as usize;
        assert(node_ok(g0, v));
        assert(g1[vu as int].mark == if partial.contains(vu) {
            Mark::InProgress
        } else {
            g0[vu as int].mark
        });
        assert(g2[vu as int] == g0[vu as int]);
    }
    assert(g2 =~= g0);
    let c = choose|c: usize|
        !partial.contains(c) && c < g0.len() && #[trigger] reachable(
            adjacency(g0),
            roots.to_set(),
            c,
        );
    let more = partial.push(c);
    lemma_push_to_set(partial, c);
    assert(more.no_duplicates());
    assert forall|j: int| 0 <= j < more.len() implies more[j] < g0.len() by {}
    lemma_distinct_len(more, g0.len());
    lemma_traced_finite(g0);
    assert forall|w: usize| more.to_set().contains(w) implies traced(g0).contains(w) by {
        if partial.contains(w) {
            let j = choose|j: int| 0 <= j < partial.len() && partial[j] == w;
            assert(reachable(adjacency(g0), roots.to_set(), partial[j]));
        }
    }
    vstd::set_lib::lemma_len_subset(more.to_set(), traced(g0));
}

impl<T> Heap<T> {
    /// The candidate roots are what the first flood may start from.
    proof fn lemma_roots_seed(&self)
        requires
            self.wf(),
        ensures
            self.roots@.to_set() == buffered(self.records@),
            flood_pre(self.records@, self.roots@, Mark::Clear, Mark::InProgress),
    {
        let g0 = self.records@;
        let roots = self.roots@;
        let adj = adjacency(g0);
        assert forall|v: usize| roots.to_set().contains(v) <==> buffered(g0).contains(v) by {
            if roots.contains(v) {
                let i = choose|i: int| 0 <= i < roots.len() && roots[i] == v;
                assert(roots[i] < g0.len());
            }
            if buffered(g0).contains(v) {
                assert(g0[v as int].buffered);
                assert(roots[self.root_pos@[v as int] as int] == v);
            }
        }
        assert(roots.to_set() =~= buffered(g0));
        assert forall|i: int, j: int|
            0 <= i < roots.len() && 0 <= j < roots.len() && i != j implies roots[i] != roots[j] by {
            assert(self.root_pos@[roots[i] as int] == i);
            assert(self.root_pos@[roots[j] as int] == j);
        }
        assert forall|j: int| 0 <= j < roots.len() implies (#[trigger] roots[j]) < g0.len()
            && g0[roots[j] as int].mark == Mark::Clear by {
            assert(node_ok(g0, roots[j] as int));
        }
        assert forall|v: int| 0 <= v < g0.len() implies (#[trigger] g0[v]).mark
            != Mark::InProgress by {
            assert(node_ok(g0, v));
        }
        assert(closed_under_edges(adj, with_mark(g0, Mark::Clear))) by {
            assert forall|u: usize, k: int|
                with_mark(g0, Mark::Clear).contains(u) && u < adj.len() && 0 <= k < adj[u as int].len() implies with_mark(
                g0,
                Mark::Clear,
            ).contains(#[trigger] adj[u as int][k]) by {
                let c = adj[u as int][k];
                assert(c < g0.len());
                assert(node_ok(g0, c as int));
            }
        }
    }

    /// Runs one collection pass, now.
    ///
    /// The pass traces what can be reached from the candidate roots. Of the
    /// traced allocations it destroys those that are held only from within
    /// the traced part and cannot be reached from one that is held from
    /// outside of it; the others stay as they are, less the handles that the
    /// destroyed ones held to them. No candidate root is left. Returns the
    /// number of allocations destroyed.
    ///
    /// A pass that would have to trace more allocations than the heap's trace
    /// limit gives up instead: the heap stays as it was, candidate roots
    /// included.
    pub fn collect(&mut self) -> (r: Result<usize, Deferred>)
        requires
            old(self).wf(),
        ensures
            final(self).wf(),
            final(self).spec_threshold() == old(self).spec_threshold(),
            final(self).spec_trace_limit() == old(self).spec_trace_limit(),
            traced(old(self).nodes()).finite(),
            garbage(old(self).nodes()).finite(),
            garbage(old(self).nodes()).len() <= traced(old(self).nodes()).len() <= old(
                self,
            ).nodes().len(),
            pass_outcome(old(self).nodes(), old(self).spec_trace_limit(), r, final(self).nodes()),
            outside_handles_moved(old(self).nodes(), final(self).nodes(), None, 0),
            keeps_handles(old(self).nodes(), final(self).nodes()),
            nothing_returns(old(self).nodes(), final(self).nodes()),
            keeps_edges(old(self).nodes(), final(self).nodes()),
            rooted(old(self).nodes()) ==> rooted(final(self).nodes()),
            rooted(old(self).nodes()) && r is Ok ==> all_held(final(self).nodes()),
            buffered(old(self).nodes()) =~= Set::<usize>::empty() ==> r == Ok::<usize, Deferred>(0)
                && final(self).nodes() == old(self).nodes(),
    {
        let ghost g0 = self.records@;
        let limit = self.trace_limit;
        proof {
            self.lemma_roots_seed();
            lemma_traced_finite(g0);
        }
        let order = match flood(&mut self.records, &self.roots, Mark::Clear, Mark::InProgress, limit) {
            Err(partial) => {
                let ghost g1 = self.records@;
                let _ = settle(&mut self.records, &partial, Step::Reset);
                proof {
                    lemma_stage_aborted(g0, self.roots@, partial@, limit, g1, self.records@);
                    if buffered(g0) =~= Set::<usize>::empty() {
                        crate::laws::lemma_nothing_buffered_nothing_traced(g0);
                    }
                }
                return Err(Deferred);
            },
            Ok(order) => order,
        };
        let ghost g1 = self.records@;
        let _ = settle(&mut self.records, &order, Step::Prime);
        let ghost g2 = self.records@;
        proof {
            lemma_stage_primed(g0, self.roots@, order@, g1, g2);
            lemma_distinct_len(order@, g0.len());
        }
        adjust(&mut self.records, &order, false);
        let ghost g3 = self.records@;
        proof {
            lemma_stage_marked(g0, order@, g2, g3);
        }
        let anchors = settle(&mut self.records, &order, Step::Condemn);
        let ghost g4 = self.records@;
        proof {
            lemma_stage_condemned(g0, order@, g3, g4, anchors@);
        }
        let kept = match flood(
            &mut self.records,
            &anchors,
            Mark::Unreachable,
            Mark::Reachable,
            usize::MAX,
        ) {
            Err(partial) => {
                proof {
                    let c = choose|c: usize|
                        !partial@.contains(c) && c < g4.len() && #[trigger] reachable(
                            adjacency(g4),
                            anchors@.to_set(),
                            c,
                        );
                    let more = partial@.push(c);
                    assert forall|j: int| 0 <= j < more.len() implies more[j] < g0.len() by {}
                    lemma_distinct_len(more, g0.len());
                    assert(false);
                }
                return Err(Deferred);
            },
            Ok(kept) => kept,
        };
        let ghost g5 = self.records@;
        proof {
            lemma_stage_flooded(g0, anchors@, g4, g5, kept@);
        }
        adjust(&mut self.records, &kept, true);
        let ghost g6 = self.records@;
        proof {
            lemma_stage_scanned(g0, g4, g5, kept@, g6);
            assert forall|i: int|
                0 <= i < order@.len() && g6[(#[trigger] order@[i]) as int].mark
                    == Mark::Unreachable implies g6[order@[i] as int].payload is Some by {
                let v = order@[i];
                assert(order@.to_set().contains(v));
                lemma_traced_facts(g0, v);
            }
        }
        let gone = settle(&mut self.records, &order, Step::Commit);
        self.roots.clear();
        proof {
            lemma_stage_committed(g0, order@, g6, self.records@, gone@);
            assert forall|gc: Gc| holds(g0, gc) implies #[trigger] holds(self.records@, gc) by {
                crate::laws::lemma_collected_keeps_handles(g0, self.records@, gc);
            }
            assert forall|v: int|
                0 <= v < g0.len() && (#[trigger] self.records@[v]).is_live() implies self.records@[v].payload
                == g0[v].payload && self.records@[v].meta == g0[v].meta by {
                let vu = v as usize;
                assert(self.records@[vu as int] == self.records@[v]);
                if garbage(g0).contains(vu) {
                    assert(is_destroyed(self.records@[vu as int]));
                }
            }
            if rooted(g0) {
                crate::rooted::lemma_collected_all_held(g0, self.records@);
                crate::rooted::lemma_all_held_rooted(self.records@);
            }
            if buffered(g0) =~= Set::<usize>::empty() {
                crate::laws::lemma_nothing_buffered_nothing_traced(g0);
                crate::laws::lemma_collect_nothing_buffered(g0, self.records@);
            }
            assert forall|v: usize|
                v < g0.len() && self.records@[v as int].is_live() implies #[trigger] external(
                self.records@,
                v,
            ) == external(g0, v) by {
                crate::laws::lemma_collected_external(g0, self.records@, v);
            }
        }
        Ok(gone.len())
    }

    /// The number of candidate roots that wait for the next pass.
    pub fn buffered_count(&self) -> (n: usize)
        requires
            self.wf(),
        ensures
            buffered(self.nodes()).finite(),
            n == buffered(self.nodes()).len(),
    {
        proof {
            self.lemma_roots_seed();
            self.roots@.unique_seq_to_set();
        }
        self.roots.len()
    }

    /// Whether a pass is due: more candidate roots are buffered than the
    /// threshold allows.
    pub fn collect_due(&self) -> (due: bool)
        requires
            self.wf(),
        ensures
            due == (buffered(self.nodes()).len() > self.spec_threshold()),
    {
        self.buffered_count() > self.threshold
    }

    /// Runs a pass if one is due, and tells how it went; `None` if none was due.
    pub fn collect_if_due(&mut self) -> (r: Option<Result<usize, Deferred>>)
        requires
            old(self).wf(),
        ensures
            final(self).wf(),
            final(self).spec_threshold() == old(self).spec_threshold(),
            final(self).spec_trace_limit() == old(self).spec_trace_limit(),
            if buffered(old(self).nodes()).len() > old(self).spec_threshold() {
                r is Some && pass_outcome(
                    old(self).nodes(),
                    old(self).spec_trace_limit(),
                    r.unwrap(),
                    final(self).nodes(),
                )
            } else {
                r is None && final(self).nodes() == old(self).nodes()
            },
            keeps_handles(old(self).nodes(), final(self).nodes()),
            outside_handles_moved(old(self).nodes(), final(self).nodes(), None, 0),
            nothing_returns(old(self).nodes(), final(self).nodes()),
            keeps_edges(old(self).nodes(), final(self).nodes()),
            rooted(old(self).nodes()) ==> rooted(final(self).nodes()),
    {
        if self.collect_due() {
            Some(self.collect())
        } else {
            None
        }
    }

    /// Gives a handle back and then runs a pass if that made one due.
    /// Returns the number of allocations that giving the handle back
    /// destroyed and, if a pass ran, how it went.
    pub fn drop_gc_collecting(&mut self, gc: Gc) -> (r: (usize, Option<Result<usize, Deferred>>))
        requires
            old(self).wf(),
            holds(old(self).nodes(), gc),
        ensures
            final(self).wf(),
            final(self).spec_threshold() == old(self).spec_threshold(),
            final(self).spec_trace_limit() == old(self).spec_trace_limit(),
            gave_back_collecting(
                old(self).nodes(),
                gc.target(),
                old(self).spec_threshold(),
                old(self).spec_trace_limit(),
                r,
                final(self).nodes(),
            ),
            keeps_handles_but(old(self).nodes(), final(self).nodes(), gc.target()),
            outside_handles_moved(old(self).nodes(), final(self).nodes(), gc.target(), 1),
            nothing_returns(old(self).nodes(), final(self).nodes()),
            keeps_edges(old(self).nodes(), final(self).nodes()),
            rooted(old(self).nodes()) ==> rooted(final(self).nodes()),
    {
        let ghost g0 = self.records@;
        let freed = self.drop_gc(gc);
        let ghost mid = self.records@;
        let ghost order = match gc.target() {
            None => Seq::<usize>::empty(),
            Some(x) => choose|order: Seq<usize>|
                order.len() == freed && #[trigger] dropped(g0, x, order, mid),
        };
        let pass = self.collect_if_due();
        proof {
            assert(gave_back(g0, gc.target(), order, mid));
        }
        (freed, pass)
    }
}

} // verus!
