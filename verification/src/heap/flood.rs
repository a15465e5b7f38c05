//! Spreading a mark from some allocations over everything that can be
//! reached from them.

use crate::allocation::{Allocation, Mark};
use crate::graph::{
    closed_under_edges, lemma_distinct_len, lemma_push_to_set, lemma_reach_closed,
    lemma_reach_source, lemma_reach_step, reach_set, reachable, targets_in_range,
};
use crate::model::adjacency;
use vstd::prelude::*;

verus! {

/// The allocations that carry the mark `mark`.
pub open spec fn with_mark<T>(g: Seq<Allocation<T>>, mark: Mark) -> Set<usize> {
    Set::new(|v: usize| v < g.len() && g[v as int].mark == mark)
}

/// The successors of the first `i` allocations of `queue`, and the first `k`
/// successors of the next one, are in `queue`.
pub open spec fn explored(adj: Seq<Seq<usize>>, queue: Seq<usize>, i: int, k: int) -> bool {
    forall|j: int, e: int|
        0 <= j < queue.len() && 0 <= e < adj[queue[j] as int].len() && (j < i || (j == i && e < k))
            ==> queue.contains(#[trigger] adj[queue[j] as int][e])
}

/// What holds while the marks spread from the seeds.
pub open spec fn flood_inv<T>(
    g0: Seq<Allocation<T>>,
    seeds: Seq<usize>,
    from: Mark,
    to: Mark,
    queue: Seq<usize>,
    cur: Seq<Allocation<T>>,
) -> bool {
    let adj = adjacency(g0);
    &&& cur.len() == g0.len()
    &&& queue.no_duplicates()
    &&& forall|j: int|
        0 <= j < queue.len() ==> {
            &&& (#[trigger] queue[j]) < g0.len()
            &&& g0[queue[j] as int].mark == from
            &&& reachable(adj, seeds.to_set(), queue[j])
        }
    &&& forall|v: usize|
        v < g0.len() ==> (#[trigger] cur[v as int]) == (Allocation {
            mark: if queue.contains(v) {
                to
            } else {
                g0[v as int].mark
            },
            ..g0[v as int]
        })
}

/// What may be asked to spread marks.
pub open spec fn flood_pre<T>(g0: Seq<Allocation<T>>, seeds: Seq<usize>, from: Mark, to: Mark) -> bool {
    &&& from != to
    &&& g0.len() <= usize::MAX
    &&& targets_in_range(adjacency(g0))
    &&& seeds.no_duplicates()
    &&& forall|j: int|
        0 <= j < seeds.len() ==> (#[trigger] seeds[j]) < g0.len() && g0[seeds[j] as int].mark
            == from
    &&& forall|v: int| 0 <= v < g0.len() ==> (#[trigger] g0[v]).mark != to
    &&& closed_under_edges(adjacency(g0), with_mark(g0, from))
}

/// Marking one more allocation, found from the seeds.
proof fn lemma_flood_push<T>(
    g0: Seq<Allocation<T>>,
    seeds: Seq<usize>,
    from: Mark,
    to: Mark,
    queue: Seq<usize>,
    cur: Seq<Allocation<T>>,
    c: usize,
)
    requires
        flood_pre(g0, seeds, from, to),
        flood_inv(g0, seeds, from, to, queue, cur),
        c < g0.len(),
        cur[c as int].mark == from,
        reachable(adjacency(g0), seeds.to_set(), c),
    ensures
        !queue.contains(c),
        flood_inv(
            g0,
            seeds,
            from,
            to,
            queue.push(c),
            cur.update(c as int, (Allocation { mark: to, ..cur[c as int] })),
        ),
        queue.push(c).len() <= g0.len(),
{
    let longer = queue.push(c);
    let cur2 = cur.update(c as int, (Allocation { mark: to, ..cur[c as int] }));
    assert(cur[c as int].mark == from);
    lemma_push_to_set(queue, c);
    assert forall|v: usize| v < g0.len() implies (#[trigger] cur2[v as int]) == (Allocation {
        mark: if longer.contains(v) {
            to
        } else {
            g0[v as int].mark
        },
        ..g0[v as int]
    }) by {
        assert(longer.to_set().contains(v) == (queue.contains(v) || v == c));
        assert(cur[v as int].mark == if queue.contains(v) {
            to
        } else {
            g0[v as int].mark
        });
    }
    assert forall|j: int| 0 <= j < longer.len() implies longer[j] < g0.len() by {}
    lemma_distinct_len(longer, g0.len());
}

/// An allocation found behind a marked one is already marked or still carries `from`.
proof fn lemma_flood_edge<T>(
    g0: Seq<Allocation<T>>,
    seeds: Seq<usize>,
    from: Mark,
    to: Mark,
    queue: Seq<usize>,
    cur: Seq<Allocation<T>>,
    i: int,
    k: int,
)
    requires
        flood_pre(g0, seeds, from, to),
        flood_inv(g0, seeds, from, to, queue, cur),
        0 <= i < queue.len(),
        0 <= k < g0[queue[i] as int].edges@.len(),
    ensures
        ({
            let c = g0[queue[i] as int].edges@[k];
            &&& c < g0.len()
            &&& reachable(adjacency(g0), seeds.to_set(), c)
            &&& cur[c as int].mark != from ==> queue.contains(c)
            &&& cur[c as int].mark == from ==> !queue.contains(c)
        }),
{
    let adj = adjacency(g0);
    let u = queue[i];
    let c = g0[u as int].edges@[k];
    assert(adj[u as int][k] == c);
    assert(with_mark(g0, from).contains(u));
    assert(with_mark(g0, from).contains(adj[u as int][k]));
    assert(adj[u as int].contains(c));
    lemma_reach_step(adj, seeds.to_set(), u, c);
    assert(cur[c as int].mark == if queue.contains(c) {
        to
    } else {
        g0[c as int].mark
    });
}

/// When every marked allocation has been looked behind, the marked ones are
/// exactly what can be reached from the seeds.
proof fn lemma_flood_done<T>(
    g0: Seq<Allocation<T>>,
    seeds: Seq<usize>,
    from: Mark,
    to: Mark,
    queue: Seq<usize>,
    cur: Seq<Allocation<T>>,
)
    requires
        flood_pre(g0, seeds, from, to),
        flood_inv(g0, seeds, from, to, queue, cur),
        forall|j: int| 0 <= j < seeds.len() ==> queue.contains(#[trigger] seeds[j]),
        explored(adjacency(g0), queue, queue.len() as int, 0),
    ensures
        queue.to_set() == reach_set(adjacency(g0), seeds.to_set()),
{
    let adj = adjacency(g0);
    let marked = queue.to_set();
    assert(closed_under_edges(adj, marked)) by {
        assert forall|u: usize, e: int|
            marked.contains(u) && u < adj.len() && 0 <= e < adj[u as int].len() implies marked.contains(
            #[trigger] adj[u as int][e],
        ) by {
            let j = choose|j: int| 0 <= j < queue.len() && queue[j] == u;
            assert(queue.contains(adj[queue[j] as int][e]));
        }
    }
    assert forall|v: usize| reach_set(adj, seeds.to_set()).contains(v) implies marked.contains(
        v,
    ) by {
        assert forall|s: usize| seeds.to_set().contains(s) && s < adj.len() implies marked.contains(
            s,
        ) by {
            let j = choose|j: int| 0 <= j < seeds.len() && seeds[j] == s;
            assert(queue.contains(seeds[j]));
        }
        lemma_reach_closed(adj, seeds.to_set(), marked, v);
    }
    assert forall|v: usize| marked.contains(v) implies reach_set(adj, seeds.to_set()).contains(
        v,
    ) by {
        let j = choose|j: int| 0 <= j < queue.len() && queue[j] == v;
        assert(reachable(adj, seeds.to_set(), queue[j]));
    }
    assert(marked =~= reach_set(adj, seeds.to_set()));
}

/// Spreads the mark `to` from the seeds over everything that can be reached
/// from them, through allocations that carry the mark `from`. Returns the
/// marked allocations in the order in which they were found; gives up, with
/// those found so far, rather than mark more than `limit` allocations.
pub fn flood<T>(
    records: &mut Vec<Allocation<T>>,
    seeds: &Vec<usize>,
    from: Mark,
    to: Mark,
    limit: usize,
) -> (r: Result<Vec<usize>, Vec<usize>>)
    requires
        flood_pre(old(records)@, seeds@, from, to),
    ensures
        match r {
            Ok(queue) => {
                &&& flood_inv(old(records)@, seeds@, from, to, queue@, final(records)@)
                &&& queue@.to_set() == reach_set(adjacency(old(records)@), seeds@.to_set())
                &&& queue@.len() <= limit
            },
            Err(queue) => {
                &&& flood_inv(old(records)@, seeds@, from, to, queue@, final(records)@)
                &&& queue@.len() == limit
                &&& exists|c: usize|
                    !queue@.contains(c) && c < old(records)@.len() && #[trigger] reachable(
                        adjacency(old(records)@),
                        seeds@.to_set(),
                        c,
                    )
            },
        },
{
    let ghost g0 = records@;
    let ghost adj = adjacency(g0);
    let mut queue: Vec<usize> = Vec::new();
    let mut s: usize = 0;
    while s < seeds.len()
        invariant
            flood_pre(g0, seeds@, from, to),
            flood_inv(g0, seeds@, from, to, queue@, records@),
            s <= seeds.len(),
            queue@ == seeds@.take(s as int),
            queue@.len() <= limit,
            queue@.len() <= g0.len(),
            adj == adjacency(g0),
            g0 == old(records)@,
        decreases seeds.len() - s,
    {
        let v = seeds[s];
        proof {
            assert(seeds@.to_set().contains(v));
            lemma_reach_source(adj, seeds@.to_set(), v);
            if queue@.contains(v) {
                let j = choose|j: int| 0 <= j < queue@.len() && queue@[j] == v;
                assert(seeds@[j] == seeds@[s as int]);
            }
            assert(records@[v as int].mark == from);
            lemma_flood_push(g0, seeds@, from, to, queue@, records@, v);
        }
        if queue.len() >= limit {
            proof {
                assert(!queue@.contains(v) && v < g0.len() && reachable(adj, seeds@.to_set(), v));
            }
            return Err(queue);
        }
        records[v].mark = to;
        queue.push(v);
        s += 1;
        proof {
            assert(queue@ =~= seeds@.take(s as int));
        }
    }
    proof {
        assert(seeds@.take(s as int) =~= seeds@);
    }
    let mut i: usize = 0;
    while i < queue.len()
        invariant
            flood_pre(g0, seeds@, from, to),
            flood_inv(g0, seeds@, from, to, queue@, records@),
            forall|j: int| 0 <= j < seeds@.len() ==> queue@.contains(#[trigger] seeds@[j]),
            explored(adj, queue@, i as int, 0),
            adj == adjacency(g0),
            g0 == old(records)@,
            i <= queue.len(),
            queue@.len() <= limit,
            queue@.len() <= g0.len(),
        decreases g0.len() - i,
    {
        let u = queue[i];
        let n_edges = records[u].edges.len();
        let mut k: usize = 0;
        while k < n_edges
            invariant
                flood_pre(g0, seeds@, from, to),
                flood_inv(g0, seeds@, from, to, queue@, records@),
                forall|j: int| 0 <= j < seeds@.len() ==> queue@.contains(#[trigger] seeds@[j]),
                explored(adj, queue@, i as int, k as int),
                adj == adjacency(g0),
            g0 == old(records)@,
                i < queue.len(),
                u == queue@[i as int],
                n_edges == g0[u as int].edges@.len(),
                k <= n_edges,
                queue@.len() <= limit,
                queue@.len() <= g0.len(),
            decreases n_edges - k,
        {
            let c = records[u].edges[k];
            let ghost before = queue@;
            proof {
                lemma_flood_edge(g0, seeds@, from, to, queue@, records@, i as int, k as int);
            }
            if records[c].mark == from {
                proof {
                    lemma_flood_push(g0, seeds@, from, to, queue@, records@, c);
                }
                if queue.len() >= limit {
                    proof {
                        assert(!queue@.contains(c) && c < g0.len() && reachable(
                            adj,
                            seeds@.to_set(),
                            c,
                        ));
                    }
                    return Err(queue);
                }
                records[c].mark = to;
                queue.push(c);
            }
            proof {
                let after = queue@;
                assert(after.contains(c)) by {
                    if after.len() > before.len() {
                        assert(after[before.len() as int] == c);
                    }
                }
                assert forall|j: int| 0 <= j < before.len() implies after.contains(
                    #[trigger] before[j],
                ) by {
                    assert(after[j] == before[j]);
                }
                assert(explored(adj, after, i as int, k as int + 1)) by {
                    assert forall|j: int, e: int|
                        0 <= j < after.len() && 0 <= e < adj[after[j] as int].len() && (j < i || (j
                            == i && e < k + 1)) implies after.contains(
                        #[trigger] adj[after[j] as int][e],
                    ) by {
                        assert(after[j] == before[j]);
                        if j == i && e == k {
                            assert(adj[after[j] as int][e] == c);
                        } else {
                            let t = adj[before[j] as int][e];
                            assert(before.contains(t));
                            let w = choose|w: int| 0 <= w < before.len() && before[w] == t;
                            assert(after.contains(before[w]));
                        }
                    }
                }
                assert forall|j: int| 0 <= j < seeds@.len() implies after.contains(
                    #[trigger] seeds@[j],
                ) by {
                    let t = seeds@[j];
                    assert(before.contains(t));
                    let w = choose|w: int| 0 <= w < before.len() && before[w] == t;
                    assert(after.contains(before[w]));
                }
            }
            k += 1;
        }
        i += 1;
    }
    proof {
        lemma_flood_done(g0, seeds@, from, to, queue@, records@);
    }
    Ok(queue)
}

} // verus!
