//! Handles owned by payloads: moving a handle into a payload, and out again.

use crate::allocation::Allocation;
use crate::graph::{
    count_in, in_degree, lemma_count_in_push, lemma_count_in_remove, targets_in_range,
};
use crate::handle::Gc;
use crate::heap::Heap;
use crate::model::{
    adjacency, external, holds, holds_both, keeps_handles, keeps_handles_but,
    lemma_adjacency_update, lemma_in_count_update, linked, names, node_ok, nothing_returns,
    outside_handles_moved, unlinked,
};
use crate::rooted::{lemma_rooted_linked, lemma_rooted_unlinked, rooted};
use vstd::prelude::*;

verus! {

/// Replacing the edges of `o` by `edges` moves each count of handles held
/// inside the heap by the difference in what `o` holds.
proof fn lemma_in_degree_update<T>(
    g: Seq<Allocation<T>>,
    o: usize,
    rec: Allocation<T>,
    v: usize,
)
    requires
        g.len() <= usize::MAX,
        o < g.len(),
    ensures
        in_degree(adjacency(g.update(o as int, rec)), v) + count_in(g[o as int].edges@, v)
            == in_degree(adjacency(g), v) + count_in(rec.edges@, v),
{
    lemma_adjacency_update(g, o as int, rec);
    lemma_in_count_update(adjacency(g), Set::full(), o, rec.edges@, v);
}

impl<T> Heap<T> {
    /// Moves the handle `child` into the payload that `owner` names, which
    /// owns it from then on. The allocation that `child` names counts as many
    /// handles as before; one of them is now held inside the heap.
    ///
    /// A dead `child` is taken and not recorded: dead handles are counted
    /// nowhere. If `owner` is dead there is no payload to own the handle, and
    /// `child` is handed back.
    pub fn link(&mut self, owner: &Gc, child: Gc) -> (r: Result<(), Gc>)
        requires
            old(self).wf(),
            names(old(self).nodes(), *owner),
            holds(old(self).nodes(), child),
        ensures
            final(self).wf(),
            names(final(self).nodes(), *owner),
            holds_both(old(self).nodes(), *owner, child) ==> holds(final(self).nodes(), *owner),
            holds_both(old(self).nodes(), *owner, child) && rooted(old(self).nodes()) ==> rooted(
                final(self).nodes(),
            ),
            keeps_handles_but(
                old(self).nodes(),
                final(self).nodes(),
                if owner.target() is Some {
                    child.target()
                } else {
                    None
                },
            ),
            final(self).spec_threshold() == old(self).spec_threshold(),
            final(self).spec_trace_limit() == old(self).spec_trace_limit(),
            linked(old(self).nodes(), *owner, child, r, final(self).nodes()),
            nothing_returns(old(self).nodes(), final(self).nodes()),
            outside_handles_moved(
                old(self).nodes(),
                final(self).nodes(),
                if owner.target() is Some {
                    child.target()
                } else {
                    None
                },
                1,
            ),
    {
        let o = match owner.slot() {
            None => {
                return Err(child);
            },
            Some(o) => o,
        };
        let c = match child.slot() {
            None => {
                return Ok(());
            },
            Some(c) => c,
        };
        let ghost g = self.records@;
        self.records[o].edges.push(c);
        proof {
            let g2 = self.records@;
            let adj = adjacency(g);
            let adj2 = adjacency(g2);
            assert(g2 =~= g.update(o as int, g2[o as int]));
            lemma_adjacency_update(g, o as int, g2[o as int]);
            assert(targets_in_range(adj2)) by {
                assert forall|u: int, k: int|
                    0 <= u < adj2.len() && 0 <= k < adj2[u].len() implies (#[trigger] adj2[u][k])
                    < adj2.len() by {
                    if u == o && k == adj[u].len() {
                    } else {
                        assert(adj2[u][k] == adj[u][k]);
                    }
                }
            }
            assert forall|v: usize| v < g.len() implies external(g2, v) == #[trigger] external(g, v)
                - if v == c {
                1int
            } else {
                0int
            } by {
                lemma_in_degree_update(g, o, g2[o as int], v);
                lemma_count_in_push(g[o as int].edges@, c, v);
            }
            assert forall|v: int| 0 <= v < g2.len() implies #[trigger] node_ok(g2, v) by {
                assert(node_ok(g, v));
                let vu = v as usize;
                assert(external(g2, vu) == external(g, vu) - if vu == c {
                    1int
                } else {
                    0int
                });
            }
            if holds_both(g, *owner, child) && rooted(g) {
                lemma_rooted_linked(g, *owner, child, g2);
            }
        }
        Ok(())
    }

    /// Moves the `k`-th handle that the payload named by `owner` owns out of
    /// the payload and returns it. The allocation it names counts as many
    /// handles as before; one more of them is now held outside the heap.
    ///
    /// Returns `None`, and changes nothing, if `owner` is dead or its payload
    /// owns no more than `k` handles.
    pub fn unlink(&mut self, owner: &Gc, k: usize) -> (r: Option<Gc>)
        requires
            old(self).wf(),
            names(old(self).nodes(), *owner),
        ensures
            final(self).wf(),
            rooted(old(self).nodes()) ==> rooted(final(self).nodes()),
            keeps_handles(old(self).nodes(), final(self).nodes()),
            final(self).spec_threshold() == old(self).spec_threshold(),
            final(self).spec_trace_limit() == old(self).spec_trace_limit(),
            unlinked(old(self).nodes(), *owner, k, r, final(self).nodes()),
            nothing_returns(old(self).nodes(), final(self).nodes()),
            r matches Some(gc) ==> holds(final(self).nodes(), gc),
            outside_handles_moved(
                old(self).nodes(),
                final(self).nodes(),
                match r {
                    Some(gc) => gc.target(),
                    None => None,
                },
                -1,
            ),
    {
        let o = match owner.slot() {
            None => {
                return None;
            },
            Some(o) => o,
        };
        if k >= self.records[o].edges.len() {
            return None;
        }
        let ghost g = self.records@;
        let c = self.records[o].edges.remove(k);
        proof {
            let g2 = self.records@;
            let adj = adjacency(g);
            let adj2 = adjacency(g2);
            assert(adj[o as int][k as int] == c);
            assert(c < g.len());
            assert(g2 =~= g.update(o as int, g2[o as int]));
            lemma_adjacency_update(g, o as int, g2[o as int]);
            assert(targets_in_range(adj2)) by {
                assert forall|u: int, j: int|
                    0 <= u < adj2.len() && 0 <= j < adj2[u].len() implies (#[trigger] adj2[u][j])
                    < adj2.len() by {
                    if u == o {
                        if j < k {
                            assert(adj2[u][j] == adj[u][j]);
                        } else {
                            assert(adj2[u][j] == adj[u][j + 1]);
                        }
                    } else {
                        assert(adj2[u][j] == adj[u][j]);
                    }
                }
            }
            assert forall|v: usize| v < g.len() implies external(g2, v) == #[trigger] external(g, v)
                + if v == c {
                1int
            } else {
                0int
            } by {
                lemma_in_degree_update(g, o, g2[o as int], v);
                lemma_count_in_remove(g[o as int].edges@, k as int, v);
            }
            assert forall|v: int| 0 <= v < g2.len() implies #[trigger] node_ok(g2, v) by {
                assert(node_ok(g, v));
                let vu = v as usize;
                assert(external(g2, vu) == external(g, vu) + if vu == c {
                    1int
                } else {
                    0int
                });
            }
            if rooted(g) {
                lemma_rooted_unlinked(g, o, k as int, g2);
            }
            assert(node_ok(g, c as int));
            assert(external(g2, c) == external(g, c) + 1);
            // the target is alive: the payload held a handle to it
            crate::graph::lemma_count_in_contains(adj[o as int], c);
            assert(adj[o as int].contains(c));
            crate::graph::lemma_in_count_bound(adj, Set::full(), o, c, adj.len());
        }
        let meta = self.records[c].meta;
        Some(Gc::live(c, meta))
    }

    /// The number of handles that the payload named by `owner` owns; zero
    /// for a dead handle.
    pub fn edge_count(&self, owner: &Gc) -> (n: usize)
        requires
            self.wf(),
            names(self.nodes(), *owner),
        ensures
            n == match owner.target() {
                None => 0,
                Some(o) => self.nodes()[o as int].edges@.len(),
            },
    {
        match owner.slot() {
            None => 0,
            Some(o) => self.records[o].edges.len(),
        }
    }
}

} // verus!
