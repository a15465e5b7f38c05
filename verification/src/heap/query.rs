//! Questions that a caller can ask of a heap at run time.

use crate::graph::{
    count_in, in_count_upto, in_degree, lemma_count_in_empty, lemma_count_in_prefix,
    lemma_count_in_take, lemma_in_count_upto_mono,
};
use crate::handle::Gc;
use crate::heap::Heap;
use crate::model::{adjacency, holds, holds_both, names, node_ok};
use vstd::prelude::*;

verus! {

impl<T> Heap<T> {
    /// Whether `slot` names an allocation whose payload has not been destroyed.
    pub fn is_live(&self, slot: usize) -> (alive: bool)
        ensures
            alive == (slot < self.nodes().len() && self.nodes()[slot as int].is_live()),
    {
        slot < self.records.len() && self.records[slot].payload.is_some()
    }

    /// Whether the allocation that `gc` names waits for the next pass as a
    /// candidate root; `false` for a dead handle.
    pub fn is_buffered(&self, gc: &Gc) -> (queued: bool)
        requires
            self.wf(),
            names(self.nodes(), *gc),
        ensures
            queued == match gc.target() {
                None => false,
                Some(s) => self.nodes()[s as int].buffered,
            },
    {
        match gc.slot() {
            None => false,
            Some(s) => self.records[s].buffered,
        }
    }

    /// The number of handles to `v` that payloads own. This looks at every
    /// handle in the heap.
    pub fn inside_count(&self, v: usize) -> (n: usize)
        requires
            self.wf(),
            v < self.nodes().len(),
        ensures
            n == in_degree(adjacency(self.nodes()), v),
    {
        let ghost g = self.records@;
        let ghost adj = adjacency(g);
        let ghost all = Set::<usize>::full();
        let mut n: usize = 0;
        let mut u: usize = 0;
        proof {
            assert(node_ok(g, v as int));
        }
        while u < self.records.len()
            invariant
                g == self.records@,
                adj == adjacency(g),
                all == Set::<usize>::full(),
                v < g.len(),
                g.len() <= usize::MAX,
                u <= g.len(),
                n == in_count_upto(adj, all, v, u as nat),
                in_degree(adj, v) <= usize::MAX,
            decreases g.len() - u,
        {
            let n_edges = self.records[u].edges.len();
            let mut k: usize = 0;
            proof {
                assert(adj[u as int].take(0) =~= Seq::<usize>::empty());
                lemma_count_in_empty(v);
            }
            while k < n_edges
                invariant
                    g == self.records@,
                    adj == adjacency(g),
                    all == Set::<usize>::full(),
                    v < g.len(),
                    g.len() <= usize::MAX,
                    u < g.len(),
                    n_edges == adj[u as int].len(),
                    k <= n_edges,
                    n == in_count_upto(adj, all, v, u as nat) + count_in(
                        adj[u as int].take(k as int),
                        v,
                    ),
                    in_degree(adj, v) <= usize::MAX,
                decreases n_edges - k,
            {
                proof {
                    lemma_count_in_take(adj[u as int], k as int, v);
                    lemma_count_in_prefix(adj[u as int], k as int + 1, v);
                    lemma_in_count_upto_mono(adj, all, v, (u + 1) as nat, adj.len());
                }
                if self.records[u].edges[k] == v {
                    n += 1;
                }
                k += 1;
            }
            proof {
                assert(adj[u as int].take(n_edges as int) =~= adj[u as int]);
            }
            u += 1;
        }
        n
    }

    /// Whether `gc` is one of the handles that this heap counts: it is dead,
    /// or it names a live allocation of this heap that is held from outside
    /// the heap, and carries that allocation's metadata. For a live handle
    /// this looks at every handle in the heap.
    pub fn owns(&self, gc: &Gc) -> (ok: bool)
        requires
            self.wf(),
        ensures
            ok == holds(self.nodes(), *gc),
    {
        match gc.slot() {
            None => true,
            Some(s) => {
                if s >= self.records.len() {
                    return false;
                }
                if self.records[s].payload.is_none() || self.records[s].meta != gc.metadata() {
                    return false;
                }
                let inside = self.inside_count(s);
                proof {
                    assert(node_ok(self.records@, s as int));
                }
                self.records[s].strong_count > inside
            },
        }
    }

    /// Whether `gc` names nothing, or a live allocation of this heap whose
    /// metadata it carries.
    pub fn knows(&self, gc: &Gc) -> (ok: bool)
        ensures
            ok == names(self.nodes(), *gc),
    {
        match gc.slot() {
            None => true,
            Some(s) => s < self.records.len() && self.records[s].payload.is_some()
                && self.records[s].meta == gc.metadata(),
        }
    }

    /// Whether `a` and `b` are two of the handles that this heap counts.
    /// For live handles this looks at every handle in the heap.
    pub fn owns_both(&self, a: &Gc, b: &Gc) -> (ok: bool)
        requires
            self.wf(),
        ensures
            ok == holds_both(self.nodes(), *a, *b),
    {
        if !self.owns(a) || !self.owns(b) {
            return false;
        }
        match (a.slot(), b.slot()) {
            (Some(s), Some(t)) => {
                if s == t {
                    let inside = self.inside_count(s);
                    proof {
                        assert(node_ok(self.records@, s as int));
                    }
                    self.records[s].strong_count - inside >= 2
                } else {
                    true
                }
            },
            _ => true,
        }
    }
}

} // verus!
