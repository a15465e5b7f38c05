use dumpster::handle::Gc;
use dumpster::heap::Heap;

/// A small pseudo-random generator: the same steps every run.
struct Lcg(u64);

impl Lcg {
    fn next(&mut self) -> u64 {
        self.0 = self.0.wrapping_mul(6364136223846793005).wrapping_add(1442695040888963407);
        self.0 >> 33
    }

    fn below(&mut self, n: usize) -> usize {
        (self.next() % (n as u64)) as usize
    }
}

/// What the heap should hold, kept by plain bookkeeping.
struct Model {
    alive: Vec<bool>,
    edges: Vec<Vec<usize>>,
    /// the handles held outside the heap, by the allocation they name
    held: Vec<Vec<Gc>>,
}

impl Model {
    fn in_degree(&self, v: usize) -> usize {
        self.edges.iter().map(|list| list.iter().filter(|&&t| t == v).count()).sum()
    }

    fn count(&self, v: usize) -> usize {
        self.held[v].len() + self.in_degree(v)
    }

    /// Destroys `v` and whatever only it kept alive; returns how many went.
    fn destroy(&mut self, v: usize) -> usize {
        let mut freed = 0;
        let mut pending = vec![v];
        while let Some(u) = pending.pop() {
            self.alive[u] = false;
            freed += 1;
            let owned = std::mem::take(&mut self.edges[u]);
            for c in owned {
                if self.alive[c] && self.count(c) == 0 && !pending.contains(&c) {
                    pending.push(c);
                }
            }
        }
        freed
    }

    /// The allocations that a handle outside the heap keeps alive.
    fn reachable_from_held(&self) -> Vec<bool> {
        let n = self.alive.len();
        let mut seen = vec![false; n];
        let mut stack: Vec<usize> = (0..n).filter(|&v| !self.held[v].is_empty()).collect();
        for &v in &stack {
            seen[v] = true;
        }
        while let Some(u) = stack.pop() {
            for &c in &self.edges[u] {
                if !seen[c] {
                    seen[c] = true;
                    stack.push(c);
                }
            }
        }
        seen
    }

    /// Destroys what no handle outside the heap keeps alive; returns how many went.
    fn collect(&mut self) -> usize {
        let keep = self.reachable_from_held();
        let mut freed = 0;
        for v in 0..self.alive.len() {
            if self.alive[v] && !keep[v] {
                self.alive[v] = false;
                self.edges[v].clear();
                freed += 1;
            }
        }
        freed
    }
}

fn agree(heap: &Heap<usize>, model: &Model) {
    assert_eq!(heap.len(), model.alive.len());
    for v in 0..model.alive.len() {
        assert_eq!(heap.is_live(v), model.alive[v]);
        assert_eq!(heap.inside_count(v), model.in_degree(v));
        for gc in &model.held[v] {
            assert!(heap.owns(gc));
            assert_eq!(heap.ref_count(gc), model.count(v));
            assert_eq!(heap.get(gc), Some(&v));
            assert_eq!(heap.edge_count(gc), model.edges[v].len());
        }
    }
}

fn run(seed: u64, steps: usize) {
    let mut rng = Lcg(seed);
    let mut heap: Heap<usize> = Heap::new(usize::MAX, usize::MAX);
    let mut model = Model { alive: Vec::new(), edges: Vec::new(), held: Vec::new() };
    for _ in 0..steps {
        let n = model.alive.len();
        let holders: Vec<usize> = (0..n).filter(|&v| !model.held[v].is_empty()).collect();
        match rng.below(7) {
            0 => {
                if n < 24 {
                    let gc = heap.allocate(n);
                    model.alive.push(true);
                    model.edges.push(Vec::new());
                    model.held.push(vec![gc]);
                }
            }
            1 => {
                if !holders.is_empty() {
                    let v = holders[rng.below(holders.len())];
                    let copy = heap.clone_gc(&model.held[v][0]);
                    assert!(copy.ptr_eq(&model.held[v][0]));
                    model.held[v].push(copy);
                }
            }
            2 | 3 => {
                // move a handle to `c` into the payload of `o`
                if !holders.is_empty() {
                    let c = holders[rng.below(holders.len())];
                    let o = holders[rng.below(holders.len())];
                    if o != c || model.held[c].len() >= 2 {
                        let child = model.held[c].pop().unwrap();
                        assert!(heap.link(&model.held[o][0], child).is_ok());
                        model.edges[o].push(c);
                    }
                }
            }
            4 => {
                // move a handle out of a payload again
                if !holders.is_empty() {
                    let o = holders[rng.below(holders.len())];
                    if !model.edges[o].is_empty() {
                        let k = rng.below(model.edges[o].len());
                        let gc = heap.unlink(&model.held[o][0], k).unwrap();
                        let c = model.edges[o].remove(k);
                        assert_eq!(gc.slot(), Some(c));
                        model.held[c].push(gc);
                    }
                }
            }
            5 => {
                if !holders.is_empty() {
                    let v = holders[rng.below(holders.len())];
                    let gc = model.held[v].pop().unwrap();
                    let freed = heap.drop_gc(gc);
                    let expected = if model.count(v) == 0 { model.destroy(v) } else { 0 };
                    assert_eq!(freed, expected);
                }
            }
            _ => {
                let freed = heap.collect();
                assert_eq!(freed, Ok(model.collect()));
                assert_eq!(heap.buffered_count(), 0);
                // nothing is left but what a handle outside the heap keeps alive
                let keep = model.reachable_from_held();
                for v in 0..model.alive.len() {
                    assert_eq!(heap.is_live(v), keep[v] && model.alive[v]);
                }
            }
        }
        agree(&heap, &model);
    }
    // give everything back: what is left after a pass is nothing
    for v in 0..model.alive.len() {
        while let Some(gc) = model.held[v].pop() {
            let freed = heap.drop_gc(gc);
            let expected = if model.count(v) == 0 && model.alive[v] { model.destroy(v) } else { 0 };
            assert_eq!(freed, expected);
        }
    }
    assert_eq!(heap.collect(), Ok(model.collect()));
    for v in 0..model.alive.len() {
        assert!(!heap.is_live(v));
        assert!(!model.alive[v]);
    }
    assert_eq!(heap.collect(), Ok(0));
}

#[test]
fn heap_agrees_with_plain_bookkeeping() {
    for seed in 0..40 {
        run(seed * 7919 + 1, 300);
    }
}

#[test]
fn heap_agrees_with_plain_bookkeeping_on_long_runs() {
    for seed in 0..4 {
        run(seed * 104729 + 17, 1500);
    }
}
