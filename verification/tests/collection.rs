use dumpster::handle::Gc;
use dumpster::heap::Heap;
use dumpster::model::Deferred;
use std::cell::Cell;
use std::rc::Rc;

struct Counted {
    destroyed: Rc<Cell<usize>>,
}

impl Drop for Counted {
    fn drop(&mut self) {
        self.destroyed.set(self.destroyed.get() + 1);
    }
}

fn counted(destroyed: &Rc<Cell<usize>>) -> Counted {
    Counted { destroyed: Rc::clone(destroyed) }
}

/// Makes a ring of `n` allocations, each owning a handle to the next, and
/// returns one outside handle to each.
fn ring(heap: &mut Heap<Counted>, destroyed: &Rc<Cell<usize>>, n: usize) -> Vec<Gc> {
    let mut handles = Vec::new();
    for _ in 0..n {
        handles.push(heap.allocate(counted(destroyed)));
    }
    for i in 0..n {
        let next = heap.clone_gc(&handles[(i + 1) % n]);
        assert!(heap.link(&handles[i], next).is_ok());
    }
    handles
}

#[test]
fn minimal_cycle_is_reclaimed_by_a_pass() {
    let destroyed = Rc::new(Cell::new(0));
    let mut heap: Heap<Counted> = Heap::new(16, usize::MAX);
    let mut handles = ring(&mut heap, &destroyed, 2);
    let b = handles.pop().unwrap();
    let a = handles.pop().unwrap();
    assert_eq!(heap.ref_count(&a), 2);
    assert_eq!(heap.ref_count(&b), 2);
    // dropping the outside handles frees nothing: each is held by the other
    assert_eq!(heap.drop_gc(a), 0);
    assert_eq!(heap.drop_gc(b), 0);
    assert_eq!(destroyed.get(), 0);
    assert!(heap.is_live(0) && heap.is_live(1));
    assert_eq!(heap.buffered_count(), 2);
    assert_eq!(heap.collect(), Ok(2));
    assert_eq!(destroyed.get(), 2);
    assert!(!heap.is_live(0) && !heap.is_live(1));
    assert_eq!(heap.buffered_count(), 0);
    // nothing is left to free, and nothing is destroyed twice
    assert_eq!(heap.collect(), Ok(0));
    assert_eq!(destroyed.get(), 2);
}

#[test]
fn cycle_with_an_outside_handle_survives_a_pass() {
    let destroyed = Rc::new(Cell::new(0));
    let mut heap: Heap<Counted> = Heap::new(16, usize::MAX);
    let mut handles = ring(&mut heap, &destroyed, 2);
    let b = handles.pop().unwrap();
    let a = handles.pop().unwrap();
    let extra = heap.clone_gc(&b);
    assert_eq!(heap.drop_gc(a), 0);
    assert_eq!(heap.drop_gc(b), 0);
    assert_eq!(heap.collect(), Ok(0));
    assert_eq!(destroyed.get(), 0);
    assert!(heap.is_live(0) && heap.is_live(1));
    assert_eq!(heap.ref_count(&extra), 2);
    assert!(heap.get(&extra).is_some());
    assert_eq!(heap.buffered_count(), 0);
    // once the last outside handle is gone the cycle goes too
    assert_eq!(heap.drop_gc(extra), 0);
    assert_eq!(heap.collect(), Ok(2));
    assert_eq!(destroyed.get(), 2);
}

#[test]
fn a_pass_with_nothing_buffered_changes_nothing() {
    let mut heap: Heap<u8> = Heap::new(16, usize::MAX);
    assert_eq!(heap.collect(), Ok(0));
    let a = heap.allocate(1);
    let b = heap.allocate(2);
    assert!(heap.link(&a, b).is_ok());
    assert_eq!(heap.buffered_count(), 0);
    assert_eq!(heap.collect(), Ok(0));
    assert_eq!(heap.collect(), Ok(0));
    assert_eq!(heap.ref_count(&a), 1);
    assert_eq!(heap.edge_count(&a), 1);
    assert!(heap.is_live(1));
    assert_eq!(heap.drop_gc(a), 2);
}

#[test]
fn self_loop_is_reclaimed() {
    let destroyed = Rc::new(Cell::new(0));
    let mut heap: Heap<Counted> = Heap::new(16, usize::MAX);
    let a = heap.allocate(counted(&destroyed));
    let again = heap.clone_gc(&a);
    assert!(heap.link(&a, again).is_ok());
    assert_eq!(heap.ref_count(&a), 2);
    assert_eq!(heap.drop_gc(a), 0);
    assert_eq!(destroyed.get(), 0);
    assert_eq!(heap.collect(), Ok(1));
    assert_eq!(destroyed.get(), 1);
}

#[test]
fn garbage_gives_back_its_handles_to_the_living() {
    let destroyed = Rc::new(Cell::new(0));
    let mut heap: Heap<Counted> = Heap::new(16, usize::MAX);
    let mut handles = ring(&mut heap, &destroyed, 2);
    let b = handles.pop().unwrap();
    let a = handles.pop().unwrap();
    // the cycle also owns a handle to an allocation that is held elsewhere
    let shared = heap.allocate(counted(&destroyed));
    let shared_for_a = heap.clone_gc(&shared);
    assert!(heap.link(&a, shared_for_a).is_ok());
    assert_eq!(heap.ref_count(&shared), 2);
    assert_eq!(heap.drop_gc(a), 0);
    assert_eq!(heap.drop_gc(b), 0);
    assert_eq!(heap.collect(), Ok(2));
    assert_eq!(destroyed.get(), 2);
    assert_eq!(heap.ref_count(&shared), 1);
    assert!(heap.is_live(2));
    assert!(!heap.is_buffered(&shared));
    assert_eq!(heap.drop_gc(shared), 1);
    assert_eq!(destroyed.get(), 3);
}

#[test]
fn what_a_living_allocation_owns_is_kept() {
    let destroyed = Rc::new(Cell::new(0));
    let mut heap: Heap<Counted> = Heap::new(16, usize::MAX);
    // root -> ring of three, and a second ring of two that nothing holds
    let root = heap.allocate(counted(&destroyed));
    let mut kept = ring(&mut heap, &destroyed, 3);
    let into = heap.clone_gc(&kept[1]);
    assert!(heap.link(&root, into).is_ok());
    let mut lost = ring(&mut heap, &destroyed, 2);
    for gc in kept.drain(..) {
        assert_eq!(heap.drop_gc(gc), 0);
    }
    for gc in lost.drain(..) {
        assert_eq!(heap.drop_gc(gc), 0);
    }
    assert_eq!(heap.buffered_count(), 5);
    assert_eq!(heap.collect(), Ok(2));
    assert_eq!(destroyed.get(), 2);
    assert!(heap.is_live(1) && heap.is_live(2) && heap.is_live(3));
    assert!(!heap.is_live(4) && !heap.is_live(5));
    assert_eq!(heap.inside_count(2), 2);
    // the ring goes when the root goes: its members wait as candidate roots
    assert_eq!(heap.drop_gc(root), 1);
    assert_eq!(heap.buffered_count(), 1);
    assert_eq!(heap.collect(), Ok(3));
    assert_eq!(destroyed.get(), 6);
}

#[test]
fn a_pass_gives_up_beyond_the_trace_limit() {
    let destroyed = Rc::new(Cell::new(0));
    let mut heap: Heap<Counted> = Heap::new(16, 2);
    let mut handles = ring(&mut heap, &destroyed, 3);
    for gc in handles.drain(..) {
        assert_eq!(heap.drop_gc(gc), 0);
    }
    assert_eq!(heap.buffered_count(), 3);
    assert_eq!(heap.collect(), Err(Deferred));
    // the heap is as it was, candidate roots included
    assert_eq!(destroyed.get(), 0);
    assert_eq!(heap.buffered_count(), 3);
    assert!(heap.is_live(0) && heap.is_live(1) && heap.is_live(2));
    assert_eq!(heap.collect(), Err(Deferred));
    heap.set_trace_limit(3);
    assert_eq!(heap.collect(), Ok(3));
    assert_eq!(destroyed.get(), 3);
}

#[test]
fn trace_limit_counts_allocations_not_roots() {
    let destroyed = Rc::new(Cell::new(0));
    let mut heap: Heap<Counted> = Heap::new(16, 1);
    let a = heap.allocate(counted(&destroyed));
    let b = heap.allocate(counted(&destroyed));
    let a2 = heap.clone_gc(&a);
    assert!(heap.link(&a, b).is_ok());
    assert_eq!(heap.drop_gc(a2), 0);
    // one root, but two allocations to trace
    assert_eq!(heap.buffered_count(), 1);
    assert_eq!(heap.collect(), Err(Deferred));
    heap.set_trace_limit(2);
    assert_eq!(heap.collect(), Ok(0));
    assert_eq!(heap.drop_gc(a), 2);
}

#[test]
fn a_pass_is_due_beyond_the_threshold() {
    let destroyed = Rc::new(Cell::new(0));
    let mut heap: Heap<Counted> = Heap::new(2, usize::MAX);
    let mut handles = ring(&mut heap, &destroyed, 3);
    assert!(!heap.collect_due());
    assert_eq!(heap.collect_if_due(), None);
    let c = handles.pop().unwrap();
    let b = handles.pop().unwrap();
    let a = handles.pop().unwrap();
    assert_eq!(heap.drop_gc_collecting(a), (0, None));
    assert_eq!(heap.drop_gc_collecting(b), (0, None));
    assert_eq!(heap.buffered_count(), 2);
    assert!(!heap.collect_due());
    // the third candidate root crosses the threshold
    assert_eq!(heap.drop_gc_collecting(c), (0, Some(Ok(3))));
    assert_eq!(destroyed.get(), 3);
    assert_eq!(heap.buffered_count(), 0);
    assert_eq!(heap.drop_gc_collecting(Gc::dead()), (0, None));
}

#[test]
fn a_due_pass_may_give_up() {
    let destroyed = Rc::new(Cell::new(0));
    let mut heap: Heap<Counted> = Heap::new(0, 1);
    let mut handles = ring(&mut heap, &destroyed, 2);
    let b = handles.pop().unwrap();
    let a = handles.pop().unwrap();
    assert_eq!(heap.drop_gc_collecting(a), (0, Some(Err(Deferred))));
    assert!(heap.collect_due());
    assert_eq!(heap.collect_if_due(), Some(Err(Deferred)));
    heap.set_trace_limit(usize::MAX);
    assert_eq!(heap.drop_gc_collecting(b), (0, Some(Ok(2))));
    assert_eq!(destroyed.get(), 2);
}
