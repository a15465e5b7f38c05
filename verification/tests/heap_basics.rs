use dumpster::handle::Gc;
use dumpster::heap::Heap;
use std::cell::Cell;
use std::rc::Rc;

/// A payload that counts how often payloads of its kind were destroyed.
struct Counted {
    destroyed: Rc<Cell<usize>>,
}

impl Drop for Counted {
    fn drop(&mut self) {
        self.destroyed.set(self.destroyed.get() + 1);
    }
}

fn counted(destroyed: &Rc<Cell<usize>>) -> Counted {
    Counted { destroyed: Rc::clone(destroyed) }
}

#[test]
fn fresh_handle_counts_one() {
    let mut heap: Heap<u32> = Heap::new(16, usize::MAX);
    assert_eq!(heap.len(), 0);
    assert_eq!(heap.threshold(), 16);
    assert_eq!(heap.trace_limit(), usize::MAX);
    let a = heap.allocate(7);
    assert!(a.is_live());
    assert!(!a.is_dead());
    assert_eq!(a.slot(), Some(0));
    assert_eq!(a.metadata(), 0);
    assert_eq!(heap.ref_count(&a), 1);
    assert_eq!(heap.get(&a), Some(&7));
    assert_eq!(heap.len(), 1);
    assert!(heap.is_live(0));
    assert!(!heap.is_live(1));
    assert!(!heap.is_buffered(&a));
    assert_eq!(heap.edge_count(&a), 0);
    assert_eq!(heap.drop_gc(a), 1);
    assert!(!heap.is_live(0));
    assert_eq!(heap.len(), 1);
}

#[test]
fn clone_counts_one_more_and_is_identical() {
    let mut heap: Heap<u32> = Heap::new(16, usize::MAX);
    let a = heap.allocate(7);
    let b = heap.clone_gc(&a);
    assert_eq!(heap.ref_count(&a), 2);
    assert_eq!(heap.ref_count(&b), 2);
    assert!(a.ptr_eq(&b));
    assert!(b.ptr_eq(&a));
    assert_eq!(heap.drop_gc(b), 0);
    assert_eq!(heap.ref_count(&a), 1);
    // a handle that was given back while others remain makes a candidate root
    assert!(heap.is_buffered(&a));
    assert_eq!(heap.buffered_count(), 1);
    assert_eq!(heap.drop_gc(a), 1);
    assert_eq!(heap.buffered_count(), 0);
}

#[test]
fn handles_to_distinct_allocations_differ() {
    let mut heap: Heap<u32> = Heap::new(16, usize::MAX);
    let a = heap.allocate(0);
    let b = heap.allocate(0);
    assert!(!a.ptr_eq(&b));
    assert!(a.ptr_eq(&a));
    assert_eq!(heap.get(&a), heap.get(&b));
    heap.drop_gc(a);
    heap.drop_gc(b);
}

#[test]
fn dead_handles_are_identical_and_count_nothing() {
    let mut heap: Heap<u32> = Heap::new(16, usize::MAX);
    let live = heap.allocate(1);
    let d1 = Gc::dead();
    let d2 = Gc::dead_with_metadata(12);
    assert!(d1.is_dead());
    assert!(!d1.is_live());
    assert_eq!(d1.slot(), None);
    assert!(d1.ptr_eq(&d2));
    assert!(d2.ptr_eq(&d1));
    assert!(!d1.ptr_eq(&live));
    assert!(!live.ptr_eq(&d2));
    assert_eq!(heap.ref_count(&d1), 0);
    assert_eq!(heap.get(&d2), None);
    assert_eq!(heap.edge_count(&d1), 0);
    assert!(!heap.is_buffered(&d1));
    let d3 = heap.clone_gc(&d2);
    assert!(d3.is_dead());
    assert_eq!(d3.metadata(), 12);
    assert_eq!(heap.ref_count(&live), 1);
    assert_eq!(heap.drop_gc(d1), 0);
    assert_eq!(heap.drop_gc(d2), 0);
    assert_eq!(heap.drop_gc(d3), 0);
    assert_eq!(heap.ref_count(&live), 1);
    assert_eq!(heap.buffered_count(), 0);
}

#[test]
fn dead_handle_keeps_the_metadata_of_a_live_one() {
    let mut heap: Heap<Vec<u8>> = Heap::new(16, usize::MAX);
    let payload = vec![1u8, 2, 3];
    let len = payload.len();
    let live = heap.allocate_with_metadata(payload, len);
    let dead = Gc::dead_with_metadata(len);
    assert_eq!(live.metadata(), 3);
    assert_eq!(dead.metadata(), live.metadata());
    let copy = heap.clone_gc(&live);
    assert_eq!(copy.metadata(), 3);
    assert_eq!(Gc::dead().metadata(), 0);
    heap.drop_gc(copy);
    heap.drop_gc(live);
}

#[test]
fn chain_is_destroyed_with_its_last_handle() {
    let destroyed = Rc::new(Cell::new(0));
    let mut heap: Heap<Counted> = Heap::new(16, usize::MAX);
    let a = heap.allocate(counted(&destroyed));
    let b = heap.allocate(counted(&destroyed));
    let c = heap.allocate(counted(&destroyed));
    // a owns b, b owns c
    assert!(heap.link(&b, c).is_ok());
    assert!(heap.link(&a, b).is_ok());
    assert_eq!(heap.edge_count(&a), 1);
    assert_eq!(destroyed.get(), 0);
    assert_eq!(heap.drop_gc(a), 3);
    assert_eq!(destroyed.get(), 3);
    assert!(!heap.is_live(0) && !heap.is_live(1) && !heap.is_live(2));
    assert_eq!(heap.buffered_count(), 0);
    assert_eq!(heap.collect(), Ok(0));
    assert_eq!(destroyed.get(), 3);
}

#[test]
fn shared_child_survives_its_owner_and_waits_for_a_pass() {
    let destroyed = Rc::new(Cell::new(0));
    let mut heap: Heap<Counted> = Heap::new(16, usize::MAX);
    let a = heap.allocate(counted(&destroyed));
    let b = heap.allocate(counted(&destroyed));
    let b_outside = heap.clone_gc(&b);
    assert!(heap.link(&a, b).is_ok());
    assert_eq!(heap.ref_count(&b_outside), 2);
    assert_eq!(heap.drop_gc(a), 1);
    assert_eq!(destroyed.get(), 1);
    assert_eq!(heap.ref_count(&b_outside), 1);
    assert!(heap.is_buffered(&b_outside));
    // the pass finds it held from outside and keeps it
    assert_eq!(heap.collect(), Ok(0));
    assert!(!heap.is_buffered(&b_outside));
    assert_eq!(heap.ref_count(&b_outside), 1);
    assert_eq!(heap.drop_gc(b_outside), 1);
    assert_eq!(destroyed.get(), 2);
}

#[test]
fn diamond_is_destroyed_once_each() {
    let destroyed = Rc::new(Cell::new(0));
    let mut heap: Heap<Counted> = Heap::new(16, usize::MAX);
    let top = heap.allocate(counted(&destroyed));
    let left = heap.allocate(counted(&destroyed));
    let right = heap.allocate(counted(&destroyed));
    let bottom = heap.allocate(counted(&destroyed));
    let bottom2 = heap.clone_gc(&bottom);
    assert!(heap.link(&left, bottom).is_ok());
    assert!(heap.link(&right, bottom2).is_ok());
    assert!(heap.link(&top, left).is_ok());
    assert!(heap.link(&top, right).is_ok());
    assert_eq!(heap.inside_count(3), 2);
    assert_eq!(heap.inside_count(0), 0);
    assert_eq!(heap.drop_gc(top), 4);
    assert_eq!(destroyed.get(), 4);
}

#[test]
fn link_hands_the_child_back_when_the_owner_is_dead() {
    let mut heap: Heap<u8> = Heap::new(16, usize::MAX);
    let child = heap.allocate(1);
    let dead = Gc::dead();
    let back = heap.link(&dead, child).err().unwrap();
    assert_eq!(back.slot(), Some(0));
    assert_eq!(heap.ref_count(&back), 1);
    // a dead child is taken and not recorded
    let owner = heap.allocate(2);
    assert!(heap.link(&owner, Gc::dead()).is_ok());
    assert_eq!(heap.edge_count(&owner), 0);
    heap.drop_gc(back);
    heap.drop_gc(owner);
}

#[test]
fn unlink_hands_the_handle_out_again() {
    let mut heap: Heap<u8> = Heap::new(16, usize::MAX);
    let owner = heap.allocate(0);
    let x = heap.allocate(1);
    let y = heap.allocate(2);
    assert!(heap.link(&owner, x).is_ok());
    assert!(heap.link(&owner, y).is_ok());
    assert_eq!(heap.edge_count(&owner), 2);
    assert!(heap.unlink(&owner, 2).is_none());
    assert!(heap.unlink(&Gc::dead(), 0).is_none());
    let x_again = heap.unlink(&owner, 0).unwrap();
    assert_eq!(x_again.slot(), Some(1));
    assert_eq!(heap.get(&x_again), Some(&1));
    assert_eq!(heap.ref_count(&x_again), 1);
    assert_eq!(heap.edge_count(&owner), 1);
    assert_eq!(heap.inside_count(1), 0);
    assert_eq!(heap.inside_count(2), 1);
    // the owner now only takes y with it
    assert_eq!(heap.drop_gc(owner), 2);
    assert_eq!(heap.drop_gc(x_again), 1);
}

#[test]
fn heap_tells_its_own_handles_from_others() {
    let mut heap: Heap<u8> = Heap::new(16, usize::MAX);
    let mut other: Heap<u8> = Heap::new(16, usize::MAX);
    let a = heap.allocate_with_metadata(1, 5);
    let stranger = other.allocate(1);
    assert!(heap.owns(&a));
    assert!(heap.knows(&a));
    assert!(heap.owns(&Gc::dead()));
    assert!(heap.knows(&Gc::dead_with_metadata(9)));
    // same index, other metadata
    assert!(!heap.owns(&stranger));
    assert!(!heap.knows(&stranger));
    let far = other.allocate(2);
    assert!(!heap.knows(&far));
    // a handle owned by a payload is known but not held outside the heap
    let owner = heap.allocate(0);
    let a2 = heap.clone_gc(&a);
    assert!(heap.owns_both(&a, &a2));
    assert!(heap.owns_both(&a, &owner));
    assert!(heap.link(&owner, a2).is_ok());
    assert!(heap.owns(&a));
    assert!(!heap.owns_both(&a, &a));
    assert!(heap.link(&owner, a).is_ok());
    let inner = Gc::dead_with_metadata(5);
    assert!(heap.knows(&inner));
    assert_eq!(heap.drop_gc(owner), 2);
    other.drop_gc(stranger);
    other.drop_gc(far);
}

#[test]
fn limits_can_be_changed() {
    let mut heap: Heap<u8> = Heap::new(3, 4);
    heap.set_threshold(10);
    heap.set_trace_limit(20);
    assert_eq!(heap.threshold(), 10);
    assert_eq!(heap.trace_limit(), 20);
}
