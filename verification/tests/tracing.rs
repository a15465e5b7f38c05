use dumpster::handle::Gc;
use dumpster::heap::Heap;
use dumpster::option::OptGc;
use dumpster::trace::{Trace, Visitor};

#[test]
fn visitor_notes_live_handles_in_order() {
    let mut heap: Heap<u64> = Heap::new(16, usize::MAX);
    let a = heap.allocate(1);
    let b = heap.allocate(2);
    let mut visitor = Visitor::new(3);
    assert_eq!(visitor.visit(&b), Ok(()));
    assert_eq!(visitor.visit(&Gc::dead()), Ok(()));
    assert_eq!(visitor.visit(&a), Ok(()));
    assert_eq!(visitor.visit(&b), Ok(()));
    assert_eq!(visitor.into_noted(), vec![1, 0, 1]);
    heap.drop_gc(a);
    heap.drop_gc(b);
}

#[test]
fn visitor_fails_beyond_its_limit() {
    let mut heap: Heap<u64> = Heap::new(16, usize::MAX);
    let a = heap.allocate(1);
    let mut visitor = Visitor::new(1);
    assert_eq!(visitor.visit(&a), Ok(()));
    assert_eq!(visitor.visit(&a), Err(()));
    // a dead handle needs no room
    assert_eq!(visitor.visit(&Gc::dead()), Ok(()));
    assert_eq!(visitor.into_noted(), vec![0]);
    let mut none = Visitor::new(0);
    assert_eq!(none.visit(&a), Err(()));
    assert_eq!(none.into_noted(), Vec::<usize>::new());
    heap.drop_gc(a);
}

#[test]
fn values_without_handles_show_nothing() {
    let mut visitor = Visitor::new(0);
    assert_eq!(().accept(&mut visitor), Ok(()));
    assert_eq!(true.accept(&mut visitor), Ok(()));
    assert_eq!(7u64.accept(&mut visitor), Ok(()));
    assert_eq!(7usize.accept(&mut visitor), Ok(()));
    assert_eq!(String::from("leaf").accept(&mut visitor), Ok(()));
    assert_eq!(None::<Gc>.accept(&mut visitor), Ok(()));
    assert_eq!(OptGc::none().accept(&mut visitor), Ok(()));
    assert_eq!(Vec::<Gc>::new().accept(&mut visitor), Ok(()));
    assert_eq!(visitor.into_noted(), Vec::<usize>::new());
}

#[test]
fn aggregates_show_their_handles_in_order() {
    let mut heap: Heap<u64> = Heap::new(16, usize::MAX);
    let a = heap.allocate(1);
    let b = heap.allocate(2);
    let c = heap.allocate(3);
    let a2 = heap.clone_gc(&a);
    let value = (vec![c, a2], (Some(b), OptGc::some(a)));
    let mut visitor = Visitor::new(10);
    assert_eq!(value.accept(&mut visitor), Ok(()));
    assert_eq!(visitor.into_noted(), vec![2, 0, 1, 0]);
    // with too little room the failure comes out
    let mut small = Visitor::new(3);
    assert_eq!(value.accept(&mut small), Err(()));
    let mut exact = Visitor::new(4);
    assert_eq!(value.accept(&mut exact), Ok(()));
}

#[test]
fn adopted_payload_owns_the_handles_it_shows() {
    let mut heap: Heap<Vec<Gc>> = Heap::new(16, usize::MAX);
    let leaf1 = heap.adopt(Vec::new(), 0).ok().unwrap();
    let leaf2 = heap.adopt(Vec::new(), 0).ok().unwrap();
    let leaf1_again = heap.clone_gc(&leaf1);
    let outside = heap.clone_gc(&leaf2);
    let parent = heap.adopt(vec![leaf1, leaf2, leaf1_again, Gc::dead()], 4).ok().unwrap();
    assert_eq!(parent.slot(), Some(2));
    assert_eq!(parent.metadata(), 4);
    assert_eq!(heap.edge_count(&parent), 3);
    assert_eq!(heap.inside_count(0), 2);
    assert_eq!(heap.inside_count(1), 1);
    assert_eq!(heap.ref_count(&outside), 2);
    // the handles inside the payload can be read and copied
    let inner = heap.get(&parent).unwrap();
    assert_eq!(inner.len(), 4);
    assert_eq!(inner[0].slot(), Some(0));
    assert!(inner[3].is_dead());
    // the parent takes what only it holds with it
    assert_eq!(heap.drop_gc(parent), 2);
    assert!(!heap.is_live(0));
    assert!(heap.is_live(1));
    assert_eq!(heap.ref_count(&outside), 1);
    assert_eq!(heap.drop_gc(outside), 1);
}

#[test]
fn adopt_hands_back_a_payload_it_cannot_trace() {
    let mut heap: Heap<Vec<Gc>> = Heap::new(16, 1);
    let a = heap.adopt(Vec::new(), 0).ok().unwrap();
    let a2 = heap.clone_gc(&a);
    let back = heap.adopt(vec![a, a2], 0).err().unwrap();
    assert_eq!(back.len(), 2);
    assert_eq!(heap.len(), 1);
    assert_eq!(heap.inside_count(0), 0);
    assert_eq!(heap.ref_count(&back[0]), 2);
    heap.set_trace_limit(2);
    let parent = heap.adopt(back, 0).ok().unwrap();
    assert_eq!(heap.inside_count(0), 2);
    assert_eq!(heap.drop_gc(parent), 2);
}

#[test]
fn optional_handle_reads_a_dead_handle_as_nothing() {
    let mut heap: Heap<u64> = Heap::new(16, usize::MAX);
    let a = heap.allocate(9);
    let none = OptGc::none();
    assert!(none.is_none());
    assert!(!none.is_some());
    assert!(none.as_ref().is_none());
    assert_eq!(none.ref_count(&heap), 0);
    assert_eq!(none.as_deref(&heap), None);
    assert!(OptGc::default().is_none());
    assert!(OptGc::some(Gc::dead()).is_none());
    assert!(OptGc::from_maybe_dead_gc(Gc::dead_with_metadata(3)).is_none());
    assert!(OptGc::from_option(None).is_none());
    assert!(none.ptr_eq(&OptGc::from_maybe_dead_gc(Gc::dead_with_metadata(3))));

    let some = OptGc::some(a);
    assert!(some.is_some());
    assert!(!some.is_none());
    assert_eq!(some.as_ref().unwrap().slot(), Some(0));
    assert_eq!(some.as_deref(&heap), Some(&9));
    assert_eq!(some.ref_count(&heap), 1);
    assert!(!some.ptr_eq(&none));
    let copy = some.clone_in(&mut heap);
    assert!(copy.ptr_eq(&some));
    assert_eq!(some.ref_count(&heap), 2);
    let none_copy = none.clone_in(&mut heap);
    assert!(none_copy.is_none());
    assert_eq!(some.ref_count(&heap), 2);

    let gc = copy.into_option().unwrap();
    assert_eq!(heap.drop_gc(gc), 0);
    assert!(none.into_option().is_none());
    let gc = some.into_maybe_dead_gc();
    assert!(gc.is_live());
    let again = OptGc::from_option(Some(gc));
    assert!(again.is_some());
    assert_eq!(heap.drop_gc(again.into_maybe_dead_gc()), 1);
    assert!(none_copy.into_maybe_dead_gc().is_dead());
}
