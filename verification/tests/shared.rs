use dumpster::model::Deferred;
use dumpster::sync::count::{
    acquired, released, unbuffered, CountError, Released, SharedCount,
};
use dumpster::sync::handle::SharedGc;
use dumpster::sync::shared::SharedHeap;
use dumpster::sync::table::Table;
use dumpster::sync::word::{count, fresh, is_flagged, step, Op};

#[test]
fn packed_word_steps() {
    let word = fresh();
    assert_eq!(word, 2);
    assert_eq!(count(word), 1);
    assert!(!is_flagged(word));
    // one more handle
    assert_eq!(step(Op::Acquire, word), Some(4));
    // giving back one of two handles queues the allocation
    assert_eq!(step(Op::Release, 4), Some(3));
    assert_eq!(count(3), 1);
    assert!(is_flagged(3));
    // giving back the last handle sets no flag and keeps a set one
    assert_eq!(step(Op::Release, 2), Some(0));
    assert_eq!(step(Op::Release, 3), Some(1));
    // a dead allocation takes no step but leaving the candidate roots
    assert_eq!(step(Op::Release, 0), None);
    assert_eq!(step(Op::Release, 1), None);
    assert_eq!(step(Op::Acquire, 0), None);
    assert_eq!(step(Op::Acquire, 1), None);
    assert_eq!(step(Op::Unbuffer, 1), Some(0));
    assert_eq!(step(Op::Unbuffer, 0), None);
    assert_eq!(step(Op::Unbuffer, 7), Some(6));
    // a count at its limit cannot grow
    assert_eq!(step(Op::Acquire, usize::MAX), None);
    assert_eq!(step(Op::Acquire, usize::MAX - 1), None);
    assert_eq!(step(Op::Acquire, usize::MAX - 2), Some(usize::MAX));
    assert_eq!(step(Op::Acquire, usize::MAX - 3), Some(usize::MAX - 1));
}

#[test]
fn reports_follow_the_observed_word() {
    assert_eq!(acquired(Ok(2)), Ok(2));
    assert_eq!(acquired(Ok(7)), Ok(4));
    assert_eq!(acquired(Err(0)), Err(CountError::Dead));
    assert_eq!(acquired(Err(1)), Err(CountError::Dead));
    assert_eq!(acquired(Err(usize::MAX)), Err(CountError::Overflow));
    assert_eq!(
        released(Ok(4)),
        Some(Released { left: 1, became_buffered: true, was_buffered: false })
    );
    assert_eq!(
        released(Ok(5)),
        Some(Released { left: 1, became_buffered: false, was_buffered: true })
    );
    assert_eq!(
        released(Ok(2)),
        Some(Released { left: 0, became_buffered: false, was_buffered: false })
    );
    assert_eq!(
        released(Ok(3)),
        Some(Released { left: 0, became_buffered: false, was_buffered: true })
    );
    assert_eq!(released(Err(0)), None);
    assert!(unbuffered(Ok(5)));
    assert!(!unbuffered(Err(4)));
}

#[test]
fn shared_count_follows_handles() {
    let count = SharedCount::new();
    assert_eq!(count.count(), 1);
    assert_eq!(count.increment(), Ok(2));
    assert_eq!(count.count(), 2);
    let first = count.decrement().unwrap();
    assert_eq!(first.left, 1);
    assert!(first.became_buffered);
    assert!(!first.was_buffered);
    let last = count.decrement().unwrap();
    assert_eq!(last.left, 0);
    assert!(!last.became_buffered);
    assert!(last.was_buffered);
    assert_eq!(count.decrement(), None);
    assert_eq!(count.increment(), Err(CountError::Dead));
    assert_eq!(count.count(), 0);
    assert!(count.unbuffer());
    assert!(!count.unbuffer());
}

#[test]
fn every_handle_given_back_frees_exactly_once() {
    for handles in 1..40usize {
        let count = SharedCount::new();
        for _ in 1..handles {
            assert!(count.increment().is_ok());
        }
        let mut freed = 0;
        let mut buffered = 0;
        for turn in 0..handles {
            let report = count.decrement().unwrap();
            assert_eq!(report.left, handles - turn - 1);
            if report.left == 0 {
                freed += 1;
            }
            if report.became_buffered {
                buffered += 1;
                assert!(report.left > 0);
            }
        }
        assert_eq!(freed, 1);
        assert_eq!(buffered, if handles > 1 { 1 } else { 0 });
        assert_eq!(count.decrement(), None);
    }
}

#[test]
fn shared_handles_count_among_themselves() {
    let heap: SharedHeap<u64> = SharedHeap::new(1000, usize::MAX);
    let first = heap.allocate(5).ok().unwrap();
    assert!(first.is_live());
    assert_eq!(first.slot(), Some(0));
    assert_eq!(first.outside_count(), 1);
    let mut handles = Vec::new();
    for _ in 1..8 {
        let copy = first.try_clone().unwrap();
        assert!(copy.ptr_eq(&first));
        assert_eq!(copy.generation(), first.generation());
        handles.push(copy);
    }
    assert_eq!(first.outside_count(), 8);
    assert_eq!(heap.ref_count(&first), 8);
    assert_eq!(heap.get_cloned(&first), Some(5));
    handles.push(first);
    // every handle but the last goes without a look at the heap
    let mut freed = 0;
    for gc in handles {
        let (n, pass) = heap.drop_gc(gc);
        assert_eq!(pass, None);
        freed += n;
    }
    assert_eq!(freed, 1);
    assert_eq!(heap.buffered_count(), 0);
}

#[test]
fn shared_dead_handles() {
    let heap: SharedHeap<u64> = SharedHeap::new(1000, usize::MAX);
    let live = heap.allocate_with_metadata(1, 3).ok().unwrap();
    assert_eq!(live.metadata(), 3);
    let dead = SharedGc::dead();
    let dead2 = SharedGc::dead_with_metadata(3);
    assert!(dead.is_dead());
    assert!(!dead.is_live());
    assert!(dead.ptr_eq(&dead2));
    assert!(!dead.ptr_eq(&live));
    assert_eq!(dead2.metadata(), live.metadata());
    assert_eq!(dead.outside_count(), 0);
    assert_eq!(heap.ref_count(&dead), 0);
    assert_eq!(heap.get_cloned(&dead), None);
    let copy = dead2.try_clone().unwrap();
    assert!(copy.is_dead());
    assert_eq!(copy.metadata(), 3);
    assert_eq!(heap.drop_gc(dead), (0, None));
    assert!(heap.unlink(&dead2, 0).is_none());
    // a dead child is taken and not recorded
    assert!(heap.link(&live, copy).is_ok());
    assert_eq!(heap.ref_count(&live), 1);
    // with a dead owner the child is handed back
    let other = heap.allocate(2).ok().unwrap();
    let back = heap.link(&dead2, other).err().unwrap();
    assert_eq!(back.slot(), Some(1));
    assert_eq!(heap.drop_gc(back), (1, None));
    assert_eq!(heap.drop_gc(live), (1, None));
}

#[test]
fn shared_heap_collects_when_the_threshold_is_crossed() {
    let heap: SharedHeap<&'static str> = SharedHeap::new(1, usize::MAX);
    let a = heap.allocate("a").ok().unwrap();
    let b = heap.allocate("b").ok().unwrap();
    let a_for_b = a.try_clone().unwrap();
    let b_for_a = b.try_clone().unwrap();
    assert!(heap.link(&a, b_for_a).is_ok());
    assert!(heap.link(&b, a_for_b).is_ok());
    assert_eq!(heap.ref_count(&a), 2);
    assert_eq!(a.outside_count(), 1);
    // the first drop buffers one root: not more than the threshold allows
    assert_eq!(heap.drop_gc(a), (0, None));
    assert_eq!(heap.buffered_count(), 1);
    // the second crosses the threshold, and the pass frees the cycle
    assert_eq!(heap.drop_gc(b), (0, Some(Ok(2))));
    assert_eq!(heap.buffered_count(), 0);
    assert_eq!(heap.collect(), Ok::<usize, Deferred>(0));
}

#[test]
fn shared_heap_keeps_what_is_held_outside() {
    let heap: SharedHeap<u8> = SharedHeap::new(100, usize::MAX);
    let a = heap.allocate(1).ok().unwrap();
    let b = heap.allocate(2).ok().unwrap();
    let a_for_b = a.try_clone().unwrap();
    let b_for_a = b.try_clone().unwrap();
    let extra = b.try_clone().unwrap();
    assert!(heap.link(&a, b_for_a).is_ok());
    assert!(heap.link(&b, a_for_b).is_ok());
    assert_eq!(heap.drop_gc(a), (0, None));
    assert_eq!(heap.drop_gc(b), (0, None));
    assert_eq!(heap.collect(), Ok(0));
    assert_eq!(heap.get_cloned(&extra), Some(2));
    assert_eq!(heap.ref_count(&extra), 2);
    assert_eq!(heap.drop_gc(extra), (0, None));
    assert_eq!(heap.collect(), Ok(2));
}

#[test]
fn shared_heap_moves_handles_in_and_out_of_payloads() {
    let heap: SharedHeap<u8> = SharedHeap::new(8, usize::MAX);
    let owner = heap.allocate(1).ok().unwrap();
    let child = heap.allocate_with_metadata(2, 6).ok().unwrap();
    // the last outside handle to the child moves into the owner
    assert!(heap.link(&owner, child).is_ok());
    assert!(heap.unlink(&owner, 1).is_none());
    // and comes out again as the first of a new generation
    let child = heap.unlink(&owner, 0).unwrap();
    assert_eq!(child.slot(), Some(1));
    assert_eq!(child.metadata(), 6);
    assert_eq!(child.generation(), 1);
    assert_eq!(child.outside_count(), 1);
    assert_eq!(heap.ref_count(&child), 1);
    assert_eq!(heap.get_cloned(&child), Some(2));
    // a copy moves in while the child stays held outside
    let copy = child.try_clone().unwrap();
    assert!(heap.link(&owner, copy).is_ok());
    assert_eq!(heap.ref_count(&child), 2);
    assert_eq!(child.outside_count(), 1);
    // and comes out to join the handles outside
    let again = heap.unlink(&owner, 0).unwrap();
    assert_eq!(again.generation(), child.generation());
    assert_eq!(child.outside_count(), 2);
    assert_eq!(heap.ref_count(&child), 2);
    assert!(heap.link(&owner, again).is_ok());
    assert_eq!(heap.drop_gc(child), (0, None));
    // the owner takes the child with it
    assert_eq!(heap.drop_gc(owner), (2, None));
}

#[test]
fn shared_heap_does_not_know_handles_of_the_past() {
    let heap: SharedHeap<u8> = SharedHeap::new(8, usize::MAX);
    let a = heap.allocate(1).ok().unwrap();
    let stale = a.try_clone().unwrap();
    assert_eq!(heap.drop_gc(a), (0, None));
    assert_eq!(heap.drop_gc(stale), (1, None));
    // nothing is alive, and a handle made up for the place is not known
    let other: SharedHeap<u8> = SharedHeap::new(8, usize::MAX);
    let lookalike = other.allocate(9).ok().unwrap();
    assert_eq!(heap.get_cloned(&lookalike), None);
    assert_eq!(heap.ref_count(&lookalike), 1);
    assert!(heap.unlink(&lookalike, 0).is_none());
    let back = heap.link(&lookalike, lookalike.try_clone().unwrap()).err().unwrap();
    assert_eq!(other.drop_gc(back), (0, None));
    assert_eq!(other.drop_gc(lookalike), (1, None));
}

#[test]
fn shared_heap_gives_up_beyond_the_trace_limit() {
    let heap: SharedHeap<u8> = SharedHeap::new(100, 1);
    let a = heap.allocate(1).ok().unwrap();
    let b = heap.allocate(2).ok().unwrap();
    let a2 = a.try_clone().unwrap();
    let b2 = b.try_clone().unwrap();
    assert!(heap.link(&a, b2).is_ok());
    assert!(heap.link(&b, a2).is_ok());
    assert_eq!(heap.drop_gc(a), (0, None));
    assert_eq!(heap.collect(), Err(Deferred));
    assert_eq!(heap.buffered_count(), 1);
    assert_eq!(heap.get_cloned(&b), Some(2));
    assert_eq!(heap.drop_gc(b), (0, None));
    assert_eq!(heap.collect(), Err(Deferred));
}

#[test]
fn table_ignores_the_last_handle_of_a_past_generation() {
    let mut table: Table<u8> = Table::new(100, usize::MAX);
    let owner = table.allocate(0, 0).ok().unwrap();
    let child = table.allocate(1, 0).ok().unwrap();
    let copy = child.try_clone().unwrap();
    table.link(&owner, 1, false);
    assert_eq!(copy.release().unwrap().left, 1);
    // a thread gives back the last outside handle, and before it gets to
    // tell the table, the handle in the payload moves out
    assert!(table.is_current(&child));
    assert_eq!(child.generation(), 0);
    assert_eq!(child.release().unwrap().left, 0);
    let revived = table.unlink(&owner, 0).unwrap();
    assert_eq!(revived.generation(), 1);
    assert!(table.is_current(&revived));
    assert_eq!(revived.outside_count(), 1);
    // the news of the past generation changes nothing
    assert_eq!(table.last_gone(1, 0), (0, None));
    assert_eq!(table.get(&revived), Some(&1));
    assert_eq!(table.inside_count(&revived), 0);
    assert!(table.has_room(&revived));
    // the news of the present one does
    assert_eq!(revived.release().unwrap().left, 0);
    assert_eq!(table.last_gone(1, 1), (1, None));
    assert_eq!(table.last_gone(1, 1), (0, None));
    assert_eq!(table.last_gone(7, 0), (0, None));
    assert_eq!(table.buffered_count(), 0);
    assert_eq!(owner.release().unwrap().left, 0);
    assert_eq!(table.last_gone(0, 0), (1, None));
    assert_eq!(table.collect(), Ok(0));
}

#[test]
fn shared_heap_works_with_the_limits_it_was_given() {
    let heap: SharedHeap<u8> = SharedHeap::new(3, 9);
    assert_eq!(heap.threshold(), 3);
    assert_eq!(heap.trace_limit(), 9);
}

#[test]
fn finishing_a_drop_follows_the_report_of_the_count() {
    let heap: SharedHeap<u8> = SharedHeap::new(100, usize::MAX);
    let a = heap.allocate(1).ok().unwrap();
    let copy = a.try_clone().unwrap();
    let slot = a.slot().unwrap();
    let generation = a.generation();
    // no report, or other handles left: nothing to do
    assert_eq!(heap.finish_drop(slot, generation, None), (0, None));
    let first = copy.release();
    assert_eq!(first, Some(Released { left: 1, became_buffered: true, was_buffered: false }));
    assert_eq!(heap.finish_drop(slot, generation, first), (0, None));
    assert_eq!(heap.get_cloned(&a), Some(1));
    // the last handle of a generation that the heap does not know: nothing happens
    let last = Some(Released { left: 0, became_buffered: false, was_buffered: true });
    assert_eq!(heap.finish_drop(slot, generation + 1, last), (0, None));
    assert_eq!(heap.finish_drop(slot + 1, generation, last), (0, None));
    assert_eq!(heap.get_cloned(&a), Some(1));
    // the last handle of the present generation: the allocation goes
    let probe = a.try_clone().unwrap();
    assert_eq!(probe.release().map(|rep| rep.left), Some(1));
    assert_eq!(a.release(), last);
    assert_eq!(heap.finish_drop(slot, generation, last), (1, None));
    assert_eq!(heap.finish_drop(slot, generation, last), (0, None));
    // a dead handle is counted nowhere
    assert_eq!(SharedGc::dead().release(), None);
    assert_eq!(SharedGc::dead_with_metadata(4).release(), None);
}
