use dumpster::allocation::{Allocation, Mark};
use dumpster::heap::adjust::adjust;
use dumpster::heap::flood::flood;
use dumpster::heap::settle::{settle, Step};

fn record(strong: usize, edges: Vec<usize>) -> Allocation<u8> {
    let mut rec = Allocation::with_edges(0u8, 0, edges);
    rec.strong_count = strong;
    rec
}

#[test]
fn fresh_record() {
    let rec = Allocation::new("x", 4);
    assert_eq!(rec.payload, Some("x"));
    assert_eq!(rec.strong_count, 1);
    assert_eq!(rec.trial_count, 0);
    assert!(!rec.buffered);
    assert_eq!(rec.mark, Mark::Clear);
    assert!(rec.edges.is_empty());
    assert_eq!(rec.meta, 4);
    let rec = Allocation::with_edges("y", 1, vec![3, 3, 5]);
    assert_eq!(rec.edges, vec![3, 3, 5]);
    assert_eq!(rec.strong_count, 1);
}

#[test]
fn decrement_reports_count_and_buffering() {
    let mut rec = Allocation::new(1u8, 0);
    rec.increment();
    rec.increment();
    assert_eq!(rec.strong_count, 3);
    // the first handle given back queues the allocation
    assert_eq!(rec.decrement(), (2, true));
    assert!(rec.buffered);
    // the next does not queue it again
    assert_eq!(rec.decrement(), (1, false));
    assert!(rec.buffered);
    // the last one sets no flag
    assert_eq!(rec.decrement(), (0, false));
    let mut rec = Allocation::new(1u8, 0);
    assert_eq!(rec.decrement(), (0, false));
    assert!(!rec.buffered);
}

#[test]
fn destroy_payload_leaves_the_bookkeeping() {
    let mut rec = Allocation::with_edges(String::from("gone"), 2, vec![1]);
    rec.destroy_payload();
    assert_eq!(rec.payload, None);
    assert_eq!(rec.strong_count, 1);
    assert_eq!(rec.edges, vec![1]);
    assert_eq!(rec.meta, 2);
}

#[test]
fn flood_marks_what_can_be_reached() {
    // 0 -> 1 -> 2 -> 1, 3 -> 0, 4 alone
    let mut records = vec![
        record(1, vec![1]),
        record(2, vec![2]),
        record(1, vec![1]),
        record(1, vec![0]),
        record(1, vec![]),
    ];
    let seeds = vec![0];
    let found = flood(&mut records, &seeds, Mark::Clear, Mark::InProgress, usize::MAX);
    assert_eq!(found, Ok(vec![0, 1, 2]));
    let marks: Vec<Mark> = records.iter().map(|r| r.mark).collect();
    assert_eq!(
        marks,
        vec![Mark::InProgress, Mark::InProgress, Mark::InProgress, Mark::Clear, Mark::Clear]
    );
}

#[test]
fn flood_gives_up_at_its_limit() {
    let mut records = vec![record(1, vec![1]), record(1, vec![2]), record(1, vec![])];
    let seeds = vec![0];
    let found = flood(&mut records, &seeds, Mark::Clear, Mark::Reachable, 2);
    assert_eq!(found, Err(vec![0, 1]));
    assert_eq!(records[0].mark, Mark::Reachable);
    assert_eq!(records[1].mark, Mark::Reachable);
    assert_eq!(records[2].mark, Mark::Clear);
    let mut records = vec![record(1, vec![1]), record(1, vec![2]), record(1, vec![])];
    assert_eq!(flood(&mut records, &seeds, Mark::Clear, Mark::Reachable, 3), Ok(vec![0, 1, 2]));
    let mut records = vec![record(1, vec![])];
    assert_eq!(flood(&mut records, &seeds, Mark::Clear, Mark::Reachable, 0), Err(vec![]));
    assert_eq!(records[0].mark, Mark::Clear);
}

#[test]
fn flood_passes_through_the_given_mark_only() {
    // 0 -> 1 -> 2, but 1 does not carry the mark to pass through
    let mut records = vec![record(1, vec![1]), record(1, vec![2]), record(1, vec![])];
    for rec in records.iter_mut() {
        rec.mark = Mark::Unreachable;
    }
    let seeds = vec![2, 0];
    let found = flood(&mut records, &seeds, Mark::Unreachable, Mark::Reachable, usize::MAX);
    assert_eq!(found, Ok(vec![2, 0, 1]));
}

#[test]
fn adjust_moves_trial_counts_by_the_handles_held() {
    // 0 holds 1 twice and 2 once; 1 holds 2
    let mut records = vec![record(1, vec![1, 2, 1]), record(3, vec![2]), record(2, vec![])];
    for rec in records.iter_mut() {
        rec.trial_count = 5;
    }
    adjust(&mut records, &vec![0, 1], false);
    let trials: Vec<usize> = records.iter().map(|r| r.trial_count).collect();
    assert_eq!(trials, vec![5, 3, 3]);
    adjust(&mut records, &vec![0], true);
    let trials: Vec<usize> = records.iter().map(|r| r.trial_count).collect();
    assert_eq!(trials, vec![5, 5, 4]);
    adjust(&mut records, &vec![], true);
    let trials: Vec<usize> = records.iter().map(|r| r.trial_count).collect();
    assert_eq!(trials, vec![5, 5, 4]);
}

#[test]
fn settle_primes_and_condemns() {
    let mut records = vec![record(4, vec![]), record(2, vec![]), record(7, vec![])];
    let list = vec![2, 0];
    assert_eq!(settle(&mut records, &list, Step::Prime), Vec::<usize>::new());
    let trials: Vec<usize> = records.iter().map(|r| r.trial_count).collect();
    assert_eq!(trials, vec![4, 0, 7]);
    records[0].trial_count = 0;
    // condemning reports those with a positive trial count
    assert_eq!(settle(&mut records, &vec![0, 1, 2], Step::Condemn), vec![2]);
    assert!(records.iter().all(|r| r.mark == Mark::Unreachable));
}

#[test]
fn settle_commits_and_resets() {
    let mut records = vec![record(4, vec![1]), record(2, vec![0]), record(7, vec![])];
    records[0].mark = Mark::Unreachable;
    records[0].buffered = true;
    records[1].mark = Mark::Reachable;
    records[1].trial_count = 1;
    records[1].buffered = true;
    records[2].mark = Mark::Reachable;
    records[2].trial_count = 6;
    // committing destroys what is still condemned and reports it
    assert_eq!(settle(&mut records, &vec![0, 1], Step::Commit), vec![0]);
    assert_eq!(records[0].payload, None);
    assert_eq!(records[0].strong_count, 0);
    assert!(records[0].edges.is_empty());
    assert!(!records[0].buffered);
    assert_eq!(records[0].mark, Mark::Clear);
    assert_eq!(records[1].payload, Some(0));
    assert_eq!(records[1].strong_count, 1);
    assert_eq!(records[1].trial_count, 0);
    assert_eq!(records[1].edges, vec![0]);
    assert!(!records[1].buffered);
    assert_eq!(records[1].mark, Mark::Clear);
    // what is not listed stays as it is
    assert_eq!(records[2].strong_count, 7);
    assert_eq!(records[2].mark, Mark::Reachable);
    assert_eq!(settle(&mut records, &vec![2], Step::Reset), Vec::<usize>::new());
    assert_eq!(records[2].trial_count, 0);
    assert_eq!(records[2].mark, Mark::Clear);
    assert_eq!(records[2].strong_count, 7);
}
