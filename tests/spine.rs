use spine_trace::batch::Batch;
use spine_trace::frontier::{frontier_dominates, frontier_eq, time_in_advance};
use spine_trace::spine::{Spine, SpineError};
use spine_trace::update::{consolidate, frontier_min, is_sorted, merge_sorted, Update};

fn upd(key: u64, val: u64, time: u64, diff: i64) -> Update {
    Update { key, val, time, diff }
}

/// `n` updates with keys `first..first + n`, at times cycling through `[lo, hi)`.
fn batch(lo: u64, hi: u64, first: u64, n: u64) -> Batch {
    let updates: Vec<Update> = (0..n).map(|i| upd(first + i, 0, lo + i % (hi - lo), 1)).collect();
    Batch::new(vec![lo], updates, vec![hi]).unwrap()
}

fn merging_lens(s: &Spine) -> Vec<usize> {
    let n_pending = pending_count(s);
    let all = s.map_batches();
    all[..all.len() - n_pending].iter().map(|b| b.len()).collect()
}

fn pending_count(s: &Spine) -> usize {
    // pending batches are those whose upper is not at or before the through frontier
    s.map_batches()
        .iter()
        .filter(|b| !frontier_dominates(b.upper(), s.distinguish_frontier()))
        .count()
}

fn assert_doubling(lens: &[usize]) {
    for w in lens.windows(2) {
        assert!(w[0] >= 2 * w[1], "sizes {:?} break the doubling rule", lens);
    }
}

#[test]
fn new_spine_is_empty_at_minimum() {
    let s = Spine::new();
    assert_eq!(s.advance_frontier(), &vec![0u64]);
    assert_eq!(s.distinguish_frontier(), &vec![0u64]);
    assert!(s.map_batches().is_empty());
}

#[test]
fn example_scenario_yields_all_tuples() {
    let mut s = Spine::new();
    s.insert(batch(0, 5, 0, 10));
    assert_eq!(s.map_batches().len(), 1);
    s.distinguish_since(&vec![5]);
    assert_eq!(merging_lens(&s), vec![10]);
    s.insert(batch(5, 8, 100, 3));
    s.insert(batch(8, 9, 200, 20));
    s.distinguish_since(&vec![9]);
    let lens = merging_lens(&s);
    assert_doubling(&lens);
    assert_eq!(lens.iter().sum::<usize>(), 33);
    let cursor = s.cursor_through(&vec![9]).unwrap();
    let ups = cursor.updates();
    assert_eq!(ups.len(), 33);
    assert!(is_sorted(&ups));
}

#[test]
fn insert_out_of_order_fails() {
    let mut s = Spine::new();
    assert_eq!(s.check_insert(&batch(1, 5, 0, 2)), Err(SpineError::OutOfOrder));
    assert_eq!(s.check_insert(&batch(0, 5, 0, 2)), Ok(()));
    s.insert(batch(0, 5, 0, 2));
    assert_eq!(s.check_insert(&batch(0, 7, 0, 2)), Err(SpineError::OutOfOrder));
    assert_eq!(s.check_insert(&batch(5, 7, 0, 2)), Ok(()));
    s.insert(batch(5, 7, 0, 2));
    assert_eq!(s.map_batches().len(), 2);
}

#[test]
fn degenerate_empty_insert_is_noop() {
    let mut s = Spine::new();
    s.insert(batch(0, 4, 0, 3));
    let before = s.map_batches().len();
    let degenerate = Batch::empty(vec![4], vec![4]);
    assert_eq!(s.check_insert(&degenerate), Ok(()));
    s.insert(degenerate);
    assert_eq!(s.map_batches().len(), before);
    // the upper frontier is unchanged: the next batch must still start at 4
    assert_eq!(s.check_insert(&batch(4, 6, 10, 1)), Ok(()));
}

#[test]
fn degenerate_nonempty_insert_fails() {
    let s = Spine::new();
    let bad = Batch::new(vec![0], vec![upd(1, 1, 0, 1)], vec![0]).unwrap();
    assert_eq!(s.check_insert(&bad), Err(SpineError::NonEmptyDegenerate));
}

#[test]
fn merge_pass_keeps_doubling() {
    let mut s = Spine::new();
    s.distinguish_since(&vec![1000]);
    let sizes = [5u64, 1, 7, 3, 3, 20, 2, 2, 2, 9, 40, 1];
    let mut lo = 0u64;
    let mut key = 0u64;
    let mut total = 0usize;
    for n in sizes.iter() {
        s.insert(batch(lo, lo + 1, key, *n));
        lo += 1;
        key += *n;
        total += *n as usize;
        let lens: Vec<usize> = s.map_batches().iter().map(|b| b.len()).collect();
        assert_doubling(&lens);
    }
    let cursor = s.cursor_through(&vec![1000]).unwrap();
    assert_eq!(cursor.updates().len(), total);
}

#[test]
fn merge_without_frontier_is_exact_union() {
    let a = Batch::new(vec![0], vec![upd(1, 0, 0, 1), upd(3, 0, 1, 2)], vec![2]).unwrap();
    let b = Batch::new(vec![2], vec![upd(1, 0, 0, 1), upd(2, 0, 2, -1)], vec![4]).unwrap();
    let m = a.merge_with(&b, None);
    assert_eq!(m.lower(), &vec![0]);
    assert_eq!(m.upper(), &vec![4]);
    assert_eq!(
        m.updates(),
        &vec![upd(1, 0, 0, 1), upd(1, 0, 0, 1), upd(2, 0, 2, -1), upd(3, 0, 1, 2)]
    );
}

#[test]
fn merge_with_frontier_accumulates_dominated_times() {
    let a = Batch::new(vec![0], vec![upd(1, 0, 0, 1), upd(1, 0, 6, 4)], vec![5]).unwrap();
    let b = Batch::new(vec![5], vec![upd(1, 0, 2, 2), upd(2, 0, 1, 1), upd(2, 0, 4, -1)], vec![9])
        .unwrap();
    let m = a.merge_with(&b, Some(&vec![5]));
    assert_eq!(m.updates(), &vec![upd(1, 0, 5, 3), upd(1, 0, 6, 4)]);
}

#[test]
fn cursor_reads_merging_and_dominated_pending() {
    let mut s = Spine::new();
    s.insert(batch(0, 5, 0, 4));
    s.distinguish_since(&vec![5]);
    s.insert(batch(5, 8, 100, 3));
    s.insert(batch(8, 9, 200, 2));
    let c = s.cursor_through(&vec![8]).unwrap();
    assert_eq!(c.storage().len(), 2);
    let ups = c.updates();
    assert_eq!(ups.len(), 7);
    assert!(ups.iter().all(|u| u.key < 200));
    assert!(is_sorted(&ups));
    let c = s.cursor_through(&vec![9]).unwrap();
    assert_eq!(c.updates().len(), 9);
    // a cut equal to a batch's lower frontier excludes that batch
    let c = s.cursor_through(&vec![5]).unwrap();
    assert_eq!(c.updates().len(), 4);
}

#[test]
fn cursor_skips_empty_merging_batches() {
    let mut s = Spine::new();
    s.insert(Batch::empty(vec![0], vec![3]));
    s.distinguish_since(&vec![3]);
    let c = s.cursor_through(&vec![3]).unwrap();
    assert_eq!(c.storage().len(), 0);
}

#[test]
fn cursor_before_through_frontier_is_none() {
    let mut s = Spine::new();
    s.insert(batch(0, 5, 0, 4));
    s.distinguish_since(&vec![5]);
    assert_eq!(s.check_cursor(&vec![3]), Ok(()));
    assert!(s.cursor_through(&vec![3]).is_none());
}

#[test]
fn cursor_straddling_cut_fails() {
    let mut s = Spine::new();
    s.insert(batch(0, 5, 0, 4));
    s.insert(batch(5, 8, 10, 4));
    assert_eq!(s.check_cursor(&vec![6]), Err(SpineError::Straddle));
    assert_eq!(s.check_cursor(&vec![5]), Ok(()));
    assert_eq!(s.check_cursor(&vec![8]), Ok(()));
}

#[test]
fn close_is_final_and_idempotent() {
    let mut s = Spine::new();
    s.insert(batch(0, 5, 0, 4));
    s.close();
    let n = s.map_batches().len();
    s.close();
    assert_eq!(s.map_batches().len(), n);
    assert_eq!(s.check_insert(&Batch::empty(vec![], vec![1])), Err(SpineError::Closed));
    assert_eq!(s.check_insert(&batch(5, 8, 0, 1)), Err(SpineError::Closed));
    assert_eq!(s.check_insert(&Batch::empty(vec![], vec![])), Ok(()));
    // the closing batch ends at the empty frontier
    let last = s.map_batches().pop().unwrap();
    assert!(last.upper().is_empty());
    assert_eq!(last.lower(), &vec![5]);
}

#[test]
fn empty_advance_discards_everything() {
    let mut s = Spine::new();
    s.insert(batch(0, 5, 0, 4));
    s.distinguish_since(&vec![5]);
    s.insert(batch(5, 8, 10, 4));
    assert_eq!(s.map_batches().len(), 2);
    s.advance_by(&vec![]);
    assert!(s.advance_frontier().is_empty());
    assert!(s.map_batches().is_empty());
    assert_eq!(s.check_cursor(&vec![8]), Err(SpineError::Discarded));
}

#[test]
fn nonempty_advance_keeps_batches() {
    let mut s = Spine::new();
    s.insert(batch(0, 5, 0, 4));
    s.advance_by(&vec![3]);
    assert_eq!(s.advance_frontier(), &vec![3]);
    assert_eq!(s.map_batches().len(), 1);
}

#[test]
fn frontier_tests() {
    assert!(time_in_advance(&vec![3, 7], 5));
    assert!(!time_in_advance(&vec![6, 7], 5));
    assert!(!time_in_advance(&vec![], 5));
    assert!(frontier_dominates(&vec![2], &vec![3, 4]));
    assert!(!frontier_dominates(&vec![5], &vec![3, 9]));
    assert!(frontier_dominates(&vec![5], &vec![]));
    assert!(!frontier_dominates(&vec![], &vec![1]));
    assert!(frontier_eq(&vec![1, 2], &vec![1, 2]));
    assert!(!frontier_eq(&vec![1, 2], &vec![2, 1]));
    assert_eq!(frontier_min(&vec![9, 4, 6]), 4);
    assert_eq!(frontier_min(&vec![]), 0);
}

#[test]
fn sorted_merge_and_consolidation() {
    let a = vec![upd(1, 0, 0, 1), upd(2, 0, 0, 1)];
    let b = vec![upd(1, 0, 0, -1), upd(3, 0, 0, 5)];
    let m = merge_sorted(&a, &b);
    assert_eq!(m.len(), 4);
    assert!(is_sorted(&m));
    assert_eq!(consolidate(&m), vec![upd(2, 0, 0, 1), upd(3, 0, 0, 5)]);
    let big = vec![upd(1, 0, 0, i64::MAX), upd(1, 0, 0, 1)];
    assert_eq!(consolidate(&big), big);
    assert!(!is_sorted(&vec![upd(2, 0, 0, 1), upd(1, 0, 0, 1)]));
    assert!(Batch::new(vec![0], vec![upd(2, 0, 0, 1), upd(1, 0, 0, 1)], vec![1]).is_none());
}

#[test]
fn bottom_merge_consolidates_by_advance_frontier() {
    let mut s = Spine::new();
    s.advance_by(&vec![5]);
    s.distinguish_since(&vec![10]);
    let a = Batch::new(vec![0], vec![upd(1, 0, 0, 1), upd(1, 0, 1, 1)], vec![3]).unwrap();
    let b = Batch::new(vec![3], vec![upd(1, 0, 3, -1)], vec![4]).unwrap();
    let c = Batch::new(vec![4], vec![upd(2, 0, 4, 1)], vec![6]).unwrap();
    s.insert(a);
    s.insert(b);
    assert_eq!(merging_lens(&s), vec![2, 1]);
    s.insert(c);
    let all = s.map_batches();
    assert_eq!(all.len(), 1);
    assert_eq!(all[0].updates(), &vec![upd(1, 0, 5, 1), upd(2, 0, 5, 1)]);
    assert_eq!(all[0].lower(), &vec![0]);
    assert_eq!(all[0].upper(), &vec![6]);
}
