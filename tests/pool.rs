use std::cell::RefCell;
use std::rc::Rc;
use mpi_futures::request_poll::{wait_all_chunks, RequestPoll, Settled, SweepSize, WAIT_CHUNK};

fn pool_of(n: u32) -> RequestPoll<u32, u32> {
    let mut pool = RequestPoll::new();
    for i in 0..n {
        pool.reserve_one();
        pool.insert(100 + i, i, i % 2 == 0);
    }
    pool
}

fn settled(pool: &mut RequestPoll<u32, u32>, updated: Vec<u32>, completed: &Vec<i32>) -> Settled<u32, u32> {
    match pool.settle(updated, completed) {
        Some(s) => s,
        None => panic!("report refused"),
    }
}

#[test]
fn empty_pool_skips_the_native_call() {
    let pool: RequestPoll<u32, u32> = RequestPoll::new();
    assert_eq!(pool.len(), 0);
    assert!(matches!(pool.sweep_size(), SweepSize::Idle));
}

#[test]
fn sweep_size_counts_requests() {
    let pool = pool_of(3);
    assert!(matches!(pool.sweep_size(), SweepSize::Count(3)));
}

#[test]
fn insert_keeps_the_three_vectors_aligned() {
    let pool = pool_of(4);
    assert_eq!(pool.len(), 4);
    assert_eq!(pool.request_handles(), &vec![100, 101, 102, 103]);
    let mask = pool.cancel_mask(&vec![true, true, true, true]);
    assert_eq!(mask, vec![true, false, true, false]);
}

#[test]
fn callbacks_come_back_in_reported_order() {
    let mut pool = pool_of(5);
    let updated = vec![100, 0, 102, 0, 104];
    let s = settled(&mut pool, updated, &vec![3, 1]);
    assert_eq!(s.callbacks, vec![3, 1]);
    assert_eq!(s.released, vec![(3, 0), (1, 0)]);
    // slot 3 takes the last entry, then slot 1 takes the new last one
    assert_eq!(pool.request_handles(), &vec![100, 104, 102]);
    assert_eq!(pool.len(), 3);
    assert_eq!(pool.cancel_mask(&vec![true, true, true]), vec![true, true, true]);
}

#[test]
fn compaction_removes_exactly_the_completed_slots() {
    let mut pool = pool_of(6);
    let s = settled(&mut pool, vec![100, 101, 102, 103, 104, 105], &vec![0, 5, 2]);
    assert_eq!(s.callbacks, vec![0, 5, 2]);
    assert_eq!(s.released, vec![(5, 105), (2, 102), (0, 100)]);
    let mut left = pool.request_handles().clone();
    left.sort();
    assert_eq!(left, vec![101, 103, 104]);
}

#[test]
fn completing_everything_empties_the_pool() {
    let mut pool = pool_of(4);
    let s = settled(&mut pool, vec![0, 0, 0, 0], &vec![2, 0, 3, 1]);
    assert_eq!(s.callbacks, vec![2, 0, 3, 1]);
    assert_eq!(pool.len(), 0);
    assert!(matches!(pool.sweep_size(), SweepSize::Idle));
}

#[test]
fn empty_report_changes_nothing_but_the_handles() {
    let mut pool = pool_of(2);
    let s = settled(&mut pool, vec![7, 8], &vec![]);
    assert!(s.callbacks.is_empty());
    assert!(s.released.is_empty());
    assert_eq!(pool.request_handles(), &vec![7, 8]);
}

#[test]
fn report_out_of_range_is_refused() {
    let mut pool = pool_of(3);
    assert!(pool.settle(vec![100, 101, 102], &vec![3]).is_none());
    assert!(pool.settle(vec![100, 101, 102], &vec![-1]).is_none());
    assert_eq!(pool.len(), 3);
    assert_eq!(pool.request_handles(), &vec![100, 101, 102]);
}

#[test]
fn report_naming_a_slot_twice_is_refused() {
    let mut pool = pool_of(3);
    assert!(pool.settle(vec![100, 101, 102], &vec![1, 1]).is_none());
    assert_eq!(pool.len(), 3);
}

#[test]
fn report_of_another_length_is_refused() {
    let mut pool = pool_of(3);
    assert!(pool.settle(vec![100, 101], &vec![0]).is_none());
    assert_eq!(pool.len(), 3);
}

#[test]
fn sends_and_receives_complete_once_each() {
    // three sends (not cancellable) and two receives, completed over two sweeps
    let mut pool: RequestPoll<u32, &'static str> = RequestPoll::new();
    pool.insert(1, "send a", false);
    pool.insert(2, "recv a", true);
    pool.insert(3, "send b", false);
    pool.insert(4, "recv b", true);
    pool.insert(5, "send c", false);
    let first = pool.settle(vec![1, 2, 3, 4, 5], &vec![4, 1]).unwrap();
    assert_eq!(first.callbacks, vec!["send c", "recv a"]);
    let handles = pool.request_handles().clone();
    let all: Vec<i32> = (0..handles.len() as i32).collect();
    let second = pool.settle(handles, &all).unwrap();
    let mut names = first.callbacks.clone();
    names.extend(second.callbacks);
    names.sort();
    assert_eq!(names, vec!["recv a", "recv b", "send a", "send b", "send c"]);
    assert_eq!(pool.len(), 0);
}

#[test]
fn boxed_callbacks_run_after_the_sweep() {
    let log = Rc::new(RefCell::new(Vec::new()));
    let mut pool: RequestPoll<u32, Box<dyn FnOnce()>> = RequestPoll::new();
    for i in 0..3u32 {
        let log = log.clone();
        pool.insert(i, Box::new(move || log.borrow_mut().push(i)), true);
    }
    let s = pool.settle(vec![0, 1, 2], &vec![2, 0]).unwrap();
    for cb in s.callbacks {
        cb();
    }
    assert_eq!(*log.borrow(), vec![2, 0]);
    assert_eq!(pool.len(), 1);
}

#[test]
fn cancel_mask_skips_sends_and_null_requests() {
    let pool = pool_of(4);
    assert_eq!(pool.cancel_mask(&vec![false, true, true, false]), vec![false, false, true, false]);
}

#[test]
fn wait_chunks_of_small_pool() {
    assert_eq!(wait_all_chunks(0), vec![(0, 0)]);
    assert_eq!(wait_all_chunks(5), vec![(0, 5)]);
}

#[test]
fn wait_chunks_split_from_the_top() {
    assert_eq!(WAIT_CHUNK, 0xffff);
    assert_eq!(wait_all_chunks(0xffff), vec![(0, 0xffff), (0, 0)]);
    assert_eq!(wait_all_chunks(0x1_0000), vec![(1, 0xffff), (0, 1)]);
    assert_eq!(wait_all_chunks(2 * 0xffff + 3), vec![(0xffff + 3, 0xffff), (3, 0xffff), (0, 3)]);
}

#[test]
fn receives_are_cancellable_and_sends_are_not() {
    let mut pool: RequestPoll<u32, u32> = RequestPoll::new();
    pool.insert_recv(1, 10);
    pool.insert_send(2, 20);
    pool.insert_recv(3, 30);
    assert_eq!(pool.request_handles(), &vec![1, 2, 3]);
    assert_eq!(pool.cancel_mask(&vec![true, true, true]), vec![true, false, true]);
    let s = pool.settle(vec![1, 2, 3], &vec![1]).unwrap();
    assert_eq!(s.callbacks, vec![20]);
}
