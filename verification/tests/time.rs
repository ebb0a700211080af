use khameleon::ds::{TimeManager, MEGABIT};
use std::time::{Duration, Instant};

#[test]
fn transfer_time_of_a_block_of_20_kib_at_8_mbit() {
    let mut tm = TimeManager::new(1, 100, 8 * MEGABIT);
    tm.update_blocksize_megabits(20 * 1024 * 8);
    assert_eq!(tm.slot_to_client_delta(1), Some(50 + 20));
    tm.update_bandwidth(16 * MEGABIT);
    assert_eq!(tm.slot_to_client_delta(1), Some(50 + 10));
    assert_eq!(tm.get_ref_bw().load(), 16 * MEGABIT);
}

#[test]
fn transfer_time_rounds_up() {
    let mut tm = TimeManager::new(0, 0, 0);
    tm.update_transfer_time(3, 1);
    assert_eq!(tm.delta_after(0, 1), Some(334));
    tm.update_transfer_time(1000, 1);
    assert_eq!(tm.delta_after(0, 1), Some(1));
    tm.update_transfer_time(1000, 0);
    assert_eq!(tm.delta_after(0, 1), Some(0));
}

#[test]
fn without_bandwidth_a_block_never_arrives() {
    let mut tm = TimeManager::new(1, 0, 0);
    tm.update_blocksize_megabits(8);
    assert_eq!(tm.delta_after(0, 0), Some(0));
    assert_eq!(tm.delta_after(0, 1), Some(usize::MAX));
    assert_eq!(tm.delta_after(1, 1), None);
    assert_eq!(tm.delta_after(0, 2), None);
}

#[test]
fn slot_zero_is_half_the_latency_plus_elapsed() {
    let tm = TimeManager::new(7, 101, MEGABIT);
    assert_eq!(tm.slot_to_client_delta(0), Some(50));
    assert_eq!(tm.delta_after(13, 0), Some(63));
}

#[test]
fn client_delta_grows_with_the_slot() {
    let tm = TimeManager::new(7, 100, MEGABIT);
    let mut last = tm.delta_after(5, 0).unwrap();
    assert_eq!(last, 55);
    for slot in 1..50 {
        let now = tm.delta_after(5, slot).unwrap();
        assert_eq!(now, 55 + slot * 7);
        assert!(now > last);
        last = now;
    }
}

#[test]
fn time_runs_from_the_reference_instant() {
    let mut tm = TimeManager::new(10, 0, MEGABIT);
    tm.update_time(Instant::now() - Duration::from_millis(40));
    let delta = tm.slot_to_client_delta(2).unwrap();
    assert!(delta >= 60);
    assert!(delta < 60 + 10_000);
}

#[test]
fn update_latency_changes_the_offset() {
    let mut tm = TimeManager::new(1, 0, MEGABIT);
    tm.update_latency(30);
    assert_eq!(tm.slot_to_client_delta(4), Some(19));
}

#[test]
fn every_handle_is_to_the_one_cell_of_the_manager() {
    let mut tm = TimeManager::new(1, 0, 3 * MEGABIT);
    let early = tm.get_ref_bw();
    assert_eq!(early.load(), 3 * MEGABIT);
    tm.update_bandwidth(5 * MEGABIT);
    tm.update_latency(10);
    let late = tm.get_ref_bw();
    assert!(std::sync::Arc::ptr_eq(&early, &late));
    assert_eq!(early.load(), 5 * MEGABIT);
    late.store(7);
    assert_eq!(tm.get_ref_bw().load(), 7);
}
