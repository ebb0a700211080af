use khameleon::ds::{PredictorState, MEGABIT};
use khameleon::manager::manager::{
    apply_network, block_bits, resolve_network, session_models, NetworkSettings,
};
use khameleon::manager::scheduling::{
    after_schedule, next_round, snapshot_cache, DistPoll, Mailbox, PlanAction, RoundAction, BATCH,
    TIME_TO_CONVERGE_MS,
};
use khameleon::manager::sender::{
    after_send, pacing_wait_ns, record_sent, PlanCursor, SendAction,
};
use khameleon::manager::CacheSimulator;

#[test]
fn a_round_stops_on_kill_or_without_sender() {
    assert_eq!(next_round(true, DistPoll::Fresh, true, 0, 300), RoundAction::Stop);
    assert_eq!(next_round(false, DistPoll::Disconnected, true, 0, 300), RoundAction::Stop);
}

#[test]
fn a_round_decodes_what_is_fresh() {
    assert_eq!(next_round(false, DistPoll::Fresh, false, 0, 300), RoundAction::Decode);
}

#[test]
fn a_round_reuses_the_last_distribution_once_it_has_converged() {
    let wait = TIME_TO_CONVERGE_MS;
    assert_eq!(wait, 300);
    assert_eq!(BATCH, 100);
    assert_eq!(next_round(false, DistPoll::Empty, true, 301, wait), RoundAction::Reuse);
    assert_eq!(next_round(false, DistPoll::Empty, true, 300, wait), RoundAction::Skip);
    assert_eq!(next_round(false, DistPoll::Empty, false, 301, wait), RoundAction::Skip);
}

#[test]
fn an_empty_plan_is_not_published() {
    assert_eq!(after_schedule(&vec![]), PlanAction::Retry);
    assert_eq!(after_schedule(&vec![4]), PlanAction::Publish);
}

#[test]
fn snapshot_resets_a_cache_whose_application_changed() {
    let mut cache = CacheSimulator::new(4, 3);
    cache.add(1);
    cache.add(2);
    let (head, counts) = snapshot_cache(&mut cache, false);
    assert_eq!(head, 2);
    assert_eq!(counts.to_vec(), vec![0, 1, 1]);
    let (head, counts) = snapshot_cache(&mut cache, true);
    assert_eq!(head, 0);
    assert_eq!(counts.to_vec(), vec![0, 0, 0]);
    assert_eq!(cache.cache, vec![-1, -1, -1, -1]);
}

#[test]
fn newest_value_wins_in_a_mailbox() {
    let mut plans: Mailbox<Vec<usize>> = Mailbox::new();
    assert_eq!(plans.take(), None);
    assert_eq!(plans.post(vec![1]), None);
    assert_eq!(plans.post(vec![2, 3]), Some(vec![1]));
    assert_eq!(plans.take(), Some(vec![2, 3]));
    assert_eq!(plans.take(), None);
}

#[test]
fn cursor_walks_the_plan_and_takes_up_a_new_one() {
    let mut cursor = PlanCursor::new();
    assert_eq!(cursor.next_query(), None);
    cursor.replace(vec![4, 5, 6]);
    assert_eq!(cursor.next_query(), Some(4));
    assert_eq!(cursor.next_query(), Some(5));
    cursor.replace(vec![9]);
    assert_eq!(cursor.next_query(), Some(9));
    assert_eq!(cursor.next_query(), None);
    assert_eq!(cursor.next_query(), None);
}

#[test]
fn a_block_that_went_out_is_in_the_cache() {
    let mut cache = CacheSimulator::new(4, 3);
    assert!(record_sent(&mut cache, 2, true));
    assert_eq!(cache.get(2), 1);
    assert!(!record_sent(&mut cache, 2, false));
    assert_eq!(cache.get(2), 1);
    assert!(!record_sent(&mut cache, 3, true));
    assert_eq!(cache.head, 1);
    let mut none = CacheSimulator::new(0, 3);
    assert!(!record_sent(&mut none, 1, true));
}

#[test]
fn pacing_waits_for_what_is_left_of_the_sending_time() {
    // 20 KiB at 8 megabits per second take 19.53125 ms
    let size = 20 * 1024 * 8;
    assert_eq!(pacing_wait_ns(8 * MEGABIT, size, 0, 0), 19_531_250);
    assert_eq!(pacing_wait_ns(8 * MEGABIT, size, 9_531_250, 0), 10_000_000);
    assert_eq!(pacing_wait_ns(8 * MEGABIT, size, 30_000_000, 0), 0);
    assert_eq!(pacing_wait_ns(8 * MEGABIT, size, 30_000_000, 1_000), 1_000);
    assert_eq!(pacing_wait_ns(8 * MEGABIT, size, 0, 50_000_000), 50_000_000);
    // rounded up to the nanosecond
    assert_eq!(pacing_wait_ns(3, 1, 0, 0), 333_333_334);
    assert_eq!(pacing_wait_ns(0, 1, 0, 0), u64::MAX);
    assert_eq!(pacing_wait_ns(0, 0, 0, 5), 5);
}

#[test]
fn pacing_sends_about_fifty_blocks_a_second() {
    let wait = pacing_wait_ns(8 * MEGABIT, 20 * 1024 * 8, 0, 0);
    let per_second = 1_000_000_000 / wait;
    assert!(per_second >= 45 && per_second <= 55);
}

#[test]
fn configuration_defaults() {
    assert_eq!(
        resolve_network(None, None, None, None),
        NetworkSettings { latency: 100, bw: 10 * MEGABIT, min_wait: 0 }
    );
    assert_eq!(
        resolve_network(Some(30), Some(0), Some(5 * MEGABIT), Some(7)),
        NetworkSettings { latency: 30, bw: 5 * MEGABIT, min_wait: 7 }
    );
    assert_eq!(
        resolve_network(None, Some(3), Some(5 * MEGABIT), None),
        NetworkSettings { latency: 100, bw: 3 * MEGABIT, min_wait: 0 }
    );
    assert_eq!(resolve_network(None, Some(u64::MAX), None, None).bw, u64::MAX);
}

#[test]
fn block_size_in_bits() {
    assert_eq!(block_bits(20 * 1024), 163_840);
    assert_eq!(block_bits(0), 0);
    assert_eq!(block_bits(usize::MAX), u64::MAX);
}

#[test]
fn session_starts_with_default_estimates_and_an_empty_cache() {
    let (mut tm, cache) = session_models(8, 4);
    assert_eq!(tm.slot_to_client_delta(3), Some(50 + 3));
    assert_eq!(cache.cachesize, 8);
    assert_eq!(cache.cache_per_query.to_vec(), vec![0, 0, 0, 0]);
    tm.update_blocksize_megabits(block_bits(20 * 1024));
    apply_network(&mut tm, &NetworkSettings { latency: 40, bw: 8 * MEGABIT, min_wait: 0 });
    assert_eq!(tm.slot_to_client_delta(2), Some(20 + 2 * 20));
}

#[test]
fn predictor_state_carries_model_and_data() {
    let state = PredictorState::new("GM", serde_json::Value::Bool(true));
    assert_eq!(state.model, "GM");
    assert_eq!(state.data, serde_json::Value::Bool(true));
}

#[test]
fn a_failed_send_ends_the_session() {
    assert_eq!(after_send(true), SendAction::Continue);
    assert_eq!(after_send(false), SendAction::Stop);
}

#[test]
fn newest_distribution_wins_in_a_mailbox() {
    let mut dists: Mailbox<PredictorState> = Mailbox::new();
    assert!(dists.take().is_none());
    assert!(dists.post(PredictorState::new("first", serde_json::Value::Null)).is_none());
    let displaced = dists.post(PredictorState::new("second", serde_json::Value::Null));
    assert_eq!(displaced.unwrap().model, "first");
    assert_eq!(dists.take().unwrap().model, "second");
    assert!(dists.take().is_none());
}
