use indexmap::IndexMap;
use khameleon::arrays::{CountArray, WeightArray, WeightMatrix};
use khameleon::ds::{TimeManager, MEGABIT};
use khameleon::fixed::ONE;
use khameleon::scheduler::greedy::{self, integrate_at, integrate_shared_at, slot_deltas, GreedyScheduler};
use khameleon::scheduler::prob::Prob;
use khameleon::scheduler::{Scheduler, SchedulerTrait, SchedulerType};

fn greedy_for(cachesize: usize, utility: Vec<u64>, blocks: Vec<usize>) -> GreedyScheduler {
    match khameleon::scheduler::new(&SchedulerType::Greedy, 100, cachesize, utility, blocks) {
        Scheduler::Greedy(g) => g,
        _ => panic!("a greedy scheduler was asked for"),
    }
}

fn standing_clock() -> TimeManager {
    TimeManager::new(1, 0, MEGABIT)
}

fn spike(n: usize) -> Prob {
    let mut probs = Prob::new(n);
    let mut dist: IndexMap<usize, u64> = IndexMap::new();
    dist.insert(3, 900_000_000);
    probs.set_probs_at(dist, 0);
    probs
}

fn count(plan: &[usize], q: usize) -> usize {
    plan.iter().filter(|x| **x == q).count()
}

#[test]
fn uniform_distribution_fills_an_empty_cache() {
    let tm = standing_clock();
    for _ in 0..20 {
        let mut sched = greedy_for(8, vec![500_000_000, ONE], vec![2, 2, 2, 2]);
        let plan = sched.run_scheduler(Prob::new(4), CountArray::zeros(4), 0, &tm);
        assert_eq!(plan.len(), 8);
        for q in 0..4 {
            assert_eq!(count(&plan, q), 2);
        }
    }
}

#[test]
fn spike_anchor_takes_the_first_slot() {
    let tm = standing_clock();
    let runs = 2000;
    let mut hits = 0;
    for _ in 0..runs {
        let mut sched = greedy_for(8, vec![500_000_000, ONE], vec![2; 10]);
        let plan = sched.run_scheduler(spike(10), CountArray::zeros(10), 0, &tm);
        assert!(!plan.is_empty());
        if plan[0] == 3 {
            hits += 1;
        }
    }
    assert!(hits * 100 > runs * 85, "query 3 came first in {} of {} runs", hits, runs);
}

#[test]
fn a_query_half_in_cache_is_planned_once_more_at_most() {
    let tm = standing_clock();
    for _ in 0..50 {
        let mut sched = greedy_for(8, vec![500_000_000, ONE], vec![2; 10]);
        let mut state = CountArray::zeros(10);
        state.set(3, 1);
        let plan = sched.run_scheduler(spike(10), state, 0, &tm);
        assert_eq!(plan.len(), 8);
        assert!(count(&plan, 3) <= 1);
        for q in 0..10 {
            assert!(count(&plan, q) <= 2);
        }
    }
}

#[test]
fn plan_is_no_longer_than_cache_or_batch_allow() {
    let tm = standing_clock();
    let mut sched = greedy_for(8, vec![ONE], vec![1; 50]);
    let plan = sched.run_scheduler(Prob::new(50), CountArray::zeros(50), 5, &tm);
    assert_eq!(plan.len(), 3);
    let mut small_batch = greedy::new(2, 8, WeightArray::from_vec(vec![ONE]), vec![1; 50]);
    let plan = small_batch.run_scheduler(Prob::new(50), CountArray::zeros(50), 0, &tm);
    assert_eq!(plan.len(), 2);
    let plan = small_batch.run_scheduler(Prob::new(50), CountArray::zeros(50), 8, &tm);
    assert!(plan.is_empty());
}

#[test]
fn plan_stops_where_no_query_has_a_block_left() {
    let tm = standing_clock();
    let mut sched = greedy_for(8, vec![500_000_000, ONE], vec![1, 2]);
    let plan = sched.run_scheduler(Prob::new(2), CountArray::zeros(2), 0, &tm);
    assert_eq!(plan.len(), 3);
    assert_eq!(count(&plan, 0), 1);
    assert_eq!(count(&plan, 1), 2);
}

#[test]
fn no_queries_no_plan() {
    let tm = standing_clock();
    let mut sched = greedy_for(8, vec![], vec![]);
    let plan = sched.run_scheduler(Prob::new(0), CountArray::zeros(0), 0, &tm);
    assert!(plan.is_empty());
}

#[test]
fn a_horizon_too_far_ahead_gives_no_plan() {
    let mut tm = TimeManager::new(1, 0, 1);
    tm.update_blocksize_megabits(MEGABIT * 1_000_000);
    let mut sched = greedy_for(8, vec![ONE], vec![1; 4]);
    let plan = sched.run_scheduler(Prob::new(4), CountArray::zeros(4), 0, &tm);
    assert!(plan.is_empty());
}

#[test]
fn slot_deltas_follow_the_standing_clock() {
    let tm = TimeManager::new(20, 100, MEGABIT);
    let (deltas, end) = slot_deltas(&tm, 4).unwrap();
    assert_eq!(deltas, vec![50, 70, 90, 110]);
    assert_eq!(end, 130);
    let far = TimeManager::new(usize::MAX, 0, MEGABIT);
    assert!(slot_deltas(&far, 1).is_none());
}

#[test]
fn integrals_of_the_uniform_model() {
    let probs = Prob::new(4);
    let m = integrate_at(&probs, 4, &vec![0, 10, 20], 30).unwrap();
    assert_eq!(m.nrows(), 4);
    assert_eq!(m.ncols(), 3);
    for q in 0..4 {
        assert_eq!(m.at(q, 0), 30 * 250_000_000);
        assert_eq!(m.at(q, 1), 20 * 250_000_000);
        assert_eq!(m.at(q, 2), 10 * 250_000_000);
        assert_eq!(m.get(q, 3), None);
    }
}

#[test]
fn shared_rows_give_the_same_integrals() {
    let mut probs = spike(10);
    probs.set_point_dist(800_000_000, 6);
    let deltas = vec![0, 7, 40, 41];
    let slow = integrate_at(&probs, 10, &deltas, 80).unwrap();
    let fast = integrate_shared_at(&probs, 10, &deltas, 80).unwrap();
    for q in 0..10 {
        for t in 0..4 {
            assert_eq!(slow.at(q, t), fast.at(q, t));
        }
    }
    assert_eq!(slow.at(3, 0), probs.integrate_over_range(3, 0, 80, 0));
    assert_eq!(slow.at(6, 2), probs.integrate_over_range(6, 40, 80, 0));
    assert!(slow.at(3, 0) > slow.at(1, 0));
    assert!(slow.at(6, 0) > slow.at(1, 0));
}

#[test]
fn integration_methods_agree_on_a_standing_clock() {
    let tm = TimeManager::new(5, 20, MEGABIT);
    let sched = greedy_for(8, vec![ONE], vec![1; 10]);
    let slow = sched.integrate_probs_slow(&tm, spike(10), 10, 6).unwrap();
    let fast = sched.integrate_probs(&tm, spike(10), 10, 6).unwrap();
    let probs = spike(10);
    for q in 0..10 {
        for t in 0..6 {
            let delta = 10 + 5 * t;
            let expected = probs.integrate_over_range(q, delta, 40, probs.get_lower_bound(delta));
            assert_eq!(slow.at(q, t), expected);
            assert_eq!(fast.at(q, t), expected);
        }
    }
}

#[test]
fn slot_rewards_weigh_utility_by_probability() {
    let sched = greedy_for(8, vec![500_000_000, ONE], vec![2, 1, 2]);
    let mut matrix = WeightMatrix::zeros(3, 2);
    matrix.set(0, 1, 10);
    matrix.set(1, 1, 20);
    matrix.set(2, 1, 30);
    let state = CountArray::from_vec(vec![1, 1, 0]);
    let utility = WeightArray::from_vec(vec![500_000_000, 500_000_000]);
    let (weights, sum) = sched.slot_rewards(&matrix, 1, 3, &utility, &state);
    assert_eq!(weights, vec![5_000_000_000, 0, 15_000_000_000]);
    assert_eq!(sum, 20_000_000_000);
    let (weights, sum) = sched.slot_rewards(&matrix, 0, 3, &utility, &state);
    assert_eq!(weights, vec![0, 0, 0]);
    assert_eq!(sum, 0);
}

#[test]
fn take_block_stops_at_the_limit() {
    let mut state = CountArray::from_vec(vec![0, 2]);
    let mut plan: Vec<usize> = Vec::new();
    assert!(GreedyScheduler::take_block(&mut state, &mut plan, 0, 2));
    assert!(GreedyScheduler::take_block(&mut state, &mut plan, 0, 2));
    assert!(!GreedyScheduler::take_block(&mut state, &mut plan, 0, 2));
    assert!(!GreedyScheduler::take_block(&mut state, &mut plan, 1, 2));
    assert_eq!(plan, vec![0, 0]);
    assert_eq!(state.to_vec(), vec![2, 2]);
}

#[test]
fn greedy_p_draws_only_queries_with_weight() {
    let sched = greedy_for(8, vec![ONE], vec![1, 1, 1]);
    let mut matrix = WeightMatrix::zeros(3, 4);
    for t in 0..4 {
        matrix.set(1, t, 1_000);
    }
    let utility = WeightArray::from_vec(vec![ONE]);
    let plan = sched.greedy_p(4, &matrix, 3, &utility, CountArray::zeros(3));
    assert_eq!(plan, vec![1]);
}

#[test]
fn sample_plan_respects_the_blocks_of_each_query() {
    let sched = greedy_for(8, vec![500_000_000, ONE], vec![2, 1, 2]);
    for _ in 0..50 {
        let mut p = WeightMatrix::zeros(3, 6);
        for q in 0..3 {
            for t in 0..6 {
                p.set(q, t, (1 + q as u64) * 1_000);
            }
        }
        let plan = sched.sample_plan(&p, &sched.utility_matrix, 6, 3, 2, CountArray::zeros(3));
        assert_eq!(plan.len(), 5);
        assert_eq!(count(&plan, 0), 2);
        assert_eq!(count(&plan, 1), 1);
        assert_eq!(count(&plan, 2), 2);
    }
}

#[test]
fn partition_has_a_row_for_each_listed_query_and_one_for_the_rest() {
    let tm = standing_clock();
    let sched = greedy_for(8, vec![ONE], vec![1; 10]);
    let (matrix, ids) = sched.integrate_probs_partition(&tm, spike(10), 10, 4).unwrap();
    let ids = ids.to_vec();
    // the model lists query 3 and the query of the overlay, query 0
    assert_eq!(ids.len(), 3);
    let mut listed = ids[..2].to_vec();
    listed.sort();
    assert_eq!(listed, vec![0, 3]);
    assert_eq!(matrix.nrows(), 3);
    let probs = spike(10);
    for (row, q) in ids.iter().enumerate() {
        for t in 0..4 {
            let expected = probs.integrate_over_range(*q, t, 4, probs.get_lower_bound(t));
            assert_eq!(matrix.at(row, t), expected);
        }
    }
    for _ in 0..20 {
        let (matrix, ids) = sched.integrate_probs_partition(&tm, spike(10), 10, 4).unwrap();
        let plan = sched.greedy_partition(
            ids,
            4,
            &matrix,
            10,
            &sched.utility,
            CountArray::zeros(10),
        );
        assert!(plan.len() <= 4);
        for q in 0..10 {
            assert!(count(&plan, q) <= 1);
        }
    }
}

#[test]
fn partition_is_made_whenever_the_horizon_and_the_matrix_allow() {
    let sched = greedy_for(8, vec![ONE], vec![1; 10]);
    let tm = standing_clock();
    for horizon in [0usize, 1, 5, 100] {
        let (matrix, ids) = sched.integrate_probs_partition(&tm, spike(10), 10, horizon).unwrap();
        assert_eq!(ids.len(), 3);
        assert_eq!(matrix.nrows(), 3);
        assert_eq!(matrix.ncols(), horizon);
    }
    // a horizon that ends further ahead than the model accepts
    let far = TimeManager::new(usize::MAX / 2, 0, MEGABIT);
    assert!(sched.integrate_probs_partition(&far, spike(10), 10, 2).is_none());
}

#[test]
fn greedy_p_plans_only_what_has_weight_in_its_slot() {
    // query 1 has no weight in any slot: only query 0 is planned, twice
    let sched = greedy_for(8, vec![500_000_000, 500_000_000], vec![2, 2]);
    let utility = WeightArray::from_vec(vec![500_000_000, 500_000_000]);
    for _ in 0..50 {
        let mut matrix = WeightMatrix::zeros(2, 4);
        for t in 0..4 {
            matrix.set(0, t, 1_000);
        }
        let plan = sched.greedy_p(4, &matrix, 2, &utility, CountArray::zeros(2));
        assert_eq!(plan, vec![0, 0]);
    }
    // no weight in the first slot: no plan, whatever the later slots hold
    let mut matrix = WeightMatrix::zeros(2, 4);
    for t in 1..4 {
        matrix.set(0, t, 1_000);
        matrix.set(1, t, 1_000);
    }
    let plan = sched.greedy_p(4, &matrix, 2, &utility, CountArray::zeros(2));
    assert!(plan.is_empty());
}

#[test]
fn spike_anchor_takes_the_first_slot_at_the_default_latency() {
    // a round trip of 100 ms, a millisecond for each block, a hundred slots
    let tm = TimeManager::new(1, 100, MEGABIT);
    assert_eq!(tm.slot_to_client_delta(0), Some(50));
    assert_eq!(tm.slot_to_client_delta(100), Some(150));
    let runs = 2000;
    let mut hits = 0;
    for _ in 0..runs {
        let mut sched = greedy_for(100, vec![500_000_000, ONE], vec![2; 10]);
        let plan = sched.run_scheduler(spike(10), CountArray::zeros(10), 0, &tm);
        assert!(!plan.is_empty());
        if plan[0] == 3 {
            hits += 1;
        }
    }
    assert!(hits * 100 > runs * 85, "query 3 came first in {} of {} runs", hits, runs);
}

#[test]
fn first_slot_weights_hold_the_spike() {
    let tm = standing_clock();
    let sched = greedy_for(8, vec![ONE], vec![1; 10]);
    let matrix = sched.integrate_probs_slow(&tm, spike(10), 10, 8).unwrap();
    // from the first slot to the end of the horizon, eight milliseconds on
    assert_eq!(matrix.at(3, 0), 8 * 900_000_000);
    assert_eq!(matrix.at(0, 0), 8 * 10_000_000);
    assert_eq!(matrix.at(3, 7), 900_000_000);
}

#[test]
fn partition_caps_each_query_at_its_own_blocks() {
    let tm = standing_clock();
    // the utility covers three blocks, the queries have one or two
    let mut blocks = vec![1usize; 10];
    blocks[3] = 2;
    let sched = greedy_for(8, vec![300_000_000, 600_000_000, ONE], blocks.clone());
    for _ in 0..50 {
        let (matrix, ids) = sched.integrate_probs_partition(&tm, spike(10), 10, 8).unwrap();
        let mut state = CountArray::zeros(10);
        state.set(5, 1);
        let plan = sched.greedy_partition(ids, 8, &matrix, 10, &sched.utility, state);
        assert!(plan.len() <= 8);
        assert_eq!(count(&plan, 5), 0);
        for q in 0..10 {
            assert!(count(&plan, q) <= blocks[q]);
        }
    }
}

#[test]
fn sample_plan_leaves_out_what_has_no_weight() {
    let sched = greedy_for(8, vec![500_000_000, ONE], vec![2, 2, 2]);
    for _ in 0..20 {
        let mut p = WeightMatrix::zeros(3, 6);
        for t in 0..6 {
            p.set(2, t, 1_000);
        }
        let plan = sched.sample_plan(&p, &sched.utility_matrix, 6, 3, 2, CountArray::zeros(3));
        assert_eq!(plan, vec![2, 2]);
    }
}
