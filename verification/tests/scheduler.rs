use khameleon::fixed::ONE;
use khameleon::scheduler::{discretise_utility, max_blocks, Scheduler, SchedulerType, TOP_K};

#[test]
fn utility_is_made_marginal() {
    let steps = discretise_utility(vec![500_000_000, 800_000_000, ONE], 5);
    assert_eq!(steps.to_vec(), vec![500_000_000, 300_000_000, 200_000_000, 0, 0]);
    let steps = discretise_utility(vec![500_000_000, 800_000_000, ONE], 2);
    assert_eq!(steps.to_vec(), vec![500_000_000, 300_000_000]);
    let steps = discretise_utility(vec![], 0);
    assert_eq!(steps.len(), 0);
}

#[test]
fn the_largest_query_sets_the_number_of_blocks() {
    assert_eq!(max_blocks(&vec![2, 7, 3]), 7);
    assert_eq!(max_blocks(&vec![]), 0);
}

#[test]
fn new_makes_the_scheduler_that_was_asked_for() {
    let utility = vec![500_000_000, ONE];
    match khameleon::scheduler::new(&SchedulerType::Greedy, 100, 8, utility.clone(), vec![2, 1]) {
        Scheduler::Greedy(g) => {
            assert_eq!(g.batch, 100);
            assert_eq!(g.cachesize, 8);
            assert_eq!(g.total_queries, 2);
            assert_eq!(g.utility.to_vec(), vec![500_000_000, 500_000_000]);
            assert_eq!(g.blocks_per_query.to_vec(), vec![2, 1]);
            assert_eq!(g.utility_matrix.at(0, 1), 500_000_000);
            assert_eq!(g.utility_matrix.at(1, 0), 500_000_000);
            assert_eq!(g.utility_matrix.at(1, 1), 0);
        }
        _ => panic!("a greedy scheduler was asked for"),
    }
    match khameleon::scheduler::new(&SchedulerType::ILP, 100, 8, utility.clone(), vec![2, 1]) {
        Scheduler::ILP(ilp) => {
            assert_eq!(ilp.cachesize, 8);
            assert_eq!(ilp.total_queries, 2);
            assert_eq!(ilp.utility.to_vec(), vec![500_000_000, 500_000_000]);
        }
        _ => panic!("a scheduler by linear program was asked for"),
    }
    match khameleon::scheduler::new(&SchedulerType::TopK, 100, 8, utility, vec![2, 1]) {
        Scheduler::TopK(t) => assert_eq!(t.k, TOP_K),
        _ => panic!("a top-k scheduler was asked for"),
    }
}
