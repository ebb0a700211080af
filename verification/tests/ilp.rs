use khameleon::arrays::{WeightArray, WeightCube};
use khameleon::ds::{TimeManager, MEGABIT};
use khameleon::fixed::ONE;
use khameleon::scheduler::ilp::{self, ILP};
use khameleon::scheduler::prob::Prob;

#[test]
fn masses_keep_the_first_slot_and_what_comes_after() {
    assert_eq!(ILP::tail_masses(&vec![1, 2, 3, 4]), vec![10, 8, 5, 1]);
    assert_eq!(ILP::tail_masses(&vec![7]), vec![7]);
    assert_eq!(ILP::tail_masses(&vec![]), Vec::<u64>::new());
}

#[test]
fn coefficients_are_utility_times_mass() {
    let tm = TimeManager::new(1, 0, MEGABIT);
    let utility = WeightArray::from_vec(vec![500_000_000, 250_000_000]);
    let probs = Prob::new(4);
    let cube = ILP::compute_big_u(&probs, 4, 3, &utility, &tm).unwrap();
    assert_eq!(cube.dim(), (4, 3, 3));
    for q in 0..4 {
        // the mass is 0.75, 0.5 and 0.25 for the three slots
        assert_eq!(cube.at(q, 0, 0), 375_000_000);
        assert_eq!(cube.at(q, 0, 1), 250_000_000);
        assert_eq!(cube.at(q, 0, 2), 125_000_000);
        assert_eq!(cube.at(q, 1, 0), 187_500_000);
        for t in 0..3 {
            assert_eq!(cube.at(q, 2, t), 0);
        }
    }
}

#[test]
fn cube_cells_can_be_set() {
    let mut cube = WeightCube::zeros(2, 2, 2);
    cube.set(1, 0, 1, ONE);
    assert_eq!(cube.at(1, 0, 1), ONE);
    assert_eq!(cube.at(0, 0, 1), 0);
    assert_eq!(cube.at(1, 1, 1), 0);
}

#[test]
fn variables_are_named_by_query_block_and_slot() {
    assert_eq!(ILP::variable_name(12, 0, 345), b"a_12_0_345".to_vec());
    assert_eq!(ILP::parse_variable(&b"a_12_0_345".to_vec()), Some((12, 0, 345)));
    assert_eq!(ILP::parse_variable(&ILP::variable_name(7, 8, 9)), Some((7, 8, 9)));
    assert_eq!(ILP::parse_variable(&b"a_1_2_3_4".to_vec()), Some((1, 2, 3)));
    assert_eq!(ILP::parse_variable(&b"x_+1_02_3".to_vec()), Some((1, 2, 3)));
}

#[test]
fn names_that_are_no_variables_are_refused() {
    for name in ["a_1_2", "a_1_2_", "a_1_x_3", "a__2_3", "", "a_1_2_99999999999999999999999"] {
        assert_eq!(ILP::parse_variable(&name.as_bytes().to_vec()), None, "{}", name);
    }
}

#[test]
fn a_solution_becomes_a_plan_in_the_order_of_the_slots() {
    let chosen = vec![(5, 0, 2), (3, 1, 0), (5, 1, 3), (9, 0, 1)];
    assert_eq!(
        ILP::sort_by_slot(&chosen),
        vec![(3, 1, 0), (9, 0, 1), (5, 0, 2), (5, 1, 3)]
    );
    assert_eq!(ILP::schedule_from(&chosen), vec![3, 9, 5, 5]);
    assert_eq!(ILP::schedule_from(&vec![]), Vec::<usize>::new());
    // blocks of one slot stay in the order in which they came
    assert_eq!(ILP::schedule_from(&vec![(2, 0, 1), (1, 0, 1), (0, 0, 0)]), vec![0, 2, 1]);
}

#[test]
fn a_scheduler_by_linear_program_keeps_what_it_is_given() {
    let sched = ilp::new(8, WeightArray::from_vec(vec![ONE]), 4);
    assert_eq!(sched.cachesize, 8);
    assert_eq!(sched.total_queries, 4);
    assert_eq!(sched.utility.to_vec(), vec![ONE]);
}

#[test]
fn a_cube_can_be_made_if_its_cells_can_be_counted() {
    assert!(WeightCube::can_hold(4, 3, 3));
    assert!(WeightCube::can_hold(0, usize::MAX / 2, 1));
    assert!(!WeightCube::can_hold(usize::MAX, 1, 1));
    assert!(!WeightCube::can_hold(1 << 31, 1 << 31, 1 << 31));
    assert!(!WeightCube::can_hold(usize::MAX / 2, 2, 0));
}

#[test]
fn slot_times_follow_the_standing_clock() {
    let tm = TimeManager::new(20, 100, MEGABIT);
    assert_eq!(ILP::slot_times(&tm, 3), Some(vec![50, 70, 90]));
    assert_eq!(ILP::slot_times(&tm, 0), Some(vec![]));
    let far = TimeManager::new(usize::MAX, 0, MEGABIT);
    assert_eq!(ILP::slot_times(&far, 1), Some(vec![0]));
    assert_eq!(ILP::slot_times(&far, 2), None);
}

#[test]
fn coefficients_need_a_cache_that_can_be_counted() {
    let tm = TimeManager::new(1, 0, MEGABIT);
    let utility = WeightArray::from_vec(vec![ONE]);
    let probs = Prob::new(2);
    assert!(ILP::compute_big_u(&probs, 2, 0, &utility, &tm).is_some());
    let far = TimeManager::new(usize::MAX, 0, MEGABIT);
    assert!(ILP::compute_big_u(&probs, 2, 2, &utility, &far).is_none());
}

#[test]
fn a_slot_constraint_lists_every_block_of_every_query_once() {
    let listed = ILP::slot_constraint(3, 2, 5);
    assert_eq!(listed.len(), 9);
    for q in 0..3 {
        for b in 0..=2 {
            assert_eq!(listed.iter().filter(|v| **v == (q, b, 5)).count(), 1);
        }
    }
    assert!(ILP::slot_constraint(0, 2, 5).is_empty());
    assert_eq!(ILP::slot_constraint(2, 0, 1), vec![(0, 0, 1), (1, 0, 1)]);
}

#[test]
fn a_block_constraint_lists_every_slot_once() {
    assert_eq!(ILP::block_constraint(3, 4, 2), vec![(4, 2, 0), (4, 2, 1), (4, 2, 2)]);
    assert!(ILP::block_constraint(0, 4, 2).is_empty());
}

#[test]
fn every_variable_stands_in_one_constraint_of_each_kind() {
    let (queries, blocks, slots) = (3usize, 2usize, 4usize);
    for q in 0..queries {
        for b in 0..=blocks {
            for t in 0..slots {
                let in_slots: usize = (0..slots)
                    .map(|s| {
                        ILP::slot_constraint(queries, blocks, s)
                            .iter()
                            .filter(|v| **v == (q, b, t))
                            .count()
                    })
                    .sum();
                assert_eq!(in_slots, 1);
                let mut in_blocks = 0;
                for a in 0..queries {
                    for c in 0..=blocks {
                        in_blocks += ILP::block_constraint(slots, a, c)
                            .iter()
                            .filter(|v| **v == (q, b, t))
                            .count();
                    }
                }
                assert_eq!(in_blocks, 1);
            }
        }
    }
}

#[test]
fn the_program_has_a_variable_for_each_block_in_each_slot() {
    let listed = ILP::variables(3, 2, 4);
    assert_eq!(listed.len(), 3 * 3 * 4);
    for q in 0..3 {
        for b in 0..=2 {
            for t in 0..4 {
                assert_eq!(listed.iter().filter(|v| **v == (q, b, t)).count(), 1);
            }
        }
    }
    assert!(ILP::variables(3, 2, 0).is_empty());
    assert!(ILP::variables(0, 2, 4).is_empty());
    // each variable of the program stands in the constraint of its slot
    for v in ILP::variables(2, 1, 3) {
        assert!(ILP::slot_constraint(2, 1, v.2).contains(&v));
        assert!(ILP::block_constraint(3, v.0, v.1).contains(&v));
    }
}
