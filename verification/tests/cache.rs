use khameleon::manager::CacheSimulator;

#[test]
fn new_cache_is_empty() {
    let sim = CacheSimulator::new(4, 3);
    assert_eq!(sim.head, 0);
    assert_eq!(sim.cache, vec![-1, -1, -1, -1]);
    assert_eq!(sim.cache_per_query.to_vec(), vec![0, 0, 0]);
    let (head, counts) = sim.get_state();
    assert_eq!(head, 0);
    assert_eq!(counts.to_vec(), vec![0, 0, 0]);
}

#[test]
fn add_fills_the_slot_at_the_head() {
    let mut sim = CacheSimulator::new(4, 3);
    sim.add(2);
    sim.add(2);
    sim.add(0);
    assert_eq!(sim.head, 3);
    assert_eq!(sim.cache, vec![2, 2, 0, -1]);
    assert_eq!(sim.get(2), 2);
    assert_eq!(sim.get(0), 1);
    assert_eq!(sim.get(1), 0);
    assert_eq!(sim.get(17), 0);
}

#[test]
fn cache_resets_on_wrap() {
    let mut sim = CacheSimulator::new(4, 4);
    for q in [0usize, 1, 2, 3] {
        sim.add(q);
    }
    assert_eq!(sim.head, 0);
    assert_eq!(sim.cache_per_query.to_vec(), vec![0, 0, 0, 0]);
    sim.add(0);
    assert_eq!(sim.cache_per_query.to_vec(), vec![1, 0, 0, 0]);
    assert_eq!(sim.head, 1);
}

#[test]
fn counts_add_up_to_the_occupied_slots() {
    let mut sim = CacheSimulator::new(5, 3);
    for (step, q) in [1usize, 1, 2, 0, 2, 2, 1, 0, 0, 0, 1, 2].into_iter().enumerate() {
        sim.add(q);
        let occupied = sim.cache.iter().filter(|slot| **slot >= 0).count();
        let total: usize = sim.cache_per_query.to_vec().iter().sum();
        assert_eq!(total, occupied, "after step {}", step);
        assert_eq!(occupied, (step + 1) % 5);
    }
}

#[test]
fn reset_empties_the_cache() {
    let mut sim = CacheSimulator::new(3, 2);
    sim.add(1);
    sim.reset();
    assert_eq!(sim.head, 0);
    assert_eq!(sim.cache, vec![-1, -1, -1]);
    assert_eq!(sim.get(1), 0);
}

#[test]
fn a_cache_of_one_slot_is_always_empty_after_add() {
    let mut sim = CacheSimulator::new(1, 2);
    sim.add(1);
    assert_eq!(sim.head, 0);
    assert_eq!(sim.cache, vec![-1]);
    assert_eq!(sim.get(1), 0);
}
