use indexmap::IndexMap;
use khameleon::arrays::CountArray;
use khameleon::ds::{TimeManager, MEGABIT};
use khameleon::scheduler::prob::Prob;
use khameleon::scheduler::topk::{self, members};
use khameleon::scheduler::SchedulerTrait;
use std::collections::HashSet;

#[test]
fn members_lists_a_set_once() {
    let set: HashSet<usize> = [5usize, 1, 9].into_iter().collect();
    let mut listed = members(&set);
    listed.sort();
    assert_eq!(listed, vec![1, 5, 9]);
}

#[test]
fn top_k_orders_by_probability_and_pads() {
    let mut probs = Prob::new(5000);
    let mut dist: IndexMap<usize, u64> = IndexMap::new();
    dist.insert(2001, 100_000_000);
    dist.insert(2002, 400_000_000);
    dist.insert(2003, 300_000_000);
    dist.insert(2004, 50_000_000);
    dist.insert(2005, 150_000_000);
    probs.set_probs_at(dist, 0);
    let tm = TimeManager::new(1, 0, MEGABIT);
    let mut sched = topk::new(3);
    let plan = sched.run_scheduler(probs, CountArray::zeros(5000), 0, &tm);
    assert_eq!(plan, vec![2002, 2003, 2005, 2124]);
}

#[test]
fn top_k_leaves_query_zero_aside() {
    let mut probs = Prob::new(10);
    let mut dist: IndexMap<usize, u64> = IndexMap::new();
    dist.insert(0, 900_000_000);
    dist.insert(7, 100_000_000);
    probs.set_probs_at(dist, 0);
    let tm = TimeManager::new(1, 0, MEGABIT);
    let mut sched = topk::new(1);
    let plan = sched.run_scheduler(probs, CountArray::zeros(10), 0, &tm);
    assert_eq!(plan, vec![7, 124]);
}
