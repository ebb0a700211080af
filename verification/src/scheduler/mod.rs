//! Schedulers: from a predicted distribution over future queries and the
//! state of the client's cache to an ordered plan of blocks to send.
//!
//! A plan is a sequence of query indices: its element at place `i` is the
//! query whose next block goes out in slot `i`.

use vstd::prelude::*;
use crate::arrays::{CountArray, WeightArray};
use crate::ds::TimeManager;
use crate::fixed::ONE;

pub mod greedy;
pub mod ilp;
pub mod prob;
pub mod prob_proofs;
pub mod sampling;
pub mod topk;

pub use prob::Prob;

verus! {

/// The schedulers the server can run.
#[derive(Clone, Copy, Debug, PartialEq, Eq, Structural)]
pub enum SchedulerType {
    Greedy,
    ILP,
    TopK,
}

/// The utility rises, or stays, with every further block, and is at most
/// `ONE`.
pub open spec fn is_utility(utility: Seq<u64>) -> bool {
    &&& forall|i: int, j: int| 0 <= i <= j < utility.len() ==> utility[i] <= utility[j]
    &&& forall|i: int| 0 <= i < utility.len() ==> utility[i] <= ONE
}

/// What block `i` adds to the utility of the blocks before it: all of the
/// first block's utility, the rise from block `i - 1` for a later block, and
/// nothing past the end of `utility`.
pub open spec fn marginal(utility: Seq<u64>, i: int) -> int {
    if i == 0 {
        utility[0] as int
    } else if i >= utility.len() {
        0
    } else {
        utility[i] - utility[i - 1]
    }
}

/// The marginal utility of each of `max_blocks_count` blocks, from the
/// utility of having each number of blocks.
pub fn discretise_utility(utility: Vec<u64>, max_blocks_count: usize) -> (r: WeightArray)
    requires
        is_utility(utility@),
        max_blocks_count > 0 ==> utility@.len() > 0,
    ensures
        r@.len() == max_blocks_count,
        forall|i: int| 0 <= i < max_blocks_count ==> r@[i] == marginal(utility@, i),
        forall|i: int| 0 <= i < max_blocks_count ==> r@[i] <= ONE,
{
    let mut steps: Vec<u64> = Vec::new();
    let mut i: usize = 0;
    while i < max_blocks_count
        invariant
            i <= max_blocks_count,
            is_utility(utility@),
            max_blocks_count > 0 ==> utility@.len() > 0,
            steps@.len() == i,
            forall|k: int| 0 <= k < i ==> steps@[k] == marginal(utility@, k),
            forall|k: int| 0 <= k < i ==> steps@[k] <= ONE,
        decreases max_blocks_count - i,
    {
        let step: u64 = if i == 0 {
            utility[i]
        } else if i >= utility.len() {
            0
        } else {
            utility[i] - utility[i - 1]
        };
        steps.push(step);
        i += 1;
    }
    WeightArray::from_vec(steps)
}

/// What every scheduler offers: a plan for the blocks to send next.
pub trait SchedulerTrait: Send + Sync {
    /// The scheduler is consistent with the application it was made for.
    spec fn ready(&self) -> bool;

    /// The distribution, the state of the cache and its head are such as
    /// this scheduler can plan for.
    spec fn admits(&self, probs: &Prob, state: Seq<usize>, start_idx: usize) -> bool;

    /// The plan for the slots from the head of the cache on: `probs` is the
    /// predicted distribution, `state` the number of blocks of each query in
    /// the cache, `start_idx` the head of the cache, and `tm` tells when
    /// the block of each slot will be at the client.
    fn run_scheduler(
        &mut self,
        probs: Prob,
        state: CountArray,
        start_idx: usize,
        tm: &TimeManager,
    ) -> (plan: Vec<usize>)
        requires
            old(self).ready(),
            probs.wf(),
            old(self).admits(&probs, state@, start_idx),
        ensures
            final(self).ready(),
    ;
}

/// A scheduler of one of the kinds.
pub enum Scheduler {
    Greedy(greedy::GreedyScheduler),
    ILP(ilp::ILP),
    TopK(topk::TopKScheduler),
}

/// The largest of the counts, or zero where there is none.
pub open spec fn largest(counts: Seq<usize>) -> int
    decreases counts.len(),
{
    if counts.len() == 0 {
        0
    } else if counts.last() > largest(counts.drop_last()) {
        counts.last() as int
    } else {
        largest(counts.drop_last())
    }
}

/// No count is above the largest.
pub proof fn lemma_largest_bounds(counts: Seq<usize>, i: int)
    requires
        0 <= i < counts.len(),
    ensures
        counts[i] <= largest(counts),
    decreases counts.len(),
{
    if i < counts.len() - 1 {
        lemma_largest_bounds(counts.drop_last(), i);
    }
}

/// The largest number of blocks that a query has.
pub fn max_blocks(blocks_per_query: &Vec<usize>) -> (r: usize)
    ensures
        r == largest(blocks_per_query@),
{
    let mut best: usize = 0;
    let mut i: usize = 0;
    proof {
        assert(blocks_per_query@.take(0) =~= Seq::<usize>::empty());
    }
    while i < blocks_per_query.len()
        invariant
            i <= blocks_per_query@.len(),
            best == largest(blocks_per_query@.take(i as int)),
        decreases blocks_per_query@.len() - i,
    {
        proof {
            assert(blocks_per_query@.take(i + 1).drop_last() =~= blocks_per_query@.take(i as int));
        }
        if blocks_per_query[i] > best {
            best = blocks_per_query[i];
        }
        i += 1;
    }
    proof {
        assert(blocks_per_query@.take(blocks_per_query@.len() as int) =~= blocks_per_query@);
    }
    best
}

/// The number of queries that the top-k scheduler plans for.
pub const TOP_K: usize = 5;

/// A scheduler of the kind `stype` for an application whose queries have
/// `blocks_per_query` blocks each and whose user values the first blocks of
/// a query as `utility` says. The utility is made marginal for as many
/// blocks as the largest query has.
pub fn new(
    stype: &SchedulerType,
    batch: usize,
    cachesize: usize,
    utility: Vec<u64>,
    blocks_per_query: Vec<usize>,
) -> (r: Scheduler)
    requires
        is_utility(utility@),
        largest(blocks_per_query@) > 0 ==> utility@.len() > 0,
        blocks_per_query@.len() <= u32::MAX,
        blocks_per_query@.len() <= isize::MAX,
        largest(blocks_per_query@) <= isize::MAX,
        blocks_per_query@.len() * largest(blocks_per_query@) <= isize::MAX,
    ensures
        match *stype {
            SchedulerType::Greedy => r matches Scheduler::Greedy(g) && g.wf() && g.batch == batch
                && g.cachesize == cachesize && g.blocks_per_query@ == blocks_per_query@
                && g.utility@.len() == largest(blocks_per_query@) && forall|i: int|
                0 <= i < g.utility@.len() ==> g.utility@[i] == marginal(utility@, i),
            SchedulerType::ILP => r matches Scheduler::ILP(l) && l.cachesize == cachesize
                && l.total_queries == blocks_per_query@.len() && l.utility@.len() == largest(
                blocks_per_query@,
            ) && forall|i: int| 0 <= i < l.utility@.len() ==> l.utility@[i] == marginal(utility@, i),
            SchedulerType::TopK => r matches Scheduler::TopK(t) && t.k == TOP_K,
        },
{
    let max_blocks_count: usize = max_blocks(&blocks_per_query);
    let total_queries: usize = blocks_per_query.len();
    let utility = discretise_utility(utility, max_blocks_count);
    match stype {
        SchedulerType::Greedy => {
            proof {
                assert forall|q: int| 0 <= q < blocks_per_query@.len() implies blocks_per_query@[q]
                    <= utility@.len() by {
                    lemma_largest_bounds(blocks_per_query@, q);
                }
            }
            Scheduler::Greedy(greedy::new(batch, cachesize, utility, blocks_per_query))
        },
        SchedulerType::ILP => Scheduler::ILP(ilp::new(cachesize, utility, total_queries)),
        SchedulerType::TopK => Scheduler::TopK(topk::new(TOP_K)),
    }
}

} // verus!
