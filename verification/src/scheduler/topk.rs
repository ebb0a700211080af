//! The top-k scheduler: the k most probable queries, most probable first.

use vstd::prelude::*;
use std::collections::HashSet;
use vstd::std_specs::iter::IteratorSpec;
use crate::arrays::CountArray;
use crate::ds::TimeManager;
use crate::scheduler::prob::Prob;
use crate::scheduler::SchedulerTrait;

verus! {

broadcast use vstd::std_specs::hash::group_hash_axioms;

/// Schedules the `k` most probable queries.
#[derive(Clone)]
pub struct TopKScheduler {
    /// Number of queries to schedule.
    pub k: usize,
}

/// A top-k scheduler for `k` queries.
pub fn new(k: usize) -> (r: TopKScheduler)
    ensures
        r.k == k,
{
    TopKScheduler { k }
}

/// The members of the set, each once, in the order in which the set yields
/// them.
pub fn members(set: &HashSet<usize>) -> (r: Vec<usize>)
    ensures
        r@.to_set() == set@,
        r@.no_duplicates(),
{
    let mut out: Vec<usize> = Vec::new();
    let ghost all = vstd::std_specs::hash::spec_hash_keys_iter(set).remaining();
    for x in it: set.iter()
        invariant
            it.seq() == all,
            out@.len() == it.index(),
            forall|i: int| 0 <= i < out@.len() ==> out@[i] == *all[i],
    {
        out.push(*x);
    }
    proof {
        assert(out@ =~= all.unref());
        assert forall|i: int, j: int| 0 <= i < j < out@.len() implies out@[i] != out@[j] by {
            assert(all[i] != all[j]);
        }
    }
    out
}

/// The queries that the top-k scheduler chooses from: those that the model
/// lists, but for query zero.
pub open spec fn candidates(probs: &Prob) -> Set<usize> {
    probs.explicit_queries().remove(0)
}

/// What closes a top-k plan: the first query of the plan with its last three
/// decimal digits replaced by 124.
pub open spec fn padding(first: int) -> int {
    first - first % 1000 + 124
}

/// The first `k` places of `plan` hold `k` of the candidates, none twice,
/// from the most probable now to the least, and no candidate left out is
/// more probable than the last of them.
pub open spec fn is_top(probs: &Prob, plan: Seq<usize>, k: int) -> bool {
    &&& k <= plan.len()
    &&& forall|i: int| 0 <= i < k ==> candidates(probs).contains(#[trigger] plan[i])
    &&& forall|i: int, j: int| 0 <= i < j < k ==> plan[i] != plan[j]
    &&& forall|i: int, j: int|
        0 <= i < j < k ==> probs.get_spec(plan[i], 0) >= probs.get_spec(plan[j], 0)
    &&& forall|q: usize, i: int|
        #![trigger candidates(probs).contains(q), plan[i]]
        candidates(probs).contains(q) && 0 <= i < k && (forall|j: int|
            0 <= j < k ==> plan[j] != q) ==> probs.get_spec(q, 0) <= probs.get_spec(plan[i], 0)
}

/// Moves the most probable of the places from `from` on to the place `from`.
#[verifier::rlimit(50)]
fn raise_best(probs: &Prob, plan: &mut Vec<usize>, from: usize)
    requires
        probs.wf(),
        from < old(plan)@.len(),
        old(plan)@.no_duplicates(),
    ensures
        final(plan)@.len() == old(plan)@.len(),
        final(plan)@.no_duplicates(),
        final(plan)@.to_set() == old(plan)@.to_set(),
        forall|i: int| 0 <= i < from ==> final(plan)@[i] == old(plan)@[i],
        forall|i: int|
            from <= i < final(plan)@.len() ==> probs.get_spec(final(plan)@[from as int], 0)
                >= probs.get_spec(#[trigger] final(plan)@[i], 0),
{
    let n: usize = plan.len();
    let mut best: usize = from;
    let mut best_p: u64 = probs.get(plan[from], 0);
    let mut i: usize = from + 1;
    while i < n
        invariant
            from < i <= n,
            n == plan@.len(),
            probs.wf(),
            from <= best < i,
            best_p == probs.get_spec(plan@[best as int], 0),
            forall|j: int| from <= j < i ==> best_p >= probs.get_spec(#[trigger] plan@[j], 0),
        decreases n - i,
    {
        let p: u64 = probs.get(plan[i], 0);
        if p > best_p {
            best = i;
            best_p = p;
        }
        i += 1;
    }
    let ghost before = plan@;
    let first: usize = plan[from];
    let chosen: usize = plan[best];
    plan.set(from, chosen);
    plan.set(best, first);
    proof {
        let after = plan@;
        assert forall|a: int, b: int| 0 <= a < after.len() && 0 <= b < after.len() && a
            != b implies after[a] != after[b] by {
            let pa = if a == from {
                best as int
            } else if a == best {
                from as int
            } else {
                a
            };
            let pb = if b == from {
                best as int
            } else if b == best {
                from as int
            } else {
                b
            };
            assert(after[a] == before[pa]);
            assert(after[b] == before[pb]);
            assert(pa != pb);
        }
        assert forall|x: usize| after.to_set().contains(x) <==> before.to_set().contains(x) by {
            if after.contains(x) {
                let a = choose|a: int| 0 <= a < after.len() && after[a] == x;
                let pa = if a == from {
                    best as int
                } else if a == best {
                    from as int
                } else {
                    a
                };
                assert(before[pa] == x);
            }
            if before.contains(x) {
                let a = choose|a: int| 0 <= a < before.len() && before[a] == x;
                let pa = if a == from {
                    best as int
                } else if a == best {
                    from as int
                } else {
                    a
                };
                assert(after[pa] == x);
            }
        }
        assert(after.to_set() =~= before.to_set());
        assert forall|j: int| from <= j < after.len() implies probs.get_spec(
            after[from as int],
            0,
        ) >= probs.get_spec(#[trigger] after[j], 0) by {
            let pj = if j == from {
                best as int
            } else if j == best {
                from as int
            } else {
                j
            };
            assert(after[j] == before[pj]);
            assert(best_p >= probs.get_spec(before[pj], 0));
        }
    }
}

impl SchedulerTrait for TopKScheduler {
    open spec fn ready(&self) -> bool {
        self.k > 0
    }

    open spec fn admits(&self, probs: &Prob, state: Seq<usize>, start_idx: usize) -> bool {
        &&& candidates(probs).finite()
        &&& self.k <= candidates(probs).len()
        &&& forall|q: usize| candidates(probs).contains(q) ==> padding(q as int) <= usize::MAX
    }

    /// The `k` most probable of the queries that the model lists, query zero
    /// left aside, from the most probable now to the least, and after them
    /// the padding of the first. Which of two equally probable queries comes
    /// first is not determined.
    #[verifier::rlimit(50)]
    fn run_scheduler(
        &mut self,
        probs: Prob,
        state: CountArray,
        start_idx: usize,
        tm: &TimeManager,
    ) -> (plan: Vec<usize>)
        ensures
            *final(self) == *old(self),
            plan@.len() == old(self).k + 1,
            is_top(&probs, plan@, old(self).k as int),
            plan@[old(self).k as int] == padding(plan@[0] as int),
    {
        let mut qids = probs.get_k();
        qids.remove(&0);
        let mut plan: Vec<usize> = members(&qids);
        proof {
            plan@.unique_seq_to_set();
            assert(plan@.to_set() == candidates(&probs));
        }
        let ghost all = plan@;
        let k: usize = self.k;
        let mut done: usize = 0;
        while done < k
            invariant
                done <= k <= plan@.len(),
                probs.wf(),
                plan@.no_duplicates(),
                plan@.to_set() == candidates(&probs),
                forall|i: int, j: int|
                    0 <= i < done && i < j < plan@.len() ==> probs.get_spec(plan@[i], 0)
                        >= probs.get_spec(plan@[j], 0),
            decreases k - done,
        {
            let ghost before = plan@;
            raise_best(&probs, &mut plan, done);
            proof {
                assert forall|i: int, j: int| 0 <= i < done + 1 && i < j < plan@.len() implies probs.get_spec(
                    plan@[i],
                    0,
                ) >= probs.get_spec(plan@[j], 0) by {
                    if i < done {
                        assert(plan@[i] == before[i]);
                        assert(plan@.to_set().contains(plan@[j]));
                        assert(before.to_set().contains(plan@[j]));
                        let pj = choose|pj: int| 0 <= pj < before.len() && before[pj] == plan@[j];
                        if pj < done {
                            assert(plan@[pj] == before[pj]);
                            assert(plan@[pj] == plan@[j]);
                        }
                        assert(probs.get_spec(before[i], 0) >= probs.get_spec(before[pj], 0));
                    }
                }
            }
            done += 1;
        }
        let ghost sorted = plan@;
        plan.truncate(k);
        proof {
            assert(plan@ =~= sorted.take(k as int));
            assert forall|i: int| 0 <= i < k implies candidates(&probs).contains(
                #[trigger] plan@[i],
            ) by {
                assert(sorted.to_set().contains(sorted[i]));
            }
            assert forall|q: usize, i: int|
                #![trigger candidates(&probs).contains(q), plan@[i]]
                candidates(&probs).contains(q) && 0 <= i < k && (forall|j: int|
                    0 <= j < k ==> plan@[j] != q) implies probs.get_spec(q, 0) <= probs.get_spec(
                plan@[i],
                0,
            ) by {
                assert(sorted.to_set().contains(q));
                let pq = choose|pq: int| 0 <= pq < sorted.len() && sorted[pq] == q;
                if pq < k {
                    assert(plan@[pq] == q);
                }
            }
            assert(candidates(&probs).contains(plan@[0]));
        }
        let ghost top = plan@;
        let first: usize = plan[0];
        plan.push(first - (first % 1000) + 124);
        proof {
            assert forall|i: int| 0 <= i < k implies plan@[i] == top[i] by {}
            assert forall|i: int| 0 <= i < k implies candidates(&probs).contains(
                #[trigger] plan@[i],
            ) by {
                assert(candidates(&probs).contains(top[i]));
            }
            assert forall|i: int, j: int| 0 <= i < j < k implies probs.get_spec(plan@[i], 0)
                >= probs.get_spec(plan@[j], 0) by {
                assert(probs.get_spec(top[i], 0) >= probs.get_spec(top[j], 0));
            }
            assert forall|q: usize, i: int|
                #![trigger candidates(&probs).contains(q), plan@[i]]
                candidates(&probs).contains(q) && 0 <= i < k && (forall|j: int|
                    0 <= j < k ==> plan@[j] != q) implies probs.get_spec(q, 0) <= probs.get_spec(
                plan@[i],
                0,
            ) by {
                assert forall|j: int| 0 <= j < k implies top[j] != q by {
                    assert(plan@[j] != q);
                }
                assert(candidates(&probs).contains(q));
                assert(probs.get_spec(q, 0) <= probs.get_spec(top[i], 0));
            }
        }
        plan
    }
}

} // verus!
