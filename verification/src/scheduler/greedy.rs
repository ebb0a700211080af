//! The greedy scheduler. For each slot of the horizon it weighs every query
//! by the utility of its next block times the probability that the block
//! will still be of use when it arrives, and draws the query of the slot at
//! random in proportion to those weights.

use vstd::prelude::*;
use crate::arrays::{CountArray, WeightArray, WeightMatrix};
use crate::ds::{client_delta, lemma_client_delta_ordered, TimeManager};
use crate::fixed::{MAX_DELTA_MS, ONE, TAIL_MS};
use crate::scheduler::prob::{lower_bound, Prob};
use crate::scheduler::sampling::{
    draw_below, draw_below_wide, pick, sampler_draw, sampler_new, thread_generator, weights_sum,
};
use crate::scheduler::topk::members;
use crate::scheduler::SchedulerTrait;

verus! {

/// The number of times that `q` occurs in the plan.
pub open spec fn count(plan: Seq<usize>, q: int) -> int
    decreases plan.len(),
{
    if plan.len() == 0 {
        0
    } else {
        count(plan.drop_last(), q) + if plan.last() == q {
            1int
        } else {
            0int
        }
    }
}

/// The blocks of each query at the client once the plan has been sent: those
/// of `state` and one more for each occurrence in the plan.
pub open spec fn state_after(state: Seq<usize>, plan: Seq<usize>) -> Seq<int> {
    Seq::new(state.len(), |q: int| state[q] + count(plan, q))
}

/// The weight of query `q` in slot `t`: the marginal utility of its next
/// block times the integrated probability of the query from that slot on, or
/// zero where the query has no further block.
pub open spec fn reward(
    utility: Seq<u64>,
    blocks: Seq<usize>,
    matrix: Seq<Seq<u64>>,
    state: Seq<int>,
    q: int,
    t: int,
) -> int {
    if state[q] < blocks[q] {
        utility[state[q]] * matrix[q][t]
    } else {
        0
    }
}

/// The weights of the first `n` queries in slot `t`.
pub open spec fn rewards(
    utility: Seq<u64>,
    blocks: Seq<usize>,
    matrix: Seq<Seq<u64>>,
    state: Seq<int>,
    n: int,
    t: int,
) -> Seq<u128> {
    Seq::new(n as nat, |q: int| reward(utility, blocks, matrix, state, q, t) as u128)
}

/// Every cell of the matrix is the integral of a probability over an
/// interval that the model accepts.
pub open spec fn matrix_bounded(matrix: Seq<Seq<u64>>) -> bool {
    forall|q: int, t: int|
        0 <= q < matrix.len() && 0 <= t < matrix[q].len() ==> (#[trigger] matrix[q][t]) <= ONE
            * MAX_DELTA_MS
}

/// The matrix holds, for each of the `n` queries and each time of `deltas`,
/// the probability of the query integrated from that time to `horizon_delta`.
pub open spec fn integrated(
    probs: &Prob,
    n: int,
    matrix: Seq<Seq<u64>>,
    deltas: Seq<usize>,
    horizon_delta: int,
) -> bool {
    &&& matrix.len() == n
    &&& forall|q: int| 0 <= q < n ==> (#[trigger] matrix[q]).len() == deltas.len()
    &&& forall|q: int, t: int|
        0 <= q < n && 0 <= t < deltas.len() ==> (#[trigger] matrix[q][t]) == probs.integrate_spec(
            q as usize,
            deltas[t] as int,
            horizon_delta,
            lower_bound(probs.anchors(), deltas[t] as int),
        )
}

/// The times of the first `horizon` slots at the client while the clock of
/// the time manager stands, as it does before a reference instant is set.
pub open spec fn standing_deltas(tm: &TimeManager, horizon: int) -> Seq<usize> {
    Seq::new(
        horizon as nat,
        |t: int| client_delta(tm.latency_ms() as int, 0, t, tm.transfer_ms() as int) as usize,
    )
}

/// What the clock may show while the times of `horizon` slots and of the end
/// of the horizon are read off it: for each of them the milliseconds that
/// have passed, none while the clock stands.
pub open spec fn clock_readings(tm: &TimeManager, horizon: int, elapsed: Seq<int>) -> bool {
    &&& elapsed.len() == horizon + 1
    &&& forall|t: int|
        0 <= t <= horizon ==> 0 <= #[trigger] elapsed[t] && (!tm.timed() ==> elapsed[t] == 0)
}

/// The time of slot `t` at the client, read when `elapsed[t]` milliseconds
/// have passed.
pub open spec fn delta_read(tm: &TimeManager, elapsed: Seq<int>, t: int) -> int {
    client_delta(tm.latency_ms() as int, elapsed[t], t, tm.transfer_ms() as int)
}

/// The times of the slots can be integrated over: the end of the horizon,
/// extrapolation included, is no further ahead than the model accepts, and
/// the time of each slot fits in a machine word.
pub open spec fn deltas_in_reach(tm: &TimeManager, horizon: int, elapsed: Seq<int>) -> bool {
    &&& delta_read(tm, elapsed, horizon) + TAIL_MS <= MAX_DELTA_MS
    &&& forall|t: int| 0 <= t < horizon ==> #[trigger] delta_read(tm, elapsed, t) <= usize::MAX
}

/// The times of the first `horizon` slots as read off the clock.
pub open spec fn deltas_read(tm: &TimeManager, horizon: int, elapsed: Seq<int>) -> Seq<usize> {
    Seq::new(horizon as nat, |t: int| delta_read(tm, elapsed, t) as usize)
}

/// `r` is what the clock gives for the slots of the horizon when it shows
/// `elapsed`: the times of the slots and of the end of the horizon where
/// they can be integrated over, and else `None`.
pub open spec fn slots_read(
    tm: &TimeManager,
    horizon: int,
    elapsed: Seq<int>,
    r: Option<(Vec<usize>, usize)>,
) -> bool {
    &&& clock_readings(tm, horizon, elapsed)
    &&& r.is_some() == deltas_in_reach(tm, horizon, elapsed)
    &&& r.is_some() ==> r.unwrap().0@ == deltas_read(tm, horizon, elapsed) && r.unwrap().1
        == delta_read(tm, elapsed, horizon)
}

/// The times at the client of the first `horizon` slots, and of the slot
/// after them, which ends the horizon. `None` where the end of the horizon,
/// extrapolation included, lies further ahead than the model accepts, or a
/// time does not fit in a machine word. The times are read off the clock one
/// by one, so each is right for some time that has passed.
pub fn slot_deltas(tm: &TimeManager, horizon: usize) -> (r: Option<(Vec<usize>, usize)>)
    ensures
        exists|elapsed: Seq<int>| #[trigger] slots_read(tm, horizon as int, elapsed, r),
        r.is_some() ==> r.unwrap().0@.len() == horizon && r.unwrap().1 + TAIL_MS <= MAX_DELTA_MS,
        !tm.timed() ==> r.is_some() == (client_delta(
            tm.latency_ms() as int,
            0,
            horizon as int,
            tm.transfer_ms() as int,
        ) + TAIL_MS <= MAX_DELTA_MS),
        !tm.timed() && r.is_some() ==> r.unwrap().0@ == standing_deltas(tm, horizon as int)
            && r.unwrap().1 == client_delta(
            tm.latency_ms() as int,
            0,
            horizon as int,
            tm.transfer_ms() as int,
        ),
{
    let first = tm.slot_to_client_delta(horizon);
    let ghost at_end = choose|e: int|
        0 <= e && (!tm.timed() ==> e == 0) && first == #[trigger] tm.reading(e, horizon as int);
    let horizon_delta: usize = match first {
        Some(d) => d,
        None => {
            let r = None;
            proof {
                let elapsed = Seq::new(
                    (horizon + 1) as nat,
                    |t: int|
                        if t == horizon {
                            at_end
                        } else {
                            0int
                        },
                );
                assert(slots_read(tm, horizon as int, elapsed, r));
            }
            return r;
        },
    };
    if horizon_delta > MAX_DELTA_MS - TAIL_MS {
        let r = None;
        proof {
            let elapsed = Seq::new(
                (horizon + 1) as nat,
                |t: int|
                    if t == horizon {
                        at_end
                    } else {
                        0int
                    },
            );
            assert(slots_read(tm, horizon as int, elapsed, r));
        }
        return r;
    }
    let mut deltas: Vec<usize> = Vec::new();
    let ghost mut seen: Seq<int> = Seq::empty();
    let mut t: usize = 0;
    while t < horizon
        invariant
            t <= horizon,
            deltas@.len() == t,
            seen.len() == t,
            0 <= at_end,
            !tm.timed() ==> at_end == 0,
            Some(horizon_delta) == tm.reading(at_end, horizon as int),
            horizon_delta + TAIL_MS <= MAX_DELTA_MS,
            forall|k: int|
                0 <= k < t ==> 0 <= #[trigger] seen[k] && (!tm.timed() ==> seen[k] == 0) && Some(
                    deltas@[k],
                ) == tm.reading(seen[k], k),
            !tm.timed() ==> horizon_delta == client_delta(
                tm.latency_ms() as int,
                0,
                horizon as int,
                tm.transfer_ms() as int,
            ),
            !tm.timed() ==> forall|k: int|
                0 <= k < t ==> deltas@[k] == client_delta(
                    tm.latency_ms() as int,
                    0,
                    k,
                    tm.transfer_ms() as int,
                ),
        decreases horizon - t,
    {
        proof {
            lemma_client_delta_ordered(
                tm.latency_ms() as int,
                0,
                tm.transfer_ms() as int,
                t as int,
                horizon as int,
            );
        }
        let next = tm.slot_to_client_delta(t);
        let ghost now = choose|e: int|
            0 <= e && (!tm.timed() ==> e == 0) && next == #[trigger] tm.reading(e, t as int);
        match next {
            Some(d) => {
                deltas.push(d);
                proof {
                    seen = seen.push(now);
                }
            },
            None => {
                let r = None;
                proof {
                    let elapsed = Seq::new(
                        (horizon + 1) as nat,
                        |k: int|
                            if k == horizon {
                                at_end
                            } else if k == t {
                                now
                            } else {
                                0int
                            },
                    );
                    assert(delta_read(tm, elapsed, t as int) > usize::MAX);
                    assert(slots_read(tm, horizon as int, elapsed, r));
                }
                return r;
            },
        }
        t += 1;
    }
    let r = Some((deltas, horizon_delta));
    proof {
        if !tm.timed() {
            assert(r.unwrap().0@ =~= standing_deltas(tm, horizon as int));
        }
        let elapsed = seen.push(at_end);
        assert forall|k: int| 0 <= k < horizon implies #[trigger] delta_read(tm, elapsed, k)
            <= usize::MAX by {
            assert(Some(r.unwrap().0@[k]) == tm.reading(seen[k], k));
        }
        assert(r.unwrap().0@ =~= deltas_read(tm, horizon as int, elapsed)) by {
            assert forall|k: int| 0 <= k < horizon implies r.unwrap().0@[k] == deltas_read(
                tm,
                horizon as int,
                elapsed,
            )[k] by {
                assert(Some(r.unwrap().0@[k]) == tm.reading(seen[k], k));
            }
        }
        assert(slots_read(tm, horizon as int, elapsed, r));
    }
    r
}

/// The probability of each of `total_queries` queries integrated from each
/// time of `deltas` to `horizon_delta`. `None` where a matrix of that many
/// cells cannot be made.
#[verifier::rlimit(50)]
pub fn integrate_at(probs: &Prob, total_queries: usize, deltas: &Vec<usize>, horizon_delta: usize) -> (r:
    Option<WeightMatrix>)
    requires
        probs.wf(),
        horizon_delta + TAIL_MS <= MAX_DELTA_MS,
    ensures
        r.is_some() == (total_queries <= isize::MAX && deltas@.len() <= isize::MAX
            && total_queries * deltas@.len() <= isize::MAX),
        r.is_some() ==> integrated(
            probs,
            total_queries as int,
            r.unwrap()@,
            deltas@,
            horizon_delta as int,
        ) && matrix_bounded(r.unwrap()@) && r.unwrap().width() == deltas@.len(),
{
    let horizon: usize = deltas.len();
    let limit: usize = isize::MAX as usize;
    if total_queries > limit || horizon > limit {
        return None;
    }
    if total_queries > 0 && horizon > limit / total_queries {
        proof {
            assert(total_queries * horizon > isize::MAX) by (nonlinear_arith)
                requires
                    horizon > (isize::MAX as int) / (total_queries as int),
                    total_queries > 0,
            ;
        }
        return None;
    }
    proof {
        if total_queries > 0 {
            assert(total_queries * horizon <= isize::MAX) by (nonlinear_arith)
                requires
                    horizon <= (isize::MAX as int) / (total_queries as int),
                    total_queries > 0,
            ;
        } else {
            assert(total_queries * horizon == 0) by (nonlinear_arith)
                requires
                    total_queries == 0,
            ;
        }
    }
    let mut lows: Vec<usize> = Vec::new();
    let mut t: usize = 0;
    while t < horizon
        invariant
            t <= horizon,
            horizon == deltas@.len(),
            probs.wf(),
            lows@.len() == t,
            forall|k: int|
                0 <= k < t ==> lows@[k] == lower_bound(probs.anchors(), deltas@[k] as int),
        decreases horizon - t,
    {
        lows.push(probs.get_lower_bound(deltas[t]));
        t += 1;
    }
    let mut matrix = WeightMatrix::zeros(total_queries, horizon);
    let mut index: usize = 0;
    while index < total_queries
        invariant
            index <= total_queries,
            horizon == deltas@.len(),
            probs.wf(),
            horizon_delta + TAIL_MS <= MAX_DELTA_MS,
            lows@.len() == horizon,
            forall|k: int|
                0 <= k < horizon ==> lows@[k] == lower_bound(probs.anchors(), deltas@[k] as int),
            matrix@.len() == total_queries,
            matrix.width() == horizon,
            forall|q: int| 0 <= q < total_queries ==> (#[trigger] matrix@[q]).len() == horizon,
            forall|q: int, k: int|
                0 <= q < total_queries && 0 <= k < horizon ==> (#[trigger] matrix@[q][k]) <= ONE
                    * MAX_DELTA_MS,
            forall|q: int, k: int|
                0 <= q < index && 0 <= k < horizon ==> (#[trigger] matrix@[q][k])
                    == probs.integrate_spec(
                    q as usize,
                    deltas@[k] as int,
                    horizon_delta as int,
                    lows@[k] as int,
                ),
        decreases total_queries - index,
    {
        let mut t: usize = 0;
        while t < horizon
            invariant
                t <= horizon,
                index < total_queries,
                horizon == deltas@.len(),
                probs.wf(),
                horizon_delta + TAIL_MS <= MAX_DELTA_MS,
                lows@.len() == horizon,
                matrix@.len() == total_queries,
                matrix.width() == horizon,
                forall|q: int| 0 <= q < total_queries ==> (#[trigger] matrix@[q]).len() == horizon,
                forall|q: int, k: int|
                    0 <= q < total_queries && 0 <= k < horizon ==> (#[trigger] matrix@[q][k])
                        <= ONE * MAX_DELTA_MS,
                forall|q: int, k: int|
                    0 <= q < index && 0 <= k < horizon ==> (#[trigger] matrix@[q][k])
                        == probs.integrate_spec(
                        q as usize,
                        deltas@[k] as int,
                        horizon_delta as int,
                        lows@[k] as int,
                    ),
                forall|k: int|
                    0 <= k < t ==> (#[trigger] matrix@[index as int][k]) == probs.integrate_spec(
                        index,
                        deltas@[k] as int,
                        horizon_delta as int,
                        lows@[k] as int,
                    ),
            decreases horizon - t,
        {
            let v: u64 = probs.integrate_over_range(index, deltas[t], horizon_delta, lows[t]);
            proof {
                if deltas@[t as int] < horizon_delta {
                    assert(ONE * (horizon_delta - deltas@[t as int]) <= ONE * MAX_DELTA_MS)
                        by (nonlinear_arith)
                        requires
                            horizon_delta - deltas@[t as int] <= MAX_DELTA_MS,
                    ;
                }
            }
            matrix.set(index, t, v);
            t += 1;
        }
        index += 1;
    }
    Some(matrix)
}

/// The same matrix as [`integrate_at`] gives, made with less work: the
/// queries that the model lists nowhere all have the same integrals, which
/// are computed for the first of them and copied for the others.
#[verifier::rlimit(50)]
pub fn integrate_shared_at(
    probs: &Prob,
    total_queries: usize,
    deltas: &Vec<usize>,
    horizon_delta: usize,
) -> (r: Option<WeightMatrix>)
    requires
        probs.wf(),
        horizon_delta + TAIL_MS <= MAX_DELTA_MS,
    ensures
        r.is_some() == (total_queries <= isize::MAX && deltas@.len() <= isize::MAX
            && total_queries * deltas@.len() <= isize::MAX),
        r.is_some() ==> integrated(
            probs,
            total_queries as int,
            r.unwrap()@,
            deltas@,
            horizon_delta as int,
        ) && matrix_bounded(r.unwrap()@) && r.unwrap().width() == deltas@.len(),
{
    let horizon: usize = deltas.len();
    let limit: usize = isize::MAX as usize;
    if total_queries > limit || horizon > limit {
        return None;
    }
    if total_queries > 0 && horizon > limit / total_queries {
        proof {
            assert(total_queries * horizon > isize::MAX) by (nonlinear_arith)
                requires
                    horizon > (isize::MAX as int) / (total_queries as int),
                    total_queries > 0,
            ;
        }
        return None;
    }
    proof {
        if total_queries > 0 {
            assert(total_queries * horizon <= isize::MAX) by (nonlinear_arith)
                requires
                    horizon <= (isize::MAX as int) / (total_queries as int),
                    total_queries > 0,
            ;
        } else {
            assert(total_queries * horizon == 0) by (nonlinear_arith)
                requires
                    total_queries == 0,
            ;
        }
    }
    let mut lows: Vec<usize> = Vec::new();
    let mut t: usize = 0;
    while t < horizon
        invariant
            t <= horizon,
            horizon == deltas@.len(),
            probs.wf(),
            lows@.len() == t,
            forall|k: int|
                0 <= k < t ==> lows@[k] == lower_bound(probs.anchors(), deltas@[k] as int),
        decreases horizon - t,
    {
        lows.push(probs.get_lower_bound(deltas[t]));
        t += 1;
    }
    let q_in_p = probs.get_k();
    let mut rest: Option<usize> = None;
    let mut matrix = WeightMatrix::zeros(total_queries, horizon);
    let mut index: usize = 0;
    while index < total_queries
        invariant
            index <= total_queries,
            horizon == deltas@.len(),
            probs.wf(),
            horizon_delta + TAIL_MS <= MAX_DELTA_MS,
            q_in_p@ == probs.explicit_queries(),
            rest.is_some() ==> rest.unwrap() < index && !q_in_p@.contains(rest.unwrap()),
            lows@.len() == horizon,
            forall|k: int|
                0 <= k < horizon ==> lows@[k] == lower_bound(probs.anchors(), deltas@[k] as int),
            matrix@.len() == total_queries,
            matrix.width() == horizon,
            forall|q: int| 0 <= q < total_queries ==> (#[trigger] matrix@[q]).len() == horizon,
            forall|q: int, k: int|
                0 <= q < total_queries && 0 <= k < horizon ==> (#[trigger] matrix@[q][k]) <= ONE
                    * MAX_DELTA_MS,
            forall|q: int, k: int|
                0 <= q < index && 0 <= k < horizon ==> (#[trigger] matrix@[q][k])
                    == probs.integrate_spec(
                    q as usize,
                    deltas@[k] as int,
                    horizon_delta as int,
                    lows@[k] as int,
                ),
        decreases total_queries - index,
    {
        let listed: bool = q_in_p.contains(&index);
        let source: Option<usize> = if listed {
            None
        } else {
            rest
        };
        let mut t: usize = 0;
        while t < horizon
            invariant
                t <= horizon,
                index < total_queries,
                horizon == deltas@.len(),
                probs.wf(),
                horizon_delta + TAIL_MS <= MAX_DELTA_MS,
                q_in_p@ == probs.explicit_queries(),
                source.is_some() ==> source.unwrap() < index && !q_in_p@.contains(source.unwrap())
                    && !q_in_p@.contains(index),
                lows@.len() == horizon,
                matrix@.len() == total_queries,
                matrix.width() == horizon,
                forall|q: int| 0 <= q < total_queries ==> (#[trigger] matrix@[q]).len() == horizon,
                forall|q: int, k: int|
                    0 <= q < total_queries && 0 <= k < horizon ==> (#[trigger] matrix@[q][k])
                        <= ONE * MAX_DELTA_MS,
                forall|q: int, k: int|
                    0 <= q < index && 0 <= k < horizon ==> (#[trigger] matrix@[q][k])
                        == probs.integrate_spec(
                        q as usize,
                        deltas@[k] as int,
                        horizon_delta as int,
                        lows@[k] as int,
                    ),
                forall|k: int|
                    0 <= k < t ==> (#[trigger] matrix@[index as int][k]) == probs.integrate_spec(
                        index,
                        deltas@[k] as int,
                        horizon_delta as int,
                        lows@[k] as int,
                    ),
            decreases horizon - t,
        {
            let v: u64 = match source {
                Some(from) => {
                    proof {
                        probs.lemma_unlisted_alike_integral(
                            from,
                            index,
                            deltas@[t as int] as int,
                            horizon_delta as int,
                            lows@[t as int] as int,
                        );
                    }
                    matrix.at(from, t)
                },
                None => {
                    let v: u64 = probs.integrate_over_range(
                        index,
                        deltas[t],
                        horizon_delta,
                        lows[t],
                    );
                    proof {
                        if deltas@[t as int] < horizon_delta {
                            assert(ONE * (horizon_delta - deltas@[t as int]) <= ONE * MAX_DELTA_MS)
                                by (nonlinear_arith)
                                requires
                                    horizon_delta - deltas@[t as int] <= MAX_DELTA_MS,
                            ;
                        }
                    }
                    v
                },
            };
            matrix.set(index, t, v);
            t += 1;
        }
        if !listed && rest.is_none() {
            rest = Some(index);
        }
        index += 1;
    }
    Some(matrix)
}

/// Appending a query to the plan adds one to its count and leaves the
/// counts of the others.
pub proof fn lemma_count_push(plan: Seq<usize>, x: usize, q: int)
    ensures
        count(plan.push(x), q) == count(plan, q) + if x == q {
            1int
        } else {
            0int
        },
{
    assert(plan.push(x).drop_last() =~= plan);
}

/// The weight of query `q` in slot `t` where the utility of a block is
/// looked up per query: the cell of `gain` for the query and its next block
/// times the integrated probability of the query from that slot on, or zero
/// where the query has no further block.
pub open spec fn gain_reward(
    gain: Seq<Seq<u64>>,
    blocks: Seq<usize>,
    matrix: Seq<Seq<u64>>,
    state: Seq<int>,
    q: int,
    t: int,
) -> int {
    if state[q] < blocks[q] {
        gain[q][state[q]] * matrix[q][t]
    } else {
        0
    }
}

/// The weights of the first `n` queries in slot `t`, with the utility looked
/// up per query.
pub open spec fn gain_rewards(
    gain: Seq<Seq<u64>>,
    blocks: Seq<usize>,
    matrix: Seq<Seq<u64>>,
    state: Seq<int>,
    n: int,
    t: int,
) -> Seq<u128> {
    Seq::new(n as nat, |q: int| gain_reward(gain, blocks, matrix, state, q, t) as u128)
}

/// The place that a scan of `ids` for a query outside them ends at: it
/// starts at zero and moves on by one at each of the `ids` that equals it.
pub open spec fn rest_after(ids: Seq<usize>) -> int
    decreases ids.len(),
{
    if ids.len() == 0 {
        0
    } else {
        rest_after(ids.drop_last()) + if rest_after(ids.drop_last()) == ids.last() {
            1int
        } else {
            0int
        }
    }
}

/// The matrix holds a row of integrals for each of the listed queries `ids`,
/// in their order, and after them a row for the query that stands for the
/// others: the one that a scan of the listed queries ends at, or a row of
/// zeros under the index zero where that is no query.
pub open spec fn partitioned(
    probs: &Prob,
    n: int,
    matrix: Seq<Seq<u64>>,
    ids: Seq<usize>,
    deltas: Seq<usize>,
    horizon_delta: int,
) -> bool {
    let listed = ids.len() - 1;
    let rest = rest_after(ids.take(listed));
    &&& ids.len() >= 1
    &&& matrix.len() == ids.len()
    &&& ids.take(listed).no_duplicates()
    &&& ids.take(listed).to_set() == probs.explicit_queries()
    &&& ids[listed] == (if rest < n {
        rest
    } else {
        0
    })
    &&& forall|i: int| 0 <= i < matrix.len() ==> (#[trigger] matrix[i]).len() == deltas.len()
    &&& forall|i: int, t: int|
        0 <= i < matrix.len() && 0 <= t < deltas.len() ==> (#[trigger] matrix[i][t]) == (if i
            < listed || rest < n {
            probs.integrate_spec(
                ids[i],
                deltas[t] as int,
                horizon_delta,
                lower_bound(probs.anchors(), deltas[t] as int),
            )
        } else {
            0
        })
}

/// The integrals of the queries `ids` from each time of `deltas` to
/// `horizon_delta`, one row for each of the `ids` that `computed` marks, and
/// rows of zeros for the others. `None` where a matrix of that many cells
/// cannot be made.
#[verifier::rlimit(50)]
fn integrate_rows(
    probs: &Prob,
    ids: &Vec<usize>,
    computed: usize,
    deltas: &Vec<usize>,
    horizon_delta: usize,
) -> (r: Option<WeightMatrix>)
    requires
        probs.wf(),
        horizon_delta + TAIL_MS <= MAX_DELTA_MS,
        computed <= ids@.len(),
    ensures
        r.is_some() == (ids@.len() <= isize::MAX && deltas@.len() <= isize::MAX && ids@.len()
            * deltas@.len() <= isize::MAX),
        r.is_some() ==> {
            let m = r.unwrap();
            &&& m@.len() == ids@.len()
            &&& m.width() == deltas@.len()
            &&& matrix_bounded(m@)
            &&& forall|i: int| 0 <= i < m@.len() ==> (#[trigger] m@[i]).len() == deltas@.len()
            &&& forall|i: int, t: int|
                0 <= i < m@.len() && 0 <= t < deltas@.len() ==> (#[trigger] m@[i][t]) == (if i
                    < computed {
                    probs.integrate_spec(
                        ids@[i],
                        deltas@[t] as int,
                        horizon_delta as int,
                        lower_bound(probs.anchors(), deltas@[t] as int),
                    )
                } else {
                    0
                })
        },
{
    let rows: usize = ids.len();
    let horizon: usize = deltas.len();
    let limit: usize = isize::MAX as usize;
    if rows > limit || horizon > limit {
        return None;
    }
    if rows > 0 && horizon > limit / rows {
        proof {
            assert(rows * horizon > isize::MAX) by (nonlinear_arith)
                requires
                    horizon > (isize::MAX as int) / (rows as int),
                    rows > 0,
            ;
        }
        return None;
    }
    proof {
        if rows > 0 {
            assert(rows * horizon <= isize::MAX) by (nonlinear_arith)
                requires
                    horizon <= (isize::MAX as int) / (rows as int),
                    rows > 0,
            ;
        } else {
            assert(rows * horizon == 0) by (nonlinear_arith)
                requires
                    rows == 0,
            ;
        }
    }
    let mut matrix = WeightMatrix::zeros(rows, horizon);
    let mut index: usize = 0;
    while index < computed
        invariant
            index <= computed <= rows,
            rows == ids@.len(),
            horizon == deltas@.len(),
            probs.wf(),
            horizon_delta + TAIL_MS <= MAX_DELTA_MS,
            matrix@.len() == rows,
            matrix.width() == horizon,
            forall|q: int| 0 <= q < rows ==> (#[trigger] matrix@[q]).len() == horizon,
            forall|q: int, k: int|
                0 <= q < rows && 0 <= k < horizon ==> (#[trigger] matrix@[q][k]) <= ONE
                    * MAX_DELTA_MS,
            forall|q: int, k: int|
                index <= q < rows && 0 <= k < horizon ==> (#[trigger] matrix@[q][k]) == 0,
            forall|q: int, k: int|
                0 <= q < index && 0 <= k < horizon ==> (#[trigger] matrix@[q][k])
                    == probs.integrate_spec(
                    ids@[q],
                    deltas@[k] as int,
                    horizon_delta as int,
                    lower_bound(probs.anchors(), deltas@[k] as int),
                ),
        decreases computed - index,
    {
        let qindex: usize = ids[index];
        let mut t: usize = 0;
        while t < horizon
            invariant
                t <= horizon,
                index < computed <= rows,
                rows == ids@.len(),
                qindex == ids@[index as int],
                horizon == deltas@.len(),
                probs.wf(),
                horizon_delta + TAIL_MS <= MAX_DELTA_MS,
                matrix@.len() == rows,
                matrix.width() == horizon,
                forall|q: int| 0 <= q < rows ==> (#[trigger] matrix@[q]).len() == horizon,
                forall|q: int, k: int|
                    0 <= q < rows && 0 <= k < horizon ==> (#[trigger] matrix@[q][k]) <= ONE
                        * MAX_DELTA_MS,
                forall|q: int, k: int|
                    index < q < rows && 0 <= k < horizon ==> (#[trigger] matrix@[q][k]) == 0,
                forall|q: int, k: int|
                    0 <= q < index && 0 <= k < horizon ==> (#[trigger] matrix@[q][k])
                        == probs.integrate_spec(
                        ids@[q],
                        deltas@[k] as int,
                        horizon_delta as int,
                        lower_bound(probs.anchors(), deltas@[k] as int),
                    ),
                forall|k: int|
                    0 <= k < t ==> (#[trigger] matrix@[index as int][k]) == probs.integrate_spec(
                        qindex,
                        deltas@[k] as int,
                        horizon_delta as int,
                        lower_bound(probs.anchors(), deltas@[k] as int),
                    ),
            decreases horizon - t,
        {
            let low: usize = probs.get_lower_bound(deltas[t]);
            let v: u64 = probs.integrate_over_range(qindex, deltas[t], horizon_delta, low);
            proof {
                if deltas@[t as int] < horizon_delta {
                    assert(ONE * (horizon_delta - deltas@[t as int]) <= ONE * MAX_DELTA_MS)
                        by (nonlinear_arith)
                        requires
                            horizon_delta - deltas@[t as int] <= MAX_DELTA_MS,
                    ;
                }
            }
            matrix.set(index, t, v);
            t += 1;
        }
        index += 1;
    }
    Some(matrix)

}

/// The number of slots to plan for: what the cache has left after its head,
/// and no more than a batch.
pub open spec fn horizon_of(cachesize: int, start_idx: int, batch: int) -> int {
    if cachesize - start_idx <= batch {
        cachesize - start_idx
    } else {
        batch
    }
}

/// A run on a standing clock can integrate over `horizon` slots: the end of
/// the horizon is within what the model accepts, and the matrix can be made.
pub open spec fn can_integrate(tm: &TimeManager, total_queries: int, horizon: int) -> bool {
    &&& client_delta(tm.latency_ms() as int, 0, horizon, tm.transfer_ms() as int) + TAIL_MS
        <= MAX_DELTA_MS
    &&& total_queries <= isize::MAX
    &&& horizon <= isize::MAX
    &&& total_queries * horizon <= isize::MAX
}

/// Two matrices of the same integrals give every slot the same weights.
pub proof fn lemma_rewards_of_integrals(
    probs: &Prob,
    n: int,
    first: Seq<Seq<u64>>,
    second: Seq<Seq<u64>>,
    deltas: Seq<usize>,
    end: int,
    utility: Seq<u64>,
    blocks: Seq<usize>,
    state: Seq<int>,
    t: int,
)
    requires
        integrated(probs, n, first, deltas, end),
        integrated(probs, n, second, deltas, end),
        0 <= t < deltas.len(),
    ensures
        rewards(utility, blocks, first, state, n, t) == rewards(
            utility,
            blocks,
            second,
            state,
            n,
            t,
        ),
{
    assert forall|q: int| 0 <= q < n implies reward(utility, blocks, first, state, q, t) == reward(
        utility,
        blocks,
        second,
        state,
        q,
        t,
    ) by {
        assert(first[q][t] == second[q][t]);
    }
    assert(rewards(utility, blocks, first, state, n, t) =~= rewards(
        utility,
        blocks,
        second,
        state,
        n,
        t,
    ));
}

/// The greedy scheduler and what it knows of the application.
pub struct GreedyScheduler {
    /// The client's cache size, in blocks: the longest future to plan for.
    pub cachesize: usize,
    /// The marginal utility of each block of a query.
    pub utility: WeightArray,
    /// The number of blocks of each query.
    pub blocks_per_query: CountArray,
    /// For each query, the marginal utility of each of its blocks, and zero
    /// past its last block.
    pub utility_matrix: WeightMatrix,
    /// The number of queries.
    pub total_queries: usize,
    /// The most slots to plan in one run.
    pub batch: usize,
}

/// A greedy scheduler for queries with `blocks_per_query` blocks each.
#[verifier::rlimit(50)]
pub fn new(batch: usize, cachesize: usize, utility: WeightArray, blocks_per_query: Vec<usize>) -> (r:
    GreedyScheduler)
    requires
        blocks_per_query@.len() <= u32::MAX,
        blocks_per_query@.len() <= isize::MAX,
        forall|q: int| 0 <= q < blocks_per_query@.len() ==> blocks_per_query@[q] <= utility@.len(),
        forall|i: int| 0 <= i < utility@.len() ==> utility@[i] <= ONE,
        utility@.len() <= isize::MAX,
        blocks_per_query@.len() * utility@.len() <= isize::MAX,
    ensures
        r.wf(),
        r.batch == batch,
        r.cachesize == cachesize,
        r.utility@ == utility@,
        r.blocks_per_query@ == blocks_per_query@,
{
    let total_queries: usize = blocks_per_query.len();
    let max_blocks_count: usize = utility.len();
    let mut utility_matrix = WeightMatrix::zeros(total_queries, max_blocks_count);
    let mut q: usize = 0;
    while q < total_queries
        invariant
            q <= total_queries,
            total_queries == blocks_per_query@.len(),
            max_blocks_count == utility@.len(),
            utility_matrix@.len() == total_queries,
            utility_matrix.width() == max_blocks_count,
            forall|a: int| 0 <= a < total_queries ==> (#[trigger] utility_matrix@[a]).len() == max_blocks_count,
            forall|a: int, i: int|
                0 <= a < q && 0 <= i < max_blocks_count ==> (#[trigger] utility_matrix@[a][i]) == (if i < blocks_per_query@[a] {
                    utility@[i]
                } else {
                    0u64
                }),
        decreases total_queries - q,
    {
        let limit: usize = blocks_per_query[q];
        let mut i: usize = 0;
        while i < max_blocks_count
            invariant
                i <= max_blocks_count,
                q < total_queries,
                total_queries == blocks_per_query@.len(),
                limit == blocks_per_query@[q as int],
                max_blocks_count == utility@.len(),
                utility_matrix@.len() == total_queries,
                utility_matrix.width() == max_blocks_count,
                forall|a: int| 0 <= a < total_queries ==> (#[trigger] utility_matrix@[a]).len() == max_blocks_count,
                forall|a: int, k: int|
                    0 <= a < q && 0 <= k < max_blocks_count ==> (#[trigger] utility_matrix@[a][k]) == (if k < blocks_per_query@[a] {
                        utility@[k]
                    } else {
                        0u64
                    }),
                forall|k: int|
                    0 <= k < i ==> (#[trigger] utility_matrix@[q as int][k]) == (if k < limit {
                        utility@[k]
                    } else {
                        0u64
                    }),
            decreases max_blocks_count - i,
        {
            let v: u64 = if i < limit {
                utility.at(i)
            } else {
                0
            };
            utility_matrix.set(q, i, v);
            i += 1;
        }
        q += 1;
    }
    let blocks_per_query = CountArray::from_vec(blocks_per_query);
    GreedyScheduler { cachesize, utility, batch, total_queries, utility_matrix, blocks_per_query }
}

impl GreedyScheduler {
    /// The scheduler knows the blocks of each of its queries, no query has
    /// more blocks than the utility covers, and the utility matrix holds
    /// the marginal utility of each block of each query.
    pub open spec fn wf(&self) -> bool {
        &&& self.total_queries == self.blocks_per_query@.len()
        &&& self.total_queries <= u32::MAX
        &&& forall|q: int|
            0 <= q < self.blocks_per_query@.len() ==> self.blocks_per_query@[q]
                <= self.utility@.len()
        &&& forall|i: int| 0 <= i < self.utility@.len() ==> self.utility@[i] <= ONE
        &&& self.utility_matrix@.len() == self.total_queries
        &&& forall|q: int|
            0 <= q < self.total_queries ==> (#[trigger] self.utility_matrix@[q]).len()
                == self.utility@.len()
        &&& forall|q: int, i: int|
            0 <= q < self.total_queries && 0 <= i < self.utility@.len() ==> (
            #[trigger] self.utility_matrix@[q][i]) == (if i < self.blocks_per_query@[q] {
                self.utility@[i]
            } else {
                0u64
            })
    }

    /// What a run of the sampling needs of its arguments: each of the
    /// `total_queries` queries has a state, a number of blocks that the
    /// utility covers and a row of the matrix with a cell for each of the
    /// `horizon` slots.
    pub open spec fn fits(
        &self,
        horizon: int,
        matrix: &WeightMatrix,
        total_queries: int,
        utility: Seq<u64>,
        state: Seq<usize>,
    ) -> bool {
        &&& 0 <= total_queries <= u32::MAX
        &&& total_queries <= state.len()
        &&& total_queries <= self.blocks_per_query@.len()
        &&& total_queries <= matrix@.len()
        &&& forall|q: int| 0 <= q < total_queries ==> horizon <= (#[trigger] matrix@[q]).len()
        &&& matrix_bounded(matrix@)
        &&& forall|q: int|
            0 <= q < total_queries ==> (#[trigger] self.blocks_per_query@[q]) <= utility.len()
        &&& forall|i: int| 0 <= i < utility.len() ==> (#[trigger] utility[i]) <= ONE
    }

    /// What an integration over `horizon` slots yields for a time manager
    /// whose clock stands, `None` included.
    pub open spec fn standing_integration(
        tm: &TimeManager,
        probs: &Prob,
        total_queries: int,
        horizon: int,
        r: Option<WeightMatrix>,
    ) -> bool {
        let end = client_delta(tm.latency_ms() as int, 0, horizon, tm.transfer_ms() as int);
        &&& r.is_some() == (end + TAIL_MS <= MAX_DELTA_MS && total_queries <= isize::MAX && horizon
            <= isize::MAX && total_queries * horizon <= isize::MAX)
        &&& r.is_some() ==> integrated(
            probs,
            total_queries,
            r.unwrap()@,
            standing_deltas(tm, horizon),
            end,
        )
    }

    /// What an integration over `horizon` slots yields whatever the clock
    /// shows: a matrix of integrals from some time for each slot to some end
    /// of the horizon.
    pub open spec fn some_integration(
        probs: &Prob,
        total_queries: int,
        horizon: int,
        r: Option<WeightMatrix>,
    ) -> bool {
        r.is_some() ==> {
            &&& matrix_bounded(r.unwrap()@)
            &&& r.unwrap().width() == horizon
            &&& exists|deltas: Seq<usize>, end: int|
                deltas.len() == horizon && end + TAIL_MS <= MAX_DELTA_MS && #[trigger] integrated(
                    probs,
                    total_queries,
                    r.unwrap()@,
                    deltas,
                    end,
                )
        }
    }

    /// What an integration over `horizon` slots yields when the clock
    /// shows `elapsed` while the times are read: the matrix of the integrals
    /// from the time of each slot to the end of the horizon, or `None` where
    /// the times cannot be integrated over or the matrix would have too
    /// many cells.
    pub open spec fn integration_read(
        tm: &TimeManager,
        probs: &Prob,
        total_queries: int,
        horizon: int,
        elapsed: Seq<int>,
        r: Option<WeightMatrix>,
    ) -> bool {
        &&& clock_readings(tm, horizon, elapsed)
        &&& r.is_some() == (deltas_in_reach(tm, horizon, elapsed) && total_queries <= isize::MAX
            && horizon <= isize::MAX && total_queries * horizon <= isize::MAX)
        &&& r.is_some() ==> integrated(
            probs,
            total_queries,
            r.unwrap()@,
            deltas_read(tm, horizon, elapsed),
            delta_read(tm, elapsed, horizon),
        )
    }

    /// For each query and each slot of the horizon, the probability of the
    /// query integrated from the time of the slot at the client to the end
    /// of the horizon. The times are read off the time manager, slot by
    /// slot. `None` where the horizon ends further ahead than the model
    /// accepts, or the matrix would have too many cells.
    pub fn integrate_probs_slow(
        &self,
        tm: &TimeManager,
        probs: Prob,
        total_queries: usize,
        horizon: usize,
    ) -> (r: Option<WeightMatrix>)
        requires
            probs.wf(),
        ensures
            GreedyScheduler::some_integration(&probs, total_queries as int, horizon as int, r),
            !tm.timed() ==> GreedyScheduler::standing_integration(
                tm,
                &probs,
                total_queries as int,
                horizon as int,
                r,
            ),
            exists|elapsed: Seq<int>| #[trigger]
                GreedyScheduler::integration_read(
                    tm,
                    &probs,
                    total_queries as int,
                    horizon as int,
                    elapsed,
                    r,
                ),
    {
        let times = slot_deltas(tm, horizon);
        let ghost elapsed = choose|elapsed: Seq<int>| #[trigger]
            slots_read(tm, horizon as int, elapsed, times);
        match times {
            Some((deltas, horizon_delta)) => {
                let r = integrate_at(&probs, total_queries, &deltas, horizon_delta);
                proof {
                    assert(GreedyScheduler::integration_read(
                        tm,
                        &probs,
                        total_queries as int,
                        horizon as int,
                        elapsed,
                        r,
                    ));
                    if r.is_some() {
                        assert(integrated(
                            &probs,
                            total_queries as int,
                            r.unwrap()@,
                            deltas@,
                            horizon_delta as int,
                        ));
                    }
                }
                r
            },
            None => {
                let r = None;
                proof {
                    assert(GreedyScheduler::integration_read(
                        tm,
                        &probs,
                        total_queries as int,
                        horizon as int,
                        elapsed,
                        r,
                    ));
                }
                r
            },
        }
    }

    /// The same matrix as [`GreedyScheduler::integrate_probs_slow`] gives,
    /// with the integrals of the queries that the model lists nowhere
    /// computed once and shared.
    pub fn integrate_probs(
        &self,
        tm: &TimeManager,
        probs: Prob,
        total_queries: usize,
        horizon: usize,
    ) -> (r: Option<WeightMatrix>)
        requires
            probs.wf(),
        ensures
            GreedyScheduler::some_integration(&probs, total_queries as int, horizon as int, r),
            !tm.timed() ==> GreedyScheduler::standing_integration(
                tm,
                &probs,
                total_queries as int,
                horizon as int,
                r,
            ),
            exists|elapsed: Seq<int>| #[trigger]
                GreedyScheduler::integration_read(
                    tm,
                    &probs,
                    total_queries as int,
                    horizon as int,
                    elapsed,
                    r,
                ),
    {
        let times = slot_deltas(tm, horizon);
        let ghost elapsed = choose|elapsed: Seq<int>| #[trigger]
            slots_read(tm, horizon as int, elapsed, times);
        match times {
            Some((deltas, horizon_delta)) => {
                let r = integrate_shared_at(&probs, total_queries, &deltas, horizon_delta);
                proof {
                    assert(GreedyScheduler::integration_read(
                        tm,
                        &probs,
                        total_queries as int,
                        horizon as int,
                        elapsed,
                        r,
                    ));
                    if r.is_some() {
                        assert(integrated(
                            &probs,
                            total_queries as int,
                            r.unwrap()@,
                            deltas@,
                            horizon_delta as int,
                        ));
                    }
                }
                r
            },
            None => {
                let r = None;
                proof {
                    assert(GreedyScheduler::integration_read(
                        tm,
                        &probs,
                        total_queries as int,
                        horizon as int,
                        elapsed,
                        r,
                    ));
                }
                r
            },
        }
    }

    /// The plan is one that sampling over `horizon` slots by the weights of
    /// `matrix` gives: each of its queries had weight in its slot, with the
    /// blocks that the plan had brought by then, and a plan shorter than the
    /// horizon ends where no query has weight left.
    pub open spec fn sampled(
        &self,
        matrix: Seq<Seq<u64>>,
        state: Seq<usize>,
        horizon: int,
        plan: Seq<usize>,
    ) -> bool {
        &&& forall|i: int|
            0 <= i < plan.len() ==> reward(
                self.utility@,
                self.blocks_per_query@,
                matrix,
                state_after(state, plan.take(i)),
                #[trigger] plan[i] as int,
                i,
            ) > 0
        &&& plan.len() < horizon ==> weights_sum(
            rewards(
                self.utility@,
                self.blocks_per_query@,
                matrix,
                state_after(state, plan),
                self.total_queries as int,
                plan.len() as int,
            ),
        ) == 0
    }

    /// On a standing clock, a plan over a horizon that can be integrated
    /// over is one that sampling by the integrals gives.
    pub open spec fn planned_standing(
        &self,
        probs: &Prob,
        tm: &TimeManager,
        state: Seq<usize>,
        horizon: int,
        plan: Seq<usize>,
    ) -> bool {
        can_integrate(tm, self.total_queries as int, horizon) ==> forall|matrix: Seq<Seq<u64>>| #[trigger]
            integrated(
                probs,
                self.total_queries as int,
                matrix,
                standing_deltas(tm, horizon),
                client_delta(tm.latency_ms() as int, 0, horizon, tm.transfer_ms() as int),
            ) ==> self.sampled(matrix, state, horizon, plan)
    }

    /// The plan is what a run gives when the clock shows `elapsed` while
    /// the times of the slots are read: one that sampling by the integrals
    /// from those times gives, and the empty plan where they cannot be
    /// integrated over or the matrix of the integrals cannot be made.
    pub open spec fn planned_by(
        &self,
        probs: &Prob,
        tm: &TimeManager,
        state: Seq<usize>,
        horizon: int,
        plan: Seq<usize>,
        elapsed: Seq<int>,
    ) -> bool {
        &&& clock_readings(tm, horizon, elapsed)
        &&& if deltas_in_reach(tm, horizon, elapsed) && self.total_queries <= isize::MAX && horizon
            <= isize::MAX && self.total_queries * horizon <= isize::MAX {
            forall|matrix: Seq<Seq<u64>>| #[trigger]
                integrated(
                    probs,
                    self.total_queries as int,
                    matrix,
                    deltas_read(tm, horizon, elapsed),
                    delta_read(tm, elapsed, horizon),
                ) ==> self.sampled(matrix, state, horizon, plan)
        } else {
            plan.len() == 0
        }
    }

    /// A plan that sampling by one matrix of integrals gives is one that
    /// sampling by any other matrix of the same integrals gives.
    pub proof fn lemma_sampled_by_integrals(
        &self,
        probs: &Prob,
        first: Seq<Seq<u64>>,
        second: Seq<Seq<u64>>,
        deltas: Seq<usize>,
        end: int,
        state: Seq<usize>,
        plan: Seq<usize>,
    )
        requires
            integrated(probs, self.total_queries as int, first, deltas, end),
            integrated(probs, self.total_queries as int, second, deltas, end),
            plan.len() <= deltas.len(),
            forall|i: int| 0 <= i < plan.len() ==> plan[i] < self.total_queries,
            self.sampled(first, state, deltas.len() as int, plan),
        ensures
            self.sampled(second, state, deltas.len() as int, plan),
    {
        assert forall|i: int| 0 <= i < plan.len() implies reward(
            self.utility@,
            self.blocks_per_query@,
            second,
            state_after(state, plan.take(i)),
            #[trigger] plan[i] as int,
            i,
        ) > 0 by {
            let q = plan[i] as int;
            assert(first[q][i] == second[q][i]);
        }
        if plan.len() < deltas.len() {
            lemma_rewards_of_integrals(
                probs,
                self.total_queries as int,
                first,
                second,
                deltas,
                end,
                self.utility@,
                self.blocks_per_query@,
                state_after(state, plan),
                plan.len() as int,
            );
        }
    }

    /// The weights of the queries in slot `t`, and their sum.
    pub fn slot_rewards(
        &self,
        prob_matrix: &WeightMatrix,
        t: usize,
        total_queries: usize,
        utility: &WeightArray,
        state: &CountArray,
    ) -> (r: (Vec<u128>, u128))
        requires
            self.fits(t + 1, prob_matrix, total_queries as int, utility@, state@),
        ensures
            r.0@ == rewards(
                utility@,
                self.blocks_per_query@,
                prob_matrix@,
                state_after(state@, Seq::empty()),
                total_queries as int,
                t as int,
            ),
            r.1 == weights_sum(r.0@),
    {
        let ghost now = state_after(state@, Seq::empty());
        let mut weights: Vec<u128> = Vec::new();
        let mut sum: u128 = 0;
        let mut i: usize = 0;
        while i < total_queries
            invariant
                i <= total_queries,
                self.fits(t + 1, prob_matrix, total_queries as int, utility@, state@),
                now == state_after(state@, Seq::empty()),
                weights@.len() == i,
                forall|q: int|
                    0 <= q < i ==> weights@[q] == reward(
                        utility@,
                        self.blocks_per_query@,
                        prob_matrix@,
                        now,
                        q,
                        t as int,
                    ),
                sum == weights_sum(weights@),
                sum <= i * (ONE * (ONE * MAX_DELTA_MS)),
            decreases total_queries - i,
        {
            let nblocks: usize = state.at(i);
            assert(prob_matrix@[i as int].len() >= t + 1);
            let w: u128 = if nblocks < self.blocks_per_query.at(i) {
                let u: u64 = utility.at(nblocks);
                let p: u64 = prob_matrix.at(i, t);
                proof {
                    assert(u as u128 * p as u128 <= ONE * (ONE * MAX_DELTA_MS)) by (nonlinear_arith)
                        requires
                            u <= ONE,
                            p <= ONE * MAX_DELTA_MS,
                    ;
                }
                u as u128 * p as u128
            } else {
                0
            };
            proof {
                assert(now[i as int] == state@[i as int]);
                assert(weights@.push(w).drop_last() =~= weights@);
                assert((i + 1) * (ONE * (ONE * MAX_DELTA_MS)) == i * (ONE * (ONE * MAX_DELTA_MS))
                    + ONE * (ONE * MAX_DELTA_MS)) by (nonlinear_arith);
                assert(i * (ONE * (ONE * MAX_DELTA_MS)) <= 0xFFFF_FFFF * (ONE * (ONE
                    * MAX_DELTA_MS))) by (nonlinear_arith)
                    requires
                        i <= 0xFFFF_FFFF,
                ;
            }
            sum = sum + w;
            weights.push(w);
            i += 1;
        }
        assert(weights@ =~= rewards(
            utility@,
            self.blocks_per_query@,
            prob_matrix@,
            now,
            total_queries as int,
            t as int,
        ));
        (weights, sum)
    }

    /// Gives the next slot of the plan to `qid` if the query has fewer than
    /// `limit` blocks at the client: the query is appended to the plan and
    /// counts one block more. Returns whether it did.
    pub fn take_block(state: &mut CountArray, plan: &mut Vec<usize>, qid: usize, limit: usize) -> (r:
        bool)
        requires
            qid < old(state)@.len(),
        ensures
            r == (old(state)@[qid as int] < limit),
            r ==> final(plan)@ == old(plan)@.push(qid) && final(state)@ == old(state)@.update(
                qid as int,
                (old(state)@[qid as int] + 1) as usize,
            ),
            !r ==> final(plan)@ == old(plan)@ && final(state)@ == old(state)@,
    {
        let have: usize = state.at(qid);
        if have < limit {
            plan.push(qid);
            state.set(qid, have + 1);
            true
        } else {
            false
        }
    }

    /// Plans `horizon` slots by weighted sampling. In each slot the weights
    /// of the queries are taken from the blocks they then have; planning
    /// stops at the first slot in which every weight is zero. The query of a
    /// slot is drawn at random, so two runs may differ: what is stated holds
    /// of every run.
    #[verifier::rlimit(50)]
    pub fn greedy_p(
        &self,
        horizon: usize,
        prob_matrix: &WeightMatrix,
        total_queries: usize,
        utility: &WeightArray,
        state: CountArray,
    ) -> (blocks: Vec<usize>)
        requires
            self.fits(horizon as int, prob_matrix, total_queries as int, utility@, state@),
        ensures
            blocks@.len() <= horizon,
            forall|i: int| 0 <= i < blocks@.len() ==> blocks@[i] < total_queries,
            forall|q: int|
                0 <= q < total_queries && count(blocks@, q) > 0 ==> state@[q] + count(blocks@, q)
                    <= self.blocks_per_query@[q],
            forall|i: int|
                0 <= i < blocks@.len() ==> reward(
                    utility@,
                    self.blocks_per_query@,
                    prob_matrix@,
                    state_after(state@, blocks@.take(i)),
                    #[trigger] blocks@[i] as int,
                    i,
                ) > 0,
            blocks@.len() < horizon ==> weights_sum(
                rewards(
                    utility@,
                    self.blocks_per_query@,
                    prob_matrix@,
                    state_after(state@, blocks@),
                    total_queries as int,
                    blocks@.len() as int,
                ),
            ) == 0,
    {
        let ghost initial = state@;
        let mut state = state;
        let mut blocks: Vec<usize> = Vec::new();
        let mut rng = thread_generator();
        let mut t: usize = 0;
        let mut open: bool = true;
        while open && t < horizon
            invariant
                t <= horizon,
                self.fits(horizon as int, prob_matrix, total_queries as int, utility@, initial),
                state@.len() == initial.len(),
                blocks@.len() == t,
                forall|i: int| 0 <= i < blocks@.len() ==> blocks@[i] < total_queries,
                forall|i: int|
                    0 <= i < blocks@.len() ==> reward(
                        utility@,
                        self.blocks_per_query@,
                        prob_matrix@,
                        state_after(initial, blocks@.take(i)),
                        #[trigger] blocks@[i] as int,
                        i,
                    ) > 0,
                forall|q: int| 0 <= q < initial.len() ==> state@[q] == initial[q] + count(blocks@, q),
                forall|q: int|
                    0 <= q < total_queries && count(blocks@, q) > 0 ==> state@[q]
                        <= self.blocks_per_query@[q],
                !open ==> t < horizon && weights_sum(
                    rewards(
                        utility@,
                        self.blocks_per_query@,
                        prob_matrix@,
                        state_after(initial, blocks@),
                        total_queries as int,
                        t as int,
                    ),
                ) == 0,
            decreases (if open { 1int } else { 0int }), horizon - t,
        {
            proof {
                assert forall|q: int| 0 <= q < total_queries implies t + 1 <= (
                #[trigger] prob_matrix@[q]).len() by {}
                assert(state_after(state@, Seq::empty()) =~= state_after(initial, blocks@)) by {
                    assert forall|q: int| 0 <= q < initial.len() implies state@[q] + count(
                        Seq::<usize>::empty(),
                        q,
                    ) == initial[q] + count(blocks@, q) by {}
                }
            }
            let (weights, sum) = self.slot_rewards(prob_matrix, t, total_queries, utility, &state);
            if sum == 0 {
                open = false;
            } else {
                match sampler_new(&weights) {
                    Ok(dist) => {
                        let qid: usize = sampler_draw(&dist, &mut rng);
                        let ghost before = blocks@;
                        let ghost had = state@;
                        proof {
                            assert(weights@[qid as int] > 0);
                            assert(had[qid as int] < self.blocks_per_query@[qid as int]);
                        }
                        let taken: bool = GreedyScheduler::take_block(
                            &mut state,
                            &mut blocks,
                            qid,
                            utility.len(),
                        );
                        proof {
                            assert(taken);
                            assert forall|i: int| 0 <= i < blocks@.len() implies reward(
                                utility@,
                                self.blocks_per_query@,
                                prob_matrix@,
                                state_after(initial, blocks@.take(i)),
                                #[trigger] blocks@[i] as int,
                                i,
                            ) > 0 by {
                                if i < before.len() {
                                    assert(blocks@.take(i) =~= before.take(i));
                                    assert(blocks@[i] == before[i]);
                                } else {
                                    assert(blocks@.take(i) =~= before);
                                    assert(weights@[qid as int] == reward(
                                        utility@,
                                        self.blocks_per_query@,
                                        prob_matrix@,
                                        state_after(had, Seq::empty()),
                                        qid as int,
                                        t as int,
                                    ) as u128);
                                }
                            }
                            assert forall|q: int| 0 <= q < initial.len() implies state@[q]
                                == initial[q] + count(blocks@, q) by {
                                lemma_count_push(before, qid, q);
                            }
                            assert forall|q: int|
                                0 <= q < total_queries && count(blocks@, q) > 0 implies state@[q]
                                <= self.blocks_per_query@[q] by {
                                lemma_count_push(before, qid, q);
                            }
                        }
                        t += 1;
                    },
                    Err(_) => {
                        // weights that cannot be sampled from: without a
                        // positive sum, which was excluded above
                        open = false;
                    },
                }
            }
        }
        blocks
    }

    /// The integrals that sampling by partition needs: a row for each query
    /// that the model lists, and one row for all the others. With the
    /// matrix come the queries of its rows; the last of them stands for the
    /// others. `None` where the horizon ends further ahead than the model
    /// accepts, or the matrix would have too many cells; on a standing
    /// clock in no other case.
    #[verifier::rlimit(50)]
    pub fn integrate_probs_partition(
        &self,
        tm: &TimeManager,
        probs: Prob,
        total_queries: usize,
        horizon: usize,
    ) -> (r: Option<(WeightMatrix, CountArray)>)
        requires
            probs.wf(),
        ensures
            r.is_some() ==> matrix_bounded(r.unwrap().0@) && r.unwrap().0.width() == horizon,
            r.is_some() ==> exists|deltas: Seq<usize>, end: int|
                deltas.len() == horizon && end + TAIL_MS <= MAX_DELTA_MS && #[trigger] partitioned(
                    &probs,
                    total_queries as int,
                    r.unwrap().0@,
                    r.unwrap().1@,
                    deltas,
                    end,
                ),
            !tm.timed() && r.is_some() ==> partitioned(
                &probs,
                total_queries as int,
                r.unwrap().0@,
                r.unwrap().1@,
                standing_deltas(tm, horizon as int),
                client_delta(tm.latency_ms() as int, 0, horizon as int, tm.transfer_ms() as int),
            ),
            !tm.timed() ==> r.is_some() == can_integrate(
                tm,
                probs.explicit_queries().len() as int + 1,
                horizon as int,
            ),
            r.is_some() ==> r.unwrap().0@.len() == probs.explicit_queries().len() + 1
                && r.unwrap().1@.len() == probs.explicit_queries().len() + 1,
    {
        let (deltas, horizon_delta) = match slot_deltas(tm, horizon) {
            Some(found) => found,
            None => {
                return None;
            },
        };
        let q_in_p = probs.get_k();
        let mut ids: Vec<usize> = members(&q_in_p);
        let ghost listed = ids@;
        let count: usize = ids.len();
        proof {
            // the listed queries, each once, are as many as the model lists
            listed.unique_seq_to_set();
            assert(count == probs.explicit_queries().len());
        }
        let mut rest_index: usize = 0;
        let mut i: usize = 0;
        proof {
            assert(listed.take(0) =~= Seq::<usize>::empty());
        }
        while i < count
            invariant
                i <= count,
                count == ids@.len(),
                ids@ == listed,
                rest_index <= i,
                rest_index == rest_after(listed.take(i as int)),
            decreases count - i,
        {
            proof {
                assert(listed.take(i + 1).drop_last() =~= listed.take(i as int));
            }
            if rest_index == ids[i] {
                rest_index += 1;
            }
            i += 1;
        }
        proof {
            assert(listed.take(count as int) =~= listed);
        }
        let computed: usize = if rest_index < total_queries {
            ids.push(rest_index);
            ids.len()
        } else {
            ids.push(0);
            count
        };
        proof {
            assert(ids@.take(count as int) =~= listed);
            assert(ids@.len() - 1 == count);
        }
        match integrate_rows(&probs, &ids, computed, &deltas, horizon_delta) {
            Some(matrix) => {
                proof {
                    let rest = rest_after(ids@.take(count as int));
                    assert(rest == rest_index);
                    assert(ids@[count as int] == (if rest < total_queries {
                        rest
                    } else {
                        0
                    }));
                    assert forall|i: int, t: int|
                        0 <= i < matrix@.len() && 0 <= t < deltas@.len() implies (
                    #[trigger] matrix@[i][t]) == (if i < count || rest < total_queries {
                        probs.integrate_spec(
                            ids@[i],
                            deltas@[t] as int,
                            horizon_delta as int,
                            lower_bound(probs.anchors(), deltas@[t] as int),
                        )
                    } else {
                        0
                    }) by {}
                    assert(partitioned(
                        &probs,
                        total_queries as int,
                        matrix@,
                        ids@,
                        deltas@,
                        horizon_delta as int,
                    ));
                }
                let ghost all = ids@;
                let queries_ids = CountArray::from_vec(ids);
                proof {
                    assert(queries_ids@ == all);
                    assert(partitioned(
                        &probs,
                        total_queries as int,
                        matrix@,
                        queries_ids@,
                        deltas@,
                        horizon_delta as int,
                    ));
                }
                let r = Some((matrix, queries_ids));
                proof {
                    assert(deltas@.len() == horizon);
                    assert(horizon_delta + TAIL_MS <= MAX_DELTA_MS);
                    assert(partitioned(
                        &probs,
                        total_queries as int,
                        r.unwrap().0@,
                        r.unwrap().1@,
                        deltas@,
                        horizon_delta as int,
                    ));
                }
                r
            },
            None => None,
        }
    }

    /// What sampling by partition needs of its arguments: the matrix has a
    /// row for each of the `ids` with a cell for each of the `horizon`
    /// slots, and each of the `ids` is a query with a state and a number of
    /// blocks that the utility covers.
    pub open spec fn fits_partition(
        &self,
        ids: Seq<usize>,
        horizon: int,
        matrix: &WeightMatrix,
        total_queries: int,
        utility: Seq<u64>,
        state: Seq<usize>,
    ) -> bool {
        &&& 1 <= ids.len() <= u32::MAX
        &&& 0 < total_queries <= state.len()
        &&& ids.len() <= matrix@.len()
        &&& forall|i: int| 0 <= i < ids.len() ==> horizon <= (#[trigger] matrix@[i]).len()
        &&& matrix_bounded(matrix@)
        &&& forall|i: int|
            0 <= i < ids.len() ==> (#[trigger] ids[i]) < state.len() && ids[i]
                < self.blocks_per_query@.len() && self.blocks_per_query@[ids[i] as int]
                <= utility.len()
        &&& forall|i: int| 0 <= i < utility.len() ==> (#[trigger] utility[i]) <= ONE
    }

    /// The weight of the row `i` of a partition in slot `t`: the marginal
    /// utility of the next block of the query of the row times the cell of
    /// the row, or zero where the query has no further block.
    pub open spec fn row_reward(
        &self,
        ids: Seq<usize>,
        matrix: Seq<Seq<u64>>,
        utility: Seq<u64>,
        state: Seq<int>,
        i: int,
        t: int,
    ) -> int {
        let q = ids[i] as int;
        if state[q] < self.blocks_per_query@[q] {
            utility[state[q]] * matrix[i][t]
        } else {
            0
        }
    }

    /// The weights of the rows of a partition in slot `t`.
    pub open spec fn row_rewards(
        &self,
        ids: Seq<usize>,
        matrix: Seq<Seq<u64>>,
        utility: Seq<u64>,
        state: Seq<int>,
        t: int,
    ) -> Seq<u128> {
        Seq::new(ids.len(), |i: int| self.row_reward(ids, matrix, utility, state, i, t) as u128)
    }

    /// The weights of the rows of a partition in slot `t`, and their sum.
    pub fn partition_rewards(
        &self,
        queries_ids: &CountArray,
        prob_matrix: &WeightMatrix,
        t: usize,
        total_queries: usize,
        utility: &WeightArray,
        state: &CountArray,
    ) -> (r: (Vec<u128>, u128))
        requires
            self.fits_partition(
                queries_ids@,
                t + 1,
                prob_matrix,
                total_queries as int,
                utility@,
                state@,
            ),
        ensures
            r.0@ == self.row_rewards(
                queries_ids@,
                prob_matrix@,
                utility@,
                state_after(state@, Seq::empty()),
                t as int,
            ),
            r.1 == weights_sum(r.0@),
    {
        let ghost now = state_after(state@, Seq::empty());
        let rows: usize = queries_ids.len();
        let mut rewards: Vec<u128> = Vec::new();
        let mut sum: u128 = 0;
        let mut i: usize = 0;
        while i < rows
            invariant
                i <= rows,
                rows == queries_ids@.len(),
                self.fits_partition(
                    queries_ids@,
                    t + 1,
                    prob_matrix,
                    total_queries as int,
                    utility@,
                    state@,
                ),
                now == state_after(state@, Seq::empty()),
                rewards@.len() == i,
                forall|k: int|
                    0 <= k < i ==> rewards@[k] == self.row_reward(
                        queries_ids@,
                        prob_matrix@,
                        utility@,
                        now,
                        k,
                        t as int,
                    ),
                sum == weights_sum(rewards@),
                sum <= i * (ONE * (ONE * MAX_DELTA_MS)),
            decreases rows - i,
        {
            let qid: usize = queries_ids.at(i);
            let nblocks: usize = state.at(qid);
            assert(prob_matrix@[i as int].len() >= t + 1);
            let w: u128 = if nblocks < self.blocks_per_query.at(qid) {
                let u: u64 = utility.at(nblocks);
                let p: u64 = prob_matrix.at(i, t);
                proof {
                    assert(u as u128 * p as u128 <= ONE * (ONE * MAX_DELTA_MS)) by (nonlinear_arith)
                        requires
                            u <= ONE,
                            p <= ONE * MAX_DELTA_MS,
                    ;
                }
                u as u128 * p as u128
            } else {
                0
            };
            proof {
                assert(now[qid as int] == state@[qid as int]);
                assert(rewards@.push(w).drop_last() =~= rewards@);
                assert((i + 1) * (ONE * (ONE * MAX_DELTA_MS)) == i * (ONE * (ONE * MAX_DELTA_MS))
                    + ONE * (ONE * MAX_DELTA_MS)) by (nonlinear_arith);
                assert(i * (ONE * (ONE * MAX_DELTA_MS)) <= 0xFFFF_FFFF * (ONE * (ONE
                    * MAX_DELTA_MS))) by (nonlinear_arith)
                    requires
                        i <= 0xFFFF_FFFF,
                ;
            }
            sum = sum + w;
            rewards.push(w);
            i += 1;
        }
        assert(rewards@ =~= self.row_rewards(
            queries_ids@,
            prob_matrix@,
            utility@,
            now,
            t as int,
        ));
        (rewards, sum)
    }

    /// The number of blocks of query `q`; none for a query that the
    /// scheduler does not know.
    pub open spec fn own_blocks(&self, q: int) -> int {
        if 0 <= q < self.blocks_per_query@.len() {
            self.blocks_per_query@[q] as int
        } else {
            0
        }
    }

    /// Once the first `j` queries of the plan have their blocks, slot `t`
    /// may stay empty: no row has weight, or some query has all its blocks,
    /// so that a draw among all queries may fall on it in vain.
    pub open spec fn stalls(
        &self,
        ids: Seq<usize>,
        matrix: Seq<Seq<u64>>,
        utility: Seq<u64>,
        state: Seq<usize>,
        plan: Seq<usize>,
        t: int,
        j: int,
    ) -> bool {
        &&& 0 <= j <= plan.len()
        &&& {
            ||| weights_sum(
                self.row_rewards(ids, matrix, utility, state_after(state, plan.take(j)), t),
            ) == 0
            ||| exists|q: int|
                0 <= q < state.len() && #[trigger] state_after(state, plan.take(j))[q]
                    >= self.own_blocks(q)
        }
    }

    /// The query at place `k` of the plan came by row `i` in slot `s`, a
    /// slot no earlier than its place: the row had weight then, with the
    /// blocks that the plan had brought, and it is the row of that query or
    /// the last row, which stands for a draw among all queries.
    pub open spec fn row_drawn_in(
        &self,
        ids: Seq<usize>,
        matrix: Seq<Seq<u64>>,
        utility: Seq<u64>,
        state: Seq<usize>,
        plan: Seq<usize>,
        k: int,
        s: int,
        i: int,
    ) -> bool {
        &&& k <= s
        &&& 0 <= i < ids.len()
        &&& i == ids.len() - 1 || ids[i] == plan[k]
        &&& self.row_reward(ids, matrix, utility, state_after(state, plan.take(k)), i, s) > 0
    }

    /// The query at place `k` of the plan came by a row that had weight in
    /// one of the first `horizon` slots.
    pub open spec fn row_drawn(
        &self,
        ids: Seq<usize>,
        matrix: Seq<Seq<u64>>,
        utility: Seq<u64>,
        horizon: int,
        state: Seq<usize>,
        plan: Seq<usize>,
        k: int,
    ) -> bool {
        exists|s: int, i: int|
            s < horizon && #[trigger] self.row_drawn_in(ids, matrix, utility, state, plan, k, s, i)
    }

    /// Plans `horizon` slots by weighted sampling among the listed queries
    /// `queries_ids` and, as one more choice, all other queries together:
    /// where the last of `queries_ids` is drawn, the query of the slot is
    /// drawn evenly among all `total_queries` queries. A query so drawn may
    /// be one that has all its blocks: then the slot stays empty. No query
    /// is planned for more blocks than it has, and each planned query came
    /// by a row that had weight in its slot. Planning stops at the first
    /// slot in which every weight is zero.
    #[verifier::rlimit(50)]
    pub fn greedy_partition(
        &self,
        queries_ids: CountArray,
        horizon: usize,
        prob_matrix: &WeightMatrix,
        total_queries: usize,
        utility: &WeightArray,
        state: CountArray,
    ) -> (blocks: Vec<usize>)
        requires
            self.fits_partition(
                queries_ids@,
                horizon as int,
                prob_matrix,
                total_queries as int,
                utility@,
                state@,
            ),
        ensures
            blocks@.len() <= horizon,
            forall|i: int| 0 <= i < blocks@.len() ==> blocks@[i] < state@.len(),
            forall|q: int|
                0 <= q < state@.len() && count(blocks@, q) > 0 ==> q < self.blocks_per_query@.len()
                    && state@[q] + count(blocks@, q) <= self.blocks_per_query@[q],
            forall|k: int|
                0 <= k < blocks@.len() ==> #[trigger] self.row_drawn(
                    queries_ids@,
                    prob_matrix@,
                    utility@,
                    horizon as int,
                    state@,
                    blocks@,
                    k,
                ),
            blocks@.len() == horizon || exists|t: int, j: int|
                0 <= t < horizon && #[trigger] self.stalls(
                    queries_ids@,
                    prob_matrix@,
                    utility@,
                    state@,
                    blocks@,
                    t,
                    j,
                ),
    {
        let ghost initial = state@;
        let mut state = state;
        let mut blocks: Vec<usize> = Vec::new();
        let mut rng = thread_generator();
        let rows: usize = queries_ids.len();
        let mut t: usize = 0;
        let mut open: bool = true;
        while open && t < horizon
            invariant
                t <= horizon,
                rows == queries_ids@.len(),
                self.fits_partition(
                    queries_ids@,
                    horizon as int,
                    prob_matrix,
                    total_queries as int,
                    utility@,
                    initial,
                ),
                state@.len() == initial.len(),
                blocks@.len() <= t,
                forall|i: int| 0 <= i < blocks@.len() ==> blocks@[i] < initial.len(),
                forall|q: int| 0 <= q < initial.len() ==> state@[q] == initial[q] + count(blocks@, q),
                forall|q: int|
                    0 <= q < initial.len() && count(blocks@, q) > 0 ==> q
                        < self.blocks_per_query@.len() && state@[q] <= self.blocks_per_query@[q],
                forall|k: int|
                    0 <= k < blocks@.len() ==> #[trigger] self.row_drawn(
                        queries_ids@,
                        prob_matrix@,
                        utility@,
                        horizon as int,
                        initial,
                        blocks@,
                        k,
                    ),
                (open && blocks@.len() == t) || exists|a: int, j: int|
                    0 <= a < horizon && #[trigger] self.stalls(
                        queries_ids@,
                        prob_matrix@,
                        utility@,
                        initial,
                        blocks@,
                        a,
                        j,
                    ),
            decreases (if open { 1int } else { 0int }), horizon - t,
        {
            let ghost before = blocks@;
            let ghost had = state@;
            proof {
                assert forall|i: int| 0 <= i < queries_ids@.len() implies t + 1 <= (
                #[trigger] prob_matrix@[i]).len() by {}
                assert(before.take(before.len() as int) =~= before);
                assert(state_after(had, Seq::empty()) =~= state_after(initial, before.take(
                    before.len() as int,
                ))) by {
                    assert forall|q: int| 0 <= q < initial.len() implies had[q] + count(
                        Seq::<usize>::empty(),
                        q,
                    ) == initial[q] + count(before, q) by {}
                }
            }
            let (rewards, sum) = self.partition_rewards(
                &queries_ids,
                prob_matrix,
                t,
                total_queries,
                utility,
                &state,
            );
            if sum == 0 {
                proof {
                    assert(self.stalls(
                        queries_ids@,
                        prob_matrix@,
                        utility@,
                        initial,
                        before,
                        t as int,
                        before.len() as int,
                    ));
                }
                open = false;
            } else {
                match sampler_new(&rewards) {
                    Ok(dist) => {
                        let qindex: usize = sampler_draw(&dist, &mut rng);
                        let qid: usize = if qindex == rows - 1 {
                            draw_below(&mut rng, total_queries)
                        } else {
                            queries_ids.at(qindex)
                        };
                        let limit: usize = if qid < self.blocks_per_query.len() {
                            self.blocks_per_query.at(qid)
                        } else {
                            0
                        };
                        let taken: bool = GreedyScheduler::take_block(
                            &mut state,
                            &mut blocks,
                            qid,
                            limit,
                        );
                        proof {
                            assert forall|k: int| 0 <= k < blocks@.len() implies #[trigger] self.row_drawn(
                                queries_ids@,
                                prob_matrix@,
                                utility@,
                                horizon as int,
                                initial,
                                blocks@,
                                k,
                            ) by {
                                if k < before.len() {
                                    assert(self.row_drawn(
                                        queries_ids@,
                                        prob_matrix@,
                                        utility@,
                                        horizon as int,
                                        initial,
                                        before,
                                        k,
                                    ));
                                    let (s, i) = choose|s: int, i: int|
                                        s < horizon && #[trigger] self.row_drawn_in(
                                            queries_ids@,
                                            prob_matrix@,
                                            utility@,
                                            initial,
                                            before,
                                            k,
                                            s,
                                            i,
                                        );
                                    assert(blocks@.take(k) =~= before.take(k));
                                    assert(blocks@[k] == before[k]);
                                    assert(self.row_drawn_in(
                                        queries_ids@,
                                        prob_matrix@,
                                        utility@,
                                        initial,
                                        blocks@,
                                        k,
                                        s,
                                        i,
                                    ));
                                } else {
                                    assert(taken);
                                    assert(blocks@.take(k) =~= before);
                                    assert(rewards@[qindex as int] == self.row_reward(
                                        queries_ids@,
                                        prob_matrix@,
                                        utility@,
                                        state_after(had, Seq::empty()),
                                        qindex as int,
                                        t as int,
                                    ) as u128);
                                    assert(self.row_drawn_in(
                                        queries_ids@,
                                        prob_matrix@,
                                        utility@,
                                        initial,
                                        blocks@,
                                        k,
                                        t as int,
                                        qindex as int,
                                    ));
                                }
                            }
                            assert forall|q: int| 0 <= q < initial.len() implies state@[q]
                                == initial[q] + count(blocks@, q) by {
                                if taken {
                                    lemma_count_push(before, qid, q);
                                }
                            }
                            assert forall|q: int|
                                0 <= q < initial.len() && count(blocks@, q) > 0 implies q
                                < self.blocks_per_query@.len() && state@[q]
                                <= self.blocks_per_query@[q] by {
                                if taken {
                                    lemma_count_push(before, qid, q);
                                }
                            }
                            if !taken {
                                // the draw fell on a query that has all its blocks
                                assert(state_after(initial, before.take(before.len() as int))[qid as int]
                                    >= self.own_blocks(qid as int));
                                assert(self.stalls(
                                    queries_ids@,
                                    prob_matrix@,
                                    utility@,
                                    initial,
                                    before,
                                    t as int,
                                    before.len() as int,
                                ));
                            } else if before.len() != t {
                                let (a, j) = choose|a: int, j: int|
                                    0 <= a < horizon && #[trigger] self.stalls(
                                        queries_ids@,
                                        prob_matrix@,
                                        utility@,
                                        initial,
                                        before,
                                        a,
                                        j,
                                    );
                                assert(blocks@.take(j) =~= before.take(j));
                                assert(self.stalls(
                                    queries_ids@,
                                    prob_matrix@,
                                    utility@,
                                    initial,
                                    blocks@,
                                    a,
                                    j,
                                ));
                            }
                        }
                    },
                    Err(_) => {
                        // weights that cannot be sampled from: without a
                        // positive sum, which was excluded above
                    },
                }
                t += 1;
            }
        }
        blocks
    }

    /// What sampling by the utility matrix needs of its arguments: both
    /// matrices have a row for each of the `total_queries` queries, the
    /// matrix of integrals with a cell for each of the `horizon` slots and
    /// the matrix of utilities with a cell for each block of the query, and
    /// no query has more than `max_blocks_count` blocks.
    pub open spec fn fits_matrix(
        &self,
        p_qids: &WeightMatrix,
        g_qids: &WeightMatrix,
        horizon: int,
        total_queries: int,
        max_blocks_count: int,
        state: Seq<usize>,
    ) -> bool {
        &&& 0 <= total_queries <= u32::MAX
        &&& total_queries <= state.len()
        &&& total_queries <= self.blocks_per_query@.len()
        &&& p_qids@.len() == total_queries
        &&& g_qids@.len() == total_queries
        &&& forall|q: int| 0 <= q < total_queries ==> (#[trigger] p_qids@[q]).len() == horizon
        &&& forall|q: int|
            0 <= q < total_queries ==> self.blocks_per_query@[q] <= (#[trigger] g_qids@[q]).len()
                && g_qids@[q].len() <= max_blocks_count
        &&& matrix_bounded(p_qids@)
        &&& forall|q: int, b: int|
            0 <= q < total_queries && 0 <= b < g_qids@[q].len() ==> (#[trigger] g_qids@[q][b])
                <= ONE
    }

    /// The weights of the queries in slot `t`, with the utility of a block
    /// looked up in `g_qids`, and their sum.
    fn slot_gains(
        &self,
        p_qids: &WeightMatrix,
        g_qids: &WeightMatrix,
        t: usize,
        total_queries: usize,
        max_blocks_count: usize,
        state: &CountArray,
    ) -> (r: (Vec<u128>, u128))
        requires
            self.fits_matrix(
                p_qids,
                g_qids,
                p_qids@[0].len() as int,
                total_queries as int,
                max_blocks_count as int,
                state@,
            ),
            total_queries > 0,
            t < p_qids@[0].len(),
        ensures
            r.0@ == gain_rewards(
                g_qids@,
                self.blocks_per_query@,
                p_qids@,
                state_after(state@, Seq::empty()),
                total_queries as int,
                t as int,
            ),
            r.1 == weights_sum(r.0@),
    {
        let ghost now = state_after(state@, Seq::empty());
        let ghost horizon = p_qids@[0].len() as int;
        let mut weights: Vec<u128> = Vec::new();
        let mut sum: u128 = 0;
        let mut j: usize = 0;
        while j < total_queries
            invariant
                j <= total_queries,
                horizon == p_qids@[0].len(),
                t < horizon,
                self.fits_matrix(
                    p_qids,
                    g_qids,
                    horizon,
                    total_queries as int,
                    max_blocks_count as int,
                    state@,
                ),
                now == state_after(state@, Seq::empty()),
                weights@.len() == j,
                forall|q: int|
                    0 <= q < j ==> weights@[q] == gain_reward(
                        g_qids@,
                        self.blocks_per_query@,
                        p_qids@,
                        now,
                        q,
                        t as int,
                    ),
                sum == weights_sum(weights@),
                sum <= j * (ONE * (ONE * MAX_DELTA_MS)),
            decreases total_queries - j,
        {
            let nblocks: usize = state.at(j);
            assert(p_qids@[j as int].len() == horizon);
            assert(self.blocks_per_query@[j as int] <= g_qids@[j as int].len());
            let w: u128 = if nblocks < self.blocks_per_query.at(j) {
                let u: u64 = g_qids.at(j, nblocks);
                let p: u64 = p_qids.at(j, t);
                proof {
                    assert(u as u128 * p as u128 <= ONE * (ONE * MAX_DELTA_MS)) by (nonlinear_arith)
                        requires
                            u <= ONE,
                            p <= ONE * MAX_DELTA_MS,
                    ;
                }
                u as u128 * p as u128
            } else {
                0
            };
            proof {
                assert(now[j as int] == state@[j as int]);
                assert(weights@.push(w).drop_last() =~= weights@);
                assert((j + 1) * (ONE * (ONE * MAX_DELTA_MS)) == j * (ONE * (ONE * MAX_DELTA_MS))
                    + ONE * (ONE * MAX_DELTA_MS)) by (nonlinear_arith);
                assert(j * (ONE * (ONE * MAX_DELTA_MS)) <= 0xFFFF_FFFF * (ONE * (ONE
                    * MAX_DELTA_MS))) by (nonlinear_arith)
                    requires
                        j <= 0xFFFF_FFFF,
                ;
            }
            sum = sum + w;
            weights.push(w);
            j += 1;
        }
        assert(weights@ =~= gain_rewards(
            g_qids@,
            self.blocks_per_query@,
            p_qids@,
            now,
            total_queries as int,
            t as int,
        ));
        (weights, sum)
    }

    /// Slot `i` finds no query with weight once the first `j` queries of the
    /// plan have their blocks, with the utility looked up in `g_qids`.
    pub open spec fn idle(
        &self,
        p_qids: Seq<Seq<u64>>,
        g_qids: Seq<Seq<u64>>,
        total_queries: int,
        state: Seq<usize>,
        plan: Seq<usize>,
        i: int,
        j: int,
    ) -> bool {
        0 <= j <= plan.len() && weights_sum(
            gain_rewards(
                g_qids,
                self.blocks_per_query@,
                p_qids,
                state_after(state, plan.take(j)),
                total_queries,
                i,
            ),
        ) == 0
    }

    /// The query at place `k` of the plan had weight in slot `s`, a slot no
    /// earlier than its place, with the blocks that the plan had brought by
    /// then.
    pub open spec fn drawn_in(
        &self,
        p_qids: Seq<Seq<u64>>,
        g_qids: Seq<Seq<u64>>,
        state: Seq<usize>,
        plan: Seq<usize>,
        k: int,
        s: int,
    ) -> bool {
        k <= s && gain_reward(
            g_qids,
            self.blocks_per_query@,
            p_qids,
            state_after(state, plan.take(k)),
            plan[k] as int,
            s,
        ) > 0
    }

    /// The query at place `k` of the plan had weight in the slot it was
    /// drawn in, one of the first `horizon` slots.
    pub open spec fn drawn(
        &self,
        p_qids: Seq<Seq<u64>>,
        g_qids: Seq<Seq<u64>>,
        horizon: int,
        state: Seq<usize>,
        plan: Seq<usize>,
        k: int,
    ) -> bool {
        exists|s: int| s < horizon && #[trigger] self.drawn_in(p_qids, g_qids, state, plan, k, s)
    }

    /// Plans `horizon` slots like [`GreedyScheduler::greedy_p`], with the
    /// utility of a block looked up per query in `g_qids` and the query of a
    /// slot found by one draw: a number between one and the sum of the
    /// weights is drawn, and the query is the one that the number falls on
    /// when the weights are added up in order. A slot in which every weight
    /// is zero is left empty, and only such a slot: a plan shorter than the
    /// horizon has met one.
    #[verifier::rlimit(50)]
    pub fn sample_plan(
        &self,
        p_qids: &WeightMatrix,
        g_qids: &WeightMatrix,
        horizon: usize,
        total_queries: usize,
        max_blocks_count: usize,
        state: CountArray,
    ) -> (plan: Vec<usize>)
        requires
            self.fits_matrix(
                p_qids,
                g_qids,
                horizon as int,
                total_queries as int,
                max_blocks_count as int,
                state@,
            ),
        ensures
            plan@.len() <= horizon,
            forall|i: int| 0 <= i < plan@.len() ==> plan@[i] < total_queries,
            forall|q: int|
                0 <= q < total_queries && count(plan@, q) > 0 ==> state@[q] + count(plan@, q)
                    <= self.blocks_per_query@[q],
            forall|k: int|
                0 <= k < plan@.len() ==> #[trigger] self.drawn(
                    p_qids@,
                    g_qids@,
                    horizon as int,
                    state@,
                    plan@,
                    k,
                ),
            plan@.len() == horizon || exists|i: int, j: int|
                0 <= i < horizon && #[trigger] self.idle(
                    p_qids@,
                    g_qids@,
                    total_queries as int,
                    state@,
                    plan@,
                    i,
                    j,
                ),
    {
        let ghost initial = state@;
        let mut state = state;
        let mut plan: Vec<usize> = Vec::new();
        let mut rng = thread_generator();
        if total_queries == 0 {
            proof {
                if horizon > 0 {
                    assert(gain_rewards(
                        g_qids@,
                        self.blocks_per_query@,
                        p_qids@,
                        state_after(initial, plan@.take(0)),
                        0,
                        0,
                    ) =~= Seq::<u128>::empty());
                    assert(self.idle(p_qids@, g_qids@, 0, initial, plan@, 0, 0));
                }
            }
            return plan;
        }
        let mut i: usize = 0;
        while i < horizon
            invariant
                i <= horizon,
                total_queries > 0,
                plan@.len() == i || exists|a: int, j: int|
                    0 <= a < i && #[trigger] self.idle(
                        p_qids@,
                        g_qids@,
                        total_queries as int,
                        initial,
                        plan@,
                        a,
                        j,
                    ),
                self.fits_matrix(
                    p_qids,
                    g_qids,
                    horizon as int,
                    total_queries as int,
                    max_blocks_count as int,
                    initial,
                ),
                state@.len() == initial.len(),
                plan@.len() <= i,
                forall|k: int| 0 <= k < plan@.len() ==> plan@[k] < total_queries,
                forall|k: int|
                    0 <= k < plan@.len() ==> #[trigger] self.drawn(
                        p_qids@,
                        g_qids@,
                        horizon as int,
                        initial,
                        plan@,
                        k,
                    ),
                forall|q: int| 0 <= q < initial.len() ==> state@[q] == initial[q] + count(plan@, q),
                forall|q: int|
                    0 <= q < total_queries && count(plan@, q) > 0 ==> state@[q]
                        <= self.blocks_per_query@[q],
            decreases horizon - i,
        {
            proof {
                assert(p_qids@[0].len() == horizon);
            }
            let (weights, sum) = self.slot_gains(
                p_qids,
                g_qids,
                i,
                total_queries,
                max_blocks_count,
                &state,
            );
            let ghost before = plan@;
            let ghost had = state@;
            proof {
                assert(state_after(state@, Seq::empty()) =~= state_after(initial, before.take(
                    before.len() as int,
                ))) by {
                    assert(before.take(before.len() as int) =~= before);
                    assert forall|q: int| 0 <= q < initial.len() implies state@[q] + count(
                        Seq::<usize>::empty(),
                        q,
                    ) == initial[q] + count(before, q) by {}
                }
                if sum == 0 {
                    assert(self.idle(
                        p_qids@,
                        g_qids@,
                        total_queries as int,
                        initial,
                        before,
                        i as int,
                        before.len() as int,
                    ));
                }
            }
            if sum > 0 {
                let val: u128 = draw_below_wide(&mut rng, sum) + 1;
                let random: usize = pick(&weights, val);
                proof {
                    assert(weights@[random as int] > 0);
                    assert(state@[random as int] < self.blocks_per_query@[random as int]);
                    assert(self.blocks_per_query@[random as int] <= g_qids@[random as int].len());
                }
                let taken: bool = GreedyScheduler::take_block(
                    &mut state,
                    &mut plan,
                    random,
                    max_blocks_count,
                );
                proof {
                    assert(taken);
                    assert forall|k: int| 0 <= k < plan@.len() implies #[trigger] self.drawn(
                        p_qids@,
                        g_qids@,
                        horizon as int,
                        initial,
                        plan@,
                        k,
                    ) by {
                        if k < before.len() {
                            assert(self.drawn(p_qids@, g_qids@, horizon as int, initial, before, k));
                            let s = choose|s: int|
                                s < horizon && #[trigger] self.drawn_in(
                                    p_qids@,
                                    g_qids@,
                                    initial,
                                    before,
                                    k,
                                    s,
                                );
                            assert(plan@.take(k) =~= before.take(k));
                            assert(plan@[k] == before[k]);
                            assert(self.drawn_in(p_qids@, g_qids@, initial, plan@, k, s));
                        } else {
                            assert(plan@.take(k) =~= before);
                            assert(before.take(before.len() as int) =~= before);
                            assert(weights@[random as int] == gain_reward(
                                g_qids@,
                                self.blocks_per_query@,
                                p_qids@,
                                state_after(had, Seq::empty()),
                                random as int,
                                i as int,
                            ) as u128);
                            assert(self.drawn_in(p_qids@, g_qids@, initial, plan@, k, i as int));
                        }
                    }
                    assert forall|q: int| 0 <= q < initial.len() implies state@[q] == initial[q]
                        + count(plan@, q) by {
                        lemma_count_push(before, random, q);
                    }
                    assert forall|q: int|
                        0 <= q < total_queries && count(plan@, q) > 0 implies state@[q]
                        <= self.blocks_per_query@[q] by {
                        lemma_count_push(before, random, q);
                    }
                    if before.len() != i {
                        // a slot that was idle before is idle still
                        let (a, j) = choose|a: int, j: int|
                            0 <= a < i && #[trigger] self.idle(
                                p_qids@,
                                g_qids@,
                                total_queries as int,
                                initial,
                                before,
                                a,
                                j,
                            );
                        assert(plan@.take(j) =~= before.take(j));
                        assert(self.idle(
                            p_qids@,
                            g_qids@,
                            total_queries as int,
                            initial,
                            plan@,
                            a,
                            j,
                        ));
                    }
                }
            }
            i += 1;
        }
        plan
    }
}

impl SchedulerTrait for GreedyScheduler {
    open spec fn ready(&self) -> bool {
        self.wf()
    }

    open spec fn admits(&self, probs: &Prob, state: Seq<usize>, start_idx: usize) -> bool {
        &&& start_idx <= self.cachesize
        &&& self.total_queries <= state.len()
    }

    /// Plans the slots from the head of the cache to its end, a batch at
    /// most: integrates the distribution for each query and slot, then
    /// samples the plan. No plan is made without queries, nor for a horizon
    /// that the model cannot integrate over. No query is planned for more
    /// blocks than it has, each planned query had weight in its slot, and
    /// a plan shorter than the horizon ends where no query has weight left:
    /// on a standing clock by the integrals from the times of the slots,
    /// on a running clock by those from the times that it showed.
    #[verifier::rlimit(50)]
    fn run_scheduler(
        &mut self,
        probs: Prob,
        state: CountArray,
        start_idx: usize,
        tm: &TimeManager,
    ) -> (plan: Vec<usize>)
        ensures
            *final(self) == *old(self),
            plan@.len() <= horizon_of(
                old(self).cachesize as int,
                start_idx as int,
                old(self).batch as int,
            ),
            old(self).total_queries == 0 ==> plan@.len() == 0,
            forall|i: int| 0 <= i < plan@.len() ==> plan@[i] < old(self).total_queries,
            forall|q: int|
                0 <= q < old(self).total_queries && count(plan@, q) > 0 ==> state@[q] + count(
                    plan@,
                    q,
                ) <= old(self).blocks_per_query@[q],
            !tm.timed() && old(self).total_queries > 0 && !can_integrate(
                tm,
                old(self).total_queries as int,
                horizon_of(old(self).cachesize as int, start_idx as int, old(self).batch as int),
            ) ==> plan@.len() == 0,
            !tm.timed() && old(self).total_queries > 0 ==> old(self).planned_standing(
                &probs,
                tm,
                state@,
                horizon_of(old(self).cachesize as int, start_idx as int, old(self).batch as int),
                plan@,
            ),
            old(self).total_queries > 0 ==> exists|elapsed: Seq<int>| #[trigger]
                old(self).planned_by(
                    &probs,
                    tm,
                    state@,
                    horizon_of(old(self).cachesize as int, start_idx as int, old(self).batch as int),
                    plan@,
                    elapsed,
                ),
    {
        let total_queries: usize = self.total_queries;
        let left: usize = self.cachesize - start_idx;
        let horizon: usize = if left <= self.batch {
            left
        } else {
            self.batch
        };
        if total_queries == 0 {
            return Vec::new();
        }
        let found = self.integrate_probs_slow(tm, probs, total_queries, horizon);
        let ghost elapsed = choose|elapsed: Seq<int>| #[trigger]
            GreedyScheduler::integration_read(
                tm,
                &probs,
                total_queries as int,
                horizon as int,
                elapsed,
                found,
            );
        assert(horizon == horizon_of(self.cachesize as int, start_idx as int, self.batch as int));
        match found {
            Some(prob_matrix) => {
                proof {
                    assert forall|q: int| 0 <= q < total_queries implies horizon <= (
                    #[trigger] prob_matrix@[q]).len() by {}
                }
                let plan = self.greedy_p(
                    horizon,
                    &prob_matrix,
                    total_queries,
                    &self.utility,
                    state,
                );
                proof {
                    assert(self.sampled(prob_matrix@, state@, horizon as int, plan@));
                    let deltas = deltas_read(tm, horizon as int, elapsed);
                    let end = delta_read(tm, elapsed, horizon as int);
                    assert forall|matrix: Seq<Seq<u64>>| #[trigger]
                        integrated(&probs, total_queries as int, matrix, deltas, end) implies self.sampled(
                        matrix,
                        state@,
                        horizon as int,
                        plan@,
                    ) by {
                        self.lemma_sampled_by_integrals(
                            &probs,
                            prob_matrix@,
                            matrix,
                            deltas,
                            end,
                            state@,
                            plan@,
                        );
                    }
                    assert(self.planned_by(&probs, tm, state@, horizon as int, plan@, elapsed));
                    if !tm.timed() {
                        assert(deltas =~= standing_deltas(tm, horizon as int));
                    }
                }
                plan
            },
            None => {
                let plan = Vec::new();
                proof {
                    assert(self.planned_by(&probs, tm, state@, horizon as int, plan@, elapsed));
                }
                plan
            },
        }
    }
}

} // verus!
