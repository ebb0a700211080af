//! The linear-program scheduler: which block of which query goes into which
//! slot is the solution of a binary program that maximises the utility of
//! the plan. The program is solved outside; here its coefficients are made,
//! the variables of each of its constraints are listed, and its solution is
//! turned into a plan.

use vstd::prelude::*;
use vstd::seq_lib::to_multiset_insert;
use crate::arrays::{WeightArray, WeightCube};
use crate::ds::{client_delta, lemma_client_delta_ordered, TimeManager};
use crate::fixed::ONE;
use crate::scheduler::greedy::standing_deltas;
use crate::scheduler::prob::Prob;
use crate::text::{
    fields, lemma_decimal_spells, lemma_fields_append, lemma_fields_of_plain,
    lemma_number_round_trip, number_spec, parse_number, split_fields,
};
use crate::wire::{decimal, decimal_bytes};

verus! {

/// The scheduler by linear program and what it knows of the application.
#[derive(Clone)]
pub struct ILP {
    /// The client's cache size, in blocks: the number of slots to plan.
    pub cachesize: usize,
    /// The marginal utility of each block of a query.
    pub utility: WeightArray,
    /// The number of queries.
    pub total_queries: usize,
}

/// A scheduler by linear program.
pub fn new(cachesize: usize, utility: WeightArray, total_queries: usize) -> (r: ILP)
    ensures
        r.cachesize == cachesize,
        r.utility@ == utility@,
        r.total_queries == total_queries,
{
    ILP { cachesize, utility, total_queries }
}

/// The sum of the values.
pub open spec fn seq_sum(p: Seq<u64>) -> int
    decreases p.len(),
{
    if p.len() == 0 {
        0
    } else {
        seq_sum(p.drop_last()) + p.last()
    }
}

/// The probability mass that counts for slot `t`: that of the first slot
/// and of the slots after `t`.
pub open spec fn mass(p: Seq<u64>, t: int) -> int {
    p[0] + seq_sum(p) - seq_sum(p.take(t + 1))
}

/// The probability of the query `q` at each of the times `deltas`.
pub open spec fn readings(probs: &Prob, q: usize, deltas: Seq<usize>) -> Seq<u64> {
    Seq::new(deltas.len(), |k: int| probs.get_spec(q, deltas[k] as int) as u64)
}

/// The coefficient of block `b` of query `q` in slot `t`: the marginal
/// utility of the block times the probability mass that counts for the slot.
/// The block after the last has none.
pub open spec fn coefficient(
    probs: &Prob,
    utility: Seq<u64>,
    deltas: Seq<usize>,
    q: int,
    b: int,
    t: int,
) -> int {
    if b < utility.len() {
        (utility[b] * mass(readings(probs, q as usize, deltas), t)) / (ONE as int)
    } else {
        0
    }
}

/// The cube holds the coefficient of each block of each of `n` queries in
/// each slot, and those of one block more.
pub open spec fn is_big_u(
    probs: &Prob,
    n: int,
    utility: Seq<u64>,
    deltas: Seq<usize>,
    cube: Seq<Seq<Seq<u64>>>,
) -> bool {
    &&& cube.len() == n
    &&& forall|q: int| 0 <= q < n ==> (#[trigger] cube[q]).len() == utility.len() + 1
    &&& forall|q: int, b: int|
        0 <= q < n && 0 <= b <= utility.len() ==> (#[trigger] cube[q][b]).len() == deltas.len()
    &&& forall|q: int, b: int, t: int|
        0 <= q < n && 0 <= b <= utility.len() && 0 <= t < deltas.len() ==> (
        #[trigger] cube[q][b][t]) == coefficient(probs, utility, deltas, q, b, t)
}

/// The sum of values that are probabilities is at most `ONE` for each.
pub proof fn lemma_seq_sum_bounded(p: Seq<u64>)
    requires
        forall|k: int| 0 <= k < p.len() ==> p[k] <= ONE,
    ensures
        0 <= seq_sum(p) <= p.len() * ONE,
    decreases p.len(),
{
    if p.len() > 0 {
        assert forall|k: int| 0 <= k < p.drop_last().len() implies p.drop_last()[k] <= ONE by {
            assert(p[k] <= ONE);
        }
        lemma_seq_sum_bounded(p.drop_last());
        assert(p.len() * ONE == (p.len() - 1) * ONE + ONE) by (nonlinear_arith);
    } else {
        assert(p.len() * ONE == 0) by (nonlinear_arith)
            requires
                p.len() == 0,
        ;
    }
}

/// The sum of the first values is no more than the sum of all.
pub proof fn lemma_seq_sum_grows(p: Seq<u64>, k: int)
    requires
        0 <= k <= p.len(),
    ensures
        0 <= seq_sum(p.take(k)) <= seq_sum(p),
    decreases p.len() - k,
{
    if k == 0 {
        assert(p.take(0) =~= Seq::<u64>::empty());
    }
    if k < p.len() {
        assert(p.take(k + 1).drop_last() =~= p.take(k));
        lemma_seq_sum_grows(p, k + 1);
        lemma_seq_sum_nonnegative(p.take(k));
    } else {
        assert(p.take(k) =~= p);
        lemma_seq_sum_nonnegative(p);
    }
}

/// A sum of values is not negative.
pub proof fn lemma_seq_sum_nonnegative(p: Seq<u64>)
    ensures
        0 <= seq_sum(p),
    decreases p.len(),
{
    if p.len() > 0 {
        lemma_seq_sum_nonnegative(p.drop_last());
    }
}

/// The sum of the first value alone is that value.
proof fn lemma_seq_sum_one(p: Seq<u64>)
    requires
        p.len() >= 1,
    ensures
        seq_sum(p.take(1)) == p[0],
{
    let one = p.take(1);
    assert(one.drop_last() =~= Seq::<u64>::empty());
    assert(seq_sum(one.drop_last()) == 0);
    assert(one.last() == p[0]);
}

/// The sum of the first `k` values, for `k` at least one, holds the first
/// value.
proof fn lemma_seq_sum_first(p: Seq<u64>, k: int)
    requires
        1 <= k <= p.len(),
    ensures
        p[0] <= seq_sum(p.take(k)),
    decreases k,
{
    assert(p.take(k).drop_last() =~= p.take(k - 1));
    assert(p.take(k).last() == p[k - 1]);
    if k == 1 {
        assert(p.take(0) =~= Seq::<u64>::empty());
        assert(seq_sum(p.take(0)) == 0);
    } else {
        lemma_seq_sum_first(p, k - 1);
    }
}

/// The name of the variable that stands for block `b` of query `q` in slot
/// `t`: the letter `a` and the three numbers, joined by underscores.
pub open spec fn name_spec(q: nat, b: nat, t: nat) -> Seq<u8> {
    seq![97u8, 95u8] + decimal(q) + seq![95u8] + decimal(b) + seq![95u8] + decimal(t)
}

/// What the name of a variable stands for: the numbers in its second, third
/// and fourth field. `None` where it has fewer fields or one of the three
/// spells no number.
pub open spec fn parse_spec(name: Seq<u8>) -> Option<(int, int, int)> {
    let f = fields(name, 95);
    if f.len() < 4 {
        None
    } else {
        let q = number_spec(f[1], usize::MAX as int);
        let b = number_spec(f[2], usize::MAX as int);
        let t = number_spec(f[3], usize::MAX as int);
        if q.is_some() && b.is_some() && t.is_some() {
            Some((q.unwrap(), b.unwrap(), t.unwrap()))
        } else {
            None
        }
    }
}

/// The blocks are in the order of their slots.
pub open spec fn by_slot(s: Seq<(usize, usize, usize)>) -> bool {
    forall|i: int, j: int| 0 <= i < j < s.len() ==> s[i].2 <= s[j].2
}

/// The number of blocks whose slot is before `t`.
pub open spec fn slots_before(s: Seq<(usize, usize, usize)>, t: int) -> int
    decreases s.len(),
{
    if s.len() == 0 {
        0
    } else {
        slots_before(s.drop_last(), t) + if s.last().2 < t {
            1int
        } else {
            0int
        }
    }
}

/// The number of blocks whose slot is `t`.
pub open spec fn slots_at(s: Seq<(usize, usize, usize)>, t: int) -> int
    decreases s.len(),
{
    if s.len() == 0 {
        0
    } else {
        slots_at(s.drop_last(), t) + if s.last().2 == t {
            1int
        } else {
            0int
        }
    }
}

/// The place of the block at `k` once the blocks are in the order of their
/// slots, blocks of one slot in the order in which they came: after the
/// blocks of earlier slots and the earlier blocks of its own slot.
pub open spec fn place(s: Seq<(usize, usize, usize)>, k: int) -> int {
    slots_before(s, s[k].2 as int) + slots_at(s.take(k), s[k].2 as int)
}

/// A block inserted anywhere counts once where its slot counts.
proof fn lemma_slot_counts_insert(s: Seq<(usize, usize, usize)>, pos: int, x: (usize, usize, usize), t: int)
    requires
        0 <= pos <= s.len(),
    ensures
        slots_before(s.insert(pos, x), t) == slots_before(s, t) + if x.2 < t {
            1int
        } else {
            0int
        },
        slots_at(s.insert(pos, x), t) == slots_at(s, t) + if x.2 == t {
            1int
        } else {
            0int
        },
    decreases s.len(),
{
    let grown = s.insert(pos, x);
    if pos == s.len() {
        assert(grown.drop_last() =~= s);
    } else {
        assert(grown.drop_last() =~= s.drop_last().insert(pos, x));
        assert(grown.last() == s.last());
        lemma_slot_counts_insert(s.drop_last(), pos, x, t);
    }
}

/// A block inserted after the blocks of its slot and of earlier slots, and
/// before those of later slots, keeps the blocks in the order of their slots.
proof fn lemma_insert_in_order(s: Seq<(usize, usize, usize)>, pos: int, x: (usize, usize, usize))
    requires
        by_slot(s),
        0 <= pos <= s.len(),
        forall|k: int| 0 <= k < pos ==> s[k].2 <= x.2,
        pos < s.len() ==> s[pos].2 > x.2,
    ensures
        by_slot(s.insert(pos, x)),
        forall|k: int| pos <= k < s.len() ==> s[k].2 > x.2,
{
    let grown = s.insert(pos, x);
    assert forall|k: int| pos <= k < s.len() implies s[k].2 > x.2 by {
        if pos < k {
            assert(s[pos].2 <= s[k].2);
        }
    }
    assert forall|a: int, b: int| 0 <= a < b < grown.len() implies grown[a].2 <= grown[b].2 by {
        if b < pos {
            assert(s[a].2 <= s[b].2);
        } else if b == pos {
            assert(s[a].2 <= x.2);
        } else if a < pos {
            assert(s[a].2 <= s[b - 1].2);
        } else if a == pos {
            assert(s[b - 1].2 > x.2);
        } else {
            assert(s[a - 1].2 <= s[b - 1].2);
        }
    }
}

/// Where `sorted` holds the blocks `had`, each at its place, a further block
/// inserted after the blocks of its slot and of earlier slots gives the
/// blocks `had.push(x)`, each at its place.
#[verifier::rlimit(50)]
proof fn lemma_places_after_insert(
    sorted: Seq<(usize, usize, usize)>,
    had: Seq<(usize, usize, usize)>,
    pos: int,
    x: (usize, usize, usize),
)
    requires
        sorted.len() == had.len(),
        0 <= pos <= sorted.len(),
        forall|k: int| 0 <= k < pos ==> sorted[k].2 <= x.2,
        forall|k: int| pos <= k < sorted.len() ==> sorted[k].2 > x.2,
        forall|t: int|
            slots_before(sorted, t) == slots_before(had, t) && slots_at(sorted, t) == slots_at(
                had,
                t,
            ),
        forall|k: int|
            0 <= k < had.len() ==> 0 <= place(had, k) < had.len() && sorted[place(had, k)]
                == had[k],
    ensures
        forall|t: int|
            slots_before(sorted.insert(pos, x), t) == slots_before(had.push(x), t) && slots_at(
                sorted.insert(pos, x),
                t,
            ) == slots_at(had.push(x), t),
        forall|k: int|
            0 <= k < had.len() + 1 ==> 0 <= place(had.push(x), k) < had.len() + 1
                && sorted.insert(pos, x)[place(had.push(x), k)] == had.push(x)[k],
{
    let has = had.push(x);
    let grown = sorted.insert(pos, x);
    assert(has.drop_last() =~= had);
    lemma_slot_counts_split(sorted, pos, x.2 as int);
    assert forall|t: int|
        slots_before(grown, t) == slots_before(has, t) && slots_at(grown, t) == slots_at(
            has,
            t,
        ) by {
        lemma_slot_counts_insert(sorted, pos, x, t);
    }
    assert forall|k: int| 0 <= k < had.len() + 1 implies 0 <= place(has, k) < had.len() + 1
        && grown[place(has, k)] == has[k] by {
        let t = has[k].2 as int;
        if k == had.len() {
            assert(has.take(k) =~= had);
            assert(place(has, k) == pos);
        } else {
            assert(has.take(k) =~= had.take(k));
            let p = place(had, k);
            assert(sorted[p] == had[k]);
            if x.2 < t {
                if p < pos {
                    assert(sorted[p].2 <= x.2);
                }
                assert(place(has, k) == p + 1);
            } else {
                if p >= pos {
                    assert(sorted[p].2 > x.2);
                }
                assert(place(has, k) == p);
            }
        }
    }
}

/// In blocks that are in the order of their slots, the blocks of slots up to
/// `t` are those before the first block of a later slot.
proof fn lemma_slot_counts_split(s: Seq<(usize, usize, usize)>, pos: int, t: int)
    requires
        0 <= pos <= s.len(),
        forall|k: int| 0 <= k < pos ==> s[k].2 <= t,
        forall|k: int| pos <= k < s.len() ==> s[k].2 > t,
    ensures
        slots_before(s, t) + slots_at(s, t) == pos,
    decreases s.len(),
{
    if s.len() > 0 {
        let front = s.drop_last();
        if pos == s.len() {
            assert forall|k: int| 0 <= k < pos - 1 implies front[k].2 <= t by {
                assert(s[k].2 <= t);
            }
            assert(s[s.len() - 1].2 <= t);
            lemma_slot_counts_split(front, pos - 1, t);
        } else {
            assert forall|k: int| 0 <= k < pos implies front[k].2 <= t by {
                assert(s[k].2 <= t);
            }
            assert forall|k: int| pos <= k < front.len() implies front[k].2 > t by {
                assert(s[k].2 > t);
            }
            assert(s[s.len() - 1].2 > t);
            lemma_slot_counts_split(front, pos, t);
        }
    }
}

impl ILP {
    /// For each slot the probability mass that counts for it, from the
    /// probability at each slot: the sum of all, less those of the slots
    /// from the second up to the slot itself.
    #[verifier::rlimit(50)]
    pub fn tail_masses(p: &Vec<u64>) -> (r: Vec<u64>)
        requires
            p@.len() <= u32::MAX,
            forall|k: int| 0 <= k < p@.len() ==> p@[k] <= ONE,
        ensures
            r@.len() == p@.len(),
            forall|t: int| 0 <= t < r@.len() ==> r@[t] == mass(p@, t),
            forall|t: int| 0 <= t < r@.len() ==> r@[t] <= p@.len() * ONE,
    {
        let n: usize = p.len();
        let mut total: u64 = 0;
        let mut k: usize = 0;
        proof {
            assert(p@.take(0) =~= Seq::<u64>::empty());
        }
        while k < n
            invariant
                k <= n,
                n == p@.len(),
                n <= u32::MAX,
                forall|i: int| 0 <= i < p@.len() ==> p@[i] <= ONE,
                total == seq_sum(p@.take(k as int)),
                total <= k * ONE,
            decreases n - k,
        {
            proof {
                assert(p@.take(k + 1).drop_last() =~= p@.take(k as int));
                assert((k + 1) * ONE == k * ONE + ONE) by (nonlinear_arith);
                assert(k * ONE <= 0xFFFF_FFFF * ONE) by (nonlinear_arith)
                    requires
                        k <= 0xFFFF_FFFF,
                ;
            }
            total = total + p[k];
            k += 1;
        }
        proof {
            assert(p@.take(n as int) =~= p@);
            lemma_seq_sum_bounded(p@);
        }
        let mut out: Vec<u64> = Vec::new();
        let mut left: u64 = total;
        let mut t: usize = 0;
        proof {
            if n > 0 {
                lemma_seq_sum_one(p@);
            }
        }
        while t < n
            invariant
                t <= n,
                n == p@.len(),
                out@.len() == t,
                seq_sum(p@) <= n * ONE,
                t < n ==> left == mass(p@, t as int),
                forall|i: int| 0 <= i < t ==> out@[i] == mass(p@, i),
                forall|i: int| 0 <= i < t ==> out@[i] <= n * ONE,
            decreases n - t,
        {
            proof {
                lemma_seq_sum_grows(p@, t + 1);
                lemma_seq_sum_first(p@, t + 1);
            }
            out.push(left);
            if t < n - 1 {
                proof {
                    assert(p@.take(t + 2).drop_last() =~= p@.take(t + 1));
                    assert(p@.take(t + 2).last() == p@[t + 1]);
                    lemma_seq_sum_grows(p@, t + 2);
                    lemma_seq_sum_first(p@, t + 2);
                }
                left = left - p[t + 1];
            }
            t += 1;
        }
        out
    }

    /// The times at the client of the first `count` slots, read off the time
    /// manager. `None` where one of them is not before the end of time.
    pub fn slot_times(tm: &TimeManager, count: usize) -> (r: Option<Vec<usize>>)
        ensures
            r.is_some() ==> r.unwrap()@.len() == count && forall|i: int|
                0 <= i < count ==> r.unwrap()@[i] < usize::MAX,
            !tm.timed() ==> r.is_some() == (count > 0 ==> client_delta(
                tm.latency_ms() as int,
                0,
                count - 1,
                tm.transfer_ms() as int,
            ) < usize::MAX),
            !tm.timed() && r.is_some() ==> r.unwrap()@ == standing_deltas(tm, count as int),
    {
        let mut deltas: Vec<usize> = Vec::new();
        let mut k: usize = 0;
        while k < count
            invariant
                k <= count,
                deltas@.len() == k,
                forall|i: int| 0 <= i < k ==> deltas@[i] < usize::MAX,
                !tm.timed() ==> forall|i: int|
                    0 <= i < k ==> deltas@[i] == client_delta(
                        tm.latency_ms() as int,
                        0,
                        i,
                        tm.transfer_ms() as int,
                    ),
            decreases count - k,
        {
            proof {
                lemma_client_delta_ordered(
                    tm.latency_ms() as int,
                    0,
                    tm.transfer_ms() as int,
                    k as int,
                    count - 1,
                );
            }
            match tm.slot_to_client_delta(k) {
                Some(delta) => {
                    if delta == usize::MAX {
                        return None;
                    }
                    deltas.push(delta);
                },
                None => {
                    return None;
                },
            }
            k += 1;
        }
        proof {
            if !tm.timed() {
                assert(deltas@ =~= standing_deltas(tm, count as int));
                if count > 0 {
                    assert(deltas@[count - 1] < usize::MAX);
                }
            }
        }
        Some(deltas)
    }

    /// On a standing clock the coefficients can be computed: the cache has no
    /// more slots than can be counted, the cube can be made, and the last
    /// slot is before the end of time.
    pub open spec fn computable(tm: &TimeManager, total_queries: int, blocks: int, cachesize: int) -> bool {
        &&& cachesize <= u32::MAX
        &&& WeightCube::fits(total_queries, blocks + 1, cachesize)
        &&& cachesize > 0 ==> client_delta(
            tm.latency_ms() as int,
            0,
            cachesize - 1,
            tm.transfer_ms() as int,
        ) < usize::MAX
    }

    /// The coefficients of the linear program: for each query, each block and
    /// each slot the utility of having the block in the slot, and zeros for
    /// one block more than the utility covers. The times of the slots are
    /// read off the time manager once. `None` where a slot lies too far
    /// ahead, or the cache has more slots or the cube more cells than can be
    /// counted.
    #[verifier::rlimit(50)]
    pub fn compute_big_u(
        probs: &Prob,
        total_queries: usize,
        cachesize: usize,
        utility: &WeightArray,
        tm: &TimeManager,
    ) -> (r: Option<WeightCube>)
        requires
            probs.wf(),
            forall|b: int| 0 <= b < utility@.len() ==> utility@[b] <= ONE,
        ensures
            r.is_some() ==> exists|deltas: Seq<usize>|
                deltas.len() == cachesize && #[trigger] is_big_u(
                    probs,
                    total_queries as int,
                    utility@,
                    deltas,
                    r.unwrap()@,
                ),
            !tm.timed() ==> r.is_some() == ILP::computable(
                tm,
                total_queries as int,
                utility@.len() as int,
                cachesize as int,
            ),
            !tm.timed() && r.is_some() ==> is_big_u(
                probs,
                total_queries as int,
                utility@,
                standing_deltas(tm, cachesize as int),
                r.unwrap()@,
            ),
    {
        let max_blocks_per_query: usize = utility.len();
        if cachesize > u32::MAX as usize || max_blocks_per_query == usize::MAX {
            return None;
        }
        let rows: usize = max_blocks_per_query + 1;
        if !WeightCube::can_hold(total_queries, rows, cachesize) {
            return None;
        }
        let deltas = match ILP::slot_times(tm, cachesize) {
            Some(deltas) => deltas,
            None => {
                return None;
            },
        };
        let mut big_u = WeightCube::zeros(total_queries, rows, cachesize);
        let mut qidx: usize = 0;
        while qidx < total_queries
            invariant
                qidx <= total_queries,
                probs.wf(),
                max_blocks_per_query == utility@.len(),
                rows == utility@.len() + 1,
                cachesize <= u32::MAX,
                deltas@.len() == cachesize,
                forall|i: int| 0 <= i < cachesize ==> deltas@[i] < usize::MAX,
                forall|b: int| 0 <= b < utility@.len() ==> utility@[b] <= ONE,
                big_u@.len() == total_queries,
                forall|q: int| 0 <= q < total_queries ==> (#[trigger] big_u@[q]).len() == rows,
                forall|q: int, b: int|
                    0 <= q < total_queries && 0 <= b < rows ==> (#[trigger] big_u@[q][b]).len()
                        == cachesize,
                forall|q: int, b: int, t: int|
                    qidx <= q < total_queries && 0 <= b < rows && 0 <= t < cachesize ==> (
                    #[trigger] big_u@[q][b][t]) == 0,
                forall|q: int, b: int, t: int|
                    0 <= q < qidx && 0 <= b < rows && 0 <= t < cachesize ==> (
                    #[trigger] big_u@[q][b][t]) == coefficient(probs, utility@, deltas@, q, b, t),
            decreases total_queries - qidx,
        {
            let mut p_sums: Vec<u64> = Vec::new();
            let mut k: usize = 0;
            while k < cachesize
                invariant
                    k <= cachesize,
                    probs.wf(),
                    deltas@.len() == cachesize,
                    forall|i: int| 0 <= i < cachesize ==> deltas@[i] < usize::MAX,
                    p_sums@.len() == k,
                    forall|i: int|
                        0 <= i < k ==> p_sums@[i] == probs.get_spec(qidx, deltas@[i] as int)
                            && p_sums@[i] <= ONE,
                decreases cachesize - k,
            {
                p_sums.push(probs.get(qidx, deltas[k]));
                k += 1;
            }
            proof {
                assert(p_sums@ =~= readings(probs, qidx, deltas@));
            }
            let masses = ILP::tail_masses(&p_sums);
            let mut b: usize = 0;
            while b < max_blocks_per_query
                invariant
                    b <= max_blocks_per_query,
                    qidx < total_queries,
                    max_blocks_per_query == utility@.len(),
                    rows == utility@.len() + 1,
                    cachesize <= u32::MAX,
                    deltas@.len() == cachesize,
                    p_sums@ == readings(probs, qidx, deltas@),
                    masses@.len() == cachesize,
                    forall|t: int| 0 <= t < cachesize ==> masses@[t] == mass(p_sums@, t),
                    forall|t: int| 0 <= t < cachesize ==> masses@[t] <= cachesize * ONE,
                    forall|i: int| 0 <= i < utility@.len() ==> utility@[i] <= ONE,
                    big_u@.len() == total_queries,
                    forall|q: int| 0 <= q < total_queries ==> (#[trigger] big_u@[q]).len() == rows,
                    forall|q: int, c: int|
                        0 <= q < total_queries && 0 <= c < rows ==> (#[trigger] big_u@[q][c]).len()
                            == cachesize,
                    forall|q: int, c: int, t: int|
                        qidx < q < total_queries && 0 <= c < rows && 0 <= t < cachesize ==> (
                        #[trigger] big_u@[q][c][t]) == 0,
                    forall|c: int, t: int|
                        b <= c < rows && 0 <= t < cachesize ==> (
                        #[trigger] big_u@[qidx as int][c][t]) == 0,
                    forall|q: int, c: int, t: int|
                        0 <= q < qidx && 0 <= c < rows && 0 <= t < cachesize ==> (
                        #[trigger] big_u@[q][c][t]) == coefficient(
                            probs,
                            utility@,
                            deltas@,
                            q,
                            c,
                            t,
                        ),
                    forall|c: int, t: int|
                        0 <= c < b && 0 <= t < cachesize ==> (
                        #[trigger] big_u@[qidx as int][c][t]) == coefficient(
                            probs,
                            utility@,
                            deltas@,
                            qidx as int,
                            c,
                            t,
                        ),
                decreases max_blocks_per_query - b,
            {
                let g: u64 = utility.at(b);
                let mut t: usize = 0;
                while t < cachesize
                    invariant
                        t <= cachesize,
                        b < max_blocks_per_query,
                        qidx < total_queries,
                        g == utility@[b as int],
                        g <= ONE,
                        max_blocks_per_query == utility@.len(),
                        rows == utility@.len() + 1,
                        cachesize <= u32::MAX,
                        deltas@.len() == cachesize,
                        p_sums@ == readings(probs, qidx, deltas@),
                        masses@.len() == cachesize,
                        forall|i: int| 0 <= i < cachesize ==> masses@[i] == mass(p_sums@, i),
                        forall|i: int| 0 <= i < cachesize ==> masses@[i] <= cachesize * ONE,
                        big_u@.len() == total_queries,
                        forall|q: int|
                            0 <= q < total_queries ==> (#[trigger] big_u@[q]).len() == rows,
                        forall|q: int, c: int|
                            0 <= q < total_queries && 0 <= c < rows ==> (
                            #[trigger] big_u@[q][c]).len() == cachesize,
                        forall|q: int, c: int, i: int|
                            qidx < q < total_queries && 0 <= c < rows && 0 <= i < cachesize ==> (
                            #[trigger] big_u@[q][c][i]) == 0,
                        forall|c: int, i: int|
                            b < c < rows && 0 <= i < cachesize ==> (
                            #[trigger] big_u@[qidx as int][c][i]) == 0,
                        forall|q: int, c: int, i: int|
                            0 <= q < qidx && 0 <= c < rows && 0 <= i < cachesize ==> (
                            #[trigger] big_u@[q][c][i]) == coefficient(
                                probs,
                                utility@,
                                deltas@,
                                q,
                                c,
                                i,
                            ),
                        forall|c: int, i: int|
                            0 <= c < b && 0 <= i < cachesize ==> (
                            #[trigger] big_u@[qidx as int][c][i]) == coefficient(
                                probs,
                                utility@,
                                deltas@,
                                qidx as int,
                                c,
                                i,
                            ),
                        forall|i: int|
                            0 <= i < t ==> (#[trigger] big_u@[qidx as int][b as int][i])
                                == coefficient(probs, utility@, deltas@, qidx as int, b as int, i),
                    decreases cachesize - t,
                {
                    let m: u64 = masses[t];
                    proof {
                        assert(cachesize * ONE <= 0xFFFF_FFFF * ONE) by (nonlinear_arith)
                            requires
                                cachesize <= 0xFFFF_FFFF,
                        ;
                        assert(g as u128 * m as u128 <= ONE * (0xFFFF_FFFF * ONE))
                            by (nonlinear_arith)
                            requires
                                g <= ONE,
                                m <= 0xFFFF_FFFF * ONE,
                        ;
                        crate::fixed::lemma_div_is_monotone(
                            (g * m) as int,
                            ONE * (0xFFFF_FFFF * ONE),
                            ONE as int,
                        );
                        vstd::arithmetic::div_mod::lemma_div_multiples_vanish(
                            0xFFFF_FFFF * ONE,
                            ONE as int,
                        );
                    }
                    let v: u128 = (g as u128 * m as u128) / (ONE as u128);
                    big_u.set(qidx, b, t, v as u64);
                    t += 1;
                }
                b += 1;
            }
            proof {
                assert forall|c: int, t: int| 0 <= c < rows && 0 <= t < cachesize implies (
                #[trigger] big_u@[qidx as int][c][t]) == coefficient(
                    probs,
                    utility@,
                    deltas@,
                    qidx as int,
                    c,
                    t,
                ) by {
                    if c >= max_blocks_per_query {
                        assert(big_u@[qidx as int][c][t] == 0);
                    }
                }
            }
            qidx += 1;
        }
        let r = Some(big_u);
        proof {
            assert(deltas@.len() == cachesize);
            assert(is_big_u(probs, total_queries as int, utility@, deltas@, r.unwrap()@));
        }
        r
    }

    /// The variables that stand together in the constraint of slot `t`,
    /// of which at most one may be chosen: one for each block of each of
    /// the `total_queries` queries, the block after the last of the
    /// `blocks` included, each listed once.
    pub fn slot_constraint(total_queries: usize, blocks: usize, t: usize) -> (r: Vec<
        (usize, usize, usize),
    >)
        requires
            blocks < usize::MAX,
        ensures
            r@.no_duplicates(),
            forall|q: usize, b: usize, s: usize| #[trigger]
                r@.contains((q, b, s)) <==> q < total_queries && b <= blocks && s == t,
    {
        let mut r: Vec<(usize, usize, usize)> = Vec::new();
        let mut q: usize = 0;
        while q < total_queries
            invariant
                q <= total_queries,
                blocks < usize::MAX,
                r@.no_duplicates(),
                forall|i: int| 0 <= i < r@.len() ==> (#[trigger] r@[i]).0 < q && r@[i].1 <= blocks
                    && r@[i].2 == t,
                forall|a: usize, b: usize| a < q && b <= blocks ==> #[trigger] r@.contains((a, b, t)),
            decreases total_queries - q,
        {
            let mut b: usize = 0;
            while b <= blocks
                invariant
                    q < total_queries,
                    b <= blocks + 1,
                    blocks < usize::MAX,
                    r@.no_duplicates(),
                    forall|i: int|
                        0 <= i < r@.len() ==> ((#[trigger] r@[i]).0 < q || (r@[i].0 == q && r@[i].1
                            < b)) && r@[i].1 <= blocks && r@[i].2 == t,
                    forall|a: usize, c: usize|
                        (a < q && c <= blocks) || (a == q && c < b) ==> #[trigger] r@.contains(
                            (a, c, t),
                        ),
                decreases blocks + 1 - b,
            {
                let ghost before = r@;
                r.push((q, b, t));
                proof {
                    assert(r@[before.len() as int] == (q, b, t));
                    assert forall|a: usize, c: usize|
                        (a < q && c <= blocks) || (a == q && c < b + 1) implies #[trigger] r@.contains(
                        (a, c, t),
                    ) by {
                        if a == q && c == b {
                            assert(r@[before.len() as int] == (a, c, t));
                        } else {
                            assert(before.contains((a, c, t)));
                            let i = choose|i: int| 0 <= i < before.len() && before[i] == (a, c, t);
                            assert(r@[i] == (a, c, t));
                        }
                    }
                }
                b += 1;
            }
            q += 1;
        }
        r
    }

    /// The variables of the program: one for each block of each of the
    /// `total_queries` queries in each of the `cachesize` slots, the block
    /// after the last of the `blocks` included, each listed once.
    pub fn variables(total_queries: usize, blocks: usize, cachesize: usize) -> (r: Vec<
        (usize, usize, usize),
    >)
        requires
            blocks < usize::MAX,
        ensures
            r@.no_duplicates(),
            forall|q: usize, b: usize, t: usize| #[trigger]
                r@.contains((q, b, t)) <==> q < total_queries && b <= blocks && t < cachesize,
    {
        let mut r: Vec<(usize, usize, usize)> = Vec::new();
        let mut t: usize = 0;
        while t < cachesize
            invariant
                t <= cachesize,
                blocks < usize::MAX,
                r@.no_duplicates(),
                forall|q: usize, b: usize, s: usize| #[trigger]
                    r@.contains((q, b, s)) <==> q < total_queries && b <= blocks && s < t,
            decreases cachesize - t,
        {
            let mut slot = ILP::slot_constraint(total_queries, blocks, t);
            let ghost before = r@;
            let ghost added = slot@;
            proof {
                assert forall|i: int, j: int|
                    0 <= i < before.len() && 0 <= j < added.len() implies before[i] != added[j] by {
                    let v = before[i];
                    let w = added[j];
                    assert(before.contains((v.0, v.1, v.2)));
                    assert(added.contains((w.0, w.1, w.2)));
                }
                vstd::seq_lib::lemma_no_dup_in_concat(before, added);
            }
            r.append(&mut slot);
            proof {
                assert(r@ == before + added);
                assert forall|q: usize, b: usize, s: usize| #[trigger]
                    r@.contains((q, b, s)) <==> q < total_queries && b <= blocks && s < t
                        + 1 by {
                    let v = (q, b, s);
                    if r@.contains(v) {
                        let i = choose|i: int| 0 <= i < r@.len() && r@[i] == v;
                        if i < before.len() {
                            assert(before[i] == v);
                            assert(before.contains(v));
                        } else {
                            assert(added[i - before.len()] == v);
                            assert(added.contains(v));
                        }
                    }
                    if q < total_queries && b <= blocks && s < t + 1 {
                        if s < t {
                            assert(before.contains(v));
                            let i = choose|i: int| 0 <= i < before.len() && before[i] == v;
                            assert(r@[i] == v);
                        } else {
                            assert(added.contains(v));
                            let i = choose|i: int| 0 <= i < added.len() && added[i] == v;
                            assert(r@[before.len() + i] == v);
                        }
                    }
                }
            }
            t += 1;
        }
        r
    }

    /// The variables that stand together in the constraint of block `b` of
    /// query `q`, of which at most one may be chosen: one for each of the
    /// `cachesize` slots, in their order.
    pub fn block_constraint(cachesize: usize, q: usize, b: usize) -> (r: Vec<(usize, usize, usize)>)
        ensures
            r@ == Seq::new(cachesize as nat, |t: int| (q, b, t as usize)),
    {
        let mut r: Vec<(usize, usize, usize)> = Vec::new();
        let mut t: usize = 0;
        while t < cachesize
            invariant
                t <= cachesize,
                r@ == Seq::new(t as nat, |s: int| (q, b, s as usize)),
            decreases cachesize - t,
        {
            r.push((q, b, t));
            t += 1;
            assert(r@ =~= Seq::new(t as nat, |s: int| (q, b, s as usize)));
        }
        r
    }

    /// The name of the variable that stands for block `b` of query `q` in
    /// slot `t`.
    pub fn variable_name(q: usize, b: usize, t: usize) -> (r: Vec<u8>)
        ensures
            r@ == name_spec(q as nat, b as nat, t as nat),
    {
        let mut name: Vec<u8> = Vec::new();
        name.push(97);
        name.push(95);
        let mut digits = decimal_bytes(q);
        name.append(&mut digits);
        name.push(95);
        let mut digits = decimal_bytes(b);
        name.append(&mut digits);
        name.push(95);
        let mut digits = decimal_bytes(t);
        name.append(&mut digits);
        assert(name@ =~= name_spec(q as nat, b as nat, t as nat));
        name
    }

    /// The query, the block and the slot that the name of a variable stands
    /// for.
    pub fn parse_variable(name: &Vec<u8>) -> (r: Option<(usize, usize, usize)>)
        ensures
            match parse_spec(name@) {
                Some((q, b, t)) => r == Some((q as usize, b as usize, t as usize)),
                None => r.is_none(),
            },
    {
        let tokens = split_fields(name, 95);
        if tokens.len() < 4 {
            return None;
        }
        let ghost f = fields(name@, 95);
        let qid = parse_number(&tokens[1], usize::MAX as u128);
        let b = parse_number(&tokens[2], usize::MAX as u128);
        let t = parse_number(&tokens[3], usize::MAX as u128);
        proof {
            assert(tokens@[1]@ == f[1]);
            assert(tokens@[2]@ == f[2]);
            assert(tokens@[3]@ == f[3]);
        }
        match qid {
            Some(qid) => match b {
                Some(b) => match t {
                    Some(t) => Some((qid as usize, b as usize, t as usize)),
                    None => None,
                },
                None => None,
            },
            None => None,
        }
    }

    /// The chosen blocks in the order of their slots. Blocks of the same
    /// slot stay in the order in which they came.
    #[verifier::rlimit(50)]
    pub fn sort_by_slot(chosen: &Vec<(usize, usize, usize)>) -> (r: Vec<(usize, usize, usize)>)
        ensures
            r@.len() == chosen@.len(),
            forall|k: int|
                0 <= k < chosen@.len() ==> 0 <= place(chosen@, k) < r@.len() && r@[place(
                    chosen@,
                    k,
                )] == chosen@[k],
            by_slot(r@),
            r@.to_multiset() == chosen@.to_multiset(),
    {
        let mut sorted: Vec<(usize, usize, usize)> = Vec::new();
        let mut i: usize = 0;
        proof {
            assert(chosen@.take(0) =~= Seq::<(usize, usize, usize)>::empty());
        }
        while i < chosen.len()
            invariant
                i <= chosen@.len(),
                sorted@.len() == i,
                by_slot(sorted@),
                sorted@.to_multiset() == chosen@.take(i as int).to_multiset(),
                forall|t: int|
                    slots_before(sorted@, t) == slots_before(chosen@.take(i as int), t)
                        && slots_at(sorted@, t) == slots_at(chosen@.take(i as int), t),
                forall|k: int|
                    0 <= k < i ==> 0 <= place(chosen@.take(i as int), k) < i && sorted@[place(
                        chosen@.take(i as int),
                        k,
                    )] == chosen@[k],
            decreases chosen@.len() - i,
        {
            let item: (usize, usize, usize) = chosen[i];
            let mut pos: usize = 0;
            while pos < sorted.len() && sorted[pos].2 <= item.2
                invariant
                    pos <= sorted@.len(),
                    forall|k: int| 0 <= k < pos ==> sorted@[k].2 <= item.2,
                decreases sorted@.len() - pos,
            {
                pos += 1;
            }
            let ghost before = sorted@;
            let ghost had = chosen@.take(i as int);
            let ghost has = chosen@.take(i + 1);
            sorted.insert(pos, item);
            proof {
                to_multiset_insert(before, pos as int, item);
                vstd::seq_lib::to_multiset_build(had, item);
                assert(has =~= had.push(item));
                assert forall|k: int| 0 <= k < had.len() implies 0 <= place(had, k) < had.len()
                    && before[place(had, k)] == had[k] by {
                    assert(had[k] == chosen@[k]);
                }
                lemma_insert_in_order(before, pos as int, item);
                lemma_places_after_insert(before, had, pos as int, item);
                assert forall|k: int| 0 <= k < i + 1 implies 0 <= place(has, k) < i + 1
                    && sorted@[place(has, k)] == chosen@[k] by {
                    assert(has[k] == chosen@[k]);
                }
            }
            i += 1;
        }
        proof {
            assert(chosen@.take(chosen@.len() as int) =~= chosen@);
        }
        sorted
    }

    /// The plan that a solution of the linear program gives: the queries of
    /// the chosen blocks, in the order of their slots, and for blocks of one
    /// slot in the order in which they came.
    pub fn schedule_from(chosen: &Vec<(usize, usize, usize)>) -> (schedule: Vec<usize>)
        ensures
            schedule@.len() == chosen@.len(),
            forall|k: int|
                0 <= k < chosen@.len() ==> 0 <= place(chosen@, k) < schedule@.len() && schedule@[place(
                    chosen@,
                    k,
                )] == chosen@[k].0,
    {
        let sorted = ILP::sort_by_slot(chosen);
        let mut schedule: Vec<usize> = Vec::new();
        let mut i: usize = 0;
        while i < sorted.len()
            invariant
                i <= sorted@.len(),
                schedule@.len() == i,
                forall|k: int| 0 <= k < i ==> schedule@[k] == sorted@[k].0,
            decreases sorted@.len() - i,
        {
            schedule.push(sorted[i].0);
            i += 1;
        }
        schedule
    }
}

/// The name of a variable stands for the numbers it was made of.
pub proof fn lemma_name_round_trip(q: nat, b: nat, t: nat)
    requires
        q <= usize::MAX,
        b <= usize::MAX,
        t <= usize::MAX,
    ensures
        parse_spec(name_spec(q, b, t)) == Some((q as int, b as int, t as int)),
{
    lemma_decimal_spells(q);
    lemma_decimal_spells(b);
    lemma_decimal_spells(t);
    let a = seq![97u8];
    lemma_fields_of_plain(a, 95);
    lemma_fields_append(a, decimal(q), 95);
    lemma_fields_append(a + seq![95u8] + decimal(q), decimal(b), 95);
    lemma_fields_append(a + seq![95u8] + decimal(q) + seq![95u8] + decimal(b), decimal(t), 95);
    assert(name_spec(q, b, t) =~= a + seq![95u8] + decimal(q) + seq![95u8] + decimal(b) + seq![
        95u8,
    ] + decimal(t));
    lemma_number_round_trip(q, usize::MAX as int);
    lemma_number_round_trip(b, usize::MAX as int);
    lemma_number_round_trip(t, usize::MAX as int);
}

} // verus!
