//! The session manager's model of the client: a simulation of the client's
//! cache, and the decisions of the two loops that plan and send blocks.

use vstd::prelude::*;
use crate::arrays::CountArray;

pub mod manager;
pub mod scheduling;
pub mod sender;

verus! {

/// The number of slots of the cache that hold a block.
pub open spec fn occupied(cache: Seq<i32>) -> int
    decreases cache.len(),
{
    if cache.len() == 0 {
        0
    } else {
        occupied(cache.drop_last()) + if cache.last() >= 0 {
            1int
        } else {
            0int
        }
    }
}

/// The number of slots of the cache that hold a block of query `q`.
pub open spec fn occurrences(cache: Seq<i32>, q: int) -> int
    decreases cache.len(),
{
    if cache.len() == 0 {
        0
    } else {
        occurrences(cache.drop_last(), q) + if cache.last() == q {
            1int
        } else {
            0int
        }
    }
}

/// The sum of the counts.
pub open spec fn total(counts: Seq<usize>) -> int
    decreases counts.len(),
{
    if counts.len() == 0 {
        0
    } else {
        total(counts.drop_last()) + counts.last()
    }
}

/// The number of slots that hold a block of one of the first `n` queries.
pub open spec fn tally(cache: Seq<i32>, n: int) -> int
    decreases n,
{
    if n <= 0 {
        0
    } else {
        tally(cache, n - 1) + occurrences(cache, n - 1)
    }
}

/// A query occupies no more slots than the cache has, and none of an empty
/// cache.
pub proof fn lemma_occurrences_bounds(cache: Seq<i32>, q: int)
    ensures
        0 <= occurrences(cache, q) <= cache.len(),
    decreases cache.len(),
{
    if cache.len() > 0 {
        lemma_occurrences_bounds(cache.drop_last(), q);
    }
}

/// A slot that holds a block of `q` counts among its occurrences.
pub proof fn lemma_occurrences_positive(cache: Seq<i32>, q: int, i: int)
    requires
        0 <= i < cache.len(),
        cache[i] == q,
    ensures
        occurrences(cache, q) >= 1,
    decreases cache.len(),
{
    lemma_occurrences_bounds(cache.drop_last(), q);
    if i < cache.len() - 1 {
        lemma_occurrences_positive(cache.drop_last(), q, i);
    }
}

/// Writing `v` into slot `i` takes one occurrence from the query that was
/// there and gives one to `v`.
pub proof fn lemma_occurrences_update(cache: Seq<i32>, i: int, v: i32, q: int)
    requires
        0 <= i < cache.len(),
    ensures
        occurrences(cache.update(i, v), q) == occurrences(cache, q) - (if cache[i] == q {
            1int
        } else {
            0int
        }) + (if v == q {
            1int
        } else {
            0int
        }),
    decreases cache.len(),
{
    let after = cache.update(i, v);
    if i == cache.len() - 1 {
        assert(after.drop_last() =~= cache.drop_last());
    } else {
        assert(after.drop_last() =~= cache.drop_last().update(i, v));
        lemma_occurrences_update(cache.drop_last(), i, v, q);
    }
}

/// A cache of empty slots holds no block of any query.
pub proof fn lemma_occurrences_of_empty(cache: Seq<i32>, q: int)
    requires
        q >= 0,
        forall|i: int| 0 <= i < cache.len() ==> cache[i] == -1,
    ensures
        occurrences(cache, q) == 0,
    decreases cache.len(),
{
    if cache.len() > 0 {
        lemma_occurrences_of_empty(cache.drop_last(), q);
    }
}

/// One more slot adds one to the tally where it holds a block of one of the
/// first `n` queries.
proof fn lemma_tally_step(cache: Seq<i32>, n: int)
    requires
        cache.len() > 0,
        n >= 0,
    ensures
        tally(cache, n) == tally(cache.drop_last(), n) + if 0 <= cache.last() < n {
            1int
        } else {
            0int
        },
    decreases n,
{
    if n > 0 {
        lemma_tally_step(cache, n - 1);
    }
}

/// Where every slot is empty or holds a block of one of `n` queries, the
/// occurrences of those queries add up to the occupied slots.
pub proof fn lemma_tally_is_occupied(cache: Seq<i32>, n: int)
    requires
        n >= 0,
        forall|i: int| 0 <= i < cache.len() ==> -1 <= (#[trigger] cache[i]) && cache[i] < n,
    ensures
        tally(cache, n) == occupied(cache),
    decreases cache.len(),
{
    if cache.len() == 0 {
        lemma_tally_of_nothing(cache, n);
    } else {
        lemma_tally_step(cache, n);
        lemma_tally_is_occupied(cache.drop_last(), n);
    }
}

/// An empty cache has a tally of zero.
proof fn lemma_tally_of_nothing(cache: Seq<i32>, n: int)
    requires
        cache.len() == 0,
    ensures
        tally(cache, n) == 0,
    decreases n,
{
    if n > 0 {
        lemma_tally_of_nothing(cache, n - 1);
    }
}

/// Counts that equal the occurrences of each query add up to the tally.
proof fn lemma_total_is_tally(cache: Seq<i32>, counts: Seq<usize>)
    requires
        forall|q: int| 0 <= q < counts.len() ==> counts[q] == occurrences(cache, q),
    ensures
        total(counts) == tally(cache, counts.len() as int),
    decreases counts.len(),
{
    if counts.len() > 0 {
        let front = counts.drop_last();
        assert forall|q: int| 0 <= q < front.len() implies front[q] == occurrences(cache, q) by {
            assert(counts[q] == occurrences(cache, q));
        }
        lemma_total_is_tally(cache, front);
    }
}

/// A model of the client's cache: a ring of slots that is filled in order
/// and emptied when it is full.
#[derive(Clone, Debug)]
pub struct CacheSimulator {
    /// For each query, the number of its blocks in the cache.
    pub cache_per_query: CountArray,
    /// For each slot, the query whose block it holds, or -1 for none.
    pub cache: Vec<i32>,
    /// The number of slots.
    pub cachesize: usize,
    /// The slot that the next block goes to.
    pub head: usize,
}

impl CacheSimulator {
    /// The counts agree with the slots, and the head is a slot.
    pub open spec fn wf(&self) -> bool {
        &&& self.cache@.len() == self.cachesize
        &&& self.cachesize > 0 ==> self.head < self.cachesize
        &&& self.cachesize == 0 ==> self.head == 0
        &&& forall|i: int|
            0 <= i < self.cache@.len() ==> -1 <= (#[trigger] self.cache@[i]) && self.cache@[i]
                < self.cache_per_query@.len()
        &&& forall|q: int|
            0 <= q < self.cache_per_query@.len() ==> #[trigger] self.cache_per_query@[q]
                == occurrences(self.cache@, q)
    }

    /// The cache is empty: no slot holds a block, and the head is the first
    /// slot.
    pub open spec fn is_reset(&self) -> bool {
        &&& self.head == 0
        &&& forall|i: int| 0 <= i < self.cache@.len() ==> self.cache@[i] == -1
        &&& forall|q: int| 0 <= q < self.cache_per_query@.len() ==> self.cache_per_query@[q] == 0
    }

    /// An empty cache of `cachesize` slots for `total_queries` queries.
    pub fn new(cachesize: usize, total_queries: usize) -> (r: Self)
        requires
            total_queries <= isize::MAX,
        ensures
            r.wf(),
            r.is_reset(),
            r.cachesize == cachesize,
            r.cache_per_query@.len() == total_queries,
    {
        let cache: Vec<i32> = vec![-1; cachesize];
        let cache_per_query = CountArray::zeros(total_queries);
        let r = CacheSimulator { cachesize, cache, cache_per_query, head: 0 };
        proof {
            assert forall|q: int| 0 <= q < r.cache_per_query@.len() implies (
            #[trigger] r.cache_per_query@[q]) == occurrences(r.cache@, q) by {
                lemma_occurrences_of_empty(r.cache@, q);
            }
        }
        r
    }

    /// What the scheduler sees of the cache: the head, and for each query
    /// the number of its blocks in the cache.
    pub fn get_state(&self) -> (r: (usize, CountArray))
        ensures
            r.0 == self.head,
            r.1@ == self.cache_per_query@,
    {
        (self.head, self.cache_per_query.clone())
    }

    /// The number of blocks of `qid` in the cache; zero for a query that the
    /// cache does not know.
    pub fn get(&self, qid: usize) -> (r: usize)
        ensures
            r == (if qid < self.cache_per_query@.len() {
                self.cache_per_query@[qid as int]
            } else {
                0usize
            }),
            self.wf() && qid < self.cache_per_query@.len() ==> r == occurrences(
                self.cache@,
                qid as int,
            ),
    {
        match self.cache_per_query.get(qid) {
            Some(count) => count,
            None => 0,
        }
    }

    /// Empties the cache.
    pub fn reset(&mut self)
        ensures
            final(self).wf(),
            final(self).is_reset(),
            final(self).cachesize == old(self).cachesize,
            final(self).cache_per_query@.len() == old(self).cache_per_query@.len(),
    {
        self.head = 0;
        self.cache = vec![-1; self.cachesize];
        self.cache_per_query.fill(0);
        proof {
            assert forall|q: int| 0 <= q < self.cache_per_query@.len() implies (
            #[trigger] self.cache_per_query@[q]) == occurrences(self.cache@, q) by {
                lemma_occurrences_of_empty(self.cache@, q);
            }
        }
    }

    /// Records that a block of `qid` was sent: the block takes the slot at
    /// the head, in place of what was there, and the head moves on. When the
    /// head passes the last slot the cache is emptied, as the client's is.
    #[verifier::rlimit(50)]
    pub fn add(&mut self, qid: usize)
        requires
            old(self).wf(),
            old(self).cachesize > 0,
            qid < old(self).cache_per_query@.len(),
            qid <= i32::MAX,
        ensures
            final(self).wf(),
            final(self).cachesize == old(self).cachesize,
            final(self).cache_per_query@.len() == old(self).cache_per_query@.len(),
            old(self).head + 1 >= old(self).cachesize ==> final(self).is_reset(),
            old(self).head + 1 < old(self).cachesize ==> {
                &&& final(self).head == old(self).head + 1
                &&& final(self).cache@ == old(self).cache@.update(
                    old(self).head as int,
                    qid as i32,
                )
            },
    {
        let ghost before = self.cache@;
        let head: usize = self.head;
        let cur_qid: i32 = self.cache[head];
        if cur_qid >= 0 {
            let evicted: usize = cur_qid as usize;
            let count: usize = self.cache_per_query.at(evicted);
            proof {
                lemma_occurrences_positive(before, cur_qid as int, head as int);
            }
            self.cache_per_query.set(evicted, count - 1);
        }
        self.cache.set(head, -1);
        proof {
            assert forall|q: int| 0 <= q < self.cache_per_query@.len() implies (
            #[trigger] self.cache_per_query@[q]) == occurrences(self.cache@, q) by {
                lemma_occurrences_update(before, head as int, -1i32, q);
            }
            lemma_occurrences_bounds(self.cache@, qid as int);
            lemma_occurrences_update(self.cache@, head as int, qid as i32, qid as int);
            lemma_occurrences_bounds(self.cache@.update(head as int, qid as i32), qid as int);
        }
        let ghost vacated = self.cache@;
        self.cache.set(head, qid as i32);
        let count: usize = self.cache_per_query.at(qid);
        self.cache_per_query.set(qid, count + 1);
        proof {
            assert(self.cache@ =~= before.update(head as int, qid as i32));
            assert forall|q: int| 0 <= q < self.cache_per_query@.len() implies (
            #[trigger] self.cache_per_query@[q]) == occurrences(self.cache@, q) by {
                lemma_occurrences_update(vacated, head as int, qid as i32, q);
            }
        }
        if self.head + 1 >= self.cachesize {
            self.reset()
        } else {
            self.head += 1;
        }
    }
}

/// In a consistent cache the counts add up to the number of occupied slots.
pub proof fn lemma_counts_match_occupied(sim: CacheSimulator)
    requires
        sim.wf(),
    ensures
        total(sim.cache_per_query@) == occupied(sim.cache@),
        forall|q: int| 0 <= q < sim.cache_per_query@.len() ==> sim.cache_per_query@[q] >= 0,
{
    lemma_total_is_tally(sim.cache@, sim.cache_per_query@);
    lemma_tally_is_occupied(sim.cache@, sim.cache_per_query@.len() as int);
}

} // verus!
