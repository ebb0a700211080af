//! The probability model: what the client predicts of its user's next
//! queries, as a distribution over queries that varies with time.
//!
//! A model holds distributions at a few times ahead of now, the anchors.
//! Between two anchors the probability of each query is interpolated
//! linearly; away from every anchor a query has the uniform share. A point
//! overlay mixes the result with the certainty of one query.
//!
//! Probabilities are fixed-point integers with scale [`ONE`]; times are
//! milliseconds ahead of now.

use vstd::prelude::*;
use indexmap::IndexMap;
use std::collections::HashSet;
use std::time::Instant;
use crate::ds::instant_now;
use crate::fixed::{ONE, MAX_DELTA_MS, TAIL_MS};
use crate::maps::{
    dist_clone, dist_entries, dist_get, dist_items, distinct_keys, has_key, lookup,
};

verus! {

broadcast use vstd::std_specs::hash::group_hash_axioms;

/// The share of each of `n` queries under the uniform distribution.
pub open spec fn uniform_share(n: int) -> int {
    if n <= 0 {
        0
    } else {
        ONE as int / n
    }
}

/// The share of each of `n` queries in what explicit probabilities of total
/// `sum` leave of certainty. Nothing is left once `sum` reaches `ONE`.
pub open spec fn rest_share(sum: int, n: int) -> int {
    if n <= 0 || sum >= ONE {
        0
    } else {
        (ONE - sum) / n
    }
}

/// The sum of the values of the entries.
pub open spec fn values_sum(s: Seq<(usize, u64)>) -> int
    decreases s.len(),
{
    if s.len() == 0 {
        0
    } else {
        values_sum(s.drop_last()) + s.last().1
    }
}

/// Every value among the entries is a probability.
pub open spec fn values_bounded(s: Seq<(usize, u64)>) -> bool {
    forall|i: int| 0 <= i < s.len() ==> (#[trigger] s[i]).1 <= ONE
}

/// The anchors are in strictly increasing order.
pub open spec fn increasing(anchors: Seq<usize>) -> bool {
    forall|i: int, j: int| 0 <= i < j < anchors.len() ==> anchors[i] < anchors[j]
}

/// The number of anchors at or before `delta`.
pub open spec fn rank(anchors: Seq<usize>, delta: int) -> int
    decreases anchors.len(),
{
    if anchors.len() == 0 {
        0
    } else {
        rank(anchors.drop_last(), delta) + if anchors.last() <= delta {
            1int
        } else {
            0int
        }
    }
}

/// The latest anchor at or before `delta`; `delta` itself where there is none.
pub open spec fn lower_bound(anchors: Seq<usize>, delta: int) -> int {
    let r = rank(anchors, delta);
    if r > 0 {
        anchors[r - 1] as int
    } else {
        delta
    }
}

/// The earliest anchor after `delta`; `delta + 1` where there is none.
pub open spec fn upper_bound(anchors: Seq<usize>, delta: int) -> int {
    let r = rank(anchors, delta);
    if r < anchors.len() {
        anchors[r] as int
    } else {
        delta + 1
    }
}

/// There are anchors, and `delta` is at or after the last of them.
pub open spec fn past_last(anchors: Seq<usize>, delta: int) -> bool {
    anchors.len() > 0 && rank(anchors, delta) == anchors.len()
}

/// The area between `i` and `j` under the line that is `p0` at `low` and
/// `pm` at `up`: a trapezoid, rounded down. It is zero unless
/// `low <= i < j <= up`.
pub open spec fn trapezoid_spec(p0: int, pm: int, low: int, up: int, i: int, j: int) -> int {
    if i >= j || low > i || j > up {
        0
    } else {
        ((j - i) * (p0 * (2 * up - i - j) + pm * (i + j - 2 * low))) / (2 * (up - low))
    }
}

/// `delta` is one of the anchors.
pub open spec fn is_anchor(anchors: Seq<usize>, delta: int) -> bool {
    let r = rank(anchors, delta);
    r > 0 && anchors[r - 1] == delta
}

/// The rank lies between zero and the number of anchors.
pub proof fn lemma_rank_bounds(anchors: Seq<usize>, delta: int)
    ensures
        0 <= rank(anchors, delta) <= anchors.len(),
    decreases anchors.len(),
{
    if anchors.len() > 0 {
        lemma_rank_bounds(anchors.drop_last(), delta);
    }
}

/// In increasing anchors, a place `r` with every anchor before it at or
/// before `delta` and every anchor from it on after `delta` is the rank.
pub proof fn lemma_rank_is(anchors: Seq<usize>, delta: int, r: int)
    requires
        increasing(anchors),
        0 <= r <= anchors.len(),
        forall|i: int| 0 <= i < r ==> anchors[i] <= delta,
        forall|i: int| r <= i < anchors.len() ==> anchors[i] > delta,
    ensures
        rank(anchors, delta) == r,
    decreases anchors.len(),
{
    if anchors.len() > 0 {
        let front = anchors.drop_last();
        assert(increasing(front)) by {
            assert forall|i: int, j: int| 0 <= i < j < front.len() implies front[i] < front[j] by {
                assert(anchors[i] < anchors[j]);
            }
        }
        if r == anchors.len() {
            assert forall|i: int| 0 <= i < r - 1 implies front[i] <= delta by {
                assert(anchors[i] <= delta);
            }
            lemma_rank_is(front, delta, r - 1);
        } else {
            assert forall|i: int| 0 <= i < r implies front[i] <= delta by {
                assert(anchors[i] <= delta);
            }
            assert forall|i: int| r <= i < front.len() implies front[i] > delta by {
                assert(anchors[i] > delta);
            }
            lemma_rank_is(front, delta, r);
        }
    }
}

/// In increasing anchors, the rank splits them into those at or before
/// `delta` and those after it.
pub proof fn lemma_rank_splits(anchors: Seq<usize>, delta: int)
    requires
        increasing(anchors),
    ensures
        0 <= rank(anchors, delta) <= anchors.len(),
        forall|i: int| 0 <= i < rank(anchors, delta) ==> anchors[i] <= delta,
        forall|i: int| rank(anchors, delta) <= i < anchors.len() ==> anchors[i] > delta,
    decreases anchors.len(),
{
    lemma_rank_bounds(anchors, delta);
    if anchors.len() > 0 {
        let front = anchors.drop_last();
        let n = anchors.len() as int;
        assert(increasing(front)) by {
            assert forall|i: int, j: int| 0 <= i < j < front.len() implies front[i] < front[j] by {
                assert(anchors[i] < anchors[j]);
            }
        }
        lemma_rank_splits(front, delta);
        let rf = rank(front, delta);
        if anchors.last() <= delta {
            // every earlier anchor is smaller still, so the front is all counted
            if rf < n - 1 {
                assert(front[rf] > delta);
                assert(anchors[rf] < anchors[n - 1]);
                assert(false);
            }
            assert forall|i: int| 0 <= i < rank(anchors, delta) implies anchors[i] <= delta by {
                if i < n - 1 {
                    assert(front[i] <= delta);
                }
            }
        } else {
            assert forall|i: int| 0 <= i < rank(anchors, delta) implies anchors[i] <= delta by {
                assert(front[i] <= delta);
            }
            assert forall|i: int| rank(anchors, delta) <= i < anchors.len() implies anchors[i]
                > delta by {
                if i < n - 1 {
                    assert(front[i] > delta);
                }
            }
        }
    }
}

/// The lower bound is at or before `delta`, the upper bound after it.
pub proof fn lemma_bounds_enclose(anchors: Seq<usize>, delta: int)
    requires
        increasing(anchors),
    ensures
        lower_bound(anchors, delta) <= delta < upper_bound(anchors, delta),
{
    lemma_rank_splits(anchors, delta);
}

/// The keys of the entries, as a set.
pub open spec fn key_set(s: Seq<(usize, u64)>) -> Set<usize> {
    Set::new(|k: usize| has_key(s, k))
}

/// One more entry adds its key to the set of keys.
pub proof fn lemma_key_set_step(s: Seq<(usize, u64)>, i: int)
    requires
        0 <= i < s.len(),
    ensures
        key_set(s.take(i + 1)) == key_set(s.take(i)).insert(s[i].0),
{
    let small = s.take(i);
    let large = s.take(i + 1);
    assert forall|k: usize| key_set(large).contains(k) <==> key_set(small).insert(
        s[i].0,
    ).contains(k) by {
        if has_key(large, k) {
            let e = choose|e: int| 0 <= e < large.len() && (#[trigger] large[e]).0 == k;
            if e < i {
                assert(small[e].0 == k);
            }
        }
        if has_key(small, k) {
            let e = choose|e: int| 0 <= e < small.len() && (#[trigger] small[e]).0 == k;
            assert(large[e].0 == k);
        }
        if k == s[i].0 {
            assert(large[i].0 == k);
        }
    }
    assert(key_set(large) =~= key_set(small).insert(s[i].0));
}

/// Adds the key of every entry of `items` to `queries`.
fn insert_keys(queries: &mut HashSet<usize>, items: &Vec<(usize, u64)>)
    ensures
        final(queries)@ == old(queries)@.union(key_set(items@)),
{
    let ghost before = queries@;
    let mut i: usize = 0;
    proof {
        assert(key_set(items@.take(0)) =~= Set::<usize>::empty());
        assert(before.union(Set::<usize>::empty()) =~= before);
    }
    while i < items.len()
        invariant
            i <= items.len(),
            queries@ == before.union(key_set(items@.take(i as int))),
        decreases items.len() - i,
    {
        let key: usize = items[i].0;
        queries.insert(key);
        proof {
            lemma_key_set_step(items@, i as int);
            assert(before.union(key_set(items@.take(i as int))).insert(key) =~= before.union(
                key_set(items@.take(i + 1)),
            ));
        }
        i += 1;
    }
    proof {
        assert(items@.take(items@.len() as int) =~= items@);
    }
}

/// The sum of the values of `items`.
fn sum_values(items: &Vec<(usize, u64)>) -> (sum: u128)
    ensures
        sum == values_sum(items@),
{
    let n: usize = items.len();
    let mut sum: u128 = 0;
    let mut i: usize = 0;
    while i < n
        invariant
            n == items@.len(),
            i <= n,
            sum == values_sum(items@.take(i as int)),
            sum <= i * u64::MAX,
        decreases n - i,
    {
        proof {
            assert(items@.take(i + 1).drop_last() =~= items@.take(i as int));
            assert((i + 1) * u64::MAX == i * u64::MAX + u64::MAX) by (nonlinear_arith);
            assert(i * u64::MAX <= 0xFFFF_FFFF_FFFF_FFFF * 0xFFFF_FFFF_FFFF_FFFF) by (nonlinear_arith)
                requires
                    i <= 0xFFFF_FFFF_FFFF_FFFF,
                    u64::MAX == 0xFFFF_FFFF_FFFF_FFFF,
            ;
        }
        sum = sum + items[i].1 as u128;
        i += 1;
    }
    proof {
        assert(items@.take(n as int) =~= items@);
    }
    sum
}

/// The share of each of `total_queries` queries in what explicit
/// probabilities of total `sum` leave of certainty.
fn rest_for(sum: u128, total_queries: usize) -> (rest: u64)
    ensures
        rest == rest_share(sum as int, total_queries as int),
        rest <= ONE,
{
    if total_queries == 0 || sum >= ONE as u128 {
        0
    } else {
        proof {
            vstd::arithmetic::div_mod::lemma_div_is_ordered_by_denominator(
                ONE - sum,
                1,
                total_queries as int,
            );
            crate::fixed::lemma_div_is_monotone(0, ONE - sum, total_queries as int);
        }
        ((ONE as u128 - sum) / (total_queries as u128)) as u64
    }
}

/// A time that is no anchor, inserted at its rank, keeps the anchors in
/// increasing order and becomes the anchor at that rank.
pub proof fn lemma_insert_at_rank(anchors: Seq<usize>, delta: usize)
    requires
        increasing(anchors),
        !is_anchor(anchors, delta as int),
    ensures
        0 <= rank(anchors, delta as int) <= anchors.len(),
        increasing(anchors.insert(rank(anchors, delta as int), delta)),
        rank(anchors.insert(rank(anchors, delta as int), delta), delta as int) == rank(
            anchors,
            delta as int,
        ) + 1,
        is_anchor(anchors.insert(rank(anchors, delta as int), delta), delta as int),
{
    lemma_rank_splits(anchors, delta as int);
    let k = rank(anchors, delta as int);
    let grown = anchors.insert(k, delta);
    assert forall|a: int, b: int| 0 <= a < b < grown.len() implies grown[a] < grown[b] by {
        if b < k {
            assert(anchors[a] < anchors[b]);
        } else if b == k {
            assert(anchors[a] <= delta);
            if a == k - 1 {
                assert(anchors[a] != delta);
            } else {
                assert(anchors[a] < anchors[k - 1]);
            }
        } else if a < k {
            assert(anchors[b - 1] > delta);
            assert(anchors[a] <= delta);
        } else if a == k {
            assert(anchors[b - 1] > delta);
        } else {
            assert(anchors[a - 1] < anchors[b - 1]);
        }
    }
    assert forall|a: int| 0 <= a < k + 1 implies grown[a] <= delta by {
        if a < k {
            assert(anchors[a] <= delta);
        }
    }
    assert forall|a: int| k + 1 <= a < grown.len() implies grown[a] > delta by {
        assert(anchors[a - 1] > delta);
    }
    lemma_rank_is(grown, delta as int, k + 1);
}

/// The certainty of one query, mixed into the anchored distribution.
#[derive(Clone, Copy, Debug)]
pub struct PointDist {
    /// Weight of the anchored distribution in the mix, between 0 and `ONE`.
    pub alpha: u64,
    /// The query that the rest of the weight goes to.
    pub q_index: usize,
}

impl PointDist {
    /// The point distribution: `ONE` at its query, zero elsewhere.
    pub open spec fn point(&self, key: usize) -> int {
        if key == self.q_index {
            ONE as int
        } else {
            0
        }
    }

    /// The probability of `p` mixed with the point distribution at `key`.
    pub open spec fn mix(&self, key: usize, p: int) -> int {
        (self.alpha * p + (ONE - self.alpha) * self.point(key)) / (ONE as int)
    }

    /// The probability of `key` under the point distribution.
    pub fn get_prob(&self, key: usize) -> (r: u64)
        ensures
            r == self.point(key),
    {
        if key == self.q_index {
            ONE
        } else {
            0
        }
    }
}

/// Mixing probabilities yields a probability.
pub proof fn lemma_mix_bounded(pd: PointDist, key: usize, p: int)
    requires
        pd.alpha <= ONE,
        0 <= p <= ONE,
    ensures
        0 <= pd.mix(key, p) <= ONE,
{
    let a = pd.alpha as int;
    let one = ONE as int;
    let x = a * p + (one - a) * pd.point(key);
    assert(0 <= x <= one * one) by (nonlinear_arith)
        requires
            0 <= a <= one,
            0 <= p <= one,
            0 <= pd.point(key) <= one,
            x == a * p + (one - a) * pd.point(key),
    ;
    crate::fixed::lemma_div_is_monotone(0, x, one);
    crate::fixed::lemma_div_is_monotone(x, one * one, one);
    vstd::arithmetic::div_mod::lemma_div_multiples_vanish(one, one);
}

/// The distribution at one anchor: explicit probabilities for some queries
/// and one share for each of the others.
#[derive(Debug)]
pub struct ProbInstance {
    /// Share of every query that `dist` does not list.
    rest_dist: u64,
    /// Explicit probabilities, by query index.
    dist: IndexMap<usize, u64>,
}

impl ProbInstance {
    /// The explicit probabilities, as entries of query index and value.
    pub closed spec fn entries(&self) -> Seq<(usize, u64)> {
        dist_entries(self.dist)
    }

    /// The share of a query that has no explicit probability.
    pub closed spec fn rest(&self) -> u64 {
        self.rest_dist
    }

    /// The probability of `key`: its explicit value, or the rest share.
    pub open spec fn prob(&self, key: usize) -> int {
        match lookup(self.entries(), key) {
            Some(v) => v as int,
            None => self.rest() as int,
        }
    }

    /// The queries with an explicit probability.
    pub open spec fn keys(&self) -> Set<usize> {
        key_set(self.entries())
    }

    /// The instance lists each query once and holds probabilities only.
    pub open spec fn wf(&self) -> bool {
        &&& distinct_keys(self.entries())
        &&& values_bounded(self.entries())
        &&& self.rest() <= ONE
    }

    /// The probability of `key` at this anchor.
    pub fn get(&self, key: usize) -> (r: u64)
        ensures
            r == self.prob(key),
    {
        match dist_get(&self.dist, key) {
            Some(value) => value,
            None => self.rest_dist,
        }
    }

    /// The queries with an explicit probability at this anchor.
    pub fn get_k(&self) -> (r: HashSet<usize>)
        ensures
            r@ == self.keys(),
    {
        let items = dist_items(&self.dist);
        let mut queries: HashSet<usize> = HashSet::new();
        insert_keys(&mut queries, &items);
        assert(queries@ =~= self.keys());
        queries
    }
}

impl Clone for ProbInstance {
    /// A copy with the same explicit probabilities and the same rest share.
    fn clone(&self) -> (r: Self)
        ensures
            r.entries() == self.entries(),
            r.rest() == self.rest(),
    {
        ProbInstance { rest_dist: self.rest_dist, dist: dist_clone(&self.dist) }
    }
}

/// A model of the probability of each query at each time ahead of now.
#[derive(Debug)]
pub struct Prob {
    /// Number of queries the application supports.
    total_queries: usize,
    /// The distribution at each anchor, in the order of `deltas_ms`.
    probs_t: Vec<ProbInstance>,
    /// The anchors, in milliseconds ahead of now, strictly increasing.
    deltas_ms: Vec<usize>,
    /// The uniform share, used where no anchor stands.
    inf: u64,
    /// The point overlay.
    point_dist: PointDist,
    /// When the model was made: the instant its times are counted from.
    pub time: Instant,
}

/// The area between `i` and `j` under the line that is `first` at `low` and
/// `last` at `up`. Where the line falls, the window is mirrored within
/// `[low, up]` and the line taken to rise: the area is the same.
#[verifier::rlimit(50)]
pub fn trapezoid(first: u64, last: u64, low: usize, up: usize, i: usize, j: usize) -> (r: u64)
    requires
        first <= ONE,
        last <= ONE,
        up <= MAX_DELTA_MS || j <= MAX_DELTA_MS,
    ensures
        r == trapezoid_spec(first as int, last as int, low as int, up as int, i as int, j as int),
        i < j ==> r <= ONE * (j - i),
        i >= j ==> r == 0,
{
    if i >= j || low > i || j > up {
        return 0;
    }
    let mut p0: u64 = first;
    let mut pm: u64 = last;
    let mut from: usize = i;
    let mut to: usize = j;
    if p0 > pm {
        let temp: u64 = pm;
        pm = p0;
        p0 = temp;
        let temp: usize = to;
        to = up - (from - low);
        from = up - (temp - low);
    }
    let span: u128 = (up - low) as u128;
    let base: u128 = (to - from) as u128;
    let lift: u128 = (pm - p0) as u128;
    let reach: u128 = (from - low) as u128 + (to - low) as u128;
    proof {
        assert(reach <= 2 * span);
        assert(2 * (p0 as u128) * span <= 2 * ONE * span) by (nonlinear_arith)
            requires
                p0 <= ONE,
        ;
        assert(lift * reach <= (ONE - p0) * (2 * span)) by (nonlinear_arith)
            requires
                lift <= ONE - p0,
                reach <= 2 * span,
                p0 <= ONE,
        ;
        assert(2 * (p0 as u128) * span + (ONE - p0) * (2 * span) == 2 * ONE * span)
            by (nonlinear_arith);
        assert(2 * ONE * span <= 2 * 0x4000_0000 * 0x1_0000_0000_0000_0000)
            by (nonlinear_arith)
            requires
                span <= 0x1_0000_0000_0000_0000,
                ONE <= 0x4000_0000,
        ;
    }
    let twice_mid: u128 = 2 * (p0 as u128) * span + lift * reach;
    proof {
        assert(base * twice_mid <= base * (2 * ONE * span)) by (nonlinear_arith)
            requires
                twice_mid <= 2 * ONE * span,
        ;
        assert(base * (2 * ONE * span) <= 0x1_0000_0000 * (2 * 0x4000_0000
            * 0x1_0000_0000_0000_0000)) by (nonlinear_arith)
            requires
                base <= 0x1_0000_0000,
                2 * ONE * span <= 2 * 0x4000_0000 * 0x1_0000_0000_0000_0000,
        ;
        // the same area, written over the readings as they stand
        assert(base * twice_mid == (j - i) * (first * (2 * up - i - j) + last * (i + j - 2
            * low))) by (nonlinear_arith)
            requires
                base == to - from,
                twice_mid == 2 * p0 * span + lift * reach,
                span == up - low,
                lift == pm - p0,
                reach == (from - low) + (to - low),
                (p0 == first && pm == last && from == i && to == j) || (p0 == last && pm
                    == first && to == up - (i - low) && from == up - (j - low)),
        ;
        assert(base * (2 * ONE * span) == (ONE * (j - i)) * (2 * span)) by (nonlinear_arith)
            requires
                base == j - i,
        ;
        crate::fixed::lemma_div_is_monotone(
            (base * twice_mid) as int,
            (ONE * (j - i)) * (2 * span),
            (2 * span) as int,
        );
        vstd::arithmetic::div_mod::lemma_div_multiples_vanish(
            ONE * (j - i),
            (2 * span) as int,
        );
        assert((ONE * (j - i)) * (2 * span) == (2 * span) * (ONE * (j - i)))
            by (nonlinear_arith);
        assert(ONE * (j - i) <= 0x4000_0000 * 0x1_0000_0000) by (nonlinear_arith)
            requires
                j - i <= 0x1_0000_0000,
                ONE <= 0x4000_0000,
                j - i >= 0,
        ;
    }
    let p: u128 = (base * twice_mid) / (2 * span);
    p as u64
}

impl Prob {
    /// The number of queries.
    pub closed spec fn total(&self) -> int {
        self.total_queries as int
    }

    /// The anchors, in increasing order.
    pub closed spec fn anchors(&self) -> Seq<usize> {
        self.deltas_ms@
    }

    /// The distribution installed at each anchor, in the order of the anchors.
    pub closed spec fn instances(&self) -> Seq<ProbInstance> {
        self.probs_t@
    }

    /// The share that a query has where no anchor stands.
    pub closed spec fn uniform(&self) -> int {
        self.inf as int
    }

    /// The point overlay.
    pub closed spec fn overlay(&self) -> PointDist {
        self.point_dist
    }

    /// The instant at which the model was made.
    pub closed spec fn made_at(&self) -> Instant {
        self.time
    }

    /// The model is consistent: one valid distribution per anchor, anchors
    /// in increasing order, and weights that are probabilities.
    pub open spec fn wf(&self) -> bool {
        &&& self.anchors().len() == self.instances().len()
        &&& increasing(self.anchors())
        &&& forall|a: int| 0 <= a < self.instances().len() ==> (#[trigger] self.instances()[a]).wf()
        &&& forall|a: int|
            0 <= a < self.instances().len() ==> (#[trigger] self.instances()[a]).rest()
                == rest_share(values_sum(self.instances()[a].entries()), self.total())
        &&& self.uniform() == uniform_share(self.total())
        &&& self.overlay().alpha <= ONE
    }

    /// The probability of `key` at `delta` before the overlay: that of the
    /// distribution installed there, or the uniform share where `delta` is
    /// no anchor.
    pub open spec fn anchored(&self, key: usize, delta: int) -> int {
        if is_anchor(self.anchors(), delta) {
            self.instances()[rank(self.anchors(), delta) - 1].prob(key)
        } else {
            self.uniform()
        }
    }

    /// The probability of `key` read at `delta`, overlay included.
    pub open spec fn probs_at(&self, key: usize, delta: int) -> int {
        self.overlay().mix(key, self.anchored(key, delta))
    }

    /// The probability of `key` at `delta`. Between two anchors it is the
    /// readings at both, weighted by how near each is. From the last anchor
    /// on it stays at that anchor's reading. Before the first anchor, and
    /// in a model without anchors, it is the reading at `delta` itself: the
    /// uniform share.
    pub open spec fn get_spec(&self, key: usize, delta: int) -> int {
        let low = lower_bound(self.anchors(), delta);
        let up = upper_bound(self.anchors(), delta);
        if past_last(self.anchors(), delta) {
            self.probs_at(key, low)
        } else {
            (self.probs_at(key, low) * (up - delta) + self.probs_at(key, up) * (delta - low)) / (up
                - low)
        }
    }

    /// The queries with an explicit probability at some anchor, and the
    /// query of the point overlay.
    pub open spec fn explicit_queries(&self) -> Set<usize> {
        Set::new(
            |k: usize|
                k == self.overlay().q_index || exists|a: int|
                    0 <= a < self.instances().len() && has_key(
                        (#[trigger] self.instances()[a]).entries(),
                        k,
                    ),
        )
    }

    /// The area under the line from the reading at `low` to the reading at
    /// `up`, between `i` and `j`: a trapezoid, in probability units times
    /// milliseconds, rounded down. It is zero unless `low <= i < j <= up`.
    pub open spec fn area_spec(&self, key: usize, low: int, up: int, i: int, j: int) -> int {
        trapezoid_spec(self.probs_at(key, low), self.probs_at(key, up), low, up, i, j)
    }

    /// The area between `i` and `delta_m` where no anchor follows `low`:
    /// the reading at `low` is carried on unchanged to a last point
    /// `TAIL_MS` past `delta_m`, which makes the area that reading times the
    /// length of the window.
    pub open spec fn tail_spec(&self, key: usize, low: int, i: int, delta_m: int) -> int {
        trapezoid_spec(
            self.probs_at(key, low),
            self.probs_at(key, low),
            low,
            delta_m + TAIL_MS,
            i,
            delta_m,
        )
    }

    /// The areas from `low` on, walking the anchors from place `k`: one
    /// trapezoid up to each anchor at or before `delta_m`, starting no
    /// earlier than `delta_0`; then the part before `delta_m` of the
    /// trapezoid up to the next anchor, or the tail where no anchor follows.
    pub open spec fn walk(&self, key: usize, delta_0: int, delta_m: int, low: int, k: int) -> int
        decreases self.anchors().len() - k,
    {
        let from = if delta_0 >= low {
            delta_0
        } else {
            low
        };
        if 0 <= k < self.anchors().len() {
            let up = self.anchors()[k] as int;
            if up <= delta_m {
                self.area_spec(key, low, up, from, up) + self.walk(
                    key,
                    delta_0,
                    delta_m,
                    up,
                    k + 1,
                )
            } else {
                self.area_spec(key, low, up, from, delta_m)
            }
        } else {
            self.tail_spec(key, low, from, delta_m)
        }
    }

    /// The probability of `key` summed over the milliseconds from `delta_0`
    /// to `delta_m`, the distribution taken as piecewise linear between the
    /// anchors; `low` is where the first piece starts.
    pub open spec fn integrate_spec(&self, key: usize, delta_0: int, delta_m: int, low: int) -> int {
        if delta_0 >= delta_m {
            0
        } else {
            self.walk(key, delta_0, delta_m, low, rank(self.anchors(), delta_0))
        }
    }

    /// `after` is `before` with the distribution of `entries` installed at
    /// `delta`: in place of the one that was there, or as a new anchor.
    pub open spec fn installed(
        before: &Prob,
        after: &Prob,
        entries: Seq<(usize, u64)>,
        delta: int,
    ) -> bool {
        let r = rank(before.anchors(), delta);
        let place = if is_anchor(before.anchors(), delta) {
            r - 1
        } else {
            r
        };
        &&& after.total() == before.total()
        &&& after.uniform() == before.uniform()
        &&& after.overlay() == before.overlay()
        &&& after.anchors().len() == after.instances().len()
        &&& 0 <= place < after.anchors().len()
        &&& after.anchors()[place] == delta
        &&& after.instances()[place].entries() == entries
        &&& after.instances()[place].rest() == rest_share(values_sum(entries), before.total())
        &&& is_anchor(after.anchors(), delta)
        &&& rank(after.anchors(), delta) == place + 1
        &&& if is_anchor(before.anchors(), delta) {
            &&& after.anchors() == before.anchors()
            &&& forall|a: int|
                0 <= a < before.instances().len() && a != place ==> after.instances()[a]
                    == before.instances()[a]
        } else {
            &&& after.anchors() == before.anchors().insert(place, delta as usize)
            &&& forall|a: int|
                0 <= a < place ==> after.instances()[a] == before.instances()[a]
            &&& forall|a: int|
                place <= a < before.instances().len() ==> after.instances()[a + 1]
                    == before.instances()[a]
        }
    }

    /// A model for `total_queries` queries without anchors: every query has
    /// the uniform share at every time, and the overlay is switched off.
    pub fn new(total_queries: usize) -> (r: Self)
        ensures
            r.wf(),
            r.total() == total_queries,
            r.anchors().len() == 0,
            r.overlay().alpha == ONE,
            r.overlay().q_index == 0,
    {
        let inf: u64 = if total_queries == 0 {
            0
        } else {
            ONE / (total_queries as u64)
        };
        Prob {
            total_queries,
            probs_t: Vec::new(),
            deltas_ms: Vec::new(),
            inf,
            point_dist: PointDist { alpha: ONE, q_index: 0 },
            time: instant_now(),
        }
    }

    /// Installs the point overlay: the anchored distribution keeps the
    /// weight `alpha`, the query `index` gets the rest.
    pub fn set_point_dist(&mut self, alpha: u64, index: usize)
        requires
            old(self).wf(),
            alpha <= ONE,
        ensures
            final(self).wf(),
            final(self).overlay().alpha == alpha,
            final(self).overlay().q_index == index,
            final(self).total() == old(self).total(),
            final(self).anchors() == old(self).anchors(),
            final(self).instances() == old(self).instances(),
    {
        self.point_dist.alpha = alpha;
        self.point_dist.q_index = index;
    }

    /// The number of anchors at or before `delta`.
    fn rank_of(&self, delta: usize) -> (r: usize)
        requires
            self.wf(),
        ensures
            r == rank(self.anchors(), delta as int),
            r <= self.anchors().len(),
    {
        let n: usize = self.deltas_ms.len();
        let mut r: usize = 0;
        while r < n && self.deltas_ms[r] <= delta
            invariant
                n == self.deltas_ms@.len(),
                r <= n,
                forall|i: int| 0 <= i < r ==> self.deltas_ms@[i] <= delta,
            decreases n - r,
        {
            r += 1;
        }
        proof {
            assert forall|i: int| r <= i < n implies self.deltas_ms@[i] > delta by {
                if r < i {
                    assert(self.deltas_ms@[r as int] < self.deltas_ms@[i]);
                }
            }
            lemma_rank_is(self.anchors(), delta as int, r as int);
        }
        r
    }

    /// The probability of `p` mixed with the point overlay at `key`.
    pub fn get_linear_prob(&self, key: usize, p: u64) -> (r: u64)
        requires
            self.wf(),
            p <= ONE,
        ensures
            r == self.overlay().mix(key, p as int),
            r <= ONE,
    {
        let alpha: u128 = self.point_dist.alpha as u128;
        let one: u128 = ONE as u128;
        let point: u128 = self.point_dist.get_prob(key) as u128;
        proof {
            lemma_mix_bounded(self.point_dist, key, p as int);
            assert(alpha * (p as u128) <= one * one) by (nonlinear_arith)
                requires
                    alpha <= one,
                    p <= one,
            ;
            assert((one - alpha) * point <= one * one) by (nonlinear_arith)
                requires
                    alpha <= one,
                    point <= one,
            ;
        }
        let mixed: u128 = (alpha * (p as u128) + (one - alpha) * point) / one;
        mixed as u64
    }

    /// The probability of `key` read at `delta`: from the distribution
    /// installed there, or the uniform share where `delta` is no anchor, and
    /// then mixed with the point overlay.
    pub fn get_probs_at(&self, key: usize, delta: usize) -> (r: u64)
        requires
            self.wf(),
        ensures
            r == self.probs_at(key, delta as int),
            r <= ONE,
    {
        let r: usize = self.rank_of(delta);
        let p: u64 = if r > 0 && self.deltas_ms[r - 1] == delta {
            self.probs_t[r - 1].get(key)
        } else {
            self.inf
        };
        proof {
            self.lemma_anchored_bounded(key, delta as int);
        }
        self.get_linear_prob(key, p)
    }

    /// The number of queries is a machine word.
    pub proof fn lemma_total_fits(&self)
        ensures
            0 <= self.total() <= usize::MAX,
    {
    }

    /// What is read at an anchor or away from one is a probability.
    pub proof fn lemma_anchored_bounded(&self, key: usize, delta: int)
        requires
            self.wf(),
        ensures
            0 <= self.anchored(key, delta) <= ONE,
            0 <= self.probs_at(key, delta) <= ONE,
    {
        lemma_rank_bounds(self.anchors(), delta);
        if is_anchor(self.anchors(), delta) {
            let inst = self.instances()[rank(self.anchors(), delta) - 1];
            assert(inst.wf());
            if has_key(inst.entries(), key) {
                let i = crate::maps::key_index(inst.entries(), key);
                assert(inst.entries()[i].1 <= ONE);
            }
        } else {
            if self.total() > 0 {
                crate::fixed::lemma_div_is_monotone(0, ONE as int, self.total());
                vstd::arithmetic::div_mod::lemma_div_is_ordered_by_denominator(
                    ONE as int,
                    1,
                    self.total(),
                );
            }
        }
        lemma_mix_bounded(self.overlay(), key, self.anchored(key, delta));
    }

    /// The latest anchor at or before `delta_0`; `delta_0` itself where
    /// there is none.
    pub fn get_lower_bound(&self, delta_0: usize) -> (low: usize)
        requires
            self.wf(),
        ensures
            low == lower_bound(self.anchors(), delta_0 as int),
            low <= delta_0,
    {
        let k: usize = self.rank_of(delta_0);
        proof {
            lemma_rank_splits(self.anchors(), delta_0 as int);
        }
        if k > 0 {
            self.deltas_ms[k - 1]
        } else {
            delta_0
        }
    }

    /// The probability of `key` at `delta` milliseconds ahead: interpolated
    /// between the anchors on either side of `delta`, held at the last
    /// anchor's reading from that anchor on, and the uniform share before
    /// the first anchor.
    #[verifier::rlimit(50)]
    pub fn get(&self, key: usize, delta: usize) -> (r: u64)
        requires
            self.wf(),
        ensures
            r == self.get_spec(key, delta as int),
            r <= ONE,
            self.anchors().len() == 0 ==> r == self.overlay().mix(key, self.uniform()),
            past_last(self.anchors(), delta as int) ==> r == self.probs_at(
                key,
                self.anchors().last() as int,
            ),
    {
        let k: usize = self.rank_of(delta);
        let n: usize = self.deltas_ms.len();
        proof {
            lemma_rank_splits(self.anchors(), delta as int);
        }
        if k == n {
            if n == 0 {
                // without anchors the model reads the uniform share everywhere
                let p: u64 = self.get_probs_at(key, delta);
                proof {
                    assert(!is_anchor(self.anchors(), delta as int));
                    assert(self.anchored(key, delta as int) == self.uniform());
                    let here = self.probs_at(key, delta as int);
                    let next = self.probs_at(key, delta + 1);
                    assert(here * 1 + next * 0 == here) by (nonlinear_arith);
                    assert(here / 1 == here);
                }
                return p;
            }
            let last: usize = self.deltas_ms[n - 1];
            return self.get_probs_at(key, last);
        }
        let low: usize = if k > 0 {
            self.deltas_ms[k - 1]
        } else {
            delta
        };
        let up: usize = self.deltas_ms[k];
        let p0: u128 = self.get_probs_at(key, low) as u128;
        let p1: u128 = self.get_probs_at(key, up) as u128;
        let left: u128 = (up - delta) as u128;
        let right: u128 = (delta - low) as u128;
        let span: u128 = (up - low) as u128;
        proof {
            assert(p0 * left + p1 * right <= (ONE as u128) * span) by (nonlinear_arith)
                requires
                    p0 <= ONE,
                    p1 <= ONE,
                    left + right == span,
            ;
            assert((ONE as u128) * span <= 0x4000_0000 * 0x1_0000_0000_0000_0000) by (nonlinear_arith)
                requires
                    span <= 0x1_0000_0000_0000_0000,
                    ONE <= 0x4000_0000,
            ;
            assert(p0 * left <= p0 * left + p1 * right) by (nonlinear_arith)
                requires
                    p1 >= 0,
                    right >= 0,
            ;
            crate::fixed::lemma_div_is_monotone(
                (p0 * left + p1 * right) as int,
                (ONE as u128) * span,
                span as int,
            );
            vstd::arithmetic::div_mod::lemma_div_multiples_vanish(ONE as int, span as int);
            assert((ONE as u128) * span == (span as int) * (ONE as int)) by (nonlinear_arith);
        }
        let p: u128 = (p0 * left + p1 * right) / span;
        p as u64
    }

    /// Installs the distribution `dist` at `delta` milliseconds ahead:
    /// explicit probabilities for the queries it lists, and for each other
    /// query an equal share of what they leave of certainty. A distribution
    /// already at `delta` is replaced.
    #[verifier::rlimit(50)]
    pub fn set_probs_at(&mut self, dist: IndexMap<usize, u64>, delta: usize)
        requires
            old(self).wf(),
            values_bounded(dist_entries(dist)),
        ensures
            final(self).wf(),
            Prob::installed(old(self), final(self), dist_entries(dist), delta as int),
    {
        let items = dist_items(&dist);
        let dist_sum: u128 = sum_values(&items);
        let rest_dist: u64 = rest_for(dist_sum, self.total_queries);
        let instance = ProbInstance { rest_dist, dist };
        let k: usize = self.rank_of(delta);
        proof {
            lemma_rank_splits(self.anchors(), delta as int);
        }
        let ghost before = *self;
        if k > 0 && self.deltas_ms[k - 1] == delta {
            self.probs_t.set(k - 1, instance);
            proof {
                assert forall|a: int| 0 <= a < self.instances().len() implies (
                #[trigger] self.instances()[a]).wf() by {
                    if a != k - 1 {
                        assert(before.instances()[a].wf());
                    }
                }
            }
        } else {
            self.deltas_ms.insert(k, delta);
            self.probs_t.insert(k, instance);
            proof {
                lemma_insert_at_rank(before.anchors(), delta);
                assert forall|a: int| 0 <= a < self.instances().len() implies (
                #[trigger] self.instances()[a]).wf() by {
                    if a < k {
                        assert(before.instances()[a].wf());
                    } else if a > k {
                        assert(before.instances()[a - 1].wf());
                    }
                }
            }
        }
    }

    /// Installs the distribution `dist` at `delta` like
    /// [`Prob::set_probs_at`], if each of its values is a probability, that
    /// is at most `ONE`. Returns whether it is; a distribution with a larger
    /// value leaves the model as it was.
    pub fn set_probs_checked(&mut self, dist: IndexMap<usize, u64>, delta: usize) -> (installed: bool)
        requires
            old(self).wf(),
        ensures
            final(self).wf(),
            installed == values_bounded(dist_entries(dist)),
            installed ==> Prob::installed(old(self), final(self), dist_entries(dist), delta as int),
            !installed ==> *final(self) == *old(self),
    {
        let items = dist_items(&dist);
        let mut i: usize = 0;
        while i < items.len()
            invariant
                i <= items@.len(),
                items@ == dist_entries(dist),
                self.wf(),
                *self == *old(self),
                forall|k: int| 0 <= k < i ==> (#[trigger] items@[k]).1 <= ONE,
            decreases items@.len() - i,
        {
            if items[i].1 > ONE {
                assert(!values_bounded(items@)) by {
                    assert(items@[i as int].1 > ONE);
                }
                return false;
            }
            i += 1;
        }
        self.set_probs_at(dist, delta);
        true
    }

    /// The area under the line from the reading at `low` to the reading at
    /// `up`, between `i` and `j`.
    pub fn area_under_curve(&self, qid: usize, low: usize, up: usize, i: usize, j: usize) -> (r:
        u64)
        requires
            self.wf(),
            up <= MAX_DELTA_MS || j <= MAX_DELTA_MS,
        ensures
            r == self.area_spec(qid, low as int, up as int, i as int, j as int),
            i < j ==> r <= ONE * (j - i),
            i >= j ==> r == 0,
    {
        if i >= j || low > i || j > up {
            return 0;
        }
        let p0: u64 = self.get_probs_at(qid, low);
        let pm: u64 = self.get_probs_at(qid, up);
        trapezoid(p0, pm, low, up, i, j)
    }

    /// The probability of `qid` summed over the milliseconds from `delta_0`
    /// to `delta_m`: the areas under the piecewise linear distribution, one
    /// for each anchor in the interval and one for what remains after the
    /// last of them, under the line to the next anchor or, where none
    /// follows, at the last reading. `low` is where the first piece starts,
    /// for a caller the latest anchor at or before `delta_0`.
    #[verifier::rlimit(50)]
    pub fn integrate_over_range(&self, qid: usize, delta_0: usize, delta_m: usize, low: usize) -> (r:
        u64)
        requires
            self.wf(),
            delta_0 < delta_m ==> delta_m + TAIL_MS <= MAX_DELTA_MS,
        ensures
            r == self.integrate_spec(qid, delta_0 as int, delta_m as int, low as int),
            delta_0 >= delta_m ==> r == 0,
            delta_0 < delta_m ==> r <= ONE * (delta_m - delta_0),
    {
        if delta_0 >= delta_m {
            return 0;
        }
        let inf: usize = delta_m + TAIL_MS;
        let n: usize = self.deltas_ms.len();
        let first: usize = self.rank_of(delta_0);
        proof {
            lemma_rank_splits(self.anchors(), delta_0 as int);
        }
        let ghost whole = self.integrate_spec(qid, delta_0 as int, delta_m as int, low as int);
        let ghost start = low;
        let mut p: u64 = 0;
        let mut low: usize = low;
        let mut k: usize = first;
        while k < n && self.deltas_ms[k] <= delta_m
            invariant
                self.wf(),
                n == self.anchors().len(),
                first <= k <= n,
                delta_0 < delta_m,
                delta_m + TAIL_MS <= MAX_DELTA_MS,
                forall|a: int| first <= a < n ==> self.anchors()[a] > delta_0,
                whole == p + self.walk(qid, delta_0 as int, delta_m as int, low as int, k as int),
                k == first ==> p == 0 && low == start,
                k > first ==> low == self.anchors()[k - 1] && delta_0 < low <= delta_m && p <= ONE
                    * (low - delta_0),
            decreases n - k,
        {
            let up: usize = self.deltas_ms[k];
            let lower_delta: usize = if delta_0 >= low {
                delta_0
            } else {
                low
            };
            let area: u64 = self.area_under_curve(qid, low, up, lower_delta, up);
            proof {
                if k > first {
                    assert(ONE * (low - delta_0) + ONE * (up - low) == ONE * (up - delta_0))
                        by (nonlinear_arith);
                } else {
                    if lower_delta < up {
                        assert(ONE * (up - lower_delta) <= ONE * (up - delta_0)) by (nonlinear_arith)
                            requires
                                delta_0 <= lower_delta,
                        ;
                    }
                }
                assert(ONE * (up - delta_0) <= 0x4000_0000 * 0x1_0000_0000) by (nonlinear_arith)
                    requires
                        0 <= up - delta_0 <= 0x1_0000_0000,
                        ONE <= 0x4000_0000,
                ;
            }
            p = p + area;
            low = up;
            k += 1;
        }
        let lower_delta: usize = if delta_0 >= low {
            delta_0
        } else {
            low
        };
        let area: u64 = if k < n {
            self.area_under_curve(qid, low, self.deltas_ms[k], lower_delta, delta_m)
        } else {
            let held: u64 = self.get_probs_at(qid, low);
            trapezoid(held, held, low, inf, lower_delta, delta_m)
        };
        proof {
            if lower_delta < delta_m {
                assert(ONE * (delta_m - lower_delta) <= ONE * (delta_m - delta_0))
                    by (nonlinear_arith)
                    requires
                        delta_0 <= lower_delta,
                ;
                if k > first {
                    assert(ONE * (low - delta_0) + ONE * (delta_m - low) == ONE * (delta_m
                        - delta_0)) by (nonlinear_arith);
                }
            } else {
                assert(0 <= ONE * (delta_m - delta_0)) by (nonlinear_arith)
                    requires
                        delta_0 < delta_m,
                ;
                if k > first {
                    assert(ONE * (low - delta_0) <= ONE * (delta_m - delta_0)) by (nonlinear_arith)
                        requires
                            low <= delta_m,
                    ;
                }
            }
            assert(ONE * (delta_m - delta_0) <= 0x4000_0000 * 0x1_0000_0000) by (nonlinear_arith)
                requires
                    0 <= delta_m - delta_0 <= 0x1_0000_0000,
                    ONE <= 0x4000_0000,
            ;
        }
        p = p + area;
        p
    }

    /// The queries with an explicit probability at one of the first `a`
    /// anchors.
    pub open spec fn keys_upto(&self, a: int) -> Set<usize> {
        Set::new(
            |k: usize|
                exists|b: int|
                    0 <= b < a && b < self.instances().len() && has_key(
                        (#[trigger] self.instances()[b]).entries(),
                        k,
                    ),
        )
    }

    /// The queries with an explicit probability at some anchor, and the
    /// query of the point overlay.
    #[verifier::rlimit(50)]
    pub fn get_k(&self) -> (r: HashSet<usize>)
        requires
            self.wf(),
        ensures
            r@ == self.explicit_queries(),
    {
        let mut all_queries: HashSet<usize> = HashSet::new();
        let n: usize = self.probs_t.len();
        let mut a: usize = 0;
        proof {
            assert(self.keys_upto(0) =~= Set::<usize>::empty());
        }
        while a < n
            invariant
                n == self.instances().len(),
                a <= n,
                all_queries@ == self.keys_upto(a as int),
            decreases n - a,
        {
            let items = dist_items(&self.probs_t[a].dist);
            insert_keys(&mut all_queries, &items);
            proof {
                let step = self.keys_upto(a as int).union(key_set(items@));
                assert forall|k: usize| step.contains(k) <==> self.keys_upto(a + 1).contains(
                    k,
                ) by {
                    if self.keys_upto(a as int).contains(k) {
                        let b = choose|b: int|
                            0 <= b < a && b < self.instances().len() && has_key(
                                (#[trigger] self.instances()[b]).entries(),
                                k,
                            );
                        assert(has_key(self.instances()[b].entries(), k));
                    }
                    if key_set(items@).contains(k) {
                        assert(has_key(self.instances()[a as int].entries(), k));
                    }
                    if self.keys_upto(a + 1).contains(k) {
                        let b = choose|b: int|
                            0 <= b < a + 1 && b < self.instances().len() && has_key(
                                (#[trigger] self.instances()[b]).entries(),
                                k,
                            );
                        if b < a {
                            assert(has_key(self.instances()[b].entries(), k));
                            assert(self.keys_upto(a as int).contains(k));
                        }
                    }
                }
                assert(step =~= self.keys_upto(a + 1));
            }
            a += 1;
        }
        all_queries.insert(self.point_dist.q_index);
        proof {
            assert forall|k: usize| all_queries@.contains(k) <==> self.explicit_queries().contains(
                k,
            ) by {
                if self.keys_upto(n as int).contains(k) {
                    let b = choose|b: int|
                        0 <= b < n && b < self.instances().len() && has_key(
                            (#[trigger] self.instances()[b]).entries(),
                            k,
                        );
                    assert(has_key(self.instances()[b].entries(), k));
                }
                if exists|b: int|
                    0 <= b < self.instances().len() && has_key(
                        (#[trigger] self.instances()[b]).entries(),
                        k,
                    ) {
                    let b = choose|b: int|
                        0 <= b < self.instances().len() && has_key(
                            (#[trigger] self.instances()[b]).entries(),
                            k,
                        );
                    assert(has_key(self.instances()[b].entries(), k));
                    assert(self.keys_upto(n as int).contains(k));
                }
            }
            assert(all_queries@ =~= self.explicit_queries());
        }
        all_queries
    }

    /// Two queries that are listed at no anchor and are not the query of the
    /// overlay have the same probability at every time.
    pub proof fn lemma_unlisted_alike(&self, a: usize, b: usize, delta: int)
        requires
            self.wf(),
            !self.explicit_queries().contains(a),
            !self.explicit_queries().contains(b),
        ensures
            self.probs_at(a, delta) == self.probs_at(b, delta),
    {
        lemma_rank_bounds(self.anchors(), delta);
        if is_anchor(self.anchors(), delta) {
            let inst = self.instances()[rank(self.anchors(), delta) - 1];
            assert(!has_key(inst.entries(), a));
            assert(!has_key(inst.entries(), b));
        }
    }

    /// Two such queries have the same areas along every walk.
    pub proof fn lemma_unlisted_alike_walk(
        &self,
        a: usize,
        b: usize,
        delta_0: int,
        delta_m: int,
        low: int,
        k: int,
    )
        requires
            self.wf(),
            !self.explicit_queries().contains(a),
            !self.explicit_queries().contains(b),
        ensures
            self.walk(a, delta_0, delta_m, low, k) == self.walk(b, delta_0, delta_m, low, k),
        decreases self.anchors().len() - k,
    {
        let from = if delta_0 >= low {
            delta_0
        } else {
            low
        };
        self.lemma_unlisted_alike(a, b, low);
        if 0 <= k < self.anchors().len() {
            let up = self.anchors()[k] as int;
            self.lemma_unlisted_alike(a, b, up);
            if up <= delta_m {
                self.lemma_unlisted_alike_walk(a, b, delta_0, delta_m, up, k + 1);
            }
        }
    }

    /// Two such queries integrate to the same over every interval: one row
    /// of integrals serves all of them.
    pub proof fn lemma_unlisted_alike_integral(
        &self,
        a: usize,
        b: usize,
        delta_0: int,
        delta_m: int,
        low: int,
    )
        requires
            self.wf(),
            !self.explicit_queries().contains(a),
            !self.explicit_queries().contains(b),
        ensures
            self.integrate_spec(a, delta_0, delta_m, low) == self.integrate_spec(
                b,
                delta_0,
                delta_m,
                low,
            ),
    {
        self.lemma_unlisted_alike_walk(a, b, delta_0, delta_m, low, rank(self.anchors(), delta_0));
    }

    /// The two models hold the same: as many queries, the same anchors with
    /// the same distributions, and the same overlay.
    pub open spec fn alike(&self, other: &Prob) -> bool {
        &&& self.total() == other.total()
        &&& self.anchors() == other.anchors()
        &&& self.uniform() == other.uniform()
        &&& self.overlay() == other.overlay()
        &&& self.instances().len() == other.instances().len()
        &&& forall|a: int|
            0 <= a < self.instances().len() ==> (#[trigger] self.instances()[a]).entries()
                == other.instances()[a].entries() && self.instances()[a].rest()
                == other.instances()[a].rest()
    }

    /// Models that hold the same are consistent together.
    pub proof fn lemma_alike_wf(&self, other: &Prob)
        requires
            self.alike(other),
            self.wf(),
        ensures
            other.wf(),
    {
        assert forall|a: int| 0 <= a < other.instances().len() implies (
        #[trigger] other.instances()[a]).wf() && other.instances()[a].rest() == rest_share(
            values_sum(other.instances()[a].entries()),
            other.total(),
        ) by {
            assert(self.instances()[a].wf());
        }
    }

    /// Models that hold the same read the same probability for every query
    /// at every time.
    pub proof fn lemma_alike_reads(&self, other: &Prob, key: usize, delta: int)
        requires
            self.wf(),
            self.alike(other),
        ensures
            self.probs_at(key, delta) == other.probs_at(key, delta),
            self.get_spec(key, delta) == other.get_spec(key, delta),
    {
        lemma_rank_bounds(self.anchors(), delta);
        let low = lower_bound(self.anchors(), delta);
        let up = upper_bound(self.anchors(), delta);
        self.lemma_alike_at(other, key, delta);
        self.lemma_alike_at(other, key, low);
        self.lemma_alike_at(other, key, up);
    }

    /// Models that hold the same read the same at one time.
    proof fn lemma_alike_at(&self, other: &Prob, key: usize, delta: int)
        requires
            self.wf(),
            self.alike(other),
        ensures
            self.probs_at(key, delta) == other.probs_at(key, delta),
    {
        lemma_rank_bounds(self.anchors(), delta);
        if is_anchor(self.anchors(), delta) {
            let a = rank(self.anchors(), delta) - 1;
            assert(self.instances()[a].entries() == other.instances()[a].entries());
        }
    }

    /// Models that hold the same have the same areas along every walk.
    proof fn lemma_alike_walk(
        &self,
        other: &Prob,
        key: usize,
        delta_0: int,
        delta_m: int,
        low: int,
        k: int,
    )
        requires
            self.wf(),
            self.alike(other),
        ensures
            self.walk(key, delta_0, delta_m, low, k) == other.walk(key, delta_0, delta_m, low, k),
        decreases self.anchors().len() - k,
    {
        self.lemma_alike_at(other, key, low);
        if 0 <= k < self.anchors().len() {
            let up = self.anchors()[k] as int;
            self.lemma_alike_at(other, key, up);
            if up <= delta_m {
                self.lemma_alike_walk(other, key, delta_0, delta_m, up, k + 1);
            }
        }
    }

    /// Models that hold the same integrate to the same for every query over
    /// every interval.
    pub proof fn lemma_alike_integrates(
        &self,
        other: &Prob,
        key: usize,
        delta_0: int,
        delta_m: int,
        low: int,
    )
        requires
            self.wf(),
            self.alike(other),
        ensures
            self.integrate_spec(key, delta_0, delta_m, low) == other.integrate_spec(
                key,
                delta_0,
                delta_m,
                low,
            ),
    {
        self.lemma_alike_walk(other, key, delta_0, delta_m, low, rank(self.anchors(), delta_0));
    }
}

impl Clone for Prob {
    /// A copy that holds the same as the model, made at the same instant.
    fn clone(&self) -> (r: Self)
        ensures
            r.alike(self),
            r.made_at() == self.made_at(),
    {
        let n: usize = self.probs_t.len();
        let mut probs_t: Vec<ProbInstance> = Vec::new();
        let mut i: usize = 0;
        while i < n
            invariant
                i <= n,
                n == self.probs_t@.len(),
                probs_t@.len() == i,
                forall|a: int|
                    0 <= a < i ==> (#[trigger] probs_t@[a]).entries() == self.probs_t@[a].entries()
                        && probs_t@[a].rest() == self.probs_t@[a].rest(),
            decreases n - i,
        {
            probs_t.push(self.probs_t[i].clone());
            i += 1;
        }
        let m: usize = self.deltas_ms.len();
        let mut deltas_ms: Vec<usize> = Vec::new();
        let mut k: usize = 0;
        while k < m
            invariant
                k <= m,
                m == self.deltas_ms@.len(),
                deltas_ms@.len() == k,
                forall|a: int| 0 <= a < k ==> deltas_ms@[a] == self.deltas_ms@[a],
            decreases m - k,
        {
            deltas_ms.push(self.deltas_ms[k]);
            k += 1;
        }
        assert(deltas_ms@ =~= self.deltas_ms@);
        Prob {
            total_queries: self.total_queries,
            probs_t,
            deltas_ms,
            inf: self.inf,
            point_dist: self.point_dist,
            time: self.time,
        }
    }
}

} // verus!
