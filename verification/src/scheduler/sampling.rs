//! Weighted random choice, by the `rand` crate.
//!
//! Which index a draw yields is a matter of chance. What is stated here
//! holds of every draw; the schedulers are verified for whatever is drawn.

use vstd::prelude::*;
use rand::distributions::Distribution;
use rand::distributions::WeightedError;
use rand::distributions::WeightedIndex;
use rand::rngs::ThreadRng;
use rand::Rng;

verus! {

/// `rand::distributions::WeightedError`: why weights cannot be sampled from.
#[verifier::external_type_specification]
#[verifier::external_body]
pub struct ExWeightedError(WeightedError);

/// `rand::rngs::ThreadRng`: the random number generator of a thread.
#[verifier::external_type_specification]
#[verifier::external_body]
pub struct ExThreadRng(ThreadRng);

/// A `rand::distributions::WeightedIndex<u128>`: a distribution over the
/// indices of a list of weights, each index as likely as its weight is large.
#[verifier::external_body]
pub struct WeightedSampler {
    inner: WeightedIndex<u128>,
}

/// The weights that a [`WeightedSampler`] was made from, in index order.
pub uninterp spec fn sampler_weights(s: WeightedSampler) -> Seq<u128>;

/// The sum of the weights.
pub open spec fn weights_sum(w: Seq<u128>) -> int
    decreases w.len(),
{
    if w.len() == 0 {
        0
    } else {
        weights_sum(w.drop_last()) + w.last()
    }
}

/// `WeightedIndex::new`: fails without weights and where all weights are
/// zero; unsigned weights are never invalid. It adds the weights up in their
/// own type, so their sum has to fit.
#[verifier::external_body]
pub(crate) fn sampler_new(weights: &Vec<u128>) -> (r: Result<WeightedSampler, WeightedError>)
    requires
        weights_sum(weights@) <= u128::MAX,
    ensures
        r.is_ok() == (weights@.len() > 0 && weights_sum(weights@) > 0),
        r.is_ok() ==> sampler_weights(r.unwrap()) == weights@,
{
    match WeightedIndex::new(weights) {
        Ok(inner) => Ok(WeightedSampler { inner }),
        Err(e) => Err(e),
    }
}

/// `rand::thread_rng`: the random number generator of the thread.
#[verifier::external_body]
pub(crate) fn thread_generator() -> (rng: ThreadRng) {
    rand::thread_rng()
}

/// `WeightedIndex::sample`: an index of the weights. It draws a number below
/// the sum of the weights and yields the first index whose weights, added to
/// those before it, exceed the number; so the weight at the index is never
/// zero.
#[verifier::external_body]
pub(crate) fn sampler_draw(s: &WeightedSampler, rng: &mut ThreadRng) -> (r: usize)
    ensures
        r < sampler_weights(*s).len(),
        sampler_weights(*s)[r as int] > 0,
{
    s.inner.sample(rng)
}

/// `Rng::gen_range(0, high)`: a number below `high`. The range must not be
/// empty.
#[verifier::external_body]
pub(crate) fn draw_below(rng: &mut ThreadRng, high: usize) -> (r: usize)
    requires
        high > 0,
    ensures
        r < high,
{
    rng.gen_range(0, high)
}

/// `Rng::gen_range(0, high)` for wide numbers: a number below `high`. The
/// range must not be empty.
#[verifier::external_body]
pub(crate) fn draw_below_wide(rng: &mut ThreadRng, high: u128) -> (r: u128)
    requires
        high > 0,
    ensures
        r < high,
{
    rng.gen_range(0, high)
}

/// The sum of weights is not negative.
pub proof fn lemma_weights_sum_nonnegative(w: Seq<u128>)
    ensures
        weights_sum(w) >= 0,
    decreases w.len(),
{
    if w.len() > 0 {
        lemma_weights_sum_nonnegative(w.drop_last());
    }
}

/// The sum of the first `k` weights.
pub open spec fn weights_before(w: Seq<u128>, k: int) -> int {
    weights_sum(w.take(k))
}

/// The first `k + 1` weights add up to the first `k` and the weight at `k`.
pub proof fn lemma_weights_before_step(w: Seq<u128>, k: int)
    requires
        0 <= k < w.len(),
    ensures
        weights_before(w, k + 1) == weights_before(w, k) + w[k],
        weights_before(w, 0) == 0,
        weights_before(w, w.len() as int) == weights_sum(w),
{
    assert(w.take(k + 1).drop_last() =~= w.take(k));
    assert(w.take(w.len() as int) =~= w);
}

/// The index that a number `val` between one and the sum of the weights
/// falls on: the weights before the index add up to less than `val`, and
/// with the weight at the index to `val` at least.
pub open spec fn falls_on(w: Seq<u128>, val: int, k: int) -> bool {
    0 <= k < w.len() && weights_before(w, k) < val <= weights_before(w, k) + w[k]
}

/// The index that `val` falls on, found by adding up the weights in order.
pub fn pick(weights: &Vec<u128>, val: u128) -> (r: usize)
    requires
        weights_sum(weights@) <= u128::MAX,
        1 <= val <= weights_sum(weights@),
    ensures
        falls_on(weights@, val as int, r as int),
        weights@[r as int] > 0,
{
    let n: usize = weights.len();
    let mut temp: u128 = 0;
    let mut ret: usize = 0;
    let mut k: usize = 0;
    proof {
        assert(weights@.take(0) =~= Seq::<u128>::empty());
        if n == 0 {
            assert(weights@ =~= Seq::<u128>::empty());
        }
    }
    while k < n && temp < val
        invariant
            k <= n,
            n == weights@.len(),
            n > 0,
            weights_sum(weights@) <= u128::MAX,
            1 <= val <= weights_sum(weights@),
            temp == weights_before(weights@, k as int),
            k > 0 ==> ret == k - 1 && weights_before(weights@, k - 1) < val,
        decreases n - k,
    {
        proof {
            lemma_weights_before_step(weights@, k as int);
            lemma_weights_before_grows(weights@, k + 1);
        }
        ret = k;
        temp = temp + weights[k];
        k += 1;
    }
    proof {
        if k > 0 {
            lemma_weights_before_step(weights@, k - 1);
        }
        if temp < val {
            assert(k == n);
            assert(weights@.take(n as int) =~= weights@);
        }
    }
    ret
}

/// The first `k` weights add up to no more than all of them.
pub proof fn lemma_weights_before_grows(w: Seq<u128>, k: int)
    requires
        0 <= k <= w.len(),
    ensures
        0 <= weights_before(w, k) <= weights_sum(w),
    decreases w.len() - k,
{
    lemma_weights_sum_nonnegative(w.take(k));
    if k < w.len() {
        lemma_weights_before_step(w, k);
        lemma_weights_before_grows(w, k + 1);
    } else {
        assert(w.take(k) =~= w);
    }
}

} // verus!
