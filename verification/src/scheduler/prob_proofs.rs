//! What holds of the probability model as a whole: how the integral of a
//! query grows with its interval, and that the probabilities of all queries
//! at one time add up to one.

use vstd::prelude::*;
use crate::fixed::{lemma_div_is_monotone, ONE, TAIL_MS};
use crate::maps::{distinct_keys, has_key, key_index, lemma_lookup_at, lookup};
use crate::scheduler::prob::{
    is_anchor, lemma_bounds_enclose, lemma_rank_bounds, lemma_rank_splits, lower_bound, rank,
    past_last, rest_share, trapezoid_spec, uniform_share, upper_bound, values_sum, Prob,
};

verus! {

/// A trapezoid under a line that is nowhere negative is not negative.
pub proof fn lemma_trapezoid_nonnegative(p0: int, pm: int, low: int, up: int, i: int, j: int)
    requires
        0 <= p0,
        0 <= pm,
    ensures
        0 <= trapezoid_spec(p0, pm, low, up, i, j),
{
    if !(i >= j || low > i || j > up) {
        let num = (j - i) * (p0 * (2 * up - i - j) + pm * (i + j - 2 * low));
        assert(0 <= num) by (nonlinear_arith)
            requires
                num == (j - i) * (p0 * (2 * up - i - j) + pm * (i + j - 2 * low)),
                low <= i < j <= up,
                0 <= p0,
                0 <= pm,
        ;
        lemma_div_is_monotone(0, num, 2 * (up - low));
    }
}

/// Under a level line the area is the level times the length of the window.
pub proof fn lemma_flat_area(p: int, low: int, up: int, i: int, j: int)
    requires
        low <= i < j <= up,
    ensures
        trapezoid_spec(p, p, low, up, i, j) == (j - i) * p,
{
    let d = 2 * (up - low);
    let x = (j - i) * p;
    assert((j - i) * (p * (2 * up - i - j) + p * (i + j - 2 * low)) == d * x) by (nonlinear_arith)
        requires
            d == 2 * (up - low),
            x == (j - i) * p,
    ;
    vstd::arithmetic::div_mod::lemma_div_multiples_vanish(x, d);
}

/// A trapezoid does not shrink when its window ends later under the same
/// line.
pub proof fn lemma_trapezoid_grows(p0: int, pm: int, low: int, up: int, i: int, j: int, later: int)
    requires
        0 <= p0,
        0 <= pm,
        j <= later <= up,
    ensures
        trapezoid_spec(p0, pm, low, up, i, j) <= trapezoid_spec(p0, pm, low, up, i, later),
{
    if low <= i && i < later {
        let d = 2 * (up - low);
        let far = (later - i) * (p0 * (2 * up - i - later) + pm * (i + later - 2 * low));
        lemma_trapezoid_nonnegative(p0, pm, low, up, i, later);
        if i < j {
            let near = (j - i) * (p0 * (2 * up - i - j) + pm * (i + j - 2 * low));
            lemma_trapezoid_nonnegative(p0, pm, low, up, i, j);
            // both numerators over the lengths u <= v of the two windows
            let u = j - i;
            let v = later - i;
            let level = p0 * (2 * up - 2 * i) + pm * (2 * i - 2 * low);
            let slope = pm - p0;
            assert(near == u * (level + slope * u)) by (nonlinear_arith)
                requires
                    near == (j - i) * (p0 * (2 * up - i - j) + pm * (i + j - 2 * low)),
                    u == j - i,
                    level == p0 * (2 * up - 2 * i) + pm * (2 * i - 2 * low),
                    slope == pm - p0,
            ;
            assert(far == v * (level + slope * v)) by (nonlinear_arith)
                requires
                    far == (later - i) * (p0 * (2 * up - i - later) + pm * (i + later - 2 * low)),
                    v == later - i,
                    level == p0 * (2 * up - 2 * i) + pm * (2 * i - 2 * low),
                    slope == pm - p0,
            ;
            let mid = level + slope * (u + v);
            assert(v * (level + slope * v) - u * (level + slope * u) == (v - u) * mid)
                by (nonlinear_arith)
                requires
                    mid == level + slope * (u + v),
            ;
            assert(mid == p0 * (2 * up - 2 * i - u - v) + pm * (2 * i - 2 * low + u + v))
                by (nonlinear_arith)
                requires
                    mid == level + slope * (u + v),
                    level == p0 * (2 * up - 2 * i) + pm * (2 * i - 2 * low),
                    slope == pm - p0,
            ;
            assert(0 <= mid) by (nonlinear_arith)
                requires
                    mid == p0 * (2 * up - 2 * i - u - v) + pm * (2 * i - 2 * low + u + v),
                    0 <= p0,
                    0 <= pm,
                    0 <= 2 * up - 2 * i - u - v,
                    0 <= 2 * i - 2 * low + u + v,
            ;
            assert(0 <= (v - u) * mid) by (nonlinear_arith)
                requires
                    0 <= v - u,
                    0 <= mid,
            ;
            assert(0 <= near) by (nonlinear_arith)
                requires
                    near == (j - i) * (p0 * (2 * up - i - j) + pm * (i + j - 2 * low)),
                    low <= i < j <= up,
                    0 <= p0,
                    0 <= pm,
            ;
            lemma_div_is_monotone(near, far, d);
        }
    }
}

/// An area is not negative.
pub proof fn lemma_area_nonnegative(prob: &Prob, key: usize, low: int, up: int, i: int, j: int)
    requires
        prob.wf(),
    ensures
        0 <= prob.area_spec(key, low, up, i, j),
{
    prob.lemma_anchored_bounded(key, low);
    prob.lemma_anchored_bounded(key, up);
    lemma_trapezoid_nonnegative(prob.probs_at(key, low), prob.probs_at(key, up), low, up, i, j);
}

/// Where no anchor follows `low`, the area up to `delta_m` is the reading at
/// `low` times the length of the window.
pub proof fn lemma_tail_is_flat(prob: &Prob, key: usize, low: int, i: int, delta_m: int)
    requires
        low <= i < delta_m,
    ensures
        prob.tail_spec(key, low, i, delta_m) == (delta_m - i) * prob.probs_at(key, low),
{
    lemma_flat_area(prob.probs_at(key, low), low, delta_m + TAIL_MS, i, delta_m);
}

/// The areas along a walk are not negative.
pub proof fn lemma_walk_nonnegative(
    prob: &Prob,
    key: usize,
    delta_0: int,
    delta_m: int,
    low: int,
    k: int,
)
    requires
        prob.wf(),
    ensures
        0 <= prob.walk(key, delta_0, delta_m, low, k),
    decreases prob.anchors().len() - k,
{
    let from = if delta_0 >= low {
        delta_0
    } else {
        low
    };
    prob.lemma_anchored_bounded(key, low);
    if 0 <= k < prob.anchors().len() {
        let up = prob.anchors()[k] as int;
        if up <= delta_m {
            lemma_area_nonnegative(prob, key, low, up, from, up);
            lemma_walk_nonnegative(prob, key, delta_0, delta_m, up, k + 1);
        } else {
            lemma_area_nonnegative(prob, key, low, up, from, delta_m);
        }
    } else {
        let p = prob.probs_at(key, low);
        lemma_trapezoid_nonnegative(p, p, low, delta_m + TAIL_MS, from, delta_m);
    }
}

/// An integral is not negative.
pub proof fn lemma_integral_nonnegative(prob: &Prob, key: usize, delta_0: int, delta_m: int, low: int)
    requires
        prob.wf(),
    ensures
        0 <= prob.integrate_spec(key, delta_0, delta_m, low),
{
    if delta_0 < delta_m {
        lemma_walk_nonnegative(prob, key, delta_0, delta_m, low, rank(prob.anchors(), delta_0));
    }
}

/// The integral of a query does not shrink when its interval ends later.
pub proof fn lemma_integral_grows(prob: &Prob, key: usize, a: int, b: int, c: int, low: int)
    requires
        prob.wf(),
        b <= c,
    ensures
        prob.integrate_spec(key, a, b, low) <= prob.integrate_spec(key, a, c, low),
{
    lemma_integral_nonnegative(prob, key, a, c, low);
    if a < b {
        lemma_walk_grows(prob, key, a, b, c, low, rank(prob.anchors(), a));
    }
}

/// The same along a walk from place `k`.
proof fn lemma_walk_grows(prob: &Prob, key: usize, a: int, b: int, c: int, low: int, k: int)
    requires
        prob.wf(),
        b <= c,
    ensures
        prob.walk(key, a, b, low, k) <= prob.walk(key, a, c, low, k),
    decreases prob.anchors().len() - k,
{
    let anchors = prob.anchors();
    let from = if a >= low {
        a
    } else {
        low
    };
    prob.lemma_anchored_bounded(key, low);
    let p = prob.probs_at(key, low);
    if 0 <= k < anchors.len() {
        let up = anchors[k] as int;
        prob.lemma_anchored_bounded(key, up);
        let r = prob.probs_at(key, up);
        if up <= b {
            lemma_walk_grows(prob, key, a, b, c, up, k + 1);
        } else if up <= c {
            // the part of this piece before `b` is within the whole piece
            lemma_trapezoid_grows(p, r, low, up, from, b, up);
            lemma_walk_nonnegative(prob, key, a, c, up, k + 1);
        } else {
            lemma_trapezoid_grows(p, r, low, up, from, b, c);
        }
    } else {
        lemma_trapezoid_nonnegative(p, p, low, c + TAIL_MS, from, c);
        if from < b {
            lemma_flat_area(p, low, b + TAIL_MS, from, b);
            lemma_flat_area(p, low, c + TAIL_MS, from, c);
            assert((b - from) * p <= (c - from) * p) by (nonlinear_arith)
                requires
                    b <= c,
                    0 <= p,
            ;
        }
    }
}

/// A trapezoid over at least a millisecond, under a line that is positive
/// at both ends, is at least as large as its window is long.
proof fn lemma_trapezoid_positive(p: int, r: int, low: int, up: int, i: int, j: int)
    requires
        low <= i < j <= up,
        p >= 1,
        r >= 1,
    ensures
        trapezoid_spec(p, r, low, up, i, j) >= j - i,
{
    let num = (j - i) * (p * (2 * up - i - j) + r * (i + j - 2 * low));
    let d = 2 * (up - low);
    assert((j - i) * d <= num) by (nonlinear_arith)
        requires
            num == (j - i) * (p * (2 * up - i - j) + r * (i + j - 2 * low)),
            d == 2 * (up - low),
            low <= i < j <= up,
            1 <= p,
            1 <= r,
    ;
    assert(0 <= (j - i) * d) by (nonlinear_arith)
        requires
            i < j,
            0 < d,
    ;
    lemma_div_is_monotone((j - i) * d, num, d);
    vstd::arithmetic::div_mod::lemma_div_multiples_vanish(j - i, d);
    assert((j - i) * d == d * (j - i)) by (nonlinear_arith);
}

/// The integral over an interval that does not end after it starts is zero.
/// For a query whose probability is positive at every time, and with `low`
/// at or before the start, the integral is zero for such intervals only.
pub proof fn lemma_integral_zero_iff_empty(prob: &Prob, key: usize, a: int, b: int, low: int)
    requires
        prob.wf(),
        low <= a,
        forall|d: int| prob.probs_at(key, d) >= 1,
    ensures
        prob.integrate_spec(key, a, b, low) == 0 <==> a >= b,
{
    if a < b {
        let anchors = prob.anchors();
        let k = rank(anchors, a);
        lemma_rank_bounds(anchors, a);
        lemma_rank_splits(anchors, a);
        let p = prob.probs_at(key, low);
        if k < anchors.len() {
            let up = anchors[k] as int;
            let r = prob.probs_at(key, up);
            if up <= b {
                lemma_trapezoid_positive(p, r, low, up, a, up);
                lemma_walk_nonnegative(prob, key, a, b, up, k + 1);
            } else {
                lemma_trapezoid_positive(p, r, low, up, a, b);
            }
        } else {
            lemma_trapezoid_positive(p, p, low, b + TAIL_MS, a, b);
        }
    }
}

/// The sum of `f` over the first `n` queries.
pub open spec fn sum_over(f: spec_fn(int) -> int, n: int) -> int
    decreases n,
{
    if n <= 0 {
        0
    } else {
        sum_over(f, n - 1) + f(n - 1)
    }
}

/// Functions that agree on the first `n` queries have the same sum.
proof fn lemma_sum_same(f: spec_fn(int) -> int, g: spec_fn(int) -> int, n: int)
    requires
        forall|q: int| 0 <= q < n ==> #[trigger] f(q) == g(q),
    ensures
        sum_over(f, n) == sum_over(g, n),
    decreases n,
{
    if n > 0 {
        lemma_sum_same(f, g, n - 1);
    }
}

/// The sum of a constant.
proof fn lemma_sum_constant(f: spec_fn(int) -> int, c: int, n: int)
    requires
        0 <= n,
        forall|q: int| 0 <= q < n ==> #[trigger] f(q) == c,
    ensures
        sum_over(f, n) == n * c,
    decreases n,
{
    if n > 0 {
        lemma_sum_constant(f, c, n - 1);
        assert(n * c == (n - 1) * c + c) by (nonlinear_arith);
    } else {
        assert(n * c == 0) by (nonlinear_arith)
            requires
                n == 0,
        ;
    }
}

/// Two functions that differ at one query only have sums that differ by
/// what they differ by there.
proof fn lemma_sum_differs_at(f: spec_fn(int) -> int, g: spec_fn(int) -> int, x: int, n: int)
    requires
        forall|q: int| 0 <= q < n && q != x ==> #[trigger] f(q) == g(q),
    ensures
        0 <= x < n ==> sum_over(f, n) == sum_over(g, n) + f(x) - g(x),
        !(0 <= x < n) ==> sum_over(f, n) == sum_over(g, n),
    decreases n,
{
    if n > 0 {
        lemma_sum_differs_at(f, g, x, n - 1);
    }
}

/// The sum of `a f + b g` is `a` times the sum of `f` plus `b` times the sum
/// of `g`.
proof fn lemma_sum_combines(
    h: spec_fn(int) -> int,
    f: spec_fn(int) -> int,
    g: spec_fn(int) -> int,
    a: int,
    b: int,
    n: int,
)
    requires
        forall|q: int| 0 <= q < n ==> #[trigger] h(q) == a * f(q) + b * g(q),
    ensures
        sum_over(h, n) == a * sum_over(f, n) + b * sum_over(g, n),
    decreases n,
{
    if n > 0 {
        lemma_sum_combines(h, f, g, a, b, n - 1);
        let sf = sum_over(f, n - 1);
        let sg = sum_over(g, n - 1);
        assert(a * (sf + f(n - 1)) + b * (sg + g(n - 1)) == a * sf + b * sg + (a * f(n - 1) + b
            * g(n - 1))) by (nonlinear_arith);
    } else {
        assert(a * 0 + b * 0 == 0) by (nonlinear_arith);
    }
}

/// Where each `h(q)` is `f(q)` divided by `d` and rounded down, `d` times
/// the sum of `h` falls short of the sum of `f` by less than `d` for each
/// query.
proof fn lemma_sum_of_quotients(h: spec_fn(int) -> int, f: spec_fn(int) -> int, d: int, n: int)
    requires
        0 < d,
        0 <= n,
        forall|q: int| 0 <= q < n ==> 0 <= #[trigger] f(q),
        forall|q: int| 0 <= q < n ==> #[trigger] h(q) == f(q) / d,
    ensures
        d * sum_over(h, n) <= sum_over(f, n) <= d * sum_over(h, n) + n * (d - 1),
    decreases n,
{
    if n > 0 {
        lemma_sum_of_quotients(h, f, d, n - 1);
        let x = f(n - 1);
        vstd::arithmetic::div_mod::lemma_fundamental_div_mod(x, d);
        vstd::arithmetic::div_mod::lemma_mod_bound(x, d);
        let sh = sum_over(h, n - 1);
        assert(d * (sh + x / d) == d * sh + d * (x / d)) by (nonlinear_arith);
        assert(n * (d - 1) == (n - 1) * (d - 1) + (d - 1)) by (nonlinear_arith);
    } else {
        assert(d * 0 == 0 && n * (d - 1) == 0) by (nonlinear_arith)
            requires
                n == 0,
        ;
    }
}

/// The probability of a query among entries with a rest share: its value
/// where it is listed, the rest share where it is not.
pub open spec fn entry_prob(entries: Seq<(usize, u64)>, rest: int, q: usize) -> int {
    match lookup(entries, q) {
        Some(v) => v as int,
        None => rest,
    }
}

/// Among `n` queries, entries with distinct keys below `n` and a rest share
/// add up to the values of the entries and one rest share for each query
/// that is not listed.
#[verifier::rlimit(50)]
proof fn lemma_entries_total(entries: Seq<(usize, u64)>, rest: int, n: int)
    requires
        0 <= n <= usize::MAX,
        distinct_keys(entries),
        forall|i: int| 0 <= i < entries.len() ==> (#[trigger] entries[i]).0 < n,
    ensures
        sum_over(|q: int| entry_prob(entries, rest, q as usize), n) == values_sum(entries) + rest
            * (n - entries.len()),
    decreases entries.len(),
{
    let f = |q: int| entry_prob(entries, rest, q as usize);
    if entries.len() == 0 {
        assert forall|q: int| 0 <= q < n implies #[trigger] f(q) == rest by {
            assert(!has_key(entries, q as usize));
        }
        lemma_sum_constant(f, rest, n);
        assert(n * rest == rest * (n - 0)) by (nonlinear_arith);
    } else {
        let front = entries.drop_last();
        let last = entries.last();
        let g = |q: int| entry_prob(front, rest, q as usize);
        assert(distinct_keys(front)) by {
            assert forall|i: int, j: int| 0 <= i < j < front.len() implies (#[trigger] front[i]).0
                != (#[trigger] front[j]).0 by {
                assert(entries[i].0 != entries[j].0);
            }
        }
        assert forall|i: int| 0 <= i < front.len() implies (#[trigger] front[i]).0 < n by {
            assert(entries[i].0 < n);
        }
        lemma_entries_total(front, rest, n);
        let x = last.0 as int;
        assert(entries[entries.len() - 1].0 < n);
        assert forall|q: int| 0 <= q < n && q != x implies #[trigger] f(q) == g(q) by {
            lemma_lookup_without_last(entries, q as usize);
        }
        lemma_sum_differs_at(f, g, x, n);
        lemma_lookup_at(entries, entries.len() - 1);
        assert(f(x) == last.1);
        assert(!has_key(front, last.0)) by {
            if has_key(front, last.0) {
                let i = key_index(front, last.0);
                assert(entries[i].0 == front[i].0);
                assert(entries[i].0 != entries[entries.len() - 1].0);
            }
        }
        assert(g(x) == rest);
        assert(rest * (n - front.len()) - rest == rest * (n - entries.len())) by (nonlinear_arith)
            requires
                entries.len() == front.len() + 1,
        ;
    }
}

/// A key other than that of the last entry is looked up among the entries
/// before the last.
proof fn lemma_lookup_without_last(entries: Seq<(usize, u64)>, q: usize)
    requires
        entries.len() > 0,
        distinct_keys(entries),
        q != entries.last().0,
    ensures
        lookup(entries, q) == lookup(entries.drop_last(), q),
{
    let front = entries.drop_last();
    if has_key(entries, q) {
        let i = key_index(entries, q);
        assert(i < entries.len() - 1);
        assert(front[i].0 == q);
        assert(has_key(front, q));
        let j = key_index(front, q);
        assert(entries[j].0 == q);
        if i < j {
            assert(entries[i].0 != entries[j].0);
        } else if j < i {
            assert(entries[j].0 != entries[i].0);
        }
    } else {
        if has_key(front, q) {
            let j = key_index(front, q);
            assert(entries[j].0 == q);
        }
    }
}

/// Every anchor of the model holds a distribution: its explicit
/// probabilities add up to `ONE` and belong to queries of the application.
/// The overlay points at a query of the application, and there is a query.
pub open spec fn proper(prob: &Prob) -> bool {
    &&& prob.total() >= 1
    &&& prob.overlay().q_index < prob.total()
    &&& forall|a: int|
        0 <= a < prob.instances().len() ==> values_sum(
            (#[trigger] prob.instances()[a]).entries(),
        ) == ONE
    &&& forall|a: int, e: int|
        0 <= a < prob.instances().len() && 0 <= e < prob.instances()[a].entries().len() ==> (
        #[trigger] prob.instances()[a].entries()[e]).0 < prob.total()
}

/// The probabilities of all queries at `delta`, added up.
pub open spec fn total_probability(prob: &Prob, delta: int) -> int {
    sum_over(|q: int| prob.get_spec(q as usize, delta), prob.total())
}

/// What is read before the overlay adds up to `ONE`, less at most one unit
/// for each query.
proof fn lemma_anchored_total(prob: &Prob, delta: int)
    requires
        prob.wf(),
        proper(prob),
    ensures
        ONE - prob.total() <= sum_over(|q: int| prob.anchored(q as usize, delta), prob.total())
            <= ONE,
{
    let n = prob.total();
    prob.lemma_total_fits();
    let f = |q: int| prob.anchored(q as usize, delta);
    lemma_rank_bounds(prob.anchors(), delta);
    if is_anchor(prob.anchors(), delta) {
        let a = rank(prob.anchors(), delta) - 1;
        let inst = prob.instances()[a];
        assert(inst.wf());
        assert(values_sum(inst.entries()) == ONE);
        assert(inst.rest() == rest_share(values_sum(inst.entries()), n));
        assert forall|i: int| 0 <= i < inst.entries().len() implies (
        #[trigger] inst.entries()[i]).0 < n by {
            assert(prob.instances()[a].entries()[i].0 < n);
        }
        lemma_entries_total(inst.entries(), inst.rest() as int, n);
        let g = |q: int| entry_prob(inst.entries(), inst.rest() as int, q as usize);
        assert forall|q: int| 0 <= q < n implies #[trigger] f(q) == g(q) by {}
        lemma_sum_same(f, g, n);
        assert(0 * (n - inst.entries().len()) == 0) by (nonlinear_arith);
    } else {
        let share = uniform_share(n);
        lemma_sum_constant(f, share, n);
        vstd::arithmetic::div_mod::lemma_fundamental_div_mod(ONE as int, n);
        vstd::arithmetic::div_mod::lemma_mod_bound(ONE as int, n);
        assert(n * share == n * (ONE as int / n));
    }
}

/// What is read with the overlay adds up to `ONE`, less at most two units
/// for each query.
#[verifier::rlimit(50)]
proof fn lemma_reading_total(prob: &Prob, delta: int)
    requires
        prob.wf(),
        proper(prob),
    ensures
        ONE - 2 * prob.total() <= sum_over(|q: int| prob.probs_at(q as usize, delta), prob.total())
            <= ONE,
{
    let n = prob.total();
    prob.lemma_total_fits();
    let one = ONE as int;
    let alpha = prob.overlay().alpha as int;
    let x = |q: int| prob.anchored(q as usize, delta);
    let pt = |q: int| prob.overlay().point(q as usize);
    let num = |q: int| alpha * prob.anchored(q as usize, delta) + (one - alpha) * prob.overlay().point(q as usize);
    let p = |q: int| prob.probs_at(q as usize, delta);
    lemma_anchored_total(prob, delta);
    // the point distribution adds up to certainty
    let zero = |q: int| 0int;
    assert forall|q: int| 0 <= q < n && q != prob.overlay().q_index implies #[trigger] pt(q) == zero(q) by {}
    lemma_sum_differs_at(pt, zero, prob.overlay().q_index as int, n);
    lemma_sum_constant(zero, 0, n);
    assert(n * 0 == 0) by (nonlinear_arith);
    assert(sum_over(pt, n) == one);
    lemma_sum_combines(num, x, pt, alpha, one - alpha, n);
    assert forall|q: int| 0 <= q < n implies 0 <= #[trigger] num(q) by {
        prob.lemma_anchored_bounded(q as usize, delta);
        assert(0 <= alpha * prob.anchored(q as usize, delta) + (one - alpha) * prob.overlay().point(
            q as usize,
        )) by (nonlinear_arith)
            requires
                0 <= alpha <= one,
                0 <= prob.anchored(q as usize, delta),
                0 <= prob.overlay().point(q as usize),
        ;
    }
    assert forall|q: int| 0 <= q < n implies #[trigger] p(q) == num(q) / one by {}
    lemma_sum_of_quotients(p, num, one, n);
    let sx = sum_over(x, n);
    let sp = sum_over(p, n);
    let sn = sum_over(num, n);
    assert(sn == alpha * sx + (one - alpha) * one);
    assert(sn <= one * one) by (nonlinear_arith)
        requires
            sn == alpha * sx + (one - alpha) * one,
            sx <= one,
            0 <= alpha <= one,
    ;
    assert(sp <= one) by (nonlinear_arith)
        requires
            one * sp <= sn,
            sn <= one * one,
            0 < one,
    ;
    assert(sn >= one * one - n * one) by (nonlinear_arith)
        requires
            sn == alpha * sx + (one - alpha) * one,
            sx >= one - n,
            0 <= alpha <= one,
            0 <= n,
    ;
    assert(sp >= one - 2 * n) by (nonlinear_arith)
        requires
            sn <= one * sp + n * (one - 1),
            sn >= one * one - n * one,
            0 < one,
            0 <= n,
    ;
}

/// The probabilities of all queries at one time add up to one, up to
/// rounding: to `ONE`, less at most three units for each query. That is
/// within a ten-thousandth for each query.
#[verifier::rlimit(50)]
pub proof fn lemma_total_probability(prob: &Prob, delta: int)
    requires
        prob.wf(),
        proper(prob),
    ensures
        ONE - 3 * prob.total() <= total_probability(prob, delta) <= ONE,
        (ONE - total_probability(prob, delta)) * 10_000 <= prob.total() * ONE,
{
    let n = prob.total();
    prob.lemma_total_fits();
    let one = ONE as int;
    let low = lower_bound(prob.anchors(), delta);
    let up = upper_bound(prob.anchors(), delta);
    lemma_bounds_enclose(prob.anchors(), delta);
    if past_last(prob.anchors(), delta) {
        let held = |q: int| prob.probs_at(q as usize, low);
        let read = |q: int| prob.get_spec(q as usize, delta);
        lemma_reading_total(prob, low);
        assert forall|q: int| 0 <= q < n implies #[trigger] read(q) == held(q) by {}
        lemma_sum_same(read, held, n);
        let total = sum_over(read, n);
        assert((one - total) * 10_000 <= n * one) by (nonlinear_arith)
            requires
                one - total <= 2 * n,
                one == 1_000_000_000,
                0 <= n,
        ;
        return ;
    }
    let d = up - low;
    let left = up - delta;
    let right = delta - low;
    let p0 = |q: int| prob.probs_at(q as usize, low);
    let p1 = |q: int| prob.probs_at(q as usize, up);
    let num = |q: int| left * prob.probs_at(q as usize, low) + right * prob.probs_at(q as usize, up);
    let got = |q: int| prob.get_spec(q as usize, delta);
    lemma_reading_total(prob, low);
    lemma_reading_total(prob, up);
    lemma_sum_combines(num, p0, p1, left, right, n);
    assert forall|q: int| 0 <= q < n implies 0 <= #[trigger] num(q) && got(q) == num(q) / d by {
        prob.lemma_anchored_bounded(q as usize, low);
        prob.lemma_anchored_bounded(q as usize, up);
        let a = prob.probs_at(q as usize, low);
        let b = prob.probs_at(q as usize, up);
        assert(0 <= left * a + right * b) by (nonlinear_arith)
            requires
                0 <= left,
                0 <= right,
                0 <= a,
                0 <= b,
        ;
        assert(left * a + right * b == a * left + b * right) by (nonlinear_arith);
    }
    assert forall|q: int| 0 <= q < n implies #[trigger] got(q) == num(q) / d by {
        assert(0 <= num(q) && got(q) == num(q) / d);
    }
    lemma_sum_of_quotients(got, num, d, n);
    let s0 = sum_over(p0, n);
    let s1 = sum_over(p1, n);
    let sn = sum_over(num, n);
    let sg = sum_over(got, n);
    assert(sn <= one * d) by (nonlinear_arith)
        requires
            sn == left * s0 + right * s1,
            s0 <= one,
            s1 <= one,
            0 <= left,
            0 <= right,
            left + right == d,
    ;
    assert(sg <= one) by (nonlinear_arith)
        requires
            d * sg <= sn,
            sn <= one * d,
            0 < d,
    ;
    assert(sn >= (one - 2 * n) * d) by (nonlinear_arith)
        requires
            sn == left * s0 + right * s1,
            s0 >= one - 2 * n,
            s1 >= one - 2 * n,
            0 <= left,
            0 <= right,
            left + right == d,
    ;
    assert(sg >= one - 3 * n) by (nonlinear_arith)
        requires
            sn <= d * sg + n * (d - 1),
            sn >= (one - 2 * n) * d,
            0 < d,
            0 <= n,
    ;
    assert((one - sg) * 10_000 <= n * one) by (nonlinear_arith)
        requires
            one - sg <= 3 * n,
            one == 1_000_000_000,
            0 <= n,
    ;
}

} // verus!
