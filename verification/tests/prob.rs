use indexmap::IndexMap;
use khameleon::fixed::ONE;
use khameleon::scheduler::prob::{trapezoid, PointDist, Prob};
use std::collections::HashSet;

fn spike() -> Prob {
    let mut probs = Prob::new(10);
    let mut dist: IndexMap<usize, u64> = IndexMap::new();
    dist.insert(3, 900_000_000);
    probs.set_probs_at(dist, 0);
    probs
}

#[test]
fn uniform_model_gives_every_query_its_share() {
    let probs = Prob::new(4);
    for q in 0..4 {
        assert_eq!(probs.get(q, 0), 250_000_000);
        assert_eq!(probs.get(q, 12_345), 250_000_000);
        assert_eq!(probs.get_probs_at(q, 77), 250_000_000);
    }
}

#[test]
fn a_model_without_queries_has_no_mass() {
    let probs = Prob::new(0);
    assert_eq!(probs.get(0, 0), 0);
    assert_eq!(probs.integrate_over_range(0, 0, 100, 0), 0);
}

#[test]
fn point_overlay_dominates() {
    let mut probs = Prob::new(5);
    probs.set_point_dist(100_000_000, 2);
    assert_eq!(probs.get(2, 40), 920_000_000);
    for q in [0usize, 1, 3, 4] {
        assert_eq!(probs.get(q, 40), 20_000_000);
    }
    assert_eq!(probs.get_linear_prob(2, 200_000_000), 920_000_000);
    assert_eq!(probs.get_linear_prob(1, 200_000_000), 20_000_000);
}

#[test]
fn point_dist_is_one_at_its_query() {
    let pd = PointDist { alpha: ONE, q_index: 7 };
    assert_eq!(pd.get_prob(7), ONE);
    assert_eq!(pd.get_prob(6), 0);
}

#[test]
fn anchor_holds_explicit_and_rest_probabilities() {
    let probs = spike();
    assert_eq!(probs.get_probs_at(3, 0), 900_000_000);
    assert_eq!(probs.get_probs_at(0, 0), 10_000_000);
    assert_eq!(probs.get_probs_at(9, 0), 10_000_000);
    // away from the anchor the uniform share is read
    assert_eq!(probs.get_probs_at(3, 1), 100_000_000);
}

#[test]
fn explicit_probabilities_above_certainty_leave_no_rest() {
    let mut probs = Prob::new(4);
    let mut dist: IndexMap<usize, u64> = IndexMap::new();
    dist.insert(0, 700_000_000);
    dist.insert(1, 600_000_000);
    probs.set_probs_at(dist, 10);
    assert_eq!(probs.get_probs_at(0, 10), 700_000_000);
    assert_eq!(probs.get_probs_at(2, 10), 0);
}

#[test]
fn a_second_distribution_at_an_anchor_replaces_the_first() {
    let mut probs = spike();
    let mut dist: IndexMap<usize, u64> = IndexMap::new();
    dist.insert(4, 500_000_000);
    probs.set_probs_at(dist, 0);
    assert_eq!(probs.get_probs_at(4, 0), 500_000_000);
    assert_eq!(probs.get_probs_at(3, 0), 50_000_000);
    assert_eq!(probs.get_lower_bound(5), 0);
}

#[test]
fn get_interpolates_between_anchors() {
    let mut probs = Prob::new(2);
    let mut at_start: IndexMap<usize, u64> = IndexMap::new();
    at_start.insert(0, ONE);
    probs.set_probs_at(at_start, 0);
    let mut at_end: IndexMap<usize, u64> = IndexMap::new();
    at_end.insert(1, ONE);
    probs.set_probs_at(at_end, 100);
    assert_eq!(probs.get(0, 0), ONE);
    assert_eq!(probs.get(1, 0), 0);
    assert_eq!(probs.get(0, 25), 750_000_000);
    assert_eq!(probs.get(1, 25), 250_000_000);
    assert_eq!(probs.get(0, 50), 500_000_000);
    // at the anchor itself only the distribution of the anchor counts
    assert_eq!(probs.get(0, 100), 0);
    assert_eq!(probs.get(1, 100), ONE);
    // after the last anchor its distribution is held
    assert_eq!(probs.get(0, 150), 0);
    assert_eq!(probs.get(1, 150), ONE);
}

#[test]
fn get_holds_the_reading_of_the_last_anchor() {
    let probs = spike();
    assert_eq!(probs.get(3, 0), 900_000_000);
    assert_eq!(probs.get(3, 100), 900_000_000);
    assert_eq!(probs.get(0, 100), 10_000_000);
    assert_eq!(probs.get(3, 500), 900_000_000);
    assert_eq!(probs.get(3, 501), 900_000_000);
    assert_eq!(probs.get(0, 501), 10_000_000);
    assert_eq!(probs.get(3, usize::MAX), 900_000_000);
    // a model without anchors reads the uniform share at every time
    let uniform = Prob::new(10);
    assert_eq!(uniform.get(3, 0), 100_000_000);
    assert_eq!(uniform.get(3, 501), 100_000_000);
    assert_eq!(uniform.get(3, usize::MAX), 100_000_000);
}

#[test]
fn get_before_the_first_anchor_is_the_uniform_share() {
    let mut probs = Prob::new(2);
    let mut dist: IndexMap<usize, u64> = IndexMap::new();
    dist.insert(1, ONE);
    probs.set_probs_at(dist, 100);
    // at the anchor itself the distribution of the anchor is read
    assert_eq!(probs.get(1, 100), ONE);
    assert_eq!(probs.get(0, 100), 0);
    // before the first anchor the uniform share is read at the time itself
    assert_eq!(probs.get(0, 0), 500_000_000);
    assert_eq!(probs.get(0, 50), 500_000_000);
    // after it, the reading stays at the anchor's
    assert_eq!(probs.get(1, 101), ONE);
    assert_eq!(probs.get(1, 102), ONE);
    assert_eq!(probs.get(0, 102), 0);
    assert_eq!(probs.get(1, 600), ONE);
    assert_eq!(probs.get(0, 600), 0);
}

#[test]
fn lower_bound_is_the_latest_anchor_at_or_before() {
    let mut probs = Prob::new(3);
    for delta in [50usize, 10, 30] {
        let mut dist: IndexMap<usize, u64> = IndexMap::new();
        dist.insert(0, ONE);
        probs.set_probs_at(dist, delta);
    }
    assert_eq!(probs.get_lower_bound(5), 5);
    assert_eq!(probs.get_lower_bound(10), 10);
    assert_eq!(probs.get_lower_bound(29), 10);
    assert_eq!(probs.get_lower_bound(30), 30);
    assert_eq!(probs.get_lower_bound(1_000), 50);
}

#[test]
fn get_k_lists_explicit_queries_and_the_overlay() {
    let mut probs = Prob::new(10);
    let mut first: IndexMap<usize, u64> = IndexMap::new();
    first.insert(3, 400_000_000);
    first.insert(5, 100_000_000);
    probs.set_probs_at(first, 0);
    let mut second: IndexMap<usize, u64> = IndexMap::new();
    second.insert(7, 400_000_000);
    probs.set_probs_at(second, 20);
    probs.set_point_dist(ONE, 9);
    let expected: HashSet<usize> = [3usize, 5, 7, 9].into_iter().collect();
    assert_eq!(probs.get_k(), expected);
    let fresh: HashSet<usize> = [0usize].into_iter().collect();
    assert_eq!(Prob::new(4).get_k(), fresh);
}

#[test]
fn area_is_zero_outside_its_window() {
    let probs = Prob::new(4);
    assert_eq!(probs.area_under_curve(0, 0, 100, 50, 50), 0);
    assert_eq!(probs.area_under_curve(0, 0, 100, 60, 50), 0);
    assert_eq!(probs.area_under_curve(0, 20, 100, 10, 50), 0);
    assert_eq!(probs.area_under_curve(0, 0, 100, 10, 150), 0);
}

#[test]
fn area_under_a_flat_curve_is_height_times_width() {
    let probs = Prob::new(4);
    assert_eq!(probs.area_under_curve(1, 0, 100, 10, 50), 40 * 250_000_000);
}

#[test]
fn area_under_a_falling_curve_equals_that_of_its_mirror() {
    let mut probs = Prob::new(2);
    let mut at_start: IndexMap<usize, u64> = IndexMap::new();
    at_start.insert(0, ONE);
    probs.set_probs_at(at_start, 0);
    let mut at_end: IndexMap<usize, u64> = IndexMap::new();
    at_end.insert(1, ONE);
    probs.set_probs_at(at_end, 100);
    // query 0 falls from 1 to 0, query 1 rises from 0 to 1
    assert_eq!(probs.area_under_curve(0, 0, 100, 0, 100), 50 * ONE);
    assert_eq!(probs.area_under_curve(1, 0, 100, 0, 100), 50 * ONE);
    // the first quarter under the falling line: mean height 0.875
    assert_eq!(probs.area_under_curve(0, 0, 100, 0, 25), 25 * 875_000_000);
    assert_eq!(probs.area_under_curve(1, 0, 100, 75, 100), 25 * 875_000_000);
    assert_eq!(probs.area_under_curve(1, 0, 100, 0, 25), 25 * 125_000_000);
}

#[test]
fn integral_over_an_empty_interval_is_zero() {
    let probs = spike();
    assert_eq!(probs.integrate_over_range(3, 50, 50, 0), 0);
    assert_eq!(probs.integrate_over_range(3, 60, 50, 0), 0);
}

#[test]
fn integral_of_the_uniform_model_is_share_times_length() {
    let probs = Prob::new(4);
    assert_eq!(probs.integrate_over_range(2, 0, 100, 0), 100 * 250_000_000);
    assert_eq!(probs.integrate_over_range(2, 40, 100, 40), 60 * 250_000_000);
}

#[test]
fn integral_walks_the_anchors_and_the_tail() {
    let mut probs = Prob::new(2);
    let mut at_start: IndexMap<usize, u64> = IndexMap::new();
    at_start.insert(0, ONE);
    probs.set_probs_at(at_start, 0);
    let mut at_end: IndexMap<usize, u64> = IndexMap::new();
    at_end.insert(1, ONE);
    probs.set_probs_at(at_end, 100);
    // up to the anchor at 100: half of the triangle; then from 100 to 200
    // at the reading of the anchor
    let to_anchor = 50 * ONE;
    let tail = 100 * ONE;
    assert_eq!(probs.integrate_over_range(1, 0, 100, 0), to_anchor);
    assert_eq!(probs.integrate_over_range(1, 0, 200, 0), to_anchor + tail);
    assert_eq!(probs.integrate_over_range(0, 0, 200, 0), to_anchor);
    // an interval that ends between the anchors takes the part of the
    // trapezoid before its end: the mean of query 1 up to 40 is 0.2
    assert_eq!(probs.integrate_over_range(1, 0, 40, 0), 40 * 200_000_000);
    assert_eq!(probs.integrate_over_range(0, 0, 40, 0), 40 * 800_000_000);
    assert_eq!(probs.integrate_over_range(1, 20, 40, 0), 20 * 300_000_000);
}

#[test]
fn integral_after_the_last_anchor_is_the_reading_times_the_length() {
    let probs = spike();
    assert_eq!(probs.integrate_over_range(3, 0, 100, 0), 90 * ONE);
    assert_eq!(probs.integrate_over_range(0, 0, 100, 0), ONE);
    assert_eq!(probs.integrate_over_range(3, 50, 150, 0), 90 * ONE);
    assert_eq!(probs.integrate_over_range(3, 0, 2_000, 0), 1_800 * ONE);
}

#[test]
fn integral_grows_with_the_end_of_the_interval() {
    let probs = spike();
    let low = probs.get_lower_bound(10);
    let mut last = 0;
    for end in 10..200 {
        let now = probs.integrate_over_range(3, 10, end, low);
        assert!(now >= last);
        last = now;
    }
    assert!(last > 0);
}

#[test]
fn probabilities_add_up_to_one() {
    let mut probs = Prob::new(10);
    let mut first: IndexMap<usize, u64> = IndexMap::new();
    first.insert(3, 900_000_000);
    first.insert(4, 100_000_000);
    probs.set_probs_at(first, 0);
    let mut second: IndexMap<usize, u64> = IndexMap::new();
    second.insert(7, 333_333_333);
    second.insert(8, 666_666_667);
    probs.set_probs_at(second, 90);
    probs.set_point_dist(700_000_000, 1);
    for delta in [0usize, 1, 45, 89, 90, 91, 300, 590, 591, 5_000, usize::MAX] {
        let total: u64 = (0..10).map(|q| probs.get(q, delta)).sum();
        assert!(total <= ONE);
        assert!(total >= ONE - 30);
    }
    // before the first anchor, and without anchors, the shares add up
    let mut late = Prob::new(10);
    let mut dist: IndexMap<usize, u64> = IndexMap::new();
    dist.insert(2, ONE);
    late.set_probs_at(dist, 1_000);
    let total: u64 = (0..10).map(|q| late.get(q, 10)).sum();
    assert_eq!(total, ONE);
    let none = Prob::new(10);
    let total: u64 = (0..10).map(|q| none.get(q, 77_000)).sum();
    assert_eq!(total, ONE);
}

#[test]
fn integral_grows_where_its_end_passes_an_anchor() {
    // query 1 has the uniform share at the start and nothing at the anchor
    let mut probs = Prob::new(2);
    let mut dist: IndexMap<usize, u64> = IndexMap::new();
    dist.insert(0, ONE);
    probs.set_probs_at(dist, 1000);
    let before = probs.integrate_over_range(1, 0, 999, 0);
    let at = probs.integrate_over_range(1, 0, 1000, 0);
    let after = probs.integrate_over_range(1, 0, 1001, 0);
    // under the line from 0.5 at 0 to 0 at 1000
    assert_eq!(before, 249_999_750_000);
    assert_eq!(at, 1000 * 250_000_000);
    assert_eq!(after, at);
    assert!(before <= at);
    let mut last = 0;
    for end in 0..1_200 {
        let now = probs.integrate_over_range(0, 0, end, 0);
        assert!(now >= last);
        last = now;
    }
}

#[test]
fn integral_of_a_query_without_probability_is_zero() {
    let mut probs = Prob::new(2);
    let mut dist: IndexMap<usize, u64> = IndexMap::new();
    dist.insert(0, ONE);
    probs.set_probs_at(dist.clone(), 0);
    probs.set_probs_at(dist, 100);
    assert_eq!(probs.integrate_over_range(1, 0, 100, 0), 0);
    assert!(probs.integrate_over_range(0, 0, 100, 0) > 0);
}

#[test]
fn checked_installation_refuses_what_is_no_probability() {
    let mut probs = Prob::new(4);
    let mut dist: IndexMap<usize, u64> = IndexMap::new();
    dist.insert(0, ONE + 1);
    assert!(!probs.set_probs_checked(dist, 0));
    assert_eq!(probs.get_probs_at(0, 0), 250_000_000);
    let mut dist: IndexMap<usize, u64> = IndexMap::new();
    dist.insert(0, ONE);
    assert!(probs.set_probs_checked(dist, 0));
    assert_eq!(probs.get_probs_at(0, 0), ONE);
}

#[test]
fn a_model_remembers_when_it_was_made() {
    let before = std::time::Instant::now();
    let probs = Prob::new(1);
    assert!(probs.time >= before);
    assert!(probs.time.elapsed().as_secs() < 60);
}

#[test]
fn a_copy_of_a_model_reads_the_same() {
    let mut probs = spike();
    probs.set_point_dist(600_000_000, 4);
    let copy = probs.clone();
    assert_eq!(copy.time, probs.time);
    assert_eq!(copy.get_k(), probs.get_k());
    for q in 0..10 {
        for delta in [0usize, 1, 20, 700] {
            assert_eq!(copy.get(q, delta), probs.get(q, delta));
        }
        assert_eq!(copy.integrate_over_range(q, 3, 90, 0), probs.integrate_over_range(q, 3, 90, 0));
    }
    // the copy is a model of its own
    let mut dist: IndexMap<usize, u64> = IndexMap::new();
    dist.insert(1, ONE);
    probs.set_probs_at(dist, 0);
    assert_eq!(probs.get_probs_at(3, 0), 0);
    assert_eq!(copy.get_probs_at(3, 0), 540_000_000);
}

#[test]
fn trapezoid_under_a_line() {
    // level: height times width
    assert_eq!(trapezoid(400_000_000, 400_000_000, 0, 600, 100, 200), 100 * 400_000_000);
    // rising from 0 to 1 over 100: the mean over [20, 40] is 0.3
    assert_eq!(trapezoid(0, ONE, 0, 100, 20, 40), 20 * 300_000_000);
    // falling from 1 to 0: the mean over [20, 40] is 0.7
    assert_eq!(trapezoid(ONE, 0, 0, 100, 20, 40), 20 * 700_000_000);
    // nothing outside the line's ends, nor over an empty window
    assert_eq!(trapezoid(ONE, ONE, 10, 100, 5, 40), 0);
    assert_eq!(trapezoid(ONE, ONE, 10, 100, 20, 140), 0);
    assert_eq!(trapezoid(ONE, ONE, 10, 100, 40, 40), 0);
    // an end far beyond the window
    assert_eq!(trapezoid(ONE, ONE, 0, usize::MAX, 0, 1_000), 1_000 * ONE);
}
