use golden_core::distance::{
    compute_distance, degree_dist, relational_dist, visits_dist, DistanceWeights,
    DynamicThresholds, Visibility, EMPTY_HORIZON, EMPTY_NEAR, MARGIN,
};
use golden_core::fixed::{clamp, NEUTRAL, UNIT};

fn fixed(x: f64) -> i64 {
    (x * UNIT as f64).round() as i64
}

#[test]
fn test_relational_dist() {
    assert_eq!(relational_dist(None), UNIT);
    assert_eq!(relational_dist(Some(0)), 0);
    assert!(relational_dist(Some(1)) > 0);
    assert!(relational_dist(Some(10)) > relational_dist(Some(1)));
}

#[test]
fn test_dynamic_thresholds() {
    let dists: Vec<i64> = vec![0.1, 0.2, 0.3, 0.4, 0.5, 0.6, 0.7, 0.8, 0.9]
        .into_iter()
        .map(fixed)
        .collect();
    let dt = DynamicThresholds::from_distances(&dists, fixed(0.3), fixed(0.7));

    assert!((dt.near - fixed(0.3)).abs() < fixed(1e-6));
    assert!((dt.horizon - fixed(0.7)).abs() < fixed(1e-6));

    assert_eq!(dt.classify(fixed(0.2)), Visibility::Near);
    assert_eq!(dt.classify(fixed(0.5)), Visibility::Horizon);
    assert_eq!(dt.classify(fixed(0.8)), Visibility::Beyond);
}

#[test]
fn test_compute_distance_clamping() {
    let weights = DistanceWeights::default();
    let two = fixed(2.0);
    let d = compute_distance(two, two, two, two, two, &weights);
    assert!(d <= UNIT);
    let low = fixed(-1.0);
    let d2 = compute_distance(low, low, low, low, low, &weights);
    assert!(d2 >= 0);
}

#[test]
fn clamping_reaches_the_ends() {
    let weights = DistanceWeights::default();
    let two = fixed(2.0);
    assert_eq!(compute_distance(two, two, two, two, two, &weights), UNIT);
    let low = fixed(-1.0);
    assert_eq!(compute_distance(low, low, low, low, low, &weights), 0);
    assert_eq!(clamp(-1), 0);
    assert_eq!(clamp(UNIT as i128 + 1), UNIT);
    assert_eq!(clamp(17), 17);
}

#[test]
fn default_weights_are_the_documented_ones() {
    let weights = DistanceWeights::default();
    assert_eq!(weights.semantic, 250_000);
    assert_eq!(weights.relational, 200_000);
    assert_eq!(weights.activity, 200_000);
    assert_eq!(weights.temporal, 150_000);
    assert_eq!(weights.attention, 200_000);
}

#[test]
fn each_component_has_its_weight() {
    let w = DistanceWeights::default();
    assert_eq!(compute_distance(UNIT, 0, 0, 0, 0, &w), fixed(0.25));
    assert_eq!(compute_distance(0, UNIT, 0, 0, 0, &w), fixed(0.20));
    assert_eq!(compute_distance(0, 0, UNIT, 0, 0, &w), fixed(0.20));
    assert_eq!(compute_distance(0, 0, 0, UNIT, 0, &w), fixed(0.15));
    assert_eq!(compute_distance(0, 0, 0, 0, UNIT, &w), fixed(0.20));
    assert_eq!(
        compute_distance(fixed(0.1), fixed(0.2), fixed(0.3), fixed(0.4), fixed(0.5), &w),
        fixed(0.285)
    );
}

#[test]
fn negative_weights_are_weighed_too() {
    let w = DistanceWeights {
        semantic: -1_000_000,
        relational: 1_000_000,
        activity: 0,
        temporal: 0,
        attention: 0,
    };
    assert_eq!(compute_distance(fixed(0.25), fixed(0.75), 0, 0, 0, &w), fixed(0.5));
    assert_eq!(compute_distance(fixed(0.75), fixed(0.25), 0, 0, 0, &w), 0);
}

#[test]
fn agreeing_components_make_that_distance() {
    let w = DistanceWeights::default();
    for x in [0.0, 0.125, 0.5, 0.9, 1.0] {
        let c = fixed(x);
        assert_eq!(compute_distance(c, c, c, c, c, &w), c);
    }
}

#[test]
fn a_larger_component_never_shrinks_a_distance() {
    let w = DistanceWeights::default();
    let a = compute_distance(fixed(0.1), fixed(0.5), fixed(0.5), fixed(0.2), fixed(0.5), &w);
    let b = compute_distance(fixed(0.1), fixed(0.5), fixed(0.6), fixed(0.2), fixed(0.5), &w);
    assert!(a < b);
}

#[test]
fn steps_make_exact_distances() {
    assert_eq!(relational_dist(Some(1)), fixed(0.5));
    assert_eq!(relational_dist(Some(3)), fixed(0.75));
    assert_eq!(relational_dist(Some(9)), fixed(0.9));
    assert!(relational_dist(Some(2)) <= relational_dist(Some(3)));
    assert!(relational_dist(Some(usize::MAX)) <= relational_dist(None));
}

#[test]
fn degrees_make_exact_components() {
    assert_eq!(degree_dist(0), NEUTRAL);
    assert_eq!(degree_dist(1), fixed(0.75));
    assert_eq!(degree_dist(2), fixed(0.5));
    assert_eq!(degree_dist(3), fixed(0.25));
    assert_eq!(degree_dist(4), 0);
    assert_eq!(degree_dist(400), 0);
}

#[test]
fn visits_make_exact_components() {
    assert_eq!(visits_dist(0, 7), NEUTRAL);
    assert_eq!(visits_dist(1, 1), fixed(0.5));
    assert_eq!(visits_dist(1, 3), fixed(0.75));
    assert_eq!(visits_dist(3, 3), fixed(0.25));
    assert_eq!(visits_dist(5, 3), 0);
}

#[test]
fn an_empty_field_has_fixed_thresholds() {
    let dt = DynamicThresholds::from_distances(&vec![], fixed(0.3), fixed(0.7));
    assert_eq!(dt.near, EMPTY_NEAR);
    assert_eq!(dt.horizon, EMPTY_HORIZON);
    assert_eq!(EMPTY_NEAR, fixed(0.35));
    assert_eq!(EMPTY_HORIZON, fixed(0.65));
}

#[test]
fn the_horizon_has_a_least_width() {
    let dt = DynamicThresholds::from_distances(&vec![fixed(0.4); 5], fixed(0.3), fixed(0.7));
    assert_eq!(dt.near, fixed(0.4));
    assert_eq!(dt.horizon, fixed(0.45));
    assert_eq!(MARGIN, fixed(0.05));
}

#[test]
fn shares_outside_their_range_take_the_ends() {
    let dists = vec![fixed(0.6), fixed(0.2), fixed(0.4)];
    let dt = DynamicThresholds::from_distances(&dists, fixed(-1.0), fixed(9.0));
    assert_eq!(dt.near, fixed(0.2));
    assert_eq!(dt.horizon, fixed(0.6));
}

#[test]
fn half_a_rank_is_rounded_up() {
    let dists = vec![fixed(0.1), fixed(0.9)];
    let dt = DynamicThresholds::from_distances(&dists, fixed(0.5), fixed(0.5));
    assert_eq!(dt.near, fixed(0.9));
}

#[test]
fn something_is_near_wherever_there_is_anything() {
    let dists = vec![fixed(0.9), fixed(0.8), fixed(0.95)];
    let dt = DynamicThresholds::from_distances(&dists, 0, fixed(0.7));
    assert_eq!(dt.classify(fixed(0.8)), Visibility::Near);
    assert_eq!(dt.classify(fixed(0.9)), Visibility::Horizon);
}

#[test]
fn thresholds_belong_to_the_nearer_side() {
    let dt = DynamicThresholds { near: 10, horizon: 20 };
    assert_eq!(dt.classify(10), Visibility::Near);
    assert_eq!(dt.classify(11), Visibility::Horizon);
    assert_eq!(dt.classify(20), Visibility::Horizon);
    assert_eq!(dt.classify(21), Visibility::Beyond);
    assert_eq!(Visibility::default(), Visibility::Beyond);
}
