use menu_numerics::pi::leibniz_term;
use menu_numerics::pi::progress_basis_points;
use menu_numerics::pi::progress_percent_parts;

fn estimate(iterations: u64) -> f64 {
    let mut sum: f64 = 0.0;
    for i in 0..iterations {
        let (positive, denom) = leibniz_term(i).unwrap();
        let term = 4.0 / denom as f64;
        sum += if positive { term } else { -term };
    }
    sum
}

#[test]
fn term_shapes_alternate() {
    assert_eq!(leibniz_term(0), Some((true, 1)));
    assert_eq!(leibniz_term(1), Some((false, 3)));
    assert_eq!(leibniz_term(2), Some((true, 5)));
    assert_eq!(leibniz_term(3), Some((false, 7)));
}

#[test]
fn term_shape_at_the_word_boundary() {
    assert_eq!(leibniz_term((u64::MAX - 1) / 2), Some((false, u64::MAX)));
    assert_eq!(leibniz_term((u64::MAX - 1) / 2 + 1), None);
    assert_eq!(leibniz_term(u64::MAX), None);
}

#[test]
fn one_iteration_is_exactly_four() {
    assert_eq!(estimate(1), 4.0);
}

#[test]
fn two_iterations_match_the_series() {
    let expected = 4.0 - 4.0 / 3.0;
    assert!((estimate(2) - expected).abs() < 1e-12);
    assert!((estimate(2) - 2.6667).abs() < 1e-3);
}

#[test]
fn estimate_approaches_pi() {
    let rough = estimate(10_000);
    assert!((rough - std::f64::consts::PI).abs() < 1e-3);
    let finer = estimate(100_000);
    assert!((finer - std::f64::consts::PI).abs() < 1e-4);
}

#[test]
fn estimate_is_deterministic_across_runs() {
    let first = estimate(1_000);
    let second = estimate(1_000);
    assert!((first - second).abs() < 1e-9);
}

#[test]
fn progress_is_zero_before_any_work() {
    assert_eq!(progress_basis_points(0, 10), 0);
}

#[test]
fn progress_is_proportional() {
    assert_eq!(progress_basis_points(5, 10), 5000);
    assert_eq!(progress_basis_points(1, 3), 3333);
    assert_eq!(progress_basis_points(9999, 10000), 9999);
}

#[test]
fn progress_finishes_at_exactly_one_hundred_percent() {
    assert_eq!(progress_basis_points(10, 10), 10000);
    assert_eq!(progress_basis_points(15, 10), 10000);
    assert_eq!(progress_basis_points(u64::MAX, 1), 10000);
}

#[test]
fn percent_parts_reach_exactly_one_hundred() {
    assert_eq!(progress_percent_parts(10, 10), (100, 0));
    assert_eq!(progress_percent_parts(20, 10), (100, 0));
    assert_eq!(progress_percent_parts(1, 3), (33, 33));
    assert_eq!(progress_percent_parts(0, 3), (0, 0));
    assert_eq!(progress_percent_parts(9999, 10000), (99, 99));
}

#[test]
fn progress_never_overshoots() {
    for completed in 0..=30 {
        assert!(progress_basis_points(completed, 7) <= 10000);
    }
}
