use bevy_playground::fixed::{mul_div, mul_div_away, root, saturate, times, LIMIT, UNIT};
use bevy_playground::vector::{Vec2, FINE};

#[test]
fn saturate_keeps_what_fits() {
    assert_eq!(saturate(0), 0);
    assert_eq!(saturate(-5), -5);
    assert_eq!(saturate(LIMIT as i128), LIMIT);
    assert_eq!(saturate(-(LIMIT as i128)), -LIMIT);
}

#[test]
fn saturate_stops_at_the_limit() {
    assert_eq!(saturate(LIMIT as i128 + 1), LIMIT);
    assert_eq!(saturate(-(LIMIT as i128) - 1), -LIMIT);
    assert_eq!(saturate(i128::MAX), LIMIT);
    assert_eq!(saturate(i128::MIN), -LIMIT);
}

#[test]
fn mul_div_rounds_toward_zero() {
    assert_eq!(mul_div(7, 3, 2), 10);
    assert_eq!(mul_div(-7, 3, 2), -10);
    assert_eq!(mul_div(0, 3, 2), 0);
    assert_eq!(mul_div(-7, 0, 2), 0);
    assert_eq!(mul_div(6, 3, 2), 9);
}

#[test]
fn mul_div_away_rounds_away_from_zero() {
    assert_eq!(mul_div_away(7, 3, 2), 11);
    assert_eq!(mul_div_away(-7, 3, 2), -11);
    assert_eq!(mul_div_away(6, 3, 2), 9);
    assert_eq!(mul_div_away(-6, 3, 2), -9);
    assert_eq!(mul_div_away(0, 3, 2), 0);
    assert_eq!(mul_div_away(1, 1, 1_000_000_000_000), 1);
}

#[test]
fn mul_div_takes_the_widest_operands() {
    assert_eq!(mul_div(i64::MIN, u64::MAX, 1), -(1i128 << 63) * (u64::MAX as i128));
    assert_eq!(mul_div_away(i64::MAX, u64::MAX, u64::MAX), i64::MAX as i128);
}

#[test]
fn times_is_the_fixed_point_product() {
    assert_eq!(times(2 * UNIT, 3 * UNIT), 6 * UNIT);
    assert_eq!(times(-2 * UNIT, 3 * UNIT), -6 * UNIT);
    assert_eq!(times(2 * UNIT, -3 * UNIT), -6 * UNIT);
    assert_eq!(times(-2 * UNIT, -3 * UNIT), 6 * UNIT);
    assert_eq!(times(1, 1), 0);
    assert_eq!(times(-1, 1), 0);
    assert_eq!(times(1_500_000, 1_500_000), 2_250_000);
}

#[test]
fn times_saturates() {
    assert_eq!(times(LIMIT, LIMIT), LIMIT);
    assert_eq!(times(LIMIT, -LIMIT), -LIMIT);
    assert_eq!(times(i64::MIN, i64::MIN), LIMIT);
    assert_eq!(times(i64::MIN, i64::MAX), -LIMIT);
}

#[test]
fn root_is_the_integer_square_root() {
    assert_eq!(root(0), 0);
    assert_eq!(root(1), 1);
    assert_eq!(root(2), 1);
    assert_eq!(root(99), 9);
    assert_eq!(root(100), 10);
    assert_eq!(root(1_000_000_000_000_000_000_000_000_000_000_000_000), 1_000_000_000_000_000_000);
    assert_eq!(root(u128::MAX), u64::MAX);
}

#[test]
fn vector_validity_follows_the_limit() {
    assert!(Vec2::new(LIMIT, -LIMIT).is_valid());
    assert!(!Vec2::new(LIMIT + 1, 0).is_valid());
    assert!(!Vec2::new(0, -LIMIT - 1).is_valid());
    assert!(Vec2::zero().is_valid());
}

#[test]
fn heading_validity() {
    assert!(Vec2::new(UNIT, 0).is_heading());
    assert!(Vec2::new(0, -UNIT).is_heading());
    assert!(Vec2::new(707_106, -707_106).is_heading());
    assert!(Vec2::new(707_107, 707_107).is_heading());
    assert!(Vec2::new(600_000, 800_000).is_heading());
    assert!(Vec2::new(UNIT, 1_414).is_heading());
    assert!(!Vec2::new(UNIT, 1_415).is_heading());
    assert!(!Vec2::new(-UNIT, UNIT).is_heading());
    assert!(!Vec2::new(707_105, 707_105).is_heading());
    assert!(!Vec2::new(UNIT - 2, 0).is_heading());
    assert!(Vec2::new(UNIT - 1, 0).is_heading());
    assert!(!Vec2::new(0, 0).is_heading());
    assert!(!Vec2::new(UNIT + 1, 0).is_heading());
    assert!(!Vec2::new(i64::MIN, i64::MAX).is_heading());
}

#[test]
fn distance_squared_is_exact() {
    let a = Vec2::new(3 * UNIT, 0);
    let b = Vec2::new(0, 4 * UNIT);
    assert_eq!(a.distance_squared(&b), 25_000_000_000_000);
    assert_eq!(b.distance_squared(&a), 25_000_000_000_000);
    assert_eq!(a.distance_squared(&a), 0);
    let far = Vec2::new(LIMIT, LIMIT);
    let back = Vec2::new(-LIMIT, -LIMIT);
    assert_eq!(far.distance_squared(&back), 8_000_000_000_000_000_000_000_000_000_000_000_000);
}

#[test]
fn direction_has_length_one() {
    assert_eq!(Vec2::new(3, 4).normalized(), Some(Vec2::new(600_000, 800_000)));
    assert_eq!(Vec2::new(-3_000_000, 4_000_000).normalized(), Some(Vec2::new(-600_000, 800_000)));
    assert_eq!(Vec2::new(UNIT, UNIT).normalized(), Some(Vec2::new(707_106, 707_106)));
    assert_eq!(Vec2::new(5, -12).normalized(), Some(Vec2::new(384_615, -923_076)));
    assert_eq!(Vec2::new(-7, 0).normalized(), Some(Vec2::new(-UNIT, 0)));
}

#[test]
fn short_displacements_have_exact_headings() {
    assert_eq!(Vec2::new(1, 1).normalized(), Some(Vec2::new(707_107, 707_107)));
    assert_eq!(Vec2::new(0, -1).normalized(), Some(Vec2::new(0, -UNIT)));
    assert_eq!(Vec2::new(1, 3).normalized(), Some(Vec2::new(316_227, 948_683)));
    assert_eq!(Vec2::new(FINE + 1, 1).normalized(), Some(Vec2::new(UNIT, 0)));
}

#[test]
fn zero_has_no_direction() {
    assert_eq!(Vec2::zero().normalized(), None);
    let p = Vec2::new(5, -9);
    assert_eq!(p.direction_to(&p), None);
}

#[test]
fn direction_to_points_at_the_target() {
    let from = Vec2::new(-300 * UNIT, 0);
    let to = Vec2::new(300 * UNIT, 100 * UNIT);
    assert_eq!(from.direction_to(&to), Some(Vec2::new(986_393, 164_398)));
    assert_eq!(to.direction_to(&from), Some(Vec2::new(-986_393, -164_398)));
}

#[test]
fn direction_across_the_whole_plane() {
    let from = Vec2::new(-LIMIT, -LIMIT);
    let to = Vec2::new(LIMIT, LIMIT);
    assert_eq!(from.direction_to(&to), Some(Vec2::new(707_106, 707_106)));
}

#[test]
fn negated_and_scaled() {
    assert_eq!(Vec2::new(3, -4).negated(), Vec2::new(-3, 4));
    assert_eq!(Vec2::new(UNIT, 0).scaled(300 * UNIT), Vec2::new(300 * UNIT, 0));
    assert_eq!(Vec2::new(600_000, -800_000).scaled(10 * UNIT), Vec2::new(6_000_000, -8_000_000));
    assert_eq!(Vec2::new(LIMIT, -LIMIT).scaled(2 * UNIT), Vec2::new(LIMIT, -LIMIT));
}
