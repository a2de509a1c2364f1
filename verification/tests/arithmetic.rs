use raymarch::scalar::{abs_i64, isqrt, mul_fixed, HALF, ONE};
use raymarch::vector::Vec3;

#[test]
fn isqrt_rounds_down() {
    assert_eq!(isqrt(0), 0);
    assert_eq!(isqrt(1), 1);
    assert_eq!(isqrt(2), 1);
    assert_eq!(isqrt(3), 1);
    assert_eq!(isqrt(4), 2);
    assert_eq!(isqrt(24), 4);
    assert_eq!(isqrt(25), 5);
    assert_eq!(isqrt(2_000_000_000_000), 1_414_213);
    assert_eq!(isqrt(1_000_000_000_000_000_000_000_000), 1_000_000_000_000);
    assert_eq!(isqrt(999_999_999_999_999_999_999_999), 999_999_999_999);
}

#[test]
fn isqrt_of_the_largest_argument() {
    let n: u128 = (1u128 << 126) - 1;
    let r = isqrt(n) as u128;
    assert!(r * r <= n);
    assert!((r + 1) * (r + 1) > n);
    assert_eq!(r, (1u128 << 63) - 1);
}

#[test]
fn mul_fixed_rounds_toward_zero() {
    assert_eq!(mul_fixed(ONE, ONE), ONE);
    assert_eq!(mul_fixed(HALF, HALF), 250_000);
    assert_eq!(mul_fixed(3, 333_333), 0);
    assert_eq!(mul_fixed(-3, 333_333), 0);
    assert_eq!(mul_fixed(1_500_000, -1_500_000), -2_250_000);
    assert_eq!(mul_fixed(7, 500_000), 3);
    assert_eq!(mul_fixed(-7, 500_000), -3);
}

#[test]
fn abs_i64_of_both_signs() {
    assert_eq!(abs_i64(-5), 5);
    assert_eq!(abs_i64(5), 5);
    assert_eq!(abs_i64(0), 0);
}

#[test]
fn vector_sums_and_differences() {
    let a = Vec3::new(1, 2, 3);
    let b = Vec3::new(10, 20, 30);
    assert_eq!(a.plus(b), Vec3::new(11, 22, 33));
    assert_eq!(a.minus(b), Vec3::new(-9, -18, -27));
    assert_eq!(a.negated(), Vec3::new(-1, -2, -3));
    assert_eq!(Vec3::zero(), Vec3::new(0, 0, 0));
}

#[test]
fn vector_scaled_by_a_factor() {
    let a = Vec3::new(ONE, -2 * ONE, HALF);
    assert_eq!(a.scaled(3 * ONE), Vec3::new(3 * ONE, -6 * ONE, 1_500_000));
    assert_eq!(a.scaled(HALF), Vec3::new(HALF, -ONE, 250_000));
}

#[test]
fn dot_and_cross_products() {
    let x = Vec3::new(ONE, 0, 0);
    let y = Vec3::new(0, ONE, 0);
    let z = Vec3::new(0, 0, ONE);
    assert_eq!(x.dot(y), 0);
    assert_eq!(x.dot(x), ONE);
    assert_eq!(x.cross(y), z);
    assert_eq!(y.cross(z), x);
    assert_eq!(z.cross(x), y);
    assert_eq!(y.cross(x), z.negated());
    let a = Vec3::new(2 * ONE, 3 * ONE, 4 * ONE);
    let b = Vec3::new(-ONE, HALF, 2 * ONE);
    assert_eq!(a.dot(b), 7_500_000);
    assert_eq!(a.cross(b), Vec3::new(4 * ONE, -8 * ONE, 4 * ONE));
}

#[test]
fn abs_max_and_largest_component() {
    let a = Vec3::new(-3, 2, -1);
    assert_eq!(a.abs(), Vec3::new(3, 2, 1));
    assert_eq!(a.max_with(Vec3::zero()), Vec3::new(0, 2, 0));
    assert_eq!(a.max_element(), 2);
    assert_eq!(Vec3::new(-3, -2, -1).max_element(), -1);
    assert_eq!(Vec3::new(5, -2, -1).max_element(), 5);
}

#[test]
fn length_rounds_down() {
    assert_eq!(Vec3::new(3 * ONE, 4 * ONE, 0).length(), 5 * ONE);
    assert_eq!(Vec3::new(ONE, ONE, ONE).length(), 1_732_050);
    assert_eq!(Vec3::zero().length(), 0);
    assert_eq!(Vec3::new(0, -7, 0).length(), 7);
}

#[test]
fn normalize_gives_unit_vectors() {
    assert_eq!(Vec3::new(0, 0, 5 * ONE).normalize(), Vec3::new(0, 0, ONE));
    assert_eq!(Vec3::new(-3 * ONE, 4 * ONE, 0).normalize(), Vec3::new(-600_000, 800_000, 0));
    assert_eq!(Vec3::new(0, ONE, ONE).normalize(), Vec3::new(0, 707_106, 707_106));
    assert_eq!(Vec3::new(0, -ONE, -ONE).normalize(), Vec3::new(0, -707_106, -707_106));
}

#[test]
fn normalize_gives_unit_length_to_short_vectors() {
    // The squared length of a unit vector is a million millions.
    let unit_squared = |v: Vec3| (v.x * v.x + v.y * v.y + v.z * v.z) as i128;
    let low: i128 = 999_998 * 999_998;
    let high: i128 = 1_000_001 * 1_000_001;
    let short = [
        Vec3::new(1, 1, 1),
        Vec3::new(1, 0, 0),
        Vec3::new(5, 5, 0),
        Vec3::new(-7, 3, 2),
        Vec3::new(400, -400, 399),
        Vec3::new(10, -10, 20),
        Vec3::new(1, -1_000_000_000, 3),
        Vec3::new(1_000_000_001, 1, -1),
        Vec3::new(4_000_000_000_000_000_000, -4_000_000_000_000_000_000, 1),
    ];
    for v in short {
        let n = v.normalize();
        assert!(low <= unit_squared(n) && unit_squared(n) < high);
        assert!(n.length() >= 999_998 && n.length() <= 1_000_000);
    }
    assert_eq!(Vec3::new(1, 1, 1).normalize(), Vec3::new(577_350, 577_350, 577_350));
    assert_eq!(Vec3::new(5, 5, 0).normalize(), Vec3::new(707_106, 707_106, 0));
    assert_eq!(Vec3::new(10, -10, 20).normalize(), Vec3::new(408_248, -408_248, 816_496));
}

#[test]
fn normalize_leaves_the_zero_vector() {
    assert_eq!(Vec3::zero().normalize(), Vec3::zero());
}

#[test]
fn is_within_tests_every_component() {
    assert!(Vec3::new(5, -5, 0).is_within(5));
    assert!(!Vec3::new(6, -5, 0).is_within(5));
    assert!(!Vec3::new(0, -6, 0).is_within(5));
    assert!(!Vec3::new(0, 0, 6).is_within(5));
}
