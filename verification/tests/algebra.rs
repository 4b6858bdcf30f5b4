use leonardo_engine::algebra::fixed::{fx_div, fx_mul, fx_sqrt, isqrt, quot_wide, LIMIT, ONE};
use leonardo_engine::algebra::utility::{random_fraction, random_in_range};
use leonardo_engine::algebra::vec3::{azimuth_of, Vec3};

fn fx(value: f64) -> i64 {
    (value * 65536.0).round() as i64
}

fn close(a: i64, b: f64, ulps: i64) -> bool {
    (a - fx(b)).abs() <= ulps
}

#[test]
fn test_div() {
    let vec = Vec3::new(fx(2.0), fx(2.0), fx(2.0));
    let half = vec / fx(2.0);
    println!("[{}, {}, {}]", half.x(), half.y(), half.z());
    assert_eq!((half.x(), half.y(), half.z()), (ONE, ONE, ONE));
}

#[test]
fn integer_roots_round_down() {
    assert_eq!(isqrt(0), 0);
    assert_eq!(isqrt(1), 1);
    assert_eq!(isqrt(15), 3);
    assert_eq!(isqrt(16), 4);
    assert_eq!(isqrt(17), 4);
    assert_eq!(isqrt(u128::MAX), u64::MAX);
    assert_eq!(isqrt(1u128 << 126), 1u64 << 63);
}

#[test]
fn quotients_round_toward_zero() {
    assert_eq!(quot_wide(7, 2), 3);
    assert_eq!(quot_wide(-7, 2), -3);
    assert_eq!(quot_wide(7, -2), -3);
    assert_eq!(quot_wide(-7, -2), 3);
    assert_eq!(quot_wide(0, -5), 0);
}

#[test]
fn scalar_products_and_quotients() {
    assert_eq!(fx_mul(fx(-1.5), fx(0.5)), fx(-0.75));
    assert_eq!(fx_mul(1, 1), 0);
    assert_eq!(fx_mul(-1, 1), 0);
    assert_eq!(fx_mul(fx(3.0), fx(4.0)), fx(12.0));
    assert_eq!(fx_div(ONE, 3 * ONE), 21845);
    assert_eq!(fx_div(-ONE, 3 * ONE), -21845);
    assert_eq!(fx_div(fx(12.0), fx(-4.0)), fx(-3.0));
}

#[test]
fn scalar_roots() {
    assert_eq!(fx_sqrt(0), 0);
    assert_eq!(fx_sqrt(ONE), ONE);
    assert_eq!(fx_sqrt(ONE / 4), ONE / 2);
    assert_eq!(fx_sqrt(2 * ONE), 92681);
    assert_eq!(fx_sqrt(fx(9.0)), fx(3.0));
}

#[test]
fn vector_sums_and_differences() {
    let a = Vec3::new(fx(3.0), fx(-2.0), fx(5.0));
    let b = Vec3::new(fx(-2.0), fx(3.0), fx(1.0));
    let sum = a + b;
    assert_eq!((sum.x(), sum.y(), sum.z()), (fx(1.0), fx(1.0), fx(6.0)));
    let difference = a - b;
    assert_eq!((difference.x(), difference.y(), difference.z()), (fx(5.0), fx(-5.0), fx(4.0)));
    let negated = -a;
    assert_eq!((negated.x(), negated.y(), negated.z()), (fx(-3.0), fx(2.0), fx(-5.0)));
}

#[test]
fn vector_scaling_and_pointwise_product() {
    let v = Vec3::new(fx(1.0), fx(-2.0), fx(3.0));
    let scaled = v * fx(3.5);
    assert_eq!((scaled.x(), scaled.y(), scaled.z()), (fx(3.5), fx(-7.0), fx(10.5)));
    let shrunk = v / fx(2.0);
    assert_eq!((shrunk.x(), shrunk.y(), shrunk.z()), (fx(0.5), fx(-1.0), fx(1.5)));
    let w = Vec3::new(fx(0.5), fx(0.25), fx(-2.0));
    let product = v * w;
    assert_eq!((product.x(), product.y(), product.z()), (fx(0.5), fx(-0.5), fx(-6.0)));
}

#[test]
fn dot_and_cross_products() {
    let v = Vec3::new(fx(1.0), fx(2.0), fx(3.0));
    let w = Vec3::new(fx(2.0), fx(3.0), fx(4.0));
    assert_eq!(v.dot(w), fx(20.0));
    assert_eq!(v.inner(w), 20 * (ONE as i128) * (ONE as i128));
    let c = v.cross(w);
    assert_eq!((c.x(), c.y(), c.z()), (fx(-1.0), fx(2.0), fx(-1.0)));
    let d = w.cross(v);
    assert_eq!((d.x(), d.y(), d.z()), (fx(1.0), fx(-2.0), fx(1.0)));
}

#[test]
fn lengths() {
    let v = Vec3::new(fx(3.0), fx(0.0), fx(-4.0));
    assert_eq!(v.length_square(), fx(25.0));
    assert_eq!(v.length(), fx(5.0));
    assert_eq!(Vec3::new(ONE, 0, 0).length(), ONE);
    let w = Vec3::new(fx(1.0), fx(2.0), fx(3.0));
    assert_eq!(w.length_square(), fx(14.0));
    assert_eq!(w.length(), 245213);
    assert!(Vec3::zero().is_zero());
    assert!(!w.is_zero());
}

#[test]
fn unit_vectors_of_axes_are_exact() {
    let u = Vec3::unit_vector(Vec3::new(0, 0, fx(-7.0)));
    assert_eq!((u.x(), u.y(), u.z()), (0, 0, -ONE));
    let v = Vec3::unit_vector(Vec3::new(fx(3.0), 0, fx(4.0)));
    assert_eq!((v.x(), v.y(), v.z()), (39321, 0, 52428));
}

#[test]
fn unit_vectors_have_unit_length() {
    let inputs = [
        (fx(1.0), fx(2.0), fx(3.0)),
        (1, 1, 0),
        (-5, 3, 2),
        (LIMIT, -LIMIT, LIMIT),
        (fx(0.001), fx(-1000.0), fx(13.0)),
    ];
    for (x, y, z) in inputs {
        let u = Vec3::unit_vector(Vec3::new(x, y, z));
        let norm2 = u.inner(u);
        assert!(norm2 < (ONE as i128 + 1) * (ONE as i128 + 1));
        assert!(norm2 >= (ONE as i128 - 2) * (ONE as i128 - 2));
    }
    let u = Vec3::unit_vector(Vec3::new(fx(1.0), fx(2.0), fx(3.0)));
    assert!(close(u.x(), 0.26726124, 1));
    assert!(close(u.y(), 0.5345225, 1));
    assert!(close(u.z(), 0.8017837, 1));
}

#[test]
fn checked_construction_holds_the_limit() {
    assert!(Vec3::checked(LIMIT, -LIMIT, 0).is_some());
    assert!(Vec3::checked(LIMIT + 1, 0, 0).is_none());
    assert!(Vec3::checked(0, -LIMIT - 1, 0).is_none());
    assert!(Vec3::checked(0, 0, i64::MAX).is_none());
    let v = Vec3::checked(1, 2, 3).unwrap();
    assert_eq!((v.x(), v.y(), v.z()), (1, 2, 3));
    assert!(Vec3::new(ONE, 0, ONE / 2).is_fraction());
    assert!(!Vec3::new(ONE + 1, 0, 0).is_fraction());
    assert!(!Vec3::new(0, -1, 0).is_fraction());
}

#[test]
fn points_on_the_sphere_from_height_and_azimuth() {
    let top = Vec3::unit_from(ONE, ONE, 0);
    assert_eq!((top.x(), top.y(), top.z()), (0, 0, ONE));
    let east = Vec3::unit_from(0, ONE, 0);
    assert_eq!((east.x(), east.y(), east.z()), (ONE, 0, 0));
    let north = Vec3::unit_from(0, 0, -ONE);
    assert_eq!((north.x(), north.y(), north.z()), (0, -ONE, 0));
    let p = Vec3::unit_from(ONE / 2, 39321, 52428);
    assert_eq!((p.x(), p.y(), p.z()), (34052, 45403, ONE / 2));
}

#[test]
fn random_scalars_stay_in_range() {
    assert_eq!(random_in_range(5, 6), 5);
    assert_eq!(random_in_range(-3, -2), -3);
    let mut seen_low = false;
    let mut seen_high = false;
    for _ in 0..2000 {
        let r = random_in_range(-ONE, ONE);
        assert!(-ONE <= r && r < ONE);
        seen_low |= r < 0;
        seen_high |= r > 0;
        let f = random_fraction();
        assert!(0 <= f && f < ONE);
    }
    assert!(seen_low && seen_high);
}

#[test]
fn random_vectors_stay_in_range() {
    for _ in 0..500 {
        let v = Vec3::random();
        assert!(v.is_fraction() && v.x() < ONE && v.y() < ONE && v.z() < ONE);
        let w = Vec3::random_in_range(fx(0.5), fx(1.0));
        assert!(fx(0.5) <= w.x() && w.x() < fx(1.0));
        assert!(fx(0.5) <= w.y() && w.y() < fx(1.0));
        assert!(fx(0.5) <= w.z() && w.z() < fx(1.0));
        let s = Vec3::random_in_unit_sphere();
        assert!(s.inner(s) < (ONE as i128) * (ONE as i128));
        let normal = Vec3::new(0, ONE, 0);
        let h = Vec3::random_in_hemisphere(normal);
        assert!(h.inner(h) < (ONE as i128) * (ONE as i128));
        assert!(h.inner(normal) >= 0);
    }
}

#[test]
fn random_unit_vectors_lie_on_the_sphere() {
    let one = (ONE as i128) * (ONE as i128);
    let mut sum = (0i64, 0i64, 0i64);
    for _ in 0..2000 {
        let u = Vec3::random_unit_vector();
        let norm2 = u.inner(u);
        assert!(norm2 <= one + 4 * ONE as i128);
        assert!(norm2 >= one - 8 * ONE as i128);
        sum = (sum.0 + u.x(), sum.1 + u.y(), sum.2 + u.z());
    }
    assert!(sum.0.abs() < 200 * ONE && sum.1.abs() < 200 * ONE && sum.2.abs() < 200 * ONE);
}

#[test]
fn vectors_inside_the_unit_sphere() {
    assert!(Vec3::zero().is_inside_unit_sphere());
    assert!(Vec3::new(ONE - 1, 0, 0).is_inside_unit_sphere());
    assert!(!Vec3::new(ONE, 0, 0).is_inside_unit_sphere());
    assert!(!Vec3::new(fx(0.6), fx(0.6), fx(0.6)).is_inside_unit_sphere());
    assert!(Vec3::new(fx(0.5), fx(-0.5), fx(0.5)).is_inside_unit_sphere());
}

#[test]
fn vectors_turn_toward_the_normal() {
    let normal = Vec3::new(0, ONE, 0);
    let up = Vec3::new(fx(0.1), fx(0.2), fx(-0.3));
    let turned = up.toward(normal);
    assert_eq!((turned.x(), turned.y(), turned.z()), (fx(0.1), fx(0.2), fx(-0.3)));
    let down = Vec3::new(fx(0.1), fx(-0.2), fx(-0.3));
    let turned = down.toward(normal);
    assert_eq!((turned.x(), turned.y(), turned.z()), (fx(-0.1), fx(0.2), fx(0.3)));
    let level = Vec3::new(fx(0.1), 0, fx(-0.3));
    let turned = level.toward(normal);
    assert_eq!((turned.x(), turned.y(), turned.z()), (fx(0.1), 0, fx(-0.3)));
    let barely = Vec3::new(fx(0.1), -1, fx(-0.3));
    let turned = barely.toward(normal);
    assert_eq!((turned.x(), turned.y(), turned.z()), (fx(-0.1), 1, fx(0.3)));
}

#[test]
fn azimuths_of_points_in_the_disk() {
    assert_eq!(azimuth_of(0, 0), None);
    assert_eq!(azimuth_of(ONE, 0), None);
    assert_eq!(azimuth_of(fx(0.8), fx(0.7)), None);
    assert_eq!(azimuth_of(fx(0.5), 0), Some((ONE, 0)));
    assert_eq!(azimuth_of(0, fx(-0.25)), Some((0, -ONE)));
    assert_eq!(azimuth_of(fx(0.3), fx(0.4)), Some((39322, 52428)));
    assert_eq!(azimuth_of(1, 1), Some((46341, 46341)));
}
