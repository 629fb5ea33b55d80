use raytracer::random::{uniform, uniform_unit};
use raytracer::scalar::{Scalar, RAW_MAX, SCALE};
use raytracer::vec3::Vec3;

fn v(x: i64, y: i64, z: i64) -> Vec3 {
    Vec3::new(Scalar::from_raw(x), Scalar::from_raw(y), Scalar::from_raw(z))
}

const ONE: i64 = SCALE;

#[test]
fn new_keeps_the_components() {
    let a = v(1, -2, 3);
    assert_eq!(a.x().raw(), 1);
    assert_eq!(a.y().raw(), -2);
    assert_eq!(a.z().raw(), 3);
}

#[test]
fn add_and_sub_work_by_component() {
    let a = v(ONE, 2 * ONE, 3 * ONE);
    let b = v(4 * ONE, -5 * ONE, 6 * ONE);
    assert_eq!(a.add(b), v(5 * ONE, -3 * ONE, 9 * ONE));
    assert_eq!(a.sub(b), v(-3 * ONE, 7 * ONE, -3 * ONE));
    assert_eq!(a.neg(), v(-ONE, -2 * ONE, -3 * ONE));
}

#[test]
fn add_saturates_by_component() {
    assert_eq!(v(RAW_MAX, -RAW_MAX, 0).add(v(1, -1, 1)), v(RAW_MAX, -RAW_MAX, 1));
}

#[test]
fn assigning_forms_agree_with_the_plain_ones() {
    let a = v(ONE, 2 * ONE, -3 * ONE);
    let b = v(4 * ONE, -5 * ONE, 6 * ONE);
    let k = Scalar::from_raw(-1_500_000_000);
    let mut c = a;
    c.add_assign(b);
    assert_eq!(c, a.add(b));
    let mut c = a;
    c.sub_assign(b);
    assert_eq!(c, a.sub(b));
    let mut c = a;
    c.mul_assign(k);
    assert_eq!(c, v(-1_500_000_000, -3_000_000_000, 4_500_000_000));
    let mut c = a;
    c.div_assign(Scalar::from_int(4));
    assert_eq!(c, v(250_000_000, 500_000_000, -750_000_000));
}

#[test]
fn mul_scales_and_div_divides_every_component() {
    let a = v(ONE, 2 * ONE, -3 * ONE);
    assert_eq!(a.mul(Scalar::from_raw(-1_500_000_000)), v(-1_500_000_000, -3_000_000_000, 4_500_000_000));
    assert_eq!(a.div(Scalar::from_int(4)), v(250_000_000, 500_000_000, -750_000_000));
}

#[test]
fn mul_vec_tints_by_component() {
    let light = v(500_000_000, 700_000_000, ONE);
    let albedo = v(800_000_000, 800_000_000, 0);
    assert_eq!(light.mul_vec(albedo), v(400_000_000, 560_000_000, 0));
}

#[test]
fn dot_and_cross_products() {
    let a = v(ONE, 2 * ONE, 3 * ONE);
    let b = v(4 * ONE, -5 * ONE, 6 * ONE);
    assert_eq!(a.dot(b).raw(), 12 * ONE);
    assert_eq!(a.cross(b), v(27 * ONE, 6 * ONE, -13 * ONE));
    assert_eq!(b.cross(a), v(-27 * ONE, -6 * ONE, 13 * ONE));
}

#[test]
fn length_and_squared_length() {
    let a = v(3 * ONE, 4 * ONE, 0);
    assert_eq!(a.squared_length().raw(), 25 * ONE);
    assert_eq!(a.length().raw(), 5 * ONE);
    assert_eq!(v(ONE, ONE, ONE).length().raw(), 1_732_050_807);
}

#[test]
fn normalized_divides_by_the_length() {
    assert_eq!(v(3 * ONE, 4 * ONE, 0).normalized(), v(600_000_000, 800_000_000, 0));
    assert_eq!(v(ONE, ONE, ONE).normalized(), v(577_350_269, 577_350_269, 577_350_269));
    assert_eq!(v(0, -7 * ONE, 0).normalized(), v(0, -ONE, 0));
}

#[test]
fn near_zero_asks_every_component_to_lie_below_the_threshold() {
    assert!(v(0, 0, 0).near_zero());
    assert!(v(9, 9, 9).near_zero());
    assert!(v(-9, 9, -9).near_zero());
    assert!(!v(10, 0, 0).near_zero());
    assert!(!v(0, 10, 0).near_zero());
    assert!(!v(0, 0, 10).near_zero());
    assert!(!v(ONE, 0, 0).near_zero());
}

#[test]
fn near_zero_goes_by_magnitude() {
    assert!(!v(-ONE, -ONE, -ONE).near_zero());
    assert!(!v(-10, 0, 0).near_zero());
    assert!(!v(0, -10, 0).near_zero());
    assert!(!v(0, 0, -10).near_zero());
    assert!(!v(-500_000_000, 0, -ONE).near_zero());
}

#[test]
fn length_of_a_short_vector_is_not_lost_to_rounding() {
    assert_eq!(v(0, 20_000, 0).squared_length().raw(), 0);
    assert_eq!(v(0, 20_000, 0).length().raw(), 20_000);
    assert_eq!(v(10_000, -20_000, 5).length().raw(), 22_360);
    assert_eq!(v(1, 0, 0).length().raw(), 1);
    assert_eq!(v(0, 0, 0).length().raw(), 0);
}

#[test]
fn length_saturates_only_beyond_the_range() {
    assert_eq!(v(96_000 * ONE, 0, 0).length().raw(), 96_000 * ONE);
    assert_eq!(v(3_000_000 * ONE, -4_000_000 * ONE, 0).length().raw(), 5_000_000 * ONE);
    assert_eq!(v(RAW_MAX, 0, 0).length().raw(), RAW_MAX);
    assert_eq!(v(RAW_MAX, RAW_MAX, RAW_MAX).length().raw(), RAW_MAX);
}

#[test]
fn normalized_of_a_short_vector_has_unit_length() {
    assert_eq!(v(0, 20_000, 0).normalized(), v(0, ONE, 0));
    assert_eq!(v(-30_000, 0, 40_000).normalized(), v(-600_000_000, 0, 800_000_000));
    assert_eq!(v(RAW_MAX, RAW_MAX, RAW_MAX).normalized(), v(ONE, ONE, ONE));
}

#[test]
fn normalized_of_the_zero_vector_is_the_zero_vector() {
    assert_eq!(v(0, 0, 0).normalized(), v(0, 0, 0));
}

#[test]
fn reflect_about_an_axis_keeps_the_length() {
    let incoming = v(ONE, -ONE, 0);
    let reflected = incoming.reflect(v(0, ONE, 0));
    assert_eq!(reflected, v(ONE, ONE, 0));
    assert_eq!(reflected.length(), incoming.length());
}

#[test]
fn reflect_about_a_slanted_normal_keeps_the_length_within_rounding() {
    let incoming = v(300_000_000, -700_000_000, 200_000_000);
    let normal = v(ONE, ONE, 0).normalized();
    let reflected = incoming.reflect(normal);
    assert_eq!(reflected, v(699_999_999, -300_000_001, 200_000_000));
    let drift = reflected.length().sub(incoming.length()).abs();
    assert!(drift.raw() <= 10);
}

#[test]
fn refract_bends_toward_the_normal_in_a_denser_medium() {
    let incoming = v(ONE, -ONE, 0).normalized();
    let normal = v(0, ONE, 0);
    let ratio = Scalar::one().div(Scalar::from_raw(1_500_000_000));
    assert_eq!(incoming.refract(normal, ratio), v(471_404_520, -881_917_104, 0));
}

#[test]
fn refract_satisfies_snells_law() {
    let incoming = v(ONE, -ONE, 0).normalized();
    let normal = v(0, ONE, 0);
    let ratio = Scalar::one().div(Scalar::from_raw(1_500_000_000));
    let refracted = incoming.refract(normal, ratio);
    let sin_in = incoming.cross(normal).length();
    let sin_out = refracted.cross(normal).length();
    let drift = sin_out.sub(ratio.mul(sin_in)).abs();
    assert!(drift.raw() <= 10);
    let unit_drift = refracted.length().sub(Scalar::one()).abs();
    assert!(unit_drift.raw() <= 10);
}

#[test]
fn refract_at_equal_indices_goes_straight_on() {
    let incoming = v(ONE, -ONE, 0).normalized();
    let refracted = incoming.refract(v(0, ONE, 0), Scalar::one());
    assert_eq!(refracted, v(707_106_781, -707_106_781, 0));
    assert_eq!(v(0, -ONE, 0).refract(v(0, ONE, 0), Scalar::from_raw(500_000_000)), v(0, -ONE, 0));
}

#[test]
fn channel_scales_the_gamma_corrected_mean() {
    assert_eq!(Vec3::channel(Scalar::one(), 1), 255);
    assert_eq!(Vec3::channel(Scalar::zero(), 1), 0);
    assert_eq!(Vec3::channel(Scalar::from_raw(250_000_000), 1), 128);
    assert_eq!(Vec3::channel(Scalar::from_raw(500_000_000), 1), 181);
    assert_eq!(Vec3::channel(Scalar::from_int(50), 200), 128);
    assert_eq!(Vec3::channel(Scalar::from_int(2), 2), 255);
}

#[test]
fn channel_limits_values_out_of_range() {
    assert_eq!(Vec3::channel(Scalar::from_int(4), 1), 255);
    assert_eq!(Vec3::channel(Scalar::one().neg(), 1), 0);
    assert_eq!(Vec3::channel(Scalar::infinity(), 1), 255);
    assert_eq!(Vec3::channel(Scalar::one(), 0), 255);
    assert_eq!(Vec3::channel(Scalar::zero(), 0), 0);
}

#[test]
fn format_color_of_full_white_is_255_three_times() {
    assert_eq!(v(ONE, ONE, ONE).format_color(1), "255 255 255");
}

#[test]
fn format_color_of_black_is_zero_three_times() {
    assert_eq!(v(0, 0, 0).format_color(1), "0 0 0");
}

#[test]
fn format_color_averages_the_samples() {
    assert_eq!(v(50 * ONE, 0, 200 * ONE).format_color(200), "128 0 255");
    assert_eq!(v(250_000_000, 500_000_000, 4 * ONE).format_color(1), "128 181 255");
}

#[test]
fn uniform_stays_in_its_range_and_moves() {
    let low = Scalar::from_raw(5);
    let high = Scalar::from_raw(1_000_000_005);
    let mut moved = false;
    for _ in 0..200 {
        let x = uniform(low, high);
        assert!(low.le(x) && x.lt(high));
        if x != low {
            moved = true;
        }
    }
    assert!(moved);
}

#[test]
fn uniform_of_a_range_of_one_value_gives_that_value() {
    let x = uniform(Scalar::from_raw(-3), Scalar::from_raw(-2));
    assert_eq!(x.raw(), -3);
}

#[test]
fn uniform_unit_stays_below_one_and_moves() {
    let mut distinct = false;
    let first = uniform_unit();
    for _ in 0..200 {
        let x = uniform_unit();
        assert!(x.raw() >= 0 && x.raw() < SCALE);
        if x != first {
            distinct = true;
        }
    }
    assert!(distinct);
}

#[test]
fn random_in_unit_sphere_is_shorter_than_one() {
    for _ in 0..500 {
        let p = Vec3::random_in_unit_sphere();
        assert!(p.length().lt(Scalar::one()));
        assert!(p.x().raw() >= -SCALE && p.x().raw() < SCALE);
        assert!(p.y().raw() >= -SCALE && p.y().raw() < SCALE);
        assert!(p.z().raw() >= -SCALE && p.z().raw() < SCALE);
    }
}

#[test]
fn random_in_unit_sphere_varies() {
    let first = Vec3::random_in_unit_sphere();
    let mut distinct = false;
    for _ in 0..100 {
        if Vec3::random_in_unit_sphere() != first {
            distinct = true;
        }
    }
    assert!(distinct);
}

#[test]
fn hemisphere_from_keeps_a_point_of_positive_length() {
    let p = v(100_000_000, -200_000_000, 300_000_000);
    assert_eq!(Vec3::hemisphere_from(p), p);
}

#[test]
fn hemisphere_from_turns_a_point_whose_squared_length_vanishes() {
    let p = v(10_000, -20_000, 5);
    assert_eq!(p.squared_length().raw(), 0);
    assert_eq!(Vec3::hemisphere_from(p), v(-10_000, 20_000, -5));
}

#[test]
fn random_in_hemisphere_is_no_longer_than_one() {
    for _ in 0..500 {
        let p = Vec3::random_in_hemisphere();
        assert!(p.length().lt(Scalar::one()));
    }
}
