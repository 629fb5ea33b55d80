use raytracer::hitable::HitRecord;
use raytracer::material::{Lambertian, MaterialKind};
use raytracer::scalar::{Scalar, SCALE};
use raytracer::vec3::Vec3;
use raytracer::wide::{mul_wide, Wide};
use std::rc::Rc;

const ONE: i64 = SCALE;

fn e(x: i64, y: i64, z: i64) -> Vec3 {
    Vec3::new(Scalar::from_raw(x), Scalar::from_raw(y), Scalar::from_raw(z))
}

#[test]
fn mul_wide_gives_both_halves_of_the_product() {
    assert_eq!(mul_wide(0, u128::MAX), Wide { hi: 0, lo: 0 });
    assert_eq!(mul_wide(3, 5), Wide { hi: 0, lo: 15 });
    assert_eq!(mul_wide(1 << 64, 1 << 64), Wide { hi: 1, lo: 0 });
    assert_eq!(mul_wide(u128::MAX, 2), Wide { hi: 1, lo: u128::MAX - 1 });
    assert_eq!(mul_wide(u128::MAX, u128::MAX), Wide { hi: u128::MAX - 1, lo: 1 });
    assert_eq!(
        mul_wide(0x1234_5678_9abc_def0_0fed_cba9_8765_4321, 0xfeed_face_cafe_beef_dead_beef_0bad_f00d),
        Wide { hi: 0x1220_da15_882d_6bf2_6661_0ea0_eaa1_3722, lo: 0x037f_de6a_1abf_cbc9_330d_49aa_9760_58ad }
    );
}

#[test]
fn wide_numbers_are_ordered_by_the_upper_half_first() {
    assert!(Wide { hi: 0, lo: u128::MAX }.le(Wide { hi: 1, lo: 0 }));
    assert!(!Wide { hi: 1, lo: 0 }.le(Wide { hi: 0, lo: u128::MAX }));
    assert!(Wide { hi: 2, lo: 7 }.le(Wide { hi: 2, lo: 7 }));
    assert!(!Wide { hi: 2, lo: 8 }.le(Wide { hi: 2, lo: 7 }));
    assert_eq!(Wide::from_u128(9), Wide { hi: 0, lo: 9 });
}

#[test]
fn wide_sum_and_difference_carry_between_the_halves() {
    let a = Wide { hi: 1, lo: u128::MAX };
    let b = Wide { hi: 2, lo: 3 };
    assert_eq!(a.add(b), Wide { hi: 4, lo: 2 });
    assert_eq!(a.add(b).sub(b), a);
    assert_eq!(b.sub(a), Wide { hi: 0, lo: 4 });
    assert_eq!(Wide { hi: 5, lo: 9 }.sub(Wide { hi: 2, lo: 4 }), Wide { hi: 3, lo: 5 });
}

#[test]
fn wide_isqrt_rounds_down() {
    assert_eq!(Wide { hi: 0, lo: 0 }.isqrt(), 0);
    assert_eq!(Wide { hi: 0, lo: 24 }.isqrt(), 4);
    assert_eq!(Wide { hi: 0, lo: 25 }.isqrt(), 5);
    assert_eq!(Wide { hi: 1, lo: 0 }.isqrt(), 1 << 64);
    assert_eq!(Wide { hi: 0, lo: u128::MAX }.isqrt(), (1 << 64) - 1);
    assert_eq!(Wide { hi: u128::MAX, lo: u128::MAX }.isqrt(), u128::MAX);
    assert_eq!(mul_wide(u128::MAX - 5, u128::MAX - 5).isqrt(), u128::MAX - 5);
}

#[test]
fn wide_div_capped_rounds_down_and_stops_at_the_cap() {
    assert_eq!(Wide { hi: 0, lo: 17 }.div_capped(5, 100), 3);
    assert_eq!(Wide { hi: 0, lo: 17 }.div_capped(5, 2), 2);
    assert_eq!(Wide { hi: 0, lo: 15 }.div_capped(5, 3), 3);
    assert_eq!(Wide { hi: 0, lo: 0 }.div_capped(7, 3), 0);
    assert_eq!(Wide { hi: 1, lo: 0 }.div_capped(1 << 64, u128::MAX), 1 << 64);
    assert_eq!(Wide { hi: 3, lo: 0 }.div_capped(1, 1_000), 1_000);
    assert_eq!(mul_wide(1_000_000_007, 999_999_937).div_capped(999_999_937, u128::MAX), 1_000_000_007);
}

#[test]
fn keeps_accepts_vectors_shorter_than_one() {
    assert!(e(0, 0, 0).keeps());
    assert!(e(999_999_999, 0, 0).keeps());
    assert!(!e(ONE, 0, 0).keeps());
    assert!(e(577_350_269, 577_350_269, 577_350_269).keeps());
    assert!(!e(577_350_270, 577_350_270, 577_350_270).keeps());
    assert!(!e(-ONE, -ONE, -ONE).keeps());
}

#[test]
fn first_kept_passes_over_rejected_candidates() {
    let candidates = vec![
        e(ONE, 0, 0),
        e(-900_000_000, 900_000_000, 0),
        e(100_000_000, -200_000_000, 300_000_000),
        e(0, 0, 0),
    ];
    assert_eq!(Vec3::first_kept(&candidates), Some(e(100_000_000, -200_000_000, 300_000_000)));
}

#[test]
fn first_kept_takes_the_first_of_several_kept() {
    let candidates = vec![e(0, 500_000_000, 0), e(0, 0, 0)];
    assert_eq!(Vec3::first_kept(&candidates), Some(e(0, 500_000_000, 0)));
}

#[test]
fn first_kept_is_nothing_where_every_candidate_is_rejected() {
    assert_eq!(Vec3::first_kept(&vec![e(ONE, 0, 0), e(0, -ONE, ONE)]), None);
    assert_eq!(Vec3::first_kept(&Vec::new()), None);
}

#[test]
fn scale_multiplies_with_the_scalar_on_the_left() {
    let v = e(ONE, 2 * ONE, -3 * ONE);
    let k = Scalar::from_raw(-1_500_000_000);
    assert_eq!(k.scale(v), e(-1_500_000_000, -3_000_000_000, 4_500_000_000));
    assert_eq!(k.scale(v), v.mul(k));
}

#[test]
fn get_reads_a_component_by_its_index() {
    let v = e(1, -2, 3);
    assert_eq!(v.get(0).raw(), 1);
    assert_eq!(v.get(1).raw(), -2);
    assert_eq!(v.get(2).raw(), 3);
}

#[test]
fn set_replaces_one_component() {
    let mut v = e(1, -2, 3);
    v.set(0, Scalar::from_raw(10));
    assert_eq!(v, e(10, -2, 3));
    v.set(1, Scalar::from_raw(20));
    assert_eq!(v, e(10, 20, 3));
    v.set(2, Scalar::from_raw(30));
    assert_eq!(v, e(10, 20, 30));
}

#[test]
fn to_text_writes_the_components_in_brackets() {
    assert_eq!(e(ONE, -500_000_000, 0).to_text(), "(1, -0.5, 0)");
    assert_eq!(e(0, -100_500_000_000, -ONE).to_text(), "(0, -100.5, -1)");
    assert_eq!(e(700_000_000, 300_000_000, 1).to_text(), "(0.7, 0.3, 0.000000001)");
}

#[test]
fn lambertian_direction_never_points_under_a_unit_normal() {
    let normal = e(600_000_000, 800_000_000, 0);
    assert_eq!(normal.length().raw(), ONE);
    let sample = e(-599_999_979, -800_000_015, 0);
    assert!(sample.keeps());
    let material = Rc::new(MaterialKind::Lambertian(Lambertian::new(e(ONE, ONE, ONE))));
    let rec = HitRecord::new(Scalar::one(), e(0, 0, 0), normal, true, material);
    let (_, scattered) = Lambertian::new(e(ONE, ONE, ONE)).scatter_with(&rec, sample);
    assert_eq!(scattered.direction(), e(21, -15, 0));
    assert_eq!(scattered.direction().dot(normal).raw(), 0);
    let exact = 21i128 * 600_000_000 - 15i128 * 800_000_000;
    assert!(exact > 0);
}
