use raytracer::scalar::{Scalar, RAW_MAX, SCALE};

fn s(raw: i64) -> Scalar {
    Scalar::from_raw(raw)
}

#[test]
fn from_raw_keeps_the_value() {
    assert_eq!(s(1_500_000_000).raw(), 1_500_000_000);
    assert_eq!(s(-7).raw(), -7);
}

#[test]
fn from_raw_saturates_beyond_the_range() {
    assert_eq!(RAW_MAX, 4_611_686_018_427_387_903);
    assert_eq!(s(i64::MIN).raw(), -RAW_MAX);
    assert_eq!(s(i64::MAX).raw(), RAW_MAX);
    assert_eq!(s(RAW_MAX + 1).raw(), RAW_MAX);
    assert_eq!(s(-RAW_MAX - 1).raw(), -RAW_MAX);
    assert_eq!(s(RAW_MAX).raw(), RAW_MAX);
}

#[test]
fn signed_builds_from_sign_and_magnitude() {
    assert_eq!(Scalar::signed(false, 5).raw(), 5);
    assert_eq!(Scalar::signed(true, 5).raw(), -5);
    assert_eq!(Scalar::signed(true, 0).raw(), 0);
    assert_eq!(Scalar::signed(false, u128::MAX).raw(), RAW_MAX);
    assert_eq!(Scalar::signed(true, u128::MAX).raw(), -RAW_MAX);
}

#[test]
fn dot3_rounds_the_exact_sum_once() {
    let third = s(400_000_000);
    assert_eq!(Scalar::dot3(s(1), s(1), s(1), third, third, third).raw(), 1);
    assert_eq!(Scalar::dot3(s(-1), s(-1), s(-1), third, third, third).raw(), -1);
    assert_eq!(s(1).mul(third).raw(), 0);
    assert_eq!(Scalar::dot3(s(21), s(-15), s(0), s(600_000_000), s(800_000_000), s(0)).raw(), 0);
    assert_eq!(
        Scalar::dot3(s(RAW_MAX), s(RAW_MAX), s(RAW_MAX), s(RAW_MAX), s(RAW_MAX), s(RAW_MAX)).raw(),
        RAW_MAX
    );
    assert_eq!(
        Scalar::dot3(s(RAW_MAX), s(RAW_MAX), s(RAW_MAX), s(RAW_MAX), s(-RAW_MAX), s(0)).raw(),
        0
    );
}

#[test]
fn hypot_takes_the_root_of_the_exact_sum_of_squares() {
    assert_eq!(Scalar::hypot(s(3), s(-4), s(0)).raw(), 5);
    assert_eq!(Scalar::hypot(s(1), s(1), s(1)).raw(), 1);
    assert_eq!(Scalar::hypot(s(RAW_MAX), s(RAW_MAX), s(RAW_MAX)).raw(), RAW_MAX);
}

#[test]
fn to_text_writes_the_value_in_decimal() {
    assert_eq!(s(0).to_text(), "0");
    assert_eq!(Scalar::one().to_text(), "1");
    assert_eq!(Scalar::one().neg().to_text(), "-1");
    assert_eq!(s(500_000_000).to_text(), "0.5");
    assert_eq!(s(-100_500_000_000).to_text(), "-100.5");
    assert_eq!(s(1).to_text(), "0.000000001");
    assert_eq!(s(-10).to_text(), "-0.00000001");
    assert_eq!(s(1_000_000_001).to_text(), "1.000000001");
    assert_eq!(s(1_230_000_000).to_text(), "1.23");
    assert_eq!(s(RAW_MAX).to_text(), "4611686018.427387903");
    assert_eq!(s(-RAW_MAX).to_text(), "-4611686018.427387903");
}

#[test]
fn one_holds_a_billion_units() {
    assert_eq!(Scalar::one().raw(), SCALE);
    assert_eq!(Scalar::zero().raw(), 0);
    assert_eq!(Scalar::infinity().raw(), RAW_MAX);
}

#[test]
fn from_int_scales_and_saturates() {
    assert_eq!(Scalar::from_int(3).raw(), 3_000_000_000);
    assert_eq!(Scalar::from_int(-100).raw(), -100_000_000_000);
    assert_eq!(Scalar::from_int(4_611_686_018).raw(), 4_611_686_018_000_000_000);
    assert_eq!(Scalar::from_int(4_611_686_019).raw(), RAW_MAX);
    assert_eq!(Scalar::from_int(i64::MIN).raw(), -RAW_MAX);
    assert_eq!(Scalar::from_u64(200).raw(), 200_000_000_000);
    assert_eq!(Scalar::from_u64(u64::MAX).raw(), RAW_MAX);
}

#[test]
fn add_and_sub_saturate_at_the_bounds() {
    assert_eq!(s(1_500_000_000).add(s(2_250_000_000)).raw(), 3_750_000_000);
    assert_eq!(s(1_500_000_000).sub(s(2_250_000_000)).raw(), -750_000_000);
    assert_eq!(s(RAW_MAX).add(s(1)).raw(), RAW_MAX);
    assert_eq!(s(-RAW_MAX).sub(s(1)).raw(), -RAW_MAX);
    assert_eq!(s(RAW_MAX).sub(s(-RAW_MAX)).raw(), RAW_MAX);
}

#[test]
fn neg_and_abs_are_exact() {
    assert_eq!(s(5).neg().raw(), -5);
    assert_eq!(s(RAW_MAX).neg().raw(), -RAW_MAX);
    assert_eq!(s(-RAW_MAX).neg().raw(), RAW_MAX);
    assert_eq!(s(-12).abs().raw(), 12);
    assert_eq!(s(12).abs().raw(), 12);
}

#[test]
fn mul_rounds_toward_zero() {
    assert_eq!(s(1_500_000_000).mul(s(2_500_000_000)).raw(), 3_750_000_000);
    assert_eq!(s(333_333_333).mul(s(-2_999_999_999)).raw(), -999_999_998);
    assert_eq!(s(-333_333_333).mul(s(2_999_999_999)).raw(), -999_999_998);
    assert_eq!(s(-333_333_333).mul(s(-2_999_999_999)).raw(), 999_999_998);
    assert_eq!(s(1).mul(s(1)).raw(), 0);
    assert_eq!(s(-1).mul(s(1)).raw(), 0);
    assert_eq!(s(999_999_999).mul(s(999_999_999)).raw(), 999_999_998);
}

#[test]
fn mul_saturates() {
    assert_eq!(s(RAW_MAX).mul(s(2_000_000_000)).raw(), RAW_MAX);
    assert_eq!(s(RAW_MAX).mul(s(-2_000_000_000)).raw(), -RAW_MAX);
    assert_eq!(s(RAW_MAX).mul(s(RAW_MAX)).raw(), RAW_MAX);
    assert_eq!(s(RAW_MAX).mul(Scalar::one()).raw(), RAW_MAX);
}

#[test]
fn div_rounds_toward_zero() {
    assert_eq!(Scalar::one().div(Scalar::from_int(3)).raw(), 333_333_333);
    assert_eq!(Scalar::one().neg().div(Scalar::from_int(3)).raw(), -333_333_333);
    assert_eq!(Scalar::one().div(Scalar::from_int(-3)).raw(), -333_333_333);
    assert_eq!(Scalar::from_int(7).div(Scalar::from_int(2)).raw(), 3_500_000_000);
    assert_eq!(Scalar::from_int(16).div(Scalar::from_int(9)).raw(), 1_777_777_777);
}

#[test]
fn div_by_zero_goes_to_the_bound_on_the_side_of_the_dividend() {
    assert_eq!(Scalar::one().div(Scalar::zero()).raw(), RAW_MAX);
    assert_eq!(Scalar::one().neg().div(Scalar::zero()).raw(), -RAW_MAX);
    assert_eq!(Scalar::zero().div(Scalar::zero()).raw(), 0);
}

#[test]
fn div_saturates() {
    assert_eq!(s(RAW_MAX).div(s(500_000_000)).raw(), RAW_MAX);
    assert_eq!(s(-RAW_MAX).div(s(1)).raw(), -RAW_MAX);
}

#[test]
fn sqrt_rounds_down() {
    assert_eq!(Scalar::from_int(2).sqrt().raw(), 1_414_213_562);
    assert_eq!(Scalar::from_int(4).sqrt().raw(), 2_000_000_000);
    assert_eq!(s(1).sqrt().raw(), 31_622);
    assert_eq!(s(RAW_MAX).sqrt().raw(), 67_909_395_656_472);
}

#[test]
fn sqrt_of_a_value_that_is_not_positive_is_zero() {
    assert_eq!(Scalar::zero().sqrt().raw(), 0);
    assert_eq!(Scalar::one().neg().sqrt().raw(), 0);
}

#[test]
fn powi_multiplies_repeatedly() {
    assert_eq!(s(1_500_000_000).powi(2).raw(), 2_250_000_000);
    assert_eq!(s(500_000_000).powi(5).raw(), 31_250_000);
    assert_eq!(Scalar::from_int(-2).powi(3).raw(), -8_000_000_000);
    assert_eq!(Scalar::from_int(7).powi(0).raw(), SCALE);
    assert_eq!(Scalar::from_int(2).powi(40).raw(), RAW_MAX);
}

#[test]
fn min_and_clamp_pick_by_order() {
    assert_eq!(s(3).min(s(5)).raw(), 3);
    assert_eq!(s(5).min(s(3)).raw(), 3);
    assert_eq!(s(-4).clamp(s(0), s(10)).raw(), 0);
    assert_eq!(s(14).clamp(s(0), s(10)).raw(), 10);
    assert_eq!(s(4).clamp(s(0), s(10)).raw(), 4);
}

#[test]
fn comparisons_follow_the_raw_values() {
    assert!(s(1).lt(s(2)));
    assert!(!s(2).lt(s(2)));
    assert!(s(2).le(s(2)));
    assert!(!s(3).le(s(2)));
    assert!(s(3).gt(s(2)));
    assert!(!s(2).gt(s(2)));
}

#[test]
fn trunc_u64_drops_the_fraction() {
    assert_eq!(s(255_744_000_000).trunc_u64(), 255);
    assert_eq!(s(999_999_999).trunc_u64(), 0);
    assert_eq!(s(-5_000_000_000).trunc_u64(), 0);
    assert_eq!(s(RAW_MAX).trunc_u64(), 4_611_686_018);
}
