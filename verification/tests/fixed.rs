use collide2d::fixed::{
    fx_abs, fx_add, fx_div, fx_from_isize, fx_from_usize, fx_hypot, fx_mul, fx_neg, fx_sub, isqrt,
    HALF, MINUS_ONE, ONE, TWO,
};

fn fx(v: f64) -> i64 {
    (v * 4294967296.0).round() as i64
}

#[test]
fn constants_are_powers_of_two() {
    assert_eq!(ONE, 1i64 << 32);
    assert_eq!(HALF, 1i64 << 31);
    assert_eq!(TWO, 1i64 << 33);
    assert_eq!(MINUS_ONE, -(1i64 << 32));
}

#[test]
fn add_and_sub_are_exact_in_range() {
    assert_eq!(fx_add(fx(1.5), fx(2.25)), fx(3.75));
    assert_eq!(fx_sub(fx(1.5), fx(2.25)), fx(-0.75));
}

#[test]
fn add_and_sub_saturate() {
    assert_eq!(fx_add(i64::MAX, 1), i64::MAX);
    assert_eq!(fx_add(i64::MIN, -1), i64::MIN);
    assert_eq!(fx_sub(i64::MIN, 1), i64::MIN);
    assert_eq!(fx_sub(i64::MAX, -1), i64::MAX);
    assert_eq!(fx_sub(0, i64::MIN), i64::MAX);
}

#[test]
fn neg_and_abs_saturate_at_the_least_value() {
    assert_eq!(fx_neg(i64::MIN), i64::MAX);
    assert_eq!(fx_abs(i64::MIN), i64::MAX);
    assert_eq!(fx_neg(fx(2.0)), fx(-2.0));
    assert_eq!(fx_abs(fx(-2.0)), fx(2.0));
    assert_eq!(fx_abs(fx(2.0)), fx(2.0));
}

#[test]
fn mul_is_the_product_divided_by_one() {
    assert_eq!(fx_mul(fx(1.5), fx(2.0)), fx(3.0));
    assert_eq!(fx_mul(fx(-1.5), fx(2.0)), fx(-3.0));
    assert_eq!(fx_mul(fx(-1.5), fx(-2.0)), fx(3.0));
    assert_eq!(fx_mul(fx(7.0), ONE), fx(7.0));
    assert_eq!(fx_mul(fx(7.0), MINUS_ONE), fx(-7.0));
    assert_eq!(fx_mul(fx(7.0), 0), 0);
}

#[test]
fn mul_rounds_toward_zero() {
    assert_eq!(fx_mul(1, HALF), 0);
    assert_eq!(fx_mul(-1, HALF), 0);
    assert_eq!(fx_mul(3, HALF), 1);
    assert_eq!(fx_mul(-3, HALF), -1);
}

#[test]
fn mul_saturates() {
    assert_eq!(fx_mul(i64::MAX, TWO), i64::MAX);
    assert_eq!(fx_mul(i64::MIN, TWO), i64::MIN);
    assert_eq!(fx_mul(i64::MIN, MINUS_ONE), i64::MAX);
    assert_eq!(fx_mul(i64::MIN, i64::MIN), i64::MAX);
}

#[test]
fn div_is_the_quotient_times_one() {
    assert_eq!(fx_div(fx(3.0), fx(2.0)), fx(1.5));
    assert_eq!(fx_div(fx(-3.0), fx(2.0)), fx(-1.5));
    assert_eq!(fx_div(fx(3.0), fx(-2.0)), fx(-1.5));
    assert_eq!(fx_div(fx(-3.0), fx(-2.0)), fx(1.5));
    assert_eq!(fx_div(ONE, fx(3.0)), 1431655765);
    assert_eq!(fx_div(MINUS_ONE, fx(3.0)), -1431655765);
}

#[test]
fn div_by_zero_is_the_extreme_of_the_sign() {
    assert_eq!(fx_div(fx(1.0), 0), i64::MAX);
    assert_eq!(fx_div(fx(-1.0), 0), i64::MIN);
    assert_eq!(fx_div(0, 0), 0);
}

#[test]
fn div_saturates() {
    assert_eq!(fx_div(i64::MAX, 1), i64::MAX);
    assert_eq!(fx_div(i64::MIN, 1), i64::MIN);
    assert_eq!(fx_div(i64::MIN, -1), i64::MAX);
}

#[test]
fn whole_numbers_convert_and_saturate() {
    assert_eq!(fx_from_isize(3), 3 * ONE);
    assert_eq!(fx_from_isize(-3), -3 * ONE);
    assert_eq!(fx_from_isize(isize::MAX), i64::MAX);
    assert_eq!(fx_from_isize(isize::MIN), i64::MIN);
    assert_eq!(fx_from_usize(7), 7 * ONE);
    assert_eq!(fx_from_usize(0x7fff_ffff), 0x7fff_ffff * ONE);
    assert_eq!(fx_from_usize(0x8000_0000), i64::MAX);
}

#[test]
fn isqrt_is_the_floor_of_the_root() {
    assert_eq!(isqrt(0), 0);
    assert_eq!(isqrt(1), 1);
    assert_eq!(isqrt(3), 1);
    assert_eq!(isqrt(4), 2);
    assert_eq!(isqrt(16), 4);
    assert_eq!(isqrt(17), 4);
    assert_eq!(isqrt(24), 4);
    assert_eq!(isqrt(25), 5);
    assert_eq!(isqrt(u128::MAX), 0xffff_ffff_ffff_ffff);
    assert_eq!(isqrt(1u128 << 126), 1u128 << 63);
}

#[test]
fn hypot_of_three_and_four_is_five() {
    assert_eq!(fx_hypot(fx(3.0), fx(4.0)), fx(5.0));
    assert_eq!(fx_hypot(fx(-3.0), fx(4.0)), fx(5.0));
    assert_eq!(fx_hypot(0, 0), 0);
    assert_eq!(fx_hypot(0, fx(-2.5)), fx(2.5));
}

#[test]
fn hypot_rounds_down_and_saturates() {
    assert_eq!(fx_hypot(1, 1), 1);
    assert_eq!(fx_hypot(2, 2), 2);
    assert_eq!(fx_hypot(i64::MIN, i64::MIN), i64::MAX);
    assert_eq!(fx_hypot(i64::MAX, 0), i64::MAX);
}
