use raytracer::fixed::{
    fixed_pow, floor_div, from_int, from_ratio, isqrt, wide_mul, FRAC_BITS, INFINITY, ONE,
    SHADOW_EPSILON,
};

#[test]
fn one_is_two_to_the_number_of_fractional_bits() {
    assert_eq!(ONE, 1i64 << FRAC_BITS);
    assert_eq!(INFINITY, i64::MAX);
}

#[test]
fn shadow_epsilon_is_a_thousandth() {
    let exact = 0.001 * ONE as f64;
    assert!((SHADOW_EPSILON as f64 - exact).abs() <= 0.5);
}

#[test]
fn isqrt_rounds_down() {
    let expected: [(i128, i128); 9] =
        [(0, 0), (1, 1), (2, 1), (3, 1), (4, 2), (15, 3), (16, 4), (17, 4), (99, 9)];
    for (n, r) in expected {
        assert_eq!(isqrt(n), r);
    }
}

#[test]
fn isqrt_of_large_numbers() {
    assert_eq!(isqrt(1i128 << 126), 1i128 << 63);
    assert_eq!(isqrt((1i128 << 126) - 1), (1i128 << 63) - 1);
    assert_eq!(isqrt(i128::MAX), 13043817825332782212);
    let two: i128 = 2 * (ONE as i128) * (ONE as i128);
    assert_eq!(isqrt(two), 46340);
}

#[test]
fn isqrt_is_the_floor_of_the_square_root() {
    let mut n: i128 = 0;
    while n < 5000 {
        let r = isqrt(n);
        assert!(r * r <= n && n < (r + 1) * (r + 1));
        n += 1;
    }
}

#[test]
fn floor_div_rounds_towards_minus_infinity() {
    assert_eq!(floor_div(7, 2), 3);
    assert_eq!(floor_div(-7, 2), -4);
    assert_eq!(floor_div(-8, 2), -4);
    assert_eq!(floor_div(-1, 32768), -1);
    assert_eq!(floor_div(0, 5), 0);
    assert_eq!(floor_div(i128::MIN, 1), i128::MIN);
    assert_eq!(floor_div(i128::MAX, i128::MAX), 1);
}

#[test]
fn wide_mul_is_exact() {
    assert_eq!(wide_mul(3, -4), -12);
    assert_eq!(wide_mul(i64::MAX, i64::MAX), (i64::MAX as i128) * (i64::MAX as i128));
    assert_eq!(wide_mul(i64::MIN, i64::MIN), 1i128 << 126);
    assert_eq!(wide_mul(i64::MIN, i64::MAX), -(1i128 << 126) + (1i128 << 63));
}

#[test]
fn from_int_scales_by_one() {
    assert_eq!(from_int(0), 0);
    assert_eq!(from_int(3), 98304);
    assert_eq!(from_int(-5001), -163872768);
    assert_eq!(from_int(i32::MIN), (i32::MIN as i64) * ONE);
}

#[test]
fn from_ratio_rounds_down() {
    assert_eq!(from_ratio(1, 5), 6553);
    assert_eq!(from_ratio(3, 5), 19660);
    assert_eq!(from_ratio(1, 2), 16384);
    assert_eq!(from_ratio(-1, 3), -10923);
    assert_eq!(from_ratio(1, 1000), 32);
    assert_eq!(from_ratio(i32::MAX, 1), (i32::MAX as i64) * ONE);
}

#[test]
fn fixed_pow_multiplies_and_rounds_down_each_time() {
    assert_eq!(fixed_pow(ONE / 2, 3), 4096);
    assert_eq!(fixed_pow(ONE / 2, 1), ONE / 2);
    assert_eq!(fixed_pow(32440, 500), 167);
    assert_eq!(fixed_pow(3, 2), 0);
}

#[test]
fn fixed_pow_edge_cases() {
    assert_eq!(fixed_pow(0, 0), ONE);
    assert_eq!(fixed_pow(12345, 0), ONE);
    assert_eq!(fixed_pow(0, 4), 0);
    assert_eq!(fixed_pow(ONE, 0), ONE);
    assert_eq!(fixed_pow(ONE, u32::MAX), ONE);
    assert_eq!(fixed_pow(ONE - 1, u32::MAX), 0);
}

#[test]
fn fixed_pow_agrees_with_repeated_multiplication() {
    let bases: [i64; 5] = [1, 1000, 16384, 30000, 32767];
    for base in bases {
        let mut p: i64 = ONE;
        let mut n: u32 = 0;
        while n < 40 {
            assert_eq!(fixed_pow(base, n), p);
            p = p * base / ONE;
            n += 1;
        }
    }
}
