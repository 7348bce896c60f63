use vec101::math_int::{exp_approx_q16, rsqrt_approx_i32, silu_approx_i8, FIXED_POINT_ONE};

#[test]
fn test_exp_approx() {
    let test_vals = vec![0, -1, -2, 1, 2];
    for v in test_vals {
        let v_q16 = v * FIXED_POINT_ONE;
        let res_q16 = exp_approx_q16(v_q16);
        assert!(res_q16 >= 0);
    }
}

#[test]
fn test_silu_approx() {
    for x in -5..=5 {
        let res_i8 = silu_approx_i8(x as i8);
        assert!(res_i8 >= -128);
    }
}

#[test]
fn test_exp_approx_edge_cases() {
    assert_eq!(exp_approx_q16(-11 * FIXED_POINT_ONE), 0);
    assert_eq!(exp_approx_q16(11 * FIXED_POINT_ONE), i32::MAX);
}

#[test]
fn test_rsqrt_approx_edge_cases() {
    assert_eq!(rsqrt_approx_i32(0), 0);
    assert!(rsqrt_approx_i32(1) > 0);
}

#[test]
fn exp_approx_exact_values() {
    // exp(0) = 1.0
    assert_eq!(exp_approx_q16(0), 65536);
    // x = 1.0: x * log2(e) = 94548 / 2^16 -> 2^1 * (1 + 29012 / 2^16)
    assert_eq!(exp_approx_q16(65536), (65536 + 29012) << 1);
    // x = -1.0: -94548 / 2^16 -> 2^-2 * (1 + 36524 / 2^16)
    assert_eq!(exp_approx_q16(-65536), (65536 + 36524) >> 2);
    // 10.0 is still in range, 10.0 + 1 is clamped.
    assert!(exp_approx_q16(10 * 65536) < i32::MAX);
    assert_eq!(exp_approx_q16(10 * 65536 + 1), i32::MAX);
}

#[test]
fn rsqrt_approx_exact_values() {
    assert_eq!(rsqrt_approx_i32(1), 65536);
    assert_eq!(rsqrt_approx_i32(4), 32768);
    assert_eq!(rsqrt_approx_i32(7), 65536 / 2);
    assert_eq!(rsqrt_approx_i32(16), 16384);
    assert_eq!(rsqrt_approx_i32(u32::MAX), 65536 / 32768);
}

#[test]
fn silu_approx_exact_values() {
    assert_eq!(silu_approx_i8(0), 0);
    // silu(10) ~ 10 (exp(-10) is tiny).
    assert_eq!(silu_approx_i8(10), 9);
    assert_eq!(silu_approx_i8(-10), -1);
    assert_eq!(silu_approx_i8(5), 4);
    assert_eq!(silu_approx_i8(127), 127);
}

#[test]
fn silu_approx_accepts_every_i8() {
    assert_eq!(silu_approx_i8(-11), -1);
    assert_eq!(silu_approx_i8(-128), -1);
    for x in -128..=127i32 {
        let r = silu_approx_i8(x as i8) as i32;
        assert!(x.min(0) <= r && r <= x.max(0));
    }
}

#[test]
fn exp_approx_never_decreases() {
    let mut prev = exp_approx_q16(i32::MIN);
    let mut x: i64 = -700_000;
    while x <= 700_000 {
        let e = exp_approx_q16(x as i32);
        assert!(prev <= e);
        prev = e;
        x += 997;
    }
    assert!(prev <= exp_approx_q16(i32::MAX));
}

#[test]
fn rsqrt_approx_stays_within_one() {
    for x in [1u32, 2, 3, 4, 1000, 65535, 1 << 20, u32::MAX] {
        let r = rsqrt_approx_i32(x);
        assert!((2..=65536).contains(&r));
    }
    assert_eq!(rsqrt_approx_i32(1), 65536);
    assert_eq!(rsqrt_approx_i32(u32::MAX), 2);
}

#[test]
fn rsqrt_approx_is_monotone_and_bracketed() {
    let mut prev = rsqrt_approx_i32(1);
    for x in 1..5000u32 {
        let r = rsqrt_approx_i32(x);
        assert!(r <= prev);
        prev = r;
        let p = (r as u128) * (r as u128) * (x as u128);
        assert!((1u128 << 32) <= p && p < (1u128 << 34));
    }
    let r = rsqrt_approx_i32(u32::MAX) as u128;
    assert!(r * r * (u32::MAX as u128) < (1u128 << 34));
}
