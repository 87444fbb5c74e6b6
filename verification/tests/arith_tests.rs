use ball_collision::arith::{div_toward_zero, isqrt, saturate};

#[test]
fn isqrt_rounds_down() {
    assert_eq!(isqrt(0), 0);
    assert_eq!(isqrt(1), 1);
    assert_eq!(isqrt(3), 1);
    assert_eq!(isqrt(4), 2);
    assert_eq!(isqrt(24), 4);
    assert_eq!(isqrt(25), 5);
    assert_eq!(isqrt(10_485_760_000), 102_400);
    assert_eq!(isqrt(10_485_759_999), 102_399);
    assert_eq!(isqrt(u64::MAX), 4_294_967_295);
}

#[test]
fn isqrt_brackets_every_small_number() {
    for n in 0u64..5000 {
        let s = isqrt(n);
        assert!(s * s <= n);
        assert!((s + 1) * (s + 1) > n);
    }
}

#[test]
fn saturate_clamps_to_i64() {
    assert_eq!(saturate(0), 0);
    assert_eq!(saturate(-17), -17);
    assert_eq!(saturate(i64::MAX as i128), i64::MAX);
    assert_eq!(saturate(i64::MAX as i128 + 1), i64::MAX);
    assert_eq!(saturate(i64::MIN as i128), i64::MIN);
    assert_eq!(saturate(i64::MIN as i128 - 1), i64::MIN);
    assert_eq!(saturate(i128::MAX), i64::MAX);
    assert_eq!(saturate(i128::MIN), i64::MIN);
}

#[test]
fn division_rounds_toward_zero() {
    assert_eq!(div_toward_zero(7, 2), 3);
    assert_eq!(div_toward_zero(-7, 2), -3);
    assert_eq!(div_toward_zero(6, 2), 3);
    assert_eq!(div_toward_zero(-6, 2), -3);
    assert_eq!(div_toward_zero(1, 1_000_000), 0);
    assert_eq!(div_toward_zero(-1, 1_000_000), 0);
    assert_eq!(div_toward_zero(0, 5), 0);
}
