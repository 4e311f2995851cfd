use quads::roots::discriminant_of;
use quads::sqrt::isqrt;

#[test]
fn square_roots_are_rounded_down() {
    assert_eq!(isqrt(0), 0);
    assert_eq!(isqrt(1), 1);
    assert_eq!(isqrt(2), 1);
    assert_eq!(isqrt(3), 1);
    assert_eq!(isqrt(4), 2);
    assert_eq!(isqrt(15), 3);
    assert_eq!(isqrt(16), 4);
    assert_eq!(isqrt(17), 4);
    assert_eq!(isqrt(40_000), 200);
    assert_eq!(isqrt(40_400), 200);
    assert_eq!(isqrt(40_401), 201);
}

#[test]
fn square_roots_of_large_numbers() {
    assert_eq!(isqrt(1 << 64), 1 << 32);
    assert_eq!(isqrt((1 << 64) - 1), (1 << 32) - 1);
    assert_eq!(isqrt(u128::MAX), u64::MAX);
    assert_eq!(isqrt(u128::MAX - 2 * (u64::MAX as u128) - 1), u64::MAX - 1);
}

#[test]
fn rounded_root_encloses_the_number() {
    for n in 0u128..5000 {
        let low = isqrt(n) as u128;
        assert!(low * low <= n && n < (low + 1) * (low + 1));
    }
}

#[test]
fn discriminant_is_b_squared_minus_four_a_c() {
    assert_eq!(discriminant_of(1, 5, 6), 1);
    assert_eq!(discriminant_of(4, 4, 1), 0);
    assert_eq!(discriminant_of(1, 1, 1), -3);
    assert_eq!(discriminant_of(0, 7, 9), 49);
    assert_eq!(discriminant_of(-2, 3, 5), 49);
}

#[test]
fn discriminant_does_not_overflow() {
    let two_62: i128 = 1 << 62;
    assert_eq!(discriminant_of(i32::MIN, i32::MIN, i32::MIN), two_62 - 4 * two_62);
    assert_eq!(
        discriminant_of(i32::MIN, i32::MIN, i32::MAX),
        two_62 + 4 * (1i128 << 31) * (i32::MAX as i128)
    );
    assert_eq!(discriminant_of(i32::MAX, 0, i32::MAX), -4 * (i32::MAX as i128) * (i32::MAX as i128));
}
