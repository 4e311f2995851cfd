use quads::{I32Quad, NoRealRoots, Quadratic};

fn solved(a: i32, b: i32, c: i32) -> (i32, i32) {
    let mut quad = I32Quad::new(a, b, c);
    assert!(quad.quadratic_eq().is_ok());
    quad.get_roots()
}

#[test]
fn test_i32_quad() {
    let mut quad = I32Quad::new(1, 5, 6);
    assert!(quad.quadratic_eq().is_ok());
    assert_eq!(quad.get_roots(), (-3, -2));
}

#[test]
fn roots_are_zero_before_solving() {
    let quad = I32Quad::new(1, 5, 6);
    assert_eq!(quad.get_roots(), (0, 0));
}

#[test]
fn zero_leading_coefficient_gives_zero_roots() {
    assert_eq!(solved(0, 5, 6), (0, 0));
    assert_eq!(solved(0, 0, 0), (0, 0));
    assert_eq!(solved(0, i32::MIN, i32::MAX), (0, 0));
}

#[test]
fn zero_leading_coefficient_resets_the_roots() {
    let mut quad = I32Quad::new(0, 1, 1);
    assert_eq!(quad.quadratic_eq(), Ok(()));
    assert_eq!(quad.get_roots(), (0, 0));
}

#[test]
fn negative_discriminant_fails_and_produces_no_roots() {
    let mut quad = I32Quad::new(1, 1, 1);
    assert_eq!(quad.quadratic_eq(), Err(NoRealRoots));
    assert_eq!(quad.get_roots(), (0, 0));
}

#[test]
fn failure_is_repeated() {
    let mut quad = I32Quad::new(3, 2, 1);
    assert_eq!(quad.quadratic_eq(), Err(NoRealRoots));
    assert_eq!(quad.quadratic_eq(), Err(NoRealRoots));
    assert_eq!(quad.get_roots(), (0, 0));
}

#[test]
fn double_root_fills_both_slots() {
    assert_eq!(solved(1, 2, 1), (-1, -1));
    assert_eq!(solved(1, -6, 9), (3, 3));
    assert_eq!(solved(-2, 8, -8), (2, 2));
}

#[test]
fn double_root_is_truncated_toward_zero() {
    // -b / 2a = -4 / 8 = -0.5
    assert_eq!(solved(4, 4, 1), (0, 0));
    // -b / 2a = 6 / 4 = 1.5
    assert_eq!(solved(4, -12, 9), (1, 1));
    // -b / 2a = -6 / 4 = -1.5
    assert_eq!(solved(4, 12, 9), (-1, -1));
}

#[test]
fn roots_come_out_in_ascending_order() {
    assert_eq!(solved(1, -5, 6), (2, 3));
    assert_eq!(solved(-1, 5, -6), (2, 3));
    assert_eq!(solved(-1, 0, 4), (-2, 2));
    assert_eq!(solved(2, 0, -8), (-2, 2));
    assert_eq!(solved(-3, -3, 6), (-2, 1));
}

#[test]
fn irrational_roots_are_truncated_toward_zero() {
    // ±1.414…
    assert_eq!(solved(1, 0, -2), (-1, 1));
    // 0.381… and 2.618…
    assert_eq!(solved(1, -3, 1), (0, 2));
    // -2.618… and -0.381…
    assert_eq!(solved(1, 3, 1), (-2, 0));
    // -0.780… and 1.280…
    assert_eq!(solved(-2, 1, 2), (0, 1));
    // -5.541… and 0.541…
    assert_eq!(solved(1, 5, -3), (-5, 0));
}

#[test]
fn rational_roots_are_truncated_toward_zero() {
    // -1.5 and 2.5
    assert_eq!(solved(4, -4, -15), (-1, 2));
    // 1/3 and 7/3
    assert_eq!(solved(9, -24, 7), (0, 2));
    // -7/3 and -1/3
    assert_eq!(solved(-9, -24, -7), (-2, 0));
}

#[test]
fn a_root_just_below_an_integer_is_not_rounded_up() {
    // ±√16785408 = ±4096.99987…
    assert_eq!(solved(1, 0, -16_785_408), (-4096, 4096));
    // ±√(2³¹ − 1) = ±46340.95…
    assert_eq!(solved(1, 0, -i32::MAX), (-46340, 46340));
}

#[test]
fn roots_beyond_the_range_are_saturated() {
    // roots -1 and 2³¹
    assert_eq!(solved(1, -i32::MAX, i32::MIN), (-1, i32::MAX));
}

#[test]
fn the_lowest_root_that_can_occur_fits() {
    // roots -(2³¹ + 0.99…) and 0.99…
    assert_eq!(solved(-1, i32::MIN, i32::MAX), (i32::MIN, 0));
}

#[test]
fn extreme_coefficients_are_solved_without_overflow() {
    // D = 2⁶² + 2⁶⁴ − 2³³, roots -0.618… and 1.618…
    assert_eq!(solved(i32::MIN, i32::MIN, i32::MAX), (-1, 0));
    // D = 2⁶² − 2⁶⁴ < 0
    let mut quad = I32Quad::new(i32::MIN, i32::MIN, i32::MIN);
    assert_eq!(quad.quadratic_eq(), Err(NoRealRoots));
    // D = 2⁶² − 4·(2³¹ − 1)² < 0
    let mut quad = I32Quad::new(i32::MAX, i32::MIN, i32::MAX);
    assert_eq!(quad.quadratic_eq(), Err(NoRealRoots));
}

#[test]
fn solving_twice_gives_the_same_roots() {
    let mut quad = I32Quad::new(2, -7, 3);
    assert_eq!(quad.quadratic_eq(), Ok(()));
    let first = quad.get_roots();
    assert_eq!(first, (0, 3));
    assert_eq!(quad.quadratic_eq(), Ok(()));
    assert_eq!(quad.get_roots(), first);
}

#[test]
fn copies_are_solved_independently() {
    let mut quad = I32Quad::new(1, 5, 6);
    let copy = quad;
    assert_eq!(quad.quadratic_eq(), Ok(()));
    assert_eq!(quad.get_roots(), (-3, -2));
    assert_eq!(copy.get_roots(), (0, 0));
}

#[test]
fn every_integer_root_is_found() {
    for p in -12..=12 {
        for q in p..=12 {
            for a in [-3, -1, 1, 2] {
                // a·(x − p)·(x − q)
                let b = -a * (p + q);
                let c = a * p * q;
                assert_eq!(solved(a, b, c), (p, q), "a = {a}, roots {p} and {q}");
            }
        }
    }
}
