use quads::generate::{constant_range, middle_range, MAX_VALUE};
use quads::roots::discriminant_of;
use quads::sqrt::isqrt;
use quads::{I32Quad, Quadratic};

fn coefficients(quad: &I32Quad) -> (i32, i32, i32) {
    quad.get_coefficients()
}

fn assert_drawable(a: i32, b: i32, c: i32) {
    assert!((-MAX_VALUE..=MAX_VALUE).contains(&a), "a = {a}");
    assert!((-MAX_VALUE..=MAX_VALUE).contains(&c), "c = {c}");
    assert!((-2 * MAX_VALUE..=2 * MAX_VALUE).contains(&b), "b = {b}");
    let product = 4 * a * c;
    if product >= 0 {
        let root = isqrt(product as u128) as i32;
        assert!(b.abs() >= root, "a = {a}, b = {b}, c = {c}");
    }
}

#[test]
fn coefficients_are_kept_as_given() {
    assert_eq!(I32Quad::new(1, -5, 6).get_coefficients(), (1, -5, 6));
    assert_eq!(I32Quad::new(i32::MIN, 0, i32::MAX).get_coefficients(), (i32::MIN, 0, i32::MAX));
}

#[test]
fn solving_keeps_the_coefficients() {
    let mut quad = I32Quad::new(1, -5, 6);
    assert!(quad.quadratic_eq().is_ok());
    assert_eq!(quad.get_coefficients(), (1, -5, 6));
    let mut quad = I32Quad::new(1, 1, 1);
    assert!(quad.quadratic_eq().is_err());
    assert_eq!(quad.get_coefficients(), (1, 1, 1));
}

#[test]
fn a_batch_of_one_hundred() {
    let batch = I32Quad::fill_quads(100);
    assert_eq!(batch.len(), 100);
    for quad in &batch {
        let (a, b, c) = coefficients(quad);
        assert_drawable(a, b, c);
        assert_eq!(quad.get_roots(), (0, 0));
    }
}

#[test]
fn an_empty_batch() {
    assert!(I32Quad::fill_quads(0).is_empty());
}

#[test]
fn batches_of_every_small_size() {
    for count in 0..40 {
        assert_eq!(I32Quad::fill_quads(count).len(), count);
    }
}

#[test]
fn drawn_coefficients_vary() {
    let batch = I32Quad::fill_quads(2000);
    let drawn: Vec<(i32, i32, i32)> = batch.iter().map(coefficients).collect();
    let first = drawn[0];
    assert!(drawn.iter().any(|t| t.0 != first.0));
    assert!(drawn.iter().any(|t| t.1 != first.1));
    assert!(drawn.iter().any(|t| t.2 != first.2));
    // neither end of a range is all that is ever drawn
    assert!(drawn.iter().any(|t| t.0 != -MAX_VALUE));
    assert!(drawn.iter().any(|t| t.0 != MAX_VALUE));
    assert!(drawn.iter().any(|t| t.1.abs() != 2 * MAX_VALUE));
    // the middle coefficient falls on either side of zero
    assert!(drawn.iter().any(|t| t.1 > 0));
    assert!(drawn.iter().any(|t| t.1 < 0));
    // the constant coefficient takes the sign of the leading one, and the other
    assert!(drawn.iter().any(|t| t.0 * t.2 > 0));
    assert!(drawn.iter().any(|t| t.0 * t.2 < 0));
}

#[test]
fn drawn_discriminant_is_never_far_below_zero() {
    for quad in I32Quad::fill_quads(2000) {
        let (a, b, c) = coefficients(&quad);
        if a * c >= 0 {
            let root = isqrt((4 * a * c) as u128) as i128;
            assert!(discriminant_of(a, b, c) >= -2 * root);
        }
    }
}

#[test]
fn a_drawn_batch_can_be_solved() {
    let mut batch = I32Quad::fill_quads(500);
    for quad in batch.iter_mut() {
        let (a, b, c) = coefficients(quad);
        let outcome = quad.quadratic_eq();
        assert_eq!(outcome.is_err(), a != 0 && discriminant_of(a, b, c) < 0);
        let (low, high) = quad.get_roots();
        assert!(low <= high);
        assert_eq!(coefficients(quad), (a, b, c));
    }
}

#[test]
fn constant_coefficient_with_the_sign_of_the_leading_one() {
    assert_eq!(constant_range(1, true), (0, 100));
    assert_eq!(constant_range(100, true), (0, 100));
    assert_eq!(constant_range(0, true), (-100, 0));
    assert_eq!(constant_range(-1, true), (-100, 0));
    assert_eq!(constant_range(-100, true), (-100, 0));
}

#[test]
fn constant_coefficient_with_the_opposite_sign() {
    assert_eq!(constant_range(1, false), (-100, 0));
    assert_eq!(constant_range(100, false), (-100, 0));
    assert_eq!(constant_range(0, false), (0, 100));
    assert_eq!(constant_range(-1, false), (0, 100));
    assert_eq!(constant_range(-100, false), (0, 100));
}

#[test]
fn opposite_signs_always_give_real_roots() {
    for quad in I32Quad::fill_quads(2000) {
        let (a, b, c) = coefficients(&quad);
        if a * c < 0 {
            assert!(discriminant_of(a, b, c) > 0);
        }
    }
}

#[test]
fn middle_coefficient_stays_clear_of_the_root() {
    // 4ac = 144
    assert_eq!(middle_range(4, 9, true), (12, 200));
    assert_eq!(middle_range(4, 9, false), (-200, -12));
    // 4ac = 40, whose root is 6.32…
    assert_eq!(middle_range(-2, -5, true), (6, 200));
    assert_eq!(middle_range(-2, -5, false), (-200, -6));
    // 4ac = 40000
    assert_eq!(middle_range(100, 100, true), (200, 200));
    assert_eq!(middle_range(-100, -100, false), (-200, -200));
    // 4ac = 0
    assert_eq!(middle_range(0, -7, true), (0, 200));
    assert_eq!(middle_range(5, 0, false), (-200, 0));
}

#[test]
fn middle_coefficient_is_free_where_the_product_is_negative() {
    assert_eq!(middle_range(1, -1, true), (-200, 200));
    assert_eq!(middle_range(1, -1, false), (-200, 200));
    assert_eq!(middle_range(-100, 100, true), (-200, 200));
}
