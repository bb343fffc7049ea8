use loyalfier::curve::{atan_inv_milli, ln_1p_milli};

#[test]
fn log_curve_exact_values() {
    // ln(1) = 0, ln(2) = 0.693, then interpolation between powers of
    // two: ln(3) ~ 0.693 + 0.693 / 2, ln(4) ~ 1.386.
    assert_eq!(ln_1p_milli(0), 0);
    assert_eq!(ln_1p_milli(1), 693);
    assert_eq!(ln_1p_milli(2), 693 + 346);
    assert_eq!(ln_1p_milli(3), 1386);
    assert_eq!(ln_1p_milli(7), 2079);
}

#[test]
fn log_curve_flattens() {
    // The curve grows quickly near the edge and flattens further out.
    let near = ln_1p_milli(2) - ln_1p_milli(1);
    let far = ln_1p_milli(101) - ln_1p_milli(100);
    assert!(near > far);
    assert!(ln_1p_milli(100) < ln_1p_milli(101));
}

#[test]
fn atan_curve_exact_values() {
    // atan(1) ~ 0.781 by the rational approximation, atan(1/2) ~ 0.467.
    assert_eq!(atan_inv_milli(1), 781);
    assert_eq!(atan_inv_milli(2), 467);
    assert_eq!(atan_inv_milli(4), 245);
}

#[test]
fn atan_curve_decreases() {
    // The tilt fades with the distance from the reference edge.
    assert!(atan_inv_milli(1) > atan_inv_milli(2));
    assert!(atan_inv_milli(2) > atan_inv_milli(10));
    assert!(atan_inv_milli(10) > atan_inv_milli(100));
}
