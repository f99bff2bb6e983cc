use turbo_rag::scalar::Scalar;

fn scalar(x: f32) -> Scalar {
    Scalar { bits: x.to_bits() }
}

#[test]
fn scalars_order_like_numbers() {
    let values = [
        -2.5f32,
        -1.0,
        -0.0,
        0.0,
        1e-40,
        0.5,
        3.0,
        f32::INFINITY,
        f32::NEG_INFINITY,
        f32::NAN,
        -f32::NAN,
        1e16,
        9.999999e15,
        -1e16,
    ];
    for a in values {
        for b in values {
            assert_eq!(scalar(a).is_less(scalar(b)), a < b, "{a} < {b}");
        }
        assert_eq!(scalar(a).is_nan(), a.is_nan());
        assert_eq!(scalar(a).is_coordinate(), a.is_finite() && a.abs() < 1e16);
    }
}

#[test]
fn zeros_of_either_sign_are_equal() {
    assert!(!scalar(-0.0).is_less(scalar(0.0)));
    assert!(!scalar(0.0).is_less(scalar(-0.0)));
}
