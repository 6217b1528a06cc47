use crab_antiagiota_performance::float_order::f32_order_key;

fn key(x: f32) -> Option<u64> {
    f32_order_key(x.to_bits())
}

#[test]
fn keys_order_like_floats() {
    let values = [f32::NEG_INFINITY, -3.5, -1.0, -0.0, 0.0, 1e-30, 1.0, 2.5, 1e30, f32::INFINITY];
    for a in values {
        for b in values {
            let (ka, kb) = (key(a).unwrap(), key(b).unwrap());
            assert_eq!(ka < kb, a < b, "{a} vs {b}");
            assert_eq!(ka == kb, a == b, "{a} vs {b}");
        }
    }
}

#[test]
fn nan_has_no_key() {
    assert_eq!(key(f32::NAN), None);
    assert_eq!(key(-f32::NAN), None);
    assert_eq!(key(0.0), Some(0x8000_0000));
    assert_eq!(key(-0.0), Some(0x8000_0000));
}
