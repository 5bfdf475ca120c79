use graphics_engine::key::{bits_from_key, key_from_bits, KEY_INFINITY, KEY_NEG_INFINITY, KEY_NEG_ZERO, KEY_ZERO};

fn key(v: f32) -> i32 {
    key_from_bits(v.to_bits())
}

#[test]
fn key_of_special_values() {
    assert_eq!(key(0.0), KEY_ZERO);
    assert_eq!(key(-0.0), KEY_NEG_ZERO);
    assert_eq!(key(f32::INFINITY), KEY_INFINITY);
    assert_eq!(key(f32::NEG_INFINITY), KEY_NEG_INFINITY);
    assert_eq!(key(1.0), 0x3f80_0000);
    assert_eq!(key(-1.0), -0x3f80_0001);
}

#[test]
fn keys_follow_float_order() {
    let values = [f32::NEG_INFINITY, -1e30, -2.5, -1.0, -1e-30, 0.0, 1e-30, 0.2, 0.5, 1.0, 3.0, 1e30, f32::INFINITY];
    for i in 0..values.len() {
        for j in 0..values.len() {
            assert_eq!(values[i] < values[j], key(values[i]) < key(values[j]));
        }
    }
}

#[test]
fn bits_round_trip_through_keys() {
    for v in [-3.5f32, -0.0, 0.0, 0.25, 7.0, f32::INFINITY] {
        assert_eq!(bits_from_key(key(v)), v.to_bits());
        assert_eq!(f32::from_bits(bits_from_key(key(v))), v);
    }
}
