use bevy_mod_skinned_aabb::float::{is_greater, is_nonzero};

fn samples() -> Vec<f32> {
    vec![
        0.0,
        -0.0,
        1.0,
        -1.0,
        0.5,
        -0.5,
        f32::from_bits(1),
        -f32::from_bits(1),
        f32::MIN_POSITIVE,
        -f32::MIN_POSITIVE,
        f32::MAX,
        f32::MIN,
        f32::INFINITY,
        f32::NEG_INFINITY,
        f32::NAN,
        -f32::NAN,
        f32::from_bits(0x7f80_0001),
        f32::from_bits(0xffff_ffff),
        3.25,
        -1024.5,
    ]
}

#[test]
fn nonzero_numbers() {
    for x in samples() {
        assert_eq!(is_nonzero(x.to_bits()), x != 0.0, "{x}");
    }
    assert!(is_nonzero(0.25f32.to_bits()));
    assert!(is_nonzero((-0.25f32).to_bits()));
    assert!(is_nonzero(f32::NAN.to_bits()));
    assert!(!is_nonzero(0.0f32.to_bits()));
    assert!(!is_nonzero((-0.0f32).to_bits()));
}

#[test]
fn greater_numbers() {
    for x in samples() {
        for y in samples() {
            assert_eq!(is_greater(x.to_bits(), y.to_bits()), x > y, "{x} {y}");
        }
    }
    assert!(is_greater(f32::MAX.to_bits(), f32::MIN.to_bits()));
    assert!(!is_greater(0.0f32.to_bits(), (-0.0f32).to_bits()));
    assert!(!is_greater(f32::NAN.to_bits(), 0.0f32.to_bits()));
}
