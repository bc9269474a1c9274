use dwemer_poolrooms::chrome::foundry::{HALF_Y_BITS, HALF_Z_BITS, LIGHT_Y_BITS, LIGHT_Z_BITS};

const LIGHT_Y: f32 = f32::from_bits(LIGHT_Y_BITS);
const LIGHT_Z: f32 = f32::from_bits(LIGHT_Z_BITS);
const HALF_Y: f32 = f32::from_bits(HALF_Y_BITS);
const HALF_Z: f32 = f32::from_bits(HALF_Z_BITS);

#[test]
fn illuminant_is_unit_length_and_sixty_degrees_above_the_horizon() {
    assert!((LIGHT_Y * LIGHT_Y + LIGHT_Z * LIGHT_Z - 1.0).abs() < 1e-6);
    assert!((LIGHT_Z.asin().to_degrees() - 60.0).abs() < 1e-4);
    assert!((HALF_Y * HALF_Y + HALF_Z * HALF_Z - 1.0).abs() < 1e-6);
}

#[test]
fn illuminant_payloads_are_the_shipped_literals() {
    assert_eq!(LIGHT_Y, -0.5);
    assert_eq!(LIGHT_Z, 0.866_025_4);
    assert_eq!(HALF_Y, -0.258_819_04);
    assert_eq!(HALF_Z, 0.965_925_8);
}
