use xdremux::linear_thumbnail::{f32_to_f16, storage_ordered_light_map};

#[test]
fn test_f32_to_f16_known_values() {
    assert_eq!(f32_to_f16(0.0f32.to_bits()), 0x0000);
    assert_eq!(f32_to_f16(1.0f32.to_bits()), 0x3c00);
    assert_eq!(f32_to_f16(0.5f32.to_bits()), 0x3800);
    assert_eq!(f32_to_f16(2.0f32.to_bits()), 0x4000);
    assert_eq!(f32_to_f16((-1.0f32).to_bits()), 0xbc00);
}

#[test]
fn test_storage_ordered_light_map_identity() {
    let dummy: Vec<u8> = (0..(32 * 32 * 2)).map(|i| (i & 0xff) as u8).collect();
    let reordered = storage_ordered_light_map(&dummy, 1);
    assert_eq!(dummy, reordered);
}
