use h3_hrx::bytes::{push_le32, read_le16, read_le32, widen_bfloat, widen_half};

#[test]
fn every_half_widens_to_the_single_of_its_value() {
    for bits in 0..=u16::MAX {
        let want = half::f16::from_bits(bits).to_f32().to_bits();
        assert_eq!(widen_half(bits), want, "{bits:#06x}");
    }
    assert_eq!(widen_half(0x3c00), 1.0f32.to_bits());
    assert_eq!(widen_half(0x0001), 2.0f32.powi(-24).to_bits());
}

#[test]
fn every_bfloat_widens_to_the_single_of_its_value() {
    for bits in 0..=u16::MAX {
        let want = half::bf16::from_bits(bits).to_f32().to_bits();
        assert_eq!(widen_bfloat(bits), want, "{bits:#06x}");
    }
    assert_eq!(widen_bfloat(0x3f80), 1.0f32.to_bits());
}

#[test]
fn words_are_least_significant_byte_first() {
    let mut out = vec![9u8];
    push_le32(&mut out, 0x0403_0201);
    assert_eq!(out, [9, 1, 2, 3, 4]);
    assert_eq!(read_le32(&out, 1), 0x0403_0201);
    assert_eq!(read_le16(&out, 2), 0x0302);
}
