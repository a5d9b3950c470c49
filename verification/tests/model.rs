use h3_hrx::model::{
    gemm_pitch, FFN, HID, INNER, MODS_ROWS, QKV, ROPE_DIM, ROPE_HALF, VAE_FFN, VAE_HID, VAE_OUT,
};

#[test]
fn gemm_pitch_pads_only_the_aliasing_widths() {
    // int8: the byte pitch is k, so a k that is a multiple of 1024 pads by 64
    assert_eq!(gemm_pitch(HID, 8), HID); // 5376 bytes, not a multiple of 1024
    assert_eq!(gemm_pitch(INNER, 8), INNER + 64); // 7168 bytes
    assert_eq!(gemm_pitch(FFN, 8), FFN + 64); // 14336 bytes
    // 16-bit: the byte pitch is 2k, so the threshold is half, and the pad is 128
    assert_eq!(gemm_pitch(VAE_HID, 16), VAE_HID + 128); // 4096 bytes
    assert_eq!(gemm_pitch(VAE_FFN, 16), VAE_FFN + 128); // 16384 bytes
    assert_eq!(gemm_pitch(HID, 16), HID); // 10752 bytes, not a multiple of 1024
    // 4-bit: half a byte per element
    assert_eq!(gemm_pitch(2048, 4), 2048 + 128); // 1024 bytes
    assert_eq!(gemm_pitch(1024, 4), 1024); // 512 bytes
}

#[test]
fn the_shapes_are_self_consistent() {
    assert_eq!(INNER, 7168);
    assert_eq!(QKV, 21504);
    assert_eq!(VAE_OUT, 3072);
    assert_eq!(MODS_ROWS, 72);
    assert_eq!(ROPE_DIM, 2 * ROPE_HALF);
}
