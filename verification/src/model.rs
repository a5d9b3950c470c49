//! The model's shapes, and the one layout rule the plans share with the kernel dispatch.
use vstd::prelude::*;

verus! {

// The DiT.
pub const HID: usize = 5376;

pub const HEADS: usize = 56;

pub const HEAD_DIM: usize = 128;

pub const FFN: usize = 14336;

pub const ROPE_DIM: usize = 96;

pub const ROPE_HALF: usize = 48;

pub const INNER: usize = 7168;

pub const QKV: usize = 21504;

pub const BLOCKS: usize = 50;

pub const REFINER_BLOCKS: usize = 2;

pub const TEXT_DIM: usize = 5120;

pub const VIDEO_PATCH: usize = 96;

pub const AUDIO_CH: usize = 32;

pub const FINAL_N: usize = 128;

pub const CLASSES: usize = 12;

pub const MODALITIES: usize = 3;

pub const MODS_ROWS: usize = 72;

// The Qwen3-VL text encoder.
pub const TE_HID: usize = 5120;

pub const TE_HEADS: usize = 64;

pub const TE_KV: usize = 8;

pub const TE_FFN: usize = 25600;

pub const TE_ROPE_HALF: usize = 64;

pub const TE_LAYERS: usize = 50;

// Latents and rates.
pub const LATENT_CH: usize = 24;

pub const FPS: usize = 24;

pub const AUDIO_LATENTS_PER_S: usize = 40;

// The video VAE.
pub const VAE_HID: usize = 2048;

pub const VAE_HEADS: usize = 32;

pub const VAE_D: usize = 64;

pub const VAE_FFN: usize = 8192;

pub const VAE_ROPE_HALF: usize = 24;

pub const VAE_PT: usize = 4;

pub const VAE_PS: usize = 16;

pub const VAE_OUT: usize = 3072;

pub const VAE_REG: usize = 4;

/// The decoder's 24 latent channels padded to the f16 GEMM's multiple of 64.
pub const VAE_KIN: usize = 64;

pub const VAE_BLOCKS: usize = 36;

pub const VAE_CHUNK: usize = 5;

pub const VAE_OVERLAP: usize = 2;

pub const VAE_TOKEN_DROP: usize = 3;

pub const VAE_TRATIO: usize = 4;

pub const VAE_CLIP: usize = 17;

pub const THREADS: u32 = 256;

/// How many bytes a row of `k` elements of `bits` bits takes: half a byte per element at 4 bits, one
/// at 8, two at any other width.
pub open spec fn gemm_row_bytes(k: int, bits: int) -> int {
    if bits == 4 {
        k / 2
    } else if bits == 8 {
        k
    } else {
        k * 2
    }
}

/// One k step of padding at this width.
pub open spec fn gemm_pad(bits: int) -> int {
    if bits == 8 {
        64
    } else {
        128
    }
}

/// The row pitch: the row itself, plus one step where the rows would alias in the cache.
pub open spec fn gemm_pitch_spec(k: int, bits: int) -> int {
    if gemm_row_bytes(k, bits) % 1024 == 0 {
        k + gemm_pad(bits)
    } else {
        k
    }
}

/// A GEMM operand's row pitch in elements.
///
/// Rows whose byte pitch is a multiple of 1024 alias in the cache, so those get one k step of padding
/// (64 elements at 8 bits, 128 at 4 and 16, which the f16 attention's `out_stride` also requires) and
/// the kernels' step constraints still hold.
///
/// The plans and the kernel dispatch must agree on this, or an operand is read at the wrong stride.
pub fn gemm_pitch(k: usize, bits: usize) -> (pitch: usize)
    requires
        gemm_row_bytes(k as int, bits as int) <= usize::MAX,
        gemm_pitch_spec(k as int, bits as int) <= usize::MAX,
    ensures
        pitch == gemm_pitch_spec(k as int, bits as int),
{
    let row_bytes: usize = if bits == 4 {
        k / 2
    } else if bits == 8 {
        k
    } else {
        k * 2
    };
    if row_bytes % 1024 == 0 {
        k + if bits == 8 {
            64
        } else {
            128
        }
    } else {
        k
    }
}

/// A pitched row never aliases: whatever the width and the row length, the pitch is at least the row
/// and its byte length is not a multiple of 1024.
pub proof fn law_pitched_rows_do_not_alias(k: nat, bits: nat)
    ensures
        gemm_pitch_spec(k as int, bits as int) >= k,
        gemm_row_bytes(gemm_pitch_spec(k as int, bits as int), bits as int) % 1024 != 0,
{
}

/// Padding keeps the kernels' step: a row that is a whole number of 64-element steps keeps a pitch
/// that is one, and at 4 and 16 bits one that is a whole number of 128-element steps keeps that too.
pub proof fn law_pitch_keeps_the_step(k: nat, bits: nat)
    ensures
        k % 64 == 0 ==> gemm_pitch_spec(k as int, bits as int) % 64 == 0,
        k % 128 == 0 && bits != 8 ==> gemm_pitch_spec(k as int, bits as int) % 128 == 0,
{
}

} // verus!
