use h3_hrx::error::{Error, Result};
use h3_hrx::layout::Shape;
use h3_hrx::model::{LATENT_CH, VAE_KIN, VAE_OUT};
use h3_hrx::vvae::frames::{decode_spatial, pad_latents, unpatchify};
use h3_hrx::vvae::video::{decode_video, ChunkPlan};
use h3_hrx::vvae::{block_name, dims, ensure, host_tables, sizes, EndWeights, Grid};

fn ramp(a: f32, b: f32, k: usize, e: usize) -> f32 {
    let wb = k as f32 / e as f32;
    (1.0 - wb) * a + wb * b
}

#[test]
fn a_grid_counts_its_voxels_tokens_and_pixels() {
    let g = Grid { ft: 2, h: 3, w: 4 };
    assert_eq!(g.voxels(), 24);
    assert_eq!(g.tokens(), 29);
    assert_eq!(g.frames(), (8, 48, 64));
    assert!(ensure(None, g));
    assert!(!ensure(Some(g), g));
    assert!(ensure(Some(Grid { ft: 1, ..g }), g));
}

#[test]
fn the_decoders_names_and_sizes_are_its_own() {
    let d = dims();
    assert_eq!((d.hidden, d.heads, d.head_dim, d.wbits), (2048, 32, 64, 16));
    assert!(d.bias && !d.gate_first && !d.bf16);
    assert_eq!(block_name(7), "blocks.7.");
    let s = sizes(256);
    assert_eq!((s.x, s.in16, s.out16), (256 * 2048 * 4, 256 * 64 * 2, 256 * 3072 * 2));
    assert_eq!(host_tables().len(), 4);
    assert!(EndWeights::requests().iter().any(|r| r.name == "vae.proj_in.w"));
}

#[test]
fn latents_go_up_voxel_by_voxel_with_the_pad_at_zero() {
    let n = 3;
    let z: Vec<i64> = (0..(LATENT_CH * n) as i64).collect();
    let rows = pad_latents(&z, n, -1, |o, voxel: &[i64]| {
        assert_eq!(voxel.len(), LATENT_CH);
        1000 * o as i64 + voxel[0]
    });
    assert_eq!(rows.len(), n * VAE_KIN);
    for v in 0..n {
        for o in 0..VAE_KIN {
            let want = if o < LATENT_CH { 1000 * o as i64 + v as i64 } else { -1 };
            assert_eq!(rows[v * VAE_KIN + o], want);
        }
    }
}

#[test]
fn every_pixel_comes_from_one_place_of_one_patch() {
    let g = Grid { ft: 1, h: 2, w: 1 };
    let tokens: Vec<usize> = (0..g.voxels() * VAE_OUT).collect();
    let frames = unpatchify(&tokens, g, |v| v);
    let (f, h, w) = g.frames();
    assert_eq!(frames.len(), 3 * f * h * w);
    let mut seen = vec![false; tokens.len()];
    for v in &frames {
        assert!(!seen[*v]);
        seen[*v] = true;
    }
    // the lower half of the picture is the second patch's
    assert!(frames[..16 * w].iter().all(|v| *v < VAE_OUT));
    assert!(frames[16 * w..32 * w].iter().all(|v| *v >= VAE_OUT));
}

#[test]
fn a_clip_inside_one_tile_is_decoded_as_it_is() {
    let g = Grid { ft: 1, h: 2, w: 2 };
    let z = vec![5.0f32; LATENT_CH * 4];
    let decode = |z: &[f32], g: Grid| -> Result<Vec<f32>> {
        let (f, h, w) = g.frames();
        Ok(vec![z[0]; 3 * f * h * w])
    };
    let out = decode_spatial(&z, g, 0.0, &decode, &ramp).unwrap();
    assert_eq!(out, vec![5.0; 3 * 4 * 32 * 32]);
}

#[test]
fn tiles_ramp_into_each_other() {
    // 320 rows are two tiles of 256, from 0 and 64, over 192 rows
    let g = Grid { ft: 1, h: 20, w: 1 };
    let z: Vec<f32> = (0..LATENT_CH * 20).map(|i| (i % 20) as f32).collect();
    let decode = |z: &[f32], g: Grid| -> Result<Vec<f32>> {
        assert_eq!((g.ft, g.h, g.w), (1, 16, 1));
        let (f, h, w) = g.frames();
        Ok(vec![z[0]; 3 * f * h * w])
    };
    let out = decode_spatial(&z, g, -1.0, &decode, &ramp).unwrap();
    let at = |y: usize| out[y * 16];
    assert_eq!(at(0), 0.0);
    assert_eq!(at(64), 0.0);
    assert_eq!(at(64 + 96), 2.0);
    assert_eq!(at(256), 4.0);
    assert_eq!(at(319), 4.0);
    // a decode that fails is what comes back
    let broken = |_z: &[f32], _g: Grid| -> Result<Vec<f32>> { Err(Error::Other("lost".into())) };
    assert_eq!(decode_spatial(&z, g, 0.0, &broken, &ramp).unwrap_err().message(), "lost");
}

fn shape(latent_t: i32, frames: i32) -> Shape {
    Shape { frames, latent_t, lat_h: 1, lat_w: 1, audio_t: 0, text_rows_max: 0 }
}

/// What each decoded frame shows: its place among its chunk's frames, past fifty times its chunk.
fn numbered(z: &[f32], g: Grid) -> Result<Vec<f32>> {
    let (f, h, w) = g.frames();
    let mut out = Vec::new();
    for _ in 0..3 {
        for k in 0..f {
            out.extend(vec![z[0] * 10.0 + k as f32; h * w]);
        }
    }
    Ok(out)
}

#[test]
fn chunks_show_their_frames_and_fade_where_they_overlap() {
    let plan = ChunkPlan {
        padded_tokens: 12,
        chunks: 2,
        chunk_frames: 20,
        pre: 3,
        overlap_frames: 5,
        pad_frames: 0,
    };
    let latents: Vec<f32> = (0..LATENT_CH * 12).map(|i| (i % 12) as f32).collect();
    let mut out = vec![255u8; 39 * 256 * 3];
    // the fade takes the earlier chunk, so where it reaches is visible
    let earlier = |a: f32, _b: f32, _k: usize, _e: usize| a;
    let same = |v: f32, _ch: usize| v;
    let shade = |v: f32, _ch: usize| v as u8;
    decode_video(
        &plan, &shape(12, 39), &latents, &mut out, 0.0, &same, &numbered, &ramp, &earlier, &shade,
    )
    .unwrap();
    let shown: Vec<u8> = (0..39).map(|f| out[f * 256 * 3]).collect();
    let mut want: Vec<u8> = (3..20).collect();
    want.extend(23..28);
    want.extend(58..70);
    want.extend(73..78);
    assert_eq!(shown, want);
}

#[test]
fn padding_repeats_the_last_latent_and_is_not_shown() {
    let plan = ChunkPlan {
        padded_tokens: 7,
        chunks: 1,
        chunk_frames: 20,
        pre: 3,
        overlap_frames: 5,
        pad_frames: 17,
    };
    let latents = vec![1.0f32; LATENT_CH * 2];
    let mut out = vec![0u8; 5 * 256 * 3];
    let same = |v: f32, _ch: usize| v;
    let shade = |v: f32, ch: usize| v as u8 + ch as u8;
    decode_video(
        &plan, &shape(2, 5), &latents, &mut out, 0.0, &same, &numbered, &ramp, &ramp, &shade,
    )
    .unwrap();
    assert_eq!(&out[..3], &[13, 14, 15]);
    assert_eq!(&out[4 * 256 * 3..4 * 256 * 3 + 3], &[17, 18, 19]);
    // a clip that does not come out as long as it was asked for is refused
    let mut out = vec![0u8; 6 * 256 * 3];
    let wrong = decode_video(
        &plan, &shape(2, 6), &latents, &mut out, 0.0, &same, &numbered, &ramp, &ramp, &shade,
    );
    assert_eq!(wrong.unwrap_err().message(), "decoded 5 frames, expected 6");
}

#[test]
fn a_chunk_that_fails_leaves_what_was_shown_before_it() {
    let plan = ChunkPlan {
        padded_tokens: 12,
        chunks: 2,
        chunk_frames: 20,
        pre: 3,
        overlap_frames: 5,
        pad_frames: 0,
    };
    let latents: Vec<f32> = (0..LATENT_CH * 12).map(|i| (i % 12) as f32).collect();
    let mut out = vec![255u8; 39 * 256 * 3];
    let same = |v: f32, _ch: usize| v;
    let shade = |v: f32, _ch: usize| v as u8;
    // the second chunk begins at the sixth latent
    let broken = |z: &[f32], g: Grid| -> Result<Vec<f32>> {
        if z[0] == 5.0 {
            Err(Error::Other("lost".into()))
        } else {
            numbered(z, g)
        }
    };
    let lost = decode_video(
        &plan, &shape(12, 39), &latents, &mut out, 0.0, &same, &broken, &ramp, &ramp, &shade,
    );
    assert_eq!(lost.unwrap_err().message(), "lost");
    let shown: Vec<u8> = (0..39).map(|f| out[f * 256 * 3]).collect();
    let mut want: Vec<u8> = (3..20).collect();
    want.extend(vec![255; 22]);
    assert_eq!(shown, want);
}

#[test]
fn a_tile_that_fails_is_the_first_of_them() {
    // two rows and two columns of tiles, each told by its first latent
    let g = Grid { ft: 1, h: 20, w: 20 };
    let z: Vec<f32> = (0..LATENT_CH * 400).map(|i| i as f32).collect();
    let broken = |z: &[f32], g: Grid| -> Result<Vec<f32>> {
        if z[0] == 0.0 {
            numbered(z, g)
        } else {
            Err(Error::Other(format!("lost at {}", z[0])))
        }
    };
    assert_eq!(decode_spatial(&z, g, 0.0, &broken, &ramp).unwrap_err().message(), "lost at 4");
}

#[test]
fn a_plan_that_does_not_hold_decodes_nothing() {
    let plan = ChunkPlan {
        padded_tokens: 12,
        chunks: 2,
        chunk_frames: 20,
        pre: 3,
        overlap_frames: 5,
        pad_frames: 0,
    };
    assert!(plan.holds());
    assert!(!ChunkPlan { chunks: 4, ..plan }.holds());
    assert!(!ChunkPlan { pad_frames: 40, ..plan }.holds());
    assert!(!ChunkPlan { pre: usize::MAX, ..plan }.holds());
    let (latents, out) = (LATENT_CH * 12, 39 * 256 * 3);
    assert!(plan.decodes(&shape(12, 39), latents, out));
    assert!(!plan.decodes(&shape(12, 39), latents - 1, out));
    assert!(!plan.decodes(&shape(12, 39), latents, out - 1));
    assert!(!plan.decodes(&shape(0, 39), latents, out));
    let huge = Shape { lat_h: i32::MAX, lat_w: i32::MAX, ..shape(12, 0) };
    assert!(!plan.decodes(&huge, usize::MAX, out));
}
