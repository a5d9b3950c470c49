use h3_hrx::model::{HEAD_DIM, ROPE_HALF, TE_ROPE_HALF, VAE_ROPE_HALF};
use h3_hrx::rope::{dit, merge_row, mrope_axis, mrope_positions, te, vae, vision, VisionSpan};

/// The angle stays in single precision.
fn dit_turn(pos: f64, inv_freq: f32) -> (f32, f32) {
    let ang = pos as f32 * inv_freq;
    (ang.cos(), ang.sin())
}

fn te_turn(pos: i64, j: usize) -> (f32, f32) {
    let inv = 5_000_000.0f64.powf(-((2 * j) as f64) / HEAD_DIM as f64);
    let ang = pos as f64 * inv;
    (ang.cos() as f32, ang.sin() as f32)
}

fn vision_turn(coordinate: usize, j: usize) -> (f32, f32) {
    let inv = 10_000.0f64.powf(-((2 * (j % 18)) as f64) / 36.0);
    let ang = coordinate as f64 * inv;
    (ang.cos() as f32, ang.sin() as f32)
}

fn vae_turn(index: usize, size: usize, j: usize) -> (f32, f32) {
    let pos = 2.0 * ((index as f64 + 0.5) / size as f64) - 1.0;
    let inv = 100.0f64.powf(-(j as f64) * 6.0 / 48.0);
    let ang = 2.0 * std::f64::consts::PI * pos * inv;
    (ang.cos() as f32, ang.sin() as f32)
}

#[test]
fn the_mrope_sections_are_interleaved_then_all_temporal() {
    // [24, 20, 20] interleaved: pairs 0..60 cycle t, h, w; the remaining four are temporal
    assert_eq!(mrope_axis(0), 0);
    assert_eq!(mrope_axis(1), 1);
    assert_eq!(mrope_axis(2), 2);
    assert_eq!(mrope_axis(59), 2);
    assert_eq!(mrope_axis(60), 0);
    assert_eq!(mrope_axis(63), 0);
    assert_eq!((0..60).filter(|j| mrope_axis(*j) == 0).count(), 20);
    assert_eq!((0..TE_ROPE_HALF).filter(|j| mrope_axis(*j) == 0).count(), 24);
}

#[test]
fn positions_run_sequentially_without_images() {
    let pos = mrope_positions(5, &[]);
    for i in 0..5 {
        assert_eq!(&pos[i * 3..i * 3 + 3], &[i as i64; 3]);
    }
}

#[test]
fn an_image_span_takes_its_grid_and_offsets_what_follows() {
    // two text rows, then a 2x3 grid over six rows, then two more text rows
    let span = VisionSpan { start: 2, count: 6, merged_h: 2, merged_w: 3 };
    let pos = mrope_positions(10, &[span]);
    assert_eq!(&pos[0..3], &[0, 0, 0]);
    assert_eq!(&pos[3..6], &[1, 1, 1]);
    // the span's rows share a temporal position and walk the grid
    assert_eq!(&pos[6..9], &[2, 2, 2]); // k = 0
    assert_eq!(&pos[9..12], &[2, 2, 3]); // k = 1
    assert_eq!(&pos[15..18], &[2, 3, 2]); // k = 3, second grid row
    // max(2, 3) - 6 = -3, so the tail resumes three behind its row index
    assert_eq!(&pos[24..27], &[5, 5, 5]); // row 8
    assert_eq!(&pos[27..30], &[6, 6, 6]);
}

#[test]
fn spans_are_taken_in_the_order_they_start_in() {
    let a = VisionSpan { start: 1, count: 4, merged_h: 2, merged_w: 2 };
    let b = VisionSpan { start: 6, count: 1, merged_h: 1, merged_w: 1 };
    assert_eq!(mrope_positions(9, &[a, b]), mrope_positions(9, &[b, a]));
}

#[test]
fn the_dit_table_is_cosf_of_a_float_angle() {
    // A position and frequency whose product differs between float and double multiplication makes
    // the two visible; the table must take the float path.
    let mut inv = [0.0f32; 16];
    inv[0] = 1.0f32 / 3.0;
    let pos = [1e7f64, 0.0, 0.0];
    let (mut c, mut s) = (vec![0.0f32; ROPE_HALF], vec![0.0f32; ROPE_HALF]);
    dit(&pos, &inv, &mut c, &mut s, dit_turn);
    let angle_f32 = 1e7f32 * (1.0f32 / 3.0);
    assert_eq!(c[0], angle_f32.cos());
    let angle_f64 = 1e7f64 * f64::from(1.0f32 / 3.0);
    assert_ne!(c[0], angle_f64.cos() as f32, "the angle must stay in f32");
}

#[test]
fn every_table_starts_at_the_identity_rotation() {
    // position zero is angle zero on every axis, whatever the base
    let (mut c, mut s) = (vec![9.0f32; ROPE_HALF], vec![9.0f32; ROPE_HALF]);
    dit(&[0.0, 0.0, 0.0], &[0.5f32; 16], &mut c, &mut s, dit_turn);
    assert!(c.iter().all(|v| *v == 1.0) && s.iter().all(|v| *v == 0.0));

    let (mut c, mut s) = (vec![9.0f32; TE_ROPE_HALF], vec![9.0f32; TE_ROPE_HALF]);
    te(&[0, 0, 0], &mut c, &mut s, te_turn);
    assert!(c.iter().all(|v| *v == 1.0) && s.iter().all(|v| *v == 0.0));

    let (mut c, mut s) = (vec![9.0f32; 36], vec![9.0f32; 36]);
    vision(1, 1, &mut c, &mut s, vision_turn);
    assert!(c.iter().all(|v| *v == 1.0) && s.iter().all(|v| *v == 0.0));
}

#[test]
fn every_pair_reads_its_own_axis() {
    let tell = |p: i64, j: usize| (p, j as i64);
    let (mut c, mut s) = (vec![-1i64; 2 * TE_ROPE_HALF], vec![-1i64; 2 * TE_ROPE_HALF]);
    te(&[10, 11, 12, 20, 21, 22], &mut c, &mut s, tell);
    for j in 0..TE_ROPE_HALF {
        assert_eq!(c[j], 10 + mrope_axis(j) as i64);
        assert_eq!(c[TE_ROPE_HALF + j], 20 + mrope_axis(j) as i64);
        assert_eq!(s[j], j as i64);
    }
    let inv: Vec<i64> = (0..16).collect();
    let (mut c, mut s) = (vec![-1i64; ROPE_HALF + 1], vec![-1i64; ROPE_HALF + 1]);
    dit(&[10, 11, 12], &inv, &mut c, &mut s, |p, q| (p, q));
    assert_eq!((c[0], c[16], c[47]), (10, 11, 12));
    assert_eq!((s[0], s[16], s[47]), (0, 0, 15));
    assert_eq!(c[ROPE_HALF], -1, "what is past the rows is left alone");
}

#[test]
fn the_vae_table_is_symmetric_about_the_centre_of_each_axis() {
    // coordinates are 2 (i + 0.5) / size - 1, so index i and size - 1 - i are negatives
    let (ft, h, w) = (4usize, 2usize, 2usize);
    let n = ft * h * w;
    let (mut c, mut s) = (vec![0.0f32; n * VAE_ROPE_HALF], vec![0.0f32; n * VAE_ROPE_HALF]);
    vae(ft, h, w, &mut c, &mut s, vae_turn);
    let row = |t: usize, y: usize, x: usize| ((t * h + y) * w + x) * VAE_ROPE_HALF;
    for j in 0..8 {
        let (a, b) = (row(0, 0, 0) + j, row(3, 0, 0) + j);
        assert!((c[a] - c[b]).abs() < 1e-6, "cos is even");
        assert!((s[a] + s[b]).abs() < 1e-6, "sin is odd");
    }
    // the first frequency of each axis is inv = 1, so the angle is 2 pi times the coordinate
    let want = (2.0 * std::f64::consts::PI * (2.0 * (0.5 / 4.0) - 1.0)).cos() as f32;
    assert_eq!(c[row(0, 0, 0)], want);
}

#[test]
fn the_vision_grid_merges_in_two_by_two_blocks() {
    // a 2x4 grid: patch (0,2) is the first of the second block, so it lands on row 4
    let (gh, gw) = (2usize, 4usize);
    let (mut c, mut s) = (vec![0.0f32; gh * gw * 36], vec![0.0f32; gh * gw * 36]);
    vision(gh, gw, &mut c, &mut s, vision_turn);
    // pair 18 is the first column frequency with inv = 1, so it reads wx directly
    let at = |r: usize| c[r * 36 + 18];
    assert_eq!(at(0), 0.0f64.cos() as f32); // (hy, wx) = (0, 0)
    assert_eq!(at(1), 1.0f64.cos() as f32); // (0, 1)
    assert_eq!(at(4), 2.0f64.cos() as f32); // (0, 2) starts the next block
}

#[test]
fn merging_permutes_the_patches() {
    assert_eq!(merge_row(0, 2, 4), 4);
    assert_eq!(merge_row(1, 3, 4), 7);
    assert_eq!(merge_row(2, 0, 4), 8);
}
