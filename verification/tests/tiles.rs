use h3_hrx::model::LATENT_CH;
use h3_hrx::tiles::{blend_latent, blend_pixels, crossfade, split_tiles};

/// The ramp from one tile into the next.
fn ramp(a: f32, b: f32, k: usize, e: usize) -> f32 {
    let wb = k as f32 / e as f32;
    let wa = 1.0 - wb;
    wa * a + wb * b
}

#[test]
fn a_length_inside_one_tile_needs_no_overlaps() {
    for len in [16, 128, 255, 256] {
        let (starts, overlaps) = split_tiles(len);
        assert_eq!(starts, vec![0], "len {len}");
        assert!(overlaps.is_empty());
    }
}

#[test]
fn the_tiles_cover_the_length_and_stay_inside_it() {
    for len in (272..=2048).step_by(16) {
        let (starts, overlaps) = split_tiles(len);
        let n = starts.len();
        assert_eq!(overlaps.len(), n - 1, "len {len}");
        assert_eq!(starts[0], 0);
        assert_eq!(
            starts[n - 1] + 256,
            len,
            "the last tile must end exactly at the length, len {len}"
        );
        for (i, o) in overlaps.iter().enumerate() {
            assert!(*o >= 64, "overlap {i} of len {len} is {o}");
            assert!(o % 16 == 0, "overlaps move in 16-pixel units");
            assert!(*o <= 256, "an overlap cannot exceed the tile");
        }
    }
}

#[test]
fn the_slack_is_spread_round_robin_not_evenly() {
    // 720 needs four tiles, not three: three would leave the overlaps below the minimum. The
    // 112 pixels of slack then go round-robin in sixteens, so the first overlap takes one more
    // than the other two rather than all three sharing evenly.
    let (starts, overlaps) = split_tiles(720);
    assert_eq!(overlaps, vec![112, 96, 96]);
    assert_eq!(starts, vec![0, 144, 304, 464]);
    assert_eq!(overlaps.iter().sum::<usize>(), 4 * 256 - 720);
}

#[test]
fn a_real_frame_splits_the_way_the_decoder_expects() {
    assert_eq!(split_tiles(864), (vec![0, 144, 288, 448, 608], vec![112, 112, 96, 96]));
    assert_eq!(split_tiles(480), (vec![0, 112, 224], vec![144, 144]));
    assert_eq!(
        split_tiles(1344),
        (vec![0, 176, 352, 528, 704, 896, 1088], vec![80, 80, 80, 80, 64, 64])
    );
    assert_eq!(split_tiles(768), (vec![0, 160, 336, 512], vec![96, 80, 80]));
    // a length one pixel over a tile still needs two, overlapping almost completely
    assert_eq!(split_tiles(257), (vec![0, 16], vec![240]));
}

#[test]
fn the_latent_blend_is_a_ramp_and_leaves_the_rest_of_the_tile_alone() {
    let (h, w, t) = (4usize, 4usize, 1usize);
    let a = vec![0.0f32; LATENT_CH * t * h * w];
    let b = vec![1.0f32; LATENT_CH * t * h * w];
    let r = blend_latent(&a, h, w, &b, h, w, 2, true, t, &ramp);
    assert_eq!(r[0], 0.0);
    assert_eq!(r[w], 0.5);
    assert_eq!(r[2 * w], 1.0);
    assert_eq!(r[3 * w], 1.0);
}

#[test]
fn a_latent_blend_across_reads_the_left_tiles_far_columns() {
    let (h, t) = (1usize, 1usize);
    let a: Vec<f32> = (0..LATENT_CH * 4).map(|i| (i % 4) as f32).collect();
    let b = vec![10.0f32; LATENT_CH * 3];
    let r = blend_latent(&a, h, 4, &b, h, 3, 2, false, t, &ramp);
    assert_eq!(&r[..3], &[2.0, 6.5, 10.0]);
}

#[test]
fn the_latent_blend_clamps_its_extent_to_the_shorter_tile() {
    let (t, w) = (1usize, 2usize);
    let a = vec![0.0f32; LATENT_CH * t * w];
    let b = vec![1.0f32; LATENT_CH * t * 4 * w];
    // asking for four rows of blend against a one-row neighbour must not read past it
    let r = blend_latent(&a, 1, w, &b, 4, w, 4, true, t, &ramp);
    assert_eq!(r[0], 0.0, "the single overlapping row is all a");
    assert_eq!(r[w], 1.0, "and nothing below it is touched");
}

#[test]
fn the_pixel_blend_reads_the_neighbour_from_its_far_edge() {
    let (f, th, tw) = (1usize, 4usize, 4usize);
    let mut a = vec![0.0f32; 3 * f * th * tw];
    for x in 0..tw {
        a[2 * tw + x] = 10.0;
        a[3 * tw + x] = 20.0;
    }
    let mut tile = vec![100.0f32; 3 * f * th * tw];
    blend_pixels(&mut tile, &a, 2, true, f, th, tw, &ramp);
    assert_eq!(tile[0], 10.0, "row 0 takes the neighbour's row th - extent");
    assert_eq!(tile[tw], 60.0, "row 1 is half of 20 and half of 100");
    assert_eq!(tile[2 * tw], 100.0, "past the extent the tile is unchanged");
}

#[test]
fn the_crossfade_takes_the_tail_of_the_overlap() {
    let plane = 2usize;
    let (ov, nf) = (4usize, 4usize);
    let overlap: Vec<f32> = (0..3 * ov * plane).map(|i| (i % (ov * plane)) as f32).collect();
    let mut chunk = vec![100.0f32; 3 * nf * plane];
    crossfade(&mut chunk, nf, &overlap, plane, 2, &ramp);
    // be = 2: frame 0 is all of the overlap's frame 2, frame 1 is halfway to the chunk
    assert_eq!(chunk[0], 4.0);
    assert_eq!(chunk[plane], (6.0 + 100.0) / 2.0);
    assert_eq!(chunk[2 * plane], 100.0);
}

#[test]
fn a_short_chunk_fades_over_what_it_has() {
    let plane = 1usize;
    let overlap = vec![0.0f32; 3 * 8 * plane];
    let mut chunk = vec![100.0f32; 3 * plane];
    crossfade(&mut chunk, 1, &overlap, plane, 8, &ramp);
    assert_eq!(chunk[0], 0.0, "one frame means the whole fade is the overlap");
}
