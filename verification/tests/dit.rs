use h3_hrx::dit::{
    check_image_count, fill_segment, pack, packs, pictures, placeholders, refiner_dims, run_shape,
    segment_source, seq_capacity, vision_span, Attention, DenoiseParams, Keyframe, LatentGrid,
    Presented, Reference, Sampler,
};
use h3_hrx::layout::shape_for;
use h3_hrx::model::LATENT_CH;

fn grid(frames: usize, height: usize, width: usize) -> LatentGrid {
    LatentGrid { frames, height, width }
}

#[test]
fn a_reference_grid_is_whole_patches() {
    let lat = vec![0.0f32; LATENT_CH * 8 * 8];
    let of = |g| Reference::Image { latents: &lat, grid: g, presented: None };
    of(grid(1, 4, 4)).check(0).expect("an even grid");
    // 3x2 sizes its rows as (3/2)*(2/2) = 1 and then packs a second row of patches into it
    assert!(of(grid(1, 3, 2)).check(0).is_err(), "an odd height");
    assert!(of(grid(1, 4, 3)).check(0).is_err(), "an odd width");
}

#[test]
fn a_grid_counts_its_elements_or_refuses_to() {
    assert_eq!(grid(2, 4, 6).elements(), Some(24 * 2 * 4 * 6));
    assert_eq!(grid(usize::MAX, 4, 6).elements(), None);
}

#[test]
fn the_refiner_has_no_rope_and_one_class() {
    let d = refiner_dims();
    assert!(d.bf16, "its rows are bf16 as stored");
    assert_eq!(d.classes, 1);
    assert_eq!(d.kv_heads, d.heads, "no grouped-query attention here");
    assert!(!d.causal);
}

#[test]
fn the_sequence_capacity_leaves_the_attention_its_slack() {
    assert_eq!(seq_capacity(1), 288);
    assert_eq!(seq_capacity(256), 288);
    assert_eq!(seq_capacity(257), 544);
    assert_eq!(seq_capacity(30_000), 30_240);
    // it is monotonic and always leaves room, which is what makes "does it fit" a valid test
    let mut prev = 0;
    for n in (1..4000).step_by(7) {
        let cap = seq_capacity(n);
        assert!(cap >= n + 32, "{n} fits in {cap} with slack");
        assert!(cap >= prev);
        prev = cap;
    }
}

#[test]
fn an_attention_width_is_found_by_its_bits() {
    for attention in [Attention::I4, Attention::I8, Attention::F16] {
        assert_eq!(Attention::from_bits(attention.bits()), Some(attention));
    }
    assert_eq!(Attention::from_bits(5), None);
}

#[test]
fn placeholder_runs_are_maximal() {
    assert_eq!(placeholders(&[1, -1, -1, 2, -1, 3]), vec![(1, 2), (4, 1)]);
    assert_eq!(placeholders(&[-1, -2]), vec![(0, 2)]);
    assert!(placeholders(&[1, 2, 0]).is_empty());
    assert!(placeholders(&[]).is_empty());
}

#[test]
fn every_image_has_its_run_and_every_run_its_image() {
    assert!(check_image_count(2, 2).is_ok());
    assert_eq!(
        check_image_count(2, 1).unwrap_err().message(),
        "more images than placeholder runs in the ids"
    );
    assert_eq!(
        check_image_count(1, 2).unwrap_err().message(),
        "placeholder runs in the ids without an image reference with pixels"
    );
}

#[test]
fn an_image_fills_exactly_its_run() {
    let runs = [(3, 6)];
    let span = vision_span(&runs, 0, 64, 96).unwrap();
    assert_eq!((span.start, span.count, span.merged_h, span.merged_w), (3, 6, 2, 3));
    assert_eq!(
        vision_span(&runs, 0, 64, 64).unwrap_err().message(),
        "placeholder run 0 has 6 ids, the image needs 4"
    );
}

#[test]
fn keyframes_are_presented_before_references() {
    let pixels = vec![0.0f32; 3 * 64 * 64];
    let lat = vec![0.0f32; LATENT_CH * 4 * 4];
    let shown = |height| Some(Presented { pixels: &pixels[..], height, width: 64 });
    let kf = Keyframe { frame_index: 0, latents: &lat, presented: shown(32), audio: None };
    let quiet = Keyframe { frame_index: 4, latents: &lat, presented: None, audio: None };
    let image = Reference::Image { latents: &lat, grid: grid(1, 4, 4), presented: shown(64) };
    let sound = Reference::Audio { latents: &lat, frames: 2 };
    let pics = pictures(&[kf, quiet], &[sound, image]);
    assert_eq!(pics.iter().map(|p| p.height).collect::<Vec<_>>(), vec![32, 64]);
}

#[test]
fn a_run_needs_a_shape_and_a_schedule() {
    let params = DenoiseParams { height: 480, width: 864, frames: 22, steps: 30, ..Default::default() };
    assert_eq!(run_shape(&params).unwrap().latent_t, 7);
    let params = DenoiseParams { height: 481, width: 864, frames: 22, steps: 30, ..Default::default() };
    assert_eq!(run_shape(&params).unwrap_err().message(), "no such shape");
    for steps in [1, 1001] {
        let params = DenoiseParams { height: 480, width: 864, frames: 22, steps, ..Default::default() };
        assert_eq!(run_shape(&params).unwrap_err().message(), "steps must be 2..1000");
    }
    assert_eq!(DenoiseParams::default().sampler, Sampler::default());
}

#[test]
fn every_packed_segment_has_its_latents() {
    let picture = vec![1.0f32; LATENT_CH * 4 * 6];
    let clip = vec![2.0f32; LATENT_CH * 2 * 4 * 6];
    let sound = vec![3.0f32; 64 * 5];
    let refs = [
        Reference::Image { latents: &picture, grid: grid(1, 4, 6), presented: None },
        Reference::Audio { latents: &sound, frames: 5 },
        Reference::Video { latents: &clip, grid: grid(2, 4, 6), audio: Some((&sound[..], 5)) },
    ];
    let kfs = [
        Keyframe { frame_index: 0, latents: &picture, presented: None, audio: Some((&sound[..], 5)) },
    ];
    let shape = shape_for(64, 96, 22).unwrap();
    assert!(packs(&shape, 12, &refs, &kfs) && !packs(&shape, usize::MAX, &refs, &kfs));
    let lay = pack(&shape, 12, &refs, &kfs).unwrap();
    let kinds: Vec<_> = lay.ref_segs.iter().map(|s| (s.kind, s.audio)).collect();
    assert_eq!(
        kinds,
        vec![(3, false), (3, true), (0, false), (1, true), (2, true), (2, false)]
    );
    for seg in &lay.ref_segs {
        let z = segment_source(seg, &refs, &kfs).unwrap();
        let want = if seg.audio { 3.0 } else if seg.kind == 2 { 2.0 } else { 1.0 };
        assert_eq!(z[0], want);
    }
    // a segment that names the wrong source is refused in its own words
    let mut seg = lay.ref_segs[2].clone();
    seg.audio = true;
    assert_eq!(
        segment_source(&seg, &refs, &kfs).unwrap_err().message(),
        "an audio reference segment without audio latents"
    );
    let mut seg = lay.ref_segs[3].clone();
    seg.audio = false;
    assert_eq!(
        segment_source(&seg, &refs, &kfs).unwrap_err().message(),
        "a visual reference segment without video latents"
    );
}

#[test]
fn a_picture_segment_is_mixed_and_a_sound_segment_is_not() {
    let refs = [Reference::Audio { latents: &[0.0f32; 64][..], frames: 1 }];
    let shape = shape_for(64, 96, 22).unwrap();
    let lay = pack(&shape, 4, &refs, &[]).unwrap();
    let z: Vec<f32> = (0..64).map(|i| i as f32).collect();
    let mut rows = vec![0.0f32; 64];
    fill_segment(&lay.ref_segs[0], &z, &[], &mut rows, |_z, _n| -1.0);
    // channel-major latents become two rows of thirty-two
    assert_eq!(rows, z);
    let picture = vec![2.0f32; LATENT_CH * 4];
    let draws = vec![1.0f32; LATENT_CH * 4];
    let refs = [Reference::Image { latents: &picture, grid: grid(1, 2, 2), presented: None }];
    let lay = pack(&shape, 4, &refs, &[]).unwrap();
    let mut rows = vec![0.0f32; 96];
    fill_segment(&lay.ref_segs[0], &picture, &draws, &mut rows, |z, n| 10.0 * z + n);
    assert!(rows.iter().all(|v| *v == 21.0));
}

#[test]
fn a_keyframe_is_checked_on_the_runs_grid() {
    let lat = vec![0.0f32; LATENT_CH * 30 * 54];
    let kf = Keyframe { frame_index: 0, latents: &lat, presented: None, audio: None };
    kf.check(0, 30, 54).expect("on the grid");
    assert_eq!(
        kf.check(2, 32, 54).unwrap_err().message(),
        "keyframe 2: latents on the 32x54 grid need 41472 floats, 38880 given"
    );
    assert!(kf.check(0, -2, 54).is_err());
}
