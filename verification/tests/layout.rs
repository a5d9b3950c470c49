use h3_hrx::dispatch::classes_fit;
use h3_hrx::layout::{
    advance_of, align_frames, frame_advance_of, is_packable, shape_for, valid_canvas, Advance, Cell, Keyframe, Layout, Origin, Ref, Schedule, Time,
    MAX_FRAMES, MAX_SIDE,
};

#[test]
fn frames_snap_to_the_next_seventeen_n_plus_five() {
    assert_eq!(align_frames(1), 5);
    assert_eq!(align_frames(5), 5);
    assert_eq!(align_frames(6), 22);
    assert_eq!(align_frames(22), 22);
    assert_eq!(align_frames(23), 39);
    assert_eq!(align_frames(124), 124);
}

#[test]
fn the_shape_matches_what_the_abi_documents() {
    let s = shape_for(480, 864, 124).unwrap();
    assert_eq!((s.frames, s.latent_t, s.lat_h, s.lat_w), (124, 37, 30, 54));
    assert_eq!(s.audio_t, 207);
    let s = shape_for(480, 864, 22).unwrap();
    assert_eq!((s.frames, s.latent_t, s.audio_t), (22, 7, 37));
    // a one-frame request still produces the model's minimum clip
    let s = shape_for(32, 32, 1).unwrap();
    assert_eq!((s.frames, s.latent_t, s.lat_h), (5, 2, 2));
}

#[test]
fn invalid_canvases_are_refused() {
    assert!(shape_for(480, 863, 124).is_none()); // not a multiple of 32
    assert!(shape_for(16, 864, 124).is_none()); // too small
    assert!(shape_for(480, 864, 0).is_none()); // no frames
    assert!(shape_for(MAX_SIDE + 32, 864, 124).is_none());
    assert!(shape_for(480, 864, MAX_FRAMES + 1).is_none());
    assert!(valid_canvas(MAX_SIDE, 32));
    assert!(!valid_canvas(-32, 32));
}

#[test]
fn a_plain_layout_packs_text_then_audio_then_video() {
    let l = Layout::new(13, 7, 30, 54, 37, &[], &[]).unwrap();
    assert_eq!(l.video_rows, 7 * 15 * 27);
    assert_eq!(l.audio_rows, 74);
    assert_eq!(l.ref_rows, 0);
    assert_eq!(l.seq_len, 13 + 74 + 7 * 15 * 27);
    // text rows carry the text tag and climb by one
    assert_eq!(l.adaln_rows[0], 1);
    assert_eq!(l.pos[5].t, Time::Text(5));
    // audio follows, then video, and the classes say so
    assert_eq!(l.tclass[13], 1);
    assert_eq!(l.tclass[l.seq_len - 1], 0);
    assert_eq!(l.adaln_rows[l.seq_len - 1], 0);
    assert_eq!(l.video_span_start(), 13 + 74);
}

#[test]
fn a_row_knows_its_place_on_every_axis() {
    let l = Layout::new(3, 2, 4, 6, 2, &[], &[]).unwrap();
    // the two channels of sound stand at the two ends of the width axis
    let end = |index| Some(Cell { dim: 6, other: 4, index });
    assert_eq!(l.pos[3].t, Time::Audio(Origin::Cursor(0), 0));
    assert_eq!((l.pos[3].h, l.pos[3].w), (None, end(0)));
    assert_eq!(l.pos[6].t, Time::Audio(Origin::Cursor(0), 1));
    assert_eq!((l.pos[6].h, l.pos[6].w), (None, end(2)));
    // the picture runs over frames, then rows, then columns
    let last = l.pos[l.seq_len - 1];
    assert_eq!(last.t, Time::Video(Origin::Cursor(0), 1));
    assert_eq!(last.h, Some(Cell { dim: 4, other: 6, index: 1 }));
    assert_eq!(last.w, end(2));
}

#[test]
fn marking_a_vision_span_covers_its_flanking_tokens() {
    let mut l = Layout::new(12, 7, 4, 6, 5, &[], &[]).unwrap();
    l.mark_vision(2, 4).unwrap();
    // the span itself and one token either side
    for r in 1..7 {
        assert_eq!(l.adaln_rows[r], 0, "row {r}");
    }
    assert_eq!(l.adaln_rows[0], 1);
    assert_eq!(l.adaln_rows[7], 1);
    assert_eq!(l.mark_vision(11, 2).unwrap_err(), "vision span outside presentation");
}

fn image(lat_h: i32, lat_w: i32) -> Ref {
    Ref { kind: 0, latent_t: 1, lat_h, lat_w, audio_t: 0, has_audio: false }
}

#[test]
fn reference_blocks_take_rows_before_the_target() {
    let sound = Ref { kind: 1, latent_t: 0, lat_h: 0, lat_w: 0, audio_t: 5, has_audio: true };
    let l = Layout::new(12, 7, 4, 6, 5, &[image(4, 6), sound], &[]).unwrap();
    assert_eq!(l.ref_rows, 2 * 3 + 5 * 2);
    assert_eq!(l.seq_len, 12 + l.ref_rows + 10 + 7 * 2 * 3);
    assert_eq!(l.ref_segs.len(), 2);
    // the conditioning classes, not the target's
    assert!(l.ref_segs.iter().all(|s| s.kind == 0 || s.kind == 1));
    assert_eq!(l.tclass[l.ref_segs[0].row0], 2); // the image, conditioning video
    assert_eq!(l.tclass[l.ref_segs[1].row0], 3); // the sound, conditioning audio
    // The final norm has two classes, and the reference rows do not fit them — which is why
    // only the generated span is uploaded to it. That span does fit.
    assert!(classes_fit(&l.tclass, 2).is_err(), "reference rows carry conditioning classes");
    let generated = 12 + l.ref_rows;
    assert!(
        classes_fit(&l.tclass[generated..], 2).is_ok(),
        "the generated rows are the final norm's own two classes"
    );
}

/// 256x256x5 with one 64x64 image reference. Its conditioning rows carry class 2, which is why the final
/// norm is given the generated span alone: uploading the whole array against its two classes refuses
/// every reference run.
#[test]
fn the_final_norms_span_is_the_generated_rows() {
    let l = Layout::new(18, 2, 16, 16, 9, &[image(4, 4)], &[]).unwrap();
    let lr = 18 + l.ref_rows;
    assert!(l.ref_rows > 0, "the reference takes rows");
    assert!(
        classes_fit(&l.tclass, 2).is_err(),
        "the whole array does not fit the final norm's table"
    );
    assert!(
        classes_fit(&l.tclass[lr..lr + l.audio_rows + l.video_rows], 2).is_ok(),
        "the generated span does"
    );
}

#[test]
fn a_keyframe_sits_on_the_target_grid() {
    let kf = Keyframe { frame_index: 0, audio_t: 0, has_audio: false };
    let l = Layout::new(4, 7, 4, 6, 5, &[], &[kf]).unwrap();
    assert_eq!(l.ref_rows, 2 * 3);
    assert_eq!(l.ref_segs.len(), 1);
    assert_eq!(l.ref_segs[0].kind, 3);
    assert_eq!(l.tclass[l.ref_segs[0].row0], 2);
}

#[test]
fn references_move_the_target_along_and_keyframes_stand_past_them() {
    let kf = Keyframe { frame_index: 21, audio_t: 2, has_audio: true };
    let l = Layout::new(4, 7, 4, 6, 5, &[image(4, 6)], &[kf]).unwrap();
    assert_eq!(l.pos[4].t, Time::Video(Origin::Frame(21), 0));
    assert_eq!(l.pos[10].t, Time::Audio(Origin::Frame(21), 0));
    let seg = &l.ref_segs[2];
    assert_eq!((seg.kind, seg.row0, seg.rows, seg.index), (0, 14, 6, 0));
    assert_eq!(l.pos[seg.row0].t, Time::Video(Origin::Cursor(0), 0));
    assert_eq!(l.pos[l.seq_len - 1].t, Time::Video(Origin::Cursor(1), 6));
}

/// The model's grid of noise levels: computed in double precision and narrowed point by point.
fn schedule(steps: usize, shift: f64) -> Schedule<f32> {
    Schedule::new(
        steps,
        |i| {
            let base =
                if steps == 1 { 1.0 } else { 1.0 - i as f64 / (steps - 1) as f64 };
            (shift * base / (1.0 + (shift - 1.0) * base)) as f32
        },
        |a, b| a == b,
        |s| 1.0 - s,
    )
}

#[test]
fn the_schedule_deduplicates_on_exact_equality() {
    let s = schedule(31, 12.0);
    assert_eq!(s.sigmas.len(), 31);
    assert_eq!(s.timesteps.len(), 30);
    assert_eq!(s.sigmas[0], 1.0);
    assert_eq!(*s.sigmas.last().unwrap(), 0.0);
    // timesteps are 1 - sigma of every point but the last
    for (i, t) in s.timesteps.iter().enumerate() {
        assert_eq!(*t, 1.0 - s.sigmas[i]);
    }
    // a single point is the whole grid
    assert_eq!(schedule(1, 12.0).sigmas, vec![1.0]);
    assert!(schedule(1, 12.0).timesteps.is_empty());
}

#[test]
fn points_that_narrow_to_one_level_are_one_evaluation() {
    let points = [9, 9, 7, 7, 9, 0];
    let s = Schedule::new(6, |i| points[i], |a, b| a == b, |s| 10 - s);
    assert_eq!(s.sigmas, vec![9, 7, 9, 0]);
    assert_eq!(s.timesteps, vec![1, 3, 1]);
    let none = Schedule::new(0, |i| points[i], |a, b| a == b, |s| s);
    assert!(none.sigmas.is_empty() && none.timesteps.is_empty());
}

fn reference(kind: i32, latent_t: i32, audio_t: i32, has_audio: bool) -> Ref {
    Ref { kind, latent_t, lat_h: 4, lat_w: 6, audio_t, has_audio }
}

#[test]
fn a_reference_moves_what_follows_it() {
    assert_eq!(advance_of(&reference(0, 7, 9, true)), Advance::One);
    assert_eq!(advance_of(&reference(1, 7, 9, true)), Advance::Audio(9));
    assert_eq!(advance_of(&reference(2, 7, 9, true)), Advance::Longer(9, 7));
    assert_eq!(advance_of(&reference(2, 7, 9, false)), Advance::Longer(0, 7));
    assert_eq!(advance_of(&reference(2, 7, -1, true)), Advance::Longer(0, 7));
    assert_eq!(advance_of(&reference(5, 7, 9, true)), Advance::Audio(9));
}

#[test]
fn a_reference_moves_the_keyframes() {
    for kind in 0..3 {
        let rf = reference(kind, 7, 9, true);
        assert_eq!(frame_advance_of(&rf), advance_of(&rf));
    }
    assert_eq!(frame_advance_of(&reference(5, 7, 9, true)), Advance::Longer(9, 7));
    assert_eq!(frame_advance_of(&reference(5, 7, 9, false)), Advance::Longer(0, 7));
}

#[test]
fn a_sequence_that_cannot_be_counted_is_not_laid_out() {
    let sh = shape_for(64, 96, 22).unwrap();
    let refs = [reference(0, 1, 0, false), reference(2, 3, 5, true)];
    assert!(is_packable(12, &sh, &refs, &[]));
    assert!(!is_packable(usize::MAX, &sh, &refs, &[]));
    assert!(!is_packable(usize::MAX / 3, &sh, &[], &[]));
    let huge = Ref { lat_h: i32::MAX, lat_w: i32::MAX, ..reference(2, i32::MAX, 0, false) };
    assert!(!is_packable(12, &sh, &[huge], &[]));
    assert!(!is_packable(12, &sh, &[reference(1, 0, -1, true)], &[]));
    let frame = Keyframe { frame_index: 0, audio_t: 5, has_audio: true };
    assert!(is_packable(12, &sh, &refs, &[frame]));
}
