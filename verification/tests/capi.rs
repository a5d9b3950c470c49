use h3_hrx::capi::{
    attention_of, borrows, borrows_out, cleaned, clip_extents, clip_lengths, count_of, creates,
    embeds, encoded, enough, extent, h3_status, image_extents, keyframes_of, locks, params_of,
    refs_of, run_lengths, sound_lengths, sound_samples, text_in_len, Buffers, KeyframeFields,
    Lengths, Out, Params, RefFields, ABI_VERSION,
};
use h3_hrx::dit::{Attention, Reference, Sampler};
use h3_hrx::error::Error;

#[test]
fn a_null_buffer_with_a_count_is_refused_rather_than_dereferenced() {
    let error = borrows(true, 8, "in").unwrap_err();
    assert_eq!(error.message(), "in is NULL with a count of 8");
    let error = borrows_out(true, 8, "out").unwrap_err();
    assert_eq!(error.message(), "out is NULL");
    // a count of zero is the one case where NULL is fine, and yields an empty slice
    assert!(!borrows(true, 0, "in").unwrap());
    assert!(!borrows_out(true, 0, "out").unwrap());
    // and a real pointer still works
    assert!(borrows(false, 3, "in").unwrap());
    assert!(borrows_out(false, 3, "out").unwrap());
}

#[test]
fn dimensions_that_would_overflow_are_refused_not_wrapped() {
    // 8192 x 8192 x 124 x 3 is 24,964,497,408 bytes. As a signed 32-bit product it wraps negative,
    // and `.max(0)` then makes the required size zero.
    let wrapped = (8192i32).wrapping_mul(8192).wrapping_mul(124);
    assert!(wrapped < 0, "the i32 product really does wrap");
    assert_eq!(wrapped.max(0) as usize, 0, "and .max(0) really does yield zero");

    let n = extent("frames", &[8192, 8192, 124, 3]).expect("fits a usize");
    assert_eq!(n, 24_964_497_408);
    let negative = extent("frames", &[-1, 4]).unwrap_err();
    assert_eq!(negative.message(), "frames: negative dimension -1");
    let past = extent("frames", &[i32::MAX, i32::MAX, i32::MAX, i32::MAX]).unwrap_err();
    assert_eq!(past.message(), "frames: dimensions overflow a usize");
    assert_eq!(extent("nothing", &[]).unwrap(), 1);
    assert_eq!(extent("empty", &[0, 5]).unwrap(), 0);
}

#[test]
fn the_status_codes_are_the_ones_the_header_declares() {
    assert_eq!(h3_status::H3_OK.code(), 0);
    assert_eq!(h3_status::H3_ERROR.code(), 1);
    assert_eq!(h3_status::H3_CANCELLED.code(), 2);
    assert_eq!(h3_status::H3_INVALID_ARGUMENT.code(), 64);
    assert_eq!(ABI_VERSION, 8);
}

#[test]
fn a_failure_leaves_its_message_for_the_thread_that_saw_it() {
    assert_eq!(cleaned("first"), "first");
    // an interior NUL cannot reach C, and must not truncate the message there either
    assert_eq!(cleaned("before\0after"), "before?after");
    let (status, message) = h3_status::of(&Err(Error::Invalid("a\0b".into())));
    assert_eq!(status, h3_status::H3_INVALID_ARGUMENT);
    assert_eq!(message.unwrap(), "a?b");
    let (status, message) = h3_status::of(&Ok(()));
    assert_eq!(status, h3_status::H3_OK);
    assert!(message.is_none());
    assert_eq!(h3_status::of(&Err(Error::Cancelled)).0, h3_status::H3_CANCELLED);
    assert_eq!(h3_status::of(&Err(Error::Other("x".into()))).0, h3_status::H3_ERROR);
}

#[test]
fn a_count_must_cover_what_the_shape_needs() {
    assert!(enough("samples", 10, 10).is_ok());
    let error = enough("samples", 9, 10).unwrap_err();
    assert_eq!(error.message(), "samples: 9 elements given, 10 needed");
    assert_eq!(count_of(-3), 0);
    assert_eq!(count_of(3), 3);
}

fn params() -> Params {
    Params { height: 480, width: 864, frames: 90, steps: 30, seed: 5, sampler: 0 }
}

#[test]
fn parameters_keep_their_meaning_across_the_boundary() {
    let p = params_of(&params());
    assert_eq!((p.height, p.width, p.frames, p.steps, p.seed), (480, 864, 90, 30, 5));
    assert_eq!(p.sampler, Sampler::Euler);
    let p = params_of(&Params { steps: -4, sampler: 7, ..params() });
    assert_eq!(p.steps, 0);
    assert_eq!(p.sampler, Sampler::ResMultistep);
    assert_eq!(attention_of(0).unwrap(), Attention::I8);
    assert_eq!(attention_of(16).unwrap(), Attention::F16);
    assert_eq!(attention_of(4).unwrap(), Attention::I4);
    assert_eq!(
        attention_of(-8).unwrap_err().message(),
        "attn_qk_bits -8 is not 16, 8 or 4"
    );
}

#[test]
fn what_a_session_needs_is_asked_for() {
    assert!(creates(true, true, true, true).is_ok());
    assert_eq!(
        creates(false, true, true, true).unwrap_err().message(),
        "config and out_session are required"
    );
    assert_eq!(
        creates(true, true, false, true).unwrap_err().message(),
        "kernel_sources, cache_dir and loom_compile are required"
    );
    assert!(locks(false, false).is_ok());
    assert_eq!(locks(true, false).unwrap_err().message(), "session is NULL");
    assert!(matches!(locks(false, true), Err(Error::Other(_))));
}

#[test]
fn lengths_follow_the_shape_and_short_buffers_are_refused() {
    // 480x864 at 90 frames: 27 latent frames of 30x54
    let video = 27 * 30 * 54 * 24;
    let l = run_lengths(Some(&params()), 3, usize::MAX, usize::MAX).unwrap();
    assert_eq!(l.video, video);
    assert_eq!(l.audio, l.shape.audio_t as usize * 2 * 32);
    assert_eq!(run_lengths(None, 3, 0, 0).unwrap_err().message(), "params is NULL");
    assert_eq!(
        run_lengths(Some(&params()), -1, 0, 0).unwrap_err().message(),
        "ids must hold at least one token"
    );
    let odd = Params { height: 481, ..params() };
    assert_eq!(
        run_lengths(Some(&odd), 3, 0, 0).unwrap_err().message(),
        "no such shape: height and width must be multiples of 32 and the frame count in range"
    );
    let short = run_lengths(Some(&params()), 3, video - 1, usize::MAX).unwrap_err();
    assert_eq!(
        short.message(),
        format!("video latents: {} elements given, {video} needed", video - 1)
    );
    let c = clip_lengths(Some(&params()), usize::MAX, usize::MAX).unwrap();
    assert_eq!(c.latents, video);
    assert_eq!(c.pixels, 90 * 480 * 864 * 3);
    assert!(clip_lengths(Some(&params()), video, 0).is_err());
    assert_eq!(clip_lengths(Some(&odd), 0, 0).unwrap_err().message(), "no such shape");
    assert_eq!(text_in_len(2, 2 * 5376).unwrap(), (2, 2 * 5376));
    assert_eq!(
        text_in_len(2, 5376).unwrap_err().message(),
        "text_in out: 5376 elements given, 10752 needed"
    );
    assert_eq!(text_in_len(0, 5).unwrap_err().message(), "ids must hold at least one token");
    let clip = clip_extents(1, 2, 3).unwrap();
    assert_eq!((clip.frames, clip.height, clip.width, clip.pixels), (1, 2, 3, 18));
    assert_eq!(
        clip_extents(i32::MAX, i32::MAX, i32::MAX).unwrap_err().message(),
        "pixels: dimensions overflow a usize"
    );
    assert_eq!(image_extents(64, 96).unwrap(), (64, 96, 64 * 96 * 3));
    assert_eq!(image_extents(-1, 96).unwrap(), (0, 96, 0));
    assert!(clip_extents(1, 0, 3).is_err());
    assert_eq!(sound_lengths(4, 10, 256, 80).unwrap(), (256, 80));
    assert_eq!(
        sound_lengths(0, 10, 256, 80).unwrap_err().message(),
        "audio_t must be at least one"
    );
    assert!(sound_lengths(4, 10, 255, 80).is_err());
    assert_eq!(sound_samples(5).unwrap(), 10);
    assert!(sound_samples(0).is_err());
    // both outputs of an embedding are looked at before either is written
    let out = |null: bool, elements: usize| Out { null, elements };
    assert!(embeds(out(false, 8), 8, out(false, 24), 24).is_ok());
    for (merged, deepstack, words) in [
        (out(false, 7), out(false, 24), "merged: 7 elements given, 8 needed"),
        (out(false, 8), out(false, 23), "deepstack: 23 elements given, 24 needed"),
        (out(true, 8), out(false, 24), "merged is NULL"),
        (out(false, 8), out(true, 24), "deepstack is NULL"),
    ] {
        assert_eq!(embeds(merged, 8, deepstack, 24).unwrap_err().message(), words);
    }
}

fn image() -> RefFields {
    RefFields {
        kind: 0,
        latent_t: 1,
        lat_h: 4,
        lat_w: 4,
        audio_t: 0,
        height: 0,
        width: 0,
        has_video: true,
        has_audio: false,
        has_pixels: false,
    }
}

#[test]
fn a_reference_is_its_tag_and_the_buffers_that_go_with_it() {
    let floats = vec![0.5f32; 24 * 16];
    let borrow = |_: usize, n: Lengths| Buffers {
        video: &floats[..n.video],
        audio: &floats[..n.audio],
        pixels: &floats[..n.pixels],
    };
    let out = refs_of(&[image()], &borrow).unwrap();
    match &out[0] {
        Reference::Image { latents, grid, presented } => {
            assert_eq!(latents.len(), 24 * 16);
            assert_eq!((grid.frames, grid.height, grid.width), (1, 4, 4));
            assert!(presented.is_none());
        }
        _ => panic!("an image"),
    }
    let refuse = |r: RefFields| refs_of(&[image(), r], &borrow).err().unwrap().message();
    assert_eq!(
        refuse(RefFields { has_video: false, ..image() }),
        "an image reference without latents"
    );
    assert_eq!(
        refuse(RefFields { kind: 1, ..image() }),
        "an audio reference without latents"
    );
    assert_eq!(
        refuse(RefFields { kind: 2, has_video: false, ..image() }),
        "a video reference without latents"
    );
    assert_eq!(
        refuse(RefFields { kind: 9, ..image() }),
        "reference kind 9 is not 0 (image), 1 (audio) or 2 (video)"
    );
    assert_eq!(
        refuse(RefFields { lat_h: -4, ..image() }),
        "reference latents: negative dimension -4"
    );
    let sound = RefFields { kind: 1, audio_t: 3, has_audio: true, ..image() };
    match &refs_of(&[sound], &borrow).unwrap()[0] {
        Reference::Audio { latents, frames } => assert_eq!((latents.len(), *frames), (192, 3)),
        _ => panic!("a sound"),
    }
}

#[test]
fn a_keyframe_takes_the_generations_grid() {
    let floats = vec![0.5f32; 24 * 16];
    let borrow = |_: usize, n: Lengths| Buffers {
        video: &floats[..n.video],
        audio: &floats[..n.audio],
        pixels: &floats[..n.pixels],
    };
    let k = KeyframeFields {
        frame_index: 7,
        audio_t: 1,
        height: 2,
        width: 3,
        has_video: true,
        has_audio: true,
        has_pixels: true,
    };
    let out = keyframes_of(&[k], 4, 4, &borrow).unwrap();
    assert_eq!(out[0].frame_index, 7);
    assert_eq!(out[0].latents.len(), 24 * 16);
    assert_eq!(out[0].audio.unwrap().0.len(), 64);
    assert_eq!(out[0].presented.unwrap().pixels.len(), 18);
    let bare = KeyframeFields { has_video: false, ..k };
    assert_eq!(
        keyframes_of(&[bare], 4, 4, &borrow).err().unwrap().message(),
        "a keyframe without video latents"
    );
    assert!(keyframes_of(&[k], -4, 4, &borrow).is_err());
}

#[test]
fn an_encode_reports_its_count_past_the_buffer() {
    assert_eq!(encoded(&[1, 2, 3], 2), (3, 2));
    assert_eq!(encoded(&[1, 2, 3], 9), (3, 3));
}
