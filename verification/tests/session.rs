use h3_hrx::dit::{Attention, DenoiseParams, Keyframe, LatentGrid, Noise, Reference};
use h3_hrx::error::Error;
use h3_hrx::model::LATENT_CH;
use h3_hrx::session::{Config, Part, Session};

fn config(attention: Attention) -> Config {
    Config {
        dit: None,
        te: None,
        video_vae: None,
        audio_vae: None,
        kernel_sources: "kernels".into(),
        cache_dir: "build/kernel_cache".into(),
        loom_library: None,
        attention,
    }
}

#[test]
fn a_reference_must_match_the_buffers_it_names() {
    let z = vec![0.0f32; LATENT_CH * 4 * 4];
    let grid = LatentGrid { frames: 1, height: 4, width: 4 };
    assert!(Reference::Image { latents: &z, grid, presented: None }.check(0).is_ok());
    // latents that do not cover the grid claimed
    assert!(Reference::Image {
        latents: &z,
        grid: LatentGrid { height: 8, ..grid },
        presented: None
    }
    .check(0)
    .is_err());
    // an audio reference whose latents are short of its frame count
    assert!(Reference::Audio { latents: &z, frames: 10_000 }.check(0).is_err());
    // A video reference with a soundtrack is expressible; an image with one is not, and an audio
    // reference carrying video latents is not either.
    assert!(Reference::Video { latents: &z, grid, audio: None }.check(0).is_ok());
}

#[test]
fn a_keyframe_must_sit_on_the_generations_grid() {
    let z = vec![0.0f32; LATENT_CH * 16 * 16];
    let kf = Keyframe { frame_index: 0, latents: &z[..], presented: None, audio: None };
    assert!(kf.check(0, 16, 16).is_ok());
    assert!(kf.check(0, 32, 32).is_err(), "a larger grid needs more latents");
    assert!(kf.check(0, 0, 16).is_err(), "an empty grid is not a grid");
}

#[test]
fn only_the_three_attention_widths_exist() {
    // the type is the check now: a width that has no kernels cannot be named
    for bad in [0usize, 1, 2, 7, 9, 32] {
        assert_eq!(Attention::from_bits(bad), None, "{bad} bits");
    }
    for (bits, want) in [(16, Attention::F16), (8, Attention::I8), (4, Attention::I4)] {
        assert_eq!(Attention::from_bits(bits), Some(want));
        assert_eq!(want.bits(), bits);
    }
    assert_eq!(Attention::default(), Attention::I8);
    let _ = config(Attention::F16);
}

fn none() -> Noise<'static, f32> {
    Noise { video: None, audio: None }
}

#[test]
fn a_request_is_checked_before_anything_opens() {
    // nothing is configured, so a request that got past the checks would say so
    let session = Session::new(config(Attention::F16));
    let p = DenoiseParams::default();
    let say = |ids: &[i32], p: &DenoiseParams, noise: Noise<'_, f32>| {
        session.denoise(ids, p, noise, &[], &[]).err().unwrap().message()
    };
    assert_eq!(say(&[], &p, none()), "ids must hold at least one token");
    assert_eq!(
        say(&[1], &DenoiseParams { height: 100, ..p }, none()),
        "no shape for 100x864 at 90 frames"
    );
    assert_eq!(
        say(&[1], &DenoiseParams { steps: 1, ..p }, none()),
        "steps must be 2..1000, not 1"
    );
    let short = vec![0.0f32; 4];
    assert_eq!(
        say(&[1], &p, Noise { video: Some(&short), audio: None }),
        format!("video noise needs {} floats, 4 given", 24 * 27 * 30 * 54)
    );
    let message = say(&[1], &p, Noise { video: None, audio: Some(&short) });
    assert!(message.starts_with("audio noise needs "), "{message}");
    let odd = Reference::Image {
        latents: &short[..],
        grid: LatentGrid { frames: 1, height: 3, width: 4 },
        presented: None,
    };
    let message = session.denoise(&[1], &p, none(), &[odd], &[]).err().unwrap().message();
    assert!(message.starts_with("reference 0: "), "{message}");
    let kf = Keyframe { frame_index: 0, latents: &short[..], presented: None, audio: None };
    let message = session.denoise(&[1], &p, none(), &[], &[kf]).err().unwrap().message();
    assert!(message.starts_with("keyframe 0: "), "{message}");
    // a well formed request is stopped by the checkpoint that is missing
    assert_eq!(say(&[1], &p, none()), "no DiT checkpoint was configured");
    assert_eq!(session.validate(&[1], &p, none(), &[], &[]).unwrap().latent_t, 27);
}

#[test]
fn checkpoints_open_once_and_in_order() {
    let mut session = Session::new(Config::under("/m"));
    assert_eq!(session.attention(), Attention::I8);
    let p = DenoiseParams::default();
    let (shape, bits, next) = session.denoise::<f32>(&[1], &p, none(), &[], &[]).unwrap();
    assert_eq!((shape.lat_h, bits), (30, 8));
    assert_eq!(
        next.unwrap(),
        (
            Part::Dit,
            "/m/diffusion_models/minimax_h3_fl2va_pruned_int8_convrot.safetensors"
        )
    );
    session.opened(Part::Dit);
    assert_eq!(session.prompt_pair().unwrap().unwrap().0, Part::Te);
    session.opened(Part::Te);
    assert_eq!(session.prompt_pair().unwrap(), None);
    assert_eq!(
        session.needs(Part::VideoVae).unwrap().unwrap(),
        "/m/vae/minimax_h3_video_vae_fp16.safetensors"
    );
    let bare = Session::new(config(Attention::I4));
    for (part, words) in [
        (Part::Dit, "no DiT checkpoint was configured"),
        (Part::Te, "no text encoder checkpoint was configured"),
        (Part::VideoVae, "no video VAE checkpoint was configured"),
        (Part::AudioVae, "no audio VAE checkpoint was configured"),
    ] {
        let error = bare.needs(part).unwrap_err();
        assert!(matches!(&error, Error::Invalid(_)));
        assert_eq!(error.message(), words);
    }
}

#[test]
fn text_rows_need_ids_and_room() {
    let mut session = Session::new(Config::under("/models"));
    assert_eq!(
        session.text_in(&[], 9).unwrap_err().message(),
        "ids must hold at least one token"
    );
    assert_eq!(
        session.text_in(&[1, 2], 9).unwrap_err().message(),
        "text_in needs 10752 floats for 2 tokens, 9 given"
    );
    let (part, path) = session.text_in(&[1, 2], 2 * 5376).unwrap().unwrap();
    assert_eq!(part, Part::Dit);
    assert!(path.starts_with("/models/diffusion_models/"));
    session.opened(Part::Dit);
    assert_eq!(session.text_in(&[1], 5376).unwrap().unwrap().0, Part::Te);
    session.opened(Part::Te);
    assert!(session.text_in(&[1], 5376).unwrap().is_none());
}

#[test]
fn the_session_serves_the_layouts_shapes() {
    assert!(Session::shape_for(480, 864, 90).is_some());
    assert!(Session::shape_for(481, 864, 90).is_none());
}
