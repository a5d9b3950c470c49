use h3_hrx::models::{
    AllAnswers, Answers, Checkpoints, Error, Look, Resolved, Resolver, Which, AUDIO_VAE, DIT_FL2VA,
    DIT_REF2VA, TE, VIDEO_VAE,
};

fn unasked() -> Answers {
    Answers { local: None, cached: None, fetched: None }
}

fn nowhere() -> Answers {
    Answers { local: Some(false), cached: Some(None), fetched: None }
}

#[test]
fn a_local_directory_wins_and_needs_no_network() {
    let r = Resolver::new(None, None, false).with_dir(Some("/models".to_string())).offline(true);
    let path = format!("/models/{VIDEO_VAE}");
    // the directory is what is asked first
    assert!(matches!(r.find(VIDEO_VAE, &unasked()), Look::Local(p) if p == path));
    let there = Answers { local: Some(true), ..unasked() };
    assert!(matches!(r.find(VIDEO_VAE, &there), Look::Found(p) if p == path));
}

#[test]
fn offline_reports_where_it_looked() {
    let r = Resolver::new(None, None, false).with_dir(Some("/models".to_string())).offline(true);
    let absent = "vae/not-a-real-checkpoint.safetensors";
    let message = match r.find(absent, &nowhere()) {
        Look::Failed(e) => e.message(),
        other => panic!("{other:?}"),
    };
    assert!(message.contains(absent), "{message}");
    assert!(message.contains("/models"), "{message}");
    assert!(message.contains("Hugging Face cache"), "{message}");
    let message = match Resolver::new(None, None, false).offline(true).find(absent, &nowhere()) {
        Look::Failed(e) => e.message(),
        other => panic!("{other:?}"),
    };
    assert!(message.contains("no models directory (--models or H3_MODELS)"), "{message}");
}

#[test]
fn an_optional_checkpoint_does_not_start_a_download() {
    // download allowed, but find_local must still not reach for the network
    let r = Resolver::new(None, None, false).with_dir(Some("/models".to_string()));
    let absent = "diffusion_models/definitely-not-a-real-file.safetensors";
    assert!(matches!(r.find_local(absent, &nowhere()), Look::Nowhere));
    assert!(matches!(r.find(absent, &nowhere()), Look::Fetch));
}

#[test]
fn the_cache_comes_before_the_network() {
    let r = Resolver::new(Some("/models"), None, false);
    let missed = Answers { local: Some(false), ..unasked() };
    assert!(matches!(r.find(TE, &missed), Look::Cached));
    let cached = Answers { local: Some(false), cached: Some(Some("/hub/te".into())), fetched: None };
    assert!(matches!(r.find(TE, &cached), Look::Found(p) if p == "/hub/te"));
    let fetched = Answers { fetched: Some(Ok("/hub/new".into())), ..nowhere() };
    assert!(matches!(r.find(TE, &fetched), Look::Found(p) if p == "/hub/new"));
    let failed = Answers { fetched: Some(Err("no route".into())), ..nowhere() };
    match r.find(TE, &failed) {
        Look::Failed(e) => assert_eq!(e.message(), format!("{TE}: no route")),
        other => panic!("{other:?}"),
    }
}

#[test]
fn the_four_checkpoints_are_resolved_in_order() {
    let r = Resolver::new(Some("/m"), None, false).revision(Some("main".to_string()));
    let here = || Answers { local: Some(true), ..unasked() };
    let mut all = AllAnswers { dit: here(), te: unasked(), video_vae: here(), audio_vae: here() };
    match Checkpoints::resolve(&r, DIT_REF2VA, &all) {
        Resolved::Next(which, Look::Local(path)) => {
            assert_eq!(which, Which::Te);
            assert_eq!(path, format!("/m/{TE}"));
        }
        other => panic!("{other:?}"),
    }
    all.te = here();
    match Checkpoints::resolve(&r, DIT_REF2VA, &all) {
        Resolved::All(paths) => {
            assert_eq!(paths.dit, format!("/m/{DIT_REF2VA}"));
            assert_eq!(paths.audio_vae, format!("/m/{AUDIO_VAE}"));
        }
        other => panic!("{other:?}"),
    }
}

#[test]
fn the_default_root_is_the_environments_or_under_home() {
    assert_eq!(Resolver::default_root(Some("/data"), "/home/me"), "/data");
    assert_eq!(Resolver::default_root(Some(""), "/home/me"), "/home/me/comfy-models");
    assert_eq!(Resolver::default_root(None, "/home/me"), "/home/me/comfy-models");
}

#[test]
fn a_guess_at_the_home_directory_is_used_only_where_it_is_one() {
    let asked = |r: Resolver| r.find(TE, &unasked());
    let guess = Resolver::new(Some(""), Some("/home/me"), true);
    assert!(matches!(asked(guess), Look::Local(p) if p == format!("/home/me/comfy-models/{TE}")));
    let set = Resolver::new(Some("/data"), Some("/home/me"), true);
    assert!(matches!(asked(set), Look::Local(p) if p == format!("/data/{TE}")));
    assert!(matches!(asked(Resolver::new(None, Some("/home/me"), false)), Look::Cached));
    assert!(matches!(asked(Resolver::new(None, None, true)), Look::Cached));
    let pinned = Resolver::new(None, None, false).revision(Some("v1".to_string()));
    assert_eq!(pinned.pin().map(String::as_str), Some("v1"));
    assert_eq!(Resolver::new(None, None, false).pin(), None);
}

#[test]
fn the_repository_paths_match_what_the_readme_documents() {
    // These are the --include arguments in the README's `hf download` line, and the same relative
    // paths ComfyUI uses, which is why one string serves both.
    for path in [DIT_FL2VA, DIT_REF2VA, TE, VIDEO_VAE, AUDIO_VAE] {
        assert!(path.ends_with(".safetensors"), "{path}");
        let dir = path.split('/').next().unwrap();
        assert!(matches!(dir, "diffusion_models" | "text_encoders" | "vae"), "{path}");
    }
}

#[test]
fn what_failed_is_told_apart() {
    let r = Resolver::new(Some("/models"), None, false);
    let failed = Answers { fetched: Some(Err("no route".into())), ..nowhere() };
    assert!(matches!(
        r.find(TE, &failed),
        Look::Failed(Error::Hub { name, source }) if name == TE && source == "no route"
    ));
    assert!(matches!(
        r.offline(true).find(TE, &failed),
        Look::Failed(Error::NotFound { name, tried }) if name == TE && tried.contains("/models")
    ));
}
