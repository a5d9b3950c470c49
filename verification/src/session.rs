//! A session: the four checkpoints, opened lazily and reused.
//!
//! Checkpoints open on first use because most callers want one or two of them: decoding a clip needs the video
//! VAE alone, and opening the text encoder to do it would cost minutes for nothing. What is cheap to refuse is
//! refused before anything is opened.
use vstd::prelude::*;
use vstd::string::StringExecFns;

use crate::dit;
use crate::dit::{Attention, DenoiseParams, Keyframe, Noise, Reference};
use crate::error;
use crate::error::{Error, Result};
use crate::layout;
use crate::layout::Shape;
use crate::model::{AUDIO_CH, HID, LATENT_CH};
use crate::models;
use crate::text;

verus! {

/// Where the four checkpoints live, and how kernels are built.
#[derive(Debug)]
pub struct Config {
    pub dit: Option<String>,
    pub te: Option<String>,
    pub video_vae: Option<String>,
    pub audio_vae: Option<String>,
    /// Empty selects the sources embedded in this model package.
    pub kernel_sources: String,
    /// Empty selects the shared per-user cache.
    pub cache_dir: String,
    pub loom_library: Option<String>,
    /// the DiT attention's QK operands
    pub attention: Attention,
}

/// A path that was configured.
pub open spec fn set_to(path: Option<String>, words: Seq<char>) -> bool {
    path matches Some(p) && p@ == words
}

impl Config {
    /// Checkpoints under a directory, embedded kernel sources, a shared per-user compiler cache, and 8-bit
    /// attention.
    pub fn under(root: &str) -> (config: Self)
        ensures
            set_to(config.dit, text::path_under(root@, models::DIT_FL2VA@)),
            set_to(config.te, text::path_under(root@, models::TE@)),
            set_to(config.video_vae, text::path_under(root@, models::VIDEO_VAE@)),
            set_to(config.audio_vae, text::path_under(root@, models::AUDIO_VAE@)),
            config.kernel_sources@ == ""@,
            config.cache_dir@ == ""@,
            config.loom_library is None,
            config.attention == Attention::I8,
    {
        Config {
            dit: Some(text::join_path(root, models::DIT_FL2VA)),
            te: Some(text::join_path(root, models::TE)),
            video_vae: Some(text::join_path(root, models::VIDEO_VAE)),
            audio_vae: Some(text::join_path(root, models::AUDIO_VAE)),
            kernel_sources: String::from_str(""),
            cache_dir: String::from_str(""),
            loom_library: None,
            attention: Attention::default(),
        }
    }
}

/// One of the four checkpoints.
#[derive(Clone, Copy, Debug, PartialEq, Eq, Structural)]
pub enum Part {
    Dit,
    Te,
    VideoVae,
    AudioVae,
}

/// What is said of a checkpoint that is needed and was not configured.
pub open spec fn unconfigured(part: Part) -> Seq<char> {
    match part {
        Part::Dit => "no DiT checkpoint was configured"@,
        Part::Te => "no text encoder checkpoint was configured"@,
        Part::VideoVae => "no video VAE checkpoint was configured"@,
        Part::AudioVae => "no audio VAE checkpoint was configured"@,
    }
}

/// Which checkpoints are open, and where the others are.
#[derive(Debug)]
pub struct Session {
    pub config: Config,
    pub dit: bool,
    pub te: bool,
    pub video_vae: bool,
    pub audio_vae: bool,
}

impl Session {
    pub open spec fn is_open(&self, part: Part) -> bool {
        match part {
            Part::Dit => self.dit,
            Part::Te => self.te,
            Part::VideoVae => self.video_vae,
            Part::AudioVae => self.audio_vae,
        }
    }

    pub open spec fn path(&self, part: Part) -> Option<String> {
        match part {
            Part::Dit => self.config.dit,
            Part::Te => self.config.te,
            Part::VideoVae => self.config.video_vae,
            Part::AudioVae => self.config.audio_vae,
        }
    }

    /// A session. Checkpoints are read lazily, on the first call that needs one.
    pub fn new(config: Config) -> (session: Self)
        ensures
            session.config == config,
            forall|part: Part| !#[trigger] session.is_open(part),
    {
        Session { config, dit: false, te: false, video_vae: false, audio_vae: false }
    }

    /// The attention this session was created with. The stack is built for it, so it is not a per-run
    /// parameter.
    pub fn attention(&self) -> (attention: Attention)
        ensures
            attention == self.config.attention,
    {
        self.config.attention
    }

    /// The shapes a request produces, or `None` when it is not one this model serves.
    pub fn shape_for(height: i32, width: i32, frames: i32) -> (shape: Option<Shape>)
        ensures
            shape is Some <==> layout::canvas(height as int, width as int) && 1 <= frames
                <= layout::MAX_FRAMES,
            shape matches Some(s) ==> layout::served(
                s,
                height as int,
                width as int,
                frames as int,
            ),
    {
        layout::shape_for(height, width, frames)
    }

    /// What stands in the way of having a checkpoint open.
    pub open spec fn blocked(&self, part: Part) -> bool {
        !self.is_open(part) && self.path(part) is None
    }

    /// The path of a checkpoint to open before a call that needs it, or nothing where it is open already.
    pub fn needs(&self, part: Part) -> (result: Result<Option<&str>>)
        ensures
            if self.is_open(part) {
                result == Ok::<Option<&str>, Error>(None)
            } else if self.path(part) is None {
                result matches Err(e) && error::blames(e, unconfigured(part))
            } else {
                result matches Ok(Some(path)) && path@ == self.path(part)->0@
            },
    {
        let open: bool = match part {
            Part::Dit => self.dit,
            Part::Te => self.te,
            Part::VideoVae => self.video_vae,
            Part::AudioVae => self.audio_vae,
        };
        if open {
            return Ok(None);
        }
        let path: &Option<String> = match part {
            Part::Dit => &self.config.dit,
            Part::Te => &self.config.te,
            Part::VideoVae => &self.config.video_vae,
            Part::AudioVae => &self.config.audio_vae,
        };
        match path {
            Some(path) => Ok(Some(path.as_str())),
            None => error::invalid(
                String::from_str(
                    match part {
                        Part::Dit => "no DiT checkpoint was configured",
                        Part::Te => "no text encoder checkpoint was configured",
                        Part::VideoVae => "no video VAE checkpoint was configured",
                        Part::AudioVae => "no audio VAE checkpoint was configured",
                    },
                ),
            ),
        }
    }

    /// Records that a checkpoint was opened.
    pub fn opened(&mut self, part: Part)
        ensures
            final(self).config == old(self).config,
            forall|p: Part| #[trigger]
                final(self).is_open(p) == (p == part || old(self).is_open(p)),
    {
        match part {
            Part::Dit => self.dit = true,
            Part::Te => self.te = true,
            Part::VideoVae => self.video_vae = true,
            Part::AudioVae => self.audio_vae = true,
        }
    }

    /// The checkpoint to open next of the two a prompt needs: the DiT, then the text encoder. Nothing where
    /// both are open.
    pub fn prompt_pair(&self) -> (result: Result<Option<(Part, &str)>>)
        ensures
            match result {
                Err(e) => {
                    ||| self.blocked(Part::Dit) && error::blames(e, unconfigured(Part::Dit))
                    ||| self.is_open(Part::Dit) && self.blocked(Part::Te) && error::blames(
                        e,
                        unconfigured(Part::Te),
                    )
                },
                Ok(None) => self.is_open(Part::Dit) && self.is_open(Part::Te),
                Ok(Some((part, path))) => {
                    &&& !self.is_open(part) && !self.blocked(part)
                    &&& path@ == self.path(part)->0@
                    &&& part == if self.is_open(Part::Dit) {
                        Part::Te
                    } else {
                        Part::Dit
                    }
                },
            },
    {
        if let Some(path) = self.needs(Part::Dit)? {
            return Ok(Some((Part::Dit, path)));
        }
        if let Some(path) = self.needs(Part::Te)? {
            return Ok(Some((Part::Te, path)));
        }
        Ok(None)
    }
}

/// What is wrong with a prompt, and with the rows its refined text goes into.
pub open spec fn text_in_trouble(ids: int, out: int) -> Option<Seq<char>> {
    if ids == 0 {
        Some("ids must hold at least one token"@)
    } else if out < ids * HID {
        Some(
            text::phrase2_of(
                "text_in needs "@,
                (ids * HID) as nat,
                " floats for "@,
                ids as nat,
                text::phrase_of(" tokens, "@, out as nat, " given"@),
            ),
        )
    } else {
        None
    }
}

/// Whether refined text rows can be asked for, decided before a checkpoint is opened: a bad request should
/// cost nothing.
fn check_text_in(ids: usize, out: usize) -> (result: Result<()>)
    requires
        ids * HID <= usize::MAX,
    ensures
        match text_in_trouble(ids as int, out as int) {
            Some(words) => result matches Err(e) && error::blames(e, words),
            None => result is Ok,
        },
{
    if ids == 0 {
        return error::invalid(String::from_str("ids must hold at least one token"));
    }
    if out < ids * HID {
        let tail = text::phrase(" tokens, ", out, " given");
        return error::invalid(
            text::phrase2("text_in needs ", ids * HID, " floats for ", ids, tail.as_str()),
        );
    }
    Ok(())
}

impl Session {
    /// What refined text rows need before they are made: ids and room for their rows, and after that the next
    /// checkpoint to open, if one is not.
    pub fn text_in(&self, ids: &[i32], out: usize) -> (result: Result<Option<(Part, &str)>>)
        requires
            ids@.len() * HID <= usize::MAX,
        ensures
            match text_in_trouble(ids@.len() as int, out as int) {
                Some(words) => result matches Err(e) && error::blames(e, words),
                None => if self.blocked(Part::Dit) {
                    result matches Err(e) && error::blames(e, unconfigured(Part::Dit))
                } else if self.is_open(Part::Dit) && self.blocked(Part::Te) {
                    result matches Err(e) && error::blames(e, unconfigured(Part::Te))
                } else {
                    &&& result matches Ok(next)
                    &&& match next {
                        None => self.is_open(Part::Dit) && self.is_open(Part::Te),
                        Some((part, path)) => {
                            &&& !self.is_open(part)
                            &&& path@ == self.path(part)->0@
                            &&& part == if self.is_open(Part::Dit) {
                                Part::Te
                            } else {
                                Part::Dit
                            }
                        },
                    }
                },
            },
    {
        check_text_in(ids.len(), out)?;
        self.prompt_pair()
    }
}

/// How many numbers a shape's picture takes.
pub open spec fn video_floats(sh: Shape) -> int {
    LATENT_CH * sh.latent_t * sh.lat_h * sh.lat_w
}

/// How many numbers a shape's sound takes.
pub open spec fn audio_floats(sh: Shape) -> int {
    2 * AUDIO_CH * sh.audio_t
}

/// What is said of noise that is too short.
pub open spec fn noise_trouble(what: Seq<char>, need: int, noise: Option<nat>) -> Option<Seq<char>> {
    match noise {
        Some(given) if given < need => Some(
            text::phrase2_of(
                what + " noise needs "@,
                need as nat,
                " floats, "@,
                given,
                " given"@,
            ),
        ),
        _ => None,
    }
}

/// What is wrong with the first reference that is not as it claims.
pub open spec fn references_trouble<T>(refs: Seq<Reference<T>>) -> Option<Seq<char>>
    decreases refs.len(),
{
    if refs.len() == 0 {
        None
    } else if references_trouble(refs.drop_last()) is Some {
        references_trouble(refs.drop_last())
    } else {
        match refs.last().trouble() {
            Some(words) => Some(
                text::phrase_of("reference "@, (refs.len() - 1) as nat, ": "@ + words),
            ),
            None => None,
        }
    }
}

/// What is wrong with the first keyframe that does not sit on the grid.
pub open spec fn keyframes_trouble<T>(kfs: Seq<Keyframe<T>>, lat_h: i32, lat_w: i32) -> Option<Seq<char>>
    decreases kfs.len(),
{
    if kfs.len() == 0 {
        None
    } else if keyframes_trouble(kfs.drop_last(), lat_h, lat_w) is Some {
        keyframes_trouble(kfs.drop_last(), lat_h, lat_w)
    } else {
        match kfs.last().trouble(lat_h, lat_w) {
            Some(words) => Some(
                text::phrase_of("keyframe "@, (kfs.len() - 1) as nat, ": "@ + words),
            ),
            None => None,
        }
    }
}

pub open spec fn length_of<T>(z: Option<&[T]>) -> Option<nat> {
    match z {
        Some(z) => Some(z@.len()),
        None => None,
    }
}

/// What is wrong with a request of a shape, in the order it is looked at.
pub open spec fn inputs_trouble<T>(
    sh: Shape,
    noise: Noise<T>,
    refs: Seq<Reference<T>>,
    kfs: Seq<Keyframe<T>>,
) -> Option<Seq<char>> {
    let video = noise_trouble("video"@, video_floats(sh), length_of(noise.video));
    let audio = noise_trouble("audio"@, audio_floats(sh), length_of(noise.audio));
    if video is Some {
        video
    } else if audio is Some {
        audio
    } else if references_trouble(refs) is Some {
        references_trouble(refs)
    } else {
        keyframes_trouble(kfs, sh.lat_h, sh.lat_w)
    }
}

fn check_noise(what: &str, need: usize, noise: Option<usize>) -> (result: Result<()>)
    ensures
        match noise_trouble(
            what@,
            need as int,
            match noise {
                Some(n) => Some(n as nat),
                None => None,
            },
        ) {
            Some(words) => result matches Err(e) && error::blames(e, words),
            None => result is Ok,
        },
{
    if let Some(given) = noise {
        if given < need {
            let head = text::cat2(what, " noise needs ");
            return error::invalid(
                text::phrase2(head.as_str(), need, " floats, ", given, " given"),
            );
        }
    }
    Ok(())
}

fn check_references<'a, T: Copy>(refs: &[Reference<'a, T>]) -> (result: Result<()>)
    ensures
        match references_trouble(refs@) {
            Some(words) => result matches Err(e) && error::blames(e, words),
            None => result is Ok,
        },
{
    let mut i: usize = 0;
    while i < refs.len()
        invariant
            i <= refs@.len(),
            references_trouble(refs@.take(i as int)) is None,
        decreases refs@.len() - i,
    {
        let ghost next = refs@.take(i + 1);
        assert(next.drop_last() =~= refs@.take(i as int));
        match refs[i].check(i) {
            Ok(()) => {},
            Err(e) => {
                proof {
                    lemma_references_stay(refs@, i + 1);
                }
                return Err(e);
            },
        }
        i += 1;
    }
    assert(refs@.take(i as int) =~= refs@);
    Ok(())
}

proof fn lemma_references_stay<T>(refs: Seq<Reference<T>>, n: int)
    requires
        0 <= n <= refs.len(),
        references_trouble(refs.take(n)) is Some,
    ensures
        references_trouble(refs) == references_trouble(refs.take(n)),
    decreases refs.len() - n,
{
    if n < refs.len() {
        assert(refs.take(n + 1).drop_last() =~= refs.take(n));
        lemma_references_stay(refs, n + 1);
    } else {
        assert(refs.take(n) =~= refs);
    }
}

fn check_keyframes<'a, T: Copy>(kfs: &[Keyframe<'a, T>], lat_h: i32, lat_w: i32) -> (result: Result<()>)
    requires
        LATENT_CH * dit::at_least_zero(lat_h) <= usize::MAX,
        LATENT_CH * dit::at_least_zero(lat_h) * dit::at_least_zero(lat_w) <= usize::MAX,
    ensures
        match keyframes_trouble(kfs@, lat_h, lat_w) {
            Some(words) => result matches Err(e) && error::blames(e, words),
            None => result is Ok,
        },
{
    let mut i: usize = 0;
    while i < kfs.len()
        invariant
            i <= kfs@.len(),
            LATENT_CH * dit::at_least_zero(lat_h) <= usize::MAX,
            LATENT_CH * dit::at_least_zero(lat_h) * dit::at_least_zero(lat_w) <= usize::MAX,
            keyframes_trouble(kfs@.take(i as int), lat_h, lat_w) is None,
        decreases kfs@.len() - i,
    {
        let ghost next = kfs@.take(i + 1);
        assert(next.drop_last() =~= kfs@.take(i as int));
        match kfs[i].check(i, lat_h, lat_w) {
            Ok(()) => {},
            Err(e) => {
                proof {
                    lemma_keyframes_stay(kfs@, lat_h, lat_w, i + 1);
                }
                return Err(e);
            },
        }
        i += 1;
    }
    assert(kfs@.take(i as int) =~= kfs@);
    Ok(())
}

proof fn lemma_keyframes_stay<T>(kfs: Seq<Keyframe<T>>, lat_h: i32, lat_w: i32, n: int)
    requires
        0 <= n <= kfs.len(),
        keyframes_trouble(kfs.take(n), lat_h, lat_w) is Some,
    ensures
        keyframes_trouble(kfs, lat_h, lat_w) == keyframes_trouble(kfs.take(n), lat_h, lat_w),
    decreases kfs.len() - n,
{
    if n < kfs.len() {
        assert(kfs.take(n + 1).drop_last() =~= kfs.take(n));
        lemma_keyframes_stay(kfs, lat_h, lat_w, n + 1);
    } else {
        assert(kfs.take(n) =~= kfs);
    }
}

/// The frame count of a run the model serves: the next of the form `17n + 5`.
pub open spec fn frames_of(p: DenoiseParams) -> int {
    if p.frames <= 5 {
        5
    } else {
        (p.frames + 11) / 17 * 17 + 5
    }
}

/// The shape of a run the model serves.
pub open spec fn shape_of(p: DenoiseParams) -> Shape {
    Shape {
        frames: frames_of(p) as i32,
        latent_t: ((frames_of(p) - 5) / 17 * 5 + 2) as i32,
        lat_h: (p.height / 16) as i32,
        lat_w: (p.width / 16) as i32,
        audio_t: ((5 * frames_of(p) + 1) / 3) as i32,
        text_rows_max: 4096,
    }
}

/// Whether the model serves a run.
pub open spec fn is_served(p: DenoiseParams) -> bool {
    layout::canvas(p.height as int, p.width as int) && 1 <= p.frames <= layout::MAX_FRAMES
}

/// What is wrong with a request, in the order it is looked at.
pub open spec fn request_trouble<T>(
    ids: nat,
    p: DenoiseParams,
    noise: Noise<T>,
    refs: Seq<Reference<T>>,
    kfs: Seq<Keyframe<T>>,
) -> Option<Seq<char>> {
    if ids == 0 {
        Some("ids must hold at least one token"@)
    } else if !is_served(p) {
        Some(
            "no shape for "@ + text::signed(p.height as int) + "x"@ + text::signed(p.width as int)
                + " at "@ + text::signed(p.frames as int) + " frames"@,
        )
    } else if !(2 <= p.steps <= 1000) {
        Some(text::phrase_of("steps must be 2..1000, not "@, p.steps as nat, ""@))
    } else {
        inputs_trouble(shape_of(p), noise, refs, kfs)
    }
}

/// Whether the numbers of a run the model serves can be counted.
pub open spec fn run_countable(p: DenoiseParams) -> bool {
    is_served(p) ==> video_floats(shape_of(p)) <= usize::MAX && audio_floats(shape_of(p))
        <= usize::MAX
}

proof fn lemma_one_shape(p: DenoiseParams, sh: Shape)
    requires
        is_served(p),
        layout::served(sh, p.height as int, p.width as int, p.frames as int),
    ensures
        sh == shape_of(p),
{
    assert(sh.frames == frames_of(p));
}

impl Session {
    /// Every cheap property of a request, checked before anything expensive happens.
    ///
    /// Separate so a caller can ask whether a request is well formed without running it.
    pub fn validate<'a, T: Copy>(
        &self,
        ids: &[i32],
        p: &DenoiseParams,
        noise: Noise<'a, T>,
        refs: &[Reference<'a, T>],
        kfs: &[Keyframe<'a, T>],
    ) -> (result: Result<Shape>)
        requires
            run_countable(*p),
        ensures
            match request_trouble(ids@.len(), *p, noise, refs@, kfs@) {
                Some(words) => result matches Err(e) && error::blames(e, words),
                None => {
                    &&& result == Ok::<Shape, Error>(shape_of(*p))
                    &&& layout::served(
                        shape_of(*p),
                        p.height as int,
                        p.width as int,
                        p.frames as int,
                    )
                },
            },
    {
        if ids.len() == 0 {
            return error::invalid(String::from_str("ids must hold at least one token"));
        }
        let sh = match layout::shape_for(p.height, p.width, p.frames) {
            Some(sh) => sh,
            None => {
                let mut words = String::from_str("no shape for ");
                text::push_signed(&mut words, p.height as i64);
                words.append("x");
                text::push_signed(&mut words, p.width as i64);
                words.append(" at ");
                text::push_signed(&mut words, p.frames as i64);
                words.append(" frames");
                return error::invalid(words);
            },
        };
        if p.steps < 2 || p.steps > 1000 {
            return error::invalid(text::phrase("steps must be 2..1000, not ", p.steps, ""));
        }
        proof {
            lemma_one_shape(*p, sh);
            layout::law_served_shapes_patch(sh, p.height as int, p.width as int, p.frames as int);
            let (t, h, w) = (sh.latent_t as int, sh.lat_h as int, sh.lat_w as int);
            assert(24 * t <= 24 * t * h * w && 24 * t * h <= 24 * t * h * w && 24 * h <= 24 * t * h * w
                && 24 * h * w <= 24 * t * h * w) by (nonlinear_arith)
                requires
                    t >= 1,
                    h >= 1,
                    w >= 1,
            ;
        }
        let video: usize = LATENT_CH * (sh.latent_t as usize) * (sh.lat_h as usize) * (
        sh.lat_w as usize);
        let audio: usize = 2 * AUDIO_CH * sh.audio_t as usize;
        let video_noise: Option<usize> = match noise.video {
            Some(z) => Some(z.len()),
            None => None,
        };
        let audio_noise: Option<usize> = match noise.audio {
            Some(z) => Some(z.len()),
            None => None,
        };
        check_noise("video", video, video_noise)?;
        check_noise("audio", audio, audio_noise)?;
        check_references(refs)?;
        check_keyframes(kfs, sh.lat_h, sh.lat_w)?;
        Ok(sh)
    }

    /// What a run needs before it starts: a request that is well formed, and after that the next checkpoint to
    /// open, if one is not. The attention's width is the session's.
    pub fn denoise<'a, T: Copy>(
        &self,
        ids: &[i32],
        p: &DenoiseParams,
        noise: Noise<'a, T>,
        refs: &[Reference<'a, T>],
        kfs: &[Keyframe<'a, T>],
    ) -> (result: Result<(Shape, usize, Option<(Part, &str)>)>)
        requires
            run_countable(*p),
        ensures
            match request_trouble(ids@.len(), *p, noise, refs@, kfs@) {
                Some(words) => result matches Err(e) && error::blames(e, words),
                None => if self.blocked(Part::Dit) {
                    result matches Err(e) && error::blames(e, unconfigured(Part::Dit))
                } else if self.is_open(Part::Dit) && self.blocked(Part::Te) {
                    result matches Err(e) && error::blames(e, unconfigured(Part::Te))
                } else {
                    &&& result matches Ok((sh, bits, next))
                    &&& sh == shape_of(*p)
                    &&& bits == self.config.attention.width()
                    &&& match next {
                        None => self.is_open(Part::Dit) && self.is_open(Part::Te),
                        Some((part, path)) => {
                            &&& !self.is_open(part)
                            &&& path@ == self.path(part)->0@
                            &&& part == if self.is_open(Part::Dit) {
                                Part::Te
                            } else {
                                Part::Dit
                            }
                        },
                    }
                },
            },
    {
        let sh = self.validate(ids, p, noise, refs, kfs)?;
        let next = self.prompt_pair()?;
        Ok((sh, self.config.attention.bits(), next))
    }
}

/// A request is blamed for the first reference that is not as it claims, by its number; and for none where none is.
pub proof fn law_the_first_bad_reference_is_told<T>(refs: Seq<Reference<T>>, i: int)
    requires
        0 <= i <= refs.len(),
        forall|k: int| 0 <= k < i ==> (#[trigger] refs[k]).trouble() is None,
    ensures
        i < refs.len() && refs[i].trouble() is Some ==> references_trouble(refs) == Some(
            "reference "@ + text::decimal(i as nat) + (": "@ + refs[i].trouble()->0),
        ),
        i == refs.len() ==> references_trouble(refs) is None,
    decreases refs.len(),
{
    if refs.len() > 0 {
        let short = refs.drop_last();
        if i == refs.len() {
            law_the_first_bad_reference_is_told(short, i - 1);
        } else {
            law_the_first_bad_reference_is_told(short, i);
        }
    }
}

/// A request is blamed for the first keyframe that does not sit on the grid, by its number; and for none where none does.
pub proof fn law_the_first_bad_keyframe_is_told<T>(kfs: Seq<Keyframe<T>>, lat_h: i32, lat_w: i32, i: int)
    requires
        0 <= i <= kfs.len(),
        forall|k: int| 0 <= k < i ==> (#[trigger] kfs[k]).trouble(lat_h, lat_w) is None,
    ensures
        i < kfs.len() && kfs[i].trouble(lat_h, lat_w) is Some ==> keyframes_trouble(kfs, lat_h, lat_w) == Some(
            "keyframe "@ + text::decimal(i as nat) + (": "@ + kfs[i].trouble(lat_h, lat_w)->0),
        ),
        i == kfs.len() ==> keyframes_trouble(kfs, lat_h, lat_w) is None,
    decreases kfs.len(),
{
    if kfs.len() > 0 {
        let short = kfs.drop_last();
        if i == kfs.len() {
            law_the_first_bad_keyframe_is_told(short, lat_h, lat_w, i - 1);
        } else {
            law_the_first_bad_keyframe_is_told(short, lat_h, lat_w, i);
        }
    }
}

/// A request is served exactly where nothing is wrong with it: it has an id, a canvas of whole blocks of 32, frames and
/// steps in range; noise, where any is given, that covers the latents; and references and keyframes that are as they
/// claim.
pub proof fn law_a_request_is_served_where_nothing_is_wrong<T>(
    ids: nat,
    p: DenoiseParams,
    noise: Noise<T>,
    refs: Seq<Reference<T>>,
    kfs: Seq<Keyframe<T>>,
)
    ensures
        request_trouble(ids, p, noise, refs, kfs) is None <==> {
            let sh = shape_of(p);
            &&& ids >= 1
            &&& 32 <= p.height <= 8192 && p.height % 32 == 0
            &&& 32 <= p.width <= 8192 && p.width % 32 == 0
            &&& 1 <= p.frames <= 1048576
            &&& 2 <= p.steps <= 1000
            &&& noise.video matches Some(z) ==> z@.len() >= 24 * sh.latent_t * sh.lat_h * sh.lat_w
            &&& noise.audio matches Some(z) ==> z@.len() >= 64 * sh.audio_t
            &&& forall|i: int| 0 <= i < refs.len() ==> (#[trigger] refs[i]).trouble() is None
            &&& forall|i: int| 0 <= i < kfs.len() ==> (#[trigger] kfs[i]).trouble(sh.lat_h, sh.lat_w) is None
        },
{
    let sh = shape_of(p);
    lemma_references_all(refs);
    lemma_keyframes_all(kfs, sh.lat_h, sh.lat_w);
}

proof fn lemma_references_all<T>(refs: Seq<Reference<T>>)
    ensures
        references_trouble(refs) is None <==> forall|i: int|
            0 <= i < refs.len() ==> (#[trigger] refs[i]).trouble() is None,
    decreases refs.len(),
{
    if refs.len() > 0 {
        let short = refs.drop_last();
        lemma_references_all(short);
        assert forall|i: int| 0 <= i < short.len() implies #[trigger] short[i] == refs[i] by {}
        if references_trouble(refs) is None {
            assert forall|i: int| 0 <= i < refs.len() implies (#[trigger] refs[i]).trouble() is None by {
                if i < short.len() {
                    assert(short[i].trouble() is None);
                }
            }
        }
    }
}

proof fn lemma_keyframes_all<T>(kfs: Seq<Keyframe<T>>, lat_h: i32, lat_w: i32)
    ensures
        keyframes_trouble(kfs, lat_h, lat_w) is None <==> forall|i: int|
            0 <= i < kfs.len() ==> (#[trigger] kfs[i]).trouble(lat_h, lat_w) is None,
    decreases kfs.len(),
{
    if kfs.len() > 0 {
        let short = kfs.drop_last();
        lemma_keyframes_all(short, lat_h, lat_w);
        assert forall|i: int| 0 <= i < short.len() implies #[trigger] short[i] == kfs[i] by {}
        if keyframes_trouble(kfs, lat_h, lat_w) is None {
            assert forall|i: int| 0 <= i < kfs.len() implies (#[trigger] kfs[i]).trouble(lat_h, lat_w) is None by {
                if i < short.len() {
                    assert(short[i].trouble(lat_h, lat_w) is None);
                }
            }
        }
    }
}

} // verus!
