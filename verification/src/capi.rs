//! The rules of the C ABI: what every entry point makes of its counts, its dimensions and its failures.
//!
//! A pointer and a count become a slice exactly once, after checking the count against what the shape says it
//! must be: a short buffer is refused, not written past. What is here takes the counts, and whether a pointer
//! was given at all; the pointers themselves stay with the program around this crate.
use vstd::prelude::*;
use vstd::string::StringExecFns;

use crate::dit::{
    Attention, DenoiseParams, Keyframe, LatentGrid, Presented, Reference, Sampler,
};
use crate::error;
use crate::error::{Error, Result};
use crate::layout;
use crate::layout::Shape;
use crate::model::{AUDIO_CH, HID, LATENT_CH};
use crate::text;
use crate::tokenizer::Tokenizer;

verus! {

pub const ABI_VERSION: u32 = 8;

/// What an entry point returns. The distinction is the caller's: `H3_INVALID_ARGUMENT` means the request was
/// not one this library serves, `H3_CANCELLED` that a progress callback stopped the run, and `H3_ERROR` that
/// something failed on the way.
#[allow(non_camel_case_types)]
#[derive(Clone, Copy, Debug, PartialEq, Eq, Structural)]
pub enum h3_status {
    H3_OK,
    H3_ERROR,
    H3_CANCELLED,
    H3_INVALID_ARGUMENT,
}

impl h3_status {
    /// The number the header declares.
    pub open spec fn number(self) -> i32 {
        match self {
            h3_status::H3_OK => 0,
            h3_status::H3_ERROR => 1,
            h3_status::H3_CANCELLED => 2,
            h3_status::H3_INVALID_ARGUMENT => 64,
        }
    }

    pub fn code(self) -> (code: i32)
        ensures
            code == self.number(),
    {
        match self {
            h3_status::H3_OK => 0,
            h3_status::H3_ERROR => 1,
            h3_status::H3_CANCELLED => 2,
            h3_status::H3_INVALID_ARGUMENT => 64,
        }
    }

    /// What becomes of a call that came out like this.
    pub open spec fn after(result: Result<()>) -> h3_status {
        match result {
            Ok(()) => h3_status::H3_OK,
            Err(Error::Cancelled) => h3_status::H3_CANCELLED,
            Err(Error::Invalid(_)) => h3_status::H3_INVALID_ARGUMENT,
            Err(_) => h3_status::H3_ERROR,
        }
    }

    /// The status of a call, and the message it leaves where it failed.
    pub fn of(result: &Result<()>) -> (out: (Self, Option<String>))
        ensures
            out.0 == Self::after(*result),
            match *result {
                Ok(()) => out.1 is None,
                Err(e) => out.1 matches Some(m) && m@ == clean(e.text()),
            },
    {
        match result {
            Ok(()) => (h3_status::H3_OK, None),
            Err(e) => {
                let words = e.message();
                let status = match e {
                    Error::Cancelled => h3_status::H3_CANCELLED,
                    Error::Invalid(_) => h3_status::H3_INVALID_ARGUMENT,
                    _ => h3_status::H3_ERROR,
                };
                (status, Some(cleaned(words.as_str())))
            },
        }
    }
}

/// The status of a failure is the code its error becomes.
pub proof fn law_a_failure_keeps_its_code(e: Error)
    ensures
        h3_status::after(Err(e)).number() == match e {
            Error::Cancelled => 2i32,
            Error::Invalid(_) => 64,
            _ => 1,
        },
        h3_status::after(Err(e)) != h3_status::H3_OK,
{
}

/// A message as C can read it: an interior NUL cannot reach C, and must not truncate the message there either.
pub open spec fn clean(message: Seq<char>) -> Seq<char> {
    Seq::new(
        message.len(),
        |i: int|
            if message[i] == '\0' {
                '?'
            } else {
                message[i]
            },
    )
}

/// Replaces every NUL of a message.
pub fn cleaned(message: &str) -> (out: String)
    ensures
        out@ == clean(message@),
{
    let mut out = String::from_str("");
    let n: usize = message.unicode_len();
    let mut i: usize = 0;
    proof {
        reveal_strlit("");
    }
    assert(out@ =~= clean(message@).take(0));
    while i < n
        invariant
            n == message@.len(),
            i <= n,
            out@ == clean(message@).take(i as int),
        decreases n - i,
    {
        let c: char = message.get_char(i);
        if c == '\0' {
            proof {
                reveal_strlit("?");
            }
            out.append("?");
        } else {
            out.append(message.substring_char(i, i + 1));
        }
        i += 1;
        assert(out@ =~= clean(message@).take(i as int));
    }
    assert(out@ =~= clean(message@));
    out
}

// Buffers.

/// Whether a caller's input of `n` elements can be borrowed. A null pointer with a positive count breaks what a
/// slice needs before anything inside can check it, so that is an error, and only a count of zero yields an
/// empty slice.
pub fn borrows(null: bool, n: usize, what: &str) -> (result: Result<bool>)
    ensures
        if n == 0 {
            result == Ok::<bool, Error>(false)
        } else if null {
            result matches Err(e) && error::blames(
                e,
                text::phrase_of(what@ + " is NULL with a count of "@, n as nat, ""@),
            )
        } else {
            result == Ok::<bool, Error>(true)
        },
{
    if n == 0 {
        return Ok(false);
    }
    if null {
        let head = text::cat2(what, " is NULL with a count of ");
        return error::invalid(text::phrase(head.as_str(), n, ""));
    }
    Ok(true)
}

/// Whether a caller's output of `n` elements can be borrowed, on the same terms.
pub fn borrows_out(null: bool, n: usize, what: &str) -> (result: Result<bool>)
    ensures
        if n == 0 {
            result == Ok::<bool, Error>(false)
        } else if null {
            result matches Err(e) && error::blames(e, what@ + " is NULL"@)
        } else {
            result == Ok::<bool, Error>(true)
        },
{
    if n == 0 {
        return Ok(false);
    }
    if null {
        return error::invalid(text::cat2(what, " is NULL"));
    }
    Ok(true)
}

/// The product of dimensions.
pub open spec fn product(dims: Seq<i32>) -> int
    decreases dims.len(),
{
    if dims.len() == 0 {
        1
    } else {
        product(dims.drop_last()) * dims.last()
    }
}

/// What is wrong with dimensions, looked at one after the other: one is negative, or the product so far is
/// past a `usize`.
pub open spec fn extent_trouble(what: Seq<char>, dims: Seq<i32>) -> Option<Seq<char>>
    decreases dims.len(),
{
    if dims.len() == 0 {
        None
    } else if extent_trouble(what, dims.drop_last()) is Some {
        extent_trouble(what, dims.drop_last())
    } else if dims.last() < 0 {
        Some(what + ": negative dimension "@ + text::signed(dims.last() as int))
    } else if product(dims) > usize::MAX {
        Some(what + ": dimensions overflow a usize"@)
    } else {
        None
    }
}

proof fn lemma_extent_stays(what: Seq<char>, dims: Seq<i32>, n: int)
    requires
        0 <= n <= dims.len(),
        extent_trouble(what, dims.take(n)) is Some,
    ensures
        extent_trouble(what, dims) == extent_trouble(what, dims.take(n)),
    decreases dims.len() - n,
{
    if n < dims.len() {
        assert(dims.take(n + 1).drop_last() =~= dims.take(n));
        lemma_extent_stays(what, dims, n + 1);
    } else {
        assert(dims.take(n) =~= dims);
    }
}

/// A product of dimensions, in `usize` and checked.
///
/// The dimensions arrive as C integers and the products are large: a wrapped product would make a capacity
/// check pass for any buffer at all. Every size the ABI computes goes through here, and an overflow is a
/// refusal rather than a wrap.
pub fn extent(what: &str, dims: &[i32]) -> (result: Result<usize>)
    ensures
        match extent_trouble(what@, dims@) {
            Some(words) => result matches Err(e) && error::blames(e, words),
            None => result matches Ok(n) && n == product(dims@),
        },
{
    let mut n: usize = 1;
    let mut i: usize = 0;
    while i < dims.len()
        invariant
            i <= dims@.len(),
            n == product(dims@.take(i as int)),
            extent_trouble(what@, dims@.take(i as int)) is None,
        decreases dims@.len() - i,
    {
        let d: i32 = dims[i];
        let ghost next = dims@.take(i + 1);
        assert(next.drop_last() =~= dims@.take(i as int));
        if d < 0 {
            proof {
                lemma_extent_stays(what@, dims@, i + 1);
            }
            let mut words = text::cat2(what, ": negative dimension ");
            text::push_signed(&mut words, d as i64);
            return error::invalid(words);
        }
        n = match n.checked_mul(d as usize) {
            Some(n) => n,
            None => {
                proof {
                    lemma_extent_stays(what@, dims@, i + 1);
                }
                return error::invalid(text::cat2(what, ": dimensions overflow a usize"));
            },
        };
        i += 1;
    }
    assert(dims@.take(i as int) =~= dims@);
    Ok(n)
}

/// Dimensions that are refused are negative somewhere or multiply past a `usize`; a size that is given is the
/// product itself, never a wrapped one.
pub proof fn law_a_size_is_never_wrapped(what: Seq<char>, dims: Seq<i32>)
    ensures
        extent_trouble(what, dims) is None ==> 0 <= product(dims) <= usize::MAX,
        extent_trouble(what, dims) is None ==> forall|i: int|
            0 <= i < dims.len() ==> #[trigger] dims[i] >= 0,
    decreases dims.len(),
{
    if dims.len() > 0 && extent_trouble(what, dims) is None {
        law_a_size_is_never_wrapped(what, dims.drop_last());
        assert forall|i: int| 0 <= i < dims.len() implies #[trigger] dims[i] >= 0 by {
            if i < dims.len() - 1 {
                assert(dims.drop_last()[i] == dims[i]);
            }
        }
        let (a, b) = (product(dims.drop_last()), dims.last() as int);
        assert(0 <= a * b) by (nonlinear_arith)
            requires
                0 <= a,
                0 <= b,
        ;
    }
}

pub open spec fn short_text(what: Seq<char>, given: int, need: int) -> Seq<char> {
    text::phrase2_of(what + ": "@, given as nat, " elements given, "@, need as nat, " needed"@)
}

/// A count that must be at least what the shape needs.
pub fn enough(what: &str, given: usize, need: usize) -> (result: Result<()>)
    ensures
        if given < need {
            result matches Err(e) && error::blames(e, short_text(what@, given as int, need as int))
        } else {
            result is Ok
        },
{
    if given < need {
        let head = text::cat2(what, ": ");
        return error::invalid(
            text::phrase2(head.as_str(), given, " elements given, ", need, " needed"),
        );
    }
    Ok(())
}

/// A count that a C caller may have given as a negative number.
pub open spec fn at_least_zero(n: i32) -> usize {
    if n < 0 {
        0
    } else {
        n as usize
    }
}

pub fn count_of(n: i32) -> (count: usize)
    ensures
        count == at_least_zero(n),
{
    if n < 0 {
        0
    } else {
        n as usize
    }
}

// Requests.

/// What a run asks for, without the shifts of its schedule and the threshold of its step cache.
#[derive(Clone, Copy, Debug)]
pub struct Params {
    pub height: i32,
    pub width: i32,
    pub frames: i32,
    pub steps: i32,
    pub seed: u64,
    /// 0 is Euler per stream schedule; anything else the multistep on the video sigma grid
    pub sampler: i32,
}

/// A run's parameters, as the library takes them.
pub fn params_of(p: &Params) -> (out: DenoiseParams)
    ensures
        out.height == p.height && out.width == p.width && out.frames == p.frames,
        out.steps == at_least_zero(p.steps),
        out.seed == p.seed,
        out.sampler == if p.sampler == 0 {
            Sampler::Euler
        } else {
            Sampler::ResMultistep
        },
{
    DenoiseParams {
        height: p.height,
        width: p.width,
        frames: p.frames,
        steps: count_of(p.steps),
        seed: p.seed,
        sampler: if p.sampler == 0 {
            Sampler::Euler
        } else {
            Sampler::ResMultistep
        },
    }
}

/// The attention a configuration asks for: 0 means the default, and anything that is not a width with kernels
/// is refused.
pub fn attention_of(bits: i32) -> (result: Result<Attention>)
    ensures
        match bits {
            0i32 | 8i32 => result == Ok::<Attention, Error>(Attention::I8),
            16i32 => result == Ok::<Attention, Error>(Attention::F16),
            4i32 => result == Ok::<Attention, Error>(Attention::I4),
            _ => result matches Err(e) && error::blames(
                e,
                "attn_qk_bits "@ + text::signed(bits as int) + " is not 16, 8 or 4"@,
            ),
        },
{
    if bits == 0 {
        return Ok(Attention::default());
    }
    match Attention::from_bits(count_of(bits)) {
        Some(attention) => Ok(attention),
        None => {
            let mut words = String::from_str("attn_qk_bits ");
            text::push_signed(&mut words, bits as i64);
            words.append(" is not 16, 8 or 4");
            error::invalid(words)
        },
    }
}

/// Whether a session can be made: its configuration and somewhere to put it were given, and so were the
/// paths its compiler needs.
pub fn creates(given: bool, sources: bool, cache: bool, loom: bool) -> (result: Result<()>)
    ensures
        if !given {
            result matches Err(e) && error::blames(e, "config and out_session are required"@)
        } else if !(sources && cache && loom) {
            result matches Err(e) && error::blames(
                e,
                "kernel_sources, cache_dir and loom_compile are required"@,
            )
        } else {
            result is Ok
        },
{
    if !given {
        return error::invalid(String::from_str("config and out_session are required"));
    }
    if !(sources && cache && loom) {
        return error::invalid(
            String::from_str("kernel_sources, cache_dir and loom_compile are required"),
        );
    }
    Ok(())
}

/// Whether a session can be used. One whose lock is poisoned was left by an earlier call that panicked inside:
/// it is not trustworthy after that.
pub fn locks(null: bool, poisoned: bool) -> (result: Result<()>)
    ensures
        if null {
            result matches Err(e) && error::blames(e, "session is NULL"@)
        } else if poisoned {
            result matches Err(Error::Other(m)) && m@
                == "the session was left inconsistent by an earlier failure"@
        } else {
            result is Ok
        },
{
    if null {
        return error::invalid(String::from_str("session is NULL"));
    }
    if poisoned {
        return error::other(
            String::from_str("the session was left inconsistent by an earlier failure"),
        );
    }
    Ok(())
}

/// The dimensions of the text rows of so many tokens.
pub open spec fn text_dims(n_ids: i32) -> Seq<i32> {
    seq![n_ids, HID as i32]
}

/// How many tokens a prompt has and how many numbers its text rows take, where its output holds them.
pub fn text_in_len(n_ids: i32, out_elements: usize) -> (result: Result<(usize, usize)>)
    ensures
        if n_ids <= 0 {
            result matches Err(e) && error::blames(e, "ids must hold at least one token"@)
        } else {
            match first_of(
                extent_trouble("text_in out"@, text_dims(n_ids)),
                short_trouble("text_in out"@, out_elements as int, product(text_dims(n_ids))),
            ) {
                Some(words) => result matches Err(e) && error::blames(e, words),
                None => result matches Ok((n, rows)) && n == n_ids && rows == n_ids * HID,
            }
        },
{
    let n: usize = count_of(n_ids);
    if n == 0 {
        return error::invalid(String::from_str("ids must hold at least one token"));
    }
    let dims: [i32; 2] = [n_ids, 5376];
    assert(dims@ =~= text_dims(n_ids));
    let rows: usize = extent("text_in out", &dims)?;
    enough("text_in out", out_elements, rows)?;
    proof {
        lemma_product2(n_ids, HID as i32);
    }
    Ok((n, rows))
}

proof fn lemma_product2(a: i32, b: i32)
    ensures
        product(seq![a, b]) == a * b,
{
    let dims = seq![a, b];
    assert(dims.drop_last() =~= seq![a]);
    assert(seq![a].drop_last() =~= Seq::<i32>::empty());
    assert(product(seq![a]) == product(Seq::<i32>::empty()) * a);
    assert(product(Seq::<i32>::empty()) == 1);
}

proof fn lemma_product3(a: i32, b: i32, c: i32)
    ensures
        product(seq![a, b, c]) == a * b * c,
{
    assert(seq![a, b, c].drop_last() =~= seq![a, b]);
    lemma_product2(a, b);
}

/// The dimensions of a shape's picture.
pub open spec fn video_dims(sh: Shape) -> Seq<i32> {
    seq![sh.latent_t, sh.lat_h, sh.lat_w, LATENT_CH as i32]
}

/// The dimensions of a sound of so many latents.
pub open spec fn audio_dims(audio_t: i32) -> Seq<i32> {
    seq![audio_t, 2, AUDIO_CH as i32]
}

/// The lengths of a run's outputs.
#[derive(Clone, Copy, Debug)]
pub struct RunLengths {
    pub shape: Shape,
    pub video: usize,
    pub audio: usize,
}

/// The words of the first trouble there is.
pub open spec fn first_of(a: Option<Seq<char>>, b: Option<Seq<char>>) -> Option<Seq<char>> {
    if a is Some {
        a
    } else {
        b
    }
}

pub open spec fn short_trouble(what: Seq<char>, given: int, need: int) -> Option<Seq<char>> {
    if given < need {
        Some(short_text(what, given, need))
    } else {
        None
    }
}

/// What is wrong with the outputs of a run of a shape.
pub open spec fn run_trouble(sh: Shape, video: int, audio: int) -> Option<Seq<char>> {
    let extents = first_of(
        extent_trouble("video latents"@, video_dims(sh)),
        extent_trouble("audio latents"@, audio_dims(sh.audio_t)),
    );
    first_of(
        extents,
        first_of(
            short_trouble("video latents"@, video, product(video_dims(sh))),
            short_trouble("audio latents"@, audio, product(audio_dims(sh.audio_t))),
        ),
    )
}

/// The lengths of a run's outputs, where the request is one and the outputs hold them.
pub fn run_lengths(
    p: Option<&Params>,
    n_ids: i32,
    video_elements: usize,
    audio_elements: usize,
) -> (result: Result<RunLengths>)
    ensures
        match p {
            None => result matches Err(e) && error::blames(e, "params is NULL"@),
            Some(p) => if at_least_zero(n_ids) == 0 {
                result matches Err(e) && error::blames(e, "ids must hold at least one token"@)
            } else if !(layout::canvas(p.height as int, p.width as int) && 1 <= p.frames
                <= layout::MAX_FRAMES) {
                result matches Err(e) && error::blames(
                    e,
                    "no such shape: height and width must be multiples of 32 and the frame count in range"@,
                )
            } else {
                exists|sh: Shape| #[trigger]
                    layout::served(sh, p.height as int, p.width as int, p.frames as int)
                        && match run_trouble(sh, video_elements as int, audio_elements as int) {
                        Some(words) => result matches Err(e) && error::blames(e, words),
                        None => result matches Ok(l) && l.shape == sh && l.video == product(
                            video_dims(sh),
                        ) && l.audio == product(audio_dims(sh.audio_t)),
                    }
            },
        },
{
    let p = match p {
        Some(p) => p,
        None => {
            return error::invalid(String::from_str("params is NULL"));
        },
    };
    if count_of(n_ids) == 0 {
        return error::invalid(String::from_str("ids must hold at least one token"));
    }
    let sh = match layout::shape_for(p.height, p.width, p.frames) {
        Some(sh) => sh,
        None => {
            return error::invalid(
                String::from_str(
                    "no such shape: height and width must be multiples of 32 and the frame count in range",
                ),
            );
        },
    };
    let dims: [i32; 4] = [sh.latent_t, sh.lat_h, sh.lat_w, 24];
    assert(dims@ =~= video_dims(sh));
    let video: usize = extent("video latents", &dims)?;
    let sound: [i32; 3] = [sh.audio_t, 2, 32];
    assert(sound@ =~= audio_dims(sh.audio_t));
    let audio: usize = extent("audio latents", &sound)?;
    enough("video latents", video_elements, video)?;
    enough("audio latents", audio_elements, audio)?;
    Ok(RunLengths { shape: sh, video, audio })
}

/// The lengths of a clip's latents and of its frames.
#[derive(Clone, Copy, Debug)]
pub struct ClipLengths {
    pub shape: Shape,
    pub latents: usize,
    pub pixels: usize,
}

/// What is wrong with the buffers of a clip's decode.
pub open spec fn clip_trouble(
    sh: Shape,
    height: i32,
    width: i32,
    latents: int,
    frames: int,
) -> Option<Seq<char>> {
    let pixels = seq![sh.frames, height, width, 3i32];
    let extents = first_of(
        extent_trouble("video latents"@, video_dims(sh)),
        extent_trouble("frames"@, pixels),
    );
    first_of(
        extents,
        first_of(
            short_trouble("video latents"@, latents, product(video_dims(sh))),
            short_trouble("frames"@, frames, product(pixels)),
        ),
    )
}

/// The lengths of a clip's latents and of its frames, where its buffers hold them.
pub fn clip_lengths(p: Option<&Params>, video_elements: usize, frame_bytes: usize) -> (result: Result<
    ClipLengths,
>)
    ensures
        match p {
            None => result matches Err(e) && error::blames(e, "params is NULL"@),
            Some(p) => if !(layout::canvas(p.height as int, p.width as int) && 1 <= p.frames
                <= layout::MAX_FRAMES) {
                result matches Err(e) && error::blames(e, "no such shape"@)
            } else {
                exists|sh: Shape| #[trigger]
                    layout::served(sh, p.height as int, p.width as int, p.frames as int)
                        && match clip_trouble(
                        sh,
                        p.height,
                        p.width,
                        video_elements as int,
                        frame_bytes as int,
                    ) {
                        Some(words) => result matches Err(e) && error::blames(e, words),
                        None => result matches Ok(l) && l.shape == sh && l.latents == product(
                            video_dims(sh),
                        ) && l.pixels == product(seq![sh.frames, p.height, p.width, 3i32]),
                    }
            },
        },
{
    let p = match p {
        Some(p) => p,
        None => {
            return error::invalid(String::from_str("params is NULL"));
        },
    };
    let sh = match layout::shape_for(p.height, p.width, p.frames) {
        Some(sh) => sh,
        None => {
            return error::invalid(String::from_str("no such shape"));
        },
    };
    let dims: [i32; 4] = [sh.latent_t, sh.lat_h, sh.lat_w, 24];
    assert(dims@ =~= video_dims(sh));
    let latents: usize = extent("video latents", &dims)?;
    let frames: [i32; 4] = [sh.frames, p.height, p.width, 3];
    assert(frames@ =~= seq![sh.frames, p.height, p.width, 3i32]);
    let pixels: usize = extent("frames", &frames)?;
    enough("video latents", video_elements, latents)?;
    enough("frames", frame_bytes, pixels)?;
    Ok(ClipLengths { shape: sh, latents, pixels })
}

/// The dimensions of the pixels of a clip.
pub open spec fn pixel_dims(frames: i32, height: i32, width: i32) -> Seq<i32> {
    seq![frames, height, width, 3i32]
}

/// The extents of a clip to encode, and how many numbers its pixels are.
#[derive(Clone, Copy, Debug, PartialEq, Eq, Structural)]
pub struct ClipExtents {
    pub frames: usize,
    pub height: usize,
    pub width: usize,
    pub pixels: usize,
}

/// The extents of a clip to encode.
pub fn clip_extents(frames: i32, height: i32, width: i32) -> (result: Result<ClipExtents>)
    ensures
        if frames <= 0 || height <= 0 || width <= 0 {
            result matches Err(e) && error::blames(e, "frames, height and width are required"@)
        } else {
            match extent_trouble("pixels"@, pixel_dims(frames, height, width)) {
                Some(words) => result matches Err(e) && error::blames(e, words),
                None => result matches Ok(c) && c.frames == frames && c.height == height && c.width
                    == width && c.pixels == product(pixel_dims(frames, height, width)),
            }
        },
{
    let (f, h, w): (usize, usize, usize) = (count_of(frames), count_of(height), count_of(width));
    if f == 0 || h == 0 || w == 0 {
        return error::invalid(String::from_str("frames, height and width are required"));
    }
    let dims: [i32; 4] = [frames, height, width, 3];
    assert(dims@ =~= pixel_dims(frames, height, width));
    let pixels: usize = extent("pixels", &dims)?;
    Ok(ClipExtents { frames: f, height: h, width: w, pixels })
}

/// The dimensions of a sound's samples: two channels, each with `hop` samples to a latent.
pub open spec fn sample_dims(audio_t: i32, hop: i32) -> Seq<i32> {
    seq![audio_t, 2, hop]
}

/// What is wrong with the buffers of a sound's decode.
pub open spec fn sound_trouble(audio_t: i32, hop: i32, latents: int, samples: int) -> Option<
    Seq<char>,
> {
    let extents = first_of(
        extent_trouble("audio latents"@, audio_dims(audio_t)),
        extent_trouble("samples"@, sample_dims(audio_t, hop)),
    );
    first_of(
        extents,
        first_of(
            short_trouble("audio latents"@, latents, product(audio_dims(audio_t))),
            short_trouble("samples"@, samples, product(sample_dims(audio_t, hop))),
        ),
    )
}

/// The latents and the samples of a sound to decode, which has `hop` samples to a latent, where its buffers
/// hold them.
pub fn sound_lengths(audio_t: i32, hop: i32, audio_elements: usize, sample_elements: usize) -> (result:
    Result<(usize, usize)>)
    ensures
        if audio_t <= 0 {
            result matches Err(e) && error::blames(e, "audio_t must be at least one"@)
        } else {
            match sound_trouble(audio_t, hop, audio_elements as int, sample_elements as int) {
                Some(words) => result matches Err(e) && error::blames(e, words),
                None => result matches Ok((latents, samples)) && latents == audio_t * 2 * AUDIO_CH
                    && samples == audio_t * 2 * hop,
            }
        },
{
    if count_of(audio_t) == 0 {
        return error::invalid(String::from_str("audio_t must be at least one"));
    }
    let sound: [i32; 3] = [audio_t, 2, 32];
    assert(sound@ =~= audio_dims(audio_t));
    let latents: usize = extent("audio latents", &sound)?;
    let dims: [i32; 3] = [audio_t, 2, hop];
    assert(dims@ =~= sample_dims(audio_t, hop));
    let samples: usize = extent("samples", &dims)?;
    enough("audio latents", audio_elements, latents)?;
    enough("samples", sample_elements, samples)?;
    proof {
        lemma_product3(audio_t, 2, AUDIO_CH as i32);
        lemma_product3(audio_t, 2, hop);
    }
    Ok((latents, samples))
}

/// How many numbers a sound to encode holds: two channels of it.
pub fn sound_samples(n_samples: i32) -> (result: Result<usize>)
    ensures
        if n_samples <= 0 {
            result matches Err(e) && error::blames(e, "n_samples must be at least one"@)
        } else {
            match extent_trouble("samples"@, seq![n_samples, 2i32]) {
                Some(words) => result matches Err(e) && error::blames(e, words),
                None => result matches Ok(n) && n == 2 * n_samples,
            }
        },
{
    if count_of(n_samples) == 0 {
        return error::invalid(String::from_str("n_samples must be at least one"));
    }
    let dims: [i32; 2] = [n_samples, 2];
    assert(dims@ =~= seq![n_samples, 2i32]);
    let n: usize = extent("samples", &dims)?;
    proof {
        lemma_product2(n_samples, 2);
    }
    Ok(n)
}

/// The sides of an image to embed, a negative one being none, and how many numbers its pixels are.
pub fn image_extents(height: i32, width: i32) -> (result: Result<(usize, usize, usize)>)
    ensures
        ({
            let dims = seq![at_least_zero(height) as i32, at_least_zero(width) as i32, 3i32];
            match extent_trouble("pixels"@, dims) {
                Some(words) => result matches Err(e) && error::blames(e, words),
                None => result matches Ok((h, w, pixels)) && h == at_least_zero(height) && w
                    == at_least_zero(width) && pixels == h * w * 3,
            }
        }),
{
    let (h, w): (usize, usize) = (count_of(height), count_of(width));
    let dims: [i32; 3] = [h as i32, w as i32, 3];
    assert(dims@ =~= seq![at_least_zero(height) as i32, at_least_zero(width) as i32, 3i32]);
    let pixels: usize = extent("pixels", &dims)?;
    proof {
        lemma_product3(h as i32, w as i32, 3);
    }
    Ok((h, w, pixels))
}

/// A caller's output: whether it is null, and how many elements it holds.
#[derive(Clone, Copy, Debug)]
pub struct Out {
    pub null: bool,
    pub elements: usize,
}

/// Whether an image's embedding can be handed over. Both outputs are looked at before either is written, since a
/// call that fails writes nothing.
pub fn embeds(merged: Out, merged_len: usize, deepstack: Out, deepstack_len: usize) -> (result: Result<
    (),
>)
    ensures
        match first_of(
            first_of(
                short_trouble("merged"@, merged.elements as int, merged_len as int),
                short_trouble("deepstack"@, deepstack.elements as int, deepstack_len as int),
            ),
            if merged.null && merged_len > 0 {
                Some("merged is NULL"@)
            } else if deepstack.null && deepstack_len > 0 {
                Some("deepstack is NULL"@)
            } else {
                None
            },
        ) {
            Some(words) => result matches Err(e) && error::blames(e, words),
            None => result is Ok,
        },
{
    enough("merged", merged.elements, merged_len)?;
    enough("deepstack", deepstack.elements, deepstack_len)?;
    proof {
        reveal_strlit("merged is NULL");
        reveal_strlit("deepstack is NULL");
        reveal_strlit("merged");
        reveal_strlit("deepstack");
        reveal_strlit(" is NULL");
        assert("merged"@ + " is NULL"@ =~= "merged is NULL"@);
        assert("deepstack"@ + " is NULL"@ =~= "deepstack is NULL"@);
    }
    borrows_out(merged.null, merged_len, "merged")?;
    borrows_out(deepstack.null, deepstack_len, "deepstack")?;
    Ok(())
}

// References and keyframes.

/// A reference block's tag, its dimensions, and which of its buffers were given.
#[derive(Clone, Copy, Debug)]
pub struct RefFields {
    /// 0 is an image (one latent frame), 1 a sound, 2 a clip with an optional soundtrack
    pub kind: i32,
    pub latent_t: i32,
    pub lat_h: i32,
    pub lat_w: i32,
    pub audio_t: i32,
    pub height: i32,
    pub width: i32,
    pub has_video: bool,
    pub has_audio: bool,
    pub has_pixels: bool,
}

/// How long a block's buffers are, as its own fields say.
#[derive(Clone, Copy, Debug, PartialEq, Eq, Structural)]
pub struct Lengths {
    pub video: usize,
    pub audio: usize,
    pub pixels: usize,
}

/// A block's buffers, as long as its fields say.
#[derive(Clone, Copy, Debug)]
pub struct Buffers<'a, T> {
    pub video: &'a [T],
    pub audio: &'a [T],
    pub pixels: &'a [T],
}

impl RefFields {
    pub open spec fn video_dims(self) -> Seq<i32> {
        seq![self.latent_t, self.lat_h, self.lat_w, LATENT_CH as i32]
    }

    pub open spec fn pixel_dims(self) -> Seq<i32> {
        seq![self.height, self.width, 3i32]
    }

    pub open spec fn lengths(self) -> Lengths {
        Lengths {
            video: product(self.video_dims()) as usize,
            audio: product(audio_dims(self.audio_t)) as usize,
            pixels: product(self.pixel_dims()) as usize,
        }
    }

    /// What is wrong with a reference: its dimensions first, then a tag its buffers do not go with.
    pub open spec fn trouble(self) -> Option<Seq<char>> {
        let extents = first_of(
            extent_trouble("reference latents"@, self.video_dims()),
            first_of(
                extent_trouble("reference audio"@, audio_dims(self.audio_t)),
                extent_trouble("reference pixels"@, self.pixel_dims()),
            ),
        );
        let tag = if self.kind == 0 {
            if self.has_video {
                None
            } else {
                Some("an image reference without latents"@)
            }
        } else if self.kind == 1 {
            if self.has_audio {
                None
            } else {
                Some("an audio reference without latents"@)
            }
        } else if self.kind == 2 {
            if self.has_video {
                None
            } else {
                Some("a video reference without latents"@)
            }
        } else {
            Some(
                "reference kind "@ + text::signed(self.kind as int)
                    + " is not 0 (image), 1 (audio) or 2 (video)"@,
            )
        };
        first_of(extents, tag)
    }

    /// The reference these fields and buffers are.
    pub open spec fn reference<'a, T>(self, b: Buffers<'a, T>) -> Reference<'a, T> {
        let grid = LatentGrid {
            frames: at_least_zero(self.latent_t),
            height: at_least_zero(self.lat_h),
            width: at_least_zero(self.lat_w),
        };
        if self.kind == 0 {
            Reference::Image {
                latents: b.video,
                grid: LatentGrid { frames: 1, ..grid },
                presented: presented_of(self.has_pixels, b.pixels, self.height, self.width),
            }
        } else if self.kind == 1 {
            Reference::Audio { latents: b.audio, frames: at_least_zero(self.audio_t) }
        } else {
            Reference::Video {
                latents: b.video,
                grid,
                audio: sound_of(self.has_audio, b.audio, self.audio_t),
            }
        }
    }
}

pub open spec fn presented_of<'a, T>(given: bool, pixels: &'a [T], height: i32, width: i32) -> Option<
    Presented<'a, T>,
> {
    if given {
        Some(Presented { pixels, height: at_least_zero(height), width: at_least_zero(width) })
    } else {
        None
    }
}

pub open spec fn sound_of<'a, T>(given: bool, audio: &'a [T], audio_t: i32) -> Option<
    (&'a [T], usize),
> {
    if given {
        Some((audio, at_least_zero(audio_t)))
    } else {
        None
    }
}

fn present<'a, T>(given: bool, pixels: &'a [T], height: i32, width: i32) -> (out: Option<
    Presented<'a, T>,
>)
    ensures
        out == presented_of(given, pixels, height, width),
{
    if given {
        Some(Presented { pixels, height: count_of(height), width: count_of(width) })
    } else {
        None
    }
}

fn sound<'a, T>(given: bool, audio: &'a [T], audio_t: i32) -> (out: Option<(&'a [T], usize)>)
    ensures
        out == sound_of(given, audio, audio_t),
{
    if given {
        Some((audio, count_of(audio_t)))
    } else {
        None
    }
}

/// What is wrong with the first reference that is not one.
pub open spec fn refs_trouble(rs: Seq<RefFields>) -> Option<Seq<char>>
    decreases rs.len(),
{
    if rs.len() == 0 {
        None
    } else if refs_trouble(rs.drop_last()) is Some {
        refs_trouble(rs.drop_last())
    } else {
        rs.last().trouble()
    }
}

proof fn lemma_refs_stay(rs: Seq<RefFields>, n: int)
    requires
        0 <= n <= rs.len(),
        refs_trouble(rs.take(n)) is Some,
    ensures
        refs_trouble(rs) == refs_trouble(rs.take(n)),
    decreases rs.len() - n,
{
    if n < rs.len() {
        assert(rs.take(n + 1).drop_last() =~= rs.take(n));
        lemma_refs_stay(rs, n + 1);
    } else {
        assert(rs.take(n) =~= rs);
    }
}

/// Whether a reference is what its fields and its borrowed buffers say.
pub open spec fn is_ref<'a, T, B: Fn(usize, Lengths) -> Buffers<'a, T>>(
    borrow: B,
    i: int,
    fields: RefFields,
    r: Reference<'a, T>,
) -> bool {
    exists|b: Buffers<'a, T>| #[trigger]
        call_ensures(borrow, (i as usize, fields.lengths()), b) && r == fields.reference(b)
}

fn ref_of<'a, T: Copy, B: Fn(usize, Lengths) -> Buffers<'a, T>>(r: &RefFields, i: usize, borrow: &B) -> (
    result: Result<Reference<'a, T>>)
    requires
        forall|i: usize, n: Lengths| #[trigger] call_requires(*borrow, (i, n)),
    ensures
        match r.trouble() {
            Some(words) => result matches Err(e) && error::blames(e, words),
            None => result matches Ok(out) && is_ref(*borrow, i as int, *r, out),
        },
{
    let latents: [i32; 4] = [r.latent_t, r.lat_h, r.lat_w, 24];
    assert(latents@ =~= r.video_dims());
    let video: usize = extent("reference latents", &latents)?;
    let samples: [i32; 3] = [r.audio_t, 2, 32];
    assert(samples@ =~= audio_dims(r.audio_t));
    let audio: usize = extent("reference audio", &samples)?;
    let shown: [i32; 3] = [r.height, r.width, 3];
    assert(shown@ =~= r.pixel_dims());
    let pixels: usize = extent("reference pixels", &shown)?;
    // a combination of tag and buffers that is no reference is refused here
    if r.kind == 0 && !r.has_video {
        return error::invalid(String::from_str("an image reference without latents"));
    }
    if r.kind == 1 && !r.has_audio {
        return error::invalid(String::from_str("an audio reference without latents"));
    }
    if r.kind == 2 && !r.has_video {
        return error::invalid(String::from_str("a video reference without latents"));
    }
    if r.kind != 0 && r.kind != 1 && r.kind != 2 {
        let mut words = String::from_str("reference kind ");
        text::push_signed(&mut words, r.kind as i64);
        words.append(" is not 0 (image), 1 (audio) or 2 (video)");
        return error::invalid(words);
    }
    let lengths = Lengths { video, audio, pixels };
    assert(lengths == r.lengths());
    let b = borrow(i, lengths);
    assert(call_ensures(*borrow, ((i as int) as usize, r.lengths()), b));
    let grid = LatentGrid {
        frames: count_of(r.latent_t),
        height: count_of(r.lat_h),
        width: count_of(r.lat_w),
    };
    let out = if r.kind == 0 {
        Reference::Image {
            latents: b.video,
            grid: LatentGrid { frames: 1, height: grid.height, width: grid.width },
            presented: present(r.has_pixels, b.pixels, r.height, r.width),
        }
    } else if r.kind == 1 {
        Reference::Audio { latents: b.audio, frames: count_of(r.audio_t) }
    } else {
        Reference::Video { latents: b.video, grid, audio: sound(r.has_audio, b.audio, r.audio_t) }
    };
    assert(out == r.reference(b));
    Ok(out)
}

/// The references a caller named, borrowed from its memory for one call: `borrow` hands out the buffers of one
/// of them, at the lengths its own fields give.
pub fn refs_of<'a, T: Copy, B: Fn(usize, Lengths) -> Buffers<'a, T>>(rs: &[RefFields], borrow: &B) -> (
    result: Result<Vec<Reference<'a, T>>>)
    requires
        forall|i: usize, n: Lengths| #[trigger] call_requires(*borrow, (i, n)),
    ensures
        match refs_trouble(rs@) {
            Some(words) => result matches Err(e) && error::blames(e, words),
            None => result matches Ok(out) && out@.len() == rs@.len() && forall|i: int|
                0 <= i < rs@.len() ==> is_ref(*borrow, i, rs@[i], #[trigger] out@[i]),
        },
{
    let mut out: Vec<Reference<'a, T>> = Vec::new();
    let mut i: usize = 0;
    while i < rs.len()
        invariant
            i <= rs@.len(),
            forall|i: usize, n: Lengths| #[trigger] call_requires(*borrow, (i, n)),
            refs_trouble(rs@.take(i as int)) is None,
            out@.len() == i,
            forall|k: int| 0 <= k < i ==> is_ref(*borrow, k, rs@[k], #[trigger] out@[k]),
        decreases rs@.len() - i,
    {
        let ghost next = rs@.take(i + 1);
        assert(next.drop_last() =~= rs@.take(i as int));
        match ref_of(&rs[i], i, borrow) {
            Ok(r) => out.push(r),
            Err(e) => {
                proof {
                    lemma_refs_stay(rs@, i + 1);
                }
                return Err(e);
            },
        }
        i += 1;
    }
    assert(rs@.take(i as int) =~= rs@);
    Ok(out)
}

/// A keyframe's place, its dimensions, and which of its buffers were given.
#[derive(Clone, Copy, Debug)]
pub struct KeyframeFields {
    pub frame_index: i32,
    pub audio_t: i32,
    pub height: i32,
    pub width: i32,
    pub has_video: bool,
    pub has_audio: bool,
    pub has_pixels: bool,
}

impl KeyframeFields {
    pub open spec fn lengths(self, video: int) -> Lengths {
        Lengths {
            video: video as usize,
            audio: product(audio_dims(self.audio_t)) as usize,
            pixels: product(seq![self.height, self.width, 3i32]) as usize,
        }
    }

    pub open spec fn trouble(self) -> Option<Seq<char>> {
        if !self.has_video {
            Some("a keyframe without video latents"@)
        } else {
            first_of(
                extent_trouble("keyframe audio"@, audio_dims(self.audio_t)),
                extent_trouble("keyframe pixels"@, seq![self.height, self.width, 3i32]),
            )
        }
    }

    /// The keyframe these fields and buffers are.
    pub open spec fn keyframe<'a, T>(self, b: Buffers<'a, T>) -> Keyframe<'a, T> {
        Keyframe {
            frame_index: self.frame_index,
            latents: b.video,
            presented: presented_of(self.has_pixels, b.pixels, self.height, self.width),
            audio: sound_of(self.has_audio, b.audio, self.audio_t),
        }
    }
}

/// What is wrong with the first keyframe that is not one.
pub open spec fn keyframes_trouble(ks: Seq<KeyframeFields>) -> Option<Seq<char>>
    decreases ks.len(),
{
    if ks.len() == 0 {
        None
    } else if keyframes_trouble(ks.drop_last()) is Some {
        keyframes_trouble(ks.drop_last())
    } else {
        ks.last().trouble()
    }
}

proof fn lemma_keyframes_stay(ks: Seq<KeyframeFields>, n: int)
    requires
        0 <= n <= ks.len(),
        keyframes_trouble(ks.take(n)) is Some,
    ensures
        keyframes_trouble(ks) == keyframes_trouble(ks.take(n)),
    decreases ks.len() - n,
{
    if n < ks.len() {
        assert(ks.take(n + 1).drop_last() =~= ks.take(n));
        lemma_keyframes_stay(ks, n + 1);
    } else {
        assert(ks.take(n) =~= ks);
    }
}

/// Whether a keyframe is what its fields and its borrowed buffers say, on a grid of so many numbers.
pub open spec fn is_keyframe<'a, T, B: Fn(usize, Lengths) -> Buffers<'a, T>>(
    borrow: B,
    i: int,
    fields: KeyframeFields,
    video: int,
    k: Keyframe<'a, T>,
) -> bool {
    exists|b: Buffers<'a, T>| #[trigger]
        call_ensures(borrow, (i as usize, fields.lengths(video)), b) && k == fields.keyframe(b)
}

fn keyframe_of<'a, T: Copy, B: Fn(usize, Lengths) -> Buffers<'a, T>>(
    k: &KeyframeFields,
    i: usize,
    video: usize,
    borrow: &B,
) -> (result: Result<Keyframe<'a, T>>)
    requires
        forall|i: usize, n: Lengths| #[trigger] call_requires(*borrow, (i, n)),
    ensures
        match k.trouble() {
            Some(words) => result matches Err(e) && error::blames(e, words),
            None => result matches Ok(out) && is_keyframe(
                *borrow,
                i as int,
                *k,
                video as int,
                out,
            ),
        },
{
    if !k.has_video {
        return error::invalid(String::from_str("a keyframe without video latents"));
    }
    let samples: [i32; 3] = [k.audio_t, 2, 32];
    assert(samples@ =~= audio_dims(k.audio_t));
    let audio: usize = extent("keyframe audio", &samples)?;
    let shown: [i32; 3] = [k.height, k.width, 3];
    assert(shown@ =~= seq![k.height, k.width, 3i32]);
    let pixels: usize = extent("keyframe pixels", &shown)?;
    let lengths = Lengths { video, audio, pixels };
    assert(lengths == k.lengths(video as int));
    let b = borrow(i, lengths);
    assert(call_ensures(*borrow, ((i as int) as usize, k.lengths(video as int)), b));
    let out = Keyframe {
        frame_index: k.frame_index,
        latents: b.video,
        presented: present(k.has_pixels, b.pixels, k.height, k.width),
        audio: sound(k.has_audio, b.audio, k.audio_t),
    };
    assert(out == k.keyframe(b));
    Ok(out)
}

/// The keyframes a caller named, each on the generation's own latent grid.
pub fn keyframes_of<'a, T: Copy, B: Fn(usize, Lengths) -> Buffers<'a, T>>(
    ks: &[KeyframeFields],
    lat_h: i32,
    lat_w: i32,
    borrow: &B,
) -> (result: Result<Vec<Keyframe<'a, T>>>)
    requires
        forall|i: usize, n: Lengths| #[trigger] call_requires(*borrow, (i, n)),
    ensures
        ({
            let grid = seq![lat_h, lat_w, LATENT_CH as i32];
            match first_of(extent_trouble("keyframe latents"@, grid), keyframes_trouble(ks@)) {
                Some(words) => result matches Err(e) && error::blames(e, words),
                None => result matches Ok(out) && out@.len() == ks@.len() && forall|i: int|
                    0 <= i < ks@.len() ==> is_keyframe(
                        *borrow,
                        i,
                        ks@[i],
                        product(grid),
                        #[trigger] out@[i],
                    ),
            }
        }),
{
    let grid: [i32; 3] = [lat_h, lat_w, 24];
    assert(grid@ =~= seq![lat_h, lat_w, LATENT_CH as i32]);
    let video: usize = extent("keyframe latents", &grid)?;
    let mut out: Vec<Keyframe<'a, T>> = Vec::new();
    let mut i: usize = 0;
    while i < ks.len()
        invariant
            i <= ks@.len(),
            forall|i: usize, n: Lengths| #[trigger] call_requires(*borrow, (i, n)),
            extent_trouble("keyframe latents"@, seq![lat_h, lat_w, LATENT_CH as i32]) is None,
            keyframes_trouble(ks@.take(i as int)) is None,
            out@.len() == i,
            forall|k: int|
                0 <= k < i ==> is_keyframe(*borrow, k, ks@[k], video as int, #[trigger] out@[k]),
        decreases ks@.len() - i,
    {
        let ghost next = ks@.take(i + 1);
        assert(next.drop_last() =~= ks@.take(i as int));
        match keyframe_of(&ks[i], i, video, borrow) {
            Ok(k) => out.push(k),
            Err(e) => {
                proof {
                    lemma_keyframes_stay(ks@, i + 1);
                }
                return Err(e);
            },
        }
        i += 1;
    }
    assert(ks@.take(i as int) =~= ks@);
    Ok(out)
}

// The tokenizer's own ABI.
//
// It needs no device, no checkpoints and no lock.

/// A loaded vocabulary.
#[allow(non_camel_case_types)]
pub struct h3_tokenizer {
    pub inner: Tokenizer,
}

/// What an encode reports: how many ids there are, and how many of them go into a buffer of `capacity`.
///
/// The count is reported even when it exceeds the buffer, so a caller can size a second call to it.
pub fn encoded(ids: &[i32], capacity: usize) -> (out: (i32, usize))
    ensures
        out.0 == ids@.len() as i32,
        out.1 <= capacity && out.1 <= ids@.len(),
        out.1 == capacity || out.1 == ids@.len(),
{
    let n: usize = if ids.len() < capacity {
        ids.len()
    } else {
        capacity
    };
    (ids.len() as i32, n)
}

/// Whether this is what is reported of a text that came to `raw`: how many ids there are, and those of them that go into
/// a buffer of `capacity`; -1 and none where it was refused.
pub open spec fn is_reported(raw: Option<Seq<u32>>, capacity: usize, out: (i32, Vec<i32>)) -> bool {
    match raw {
        Some(raw) => {
            let n = if raw.len() < capacity {
                raw.len() as int
            } else {
                capacity as int
            };
            out.0 == raw.len() as i32 && out.1@ == crate::tokenizer::signed_ids(raw).take(n)
        },
        None => out.0 == -1 && out.1@.len() == 0,
    }
}

impl h3_tokenizer {
    /// The number of ids a text encodes to, and the ids that go into a buffer of `capacity`; -1 where it does
    /// not encode, and where the vocabulary does not.
    pub fn encode(&self, text: &str, capacity: usize) -> (out: (i32, Vec<i32>))
        ensures
            !self.inner.can_encode() ==> is_reported(None, capacity, out),
            self.inner.can_encode() ==> exists|raw: Option<Seq<u32>>| #[trigger]
                self.inner.outcomes().contains((text@, raw)) && is_reported(raw, capacity, out),
            self.inner.can_encode() && self.inner.steady() ==> forall|raw: Option<Seq<u32>>| #[trigger]
                self.inner.outcomes().contains((text@, raw)) ==> is_reported(raw, capacity, out),
    {
        if !self.inner.encodes() {
            return (-1, Vec::new());
        }
        match self.inner.encode(text) {
            Ok(ids) => {
                let ghost all = ids@;
                let (count, n) = encoded(ids.as_slice(), capacity);
                let mut kept = ids;
                kept.truncate(n);
                assert(kept@ =~= all.take(n as int));
                (count, kept)
            },
            Err(_) => (-1, Vec::new()),
        }
    }

    /// The vocabulary size: the largest id plus one among the tokens.
    pub fn vocab_size(&self) -> (n: i32)
        ensures
            exists|m: u64| #[trigger]
                crate::tokenizer::bounds(m as int, self.inner.ids()) && n == m as i32,
    {
        let m: u64 = self.inner.id_bound();
        assert(crate::tokenizer::bounds(m as int, self.inner.ids()));
        m as i32
    }
}

/// A reference is what its block says: its tag decides what it is, its latents are borrowed as long as its own dimensions
/// make them, and a picture to present or a sound is there where its buffer was given, in its own extent.
pub proof fn law_a_reference_is_what_its_block_says<'a, T, B: Fn(usize, Lengths) -> Buffers<'a, T>>(
    borrow: B,
    i: int,
    f: RefFields,
    r: Reference<'a, T>,
)
    requires
        f.trouble() is None,
        is_ref(borrow, i, f, r),
    ensures
        0 <= f.kind <= 2,
        exists|n: Lengths, b: Buffers<'a, T>| #[trigger]
            call_ensures(borrow, (i as usize, n), b) && {
                &&& n.video == f.latent_t * f.lat_h * f.lat_w * 24
                &&& n.audio == f.audio_t * 2 * 32
                &&& n.pixels == f.height * f.width * 3
                &&& match r {
                    Reference::Image { latents, grid, presented } => {
                        &&& f.kind == 0 && f.has_video
                        &&& latents == b.video
                        &&& grid.frames == 1 && grid.height == f.lat_h && grid.width == f.lat_w
                        &&& f.has_pixels == presented is Some
                        &&& presented matches Some(p) ==> p.pixels == b.pixels && p.height == f.height && p.width
                            == f.width
                    },
                    Reference::Audio { latents, frames } => {
                        &&& f.kind == 1 && f.has_audio
                        &&& latents == b.audio
                        &&& frames == f.audio_t
                    },
                    Reference::Video { latents, grid, audio } => {
                        &&& f.kind == 2 && f.has_video
                        &&& latents == b.video
                        &&& grid.frames == f.latent_t && grid.height == f.lat_h && grid.width == f.lat_w
                        &&& f.has_audio == audio is Some
                        &&& audio matches Some((z, steps)) ==> z == b.audio && steps == f.audio_t
                    },
                }
            },
{
    let b = choose|b: Buffers<'a, T>| #[trigger]
        call_ensures(borrow, (i as usize, f.lengths()), b) && r == f.reference(b);
    lemma_extents4("reference latents"@, f.latent_t, f.lat_h, f.lat_w, 24);
    lemma_extents3("reference audio"@, f.audio_t, 2, 32);
    lemma_extents3("reference pixels"@, f.height, f.width, 3);
    assert(call_ensures(borrow, (i as usize, f.lengths()), b));
}

/// A keyframe is what its block says: it stands at its frame, with latents as long as the canvas makes them, and a picture
/// to present or a sound where its buffer was given, in its own extent.
pub proof fn law_a_keyframe_is_what_its_block_says<'a, T, B: Fn(usize, Lengths) -> Buffers<'a, T>>(
    borrow: B,
    i: int,
    f: KeyframeFields,
    video: usize,
    k: Keyframe<'a, T>,
)
    requires
        f.trouble() is None,
        is_keyframe(borrow, i, f, video as int, k),
    ensures
        f.has_video,
        k.frame_index == f.frame_index,
        exists|n: Lengths, b: Buffers<'a, T>| #[trigger]
            call_ensures(borrow, (i as usize, n), b) && {
                &&& n.video == video
                &&& n.audio == f.audio_t * 2 * 32
                &&& n.pixels == f.height * f.width * 3
                &&& k.latents == b.video
                &&& f.has_pixels == k.presented is Some
                &&& k.presented matches Some(p) ==> p.pixels == b.pixels && p.height == f.height && p.width == f.width
                &&& f.has_audio == k.audio is Some
                &&& k.audio matches Some((z, steps)) ==> z == b.audio && steps == f.audio_t
            },
{
    let b = choose|b: Buffers<'a, T>| #[trigger]
        call_ensures(borrow, (i as usize, f.lengths(video as int)), b) && k == f.keyframe(b);
    lemma_extents3("keyframe audio"@, f.audio_t, 2, 32);
    lemma_extents3("keyframe pixels"@, f.height, f.width, 3);
    assert(call_ensures(borrow, (i as usize, f.lengths(video as int)), b));
}

proof fn lemma_extents3(what: Seq<char>, a: i32, b: i32, c: i32)
    requires
        extent_trouble(what, seq![a, b, c]) is None,
    ensures
        0 <= a,
        0 <= b,
        0 <= c,
        product(seq![a, b, c]) == a * b * c,
        0 <= a * b * c <= usize::MAX,
{
    lemma_product3(a, b, c);
    assert(seq![a, b, c].drop_last() =~= seq![a, b]);
    assert(seq![a, b].drop_last() =~= seq![a]);
    assert(seq![a].drop_last() =~= Seq::<i32>::empty());
    assert(extent_trouble(what, seq![a, b]) is None);
    assert(extent_trouble(what, seq![a]) is None);
    assert(a * b * c >= 0) by (nonlinear_arith)
        requires
            a >= 0,
            b >= 0,
            c >= 0,
    ;
}

proof fn lemma_extents4(what: Seq<char>, a: i32, b: i32, c: i32, d: i32)
    requires
        extent_trouble(what, seq![a, b, c, d]) is None,
    ensures
        0 <= a,
        0 <= b,
        0 <= c,
        0 <= d,
        product(seq![a, b, c, d]) == a * b * c * d,
        0 <= a * b * c * d <= usize::MAX,
{
    assert(seq![a, b, c, d].drop_last() =~= seq![a, b, c]);
    lemma_extents3(what, a, b, c);
    assert(a * b * c * d >= 0) by (nonlinear_arith)
        requires
            a * b * c >= 0,
            d >= 0,
    ;
}

/// Where several blocks are wrong the first of them is told, and where none is nothing is.
pub proof fn law_the_first_bad_block_is_told(rs: Seq<RefFields>, ks: Seq<KeyframeFields>, i: int)
    requires
        0 <= i,
    ensures
        i < rs.len() && rs[i].trouble() is Some && (forall|k: int| 0 <= k < i ==> (#[trigger] rs[k]).trouble() is None)
            ==> refs_trouble(rs) == rs[i].trouble(),
        (forall|k: int| 0 <= k < rs.len() ==> (#[trigger] rs[k]).trouble() is None) ==> refs_trouble(rs) is None,
        i < ks.len() && ks[i].trouble() is Some && (forall|k: int| 0 <= k < i ==> (#[trigger] ks[k]).trouble() is None)
            ==> keyframes_trouble(ks) == ks[i].trouble(),
        (forall|k: int| 0 <= k < ks.len() ==> (#[trigger] ks[k]).trouble() is None) ==> keyframes_trouble(ks) is None,
    decreases rs.len() + ks.len(),
{
    if rs.len() > 0 {
        law_the_first_bad_block_is_told(rs.drop_last(), ks, i);
        if forall|k: int| 0 <= k < i ==> (#[trigger] rs[k]).trouble() is None {
            let short = rs.drop_last();
            if i >= short.len() {
                assert forall|k: int| 0 <= k < short.len() implies (#[trigger] short[k]).trouble() is None by {
                    assert(rs[k].trouble() is None);
                }
            } else {
                assert(short[i] == rs[i]);
                assert forall|k: int| 0 <= k < i implies (#[trigger] short[k]).trouble() is None by {
                    assert(rs[k].trouble() is None);
                }
            }
        }
        if forall|k: int| 0 <= k < rs.len() ==> (#[trigger] rs[k]).trouble() is None {
            let short = rs.drop_last();
            assert forall|k: int| 0 <= k < short.len() implies (#[trigger] short[k]).trouble() is None by {
                assert(rs[k].trouble() is None);
            }
        }
    }
    if ks.len() > 0 {
        law_the_first_bad_block_is_told(rs, ks.drop_last(), i);
        if forall|k: int| 0 <= k < i ==> (#[trigger] ks[k]).trouble() is None {
            let short = ks.drop_last();
            if i >= short.len() {
                assert forall|k: int| 0 <= k < short.len() implies (#[trigger] short[k]).trouble() is None by {
                    assert(ks[k].trouble() is None);
                }
            } else {
                assert(short[i] == ks[i]);
                assert forall|k: int| 0 <= k < i implies (#[trigger] short[k]).trouble() is None by {
                    assert(ks[k].trouble() is None);
                }
            }
        }
        if forall|k: int| 0 <= k < ks.len() ==> (#[trigger] ks[k]).trouble() is None {
            let short = ks.drop_last();
            assert forall|k: int| 0 <= k < short.len() implies (#[trigger] short[k]).trouble() is None by {
                assert(ks[k].trouble() is None);
            }
        }
    }
}

} // verus!
