//! The DiT side of the pipeline: the packed sequence buffer, the token refiner, and the denoising run.
//!
//! The sequence buffer is one allocation shared by everything: text rows, keyframes, references, audio and
//! video all live in it at offsets the layout decides, so it is sized once for the longest sequence a
//! session will see and reused.
pub mod run;
pub mod walk;

use vstd::prelude::*;
use vstd::string::StringExecFns;

use crate::compile::Number;
use crate::error;
use crate::error::{Error, Result};
use crate::layout;
use crate::model::{AUDIO_CH, FFN, HEADS, HEAD_DIM, HID, LATENT_CH, ROPE_DIM};
use crate::noise;
use crate::rope::VisionSpan;
use crate::sampler;
use crate::stack::StackDims;
use crate::text;

verus! {

/// One hundred-thousandth in single precision, as its seventeen digits say it.
pub open spec fn is_small_eps(n: Number) -> bool {
    n matches Number::Finite { negative, digits, exponent } && !negative && digits
        == 99999997473787516 && exponent == -6
}

pub fn small_eps() -> (n: Number)
    ensures
        is_small_eps(n),
        n.sound(),
{
    proof {
        reveal_with_fuel(crate::compile::ten_to, 18);
    }
    Number::Finite { negative: false, digits: 99999997473787516, exponent: -6 }
}

/// The refiner: two blocks of the DiT's shape on 16-bit rows with no rope, then a modulated norm.
pub fn refiner_dims() -> (d: StackDims)
    ensures
        d.hidden == HID && d.heads == HEADS && d.kv_heads == HEADS && d.head_dim == HEAD_DIM,
        d.ffn == FFN && d.rope_dim == ROPE_DIM && d.classes == 1 && d.wbits == 16,
        is_small_eps(d.eps) && d.eps.sound(),
        !d.bias && d.gate_first && !d.causal && !d.attn_i4 && d.attn_qk_bits == 16 && d.bf16,
{
    StackDims {
        hidden: HID,
        heads: HEADS,
        kv_heads: HEADS,
        head_dim: HEAD_DIM,
        ffn: FFN,
        rope_dim: ROPE_DIM,
        classes: 1,
        wbits: 16,
        eps: small_eps(),
        bias: false,
        gate_first: true,
        causal: false,
        attn_i4: false,
        attn_qk_bits: 16,
        bf16: true,
    }
}

/// The rows a sequence gets: rounded to 256, plus the 32 the attention kernels read past its end.
pub open spec fn capacity_for(seq: int) -> int {
    (seq + 255) / 256 * 256 + 32
}

/// How many rows a sequence of `seq` gets: rounded to 256, plus the 32 the attention kernels read past the
/// end of a sequence.
pub fn seq_capacity(seq: usize) -> (capacity: usize)
    requires
        capacity_for(seq as int) <= usize::MAX,
    ensures
        capacity == capacity_for(seq as int),
{
    crate::dispatch::steps_of(seq, 256) * 256 + 32
}

/// A longer sequence never gets fewer rows, and every sequence keeps its slack: what makes "does it fit" a
/// valid test.
pub proof fn law_a_sequence_keeps_its_slack(a: nat, b: nat)
    requires
        a <= b,
    ensures
        capacity_for(a as int) <= capacity_for(b as int),
        capacity_for(a as int) >= a + 32,
{
}

/// The QK operands' width. The stack is built for it, so it belongs to the session, not a run.
#[derive(Clone, Copy, Debug, PartialEq, Eq, Structural)]
pub enum Attention {
    /// half-precision operands: the widest
    F16,
    /// 8-bit integers: the parity path, and the default
    I8,
    /// 4-bit integers: least operand traffic, and it ghosts conditioned clips
    I4,
}

impl Default for Attention {
    fn default() -> (a: Self)
        ensures
            a == Attention::I8,
    {
        Attention::I8
    }
}

impl Attention {
    pub open spec fn width(self) -> int {
        match self {
            Attention::F16 => 16,
            Attention::I8 => 8,
            Attention::I4 => 4,
        }
    }

    pub fn bits(self) -> (bits: usize)
        ensures
            bits == self.width(),
    {
        match self {
            Attention::F16 => 16,
            Attention::I8 => 8,
            Attention::I4 => 4,
        }
    }

    /// The three the kernels exist for; anything else is a caller's mistake.
    pub fn from_bits(bits: usize) -> (attention: Option<Self>)
        ensures
            match attention {
                Some(a) => a.width() == bits,
                None => bits != 16 && bits != 8 && bits != 4,
            },
    {
        match bits {
            16 => Some(Attention::F16),
            8 => Some(Attention::I8),
            4 => Some(Attention::I4),
            _ => None,
        }
    }
}

/// How a step advances.
#[derive(Clone, Copy, Debug, PartialEq, Eq, Structural)]
pub enum Sampler {
    /// Euler on each stream's own schedule
    Euler,
    /// a multistep over the pack on the video sigma grid
    ResMultistep,
}

impl Default for Sampler {
    fn default() -> (s: Self)
        ensures
            s == Sampler::ResMultistep,
    {
        Sampler::ResMultistep
    }
}

/// What a run asks for. The shifts of its schedule and the threshold of its step cache are not here.
#[derive(Clone, Copy, Debug)]
pub struct DenoiseParams {
    pub height: i32,
    pub width: i32,
    pub frames: i32,
    pub steps: usize,
    pub seed: u64,
    pub sampler: Sampler,
}

impl Default for DenoiseParams {
    fn default() -> (p: Self)
        ensures
            p.height == 480 && p.width == 864 && p.frames == 90 && p.steps == 30 && p.seed == 0,
            p.sampler == Sampler::ResMultistep,
    {
        DenoiseParams {
            height: 480,
            width: 864,
            frames: 90,
            steps: 30,
            seed: 0,
            sampler: Sampler::ResMultistep,
        }
    }
}

/// Explicit noise, so a run can be reproduced without depending on the generator.
#[derive(Clone, Copy, Debug)]
pub struct Noise<'a, T> {
    pub video: Option<&'a [T]>,
    pub audio: Option<&'a [T]>,
}

/// A latent grid: the extent of a reference's own latents.
#[derive(Clone, Copy, Debug, PartialEq, Eq, Structural)]
pub struct LatentGrid {
    pub frames: usize,
    pub height: usize,
    pub width: usize,
}

impl LatentGrid {
    /// The latents the grid holds, or `None` if the extents overflow on the way to it.
    pub open spec fn count(self) -> Option<int> {
        let (a, b) = (LATENT_CH * self.frames, LATENT_CH * self.frames * self.height);
        let c = LATENT_CH * self.frames * self.height * self.width;
        if a > usize::MAX || b > usize::MAX || c > usize::MAX {
            None
        } else {
            Some(c)
        }
    }

    /// The latents this grid holds, or `None` if the extents overflow.
    ///
    /// Checked, because a validator that computes its requirement by wrapping accepts whatever it wrapped
    /// to.
    pub fn elements(&self) -> (elements: Option<usize>)
        ensures
            match elements {
                Some(n) => self.count() == Some(n as int),
                None => self.count() is None,
            },
    {
        let a: usize = match LATENT_CH.checked_mul(self.frames) {
            Some(a) => a,
            None => {
                return None;
            },
        };
        let b: usize = match a.checked_mul(self.height) {
            Some(b) => b,
            None => {
                return None;
            },
        };
        b.checked_mul(self.width)
    }

    /// How the grid is written.
    pub open spec fn text(self) -> Seq<char> {
        text::phrase2_of(
            "LatentGrid { frames: "@,
            self.frames as nat,
            ", height: "@,
            self.height as nat,
            text::phrase_of(", width: "@, self.width as nat, " }"@),
        )
    }

    fn written(&self) -> (text: String)
        ensures
            text@ == self.text(),
    {
        let tail = text::phrase(", width: ", self.width, " }");
        text::phrase2(
            "LatentGrid { frames: ",
            self.frames,
            ", height: ",
            self.height,
            tail.as_str(),
        )
    }
}

/// What is wrong with latents on a grid. They are packed as 2x2 patches, four spatial neighbours to a row,
/// so an odd extent has a half patch at its edge.
pub open spec fn latents_trouble(g: LatentGrid, given: nat) -> Option<Seq<char>> {
    if g.height % 2 != 0 || g.width % 2 != 0 {
        Some(
            text::phrase2_of(
                "a "@,
                g.height as nat,
                "x"@,
                g.width as nat,
                " latent grid is not whole 2x2 patches"@,
            ),
        )
    } else {
        match g.count() {
            None => Some("latents for "@ + g.text() + " overflow a usize"@),
            Some(need) => if need == 0 || given < need {
                Some(
                    "latents for "@ + g.text() + text::phrase2_of(
                        " need "@,
                        need as nat,
                        " floats, "@,
                        given,
                        " given"@,
                    ),
                )
            } else {
                None
            },
        }
    }
}

fn check_latents(g: &LatentGrid, given: usize) -> (trouble: Option<String>)
    ensures
        match trouble {
            Some(words) => latents_trouble(*g, given as nat) == Some(words@),
            None => latents_trouble(*g, given as nat) is None,
        },
{
    if g.height % 2 != 0 || g.width % 2 != 0 {
        return Some(
            text::phrase2(
                "a ",
                g.height,
                "x",
                g.width,
                " latent grid is not whole 2x2 patches",
            ),
        );
    }
    let written = g.written();
    match g.elements() {
        None => Some(text::cat3("latents for ", written.as_str(), " overflow a usize")),
        Some(need) => {
            if need == 0 || given < need {
                let tail = text::phrase2(" need ", need, " floats, ", given, " given");
                Some(text::cat3("latents for ", written.as_str(), tail.as_str()))
            } else {
                None
            }
        },
    }
}

/// What is wrong with the latents of a sound.
pub open spec fn sound_trouble(frames: nat, given: nat) -> Option<Seq<char>> {
    if frames * (2 * AUDIO_CH) > usize::MAX {
        Some(text::phrase_of(""@, frames, " audio frames overflow a usize"@))
    } else if frames == 0 || given < frames * (2 * AUDIO_CH) {
        Some(
            text::phrase_of(
                "audio latents for "@,
                frames,
                text::phrase2_of(
                    " frames need "@,
                    (frames * (2 * AUDIO_CH)) as nat,
                    " floats, "@,
                    given,
                    " given"@,
                ),
            ),
        )
    } else {
        None
    }
}

fn check_sound(frames: usize, given: usize) -> (trouble: Option<String>)
    ensures
        match trouble {
            Some(words) => sound_trouble(frames as nat, given as nat) == Some(words@),
            None => sound_trouble(frames as nat, given as nat) is None,
        },
{
    let need: usize = match frames.checked_mul(2 * AUDIO_CH) {
        Some(need) => need,
        None => {
            return Some(text::phrase("", frames, " audio frames overflow a usize"));
        },
    };
    if need == 0 || given < need {
        let tail = text::phrase2(" frames need ", need, " floats, ", given, " given");
        return Some(text::phrase("audio latents for ", frames, tail.as_str()));
    }
    None
}

/// What is wrong with the pixels of a presentation.
pub open spec fn pixels_trouble(h: nat, w: nat, given: nat) -> Option<Seq<char>> {
    if h * w > usize::MAX || h * w * 3 > usize::MAX {
        Some(text::phrase2_of("pixels of "@, h, "x"@, w, " overflow a usize"@))
    } else if h * w * 3 == 0 || given < h * w * 3 {
        Some(
            text::phrase2_of(
                "pixels of "@,
                h,
                "x"@,
                w,
                text::phrase2_of(" need "@, h * w * 3, " floats, "@, given, " given"@),
            ),
        )
    } else {
        None
    }
}

fn check_pixels(h: usize, w: usize, given: usize) -> (trouble: Option<String>)
    ensures
        match trouble {
            Some(words) => pixels_trouble(h as nat, w as nat, given as nat) == Some(words@),
            None => pixels_trouble(h as nat, w as nat, given as nat) is None,
        },
{
    let area: usize = match h.checked_mul(w) {
        Some(area) => area,
        None => {
            return Some(text::phrase2("pixels of ", h, "x", w, " overflow a usize"));
        },
    };
    let need: usize = match area.checked_mul(3) {
        Some(need) => need,
        None => {
            return Some(text::phrase2("pixels of ", h, "x", w, " overflow a usize"));
        },
    };
    if need == 0 || given < need {
        let tail = text::phrase2(" need ", need, " floats, ", given, " given");
        return Some(text::phrase2("pixels of ", h, "x", w, tail.as_str()));
    }
    None
}

/// An image as the text encoder is shown it, alongside a visual reference's latents.
#[derive(Clone, Copy, Debug)]
pub struct Presented<'a, T> {
    pub pixels: &'a [T],
    pub height: usize,
    pub width: usize,
}

/// A reference the pack conditions on, in presentation order.
///
/// An audio reference has no latent grid and an image has no soundtrack, and neither can be written down.
#[derive(Clone, Copy, Debug)]
pub enum Reference<'a, T> {
    /// One latent frame, optionally presented to the text encoder as pixels
    Image { latents: &'a [T], grid: LatentGrid, presented: Option<Presented<'a, T>> },
    /// `[2][32][frames]`
    Audio { latents: &'a [T], frames: usize },
    /// A clip, with its own soundtrack if it has one
    Video { latents: &'a [T], grid: LatentGrid, audio: Option<(&'a [T], usize)> },
}

impl<'a, T> Reference<'a, T> {
    pub open spec fn kind_of(self) -> i32 {
        match self {
            Reference::Image { .. } => 0,
            Reference::Audio { .. } => 1,
            Reference::Video { .. } => 2,
        }
    }

    /// The tag the packed layout orders by: 0 image, 1 audio, 2 video.
    pub fn kind(&self) -> (kind: i32)
        ensures
            kind == self.kind_of(),
    {
        match self {
            Reference::Image { .. } => 0,
            Reference::Audio { .. } => 1,
            Reference::Video { .. } => 2,
        }
    }

    pub open spec fn grid_of(self) -> LatentGrid {
        match self {
            Reference::Image { grid, .. } => LatentGrid { frames: 1, ..grid },
            Reference::Video { grid, .. } => grid,
            Reference::Audio { .. } => LatentGrid { frames: 0, height: 0, width: 0 },
        }
    }

    pub fn grid(&self) -> (grid: LatentGrid)
        ensures
            grid == self.grid_of(),
    {
        match self {
            Reference::Image { grid, .. } => LatentGrid {
                frames: 1,
                height: grid.height,
                width: grid.width,
            },
            Reference::Video { grid, .. } => *grid,
            Reference::Audio { .. } => LatentGrid { frames: 0, height: 0, width: 0 },
        }
    }

    pub open spec fn picture(self) -> Option<&'a [T]> {
        match self {
            Reference::Image { latents, .. } => Some(latents),
            Reference::Video { latents, .. } => Some(latents),
            Reference::Audio { .. } => None,
        }
    }

    pub fn video_latents(&self) -> (latents: Option<&'a [T]>)
        ensures
            latents == self.picture(),
    {
        match self {
            Reference::Image { latents, .. } => Some(*latents),
            Reference::Video { latents, .. } => Some(*latents),
            Reference::Audio { .. } => None,
        }
    }

    pub open spec fn sound(self) -> Option<(&'a [T], usize)> {
        match self {
            Reference::Audio { latents, frames } => Some((latents, frames)),
            Reference::Video { audio, .. } => audio,
            Reference::Image { .. } => None,
        }
    }

    pub fn audio_latents(&self) -> (latents: Option<(&'a [T], usize)>)
        ensures
            latents == self.sound(),
    {
        match self {
            Reference::Audio { latents, frames } => Some((*latents, *frames)),
            Reference::Video { audio, .. } => *audio,
            Reference::Image { .. } => None,
        }
    }

    pub open spec fn shown(self) -> Option<Presented<'a, T>> {
        match self {
            Reference::Image { presented, .. } => presented,
            _ => None,
        }
    }

    pub fn presented(&self) -> (presented: Option<Presented<'a, T>>)
        where T: Copy
        ensures
            presented == self.shown(),
    {
        match self {
            Reference::Image { presented, .. } => *presented,
            _ => None,
        }
    }

    /// What is wrong with a reference's buffers, against the extents they claim.
    pub open spec fn trouble(self) -> Option<Seq<char>> {
        let picture = match self.picture() {
            Some(z) => latents_trouble(self.grid_of(), z@.len()),
            None => None,
        };
        let sound = match self.sound() {
            Some((z, frames)) => sound_trouble(frames as nat, z@.len()),
            None => None,
        };
        if picture is Some {
            picture
        } else if sound is Some {
            sound
        } else {
            match self.shown() {
                Some(p) => pixels_trouble(p.height as nat, p.width as nat, p.pixels@.len()),
                None => None,
            }
        }
    }

    /// The buffers against the extents they claim.
    pub fn check(&self, i: usize) -> (result: Result<()>)
        where T: Copy
        ensures
            match self.trouble() {
                Some(words) => result matches Err(e) && error::blames(
                    e,
                    text::phrase_of("reference "@, i as nat, ": "@ + words),
                ),
                None => result is Ok,
            },
    {
        if let Some(z) = self.video_latents() {
            let g = self.grid();
            if let Some(words) = check_latents(&g, z.len()) {
                return Err(at("reference ", i, words));
            }
        }
        if let Some((z, frames)) = self.audio_latents() {
            if let Some(words) = check_sound(frames, z.len()) {
                return Err(at("reference ", i, words));
            }
        }
        if let Some(p) = self.presented() {
            if let Some(words) = check_pixels(p.height, p.width, p.pixels.len()) {
                return Err(at("reference ", i, words));
            }
        }
        Ok(())
    }
}

fn at(what: &str, i: usize, words: String) -> (error: Error)
    ensures
        error::blames(error, text::phrase_of(what@, i as nat, ": "@ + words@)),
{
    let tail = text::cat2(": ", words.as_str());
    Error::Invalid(text::phrase(what, i, tail.as_str()))
}

/// A keyframe: one latent frame pinned at a frame index, on the generation's own latent grid.
#[derive(Clone, Copy, Debug)]
pub struct Keyframe<'a, T> {
    /// 0 for the first frame, or `frames - 1` after snapping for the last
    pub frame_index: i32,
    /// `[24][1][lat_h][lat_w]`, on the grid the run itself uses
    pub latents: &'a [T],
    /// the same frame as pixels, for the encoder's presentation
    pub presented: Option<Presented<'a, T>>,
    /// optional, and never denoised
    pub audio: Option<(&'a [T], usize)>,
}

/// A count that may have been given as a negative number.
pub open spec fn at_least_zero(n: i32) -> int {
    if n < 0 {
        0
    } else {
        n as int
    }
}

impl<'a, T> Keyframe<'a, T> {
    /// What is wrong with a keyframe's buffers, against the generation's grid.
    pub open spec fn trouble(self, lat_h: i32, lat_w: i32) -> Option<Seq<char>> {
        let need = LATENT_CH * at_least_zero(lat_h) * at_least_zero(lat_w);
        let sound = match self.audio {
            Some((z, frames)) => sound_trouble(frames as nat, z@.len()),
            None => None,
        };
        if need == 0 || self.latents@.len() < need {
            Some(
                "latents on the "@ + text::signed(lat_h as int) + "x"@ + text::signed(lat_w as int)
                    + text::phrase2_of(
                    " grid need "@,
                    need as nat,
                    " floats, "@,
                    self.latents@.len(),
                    " given"@,
                ),
            )
        } else if sound is Some {
            sound
        } else {
            match self.presented {
                Some(p) => pixels_trouble(p.height as nat, p.width as nat, p.pixels@.len()),
                None => None,
            }
        }
    }

    /// The buffers against the generation's grid, which is what a keyframe sits on.
    pub fn check(&self, i: usize, lat_h: i32, lat_w: i32) -> (result: Result<()>)
        where T: Copy
        requires
            LATENT_CH * at_least_zero(lat_h) <= usize::MAX,
            LATENT_CH * at_least_zero(lat_h) * at_least_zero(lat_w) <= usize::MAX,
        ensures
            match self.trouble(lat_h, lat_w) {
                Some(words) => result matches Err(e) && error::blames(
                    e,
                    text::phrase_of("keyframe "@, i as nat, ": "@ + words),
                ),
                None => result is Ok,
            },
    {
        let h: usize = if lat_h < 0 {
            0
        } else {
            lat_h as usize
        };
        let w: usize = if lat_w < 0 {
            0
        } else {
            lat_w as usize
        };
        assert(LATENT_CH * h * w >= 0) by (nonlinear_arith)
            requires
                h >= 0,
                w >= 0,
        ;
        let need: usize = LATENT_CH * h * w;
        if need == 0 || self.latents.len() < need {
            let mut words = String::from_str("latents on the ");
            text::push_signed(&mut words, lat_h as i64);
            words.append("x");
            text::push_signed(&mut words, lat_w as i64);
            let tail = text::phrase2(" grid need ", need, " floats, ", self.latents.len(), " given");
            words.append(tail.as_str());
            return Err(at("keyframe ", i, words));
        }
        if let Some((z, frames)) = self.audio {
            if let Some(words) = check_sound(frames, z.len()) {
                return Err(at("keyframe ", i, words));
            }
        }
        if let Some(p) = self.presented {
            if let Some(words) = check_pixels(p.height, p.width, p.pixels.len()) {
                return Err(at("keyframe ", i, words));
            }
        }
        Ok(())
    }
}

// Images and their placeholders.

/// Whether these are the runs of placeholders among ids: every negative id is in one, nothing else is, and
/// no two of them touch.
pub open spec fn runs_of(ids: Seq<i32>, runs: Seq<(usize, usize)>) -> bool {
    &&& forall|r: int|
        0 <= r < runs.len() ==> (#[trigger] runs[r]).1 > 0 && runs[r].0 + runs[r].1 <= ids.len()
    &&& forall|r: int, q: int|
        0 <= r < q < runs.len() ==> (#[trigger] runs[r]).0 + runs[r].1 < (#[trigger] runs[q]).0
    &&& forall|k: int| 0 <= k < ids.len() ==> (#[trigger] ids[k] < 0 <==> in_a_run(runs, k))
}

/// Whether a place is in one of the runs.
pub open spec fn in_a_run(runs: Seq<(usize, usize)>, k: int) -> bool {
    exists|r: int|
        0 <= r < runs.len() && (#[trigger] runs[r]).0 <= k && k < runs[r].0 + runs[r].1
}

/// The runs of placeholders among ids. A run of negative ids stands for an image.
pub fn placeholders(ids: &[i32]) -> (runs: Vec<(usize, usize)>)
    ensures
        runs_of(ids@, runs@),
{
    let mut runs: Vec<(usize, usize)> = Vec::new();
    let mut i: usize = 0;
    while i < ids.len()
        invariant
            i <= ids@.len(),
            runs_of(ids@.take(i as int), runs@),
        decreases ids@.len() - i,
    {
        let ghost before = runs@;
        let ghost seen = ids@.take(i as int);
        let ghost next = ids@.take(i + 1);
        let n: usize = runs.len();
        if ids[i] < 0 {
            if n > 0 && runs[n - 1].0 + runs[n - 1].1 == i {
                let (start, count) = runs[n - 1];
                runs.set(n - 1, (start, count + 1));
            } else {
                runs.push((i, 1));
            }
        }
        proof {
            assert forall|k: int| 0 <= k < next.len() implies (#[trigger] next[k] < 0 <==> in_a_run(
                runs@,
                k,
            )) by {
                if k < i {
                    assert(seen[k] == next[k]);
                    if in_a_run(before, k) {
                        let r = choose|r: int|
                            0 <= r < before.len() && (#[trigger] before[r]).0 <= k && k < before[r].0
                                + before[r].1;
                        assert(runs@[r].0 <= k && k < runs@[r].0 + runs@[r].1);
                    }
                    if in_a_run(runs@, k) {
                        let r = choose|r: int|
                            0 <= r < runs@.len() && (#[trigger] runs@[r]).0 <= k && k < runs@[r].0
                                + runs@[r].1;
                        if r < before.len() {
                            assert(before[r].0 <= k && k < before[r].0 + before[r].1);
                        }
                    }
                } else {
                    if next[k] < 0 {
                        let r = runs@.len() - 1;
                        assert(runs@[r].0 <= k && k < runs@[r].0 + runs@[r].1);
                    }
                    if in_a_run(runs@, k) && ids@[i as int] >= 0 {
                        let r = choose|r: int|
                            0 <= r < runs@.len() && (#[trigger] runs@[r]).0 <= k && k < runs@[r].0
                                + runs@[r].1;
                        assert(before[r].0 + before[r].1 <= seen.len());
                    }
                }
            }
        }
        i += 1;
    }
    assert(ids@.take(i as int) =~= ids@);
    runs
}

/// The images a prompt presents: the keyframes' first, then the references'.
pub open spec fn pictures_of<'a, T>(kfs: Seq<Keyframe<'a, T>>, refs: Seq<Reference<'a, T>>) -> Seq<
    Presented<'a, T>,
> {
    keyframes_shown(kfs) + references_shown(refs)
}

pub open spec fn keyframes_shown<'a, T>(kfs: Seq<Keyframe<'a, T>>) -> Seq<Presented<'a, T>>
    decreases kfs.len(),
{
    if kfs.len() == 0 {
        Seq::empty()
    } else {
        keyframes_shown(kfs.drop_last()) + match kfs.last().presented {
            Some(p) => seq![p],
            None => Seq::empty(),
        }
    }
}

pub open spec fn references_shown<'a, T>(refs: Seq<Reference<'a, T>>) -> Seq<Presented<'a, T>>
    decreases refs.len(),
{
    if refs.len() == 0 {
        Seq::empty()
    } else {
        references_shown(refs.drop_last()) + match refs.last().shown() {
            Some(p) => seq![p],
            None => Seq::empty(),
        }
    }
}

/// The images a prompt presents, in the order of their placeholders.
pub fn pictures<'a, T: Copy>(kfs: &[Keyframe<'a, T>], refs: &[Reference<'a, T>]) -> (pics: Vec<
    Presented<'a, T>,
>)
    ensures
        pics@ == pictures_of(kfs@, refs@),
{
    let mut pics: Vec<Presented<'a, T>> = Vec::new();
    let mut i: usize = 0;
    assert(kfs@.take(0).len() == 0);
    while i < kfs.len()
        invariant
            i <= kfs@.len(),
            pics@ == keyframes_shown(kfs@.take(i as int)),
        decreases kfs@.len() - i,
    {
        let ghost next = kfs@.take(i + 1);
        let ghost before = pics@;
        assert(next.drop_last() =~= kfs@.take(i as int));
        assert(next.last() == kfs@[i as int]);
        if let Some(p) = kfs[i].presented {
            pics.push(p);
        }
        assert(pics@ =~= keyframes_shown(next));
        i += 1;
    }
    assert(kfs@.take(i as int) =~= kfs@);
    let ghost front = pics@;
    let mut i: usize = 0;
    assert(refs@.take(0).len() == 0);
    assert(pics@ =~= front + references_shown(refs@.take(0)));
    while i < refs.len()
        invariant
            i <= refs@.len(),
            pics@ == front + references_shown(refs@.take(i as int)),
        decreases refs@.len() - i,
    {
        let ghost next = refs@.take(i + 1);
        assert(next.drop_last() =~= refs@.take(i as int));
        assert(next.last() == refs@[i as int]);
        if let Some(p) = refs[i].presented() {
            pics.push(p);
        }
        assert(pics@ =~= front + references_shown(next));
        i += 1;
    }
    assert(refs@.take(i as int) =~= refs@);
    pics
}

/// Whether there is an image for every run of placeholders, and a run for every image.
pub fn check_image_count(images: usize, runs: usize) -> (result: Result<()>)
    ensures
        if images > runs {
            result matches Err(e) && error::blames(
                e,
                "more images than placeholder runs in the ids"@,
            )
        } else if images < runs {
            result matches Err(e) && error::blames(
                e,
                "placeholder runs in the ids without an image reference with pixels"@,
            )
        } else {
            result is Ok
        },
{
    if images > runs {
        return Err(
            Error::Invalid(String::from_str("more images than placeholder runs in the ids")),
        );
    }
    if images < runs {
        return Err(
            Error::Invalid(
                String::from_str(
                    "placeholder runs in the ids without an image reference with pixels",
                ),
            ),
        );
    }
    Ok(())
}

/// The rows an image fills: exactly those its run of placeholders reserved, one per 32x32 pixels.
pub fn vision_span(runs: &[(usize, usize)], ri: usize, height: usize, width: usize) -> (result: Result<
    VisionSpan,
>)
    requires
        ri < runs@.len(),
        height as int / 32 * (width as int / 32) <= usize::MAX,
    ensures
        ({
            let (start, count) = runs@[ri as int];
            let need = height as int / 32 * (width as int / 32);
            if count != need {
                result matches Err(e) && error::blames(
                    e,
                    text::phrase_of(
                        "placeholder run "@,
                        ri as nat,
                        text::phrase2_of(
                            " has "@,
                            count as nat,
                            " ids, the image needs "@,
                            need as nat,
                            ""@,
                        ),
                    ),
                )
            } else {
                &&& result matches Ok(span)
                &&& span.start == start
                &&& span.count == count
                &&& span.merged_h == height / 32
                &&& span.merged_w == width / 32
            }
        }),
{
    let mh: usize = height / 32;
    let mw: usize = width / 32;
    assert(mh * mw >= 0) by (nonlinear_arith)
        requires
            mh >= 0,
            mw >= 0,
    ;
    let need: usize = mh * mw;
    let (start, count) = runs[ri];
    if count != need {
        let tail = text::phrase2(" has ", count, " ids, the image needs ", need, "");
        return Err(Error::Invalid(text::phrase("placeholder run ", ri, tail.as_str())));
    }
    Ok(VisionSpan { start, count, merged_h: mh, merged_w: mw })
}

// A run and its sequence.

/// The shape of a run, which must be one the model serves, in as many steps as a schedule has.
pub fn run_shape(p: &DenoiseParams) -> (result: Result<layout::Shape>)
    ensures
        if !(layout::canvas(p.height as int, p.width as int) && 1 <= p.frames <= layout::MAX_FRAMES) {
            result matches Err(e) && error::blames(e, "no such shape"@)
        } else if !(2 <= p.steps <= 1000) {
            result matches Err(e) && error::blames(e, "steps must be 2..1000"@)
        } else {
            result matches Ok(s) && layout::served(
                s,
                p.height as int,
                p.width as int,
                p.frames as int,
            )
        },
{
    let shape = match layout::shape_for(p.height, p.width, p.frames) {
        Some(shape) => shape,
        None => {
            return Err(Error::Invalid(String::from_str("no such shape")));
        },
    };
    if p.steps < 2 || p.steps > 1000 {
        return Err(Error::Invalid(String::from_str("steps must be 2..1000")));
    }
    Ok(shape)
}

/// A reference as the layout packs it.
pub open spec fn packed_ref<'a, T>(r: Reference<'a, T>) -> layout::Ref {
    let g = r.grid_of();
    layout::Ref {
        kind: r.kind_of(),
        latent_t: g.frames as i32,
        lat_h: g.height as i32,
        lat_w: g.width as i32,
        audio_t: match r.sound() {
            Some((_, n)) => n as i32,
            None => 0,
        },
        has_audio: r.sound() is Some,
    }
}

/// A keyframe as the layout packs it.
pub open spec fn packed_keyframe<'a, T>(k: Keyframe<'a, T>) -> layout::Keyframe {
    layout::Keyframe {
        frame_index: k.frame_index,
        audio_t: match k.audio {
            Some((_, n)) => n as i32,
            None => 0,
        },
        has_audio: k.audio is Some,
    }
}

pub open spec fn packed_refs<'a, T>(refs: Seq<Reference<'a, T>>) -> Seq<layout::Ref> {
    Seq::new(refs.len(), |i: int| packed_ref(refs[i]))
}

pub open spec fn packed_keyframes<'a, T>(kfs: Seq<Keyframe<'a, T>>) -> Seq<layout::Keyframe> {
    Seq::new(kfs.len(), |i: int| packed_keyframe(kfs[i]))
}

/// References as the layout packs them.
pub fn lay_refs<'a, T: Copy>(refs: &[Reference<'a, T>]) -> (out: Vec<layout::Ref>)
    ensures
        out@ == packed_refs(refs@),
{
    let mut out: Vec<layout::Ref> = Vec::new();
    let mut i: usize = 0;
    while i < refs.len()
        invariant
            i <= refs@.len(),
            out@ == packed_refs(refs@.take(i as int)),
        decreases refs@.len() - i,
    {
        let r = &refs[i];
        let g = r.grid();
        let sound = r.audio_latents();
        out.push(
            layout::Ref {
                kind: r.kind(),
                latent_t: g.frames as i32,
                lat_h: g.height as i32,
                lat_w: g.width as i32,
                audio_t: match sound {
                    Some((_, n)) => n as i32,
                    None => 0,
                },
                has_audio: sound.is_some(),
            },
        );
        i += 1;
        assert(out@ =~= packed_refs(refs@.take(i as int)));
    }
    assert(refs@.take(i as int) =~= refs@);
    out
}

fn lay_keyframes<'a, T: Copy>(kfs: &[Keyframe<'a, T>]) -> (out: Vec<layout::Keyframe>)
    ensures
        out@ == packed_keyframes(kfs@),
{
    let mut out: Vec<layout::Keyframe> = Vec::new();
    let mut i: usize = 0;
    while i < kfs.len()
        invariant
            i <= kfs@.len(),
            out@ == packed_keyframes(kfs@.take(i as int)),
        decreases kfs@.len() - i,
    {
        let k = &kfs[i];
        out.push(
            layout::Keyframe {
                frame_index: k.frame_index,
                audio_t: match k.audio {
                    Some((_, n)) => n as i32,
                    None => 0,
                },
                has_audio: k.audio.is_some(),
            },
        );
        i += 1;
        assert(out@ =~= packed_keyframes(kfs@.take(i as int)));
    }
    assert(kfs@.take(i as int) =~= kfs@);
    out
}

/// Whether a run's sequence can be laid out.
pub fn packs<'a, T: Copy>(
    sh: &layout::Shape,
    n: usize,
    refs: &[Reference<'a, T>],
    kfs: &[Keyframe<'a, T>],
) -> (yes: bool)
    ensures
        yes == layout::packable(n as int, *sh, packed_refs(refs@), packed_keyframes(kfs@)),
{
    let lrefs = lay_refs(refs);
    let lkfs = lay_keyframes(kfs);
    layout::is_packable(n, sh, lrefs.as_slice(), lkfs.as_slice())
}

/// Lays a run's sequence out: `n` text rows, the keyframes, the references, and the target's sound and
/// picture.
pub fn pack<'a, T: Copy>(
    sh: &layout::Shape,
    n: usize,
    refs: &[Reference<'a, T>],
    kfs: &[Keyframe<'a, T>],
) -> (result: Result<layout::Layout>)
    requires
        layout::packable(n as int, *sh, packed_refs(refs@), packed_keyframes(kfs@)),
    ensures
        result matches Ok(lay) && lay.wf() && lay.text_len == n && lay.rows() == layout::packed(
            n as int,
            sh.latent_t as int,
            sh.lat_h as int,
            sh.lat_w as int,
            sh.audio_t as int,
            packed_refs(refs@),
            packed_keyframes(kfs@),
        ) && lay.ref_segs@ == layout::packed_segs(
            n as int,
            sh.lat_h as int,
            sh.lat_w as int,
            packed_refs(refs@),
            packed_keyframes(kfs@),
        ),
{
    let lrefs = lay_refs(refs);
    let lkfs = lay_keyframes(kfs);
    proof {
        layout::law_documented_references_fill_the_sequence(
            n as nat,
            sh.latent_t as nat,
            sh.lat_h as nat,
            sh.lat_w as nat,
            sh.audio_t as nat,
            lrefs@,
            lkfs@,
        );
    }
    match layout::Layout::new(
        n,
        sh.latent_t as usize,
        sh.lat_h as usize,
        sh.lat_w as usize,
        sh.audio_t as usize,
        lrefs.as_slice(),
        lkfs.as_slice(),
    ) {
        Ok(lay) => Ok(lay),
        Err(message) => Err(Error::Invalid(message)),
    }
}

// The reference rows.

/// The latents a packed segment was made for: its sound's or its picture's. A keyframe presents as a
/// one-frame image reference.
pub open spec fn latents_of<'a, T>(
    sg: layout::RefSeg,
    refs: Seq<Reference<'a, T>>,
    kfs: Seq<Keyframe<'a, T>>,
) -> Option<&'a [T]> {
    if sg.kind == 3 {
        let kf = kfs[sg.index as int];
        if sg.audio {
            match kf.audio {
                Some((z, _)) => Some(z),
                None => None,
            }
        } else {
            Some(kf.latents)
        }
    } else {
        let rf = refs[sg.index as int];
        if sg.audio {
            match rf.sound() {
                Some((z, _)) => Some(z),
                None => None,
            }
        } else {
            rf.picture()
        }
    }
}

/// Whether a segment names one of the keyframes or one of the references.
pub open spec fn names_a_source(sg: layout::RefSeg, refs: nat, kfs: nat) -> bool {
    sg.index < if sg.kind == 3 {
        kfs
    } else {
        refs
    }
}

/// The latents a packed segment's rows are written from.
pub fn segment_source<'a, T: Copy>(
    sg: &layout::RefSeg,
    refs: &[Reference<'a, T>],
    kfs: &[Keyframe<'a, T>],
) -> (result: Result<&'a [T]>)
    requires
        names_a_source(*sg, refs@.len(), kfs@.len()),
    ensures
        match latents_of(*sg, refs@, kfs@) {
            Some(z) => result == Ok::<&'a [T], Error>(z),
            None => result matches Err(e) && error::blames(
                e,
                if sg.audio {
                    "an audio reference segment without audio latents"@
                } else {
                    "a visual reference segment without video latents"@
                },
            ),
        },
{
    let (picture, sound) = if sg.kind == 3 {
        let kf = &kfs[sg.index];
        (Some(kf.latents), kf.audio)
    } else {
        let rf = &refs[sg.index];
        (rf.video_latents(), rf.audio_latents())
    };
    if sg.audio {
        match sound {
            Some((z, _)) => Ok(z),
            None => error::invalid(String::from_str("an audio reference segment without audio latents")),
        }
    } else {
        match picture {
            Some(z) => Ok(z),
            None => error::invalid(String::from_str("a visual reference segment without video latents")),
        }
    }
}

proof fn lemma_keyframe_segs_have_latents<'a, T>(
    kfs: Seq<Keyframe<'a, T>>,
    refs: Seq<Reference<'a, T>>,
    row0: int,
    h: int,
    w: int,
    n: int,
    i: int,
)
    requires
        0 <= n <= kfs.len() <= usize::MAX,
        0 <= i < layout::all_keyframe_segs(packed_keyframes(kfs).take(n), row0, h, w).len(),
    ensures
        ({
            let sg = layout::all_keyframe_segs(packed_keyframes(kfs).take(n), row0, h, w)[i];
            names_a_source(sg, refs.len(), kfs.len()) && latents_of(sg, refs, kfs) is Some
        }),
    decreases n,
{
    let packed = packed_keyframes(kfs).take(n);
    if n > 0 {
        assert(packed.drop_last() =~= packed_keyframes(kfs).take(n - 1));
        assert(packed.last() == packed_keyframe(kfs[n - 1]));
        if i < layout::all_keyframe_segs(packed.drop_last(), row0, h, w).len() {
            lemma_keyframe_segs_have_latents(kfs, refs, row0, h, w, n - 1, i);
        }
    }
}

proof fn lemma_ref_segs_have_latents<'a, T>(
    kfs: Seq<Keyframe<'a, T>>,
    refs: Seq<Reference<'a, T>>,
    row0: int,
    h: int,
    w: int,
    n: int,
    i: int,
)
    requires
        0 <= n <= refs.len() <= usize::MAX,
        0 <= i < layout::all_ref_segs(packed_refs(refs).take(n), row0, h, w).len(),
    ensures
        ({
            let sg = layout::all_ref_segs(packed_refs(refs).take(n), row0, h, w)[i];
            names_a_source(sg, refs.len(), kfs.len()) && latents_of(sg, refs, kfs) is Some
        }),
    decreases n,
{
    let packed = packed_refs(refs).take(n);
    if n > 0 {
        assert(packed.drop_last() =~= packed_refs(refs).take(n - 1));
        assert(packed.last() == packed_ref(refs[n - 1]));
        if i < layout::all_ref_segs(packed.drop_last(), row0, h, w).len() {
            lemma_ref_segs_have_latents(kfs, refs, row0, h, w, n - 1, i);
        }
    }
}

/// Every segment of a packed layout names one of the references or keyframes it was packed from, and that
/// one has the latents the segment's rows are written from: injecting them is never refused.
pub proof fn law_a_packed_segment_has_its_latents<'a, T>(
    n: int,
    h: int,
    w: int,
    refs: Seq<Reference<'a, T>>,
    kfs: Seq<Keyframe<'a, T>>,
    i: int,
)
    requires
        refs.len() <= usize::MAX,
        kfs.len() <= usize::MAX,
        0 <= i < layout::packed_segs(n, h, w, packed_refs(refs), packed_keyframes(kfs)).len(),
    ensures
        ({
            let sg = layout::packed_segs(n, h, w, packed_refs(refs), packed_keyframes(kfs))[i];
            names_a_source(sg, refs.len(), kfs.len()) && latents_of(sg, refs, kfs) is Some
        }),
{
    let (prefs, pkfs) = (packed_refs(refs), packed_keyframes(kfs));
    assert(prefs.take(refs.len() as int) =~= prefs);
    assert(pkfs.take(kfs.len() as int) =~= pkfs);
    let heads = layout::all_keyframe_segs(pkfs, n, h, w);
    if i < heads.len() {
        lemma_keyframe_segs_have_latents(kfs, refs, n, h, w, kfs.len() as int, i);
    } else {
        let row0 = n + layout::keyframe_blocks(pkfs, h, w).len();
        lemma_ref_segs_have_latents(kfs, refs, row0, h, w, refs.len() as int, i - heads.len());
    }
}

/// Whether these are the rows after a segment's latents were written to them.
pub open spec fn fills<T, F: Fn(T, T) -> T>(
    sg: layout::RefSeg,
    latents: Seq<T>,
    draws: Seq<T>,
    before: Seq<T>,
    after: Seq<T>,
    mix: F,
) -> bool {
    &&& after.len() == before.len()
    &&& sg.audio ==> forall|d: int|
        0 <= d < before.len() ==> #[trigger] after[d] == if d < 2 * sg.audio_t * AUDIO_CH {
            latents[sampler::audio_from(d, sg.audio_t as int)]
        } else {
            before[d]
        }
    &&& !sg.audio ==> exists|mixed: Seq<T>|
        #![trigger noise::mixed_from(mixed, latents, draws, draws.len() as int, mix)]
        noise::mixed_from(mixed, latents, draws, draws.len() as int, mix) && sampler::patched(
            mixed,
            before,
            after,
            draws.len() as int,
            sg.latent_t as int,
            sg.lat_h as int,
            sg.lat_w as int,
        )
}

/// Writes a segment's latents as the rows its patch projection reads: sound as it is, a picture mixed with
/// its own draws.
pub fn fill_segment<T: Copy, F: Fn(T, T) -> T>(
    sg: &layout::RefSeg,
    latents: &[T],
    draws: &[T],
    rows: &mut [T],
    mix: F,
)
    requires
        sg.audio ==> sg.audio_t >= 0 && 2 * sg.audio_t * AUDIO_CH <= latents@.len() && 2 * sg.audio_t
            * AUDIO_CH <= old(rows)@.len(),
        !sg.audio ==> {
            &&& sg.latent_t >= 0 && sg.lat_h >= 0 && sg.lat_w >= 0
            &&& sampler::latent_len(sg.latent_t as int, sg.lat_h as int, sg.lat_w as int)
                <= latents@.len()
            &&& sampler::latent_len(sg.latent_t as int, sg.lat_h as int, sg.lat_w as int)
                == draws@.len()
            &&& forall|j: int|
                0 <= j < draws@.len() ==> #[trigger] sampler::patched_at(
                    j,
                    sg.latent_t as int,
                    sg.lat_h as int,
                    sg.lat_w as int,
                ) < old(rows)@.len()
        },
        forall|z: T, n: T| #[trigger] call_requires(mix, (z, n)),
    ensures
        fills(*sg, latents@, draws@, old(rows)@, final(rows)@, mix),
{
    if sg.audio {
        sampler::audio_tensor_to_rows(latents, rows, sg.audio_t as usize);
    } else {
        noise::augment_ref(
            latents,
            draws,
            rows,
            sg.latent_t as usize,
            sg.lat_h as usize,
            sg.lat_w as usize,
            mix,
        );
    }
}

/// A sound's segment holds the sound as it is: channel `k` of step `t` of side `c` stands in that step's row, and what
/// lies past the sound is left.
pub proof fn law_a_sound_fills_its_rows_unmixed<T, F: Fn(T, T) -> T>(
    sg: layout::RefSeg,
    latents: Seq<T>,
    draws: Seq<T>,
    before: Seq<T>,
    after: Seq<T>,
    mix: F,
    c: int,
    k: int,
    t: int,
    past: int,
)
    requires
        fills(sg, latents, draws, before, after, mix),
        sg.audio,
        0 <= c < 2,
        0 <= k < 32,
        0 <= t < sg.audio_t,
        2 * sg.audio_t * 32 <= before.len(),
        2 * sg.audio_t * 32 <= past < before.len(),
    ensures
        after[(c * sg.audio_t + t) * 32 + k] == latents[(c * 32 + k) * sg.audio_t + t],
        after[past] == before[past],
{
    let a = sg.audio_t as int;
    sampler::law_a_sounds_step_is_one_row(c, k, t, a);
    assert(0 <= c * a + t < 2 * a) by (nonlinear_arith)
        requires
            0 <= c < 2,
            0 <= t < a,
    ;
    assert(0 <= (c * a + t) * 32 + k < 2 * a * 32);
    assert(after[(c * a + t) * 32 + k] == latents[sampler::audio_from((c * a + t) * 32 + k, a)]);
}

/// A picture's segment holds the picture mixed with its own draws: each latent with the draw at its own place, in the row
/// of its patch.
pub proof fn law_a_picture_fills_its_rows_mixed<T, F: Fn(T, T) -> T>(
    sg: layout::RefSeg,
    latents: Seq<T>,
    draws: Seq<T>,
    before: Seq<T>,
    after: Seq<T>,
    mix: F,
    c: int,
    f: int,
    v: int,
    u: int,
    dy: int,
    dx: int,
)
    requires
        fills(sg, latents, draws, before, after, mix),
        !sg.audio,
        sg.lat_h % 2 == 0,
        sg.lat_w % 2 == 0,
        draws.len() == 24 * sg.latent_t * sg.lat_h * sg.lat_w,
        0 <= c < 24,
        0 <= f < sg.latent_t,
        0 <= v < sg.lat_h / 2,
        0 <= u < sg.lat_w / 2,
        0 <= dy < 2,
        0 <= dx < 2,
    ensures
        ({
            let j = ((c * sg.latent_t + f) * sg.lat_h + (2 * v + dy)) * sg.lat_w + (2 * u + dx);
            let row = (f * (sg.lat_h as int / 2) + v) * (sg.lat_w as int / 2) + u;
            call_ensures(mix, (latents[j], draws[j]), after[96 * row + 4 * c + 2 * dy + dx])
        }),
{
    let (t, h, w) = (sg.latent_t as int, sg.lat_h as int, sg.lat_w as int);
    let (hh, ww) = (h / 2, w / 2);
    let n = draws.len() as int;
    let mixed = choose|mixed: Seq<T>|
        #![trigger noise::mixed_from(mixed, latents, draws, n, mix)]
        noise::mixed_from(mixed, latents, draws, n, mix) && sampler::patched(mixed, before, after, n, t, h, w);
    let j = ((c * t + f) * h + (2 * v + dy)) * w + (2 * u + dx);
    assert(h == 2 * hh && w == 2 * ww);
    sampler::law_a_patch_is_four_neighbours(c, f, v, u, dy, dx, t, hh, ww);
    assert(sampler::latent_len(t, h, w) == n);
    assert(0 <= j < n);
    sampler::law_patching_round_trips(mixed, before, after, t, h, w, j);
    assert(call_ensures(mix, (latents[j], draws[j]), mixed[j]));
}

/// The pictures shown stand in order: every keyframe's behind those of the keyframes before it, and every reference's
/// behind all the keyframes' and those of the references before it. None is shown that was not given.
pub proof fn law_pictures_stand_in_order<'a, T>(kfs: Seq<Keyframe<'a, T>>, refs: Seq<Reference<'a, T>>, i: int)
    requires
        0 <= i,
    ensures
        i < kfs.len() ==> match kfs[i].presented {
            Some(p) => {
                &&& pictures_of(kfs, refs)[pictures_of(kfs.take(i), Seq::empty()).len() as int] == p
                &&& pictures_of(kfs.take(i + 1), Seq::empty()).len() == pictures_of(kfs.take(i), Seq::empty()).len() + 1
            },
            None => pictures_of(kfs.take(i + 1), Seq::empty()) == pictures_of(kfs.take(i), Seq::empty()),
        },
        i < refs.len() ==> match refs[i] {
            Reference::Image { presented: Some(p), .. } => {
                &&& pictures_of(kfs, refs)[pictures_of(kfs, refs.take(i)).len() as int] == p
                &&& pictures_of(kfs, refs.take(i + 1)).len() == pictures_of(kfs, refs.take(i)).len() + 1
            },
            _ => pictures_of(kfs, refs.take(i + 1)) == pictures_of(kfs, refs.take(i)),
        },
        pictures_of(Seq::<Keyframe<'a, T>>::empty(), Seq::<Reference<'a, T>>::empty()).len() == 0,
{
    if i < kfs.len() {
        assert(kfs.take(i + 1).drop_last() =~= kfs.take(i));
        assert(kfs.take(i + 1).last() == kfs[i]);
        lemma_keyframes_shown_first(kfs, i + 1);
        assert(references_shown(Seq::<Reference<'a, T>>::empty()).len() == 0);
        assert(pictures_of(kfs.take(i + 1), Seq::empty()) =~= keyframes_shown(kfs.take(i + 1)));
        assert(pictures_of(kfs.take(i), Seq::empty()) =~= keyframes_shown(kfs.take(i)));
    }
    if i < refs.len() {
        assert(refs.take(i + 1).drop_last() =~= refs.take(i));
        assert(refs.take(i + 1).last() == refs[i]);
        lemma_references_shown_first(refs, i + 1);
        if refs[i].shown() is None {
            assert(pictures_of(kfs, refs.take(i + 1)) =~= pictures_of(kfs, refs.take(i)));
        }
    }
}

proof fn lemma_keyframes_shown_first<'a, T>(kfs: Seq<Keyframe<'a, T>>, n: int)
    requires
        0 <= n <= kfs.len(),
    ensures
        keyframes_shown(kfs.take(n)).len() <= keyframes_shown(kfs).len(),
        forall|k: int|
            0 <= k < keyframes_shown(kfs.take(n)).len() ==> #[trigger] keyframes_shown(kfs)[k] == keyframes_shown(
                kfs.take(n),
            )[k],
    decreases kfs.len(),
{
    if n < kfs.len() {
        assert(kfs.drop_last().take(n) =~= kfs.take(n));
        lemma_keyframes_shown_first(kfs.drop_last(), n);
        assert forall|k: int| 0 <= k < keyframes_shown(kfs.take(n)).len() implies #[trigger] keyframes_shown(kfs)[k]
            == keyframes_shown(kfs.take(n))[k] by {
            assert(keyframes_shown(kfs)[k] == keyframes_shown(kfs.drop_last())[k]);
        }
    } else {
        assert(kfs.take(n) =~= kfs);
    }
}

proof fn lemma_references_shown_first<'a, T>(refs: Seq<Reference<'a, T>>, n: int)
    requires
        0 <= n <= refs.len(),
    ensures
        references_shown(refs.take(n)).len() <= references_shown(refs).len(),
        forall|k: int|
            0 <= k < references_shown(refs.take(n)).len() ==> #[trigger] references_shown(refs)[k]
                == references_shown(refs.take(n))[k],
    decreases refs.len(),
{
    if n < refs.len() {
        assert(refs.drop_last().take(n) =~= refs.take(n));
        lemma_references_shown_first(refs.drop_last(), n);
        assert forall|k: int| 0 <= k < references_shown(refs.take(n)).len() implies #[trigger] references_shown(refs)[k]
            == references_shown(refs.take(n))[k] by {
            assert(references_shown(refs)[k] == references_shown(refs.drop_last())[k]);
        }
    } else {
        assert(refs.take(n) =~= refs);
    }
}

/// Whether a segment is a picture of this extent.
pub open spec fn pictures_as(sg: layout::RefSeg, frames: int, height: int, width: int) -> bool {
    &&& !sg.audio
    &&& sg.latent_t == frames as i32
    &&& sg.lat_h == height as i32
    &&& sg.lat_w == width as i32
}

/// Every segment's rows are written from the latents of the very reference or keyframe that it was packed for, in that
/// one's own extent: an image's one frame, a clip's picture or its sound, a sound's, a keyframe's frame on the canvas or
/// its sound.
pub proof fn law_a_segment_is_written_from_its_own_latents<'a, T>(
    n: int,
    h: int,
    w: int,
    refs: Seq<Reference<'a, T>>,
    kfs: Seq<Keyframe<'a, T>>,
    i: int,
)
    requires
        refs.len() <= usize::MAX,
        kfs.len() <= usize::MAX,
        0 <= i < layout::packed_segs(n, h, w, packed_refs(refs), packed_keyframes(kfs)).len(),
    ensures
        ({
            let sg = layout::packed_segs(n, h, w, packed_refs(refs), packed_keyframes(kfs))[i];
            let at = sg.index as int;
            let from = latents_of(sg, refs, kfs);
            if i < layout::all_keyframe_segs(packed_keyframes(kfs), n, h, w).len() {
                &&& at < kfs.len()
                &&& if sg.audio {
                    &&& kfs[at].audio matches Some((z, steps)) && from == Some(z) && sg.audio_t == steps as i32
                } else {
                    from == Some(kfs[at].latents) && pictures_as(sg, 1, h, w)
                }
            } else {
                &&& at < refs.len()
                &&& match refs[at] {
                    Reference::Image { latents, grid, .. } => from == Some(latents) && pictures_as(
                        sg,
                        1,
                        grid.height as int,
                        grid.width as int,
                    ),
                    Reference::Audio { latents, frames } => from == Some(latents) && sg.audio && sg.audio_t
                        == frames as i32,
                    Reference::Video { latents, grid, audio } => if sg.audio {
                        audio matches Some((z, steps)) && from == Some(z) && sg.audio_t == steps as i32
                    } else {
                        from == Some(latents) && pictures_as(
                            sg,
                            grid.frames as int,
                            grid.height as int,
                            grid.width as int,
                        )
                    },
                }
            }
        }),
{
    let (prefs, pkfs) = (packed_refs(refs), packed_keyframes(kfs));
    let heads = layout::all_keyframe_segs(pkfs, n, h, w);
    if i < heads.len() {
        lemma_keyframe_seg_of(pkfs, n, h, w, i);
    } else {
        let row0 = n + layout::keyframe_blocks(pkfs, h, w).len();
        lemma_ref_seg_of(prefs, row0, h, w, i - heads.len());
        let sg = layout::all_ref_segs(prefs, row0, h, w)[i - heads.len()];
        assert(prefs[sg.index as int] == packed_ref(refs[sg.index as int]));
    }
}

proof fn lemma_keyframe_seg_of(kfs: Seq<layout::Keyframe>, row0: int, h: int, w: int, i: int)
    requires
        kfs.len() <= usize::MAX,
        0 <= i < layout::all_keyframe_segs(kfs, row0, h, w).len(),
    ensures
        ({
            let sg = layout::all_keyframe_segs(kfs, row0, h, w)[i];
            &&& sg.index < kfs.len()
            &&& sg.kind == 3
            &&& if sg.audio {
                kfs[sg.index as int].has_audio && sg.audio_t == kfs[sg.index as int].audio_t
            } else {
                pictures_as(sg, 1, h, w)
            }
        }),
    decreases kfs.len(),
{
    let before = layout::all_keyframe_segs(kfs.drop_last(), row0, h, w);
    if i < before.len() {
        lemma_keyframe_seg_of(kfs.drop_last(), row0, h, w, i);
    }
}

proof fn lemma_ref_seg_of(refs: Seq<layout::Ref>, row0: int, h: int, w: int, i: int)
    requires
        refs.len() <= usize::MAX,
        0 <= i < layout::all_ref_segs(refs, row0, h, w).len(),
    ensures
        ({
            let sg = layout::all_ref_segs(refs, row0, h, w)[i];
            let rf = refs[sg.index as int];
            &&& sg.index < refs.len()
            &&& rf.kind == 0 || rf.kind == 2 ==> sg.kind == rf.kind
            &&& rf.kind != 0 && rf.kind != 2 ==> sg.kind == 1
            &&& if sg.audio {
                &&& sg.audio_t == rf.audio_t
                &&& rf.kind != 0
                &&& rf.kind == 2 ==> rf.has_audio
            } else {
                &&& rf.kind == 0 || rf.kind == 2
                &&& rf.kind == 0 ==> pictures_as(sg, 1, rf.lat_h as int, rf.lat_w as int)
                &&& rf.kind == 2 ==> pictures_as(sg, rf.latent_t as int, rf.lat_h as int, rf.lat_w as int)
            }
        }),
    decreases refs.len(),
{
    let before = layout::all_ref_segs(refs.drop_last(), row0, h, w);
    if i < before.len() {
        lemma_ref_seg_of(refs.drop_last(), row0, h, w, i);
    }
}

} // verus!
