//! Resident Euler latents: they stay on the device between steps.
use vstd::prelude::*;
use vstd::string::StringExecFns;

use crate::compile;
use crate::compile::{Cfg, Specialization, SpecializationView};
use crate::dispatch;
use crate::dispatch::{Launch, LaunchView};
use crate::error;
use crate::error::{Error, Result};
use crate::hrx;
use crate::hrx::{Buffer, BufferRef, Extent};
use crate::model::{AUDIO_CH, FINAL_N, VIDEO_PATCH};
use crate::text;

verus! {

#[derive(Debug)]
pub struct Euler {
    pub audio: Buffer,
    pub video: Buffer,
    pub audio_kernel: Specialization,
    pub video_kernel: Specialization,
    pub audio_rows: usize,
    pub video_rows: usize,
}

/// The kernel that advances one modality: `rows` of `channels`, read from the head's rows from
/// `row_offset` and its columns from `col_offset`.
pub open spec fn update_kernel(
    rows: int,
    channels: int,
    row_offset: int,
    col_offset: int,
    head_rows: int,
) -> SpecializationView {
    let ns = "h3.sampler_update_f32."@;
    SpecializationView {
        module: "sampler_update_f32"@,
        symbol: "h3_sampler_update_f32"@,
        config: seq![
            dispatch::count_of(ns, "count"@, rows * channels),
            dispatch::count_of(ns, "channels"@, channels),
            dispatch::count_of(ns, "row_offset"@, row_offset),
            dispatch::count_of(ns, "col_offset"@, col_offset),
            dispatch::count_of(ns, "head_rows"@, head_rows),
        ],
    }
}

fn update(
    rows: usize,
    channels: usize,
    row_offset: usize,
    col_offset: usize,
    head_rows: usize,
) -> (kernel: Specialization)
    requires
        rows * channels <= usize::MAX,
    ensures
        kernel@ == update_kernel(
            rows as int,
            channels as int,
            row_offset as int,
            col_offset as int,
            head_rows as int,
        ),
{
    assert(rows * channels >= 0) by (nonlinear_arith);
    let ns: &str = "h3.sampler_update_f32.";
    let mut cfg: Cfg = Vec::new();
    compile::set_count(&mut cfg, ns, "count", rows * channels);
    compile::set_count(&mut cfg, ns, "channels", channels);
    compile::set_count(&mut cfg, ns, "row_offset", row_offset);
    compile::set_count(&mut cfg, ns, "col_offset", col_offset);
    compile::set_count(&mut cfg, ns, "head_rows", head_rows);
    let kernel = Specialization {
        module: String::from_str("sampler_update_f32"),
        symbol: String::from_str("h3_sampler_update_f32"),
        config: cfg,
    };
    assert(kernel@.config =~= update_kernel(
        rows as int,
        channels as int,
        row_offset as int,
        col_offset as int,
        head_rows as int,
    ).config);
    kernel
}

/// One step's scalars of one modality: its sigma, and the ratio of the next to it, as the bits of singles.
#[derive(Clone, Copy, Debug, PartialEq, Eq, Structural)]
pub struct Ratio {
    pub sigma: u32,
    pub ratio: u32,
}

impl Euler {
    /// The latents are whole, and the head's rows can be counted.
    pub open spec fn wf(&self) -> bool {
        &&& self.audio_rows > 0
        &&& self.video_rows > 0
        &&& self.audio.size() == self.audio_rows * AUDIO_CH * 4
        &&& self.video.size() == self.video_rows * VIDEO_PATCH * 4
        &&& (self.audio_rows + self.video_rows) * FINAL_N * 4 <= usize::MAX
        &&& self.audio_kernel@ == update_kernel(
            self.audio_rows as int,
            AUDIO_CH as int,
            0,
            VIDEO_PATCH as int,
            self.audio_rows + self.video_rows,
        )
        &&& self.video_kernel@ == update_kernel(
            self.video_rows as int,
            VIDEO_PATCH as int,
            self.audio_rows as int,
            0,
            self.audio_rows + self.video_rows,
        )
    }

    pub fn matches(&self, audio_rows: usize, video_rows: usize) -> (same: bool)
        ensures
            same == (self.audio_rows == audio_rows && self.video_rows == video_rows),
    {
        self.audio_rows == audio_rows && self.video_rows == video_rows
    }

    /// The bytes to allocate for the two latents.
    pub fn sizes(audio_rows: usize, video_rows: usize) -> (result: Result<(usize, usize)>)
        requires
            (audio_rows + video_rows) * FINAL_N * 4 <= usize::MAX,
        ensures
            if audio_rows == 0 || video_rows == 0 {
                result matches Err(e) && error::blames(e, "Euler requires audio and video rows"@)
            } else {
                result == Ok::<(usize, usize), Error>(
                    (
                        (audio_rows * AUDIO_CH * 4) as usize,
                        (video_rows * VIDEO_PATCH * 4) as usize,
                    ),
                )
            },
    {
        if audio_rows == 0 || video_rows == 0 {
            return Err(Error::Invalid(String::from_str("Euler requires audio and video rows")));
        }
        Ok((audio_rows * AUDIO_CH * 4, video_rows * VIDEO_PATCH * 4))
    }

    /// The sampler, on the two allocations [`Euler::sizes`] asks for.
    pub fn new(audio_rows: usize, video_rows: usize, audio: Buffer, video: Buffer) -> (result: Result<
        Self,
    >)
        requires
            (audio_rows + video_rows) * FINAL_N * 4 <= usize::MAX,
            audio.size() == hrx::allocated(audio_rows * AUDIO_CH * 4),
            video.size() == hrx::allocated(video_rows * VIDEO_PATCH * 4),
        ensures
            if audio_rows == 0 || video_rows == 0 {
                result matches Err(e) && error::blames(e, "Euler requires audio and video rows"@)
            } else {
                &&& result matches Ok(euler)
                &&& euler.wf()
                &&& euler.audio == audio
                &&& euler.video == video
                &&& euler.audio_rows == audio_rows
                &&& euler.video_rows == video_rows
            },
    {
        if audio_rows == 0 || video_rows == 0 {
            return Err(Error::Invalid(String::from_str("Euler requires audio and video rows")));
        }
        let head: usize = audio_rows + video_rows;
        Ok(
            Euler {
                audio_kernel: update(audio_rows, AUDIO_CH, 0, VIDEO_PATCH, head),
                video_kernel: update(video_rows, VIDEO_PATCH, audio_rows, 0, head),
                audio,
                video,
                audio_rows,
                video_rows,
            },
        )
    }

    /// Where host latents of so many elements go up to, or come down from.
    pub fn transfer(&self, audio: usize, video: usize) -> (result: Result<(BufferRef, BufferRef)>)
        requires
            self.wf(),
        ensures
            if audio != self.audio_rows * AUDIO_CH || video != self.video_rows * VIDEO_PATCH {
                result matches Err(e) && error::blames(e, "Euler latent shape mismatch"@)
            } else {
                result == Ok::<(BufferRef, BufferRef), Error>(
                    (self.audio.whole(), self.video.whole()),
                )
            },
    {
        if audio != self.audio_rows * AUDIO_CH || video != self.video_rows * VIDEO_PATCH {
            return Err(Error::Invalid(String::from_str("Euler latent shape mismatch")));
        }
        Ok((self.audio.binding(), self.video.binding()))
    }

    /// The launch that advances one modality.
    pub open spec fn advances(
        kernel: SpecializationView,
        latent: Buffer,
        head: BufferRef,
        by: Ratio,
    ) -> LaunchView {
        LaunchView {
            kernel,
            stage: "euler"@,
            grid: dispatch::line(dispatch::steps(latent.size() as int / 4, 256) as u32),
            block: dispatch::line(256),
            scalars: seq![by.sigma, by.ratio],
            bindings: seq![latent.whole(), head],
        }
    }

    fn advance<'a>(kernel: &'a Specialization, latent: &Buffer, head: BufferRef, by: Ratio) -> (launch:
        Launch<'a>)
        ensures
            launch@ == Self::advances(kernel@, *latent, head, by),
    {
        let mut scalars: Vec<u32> = Vec::new();
        scalars.push(by.sigma);
        scalars.push(by.ratio);
        let mut bindings: Vec<BufferRef> = Vec::new();
        bindings.push(latent.binding());
        bindings.push(head);
        assert(scalars@ =~= seq![by.sigma, by.ratio]);
        assert(bindings@ =~= seq![latent.whole(), head]);
        Launch {
            kernel,
            stage: "euler",
            grid: Extent { x: dispatch::steps_of(latent.bytes() / 4, 256) as u32, y: 1, z: 1 },
            block: Extent { x: 256, y: 1, z: 1 },
            scalars,
            bindings,
        }
    }

    /// The audio's launch of a step, and the video's.
    pub open spec fn step_of(&self, head: BufferRef, audio: Ratio, video: Ratio) -> (LaunchView, LaunchView) {
        (
            Self::advances(self.audio_kernel@, self.audio, head, audio),
            Self::advances(self.video_kernel@, self.video, head, video),
        )
    }

    /// One step: the audio's launch, then the video's.
    pub fn step<'a>(&'a self, head: BufferRef, audio: Ratio, video: Ratio) -> (result: Result<
        (Launch<'a>, Launch<'a>),
    >)
        requires
            self.wf(),
        ensures
            if head.length < (self.audio_rows + self.video_rows) * FINAL_N * 4 {
                result matches Err(e) && error::blames(e, "Euler head output is too short"@)
            } else {
                &&& result matches Ok((a, v))
                &&& (a@, v@) == self.step_of(head, audio, video)
            },
    {
        if head.length < (self.audio_rows + self.video_rows) * FINAL_N * 4 {
            return Err(Error::Invalid(String::from_str("Euler head output is too short")));
        }
        Ok(
            (
                Self::advance(&self.audio_kernel, &self.audio, head, audio),
                Self::advance(&self.video_kernel, &self.video, head, video),
            ),
        )
    }
}

/// Where the element `i` of the video's rows stands in the head's output: its rows are behind the audio's,
/// its columns in front.
pub open spec fn video_in_head(i: int, audio_rows: int) -> int {
    (audio_rows + i / VIDEO_PATCH as int) * FINAL_N + i % VIDEO_PATCH as int
}

/// Where the element `i` of the audio's rows stands in the head's output.
pub open spec fn audio_in_head(i: int) -> int {
    i / AUDIO_CH as int * FINAL_N + VIDEO_PATCH + i % AUDIO_CH as int
}

/// Whether these are the two modalities' numbers out of the head's output.
pub open spec fn are_split<T>(head: Seq<T>, audio_rows: int, audio: Seq<T>, video: Seq<T>) -> bool {
    &&& forall|i: int| 0 <= i < audio.len() ==> #[trigger] audio[i] == head[audio_in_head(i)]
    &&& forall|i: int| 0 <= i < video.len() ==> #[trigger] video[i] == head[video_in_head(i, audio_rows)]
}

/// Reads the two modalities out of the head's output.
pub fn split_head<T: Copy>(head: &[T], audio_rows: usize, audio: &mut [T], video: &mut [T])
    requires
        old(audio)@.len() == audio_rows * AUDIO_CH,
        old(video)@.len() % VIDEO_PATCH as nat == 0,
        (audio_rows + old(video)@.len() as int / VIDEO_PATCH as int) * FINAL_N <= head@.len(),
    ensures
        final(audio)@.len() == old(audio)@.len(),
        final(video)@.len() == old(video)@.len(),
        are_split(head@, audio_rows as int, final(audio)@, final(video)@),
{
    assert(head@.len() == head.len());
    let mut i: usize = 0;
    let (na, nv): (usize, usize) = (audio.len(), video.len());
    while i < nv
        invariant
            i <= nv,
            nv == video@.len(),
            nv == old(video)@.len(),
            nv % VIDEO_PATCH == 0,
            (audio_rows + nv as int / VIDEO_PATCH as int) * FINAL_N <= head@.len() <= usize::MAX,
            forall|k: int|
                0 <= k < i ==> #[trigger] video@[k] == head@[video_in_head(k, audio_rows as int)],
        decreases nv - i,
    {
        video[i] = head[(audio_rows + i / VIDEO_PATCH) * FINAL_N + i % VIDEO_PATCH];
        i += 1;
    }
    let mut i: usize = 0;
    while i < na
        invariant
            i <= na,
            na == audio@.len(),
            na == old(audio)@.len(),
            na == audio_rows * AUDIO_CH,
            audio_rows * FINAL_N <= head@.len() <= usize::MAX,
            forall|k: int| 0 <= k < i ==> #[trigger] audio@[k] == head@[audio_in_head(k)],
        decreases na - i,
    {
        audio[i] = head[i / AUDIO_CH * FINAL_N + VIDEO_PATCH + i % AUDIO_CH];
        i += 1;
    }
}

/// The two modalities never read one place of the head: whatever the extents, an audio element and a video
/// element stand apart, and both stand inside it.
pub proof fn law_modalities_stand_apart(audio_rows: int, video_rows: int, i: int, j: int)
    requires
        0 <= i < audio_rows * AUDIO_CH,
        0 <= j < video_rows * VIDEO_PATCH,
    ensures
        0 <= audio_in_head(i) < (audio_rows + video_rows) * FINAL_N,
        0 <= video_in_head(j, audio_rows) < (audio_rows + video_rows) * FINAL_N,
        audio_in_head(i) != video_in_head(j, audio_rows),
{
}

/// The rows of the head are 128 wide, the audio's first. Channel `k` of an audio row stands behind the 96 columns that are
/// the video's, and number `c` of a video row at the head of its row, behind every audio row.
pub proof fn law_a_modality_reads_its_own_columns(audio_rows: nat, r: int, k: int, c: int)
    requires
        0 <= r,
        0 <= k < 32,
        0 <= c < 96,
    ensures
        audio_in_head(32 * r + k) == 128 * r + 96 + k,
        video_in_head(96 * r + c, audio_rows as int) == 128 * (audio_rows + r) + c,
{
    assert((32 * r + k) / 32 == r && (32 * r + k) % 32 == k);
    assert((96 * r + c) / 96 == r && (96 * r + c) % 96 == c);
}

/// A step advances each modality's latent, by its own sigma and ratio, with a kernel that reads the head where the host
/// reads that modality: the audio from the first row and column 96 on, 32 to a row; the video from the row behind the
/// audio's and the first column on, 96 to a row.
pub proof fn law_a_step_advances_each_modality_by_itself(euler: Euler, head: BufferRef, audio: Ratio, video: Ratio)
    requires
        euler.wf(),
    ensures
        ({
            let (a, v) = euler.step_of(head, audio, video);
            let ns = "h3.sampler_update_f32."@;
            let rows = text::decimal((euler.audio_rows + euler.video_rows) as nat);
            &&& a.scalars == seq![audio.sigma, audio.ratio]
            &&& v.scalars == seq![video.sigma, video.ratio]
            &&& a.bindings == seq![euler.audio.whole(), head]
            &&& v.bindings == seq![euler.video.whole(), head]
            &&& a.kernel.symbol == "h3_sampler_update_f32"@ && v.kernel.symbol == "h3_sampler_update_f32"@
            &&& a.kernel.config == seq![
                (ns + "count"@, text::decimal((euler.audio_rows * 32) as nat)),
                (ns + "channels"@, text::decimal(32)),
                (ns + "row_offset"@, text::decimal(0)),
                (ns + "col_offset"@, text::decimal(96)),
                (ns + "head_rows"@, rows),
            ]
            &&& v.kernel.config == seq![
                (ns + "count"@, text::decimal((euler.video_rows * 96) as nat)),
                (ns + "channels"@, text::decimal(96)),
                (ns + "row_offset"@, text::decimal(euler.audio_rows as nat)),
                (ns + "col_offset"@, text::decimal(0)),
                (ns + "head_rows"@, rows),
            ]
            &&& a.grid.x * 256 >= euler.audio_rows * 32 || euler.audio_rows * 32 > 256 * u32::MAX
            &&& v.grid.x * 256 >= euler.video_rows * 96 || euler.video_rows * 96 > 256 * u32::MAX
        }),
{
    let (a, v) = euler.step_of(head, audio, video);
    let ns = "h3.sampler_update_f32."@;
    assert(euler.audio.size() as int / 4 == euler.audio_rows * 32);
    assert(euler.video.size() as int / 4 == euler.video_rows * 96);
}

/// The audio's numbers are the last 32 of each of the first rows of the head, the video's the first 96 of each row behind
/// those.
pub proof fn law_the_head_splits_into_its_columns<T>(
    head: Seq<T>,
    audio_rows: nat,
    audio: Seq<T>,
    video: Seq<T>,
    r: int,
    k: int,
    c: int,
)
    requires
        are_split(head, audio_rows as int, audio, video),
        0 <= r,
        0 <= k < 32,
        0 <= c < 96,
    ensures
        32 * r + k < audio.len() ==> audio[32 * r + k] == head[128 * r + 96 + k],
        96 * r + c < video.len() ==> video[96 * r + c] == head[128 * (audio_rows + r) + c],
{
    law_a_modality_reads_its_own_columns(audio_rows, r, k, c);
}

} // verus!
