//! The whole clip: its latents in temporal chunks, each decoded on its own, cross-faded where they overlap and
//! written out as bytes.
use vstd::prelude::*;

use crate::error;
use crate::error::{Error, Result};
use crate::layout;
use crate::model::{LATENT_CH, VAE_CHUNK, VAE_OVERLAP, VAE_PS, VAE_TRATIO};
use crate::radix;
use crate::text;
use crate::tiles;
use crate::vvae::frames;
use crate::vvae::Grid;

verus! {

/// How a clip is cut into chunks.
#[derive(Clone, Copy, Debug)]
pub struct ChunkPlan {
    /// latent frames after padding
    pub padded_tokens: usize,
    pub chunks: usize,
    /// decoded frames a chunk advances by
    pub chunk_frames: usize,
    /// decoded frames dropped in front of each half of a chunk
    pub pre: usize,
    /// decoded frames two chunks may fade over
    pub overlap_frames: usize,
    /// decoded frames the padding accounts for
    pub pad_frames: usize,
}

pub open spec fn least(a: int, b: int) -> int {
    if a < b {
        a
    } else {
        b
    }
}

impl ChunkPlan {
    /// The latent frames of a chunk.
    pub open spec fn tokens_at(self, i: int) -> int {
        least(VAE_CHUNK + VAE_OVERLAP, self.padded_tokens - i * VAE_CHUNK)
    }

    /// The frames a chunk decodes to.
    pub open spec fn frames_at(self, i: int) -> int {
        self.tokens_at(i) * VAE_TRATIO
    }

    /// Where a chunk's first or second half begins among its frames.
    pub open spec fn half_start(self, j: int) -> int {
        j * self.chunk_frames + self.pre
    }

    /// How many frames a half of a chunk has: the first is shown, the second is what the next one fades from.
    pub open spec fn half_len(self, i: int, j: int) -> int {
        let n = least((j + 1) * self.chunk_frames, self.frames_at(i)) - self.half_start(j);
        if n > 0 {
            n
        } else {
            0
        }
    }

    /// How many frames the first `n` chunks show.
    pub open spec fn frames_shown(self, n: int) -> int
        decreases n,
    {
        if n <= 0 {
            0
        } else {
            self.frames_shown(n - 1) + self.half_len(n - 1, 0)
        }
    }

    /// How many frames the clip decodes to: what the chunks show, and what the last one carries over.
    pub open spec fn total(self) -> int {
        self.frames_shown(self.chunks as int) + if self.chunks > 0 {
            self.half_len(self.chunks - 1, 1)
        } else {
            0
        }
    }

    /// Whether every chunk begins inside the clip, and the counts fit.
    pub open spec fn wf(self) -> bool {
        &&& self.chunks > 0 ==> (self.chunks - 1) * VAE_CHUNK <= self.padded_tokens
        &&& self.chunks * VAE_CHUNK <= usize::MAX
        &&& 2 * self.chunk_frames <= usize::MAX
        &&& self.chunk_frames + self.pre <= usize::MAX
        &&& self.pad_frames <= self.total() <= usize::MAX
    }
}

/// The grid of a chunk.
pub open spec fn chunk_grid(plan: ChunkPlan, h: usize, w: usize, i: int) -> Grid {
    Grid { ft: plan.tokens_at(i) as usize, h, w }
}

// The latents.

pub open spec fn undone<T, U: Fn(T, usize) -> T>(undo: U, v: T, ch: int) -> T {
    undo_of(undo, v, ch as usize)
}

pub open spec fn undo_of<T, U: Fn(T, usize) -> T>(undo: U, v: T, ch: usize) -> T {
    choose|r: T| call_ensures(undo, (v, ch), r)
}

/// Whether an operation on a number of a channel is a function.
pub open spec fn per_channel<T, R, U: Fn(T, usize) -> R>(undo: U, channels: int) -> bool {
    &&& forall|v: T, ch: usize| ch < channels ==> #[trigger] call_requires(undo, (v, ch))
    &&& forall|v: T, ch: usize, r: R, s: R| #[trigger]
        call_ensures(undo, (v, ch), r) && #[trigger] call_ensures(undo, (v, ch), s) ==> r == s
}

/// The latents with their normalisation undone, `[24][tp][area]` out of `[24][t][area]`: the padding repeats
/// the last latent frame.
pub open spec fn padded<T, U: Fn(T, usize) -> T>(
    undo: U,
    latents: Seq<T>,
    t: int,
    tp: int,
    area: int,
) -> Seq<T> {
    Seq::new(
        (LATENT_CH * tp * area) as nat,
        |d: int|
            {
                let (ch, f, i) = (d / area / tp, d / area % tp, d % area);
                undone(undo, latents[(ch * t + least(f, t - 1)) * area + i], ch)
            },
    )
}

fn pad<T: Copy, U: Fn(T, usize) -> T>(undo: &U, latents: &[T], t: usize, tp: usize, area: usize) -> (zp:
    Vec<T>)
    requires
        t >= 1,
        area >= 1,
        per_channel(*undo, LATENT_CH as int),
        LATENT_CH * t * area <= latents@.len(),
        LATENT_CH * tp * area <= usize::MAX,
        LATENT_CH * tp <= usize::MAX,
    ensures
        zp@ == padded(*undo, latents@, t as int, tp as int, area as int),
{
    let mut zp: Vec<T> = Vec::new();
    let total: usize = LATENT_CH * tp * area;
    let ghost want = padded(*undo, latents@, t as int, tp as int, area as int);
    assert(latents@.len() == latents.len());
    let mut d: usize = 0;
    while d < total
        invariant
            d <= total == LATENT_CH * tp * area,
            t >= 1,
            area >= 1,
            per_channel(*undo, LATENT_CH as int),
            LATENT_CH * t * area <= latents@.len() <= usize::MAX,
            want == padded(*undo, latents@, t as int, tp as int, area as int),
            zp@.len() == d,
            forall|k: int| 0 <= k < d ==> #[trigger] zp@[k] == want[k],
        decreases total - d,
    {
        proof {
            radix::lemma_unflat2(d as int, LATENT_CH * tp, area as int);
            radix::lemma_unflat2(d as int / area as int, LATENT_CH as int, tp as int);
        }
        let ch: usize = d / area / tp;
        let f: usize = d / area % tp;
        let i: usize = d % area;
        let last: usize = if f < t - 1 {
            f
        } else {
            t - 1
        };
        proof {
            radix::lemma_flat2(ch as int, last as int, LATENT_CH as int, t as int);
            radix::lemma_flat2(ch * t + last, i as int, LATENT_CH * t, area as int);
            assert(ch * t + last <= (ch * t + last) * area) by (nonlinear_arith)
                requires
                    ch * t + last >= 0,
                    area >= 1,
            ;
        }
        let v = undo(latents[(ch * t + last) * area + i], ch);
        assert(v == want[d as int]);
        zp.push(v);
        d += 1;
    }
    assert(zp@ =~= want);
    zp
}

/// A chunk's latents: `ft` frames from `start`, out of `[24][tp][area]`.
pub open spec fn chunk_latents<T>(zp: Seq<T>, tp: int, area: int, start: int, ft: int) -> Seq<T> {
    Seq::new(
        (LATENT_CH * ft * area) as nat,
        |d: int| zp[(d / (ft * area) * tp + start) * area + d % (ft * area)],
    )
}

fn cut<T: Copy>(zp: &Vec<T>, tp: usize, area: usize, start: usize, ft: usize) -> (z: Vec<T>)
    requires
        area >= 1,
        start + ft <= tp,
        zp@.len() == LATENT_CH * tp * area,
    ensures
        z@ == chunk_latents(zp@, tp as int, area as int, start as int, ft as int),
{
    let mut z: Vec<T> = Vec::new();
    let ghost want = chunk_latents(zp@, tp as int, area as int, start as int, ft as int);
    assert(zp@.len() == zp.len());
    assert(0 <= ft * area <= tp * area && 0 <= LATENT_CH * ft * area <= LATENT_CH * tp * area && tp
        * area <= LATENT_CH * tp * area) by (nonlinear_arith)
        requires
            0 <= ft <= tp,
            area >= 1,
            LATENT_CH == 24,
    ;
    let size: usize = ft * area;
    assert(LATENT_CH * ft * area == LATENT_CH * size) by (nonlinear_arith)
        requires
            size == ft * area,
    ;
    let mut ch: usize = 0;
    assert(0 * size == 0);
    while ch < LATENT_CH
        invariant
            ch <= LATENT_CH,
            area >= 1,
            start + ft <= tp,
            zp@.len() == LATENT_CH * tp * area,
            zp@.len() <= usize::MAX,
            size == ft * area,
            want == chunk_latents(zp@, tp as int, area as int, start as int, ft as int),
            want.len() == LATENT_CH * size,
            z@.len() == ch * size,
            forall|d: int| 0 <= d < z@.len() ==> #[trigger] z@[d] == want[d],
        decreases LATENT_CH - ch,
    {
        let mut k: usize = 0;
        assert((ch + 1) * size == ch * size + size) by (nonlinear_arith);
        assert((ch + 1) * size <= LATENT_CH * size) by (nonlinear_arith)
            requires
                ch + 1 <= LATENT_CH,
                size >= 0,
        ;
        while k < size
            invariant
                ch < LATENT_CH,
                k <= size,
                area >= 1,
                start + ft <= tp,
                zp@.len() == LATENT_CH * tp * area,
                zp@.len() <= usize::MAX,
                size == ft * area,
                want == chunk_latents(zp@, tp as int, area as int, start as int, ft as int),
                want.len() == LATENT_CH * size,
                ch * size + size <= LATENT_CH * size,
                z@.len() == ch * size + k,
                forall|d: int| 0 <= d < z@.len() ==> #[trigger] z@[d] == want[d],
            decreases size - k,
        {
            let ghost d: int = ch * size + k;
            proof {
                radix::lemma_flat2(ch as int, k as int, LATENT_CH as int, size as int);
                lemma_cut_inside(ch as int, k as int, start as int, ft as int, tp as int, area as int);
            }
            let v = zp[(ch * tp + start) * area + k];
            assert(v == want[d]);
            z.push(v);
            k += 1;
        }
        ch += 1;
    }
    assert(z@ =~= want);
    z
}

proof fn lemma_cut_inside(ch: int, k: int, start: int, ft: int, tp: int, area: int)
    requires
        0 <= ch < LATENT_CH,
        0 <= k < ft * area,
        0 <= start,
        0 <= ft,
        start + ft <= tp,
        area >= 1,
    ensures
        0 <= ch * tp,
        0 <= ch * tp + start <= (ch * tp + start) * area,
        0 <= (ch * tp + start) * area + k < LATENT_CH * tp * area,
{
    let row = ch * tp + start;
    assert(0 <= ch * tp) by (nonlinear_arith)
        requires
            0 <= ch,
            0 <= tp,
    ;
    assert(row <= row * area) by (nonlinear_arith)
        requires
            0 <= row,
            area >= 1,
    ;
    assert(row + ft <= LATENT_CH * tp) by (nonlinear_arith)
        requires
            row == ch * tp + start,
            start + ft <= tp,
            0 <= ch < LATENT_CH,
            LATENT_CH == 24,
            0 <= tp,
    ;
    assert((row + ft) * area <= LATENT_CH * tp * area) by (nonlinear_arith)
        requires
            row + ft <= LATENT_CH * tp,
            area >= 1,
    ;
    assert((row + ft) * area == row * area + ft * area) by (nonlinear_arith);
}


// The frames.

/// Frames `f0` up to `f0 + nf` of a clip of `[3][total][plane]`.
pub open spec fn taken<T>(clip: Seq<T>, total: int, f0: int, nf: int, plane: int) -> Seq<T> {
    Seq::new(
        (3 * nf * plane) as nat,
        |d: int| clip[(d / (nf * plane) * total + f0) * plane + d % (nf * plane)],
    )
}

fn take<T: Copy>(clip: &Vec<T>, total: usize, f0: usize, nf: usize, plane: usize) -> (chunk: Vec<T>)
    requires
        plane >= 1,
        f0 + nf <= total,
        clip@.len() == 3 * total * plane,
    ensures
        chunk@ == taken(clip@, total as int, f0 as int, nf as int, plane as int),
        chunk@.len() == 3 * nf * plane,
{
    let mut chunk: Vec<T> = Vec::new();
    let ghost want = taken(clip@, total as int, f0 as int, nf as int, plane as int);
    assert(clip@.len() == clip.len());
    assert(0 <= nf * plane <= total * plane && 0 <= 3 * nf * plane <= 3 * total * plane && total
        * plane <= 3 * total * plane) by (nonlinear_arith)
        requires
            0 <= nf <= total,
            plane >= 1,
    ;
    let size: usize = nf * plane;
    assert(3 * nf * plane == 3 * size) by (nonlinear_arith)
        requires
            size == nf * plane,
    ;
    let mut ch: usize = 0;
    assert(0 * size == 0);
    while ch < 3
        invariant
            ch <= 3,
            plane >= 1,
            f0 + nf <= total,
            clip@.len() == 3 * total * plane,
            clip@.len() <= usize::MAX,
            size == nf * plane,
            want == taken(clip@, total as int, f0 as int, nf as int, plane as int),
            want.len() == 3 * size,
            chunk@.len() == ch * size,
            forall|d: int| 0 <= d < chunk@.len() ==> #[trigger] chunk@[d] == want[d],
        decreases 3 - ch,
    {
        let mut k: usize = 0;
        assert((ch + 1) * size == ch * size + size) by (nonlinear_arith);
        assert((ch + 1) * size <= 3 * size) by (nonlinear_arith)
            requires
                ch + 1 <= 3,
                size >= 0,
        ;
        while k < size
            invariant
                ch < 3,
                k <= size,
                plane >= 1,
                f0 + nf <= total,
                clip@.len() == 3 * total * plane,
                clip@.len() <= usize::MAX,
                size == nf * plane,
                want == taken(clip@, total as int, f0 as int, nf as int, plane as int),
                want.len() == 3 * size,
                ch * size + size <= 3 * size,
                chunk@.len() == ch * size + k,
                forall|d: int| 0 <= d < chunk@.len() ==> #[trigger] chunk@[d] == want[d],
            decreases size - k,
        {
            let ghost d: int = ch * size + k;
            proof {
                radix::lemma_flat2(ch as int, k as int, 3, size as int);
                lemma_take_inside(
                    ch as int,
                    k as int,
                    f0 as int,
                    nf as int,
                    total as int,
                    plane as int,
                );
            }
            let v = clip[(ch * total + f0) * plane + k];
            assert(v == want[d]);
            chunk.push(v);
            k += 1;
        }
        ch += 1;
    }
    assert(chunk@ =~= want);
    chunk
}

proof fn lemma_take_inside(ch: int, k: int, f0: int, nf: int, total: int, plane: int)
    requires
        0 <= ch < 3,
        0 <= k < nf * plane,
        0 <= f0,
        0 <= nf,
        f0 + nf <= total,
        plane >= 1,
    ensures
        0 <= ch * total,
        0 <= ch * total + f0 <= (ch * total + f0) * plane,
        0 <= (ch * total + f0) * plane + k < 3 * total * plane,
{
    let row = ch * total + f0;
    assert(0 <= ch * total) by (nonlinear_arith)
        requires
            0 <= ch,
            0 <= total,
    ;
    assert(row <= row * plane) by (nonlinear_arith)
        requires
            0 <= row,
            plane >= 1,
    ;
    assert(row + nf <= 3 * total) by (nonlinear_arith)
        requires
            row == ch * total + f0,
            f0 + nf <= total,
            0 <= ch < 3,
            0 <= total,
    ;
    assert((row + nf) * plane <= 3 * total * plane) by (nonlinear_arith)
        requires
            row + nf <= 3 * total,
            plane >= 1,
    ;
    assert((row + nf) * plane == row * plane + nf * plane) by (nonlinear_arith);
}

/// A chunk after its head was faded from the last frames of what the chunk before it carried over.
pub open spec fn faded<T, X: Fn(T, T, usize, usize) -> T>(
    fade: X,
    chunk: Seq<T>,
    nf: int,
    overlap: Seq<T>,
    plane: int,
    asked: int,
) -> Seq<T> {
    let ov = tiles::frames_in(overlap.len() as int, plane);
    let be = tiles::fade_frames(overlap.len() as int, plane, nf, asked);
    Seq::new(
        chunk.len(),
        |i: int|
            {
                let k = i / plane % nf;
                if k < be {
                    frames::mixed(
                        fade,
                        overlap[tiles::tail(i, plane, nf, ov, be)],
                        chunk[i],
                        k,
                        be,
                    )
                } else {
                    chunk[i]
                }
            },
    )
}

fn fade_in<T: Copy, X: Fn(T, T, usize, usize) -> T>(
    chunk: &mut Vec<T>,
    nf: usize,
    overlap: &Vec<T>,
    plane: usize,
    asked: usize,
    fade: &X,
)
    requires
        frames::mixes(*fade),
        plane >= 1,
        3 * plane <= usize::MAX,
        old(chunk)@.len() == 3 * nf * plane,
    ensures
        final(chunk)@ == faded(
            *fade,
            old(chunk)@,
            nf as int,
            overlap@,
            plane as int,
            asked as int,
        ),
{
    let ghost before = chunk@;
    assert((3 * nf) * plane == 3 * nf * plane);
    tiles::crossfade(chunk.as_mut_slice(), nf, overlap.as_slice(), plane, asked, fade);
    assert(chunk@ =~= faded(*fade, before, nf as int, overlap@, plane as int, asked as int));
}

/// One frame of a chunk of `[3][nf][plane]`, as `[3][plane]`.
pub open spec fn frame_of<T>(chunk: Seq<T>, nf: int, plane: int, f: int) -> Seq<T> {
    Seq::new((3 * plane) as nat, |k: int| chunk[(k / plane * nf + f) * plane + k % plane])
}

/// The frames of a chunk of `[3][nf][plane]`.
pub open spec fn frames_of<T>(chunk: Seq<T>, nf: int, plane: int) -> Seq<Seq<T>> {
    Seq::new(nf as nat, |f: int| frame_of(chunk, nf, plane, f))
}

/// What a chunk carries over to the next: the frames of its second half, where it has any.
pub open spec fn carried<T>(plan: ChunkPlan, clips: Seq<Seq<T>>, plane: int, i: int) -> Option<Seq<T>> {
    if i > 0 && plan.half_len(i - 1, 1) > 0 {
        Some(
            taken(
                clips[i - 1],
                plan.frames_at(i - 1),
                plan.half_start(1),
                plan.half_len(i - 1, 1),
                plane,
            ),
        )
    } else {
        None
    }
}

/// What a chunk shows: the frames of its first half, faded from what was carried over to it.
pub open spec fn shows_of<T, X: Fn(T, T, usize, usize) -> T>(
    plan: ChunkPlan,
    fade: X,
    clips: Seq<Seq<T>>,
    plane: int,
    i: int,
) -> Seq<T> {
    let nf = plan.half_len(i, 0);
    let chunk = taken(clips[i], plan.frames_at(i), plan.half_start(0), nf, plane);
    match carried(plan, clips, plane, i) {
        Some(overlap) => faded(fade, chunk, nf, overlap, plane, plan.overlap_frames as int),
        None => chunk,
    }
}

/// The frames the first `n` chunks show, one after the other.
pub open spec fn reel<T, X: Fn(T, T, usize, usize) -> T>(
    plan: ChunkPlan,
    fade: X,
    clips: Seq<Seq<T>>,
    plane: int,
    n: int,
) -> Seq<Seq<T>>
    decreases n,
{
    if n <= 0 {
        Seq::empty()
    } else {
        reel(plan, fade, clips, plane, n - 1) + frames_of(
            shows_of(plan, fade, clips, plane, n - 1),
            plan.half_len(n - 1, 0),
            plane,
        )
    }
}

/// The frames of the whole clip: what the chunks show, then what the last of them carried over.
pub open spec fn film<T, X: Fn(T, T, usize, usize) -> T>(
    plan: ChunkPlan,
    fade: X,
    clips: Seq<Seq<T>>,
    plane: int,
) -> Seq<Seq<T>> {
    let n = plan.chunks as int;
    reel(plan, fade, clips, plane, n) + match carried(plan, clips, plane, n) {
        Some(overlap) => frames_of(overlap, plan.half_len(n - 1, 1), plane),
        None => Seq::empty(),
    }
}

pub open spec fn byte_of<T, N: Fn(T, usize) -> u8>(shade: N, v: T, ch: usize) -> u8 {
    choose|r: u8| call_ensures(shade, (v, ch), r)
}

/// Whether `out` holds frames as `[frame][plane][3]`, as many as were asked for, and is otherwise as it was.
pub open spec fn written<T, N: Fn(T, usize) -> u8>(
    out: Seq<u8>,
    before: Seq<u8>,
    film: Seq<Seq<T>>,
    want: int,
    plane: int,
    shade: N,
) -> bool {
    &&& out.len() == before.len()
    &&& forall|b: int|
        0 <= b < out.len() ==> #[trigger] out[b] == if b / 3 / plane < least(
            want,
            film.len() as int,
        ) {
            byte_of(
                shade,
                film[b / 3 / plane][b % 3 * plane + b / 3 % plane],
                (b % 3) as usize,
            )
        } else {
            before[b]
        }
}

/// Writes a chunk's frames behind those already written, as far as they were asked for.
fn append<T: Copy, N: Fn(T, usize) -> u8>(
    out: &mut [u8],
    decoded: usize,
    chunk: &Vec<T>,
    nf: usize,
    plane: usize,
    want: usize,
    shade: &N,
    before: Ghost<Seq<u8>>,
    film: Ghost<Seq<Seq<T>>>,
)
    requires
        plane >= 1,
        per_channel(*shade, 3),
        film@.len() == decoded,
        chunk@.len() == 3 * nf * plane,
        old(out)@.len() >= want * plane * 3,
        written(old(out)@, before@, film@, want as int, plane as int, *shade),
    ensures
        written(
            final(out)@,
            before@,
            film@ + frames_of(chunk@, nf as int, plane as int),
            want as int,
            plane as int,
            *shade,
        ),
{
    let ghost next = film@ + frames_of(chunk@, nf as int, plane as int);
    let ghost was = out@;
    let count: usize = if decoded < want {
        if nf < want - decoded {
            nf
        } else {
            want - decoded
        }
    } else {
        0
    };
    if count == 0 {
        assert(written(out@, before@, next, want as int, plane as int, *shade));
        return;
    }
    assert(out@.len() == out.len());
    assert(chunk@.len() == chunk.len());
    assert(0 <= decoded * plane <= (decoded + count) * plane <= want * plane && 0 <= decoded * plane
        * 3 <= (decoded + count) * plane * 3 <= want * plane * 3) by (nonlinear_arith)
        requires
            0 <= decoded,
            decoded + count <= want,
            plane >= 1,
    ;
    let first: usize = decoded * plane * 3;
    let end: usize = (decoded + count) * plane * 3;
    let mut b: usize = first;
    while b < end
        invariant
            first <= b <= end,
            first == decoded * plane * 3,
            end == (decoded + count) * plane * 3,
            end <= was.len(),
            plane >= 1,
            0 < count <= nf,
            decoded + count <= usize::MAX,
            per_channel(*shade, 3),
            film@.len() == decoded,
            chunk@.len() == 3 * nf * plane,
            chunk@.len() <= usize::MAX,
            next == film@ + frames_of(chunk@, nf as int, plane as int),
            out@.len() == was.len(),
            forall|k: int| 0 <= k < was.len() && !(first <= k < b) ==> #[trigger] out@[k] == was[k],
            forall|k: int|
                first <= k < b ==> #[trigger] out@[k] == byte_of(
                    *shade,
                    next[k / 3 / plane as int][k % 3 * plane + k / 3 % plane as int],
                    (k % 3) as usize,
                ),
        decreases end - b,
    {
        let ch: usize = b % 3;
        let q: usize = b / 3 % plane;
        let whole: usize = b / 3 / plane;
        proof {
            radix::lemma_below((b / 3) as int, decoded as int, plane as int);
            radix::lemma_below((b / 3) as int, decoded + count, plane as int);
            assert(b / 3 < (decoded + count) * plane);
            assert(b / 3 >= decoded * plane);
            radix::lemma_unflat2((b / 3) as int, decoded + count, plane as int);
        }
        let f: usize = whole - decoded;
        proof {
            radix::lemma_flat2(ch as int, f as int, 3, nf as int);
            radix::lemma_flat2(ch * nf + f, q as int, 3 * nf, plane as int);
            assert(ch * nf + f <= (ch * nf + f) * plane) by (nonlinear_arith)
                requires
                    ch * nf + f >= 0,
                    plane >= 1,
            ;
            radix::lemma_flat2(ch as int, q as int, 3, plane as int);
        }
        let v = shade(chunk[(ch * nf + f) * plane + q], ch);
        proof {
            let k = ch * plane + q;
            assert(next[whole as int] == frame_of(chunk@, nf as int, plane as int, f as int));
            assert(next[whole as int][k] == chunk@[(ch * nf + f) * plane + q]);
        }
        out[b] = v;
        b += 1;
    }
    proof {
        assert forall|k: int| 0 <= k < out@.len() implies #[trigger] out@[k] == if k / 3 / (
        plane as int) < least(want as int, next.len() as int) {
            byte_of(
                *shade,
                next[k / 3 / plane as int][k % 3 * plane + k / 3 % plane as int],
                (k % 3) as usize,
            )
        } else {
            before@[k]
        } by {
            let p = plane as int;
            radix::lemma_below(k / 3, decoded as int, p);
            radix::lemma_below(k / 3, decoded + count, p);
            assert(least(want as int, next.len() as int) == decoded + count);
            if first <= k < end {
            } else {
                assert(out@[k] == was[k]);
                if k / 3 / p < decoded {
                    assert(next[k / 3 / p] == film@[k / 3 / p]);
                }
            }
        }
    }
}


// The clip.

/// A clip decoded later does not change what was shown or carried over before it.
proof fn lemma_reel_keeps<T, X: Fn(T, T, usize, usize) -> T>(
    plan: ChunkPlan,
    fade: X,
    clips: Seq<Seq<T>>,
    clip: Seq<T>,
    plane: int,
    n: int,
)
    requires
        0 <= n <= clips.len(),
    ensures
        reel(plan, fade, clips.push(clip), plane, n) == reel(plan, fade, clips, plane, n),
        carried(plan, clips.push(clip), plane, n) == carried(plan, clips, plane, n),
    decreases n,
{
    if n > 0 {
        lemma_reel_keeps(plan, fade, clips, clip, plane, n - 1);
    }
}

proof fn lemma_reel_len<T, X: Fn(T, T, usize, usize) -> T>(
    plan: ChunkPlan,
    fade: X,
    clips: Seq<Seq<T>>,
    plane: int,
    n: int,
)
    requires
        0 <= n,
    ensures
        reel(plan, fade, clips, plane, n).len() == plan.frames_shown(n),
    decreases n,
{
    if n > 0 {
        lemma_reel_len(plan, fade, clips, plane, n - 1);
    }
}

proof fn lemma_shown_grows(plan: ChunkPlan, n: int)
    requires
        0 <= n <= plan.chunks,
    ensures
        plan.frames_shown(n) <= plan.frames_shown(plan.chunks as int) <= plan.total(),
    decreases plan.chunks - n,
{
    if n < plan.chunks {
        lemma_shown_grows(plan, n + 1);
    }
}

/// Every clip decodes to as many frames as its plan says, whatever is in them.
pub proof fn law_a_clip_is_as_long_as_planned<T, X: Fn(T, T, usize, usize) -> T>(
    plan: ChunkPlan,
    fade: X,
    clips: Seq<Seq<T>>,
    plane: int,
)
    ensures
        film(plan, fade, clips, plane).len() == plan.total(),
{
    lemma_reel_len(plan, fade, clips, plane, plan.chunks as int);
}

/// Every byte is its own pixel's: that of channel `ch` at line `y` and column `x` of a frame is the shade of that
/// channel's number at that line and column of that frame.
pub proof fn law_a_byte_is_its_own_pixel<T, N: Fn(T, usize) -> u8>(
    out: Seq<u8>,
    before: Seq<u8>,
    film: Seq<Seq<T>>,
    want: int,
    height: int,
    width: int,
    shade: N,
    f: int,
    y: int,
    x: int,
    ch: int,
)
    requires
        written(out, before, film, want, height * width, shade),
        0 <= f < want,
        f < film.len(),
        0 <= y < height,
        0 <= x < width,
        0 <= ch < 3,
        ((f * height + y) * width + x) * 3 + ch < out.len(),
    ensures
        out[((f * height + y) * width + x) * 3 + ch] == byte_of(
            shade,
            film[f][(ch * height + y) * width + x],
            ch as usize,
        ),
{
    let plane = height * width;
    let q = y * width + x;
    let b = ((f * height + y) * width + x) * 3 + ch;
    radix::lemma_flat2(y, x, height, width);
    radix::lemma_flat2(f, q, f + 1, plane);
    assert((f * height + y) * width + x == f * plane + q && (ch * height + y) * width + x == ch * plane + q)
        by (nonlinear_arith)
        requires
            plane == height * width,
            q == y * width + x,
    ;
    assert(b / 3 == f * plane + q && b % 3 == ch);
}

/// A byte past the frames that were asked for, or that there are, stays as it was.
pub proof fn law_bytes_past_the_frames_stay<T, N: Fn(T, usize) -> u8>(
    out: Seq<u8>,
    before: Seq<u8>,
    film: Seq<Seq<T>>,
    want: int,
    plane: int,
    shade: N,
    b: int,
)
    requires
        written(out, before, film, want, plane, shade),
        plane >= 1,
        0 <= b < out.len(),
        b >= want * plane * 3 || b >= film.len() * plane * 3,
        0 <= want,
    ensures
        out[b] == before[b],
{
    radix::lemma_below(b / 3, want, plane);
    radix::lemma_below(b / 3, film.len() as int, plane);
    assert(want * plane * 3 == (want * plane) * 3 && film.len() * plane * 3 == (film.len() * plane) * 3);
}

/// A frame of a run of frames is that frame of the clip it was taken from, pixel by pixel.
pub proof fn law_frames_keep_their_pixels<T>(
    clip: Seq<T>,
    total: int,
    f0: int,
    nf: int,
    height: int,
    width: int,
    f: int,
    y: int,
    x: int,
    ch: int,
)
    requires
        0 <= f0,
        f0 + nf <= total,
        0 <= f < nf,
        0 <= y < height,
        0 <= x < width,
        0 <= ch < 3,
    ensures
        ({
            let plane = height * width;
            frames_of(taken(clip, total, f0, nf, plane), nf, plane)[f][(ch * height + y) * width + x] == clip[((ch
                * total + (f0 + f)) * height + y) * width + x]
        }),
{
    let plane = height * width;
    let q = y * width + x;
    radix::lemma_flat2(y, x, height, width);
    radix::lemma_flat2(ch, q, 3, plane);
    radix::lemma_flat2(ch, f, 3, nf);
    radix::lemma_flat2(ch * nf + f, q, 3 * nf, plane);
    assert((ch * height + y) * width + x == ch * plane + q && ((ch * total + (f0 + f)) * height + y) * width + x == (
    ch * total + (f0 + f)) * plane + q) by (nonlinear_arith)
        requires
            plane == height * width,
            q == y * width + x,
    ;
    lemma_taken_pixel(clip, total, f0, nf, plane, ch, f, q);
}

proof fn lemma_taken_pixel<T>(clip: Seq<T>, total: int, f0: int, nf: int, plane: int, ch: int, f: int, q: int)
    requires
        0 <= ch < 3,
        0 <= f < nf,
        0 <= q < plane,
    ensures
        ({
            let d = (ch * nf + f) * plane + q;
            &&& 0 <= d < 3 * nf * plane
            &&& taken(clip, total, f0, nf, plane)[d] == clip[(ch * total + (f0 + f)) * plane + q]
        }),
{
    let d = (ch * nf + f) * plane + q;
    let k = f * plane + q;
    radix::lemma_flat2(f, q, nf, plane);
    radix::lemma_flat2(ch, k, 3, nf * plane);
    assert(d == ch * (nf * plane) + k && 3 * nf * plane == 3 * (nf * plane) && (ch * total + f0) * plane + k == (ch
        * total + (f0 + f)) * plane + q) by (nonlinear_arith)
        requires
            d == (ch * nf + f) * plane + q,
            k == f * plane + q,
    ;
}

/// The frames of the film are those its chunks show, in the order of the chunks, and behind them those the last one
/// carries over.
pub proof fn law_the_film_follows_its_chunks<T, X: Fn(T, T, usize, usize) -> T>(
    plan: ChunkPlan,
    fade: X,
    clips: Seq<Seq<T>>,
    plane: int,
    i: int,
    f: int,
)
    requires
        0 <= i < plan.chunks,
        0 <= f,
    ensures
        f < plan.half_len(i, 0) ==> film(plan, fade, clips, plane)[plan.frames_shown(i) + f] == frames_of(
            shows_of(plan, fade, clips, plane, i),
            plan.half_len(i, 0),
            plane,
        )[f],
        f < plan.half_len(plan.chunks - 1, 1) ==> film(plan, fade, clips, plane)[plan.frames_shown(
            plan.chunks as int,
        ) + f] == frames_of(
            carried(plan, clips, plane, plan.chunks as int)->0,
            plan.half_len(plan.chunks - 1, 1),
            plane,
        )[f],
{
    lemma_reel_len(plan, fade, clips, plane, plan.chunks as int);
    if f < plan.half_len(i, 0) {
        lemma_reel_at(plan, fade, clips, plane, i, f, plan.chunks as int);
    }
}

proof fn lemma_reel_at<T, X: Fn(T, T, usize, usize) -> T>(
    plan: ChunkPlan,
    fade: X,
    clips: Seq<Seq<T>>,
    plane: int,
    i: int,
    f: int,
    n: int,
)
    requires
        0 <= i < n,
        0 <= f < plan.half_len(i, 0),
    ensures
        0 <= plan.frames_shown(i) + f < reel(plan, fade, clips, plane, n).len(),
        reel(plan, fade, clips, plane, n)[plan.frames_shown(i) + f] == frames_of(
            shows_of(plan, fade, clips, plane, i),
            plan.half_len(i, 0),
            plane,
        )[f],
    decreases n,
{
    lemma_reel_len(plan, fade, clips, plane, n - 1);
    lemma_reel_len(plan, fade, clips, plane, n);
    lemma_reel_len(plan, fade, clips, plane, i);
    if i < n - 1 {
        lemma_reel_at(plan, fade, clips, plane, i, f, n - 1);
    }
}

/// A chunk shows the frames of its clip from `pre` up to where the next chunk's begin, pixel by pixel: those that nothing
/// was carried over to, as they were decoded; the others mixed with the last frames that the chunk before it decoded for
/// them, in their order.
pub proof fn law_a_chunk_shows_its_own_frames<T, X: Fn(T, T, usize, usize) -> T>(
    plan: ChunkPlan,
    fade: X,
    clips: Seq<Seq<T>>,
    height: int,
    width: int,
    i: int,
    g: int,
    y: int,
    x: int,
    ch: int,
)
    requires
        plan.wf(),
        0 <= i < plan.chunks,
        plan.pre <= g < plan.chunk_frames,
        g < 4 * plan.tokens_at(i),
        0 <= y < height,
        0 <= x < width,
        0 <= ch < 3,
    ensures
        ({
            let plane = height * width;
            let all = 4 * plan.tokens_at(i);
            let shown = film(plan, fade, clips, plane)[plan.frames_shown(i) + (g - plan.pre)][(ch * height + y) * width
                + x];
            let own = clips[i][((ch * all + g) * height + y) * width + x];
            let was = 4 * plan.tokens_at(i - 1);
            let ends = least(2 * plan.chunk_frames, was);
            let over = ends - (plan.chunk_frames + plan.pre);
            let fades = least(least(plan.overlap_frames as int, over), least(plan.chunk_frames as int, all) - plan.pre);
            let k = g - plan.pre;
            if i == 0 || over <= 0 || k >= fades {
                shown == own
            } else {
                shown == frames::mixed(
                    fade,
                    clips[i - 1][((ch * was + (ends - fades + k)) * height + y) * width + x],
                    own,
                    k,
                    fades,
                )
            }
        }),
{
    let plane = height * width;
    let q = y * width + x;
    let (nf, k) = (plan.half_len(i, 0), g - plan.pre);
    let all = plan.frames_at(i);
    radix::lemma_flat2(y, x, height, width);
    radix::lemma_flat2(ch, q, 3, plane);
    law_the_film_follows_its_chunks(plan, fade, clips, plane, i, k);
    lemma_taken_pixel(clips[i], all, plan.pre as int, nf, plane, ch, k, q);
    let d = (ch * nf + k) * plane + q;
    radix::lemma_flat2(ch, k, 3, nf);
    radix::lemma_flat2(ch * nf + k, q, 3 * nf, plane);
    assert((ch * height + y) * width + x == ch * plane + q && ((ch * all + g) * height + y) * width + x == (ch * all
        + g) * plane + q) by (nonlinear_arith)
        requires
            plane == height * width,
            q == y * width + x,
    ;
    if i > 0 && plan.half_len(i - 1, 1) > 0 {
        let over = plan.half_len(i - 1, 1);
        let was = plan.frames_at(i - 1);
        let begins = plan.half_start(1);
        let ends = begins + over;
        let overlap = taken(clips[i - 1], was, begins, over, plane);
        assert(3 * over * plane == over * (3 * plane) && (over * (3 * plane)) / (3 * plane) == over && 0 <= 3 * over
            * plane) by (nonlinear_arith)
            requires
                over > 0,
                plane > 0,
        ;
        assert(overlap.len() == 3 * over * plane);
        let fades = tiles::fade_frames(overlap.len() as int, plane, nf, plan.overlap_frames as int);
        if k < fades {
            lemma_taken_pixel(clips[i - 1], was, begins, over, plane, ch, over - fades + k, q);
            assert(tiles::tail(d, plane, nf, over, fades) == (ch * over + (over - fades + k)) * plane + q);
            assert(((ch * was + (ends - fades + k)) * height + y) * width + x == (ch * was + (begins + (over - fades
                + k))) * plane + q) by (nonlinear_arith)
                requires
                    plane == height * width,
                    q == y * width + x,
                    ends == begins + over,
            ;
        }
    }
}

/// Behind what the chunks show come the frames of the last chunk's second half, as they were decoded, pixel by pixel.
pub proof fn law_the_film_ends_with_the_last_chunk<T, X: Fn(T, T, usize, usize) -> T>(
    plan: ChunkPlan,
    fade: X,
    clips: Seq<Seq<T>>,
    height: int,
    width: int,
    g: int,
    y: int,
    x: int,
    ch: int,
)
    requires
        plan.chunks > 0,
        plan.chunk_frames + plan.pre <= g < 2 * plan.chunk_frames,
        g < 4 * plan.tokens_at(plan.chunks - 1),
        0 <= y < height,
        0 <= x < width,
        0 <= ch < 3,
    ensures
        ({
            let all = 4 * plan.tokens_at(plan.chunks - 1);
            let at = plan.frames_shown(plan.chunks as int) + (g - plan.chunk_frames - plan.pre);
            film(plan, fade, clips, height * width)[at][(ch * height + y) * width + x] == clips[plan.chunks - 1][((ch
                * all + g) * height + y) * width + x]
        }),
{
    let i = plan.chunks - 1;
    let (f0, nf) = (plan.half_start(1), plan.half_len(i, 1));
    law_the_film_follows_its_chunks(plan, fade, clips, height * width, i, g - f0);
    law_frames_keep_their_pixels(clips[i], plan.frames_at(i), f0, nf, height, width, g - f0, y, x, ch);
}

/// The frames a chunk shows come right behind those of the chunks before it: as many as lie from `pre` up to where the
/// next chunk's begin, or the clip ends.
pub proof fn law_chunks_show_one_behind_the_other(plan: ChunkPlan, i: int)
    requires
        0 <= i < plan.chunks,
    ensures
        plan.frames_shown(0) == 0,
        ({
            let end = least(plan.chunk_frames as int, 4 * least(7, plan.padded_tokens - 5 * i));
            plan.frames_shown(i + 1) == plan.frames_shown(i) + if end > plan.pre {
                end - plan.pre
            } else {
                0
            }
        }),
{
}

/// What a clip of `ft` latent frames decodes to, as frames of one plane.
proof fn lemma_clip_planes(g: Grid, plane: int)
    requires
        plane == g.h * g.w * 16 * 16,
    ensures
        frames::clip_len(g) == 3 * (g.ft * 4) * plane,
{
    assert(3 * (g.ft * 4) * (g.h * 16) * (g.w * 16) == 3 * (g.ft * 4) * (g.h * g.w * 16 * 16))
        by (nonlinear_arith);
}

/// The numbers per frame.
pub open spec fn plane_of(h: int, w: int) -> int {
    h * w * VAE_PS * VAE_PS
}

/// Whether the clips are the decodes of a plan's chunks.
pub open spec fn all_tiled<
    T,
    U: Fn(T, usize) -> T,
    D: Fn(&[T], Grid) -> Result<Vec<T>>,
    F: Fn(T, T, usize, usize) -> T,
>(
    plan: ChunkPlan,
    shape: layout::Shape,
    latents: Seq<T>,
    undo: U,
    decode: D,
    mix: F,
    clips: Seq<Seq<T>>,
) -> bool {
    let (h, w) = (shape.lat_h as int, shape.lat_w as int);
    let zp = padded(undo, latents, shape.latent_t as int, plan.padded_tokens as int, h * w);
    forall|i: int|
        0 <= i < clips.len() ==> frames::tiled(
            decode,
            mix,
            chunk_latents(
                zp,
                plan.padded_tokens as int,
                h * w,
                i * VAE_CHUNK,
                plan.tokens_at(i),
            ),
            chunk_grid(plan, h as usize, w as usize, i),
            #[trigger] clips[i],
        )
}

/// Each chunk is the decode of its own latents: those of frame `t` of chunk `i` are the latents five frames further for
/// each chunk before it, of the same channel, line and column, with their normalisation undone; and past the last frame
/// they are those of the last.
pub proof fn law_a_chunk_decodes_its_own_latents<
    T,
    U: Fn(T, usize) -> T,
    D: Fn(&[T], Grid) -> Result<Vec<T>>,
    F: Fn(T, T, usize, usize) -> T,
>(
    plan: ChunkPlan,
    shape: layout::Shape,
    latents: Seq<T>,
    undo: U,
    decode: D,
    mix: F,
    clips: Seq<Seq<T>>,
    i: int,
) -> (z: Seq<T>)
    requires
        all_tiled(plan, shape, latents, undo, decode, mix, clips),
        plan.wf(),
        0 <= i < clips.len(),
        clips.len() <= plan.chunks,
        shape.latent_t >= 1 && shape.lat_h >= 1 && shape.lat_w >= 1,
    ensures
        ({
            let ft = least(7, plan.padded_tokens - 5 * i);
            let (n, h, w) = (shape.latent_t as int, shape.lat_h as int, shape.lat_w as int);
            &&& z.len() == 24 * ft * h * w
            &&& frames::tiled(decode, mix, z, (Grid { ft: ft as usize, h: h as usize, w: w as usize }), clips[i])
            &&& forall|ch: int, t: int, y: int, x: int|
                0 <= ch < 24 && 0 <= t < ft && 0 <= y < h && 0 <= x < w ==> #[trigger] z[radix::flat4(
                    ch,
                    t,
                    y,
                    x,
                    ft,
                    h,
                    w,
                )] == undone(undo, latents[((ch * n + least(5 * i + t, n - 1)) * h + y) * w + x], ch)
        }),
{
    let ft = plan.tokens_at(i);
    let (n, h, w) = (shape.latent_t as int, shape.lat_h as int, shape.lat_w as int);
    let (tp, area) = (plan.padded_tokens as int, h * w);
    let zp = padded(undo, latents, n, tp, area);
    let z = chunk_latents(zp, tp, area, i * VAE_CHUNK, ft);
    assert(0 < area && 24 * ft * area == 24 * ft * h * w && (ft >= 0 ==> 24 * ft * area >= 0)) by (nonlinear_arith)
        requires
            area == h * w,
            h >= 1,
            w >= 1,
    ;
    assert(i * VAE_CHUNK <= (plan.chunks - 1) * VAE_CHUNK);
    assert forall|ch: int, t: int, y: int, x: int|
        0 <= ch < 24 && 0 <= t < ft && 0 <= y < h && 0 <= x < w implies #[trigger] z[radix::flat4(
        ch,
        t,
        y,
        x,
        ft,
        h,
        w,
    )] == undone(undo, latents[((ch * n + least(5 * i + t, n - 1)) * h + y) * w + x], ch) by {
        let q = y * w + x;
        let k = t * area + q;
        let f = 5 * i + t;
        radix::lemma_flat2(y, x, h, w);
        radix::lemma_flat2(t, q, ft, area);
        radix::lemma_flat2(ch, k, 24, ft * area);
        let d = radix::flat4(ch, t, y, x, ft, h, w);
        assert(d == ch * (ft * area) + k && 24 * ft * area == 24 * (ft * area) && (ch * tp + i * 5) * area + k == (ch
            * tp + f) * area + q) by (nonlinear_arith)
            requires
                d == ((ch * ft + t) * h + y) * w + x,
                area == h * w,
                q == y * w + x,
                k == t * area + q,
                f == 5 * i + t,
        ;
        let e = (ch * tp + f) * area + q;
        assert(z[d] == zp[e]);
        radix::lemma_flat2(ch, f, 24, tp);
        radix::lemma_flat2(ch * tp + f, q, 24 * tp, area);
        let last = least(f, n - 1);
        assert(zp[e] == undone(undo, latents[(ch * n + last) * area + q], ch));
        assert((ch * n + last) * area + q == ((ch * n + last) * h + y) * w + x) by (nonlinear_arith)
            requires
                area == h * w,
                q == y * w + x,
        ;
    }
    z
}

/// Whether this is how decoding a plan's chunk failed.
pub open spec fn chunk_fails<T, U: Fn(T, usize) -> T, D: Fn(&[T], Grid) -> Result<Vec<T>>>(
    plan: ChunkPlan,
    shape: layout::Shape,
    latents: Seq<T>,
    undo: U,
    decode: D,
    i: int,
    e: Error,
) -> bool {
    let (h, w) = (shape.lat_h as int, shape.lat_w as int);
    let zp = padded(undo, latents, shape.latent_t as int, plan.padded_tokens as int, h * w);
    frames::tile_fails(
        decode,
        chunk_latents(zp, plan.padded_tokens as int, h * w, i * VAE_CHUNK, plan.tokens_at(i)),
        chunk_grid(plan, h as usize, w as usize, i),
        e,
    )
}

/// Whether a clip can be decoded by a plan from so many latents to so many bytes: the plan holds together, both are
/// enough, and what the clip and each chunk take can be counted.
pub open spec fn decodable(plan: ChunkPlan, shape: layout::Shape, latents: int, out: int) -> bool {
    let (h, w) = (shape.lat_h as int, shape.lat_w as int);
    &&& plan.wf()
    &&& shape.latent_t >= 1 && h >= 1 && w >= 1 && shape.frames >= 0
    &&& h * w <= usize::MAX
    &&& 3 * plane_of(h, w) <= usize::MAX
    &&& LATENT_CH * plan.padded_tokens <= usize::MAX
    &&& LATENT_CH * plan.padded_tokens * (h * w) <= usize::MAX
    &&& LATENT_CH * shape.latent_t * (h * w) <= latents
    &&& shape.frames * plane_of(h, w) * 3 <= out
    &&& forall|i: int|
        0 <= i < plan.chunks ==> #[trigger] frames::clip_countable(
            chunk_grid(plan, h as usize, w as usize, i),
        )
}

impl ChunkPlan {
    /// How many frames a half of a chunk has.
    fn half(&self, i: usize, second: bool) -> (n: usize)
        requires
            i * VAE_CHUNK <= self.padded_tokens,
            2 * self.chunk_frames <= usize::MAX,
            self.chunk_frames + self.pre <= usize::MAX,
        ensures
            n == self.half_len(
                i as int,
                if second {
                    1
                } else {
                    0
                },
            ),
    {
        let left: usize = self.padded_tokens - i * VAE_CHUNK;
        let ft: usize = if VAE_CHUNK + VAE_OVERLAP < left {
            VAE_CHUNK + VAE_OVERLAP
        } else {
            left
        };
        let frames: usize = ft * VAE_TRATIO;
        let (start, most): (usize, usize) = if second {
            (self.chunk_frames + self.pre, 2 * self.chunk_frames)
        } else {
            (self.pre, self.chunk_frames)
        };
        let end: usize = if most < frames {
            most
        } else {
            frames
        };
        if end > start {
            end - start
        } else {
            0
        }
    }

    /// Whether every chunk begins inside the clip, and the counts fit.
    pub fn holds(&self) -> (yes: bool)
        ensures
            yes == self.wf(),
    {
        if self.chunks > usize::MAX / VAE_CHUNK || (self.chunks > 0 && (self.chunks - 1) * VAE_CHUNK
            > self.padded_tokens) || self.chunk_frames > usize::MAX / 2 || self.pre > usize::MAX - self.chunk_frames {
            return false;
        }
        let mut shown: usize = 0;
        let mut i: usize = 0;
        while i < self.chunks
            invariant
                i <= self.chunks,
                self.chunks * VAE_CHUNK <= usize::MAX,
                self.chunks > 0 ==> (self.chunks - 1) * VAE_CHUNK <= self.padded_tokens,
                2 * self.chunk_frames <= usize::MAX,
                self.chunk_frames + self.pre <= usize::MAX,
                shown == self.frames_shown(i as int),
            decreases self.chunks - i,
        {
            let n: usize = self.half(i, false);
            if shown > usize::MAX - n {
                proof {
                    lemma_shown_grows(*self, i + 1);
                }
                return false;
            }
            shown = shown + n;
            i += 1;
        }
        let carried: usize = if self.chunks > 0 {
            self.half(self.chunks - 1, true)
        } else {
            0
        };
        shown <= usize::MAX - carried && self.pad_frames <= shown + carried
    }

    /// Whether a clip can be decoded by this plan from so many latents to so many bytes.
    pub fn decodes(&self, shape: &layout::Shape, latents: usize, out: usize) -> (yes: bool)
        ensures
            yes == decodable(*self, *shape, latents as int, out as int),
    {
        if !self.holds() || shape.latent_t < 1 || shape.lat_h < 1 || shape.lat_w < 1 || shape.frames < 0 {
            return false;
        }
        let ghost (hi, wi) = (shape.lat_h as int, shape.lat_w as int);
        proof {
            assert(1 <= hi * wi <= 0x8000_0000 * 0x8000_0000) by (nonlinear_arith)
                requires
                    1 <= hi <= 0x8000_0000,
                    1 <= wi <= 0x8000_0000,
            ;
            assert(plane_of(hi, wi) == hi * wi * 256) by (nonlinear_arith)
                requires
                    plane_of(hi, wi) == hi * wi * 16 * 16,
            ;
        }
        let area: u128 = shape.lat_h as u128 * shape.lat_w as u128;
        let plane: u128 = area * 256;
        if 3 * plane > usize::MAX as u128 {
            return false;
        }
        let area: usize = area as usize;
        match LATENT_CH.checked_mul(self.padded_tokens) {
            Some(padded) => {
                if padded.checked_mul(area).is_none() {
                    return false;
                }
            },
            None => {
                return false;
            },
        }
        proof {
            let (t, f) = (shape.latent_t as int, shape.frames as int);
            assert(0 <= 24 * t * (hi * wi) <= 24 * 0x8000_0000 * 0x4000_0000_0000_0000) by (nonlinear_arith)
                requires
                    0 <= t <= 0x8000_0000,
                    0 <= hi * wi <= 0x4000_0000_0000_0000,
            ;
            assert(0 <= f * plane_of(hi, wi) <= 0x8000_0000 * 0x40_0000_0000_0000_0000) by (nonlinear_arith)
                requires
                    0 <= f <= 0x8000_0000,
                    0 <= plane_of(hi, wi) <= 0x40_0000_0000_0000_0000,
            ;
        }
        if 24 * (shape.latent_t as u128) * (area as u128) > latents as u128 {
            return false;
        }
        if shape.frames as u128 * plane * 3 > out as u128 {
            return false;
        }
        let mut i: usize = 0;
        while i < self.chunks
            invariant
                i <= self.chunks,
                self.wf(),
                1 <= shape.lat_h && 1 <= shape.lat_w,
                forall|k: int|
                    0 <= k < i ==> #[trigger] frames::clip_countable(
                        chunk_grid(*self, shape.lat_h as usize, shape.lat_w as usize, k),
                    ),
            decreases self.chunks - i,
        {
            let left: usize = self.padded_tokens - i * VAE_CHUNK;
            let ft: usize = if VAE_CHUNK + VAE_OVERLAP < left {
                VAE_CHUNK + VAE_OVERLAP
            } else {
                left
            };
            let grid = Grid { ft, h: shape.lat_h as usize, w: shape.lat_w as usize };
            assert(grid == chunk_grid(*self, shape.lat_h as usize, shape.lat_w as usize, i as int));
            if !frames::is_clip_countable(grid) {
                return false;
            }
            i += 1;
        }
        true
    }
}

/// The whole clip: latents `[24][T][H][W]` in, bytes `[frames][H*16][W*16][3]` out.
///
/// `undo` undoes the latents' normalisation, `decode` decodes one tile, `mix` and `fade` blend in space and in
/// time, and `shade` turns a number of a channel into a byte.
#[verifier::rlimit(60)]
pub fn decode_video<
    T: Copy,
    U: Fn(T, usize) -> T,
    D: Fn(&[T], Grid) -> Result<Vec<T>>,
    F: Fn(T, T, usize, usize) -> T,
    X: Fn(T, T, usize, usize) -> T,
    N: Fn(T, usize) -> u8,
>(
    plan: &ChunkPlan,
    shape: &layout::Shape,
    latents: &[T],
    out: &mut [u8],
    zero: T,
    undo: &U,
    decode: &D,
    mix: &F,
    fade: &X,
    shade: &N,
) -> (result: Result<()>)
    requires
        decodable(*plan, *shape, latents@.len() as int, old(out)@.len() as int),
        per_channel(*undo, LATENT_CH as int),
        frames::decoder(*decode),
        frames::mixes(*mix),
        frames::mixes(*fade),
        per_channel(*shade, 3),
    ensures
        final(out)@.len() == old(out)@.len(),
        ({
            let (h, w) = (shape.lat_h as int, shape.lat_w as int);
            let kept = plan.total() - plan.pad_frames;
            ||| result matches Err(e) && exists|clips: Seq<Seq<T>>| #[trigger]
                all_tiled(*plan, *shape, latents@, *undo, *decode, *mix, clips) && clips.len()
                    < plan.chunks && chunk_fails(
                    *plan,
                    *shape,
                    latents@,
                    *undo,
                    *decode,
                    clips.len() as int,
                    e,
                ) && written(
                    final(out)@,
                    old(out)@,
                    reel(*plan, *fade, clips, plane_of(h, w), clips.len() as int),
                    shape.frames as int,
                    plane_of(h, w),
                    *shade,
                )
            ||| exists|clips: Seq<Seq<T>>| #[trigger]
                all_tiled(*plan, *shape, latents@, *undo, *decode, *mix, clips) && clips.len()
                    == plan.chunks && written(
                    final(out)@,
                    old(out)@,
                    film(*plan, *fade, clips, plane_of(h, w)),
                    shape.frames as int,
                    plane_of(h, w),
                    *shade,
                ) && if kept == shape.frames {
                    result is Ok
                } else {
                    result matches Err(Error::Other(m)) && m@ == text::phrase2_of(
                        "decoded "@,
                        kept as nat,
                        " frames, expected "@,
                        shape.frames as nat,
                        ""@,
                    )
                }
        }),
{
    let (t, h, w): (usize, usize, usize) = (
        shape.latent_t as usize,
        shape.lat_h as usize,
        shape.lat_w as usize,
    );
    let want: usize = shape.frames as usize;
    assert(1 <= h * w <= plane_of(h as int, w as int) && h * w * 16 <= plane_of(h as int, w as int))
        by (nonlinear_arith)
        requires
            h >= 1,
            w >= 1,
            plane_of(h as int, w as int) == h * w * 16 * 16,
    ;
    let area: usize = h * w;
    let plane: usize = area * VAE_PS * VAE_PS;
    let tp: usize = plan.padded_tokens;
    let zp = pad(undo, latents, t, tp, area);
    let ghost before = out@;
    let mut overlap: Option<Vec<T>> = None;
    let mut decoded: usize = 0;
    let ghost mut clips: Seq<Seq<T>> = Seq::empty();
    proof {
        assert(written(
            out@,
            before,
            reel(*plan, *fade, clips, plane as int, 0),
            want as int,
            plane as int,
            *shade,
        ));
    }
    let mut i: usize = 0;
    while i < plan.chunks
        invariant
            i <= plan.chunks,
            plan.wf(),
            shape.latent_t == t && shape.lat_h == h && shape.lat_w == w && shape.frames == want,
            t >= 1 && h >= 1 && w >= 1,
            area == h * w,
            plane == plane_of(h as int, w as int),
            plane == h * w * 16 * 16,
            plane >= 1,
            3 * plane <= usize::MAX,
            tp == plan.padded_tokens,
            LATENT_CH * tp * area <= usize::MAX,
            zp@ == padded(*undo, latents@, t as int, tp as int, area as int),
            zp@.len() == LATENT_CH * tp * area,
            area >= 1,
            want * plane * 3 <= out@.len(),
            forall|i: int|
                0 <= i < plan.chunks ==> #[trigger] frames::clip_countable(
                    chunk_grid(*plan, h, w, i),
                ),
            frames::decoder(*decode),
            frames::mixes(*mix),
            frames::mixes(*fade),
            per_channel(*shade, 3),
            before == old(out)@,
            out@.len() == before.len(),
            clips.len() == i,
            all_tiled(*plan, *shape, latents@, *undo, *decode, *mix, clips),
            match overlap {
                Some(v) => carried(*plan, clips, plane as int, i as int) == Some(v@),
                None => carried(*plan, clips, plane as int, i as int) is None,
            },
            decoded == plan.frames_shown(i as int),
            written(
                out@,
                before,
                reel(*plan, *fade, clips, plane as int, i as int),
                want as int,
                plane as int,
                *shade,
            ),
        decreases plan.chunks - i,
    {
        proof {
            assert(i * VAE_CHUNK <= (plan.chunks - 1) * VAE_CHUNK);
        }
        let start: usize = i * VAE_CHUNK;
        let left: usize = tp - start;
        let ft: usize = if VAE_CHUNK + VAE_OVERLAP < left {
            VAE_CHUNK + VAE_OVERLAP
        } else {
            left
        };
        let z = cut(&zp, tp, area, start, ft);
        let grid = Grid { ft, h, w };
        proof {
            assert(grid == chunk_grid(*plan, h, w, i as int));
            assert(frames::clip_countable(chunk_grid(*plan, h, w, i as int)));
            assert(z@.len() == LATENT_CH * ft * area);
            assert(LATENT_CH * ft * h * w == LATENT_CH * ft * area) by (nonlinear_arith)
                requires
                    area == h * w,
            ;
            lemma_clip_planes(grid, plane as int);
        }
        let clip = match frames::decode_spatial(z.as_slice(), grid, zero, decode, mix) {
            Ok(clip) => clip,
            Err(e) => {
                proof {
                    let (hi, wi) = (shape.lat_h as int, shape.lat_w as int);
                    assert(hi as usize == h && wi as usize == w);
                    assert(chunk_fails(*plan, *shape, latents@, *undo, *decode, i as int, e));
                    assert(all_tiled(*plan, *shape, latents@, *undo, *decode, *mix, clips));
                }
                return Err(e);
            },
        };
        let clip_frames: usize = ft * VAE_TRATIO;
        let ghost was = clips;
        proof {
            clips = clips.push(clip@);
            lemma_reel_keeps(*plan, *fade, was, clip@, plane as int, i as int);
            lemma_reel_len(*plan, *fade, was, plane as int, i as int);
            lemma_shown_grows(*plan, i + 1);
            assert forall|k: int| 0 <= k < clips.len() implies frames::tiled(
                *decode,
                *mix,
                chunk_latents(zp@, tp as int, h * w, k * VAE_CHUNK, plan.tokens_at(k)),
                chunk_grid(*plan, h, w, k),
                #[trigger] clips[k],
            ) by {
                if k < i {
                    assert(clips[k] == was[k]);
                }
            }
        }
        let cf: usize = plan.chunk_frames;
        let f1: usize = if cf < clip_frames {
            cf
        } else {
            clip_frames
        };
        if plan.pre < f1 {
            let nf: usize = f1 - plan.pre;
            assert(nf == plan.half_len(i as int, 0));
            let mut chunk = take(&clip, clip_frames, plan.pre, nf, plane);
            if let Some(v) = &overlap {
                fade_in(&mut chunk, nf, v, plane, plan.overlap_frames, fade);
            }
            assert(chunk@ == shows_of(*plan, *fade, clips, plane as int, i as int));
            append(
                out,
                decoded,
                &chunk,
                nf,
                plane,
                want,
                shade,
                Ghost(before),
                Ghost(reel(*plan, *fade, clips, plane as int, i as int)),
            );
            decoded = decoded + nf;
        } else {
            assert(plan.half_len(i as int, 0) == 0);
            assert(reel(*plan, *fade, clips, plane as int, i + 1) =~= reel(
                *plan,
                *fade,
                clips,
                plane as int,
                i as int,
            ));
        }
        let g0: usize = cf + plan.pre;
        let g1: usize = if 2 * cf < clip_frames {
            2 * cf
        } else {
            clip_frames
        };
        if g0 < g1 {
            let tail = take(&clip, clip_frames, g0, g1 - g0, plane);
            assert(g1 - g0 == plan.half_len(i as int, 1));
            overlap = Some(tail);
        } else {
            assert(plan.half_len(i as int, 1) == 0);
            overlap = None;
        }
        i += 1;
    }
    proof {
        lemma_reel_len(*plan, *fade, clips, plane as int, i as int);
    }
    if let Some(v) = &overlap {
        let ghost last = plan.half_len(i - 1, 1);
        proof {
            assert(v@.len() == 3 * last * plane);
            assert((3 * last * plane) as int / (3 * plane) == last) by (nonlinear_arith)
                requires
                    plane >= 1,
                    last >= 0,
            ;
        }
        let nf: usize = v.len() / (3 * plane);
        append(
            out,
            decoded,
            v,
            nf,
            plane,
            want,
            shade,
            Ghost(before),
            Ghost(reel(*plan, *fade, clips, plane as int, i as int)),
        );
        decoded = decoded + nf;
    } else {
        assert(film(*plan, *fade, clips, plane as int) =~= reel(
            *plan,
            *fade,
            clips,
            plane as int,
            i as int,
        ));
    }
    assert(decoded == plan.total());
    assert(all_tiled(*plan, *shape, latents@, *undo, *decode, *mix, clips));
    let kept: usize = decoded - plan.pad_frames;
    if kept != want {
        return error::other(text::phrase2("decoded ", kept, " frames, expected ", want, ""));
    }
    Ok(())
}

} // verus!
