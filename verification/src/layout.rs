//! The packed sequence the blocks see.
//!
//! Rows are laid out as `[text | keyframes | reference blocks | audio | video]`, each carrying a
//! position `(t, h, w)` for the rotary tables, an AdaLN row, and a timestep class. A position is kept
//! as what it is made of (which origin, how many steps past it, which cell of which grid), because its
//! value is a floating-point sum whose rounding belongs to whoever evaluates it.
use vstd::prelude::*;
use vstd::string::StringExecFns;

use crate::model::MODALITIES;
use crate::radix;
use crate::text;

verus! {

/// A reference block's rows, in the order they were packed.
#[derive(Clone, Debug, PartialEq)]
pub struct RefSeg {
    pub kind: i32,
    pub row0: usize,
    pub rows: usize,
    pub latent_t: i32,
    pub lat_h: i32,
    pub lat_w: i32,
    pub audio_t: i32,
    pub audio: bool,
    /// Index into the caller's reference or keyframe list.
    pub index: usize,
}

/// What a caller conditions on: a reference image, a reference sound, or a reference clip.
#[derive(Clone, Debug)]
pub struct Ref {
    /// 0 image, 1 audio, 2 video.
    pub kind: i32,
    pub latent_t: i32,
    pub lat_h: i32,
    pub lat_w: i32,
    pub audio_t: i32,
    pub has_audio: bool,
}

/// A first or last frame the clip must pass through.
#[derive(Clone, Debug)]
pub struct Keyframe {
    pub frame_index: i32,
    pub audio_t: i32,
    pub has_audio: bool,
}

/// Where a block of rows starts on the time axis.
#[derive(Clone, Copy, Debug, PartialEq, Eq, Structural)]
pub enum Origin {
    /// Past the text and this many references.
    Cursor(usize),
    /// Past the text and as far as every reference moves the keyframes, and this many frames further.
    Frame(i32),
}

/// How far a reference moves what follows it on the time axis.
#[derive(Clone, Copy, Debug, PartialEq, Eq, Structural)]
pub enum Advance {
    /// One step.
    One,
    /// As many whole steps as its sound has latents.
    Audio(i32),
    /// By the longer of its sound, of so many latents, and of so many latent frames.
    Longer(i32, i32),
}

/// A row's place on the time axis.
#[derive(Clone, Copy, Debug, PartialEq, Eq, Structural)]
pub enum Time {
    /// The text row of this index.
    Text(usize),
    /// This many whole steps past the origin.
    Audio(Origin, usize),
    /// This many latent frames past the origin.
    Video(Origin, usize),
}

/// One cell of an axis of `dim` latents, on a canvas whose other axis has `other`.
#[derive(Clone, Copy, Debug, PartialEq, Eq, Structural)]
pub struct Cell {
    pub dim: usize,
    pub other: usize,
    pub index: usize,
}

/// The `(t, h, w)` a row sits at. An axis without a cell is at zero.
#[derive(Clone, Copy, Debug, PartialEq, Eq, Structural)]
pub struct Position {
    pub t: Time,
    pub h: Option<Cell>,
    pub w: Option<Cell>,
}

/// What one row of the sequence carries.
pub struct Row {
    pub pos: Position,
    pub adaln: i32,
    pub tclass: i32,
}

#[derive(Debug)]
pub struct Layout {
    pub text_len: usize,
    pub latent_t: usize,
    pub lat_h: usize,
    pub lat_w: usize,
    pub audio_t: usize,
    pub ref_rows: usize,
    pub audio_rows: usize,
    pub video_rows: usize,
    pub seq_len: usize,
    /// The (t, h, w) each row sits at.
    pub pos: Vec<Position>,
    /// Timestep class * 3 + modality tag. Tags: 0 video, 1 text, 2 audio.
    pub adaln_rows: Vec<i32>,
    /// 0 video, 1 audio, 2 conditioning video, 3 conditioning audio.
    pub tclass: Vec<i32>,
    pub ref_segs: Vec<RefSeg>,
}

/// Whether a sound is there to be packed: it was given, and it is not empty.
pub open spec fn sounds(has_audio: bool, audio_t: i32) -> bool {
    has_audio && audio_t > 0
}

/// The text rows: they climb by one, and carry the text tag.
pub open spec fn text_block(n: nat) -> Seq<Row> {
    Seq::new(
        n,
        |i: int| Row { pos: Position { t: Time::Text(i as usize), h: None, w: None }, adaln: 1, tclass: 0 },
    )
}

/// Two channels of `t` steps from `origin`: the first at the left edge of the canvas, the second at
/// the right.
pub open spec fn audio_block(origin: Origin, t: int, h: int, w: int, cls: int) -> Seq<Row> {
    Seq::new(
        (2 * t) as nat,
        |i: int|
            Row {
                pos: Position {
                    t: Time::Audio(origin, (if i < t { i } else { i - t }) as usize),
                    h: None,
                    w: Some(
                        Cell {
                            dim: w as usize,
                            other: h as usize,
                            index: (if i < t { 0 } else { w / 2 - 1 }) as usize,
                        },
                    ),
                },
                adaln: (3 * cls + 2) as i32,
                tclass: cls as i32,
            },
    )
}

/// How many rows `vt` frames of an `h` by `w` latent grid take: one for each 2x2 patch.
pub open spec fn video_len(vt: int, h: int, w: int) -> int {
    vt * ((h / 2) * (w / 2))
}

/// `vt` frames from `origin`, each a grid of patches, row by row.
pub open spec fn video_block(origin: Origin, vt: int, h: int, w: int, cls: int) -> Seq<Row> {
    Seq::new(video_len(vt, h, w) as nat, |i: int| video_row(origin, h, w, cls, i))
}

/// The row `i` of such a block.
pub open spec fn video_row(origin: Origin, h: int, w: int, cls: int, i: int) -> Row {
    let frame = (h / 2) * (w / 2);
    Row {
        pos: Position {
            t: Time::Video(origin, (i / frame) as usize),
            h: Some(
                Cell { dim: h as usize, other: w as usize, index: (i % frame / (w / 2)) as usize },
            ),
            w: Some(
                Cell { dim: w as usize, other: h as usize, index: (i % frame % (w / 2)) as usize },
            ),
        },
        adaln: (3 * cls) as i32,
        tclass: cls as i32,
    }
}

/// A keyframe: one frame of the target grid, then its sound.
pub open spec fn keyframe_block(kf: Keyframe, h: int, w: int) -> Seq<Row> {
    let origin = Origin::Frame(kf.frame_index);
    video_block(origin, 1, h, w, 2) + if sounds(kf.has_audio, kf.audio_t) {
        audio_block(origin, kf.audio_t as int, h, w, 3)
    } else {
        Seq::empty()
    }
}

/// How many frames a reference shows.
pub open spec fn ref_frames(rf: Ref) -> int {
    if rf.kind == 0 {
        1
    } else {
        rf.latent_t as int
    }
}

/// How far a reference moves what follows it: a picture by one step, a clip by the longer of its frames and of its
/// sound, where it has one, and anything else by the length of its sound.
pub open spec fn advance(rf: Ref) -> Advance {
    if rf.kind == 0 {
        Advance::One
    } else if rf.kind == 2 {
        Advance::Longer(
            if sounds(rf.has_audio, rf.audio_t) {
                rf.audio_t
            } else {
                0
            },
            rf.latent_t,
        )
    } else {
        Advance::Audio(rf.audio_t)
    }
}

/// How far a reference moves what follows it on the time axis. The origin past some references is the text's length
/// and what each of them moves, one after the other.
pub fn advance_of(rf: &Ref) -> (a: Advance)
    ensures
        a == advance(*rf),
{
    if rf.kind == 0 {
        Advance::One
    } else if rf.kind == 2 {
        Advance::Longer(
            if rf.has_audio && rf.audio_t > 0 {
                rf.audio_t
            } else {
                0
            },
            rf.latent_t,
        )
    } else {
        Advance::Audio(rf.audio_t)
    }
}

/// How far a reference moves the keyframes: a picture by one step, a sound by its length, and anything else by the
/// longer of its frames and of its sound, where it has one.
pub open spec fn frame_advance(rf: Ref) -> Advance {
    if rf.kind == 0 {
        Advance::One
    } else if rf.kind == 1 {
        Advance::Audio(rf.audio_t)
    } else {
        Advance::Longer(
            if sounds(rf.has_audio, rf.audio_t) {
                rf.audio_t
            } else {
                0
            },
            rf.latent_t,
        )
    }
}

/// How far a reference moves the keyframes on the time axis. Their origin is the text's length and what each of the
/// references moves them, one after the other.
pub fn frame_advance_of(rf: &Ref) -> (a: Advance)
    ensures
        a == frame_advance(*rf),
{
    if rf.kind == 0 {
        Advance::One
    } else if rf.kind == 1 {
        Advance::Audio(rf.audio_t)
    } else {
        Advance::Longer(
            if rf.has_audio && rf.audio_t > 0 {
                rf.audio_t
            } else {
                0
            },
            rf.latent_t,
        )
    }
}

/// A picture, a sound and a clip each move the keyframes as far as they move what follows them: a keyframe skips
/// whatever the references occupy.
pub proof fn law_keyframes_skip_the_references(rf: Ref)
    requires
        0 <= rf.kind <= 2,
    ensures
        frame_advance(rf) == advance(rf),
{
}

/// A reference: a picture or a clip with its sound in front of it, or a sound alone. A sound alone is
/// spread over the target's canvas, of `h` by `w` latents.
pub open spec fn ref_block(rf: Ref, index: int, h: int, w: int) -> Seq<Row> {
    let origin = Origin::Cursor(index as usize);
    if rf.kind == 0 || rf.kind == 2 {
        (if rf.kind == 2 && sounds(rf.has_audio, rf.audio_t) {
            audio_block(origin, rf.audio_t as int, rf.lat_h as int, rf.lat_w as int, 3)
        } else {
            Seq::empty()
        }) + video_block(origin, ref_frames(rf), rf.lat_h as int, rf.lat_w as int, 2)
    } else if rf.audio_t > 0 {
        audio_block(origin, rf.audio_t as int, h, w, 3)
    } else {
        Seq::empty()
    }
}

pub open spec fn keyframe_blocks(kfs: Seq<Keyframe>, h: int, w: int) -> Seq<Row>
    decreases kfs.len(),
{
    if kfs.len() == 0 {
        Seq::empty()
    } else {
        keyframe_blocks(kfs.drop_last(), h, w) + keyframe_block(kfs.last(), h, w)
    }
}

pub open spec fn ref_blocks(refs: Seq<Ref>, h: int, w: int) -> Seq<Row>
    decreases refs.len(),
{
    if refs.len() == 0 {
        Seq::empty()
    } else {
        ref_blocks(refs.drop_last(), h, w) + ref_block(refs.last(), refs.len() - 1, h, w)
    }
}

/// The whole sequence.
pub open spec fn packed(
    text_len: int,
    latent_t: int,
    h: int,
    w: int,
    audio_t: int,
    refs: Seq<Ref>,
    kfs: Seq<Keyframe>,
) -> Seq<Row> {
    let end = Origin::Cursor(refs.len() as usize);
    text_block(text_len as nat) + keyframe_blocks(kfs, h, w) + ref_blocks(refs, h, w)
        + audio_block(end, audio_t, h, w, 1) + video_block(end, latent_t, h, w, 0)
}

/// How many rows the sequence sets aside for one reference.
pub open spec fn ref_count(rf: Ref) -> int {
    if rf.kind == 1 {
        2 * rf.audio_t
    } else {
        video_len(ref_frames(rf), rf.lat_h as int, rf.lat_w as int) + if rf.kind == 2 && sounds(
            rf.has_audio,
            rf.audio_t,
        ) {
            2 * rf.audio_t
        } else {
            0
        }
    }
}

pub open spec fn keyframe_count(kf: Keyframe, h: int, w: int) -> int {
    video_len(1, h, w) + if sounds(kf.has_audio, kf.audio_t) {
        2 * kf.audio_t
    } else {
        0
    }
}

pub open spec fn ref_counts(refs: Seq<Ref>) -> int
    decreases refs.len(),
{
    if refs.len() == 0 {
        0
    } else {
        ref_counts(refs.drop_last()) + ref_count(refs.last())
    }
}

pub open spec fn keyframe_counts(kfs: Seq<Keyframe>, h: int, w: int) -> int
    decreases kfs.len(),
{
    if kfs.len() == 0 {
        0
    } else {
        keyframe_counts(kfs.drop_last(), h, w) + keyframe_count(kfs.last(), h, w)
    }
}

/// How many rows the sequence sets aside in all.
pub open spec fn packed_count(
    text_len: int,
    latent_t: int,
    h: int,
    w: int,
    audio_t: int,
    refs: Seq<Ref>,
    kfs: Seq<Keyframe>,
) -> int {
    text_len + ref_counts(refs) + keyframe_counts(kfs, h, w) + 2 * audio_t + video_len(
        latent_t,
        h,
        w,
    )
}

/// The segment of a block of pictures that starts at `row0`.
pub open spec fn video_seg(kind: i32, row0: int, vt: int, h: i32, w: i32, index: int) -> RefSeg {
    RefSeg {
        kind,
        row0: row0 as usize,
        rows: video_len(vt, h as int, w as int) as usize,
        latent_t: vt as i32,
        lat_h: h,
        lat_w: w,
        audio_t: 0,
        audio: false,
        index: index as usize,
    }
}

/// The segment of a sound that starts at `row0`.
pub open spec fn audio_seg(kind: i32, row0: int, audio_t: i32, index: int) -> RefSeg {
    RefSeg {
        kind,
        row0: row0 as usize,
        rows: (2 * audio_t) as usize,
        latent_t: 0,
        lat_h: 0,
        lat_w: 0,
        audio_t,
        audio: true,
        index: index as usize,
    }
}

pub open spec fn keyframe_segs(kf: Keyframe, index: int, row0: int, h: int, w: int) -> Seq<RefSeg> {
    let frame = RefSeg {
        kind: 3,
        row0: row0 as usize,
        rows: video_len(1, h, w) as usize,
        latent_t: 1,
        lat_h: h as i32,
        lat_w: w as i32,
        audio_t: 0,
        audio: false,
        index: index as usize,
    };
    if sounds(kf.has_audio, kf.audio_t) {
        seq![frame, audio_seg(3, row0 + video_len(1, h, w), kf.audio_t, index)]
    } else {
        seq![frame]
    }
}

pub open spec fn ref_segs_of(rf: Ref, index: int, row0: int) -> Seq<RefSeg> {
    if rf.kind == 0 || rf.kind == 2 {
        if rf.kind == 2 && sounds(rf.has_audio, rf.audio_t) {
            seq![
                audio_seg(rf.kind, row0, rf.audio_t, index),
                video_seg(
                    rf.kind,
                    row0 + 2 * rf.audio_t,
                    ref_frames(rf),
                    rf.lat_h,
                    rf.lat_w,
                    index,
                ),
            ]
        } else {
            seq![video_seg(rf.kind, row0, ref_frames(rf), rf.lat_h, rf.lat_w, index)]
        }
    } else if rf.audio_t > 0 {
        seq![audio_seg(1, row0, rf.audio_t, index)]
    } else {
        Seq::empty()
    }
}

/// The segments of the keyframes, the first of them starting at `row0`.
pub open spec fn all_keyframe_segs(kfs: Seq<Keyframe>, row0: int, h: int, w: int) -> Seq<RefSeg>
    decreases kfs.len(),
{
    if kfs.len() == 0 {
        Seq::empty()
    } else {
        all_keyframe_segs(kfs.drop_last(), row0, h, w) + keyframe_segs(
            kfs.last(),
            kfs.len() - 1,
            row0 + keyframe_blocks(kfs.drop_last(), h, w).len(),
            h,
            w,
        )
    }
}

/// The segments of the references, the first of them starting at `row0`.
pub open spec fn all_ref_segs(refs: Seq<Ref>, row0: int, h: int, w: int) -> Seq<RefSeg>
    decreases refs.len(),
{
    if refs.len() == 0 {
        Seq::empty()
    } else {
        all_ref_segs(refs.drop_last(), row0, h, w) + ref_segs_of(
            refs.last(),
            refs.len() - 1,
            row0 + ref_blocks(refs.drop_last(), h, w).len(),
        )
    }
}

/// Every segment of the sequence, in the order of its rows.
pub open spec fn packed_segs(
    text_len: int,
    h: int,
    w: int,
    refs: Seq<Ref>,
    kfs: Seq<Keyframe>,
) -> Seq<RefSeg> {
    all_keyframe_segs(kfs, text_len, h, w) + all_ref_segs(
        refs,
        text_len + keyframe_blocks(kfs, h, w).len(),
        h,
        w,
    )
}

impl Ref {
    /// A reference's counts are counts, and a clip that brings a sound has a canvas to spread it over.
    pub open spec fn valid(self) -> bool {
        &&& self.kind == 1 ==> self.audio_t >= 0
        &&& self.kind != 1 ==> self.lat_h >= 0 && self.lat_w >= 0
        &&& self.kind != 0 && self.kind != 1 ==> self.latent_t >= 0
        &&& self.kind == 2 && sounds(self.has_audio, self.audio_t) ==> self.lat_w >= 2
    }
}

/// The rows packed so far.
struct Rows {
    pos: Vec<Position>,
    adaln: Vec<i32>,
    tclass: Vec<i32>,
}

impl Rows {
    spec fn aligned(self) -> bool {
        self.pos@.len() == self.adaln@.len() == self.tclass@.len()
    }

    spec fn all(self) -> Seq<Row> {
        Seq::new(
            self.pos@.len(),
            |i: int| Row { pos: self.pos@[i], adaln: self.adaln@[i], tclass: self.tclass@[i] },
        )
    }

    fn push(&mut self, pos: Position, adaln: i32, tclass: i32)
        requires
            old(self).aligned(),
        ensures
            final(self).aligned(),
            final(self).all() == old(self).all().push(Row { pos, adaln, tclass }),
    {
        let ghost before = self.all();
        self.pos.push(pos);
        self.adaln.push(adaln);
        self.tclass.push(tclass);
        assert(self.all() =~= before.push(Row { pos, adaln, tclass }));
    }

    fn len(&self) -> (n: usize)
        ensures
            n == self.all().len(),
    {
        self.pos.len()
    }
}

fn text_rows(rows: &mut Rows, n: usize)
    requires
        old(rows).aligned(),
    ensures
        final(rows).aligned(),
        final(rows).all() == old(rows).all() + text_block(n as nat),
{
    let ghost before = rows.all();
    let ghost block = text_block(n as nat);
    let mut i: usize = 0;
    assert(rows.all() =~= before + block.take(0));
    while i < n
        invariant
            i <= n,
            rows.aligned(),
            block == text_block(n as nat),
            rows.all() == before + block.take(i as int),
        decreases n - i,
    {
        rows.push(Position { t: Time::Text(i), h: None, w: None }, 1, 0);
        assert(rows.all() =~= before + block.take(i + 1));
        i += 1;
    }
    assert(block.take(n as int) =~= block);
}

fn audio_grid(rows: &mut Rows, origin: Origin, t: usize, h: usize, w: usize, cls: i32)
    requires
        old(rows).aligned(),
        2 * t <= usize::MAX,
        w >= 2,
        0 <= cls <= 3,
    ensures
        final(rows).aligned(),
        final(rows).all() == old(rows).all() + audio_block(origin, t as int, h as int, w as int, cls as int),
{
    let ghost before = rows.all();
    let ghost block = audio_block(origin, t as int, h as int, w as int, cls as int);
    let mut c: usize = 0;
    assert(rows.all() =~= before + block.take(0));
    while c < 2
        invariant
            c <= 2,
            rows.aligned(),
            2 * t <= usize::MAX,
            w >= 2,
            0 <= cls <= 3,
            block == audio_block(origin, t as int, h as int, w as int, cls as int),
            rows.all() == before + block.take(if c == 0 { 0 } else if c == 1 { t as int } else { 2 * t }),
        decreases 2 - c,
    {
        let ghost base: int = if c == 0 { 0 } else { t as int };
        let mut k: usize = 0;
        while k < t
            invariant
                k <= t,
                c < 2,
                base == if c == 0 { 0 } else { t as int },
                rows.aligned(),
                2 * t <= usize::MAX,
                w >= 2,
                0 <= cls <= 3,
                block == audio_block(origin, t as int, h as int, w as int, cls as int),
                rows.all() == before + block.take(base + k),
            decreases t - k,
        {
            let index: usize = if c == 0 {
                0
            } else {
                w / 2 - 1
            };
            rows.push(
                Position { t: Time::Audio(origin, k), h: None, w: Some(Cell { dim: w, other: h, index }) },
                cls * (MODALITIES as i32) + 2,
                cls,
            );
            assert(rows.all() =~= before + block.take(base + k + 1));
            k += 1;
        }
        c += 1;
    }
    assert(block.take(2 * t) =~= block);
}

/// The patches of one frame, where a row of the block is known by its place in it.
proof fn lemma_video_row(origin: Origin, vt: int, h: int, w: int, cls: int, k: int, y: int, x: int)
    requires
        0 <= k < vt,
        0 <= y < h / 2,
        0 <= x < w / 2,
    ensures
        0 <= k * ((h / 2) * (w / 2)) + (y * (w / 2) + x) < video_len(vt, h, w),
        video_row(origin, h, w, cls, k * ((h / 2) * (w / 2)) + (y * (w / 2) + x)) == (Row {
            pos: Position {
                t: Time::Video(origin, k as usize),
                h: Some(Cell { dim: h as usize, other: w as usize, index: y as usize }),
                w: Some(Cell { dim: w as usize, other: h as usize, index: x as usize }),
            },
            adaln: (3 * cls) as i32,
            tclass: cls as i32,
        }),
{
    radix::lemma_flat2(y, x, h / 2, w / 2);
    radix::lemma_flat2(k, y * (w / 2) + x, vt, (h / 2) * (w / 2));
}

fn video_grid(rows: &mut Rows, origin: Origin, vt: usize, h: usize, w: usize, cls: i32)
    requires
        old(rows).aligned(),
        0 <= cls <= 3,
    ensures
        final(rows).aligned(),
        final(rows).all() == old(rows).all() + video_block(origin, vt as int, h as int, w as int, cls as int),
{
    let ghost before = rows.all();
    let ghost block = video_block(origin, vt as int, h as int, w as int, cls as int);
    let hh: usize = h / 2;
    let ww: usize = w / 2;
    let ghost frame: int = hh * ww;
    let mut k: usize = 0;
    assert(rows.all() =~= before + block.take(0));
    while k < vt
        invariant
            k <= vt,
            hh == h / 2,
            ww == w / 2,
            frame == hh * ww,
            rows.aligned(),
            0 <= cls <= 3,
            block == video_block(origin, vt as int, h as int, w as int, cls as int),
            rows.all() == before + block.take(k * frame),
        decreases vt - k,
    {
        let mut y: usize = 0;
        while y < hh
            invariant
                k < vt,
                y <= hh,
                hh == h / 2,
                ww == w / 2,
                frame == hh * ww,
                rows.aligned(),
                0 <= cls <= 3,
                block == video_block(origin, vt as int, h as int, w as int, cls as int),
                rows.all() == before + block.take(k * frame + y * ww),
            decreases hh - y,
        {
            let mut x: usize = 0;
            while x < ww
                invariant
                    k < vt,
                    y < hh,
                    x <= ww,
                    hh == h / 2,
                    ww == w / 2,
                    frame == hh * ww,
                    rows.aligned(),
                    0 <= cls <= 3,
                    block == video_block(origin, vt as int, h as int, w as int, cls as int),
                    rows.all() == before + block.take(k * frame + (y * ww + x)),
                decreases ww - x,
            {
                proof {
                    lemma_video_row(origin, vt as int, h as int, w as int, cls as int, k as int, y as int, x as int);
                }
                rows.push(
                    Position {
                        t: Time::Video(origin, k),
                        h: Some(Cell { dim: h, other: w, index: y }),
                        w: Some(Cell { dim: w, other: h, index: x }),
                    },
                    cls * (MODALITIES as i32),
                    cls,
                );
                assert(rows.all() =~= before + block.take(k * frame + (y * ww + x) + 1));
                x += 1;
            }
            assert((y + 1) * ww == y * ww + ww) by (nonlinear_arith);
            y += 1;
        }
        assert((k + 1) * frame == k * frame + frame) by (nonlinear_arith);
        k += 1;
    }
    assert(block.take(vt * frame) =~= block);
}

/// How many rows `vt` frames of an `h` by `w` grid take.
fn video_count(vt: usize, h: usize, w: usize) -> (n: usize)
    requires
        video_len(vt as int, h as int, w as int) <= usize::MAX,
    ensures
        n == video_len(vt as int, h as int, w as int),
{
    let hh: usize = h / 2;
    let ww: usize = w / 2;
    if vt == 0 || hh == 0 || ww == 0 {
        assert(vt * (hh * ww) == 0) by (nonlinear_arith)
            requires
                vt == 0 || hh == 0 || ww == 0,
        ;
        0
    } else {
        assert(hh * ww <= vt * (hh * ww)) by (nonlinear_arith)
            requires
                vt >= 1,
                hh * ww >= 0,
        ;
        vt * (hh * ww)
    }
}

proof fn lemma_video_len_counts(vt: int, h: int, w: int)
    requires
        vt >= 0,
        h >= 0,
        w >= 0,
    ensures
        video_len(vt, h, w) >= 0,
{
    assert(vt * ((h / 2) * (w / 2)) >= 0) by (nonlinear_arith)
        requires
            vt >= 0,
            h / 2 >= 0,
            w / 2 >= 0,
    ;
}

proof fn lemma_counts_grow(refs: Seq<Ref>, n: int)
    requires
        0 <= n <= refs.len(),
        forall|i: int| 0 <= i < refs.len() ==> (#[trigger] refs[i]).valid(),
    ensures
        0 <= ref_counts(refs.take(n)) <= ref_counts(refs),
    decreases refs.len() - n,
{
    if n < refs.len() {
        lemma_counts_grow(refs, n + 1);
        assert(refs.take(n + 1).drop_last() =~= refs.take(n));
        let rf = refs[n];
        assert(refs.take(n + 1).last() == rf);
        if rf.kind != 1 {
            lemma_video_len_counts(ref_frames(rf), rf.lat_h as int, rf.lat_w as int);
        }
        lemma_counts_natural(refs.take(n));
    } else {
        assert(refs.take(n) =~= refs);
        lemma_counts_natural(refs);
    }
}

proof fn lemma_counts_natural(refs: Seq<Ref>)
    requires
        forall|i: int| 0 <= i < refs.len() ==> (#[trigger] refs[i]).valid(),
    ensures
        ref_counts(refs) >= 0,
    decreases refs.len(),
{
    if refs.len() > 0 {
        lemma_counts_natural(refs.drop_last());
        let rf = refs.last();
        assert(rf == refs[refs.len() - 1]);
        if rf.kind != 1 {
            lemma_video_len_counts(ref_frames(rf), rf.lat_h as int, rf.lat_w as int);
        }
    }
}

proof fn lemma_keyframe_counts_grow(kfs: Seq<Keyframe>, n: int, h: int, w: int)
    requires
        0 <= n <= kfs.len(),
        h >= 0,
        w >= 0,
    ensures
        0 <= keyframe_counts(kfs.take(n), h, w) <= keyframe_counts(kfs, h, w),
    decreases kfs.len() - n,
{
    if n < kfs.len() {
        lemma_keyframe_counts_grow(kfs, n + 1, h, w);
        assert(kfs.take(n + 1).drop_last() =~= kfs.take(n));
        lemma_video_len_counts(1, h, w);
        lemma_keyframe_counts_natural(kfs.take(n), h, w);
    } else {
        assert(kfs.take(n) =~= kfs);
        lemma_keyframe_counts_natural(kfs, h, w);
    }
}

proof fn lemma_keyframe_counts_natural(kfs: Seq<Keyframe>, h: int, w: int)
    requires
        h >= 0,
        w >= 0,
    ensures
        keyframe_counts(kfs, h, w) >= 0,
    decreases kfs.len(),
{
    if kfs.len() > 0 {
        lemma_keyframe_counts_natural(kfs.drop_last(), h, w);
        lemma_video_len_counts(1, h, w);
    }
}

/// Counts the rows the references take.
fn count_refs(refs: &[Ref]) -> (n: usize)
    requires
        forall|i: int| 0 <= i < refs@.len() ==> (#[trigger] refs@[i]).valid(),
        ref_counts(refs@) <= usize::MAX,
    ensures
        n == ref_counts(refs@),
{
    let mut n: usize = 0;
    let mut i: usize = 0;
    while i < refs.len()
        invariant
            i <= refs@.len(),
            forall|i: int| 0 <= i < refs@.len() ==> (#[trigger] refs@[i]).valid(),
            ref_counts(refs@) <= usize::MAX,
            n == ref_counts(refs@.take(i as int)),
        decreases refs@.len() - i,
    {
        let rf = &refs[i];
        proof {
            lemma_counts_grow(refs@, i + 1);
            lemma_counts_grow(refs@, i as int);
            assert(refs@.take(i + 1).drop_last() =~= refs@.take(i as int));
            assert(refs@[i as int].valid());
            if rf.kind != 1 {
                lemma_video_len_counts(ref_frames(*rf), rf.lat_h as int, rf.lat_w as int);
            }
        }
        if rf.kind == 1 {
            n = n + (rf.audio_t as usize) * 2;
        } else {
            let vt: usize = if rf.kind == 0 {
                1
            } else {
                rf.latent_t as usize
            };
            n = n + video_count(vt, rf.lat_h as usize, rf.lat_w as usize);
            if rf.kind == 2 && rf.has_audio && rf.audio_t > 0 {
                n = n + (rf.audio_t as usize) * 2;
            }
        }
        i += 1;
    }
    assert(refs@.take(i as int) =~= refs@);
    n
}

/// Counts the rows the keyframes take on an `h` by `w` canvas.
fn count_keyframes(kfs: &[Keyframe], h: usize, w: usize) -> (n: usize)
    requires
        keyframe_counts(kfs@, h as int, w as int) <= usize::MAX,
    ensures
        n == keyframe_counts(kfs@, h as int, w as int),
{
    let mut n: usize = 0;
    let mut i: usize = 0;
    while i < kfs.len()
        invariant
            i <= kfs@.len(),
            keyframe_counts(kfs@, h as int, w as int) <= usize::MAX,
            n == keyframe_counts(kfs@.take(i as int), h as int, w as int),
        decreases kfs@.len() - i,
    {
        let kf = &kfs[i];
        proof {
            lemma_keyframe_counts_grow(kfs@, i + 1, h as int, w as int);
            lemma_keyframe_counts_grow(kfs@, i as int, h as int, w as int);
            assert(kfs@.take(i + 1).drop_last() =~= kfs@.take(i as int));
            lemma_video_len_counts(1, h as int, w as int);
        }
        n = n + video_count(1, h, w);
        if kf.has_audio && kf.audio_t > 0 {
            n = n + (kf.audio_t as usize) * 2;
        }
        i += 1;
    }
    assert(kfs@.take(i as int) =~= kfs@);
    n
}

/// Packs one keyframe.
fn pack_keyframe(
    rows: &mut Rows,
    segs: &mut Vec<RefSeg>,
    kf: &Keyframe,
    index: usize,
    h: usize,
    w: usize,
)
    requires
        old(rows).aligned(),
        w >= 2,
        old(rows).all().len() + keyframe_block(*kf, h as int, w as int).len() <= usize::MAX,
    ensures
        final(rows).aligned(),
        final(rows).all() == old(rows).all() + keyframe_block(*kf, h as int, w as int),
        final(segs)@ == old(segs)@ + keyframe_segs(
            *kf,
            index as int,
            old(rows).all().len() as int,
            h as int,
            w as int,
        ),
{
    let ghost before = rows.all();
    let ghost segs0 = segs@;
    proof {
        lemma_video_len_counts(1, h as int, w as int);
    }
    let origin = Origin::Frame(kf.frame_index);
    let n: usize = video_count(1, h, w);
    segs.push(
        RefSeg {
            kind: 3,
            row0: rows.len(),
            rows: n,
            latent_t: 1,
            lat_h: h as i32,
            lat_w: w as i32,
            audio_t: 0,
            audio: false,
            index,
        },
    );
    video_grid(rows, origin, 1, h, w, 2);
    if kf.has_audio && kf.audio_t > 0 {
        let t: usize = kf.audio_t as usize;
        segs.push(
            RefSeg {
                kind: 3,
                row0: rows.len(),
                rows: t * 2,
                latent_t: 0,
                lat_h: 0,
                lat_w: 0,
                audio_t: kf.audio_t,
                audio: true,
                index,
            },
        );
        audio_grid(rows, origin, t, h, w, 3);
    }
    assert(rows.all() =~= before + keyframe_block(*kf, h as int, w as int));
    assert(segs@ =~= segs0 + keyframe_segs(
        *kf,
        index as int,
        before.len() as int,
        h as int,
        w as int,
    ));
}

/// Packs one reference; a sound alone is spread over the `h` by `w` canvas.
fn pack_ref(rows: &mut Rows, segs: &mut Vec<RefSeg>, rf: &Ref, index: usize, h: usize, w: usize)
    requires
        old(rows).aligned(),
        w >= 2,
        rf.valid(),
        old(rows).all().len() + ref_block(*rf, index as int, h as int, w as int).len()
            <= usize::MAX,
    ensures
        final(rows).aligned(),
        final(rows).all() == old(rows).all() + ref_block(*rf, index as int, h as int, w as int),
        final(segs)@ == old(segs)@ + ref_segs_of(
            *rf,
            index as int,
            old(rows).all().len() as int,
        ),
{
    let ghost before = rows.all();
    let ghost segs0 = segs@;
    let origin = Origin::Cursor(index);
    if rf.kind == 0 || rf.kind == 2 {
        let rh: usize = rf.lat_h as usize;
        let rw: usize = rf.lat_w as usize;
        let vt: usize = if rf.kind == 0 {
            1
        } else {
            rf.latent_t as usize
        };
        proof {
            lemma_video_len_counts(vt as int, rh as int, rw as int);
        }
        if rf.kind == 2 && rf.has_audio && rf.audio_t > 0 {
            let t: usize = rf.audio_t as usize;
            segs.push(
                RefSeg {
                    kind: rf.kind,
                    row0: rows.len(),
                    rows: t * 2,
                    latent_t: 0,
                    lat_h: 0,
                    lat_w: 0,
                    audio_t: rf.audio_t,
                    audio: true,
                    index,
                },
            );
            audio_grid(rows, origin, t, rh, rw, 3);
        }
        let n: usize = video_count(vt, rh, rw);
        segs.push(
            RefSeg {
                kind: rf.kind,
                row0: rows.len(),
                rows: n,
                latent_t: if rf.kind == 0 {
                    1
                } else {
                    rf.latent_t
                },
                lat_h: rf.lat_h,
                lat_w: rf.lat_w,
                audio_t: 0,
                audio: false,
                index,
            },
        );
        video_grid(rows, origin, vt, rh, rw, 2);
    } else if rf.audio_t > 0 {
        let t: usize = rf.audio_t as usize;
        segs.push(
            RefSeg {
                kind: 1,
                row0: rows.len(),
                rows: t * 2,
                latent_t: 0,
                lat_h: 0,
                lat_w: 0,
                audio_t: rf.audio_t,
                audio: true,
                index,
            },
        );
        audio_grid(rows, origin, t, h, w, 3);
    }
    assert(rows.all() =~= before + ref_block(*rf, index as int, h as int, w as int));
    assert(segs@ =~= segs0 + ref_segs_of(*rf, index as int, before.len() as int));
}

proof fn lemma_blocks_grow(refs: Seq<Ref>, n: int, h: int, w: int)
    requires
        0 <= n <= refs.len(),
    ensures
        ref_blocks(refs.take(n), h, w).len() <= ref_blocks(refs, h, w).len(),
    decreases refs.len() - n,
{
    if n < refs.len() {
        lemma_blocks_grow(refs, n + 1, h, w);
        assert(refs.take(n + 1).drop_last() =~= refs.take(n));
    } else {
        assert(refs.take(n) =~= refs);
    }
}

proof fn lemma_keyframe_blocks_grow(kfs: Seq<Keyframe>, n: int, h: int, w: int)
    requires
        0 <= n <= kfs.len(),
    ensures
        keyframe_blocks(kfs.take(n), h, w).len() <= keyframe_blocks(kfs, h, w).len(),
    decreases kfs.len() - n,
{
    if n < kfs.len() {
        lemma_keyframe_blocks_grow(kfs, n + 1, h, w);
        assert(kfs.take(n + 1).drop_last() =~= kfs.take(n));
    } else {
        assert(kfs.take(n) =~= kfs);
    }
}

/// What the layout of a sequence says when its rows do not fill it.
pub open spec fn mismatch_text(rows: nat, seq_len: nat) -> Seq<char> {
    "layout row count mismatch: "@ + text::decimal(rows) + " rows for a sequence of "@
        + text::decimal(seq_len)
}

impl Layout {
    /// The rows of the sequence.
    pub open spec fn rows(self) -> Seq<Row> {
        Seq::new(
            self.pos@.len(),
            |i: int| Row { pos: self.pos@[i], adaln: self.adaln_rows@[i], tclass: self.tclass@[i] },
        )
    }

    /// Every row carries all three of its values, and the parts of the sequence add up to it.
    pub open spec fn wf(self) -> bool {
        &&& self.pos@.len() == self.seq_len
        &&& self.adaln_rows@.len() == self.seq_len
        &&& self.tclass@.len() == self.seq_len
        &&& self.text_len + self.ref_rows + self.audio_rows + self.video_rows == self.seq_len
        &&& 3 * self.seq_len <= usize::MAX
    }

    /// Lays a sequence out.
    ///
    /// A reference of no known kind sets aside the rows of a picture and packs those of a sound; where
    /// the two differ the sequence is not filled, and that is the error.
    pub fn new(
        text_len: usize,
        latent_t: usize,
        lat_h: usize,
        lat_w: usize,
        audio_t: usize,
        refs: &[Ref],
        kfs: &[Keyframe],
    ) -> (result: Result<Self, String>)
        requires
            lat_w >= 2,
            lat_h * lat_w <= usize::MAX,
            forall|i: int| 0 <= i < refs@.len() ==> (#[trigger] refs@[i]).valid(),
            3 * packed_count(
                text_len as int,
                latent_t as int,
                lat_h as int,
                lat_w as int,
                audio_t as int,
                refs@,
                kfs@,
            ) <= usize::MAX,
            packed(
                text_len as int,
                latent_t as int,
                lat_h as int,
                lat_w as int,
                audio_t as int,
                refs@,
                kfs@,
            ).len() <= packed_count(
                text_len as int,
                latent_t as int,
                lat_h as int,
                lat_w as int,
                audio_t as int,
                refs@,
                kfs@,
            ),
        ensures
            ({
                let (h, w) = (lat_h as int, lat_w as int);
                let rows = packed(text_len as int, latent_t as int, h, w, audio_t as int, refs@, kfs@);
                let count = packed_count(
                    text_len as int,
                    latent_t as int,
                    h,
                    w,
                    audio_t as int,
                    refs@,
                    kfs@,
                );
                match result {
                    Ok(l) => {
                        &&& rows.len() == count
                        &&& l.wf()
                        &&& (l.text_len, l.latent_t, l.lat_h, l.lat_w, l.audio_t) == (
                            text_len,
                            latent_t,
                            lat_h,
                            lat_w,
                            audio_t,
                        )
                        &&& l.ref_rows == ref_counts(refs@) + keyframe_counts(kfs@, h, w)
                        &&& l.audio_rows == 2 * audio_t
                        &&& l.video_rows == video_len(latent_t as int, h, w)
                        &&& l.seq_len == count
                        &&& l.rows() == rows
                        &&& l.ref_segs@ == packed_segs(text_len as int, h, w, refs@, kfs@)
                    },
                    Err(message) => {
                        &&& rows.len() != count
                        &&& message@ == mismatch_text(rows.len(), count as nat)
                    },
                }
            }),
    {
        let ghost (h, w) = (lat_h as int, lat_w as int);
        let ghost all = packed(
            text_len as int,
            latent_t as int,
            h,
            w,
            audio_t as int,
            refs@,
            kfs@,
        );
        proof {
            lemma_counts_natural(refs@);
            lemma_keyframe_counts_natural(kfs@, h, w);
            lemma_video_len_counts(latent_t as int, h, w);
        }
        let audio_rows: usize = audio_t * 2;
        let video_rows: usize = video_count(latent_t, lat_h, lat_w);
        let ref_rows: usize = count_refs(refs) + count_keyframes(kfs, lat_h, lat_w);
        let seq_len: usize = text_len + ref_rows + audio_rows + video_rows;

        let mut rows = Rows { pos: Vec::new(), adaln: Vec::new(), tclass: Vec::new() };
        let mut segs: Vec<RefSeg> = Vec::new();
        text_rows(&mut rows, text_len);
        let ghost texts = text_block(text_len as nat);
        assert(rows.all() =~= texts);
        let mut i: usize = 0;
        assert(kfs@.take(0).len() == 0);
        assert(rows.all() =~= texts + keyframe_blocks(kfs@.take(0), h, w));
        while i < kfs.len()
            invariant
                i <= kfs@.len(),
                lat_w >= 2,
                h == lat_h,
                w == lat_w,
                rows.aligned(),
                texts.len() == text_len,
                text_len + keyframe_blocks(kfs@, h, w).len() <= usize::MAX,
                rows.all() == texts + keyframe_blocks(kfs@.take(i as int), h, w),
                segs@ == all_keyframe_segs(kfs@.take(i as int), text_len as int, h, w),
            decreases kfs@.len() - i,
        {
            proof {
                lemma_keyframe_blocks_grow(kfs@, i + 1, h, w);
                assert(kfs@.take(i + 1).drop_last() =~= kfs@.take(i as int));
                assert(kfs@.take(i + 1).last() == kfs@[i as int]);
            }
            pack_keyframe(&mut rows, &mut segs, &kfs[i], i, lat_h, lat_w);
            assert(rows.all() =~= texts + keyframe_blocks(kfs@.take(i + 1), h, w));
            i += 1;
        }
        assert(kfs@.take(i as int) =~= kfs@);
        let ghost heads = texts + keyframe_blocks(kfs@, h, w);
        let ghost head_segs = all_keyframe_segs(kfs@, text_len as int, h, w);
        let mut j: usize = 0;
        assert(refs@.take(0).len() == 0);
        assert(rows.all() =~= heads + ref_blocks(refs@.take(0), h, w));
        assert(segs@ =~= head_segs + all_ref_segs(refs@.take(0), heads.len() as int, h, w));
        while j < refs.len()
            invariant
                j <= refs@.len(),
                lat_w >= 2,
                h == lat_h,
                w == lat_w,
                rows.aligned(),
                forall|i: int| 0 <= i < refs@.len() ==> (#[trigger] refs@[i]).valid(),
                heads.len() + ref_blocks(refs@, h, w).len() <= usize::MAX,
                rows.all() == heads + ref_blocks(refs@.take(j as int), h, w),
                segs@ == head_segs + all_ref_segs(refs@.take(j as int), heads.len() as int, h, w),
            decreases refs@.len() - j,
        {
            proof {
                lemma_blocks_grow(refs@, j + 1, h, w);
                assert(refs@.take(j + 1).drop_last() =~= refs@.take(j as int));
                assert(refs@.take(j + 1).last() == refs@[j as int]);
                assert(refs@[j as int].valid());
            }
            pack_ref(&mut rows, &mut segs, &refs[j], j, lat_h, lat_w);
            assert(rows.all() =~= heads + ref_blocks(refs@.take(j + 1), h, w));
            assert(segs@ =~= head_segs + all_ref_segs(refs@.take(j + 1), heads.len() as int, h, w));
            j += 1;
        }
        assert(refs@.take(j as int) =~= refs@);
        let end = Origin::Cursor(refs.len());
        audio_grid(&mut rows, end, audio_t, lat_h, lat_w, 1);
        video_grid(&mut rows, end, latent_t, lat_h, lat_w, 0);
        assert(rows.all() =~= all);
        assert(segs@ =~= packed_segs(text_len as int, h, w, refs@, kfs@));
        let r: usize = rows.len();
        if r != seq_len {
            let mut message = String::from_str("layout row count mismatch: ");
            text::push_decimal(&mut message, r as u64);
            message.append(" rows for a sequence of ");
            text::push_decimal(&mut message, seq_len as u64);
            return Err(message);
        }
        let l = Layout {
            text_len,
            latent_t,
            lat_h,
            lat_w,
            audio_t,
            ref_rows,
            audio_rows,
            video_rows,
            seq_len,
            pos: rows.pos,
            adaln_rows: rows.adaln,
            tclass: rows.tclass,
            ref_segs: segs,
        };
        assert(l.rows() =~= all);
        Ok(l)
    }

    /// Zeroes the AdaLN row of an embedding span and the tokens flanking it, so a vision span is not
    /// modulated as text.
    pub fn mark_vision(&mut self, start: usize, count: usize) -> (result: Result<(), String>)
        requires
            old(self).wf(),
        ensures
            result is Ok <==> start + count <= old(self).text_len,
            result matches Err(e) ==> e@ == "vision span outside presentation"@ && *final(self)
                == *old(self),
            result is Ok ==> ({
                &&& final(self).wf()
                &&& (Layout { adaln_rows: final(self).adaln_rows, ..*old(self) }) == *final(self)
                &&& forall|i: int|
                    0 <= i < old(self).seq_len ==> #[trigger] final(self).adaln_rows@[i] == if start - 1
                        <= i <= start + count && i < old(self).text_len {
                        0
                    } else {
                        old(self).adaln_rows@[i]
                    }
            }),
    {
        if start > self.text_len || count > self.text_len - start {
            return Err(String::from_str("vision span outside presentation"));
        }
        let begin: usize = if start == 0 {
            0
        } else {
            start - 1
        };
        let end: usize = if start + count < self.text_len {
            start + count + 1
        } else {
            self.text_len
        };
        let mut i: usize = begin;
        while i < end
            invariant
                begin <= i <= end <= self.text_len,
                self.wf(),
                old(self).wf(),
                (Layout { adaln_rows: self.adaln_rows, ..*old(self) }) == *self,
                forall|k: int|
                    0 <= k < old(self).seq_len ==> #[trigger] self.adaln_rows@[k] == if begin <= k
                        < i {
                        0
                    } else {
                        old(self).adaln_rows@[k]
                    },
            decreases end - i,
        {
            self.adaln_rows.set(i, 0);
            i += 1;
        }
        Ok(())
    }

    /// Where the target video's rows begin.
    pub fn video_span_start(&self) -> (row: usize)
        requires
            self.wf(),
        ensures
            row == self.seq_len - self.video_rows,
    {
        self.seq_len - self.video_rows
    }
}

/// Whether the segments follow each other without a gap, from row `from` up to row `to`.
pub open spec fn chained(segs: Seq<RefSeg>, from: int, to: int) -> bool {
    if segs.len() == 0 {
        from == to
    } else {
        &&& segs[0].row0 == from
        &&& segs.last().row0 + segs.last().rows == to
        &&& forall|i: int|
            0 <= i < segs.len() - 1 ==> (#[trigger] segs[i]).row0 + segs[i].rows == segs[i + 1].row0
    }
}

proof fn lemma_chained_joins(a: Seq<RefSeg>, b: Seq<RefSeg>, x: int, y: int, z: int)
    requires
        chained(a, x, y),
        chained(b, y, z),
    ensures
        chained(a + b, x, z),
{
    let c = a + b;
    if a.len() == 0 {
        assert(c =~= b);
    } else if b.len() == 0 {
        assert(c =~= a);
    } else {
        assert forall|i: int| 0 <= i < c.len() - 1 implies (#[trigger] c[i]).row0 + c[i].rows == c[i
            + 1].row0 by {
            if i < a.len() - 1 {
                assert(c[i] == a[i] && c[i + 1] == a[i + 1]);
            } else if i >= a.len() {
                assert(c[i] == b[i - a.len()] && c[i + 1] == b[i - a.len() + 1]);
            }
        }
        assert(c.last() == b.last());
    }
}

proof fn lemma_keyframe_segs_chain(kfs: Seq<Keyframe>, row0: int, h: int, w: int)
    requires
        row0 >= 0,
        h >= 0,
        w >= 0,
        row0 + keyframe_blocks(kfs, h, w).len() <= usize::MAX,
    ensures
        chained(
            all_keyframe_segs(kfs, row0, h, w),
            row0,
            row0 + keyframe_blocks(kfs, h, w).len(),
        ),
    decreases kfs.len(),
{
    if kfs.len() > 0 {
        let rest = kfs.drop_last();
        lemma_keyframe_segs_chain(rest, row0, h, w);
        lemma_video_len_counts(1, h, w);
        let mid = row0 + keyframe_blocks(rest, h, w).len();
        let last = keyframe_segs(kfs.last(), kfs.len() - 1, mid, h, w);
        assert(chained(last, mid, mid + keyframe_block(kfs.last(), h, w).len()));
        lemma_chained_joins(
            all_keyframe_segs(rest, row0, h, w),
            last,
            row0,
            mid,
            mid + keyframe_block(kfs.last(), h, w).len(),
        );
    }
}

proof fn lemma_one_ref_chains(rf: Ref, index: int, row0: int, h: int, w: int)
    requires
        row0 >= 0,
        rf.valid(),
        row0 + ref_block(rf, index, h, w).len() <= usize::MAX,
    ensures
        chained(ref_segs_of(rf, index, row0), row0, row0 + ref_block(rf, index, h, w).len()),
{
    if rf.kind != 1 {
        lemma_video_len_counts(ref_frames(rf), rf.lat_h as int, rf.lat_w as int);
    }
}

proof fn lemma_ref_segs_chain(refs: Seq<Ref>, row0: int, h: int, w: int)
    requires
        row0 >= 0,
        forall|i: int| 0 <= i < refs.len() ==> (#[trigger] refs[i]).valid(),
        row0 + ref_blocks(refs, h, w).len() <= usize::MAX,
    ensures
        chained(all_ref_segs(refs, row0, h, w), row0, row0 + ref_blocks(refs, h, w).len()),
    decreases refs.len(),
{
    if refs.len() > 0 {
        let rest = refs.drop_last();
        let rf = refs.last();
        assert(rf == refs[refs.len() - 1] && rf.valid());
        lemma_ref_segs_chain(rest, row0, h, w);
        let mid = row0 + ref_blocks(rest, h, w).len();
        let last = ref_segs_of(rf, refs.len() - 1, mid);
        let end = mid + ref_block(rf, refs.len() - 1, h, w).len();
        lemma_one_ref_chains(rf, refs.len() - 1, mid, h, w);
        lemma_chained_joins(all_ref_segs(rest, row0, h, w), last, row0, mid, end);
    }
}

/// The segments tile the conditioning rows: the first begins where the text ends, each begins where
/// the one before it ends, and the last ends where the target's sound begins.
pub proof fn law_segments_tile_the_conditioning_rows(
    text_len: nat,
    h: nat,
    w: nat,
    refs: Seq<Ref>,
    kfs: Seq<Keyframe>,
)
    requires
        forall|i: int| 0 <= i < refs.len() ==> (#[trigger] refs[i]).valid(),
        text_len + keyframe_blocks(kfs, h as int, w as int).len() + ref_blocks(
            refs,
            h as int,
            w as int,
        ).len() <= usize::MAX,
    ensures
        chained(
            packed_segs(text_len as int, h as int, w as int, refs, kfs),
            text_len as int,
            (text_len + keyframe_blocks(kfs, h as int, w as int).len() + ref_blocks(
                refs,
                h as int,
                w as int,
            ).len()) as int,
        ),
{
    let mid: int = text_len + keyframe_blocks(kfs, h as int, w as int).len() as int;
    lemma_keyframe_segs_chain(kfs, text_len as int, h as int, w as int);
    lemma_ref_segs_chain(refs, mid, h as int, w as int);
    lemma_chained_joins(
        all_keyframe_segs(kfs, text_len as int, h as int, w as int),
        all_ref_segs(refs, mid, h as int, w as int),
        text_len as int,
        mid,
        mid + ref_blocks(refs, h as int, w as int).len(),
    );
}

proof fn lemma_ref_blocks_fill(refs: Seq<Ref>, h: int, w: int)
    requires
        forall|i: int|
            0 <= i < refs.len() ==> (#[trigger] refs[i]).valid() && 0 <= refs[i].kind <= 2,
    ensures
        ref_blocks(refs, h, w).len() == ref_counts(refs),
    decreases refs.len(),
{
    if refs.len() > 0 {
        lemma_ref_blocks_fill(refs.drop_last(), h, w);
        let rf = refs.last();
        assert(rf == refs[refs.len() - 1] && rf.valid());
        if rf.kind != 1 {
            lemma_video_len_counts(ref_frames(rf), rf.lat_h as int, rf.lat_w as int);
        }
    }
}

proof fn lemma_keyframe_blocks_fill(kfs: Seq<Keyframe>, h: int, w: int)
    requires
        h >= 0,
        w >= 0,
    ensures
        keyframe_blocks(kfs, h, w).len() == keyframe_counts(kfs, h, w),
    decreases kfs.len(),
{
    if kfs.len() > 0 {
        lemma_keyframe_blocks_fill(kfs.drop_last(), h, w);
        lemma_video_len_counts(1, h, w);
    }
}

/// References of the three documented kinds fill exactly the rows set aside for them, so the layout
/// of a sequence that has no others is never refused.
pub proof fn law_documented_references_fill_the_sequence(
    text_len: nat,
    latent_t: nat,
    h: nat,
    w: nat,
    audio_t: nat,
    refs: Seq<Ref>,
    kfs: Seq<Keyframe>,
)
    requires
        forall|i: int|
            0 <= i < refs.len() ==> (#[trigger] refs[i]).valid() && 0 <= refs[i].kind <= 2,
    ensures
        packed(
            text_len as int,
            latent_t as int,
            h as int,
            w as int,
            audio_t as int,
            refs,
            kfs,
        ).len() == packed_count(
            text_len as int,
            latent_t as int,
            h as int,
            w as int,
            audio_t as int,
            refs,
            kfs,
        ),
{
    lemma_ref_blocks_fill(refs, h as int, w as int);
    lemma_keyframe_blocks_fill(kfs, h as int, w as int);
    lemma_video_len_counts(latent_t as int, h as int, w as int);
}

/// Whether a row is a conditioning one: a reference's picture or its sound, by class and by tag.
pub open spec fn conditions(row: Row) -> bool {
    ||| row.tclass == 2 && row.adaln == 6
    ||| row.tclass == 3 && row.adaln == 11
}

/// Whether a row is a generated one: the target's picture or its sound, by class and by tag.
pub open spec fn generated(row: Row) -> bool {
    ||| row.tclass == 0 && row.adaln == 0
    ||| row.tclass == 1 && row.adaln == 5
}

proof fn lemma_keyframe_rows_condition(kfs: Seq<Keyframe>, h: int, w: int)
    ensures
        forall|i: int|
            0 <= i < keyframe_blocks(kfs, h, w).len() ==> conditions(
                #[trigger] keyframe_blocks(kfs, h, w)[i],
            ),
    decreases kfs.len(),
{
    if kfs.len() > 0 {
        let rest = keyframe_blocks(kfs.drop_last(), h, w);
        let all = keyframe_blocks(kfs, h, w);
        lemma_keyframe_rows_condition(kfs.drop_last(), h, w);
        assert forall|i: int| 0 <= i < all.len() implies conditions(#[trigger] all[i]) by {
            if i < rest.len() {
                assert(all[i] == rest[i]);
            } else {
                assert(all[i] == keyframe_block(kfs.last(), h, w)[i - rest.len()]);
            }
        }
    }
}

proof fn lemma_ref_rows_condition(refs: Seq<Ref>, h: int, w: int)
    ensures
        forall|i: int|
            0 <= i < ref_blocks(refs, h, w).len() ==> conditions(
                #[trigger] ref_blocks(refs, h, w)[i],
            ),
    decreases refs.len(),
{
    if refs.len() > 0 {
        let rest = ref_blocks(refs.drop_last(), h, w);
        let all = ref_blocks(refs, h, w);
        lemma_ref_rows_condition(refs.drop_last(), h, w);
        assert forall|i: int| 0 <= i < all.len() implies conditions(#[trigger] all[i]) by {
            if i < rest.len() {
                assert(all[i] == rest[i]);
            } else {
                assert(all[i] == ref_block(refs.last(), refs.len() - 1, h, w)[i - rest.len()]);
            }
        }
    }
}

/// What class and tag each part of the sequence carries: text has the first class and the text tag,
/// keyframes and references the two conditioning classes, and the generated span the final norm's own
/// two classes.
pub proof fn law_classes_follow_the_parts(
    text_len: nat,
    latent_t: nat,
    h: nat,
    w: nat,
    audio_t: nat,
    refs: Seq<Ref>,
    kfs: Seq<Keyframe>,
    i: int,
)
    requires
        0 <= i < packed(
            text_len as int,
            latent_t as int,
            h as int,
            w as int,
            audio_t as int,
            refs,
            kfs,
        ).len(),
    ensures
        ({
            let rows = packed(
                text_len as int,
                latent_t as int,
                h as int,
                w as int,
                audio_t as int,
                refs,
                kfs,
            );
            let generated_from = text_len + keyframe_blocks(kfs, h as int, w as int).len()
                + ref_blocks(refs, h as int, w as int).len();
            if i < text_len {
                rows[i].tclass == 0 && rows[i].adaln == 1
            } else if i < generated_from {
                conditions(rows[i])
            } else {
                generated(rows[i])
            }
        }),
{
    lemma_keyframe_rows_condition(kfs, h as int, w as int);
    lemma_ref_rows_condition(refs, h as int, w as int);
    let rows = packed(
        text_len as int,
        latent_t as int,
        h as int,
        w as int,
        audio_t as int,
        refs,
        kfs,
    );
    let a = text_len as int;
    let b = a + keyframe_blocks(kfs, h as int, w as int).len();
    let c = b + ref_blocks(refs, h as int, w as int).len();
    if a <= i < b {
        assert(rows[i] == keyframe_blocks(kfs, h as int, w as int)[i - a]);
    } else if b <= i < c {
        assert(rows[i] == ref_blocks(refs, h as int, w as int)[i - b]);
    }
}

/// Every AdaLN row is a row of the table it indexes: it is its class times the modalities plus a
/// modality tag, and there are as many of those as the table has classes.
pub proof fn law_adaln_rows_index_the_table(
    text_len: nat,
    latent_t: nat,
    h: nat,
    w: nat,
    audio_t: nat,
    refs: Seq<Ref>,
    kfs: Seq<Keyframe>,
    i: int,
)
    requires
        0 <= i < packed(
            text_len as int,
            latent_t as int,
            h as int,
            w as int,
            audio_t as int,
            refs,
            kfs,
        ).len(),
    ensures
        ({
            let row = packed(
                text_len as int,
                latent_t as int,
                h as int,
                w as int,
                audio_t as int,
                refs,
                kfs,
            )[i];
            &&& row.adaln as int / MODALITIES as int == row.tclass
            &&& 0 <= row.adaln < crate::model::CLASSES
        }),
{
    law_classes_follow_the_parts(text_len, latent_t, h, w, audio_t, refs, kfs, i);
}

/// A picture is a grid: the row at line `y` and column `x` of frame `f` stands that many latent frames past the block's
/// origin, and at that cell of each axis.
pub proof fn law_a_picture_is_a_grid(origin: Origin, vt: int, h: int, w: int, cls: int, f: int, y: int, x: int)
    requires
        0 <= f < vt <= usize::MAX,
        0 <= y < h / 2,
        0 <= x < w / 2,
        0 <= h <= usize::MAX,
        0 <= w <= usize::MAX,
        0 <= cls <= 3,
    ensures
        ({
            let at = (f * (h / 2) + y) * (w / 2) + x;
            let row = video_block(origin, vt, h, w, cls)[at];
            &&& 0 <= at < video_block(origin, vt, h, w, cls).len()
            &&& row.pos.t == Time::Video(origin, f as usize)
            &&& row.pos.h == Some(Cell { dim: h as usize, other: w as usize, index: y as usize })
            &&& row.pos.w == Some(Cell { dim: w as usize, other: h as usize, index: x as usize })
            &&& row.adaln == 3 * cls
            &&& row.tclass == cls
        }),
{
    let (gh, gw) = (h / 2, w / 2);
    let at = (f * gh + y) * gw + x;
    let q = y * gw + x;
    radix::lemma_flat2(y, x, gh, gw);
    radix::lemma_flat2(f, q, vt, gh * gw);
    assert(at == f * (gh * gw) + q) by (nonlinear_arith)
        requires
            at == (f * gh + y) * gw + x,
            q == y * gw + x,
    ;
}

/// A sound is two channels, one behind the other: step `k` of each stands that many whole steps past the block's origin,
/// the first channel at the left edge of the canvas and the second at the right.
pub proof fn law_a_sound_is_two_channels(origin: Origin, t: int, h: int, w: int, cls: int, c: int, k: int)
    requires
        0 <= k < t <= usize::MAX,
        0 <= c < 2,
        0 <= h <= usize::MAX,
        2 <= w <= usize::MAX,
        0 <= cls <= 3,
    ensures
        ({
            let row = audio_block(origin, t, h, w, cls)[c * t + k];
            &&& audio_block(origin, t, h, w, cls).len() == 2 * t
            &&& row.pos.t == Time::Audio(origin, k as usize)
            &&& row.pos.h is None
            &&& row.pos.w == Some(
                Cell {
                    dim: w as usize,
                    other: h as usize,
                    index: (if c == 0 {
                        0
                    } else {
                        w / 2 - 1
                    }) as usize,
                },
            )
            &&& row.adaln == 3 * cls + 2
            &&& row.tclass == cls
        }),
{
    assert(c == 0 ==> c * t == 0);
    assert(c == 1 ==> c * t == t);
}

/// Where a row's block starts on the time axis.
pub open spec fn starts_at(row: Row) -> Option<Origin> {
    match row.pos.t {
        Time::Text(_) => None,
        Time::Audio(origin, _) => Some(origin),
        Time::Video(origin, _) => Some(origin),
    }
}

/// Whether a row is of a sound.
pub open spec fn is_sound(row: Row) -> bool {
    row.pos.t is Audio
}

/// The text stands in front, row by row.
pub proof fn law_text_climbs_by_one(
    text_len: nat,
    latent_t: int,
    h: int,
    w: int,
    audio_t: int,
    refs: Seq<Ref>,
    kfs: Seq<Keyframe>,
    i: int,
)
    requires
        0 <= i < text_len <= usize::MAX,
    ensures
        packed(text_len as int, latent_t, h, w, audio_t, refs, kfs)[i].pos == (Position {
            t: Time::Text(i as usize),
            h: None,
            w: None,
        }),
{
}

/// Every row of a reference stands at the origin past exactly the references before it: two references never share one.
/// Its sound, where it has one, comes in front of its pictures.
pub proof fn law_a_reference_stands_past_those_before_it(refs: Seq<Ref>, h: int, w: int, i: int, r: int)
    requires
        0 <= i < refs.len() <= usize::MAX,
        ref_blocks(refs.take(i), h, w).len() <= r < ref_blocks(refs.take(i + 1), h, w).len(),
    ensures
        r < ref_blocks(refs, h, w).len(),
        ref_blocks(refs, h, w)[r] == ref_blocks(refs.take(i + 1), h, w)[r],
        starts_at(ref_blocks(refs, h, w)[r]) == Some(Origin::Cursor(i as usize)),
        ({
            let rf = refs[i];
            let k = r - ref_blocks(refs.take(i), h, w).len();
            is_sound(ref_blocks(refs, h, w)[r]) == if rf.kind == 0 {
                false
            } else if rf.kind == 2 {
                rf.has_audio && rf.audio_t > 0 && k < 2 * rf.audio_t
            } else {
                true
            }
        }),
    decreases refs.len(),
{
    let rest = refs.drop_last();
    let before = ref_blocks(rest, h, w);
    assert(refs.take(i + 1).drop_last() =~= refs.take(i));
    assert(refs.take(i + 1).last() == refs[i]);
    if i == refs.len() - 1 {
        assert(refs.take(i + 1) =~= refs);
        assert(rest =~= refs.take(i));
        assert(ref_blocks(refs, h, w)[r] == ref_block(refs[i], i, h, w)[r - before.len()]);
    } else {
        assert(rest.take(i) =~= refs.take(i));
        assert(rest.take(i + 1) =~= refs.take(i + 1));
        assert(rest[i] == refs[i]);
        law_a_reference_stands_past_those_before_it(rest, h, w, i, r);
        assert(ref_blocks(refs, h, w)[r] == before[r]);
    }
}

/// Every row of a keyframe stands at its own frame: its picture first, then its sound.
pub proof fn law_a_keyframe_stands_at_its_frame(kfs: Seq<Keyframe>, h: int, w: int, i: int, r: int)
    requires
        0 <= i < kfs.len(),
        keyframe_blocks(kfs.take(i), h, w).len() <= r < keyframe_blocks(kfs.take(i + 1), h, w).len(),
        0 <= h,
        0 <= w,
    ensures
        r < keyframe_blocks(kfs, h, w).len(),
        keyframe_blocks(kfs, h, w)[r] == keyframe_blocks(kfs.take(i + 1), h, w)[r],
        starts_at(keyframe_blocks(kfs, h, w)[r]) == Some(Origin::Frame(kfs[i].frame_index)),
        is_sound(keyframe_blocks(kfs, h, w)[r]) == (r - keyframe_blocks(kfs.take(i), h, w).len() >= (h / 2) * (w / 2)),
    decreases kfs.len(),
{
    let rest = kfs.drop_last();
    let before = keyframe_blocks(rest, h, w);
    lemma_video_len_counts(1, h, w);
    assert(kfs.take(i + 1).drop_last() =~= kfs.take(i));
    assert(kfs.take(i + 1).last() == kfs[i]);
    if i == kfs.len() - 1 {
        assert(kfs.take(i + 1) =~= kfs);
        assert(rest =~= kfs.take(i));
        assert(keyframe_blocks(kfs, h, w)[r] == keyframe_block(kfs[i], h, w)[r - before.len()]);
    } else {
        assert(rest.take(i) =~= kfs.take(i));
        assert(rest.take(i + 1) =~= kfs.take(i + 1));
        assert(rest[i] == kfs[i]);
        law_a_keyframe_stands_at_its_frame(rest, h, w, i, r);
        assert(keyframe_blocks(kfs, h, w)[r] == before[r]);
    }
}

/// What is generated stands past every reference, at the end: the target's sound, of the sound's class, and then its
/// pictures, of the pictures' class.
pub proof fn law_what_is_generated_stands_last(
    text_len: nat,
    latent_t: nat,
    h: nat,
    w: nat,
    audio_t: nat,
    refs: Seq<Ref>,
    kfs: Seq<Keyframe>,
    k: int,
)
    requires
        refs.len() <= usize::MAX,
        0 <= k < 2 * audio_t + latent_t * ((h / 2) * (w / 2)),
    ensures
        ({
            let rows = packed(
                text_len as int,
                latent_t as int,
                h as int,
                w as int,
                audio_t as int,
                refs,
                kfs,
            );
            let from = text_len + keyframe_blocks(kfs, h as int, w as int).len() + ref_blocks(
                refs,
                h as int,
                w as int,
            ).len();
            &&& rows.len() == from + 2 * audio_t + latent_t * ((h / 2) * (w / 2))
            &&& starts_at(rows[from + k]) == Some(Origin::Cursor(refs.len() as usize))
            &&& is_sound(rows[from + k]) == (k < 2 * audio_t)
            &&& rows[from + k].tclass == if k < 2 * audio_t {
                1int
            } else {
                0
            }
        }),
{
    lemma_video_len_counts(latent_t as int, h as int, w as int);
}

/// A keyframe's rows come behind the text and the keyframes before it, and a reference's behind all the keyframes and the
/// references before it.
pub proof fn law_conditions_stand_between(
    text_len: nat,
    latent_t: int,
    h: int,
    w: int,
    audio_t: int,
    refs: Seq<Ref>,
    kfs: Seq<Keyframe>,
    r: int,
)
    requires
        0 <= r,
    ensures
        ({
            let rows = packed(text_len as int, latent_t, h, w, audio_t, refs, kfs);
            let (a, b) = (keyframe_blocks(kfs, h, w), ref_blocks(refs, h, w));
            &&& r < a.len() ==> rows[text_len + r] == a[r]
            &&& r < b.len() ==> rows[text_len + a.len() + r] == b[r]
        }),
{
}

/// Every segment is of one reference or keyframe, from its first row to its last: each of its rows stands at the origin
/// past the references before that reference, or at that keyframe's frame, and is of a sound where the segment is.
pub proof fn law_a_segments_rows_are_its_own(
    text_len: nat,
    latent_t: int,
    h: nat,
    w: nat,
    audio_t: int,
    refs: Seq<Ref>,
    kfs: Seq<Keyframe>,
    s: int,
    r: int,
)
    requires
        forall|i: int| 0 <= i < refs.len() ==> (#[trigger] refs[i]).valid(),
        refs.len() <= usize::MAX,
        kfs.len() <= usize::MAX,
        text_len + keyframe_blocks(kfs, h as int, w as int).len() + ref_blocks(refs, h as int, w as int).len()
            <= usize::MAX,
        0 <= s < packed_segs(text_len as int, h as int, w as int, refs, kfs).len(),
        ({
            let seg = packed_segs(text_len as int, h as int, w as int, refs, kfs)[s];
            seg.row0 <= r < seg.row0 + seg.rows
        }),
    ensures
        ({
            let seg = packed_segs(text_len as int, h as int, w as int, refs, kfs)[s];
            let row = packed(text_len as int, latent_t, h as int, w as int, audio_t, refs, kfs)[r];
            &&& is_sound(row) == seg.audio
            &&& if s < all_keyframe_segs(kfs, text_len as int, h as int, w as int).len() {
                &&& seg.kind == 3
                &&& seg.index < kfs.len()
                &&& starts_at(row) == Some(Origin::Frame(kfs[seg.index as int].frame_index))
            } else {
                &&& seg.index < refs.len()
                &&& starts_at(row) == Some(Origin::Cursor(seg.index))
            }
        }),
{
    let (hi, wi) = (h as int, w as int);
    let mid = text_len + keyframe_blocks(kfs, hi, wi).len();
    let a = all_keyframe_segs(kfs, text_len as int, hi, wi);
    let rows = packed(text_len as int, latent_t, hi, wi, audio_t, refs, kfs);
    if s < a.len() {
        lemma_keyframe_seg_rows(kfs, text_len as int, hi, wi, s, r);
        assert(rows[r] == keyframe_blocks(kfs, hi, wi)[r - text_len]);
    } else {
        lemma_ref_seg_rows(refs, mid as int, hi, wi, s - a.len(), r);
        assert(rows[r] == ref_blocks(refs, hi, wi)[r - mid]);
    }
}

proof fn lemma_keyframe_seg_rows(kfs: Seq<Keyframe>, row0: int, h: int, w: int, s: int, r: int)
    requires
        0 <= h,
        0 <= w,
        0 <= row0,
        kfs.len() <= usize::MAX,
        row0 + keyframe_blocks(kfs, h, w).len() <= usize::MAX,
        0 <= s < all_keyframe_segs(kfs, row0, h, w).len(),
        all_keyframe_segs(kfs, row0, h, w)[s].row0 <= r < all_keyframe_segs(kfs, row0, h, w)[s].row0
            + all_keyframe_segs(kfs, row0, h, w)[s].rows,
    ensures
        ({
            let seg = all_keyframe_segs(kfs, row0, h, w)[s];
            let rows = keyframe_blocks(kfs, h, w);
            &&& 0 <= r - row0 < rows.len()
            &&& is_sound(rows[r - row0]) == seg.audio
            &&& seg.kind == 3
            &&& seg.index < kfs.len()
            &&& starts_at(rows[r - row0]) == Some(Origin::Frame(kfs[seg.index as int].frame_index))
        }),
    decreases kfs.len(),
{
    let rest = kfs.drop_last();
    let kf = kfs.last();
    let before = keyframe_blocks(rest, h, w);
    let segs = all_keyframe_segs(rest, row0, h, w);
    let rows = keyframe_blocks(kfs, h, w);
    let block = keyframe_block(kf, h, w);
    lemma_video_len_counts(1, h, w);
    if s < segs.len() {
        lemma_keyframe_seg_rows(rest, row0, h, w, s, r);
        assert(rows[r - row0] == before[r - row0]);
        let seg = segs[s];
        assert(rest[seg.index as int] == kfs[seg.index as int]);
    } else {
        let seg = keyframe_segs(kf, kfs.len() - 1, row0 + before.len(), h, w)[s - segs.len()];
        let k = r - row0 - before.len();
        assert(rows[r - row0] == block[k]);
    }
}

proof fn lemma_ref_seg_rows(refs: Seq<Ref>, row0: int, h: int, w: int, s: int, r: int)
    requires
        forall|i: int| 0 <= i < refs.len() ==> (#[trigger] refs[i]).valid(),
        0 <= row0,
        refs.len() <= usize::MAX,
        row0 + ref_blocks(refs, h, w).len() <= usize::MAX,
        0 <= s < all_ref_segs(refs, row0, h, w).len(),
        all_ref_segs(refs, row0, h, w)[s].row0 <= r < all_ref_segs(refs, row0, h, w)[s].row0 + all_ref_segs(
            refs,
            row0,
            h,
            w,
        )[s].rows,
    ensures
        ({
            let seg = all_ref_segs(refs, row0, h, w)[s];
            let rows = ref_blocks(refs, h, w);
            &&& 0 <= r - row0 < rows.len()
            &&& is_sound(rows[r - row0]) == seg.audio
            &&& seg.index < refs.len()
            &&& starts_at(rows[r - row0]) == Some(Origin::Cursor(seg.index))
        }),
    decreases refs.len(),
{
    let rest = refs.drop_last();
    let rf = refs.last();
    assert(rf == refs[refs.len() - 1] && rf.valid());
    let before = ref_blocks(rest, h, w);
    let segs = all_ref_segs(rest, row0, h, w);
    let rows = ref_blocks(refs, h, w);
    let block = ref_block(rf, refs.len() - 1, h, w);
    if s < segs.len() {
        assert forall|i: int| 0 <= i < rest.len() implies (#[trigger] rest[i]).valid() by {
            assert(rest[i] == refs[i]);
        }
        lemma_ref_seg_rows(rest, row0, h, w, s, r);
        assert(rows[r - row0] == before[r - row0]);
    } else {
        if rf.kind == 0 || rf.kind == 2 {
            lemma_video_len_counts(ref_frames(rf), rf.lat_h as int, rf.lat_w as int);
        }
        let seg = ref_segs_of(rf, refs.len() - 1, row0 + before.len())[s - segs.len()];
        let k = r - row0 - before.len();
        assert(rows[r - row0] == block[k]);
    }
}

// The schedule.

/// Whether two numbers are told apart the same way every time.
pub open spec fn tells<T, S: Fn(T, T) -> bool>(same: S) -> bool {
    &&& forall|a: T, b: T| #[trigger] call_requires(same, (a, b))
    &&& forall|a: T, b: T, r: bool, s: bool| #[trigger]
        call_ensures(same, (a, b), r) && #[trigger] call_ensures(same, (a, b), s) ==> r == s
}

/// Whether two numbers are the same.
pub open spec fn are_same<T, S: Fn(T, T) -> bool>(same: S, a: T, b: T) -> bool {
    call_ensures(same, (a, b), true)
}

/// Points with each left out that is the same as the last one kept.
pub open spec fn kept<T, S: Fn(T, T) -> bool>(points: Seq<T>, same: S) -> Seq<T>
    decreases points.len(),
{
    if points.len() == 0 {
        Seq::empty()
    } else {
        let before = kept(points.drop_last(), same);
        if before.len() > 0 && are_same(same, before.last(), points.last()) {
            before
        } else {
            before.push(points.last())
        }
    }
}

/// The levels kept are those that change: the first point is kept, and behind any points another is kept where it is not
/// the same as the last one kept, and left out where it is.
pub proof fn law_a_level_is_kept_where_it_changes<T, S: Fn(T, T) -> bool>(points: Seq<T>, next: T, same: S)
    ensures
        kept(seq![next], same) == seq![next],
        points.len() > 0 ==> kept(points, same).len() > 0,
        points.len() > 0 && !call_ensures(same, (kept(points, same).last(), next), true) ==> kept(points.push(next), same)
            == kept(points, same).push(next),
        points.len() > 0 && call_ensures(same, (kept(points, same).last(), next), true) ==> kept(points.push(next), same)
            == kept(points, same),
    decreases points.len(),
{
    assert(seq![next].drop_last() =~= Seq::empty());
    assert(kept(Seq::<T>::empty(), same) =~= Seq::empty());
    assert(kept(seq![next], same) =~= seq![next]);
    assert(points.push(next).drop_last() =~= points);
    if points.len() > 0 {
        law_a_level_is_kept_where_it_changes(points.drop_last(), points.last(), same);
        assert(points.drop_last().push(points.last()) =~= points);
        if points.len() == 1 {
            assert(points =~= seq![points.last()]);
        }
    }
}

/// The noise levels of a run, and the timesteps the network sees them as.
///
/// The grid is deduplicated on exact equality of the numbers it is made of, so how many evaluations there are can
/// depend on their rounding.
pub struct Schedule<T> {
    pub sigmas: Vec<T>,
    pub timesteps: Vec<T>,
}

impl<T: Copy> Schedule<T> {
    /// A grid of so many points. `point` is the level of one of them, `same` whether two levels are equal, and
    /// `timestep` what the network sees a level as. The last level is where the run ends, so it has no timestep.
    pub fn new<P: Fn(usize) -> T, S: Fn(T, T) -> bool, C: Fn(T) -> T>(
        steps: usize,
        point: P,
        same: S,
        timestep: C,
    ) -> (schedule: Self)
        requires
            forall|i: usize| i < steps ==> #[trigger] call_requires(point, (i,)),
            tells(same),
            forall|s: T| #[trigger] call_requires(timestep, (s,)),
        ensures
            exists|points: Seq<T>|
                #![trigger kept(points, same)]
                points.len() == steps && schedule.sigmas@ == kept(points, same) && forall|i: int|
                    0 <= i < steps ==> call_ensures(point, (i as usize,), #[trigger] points[i]),
            schedule.sigmas@.len() <= steps,
            steps > 0 ==> schedule.sigmas@.len() > 0,
            forall|i: int|
                0 < i < schedule.sigmas@.len() ==> !are_same(
                    same,
                    schedule.sigmas@[i - 1],
                    #[trigger] schedule.sigmas@[i],
                ),
            schedule.timesteps@.len() == if schedule.sigmas@.len() == 0 {
                0
            } else {
                schedule.sigmas@.len() - 1
            },
            forall|i: int|
                0 <= i < schedule.timesteps@.len() ==> call_ensures(
                    timestep,
                    (schedule.sigmas@[i],),
                    #[trigger] schedule.timesteps@[i],
                ),
    {
        let mut sigmas: Vec<T> = Vec::new();
        let ghost mut points: Seq<T> = Seq::empty();
        let mut i: usize = 0;
        while i < steps
            invariant
                i <= steps,
                points.len() == i,
                forall|i: usize| i < steps ==> #[trigger] call_requires(point, (i,)),
                tells(same),
                forall|k: int|
                    0 <= k < i ==> call_ensures(point, (k as usize,), #[trigger] points[k]),
                sigmas@ == kept(points, same),
                sigmas@.len() <= i,
                i > 0 ==> sigmas@.len() > 0,
                forall|k: int|
                    0 < k < sigmas@.len() ==> !are_same(
                        same,
                        sigmas@[k - 1],
                        #[trigger] sigmas@[k],
                    ),
            decreases steps - i,
        {
            let v = point(i);
            let ghost before = points;
            proof {
                points = points.push(v);
                assert(points.drop_last() =~= before);
            }
            let repeated: bool = if sigmas.len() > 0 {
                same(sigmas[sigmas.len() - 1], v)
            } else {
                false
            };
            if !repeated {
                sigmas.push(v);
            }
            i += 1;
        }
        assert(sigmas@ == kept(points, same));
        let mut timesteps: Vec<T> = Vec::new();
        let seen: usize = if sigmas.len() == 0 {
            0
        } else {
            sigmas.len() - 1
        };
        let mut i: usize = 0;
        while i < seen
            invariant
                i <= seen <= sigmas@.len(),
                timesteps@.len() == i,
                forall|s: T| #[trigger] call_requires(timestep, (s,)),
                forall|k: int|
                    0 <= k < timesteps@.len() ==> call_ensures(
                        timestep,
                        (sigmas@[k],),
                        #[trigger] timesteps@[k],
                    ),
            decreases seen - i,
        {
            let t = timestep(sigmas[i]);
            timesteps.push(t);
            i += 1;
        }
        Schedule { sigmas, timesteps }
    }
}

/// The smallest frame count of the form `17n + 5`, not below `n`, that is a frame count at all.
pub open spec fn aligned_frames(n: int, m: int) -> bool {
    &&& m >= n
    &&& m >= 5
    &&& m % 17 == 5
    &&& m == 5 || m - 17 < n
}

/// The frame count the model actually produces: the next `17n + 5`.
pub fn align_frames(n: i32) -> (m: i32)
    requires
        n <= 2147483644,
    ensures
        aligned_frames(n as int, m as int),
{
    let mut m: i32 = n;
    if m < 5 {
        return 5;
    }
    while m % 17 != 5
        invariant
            5 <= n <= m <= 2147483644,
            m - 17 < n,
            forall|k: int| n <= k < m ==> #[trigger] (k % 17) != 5,
        decreases 2147483644 - m,
    {
        assert(2147483644int % 17 == 5);
        proof {
            if m + 1 - 17 >= n {
                // Seventeen numbers in a row hold one of each remainder.
                let k = m - (m % 17 + 12) % 17;
                assert(k % 17 == 5);
                assert(n <= k < m);
            }
        }
        m += 1;
    }
    m
}

/// Canvas sides and frame counts the pipeline accepts; every derived count fits an `i32`.
pub const MAX_SIDE: i32 = 8192;

pub const MAX_FRAMES: i32 = 0x10_0000;

/// The canvases the pipeline accepts: whole multiples of 32, from 32 up to the largest side.
pub open spec fn canvas(height: int, width: int) -> bool {
    &&& 32 <= height <= MAX_SIDE && height % 32 == 0
    &&& 32 <= width <= MAX_SIDE && width % 32 == 0
}

pub fn valid_canvas(height: i32, width: i32) -> (valid: bool)
    ensures
        valid == canvas(height as int, width as int),
{
    height >= 32 && width >= 32 && height <= MAX_SIDE && width <= MAX_SIDE && height % 32 == 0
        && width % 32 == 0
}

#[derive(Debug, Clone, Copy, PartialEq, Eq, Structural, Default)]
pub struct Shape {
    pub frames: i32,
    pub latent_t: i32,
    pub lat_h: i32,
    pub lat_w: i32,
    pub audio_t: i32,
    pub text_rows_max: i32,
}

/// The shape a request of this canvas and so many frames produces.
pub open spec fn served(s: Shape, height: int, width: int, frames: int) -> bool {
    &&& aligned_frames(frames, s.frames as int)
    &&& s.latent_t == (s.frames - 5) / 17 * 5 + 2
    &&& s.lat_h * 16 == height
    &&& s.lat_w * 16 == width
    &&& -12 < 24 * s.audio_t - 40 * s.frames < 12
    &&& s.text_rows_max == 4096
}

/// The shapes a request produces, or `None` when the request is not one this model can serve.
///
/// The frame count is the next the model makes, never under its smallest clip. Five latent frames
/// stand for every seventeen past the first five, which take two. The sound has the whole number of
/// latents nearest to the clip's length, at forty a second and twenty-four frames a second.
pub fn shape_for(height: i32, width: i32, frames: i32) -> (shape: Option<Shape>)
    ensures
        shape is Some <==> canvas(height as int, width as int) && 1 <= frames <= MAX_FRAMES,
        shape matches Some(s) ==> served(s, height as int, width as int, frames as int),
{
    if !valid_canvas(height, width) || !(1 <= frames && frames <= MAX_FRAMES) {
        return None;
    }
    let frames: i32 = align_frames(
        if frames < 5 {
            5
        } else {
            frames
        },
    );
    Some(
        Shape {
            frames,
            latent_t: (frames - 5) / 17 * 5 + 2,
            lat_h: height / 16,
            lat_w: width / 16,
            audio_t: (5 * frames + 1) / 3,
            text_rows_max: 4096,
        },
    )
}

/// A served request's latents are whole patches of two by two, and there are at least two latent
/// frames of them; the sound is at least as long as the picture has frames.
pub proof fn law_served_shapes_patch(s: Shape, height: int, width: int, frames: int)
    requires
        canvas(height, width),
        served(s, height, width, frames),
    ensures
        s.lat_h % 2 == 0 && s.lat_h >= 2,
        s.lat_w % 2 == 0 && s.lat_w >= 2,
        s.latent_t >= 2 && (s.latent_t - 2) % 5 == 0,
        s.audio_t >= s.frames,
{
}

/// Whether a sequence can be laid out: the target has a canvas its sound spreads over, the references' counts are
/// counts, and the rows' coordinates can be counted.
pub open spec fn packable(text_len: int, sh: Shape, refs: Seq<Ref>, kfs: Seq<Keyframe>) -> bool {
    &&& sh.latent_t >= 0 && sh.lat_h >= 0 && sh.lat_w >= 2 && sh.audio_t >= 0
    &&& sh.lat_h * sh.lat_w <= usize::MAX
    &&& forall|i: int| 0 <= i < refs.len() ==> (#[trigger] refs[i]).valid()
    &&& 3 * packed_count(
        text_len,
        sh.latent_t as int,
        sh.lat_h as int,
        sh.lat_w as int,
        sh.audio_t as int,
        refs,
        kfs,
    ) <= usize::MAX
}

fn patches(vt: i32, h: i32, w: i32) -> (n: u128)
    requires
        vt >= 0,
        h >= 0,
        w >= 0,
    ensures
        n == video_len(vt as int, h as int, w as int),
        n <= 0x80000000_00000000_00000000,
{
    let (a, b, c) = (vt as u128, (h / 2) as u128, (w / 2) as u128);
    proof {
        assert(0 <= b * c <= 0x40000000 * 0x40000000) by (nonlinear_arith)
            requires
                0 <= b <= 0x40000000,
                0 <= c <= 0x40000000,
        ;
        let bc = b * c;
        assert(0 <= a * bc <= 0x80000000 * (0x40000000 * 0x40000000)) by (nonlinear_arith)
            requires
                0 <= a <= 0x80000000,
                0 <= bc <= 0x40000000 * 0x40000000,
        ;
    }
    a * (b * c)
}

fn rows_of_ref(rf: &Ref) -> (n: u128)
    requires
        rf.valid(),
    ensures
        n == ref_count(*rf),
        n <= 0x80000001_00000000_00000000,
{
    if rf.kind == 1 {
        2 * rf.audio_t as u128
    } else {
        let vt: i32 = if rf.kind == 0 {
            1
        } else {
            rf.latent_t
        };
        patches(vt, rf.lat_h, rf.lat_w) + if rf.kind == 2 && rf.has_audio && rf.audio_t > 0 {
            2 * rf.audio_t as u128
        } else {
            0
        }
    }
}

fn is_valid(rf: &Ref) -> (yes: bool)
    ensures
        yes == rf.valid(),
{
    (rf.kind != 1 || rf.audio_t >= 0) && (rf.kind == 1 || (rf.lat_h >= 0 && rf.lat_w >= 0)) && (rf.kind == 0
        || rf.kind == 1 || rf.latent_t >= 0) && (!(rf.kind == 2 && rf.has_audio && rf.audio_t > 0) || rf.lat_w
        >= 2)
}

/// Whether a sequence can be laid out.
pub fn is_packable(text_len: usize, sh: &Shape, refs: &[Ref], kfs: &[Keyframe]) -> (yes: bool)
    ensures
        yes == packable(text_len as int, *sh, refs@, kfs@),
{
    if sh.latent_t < 0 || sh.lat_h < 0 || sh.lat_w < 2 || sh.audio_t < 0 {
        return false;
    }
    let (h, w) = (sh.lat_h, sh.lat_w);
    let most: u128 = usize::MAX as u128;
    assert(0 <= h * w <= 0x80000000 * 0x80000000) by (nonlinear_arith)
        requires
            0 <= h <= 0x80000000,
            0 <= w <= 0x80000000,
    ;
    if h as u128 * w as u128 > most {
        return false;
    }
    let mut i: usize = 0;
    while i < refs.len()
        invariant
            i <= refs@.len(),
            forall|k: int| 0 <= k < i ==> (#[trigger] refs@[k]).valid(),
        decreases refs@.len() - i,
    {
        if !is_valid(&refs[i]) {
            return false;
        }
        i += 1;
    }
    let ghost rest = text_len + 2 * sh.audio_t + video_len(sh.latent_t as int, h as int, w as int);
    let mut n: u128 = text_len as u128 + 2 * sh.audio_t as u128 + patches(sh.latent_t, h, w);
    proof {
        lemma_counts_grow(refs@, 0);
        lemma_keyframe_counts_grow(kfs@, 0, h as int, w as int);
    }
    if n > most {
        return false;
    }
    let mut i: usize = 0;
    assert(refs@.take(0) =~= Seq::empty());
    while i < refs.len()
        invariant
            i <= refs@.len(),
            forall|k: int| 0 <= k < refs@.len() ==> (#[trigger] refs@[k]).valid(),
            most == usize::MAX,
            h == sh.lat_h && w == sh.lat_w && h >= 0 && w >= 2,
            rest == text_len + 2 * sh.audio_t + video_len(sh.latent_t as int, h as int, w as int),
            keyframe_counts(kfs@, h as int, w as int) >= 0,
            n == rest + ref_counts(refs@.take(i as int)),
            n <= most,
        decreases refs@.len() - i,
    {
        proof {
            lemma_counts_grow(refs@, i + 1);
            assert(refs@.take(i + 1).drop_last() =~= refs@.take(i as int));
            assert(refs@[i as int].valid());
        }
        n = n + rows_of_ref(&refs[i]);
        if n > most {
            return false;
        }
        i += 1;
    }
    assert(refs@.take(i as int) =~= refs@);
    let mut i: usize = 0;
    assert(kfs@.take(0) =~= Seq::empty());
    while i < kfs.len()
        invariant
            i <= kfs@.len(),
            most == usize::MAX,
            h == sh.lat_h && w == sh.lat_w && h >= 0 && w >= 2,
            rest == text_len + 2 * sh.audio_t + video_len(sh.latent_t as int, h as int, w as int),
            n == rest + ref_counts(refs@) + keyframe_counts(kfs@.take(i as int), h as int, w as int),
            n <= most,
        decreases kfs@.len() - i,
    {
        proof {
            lemma_keyframe_counts_grow(kfs@, i + 1, h as int, w as int);
            assert(kfs@.take(i + 1).drop_last() =~= kfs@.take(i as int));
        }
        let kf = &kfs[i];
        n = n + patches(1, h, w);
        if kf.has_audio && kf.audio_t > 0 {
            n = n + 2 * kf.audio_t as u128;
        }
        if n > most {
            return false;
        }
        i += 1;
    }
    assert(kfs@.take(i as int) =~= kfs@);
    3 * n <= most
}

} // verus!
