//! The video VAE's host side: the latents on their way to the device, and the frames on their way back.
//!
//! The numbers themselves are the caller's: a closure says what becomes of each of them, and what is computed
//! here is which of them meet and where they land.
use vstd::prelude::*;

use crate::error::{Error, Result};
use crate::model::{LATENT_CH, VAE_KIN, VAE_OUT, VAE_PS, VAE_PT};
use crate::radix;
use crate::tiles;
use crate::vvae::Grid;

verus! {

// The latents.

/// A voxel's latents, one per channel, out of `[24][n]`.
pub open spec fn voxel<T>(z: Seq<T>, n: int, v: int) -> Seq<T> {
    Seq::new(LATENT_CH as nat, |i: int| z[i * n + v])
}

/// Whether a number is what the convolution makes of a voxel at one output channel.
pub open spec fn convolves<T, O, C: Fn(usize, &[T]) -> O>(
    conv: C,
    o: int,
    voxel: Seq<T>,
    out: O,
) -> bool {
    exists|s: &[T]| s@ == voxel && #[trigger] call_ensures(conv, (o as usize, s), out)
}

/// Whether these are the latents, convolved voxel by voxel, in rows of 64.
pub open spec fn are_padded<T, O, C: Fn(usize, &[T]) -> O>(
    z: Seq<T>,
    n: int,
    zero: O,
    conv: C,
    rows: Seq<O>,
) -> bool {
    &&& rows.len() == n * VAE_KIN
    &&& forall|d: int|
        0 <= d < n * VAE_KIN ==> if d % 64 < LATENT_CH {
            convolves(conv, d % 64, voxel(z, n, d / 64), #[trigger] rows[d])
        } else {
            rows[d] == zero
        }
}

/// The latents as the input projection reads them: `[n][64]`, the 24 channels after the post-quantisation
/// convolution, which is a matrix per voxel, and the pad left at zero.
pub fn pad_latents<T: Copy, O: Copy, C: Fn(usize, &[T]) -> O>(
    z: &[T],
    n: usize,
    zero: O,
    conv: C,
) -> (rows: Vec<O>)
    requires
        LATENT_CH * n <= z@.len(),
        n * VAE_KIN <= usize::MAX,
        forall|o: usize, s: &[T]|
            o < LATENT_CH && s@.len() == LATENT_CH ==> #[trigger] call_requires(conv, (o, s)),
    ensures
        are_padded(z@, n as int, zero, conv, rows@),
{
    let mut rows: Vec<O> = Vec::new();
    let mut v: usize = 0;
    assert(z@.len() == z.len());
    while v < n
        invariant
            v <= n,
            LATENT_CH * n <= z@.len() <= usize::MAX,
            n * VAE_KIN <= usize::MAX,
            forall|o: usize, s: &[T]|
                o < LATENT_CH && s@.len() == LATENT_CH ==> #[trigger] call_requires(conv, (o, s)),
            rows@.len() == v * VAE_KIN,
            forall|d: int|
                0 <= d < v * VAE_KIN ==> if d % 64 < LATENT_CH {
                    convolves(conv, d % 64, voxel(z@, n as int, d / 64), #[trigger] rows@[d])
                } else {
                    rows@[d] == zero
                },
        decreases n - v,
    {
        let mut one: Vec<T> = Vec::new();
        let mut i: usize = 0;
        while i < LATENT_CH
            invariant
                i <= LATENT_CH,
                v < n,
                LATENT_CH * n <= z@.len() <= usize::MAX,
                one@ == voxel(z@, n as int, v as int).take(i as int),
            decreases LATENT_CH - i,
        {
            assert(0 <= i * n && i * n + v < 24 * n) by (nonlinear_arith)
                requires
                    0 <= i < 24,
                    0 <= v < n,
            ;
            one.push(z[i * n + v]);
            i += 1;
            assert(one@ =~= voxel(z@, n as int, v as int).take(i as int));
        }
        assert(one@ =~= voxel(z@, n as int, v as int));
        let mut o: usize = 0;
        while o < VAE_KIN
            invariant
                o <= VAE_KIN,
                v < n,
                one@ == voxel(z@, n as int, v as int),
                forall|o: usize, s: &[T]|
                    o < LATENT_CH && s@.len() == LATENT_CH ==> #[trigger] call_requires(
                        conv,
                        (o, s),
                    ),
                rows@.len() == v * VAE_KIN + o,
                forall|d: int|
                    0 <= d < v * VAE_KIN + o ==> if d % 64 < LATENT_CH {
                        convolves(conv, d % 64, voxel(z@, n as int, d / 64), #[trigger] rows@[d])
                    } else {
                        rows@[d] == zero
                    },
            decreases VAE_KIN - o,
        {
            let ghost d: int = v * VAE_KIN + o;
            assert(d / 64 == v && d % 64 == o);
            if o < LATENT_CH {
                let s: &[T] = one.as_slice();
                let out = conv(o, s);
                assert(s@ == voxel(z@, n as int, v as int));
                assert(call_ensures(conv, ((o as int) as usize, s), out));
                assert(convolves(conv, o as int, voxel(z@, n as int, v as int), out));
                rows.push(out);
            } else {
                rows.push(zero);
            }
            o += 1;
        }
        v += 1;
    }
    rows
}

// The patches.

/// How many numbers a decoded clip holds: `[3][frames][height][width]`.
pub open spec fn clip_len(g: Grid) -> int {
    3 * (g.ft * VAE_PT) * (g.h * VAE_PS) * (g.w * VAE_PS)
}

/// Where the number of frame index `d` stands among the patches: the token `(t, y, x)` holds
/// `[3][4][16][16]`.
pub open spec fn patch_at(d: int, g: Grid) -> int {
    let (fw, fh, fr) = (g.w * VAE_PS, g.h * VAE_PS, g.ft * VAE_PT);
    let (x, y, f, ch) = (d % fw, d / fw % fh, d / fw / fh % fr, d / fw / fh / fr);
    ((f / 4 * g.h + y / 16) * g.w + x / 16) * VAE_OUT + (((ch * 4 + f % 4) * 16 + y % 16) * 16 + x
        % 16)
}

proof fn lemma_patch_at(d: int, g: Grid)
    requires
        0 <= d < clip_len(g),
    ensures
        0 <= patch_at(d, g) < g.count() * VAE_OUT,
{
    let (fw, fh, fr) = (g.w * VAE_PS, g.h * VAE_PS, g.ft * VAE_PT);
    radix::lemma_unflat4(d, 3, fr, fh, fw);
    let (x, y, f, ch) = (d % fw, d / fw % fh, d / fw / fh % fr, d / fw / fh / fr);
    radix::lemma_flat2(f / 4, y / 16, g.ft as int, g.h as int);
    let p = f / 4 * g.h + y / 16;
    radix::lemma_flat2(p, x / 16, g.ft * g.h, g.w as int);
    let tok = p * g.w + x / 16;
    let inner = ((ch * 4 + f % 4) * 16 + y % 16) * 16 + x % 16;
    assert(0 <= inner < 3072);
    assert(0 <= tok < g.count());
}

/// A patch's number lands where its token and its place in the patch say.
pub proof fn law_a_patch_lands_in_its_place(
    g: Grid,
    t: int,
    y: int,
    x: int,
    ch: int,
    pt: int,
    py: int,
    px: int,
)
    requires
        0 <= t < g.ft,
        0 <= y < g.h,
        0 <= x < g.w,
        0 <= ch < 3,
        0 <= pt < VAE_PT,
        0 <= py < VAE_PS,
        0 <= px < VAE_PS,
    ensures
        ({
            let (fw, fh, fr) = (g.w * VAE_PS, g.h * VAE_PS, g.ft * VAE_PT);
            let tok = (t * g.h + y) * g.w + x;
            let src = tok * VAE_OUT + (((ch * VAE_PT + pt) * VAE_PS + py) * VAE_PS + px);
            let dst = ((ch * fr + t * VAE_PT + pt) * fh + y * VAE_PS + py) * fw + x * VAE_PS + px;
            &&& 0 <= dst < clip_len(g)
            &&& patch_at(dst, g) == src
        }),
{
    let (fw, fh, fr) = (g.w * VAE_PS, g.h * VAE_PS, g.ft * VAE_PT);
    let (f, yy, xx) = (t * VAE_PT + pt, y * VAE_PS + py, x * VAE_PS + px);
    radix::lemma_flat4(ch, f, yy, xx, 3, fr, fh, fw);
    assert(f / 4 == t && f % 4 == pt);
    assert(yy / 16 == y && yy % 16 == py);
    assert(xx / 16 == x && xx % 16 == px);
}

/// Whether these are the frames of the patches.
pub open spec fn are_frames<S, T, C: Fn(S) -> T>(tokens: Seq<S>, grid: Grid, frames: Seq<T>, convert: C) -> bool {
    &&& frames.len() == clip_len(grid)
    &&& forall|d: int|
        0 <= d < clip_len(grid) ==> call_ensures(convert, (tokens[patch_at(d, grid)],), #[trigger] frames[d])
}

/// A token is a block of four frames, sixteen lines and sixteen columns of its own place, channel by channel: the number
/// `(ch, pt, py, px)` of the token `(t, y, x)` is shown in that channel, that many frames, lines and columns into its
/// block.
pub proof fn law_a_token_is_shown_in_its_own_block<S, T, C: Fn(S) -> T>(
    tokens: Seq<S>,
    g: Grid,
    frames: Seq<T>,
    convert: C,
    t: int,
    y: int,
    x: int,
    ch: int,
    pt: int,
    py: int,
    px: int,
)
    requires
        are_frames(tokens, g, frames, convert),
        0 <= t < g.ft,
        0 <= y < g.h,
        0 <= x < g.w,
        0 <= ch < 3,
        0 <= pt < 4,
        0 <= py < 16,
        0 <= px < 16,
    ensures
        call_ensures(
            convert,
            (tokens[((t * g.h + y) * g.w + x) * 3072 + (((ch * 4 + pt) * 16 + py) * 16 + px)],),
            frames[((ch * (g.ft * 4) + t * 4 + pt) * (g.h * 16) + y * 16 + py) * (g.w * 16) + x * 16 + px],
        ),
{
    law_a_patch_lands_in_its_place(g, t, y, x, ch, pt, py, px);
}

/// The patches as frames `[3][ft*4][h*16][w*16]`, each number through `convert`.
pub fn unpatchify<S: Copy, T, C: Fn(S) -> T>(tokens: &[S], grid: Grid, convert: C) -> (frames: Vec<T>)
    requires
        tokens@.len() >= grid.count() * VAE_OUT,
        clip_len(grid) <= usize::MAX,
        forall|s: S| #[trigger] call_requires(convert, (s,)),
    ensures
        are_frames(tokens@, grid, frames@, convert),
{
    let mut frames: Vec<T> = Vec::new();
    let ghost (fwi, fhi, fri) = (grid.w * VAE_PS, grid.h * VAE_PS, grid.ft * VAE_PT);
    if grid.ft == 0 || grid.h == 0 || grid.w == 0 {
        assert(clip_len(grid) == 0) by (nonlinear_arith)
            requires
                clip_len(grid) == 3 * (grid.ft * 4) * (grid.h * 16) * (grid.w * 16),
                grid.ft == 0 || grid.h == 0 || grid.w == 0,
        ;
        return frames;
    }
    assert(fwi <= clip_len(grid) && fhi <= clip_len(grid) && fri <= clip_len(grid) && 3 * fri
        <= clip_len(grid) && 3 * fri * fhi <= clip_len(grid)) by (nonlinear_arith)
        requires
            clip_len(grid) == 3 * fri * fhi * fwi,
            fri >= 1,
            fhi >= 1,
            fwi >= 1,
    ;
    let (fr, fh, fw): (usize, usize, usize) = grid.frames();
    let total: usize = 3 * fr * fh * fw;
    assert(tokens@.len() == tokens.len());
    let mut d: usize = 0;
    while d < total
        invariant
            d <= total == clip_len(grid),
            fw == fwi && fh == fhi && fr == fri,
            fwi == grid.w * VAE_PS && fhi == grid.h * VAE_PS && fri == grid.ft * VAE_PT,
            fw > 0 && fh > 0 && fr > 0,
            tokens@.len() >= grid.count() * VAE_OUT,
            tokens@.len() <= usize::MAX,
            forall|s: S| #[trigger] call_requires(convert, (s,)),
            frames@.len() == d,
            forall|k: int|
                0 <= k < d ==> call_ensures(
                    convert,
                    (tokens@[patch_at(k, grid)],),
                    #[trigger] frames@[k],
                ),
        decreases total - d,
    {
        let x: usize = d % fw;
        let y: usize = d / fw % fh;
        let f: usize = d / fw / fh % fr;
        let ch: usize = d / fw / fh / fr;
        proof {
            lemma_patch_at(d as int, grid);
            radix::lemma_unflat4(d as int, 3, fri, fhi, fwi);
            radix::lemma_flat2((f / 4) as int, (y / 16) as int, grid.ft as int, grid.h as int);
            radix::lemma_flat2(
                (f / 4) * grid.h + y / 16,
                (x / 16) as int,
                grid.ft * grid.h,
                grid.w as int,
            );
            assert(((f / 4) * grid.h + y / 16) * grid.w >= (f / 4) * grid.h + y / 16)
                by (nonlinear_arith)
                requires
                    grid.w >= 1,
                    (f / 4) * grid.h + y / 16 >= 0,
            ;
        }
        let tok: usize = (f / 4 * grid.h + y / 16) * grid.w + x / 16;
        let src: usize = tok * VAE_OUT + (((ch * 4 + f % 4) * 16 + y % 16) * 16 + x % 16);
        let value = convert(tokens[src]);
        frames.push(value);
        d += 1;
    }
    frames
}

// Spatial tiles.

/// A tile's length along an axis.
pub open spec fn tile_len(len: int) -> int {
    if len < tiles::TILE {
        len
    } else {
        tiles::TILE as int
    }
}

/// How much of a tile is kept: all but what it shares with the next.
pub open spec fn kept(len: int, i: int) -> int {
    tile_len(len) - if i + 1 < tiles::tile_count(len) {
        tiles::overlap_at(len, i)
    } else {
        0
    }
}

/// Whether a tile keeps a position along an axis.
pub open spec fn owns(len: int, i: int, p: int) -> bool {
    tiles::start_at(len, i) <= p < tiles::start_at(len, i) + kept(len, i)
}

proof fn lemma_starts(len: int, i: int, j: int)
    requires
        len >= 0,
        0 <= i < j < tiles::tile_count(len),
    ensures
        tiles::start_at(len, i) + kept(len, i) <= tiles::start_at(len, j),
        0 < kept(len, i),
    decreases j,
{
    tiles::law_tile_count_is_the_fewest(len as nat);
    tiles::law_overlaps_stay_inside_a_tile(len as nat, j - 1);
    tiles::law_overlaps_stay_inside_a_tile(len as nat, i);
    if i < j - 1 {
        lemma_starts(len, i, j - 1);
    }
}

/// A position is kept by one tile only.
proof fn lemma_one_owner(len: int, i: int, j: int, p: int)
    requires
        len >= 0,
        0 <= i < tiles::tile_count(len),
        0 <= j < tiles::tile_count(len),
        owns(len, i, p),
        owns(len, j, p),
    ensures
        i == j,
{
    if i < j {
        lemma_starts(len, i, j);
    } else if j < i {
        lemma_starts(len, j, i);
    }
}

/// Where a tile ends, and that it starts on a whole unit: a tile never reaches past its axis.
proof fn lemma_tile_inside(len: int, i: int)
    requires
        0 <= len,
        len % 16 == 0,
        0 <= i < tiles::tile_count(len),
    ensures
        0 <= tiles::start_at(len, i),
        tiles::start_at(len, i) % 16 == 0,
        tiles::start_at(len, i) + tile_len(len) <= len,
        0 <= kept(len, i) <= tile_len(len),
        i + 1 < tiles::tile_count(len) ==> tiles::overlap_at(len, i) <= tile_len(len),
    decreases tiles::tile_count(len) - i,
{
    tiles::law_tile_count_is_the_fewest(len as nat);
    lemma_start_units(len, i);
    if i + 1 < tiles::tile_count(len) {
        tiles::law_overlaps_stay_inside_a_tile(len as nat, i);
        lemma_tile_inside(len, i + 1);
    } else if len > tiles::TILE {
        tiles::law_tiles_cover_the_length(len as nat);
    }
}

proof fn lemma_start_units(len: int, i: int)
    requires
        0 <= len,
        0 <= i < tiles::tile_count(len),
    ensures
        0 <= tiles::start_at(len, i),
        tiles::start_at(len, i) % 16 == 0,
    decreases i,
{
    tiles::law_tile_count_is_the_fewest(len as nat);
    if i > 0 {
        lemma_start_units(len, i - 1);
        tiles::law_overlaps_stay_inside_a_tile(len as nat, i - 1);
    }
}

/// The tile that keeps a position: every position of an axis of whole units has exactly one.
pub open spec fn owner(len: int, p: int) -> int {
    choose|i: int| 0 <= i < tiles::tile_count(len) && owns(len, i, p)
}

/// Every position of an axis of whole units is kept by one tile, and by one only.
pub proof fn law_a_position_is_kept_once(len: int, p: int)
    requires
        len % 16 == 0,
        0 <= p < len,
    ensures
        0 <= owner(len, p) < tiles::tile_count(len),
        owns(len, owner(len, p), p),
        forall|i: int|
            0 <= i < tiles::tile_count(len) && #[trigger] owns(len, i, p) ==> i == owner(len, p),
{
    lemma_owner_from(len, p, 0);
    assert forall|i: int| 0 <= i < tiles::tile_count(len) && #[trigger] owns(len, i, p) implies i
        == owner(len, p) by {
        lemma_one_owner(len, i, owner(len, p), p);
    }
}

proof fn lemma_owner_from(len: int, p: int, i: int)
    requires
        len % 16 == 0,
        0 <= p < len,
        0 <= i < tiles::tile_count(len),
        tiles::start_at(len, i) <= p,
    ensures
        exists|j: int| 0 <= j < tiles::tile_count(len) && #[trigger] owns(len, j, p),
    decreases tiles::tile_count(len) - i,
{
    tiles::law_tile_count_is_the_fewest(len as nat);
    if owns(len, i, p) {
    } else if i + 1 < tiles::tile_count(len) {
        lemma_owner_from(len, p, i + 1);
    } else if len > tiles::TILE {
        tiles::law_tiles_cover_the_length(len as nat);
    }
}

/// A tile's latents: `[24][ft][lh][lw]` out of `[24][ft][h][w]`.
pub open spec fn cropped<T>(z: Seq<T>, g: Grid, y0: int, x0: int, lh: int, lw: int) -> Seq<T> {
    Seq::new(
        ((LATENT_CH * g.ft) * lh * lw) as nat,
        |d: int| z[(d / lw / lh * g.h + (y0 + d / lw % lh)) * g.w + (x0 + d % lw)],
    )
}

fn crop<T: Copy>(z: &[T], g: Grid, y0: usize, x0: usize, lh: usize, lw: usize) -> (latent: Vec<T>)
    requires
        (LATENT_CH * g.ft) * g.h * g.w <= z@.len(),
        y0 + lh <= g.h,
        x0 + lw <= g.w,
        LATENT_CH * g.ft <= usize::MAX,
    ensures
        latent@ == cropped(z@, g, y0 as int, x0 as int, lh as int, lw as int),
{
    let mut latent: Vec<T> = Vec::new();
    let ghost want = cropped(z@, g, y0 as int, x0 as int, lh as int, lw as int);
    let planes: usize = LATENT_CH * g.ft;
    assert(z@.len() == z.len());
    let mut p: usize = 0;
    assert(want.take(0) =~= latent@);
    assert((0 * lh) * lw == 0) by (nonlinear_arith);
    while p < planes
        invariant
            p <= planes == LATENT_CH * g.ft,
            planes * g.h * g.w <= z@.len() <= usize::MAX,
            y0 + lh <= g.h,
            x0 + lw <= g.w,
            want == cropped(z@, g, y0 as int, x0 as int, lh as int, lw as int),
            latent@.len() == (p * lh) * lw,
            forall|d: int| 0 <= d < latent@.len() ==> #[trigger] latent@[d] == want[d],
            (p * lh) * lw <= want.len(),
        decreases planes - p,
    {
        let mut y: usize = 0;
        while y < lh
            invariant
                p < planes == LATENT_CH * g.ft,
                y <= lh,
                planes * g.h * g.w <= z@.len() <= usize::MAX,
                y0 + lh <= g.h,
                x0 + lw <= g.w,
                want == cropped(z@, g, y0 as int, x0 as int, lh as int, lw as int),
                latent@.len() == (p * lh + y) * lw,
                (p * lh + y) * lw <= want.len(),
                forall|d: int| 0 <= d < latent@.len() ==> #[trigger] latent@[d] == want[d],
            decreases lh - y,
        {
            let mut x: usize = 0;
            let ghost line: int = p * lh + y;
            proof {
                radix::lemma_flat2(p as int, y as int, planes as int, lh as int);
                assert((line + 1) * lw == line * lw + lw) by (nonlinear_arith);
                assert((line + 1) * lw <= planes * lh * lw) by (nonlinear_arith)
                    requires
                        line + 1 <= planes * lh,
                        lw >= 0,
                ;
            }
            while x < lw
                invariant
                    p < planes == LATENT_CH * g.ft,
                    y < lh,
                    x <= lw,
                    planes * g.h * g.w <= z@.len() <= usize::MAX,
                    y0 + lh <= g.h,
                    x0 + lw <= g.w,
                    want == cropped(z@, g, y0 as int, x0 as int, lh as int, lw as int),
                    line == p * lh + y,
                    0 <= line < planes * lh,
                    line * lw + lw <= want.len(),
                    latent@.len() == line * lw + x,
                    forall|d: int| 0 <= d < latent@.len() ==> #[trigger] latent@[d] == want[d],
                decreases lw - x,
            {
                let ghost d: int = line * lw + x;
                proof {
                    radix::lemma_flat2(line, x as int, planes * lh, lw as int);
                    radix::lemma_flat2(p as int, y as int, planes as int, lh as int);
                    radix::lemma_flat2(p as int, y0 + y, planes as int, g.h as int);
                    radix::lemma_flat2(
                        p * g.h + (y0 + y),
                        x0 + x,
                        planes * g.h,
                        g.w as int,
                    );
                    assert(p * g.h + (y0 + y) <= (p * g.h + (y0 + y)) * g.w) by (nonlinear_arith)
                        requires
                            g.w >= 1,
                            p * g.h + (y0 + y) >= 0,
                    ;
                }
                latent.push(z[(p * g.h + (y0 + y)) * g.w + (x0 + x)]);
                x += 1;
            }
            y += 1;
        }
        assert((p + 1) * lh == p * lh + lh) by (nonlinear_arith);
        p += 1;
    }
    assert(latent@ =~= want);
    latent
}

/// The plane, the line and the column of a number of a stack of `height` by `width` planes.
pub open spec fn plane_of(d: int, height: int, width: int) -> int {
    d / width / height
}

pub open spec fn line_of(d: int, height: int, width: int) -> int {
    d / width % height
}

pub open spec fn column_of(d: int, width: int) -> int {
    d % width
}

/// Writes the top left `keep_h` by `keep_w` of each plane of a tile at `(y0, x0)` of the frames' planes.
fn place<T: Copy>(
    frames: &mut Vec<T>,
    tile: &Vec<T>,
    planes: usize,
    height: usize,
    width: usize,
    y0: usize,
    x0: usize,
    th: usize,
    tw: usize,
    keep_h: usize,
    keep_w: usize,
)
    requires
        old(frames)@.len() == planes * height * width,
        tile@.len() == planes * th * tw,
        y0 + keep_h <= height,
        x0 + keep_w <= width,
        keep_h <= th,
        keep_w <= tw,
    ensures
        final(frames)@.len() == old(frames)@.len(),
        forall|d: int|
            0 <= d < old(frames)@.len() ==> {
                let (p, y, x) = (
                    plane_of(d, height as int, width as int),
                    line_of(d, height as int, width as int),
                    column_of(d, width as int),
                );
                #[trigger] final(frames)@[d] == if y0 <= y < y0 + keep_h && x0 <= x < x0 + keep_w {
                    tile@[(p * th + (y - y0)) * tw + (x - x0)]
                } else {
                    old(frames)@[d]
                }
            },
{
    let ghost before = frames@;
    let ghost (hi, wi) = (height as int, width as int);
    assert(frames@.len() == frames.len());
    assert(tile@.len() == tile.len());
    let mut p: usize = 0;
    while p < planes
        invariant
            p <= planes,
            hi == height && wi == width,
            before.len() == planes * height * width,
            before.len() <= usize::MAX,
            frames@.len() == before.len(),
            tile@.len() == planes * th * tw,
            tile@.len() <= usize::MAX,
            y0 + keep_h <= height,
            x0 + keep_w <= width,
            keep_h <= th,
            keep_w <= tw,
            forall|d: int|
                0 <= d < before.len() ==> #[trigger] frames@[d] == if plane_of(d, hi, wi) < p && y0
                    <= line_of(d, hi, wi) < y0 + keep_h && x0 <= column_of(d, wi) < x0 + keep_w {
                    tile@[(plane_of(d, hi, wi) * th + (line_of(d, hi, wi) - y0)) * tw + (column_of(
                        d,
                        wi,
                    ) - x0)]
                } else {
                    before[d]
                },
        decreases planes - p,
    {
        let mut y: usize = 0;
        while y < keep_h
            invariant
                p < planes,
                y <= keep_h,
                hi == height && wi == width,
                before.len() == planes * height * width,
                before.len() <= usize::MAX,
                frames@.len() == before.len(),
                tile@.len() == planes * th * tw,
                tile@.len() <= usize::MAX,
                y0 + keep_h <= height,
                x0 + keep_w <= width,
                keep_h <= th,
                keep_w <= tw,
                forall|d: int|
                    0 <= d < before.len() ==> #[trigger] frames@[d] == if (plane_of(d, hi, wi) < p
                        || plane_of(d, hi, wi) == p && line_of(d, hi, wi) < y0 + y) && y0
                        <= line_of(d, hi, wi) < y0 + keep_h && x0 <= column_of(d, wi) < x0
                        + keep_w {
                        tile@[(plane_of(d, hi, wi) * th + (line_of(d, hi, wi) - y0)) * tw + (
                        column_of(d, wi) - x0)]
                    } else {
                        before[d]
                    },
            decreases keep_h - y,
        {
            let mut x: usize = 0;
            while x < keep_w
                invariant
                    p < planes,
                    y < keep_h,
                    x <= keep_w,
                    hi == height && wi == width,
                    before.len() == planes * height * width,
                    before.len() <= usize::MAX,
                    frames@.len() == before.len(),
                    tile@.len() == planes * th * tw,
                    tile@.len() <= usize::MAX,
                    y0 + keep_h <= height,
                    x0 + keep_w <= width,
                    keep_h <= th,
                    keep_w <= tw,
                    forall|d: int|
                        0 <= d < before.len() ==> #[trigger] frames@[d] == if (plane_of(d, hi, wi)
                            < p || plane_of(d, hi, wi) == p && (line_of(d, hi, wi) < y0 + y
                            || line_of(d, hi, wi) == y0 + y && column_of(d, wi) < x0 + x)) && y0
                            <= line_of(d, hi, wi) < y0 + keep_h && x0 <= column_of(d, wi) < x0
                            + keep_w {
                            tile@[(plane_of(d, hi, wi) * th + (line_of(d, hi, wi) - y0)) * tw + (
                            column_of(d, wi) - x0)]
                        } else {
                            before[d]
                        },
                decreases keep_w - x,
            {
                let ghost at: int = (p * height + (y0 + y)) * width + (x0 + x);
                proof {
                    radix::lemma_flat2(p as int, y0 + y, planes as int, hi);
                    radix::lemma_flat2(p * height + (y0 + y), x0 + x, planes * height, wi);
                    radix::lemma_flat2(p as int, y as int, planes as int, th as int);
                    radix::lemma_flat2(p * th + y, x as int, planes * th, tw as int);
                    lemma_line_counts(p * height + (y0 + y), wi);
                    lemma_line_counts(p * th + y, tw as int);
                    assert forall|d: int|
                        0 <= d < before.len() && plane_of(d, hi, wi) == p && line_of(d, hi, wi)
                            == y0 + y && column_of(d, wi) == x0 + x implies d == at by {
                        radix::lemma_unflat2(d, planes * height, wi);
                        radix::lemma_unflat2(d / wi, planes as int, hi);
                    }
                }
                let ghost was = frames@;
                frames.set(
                    (p * height + (y0 + y)) * width + (x0 + x),
                    tile[(p * th + y) * tw + x],
                );
                x += 1;
            }
            y += 1;
        }
        proof {
            assert forall|d: int| 0 <= d < before.len() implies #[trigger] frames@[d] == if plane_of(
                d,
                hi,
                wi,
            ) < p + 1 && y0 <= line_of(d, hi, wi) < y0 + keep_h && x0 <= column_of(d, wi) < x0
                + keep_w {
                tile@[(plane_of(d, hi, wi) * th + (line_of(d, hi, wi) - y0)) * tw + (column_of(
                    d,
                    wi,
                ) - x0)]
            } else {
                before[d]
            } by {}
        }
        p += 1;
    }
    assert forall|d: int| 0 <= d < before.len() implies plane_of(d, hi, wi) < planes by {
        radix::lemma_unflat2(d, planes * height, wi);
        radix::lemma_unflat2(d / wi, planes as int, hi);
    }
}

proof fn lemma_line_counts(line: int, width: int)
    requires
        line >= 0,
        width >= 1,
    ensures
        line <= line * width,
        0 <= line * width,
{
    assert(line <= line * width && 0 <= line * width) by (nonlinear_arith)
        requires
            line >= 0,
            width >= 1,
    ;
}

/// What a mix makes of two numbers that meet, `k` steps into a fade of `e`.
pub open spec fn mixed<T, F: Fn(T, T, usize, usize) -> T>(mix: F, a: T, b: T, k: int, e: int) -> T {
    mix_of(mix, a, b, k as usize, e as usize)
}

pub open spec fn mix_of<T, F: Fn(T, T, usize, usize) -> T>(
    mix: F,
    a: T,
    b: T,
    k: usize,
    e: usize,
) -> T {
    choose|r: T| call_ensures(mix, (a, b, k, e), r)
}

/// Whether a mix is a function of what meets and of where.
pub open spec fn mixes<T, F: Fn(T, T, usize, usize) -> T>(mix: F) -> bool {
    &&& forall|a: T, b: T, k: usize, e: usize|
        k < e ==> #[trigger] call_requires(mix, (a, b, k, e))
    &&& forall|a: T, b: T, k: usize, e: usize, r: T, s: T| #[trigger]
        call_ensures(mix, (a, b, k, e), r) && #[trigger] call_ensures(mix, (a, b, k, e), s) ==> r
            == s
}

/// A tile after its first `extent` rows or columns were blended with the last of its neighbour's.
pub open spec fn blended<T, F: Fn(T, T, usize, usize) -> T>(
    mix: F,
    tile: Seq<T>,
    neighbour: Seq<T>,
    extent: int,
    vertical: bool,
    th: int,
    tw: int,
) -> Seq<T> {
    Seq::new(
        tile.len(),
        |j: int|
            {
                let k = tiles::step(vertical, j, th, tw);
                if k < extent {
                    mixed(
                        mix,
                        neighbour[tiles::meets(vertical, j, extent, th, tw, th, tw)],
                        tile[j],
                        k,
                        extent,
                    )
                } else {
                    tile[j]
                }
            },
    )
}

fn blend<T: Copy, F: Fn(T, T, usize, usize) -> T>(
    tile: &mut Vec<T>,
    neighbour: &Vec<T>,
    extent: usize,
    vertical: bool,
    frames: usize,
    th: usize,
    tw: usize,
    mix: &F,
)
    requires
        mixes(*mix),
        if vertical {
            extent <= th
        } else {
            extent <= tw
        },
        old(tile)@.len() == 3 * frames * th * tw,
        neighbour@.len() == 3 * frames * th * tw,
    ensures
        final(tile)@ == blended(
            *mix,
            old(tile)@,
            neighbour@,
            extent as int,
            vertical,
            th as int,
            tw as int,
        ),
{
    let ghost before = tile@;
    assert((3 * frames) * (th * tw) == 3 * frames * th * tw) by (nonlinear_arith);
    tiles::blend_pixels(
        tile.as_mut_slice(),
        neighbour.as_slice(),
        extent,
        vertical,
        frames,
        th,
        tw,
        mix,
    );
    assert(tile@ =~= blended(
        *mix,
        before,
        neighbour@,
        extent as int,
        vertical,
        th as int,
        tw as int,
    ));
}

/// The tile `(iy, ix)` as it is shown: blended with the one above it, then with the one before it, each of
/// them as it was decoded.
pub open spec fn shown<T, F: Fn(T, T, usize, usize) -> T>(
    mix: F,
    raws: Seq<Seq<T>>,
    iy: int,
    ix: int,
    height: int,
    width: int,
) -> Seq<T> {
    let (th, tw, nx) = (tile_len(height), tile_len(width), tiles::tile_count(width));
    let raw = raws[iy * nx + ix];
    let lower = if iy > 0 {
        blended(
            mix,
            raw,
            raws[(iy - 1) * nx + ix],
            tiles::overlap_at(height, iy - 1),
            true,
            th,
            tw,
        )
    } else {
        raw
    };
    if ix > 0 {
        blended(
            mix,
            lower,
            raws[iy * nx + (ix - 1)],
            tiles::overlap_at(width, ix - 1),
            false,
            th,
            tw,
        )
    } else {
        lower
    }
}

/// Whether a tile is what decoding these latents gave.
pub open spec fn decodes<T, D: Fn(&[T], Grid) -> Result<Vec<T>>>(
    decode: D,
    latents: Seq<T>,
    grid: Grid,
    tile: Seq<T>,
) -> bool {
    exists|s: &[T], v: Vec<T>|
        s@ == latents && v@ == tile && #[trigger] call_ensures(
            decode,
            (s, grid),
            Ok::<Vec<T>, Error>(v),
        )
}

/// Whether this is how decoding these latents failed.
pub open spec fn fails<T, D: Fn(&[T], Grid) -> Result<Vec<T>>>(
    decode: D,
    latents: Seq<T>,
    grid: Grid,
    e: Error,
) -> bool {
    exists|s: &[T]|
        s@ == latents && #[trigger] call_ensures(decode, (s, grid), Err::<Vec<T>, Error>(e))
}

/// Whether a decode takes the latents of any grid, and gives a whole clip where it gives one.
pub open spec fn decoder<T, D: Fn(&[T], Grid) -> Result<Vec<T>>>(decode: D) -> bool {
    &&& forall|s: &[T], g: Grid|
        s@.len() >= LATENT_CH * g.ft * g.h * g.w ==> #[trigger] call_requires(decode, (s, g))
    &&& forall|s: &[T], g: Grid, v: Vec<T>| #[trigger]
        call_ensures(decode, (s, g), Ok::<Vec<T>, Error>(v)) ==> v@.len() == clip_len(g)
}

/// The grid of one tile.
pub open spec fn tile_grid(g: Grid) -> Grid {
    Grid {
        ft: g.ft,
        h: (tile_len(g.h * VAE_PS) / 16) as usize,
        w: (tile_len(g.w * VAE_PS) / 16) as usize,
    }
}

/// The tiles of a clip, each the decode of its own latents.
pub open spec fn all_decoded<T, D: Fn(&[T], Grid) -> Result<Vec<T>>>(
    decode: D,
    z: Seq<T>,
    g: Grid,
    raws: Seq<Seq<T>>,
) -> bool {
    let (height, width) = (g.h * VAE_PS, g.w * VAE_PS);
    let nx = tiles::tile_count(width);
    forall|i: int|
        0 <= i < raws.len() ==> decodes(
            decode,
            tile_latents(z, g, i / nx, i % nx),
            tile_grid(g),
            #[trigger] raws[i],
        )
}

/// The latents of the tile `(iy, ix)`.
pub open spec fn tile_latents<T>(z: Seq<T>, g: Grid, iy: int, ix: int) -> Seq<T> {
    cropped(
        z,
        g,
        tiles::start_at(g.h * VAE_PS, iy) / 16,
        tiles::start_at(g.w * VAE_PS, ix) / 16,
        tile_grid(g).h as int,
        tile_grid(g).w as int,
    )
}

/// Whether a clip's frames are its tiles put together: every number is that of the tile that keeps its
/// position.
pub open spec fn put_together<T, F: Fn(T, T, usize, usize) -> T>(
    mix: F,
    raws: Seq<Seq<T>>,
    g: Grid,
    frames: Seq<T>,
) -> bool {
    let (height, width) = (g.h * VAE_PS, g.w * VAE_PS);
    &&& raws.len() == tiles::tile_count(height) * tiles::tile_count(width)
    &&& frames.len() == clip_len(g)
    &&& forall|d: int|
        0 <= d < clip_len(g) ==> #[trigger] frames[d] == pixel(
            mix,
            raws,
            owner(height, line_of(d, height, width)),
            owner(width, column_of(d, width)),
            d,
            height,
            width,
        )
}

/// The number of frame index `d` in the tile `(iy, ix)`.
pub open spec fn pixel<T, F: Fn(T, T, usize, usize) -> T>(
    mix: F,
    raws: Seq<Seq<T>>,
    iy: int,
    ix: int,
    d: int,
    height: int,
    width: int,
) -> T {
    let (th, tw) = (tile_len(height), tile_len(width));
    let (p, y, x) = (
        plane_of(d, height, width),
        line_of(d, height, width) - tiles::start_at(height, iy),
        column_of(d, width) - tiles::start_at(width, ix),
    );
    shown(mix, raws, iy, ix, height, width)[(p * th + y) * tw + x]
}

/// Whether the numbers a clip takes can be counted.
pub open spec fn clip_countable(g: Grid) -> bool {
    &&& 3 * (g.ft * VAE_PT) <= usize::MAX
    &&& 3 * (g.ft * VAE_PT) * (g.h * VAE_PS) <= usize::MAX
    &&& clip_len(g) <= usize::MAX
    &&& LATENT_CH * g.ft <= usize::MAX
    &&& tiles::TILE * tiles::tile_count(g.h * VAE_PS) <= usize::MAX
    &&& tiles::TILE * tiles::tile_count(g.w * VAE_PS) <= usize::MAX
    &&& g.h * VAE_PS <= usize::MAX && g.w * VAE_PS <= usize::MAX
}

/// Whether the numbers a clip takes can be counted.
pub fn is_clip_countable(g: Grid) -> (yes: bool)
    ensures
        yes == clip_countable(g),
{
    let planes: usize = match g.ft.checked_mul(VAE_PT) {
        Some(frames) => match frames.checked_mul(3) {
            Some(planes) => planes,
            None => {
                return false;
            },
        },
        None => {
            return false;
        },
    };
    match (g.h.checked_mul(VAE_PS), g.w.checked_mul(VAE_PS)) {
        (Some(height), Some(width)) => match planes.checked_mul(height) {
            Some(column) => column.checked_mul(width).is_some() && g.ft.checked_mul(LATENT_CH).is_some()
                && tiles::is_splittable(height) && tiles::is_splittable(width),
            None => false,
        },
        _ => false,
    }
}

fn copied<T: Copy>(v: &Vec<T>) -> (out: Vec<T>)
    ensures
        out@ == v@,
{
    let mut out: Vec<T> = Vec::new();
    let mut i: usize = 0;
    while i < v.len()
        invariant
            i <= v@.len(),
            out@ == v@.take(i as int),
        decreases v@.len() - i,
    {
        out.push(v[i]);
        i += 1;
        assert(out@ =~= v@.take(i as int));
    }
    assert(out@ =~= v@);
    out
}

/// A row of `n` of one number.
pub(crate) fn filled<T: Copy>(value: T, n: usize) -> (out: Vec<T>)
    ensures
        out@ == Seq::new(n as nat, |i: int| value),
{
    let mut out: Vec<T> = Vec::new();
    let mut i: usize = 0;
    while i < n
        invariant
            i <= n,
            out@ == Seq::new(i as nat, |i: int| value),
        decreases n - i,
    {
        out.push(value);
        i += 1;
        assert(out@ =~= Seq::new(i as nat, |i: int| value));
    }
    out
}

/// Whether the tile `(iy, ix)` keeps the position of frame index `d`.
pub open spec fn in_tile(iy: int, ix: int, d: int, height: int, width: int) -> bool {
    owns(height, iy, line_of(d, height, width)) && owns(width, ix, column_of(d, width))
}

/// Whether the numbers kept by the tiles up to `(iy, ix)` are in place.
spec fn placed_so_far<T, F: Fn(T, T, usize, usize) -> T>(
    mix: F,
    raws: Seq<Seq<T>>,
    frames: Seq<T>,
    iy: int,
    ix: int,
    height: int,
    width: int,
) -> bool {
    forall|a: int, b: int, d: int|
        0 <= d < frames.len() && 0 <= a < tiles::tile_count(height) && 0 <= b < tiles::tile_count(
            width,
        ) && (a < iy || a == iy && b < ix) && #[trigger] in_tile(a, b, d, height, width)
            ==> frames[d] == pixel(mix, raws, a, b, d, height, width)
}

/// A tile decoded later does not change how an earlier one is shown.
proof fn lemma_shown_keeps<T, F: Fn(T, T, usize, usize) -> T>(
    mix: F,
    raws: Seq<Seq<T>>,
    raw: Seq<T>,
    a: int,
    b: int,
    height: int,
    width: int,
)
    requires
        0 <= a,
        0 <= b < tiles::tile_count(width),
        a * tiles::tile_count(width) + b < raws.len(),
    ensures
        shown(mix, raws.push(raw), a, b, height, width) == shown(mix, raws, a, b, height, width),
{
    let nx = tiles::tile_count(width);
    assert(0 <= a * nx) by (nonlinear_arith)
        requires
            a >= 0,
            nx >= 0,
    ;
    if a > 0 {
        assert((a - 1) * nx == a * nx - nx && 0 <= (a - 1) * nx) by (nonlinear_arith)
            requires
                a > 0,
                nx >= 0,
        ;
    }
}

proof fn lemma_placed_next<T, F: Fn(T, T, usize, usize) -> T>(
    mix: F,
    raws: Seq<Seq<T>>,
    raw: Seq<T>,
    before: Seq<T>,
    after: Seq<T>,
    iy: int,
    ix: int,
    height: int,
    width: int,
)
    requires
        height >= 0 && width >= 0,
        0 <= iy < tiles::tile_count(height),
        0 <= ix < tiles::tile_count(width),
        raws.len() == iy * tiles::tile_count(width) + ix,
        before.len() == after.len(),
        placed_so_far(mix, raws, before, iy, ix, height, width),
        forall|d: int|
            0 <= d < before.len() ==> #[trigger] after[d] == if in_tile(iy, ix, d, height, width) {
                pixel(mix, raws.push(raw), iy, ix, d, height, width)
            } else {
                before[d]
            },
    ensures
        placed_so_far(mix, raws.push(raw), after, iy, ix + 1, height, width),
{
    let all = raws.push(raw);
    let nx = tiles::tile_count(width);
    assert forall|a: int, b: int, d: int|
        0 <= d < after.len() && 0 <= a < tiles::tile_count(height) && 0 <= b < nx && (a < iy || a
            == iy && b < ix + 1) && #[trigger] in_tile(a, b, d, height, width) implies after[d]
        == pixel(mix, all, a, b, d, height, width) by {
        if in_tile(iy, ix, d, height, width) {
            lemma_one_owner(height, a, iy, line_of(d, height, width));
            lemma_one_owner(width, b, ix, column_of(d, width));
        } else {
            assert(a < iy || b < ix);
            assert(a * nx + b < iy * nx + ix) by (nonlinear_arith)
                requires
                    a < iy && 0 <= b < nx && 0 <= ix || a == iy && b < ix,
            ;
            lemma_shown_keeps(mix, raws, raw, a, b, height, width);
        }
    }
}

/// A tile as it is shown, from how it and its neighbours were decoded.
fn show_tile<T: Copy, F: Fn(T, T, usize, usize) -> T>(
    raw: &Vec<T>,
    above: Option<&Vec<T>>,
    left: Option<&Vec<T>>,
    yo: usize,
    xo: usize,
    frames: usize,
    th: usize,
    tw: usize,
    mix: &F,
) -> (tile: Vec<T>)
    requires
        mixes(*mix),
        above is Some ==> yo <= th,
        left is Some ==> xo <= tw,
        raw@.len() == 3 * frames * th * tw,
        above matches Some(a) ==> a@.len() == 3 * frames * th * tw,
        left matches Some(a) ==> a@.len() == 3 * frames * th * tw,
    ensures
        tile@.len() == raw@.len(),
        ({
            let lower = match above {
                Some(a) => blended(*mix, raw@, a@, yo as int, true, th as int, tw as int),
                None => raw@,
            };
            tile@ == match left {
                Some(a) => blended(*mix, lower, a@, xo as int, false, th as int, tw as int),
                None => lower,
            }
        }),
{
    let mut tile = copied(raw);
    if let Some(a) = above {
        blend(&mut tile, a, yo, true, frames, th, tw, mix);
    }
    if let Some(a) = left {
        blend(&mut tile, a, xo, false, frames, th, tw, mix);
    }
    tile
}

/// A tile is decoded from its own latents: those under its pixels, of every channel and frame, line by line.
pub proof fn law_a_tile_takes_its_own_latents<T>(
    z: Seq<T>,
    g: Grid,
    iy: int,
    ix: int,
    ch: int,
    t: int,
    y: int,
    x: int,
)
    requires
        0 <= ch < 24,
        0 <= t < g.ft,
        0 <= y < tile_grid(g).h,
        0 <= x < tile_grid(g).w,
    ensures
        tile_grid(g).ft == g.ft,
        ({
            let (lh, lw) = (tile_grid(g).h as int, tile_grid(g).w as int);
            let at = ((ch * g.ft + t) * lh + y) * lw + x;
            &&& 0 <= at < tile_latents(z, g, iy, ix).len()
            &&& tile_latents(z, g, iy, ix)[at] == z[((ch * g.ft + t) * g.h + (tiles::start_at(16 * g.h, iy) / 16 + y))
                * g.w + (tiles::start_at(16 * g.w, ix) / 16 + x)]
        }),
{
    let (lh, lw) = (tile_grid(g).h as int, tile_grid(g).w as int);
    let p = ch * g.ft + t;
    radix::lemma_flat2(ch, t, 24, g.ft as int);
    radix::lemma_flat2(p, y, 24 * g.ft, lh);
    radix::lemma_flat2(p * lh + y, x, 24 * g.ft * lh, lw);
}

/// A tile is as large as the frame where the frame is not larger than one, and else two hundred and fifty-six pixels;
/// its latents are a sixteenth of that.
pub proof fn law_a_tile_is_as_large_as_its_latents(g: Grid)
    requires
        16 * g.h <= usize::MAX,
        16 * g.w <= usize::MAX,
    ensures
        16 * tile_grid(g).h == tile_len(16 * g.h),
        16 * tile_grid(g).w == tile_len(16 * g.w),
        tile_len(16 * g.h) == if 16 * g.h < 256 {
            16 * g.h
        } else {
            256
        },
{
}

/// A pixel is that of the tile which keeps it, at its place in that tile: as it was decoded, or, where the tile shares it
/// with the one above or the one before, mixed with the same pixel of theirs, the one above first.
pub proof fn law_a_pixel_is_its_own_tiles<T, F: Fn(T, T, usize, usize) -> T>(
    mix: F,
    raws: Seq<Seq<T>>,
    g: Grid,
    frames: Seq<T>,
    iy: int,
    ix: int,
    p: int,
    y: int,
    x: int,
)
    requires
        put_together(mix, raws, g, frames),
        forall|i: int|
            0 <= i < raws.len() ==> (#[trigger] raws[i]).len() == 3 * (4 * g.ft) * tile_len(16 * g.h) * tile_len(
                16 * g.w,
            ),
        0 <= p < 3 * (4 * g.ft),
        0 <= y < 16 * g.h,
        0 <= x < 16 * g.w,
        0 <= iy < tiles::tile_count(16 * g.h),
        0 <= ix < tiles::tile_count(16 * g.w),
        owns(16 * g.h, iy, y),
        owns(16 * g.w, ix, x),
    ensures
        ({
            let (h, w) = (16 * g.h, 16 * g.w);
            let (th, tw, nx) = (tile_len(h), tile_len(w), tiles::tile_count(w));
            let (ty, tx) = (y - tiles::start_at(h, iy), x - tiles::start_at(w, ix));
            // how many lines and columns are shared with the tile above and with the one before
            let (ey, ex) = (
                tiles::start_at(h, iy - 1) + th - tiles::start_at(h, iy),
                tiles::start_at(w, ix - 1) + tw - tiles::start_at(w, ix),
            );
            let own = raws[iy * nx + ix][(p * th + ty) * tw + tx];
            let lower = if iy > 0 && ty < ey {
                mixed(mix, raws[(iy - 1) * nx + ix][(p * th + (th - ey + ty)) * tw + tx], own, ty, ey)
            } else {
                own
            };
            frames[(p * h + y) * w + x] == if ix > 0 && tx < ex {
                mixed(mix, raws[iy * nx + (ix - 1)][(p * th + ty) * tw + (tw - ex + tx)], lower, tx, ex)
            } else {
                lower
            }
        }),
{
    let (h, w) = (16 * g.h, 16 * g.w);
    let (th, tw, nx) = (tile_len(h), tile_len(w), tiles::tile_count(w));
    let planes = 3 * (4 * g.ft);
    let (ty, tx) = (y - tiles::start_at(h, iy), x - tiles::start_at(w, ix));
    let d = (p * h + y) * w + x;
    radix::lemma_flat2(p, y, planes, h);
    radix::lemma_flat2(p * h + y, x, planes * h, w);
    law_a_position_is_kept_once(h, y);
    law_a_position_is_kept_once(w, x);
    lemma_tile_inside(h, iy);
    lemma_tile_inside(w, ix);
    assert(clip_len(g) == planes * h * w);
    let j = (p * th + ty) * tw + tx;
    radix::lemma_flat2(p, ty, planes, th);
    radix::lemma_flat2(p * th + ty, tx, planes * th, tw);
    radix::lemma_flat2(iy, ix, tiles::tile_count(h), nx);
    let raw = raws[iy * nx + ix];
    if iy > 0 {
        lemma_start_after(h, iy);
        assert(p * (th * tw) + ((th - tiles::overlap_at(h, iy - 1) + ty) * tw + tx) == (p * th + (th
            - tiles::overlap_at(h, iy - 1) + ty)) * tw + tx) by (nonlinear_arith);
    }
    if ix > 0 {
        lemma_start_after(w, ix);
        assert(p * (th * tw) + (ty * tw + (tw - tiles::overlap_at(w, ix - 1) + tx)) == (p * th + ty) * tw + (tw
            - tiles::overlap_at(w, ix - 1) + tx)) by (nonlinear_arith);
    }
    assert(frames[d] == pixel(mix, raws, iy, ix, d, h, w));
}

proof fn lemma_start_after(len: int, i: int)
    requires
        len >= 0,
        0 < i < tiles::tile_count(len),
    ensures
        tiles::start_at(len, i) == tiles::start_at(len, i - 1) + tile_len(len) - tiles::overlap_at(len, i - 1),
{
    tiles::law_tile_count_is_the_fewest(len as nat);
}

/// Voxel `v`'s row holds, for each of its 24 channels, what the convolution makes for that channel of the voxel's own 24
/// latents, which lie a whole plane apart; the other 40 numbers are zero.
pub proof fn law_a_voxel_is_convolved_by_itself<T, O, C: Fn(usize, &[T]) -> O>(
    z: Seq<T>,
    n: int,
    zero: O,
    conv: C,
    rows: Seq<O>,
    v: int,
    o: int,
)
    requires
        are_padded(z, n, zero, conv, rows),
        0 <= v < n,
        0 <= o < 64,
    ensures
        o < 24 ==> exists|s: &[T]| #[trigger]
            call_ensures(conv, (o as usize, s), rows[64 * v + o]) && s@.len() == 24 && forall|i: int|
                0 <= i < 24 ==> s@[i] == #[trigger] z[i * n + v],
        o >= 24 ==> rows[64 * v + o] == zero,
{
    let d = 64 * v + o;
    assert(d / 64 == v && d % 64 == o);
    assert(rows[d] == rows[64 * v + o]);
    if o < 24 {
        assert(convolves(conv, d % 64, voxel(z, n, d / 64), rows[d]));
    }
}

/// Whether a clip is one tile.
pub open spec fn one_tile(g: Grid) -> bool {
    tiles::tile_count(g.h * VAE_PS) == 1 && tiles::tile_count(g.w * VAE_PS) == 1
}

/// Whether a clip is what decoding these latents in spatial tiles gave.
pub open spec fn tiled<
    T,
    D: Fn(&[T], Grid) -> Result<Vec<T>>,
    F: Fn(T, T, usize, usize) -> T,
>(decode: D, mix: F, z: Seq<T>, grid: Grid, clip: Seq<T>) -> bool {
    if one_tile(grid) {
        decodes(decode, z, grid, clip)
    } else {
        exists|raws: Seq<Seq<T>>| #[trigger]
            all_decoded(decode, z, grid, raws) && put_together(mix, raws, grid, clip)
    }
}

/// Whether this is how decoding these latents in spatial tiles failed: at the first tile, in the order of their rows,
/// that would not decode.
pub open spec fn tile_fails<T, D: Fn(&[T], Grid) -> Result<Vec<T>>>(
    decode: D,
    z: Seq<T>,
    grid: Grid,
    e: Error,
) -> bool {
    let (ny, nx) = (tiles::tile_count(grid.h * VAE_PS), tiles::tile_count(grid.w * VAE_PS));
    if one_tile(grid) {
        fails(decode, z, grid, e)
    } else {
        exists|raws: Seq<Seq<T>>| #[trigger]
            all_decoded(decode, z, grid, raws) && raws.len() < ny * nx && fails(
                decode,
                tile_latents(z, grid, raws.len() as int / nx, raws.len() as int % nx),
                tile_grid(grid),
                e,
            )
    }
}

/// One clip in spatial tiles, blended in pixel space.
///
/// `decode` is the decode of one tile, which knows nothing of where it sits.
#[verifier::rlimit(60)]
pub fn decode_spatial<
    T: Copy,
    D: Fn(&[T], Grid) -> Result<Vec<T>>,
    F: Fn(T, T, usize, usize) -> T,
>(z: &[T], grid: Grid, zero: T, decode: &D, mix: &F) -> (result: Result<Vec<T>>)
    requires
        clip_countable(grid),
        z@.len() >= LATENT_CH * grid.ft * grid.h * grid.w,
        decoder(*decode),
        mixes(*mix),
    ensures
        match result {
            Ok(v) => v@.len() == clip_len(grid) && tiled(*decode, *mix, z@, grid, v@),
            Err(e) => tile_fails(*decode, z@, grid, e),
        },
{
    let (frames_n, height, width): (usize, usize, usize) = grid.frames();
    let (ys, yo) = tiles::split_tiles(height);
    let (xs, xo) = tiles::split_tiles(width);
    if ys.len() == 1 && xs.len() == 1 {
        let result = decode(z, grid);
        assert(match result {
            Ok(v) => decodes(*decode, z@, grid, v@),
            Err(e) => fails(*decode, z@, grid, e),
        });
        return result;
    }
    let ghost (hi, wi) = (height as int, width as int);
    let th: usize = if height < 256 {
        height
    } else {
        256
    };
    let tw: usize = if width < 256 {
        width
    } else {
        256
    };
    let part = Grid { ft: grid.ft, h: th / VAE_PS, w: tw / VAE_PS };
    let planes: usize = 3 * frames_n;
    let mut frames: Vec<T> = filled(zero, planes * height * width);
    let mut above: Vec<Vec<T>> = Vec::new();
    let ghost mut raws: Seq<Seq<T>> = Seq::empty();
    let ghost nx = tiles::tile_count(wi);
    let ghost size: int = planes * th * tw;
    proof {
        assert(part == tile_grid(grid));
        assert(clip_len(part) == size);
        assert(0 * nx == 0) by (nonlinear_arith);
    }
    let mut iy: usize = 0;
    while iy < ys.len()
        invariant
            iy <= ys@.len(),
            clip_countable(grid),
            z@.len() >= LATENT_CH * grid.ft * grid.h * grid.w,
            decoder(*decode),
            mixes(*mix),
            !one_tile(grid),
            hi == height && wi == width && hi == grid.h * VAE_PS && wi == grid.w * VAE_PS,
            frames_n == grid.ft * VAE_PT,
            planes == 3 * frames_n,
            th == tile_len(hi) && tw == tile_len(wi),
            part == tile_grid(grid),
            nx == tiles::tile_count(wi),
            size == planes * th * tw,
            clip_len(part) == size,
            ys@.len() == tiles::tile_count(hi),
            xs@.len() == nx,
            yo@.len() == tiles::tile_count(hi) - 1,
            xo@.len() == nx - 1,
            forall|i: int| 0 <= i < ys@.len() ==> #[trigger] ys@[i] == tiles::start_at(hi, i),
            forall|i: int| 0 <= i < xs@.len() ==> #[trigger] xs@[i] == tiles::start_at(wi, i),
            forall|i: int| 0 <= i < yo@.len() ==> #[trigger] yo@[i] == tiles::overlap_at(hi, i),
            forall|i: int| 0 <= i < xo@.len() ==> #[trigger] xo@[i] == tiles::overlap_at(wi, i),
            frames@.len() == planes * height * width,
            frames@.len() == clip_len(grid),
            raws.len() == iy * nx,
            all_decoded(*decode, z@, grid, raws),
            forall|i: int| 0 <= i < raws.len() ==> (#[trigger] raws[i]).len() == size,
            iy > 0 ==> above@.len() == nx && forall|i: int|
                0 <= i < nx ==> (#[trigger] above@[i])@ == raws[(iy - 1) * nx + i],
            placed_so_far(*mix, raws, frames@, iy as int, 0, hi, wi),
        decreases ys@.len() - iy,
    {
        let mut row: Vec<Vec<T>> = Vec::new();
        let mut ix: usize = 0;
        while ix < xs.len()
            invariant
                iy < ys@.len(),
                ix <= xs@.len(),
                clip_countable(grid),
                z@.len() >= LATENT_CH * grid.ft * grid.h * grid.w,
                decoder(*decode),
                mixes(*mix),
                !one_tile(grid),
                hi == height && wi == width && hi == grid.h * VAE_PS && wi == grid.w * VAE_PS,
                frames_n == grid.ft * VAE_PT,
                planes == 3 * frames_n,
                th == tile_len(hi) && tw == tile_len(wi),
                part == tile_grid(grid),
                nx == tiles::tile_count(wi),
                size == planes * th * tw,
                clip_len(part) == size,
                ys@.len() == tiles::tile_count(hi),
                xs@.len() == nx,
                yo@.len() == tiles::tile_count(hi) - 1,
                xo@.len() == nx - 1,
                forall|i: int| 0 <= i < ys@.len() ==> #[trigger] ys@[i] == tiles::start_at(hi, i),
                forall|i: int| 0 <= i < xs@.len() ==> #[trigger] xs@[i] == tiles::start_at(wi, i),
                forall|i: int| 0 <= i < yo@.len() ==> #[trigger] yo@[i] == tiles::overlap_at(hi, i),
                forall|i: int| 0 <= i < xo@.len() ==> #[trigger] xo@[i] == tiles::overlap_at(wi, i),
                frames@.len() == planes * height * width,
                frames@.len() == clip_len(grid),
                raws.len() == iy * nx + ix,
                all_decoded(*decode, z@, grid, raws),
                forall|i: int| 0 <= i < raws.len() ==> (#[trigger] raws[i]).len() == size,
                iy > 0 ==> above@.len() == nx && forall|i: int|
                    0 <= i < nx ==> (#[trigger] above@[i])@ == raws[(iy - 1) * nx + i],
                row@.len() == ix,
                forall|i: int| 0 <= i < ix ==> (#[trigger] row@[i])@ == raws[iy * nx + i],
                placed_so_far(*mix, raws, frames@, iy as int, ix as int, hi, wi),
            decreases xs@.len() - ix,
        {
            let ghost n = raws.len() as int;
            proof {
                lemma_tile_inside(hi, iy as int);
                lemma_tile_inside(wi, ix as int);
                if iy > 0 {
                    lemma_tile_inside(hi, iy - 1);
                }
                if ix > 0 {
                    lemma_tile_inside(wi, ix - 1);
                }
                radix::lemma_flat2(iy as int, ix as int, iy + 1, nx);
            }
            let latent = crop(z, grid, ys[iy] / VAE_PS, xs[ix] / VAE_PS, part.h, part.w);
            let ghost before = raws;
            let s: &[T] = latent.as_slice();
            assert(s@ == tile_latents(z@, grid, iy as int, ix as int));
            let raw = match decode(s, part) {
                Ok(v) => v,
                Err(e) => {
                    proof {
                        assert(call_ensures(*decode, (s, part), Err::<Vec<T>, Error>(e)));
                        assert(fails(*decode, tile_latents(z@, grid, n / nx, n % nx), part, e));
                        radix::lemma_flat2(iy as int, ix as int, tiles::tile_count(hi), nx);
                        assert(all_decoded(*decode, z@, grid, raws));
                    }
                    return Err(e);
                },
            };
            assert(raw@.len() == size);
            assert(decodes(
                *decode,
                tile_latents(z@, grid, n / nx, n % nx),
                tile_grid(grid),
                raw@,
            ));
            proof {
                raws = raws.push(raw@);
                assert forall|i: int| 0 <= i < raws.len() implies decodes(
                    *decode,
                    tile_latents(z@, grid, i / nx, i % nx),
                    tile_grid(grid),
                    #[trigger] raws[i],
                ) by {
                    if i < n {
                        assert(raws[i] == before[i]);
                    }
                }
                if iy > 0 {
                    assert forall|i: int| 0 <= i < nx implies (#[trigger] above@[i])@ == raws[(iy - 1)
                        * nx + i] by {
                        assert((iy - 1) * nx + i < n && 0 <= (iy - 1) * nx) by (nonlinear_arith)
                            requires
                                n == iy * nx + ix,
                                iy > 0,
                                nx >= 1,
                                0 <= i < nx,
                                ix >= 0,
                        ;
                    }
                }
            }
            let up: Option<&Vec<T>> = if iy > 0 {
                Some(&above[ix])
            } else {
                None
            };
            let left: Option<&Vec<T>> = if ix > 0 {
                Some(&row[ix - 1])
            } else {
                None
            };
            let oy: usize = if iy > 0 {
                yo[iy - 1]
            } else {
                0
            };
            let ox: usize = if ix > 0 {
                xo[ix - 1]
            } else {
                0
            };
            proof {
                if iy > 0 {
                    assert((iy - 1) * nx + ix < n && 0 <= (iy - 1) * nx) by (nonlinear_arith)
                        requires
                            n == iy * nx + ix,
                            iy > 0,
                            nx >= 1,
                    ;
                    assert(above@[ix as int]@ == before[(iy - 1) * nx + ix]);
                    assert(before[(iy - 1) * nx + ix].len() == size);
                }
                if ix > 0 {
                    assert(row@[ix - 1]@ == before[iy * nx + (ix - 1)]);
                    assert(0 <= iy * nx) by (nonlinear_arith)
                        requires
                            iy >= 0,
                            nx >= 1,
                    ;
                    assert(before[iy * nx + (ix - 1)].len() == size);
                }
            }
            let tile = show_tile(&raw, up, left, oy, ox, frames_n, th, tw, mix);
            assert(tile@ == shown(*mix, raws, iy as int, ix as int, hi, wi));
            let keep_h: usize = th - if iy + 1 < ys.len() {
                yo[iy]
            } else {
                0
            };
            let keep_w: usize = tw - if ix + 1 < xs.len() {
                xo[ix]
            } else {
                0
            };
            let ghost was = frames@;
            place(
                &mut frames,
                &tile,
                planes,
                height,
                width,
                ys[iy],
                xs[ix],
                th,
                tw,
                keep_h,
                keep_w,
            );
            proof {
                assert forall|d: int| 0 <= d < was.len() implies #[trigger] frames@[d] == if in_tile(
                    iy as int,
                    ix as int,
                    d,
                    hi,
                    wi,
                ) {
                    pixel(*mix, raws, iy as int, ix as int, d, hi, wi)
                } else {
                    was[d]
                } by {}
                lemma_placed_next(
                    *mix,
                    before,
                    raw@,
                    was,
                    frames@,
                    iy as int,
                    ix as int,
                    hi,
                    wi,
                );
            }
            row.push(raw);
            ix += 1;
        }
        assert((iy + 1) * nx == iy * nx + nx) by (nonlinear_arith);
        above = row;
        iy += 1;
        assert((iy - 1) * nx == iy * nx - nx) by (nonlinear_arith);
    }
    proof {
        assert forall|d: int| 0 <= d < clip_len(grid) implies #[trigger] frames@[d] == pixel(
            *mix,
            raws,
            owner(hi, line_of(d, hi, wi)),
            owner(wi, column_of(d, wi)),
            d,
            hi,
            wi,
        ) by {
            radix::lemma_unflat2(d, planes * height, wi);
            radix::lemma_unflat2(d / wi, planes as int, hi);
            law_a_position_is_kept_once(hi, line_of(d, hi, wi));
            law_a_position_is_kept_once(wi, column_of(d, wi));
            assert(in_tile(
                owner(hi, line_of(d, hi, wi)),
                owner(wi, column_of(d, wi)),
                d,
                hi,
                wi,
            ));
        }
        assert(all_decoded(*decode, z@, grid, raws) && put_together(*mix, raws, grid, frames@));
    }
    Ok(frames)
}

} // verus!
