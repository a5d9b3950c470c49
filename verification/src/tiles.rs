//! Tiling, and the three blends that look alike and are not.
//!
//! The video VAE runs in 256-pixel tiles both ways. The encoder blends in *latent* space and returns a
//! new tile; the decoder blends in pixel space in place; the decoder's temporal pass cross-fades whole
//! frames between chunks. Each clamps its overlap differently, and one of them does not clamp at all.
//! They are kept apart on purpose.
//!
//! A blend says which two elements meet and how far along the fade they are; `mix(a, b, k, e)`, which
//! the caller brings, is what becomes of them at step `k` of `e`.
use vstd::prelude::*;

use crate::model::LATENT_CH;
use crate::radix;

verus! {

pub const TILE: usize = 256;

pub const OVERLAP_MIN: usize = 64;

pub const UNIT: usize = 16;

/// How many tiles a length takes: one where it fits in one, else the fewest whose pixels cover the
/// length and the least overlap between each two.
pub open spec fn tile_count(len: int) -> int {
    if len <= TILE {
        1
    } else {
        (len + 127) / 192
    }
}

/// How many of the first `q` units the overlap `k` of `m` is dealt, when they are dealt round-robin.
pub open spec fn dealt(q: int, k: int, m: int) -> int
    decreases q,
{
    if q <= 0 {
        0
    } else {
        dealt(q - 1, k, m) + if (q - 1) % m == k {
            1int
        } else {
            0
        }
    }
}

/// How many whole units of slack the tiles leave over the length and the least overlaps.
pub open spec fn slack_units(len: int) -> int {
    (TILE * tile_count(len) - OVERLAP_MIN * (tile_count(len) - 1) - len) / UNIT as int
}

/// How far the tiles `i` and `i + 1` of a length overlap.
pub open spec fn overlap_at(len: int, i: int) -> int {
    OVERLAP_MIN + UNIT * dealt(slack_units(len), i, tile_count(len) - 1)
}

/// Where the tile `i` of a length starts.
pub open spec fn start_at(len: int, i: int) -> int
    decreases i,
{
    if i <= 0 {
        0
    } else {
        start_at(len, i - 1) + TILE - overlap_at(len, i - 1)
    }
}

/// The tile count is the fewest tiles that do: they cover the length with the least overlaps between
/// them, and one fewer would not.
pub proof fn law_tile_count_is_the_fewest(len: nat)
    ensures
        len <= TILE <==> tile_count(len as int) == 1,
        TILE * tile_count(len as int) >= OVERLAP_MIN * (tile_count(len as int) - 1) + len,
        len > TILE ==> TILE * (tile_count(len as int) - 1) < OVERLAP_MIN * (tile_count(len as int)
            - 2) + len,
{
}

proof fn lemma_dealt_bounds(q: int, k: int, m: int)
    requires
        q >= 0,
    ensures
        0 <= dealt(q, k, m) <= q,
    decreases q,
{
    if q > 0 {
        lemma_dealt_bounds(q - 1, k, m);
    }
}

proof fn lemma_slack(len: int)
    requires
        len > TILE,
    ensures
        tile_count(len) >= 2,
        0 <= slack_units(len) <= 11,
{
}

/// What the first `n` overlaps are dealt together.
spec fn dealt_to(q: int, n: int, m: int) -> int
    decreases n,
{
    if n <= 0 {
        0
    } else {
        dealt_to(q, n - 1, m) + dealt(q, n - 1, m)
    }
}

proof fn lemma_dealt_once(q: int, n: int, m: int)
    requires
        q > 0,
        0 <= n <= m,
        m > 0,
    ensures
        dealt_to(q, n, m) == dealt_to(q - 1, n, m) + if (q - 1) % m < n {
            1int
        } else {
            0
        },
    decreases n,
{
    if n > 0 {
        lemma_dealt_once(q, n - 1, m);
    }
}

proof fn lemma_dealt_out(q: int, m: int)
    requires
        q >= 0,
        m > 0,
    ensures
        dealt_to(q, m, m) == q,
    decreases q,
{
    if q > 0 {
        lemma_dealt_out(q - 1, m);
        lemma_dealt_once(q, m, m);
        assert(0 <= (q - 1) % m < m) by (nonlinear_arith)
            requires
                m > 0,
        ;
    } else {
        lemma_nothing_dealt(m, m);
    }
}

proof fn lemma_nothing_dealt(n: int, m: int)
    ensures
        dealt_to(0, n, m) == 0,
    decreases n,
{
    if n > 0 {
        lemma_nothing_dealt(n - 1, m);
    }
}

proof fn lemma_start_sums(len: int, i: int)
    requires
        i >= 0,
    ensures
        start_at(len, i) == (TILE - OVERLAP_MIN) * i - UNIT * dealt_to(
            slack_units(len),
            i,
            tile_count(len) - 1,
        ),
    decreases i,
{
    if i > 0 {
        lemma_start_sums(len, i - 1);
    }
}

proof fn lemma_cover(len: int, n: int, q: int)
    requires
        len > 256,
        n == (len + 127) / 192,
        q == (256 * n - 64 * (n - 1) - len) / 16,
    ensures
        len <= 192 * (n - 1) - 16 * q + 256 < len + 16,
        len % 16 == 0 ==> 192 * (n - 1) - 16 * q + 256 == len,
{
}

/// The tiles of a length cover it: the last one ends at the length, or past it by what a whole unit
/// of slack does not divide. Where the length is a whole number of units it ends exactly there.
pub proof fn law_tiles_cover_the_length(len: nat)
    requires
        len > TILE,
    ensures
        start_at(len as int, tile_count(len as int) - 1) + TILE >= len,
        start_at(len as int, tile_count(len as int) - 1) + TILE < len + UNIT,
        len % UNIT as nat == 0 ==> start_at(len as int, tile_count(len as int) - 1) + TILE == len,
{
    let n = tile_count(len as int);
    let q = slack_units(len as int);
    lemma_slack(len as int);
    lemma_dealt_out(q, n - 1);
    lemma_start_sums(len as int, n - 1);
    lemma_cover(len as int, n, q);
}

/// Overlaps move in units, are never under the least overlap, and are narrower than a tile.
pub proof fn law_overlaps_stay_inside_a_tile(len: nat, i: int)
    requires
        len > TILE,
        0 <= i < tile_count(len as int) - 1,
    ensures
        OVERLAP_MIN <= overlap_at(len as int, i) < TILE,
        overlap_at(len as int, i) % UNIT as int == 0,
{
    lemma_slack(len as int);
    lemma_dealt_bounds(slack_units(len as int), i, tile_count(len as int) - 1);
}

/// The slack is dealt from the first overlap on: an overlap is as wide as the one before it, or one unit narrower, and no
/// two differ by more.
pub proof fn law_earlier_overlaps_are_wider(len: nat, i: int, j: int)
    requires
        len > TILE,
        0 <= i < j < tile_count(len as int) - 1,
    ensures
        overlap_at(len as int, j) <= overlap_at(len as int, i) <= overlap_at(len as int, j) + UNIT,
{
    let m = tile_count(len as int) - 1;
    lemma_slack(len as int);
    lemma_dealt_evenly(slack_units(len as int), i, j, m);
}

proof fn lemma_dealt_evenly(q: int, i: int, j: int, m: int)
    requires
        0 <= q,
        0 <= i < j < m,
    ensures
        dealt(q, j, m) <= dealt(q, i, m) <= dealt(q, j, m) + 1,
        dealt(q, i, m) == q / m + (if q % m > i {
            1int
        } else {
            0
        }),
        dealt(q, j, m) == q / m + (if q % m > j {
            1int
        } else {
            0
        }),
    decreases q,
{
    if q > 0 {
        lemma_dealt_evenly(q - 1, i, j, m);
        let (a, b) = ((q - 1) / m, (q - 1) % m);
        assert(q - 1 == a * m + b && 0 <= b < m) by (nonlinear_arith)
            requires
                m > 0,
                a == (q - 1) / m,
                b == (q - 1) % m,
        ;
        if b + 1 < m {
            radix::lemma_flat2(a, b + 1, a + 1, m);
            assert(q == a * m + (b + 1));
        } else {
            radix::lemma_flat2(a + 1, 0, a + 2, m);
            assert((a + 1) * m == a * m + m) by (nonlinear_arith);
            assert(q == (a + 1) * m + 0);
        }
    } else {
        assert(0int / m == 0 && 0int % m == 0) by (nonlinear_arith)
            requires
                m > 0,
        ;
    }
}

/// What meets in a blend is the same pixel, where the two tiles lie over each other by as much as the blend takes: an
/// element `k` lines into one tile meets the neighbour's line that lies under it, in the same plane and column; and
/// sideways alike.
pub proof fn law_a_blend_meets_the_same_pixel(p: int, y: int, x: int, e: int, ah: int, aw: int, bh: int, bw: int)
    requires
        0 <= p,
        0 <= y < bh,
        0 <= x < bw,
    ensures
        ({
            let j = (p * bh + y) * bw + x;
            &&& step(true, j, bh, bw) == y
            &&& step(false, j, bh, bw) == x
            &&& aw == bw ==> meets(true, j, e, ah, aw, bh, bw) == (p * ah + (ah - e + y)) * aw + x
            &&& ah == bh ==> meets(false, j, e, ah, aw, bh, bw) == (p * ah + y) * aw + (aw - e + x)
        }),
{
    let j = (p * bh + y) * bw + x;
    radix::lemma_flat2(p, y, p + 1, bh);
    radix::lemma_flat2(p * bh + y, x, (p + 1) * bh, bw);
    assert(p * (ah * aw) + ((ah - e + y) * aw + x) == (p * ah + (ah - e + y)) * aw + x && p * (ah * aw) + (y * aw + (aw
        - e + x)) == (p * ah + y) * aw + (aw - e + x)) by (nonlinear_arith);
}

/// A fade meets the last frames of what was carried over, in their order: the pixel of the frame `k` of a chunk meets the
/// same pixel of the same channel, as many frames before the end as the fade has left.
pub proof fn law_a_fade_meets_the_last_frames(ch: int, k: int, q: int, plane: int, nf: int, ov: int, be: int)
    requires
        0 <= ch < 3,
        0 <= k < nf,
        0 <= q < plane,
    ensures
        tail((ch * nf + k) * plane + q, plane, nf, ov, be) == (ch * ov + (ov - be + k)) * plane + q,
{
    radix::lemma_flat2(ch, k, 3, nf);
    radix::lemma_flat2(ch * nf + k, q, 3 * nf, plane);
}

/// Whether the pixels of the tiles of a length can be counted.
pub fn is_splittable(len: usize) -> (yes: bool)
    ensures
        yes == (TILE * tile_count(len as int) <= usize::MAX),
{
    len <= TILE || (len as u128 + 127) / 192 * 256 <= usize::MAX as u128
}

/// ComfyUI's `split_tiles`: 256-pixel tiles with overlaps of at least 64, grown in 16-pixel units.
///
/// The loop widens the tile count until the tiles plus their minimum overlaps actually cover the
/// length, then spreads the slack round-robin across the overlaps: with three tiles and 48 pixels of
/// slack the first overlap takes 32 and the second 16, not 24 each.
pub fn split_tiles(len: usize) -> (r: (Vec<usize>, Vec<usize>))
    requires
        TILE * tile_count(len as int) <= usize::MAX,
    ensures
        r.0@.len() == tile_count(len as int),
        r.1@.len() == tile_count(len as int) - 1,
        forall|i: int| 0 <= i < r.0@.len() ==> #[trigger] r.0@[i] == start_at(len as int, i),
        forall|i: int| 0 <= i < r.1@.len() ==> #[trigger] r.1@[i] == overlap_at(len as int, i),
{
    if TILE >= len {
        return (vec![0], Vec::new());
    }
    let ghost n0 = tile_count(len as int);
    let mut n: usize = (len - 1) / TILE + 1;
    while TILE * n < OVERLAP_MIN * (n - 1) + len
        invariant
            TILE < len,
            1 <= n <= n0,
            n0 == tile_count(len as int),
            TILE * n0 <= usize::MAX,
        decreases n0 - n,
    {
        n += 1;
    }
    assert(n == n0);
    let mut overlaps: Vec<usize> = vec![OVERLAP_MIN; n - 1];
    let units: usize = (TILE * n - (OVERLAP_MIN * (n - 1) + len)) / UNIT;
    proof {
        lemma_slack(len as int);
    }
    assert(units == slack_units(len as int));
    let mut i: usize = 0;
    while i < units
        invariant
            i <= units <= 11,
            n >= 2,
            overlaps@.len() == n - 1,
            forall|k: int|
                0 <= k < n - 1 ==> #[trigger] overlaps@[k] == OVERLAP_MIN + UNIT * dealt(
                    i as int,
                    k,
                    n - 1,
                ),
        decreases units - i,
    {
        let at: usize = i % (n - 1);
        proof {
            lemma_dealt_bounds(i as int, at as int, n - 1);
        }
        let grown: usize = overlaps[at] + UNIT;
        overlaps.set(at, grown);
        i += 1;
    }
    assert forall|k: int| 0 <= k < n - 1 implies #[trigger] overlaps@[k] == overlap_at(
        len as int,
        k,
    ) by {}
    let mut starts: Vec<usize> = Vec::new();
    starts.push(0);
    let mut j: usize = 0;
    while j < n - 1
        invariant
            len > TILE,
            j <= n - 1,
            n >= 2,
            n == tile_count(len as int),
            TILE * n <= usize::MAX,
            overlaps@.len() == n - 1,
            starts@.len() == j + 1,
            forall|k: int|
                0 <= k < n - 1 ==> #[trigger] overlaps@[k] == overlap_at(len as int, k),
            forall|k: int| 0 <= k <= j ==> #[trigger] starts@[k] == start_at(len as int, k),
            starts@[j as int] <= TILE * j,
        decreases n - 1 - j,
    {
        proof {
            law_overlaps_stay_inside_a_tile(len as nat, j as int);
        }
        let last: usize = starts[starts.len() - 1];
        let next: usize = last + TILE - overlaps[j];
        starts.push(next);
        j += 1;
    }
    (starts, overlaps)
}

/// How far a fade over `ext` reaches where the two tiles are `a` and `b` long.
pub open spec fn clamped(ext: int, a: int, b: int) -> int {
    let least = if a < b {
        a
    } else {
        b
    };
    if ext < least {
        ext
    } else {
        least
    }
}

/// How far into a vertical or horizontal blend the element `j` of a stack of `h` by `w` planes is: its
/// row, or its column.
pub open spec fn step(vertical: bool, j: int, h: int, w: int) -> int {
    if vertical {
        j / w % h
    } else {
        j % w
    }
}

/// Where the element `j` of a stack of `bh` by `bw` planes meets its neighbour, a stack of `ah` by `aw`
/// planes, in a blend over `e`: in the same plane, and as far from where the neighbour's last `e` rows
/// (or columns) begin as the element is from its own first.
pub open spec fn meets(
    vertical: bool,
    j: int,
    e: int,
    ah: int,
    aw: int,
    bh: int,
    bw: int,
) -> int {
    (j / bw / bh) * (ah * aw) + if vertical {
        (ah - e + j / bw % bh) * aw + j % bw
    } else {
        (j / bw % bh) * aw + (aw - e + j % bw)
    }
}

/// Where the element `j` of a stack of `h` by `w` planes is, and that another stack of as many planes
/// of `oh` by `ow` holds the cell `(y, x)` of the same plane.
proof fn lemma_plane(j: int, planes: int, h: int, w: int, oh: int, ow: int, y: int, x: int)
    requires
        0 <= j,
        h > 0,
        w > 0,
        j / w / h < planes,
        0 <= y < oh,
        0 <= x < ow,
    ensures
        0 <= j / w % h < h,
        0 <= j % w < w,
        0 <= (j / w / h) * (oh * ow) + (y * ow + x) < planes * (oh * ow),
        0 <= oh * ow <= planes * (oh * ow),
        0 <= (j / w / h) * (oh * ow),
        0 <= y * ow,
{
    assert(0 <= j / w && 0 <= j % w < w) by (nonlinear_arith)
        requires
            0 <= j,
            w > 0,
    ;
    let q = j / w;
    assert(0 <= q / h && 0 <= q % h < h) by (nonlinear_arith)
        requires
            0 <= q,
            h > 0,
    ;
    radix::lemma_flat2(y, x, oh, ow);
    radix::lemma_flat2(q / h, y * ow + x, planes, oh * ow);
    lemma_plane_products(q / h, planes, oh * ow);
    assert(0 <= y * ow) by (nonlinear_arith)
        requires
            0 <= y,
            0 <= ow,
    ;
}

proof fn lemma_plane_products(p: int, planes: int, size: int)
    by (nonlinear_arith)
    requires
        0 <= p < planes,
        0 <= size,
    ensures
        size <= planes * size,
        0 <= p * size,
{
}

/// Whether the element `j` lies in the first `planes` planes of `h` by `w`.
proof fn lemma_in_planes(j: int, planes: int, h: int, w: int)
    requires
        0 <= j,
        0 <= planes,
        h > 0,
        w > 0,
    ensures
        j / w / h < planes <==> j < planes * (h * w),
{
    vstd::arithmetic::div_mod::lemma_div_denominator(j, w, h);
    vstd::arithmetic::mul::lemma_mul_is_commutative(w, h);
    let f = h * w;
    assert(f > 0) by (nonlinear_arith)
        requires
            f == h * w,
            h > 0,
            w > 0,
    ;
    assert(j / f < planes <==> j < planes * f) by (nonlinear_arith)
        requires
            0 <= j,
            f > 0,
            0 <= planes,
    ;
}

/// Whether the first `n` numbers of a stack of planes were blended with a neighbour's over `e` rows or columns, and the
/// others stayed.
pub open spec fn blends<T, F: Fn(T, T, usize, usize) -> T>(
    before: Seq<T>,
    neighbour: Seq<T>,
    after: Seq<T>,
    e: int,
    vertical: bool,
    n: int,
    ah: int,
    aw: int,
    bh: int,
    bw: int,
    mix: F,
) -> bool {
    &&& after.len() == before.len()
    &&& forall|j: int|
        0 <= j < before.len() ==> {
            let k = step(vertical, j, bh, bw);
            let src = meets(vertical, j, e, ah, aw, bh, bw);
            if j < n && k < e {
                call_ensures(mix, (neighbour[src], before[j], k as usize, e as usize), #[trigger] after[j])
            } else {
                after[j] == before[j]
            }
        }
}

/// A blend mixes the numbers of one place: line `y` of a tile, if it is among the first `e`, with the neighbour's line of
/// that many behind where its own last `e` begin, by how far into the blend it is; sideways alike by columns. What is
/// further in stays.
pub proof fn law_a_blend_mixes_the_same_place<T, F: Fn(T, T, usize, usize) -> T>(
    before: Seq<T>,
    neighbour: Seq<T>,
    after: Seq<T>,
    e: int,
    planes: int,
    ah: int,
    aw: int,
    bh: int,
    bw: int,
    mix: F,
    p: int,
    y: int,
    x: int,
)
    requires
        0 <= p < planes,
        0 <= y < bh,
        0 <= x < bw,
        planes * (bh * bw) <= before.len(),
    ensures
        ({
            let j = (p * bh + y) * bw + x;
            let (down, across) = (
                blends(before, neighbour, after, e, true, planes * (bh * bw), ah, aw, bh, bw, mix),
                blends(before, neighbour, after, e, false, planes * (bh * bw), ah, aw, bh, bw, mix),
            );
            &&& down && y >= e || across && x >= e ==> after[j] == before[j]
            &&& down && y < e && aw == bw ==> call_ensures(
                mix,
                (neighbour[(p * ah + (ah - e + y)) * aw + x], before[j], y as usize, e as usize),
                after[j],
            )
            &&& across && x < e && ah == bh ==> call_ensures(
                mix,
                (neighbour[(p * ah + y) * aw + (aw - e + x)], before[j], x as usize, e as usize),
                after[j],
            )
        }),
{
    law_a_blend_meets_the_same_pixel(p, y, x, e, ah, aw, bh, bw);
    let j = (p * bh + y) * bw + x;
    radix::lemma_flat2(p, y, planes, bh);
    radix::lemma_flat2(p * bh + y, x, planes * bh, bw);
    assert(planes * bh * bw == planes * (bh * bw)) by (nonlinear_arith);
    assert(after[j] == after[j]);
}

/// The encoder's latent blend: a fresh tile whose leading `ext` rows or columns fade in from `a`.
///
/// The extent is clamped to both tiles' size along the blended axis, which is what keeps a short edge
/// tile from reading outside itself. Latents are `[24][T][h][w]`. The two tiles share the axis that is
/// not blended: a vertical blend joins tiles in the same column, a horizontal one tiles in the same
/// row.
pub fn blend_latent<T: Copy, F: Fn(T, T, usize, usize) -> T>(
    a: &[T],
    ah: usize,
    aw: usize,
    b: &[T],
    bh: usize,
    bw: usize,
    ext: usize,
    ydim: bool,
    t_len: usize,
    mix: &F,
) -> (r: Vec<T>)
    requires
        if ydim {
            aw == bw
        } else {
            ah == bh
        },
        (LATENT_CH * t_len) * (ah * aw) <= a@.len(),
        (LATENT_CH * t_len) * (bh * bw) <= b@.len(),
        forall|x: T, y: T, k: usize, e: usize|
            k < e ==> #[trigger] call_requires(*mix, (x, y, k, e)),
    ensures
        ({
            let e = if ydim {
                clamped(ext as int, ah as int, bh as int)
            } else {
                clamped(ext as int, aw as int, bw as int)
            };
            let n = (LATENT_CH * t_len) * (bh * bw);
            blends(b@, a@, r@, e, ydim, n, ah as int, aw as int, bh as int, bw as int, *mix)
        }),
{
    let mut r: Vec<T> = vstd::slice::slice_to_vec(b);
    let least: usize = if ydim {
        if ah < bh {
            ah
        } else {
            bh
        }
    } else {
        if aw < bw {
            aw
        } else {
            bw
        }
    };
    let e: usize = if ext < least {
        ext
    } else {
        least
    };
    if e == 0 || bh == 0 || bw == 0 {
        proof {
            assert forall|j: int| 0 <= j < b@.len() && bh > 0 && bw > 0 implies #[trigger] step(
                ydim,
                j,
                bh as int,
                bw as int,
            ) >= 0 by {
                lemma_plane(j, j / bw as int / bh as int + 1, bh as int, bw as int, 1, 1, 0, 0);
            }
            if bw == 0 {
                assert((LATENT_CH * t_len) * (bh * bw) == 0) by (nonlinear_arith)
                    requires
                        bw == 0,
                ;
            }
            if bh == 0 {
                assert((LATENT_CH * t_len) * (bh * bw) == 0) by (nonlinear_arith)
                    requires
                        bh == 0,
                ;
            }
        }
        return r;
    }
    let mut j: usize = 0;
    while j < b.len() && j / bw / bh / LATENT_CH < t_len
        invariant
            j <= b@.len(),
            r@.len() == b@.len(),
            bh > 0,
            bw > 0,
            e > 0,
            e as int == if ydim {
                clamped(ext as int, ah as int, bh as int)
            } else {
                clamped(ext as int, aw as int, bw as int)
            },
            if ydim {
                aw == bw
            } else {
                ah == bh
            },
            (LATENT_CH * t_len) * (ah * aw) <= a@.len(),
            (LATENT_CH * t_len) * (bh * bw) <= b@.len(),
            forall|x: T, y: T, k: usize, e: usize|
                k < e ==> #[trigger] call_requires(*mix, (x, y, k, e)),
            forall|i: int| j <= i < b@.len() ==> #[trigger] r@[i] == b@[i],
            forall|i: int|
                0 <= i < j ==> {
                    let k = step(ydim, i, bh as int, bw as int);
                    let src = meets(ydim, i, e as int, ah as int, aw as int, bh as int, bw as int);
                    if k < e {
                        call_ensures(*mix, (a@[src], b@[i], k as usize, e as usize), #[trigger] r@[i])
                    } else {
                        r@[i] == b@[i]
                    }
                },
            forall|i: int| 0 <= i < j ==> #[trigger] (i / bw as int / bh as int) < LATENT_CH * t_len,
        decreases b@.len() - j,
    {
        assert(a@.len() == a.len());
        let p: usize = j / bw / bh;
        let y: usize = j / bw % bh;
        let x: usize = j % bw;
        assert(p < LATENT_CH * t_len);
        let k: usize = if ydim {
            y
        } else {
            x
        };
        if k < e {
            let ghost planes: int = LATENT_CH * t_len;
            let ay: usize = if ydim {
                ah - e + y
            } else {
                y
            };
            let ax: usize = if ydim {
                x
            } else {
                aw - e + x
            };
            proof {
                lemma_plane(
                    j as int,
                    planes,
                    bh as int,
                    bw as int,
                    ah as int,
                    aw as int,
                    ay as int,
                    ax as int,
                );
            }
            let src: usize = p * (ah * aw) + (ay * aw + ax);
            let mixed = mix(a[src], b[j], k, e);
            r.set(j, mixed);
        }
        j += 1;
    }
    proof {
        let planes: int = LATENT_CH * t_len;
        lemma_in_planes(j as int, planes, bh as int, bw as int);
        if j > 0 {
            assert(((j - 1) / bw as int / bh as int) < planes);
            lemma_in_planes(j - 1, planes, bh as int, bw as int);
        }
        assert(j == planes * (bh * bw));
    }
    r
}

/// The decoder's spatial blend, in place over `[3][F][th][tw]`.
///
/// Unlike the encoder's, the extent is used as given: both tiles are a full 256 pixels here, so there
/// is nothing to clamp against.
pub fn blend_pixels<T: Copy, F: Fn(T, T, usize, usize) -> T>(
    tile: &mut [T],
    a: &[T],
    extent: usize,
    vertical: bool,
    frames: usize,
    th: usize,
    tw: usize,
    mix: &F,
)
    requires
        if vertical {
            extent <= th
        } else {
            extent <= tw
        },
        (3 * frames) * (th * tw) <= old(tile)@.len(),
        (3 * frames) * (th * tw) <= a@.len(),
        forall|x: T, y: T, k: usize, e: usize|
            k < e ==> #[trigger] call_requires(*mix, (x, y, k, e)),
    ensures
        ({
            let (h, w) = (th as int, tw as int);
            let n = (3 * frames) * (th * tw);
            blends(old(tile)@, a@, final(tile)@, extent as int, vertical, n, h, w, h, w, *mix)
        }),
{
    if th == 0 || tw == 0 {
        assert((3 * frames) * (th * tw) == 0) by (nonlinear_arith)
            requires
                th == 0 || tw == 0,
        ;
        return;
    }
    let ghost before = tile@;
    let mut j: usize = 0;
    while j < tile.len() && j / tw / th / 3 < frames
        invariant
            j <= before.len(),
            tile@.len() == before.len(),
            before == old(tile)@,
            th > 0,
            tw > 0,
            if vertical {
                extent <= th
            } else {
                extent <= tw
            },
            (3 * frames) * (th * tw) <= a@.len(),
            (3 * frames) * (th * tw) <= before.len(),
            forall|x: T, y: T, k: usize, e: usize|
                k < e ==> #[trigger] call_requires(*mix, (x, y, k, e)),
            forall|i: int| j <= i < before.len() ==> #[trigger] tile@[i] == before[i],
            forall|i: int|
                0 <= i < j ==> {
                    let k = step(vertical, i, th as int, tw as int);
                    let src = meets(vertical, i, extent as int, th as int, tw as int, th as int, tw as int);
                    if k < extent {
                        call_ensures(
                            *mix,
                            (a@[src], before[i], k as usize, extent),
                            #[trigger] tile@[i],
                        )
                    } else {
                        tile@[i] == before[i]
                    }
                },
            forall|i: int| 0 <= i < j ==> #[trigger] (i / tw as int / th as int) < 3 * frames,
        decreases before.len() - j,
    {
        let p: usize = j / tw / th;
        let y: usize = j / tw % th;
        let x: usize = j % tw;
        assert(p < 3 * frames);
        let k: usize = if vertical {
            y
        } else {
            x
        };
        if k < extent {
            let ghost planes: int = 3 * frames;
            let ay: usize = if vertical {
                th - extent + y
            } else {
                y
            };
            let ax: usize = if vertical {
                x
            } else {
                tw - extent + x
            };
            proof {
                lemma_plane(
                    j as int,
                    planes,
                    th as int,
                    tw as int,
                    th as int,
                    tw as int,
                    ay as int,
                    ax as int,
                );
            }
            let src: usize = p * (th * tw) + (ay * tw + ax);
            let mixed = mix(a[src], tile[j], k, extent);
            tile[j] = mixed;
        }
        j += 1;
    }
    proof {
        let planes: int = 3 * frames;
        lemma_in_planes(j as int, planes, th as int, tw as int);
        if j > 0 {
            assert(((j - 1) / tw as int / th as int) < planes);
            lemma_in_planes(j - 1, planes, th as int, tw as int);
        }
        assert(j == planes * (th * tw));
    }
}

/// How many whole frames `[3][F][plane]` holds in `len` elements.
pub open spec fn frames_in(len: int, plane: int) -> int {
    len / (3 * plane)
}

/// How many frames a cross-fade lasts: the fewest of what the overlap holds, what the chunk holds, and
/// what was asked for.
pub open spec fn fade_frames(overlap_len: int, plane: int, nf: int, asked: int) -> int {
    clamped(asked, frames_in(overlap_len, plane), nf)
}

/// Where the element `i` of a chunk of `[3][nf][plane]` meets an overlap of `ov` frames, `be` of which
/// fade: the same channel and pixel, as many frames into the overlap's last `be` as it is into the
/// chunk.
pub open spec fn tail(i: int, plane: int, nf: int, ov: int, be: int) -> int {
    (i / plane / nf * ov + (ov - be + i / plane % nf)) * plane + i % plane
}

proof fn lemma_tail(i: int, plane: int, nf: int, ov: int, be: int)
    requires
        0 <= i,
        plane > 0,
        nf > 0,
        i / plane / nf < 3,
        i / plane % nf < be <= ov,
    ensures
        0 <= i / plane / nf,
        0 <= i / plane % nf,
        0 <= i % plane < plane,
        0 <= i / plane / nf * ov,
        i / plane / nf * ov + (ov - be + i / plane % nf) <= (i / plane / nf * ov + (ov - be + i
            / plane % nf)) * plane,
        0 <= tail(i, plane, nf, ov, be) < (3 * ov) * plane,
{
    lemma_plane(i, 3, nf, plane, ov, plane, ov - be + i / plane % nf, i % plane);
    let c = i / plane / nf;
    let k = ov - be + i / plane % nf;
    radix::lemma_flat2(c, k, 3, ov);
    radix::lemma_flat2(c * ov + k, i % plane, 3 * ov, plane);
    let row = c * ov + k;
    assert(row <= row * plane) by (nonlinear_arith)
        requires
            0 <= row,
            plane > 0,
    ;
    lemma_plane_products(c, 3, ov);
}

/// Whether the first frames of a chunk were faded in from the last of what was carried over, and the others stayed.
pub open spec fn fades<T, F: Fn(T, T, usize, usize) -> T>(
    before: Seq<T>,
    overlap: Seq<T>,
    after: Seq<T>,
    nf: int,
    plane: int,
    asked: int,
    mix: F,
) -> bool {
    let ov = frames_in(overlap.len() as int, plane);
    let be = fade_frames(overlap.len() as int, plane, nf, asked);
    &&& after.len() == before.len()
    &&& forall|i: int|
        0 <= i < before.len() ==> {
            let k = i / plane % nf;
            if i < (3 * nf) * plane && k < be {
                call_ensures(
                    mix,
                    (overlap[tail(i, plane, nf, ov, be)], before[i], k as usize, be as usize),
                    #[trigger] after[i],
                )
            } else {
                after[i] == before[i]
            }
        }
}

/// A fade lasts as long as was asked, unless the chunk or what was carried over is shorter. While it lasts, a pixel of
/// frame `k` is mixed with the same pixel of the same channel, of what was carried over, as many frames before its end as
/// the fade has left; behind it nothing changes.
pub proof fn law_a_fade_mixes_the_same_pixel<T, F: Fn(T, T, usize, usize) -> T>(
    before: Seq<T>,
    overlap: Seq<T>,
    after: Seq<T>,
    nf: int,
    plane: int,
    ov: int,
    asked: int,
    be: int,
    mix: F,
    ch: int,
    k: int,
    q: int,
)
    requires
        fades(before, overlap, after, nf, plane, asked, mix),
        0 <= ch < 3,
        0 <= k < nf,
        0 <= q < plane,
        0 <= ov,
        overlap.len() == 3 * ov * plane,
        before.len() >= 3 * nf * plane,
        be <= asked && be <= ov && be <= nf,
        be == asked || be == ov || be == nf,
    ensures
        ({
            let i = (ch * nf + k) * plane + q;
            if k < be {
                call_ensures(
                    mix,
                    (overlap[(ch * ov + (ov - be + k)) * plane + q], before[i], k as usize, be as usize),
                    after[i],
                )
            } else {
                after[i] == before[i]
            }
        }),
{
    let i = (ch * nf + k) * plane + q;
    radix::lemma_flat2(ch, k, 3, nf);
    radix::lemma_flat2(ch * nf + k, q, 3 * nf, plane);
    assert((3 * ov * plane) / (3 * plane) == ov) by (nonlinear_arith)
        requires
            0 < plane,
            0 <= ov,
    ;
    assert((3 * nf) * plane == 3 * nf * plane);
    law_a_fade_meets_the_last_frames(ch, k, q, plane, nf, ov, be);
    assert(fade_frames(overlap.len() as int, plane, nf, asked) == be);
    assert(after[i] == after[i]);
}

/// The decoder's temporal cross-fade: the previous chunk's tail faded into this chunk's head.
///
/// The fade length is the smallest of what the overlap holds, what the chunk holds, and what was asked
/// for: the last chunk of a clip is often shorter than the overlap it has to accept.
pub fn crossfade<T: Copy, F: Fn(T, T, usize, usize) -> T>(
    chunk: &mut [T],
    nf: usize,
    overlap: &[T],
    plane: usize,
    overlap_frames: usize,
    mix: &F,
)
    requires
        plane > 0,
        3 * plane <= usize::MAX,
        (3 * nf) * plane <= old(chunk)@.len(),
        forall|x: T, y: T, k: usize, e: usize|
            k < e ==> #[trigger] call_requires(*mix, (x, y, k, e)),
    ensures
        fades(old(chunk)@, overlap@, final(chunk)@, nf as int, plane as int, overlap_frames as int, *mix),
{
    let ov: usize = overlap.len() / (3 * plane);
    let mut be: usize = if ov < nf {
        ov
    } else {
        nf
    };
    if overlap_frames < be {
        be = overlap_frames;
    }
    let ghost before = chunk@;
    proof {
        assert((3 * plane) * ov <= overlap@.len()) by (nonlinear_arith)
            requires
                ov == overlap@.len() as int / (3 * plane),
                plane > 0,
        ;
        assert((3 * plane) * ov == (3 * ov) * plane) by (nonlinear_arith);
    }
    if be == 0 {
        proof {
            assert forall|i: int| 0 <= i < before.len() && i < (3 * nf) * plane implies i
                / plane as int % nf as int >= 0 && #[trigger] before[i] == before[i] by {
                assert(nf > 0) by (nonlinear_arith)
                    requires
                        0 <= i < (3 * nf) * plane,
                ;
                vstd::arithmetic::div_mod::lemma_mod_bound(i / plane as int, nf as int);
            }
        }
        return;
    }
    let mut i: usize = 0;
    while i < chunk.len() && i / plane / nf < 3
        invariant
            i <= before.len(),
            chunk@.len() == before.len(),
            before == old(chunk)@,
            plane > 0,
            nf > 0,
            0 < be <= ov,
            ov == frames_in(overlap@.len() as int, plane as int),
            (3 * ov) * plane <= overlap@.len(),
            (3 * nf) * plane <= before.len(),
            be == fade_frames(overlap@.len() as int, plane as int, nf as int, overlap_frames as int),
            forall|x: T, y: T, k: usize, e: usize|
                k < e ==> #[trigger] call_requires(*mix, (x, y, k, e)),
            forall|j: int| i <= j < before.len() ==> #[trigger] chunk@[j] == before[j],
            forall|j: int|
                0 <= j < i ==> {
                    let k = j / plane as int % nf as int;
                    if k < be {
                        call_ensures(
                            *mix,
                            (
                                overlap@[tail(j, plane as int, nf as int, ov as int, be as int)],
                                before[j],
                                k as usize,
                                be,
                            ),
                            #[trigger] chunk@[j],
                        )
                    } else {
                        chunk@[j] == before[j]
                    }
                },
            forall|j: int| 0 <= j < i ==> #[trigger] (j / plane as int / nf as int) < 3,
        decreases before.len() - i,
    {
        assert(overlap@.len() == overlap.len());
        let k: usize = i / plane % nf;
        if k < be {
            proof {
                lemma_tail(i as int, plane as int, nf as int, ov as int, be as int);
            }
            let row: usize = i / plane / nf * ov + (ov - be + k);
            let src: usize = row * plane + i % plane;
            let mixed = mix(overlap[src], chunk[i], k, be);
            chunk[i] = mixed;
        }
        i += 1;
    }
    proof {
        lemma_in_planes(i as int, 3, nf as int, plane as int);
        if i > 0 {
            assert(((i - 1) / plane as int / nf as int) < 3);
            lemma_in_planes(i - 1, 3, nf as int, plane as int);
        }
        assert(3 * (nf * plane) == (3 * nf) * plane) by (nonlinear_arith);
        assert(i == 3 * (nf * plane));
    }
}

} // verus!
