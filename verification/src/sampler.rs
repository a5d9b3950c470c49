//! The two samplers, and the patching between latent tensors and packed rows.
//!
//! What becomes of one number is the caller's, down to its rounding; which numbers meet, and when an advance may
//! extrapolate, is decided here.
pub mod device;

use vstd::prelude::*;

use crate::model::{AUDIO_CH, LATENT_CH, VIDEO_PATCH};
use crate::radix;

verus! {

/// How many steps two runs of numbers have in common.
pub open spec fn common(a: int, b: int) -> int {
    if a < b {
        a
    } else {
        b
    }
}

/// Whether each number was moved by its own velocity, and what has none stayed.
pub open spec fn moved<T, F: Fn(T, T) -> T>(before: Seq<T>, v: Seq<T>, after: Seq<T>, step: F) -> bool {
    &&& after.len() == before.len()
    &&& forall|i: int|
        0 <= i < before.len() ==> if i < v.len() {
            call_ensures(step, (before[i], v[i]), #[trigger] after[i])
        } else {
            after[i] == before[i]
        }
}

/// Moves each number by its own velocity: `step` is one number's update. What has no velocity stays.
pub fn euler_update<T: Copy, F: Fn(T, T) -> T>(x: &mut [T], v: &[T], step: &F)
    requires
        forall|a: T, b: T| #[trigger] call_requires(*step, (a, b)),
    ensures
        moved(old(x)@, v@, final(x)@, *step),
{
    let n: usize = if x.len() < v.len() {
        x.len()
    } else {
        v.len()
    };
    let mut i: usize = 0;
    while i < n
        invariant
            i <= n,
            n == common(old(x)@.len() as int, v@.len() as int),
            x@.len() == old(x)@.len(),
            forall|a: T, b: T| #[trigger] call_requires(*step, (a, b)),
            forall|k: int|
                0 <= k < old(x)@.len() ==> if k < i {
                    call_ensures(*step, (old(x)@[k], v@[k]), #[trigger] x@[k])
                } else {
                    x@[k] == old(x)@[k]
                },
        decreases n - i,
    {
        let value = step(x[i], v[i]);
        x[i] = value;
        i += 1;
    }
}

/// Whether each estimate was made of where its number stands and what the network gave for it.
pub open spec fn estimated<T, F: Fn(T, T) -> T>(x: Seq<T>, out: Seq<T>, d: Seq<T>, estimate: F) -> bool {
    &&& d.len() == common(x.len() as int, out.len() as int)
    &&& forall|i: int| 0 <= i < d.len() ==> call_ensures(estimate, (x[i], out[i]), #[trigger] d[i])
}

/// The video's denoised estimate: `estimate` is one number's, from where it stands and the network's output.
pub fn denoised_video<T: Copy, F: Fn(T, T) -> T>(x: &[T], out: &[T], estimate: F) -> (d: Vec<T>)
    requires
        forall|a: T, b: T| #[trigger] call_requires(estimate, (a, b)),
    ensures
        estimated(x@, out@, d@, estimate),
{
    let mut d: Vec<T> = Vec::new();
    let mut i: usize = 0;
    while i < x.len() && i < out.len()
        invariant
            i <= x@.len(),
            i <= out@.len(),
            d@.len() == i,
            forall|a: T, b: T| #[trigger] call_requires(estimate, (a, b)),
            forall|k: int|
                0 <= k < d@.len() ==> call_ensures(estimate, (x@[k], out@[k]), #[trigger] d@[k]),
        decreases x@.len() - i,
    {
        let value = estimate(x[i], out[i]);
        d.push(value);
        i += 1;
    }
    d
}

/// Whether each estimate was made of its carried number, the one the network saw and what the network gave for it.
pub open spec fn estimated_carried<T, F: Fn(T, T, T) -> T>(
    y: Seq<T>,
    x_a: Seq<T>,
    v: Seq<T>,
    d: Seq<T>,
    estimate: F,
) -> bool {
    &&& d.len() == common(common(y.len() as int, x_a.len() as int), v.len() as int)
    &&& forall|i: int| 0 <= i < d.len() ==> call_ensures(estimate, (y[i], x_a[i], v[i]), #[trigger] d[i])
}

/// The audio's denoised estimate for the carried variable: `estimate` is one number's, from the carried one, the
/// one the network saw and the network's output.
pub fn denoised_audio<T: Copy, F: Fn(T, T, T) -> T>(y: &[T], x_a: &[T], v: &[T], estimate: F) -> (d: Vec<
    T,
>)
    requires
        forall|a: T, b: T, c: T| #[trigger] call_requires(estimate, (a, b, c)),
    ensures
        estimated_carried(y@, x_a@, v@, d@, estimate),
{
    let mut d: Vec<T> = Vec::new();
    let mut i: usize = 0;
    while i < y.len() && i < x_a.len() && i < v.len()
        invariant
            i <= y@.len(),
            i <= x_a@.len(),
            i <= v@.len(),
            d@.len() == i,
            forall|a: T, b: T, c: T| #[trigger] call_requires(estimate, (a, b, c)),
            forall|k: int|
                0 <= k < d@.len() ==> call_ensures(
                    estimate,
                    (y@[k], x_a@[k], v@[k]),
                    #[trigger] d@[k],
                ),
        decreases y@.len() - i,
    {
        let value = estimate(y[i], x_a[i], v[i]);
        d.push(value);
        i += 1;
    }
    d
}

/// Whether an advance has a previous denoised estimate to extrapolate from, and does not land on sigma zero.
pub open spec fn may_extrapolate(previous: Option<nat>, lands_on_zero: bool) -> bool {
    previous is Some && previous->0 > 0 && !lands_on_zero
}

/// Whether an advance is of second order: not the first one, and not one that lands on sigma zero.
pub fn extrapolates<T>(previous: Option<&[T]>, lands_on_zero: bool) -> (yes: bool)
    ensures
        yes == may_extrapolate(
            match previous {
                Some(o) => Some(o@.len()),
                None => None,
            },
            lands_on_zero,
        ),
{
    match previous {
        Some(o) => o.len() > 0 && !lands_on_zero,
        None => false,
    }
}

/// Whether each number was advanced: by the second-order step where there is an estimate before to extrapolate from, by
/// the first-order one where there is not. What has no estimate stayed.
pub open spec fn advanced<T, E: Fn(T, T) -> T, S: Fn(T, T, T) -> T>(
    before: Seq<T>,
    d: Seq<T>,
    previous: Option<Seq<T>>,
    lands_on_zero: bool,
    after: Seq<T>,
    euler: E,
    second: S,
) -> bool {
    &&& after.len() == before.len()
    &&& match previous {
        Some(o) if may_extrapolate(Some(o.len()), lands_on_zero) => forall|i: int|
            0 <= i < before.len() ==> if i < d.len() && i < o.len() {
                call_ensures(second, (before[i], d[i], o[i]), #[trigger] after[i])
            } else {
                after[i] == before[i]
            },
        _ => moved(before, d, after, euler),
    }
}

/// One multistep advance.
///
/// The first step, and any step landing on sigma zero, falls back to `euler` on the denoised estimate, because
/// there is no previous estimate to extrapolate from. Otherwise `second` is the second-order step of one number,
/// from where it stands, its estimate and the one before. What has no estimate stays.
pub fn advance<T: Copy, E: Fn(T, T) -> T, S: Fn(T, T, T) -> T>(
    x: &mut [T],
    d: &[T],
    previous: Option<&[T]>,
    lands_on_zero: bool,
    euler: &E,
    second: S,
)
    requires
        forall|a: T, b: T| #[trigger] call_requires(*euler, (a, b)),
        forall|a: T, b: T, c: T| #[trigger] call_requires(second, (a, b, c)),
    ensures
        advanced(
            old(x)@,
            d@,
            match previous {
                Some(o) => Some(o@),
                None => None,
            },
            lands_on_zero,
            final(x)@,
            *euler,
            second,
        ),
{
    let before: &[T] = match previous {
        Some(o) if extrapolates(previous, lands_on_zero) => o,
        _ => {
            euler_update(x, d, euler);
            return;
        },
    };
    let ghost x0 = x@;
    let n: usize = x.len();
    let mut i: usize = 0;
    while i < n && i < d.len() && i < before.len()
        invariant
            i <= n,
            i <= d@.len(),
            i <= before@.len(),
            n == x0.len(),
            x@.len() == x0.len(),
            forall|a: T, b: T, c: T| #[trigger] call_requires(second, (a, b, c)),
            forall|k: int|
                0 <= k < x0.len() ==> if k < i {
                    call_ensures(second, (x0[k], d@[k], before@[k]), #[trigger] x@[k])
                } else {
                    x@[k] == x0[k]
                },
        decreases n - i,
    {
        let value = second(x[i], d[i], before[i]);
        x[i] = value;
        i += 1;
    }
}

/// The row a latent element lands in: one for each 2x2 patch, frame by frame.
pub open spec fn patch_row(t: int, y: int, x: int, h: int, w: int) -> int {
    (t * (h / 2) + y / 2) * (w / 2) + x / 2
}

/// The column it lands in: channel-major within a patch.
pub open spec fn patch_col(c: int, y: int, x: int) -> int {
    c * 4 + (y % 2) * 2 + x % 2
}

/// Where a latent element `(c, t, y, x)` lands in the packed rows: 2x2 spatial patches, channel-major
/// within a patch.
pub fn patch_index(c: usize, t: usize, y: usize, x: usize, h: usize, w: usize) -> (r: (usize, usize))
    requires
        t * (h / 2) + y / 2 <= usize::MAX,
        patch_row(t as int, y as int, x as int, h as int, w as int) <= usize::MAX,
        patch_col(c as int, y as int, x as int) <= usize::MAX,
    ensures
        r.0 == patch_row(t as int, y as int, x as int, h as int, w as int),
        r.1 == patch_col(c as int, y as int, x as int),
{
    let hh: usize = h / 2;
    let ww: usize = w / 2;
    assert(0 <= t * hh) by (nonlinear_arith)
        requires
            t >= 0,
            hh >= 0,
    ;
    let line: usize = t * hh + y / 2;
    assert(0 <= line * ww) by (nonlinear_arith)
        requires
            line >= 0,
            ww >= 0,
    ;
    let row: usize = line * ww + x / 2;
    let col: usize = c * 4 + (y % 2) * 2 + (x % 2);
    (row, col)
}

/// How many elements a latent of `[24][t][h][w]` has.
pub open spec fn latent_len(t: int, h: int, w: int) -> int {
    LATENT_CH * t * h * w
}

/// Where the element `j` of a latent of `[24][t][h][w]` lands among rows of 96.
pub open spec fn patched_at(j: int, t: int, h: int, w: int) -> int {
    patch_row(j / w / h % t, j / w % h, j % w, h, w) * VIDEO_PATCH + patch_col(
        j / w / h / t,
        j / w % h,
        j % w,
    )
}

/// Whether an element after `j`, among the first `n`, lands where `j` does.
pub open spec fn overwritten(j: int, n: int, t: int, h: int, w: int) -> bool {
    exists|k: int| j < k < n && #[trigger] patched_at(k, t, h, w) == patched_at(j, t, h, w)
}

/// Whether one of the first `n` elements lands at `d`.
pub open spec fn landed(d: int, n: int, t: int, h: int, w: int) -> bool {
    exists|j: int| 0 <= j < n && #[trigger] patched_at(j, t, h, w) == d
}

/// What patching the first `n` elements of a latent into rows leaves there: of the elements that land
/// in one place the last one, and where none lands what was there before.
pub open spec fn patched<T>(
    lat: Seq<T>,
    before: Seq<T>,
    after: Seq<T>,
    n: int,
    t: int,
    h: int,
    w: int,
) -> bool {
    &&& after.len() == before.len()
    &&& forall|j: int|
        0 <= j < n && !#[trigger] overwritten(j, n, t, h, w) ==> after[patched_at(j, t, h, w)]
            == lat[j]
    &&& forall|d: int|
        0 <= d < before.len() && !landed(d, n, t, h, w) ==> #[trigger] after[d] == before[d]
}

/// `[24][T][H][W]` -> `[rows][96]`.
pub fn tensor_to_rows<T: Copy>(lat: &[T], rows: &mut [T], t_len: usize, h: usize, w: usize)
    requires
        latent_len(t_len as int, h as int, w as int) <= lat@.len(),
        forall|j: int|
            0 <= j < latent_len(t_len as int, h as int, w as int) ==> #[trigger] patched_at(
                j,
                t_len as int,
                h as int,
                w as int,
            ) < old(rows)@.len(),
    ensures
        patched(
            lat@,
            old(rows)@,
            final(rows)@,
            latent_len(t_len as int, h as int, w as int),
            t_len as int,
            h as int,
            w as int,
        ),
{
    let ghost (tt, hh, ww) = (t_len as int, h as int, w as int);
    let ghost n = latent_len(tt, hh, ww);
    let ghost before = rows@;
    if t_len == 0 || h == 0 || w == 0 {
        assert(n == 0) by (nonlinear_arith)
            requires
                n == 24 * tt * hh * ww,
                tt == 0 || hh == 0 || ww == 0,
        ;
        return;
    }
    assert forall|i: int| 0 <= i < n implies 0 <= #[trigger] patched_at(i, tt, hh, ww) < before.len() by {
        lemma_patch_fits(i, tt, hh, ww);
    }
    let mut j: usize = 0;
    while j < lat.len() && j / w / h / t_len < LATENT_CH
        invariant
            j <= lat@.len(),
            t_len > 0,
            h > 0,
            w > 0,
            tt == t_len,
            hh == h,
            ww == w,
            n == latent_len(tt, hh, ww),
            n <= lat@.len(),
            rows@.len() == before.len(),
            j <= n,
            forall|i: int| 0 <= i < n ==> 0 <= #[trigger] patched_at(i, tt, hh, ww) < before.len(),
            patched(lat@, before, rows@, j as int, tt, hh, ww),
        decreases lat@.len() - j,
    {
        proof {
            radix::lemma_block4(j as int, LATENT_CH as int, tt, hh, ww);
            radix::lemma_unflat4(j as int, LATENT_CH as int, tt, hh, ww);
        }
        let x: usize = j % w;
        let y: usize = j / w % h;
        let t: usize = j / w / h % t_len;
        let c: usize = j / w / h / t_len;
        proof {
            lemma_patch_fits(j as int, tt, hh, ww);
            assert(rows@.len() == rows.len());
        }
        let (row, col) = patch_index(c, t, y, x, h, w);
        let d: usize = row * VIDEO_PATCH + col;
        let ghost was = rows@;
        rows[d] = lat[j];
        proof {
            lemma_patch_step(lat@, before, was, rows@, j as int, tt, hh, ww);
        }
        j += 1;
    }
    proof {
        radix::lemma_block4(j as int, LATENT_CH as int, tt, hh, ww);
        assert(j == n);
    }
}

/// The steps of computing where an element lands do not pass where it lands, or its own index.
proof fn lemma_patch_fits(j: int, t: int, h: int, w: int)
    requires
        0 <= j < latent_len(t, h, w),
        0 <= t,
        0 <= h,
        0 <= w,
    ensures
        0 <= patch_row(j / w / h % t, j / w % h, j % w, h, w),
        patch_row(j / w / h % t, j / w % h, j % w, h, w) <= patched_at(j, t, h, w),
        0 <= patch_col(j / w / h / t, j / w % h, j % w) < VIDEO_PATCH,
        0 <= (j / w / h % t) * (h / 2) + j / w % h / 2 <= j,
{
    radix::lemma_unflat4(j, LATENT_CH as int, t, h, w);
    let (c, tt, y, x) = (j / w / h / t, j / w / h % t, j / w % h, j % w);
    let line = tt * (h / 2) + y / 2;
    assert(0 <= tt * (h / 2) <= tt * h) by (nonlinear_arith)
        requires
            0 <= tt,
            0 < h,
    ;
    assert(0 <= line * (w / 2)) by (nonlinear_arith)
        requires
            0 <= line,
            0 < w,
    ;
    assert(tt * h + y <= (c * t + tt) * h + y) by (nonlinear_arith)
        requires
            0 <= c,
            0 < t,
            0 < h,
    ;
    let flat = (c * t + tt) * h + y;
    assert(flat <= flat * w + x) by (nonlinear_arith)
        requires
            0 <= flat,
            0 < w,
            0 <= x,
    ;
}

proof fn lemma_patch_step<T>(
    lat: Seq<T>,
    before: Seq<T>,
    was: Seq<T>,
    now: Seq<T>,
    j: int,
    t: int,
    h: int,
    w: int,
)
    requires
        patched(lat, before, was, j, t, h, w),
        0 <= j < lat.len(),
        forall|i: int| 0 <= i <= j ==> 0 <= #[trigger] patched_at(i, t, h, w) < before.len(),
        now == was.update(patched_at(j, t, h, w), lat[j]),
    ensures
        patched(lat, before, now, j + 1, t, h, w),
{
    let at = patched_at(j, t, h, w);
    assert forall|i: int| 0 <= i < j + 1 && !#[trigger] overwritten(i, j + 1, t, h, w) implies now[
        patched_at(i, t, h, w)] == lat[i] by {
        if i < j {
            assert(patched_at(i, t, h, w) != at);
            assert(!overwritten(i, j, t, h, w)) by {
                if overwritten(i, j, t, h, w) {
                    let k = choose|k: int|
                        i < k < j && #[trigger] patched_at(k, t, h, w) == patched_at(i, t, h, w);
                    assert(i < k < j + 1);
                }
            }
        }
    }
    assert forall|d: int| 0 <= d < before.len() && !landed(d, j + 1, t, h, w) implies #[trigger] now[d]
        == before[d] by {
        assert(d != at);
        assert(!landed(d, j, t, h, w)) by {
            if landed(d, j, t, h, w) {
                let k = choose|k: int| 0 <= k < j && #[trigger] patched_at(k, t, h, w) == d;
                assert(0 <= k < j + 1);
            }
        }
    }
}

/// Whether a latent was read back from the rows of its patches.
pub open spec fn unpatched<T>(rows: Seq<T>, before: Seq<T>, after: Seq<T>, t: int, h: int, w: int) -> bool {
    &&& after.len() == before.len()
    &&& forall|j: int|
        0 <= j < before.len() ==> #[trigger] after[j] == if j < latent_len(t, h, w) {
            rows[patched_at(j, t, h, w)]
        } else {
            before[j]
        }
}

/// `[rows][96]` -> `[24][T][H][W]`.
pub fn rows_to_tensor<T: Copy>(rows: &[T], lat: &mut [T], t_len: usize, h: usize, w: usize)
    requires
        latent_len(t_len as int, h as int, w as int) <= old(lat)@.len(),
        forall|j: int|
            0 <= j < latent_len(t_len as int, h as int, w as int) ==> #[trigger] patched_at(
                j,
                t_len as int,
                h as int,
                w as int,
            ) < rows@.len(),
    ensures
        unpatched(rows@, old(lat)@, final(lat)@, t_len as int, h as int, w as int),
{
    let ghost (tt, hh, ww) = (t_len as int, h as int, w as int);
    let ghost n = latent_len(tt, hh, ww);
    let ghost before = lat@;
    if t_len == 0 || h == 0 || w == 0 {
        assert(n == 0) by (nonlinear_arith)
            requires
                n == 24 * tt * hh * ww,
                tt == 0 || hh == 0 || ww == 0,
        ;
        return;
    }
    let mut j: usize = 0;
    while j < lat.len() && j / w / h / t_len < LATENT_CH
        invariant
            t_len > 0,
            h > 0,
            w > 0,
            tt == t_len,
            hh == h,
            ww == w,
            n == latent_len(tt, hh, ww),
            n <= before.len(),
            lat@.len() == before.len(),
            before == old(lat)@,
            j <= n,
            forall|i: int| 0 <= i < n ==> #[trigger] patched_at(i, tt, hh, ww) < rows@.len(),
            forall|i: int|
                0 <= i < before.len() ==> #[trigger] lat@[i] == if i < j {
                    rows@[patched_at(i, tt, hh, ww)]
                } else {
                    before[i]
                },
        decreases before.len() - j,
    {
        proof {
            radix::lemma_block4(j as int, LATENT_CH as int, tt, hh, ww);
            radix::lemma_unflat4(j as int, LATENT_CH as int, tt, hh, ww);
        }
        let x: usize = j % w;
        let y: usize = j / w % h;
        let t: usize = j / w / h % t_len;
        let c: usize = j / w / h / t_len;
        proof {
            lemma_patch_fits(j as int, tt, hh, ww);
            assert(rows@.len() == rows.len());
        }
        let (row, col) = patch_index(c, t, y, x, h, w);
        let d: usize = row * VIDEO_PATCH + col;
        lat[j] = rows[d];
        j += 1;
    }
    proof {
        radix::lemma_block4(j as int, LATENT_CH as int, tt, hh, ww);
        assert(j == n);
    }
}

/// How many rows of patches a latent has.
pub open spec fn patch_rows(t: int, h: int, w: int) -> int {
    t * (h / 2) * (w / 2)
}

/// The element of a latent that a place among the rows is filled from.
pub open spec fn patched_from(d: int, t: int, h: int, w: int) -> int {
    let row = d / VIDEO_PATCH as int;
    let col = d % VIDEO_PATCH as int;
    radix::flat4(
        col / 4,
        row / (w / 2) / (h / 2),
        row / (w / 2) % (h / 2) * 2 + col % 4 / 2,
        row % (w / 2) * 2 + col % 2,
        t,
        h,
        w,
    )
}

/// On a grid of whole patches every element lands inside the rows, and the place it lands in is filled
/// from it: no two elements land in one place.
pub proof fn law_whole_patches_never_collide(j: int, t: int, h: int, w: int)
    requires
        0 <= t,
        0 <= h,
        0 <= w,
        h % 2 == 0,
        w % 2 == 0,
        0 <= j < latent_len(t, h, w),
    ensures
        0 <= patched_at(j, t, h, w) < patch_rows(t, h, w) * VIDEO_PATCH,
        patched_from(patched_at(j, t, h, w), t, h, w) == j,
{
    radix::lemma_unflat4(j, LATENT_CH as int, t, h, w);
    let (c, tt, y, x) = (j / w / h / t, j / w / h % t, j / w % h, j % w);
    let (hh, ww) = (h / 2, w / 2);
    radix::lemma_flat2(tt, y / 2, t, hh);
    radix::lemma_flat2(tt * hh + y / 2, x / 2, t * hh, ww);
    let row = patch_row(tt, y, x, h, w);
    let col = patch_col(c, y, x);
    radix::lemma_flat2(row, col, t * hh * ww, VIDEO_PATCH as int);
    assert(col / 4 == c && col % 4 / 2 == y % 2 && col % 2 == x % 2);
    assert(row / ww / hh == tt && row / ww % hh == y / 2 && row % ww == x / 2);
}

/// On a grid of whole patches every place among the rows is filled, from an element that lands there.
pub proof fn law_whole_patches_fill_the_rows(d: int, t: int, h: int, w: int)
    requires
        0 <= t,
        0 <= h,
        0 <= w,
        h % 2 == 0,
        w % 2 == 0,
        0 <= d < patch_rows(t, h, w) * VIDEO_PATCH,
    ensures
        0 <= patched_from(d, t, h, w) < latent_len(t, h, w),
        patched_at(patched_from(d, t, h, w), t, h, w) == d,
{
    let (hh, ww) = (h / 2, w / 2);
    assert(0 <= t * hh) by (nonlinear_arith)
        requires
            0 <= t,
            0 <= hh,
    ;
    assert(0 <= t * hh * ww) by (nonlinear_arith)
        requires
            0 <= t * hh,
            0 <= ww,
    ;
    radix::lemma_unflat2(d, t * hh * ww, VIDEO_PATCH as int);
    let row = d / VIDEO_PATCH as int;
    let col = d % VIDEO_PATCH as int;
    radix::lemma_unflat2(row, t * hh, ww);
    radix::lemma_unflat2(row / ww, t, hh);
    let (c, tt) = (col / 4, row / ww / hh);
    let (y, x) = (row / ww % hh * 2 + col % 4 / 2, row % ww * 2 + col % 2);
    radix::lemma_flat4(c, tt, y, x, LATENT_CH as int, t, h, w);
    assert(y / 2 == row / ww % hh && x / 2 == row % ww);
    assert(patch_row(tt, y, x, h, w) == row);
    assert(patch_col(c, y, x) == col);
}

/// A patch is four neighbours of every channel: the element of channel `c` and frame `f` at line `2 v + dy` and column
/// `2 u + dx` lands in the row of the patch `(f, v, u)`, four columns for each channel, line by line.
pub proof fn law_a_patch_is_four_neighbours(c: int, f: int, v: int, u: int, dy: int, dx: int, t: int, hh: int, ww: int)
    requires
        0 <= c < 24,
        0 <= f < t,
        0 <= v < hh,
        0 <= u < ww,
        0 <= dy < 2,
        0 <= dx < 2,
    ensures
        ({
            let (h, w) = (2 * hh, 2 * ww);
            let j = ((c * t + f) * h + (2 * v + dy)) * w + (2 * u + dx);
            let row = (f * hh + v) * ww + u;
            &&& 0 <= j < 24 * t * h * w
            &&& patched_at(j, t, h, w) == 96 * row + 4 * c + 2 * dy + dx
            &&& patch_row(f, 2 * v + dy, 2 * u + dx, h, w) == row
            &&& patch_col(c, 2 * v + dy, 2 * u + dx) == 4 * c + 2 * dy + dx
        }),
{
    let (h, w) = (2 * hh, 2 * ww);
    radix::lemma_flat4(c, f, 2 * v + dy, 2 * u + dx, 24, t, h, w);
    assert((2 * v + dy) / 2 == v && (2 * v + dy) % 2 == dy && (2 * u + dx) / 2 == u && (2 * u + dx) % 2 == dx);
    assert(h / 2 == hh && w / 2 == ww);
}

/// A step of a sound is one row: the number of channel `k` at step `t` of side `c` lands in the row of that step of that
/// side, at its own channel; and it is read back from there.
pub proof fn law_a_sounds_step_is_one_row(c: int, k: int, t: int, a: int)
    requires
        0 <= c < 2,
        0 <= k < 32,
        0 <= t < a,
    ensures
        audio_at((c * 32 + k) * a + t, a) == (c * a + t) * 32 + k,
        audio_from((c * a + t) * 32 + k, a) == (c * 32 + k) * a + t,
{
    radix::lemma_flat2(c, k, 2, 32);
    radix::lemma_flat2(c * 32 + k, t, 64, a);
    radix::lemma_flat2(c, t, 2, a);
    radix::lemma_flat2(c * a + t, k, 2 * a, 32);
}

/// Patching a latent into rows and reading it back gives the latent.
pub proof fn law_patching_round_trips<T>(
    lat: Seq<T>,
    before: Seq<T>,
    rows: Seq<T>,
    t: int,
    h: int,
    w: int,
    j: int,
)
    requires
        0 <= t,
        0 <= h,
        0 <= w,
        h % 2 == 0,
        w % 2 == 0,
        patched(lat, before, rows, latent_len(t, h, w), t, h, w),
        0 <= j < latent_len(t, h, w),
    ensures
        rows[patched_at(j, t, h, w)] == lat[j],
{
    law_whole_patches_never_collide(j, t, h, w);
    let n = latent_len(t, h, w);
    if overwritten(j, n, t, h, w) {
        let k = choose|k: int|
            j < k < n && #[trigger] patched_at(k, t, h, w) == patched_at(j, t, h, w);
        law_whole_patches_never_collide(k, t, h, w);
    }
}

/// Where the element `d` of `[2][A][32]` rows is in a `[2][32][A]` tensor.
pub open spec fn audio_from(d: int, a: int) -> int {
    (d / AUDIO_CH as int / a * AUDIO_CH + d % AUDIO_CH as int) * a + d / AUDIO_CH as int % a
}

/// Where the element `j` of a `[2][32][A]` tensor is in `[2][A][32]` rows.
pub open spec fn audio_at(j: int, a: int) -> int {
    (j / a / AUDIO_CH as int * a + j % a) * AUDIO_CH + j / a % AUDIO_CH as int
}

/// The two transpositions of a sound undo each other, and neither leaves the array.
pub proof fn law_audio_patching_round_trips(i: int, a: int)
    requires
        0 <= a,
        0 <= i < 2 * a * AUDIO_CH,
    ensures
        0 <= audio_at(i, a) < 2 * a * AUDIO_CH,
        0 <= audio_from(i, a) < 2 * a * AUDIO_CH,
        audio_from(audio_at(i, a), a) == i,
        audio_at(audio_from(i, a), a) == i,
{
    let ch = AUDIO_CH as int;
    assert(2 * a * ch == 2 * ch * a) by (nonlinear_arith);
    radix::lemma_unflat2(i, 2 * a, ch);
    radix::lemma_unflat2(i / ch, 2, a);
    radix::lemma_unflat2(i, 2 * ch, a);
    radix::lemma_unflat2(i / a, 2, ch);
    {
        let (c, k, t) = (i / a / ch, i / a % ch, i % a);
        radix::lemma_flat2(c, t, 2, a);
        radix::lemma_flat2(c * a + t, k, 2 * a, ch);
    }
    {
        let (c, t, k) = (i / ch / a, i / ch % a, i % ch);
        radix::lemma_flat2(c, k, 2, ch);
        radix::lemma_flat2(c * ch + k, t, 2 * ch, a);
    }
}

/// Whether a sound was written to its rows.
pub open spec fn sound_in_rows<T>(lat: Seq<T>, before: Seq<T>, after: Seq<T>, a: int) -> bool {
    &&& after.len() == before.len()
    &&& forall|d: int|
        0 <= d < before.len() ==> #[trigger] after[d] == if d < 2 * a * AUDIO_CH {
            lat[audio_from(d, a)]
        } else {
            before[d]
        }
}

/// `[2][32][A]` -> `[rows][32]`.
pub fn audio_tensor_to_rows<T: Copy>(lat: &[T], rows: &mut [T], a: usize)
    requires
        2 * a * AUDIO_CH <= lat@.len(),
        2 * a * AUDIO_CH <= old(rows)@.len(),
    ensures
        sound_in_rows(lat@, old(rows)@, final(rows)@, a as int),
{
    let ghost before = rows@;
    assert(lat@.len() == lat.len());
    let n: usize = 2 * a * AUDIO_CH;
    let mut d: usize = 0;
    while d < n
        invariant
            n == 2 * a * AUDIO_CH,
            n <= lat@.len(),
            n <= before.len(),
            d <= n,
            before == old(rows)@,
            rows@.len() == before.len(),
            forall|i: int|
                0 <= i < before.len() ==> #[trigger] rows@[i] == if i < d {
                    lat@[audio_from(i, a as int)]
                } else {
                    before[i]
                },
        decreases n - d,
    {
        proof {
            law_audio_patching_round_trips(d as int, a as int);
        }
        let t: usize = d / AUDIO_CH % a;
        let c: usize = d / AUDIO_CH / a;
        let k: usize = d % AUDIO_CH;
        proof {
            let line = c * AUDIO_CH + k;
            assert(line * a <= line * a + t);
        }
        rows[d] = lat[(c * AUDIO_CH + k) * a + t];
        d += 1;
    }
}

/// Whether a sound was read back from its rows, each number unscaled.
pub open spec fn sound_from_rows<T, F: Fn(T) -> T>(
    rows: Seq<T>,
    before: Seq<T>,
    after: Seq<T>,
    a: int,
    unscale: F,
) -> bool {
    &&& after.len() == before.len()
    &&& forall|j: int|
        0 <= j < before.len() ==> if j < 2 * a * AUDIO_CH {
            call_ensures(unscale, (rows[audio_at(j, a)],), #[trigger] after[j])
        } else {
            after[j] == before[j]
        }
}

/// `[rows][32]` -> `[2][32][A]`, each element through `unscale`, which divides out the carry where the
/// pack advanced one.
pub fn audio_rows_to_tensor<T: Copy, F: Fn(T) -> T>(rows: &[T], lat: &mut [T], a: usize, unscale: F)
    requires
        2 * a * AUDIO_CH <= rows@.len(),
        2 * a * AUDIO_CH <= old(lat)@.len(),
        forall|v: T| #[trigger] call_requires(unscale, (v,)),
    ensures
        sound_from_rows(rows@, old(lat)@, final(lat)@, a as int, unscale),
{
    let ghost before = lat@;
    assert(rows@.len() == rows.len());
    let n: usize = 2 * a * AUDIO_CH;
    let mut j: usize = 0;
    while j < n
        invariant
            n == 2 * a * AUDIO_CH,
            n <= rows@.len(),
            n <= before.len(),
            j <= n,
            before == old(lat)@,
            lat@.len() == before.len(),
            forall|v: T| #[trigger] call_requires(unscale, (v,)),
            forall|i: int|
                0 <= i < before.len() ==> if i < j {
                    call_ensures(unscale, (rows@[audio_at(i, a as int)],), #[trigger] lat@[i])
                } else {
                    lat@[i] == before[i]
                },
        decreases n - j,
    {
        proof {
            law_audio_patching_round_trips(j as int, a as int);
        }
        let t: usize = j % a;
        let c: usize = j / a / AUDIO_CH;
        let k: usize = j / a % AUDIO_CH;
        let v = unscale(rows[(c * a + t) * AUDIO_CH + k]);
        lat[j] = v;
        j += 1;
    }
}

/// A number is advanced by itself: from where it stands and its own estimates alone, by the second-order step exactly
/// where there is an estimate before and the step does not land on zero. One without an estimate stays where it is.
pub proof fn law_a_number_advances_by_its_own_estimates<T, E: Fn(T, T) -> T, S: Fn(T, T, T) -> T>(
    before: Seq<T>,
    d: Seq<T>,
    previous: Option<Seq<T>>,
    lands_on_zero: bool,
    after: Seq<T>,
    euler: E,
    second: S,
    i: int,
)
    requires
        advanced(before, d, previous, lands_on_zero, after, euler, second),
        0 <= i < before.len(),
    ensures
        after.len() == before.len(),
        i >= d.len() ==> after[i] == before[i],
        i < d.len() && (lands_on_zero || previous is None) ==> call_ensures(euler, (before[i], d[i]), after[i]),
        i < d.len() && !lands_on_zero && previous is Some && previous->0.len() == 0 ==> call_ensures(
            euler,
            (before[i], d[i]),
            after[i],
        ),
        i < d.len() && !lands_on_zero && previous is Some && i < previous->0.len() ==> call_ensures(
            second,
            (before[i], d[i], previous->0[i]),
            after[i],
        ),
        !lands_on_zero && previous is Some && 0 < previous->0.len() <= i ==> after[i] == before[i],
{
    assert(after[i] == after[i]);
}

/// An estimate is made of its own numbers alone, and there are as many as numbers of every kind.
pub proof fn law_an_estimate_is_made_of_its_own_numbers<T, F: Fn(T, T) -> T, G: Fn(T, T, T) -> T>(
    x: Seq<T>,
    out: Seq<T>,
    d: Seq<T>,
    estimate: F,
    y: Seq<T>,
    x_a: Seq<T>,
    v: Seq<T>,
    e: Seq<T>,
    carried: G,
    i: int,
)
    requires
        estimated(x, out, d, estimate),
        estimated_carried(y, x_a, v, e, carried),
        0 <= i,
    ensures
        i < d.len() <==> i < x.len() && i < out.len(),
        i < d.len() ==> call_ensures(estimate, (x[i], out[i]), d[i]),
        i < e.len() <==> i < y.len() && i < x_a.len() && i < v.len(),
        i < e.len() ==> call_ensures(carried, (y[i], x_a[i], v[i]), e[i]),
{
}

/// A latent is read back from its patches: channel `c` of frame `f` at line `2 v + dy` and column `2 u + dx` from the row
/// of its patch, four columns for each channel, line by line; and what lies past the latent is left.
pub proof fn law_a_latent_is_read_back_from_its_patches<T>(
    rows: Seq<T>,
    before: Seq<T>,
    after: Seq<T>,
    t: int,
    hh: int,
    ww: int,
    c: int,
    f: int,
    v: int,
    u: int,
    dy: int,
    dx: int,
    past: int,
)
    requires
        unpatched(rows, before, after, t, 2 * hh, 2 * ww),
        24 * t * (2 * hh) * (2 * ww) <= before.len(),
        24 * t * (2 * hh) * (2 * ww) <= past < before.len(),
        0 <= c < 24,
        0 <= f < t,
        0 <= v < hh,
        0 <= u < ww,
        0 <= dy < 2,
        0 <= dx < 2,
    ensures
        after[((c * t + f) * (2 * hh) + (2 * v + dy)) * (2 * ww) + (2 * u + dx)] == rows[96 * ((f * hh + v) * ww + u) + 4
            * c + 2 * dy + dx],
        after[past] == before[past],
{
    law_a_patch_is_four_neighbours(c, f, v, u, dy, dx, t, hh, ww);
    let j = ((c * t + f) * (2 * hh) + (2 * v + dy)) * (2 * ww) + (2 * u + dx);
    assert(after[j] == rows[patched_at(j, t, 2 * hh, 2 * ww)]);
    assert(past >= 0) by {
        assert(0 <= j < 24 * t * (2 * hh) * (2 * ww));
    }
}

/// A sound's rows are its steps, one side behind the other, each with its 32 channels; read back, each number comes from
/// where it was written, through the scale. What lies past the sound is left both ways.
pub proof fn law_a_sounds_rows_are_its_steps<T, F: Fn(T) -> T>(
    lat: Seq<T>,
    rows: Seq<T>,
    written: Seq<T>,
    blank: Seq<T>,
    read: Seq<T>,
    unscale: F,
    a: int,
    c: int,
    k: int,
    t: int,
    past: int,
)
    requires
        sound_in_rows(lat, rows, written, a),
        sound_from_rows(written, blank, read, a, unscale),
        2 * a * 32 <= rows.len(),
        2 * a * 32 <= blank.len(),
        0 <= c < 2,
        0 <= k < 32,
        0 <= t < a,
        2 * a * 32 <= past,
    ensures
        written[(c * a + t) * 32 + k] == lat[(c * 32 + k) * a + t],
        call_ensures(unscale, (lat[(c * 32 + k) * a + t],), read[(c * 32 + k) * a + t]),
        past < rows.len() ==> written[past] == rows[past],
        past < blank.len() ==> read[past] == blank[past],
{
    law_a_sounds_step_is_one_row(c, k, t, a);
    let (d, j) = ((c * a + t) * 32 + k, (c * 32 + k) * a + t);
    radix::lemma_flat2(c, t, 2, a);
    radix::lemma_flat2(c * a + t, k, 2 * a, 32);
    radix::lemma_flat2(c, k, 2, 32);
    radix::lemma_flat2(c * 32 + k, t, 64, a);
    assert(64 * a == 2 * a * 32);
    assert(written[d] == lat[audio_from(d, a)]);
    assert(call_ensures(unscale, (written[audio_at(j, a)],), read[j]));
}

} // verus!
