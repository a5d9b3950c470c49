//! The AdaLN tables the blocks modulate with, built once per denoising step.
//!
//! A timestep becomes eight numbers by interpolating the checkpoint's curve, those eight drive each layer's
//! projection, and the projection's chunks are permuted into the row order the kernels index by class. The
//! accumulation runs in a fixed order and the permutation is semantic, so both are stated exactly. What one
//! step of it computes is the caller's.
pub mod device;

use vstd::prelude::*;

use crate::model::{BLOCKS, CLASSES, HID, MODALITIES, MODS_ROWS};

verus! {

/// Whether these are a timestep's numbers, from the two samples of the curve about its place.
pub open spec fn interpolates<T, F: Fn(T, T, usize) -> T>(curve: Seq<T>, whole: usize, te: Seq<T>, mix: F) -> bool {
    let i0: usize = if whole < 1023 {
        whole
    } else {
        1023
    };
    forall|j: int|
        0 <= j < 8 ==> call_ensures(
            mix,
            (curve[i0 * 8 + j], curve[(i0 + 1) * 8 + j], i0),
            #[trigger] te[j],
        )
}

/// A timestep's eight numbers are each interpolated between two samples of their own: the sample at its place on the curve
/// and the next. Past the last pair it is the last pair that is taken.
pub proof fn law_a_timestep_lies_between_two_samples<T, F: Fn(T, T, usize) -> T>(
    curve: Seq<T>,
    whole: usize,
    te: Seq<T>,
    mix: F,
    j: int,
)
    requires
        interpolates(curve, whole, te, mix),
        0 <= j < 8,
    ensures
        whole <= 1023 ==> call_ensures(mix, (curve[8 * whole + j], curve[8 * whole + 8 + j], whole), te[j]),
        whole > 1023 ==> call_ensures(mix, (curve[8184 + j], curve[8192 + j], 1023), te[j]),
{
    assert(te[j] == te[j]);
}

/// A timestep's eight numbers, interpolated from the checkpoint's 1025-point curve.
///
/// `whole` is the whole part of the timestep's place on the curve. It is capped so that the second sample is
/// always in range; `mix` interpolates between the two samples, given the place the first was taken at.
pub fn temb<T: Copy, F: Fn(T, T, usize) -> T>(curve: &[T], whole: usize, mix: F) -> (te: [T; 8])
    requires
        curve@.len() >= 1025 * 8,
        forall|a: T, b: T, i: usize| i <= 1023 ==> #[trigger] call_requires(mix, (a, b, i)),
    ensures
        interpolates(curve@, whole, te@, mix),
{
    let i0: usize = if whole < 1023 {
        whole
    } else {
        1023
    };
    let (a, b): (usize, usize) = (i0 * 8, (i0 + 1) * 8);
    [
        mix(curve[a], curve[b], i0),
        mix(curve[a + 1], curve[b + 1], i0),
        mix(curve[a + 2], curve[b + 2], i0),
        mix(curve[a + 3], curve[b + 3], i0),
        mix(curve[a + 4], curve[b + 4], i0),
        mix(curve[a + 5], curve[b + 5], i0),
        mix(curve[a + 6], curve[b + 6], i0),
        mix(curve[a + 7], curve[b + 7], i0),
    ]
}

/// Whether a step of an accumulation can be taken from anywhere.
pub open spec fn steps_on<T, F: Fn(T, T, T) -> T>(step: F) -> bool {
    forall|acc: T, w: T, x: T| #[trigger] call_requires(step, (acc, w, x))
}

/// Whether a number is what the first `n` steps of an accumulation make of a bias: the weights in their own
/// order, each with its number of the timestep.
pub open spec fn accumulates<T, F: Fn(T, T, T) -> T>(
    step: F,
    bias: T,
    w: Seq<T>,
    te: Seq<T>,
    n: int,
    out: T,
) -> bool
    decreases n,
{
    if n <= 0 {
        out == bias
    } else {
        exists|acc: T| #[trigger]
            call_ensures(step, (acc, w[n - 1], te[n - 1]), out) && accumulates(
                step,
                bias,
                w,
                te,
                n - 1,
                acc,
            )
    }
}

/// Whether a number is the row `r` of a projection of a timestep.
pub open spec fn projects<T, F: Fn(T, T, T) -> T>(
    step: F,
    w: Seq<T>,
    b: Seq<T>,
    te: Seq<T>,
    r: int,
    out: T,
) -> bool {
    accumulates(step, b[r], w.subrange(r * 8, r * 8 + 8), te, 8, out)
}

fn project_row<T: Copy, F: Fn(T, T, T) -> T>(
    w: &[T],
    b: &[T],
    te: &[T; 8],
    r: usize,
    step: &F,
) -> (out: T)
    requires
        r < b@.len(),
        r * 8 + 8 <= w@.len(),
        steps_on(*step),
    ensures
        projects(*step, w@, b@, te@, r as int, out),
{
    let ghost row = w@.subrange(r * 8, r * 8 + 8);
    assert(w@.len() == w.len());
    let mut acc: T = b[r];
    let mut j: usize = 0;
    while j < 8
        invariant
            j <= 8,
            r * 8 + 8 <= w@.len() <= usize::MAX,
            row == w@.subrange(r * 8, r * 8 + 8),
            steps_on(*step),
            accumulates(*step, b@[r as int], row, te@, j as int, acc),
        decreases 8 - j,
    {
        assert(w@[r * 8 + j] == row[j as int]);
        let ghost before = acc;
        acc = step(acc, w[r * 8 + j], te[j]);
        j += 1;
        assert(call_ensures(*step, (before, row[j - 1], te@[j - 1]), acc));
    }
    acc
}

/// One layer's projection of a timestep, each row accumulated onto its bias in the weights' own order.
pub fn project<T: Copy, F: Fn(T, T, T) -> T>(
    w: &[T],
    b: &[T],
    te: &[T; 8],
    out: &mut [T],
    step: &F,
)
    requires
        old(out)@.len() <= b@.len(),
        old(out)@.len() * 8 <= w@.len(),
        steps_on(*step),
    ensures
        final(out)@.len() == old(out)@.len(),
        forall|r: int|
            0 <= r < old(out)@.len() ==> projects(
                *step,
                w@,
                b@,
                te@,
                r,
                #[trigger] final(out)@[r],
            ),
{
    let n: usize = out.len();
    let mut r: usize = 0;
    while r < n
        invariant
            r <= n,
            n == out@.len(),
            n == old(out)@.len(),
            n <= b@.len(),
            n * 8 <= w@.len(),
            steps_on(*step),
            forall|i: int|
                0 <= i < r ==> projects(*step, w@, b@, te@, i, #[trigger] out@[i]),
        decreases n - r,
    {
        let value = project_row(w, b, te, r, step);
        out[r] = value;
        r += 1;
    }
}

/// What a row of a layer's table holds: which class it is of, and which chunk of the projection.
///
/// Rows `[0, 2C)` are (scale, shift) per class for the attention, `[2C, 3C)` its gate, `[3C, 5C)` and
/// `[5C, 6C)` the same for the MLP, where a class is `timestep index * 3 + modality`. The projection
/// produces its chunks in a different order, shift, scale, gate for each of the two, so shift and scale
/// are swapped.
pub open spec fn row_holds(row: int, classes: int) -> (int, int) {
    if row < 2 * classes {
        (row / 2, if row % 2 == 0 {
            1
        } else {
            0
        })
    } else if row < 3 * classes {
        (row - 2 * classes, 2)
    } else if row < 5 * classes {
        ((row - 3 * classes) / 2, if (row - 3 * classes) % 2 == 0 {
            4
        } else {
            3
        })
    } else {
        (row - 5 * classes, 5)
    }
}

/// The layer, the timestep and the projection's row that an element of the tables is.
pub open spec fn mod_source(k: int) -> (int, int, int) {
    let layer = k / HID as int / MODS_ROWS as int;
    let (class, chunk) = row_holds(k / HID as int % MODS_ROWS as int, CLASSES as int);
    (
        layer,
        class / MODALITIES as int,
        (class % MODALITIES as int * 6 + chunk) * HID + k % HID as int,
    )
}

/// Whether this is the table of every layer.
pub open spec fn are_mods<T, F: Fn(T, T, T) -> T>(
    table: Seq<T>,
    w: Seq<Vec<T>>,
    b: Seq<Vec<T>>,
    tv: Seq<T>,
    ta: Seq<T>,
    tcv: Seq<T>,
    tca: Seq<T>,
    step: F,
) -> bool {
    &&& table.len() == BLOCKS * MODS_ROWS * HID
    &&& forall|k: int|
        0 <= k < table.len() ==> {
            let (layer, m, r) = mod_source(k);
            &&& 0 <= layer < BLOCKS && 0 <= m < 4 && 0 <= r < MODALITIES * 6 * HID
            &&& projects(step, w[layer]@, b[layer]@, seq![tv, ta, tcv, tca][m], r, #[trigger] table[k])
        }
}

/// The tables of every layer, in the runtime's layout: the rows of each layer's projection of the four timestep
/// embeddings, those of the video, of the audio and of the two conditioning classes.
pub fn mods_table<T: Copy, F: Fn(T, T, T) -> T>(
    adaln_w: &[Vec<T>],
    adaln_b: &[Vec<T>],
    tv: &[T; 8],
    ta: &[T; 8],
    tcv: &[T; 8],
    tca: &[T; 8],
    step: &F,
) -> (table: Vec<T>)
    requires
        adaln_w@.len() >= BLOCKS,
        adaln_b@.len() >= BLOCKS,
        forall|i: int|
            0 <= i < BLOCKS ==> (#[trigger] adaln_w@[i])@.len() >= MODALITIES * 6 * HID * 8,
        forall|i: int| 0 <= i < BLOCKS ==> (#[trigger] adaln_b@[i])@.len() >= MODALITIES * 6 * HID,
        steps_on(*step),
    ensures
        are_mods(table@, adaln_w@, adaln_b@, tv@, ta@, tcv@, tca@, *step),
{
    let mut table: Vec<T> = Vec::new();
    let n: usize = BLOCKS * MODS_ROWS * HID;
    let mut k: usize = 0;
    while k < n
        invariant
            n == BLOCKS * MODS_ROWS * HID,
            k <= n,
            table@.len() == k,
            adaln_w@.len() >= BLOCKS,
            adaln_b@.len() >= BLOCKS,
            forall|i: int|
                0 <= i < BLOCKS ==> (#[trigger] adaln_w@[i])@.len() >= MODALITIES * 6 * HID * 8,
            forall|i: int|
                0 <= i < BLOCKS ==> (#[trigger] adaln_b@[i])@.len() >= MODALITIES * 6 * HID,
            steps_on(*step),
            forall|k: int|
                0 <= k < table@.len() ==> {
                    let (layer, m, r) = mod_source(k);
                    &&& 0 <= layer < BLOCKS && 0 <= m < 4 && 0 <= r < MODALITIES * 6 * HID
                    &&& projects(
                        *step,
                        adaln_w@[layer]@,
                        adaln_b@[layer]@,
                        seq![tv@, ta@, tcv@, tca@][m],
                        r,
                        #[trigger] table@[k],
                    )
                },
        decreases n - k,
    {
        let row: usize = k / HID % MODS_ROWS;
        let col: usize = k % HID;
        let (class, chunk): (usize, usize) = if row < 2 * CLASSES {
            (
                row / 2,
                if row % 2 == 0 {
                    1
                } else {
                    0
                },
            )
        } else if row < 3 * CLASSES {
            (row - 2 * CLASSES, 2)
        } else if row < 5 * CLASSES {
            (
                (row - 3 * CLASSES) / 2,
                if (row - 3 * CLASSES) % 2 == 0 {
                    4
                } else {
                    3
                },
            )
        } else {
            (row - 5 * CLASSES, 5)
        };
        assert(class < CLASSES && chunk < 6);
        let layer: usize = k / HID / MODS_ROWS;
        let m: usize = class / MODALITIES;
        let r: usize = (class % MODALITIES * 6 + chunk) * HID + col;
        assert(mod_source(k as int) == (layer as int, m as int, r as int));
        let te: &[T; 8] = if m == 0 {
            tv
        } else if m == 1 {
            ta
        } else if m == 2 {
            tcv
        } else {
            tca
        };
        assert(te@ == seq![tv@, ta@, tcv@, tca@][m as int]);
        let value = project_row(
            adaln_w[layer].as_slice(),
            adaln_b[layer].as_slice(),
            te,
            r,
            step,
        );
        table.push(value);
        k += 1;
    }
    table
}

/// The timestep and the projection's row that an element of the final table is: row `2c` holds the scale of
/// a class and `2c + 1` the shift. The projection hands back (shift | scale), so the halves land the other
/// way round.
pub open spec fn final_source(k: int) -> (int, int) {
    let row = k / HID as int;
    (row / 2, k % HID as int + if row % 2 == 1 {
        0
    } else {
        HID as int
    })
}

/// Whether this is the final layer's table.
pub open spec fn is_final<T, F: Fn(T, T, T) -> T>(
    table: Seq<T>,
    w: Seq<T>,
    b: Seq<T>,
    tv: Seq<T>,
    ta: Seq<T>,
    step: F,
) -> bool {
    &&& table.len() == 4 * HID
    &&& forall|k: int|
        0 <= k < table.len() ==> {
            let (m, r) = final_source(k);
            &&& 0 <= m < 2 && 0 <= r < 2 * HID
            &&& projects(step, w, b, seq![tv, ta][m], r, #[trigger] table[k])
        }
}

/// The final layer's (scale, shift) per timestep class, of the video's timestep and of the audio's.
pub fn final_table<T: Copy, F: Fn(T, T, T) -> T>(
    final_w: &[T],
    final_b: &[T],
    tv: &[T; 8],
    ta: &[T; 8],
    step: &F,
) -> (table: Vec<T>)
    requires
        final_w@.len() >= 2 * HID * 8,
        final_b@.len() >= 2 * HID,
        steps_on(*step),
    ensures
        is_final(table@, final_w@, final_b@, tv@, ta@, *step),
{
    let mut table: Vec<T> = Vec::new();
    let mut k: usize = 0;
    while k < 4 * HID
        invariant
            k <= 4 * HID,
            table@.len() == k,
            final_w@.len() >= 2 * HID * 8,
            final_b@.len() >= 2 * HID,
            steps_on(*step),
            forall|k: int|
                0 <= k < table@.len() ==> {
                    let (m, r) = final_source(k);
                    &&& 0 <= m < 2 && 0 <= r < 2 * HID
                    &&& projects(
                        *step,
                        final_w@,
                        final_b@,
                        seq![tv@, ta@][m],
                        r,
                        #[trigger] table@[k],
                    )
                },
        decreases 4 * HID - k,
    {
        let row: usize = k / HID;
        let m: usize = row / 2;
        let r: usize = k % HID + if row % 2 == 1 {
            0
        } else {
            HID
        };
        assert(final_source(k as int) == (m as int, r as int));
        let te: &[T; 8] = if m == 0 {
            tv
        } else {
            ta
        };
        assert(te@ == seq![tv@, ta@][m as int]);
        let value = project_row(final_w, final_b, te, r, step);
        table.push(value);
        k += 1;
    }
    table
}

/// A layer's rows are what its kernels read them as. For the class of a timestep and a modality, three for each timestep:
/// the attention's scale stands at twice the class and its shift behind it, its gate among the gates; and so for the
/// feed-forward. Of the six chunks a projection gives a modality, the shift comes first, then the scale, and last its gate.
pub proof fn law_a_class_has_its_own_rows(layer: int, t: int, modality: int, col: int)
    requires
        0 <= layer < BLOCKS,
        0 <= t < 4,
        0 <= modality < 3,
        0 <= col < HID,
    ensures
        ({
            let class = 3 * t + modality;
            let first = 6 * modality;
            let of = |row: int| mod_source((layer * 72 + row) * HID + col);
            &&& of(2 * class) == (layer, t, (first + 1) * HID + col)
            &&& of(2 * class + 1) == (layer, t, first * HID + col)
            &&& of(24 + class) == (layer, t, (first + 2) * HID + col)
            &&& of(36 + 2 * class) == (layer, t, (first + 4) * HID + col)
            &&& of(36 + 2 * class + 1) == (layer, t, (first + 3) * HID + col)
            &&& of(60 + class) == (layer, t, (first + 5) * HID + col)
        }),
{
    let class = 3 * t + modality;
    lemma_table_row(layer, 2 * class, col);
    lemma_table_row(layer, 2 * class + 1, col);
    lemma_table_row(layer, 24 + class, col);
    lemma_table_row(layer, 36 + 2 * class, col);
    lemma_table_row(layer, 36 + 2 * class + 1, col);
    lemma_table_row(layer, 60 + class, col);
}

proof fn lemma_table_row(layer: int, row: int, col: int)
    requires
        0 <= layer,
        0 <= row < 72,
        0 <= col < 5376,
    ensures
        ({
            let k = (layer * 72 + row) * 5376 + col;
            k / 5376 / 72 == layer && k / 5376 % 72 == row && k % 5376 == col
        }),
{
}

/// The final table has each class's scale and behind it its shift: of what its own timestep was projected to, the second
/// half and the first.
pub proof fn law_a_final_class_has_its_own_rows(c: int, col: int)
    requires
        0 <= c < 2,
        0 <= col < HID,
    ensures
        final_source(2 * c * HID + col) == (c, HID + col),
        final_source((2 * c + 1) * HID + col) == (c, col),
{
}

/// A projection is each row's bias and the eight products of its own weights with the timestep's numbers, in order: the
/// number of row `r` takes the weights from `8 r` on.
pub proof fn law_a_row_is_its_own_sum<T, F: Fn(T, T, T) -> T>(
    step: F,
    w: Seq<T>,
    b: Seq<T>,
    te: Seq<T>,
    r: int,
    sums: Seq<T>,
)
    requires
        0 <= r,
        8 * r + 8 <= w.len(),
        sums.len() == 9,
        sums[0] == b[r],
        forall|j: int|
            0 <= j < 8 ==> call_ensures(step, (#[trigger] sums[j], w[8 * r + j], te[j]), sums[j + 1]),
    ensures
        projects(step, w, b, te, r, sums[8]),
{
    let row = w.subrange(r * 8, r * 8 + 8);
    lemma_sums_accumulate(step, w, b, te, r, sums, 8);
}

proof fn lemma_sums_accumulate<T, F: Fn(T, T, T) -> T>(
    step: F,
    w: Seq<T>,
    b: Seq<T>,
    te: Seq<T>,
    r: int,
    sums: Seq<T>,
    n: int,
)
    requires
        0 <= n <= 8,
        0 <= r,
        8 * r + 8 <= w.len(),
        sums.len() == 9,
        sums[0] == b[r],
        forall|j: int|
            0 <= j < 8 ==> call_ensures(step, (#[trigger] sums[j], w[8 * r + j], te[j]), sums[j + 1]),
    ensures
        accumulates(step, b[r], w.subrange(r * 8, r * 8 + 8), te, n, sums[n]),
    decreases n,
{
    let row = w.subrange(r * 8, r * 8 + 8);
    if n > 0 {
        lemma_sums_accumulate(step, w, b, te, r, sums, n - 1);
        assert(row[n - 1] == w[8 * r + (n - 1)]);
        assert(call_ensures(step, (sums[n - 1], w[8 * r + (n - 1)], te[n - 1]), sums[n - 1 + 1]));
    }
}

/// Every row of every projection has a place in the tables, and only one: the tables are the projections
/// permuted.
pub proof fn law_the_tables_permute_the_projections(layer: int, m: int, r: int, k: int)
    requires
        0 <= layer < BLOCKS,
        0 <= m < 4,
        0 <= r < MODALITIES * 6 * HID,
        0 <= k < BLOCKS * MODS_ROWS * HID,
    ensures
        mod_source(k) == (layer, m, r) <==> k == (layer * MODS_ROWS + device::destination(
            m * MODALITIES + r / HID as int / 6,
            r / HID as int % 6,
            CLASSES as int,
        )) * HID + r % HID as int,
{
    reveal(device::destination);
    let (d, j, col) = (r / 5376 / 6, r / 5376 % 6, r % 5376);
    let class = m * 3 + d;
    let row = device::destination(class, j, 12);
    let (kl, kr, kc) = (k / 5376 / 72, k / 5376 % 72, k % 5376);
    let (c2, j2) = row_holds(kr, 12);
    assert(0 <= d < 3 && 0 <= j < 6 && 0 <= col < 5376 && r == (d * 6 + j) * 5376 + col);
    assert(0 <= kr < 72 && 0 <= kc < 5376 && k == (kl * 72 + kr) * 5376 + kc);
    assert(0 <= c2 < 12 && 0 <= j2 < 6);
    assert(device::destination(c2, j2, 12) == kr);
    assert(0 <= row < 72);
    assert(row_holds(row, 12) == (class, j));
    let r2 = (c2 % 3 * 6 + j2) * 5376 + kc;
    assert(mod_source(k) == (kl, c2 / 3, r2));
}

/// Whether a row of a table is the numbers `chunk` of a projection of a timestep.
pub open spec fn holds_chunk<T, F: Fn(T, T, T) -> T>(
    table: Seq<T>,
    row: int,
    col: int,
    w: Seq<T>,
    b: Seq<T>,
    te: Seq<T>,
    chunk: int,
    step: F,
) -> bool {
    projects(step, w, b, te, chunk * 5376 + col, table[row * 5376 + col])
}

/// A layer's table holds, for a modality, its own projection of the timestep of the class: the video's timestep for the
/// first three classes, the audio's for the next, then those of the conditioning pictures and of the conditioning sounds.
pub proof fn law_a_layers_table_holds_its_own_timesteps<T, F: Fn(T, T, T) -> T>(
    table: Seq<T>,
    w: Seq<Vec<T>>,
    b: Seq<Vec<T>>,
    tv: Seq<T>,
    ta: Seq<T>,
    tcv: Seq<T>,
    tca: Seq<T>,
    step: F,
    layer: int,
    t: int,
    modality: int,
    col: int,
)
    requires
        are_mods(table, w, b, tv, ta, tcv, tca, step),
        0 <= layer < 50,
        0 <= t < 4,
        0 <= modality < 3,
        0 <= col < 5376,
    ensures
        ({
            let te = if t == 0 {
                tv
            } else if t == 1 {
                ta
            } else if t == 2 {
                tcv
            } else {
                tca
            };
            let class = 3 * t + modality;
            let first = 6 * modality;
            let (at, wl, bl) = (layer * 72, w[layer]@, b[layer]@);
            // shift, scale and gate of the attention, and then of the feed-forward
            &&& holds_chunk(table, at + 2 * class + 1, col, wl, bl, te, first, step)
            &&& holds_chunk(table, at + 2 * class, col, wl, bl, te, first + 1, step)
            &&& holds_chunk(table, at + 24 + class, col, wl, bl, te, first + 2, step)
            &&& holds_chunk(table, at + 36 + 2 * class + 1, col, wl, bl, te, first + 3, step)
            &&& holds_chunk(table, at + 36 + 2 * class, col, wl, bl, te, first + 4, step)
            &&& holds_chunk(table, at + 60 + class, col, wl, bl, te, first + 5, step)
        }),
{
    law_a_class_has_its_own_rows(layer, t, modality, col);
    let class = 3 * t + modality;
    let at = layer * 72;
    assert(mod_source((at + 2 * class) * HID + col).1 == t);
    lemma_in_the_table(table, layer, 2 * class, col);
    lemma_in_the_table(table, layer, 2 * class + 1, col);
    lemma_in_the_table(table, layer, 24 + class, col);
    lemma_in_the_table(table, layer, 36 + 2 * class, col);
    lemma_in_the_table(table, layer, 36 + 2 * class + 1, col);
    lemma_in_the_table(table, layer, 60 + class, col);
}

proof fn lemma_in_the_table<T>(table: Seq<T>, layer: int, row: int, col: int)
    requires
        table.len() == 50 * 72 * 5376,
        0 <= layer < 50,
        0 <= row < 72,
        0 <= col < 5376,
    ensures
        0 <= (layer * 72 + row) * 5376 + col < table.len(),
        table[(layer * 72 + row) * 5376 + col] == table[(layer * 72 + row) * 5376 + col],
{
}

/// The final table holds the video's timestep first and the audio's behind it, of each its scale and then its shift.
pub proof fn law_the_final_table_holds_its_own_timesteps<T, F: Fn(T, T, T) -> T>(
    table: Seq<T>,
    w: Seq<T>,
    b: Seq<T>,
    tv: Seq<T>,
    ta: Seq<T>,
    step: F,
    col: int,
)
    requires
        is_final(table, w, b, tv, ta, step),
        0 <= col < 5376,
    ensures
        holds_chunk(table, 0, col, w, b, tv, 1, step),
        holds_chunk(table, 1, col, w, b, tv, 0, step),
        holds_chunk(table, 2, col, w, b, ta, 1, step),
        holds_chunk(table, 3, col, w, b, ta, 0, step),
{
    law_a_final_class_has_its_own_rows(0, col);
    law_a_final_class_has_its_own_rows(1, col);
    assert(table[0 * 5376 + col] == table[col]);
    assert(table[1 * 5376 + col] == table[5376 + col]);
    assert(table[2 * 5376 + col] == table[10752 + col]);
    assert(table[3 * 5376 + col] == table[16128 + col]);
}

} // verus!
