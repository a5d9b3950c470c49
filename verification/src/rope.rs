//! The four rotary tables, each with its own layout.
//!
//! They are not variations on one function and are deliberately not unified: three interleaved axes of
//! sixteen for the DiT, Qwen3-VL's interleaved [24, 20, 20] sections for the text encoder, two halves of
//! eighteen for the vision tower, three axes of eight over normalised coordinates for the VAE. What an
//! entry's cosine and sine are is `rotate`'s to say, which the caller brings; which coordinate and which
//! frequency it is given, and where its answer goes, is said here.
use vstd::prelude::*;

use crate::model::{ROPE_HALF, TE_ROPE_HALF, VAE_ROPE_HALF};
use crate::radix;

verus! {

/// Which of (t, h, w) a pair reads: the first sixty cycle through them, the rest are temporal.
pub open spec fn axis_of(pair: int) -> int {
    if pair < 60 {
        pair % 3
    } else {
        0
    }
}

/// Which of (t, h, w) pair `j` reads, for Qwen3-VL's interleaved mrope sections.
pub fn mrope_axis(pair: usize) -> (axis: usize)
    ensures
        axis == axis_of(pair as int),
{
    if pair < 60 {
        pair % 3
    } else {
        0
    }
}

/// How many of the first `n` pairs read `axis`.
pub open spec fn pairs_reading(axis: int, n: int) -> int
    decreases n,
{
    if n <= 0 {
        0
    } else {
        pairs_reading(axis, n - 1) + if axis_of(n - 1) == axis {
            1int
        } else {
            0
        }
    }
}

proof fn lemma_sections_cycle(n: int)
    requires
        0 <= n <= 20,
    ensures
        pairs_reading(0, 3 * n) == n,
        pairs_reading(1, 3 * n) == n,
        pairs_reading(2, 3 * n) == n,
    decreases n,
{
    if n > 0 {
        lemma_sections_cycle(n - 1);
        assert(pairs_reading(0, 3 * n - 2) == n);
        assert(pairs_reading(0, 3 * n - 1) == n);
        assert(pairs_reading(1, 3 * n - 2) == n - 1);
        assert(pairs_reading(1, 3 * n - 1) == n);
        assert(pairs_reading(2, 3 * n - 2) == n - 1);
        assert(pairs_reading(2, 3 * n - 1) == n - 1);
    }
}

/// The sections are [24, 20, 20]: of the table's pairs that many read each of t, h and w.
pub proof fn law_mrope_sections()
    ensures
        pairs_reading(0, TE_ROPE_HALF as int) == 24,
        pairs_reading(1, TE_ROPE_HALF as int) == 20,
        pairs_reading(2, TE_ROPE_HALF as int) == 20,
{
    lemma_sections_cycle(20);
    assert(pairs_reading(0, 61) == 21 && pairs_reading(1, 61) == 20 && pairs_reading(2, 61) == 20);
    assert(pairs_reading(0, 62) == 22 && pairs_reading(1, 62) == 20 && pairs_reading(2, 62) == 20);
    assert(pairs_reading(0, 63) == 23 && pairs_reading(1, 63) == 20 && pairs_reading(2, 63) == 20);
}

/// One image's rows in the text encoder's presentation.
#[derive(Clone, Copy, Debug)]
pub struct VisionSpan {
    pub start: usize,
    pub count: usize,
    pub merged_h: usize,
    pub merged_w: usize,
}

/// A span put among spans in order of their starts, behind those that start where it does.
pub open spec fn placed(ordered: Seq<VisionSpan>, span: VisionSpan) -> Seq<VisionSpan>
    decreases ordered.len(),
{
    if ordered.len() == 0 || ordered.last().start <= span.start {
        ordered.push(span)
    } else {
        placed(ordered.drop_last(), span).push(ordered.last())
    }
}

/// The spans in order of their starts; those that start together keep their order.
pub open spec fn by_start(spans: Seq<VisionSpan>) -> Seq<VisionSpan>
    decreases spans.len(),
{
    if spans.len() == 0 {
        Seq::empty()
    } else {
        placed(by_start(spans.drop_last()), spans.last())
    }
}

/// How much a grid of `merged_h` by `merged_w` advances the positions after it, over its rows' count.
pub open spec fn widening(span: VisionSpan) -> int {
    (if span.merged_h > span.merged_w {
        span.merged_h as int
    } else {
        span.merged_w as int
    }) - span.count
}

/// What the spans together add to the positions of the rows after them.
pub open spec fn offset_after(ordered: Seq<VisionSpan>) -> int
    decreases ordered.len(),
{
    if ordered.len() == 0 {
        0
    } else {
        offset_after(ordered.drop_last()) + widening(ordered.last())
    }
}

/// The first row after the spans.
pub open spec fn row_after(ordered: Seq<VisionSpan>) -> int {
    if ordered.len() == 0 {
        0
    } else {
        ordered.last().start + ordered.last().count
    }
}

/// What the position `(row, axis)` of a span is, `offset` behind it: every row of the span has the
/// span's own time, and the cell of its grid for the other two.
pub open spec fn span_position(span: VisionSpan, offset: int, row: int, axis: int) -> int {
    let k = row - span.start;
    span.start + offset + if axis == 1 {
        k / span.merged_w as int
    } else if axis == 2 {
        k % span.merged_w as int
    } else {
        0
    }
}

/// What the position `(row, axis)` is once the spans are laid, where a later span covers an earlier:
/// text rows between spans run on with the offset of the spans before them.
pub open spec fn laid(ordered: Seq<VisionSpan>, row: int, axis: int) -> int
    decreases ordered.len(),
{
    if ordered.len() == 0 {
        0
    } else {
        let span = ordered.last();
        let rest = ordered.drop_last();
        if span.start <= row < span.start + span.count {
            span_position(span, offset_after(rest), row, axis)
        } else if row_after(rest) <= row < span.start {
            row + offset_after(rest)
        } else {
            laid(rest, row, axis)
        }
    }
}

/// The position `(row, axis)` of a presentation: the rows after the last span run on behind it.
pub open spec fn mrope_position(ordered: Seq<VisionSpan>, row: int, axis: int) -> int {
    if row >= row_after(ordered) {
        row + offset_after(ordered)
    } else {
        laid(ordered, row, axis)
    }
}

/// How far the spans can move a position from its row, either way.
pub open spec fn reach(spans: Seq<VisionSpan>) -> int
    decreases spans.len(),
{
    if spans.len() == 0 {
        0
    } else {
        reach(spans.drop_last()) + spans.last().merged_h + spans.last().merged_w
            + spans.last().count
    }
}

/// The largest size up to which every whole number is a double.
pub const EXACT: i64 = 0x20_0000_0000_0000;

proof fn lemma_placed(ordered: Seq<VisionSpan>, span: VisionSpan)
    ensures
        placed(ordered, span).len() == ordered.len() + 1,
        reach(placed(ordered, span)) == reach(ordered) + span.merged_h + span.merged_w + span.count,
        forall|i: int|
            0 <= i < placed(ordered, span).len() ==> #[trigger] placed(ordered, span)[i] == span
                || ordered.contains(placed(ordered, span)[i]),
    decreases ordered.len(),
{
    let out = placed(ordered, span);
    if ordered.len() == 0 || ordered.last().start <= span.start {
        assert(out.drop_last() =~= ordered);
        assert forall|i: int| 0 <= i < out.len() implies #[trigger] out[i] == span
            || ordered.contains(out[i]) by {
            if i < ordered.len() {
                assert(out[i] == ordered[i]);
            }
        }
    } else {
        let rest = ordered.drop_last();
        lemma_placed(rest, span);
        assert(out.drop_last() =~= placed(rest, span));
        assert forall|i: int| 0 <= i < out.len() implies #[trigger] out[i] == span
            || ordered.contains(out[i]) by {
            if i < rest.len() + 1 {
                assert(out[i] == placed(rest, span)[i]);
                if out[i] != span {
                    let k = choose|k: int| 0 <= k < rest.len() && rest[k] == out[i];
                    assert(ordered[k] == out[i]);
                }
            } else {
                assert(out[i] == ordered[ordered.len() - 1]);
            }
        }
    }
}

proof fn lemma_by_start(spans: Seq<VisionSpan>)
    ensures
        by_start(spans).len() == spans.len(),
        reach(by_start(spans)) == reach(spans),
        forall|i: int|
            0 <= i < by_start(spans).len() ==> spans.contains(#[trigger] by_start(spans)[i]),
    decreases spans.len(),
{
    if spans.len() > 0 {
        let rest = spans.drop_last();
        lemma_by_start(rest);
        lemma_placed(by_start(rest), spans.last());
        let out = by_start(spans);
        assert forall|i: int| 0 <= i < out.len() implies spans.contains(#[trigger] out[i]) by {
            if out[i] == spans.last() {
                assert(spans[spans.len() - 1] == out[i]);
            } else {
                let j = choose|j: int|
                    0 <= j < by_start(rest).len() && by_start(rest)[j] == out[i];
                assert(rest.contains(by_start(rest)[j]));
                let k = choose|k: int| 0 <= k < rest.len() && rest[k] == out[i];
                assert(spans[k] == out[i]);
            }
        }
    }
}

proof fn lemma_reach(ordered: Seq<VisionSpan>, n: int)
    requires
        0 <= n <= ordered.len(),
    ensures
        0 <= reach(ordered.take(n)) <= reach(ordered),
        -reach(ordered.take(n)) <= offset_after(ordered.take(n)) <= reach(ordered.take(n)),
    decreases n,
{
    if n > 0 {
        lemma_reach(ordered, n - 1);
        assert(ordered.take(n).drop_last() =~= ordered.take(n - 1));
    }
    lemma_reach_grows(ordered, n);
}

proof fn lemma_reach_grows(ordered: Seq<VisionSpan>, n: int)
    requires
        0 <= n <= ordered.len(),
    ensures
        reach(ordered.take(n)) <= reach(ordered),
    decreases ordered.len() - n,
{
    if n < ordered.len() {
        lemma_reach_grows(ordered, n + 1);
        assert(ordered.take(n + 1).drop_last() =~= ordered.take(n));
    } else {
        assert(ordered.take(n) =~= ordered);
    }
}

/// The spans in order of their starts.
fn sorted_by_start(spans: &[VisionSpan]) -> (ordered: Vec<VisionSpan>)
    ensures
        ordered@ == by_start(spans@),
{
    let mut ordered: Vec<VisionSpan> = Vec::new();
    let mut i: usize = 0;
    while i < spans.len()
        invariant
            i <= spans@.len(),
            ordered@ == by_start(spans@.take(i as int)),
        decreases spans@.len() - i,
    {
        let span = spans[i];
        let ghost before = ordered@;
        let mut at: usize = ordered.len();
        assert(before.take(at as int) =~= before);
        assert(placed(before, span) =~= placed(before.take(at as int), span) + before.skip(
            at as int,
        ));
        while at > 0 && ordered[at - 1].start > span.start
            invariant
                at <= ordered@.len(),
                ordered@ == before,
                placed(before, span) == placed(before.take(at as int), span) + before.skip(
                    at as int,
                ),
            decreases at,
        {
            proof {
                let head = before.take(at as int);
                assert(head.drop_last() =~= before.take(at - 1));
                assert(placed(head, span) == placed(before.take(at - 1), span).push(head.last()));
                assert(placed(before.take(at - 1), span) + before.skip(at - 1) =~= placed(
                    head,
                    span,
                ) + before.skip(at as int));
            }
            at -= 1;
        }
        ordered.insert(at, span);
        proof {
            let head = before.take(at as int);
            assert(placed(head, span) == head.push(span));
            assert(ordered@ =~= head.push(span) + before.skip(at as int));
            assert(spans@.take(i + 1).drop_last() =~= spans@.take(i as int));
        }
        i += 1;
    }
    assert(spans@.take(i as int) =~= spans@);
    ordered
}

/// Whether these are the positions of so many rows, three to a row.
pub open spec fn are_positions(pos: Seq<i64>, n: int, spans: Seq<VisionSpan>) -> bool {
    &&& pos.len() == 3 * n
    &&& forall|row: int, axis: int|
        0 <= row < n && 0 <= axis < 3 ==> #[trigger] pos[3 * row + axis] == mrope_position(by_start(spans), row, axis)
}

/// A row's three positions stand together. In front of the first image, and where there is none, all three are the row;
/// inside a first image the second counts its lines and the third its columns, from where it begins.
pub proof fn law_a_rows_three_positions_stand_together(pos: Seq<i64>, n: int, span: VisionSpan, row: int, axis: int)
    requires
        are_positions(pos, n, seq![span]),
        span.count > 0 ==> span.merged_w > 0,
        0 <= row < n,
        0 <= axis < 3,
    ensures
        row < span.start ==> pos[3 * row + axis] == row,
        span.start <= row < span.start + span.count ==> pos[3 * row + axis] == span.start + if axis == 0 {
            0
        } else if axis == 1 {
            (row - span.start) / span.merged_w as int
        } else {
            (row - span.start) % span.merged_w as int
        },
{
    assert(pos[3 * row + axis] == mrope_position(by_start(seq![span]), row, axis));
    assert(seq![span].drop_last() =~= Seq::empty());
    assert(by_start(Seq::<VisionSpan>::empty()) =~= Seq::empty());
    reveal_with_fuel(by_start, 2);
    reveal_with_fuel(placed, 2);
    assert(by_start(seq![span]) =~= seq![span]);
    reveal_with_fuel(laid, 2);
    reveal_with_fuel(offset_after, 2);
}

/// Qwen2-VL's mrope position ids: text runs sequentially, each image span takes its grid, and the rest
/// of the sequence is offset by how much wider the grid was than the rows it occupied.
pub fn mrope_positions(n: usize, spans: &[VisionSpan]) -> (pos: Vec<i64>)
    requires
        3 * n <= usize::MAX,
        n + reach(spans@) <= EXACT,
        forall|i: int|
            0 <= i < spans@.len() ==> (#[trigger] spans@[i]).start + spans@[i].count <= n && (
            spans@[i].count > 0 ==> spans@[i].merged_w > 0),
    ensures
        are_positions(pos@, n as int, spans@),
{
    let mut pos: Vec<i64> = vec![0; n * 3];
    let ordered = sorted_by_start(spans);
    let ghost all = ordered@;
    proof {
        lemma_by_start(spans@);
        assert forall|i: int| 0 <= i < all.len() implies (#[trigger] all[i]).start + all[i].count
            <= n && (all[i].count > 0 ==> all[i].merged_w > 0) by {
            assert(spans@.contains(all[i]));
        }
    }
    let mut cursor: usize = 0;
    let mut offset: i64 = 0;
    let mut s: usize = 0;
    assert(all.take(0).len() == 0);
    while s < ordered.len()
        invariant
            s <= all.len(),
            all == ordered@,
            pos@.len() == 3 * n,
            3 * n <= usize::MAX,
            n + reach(all) <= EXACT,
            cursor <= n,
            cursor == row_after(all.take(s as int)),
            offset == offset_after(all.take(s as int)),
            forall|i: int|
                0 <= i < all.len() ==> (#[trigger] all[i]).start + all[i].count <= n && (
                all[i].count > 0 ==> all[i].merged_w > 0),
            forall|row: int, axis: int|
                0 <= row < n && 0 <= axis < 3 ==> #[trigger] pos@[3 * row + axis] == laid(
                    all.take(s as int),
                    row,
                    axis,
                ),
        decreases all.len() - s,
    {
        let sp = ordered[s];
        let ghost rest = all.take(s as int);
        proof {
            assert(all.take(s + 1).drop_last() =~= rest);
            assert(all.take(s + 1).last() == sp);
            lemma_reach(all, s as int);
            lemma_reach(all, s + 1);
        }
        let mut i: usize = cursor;
        while i < sp.start
            invariant
                pos@.len() == 3 * n,
                3 * n <= usize::MAX,
                sp.start <= n,
                cursor <= i,
                i <= sp.start || i == cursor,
                cursor == row_after(rest),
                n + reach(all) <= EXACT,
                0 <= reach(all),
                offset == offset_after(rest),
                -reach(all) <= offset <= reach(all),
                forall|row: int, axis: int|
                    0 <= row < n && 0 <= axis < 3 ==> #[trigger] pos@[3 * row + axis] == if cursor
                        <= row < i {
                        row + offset
                    } else {
                        laid(rest, row, axis)
                    },
            decreases sp.start - i,
        {
            pos.set(3 * i, i as i64 + offset);
            pos.set(3 * i + 1, i as i64 + offset);
            pos.set(3 * i + 2, i as i64 + offset);
            i += 1;
        }
        let mut k: usize = 0;
        while k < sp.count
            invariant
                pos@.len() == 3 * n,
                3 * n <= usize::MAX,
                k <= sp.count,
                sp.start + sp.count <= n,
                sp.count > 0 ==> sp.merged_w > 0,
                cursor == row_after(rest),
                n + reach(all) <= EXACT,
                0 <= reach(all),
                offset == offset_after(rest),
                -reach(all) <= offset <= reach(all),
                forall|row: int, axis: int|
                    0 <= row < n && 0 <= axis < 3 ==> #[trigger] pos@[3 * row + axis] == if sp.start
                        <= row < sp.start + k {
                        span_position(sp, offset as int, row, axis)
                    } else if cursor <= row < sp.start {
                        row + offset
                    } else {
                        laid(rest, row, axis)
                    },
            decreases sp.count - k,
        {
            let row: usize = sp.start + k;
            let y: usize = k / sp.merged_w;
            let x: usize = k % sp.merged_w;
            assert(y <= k && x <= k) by (nonlinear_arith)
                requires
                    y == k as int / sp.merged_w as int,
                    x == k as int % sp.merged_w as int,
                    sp.merged_w > 0,
            ;
            let base: i64 = sp.start as i64 + offset;
            pos.set(3 * row, base);
            pos.set(3 * row + 1, base + y as i64);
            pos.set(3 * row + 2, base + x as i64);
            k += 1;
        }
        let len_max: usize = if sp.merged_h > sp.merged_w {
            sp.merged_h
        } else {
            sp.merged_w
        };
        offset = offset + (len_max as i64 - sp.count as i64);
        cursor = sp.start + sp.count;
        s += 1;
    }
    assert(all.take(s as int) =~= all);
    proof {
        lemma_reach(all, all.len() as int);
    }
    let mut i: usize = cursor;
    while i < n
        invariant
            pos@.len() == 3 * n,
            3 * n <= usize::MAX,
            cursor <= i <= n,
            cursor == row_after(all),
            n + reach(all) <= EXACT,
            0 <= reach(all),
            offset == offset_after(all),
            -reach(all) <= offset <= reach(all),
            forall|row: int, axis: int|
                0 <= row < n && 0 <= axis < 3 ==> #[trigger] pos@[3 * row + axis] == if cursor
                    <= row < i {
                    row + offset
                } else {
                    laid(all, row, axis)
                },
        decreases n - i,
    {
        pos.set(3 * i, i as i64 + offset);
        pos.set(3 * i + 1, i as i64 + offset);
        pos.set(3 * i + 2, i as i64 + offset);
        i += 1;
    }
    pos
}

/// Without images the positions are the rows.
pub proof fn law_text_runs_sequentially(row: int, axis: int)
    requires
        row >= 0,
    ensures
        mrope_position(by_start(Seq::empty()), row, axis) == row,
{
}

/// One image: its rows share the row it starts at as their time and walk its grid, what comes before
/// keeps its row, and what comes after resumes as if the image were as many rows as its grid is wide
/// or high.
pub proof fn law_one_image_offsets_what_follows(span: VisionSpan, row: int, axis: int)
    requires
        0 <= row,
        0 <= axis < 3,
    ensures
        ({
            let at = mrope_position(by_start(seq![span]), row, axis);
            if row < span.start {
                at == row
            } else if row < span.start + span.count {
                at == span_position(span, 0, row, axis)
            } else {
                at == row - span.count + if span.merged_h > span.merged_w {
                    span.merged_h
                } else {
                    span.merged_w
                }
            }
        }),
{
    let one = seq![span];
    assert(one.drop_last() =~= Seq::empty());
    assert(by_start(one.drop_last()).len() == 0);
    assert(by_start(one) =~= one);
    assert(offset_after(one.drop_last()) == 0);
}

/// Whether a table is the DiT's: each row has its three positions' pairs one axis after the other.
pub open spec fn is_dit_table<P, Q, T, F: Fn(P, Q) -> (T, T)>(
    rotate: F,
    pos: Seq<P>,
    inv_freq: Seq<Q>,
    cos: Seq<T>,
    sin: Seq<T>,
) -> bool {
    forall|i: int|
        0 <= i < pos.len() / 3 * ROPE_HALF ==> call_ensures(
            rotate,
            (pos[i / 48 * 3 + i % 48 / 16], inv_freq[i % 16]),
            (#[trigger] cos[i], sin[i]),
        )
}

/// A pair of the DiT's table turns by its own axis and its own frequency: sixteen pairs for each of time, height and
/// width, in that order, row by row.
pub proof fn law_the_dit_turns_each_axis<P, Q, T, F: Fn(P, Q) -> (T, T)>(
    rotate: F,
    pos: Seq<P>,
    inv_freq: Seq<Q>,
    cos: Seq<T>,
    sin: Seq<T>,
    row: int,
    axis: int,
    j: int,
)
    requires
        is_dit_table(rotate, pos, inv_freq, cos, sin),
        0 <= axis < 3,
        0 <= j < 16,
        0 <= row,
        3 * row + 2 < pos.len(),
    ensures
        ({
            let at = (3 * row + axis) * 16 + j;
            call_ensures(rotate, (pos[3 * row + axis], inv_freq[j]), (cos[at], sin[at]))
        }),
{
    let at = (3 * row + axis) * 16 + j;
    assert(at / 48 == row && at % 48 / 16 == axis && at % 16 == j);
}

/// Whether a table is the text encoder's: each row has its pairs one behind the other, each of its own axis.
pub open spec fn is_te_table<P, T, F: Fn(P, usize) -> (T, T)>(
    rotate: F,
    pos: Seq<P>,
    cos: Seq<T>,
    sin: Seq<T>,
) -> bool {
    forall|i: int|
        0 <= i < pos.len() / 3 * TE_ROPE_HALF ==> call_ensures(
            rotate,
            (pos[i / 64 * 3 + axis_of(i % 64)], (i % 64) as usize),
            (#[trigger] cos[i], sin[i]),
        )
}

/// A pair of the text encoder's table turns by its own axis: the pairs take time, height and width in turn for twenty
/// turns, and those behind them time.
pub proof fn law_the_text_encoder_turns_each_axis<P, T, F: Fn(P, usize) -> (T, T)>(
    rotate: F,
    pos: Seq<P>,
    cos: Seq<T>,
    sin: Seq<T>,
    row: int,
    turn: int,
    axis: int,
)
    requires
        is_te_table(rotate, pos, cos, sin),
        0 <= row,
        3 * row + 2 < pos.len(),
        0 <= turn < 22,
        0 <= axis < 3,
        3 * turn + axis < 64,
    ensures
        ({
            let j = 3 * turn + axis;
            let at = 64 * row + j;
            call_ensures(
                rotate,
                (pos[3 * row + if turn < 20 {
                    axis
                } else {
                    0
                }], j as usize),
                (cos[at], sin[at]),
            )
        }),
{
    let at = 64 * row + (3 * turn + axis);
    assert(at / 64 == row && at % 64 == 3 * turn + axis);
}

/// One more image behind the others: what comes before it keeps its position; its rows share as their time the position
/// that the row it starts at had without it, and walk its grid line by line from there; and what comes after resumes as if
/// the image were as many rows as its grid is wide or high, whichever is more.
pub proof fn law_an_image_moves_what_follows_it(ordered: Seq<VisionSpan>, span: VisionSpan, row: int, axis: int)
    requires
        0 <= row,
        0 <= axis < 3,
        row_after(ordered) <= span.start,
    ensures
        ({
            let without = mrope_position(ordered, row, axis);
            let at = mrope_position(ordered.push(span), row, axis);
            let k = row - span.start;
            if k < 0 {
                at == without
            } else if k < span.count {
                at == mrope_position(ordered, span.start as int, 0) + if axis == 0 {
                    0
                } else if axis == 1 {
                    k / span.merged_w as int
                } else {
                    k % span.merged_w as int
                }
            } else {
                at == without - span.count + if span.merged_h > span.merged_w {
                    span.merged_h
                } else {
                    span.merged_w
                }
            }
        }),
{
    let all = ordered.push(span);
    assert(all.drop_last() =~= ordered);
    assert(all.last() == span);
}

/// The images are taken in the order they start in: each of them, once.
pub proof fn law_images_are_taken_in_order(spans: Seq<VisionSpan>)
    ensures
        by_start(spans).to_multiset() == spans.to_multiset(),
        forall|i: int, j: int|
            0 <= i < j < by_start(spans).len() ==> (#[trigger] by_start(spans)[i]).start <= (
            #[trigger] by_start(spans)[j]).start,
    decreases spans.len(),
{
    broadcast use vstd::seq_lib::group_to_multiset_ensures;

    if spans.len() > 0 {
        let rest = spans.drop_last();
        law_images_are_taken_in_order(rest);
        lemma_placed_in_order(by_start(rest), spans.last());
        assert(rest.push(spans.last()) =~= spans);
    } else {
        assert(spans =~= Seq::empty());
    }
}

proof fn lemma_placed_in_order(ordered: Seq<VisionSpan>, span: VisionSpan)
    requires
        forall|i: int, j: int|
            0 <= i < j < ordered.len() ==> (#[trigger] ordered[i]).start <= (#[trigger] ordered[j]).start,
    ensures
        placed(ordered, span).to_multiset() == ordered.to_multiset().insert(span),
        forall|i: int, j: int|
            0 <= i < j < placed(ordered, span).len() ==> (#[trigger] placed(ordered, span)[i]).start <= (
            #[trigger] placed(ordered, span)[j]).start,
        forall|i: int, bound: int|
            #![trigger placed(ordered, span)[i], bound as nat]
            0 <= i < placed(ordered, span).len() && span.start <= bound && (ordered.len() > 0
                ==> ordered.last().start <= bound) ==> placed(ordered, span)[i].start <= bound,
    decreases ordered.len(),
{
    broadcast use vstd::seq_lib::group_to_multiset_ensures;

    if ordered.len() == 0 || ordered.last().start <= span.start {
    } else {
        let rest = ordered.drop_last();
        let last = ordered.last();
        lemma_placed_in_order(rest, span);
        let inner = placed(rest, span);
        assert(rest.push(last) =~= ordered);
        assert(rest.to_multiset().insert(last) =~= ordered.to_multiset());
        assert(inner.push(last).to_multiset() =~= rest.to_multiset().insert(span).insert(last));
        assert(ordered.to_multiset().insert(span) =~= rest.to_multiset().insert(span).insert(last));
        assert forall|i: int| 0 <= i < inner.len() implies (#[trigger] inner[i]).start <= last.start by {
            let bound: int = last.start as int;
            assert(bound as nat == bound);
            assert(rest.len() > 0 ==> rest.last() == ordered[ordered.len() - 2]);
        }
    }
}

/// The DiT's table: three axes of sixteen frequencies from the checkpoint's `rope.inv_freq`.
///
/// Row `r` has its three positions' pairs one axis after the other.
pub fn dit<P: Copy, Q: Copy, T, F: Fn(P, Q) -> (T, T)>(
    pos: &[P],
    inv_freq: &[Q],
    cos: &mut [T],
    sin: &mut [T],
    rotate: F,
)
    requires
        inv_freq@.len() >= 16,
        pos@.len() / 3 * ROPE_HALF <= old(cos)@.len(),
        pos@.len() / 3 * ROPE_HALF <= old(sin)@.len(),
        forall|p: P, q: Q| #[trigger] call_requires(rotate, (p, q)),
    ensures
        final(cos)@.len() == old(cos)@.len(),
        final(sin)@.len() == old(sin)@.len(),
        is_dit_table(rotate, pos@, inv_freq@, final(cos)@, final(sin)@),
        forall|i: int|
            pos@.len() / 3 * ROPE_HALF <= i < old(cos)@.len() ==> #[trigger] final(cos)@[i] == old(
                cos,
            )@[i],
        forall|i: int|
            pos@.len() / 3 * ROPE_HALF <= i < old(sin)@.len() ==> #[trigger] final(sin)@[i] == old(
                sin,
            )@[i],
{
    let ghost (cos0, sin0) = (cos@, sin@);
    assert(cos@.len() == cos.len());
    let n: usize = pos.len() / 3 * ROPE_HALF;
    let mut i: usize = 0;
    while i < n
        invariant
            i <= n,
            n == pos@.len() / 3 * ROPE_HALF,
            inv_freq@.len() >= 16,
            n <= cos0.len(),
            n <= sin0.len(),
            cos@.len() == cos0.len(),
            sin@.len() == sin0.len(),
            forall|p: P, q: Q| #[trigger] call_requires(rotate, (p, q)),
            forall|k: int|
                0 <= k < i ==> call_ensures(
                    rotate,
                    (pos@[k / 48 * 3 + k % 48 / 16], inv_freq@[k % 16]),
                    (#[trigger] cos@[k], sin@[k]),
                ),
            forall|k: int| i <= k < cos0.len() ==> #[trigger] cos@[k] == cos0[k],
            forall|k: int| i <= k < sin0.len() ==> #[trigger] sin@[k] == sin0[k],
        decreases n - i,
    {
        let (c, s) = rotate(pos[i / 48 * 3 + i % 48 / 16], inv_freq[i % 16]);
        cos[i] = c;
        sin[i] = s;
        i += 1;
    }
}

/// The text encoder's table, each pair reading its mrope axis.
pub fn te<P: Copy, T, F: Fn(P, usize) -> (T, T)>(
    pos: &[P],
    cos: &mut [T],
    sin: &mut [T],
    rotate: F,
)
    requires
        pos@.len() / 3 * TE_ROPE_HALF <= old(cos)@.len(),
        pos@.len() / 3 * TE_ROPE_HALF <= old(sin)@.len(),
        forall|p: P, j: usize| #[trigger] call_requires(rotate, (p, j)),
    ensures
        final(cos)@.len() == old(cos)@.len(),
        final(sin)@.len() == old(sin)@.len(),
        is_te_table(rotate, pos@, final(cos)@, final(sin)@),
        forall|i: int|
            pos@.len() / 3 * TE_ROPE_HALF <= i < old(cos)@.len() ==> #[trigger] final(cos)@[i]
                == old(cos)@[i],
        forall|i: int|
            pos@.len() / 3 * TE_ROPE_HALF <= i < old(sin)@.len() ==> #[trigger] final(sin)@[i]
                == old(sin)@[i],
{
    let ghost (cos0, sin0) = (cos@, sin@);
    assert(cos@.len() == cos.len());
    let n: usize = pos.len() / 3 * TE_ROPE_HALF;
    let mut i: usize = 0;
    while i < n
        invariant
            i <= n,
            n == pos@.len() / 3 * TE_ROPE_HALF,
            n <= cos0.len(),
            n <= sin0.len(),
            cos@.len() == cos0.len(),
            sin@.len() == sin0.len(),
            forall|p: P, j: usize| #[trigger] call_requires(rotate, (p, j)),
            forall|k: int|
                0 <= k < i ==> call_ensures(
                    rotate,
                    (pos@[k / 64 * 3 + axis_of(k % 64)], (k % 64) as usize),
                    (#[trigger] cos@[k], sin@[k]),
                ),
            forall|k: int| i <= k < cos0.len() ==> #[trigger] cos@[k] == cos0[k],
            forall|k: int| i <= k < sin0.len() ==> #[trigger] sin@[k] == sin0[k],
        decreases n - i,
    {
        let j: usize = i % 64;
        let (c, s) = rotate(pos[i / 64 * 3 + mrope_axis(j)], j);
        cos[i] = c;
        sin[i] = s;
        i += 1;
    }
}

/// The row the patch `(hy, wx)` of a grid `gw` wide is merged into: 2x2 blocks, row-major within the
/// block.
pub open spec fn merged_row(hy: int, wx: int, gw: int) -> int {
    (((hy / 2) * (gw / 2) + wx / 2) * 2 + hy % 2) * 2 + wx % 2
}

/// The row the patch `(hy, wx)` of a grid `gw` wide is merged into.
pub fn merge_row(hy: usize, wx: usize, gw: usize) -> (row: usize)
    requires
        wx < gw,
        merged_row(hy as int, wx as int, gw as int) <= usize::MAX,
    ensures
        row == merged_row(hy as int, wx as int, gw as int),
{
    let half: usize = gw / 2;
    let up: usize = hy / 2;
    assert(0 <= up * half) by (nonlinear_arith)
        requires
            up >= 0,
            half >= 0,
    ;
    ((up * half + wx / 2) * 2 + hy % 2) * 2 + wx % 2
}

/// The patch a merged row comes from, as its index in the grid.
pub open spec fn merged_from(row: int, gw: int) -> int {
    (row / 4 / (gw / 2) * 2 + row % 4 / 2) * gw + (row / 4 % (gw / 2) * 2 + row % 2)
}

/// A row of four patches, taken apart.
proof fn lemma_block_of_four(m: int, r: int, c: int)
    requires
        0 <= m,
        0 <= r < 2,
        0 <= c < 2,
    ensures
        ((m * 2 + r) * 2 + c) / 4 == m,
        ((m * 2 + r) * 2 + c) % 4 / 2 == r,
        ((m * 2 + r) * 2 + c) % 2 == c,
{
}

/// A patch of a grid of `hh` by `ww` blocks is found again from its merged row.
proof fn lemma_merge(hy: int, wx: int, hh: int, ww: int)
    requires
        0 <= hy < 2 * hh,
        0 <= wx < 2 * ww,
    ensures
        0 <= merged_row(hy, wx, 2 * ww) < 4 * (hh * ww),
        merged_from(merged_row(hy, wx, 2 * ww), 2 * ww) == hy * (2 * ww) + wx,
{
    let block = (hy / 2) * ww + wx / 2;
    radix::lemma_flat2(hy / 2, wx / 2, hh, ww);
    lemma_block_of_four(block, hy % 2, wx % 2);
    let row = merged_row(hy, wx, 2 * ww);
    assert((2 * ww) / 2 == ww);
    assert(row == (block * 2 + hy % 2) * 2 + wx % 2);
    assert(row / 4 / ww * 2 + row % 4 / 2 == hy);
    assert(row / 4 % ww * 2 + row % 2 == wx);
}

/// A row of a grid of `hh` by `ww` blocks comes from the patch that is merged into it.
proof fn lemma_unmerge(g: int, hh: int, ww: int)
    requires
        0 <= g < 4 * (hh * ww),
        0 <= hh,
        0 <= ww,
    ensures
        ({
            let (hy, wx) = (g / 4 / ww * 2 + g % 4 / 2, g / 4 % ww * 2 + g % 2);
            &&& 0 <= hy < 2 * hh
            &&& 0 <= wx < 2 * ww
            &&& merged_row(hy, wx, 2 * ww) == g
            &&& merged_from(g, 2 * ww) == hy * (2 * ww) + wx
        }),
{
    let q = g / 4;
    radix::lemma_unflat2(q, hh, ww);
    let (hy, wx) = (q / ww * 2 + g % 4 / 2, q % ww * 2 + g % 2);
    assert((2 * ww) / 2 == ww);
    assert(hy / 2 == q / ww && hy % 2 == g % 4 / 2);
    assert(wx / 2 == q % ww && wx % 2 == g % 2);
    assert((hy / 2) * ww + wx / 2 == q);
}

/// On a grid of whole blocks every patch has a merged row of its own, and every row a patch.
pub proof fn law_merging_permutes_the_patches(g: int, gh: int, gw: int)
    requires
        0 <= gh,
        0 <= gw,
        gh % 2 == 0,
        gw % 2 == 0,
        0 <= g < gh * gw,
    ensures
        0 <= merged_row(g / gw, g % gw, gw) < gh * gw,
        merged_from(merged_row(g / gw, g % gw, gw), gw) == g,
        0 <= merged_from(g, gw) < gh * gw,
        merged_row(merged_from(g, gw) / gw, merged_from(g, gw) % gw, gw) == g,
{
    let (hh, ww) = (gh / 2, gw / 2);
    radix::lemma_unflat2(g, gh, gw);
    assert(gh * gw == 4 * (hh * ww)) by (nonlinear_arith)
        requires
            gh == 2 * hh,
            gw == 2 * ww,
    ;
    lemma_merge(g / gw, g % gw, hh, ww);
    lemma_unmerge(g, hh, ww);
    let (hy, wx) = (g / 4 / ww * 2 + g % 4 / 2, g / 4 % ww * 2 + g % 2);
    radix::lemma_flat2(hy, wx, gh, gw);
}

/// Four neighbours are merged one behind the other, line by line, and the blocks of four stand line by line.
pub proof fn law_four_neighbours_are_merged_together(v: int, u: int, dy: int, dx: int, hh: int, ww: int)
    requires
        0 <= v < hh,
        0 <= u < ww,
        0 <= dy < 2,
        0 <= dx < 2,
    ensures
        merged_row(2 * v + dy, 2 * u + dx, 2 * ww) == 4 * (v * ww + u) + 2 * dy + dx,
        merged_from(4 * (v * ww + u) + 2 * dy + dx, 2 * ww) == (2 * v + dy) * (2 * ww) + (2 * u + dx),
{
    lemma_merge(2 * v + dy, 2 * u + dx, hh, ww);
    assert((2 * v + dy) / 2 == v && (2 * v + dy) % 2 == dy && (2 * u + dx) / 2 == u && (2 * u + dx) % 2 == dx);
}

/// Whether a patch after `g`, among the first `n`, is merged into the row of `g`.
pub open spec fn merged_over(g: int, n: int, gw: int) -> bool {
    exists|k: int|
        g < k < n && #[trigger] merged_row(k / gw, k % gw, gw) == merged_row(g / gw, g % gw, gw)
}

/// What filling the vision tower's table for the first `n` patches leaves in it.
pub open spec fn vision_filled<T, F: Fn(usize, usize) -> (T, T)>(
    cos: Seq<T>,
    sin: Seq<T>,
    cos0: Seq<T>,
    sin0: Seq<T>,
    rotate: F,
    n: int,
    gw: int,
) -> bool {
    &&& cos.len() == cos0.len()
    &&& sin.len() == sin0.len()
    &&& forall|g: int, j: int|
        0 <= g < n && !merged_over(g, n, gw) && 0 <= j < 36 ==> call_ensures(
            rotate,
            (
                (if j < 18 {
                    g / gw
                } else {
                    g % gw
                }) as usize,
                j as usize,
            ),
            #[trigger] vision_entry(cos, sin, g, j, gw),
        )
    &&& forall|d: int|
        0 <= d < cos.len() && (forall|g: int|
            0 <= g < n ==> #[trigger] merged_row(g / gw, g % gw, gw) != d / 36) ==> #[trigger] cos[d]
            == cos0[d]
    &&& forall|d: int|
        0 <= d < sin.len() && (forall|g: int|
            0 <= g < n ==> #[trigger] merged_row(g / gw, g % gw, gw) != d / 36) ==> #[trigger] sin[d]
            == sin0[d]
}

/// The table's entry for pair `j` of the patch `g`.
pub open spec fn vision_entry<T>(cos: Seq<T>, sin: Seq<T>, g: int, j: int, gw: int) -> (T, T) {
    let at = merged_row(g / gw, g % gw, gw) * 36 + j;
    (cos[at], sin[at])
}

/// One patch's pairs: the first eighteen take its row, the rest its column.
fn vision_patch<T, F: Fn(usize, usize) -> (T, T)>(
    cos: &mut [T],
    sin: &mut [T],
    row: usize,
    hy: usize,
    wx: usize,
    rotate: &F,
)
    requires
        (row + 1) * 36 <= old(cos)@.len(),
        (row + 1) * 36 <= old(sin)@.len(),
        forall|p: usize, j: usize| j < 36 ==> #[trigger] call_requires(*rotate, (p, j)),
    ensures
        final(cos)@.len() == old(cos)@.len(),
        final(sin)@.len() == old(sin)@.len(),
        forall|j: int|
            #![trigger final(cos)@[row * 36 + j]]
            0 <= j < 36 ==> call_ensures(
                *rotate,
                (
                    if j < 18 {
                        hy
                    } else {
                        wx
                    },
                    j as usize,
                ),
                (final(cos)@[row * 36 + j], final(sin)@[row * 36 + j]),
            ),
        forall|d: int|
            0 <= d < old(cos)@.len() && d / 36 != row ==> #[trigger] final(cos)@[d] == old(cos)@[d],
        forall|d: int|
            0 <= d < old(sin)@.len() && d / 36 != row ==> #[trigger] final(sin)@[d] == old(sin)@[d],
{
    let ghost (cos0, sin0) = (cos@, sin@);
    assert(cos@.len() == cos.len());
    let mut j: usize = 0;
    while j < 36
        invariant
            j <= 36,
            (row + 1) * 36 <= cos0.len(),
            (row + 1) * 36 <= sin0.len(),
            cos0.len() <= usize::MAX,
            cos@.len() == cos0.len(),
            sin@.len() == sin0.len(),
            forall|p: usize, j: usize| j < 36 ==> #[trigger] call_requires(*rotate, (p, j)),
            forall|k: int|
                #![trigger cos@[row * 36 + k]]
                0 <= k < j ==> call_ensures(
                    *rotate,
                    (
                        if k < 18 {
                            hy
                        } else {
                            wx
                        },
                        k as usize,
                    ),
                    (cos@[row * 36 + k], sin@[row * 36 + k]),
                ),
            forall|d: int| 0 <= d < cos0.len() && d / 36 != row ==> #[trigger] cos@[d] == cos0[d],
            forall|d: int| 0 <= d < sin0.len() && d / 36 != row ==> #[trigger] sin@[d] == sin0[d],
        decreases 36 - j,
    {
        let (c, s) = rotate(
            if j < 18 {
                hy
            } else {
                wx
            },
            j,
        );
        let ghost (cos1, sin1) = (cos@, sin@);
        cos[row * 36 + j] = c;
        sin[row * 36 + j] = s;
        assert forall|k: int|
            #![trigger cos@[row * 36 + k]]
            0 <= k < j implies cos@[row * 36 + k] == cos1[row * 36 + k] && sin@[row * 36 + k]
            == sin1[row * 36 + k] by {}
        j += 1;
    }
}

proof fn lemma_vision_step<T, F: Fn(usize, usize) -> (T, T)>(
    cos: Seq<T>,
    sin: Seq<T>,
    cos1: Seq<T>,
    sin1: Seq<T>,
    cos0: Seq<T>,
    sin0: Seq<T>,
    rotate: F,
    g: int,
    gw: int,
)
    requires
        0 <= g,
        gw > 0,
        g % gw >= 0,
        vision_filled(cos1, sin1, cos0, sin0, rotate, g, gw),
        cos.len() == cos1.len(),
        sin.len() == sin1.len(),
        forall|k: int|
            0 <= k <= g ==> 0 <= #[trigger] merged_row(k / gw, k % gw, gw) && (merged_row(
                k / gw,
                k % gw,
                gw,
            ) + 1) * 36 <= cos0.len() && (merged_row(k / gw, k % gw, gw) + 1) * 36 <= sin0.len(),
        ({
            let row = merged_row(g / gw, g % gw, gw);
            &&& forall|j: int|
                #![trigger cos[row * 36 + j]]
                0 <= j < 36 ==> call_ensures(
                    rotate,
                    (
                        (if j < 18 {
                            g / gw
                        } else {
                            g % gw
                        }) as usize,
                        j as usize,
                    ),
                    (cos[row * 36 + j], sin[row * 36 + j]),
                )
            &&& forall|d: int|
                0 <= d < cos1.len() && d / 36 != row ==> #[trigger] cos[d] == cos1[d]
            &&& forall|d: int|
                0 <= d < sin1.len() && d / 36 != row ==> #[trigger] sin[d] == sin1[d]
        }),
    ensures
        vision_filled(cos, sin, cos0, sin0, rotate, g + 1, gw),
{
    let row = merged_row(g / gw, g % gw, gw);
    assert forall|k: int, j: int| 0 <= k < g + 1 && !merged_over(k, g + 1, gw) && 0 <= j < 36 implies call_ensures(
        rotate,
        (
            (if j < 18 {
                k / gw
            } else {
                k % gw
            }) as usize,
            j as usize,
        ),
        #[trigger] vision_entry(cos, sin, k, j, gw),
    ) by {
        let at = merged_row(k / gw, k % gw, gw);
        if k < g {
            assert(at != row);
            assert(!merged_over(k, g, gw)) by {
                if merged_over(k, g, gw) {
                    let o = choose|o: int|
                        k < o < g && #[trigger] merged_row(o / gw, o % gw, gw) == merged_row(
                            k / gw,
                            k % gw,
                            gw,
                        );
                    assert(k < o < g + 1);
                }
            }
            assert((at * 36 + j) / 36 == at);
            assert(vision_entry(cos, sin, k, j, gw) == vision_entry(cos1, sin1, k, j, gw));
        } else {
            assert(vision_entry(cos, sin, k, j, gw) == (cos[row * 36 + j], sin[row * 36 + j]));
        }
    }
    assert forall|d: int|
        0 <= d < cos.len() && (forall|k: int|
            0 <= k < g + 1 ==> #[trigger] merged_row(k / gw, k % gw, gw) != d / 36) implies #[trigger] cos[d]
        == cos0[d] by {
        assert(d / 36 != row);
        assert(cos[d] == cos1[d]);
    }
    assert forall|d: int|
        0 <= d < sin.len() && (forall|k: int|
            0 <= k < g + 1 ==> #[trigger] merged_row(k / gw, k % gw, gw) != d / 36) implies #[trigger] sin[d]
        == sin0[d] by {
        assert(d / 36 != row);
        assert(sin[d] == sin1[d]);
    }
}

/// The vision tower's 2-D table over a `gh` by `gw` patch grid.
///
/// Pairs below eighteen take the row coordinate and the rest the column. The row a patch lands on is
/// the merge order: 2x2 blocks, row-major within the block.
pub fn vision<T, F: Fn(usize, usize) -> (T, T)>(
    gh: usize,
    gw: usize,
    cos: &mut [T],
    sin: &mut [T],
    rotate: F,
)
    requires
        forall|g: int|
            0 <= g < gh * gw ==> (#[trigger] merged_row(g / gw as int, g % gw as int, gw as int) + 1)
                * 36 <= old(cos)@.len(),
        forall|g: int|
            0 <= g < gh * gw ==> (#[trigger] merged_row(g / gw as int, g % gw as int, gw as int) + 1)
                * 36 <= old(sin)@.len(),
        forall|p: usize, j: usize| j < 36 ==> #[trigger] call_requires(rotate, (p, j)),
    ensures
        vision_filled(
            final(cos)@,
            final(sin)@,
            old(cos)@,
            old(sin)@,
            rotate,
            gh * gw,
            gw as int,
        ),
{
    let ghost (cos0, sin0) = (cos@, sin@);
    let ghost w = gw as int;
    assert(cos@.len() == cos.len());
    assert forall|g: int| 0 <= g < gh * gw implies 0 <= #[trigger] merged_row(g / w, g % w, w) by {
        radix::lemma_unflat2(g, gh as int, w);
        lemma_merged_row_counts(g / w, g % w, w);
    }
    let mut hy: usize = 0;
    assert(0 * w == 0) by (nonlinear_arith);
    while hy < gh
        invariant
            hy <= gh,
            w == gw,
            cos0.len() <= usize::MAX,
            forall|g: int|
                0 <= g < gh * gw ==> 0 <= #[trigger] merged_row(g / w, g % w, w) && (merged_row(
                    g / w,
                    g % w,
                    w,
                ) + 1) * 36 <= cos0.len() && (merged_row(g / w, g % w, w) + 1) * 36 <= sin0.len(),
            forall|p: usize, j: usize| j < 36 ==> #[trigger] call_requires(rotate, (p, j)),
            vision_filled(cos@, sin@, cos0, sin0, rotate, hy * w, w),
        decreases gh - hy,
    {
        let mut wx: usize = 0;
        while wx < gw
            invariant
                hy < gh,
                wx <= gw,
                w == gw,
                cos0.len() <= usize::MAX,
                forall|g: int|
                    0 <= g < gh * gw ==> 0 <= #[trigger] merged_row(g / w, g % w, w) && (merged_row(
                        g / w,
                        g % w,
                        w,
                    ) + 1) * 36 <= cos0.len() && (merged_row(g / w, g % w, w) + 1) * 36
                        <= sin0.len(),
                forall|p: usize, j: usize| j < 36 ==> #[trigger] call_requires(rotate, (p, j)),
                vision_filled(cos@, sin@, cos0, sin0, rotate, hy * w + wx, w),
            decreases gw - wx,
        {
            let ghost g: int = hy * w + wx;
            proof {
                radix::lemma_flat2(hy as int, wx as int, gh as int, w);
                assert(g < gh * gw);
            }
            let row: usize = merge_row(hy, wx, gw);
            let ghost (cos1, sin1) = (cos@, sin@);
            vision_patch(cos, sin, row, hy, wx, &rotate);
            proof {
                lemma_vision_step(cos@, sin@, cos1, sin1, cos0, sin0, rotate, g, w);
            }
            wx += 1;
        }
        assert((hy + 1) * w == hy * w + w) by (nonlinear_arith);
        hy += 1;
    }
}

pub proof fn lemma_merged_row_counts(hy: int, wx: int, gw: int)
    requires
        0 <= hy,
        0 <= wx < gw,
    ensures
        0 <= merged_row(hy, wx, gw),
{
    assert(0 <= (hy / 2) * (gw / 2)) by (nonlinear_arith)
        requires
            0 <= hy,
            0 < gw,
    ;
}

/// The coordinate an entry of the VAE's table reads: the axis's index of the voxel `r`.
pub open spec fn voxel_index(r: int, axis: int, h: int, w: int) -> int {
    if axis == 0 {
        r / w / h
    } else if axis == 1 {
        r / w % h
    } else {
        r % w
    }
}

/// Whether a table is the VAE decoder's: each voxel has its three axes' pairs one axis after the other.
pub open spec fn is_vae_table<T, F: Fn(usize, usize, usize) -> (T, T)>(
    rotate: F,
    ft: usize,
    h: usize,
    w: usize,
    cos: Seq<T>,
    sin: Seq<T>,
) -> bool {
    forall|i: int|
        0 <= i < ft * h * w * VAE_ROPE_HALF ==> call_ensures(
            rotate,
            (
                voxel_index(i / 24, i % 24 / 8, h as int, w as int) as usize,
                if i % 24 / 8 == 0 {
                    ft
                } else if i % 24 / 8 == 1 {
                    h
                } else {
                    w
                },
                (i % 8) as usize,
            ),
            (#[trigger] cos[i], sin[i]),
        )
}

/// A pair of the VAE decoder's table turns by its own voxel: eight pairs for its frame among the frames, eight for its
/// line among the lines and eight for its column among the columns.
pub proof fn law_the_decoder_turns_each_axis<T, F: Fn(usize, usize, usize) -> (T, T)>(
    rotate: F,
    ft: usize,
    h: usize,
    w: usize,
    cos: Seq<T>,
    sin: Seq<T>,
    f: int,
    y: int,
    x: int,
    j: int,
)
    requires
        is_vae_table(rotate, ft, h, w, cos, sin),
        0 <= f < ft,
        0 <= y < h,
        0 <= x < w,
        0 <= j < 8,
    ensures
        ({
            let at = 24 * ((f * h + y) * w + x) + j;
            &&& call_ensures(rotate, (f as usize, ft, j as usize), (cos[at], sin[at]))
            &&& call_ensures(rotate, (y as usize, h, j as usize), (cos[at + 8], sin[at + 8]))
            &&& call_ensures(rotate, (x as usize, w, j as usize), (cos[at + 16], sin[at + 16]))
        }),
{
    let v = (f * h + y) * w + x;
    radix::lemma_flat2(f, y, ft as int, h as int);
    radix::lemma_flat2(f * h + y, x, ft * h, w as int);
    lemma_vae_pair(rotate, ft, h, w, cos, sin, v, 0, j);
    lemma_vae_pair(rotate, ft, h, w, cos, sin, v, 1, j);
    lemma_vae_pair(rotate, ft, h, w, cos, sin, v, 2, j);
}

proof fn lemma_vae_pair<T, F: Fn(usize, usize, usize) -> (T, T)>(
    rotate: F,
    ft: usize,
    h: usize,
    w: usize,
    cos: Seq<T>,
    sin: Seq<T>,
    v: int,
    axis: int,
    j: int,
)
    requires
        is_vae_table(rotate, ft, h, w, cos, sin),
        0 <= v < ft * h * w,
        0 <= axis < 3,
        0 <= j < 8,
    ensures
        ({
            let at = 24 * v + (8 * axis + j);
            call_ensures(
                rotate,
                (
                    voxel_index(v, axis, h as int, w as int) as usize,
                    if axis == 0 {
                        ft
                    } else if axis == 1 {
                        h
                    } else {
                        w
                    },
                    j as usize,
                ),
                (cos[at], sin[at]),
            )
        }),
{
    let at = 24 * v + (8 * axis + j);
    assert(at / 24 == v && at % 24 / 8 == axis && at % 8 == j);
}

/// The VAE decoder's table: each axis reads its index and its own extent, so a tile's angles depend on
/// the tile's extent rather than on where it sits. Rows past the grid, the register and cls rows, keep
/// the identity rotation the caller filled in.
pub fn vae<T, F: Fn(usize, usize, usize) -> (T, T)>(
    ft: usize,
    h: usize,
    w: usize,
    cos: &mut [T],
    sin: &mut [T],
    rotate: F,
)
    requires
        ft * h * w * VAE_ROPE_HALF <= old(cos)@.len(),
        ft * h * w * VAE_ROPE_HALF <= old(sin)@.len(),
        forall|p: usize, size: usize, j: usize|
            p < size ==> #[trigger] call_requires(rotate, (p, size, j)),
    ensures
        final(cos)@.len() == old(cos)@.len(),
        final(sin)@.len() == old(sin)@.len(),
        is_vae_table(rotate, ft, h, w, final(cos)@, final(sin)@),
        forall|i: int|
            ft * h * w * VAE_ROPE_HALF <= i < old(cos)@.len() ==> #[trigger] final(cos)@[i] == old(
                cos,
            )@[i],
        forall|i: int|
            ft * h * w * VAE_ROPE_HALF <= i < old(sin)@.len() ==> #[trigger] final(sin)@[i] == old(
                sin,
            )@[i],
{
    let ghost (cos0, sin0) = (cos@, sin@);
    let ghost n: int = ft * h * w * VAE_ROPE_HALF;
    assert(cos@.len() == cos.len());
    if h == 0 || w == 0 {
        assert(n == 0) by (nonlinear_arith)
            requires
                n == ft * h * w * 24,
                h == 0 || w == 0,
        ;
        return;
    }
    let mut i: usize = 0;
    while i < cos.len() && i / VAE_ROPE_HALF / w / h < ft
        invariant
            i <= n,
            n == ft * h * w * VAE_ROPE_HALF,
            h > 0,
            w > 0,
            n <= cos0.len(),
            n <= sin0.len(),
            cos0.len() <= usize::MAX,
            cos@.len() == cos0.len(),
            sin@.len() == sin0.len(),
            forall|p: usize, size: usize, j: usize|
                p < size ==> #[trigger] call_requires(rotate, (p, size, j)),
            forall|k: int|
                0 <= k < i ==> call_ensures(
                    rotate,
                    (
                        voxel_index(k / 24, k % 24 / 8, h as int, w as int) as usize,
                        if k % 24 / 8 == 0 {
                            ft
                        } else if k % 24 / 8 == 1 {
                            h
                        } else {
                            w
                        },
                        (k % 8) as usize,
                    ),
                    (#[trigger] cos@[k], sin@[k]),
                ),
            forall|k: int| i <= k < cos0.len() ==> #[trigger] cos@[k] == cos0[k],
            forall|k: int| i <= k < sin0.len() ==> #[trigger] sin@[k] == sin0[k],
        decreases cos0.len() - i,
    {
        proof {
            radix::lemma_block4(i as int, ft as int, h as int, w as int, VAE_ROPE_HALF as int);
            radix::lemma_unflat4(i as int, ft as int, h as int, w as int, VAE_ROPE_HALF as int);
        }
        let r: usize = i / 24;
        let axis: usize = i % 24 / 8;
        let (p, size): (usize, usize) = if axis == 0 {
            (r / w / h, ft)
        } else if axis == 1 {
            (r / w % h, h)
        } else {
            (r % w, w)
        };
        let (c, s) = rotate(p, size, i % 8);
        cos[i] = c;
        sin[i] = s;
        i += 1;
    }
    proof {
        radix::lemma_block4(i as int, ft as int, h as int, w as int, VAE_ROPE_HALF as int);
        assert(i == n);
    }
}

/// The vision tower's table turns each patch by where it lies: of its 36 pairs, the first eighteen by its line and the
/// rest by its column. The rows stand as the patches are merged: four neighbours one behind the other, line by line.
pub proof fn law_the_vision_tower_turns_each_patch<T, F: Fn(usize, usize) -> (T, T)>(
    cos: Seq<T>,
    sin: Seq<T>,
    cos0: Seq<T>,
    sin0: Seq<T>,
    rotate: F,
    hh: int,
    ww: int,
    v: int,
    u: int,
    dy: int,
    dx: int,
    j: int,
)
    requires
        vision_filled(cos, sin, cos0, sin0, rotate, (2 * hh) * (2 * ww), 2 * ww),
        0 <= v < hh,
        0 <= u < ww,
        0 <= dy < 2,
        0 <= dx < 2,
        0 <= j < 36,
    ensures
        ({
            let at = (4 * (v * ww + u) + 2 * dy + dx) * 36 + j;
            let by = if j < 18 {
                2 * v + dy
            } else {
                2 * u + dx
            };
            call_ensures(rotate, (by as usize, j as usize), (cos[at], sin[at]))
        }),
{
    let (gh, gw) = (2 * hh, 2 * ww);
    let g = (2 * v + dy) * gw + (2 * u + dx);
    radix::lemma_flat2(2 * v + dy, 2 * u + dx, gh, gw);
    law_four_neighbours_are_merged_together(v, u, dy, dx, hh, ww);
    if merged_over(g, gh * gw, gw) {
        let k = choose|k: int|
            g < k < gh * gw && #[trigger] merged_row(k / gw, k % gw, gw) == merged_row(g / gw, g % gw, gw);
        law_merging_permutes_the_patches(k, gh, gw);
        law_merging_permutes_the_patches(g, gh, gw);
    }
    assert(vision_entry(cos, sin, g, j, gw) == (
        cos[(4 * (v * ww + u) + 2 * dy + dx) * 36 + j],
        sin[(4 * (v * ww + u) + 2 * dy + dx) * 36 + j],
    ));
}

} // verus!
