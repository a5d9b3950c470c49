//! Turning a checkpoint's tensors into the exact byte layout each kernel reads.
//!
//! A recipe is layout only, bit for bit: rows concatenated, rows interleaved, rows permuted, zero
//! padding, and lossless widening of small float vectors to the single precision the host's maths
//! takes. Nothing here rotates or quantises: the checkpoint's dtypes are what the kernels run.
//!
//! Recipes are declarative and resolved against the checkpoint when they are assembled, so a recipe
//! table can be built and validated at open without reading a byte of tensor data.
pub mod laws;

use vstd::prelude::*;
use vstd::string::StringExecFns;

use crate::bytes;
use crate::checkpoint;
use crate::checkpoint::{Checkpoint, CheckpointView, Dtype, Entry, EntryView};
use crate::names::Named;
use crate::radix;
use crate::text;

verus! {

#[derive(Debug)]
pub enum Error {
    Checkpoint(checkpoint::Error),
    NoRecipe(String),
    Layout(String),
    Device(String),
}

impl Error {
    /// What the error says.
    pub open spec fn text(self) -> Seq<char> {
        match self {
            Error::Checkpoint(e) => e.text(),
            Error::NoRecipe(name) => "no recipe for tensor "@ + name@,
            Error::Layout(message) => message@,
            Error::Device(message) => message@,
        }
    }

    /// What the error says.
    pub fn message(&self) -> (text: String)
        ensures
            text@ == self.text(),
    {
        match self {
            Error::Checkpoint(e) => e.message(),
            Error::NoRecipe(name) => text::cat2("no recipe for tensor ", name.as_str()),
            Error::Layout(message) => message.clone(),
            Error::Device(message) => message.clone(),
        }
    }
}

pub type Result<T> = std::result::Result<T, Error>;

/// Whether an error says that the layout is wrong, in these words.
pub open spec fn says(error: Error, words: Seq<char>) -> bool {
    error matches Error::Layout(message) && message@ == words
}

/// Whether an error says that a checkpoint has no tensor of this name.
pub open spec fn misses(error: Error, name: Seq<char>, ck: CheckpointView) -> bool {
    error matches Error::Checkpoint(checkpoint::Error::Missing { name: wanted, path })
        && wanted@ == name && path@ == ck.path
}

fn layout<T>(message: &str) -> (result: Result<T>)
    ensures
        result matches Err(e) && says(e, message@),
{
    Err(Error::Layout(String::from_str(message)))
}

/// The entry of a name.
fn entry_at<'b>(ck: &'b Checkpoint<'_>, name: &str) -> (result: Result<&'b Entry>)
    requires
        ck.wf(),
    ensures
        match result {
            Ok(entry) => ck@.entries.contains_pair(name@, entry@),
            Err(e) => !ck@.entries.contains_key(name@) && misses(e, name@, ck@),
        },
{
    match ck.at(name) {
        Ok(entry) => Ok(entry),
        Err(e) => Err(Error::Checkpoint(e)),
    }
}

/// The bytes of an entry of a checkpoint.
fn bytes_at<'a>(ck: &Checkpoint<'a>, entry: &Entry, name: &str) -> (bytes: &'a [u8])
    requires
        ck.wf(),
        ck@.entries.contains_pair(name@, entry@),
    ensures
        bytes@ == ck@.bytes(entry@),
        bytes@.len() == entry.bytes,
{
    proof {
        checkpoint::lemma_entries_hold(ck, name@);
    }
    ck.bytes(entry)
}

/// A run of whole rows taken from one tensor, in destination order.
#[derive(Clone, Debug)]
pub struct Segment {
    pub tensor: String,
    pub row0: usize,
    pub rows: usize,
}

/// How many rows the segments have together.
pub open spec fn rows_in(segments: Seq<Segment>) -> int
    decreases segments.len(),
{
    if segments.len() == 0 {
        0
    } else {
        rows_in(segments.drop_last()) + segments.last().rows
    }
}

/// The tensor and the row of it that the row `r` of the segments is.
pub open spec fn source_of(segments: Seq<Segment>, r: int) -> (Seq<char>, int)
    decreases segments.len(),
{
    if segments.len() == 0 {
        (Seq::empty(), 0)
    } else if r >= rows_in(segments.drop_last()) {
        (segments.last().tensor@, segments.last().row0 + (r - rows_in(segments.drop_last())))
    } else {
        source_of(segments.drop_last(), r)
    }
}

/// What can be wrong with a segment of a checkpoint: there is no such tensor, or it does not have the
/// rows.
pub enum Trouble {
    Missing(Seq<char>),
    Past(Seq<char>),
}

/// What is wrong with a segment whose rows are `row_bytes` wide.
pub open spec fn segment_trouble(ck: CheckpointView, s: Segment, row_bytes: int) -> Option<Trouble> {
    if !ck.entries.contains_key(s.tensor@) {
        Some(Trouble::Missing(s.tensor@))
    } else if s.rows > 0 && (s.row0 + s.rows) * row_bytes > ck.entries[s.tensor@].bytes {
        Some(Trouble::Past(s.tensor@))
    } else {
        None
    }
}

/// What is wrong with the first segment that anything is wrong with.
pub open spec fn trouble(ck: CheckpointView, segments: Seq<Segment>, row_bytes: int) -> Option<Trouble>
    decreases segments.len(),
{
    if segments.len() == 0 {
        None
    } else {
        match trouble(ck, segments.drop_last(), row_bytes) {
            Some(t) => Some(t),
            None => segment_trouble(ck, segments.last(), row_bytes),
        }
    }
}

/// Whether an error says what the trouble is.
pub open spec fn reports(error: Error, t: Trouble, ck: CheckpointView) -> bool {
    match t {
        Trouble::Missing(name) => misses(error, name, ck),
        Trouble::Past(name) => says(error, "a row run past "@ + name),
    }
}

/// The byte `b` of the row `r` of the segments.
pub open spec fn row_byte(
    ck: CheckpointView,
    segments: Seq<Segment>,
    row_bytes: int,
    r: int,
    b: int,
) -> u8 {
    let (name, row) = source_of(segments, r);
    ck.bytes(ck.entries[name])[row * row_bytes + b]
}

/// The segments' rows one after the other at `pitch` bytes each, zero where a row does not reach.
pub open spec fn gathered(
    ck: CheckpointView,
    segments: Seq<Segment>,
    row_bytes: int,
    pitch: int,
) -> Seq<u8> {
    Seq::new(
        (rows_in(segments) * pitch) as nat,
        |k: int|
            if k % pitch < row_bytes {
                row_byte(ck, segments, row_bytes, k / pitch, k % pitch)
            } else {
                0
            },
    )
}

/// What a recipe says whose segments do not have the rows it promises.
pub open spec fn rows_short(have: nat, want: nat) -> Seq<char> {
    "a recipe's segments add up to "@ + text::decimal(have) + " rows, not "@ + text::decimal(want)
}

proof fn lemma_rows_in(segments: Seq<Segment>, n: int)
    requires
        0 <= n <= segments.len(),
    ensures
        0 <= rows_in(segments.take(n)) <= rows_in(segments),
    decreases segments.len() - n,
{
    if n < segments.len() {
        lemma_rows_in(segments, n + 1);
        assert(segments.take(n + 1).drop_last() =~= segments.take(n));
        lemma_rows_in_counts(segments.take(n));
    } else {
        assert(segments.take(n) =~= segments);
        lemma_rows_in_counts(segments);
    }
}

proof fn lemma_rows_in_counts(segments: Seq<Segment>)
    ensures
        0 <= rows_in(segments),
    decreases segments.len(),
{
    if segments.len() > 0 {
        lemma_rows_in_counts(segments.drop_last());
    }
}

/// A row that falls in the segment `s` is that segment's.
proof fn lemma_source(segments: Seq<Segment>, s: int, r: int)
    requires
        0 <= s < segments.len(),
        rows_in(segments.take(s)) <= r < rows_in(segments.take(s)) + segments[s].rows,
    ensures
        source_of(segments, r) == (
            segments[s].tensor@,
            segments[s].row0 + (r - rows_in(segments.take(s))),
        ),
    decreases segments.len(),
{
    let rest = segments.drop_last();
    if s == segments.len() - 1 {
        assert(segments.take(s) =~= rest);
    } else {
        assert(rest.take(s) =~= segments.take(s));
        assert(rest[s] == segments[s]);
        lemma_rows_in(rest, s + 1);
        assert(rest.take(s + 1).drop_last() =~= rest.take(s));
        lemma_source(rest, s, r);
    }
}

/// Once a segment is in trouble, so are the segments.
proof fn lemma_trouble(ck: CheckpointView, segments: Seq<Segment>, row_bytes: int, n: int)
    requires
        0 <= n <= segments.len(),
        trouble(ck, segments.take(n), row_bytes) is Some,
    ensures
        trouble(ck, segments, row_bytes) == trouble(ck, segments.take(n), row_bytes),
    decreases segments.len() - n,
{
    if n < segments.len() {
        assert(segments.take(n + 1).drop_last() =~= segments.take(n));
        lemma_trouble(ck, segments, row_bytes, n + 1);
    } else {
        assert(segments.take(n) =~= segments);
    }
}

/// What a segment without trouble has: its tensor, and every byte of its rows.
proof fn lemma_segment_fits(ck: CheckpointView, segments: Seq<Segment>, row_bytes: int, s: int)
    requires
        0 <= s < segments.len(),
        trouble(ck, segments, row_bytes) is None,
    ensures
        segment_trouble(ck, segments[s], row_bytes) is None,
    decreases segments.len(),
{
    if s < segments.len() - 1 {
        assert(segments.drop_last()[s] == segments[s]);
        lemma_segment_fits(ck, segments.drop_last(), row_bytes, s);
    }
}

/// Appends one row and its pad.
fn push_row(out: &mut Vec<u8>, src: &[u8], from: usize, row_bytes: usize, pitch: usize)
    requires
        from + row_bytes <= src@.len(),
        row_bytes <= pitch,
    ensures
        final(out)@.len() == old(out)@.len() + pitch,
        forall|k: int| 0 <= k < old(out)@.len() ==> #[trigger] final(out)@[k] == old(out)@[k],
        forall|b: int|
            0 <= b < pitch ==> #[trigger] final(out)@[old(out)@.len() + b] == if b < row_bytes {
                src@[from + b]
            } else {
                0
            },
{
    let ghost before = out@;
    let mut b: usize = 0;
    while b < pitch
        invariant
            b <= pitch,
            row_bytes <= pitch,
            from + row_bytes <= src@.len(),
            out@.len() == before.len() + b,
            forall|k: int| 0 <= k < before.len() ==> #[trigger] out@[k] == before[k],
            forall|k: int|
                0 <= k < b ==> #[trigger] out@[before.len() + k] == if k < row_bytes {
                    src@[from + k]
                } else {
                    0
                },
        decreases pitch - b,
    {
        assert(src@.len() == src.len());
        if b < row_bytes {
            out.push(src[from + b]);
        } else {
            out.push(0);
        }
        b += 1;
    }
}

/// Gathers segments at a pitch.
fn gather(
    ck: &Checkpoint<'_>,
    segments: &[Segment],
    row_bytes: usize,
    pitch: usize,
    rows: usize,
) -> (result: Result<Vec<u8>>)
    requires
        ck.wf(),
        row_bytes <= pitch,
        rows_in(segments@) <= rows,
        rows * pitch <= usize::MAX,
        forall|i: int|
            0 <= i < segments@.len() ==> ((#[trigger] segments@[i]).row0 + segments@[i].rows)
                * row_bytes <= usize::MAX,
    ensures
        match trouble(ck@, segments@, row_bytes as int) {
            Some(t) => result matches Err(e) && reports(e, t, ck@),
            None => if rows_in(segments@) == rows {
                result matches Ok(out) && out@ == gathered(
                    ck@,
                    segments@,
                    row_bytes as int,
                    pitch as int,
                )
            } else {
                result matches Err(e) && says(
                    e,
                    rows_short(rows_in(segments@) as nat, rows as nat),
                )
            },
        },
{
    let ghost want = gathered(ck@, segments@, row_bytes as int, pitch as int);
    let ghost ckv = ck@;
    let mut out: Vec<u8> = Vec::new();
    let mut row: usize = 0;
    let mut s: usize = 0;
    assert(segments@.take(0).len() == 0);
    while s < segments.len()
        invariant
            s <= segments@.len(),
            ck.wf(),
            ckv == ck@,
            row_bytes <= pitch,
            rows_in(segments@) <= rows,
            rows * pitch <= usize::MAX,
            forall|i: int|
                0 <= i < segments@.len() ==> ((#[trigger] segments@[i]).row0 + segments@[i].rows)
                    * row_bytes <= usize::MAX,
            want == gathered(ckv, segments@, row_bytes as int, pitch as int),
            row == rows_in(segments@.take(s as int)),
            trouble(ckv, segments@.take(s as int), row_bytes as int) is None,
            out@.len() == row * pitch,
            forall|k: int| 0 <= k < out@.len() ==> #[trigger] out@[k] == want[k],
        decreases segments@.len() - s,
    {
        let segment = &segments[s];
        let ghost base = row as int;
        proof {
            assert(segments@.take(s + 1).drop_last() =~= segments@.take(s as int));
            assert(segments@.take(s + 1).last() == segments@[s as int]);
            lemma_rows_in(segments@, s + 1);
        }
        let entry = match entry_at(ck, segment.tensor.as_str()) {
            Ok(entry) => entry,
            Err(e) => {
                proof {
                    lemma_trouble(ckv, segments@, row_bytes as int, s + 1);
                }
                return Err(e);
            },
        };
        let src: &[u8] = bytes_at(ck, entry, segment.tensor.as_str());
        assert((segments@[s as int].row0 + segments@[s as int].rows) * row_bytes <= usize::MAX);
        assert(row_bytes > 0 ==> segment.row0 + segment.rows <= (segment.row0 + segment.rows)
            * row_bytes) by (nonlinear_arith);
        let mut i: usize = 0;
        while i < segment.rows
            invariant
                i <= segment.rows,
                s < segments@.len(),
                *segment == segments@[s as int],
                ckv == ck@,
                ckv.entries.contains_pair(segment.tensor@, entry@),
                src@ == ckv.bytes(entry@),
                src@.len() == entry.bytes,
                row_bytes <= pitch,
                rows_in(segments@) <= rows,
                rows * pitch <= usize::MAX,
                (segment.row0 + segment.rows) * row_bytes <= usize::MAX,
                segment.row0 + segment.rows <= usize::MAX || row_bytes == 0,
                want == gathered(ckv, segments@, row_bytes as int, pitch as int),
                base == rows_in(segments@.take(s as int)),
                base + segment.rows <= rows_in(segments@),
                row == base + i,
                i > 0 ==> (segment.row0 + i) * row_bytes <= src@.len(),
                trouble(ckv, segments@.take(s as int), row_bytes as int) is None,
                segments@.take(s + 1).drop_last() == segments@.take(s as int),
                segments@.take(s + 1).last() == segments@[s as int],
                out@.len() == row * pitch,
                forall|k: int| 0 <= k < out@.len() ==> #[trigger] out@[k] == want[k],
            decreases segment.rows - i,
        {
            assert(src@.len() == src.len());
            let from: usize = if row_bytes == 0 {
                0
            } else {
                proof {
                    lemma_row_start(
                        segment.row0 + i,
                        segment.row0 + segment.rows,
                        row_bytes as int,
                    );
                }
                (segment.row0 + i) * row_bytes
            };
            assert(from == (segment.row0 + i) * row_bytes) by (nonlinear_arith)
                requires
                    row_bytes == 0 ==> from == 0,
                    row_bytes != 0 ==> from == (segment.row0 + i) * row_bytes,
            ;
            assert(from + row_bytes == (segment.row0 + i + 1) * row_bytes) by (nonlinear_arith)
                requires
                    from == (segment.row0 + i) * row_bytes,
            ;
            if row_bytes > src.len() || from > src.len() - row_bytes {
                proof {
                    assert((segment.row0 + i + 1) * row_bytes <= (segment.row0 + segment.rows)
                        * row_bytes) by (nonlinear_arith)
                        requires
                            i + 1 <= segment.rows,
                            row_bytes >= 0,
                    ;
                    lemma_trouble(ckv, segments@, row_bytes as int, s + 1);
                }
                let mut message = String::from_str("a row run past ");
                message.append(segment.tensor.as_str());
                return Err(Error::Layout(message));
            }
            let ghost before = out@;
            push_row(&mut out, src, from, row_bytes, pitch);
            proof {
                lemma_source(segments@, s as int, row as int);
                assert((row + 1) * pitch == row * pitch + pitch) by (nonlinear_arith);
                assert((row + 1) * pitch <= rows_in(segments@) * pitch) by (nonlinear_arith)
                    requires
                        row + 1 <= rows_in(segments@),
                        pitch >= 0,
                ;
                assert forall|k: int| 0 <= k < out@.len() implies #[trigger] out@[k] == want[k] by {
                    if k < before.len() {
                        assert(out@[k] == before[k]);
                    } else {
                        let b = k - before.len();
                        radix::lemma_flat2(row as int, b, row + 1, pitch as int);
                        assert(out@[before.len() + b] == out@[k]);
                    }
                }
            }
            row += 1;
            i += 1;
        }
        proof {
            assert(segment.rows > 0 ==> (segment.row0 + segment.rows) * row_bytes <= src@.len());
        }
        s += 1;
    }
    proof {
        assert(segments@.take(s as int) =~= segments@);
    }
    if row != rows {
        let mut message = String::from_str("a recipe's segments add up to ");
        text::push_decimal(&mut message, row as u64);
        message.append(" rows, not ");
        text::push_decimal(&mut message, rows as u64);
        return Err(Error::Layout(message));
    }
    assert(out@ =~= want);
    Ok(out)
}

proof fn lemma_row_start(row: int, end: int, row_bytes: int)
    by (nonlinear_arith)
    requires
        0 <= row <= end,
        row_bytes >= 0,
    ensures
        row * row_bytes <= end * row_bytes,
{
}

// --- widening -------------------------------------------------------------------------------

/// Bytes per element for the dtypes a recipe can lay out; zero for the others.
pub open spec fn elem_size(dtype: Dtype) -> int {
    match dtype {
        Dtype::F32 => 4,
        Dtype::F16 | Dtype::BF16 => 2,
        Dtype::I8 | Dtype::U8 => 1,
        _ => 0,
    }
}

/// Bytes per element for the dtypes a recipe can lay out.
pub fn elem_bytes(dtype: Dtype) -> (n: usize)
    ensures
        n == elem_size(dtype),
{
    match dtype {
        Dtype::F32 => 4,
        Dtype::F16 | Dtype::BF16 => 2,
        Dtype::I8 | Dtype::U8 => 1,
        _ => 0,
    }
}

/// The dtypes that widen to single precision.
pub open spec fn widens(dtype: Dtype) -> bool {
    dtype == Dtype::F32 || dtype == Dtype::F16 || dtype == Dtype::BF16
}

/// The element `i` of a tensor of a dtype that widens, as the bits of a single.
pub open spec fn widened(dtype: Dtype, src: Seq<u8>, i: int) -> u32 {
    let at = i * elem_size(dtype);
    match dtype {
        Dtype::F32 => bytes::from_le32(src.subrange(at, at + 4)) as u32,
        Dtype::F16 => bytes::half_as_single(
            bytes::from_le16(src.subrange(at, at + 2)) as u16,
        ) as u32,
        _ => bytes::bfloat_as_single(bytes::from_le16(src.subrange(at, at + 2)) as u16) as u32,
    }
}

/// `count` elements from `first`, widened, as bytes.
pub open spec fn widened_bytes(dtype: Dtype, src: Seq<u8>, first: int, count: int) -> Seq<u8> {
    Seq::new((4 * count) as nat, |k: int| bytes::le32(widened(dtype, src, first + k / 4))[k % 4])
}

/// What is said of a dtype that does not widen.
pub open spec fn unwidenable(dtype: Dtype) -> Seq<char> {
    "cannot widen "@ + dtype.name_spec() + " to f32"@
}

/// One float element, at byte `at`, widened to the bits of a single. Singles pass through; the two
/// 16-bit forms widen exactly.
fn widen_one(dtype: Dtype, src: &[u8], at: usize) -> (result: Result<u32>)
    requires
        widens(dtype) ==> at + elem_size(dtype) <= src@.len(),
    ensures
        match result {
            Ok(w) => widens(dtype) && forall|i: int|
                i * elem_size(dtype) == at ==> w == #[trigger] widened(dtype, src@, i),
            Err(e) => !widens(dtype) && says(e, unwidenable(dtype)),
        },
{
    match dtype {
        Dtype::F32 => Ok(bytes::read_le32(src, at)),
        Dtype::F16 => Ok(bytes::widen_half(bytes::read_le16(src, at))),
        Dtype::BF16 => Ok(bytes::widen_bfloat(bytes::read_le16(src, at))),
        other => {
            let mut message = String::from_str("cannot widen ");
            message.append(other.name());
            message.append(" to f32");
            Err(Error::Layout(message))
        },
    }
}

/// Appends `count` elements from `first`, widened.
fn push_widened(out: &mut Vec<u8>, dtype: Dtype, src: &[u8], first: usize, count: usize) -> (result:
    Result<()>)
    requires
        widens(dtype) ==> (first + count) * elem_size(dtype) <= src@.len(),
    ensures
        match result {
            Ok(()) => (widens(dtype) || count == 0) && final(out)@ == old(out)@ + widened_bytes(
                dtype,
                src@,
                first as int,
                count as int,
            ),
            Err(e) => !widens(dtype) && count > 0 && says(e, unwidenable(dtype)),
        },
{
    let ghost before = out@;
    let ghost size = elem_size(dtype);
    let eb: usize = elem_bytes(dtype);
    let mut i: usize = 0;
    assert(out@ =~= before + widened_bytes(dtype, src@, first as int, 0));
    while i < count
        invariant
            i <= count,
            eb == size,
            size == elem_size(dtype),
            0 <= size <= 4,
            widens(dtype) ==> (first + count) * size <= src@.len(),
            i > 0 ==> widens(dtype),
            out@ == before + widened_bytes(dtype, src@, first as int, i as int),
        decreases count - i,
    {
        assert(src@.len() == src.len());
        if dtype != Dtype::F32 && dtype != Dtype::F16 && dtype != Dtype::BF16 {
            let refused = widen_one(dtype, src, 0);
            if let Err(e) = refused {
                return Err(e);
            }
        }
        assert((first + i) * size + size <= (first + count) * size && first + i <= (first + i)
            * size) by (nonlinear_arith)
            requires
                i + 1 <= count,
                size >= 1,
                first + i >= 0,
        ;
        let at: usize = (first + i) * eb;
        let w: u32 = match widen_one(dtype, src, at) {
            Ok(w) => w,
            Err(e) => {
                return Err(e);
            },
        };
        assert(w == widened(dtype, src@, first + i));
        bytes::push_le32(out, w);
        assert(out@ =~= before + widened_bytes(dtype, src@, first as int, i + 1));
        i += 1;
    }
    Ok(())
}

/// What is said of a tensor whose dtype a recipe does not widen.
pub open spec fn not_for(what: Seq<char>, dtype: Dtype) -> Seq<char> {
    what + " on "@ + dtype.name_spec()
}

fn widenable(entry: &Entry, what: &str) -> (result: Result<usize>)
    ensures
        match result {
            Ok(n) => widens(entry.dtype) && n == elem_size(entry.dtype),
            Err(e) => !widens(entry.dtype) && says(e, not_for(what@, entry.dtype)),
        },
{
    let eb: usize = elem_bytes(entry.dtype);
    if eb == 0 || entry.dtype == Dtype::I8 || entry.dtype == Dtype::U8 {
        let mut message = String::from_str(what);
        message.append(" on ");
        message.append(entry.dtype.name());
        return Err(Error::Layout(message));
    }
    Ok(eb)
}

/// `(first, count)` of rows or elements taken from a tensor, in destination order.
pub type Run = (usize, usize);

/// How many rows or elements the runs have together.
pub open spec fn run_total(runs: Seq<Run>) -> int
    decreases runs.len(),
{
    if runs.len() == 0 {
        0
    } else {
        run_total(runs.drop_last()) + runs.last().1
    }
}

proof fn lemma_run_total(runs: Seq<Run>, n: int)
    requires
        0 <= n <= runs.len(),
    ensures
        0 <= run_total(runs.take(n)) <= run_total(runs),
    decreases runs.len() - n,
{
    if n < runs.len() {
        lemma_run_total(runs, n + 1);
        assert(runs.take(n + 1).drop_last() =~= runs.take(n));
        lemma_run_total_counts(runs.take(n));
    } else {
        assert(runs.take(n) =~= runs);
        lemma_run_total_counts(runs);
    }
}

proof fn lemma_run_total_counts(runs: Seq<Run>)
    ensures
        0 <= run_total(runs),
    decreases runs.len(),
{
    if runs.len() > 0 {
        lemma_run_total_counts(runs.drop_last());
    }
}

/// The elements of the runs, widened, run after run.
pub open spec fn runs_bytes(dtype: Dtype, src: Seq<u8>, runs: Seq<Run>) -> Seq<u8>
    decreases runs.len(),
{
    if runs.len() == 0 {
        Seq::empty()
    } else {
        runs_bytes(dtype, src, runs.drop_last()) + widened_bytes(
            dtype,
            src,
            runs.last().0 as int,
            runs.last().1 as int,
        )
    }
}

/// A host array that is computed from the checkpoint: widening, zero extension, or a permutation of
/// elements.
#[derive(Debug)]
pub enum Build {
    /// A tensor's rows, then zero rows up to `total`.
    Padded { name: String, rows: usize, total: usize, row_bytes: usize, pitch: usize },
    /// A vector's runs of elements, widened.
    Runs { name: String, runs: Vec<Run> },
    /// Each row's groups zero-extended, then zero rows up to `all`.
    Regrouped {
        name: String,
        groups: usize,
        in_bytes: usize,
        out_bytes: usize,
        rows: usize,
        all: usize,
    },
    /// Tensors one after the other, widened.
    Widened { parts: Vec<String> },
    /// A vector's first `n` elements, widened, then zeros up to `n_out`.
    Extended { name: String, n: usize, n_out: usize },
    /// A convolution's taps as rows.
    Taps {
        name: String,
        cout: usize,
        cin: usize,
        taps: usize,
        cin_pad: usize,
        cout_pad: usize,
        k: usize,
    },
    /// Runs of four-byte elements, taken from two tensors in turn.
    Alternated { first: String, second: String, runs: Vec<Run> },
}

/// What can be wrong with a build: there is no such tensor, or its dtype does not widen.
pub enum BuildTrouble {
    Missing(Seq<char>),
    Unwidenable(Dtype),
}

/// Whether an error says what the trouble is.
pub open spec fn build_reports(error: Error, t: BuildTrouble, ck: CheckpointView) -> bool {
    match t {
        BuildTrouble::Missing(name) => misses(error, name, ck),
        BuildTrouble::Unwidenable(dtype) => says(error, unwidenable(dtype)),
    }
}

/// What is wrong with one tensor of which `count` elements are to be widened.
pub open spec fn widen_trouble(ck: CheckpointView, name: Seq<char>, count: int) -> Option<
    BuildTrouble,
> {
    if !ck.entries.contains_key(name) {
        Some(BuildTrouble::Missing(name))
    } else if count > 0 && !widens(ck.entries[name].dtype) {
        Some(BuildTrouble::Unwidenable(ck.entries[name].dtype))
    } else {
        None
    }
}

/// What is wrong with the first part that anything is wrong with.
pub open spec fn parts_trouble(ck: CheckpointView, parts: Seq<String>) -> Option<BuildTrouble>
    decreases parts.len(),
{
    if parts.len() == 0 {
        None
    } else {
        match parts_trouble(ck, parts.drop_last()) {
            Some(t) => Some(t),
            None => widen_trouble(
                ck,
                parts.last()@,
                if ck.entries.contains_key(parts.last()@) {
                    ck.entries[parts.last()@].elements()
                } else {
                    0
                },
            ),
        }
    }
}

/// The parts' elements, widened, part after part.
pub open spec fn parts_bytes(ck: CheckpointView, parts: Seq<String>) -> Seq<u8>
    decreases parts.len(),
{
    if parts.len() == 0 {
        Seq::empty()
    } else {
        let entry = ck.entries[parts.last()@];
        parts_bytes(ck, parts.drop_last()) + widened_bytes(
            entry.dtype,
            ck.bytes(entry),
            0,
            entry.elements(),
        )
    }
}

/// The runs of four-byte elements, run after run: even ones from `a`, odd ones from `b`.
pub open spec fn alternated_bytes(a: Seq<u8>, b: Seq<u8>, runs: Seq<Run>) -> Seq<u8>
    decreases runs.len(),
{
    if runs.len() == 0 {
        Seq::empty()
    } else {
        let src = if (runs.len() - 1) % 2 == 0 {
            a
        } else {
            b
        };
        alternated_bytes(a, b, runs.drop_last()) + src.subrange(
            4 * runs.last().0,
            4 * (runs.last().0 + runs.last().1),
        )
    }
}

/// Where a tap of a convolution's row is in the `[Cout][Cin][3][3][3]` weight, as an element: the taps
/// are in `(t, y, x)` order, and the image form keeps only the last temporal one.
pub open spec fn tap_source(oc: int, ic: int, tap: int, cin: int, taps: int) -> int {
    (oc * cin + ic) * 27 + if taps == 27 {
        tap
    } else {
        18 + tap
    }
}

impl Build {
    /// What is wrong with a build over a checkpoint.
    pub open spec fn trouble(self, ck: CheckpointView) -> Option<BuildTrouble> {
        match self {
            Build::Padded { name, .. } => widen_trouble(ck, name@, 0),
            Build::Runs { name, runs } => widen_trouble(ck, name@, run_total(runs@)),
            Build::Regrouped { name, .. } => widen_trouble(ck, name@, 0),
            Build::Widened { parts } => parts_trouble(ck, parts@),
            Build::Extended { name, n, .. } => widen_trouble(ck, name@, n as int),
            Build::Taps { name, .. } => widen_trouble(ck, name@, 0),
            Build::Alternated { first, second, .. } => if !ck.entries.contains_key(first@) {
                Some(BuildTrouble::Missing(first@))
            } else {
                widen_trouble(ck, second@, 0)
            },
        }
    }

    /// Whether what a build takes is there to be taken, and what it makes can be counted.
    pub open spec fn fits(self, ck: CheckpointView) -> bool {
        match self {
            Build::Padded { name, rows, total, row_bytes, pitch } => {
                &&& row_bytes <= pitch
                &&& rows <= total
                &&& total * pitch <= usize::MAX
                &&& ck.entries.contains_key(name@) ==> rows * row_bytes <= ck.entries[name@].bytes
            },
            Build::Runs { name, runs } => {
                &&& 4 * run_total(runs@) <= usize::MAX
                &&& ck.entries.contains_key(name@) && widens(ck.entries[name@].dtype) ==> forall|
                    i: int,
                |
                    0 <= i < runs@.len() ==> ((#[trigger] runs@[i]).0 + runs@[i].1) * elem_size(
                        ck.entries[name@].dtype,
                    ) <= ck.entries[name@].bytes
            },
            Build::Regrouped { name, groups, in_bytes, out_bytes, rows, all } => {
                &&& in_bytes <= out_bytes
                &&& rows <= all
                &&& all * (groups * out_bytes) <= usize::MAX
                &&& ck.entries.contains_key(name@) ==> rows * (groups * in_bytes)
                    <= ck.entries[name@].bytes
            },
            Build::Widened { parts } => parts_bytes(ck, parts@).len() <= usize::MAX,
            Build::Extended { name, n, n_out } => {
                &&& n <= n_out
                &&& 4 * n_out <= usize::MAX
                &&& ck.entries.contains_key(name@) && widens(ck.entries[name@].dtype) ==> n
                    * elem_size(ck.entries[name@].dtype) <= ck.entries[name@].bytes
            },
            Build::Taps { name, cout, cin, taps, cin_pad, cout_pad, k } => {
                &&& taps == 27 || taps == 9
                &&& cin <= cin_pad
                &&& cout <= cout_pad
                &&& taps * cin_pad <= k
                &&& cin_pad == 0 ==> k == 0
                &&& cout_pad * k * 2 <= usize::MAX
                &&& ck.entries.contains_key(name@) ==> cout * cin * 27 * 2
                    <= ck.entries[name@].bytes
            },
            Build::Alternated { first, second, runs } => {
                &&& 4 * run_total(runs@) <= usize::MAX
                &&& ck.entries.contains_key(first@) && ck.entries.contains_key(second@) ==> forall|
                    i: int,
                |
                    0 <= i < runs@.len() ==> 4 * ((#[trigger] runs@[i]).0 + runs@[i].1) <= if i % 2
                        == 0 {
                        ck.entries[first@].bytes
                    } else {
                        ck.entries[second@].bytes
                    }
            },
        }
    }

    /// What a build makes of a checkpoint.
    pub open spec fn made(self, ck: CheckpointView) -> Seq<u8> {
        match self {
            Build::Padded { name, rows, total, row_bytes, pitch } => {
                let src = ck.bytes(ck.entries[name@]);
                Seq::new(
                    (total * pitch) as nat,
                    |k: int|
                        if (k / pitch as int) < rows && (k % pitch as int) < row_bytes {
                            src[k / pitch as int * row_bytes + k % pitch as int]
                        } else {
                            0
                        },
                )
            },
            Build::Runs { name, runs } => {
                let entry = ck.entries[name@];
                runs_bytes(entry.dtype, ck.bytes(entry), runs@)
            },
            Build::Regrouped { name, groups, in_bytes, out_bytes, rows, all } => {
                let src = ck.bytes(ck.entries[name@]);
                let row_out = groups * out_bytes;
                Seq::new(
                    (all * row_out) as nat,
                    |k: int|
                        {
                            let (r, c) = (k / row_out, k % row_out);
                            let (g, b) = (c / out_bytes as int, c % out_bytes as int);
                            if r < rows && b < in_bytes {
                                src[r * (groups * in_bytes) + (g * in_bytes + b)]
                            } else {
                                0
                            }
                        },
                )
            },
            Build::Widened { parts } => parts_bytes(ck, parts@),
            Build::Extended { name, n, n_out } => {
                let entry = ck.entries[name@];
                widened_bytes(entry.dtype, ck.bytes(entry), 0, n as int) + Seq::new(
                    (4 * (n_out - n)) as nat,
                    |k: int| 0u8,
                )
            },
            Build::Taps { name, cout, cin, taps, cin_pad, cout_pad, k } => {
                let src = ck.bytes(ck.entries[name@]);
                Seq::new(
                    (cout_pad * k * 2) as nat,
                    |o: int|
                        {
                            let (oc, c) = (o / 2 / k as int, o / 2 % k as int);
                            let (tap, ic) = (c / cin_pad as int, c % cin_pad as int);
                            if oc < cout && tap < taps && ic < cin {
                                src[tap_source(oc, ic, tap, cin as int, taps as int) * 2 + o % 2]
                            } else {
                                0
                            }
                        },
                )
            },
            Build::Alternated { first, second, runs } => alternated_bytes(
                ck.bytes(ck.entries[first@]),
                ck.bytes(ck.entries[second@]),
                runs@,
            ),
        }
    }
}

fn make_padded(
    ck: &Checkpoint<'_>,
    name: &String,
    rows: usize,
    total: usize,
    row_bytes: usize,
    pitch: usize,
) -> (result: Result<Vec<u8>>)
    requires
        ck.wf(),
        row_bytes <= pitch,
        rows <= total,
        total * pitch <= usize::MAX,
        ck@.entries.contains_key(name@) ==> rows * row_bytes <= ck@.entries[name@].bytes,
    ensures
        ({
            let build = Build::Padded { name: *name, rows, total, row_bytes, pitch };
            match build.trouble(ck@) {
                Some(t) => result matches Err(e) && build_reports(e, t, ck@),
                None => result matches Ok(out) && out@ == build.made(ck@),
            }
        }),
{
    let ghost want = (Build::Padded { name: *name, rows, total, row_bytes, pitch }).made(ck@);
    let entry = entry_at(ck, name.as_str())?;
    let src: &[u8] = bytes_at(ck, entry, name.as_str());
    let mut out: Vec<u8> = Vec::new();
    let mut r: usize = 0;
    assert(0 * pitch == 0) by (nonlinear_arith);
    while r < total
        invariant
            r <= total,
            row_bytes <= pitch,
            rows <= total,
            total * pitch <= usize::MAX,
            rows * row_bytes <= src@.len(),
            src@ == ck@.bytes(ck@.entries[name@]),
            want == (Build::Padded { name: *name, rows, total, row_bytes, pitch }).made(ck@),
            out@.len() == r * pitch,
            forall|k: int| 0 <= k < out@.len() ==> #[trigger] out@[k] == want[k],
        decreases total - r,
    {
        assert(src@.len() == src.len());
        let ghost before = out@;
        if r < rows {
            assert(r * row_bytes + row_bytes <= rows * row_bytes && 0 <= r * row_bytes)
                by (nonlinear_arith)
                requires
                    0 <= r,
                    r + 1 <= rows,
                    row_bytes >= 0,
            ;
            push_row(&mut out, src, r * row_bytes, row_bytes, pitch);
        } else {
            push_row(&mut out, src, 0, 0, pitch);
        }
        proof {
            assert((r + 1) * pitch == r * pitch + pitch) by (nonlinear_arith);
            assert forall|k: int| 0 <= k < out@.len() implies #[trigger] out@[k] == want[k] by {
                if k < before.len() {
                    assert(out@[k] == before[k]);
                } else {
                    let b = k - before.len();
                    radix::lemma_flat2(r as int, b, total as int, pitch as int);
                    assert(out@[before.len() + b] == out@[k]);
                }
            }
        }
        r += 1;
    }
    assert(out@ =~= want);
    Ok(out)
}

fn make_runs(ck: &Checkpoint<'_>, name: &String, runs: &Vec<Run>) -> (result: Result<Vec<u8>>)
    requires
        ck.wf(),
        4 * run_total(runs@) <= usize::MAX,
        ck@.entries.contains_key(name@) && widens(ck@.entries[name@].dtype) ==> forall|i: int|
            0 <= i < runs@.len() ==> ((#[trigger] runs@[i]).0 + runs@[i].1) * elem_size(
                ck@.entries[name@].dtype,
            ) <= ck@.entries[name@].bytes,
    ensures
        ({
            let build = Build::Runs { name: *name, runs: *runs };
            match build.trouble(ck@) {
                Some(t) => result matches Err(e) && build_reports(e, t, ck@),
                None => result matches Ok(out) && out@ == build.made(ck@),
            }
        }),
{
    let entry = entry_at(ck, name.as_str())?;
    let src: &[u8] = bytes_at(ck, entry, name.as_str());
    let mut out: Vec<u8> = Vec::new();
    let mut i: usize = 0;
    assert(runs@.take(0).len() == 0);
    while i < runs.len()
        invariant
            i <= runs@.len(),
            src@ == ck@.bytes(entry@),
            src@.len() == entry.bytes,
            ck@.entries.contains_pair(name@, entry@),
            widens(entry.dtype) ==> forall|i: int|
                0 <= i < runs@.len() ==> ((#[trigger] runs@[i]).0 + runs@[i].1) * elem_size(
                    entry.dtype,
                ) <= entry.bytes,
            widens(entry.dtype) || run_total(runs@.take(i as int)) == 0,
            out@ == runs_bytes(entry.dtype, src@, runs@.take(i as int)),
        decreases runs@.len() - i,
    {
        let (first, count) = runs[i];
        proof {
            assert(runs@[i as int] == (first, count));
            assert(runs@.take(i + 1).drop_last() =~= runs@.take(i as int));
            lemma_run_total(runs@, i + 1);
            lemma_run_total(runs@, i as int);
        }
        match push_widened(&mut out, entry.dtype, src, first, count) {
            Ok(()) => {},
            Err(e) => {
                return Err(e);
            },
        }
        i += 1;
    }
    assert(runs@.take(i as int) =~= runs@);
    Ok(out)
}

fn make_regrouped(
    ck: &Checkpoint<'_>,
    name: &String,
    groups: usize,
    in_bytes: usize,
    out_bytes: usize,
    rows: usize,
    all: usize,
) -> (result: Result<Vec<u8>>)
    requires
        ck.wf(),
        in_bytes <= out_bytes,
        rows <= all,
        all * (groups * out_bytes) <= usize::MAX,
        ck@.entries.contains_key(name@) ==> rows * (groups * in_bytes)
            <= ck@.entries[name@].bytes,
    ensures
        ({
            let build = Build::Regrouped { name: *name, groups, in_bytes, out_bytes, rows, all };
            match build.trouble(ck@) {
                Some(t) => result matches Err(e) && build_reports(e, t, ck@),
                None => result matches Ok(out) && out@ == build.made(ck@),
            }
        }),
{
    let ghost build = Build::Regrouped { name: *name, groups, in_bytes, out_bytes, rows, all };
    let ghost want = build.made(ck@);
    let ghost row_out: int = groups * out_bytes;
    let ghost row_in: int = groups * in_bytes;
    let entry = entry_at(ck, name.as_str())?;
    let src: &[u8] = bytes_at(ck, entry, name.as_str());
    let mut out: Vec<u8> = Vec::new();
    let mut r: usize = 0;
    assert(0 * row_out == 0) by (nonlinear_arith);
    while r < all
        invariant
            r <= all,
            in_bytes <= out_bytes,
            rows <= all,
            row_out == groups * out_bytes,
            row_in == groups * in_bytes,
            all * row_out <= usize::MAX,
            rows * row_in <= src@.len(),
            src@ == ck@.bytes(ck@.entries[name@]),
            build == (Build::Regrouped { name: *name, groups, in_bytes, out_bytes, rows, all }),
            want == build.made(ck@),
            out@.len() == r * row_out,
            forall|k: int| 0 <= k < out@.len() ==> #[trigger] out@[k] == want[k],
        decreases all - r,
    {
        let mut g: usize = 0;
        assert(0 * out_bytes == 0) by (nonlinear_arith);
        while g < groups
            invariant
                r < all,
                g <= groups,
                in_bytes <= out_bytes,
                rows <= all,
                row_out == groups * out_bytes,
                row_in == groups * in_bytes,
                all * row_out <= usize::MAX,
                rows * row_in <= src@.len(),
                src@ == ck@.bytes(ck@.entries[name@]),
                build == (Build::Regrouped { name: *name, groups, in_bytes, out_bytes, rows, all }),
                want == build.made(ck@),
                out@.len() == r * row_out + g * out_bytes,
                forall|k: int| 0 <= k < out@.len() ==> #[trigger] out@[k] == want[k],
            decreases groups - g,
        {
            assert(src@.len() == src.len());
            let ghost before = out@;
            if r < rows {
                proof {
                    lemma_group(r as int, g as int, rows as int, groups as int, in_bytes as int);
                }
                push_row(
                    &mut out,
                    src,
                    r * (groups * in_bytes) + g * in_bytes,
                    in_bytes,
                    out_bytes,
                );
            } else {
                push_row(&mut out, src, 0, 0, out_bytes);
            }
            proof {
                assert((g + 1) * out_bytes == g * out_bytes + out_bytes) by (nonlinear_arith);
                assert forall|k: int| 0 <= k < out@.len() implies #[trigger] out@[k] == want[k] by {
                    if k < before.len() {
                        assert(out@[k] == before[k]);
                    } else {
                        let b = k - before.len();
                        radix::lemma_flat2(g as int, b, groups as int, out_bytes as int);
                        radix::lemma_flat2(r as int, g * out_bytes + b, all as int, row_out);
                        assert(out@[before.len() + b] == out@[k]);
                    }
                }
            }
            g += 1;
        }
        assert((r + 1) * row_out == r * row_out + row_out) by (nonlinear_arith);
        r += 1;
    }
    assert(out@ =~= want);
    Ok(out)
}

/// A group of a row ends where the rows do, at the latest.
proof fn lemma_group(r: int, g: int, rows: int, groups: int, size: int)
    requires
        0 <= r < rows,
        0 <= g < groups,
        0 <= size,
    ensures
        0 <= groups * size <= rows * (groups * size),
        0 <= r * (groups * size),
        0 <= g * size,
        r * (groups * size) + g * size + size <= rows * (groups * size),
{
    let row = groups * size;
    assert(0 <= g * size && g * size + size <= row && 0 <= row) by (nonlinear_arith)
        requires
            0 <= g,
            g + 1 <= groups,
            0 <= size,
            row == groups * size,
    ;
    assert(0 <= r * row && r * row + row <= rows * row && row <= rows * row) by (nonlinear_arith)
        requires
            0 <= r,
            r + 1 <= rows,
            0 <= row,
    ;
}

fn make_widened(ck: &Checkpoint<'_>, parts: &Vec<String>) -> (result: Result<Vec<u8>>)
    requires
        ck.wf(),
        parts_bytes(ck@, parts@).len() <= usize::MAX,
    ensures
        match parts_trouble(ck@, parts@) {
            Some(t) => result matches Err(e) && build_reports(e, t, ck@),
            None => result matches Ok(out) && out@ == parts_bytes(ck@, parts@),
        },
{
    let mut out: Vec<u8> = Vec::new();
    let mut i: usize = 0;
    assert(parts@.take(0).len() == 0);
    while i < parts.len()
        invariant
            i <= parts@.len(),
            ck.wf(),
            parts_trouble(ck@, parts@.take(i as int)) is None,
            out@ == parts_bytes(ck@, parts@.take(i as int)),
        decreases parts@.len() - i,
    {
        let name = parts[i].as_str();
        proof {
            assert(parts@.take(i + 1).drop_last() =~= parts@.take(i as int));
            assert(parts@.take(i + 1).last()@ == name@);
        }
        let entry = match entry_at(ck, name) {
            Ok(entry) => entry,
            Err(e) => {
                proof {
                    lemma_parts_trouble(ck@, parts@, i + 1);
                }
                return Err(e);
            },
        };
        let src: &[u8] = bytes_at(ck, entry, name);
        proof {
            checkpoint::lemma_entries_hold(ck, name@);
            lemma_elements_fit(entry@);
        }
        match push_widened(&mut out, entry.dtype, src, 0, entry.elements()) {
            Ok(()) => {},
            Err(e) => {
                proof {
                    lemma_parts_trouble(ck@, parts@, i + 1);
                }
                return Err(e);
            },
        }
        i += 1;
    }
    assert(parts@.take(i as int) =~= parts@);
    Ok(out)
}

/// A sound entry of a dtype that widens holds all its elements.
proof fn lemma_elements_fit(entry: EntryView)
    requires
        entry.sound(),
    ensures
        0 <= entry.elements(),
        widens(entry.dtype) ==> entry.elements() * elem_size(entry.dtype) == entry.bytes,
{
    let n = entry.elements();
    let bits = entry.dtype.bits();
    assert(0 <= n) by {
        lemma_volume_counts(entry.shape, entry.shape.len() as int);
    }
    if widens(entry.dtype) {
        assert(bits == 8 * elem_size(entry.dtype));
        assert(n * bits == 8 * (n * elem_size(entry.dtype))) by (nonlinear_arith)
            requires
                bits == 8 * elem_size(entry.dtype),
        ;
    }
}

proof fn lemma_volume_counts(shape: Seq<usize>, n: int)
    requires
        n <= shape.len(),
    ensures
        0 <= checkpoint::volume(shape, n),
    decreases n,
{
    if n > 0 {
        lemma_volume_counts(shape, n - 1);
        assert(0 <= checkpoint::volume(shape, n - 1) * shape[n - 1]) by (nonlinear_arith)
            requires
                0 <= checkpoint::volume(shape, n - 1),
                0 <= shape[n - 1],
        ;
    }
}

proof fn lemma_parts_trouble(ck: CheckpointView, parts: Seq<String>, n: int)
    requires
        0 <= n <= parts.len(),
        parts_trouble(ck, parts.take(n)) is Some,
    ensures
        parts_trouble(ck, parts) == parts_trouble(ck, parts.take(n)),
    decreases parts.len() - n,
{
    if n < parts.len() {
        assert(parts.take(n + 1).drop_last() =~= parts.take(n));
        lemma_parts_trouble(ck, parts, n + 1);
    } else {
        assert(parts.take(n) =~= parts);
    }
}

fn make_extended(ck: &Checkpoint<'_>, name: &String, n: usize, n_out: usize) -> (result: Result<
    Vec<u8>,
>)
    requires
        ck.wf(),
        n <= n_out,
        4 * n_out <= usize::MAX,
        ck@.entries.contains_key(name@) && widens(ck@.entries[name@].dtype) ==> n * elem_size(
            ck@.entries[name@].dtype,
        ) <= ck@.entries[name@].bytes,
    ensures
        ({
            let build = Build::Extended { name: *name, n, n_out };
            match build.trouble(ck@) {
                Some(t) => result matches Err(e) && build_reports(e, t, ck@),
                None => result matches Ok(out) && out@ == build.made(ck@),
            }
        }),
{
    let ghost want = (Build::Extended { name: *name, n, n_out }).made(ck@);
    let entry = entry_at(ck, name.as_str())?;
    let src: &[u8] = bytes_at(ck, entry, name.as_str());
    let mut out: Vec<u8> = Vec::new();
    match push_widened(&mut out, entry.dtype, src, 0, n) {
        Ok(()) => {},
        Err(e) => {
            return Err(e);
        },
    }
    push_row(&mut out, src, 0, 0, 4 * (n_out - n));
    proof {
        let head = widened_bytes(entry.dtype, src@, 0, n as int);
        assert forall|k: int| 0 <= k < out@.len() implies out@[k] == want[k] by {
            if k >= head.len() {
                assert(out@[head.len() + (k - head.len())] == 0);
            }
        }
        assert(out@ =~= want);
    }
    Ok(out)
}

fn make_alternated(
    ck: &Checkpoint<'_>,
    first: &String,
    second: &String,
    runs: &Vec<Run>,
) -> (result: Result<Vec<u8>>)
    requires
        ck.wf(),
        4 * run_total(runs@) <= usize::MAX,
        ck@.entries.contains_key(first@) && ck@.entries.contains_key(second@) ==> forall|i: int|
            0 <= i < runs@.len() ==> 4 * ((#[trigger] runs@[i]).0 + runs@[i].1) <= if i % 2 == 0 {
                ck@.entries[first@].bytes
            } else {
                ck@.entries[second@].bytes
            },
    ensures
        ({
            let build = Build::Alternated { first: *first, second: *second, runs: *runs };
            match build.trouble(ck@) {
                Some(t) => result matches Err(e) && build_reports(e, t, ck@),
                None => result matches Ok(out) && out@ == build.made(ck@),
            }
        }),
{
    let a = entry_at(ck, first.as_str())?;
    let b = entry_at(ck, second.as_str())?;
    let sa: &[u8] = bytes_at(ck, a, first.as_str());
    let sb: &[u8] = bytes_at(ck, b, second.as_str());
    let mut out: Vec<u8> = Vec::new();
    let mut i: usize = 0;
    assert(runs@.take(0).len() == 0);
    while i < runs.len()
        invariant
            i <= runs@.len(),
            forall|i: int|
                0 <= i < runs@.len() ==> 4 * ((#[trigger] runs@[i]).0 + runs@[i].1) <= if i % 2
                    == 0 {
                    sa@.len()
                } else {
                    sb@.len()
                },
            out@ == alternated_bytes(sa@, sb@, runs@.take(i as int)),
        decreases runs@.len() - i,
    {
        let (from, count) = runs[i];
        let src: &[u8] = if i % 2 == 0 {
            sa
        } else {
            sb
        };
        assert(src@.len() == src.len());
        assert(runs@[i as int] == (from, count));
        let ghost before = out@;
        push_row(&mut out, src, 4 * from, 4 * count, 4 * count);
        proof {
            assert(runs@.take(i + 1).drop_last() =~= runs@.take(i as int));
            let tail = src@.subrange(4 * from, 4 * (from + count));
            assert forall|k: int| 0 <= k < out@.len() implies #[trigger] out@[k] == (before + tail)[k] by {
                if k >= before.len() {
                    assert(out@[before.len() + (k - before.len())] == src@[4 * from + (k
                        - before.len())]);
                }
            }
            assert(out@ =~= before + tail);
        }
        i += 1;
    }
    assert(runs@.take(i as int) =~= runs@);
    Ok(out)
}

/// A tap's element lies in the weight.
proof fn lemma_tap(oc: int, ic: int, tap: int, cout: int, cin: int, taps: int)
    requires
        0 <= oc < cout,
        0 <= ic < cin,
        0 <= tap < taps,
        taps == 27 || taps == 9,
    ensures
        0 <= oc * cin,
        0 <= oc * cin + ic,
        (oc * cin + ic) * 27 + 26 < cout * cin * 27,
        0 <= tap_source(oc, ic, tap, cin, taps) < cout * cin * 27,
{
    radix::lemma_flat2(oc, ic, cout, cin);
    assert(0 <= oc * cin) by (nonlinear_arith)
        requires
            0 <= oc,
            0 <= cin,
    ;
    let n = cout * cin;
    let i = oc * cin + ic;
    assert(i * 27 + 26 < n * 27);
}

fn make_taps(
    ck: &Checkpoint<'_>,
    name: &String,
    cout: usize,
    cin: usize,
    taps: usize,
    cin_pad: usize,
    cout_pad: usize,
    k: usize,
) -> (result: Result<Vec<u8>>)
    requires
        ck.wf(),
        (Build::Taps { name: *name, cout, cin, taps, cin_pad, cout_pad, k }).fits(ck@),
    ensures
        ({
            let build = Build::Taps { name: *name, cout, cin, taps, cin_pad, cout_pad, k };
            match build.trouble(ck@) {
                Some(t) => result matches Err(e) && build_reports(e, t, ck@),
                None => result matches Ok(out) && out@ == build.made(ck@),
            }
        }),
{
    let ghost build = Build::Taps { name: *name, cout, cin, taps, cin_pad, cout_pad, k };
    let ghost want = build.made(ck@);
    let entry = entry_at(ck, name.as_str())?;
    let src: &[u8] = bytes_at(ck, entry, name.as_str());
    let mut out: Vec<u8> = Vec::new();
    let mut oc: usize = 0;
    assert(0 * k == 0) by (nonlinear_arith);
    while oc < cout_pad
        invariant
            oc <= cout_pad,
            build == (Build::Taps { name: *name, cout, cin, taps, cin_pad, cout_pad, k }),
            build.fits(ck@),
            ck@.entries.contains_key(name@),
            want == build.made(ck@),
            src@ == ck@.bytes(ck@.entries[name@]),
            src@.len() == ck@.entries[name@].bytes,
            out@.len() == oc * k * 2,
            forall|o: int| 0 <= o < out@.len() ==> #[trigger] out@[o] == want[o],
        decreases cout_pad - oc,
    {
        let mut c: usize = 0;
        while c < k
            invariant
                oc < cout_pad,
                c <= k,
                build == (Build::Taps { name: *name, cout, cin, taps, cin_pad, cout_pad, k }),
                build.fits(ck@),
                ck@.entries.contains_key(name@),
                want == build.made(ck@),
                src@ == ck@.bytes(ck@.entries[name@]),
                src@.len() == ck@.entries[name@].bytes,
                out@.len() == (oc * k + c) * 2,
                forall|o: int| 0 <= o < out@.len() ==> #[trigger] out@[o] == want[o],
            decreases k - c,
        {
            assert(src@.len() == src.len());
            let ghost before = out@;
            let mut low: u8 = 0;
            let mut high: u8 = 0;
            if oc < cout {
                let tap: usize = c / cin_pad;
                let ic: usize = c % cin_pad;
                if tap < taps && ic < cin {
                    proof {
                        lemma_tap(
                            oc as int,
                            ic as int,
                            tap as int,
                            cout as int,
                            cin as int,
                            taps as int,
                        );
                    }
                    let element: usize = (oc * cin + ic) * 27 + if taps == 27 {
                        tap
                    } else {
                        18 + tap
                    };
                    low = src[element * 2];
                    high = src[element * 2 + 1];
                }
            }
            out.push(low);
            out.push(high);
            proof {
                let at = oc * k + c;
                radix::lemma_flat2(oc as int, c as int, cout_pad as int, k as int);
                assert(before.len() == at * 2);
                assert forall|o: int| 0 <= o < out@.len() implies #[trigger] out@[o] == want[o] by {
                    if o < before.len() {
                        assert(out@[o] == before[o]);
                    } else {
                        assert(o / 2 == at);
                    }
                }
            }
            c += 1;
        }
        assert((oc + 1) * k == oc * k + k) by (nonlinear_arith);
        oc += 1;
    }
    assert(out@ =~= want);
    Ok(out)
}

impl Build {
    /// Makes the array.
    pub fn make(&self, ck: &Checkpoint<'_>) -> (result: Result<Vec<u8>>)
        requires
            ck.wf(),
            self.fits(ck@),
        ensures
            match self.trouble(ck@) {
                Some(t) => result matches Err(e) && build_reports(e, t, ck@),
                None => result matches Ok(out) && out@ == self.made(ck@),
            },
    {
        match self {
            Build::Padded { name, rows, total, row_bytes, pitch } => make_padded(
                ck,
                name,
                *rows,
                *total,
                *row_bytes,
                *pitch,
            ),
            Build::Runs { name, runs } => make_runs(ck, name, runs),
            Build::Regrouped { name, groups, in_bytes, out_bytes, rows, all } => make_regrouped(
                ck,
                name,
                *groups,
                *in_bytes,
                *out_bytes,
                *rows,
                *all,
            ),
            Build::Widened { parts } => make_widened(ck, parts),
            Build::Extended { name, n, n_out } => make_extended(ck, name, *n, *n_out),
            Build::Taps { name, cout, cin, taps, cin_pad, cout_pad, k } => make_taps(
                ck,
                name,
                *cout,
                *cin,
                *taps,
                *cin_pad,
                *cout_pad,
                *k,
            ),
            Build::Alternated { first, second, runs } => make_alternated(ck, first, second, runs),
        }
    }
}

/// How a tensor is built for the device: either rows gathered from the mapping at a pitch, or a host
/// array computed from the checkpoint.
#[derive(Debug)]
pub enum Recipe {
    Rows { rows: usize, row_bytes: usize, pitch_bytes: usize, segments: Vec<Segment> },
    Built { bytes: usize, build: Build },
}

/// What can be wrong with assembling a recipe.
pub enum RecipeTrouble {
    Segment(Trouble),
    /// The segments have this many rows, and the recipe another number.
    Rows(int, int),
    Build(BuildTrouble),
    /// The built array has this many bytes, and the recipe another number.
    Bytes(int, int),
}

/// Whether an error says what the trouble is.
pub open spec fn recipe_reports(error: Error, t: RecipeTrouble, ck: CheckpointView) -> bool {
    match t {
        RecipeTrouble::Segment(t) => reports(error, t, ck),
        RecipeTrouble::Rows(have, want) => says(error, rows_short(have as nat, want as nat)),
        RecipeTrouble::Build(t) => build_reports(error, t, ck),
        RecipeTrouble::Bytes(have, want) => says(error, bytes_differ(have as nat, want as nat)),
    }
}

/// What is said of a built array of the wrong size.
pub open spec fn bytes_differ(have: nat, want: nat) -> Seq<char> {
    "a built tensor is "@ + text::decimal(have) + " bytes, its recipe says "@ + text::decimal(want)
}

impl Recipe {
    /// What the tensor occupies once it is on the device.
    pub open spec fn size(self) -> int {
        match self {
            Recipe::Rows { rows, pitch_bytes, .. } => rows * pitch_bytes,
            Recipe::Built { bytes, .. } => bytes as int,
        }
    }

    /// Whether the recipe can be assembled from a checkpoint, well or with an error.
    pub open spec fn fits(self, ck: CheckpointView) -> bool {
        match self {
            Recipe::Rows { rows, row_bytes, pitch_bytes, segments } => {
                &&& row_bytes <= pitch_bytes
                &&& rows_in(segments@) <= rows
                &&& rows * pitch_bytes <= usize::MAX
                &&& forall|i: int|
                    0 <= i < segments@.len() ==> ((#[trigger] segments@[i]).row0
                        + segments@[i].rows) * row_bytes <= usize::MAX
            },
            Recipe::Built { build, .. } => build.fits(ck),
        }
    }

    /// What is wrong with assembling the recipe from a checkpoint.
    pub open spec fn trouble(self, ck: CheckpointView) -> Option<RecipeTrouble> {
        match self {
            Recipe::Rows { rows, row_bytes, segments, .. } => match trouble(
                ck,
                segments@,
                row_bytes as int,
            ) {
                Some(t) => Some(RecipeTrouble::Segment(t)),
                None => if rows_in(segments@) != rows {
                    Some(RecipeTrouble::Rows(rows_in(segments@), rows as int))
                } else {
                    None
                },
            },
            Recipe::Built { bytes, build } => match build.trouble(ck) {
                Some(t) => Some(RecipeTrouble::Build(t)),
                None => if build.made(ck).len() != bytes {
                    Some(RecipeTrouble::Bytes(build.made(ck).len() as int, bytes as int))
                } else {
                    None
                },
            },
        }
    }

    /// What the recipe makes of a checkpoint.
    pub open spec fn assembled(self, ck: CheckpointView) -> Seq<u8> {
        match self {
            Recipe::Rows { row_bytes, pitch_bytes, segments, .. } => gathered(
                ck,
                segments@,
                row_bytes as int,
                pitch_bytes as int,
            ),
            Recipe::Built { build, .. } => build.made(ck),
        }
    }

    /// What the tensor occupies once it is on the device.
    pub fn device_bytes(&self) -> (n: usize)
        requires
            self.size() <= usize::MAX,
        ensures
            n == self.size(),
    {
        match self {
            Recipe::Rows { rows, pitch_bytes, .. } => *rows * *pitch_bytes,
            Recipe::Built { bytes, .. } => *bytes,
        }
    }

    /// The recipe's bytes on the host: the built array, or the segments gathered at the pitch with the
    /// pad between rows left zero.
    pub fn assemble(&self, ck: &Checkpoint<'_>) -> (result: Result<Vec<u8>>)
        requires
            ck.wf(),
            self.fits(ck@),
        ensures
            match self.trouble(ck@) {
                Some(t) => result matches Err(e) && recipe_reports(e, t, ck@),
                None => result matches Ok(out) && out@ == self.assembled(ck@),
            },
    {
        match self {
            Recipe::Built { bytes, build } => {
                let out = build.make(ck)?;
                if out.len() != *bytes {
                    let mut message = String::from_str("a built tensor is ");
                    text::push_decimal(&mut message, out.len() as u64);
                    message.append(" bytes, its recipe says ");
                    text::push_decimal(&mut message, *bytes as u64);
                    return Err(Error::Layout(message));
                }
                Ok(out)
            },
            Recipe::Rows { rows, row_bytes, pitch_bytes, segments } => gather(
                ck,
                segments.as_slice(),
                *row_bytes,
                *pitch_bytes,
                *rows,
            ),
        }
    }
}

/// A recipe that assembles makes exactly the bytes it says it occupies.
pub proof fn law_assembled_bytes_fill_the_device_tensor(recipe: Recipe, ck: CheckpointView)
    requires
        recipe.trouble(ck) is None,
    ensures
        recipe.assembled(ck).len() == recipe.size(),
{
    if let Recipe::Rows { rows, pitch_bytes, .. } = recipe {
        assert(0 <= rows * pitch_bytes) by (nonlinear_arith)
            requires
                0 <= rows,
                0 <= pitch_bytes,
        ;
    }
}

// --- recipe primitives: layout only, bit for bit ----------------------------------------------

/// The pitch rows are laid out at: the one asked for, or the row width where none is.
pub open spec fn pitch_or(pitch_bytes: int, row_bytes: int) -> int {
    if pitch_bytes != 0 {
        pitch_bytes
    } else {
        row_bytes
    }
}

/// What is wrong with concatenating tensors' rows: a tensor is missing, or a row width differs from the
/// first one's.
pub enum PartTrouble {
    Missing(Seq<char>),
    Width,
}

/// What is wrong with the first part that anything is wrong with.
pub open spec fn part_trouble(ck: CheckpointView, parts: Seq<&str>) -> Option<PartTrouble>
    decreases parts.len(),
{
    if parts.len() == 0 {
        None
    } else {
        match part_trouble(ck, parts.drop_last()) {
            Some(t) => Some(t),
            None => if !ck.entries.contains_key(parts.last()@) {
                Some(PartTrouble::Missing(parts.last()@))
            } else if ck.entries[parts.last()@].row_bytes() != ck.entries[parts[0]@].row_bytes() {
                Some(PartTrouble::Width)
            } else {
                None
            },
        }
    }
}

/// How many rows the parts have together.
pub open spec fn part_rows(ck: CheckpointView, parts: Seq<&str>) -> int
    decreases parts.len(),
{
    if parts.len() == 0 {
        0
    } else {
        part_rows(ck, parts.drop_last()) + ck.entries[parts.last()@].rows()
    }
}

/// How wide the parts' rows are.
pub open spec fn part_width(ck: CheckpointView, parts: Seq<&str>) -> int {
    if parts.len() == 0 {
        0
    } else {
        ck.entries[parts[0]@].row_bytes()
    }
}

/// Every row of every part, in order.
pub open spec fn whole_parts(ck: CheckpointView, parts: Seq<&str>, segments: Seq<Segment>) -> bool {
    &&& segments.len() == parts.len()
    &&& forall|i: int|
        0 <= i < segments.len() ==> (#[trigger] segments[i]).tensor@ == parts[i]@
            && segments[i].row0 == 0 && segments[i].rows == ck.entries[parts[i]@].rows()
}

proof fn lemma_part_rows(ck: CheckpointView, parts: Seq<&str>, n: int)
    requires
        0 <= n <= parts.len(),
    ensures
        0 <= part_rows(ck, parts.take(n)) <= part_rows(ck, parts),
    decreases parts.len() - n,
{
    if n < parts.len() {
        lemma_part_rows(ck, parts, n + 1);
        assert(parts.take(n + 1).drop_last() =~= parts.take(n));
        lemma_part_rows_counts(ck, parts.take(n));
    } else {
        assert(parts.take(n) =~= parts);
        lemma_part_rows_counts(ck, parts);
    }
}

proof fn lemma_part_rows_counts(ck: CheckpointView, parts: Seq<&str>)
    ensures
        0 <= part_rows(ck, parts),
    decreases parts.len(),
{
    if parts.len() > 0 {
        lemma_part_rows_counts(ck, parts.drop_last());
    }
}

proof fn lemma_part_trouble(ck: CheckpointView, parts: Seq<&str>, n: int)
    requires
        0 <= n <= parts.len(),
        part_trouble(ck, parts.take(n)) is Some,
    ensures
        part_trouble(ck, parts) == part_trouble(ck, parts.take(n)),
    decreases parts.len() - n,
{
    if n < parts.len() {
        assert(parts.take(n + 1).drop_last() =~= parts.take(n));
        lemma_part_trouble(ck, parts, n + 1);
    } else {
        assert(parts.take(n) =~= parts);
    }
}

/// Rows that fit their tensors are no trouble.
proof fn lemma_no_trouble(ck: CheckpointView, segments: Seq<Segment>, row_bytes: int)
    requires
        forall|i: int|
            0 <= i < segments.len() ==> segment_trouble(ck, #[trigger] segments[i], row_bytes) is None,
    ensures
        trouble(ck, segments, row_bytes) is None,
    decreases segments.len(),
{
    if segments.len() > 0 {
        let rest = segments.drop_last();
        assert forall|i: int| 0 <= i < rest.len() implies segment_trouble(
            ck,
            #[trigger] rest[i],
            row_bytes,
        ) is None by {
            assert(rest[i] == segments[i]);
        }
        lemma_no_trouble(ck, rest, row_bytes);
        assert(segments.last() == segments[segments.len() - 1]);
    }
}

/// The rows of an entry are inside its bytes.
proof fn lemma_rows_inside(entry: EntryView)
    ensures
        0 <= entry.row_bytes() <= entry.bytes,
        0 <= entry.rows(),
        entry.rows() > 0 ==> entry.rows() * entry.row_bytes() <= entry.bytes,
{
    if entry.rows() > 0 {
        let (b, r) = (entry.bytes as int, entry.rows());
        assert(0 <= b / r <= b && r * (b / r) <= b) by (nonlinear_arith)
            requires
                b >= 0,
                r > 0,
        ;
    }
}

/// A run of an entry's rows is inside its bytes.
proof fn lemma_run_inside(entry: EntryView, end: int)
    requires
        0 <= end <= entry.rows(),
        entry.rows() > 0,
    ensures
        end * entry.row_bytes() <= entry.bytes,
{
    lemma_rows_inside(entry);
    let w = entry.row_bytes();
    assert(end * w <= entry.rows() * w) by (nonlinear_arith)
        requires
            0 <= end <= entry.rows(),
            0 <= w,
    ;
}

/// The rows of one or more tensors of the same row width, in order, at `pitch_bytes` (0: the row width).
pub fn rows_of(ck: &Checkpoint<'_>, parts: &[&str], pitch_bytes: usize) -> (result: Result<Recipe>)
    requires
        ck.wf(),
        part_rows(ck@, parts@) <= usize::MAX,
    ensures
        match part_trouble(ck@, parts@) {
            Some(PartTrouble::Missing(name)) => result matches Err(e) && misses(e, name, ck@),
            Some(PartTrouble::Width) => result matches Err(e) && says(
                e,
                "concatenated tensors differ in row width"@,
            ),
            None => if pitch_or(pitch_bytes as int, part_width(ck@, parts@)) < part_width(
                ck@,
                parts@,
            ) {
                result matches Err(e) && says(e, "a pitch narrower than the rows"@)
            } else {
                &&& result matches Ok(
                    Recipe::Rows { rows, row_bytes, pitch_bytes: pitch, segments },
                )
                &&& rows == part_rows(ck@, parts@)
                &&& row_bytes == part_width(ck@, parts@)
                &&& pitch == pitch_or(pitch_bytes as int, row_bytes as int)
                &&& whole_parts(ck@, parts@, segments@)
                &&& result->Ok_0.trouble(ck@) is None
                &&& result->Ok_0.size() <= usize::MAX ==> result->Ok_0.fits(ck@)
            },
        },
{
    let mut rows: usize = 0;
    let mut row_bytes: usize = 0;
    let mut segments: Vec<Segment> = Vec::new();
    let mut i: usize = 0;
    let ghost ckv = ck@;
    assert(parts@.take(0).len() == 0);
    while i < parts.len()
        invariant
            i <= parts@.len(),
            ck.wf(),
            ckv == ck@,
            part_rows(ckv, parts@) <= usize::MAX,
            part_trouble(ckv, parts@.take(i as int)) is None,
            rows == part_rows(ckv, parts@.take(i as int)),
            rows == rows_in(segments@),
            row_bytes == part_width(ckv, parts@.take(i as int)),
            whole_parts(ckv, parts@.take(i as int), segments@),
            forall|k: int|
                0 <= k < segments@.len() ==> segment_trouble(
                    ckv,
                    #[trigger] segments@[k],
                    row_bytes as int,
                ) is None && (segments@[k].row0 + segments@[k].rows) * row_bytes <= usize::MAX,
        decreases parts@.len() - i,
    {
        let name: &str = parts[i];
        proof {
            assert(parts@.take(i + 1).drop_last() =~= parts@.take(i as int));
            assert(parts@.take(i + 1).last() == parts@[i as int]);
            lemma_part_rows(ckv, parts@, i + 1);
            assert(parts@.take(i + 1)[0] == parts@[0]);
            if i > 0 {
                assert(parts@.take(i as int)[0] == parts@[0]);
            }
        }
        let entry = match entry_at(ck, name) {
            Ok(entry) => entry,
            Err(e) => {
                proof {
                    lemma_part_trouble(ckv, parts@, i + 1);
                }
                return Err(e);
            },
        };
        if i == 0 {
            row_bytes = entry.row_bytes();
        } else if entry.row_bytes() != row_bytes {
            proof {
                lemma_part_trouble(ckv, parts@, i + 1);
            }
            return layout("concatenated tensors differ in row width");
        }
        let n: usize = entry.rows();
        let ghost before = segments@;
        segments.push(Segment { tensor: String::from_str(name), row0: 0, rows: n });
        proof {
            lemma_rows_inside(entry@);
            assert(n == 0 ==> (0 + n) * row_bytes == 0) by (nonlinear_arith);
            assert(segments@.drop_last() =~= before);
            assert forall|k: int| 0 <= k < segments@.len() implies segment_trouble(
                ckv,
                #[trigger] segments@[k],
                row_bytes as int,
            ) is None && (segments@[k].row0 + segments@[k].rows) * row_bytes <= usize::MAX by {
                if k < before.len() {
                    assert(segments@[k] == before[k]);
                }
            }
            assert forall|k: int| 0 <= k < segments@.len() implies (
            #[trigger] segments@[k]).tensor@ == parts@.take(i + 1)[k]@ && segments@[k].row0 == 0
                && segments@[k].rows == ckv.entries[parts@.take(i + 1)[k]@].rows() by {
                if k < before.len() {
                    assert(segments@[k] == before[k]);
                    assert(parts@.take(i as int)[k] == parts@[k]);
                }
            }
        }
        rows = rows + n;
        i += 1;
    }
    assert(parts@.take(i as int) =~= parts@);
    let pitch: usize = if pitch_bytes != 0 {
        pitch_bytes
    } else {
        row_bytes
    };
    if pitch < row_bytes {
        return layout("a pitch narrower than the rows");
    }
    proof {
        lemma_no_trouble(ckv, segments@, row_bytes as int);
    }
    Ok(Recipe::Rows { rows, row_bytes, pitch_bytes: pitch, segments })
}

/// 16-row runs of two halves in turn: the first half's runs and the second's, from their first rows.
pub open spec fn alternate16(
    segments: Seq<Segment>,
    first: Seq<char>,
    at1: int,
    second: Seq<char>,
    at2: int,
    rows_each: int,
) -> bool {
    &&& segments.len() == 2 * (rows_each / 16)
    &&& forall|i: int|
        0 <= i < segments.len() ==> {
            let s = #[trigger] segments[i];
            &&& s.tensor@ == if i % 2 == 0 {
                first
            } else {
                second
            }
            &&& s.row0 == 16 * (i / 2) + if i % 2 == 0 {
                at1
            } else {
                at2
            }
            &&& s.rows == 16
        }
}

/// 16-row runs alternating two halves: a gate|up operand of the fused SwiGLU GEMM. Each half is
/// `rows_each` rows starting at its tensor's given first row.
pub fn interleave16(
    ck: &Checkpoint<'_>,
    first: (&str, usize),
    second: (&str, usize),
    rows_each: usize,
    pitch_bytes: usize,
) -> (result: Result<Recipe>)
    requires
        ck.wf(),
        first.1 + rows_each <= usize::MAX,
        second.1 + rows_each <= usize::MAX,
        2 * rows_each <= usize::MAX,
    ensures
        if !ck@.entries.contains_key(first.0@) {
            result matches Err(e) && misses(e, first.0@, ck@)
        } else if !ck@.entries.contains_key(second.0@) {
            result matches Err(e) && misses(e, second.0@, ck@)
        } else {
            let (a, b) = (ck@.entries[first.0@], ck@.entries[second.0@]);
            if a.row_bytes() != b.row_bytes() || rows_each % 16 != 0 || first.1 + rows_each
                > a.rows() || second.1 + rows_each > b.rows() {
                result matches Err(e) && says(e, "interleave: the halves do not fit"@)
            } else {
                &&& result matches Ok(
                    Recipe::Rows { rows, row_bytes, pitch_bytes: pitch, segments },
                )
                &&& rows == 2 * rows_each
                &&& row_bytes == a.row_bytes()
                &&& pitch == pitch_or(pitch_bytes as int, row_bytes as int)
                &&& alternate16(
                    segments@,
                    first.0@,
                    first.1 as int,
                    second.0@,
                    second.1 as int,
                    rows_each as int,
                )
                &&& result->Ok_0.trouble(ck@) is None
                &&& pitch >= row_bytes && result->Ok_0.size() <= usize::MAX
                    ==> result->Ok_0.fits(ck@)
            }
        },
{
    let a = entry_at(ck, first.0)?;
    let b = entry_at(ck, second.0)?;
    if a.row_bytes() != b.row_bytes() || rows_each % 16 != 0 || first.1 + rows_each > a.rows()
        || second.1 + rows_each > b.rows() {
        return layout("interleave: the halves do not fit");
    }
    let row_bytes: usize = a.row_bytes();
    let pitch: usize = if pitch_bytes != 0 {
        pitch_bytes
    } else {
        row_bytes
    };
    let ghost ckv = ck@;
    let mut segments: Vec<Segment> = Vec::new();
    let mut i: usize = 0;
    while i < rows_each
        invariant
            i <= rows_each,
            i % 16 == 0,
            rows_each % 16 == 0,
            ckv.entries.contains_pair(first.0@, a@),
            ckv.entries.contains_pair(second.0@, b@),
            row_bytes == a@.row_bytes(),
            row_bytes == b@.row_bytes(),
            first.1 + rows_each <= a@.rows(),
            second.1 + rows_each <= b@.rows(),
            first.1 + rows_each <= usize::MAX,
            second.1 + rows_each <= usize::MAX,
            2 * rows_each <= usize::MAX,
            rows_in(segments@) == 2 * i,
            alternate16(
                segments@,
                first.0@,
                first.1 as int,
                second.0@,
                second.1 as int,
                i as int,
            ),
            forall|k: int|
                0 <= k < segments@.len() ==> segment_trouble(
                    ckv,
                    #[trigger] segments@[k],
                    row_bytes as int,
                ) is None && (segments@[k].row0 + segments@[k].rows) * row_bytes <= usize::MAX,
        decreases rows_each - i,
    {
        let ghost before = segments@;
        segments.push(Segment { tensor: String::from_str(first.0), row0: first.1 + i, rows: 16 });
        let ghost half = segments@;
        segments.push(
            Segment { tensor: String::from_str(second.0), row0: second.1 + i, rows: 16 },
        );
        proof {
            assert(half.drop_last() =~= before);
            assert(segments@.drop_last() =~= half);
            assert(rows_in(half) == rows_in(before) + 16);
            assert(rows_in(segments@) == rows_in(half) + 16);
            lemma_run_inside(a@, first.1 + i + 16);
            lemma_run_inside(b@, second.1 + i + 16);
            assert forall|k: int| 0 <= k < segments@.len() implies segment_trouble(
                ckv,
                #[trigger] segments@[k],
                row_bytes as int,
            ) is None && (segments@[k].row0 + segments@[k].rows) * row_bytes <= usize::MAX by {
                if k < before.len() {
                    assert(segments@[k] == before[k]);
                }
            }
            assert forall|k: int| 0 <= k < segments@.len() implies ({
                let s = #[trigger] segments@[k];
                &&& s.tensor@ == if k % 2 == 0 {
                    first.0@
                } else {
                    second.0@
                }
                &&& s.row0 == 16 * (k / 2) + if k % 2 == 0 {
                    first.1
                } else {
                    second.1
                }
                &&& s.rows == 16
            }) by {
                if k < before.len() {
                    assert(segments@[k] == before[k]);
                }
            }
        }
        i += 16;
    }
    proof {
        lemma_no_trouble(ckv, segments@, row_bytes as int);
    }
    Ok(Recipe::Rows { rows: 2 * rows_each, row_bytes, pitch_bytes: pitch, segments })
}

/// A tensor's rows followed by `pad_rows` zero rows (a padded N: the vision MLP's 4304 -> 4352).
pub fn rows_padded(
    ck: &Checkpoint<'_>,
    name: &str,
    pad_rows: usize,
    pitch_bytes: usize,
) -> (result: Result<Recipe>)
    requires
        ck.wf(),
        ck@.entries.contains_key(name@) ==> (ck@.entries[name@].rows() + pad_rows) * pitch_or(
            pitch_bytes as int,
            ck@.entries[name@].row_bytes(),
        ) <= usize::MAX && ck@.entries[name@].rows() + pad_rows <= usize::MAX,
    ensures
        if !ck@.entries.contains_key(name@) {
            result matches Err(e) && misses(e, name@, ck@)
        } else {
            let entry = ck@.entries[name@];
            let at = pitch_or(pitch_bytes as int, entry.row_bytes());
            if at < entry.row_bytes() {
                result matches Err(e) && says(e, "a pitch narrower than the rows"@)
            } else {
                &&& result matches Ok(
                    Recipe::Built {
                        bytes,
                        build: Build::Padded { name: of, rows, total, row_bytes, pitch },
                    },
                )
                &&& bytes == (entry.rows() + pad_rows) * at
                &&& of@ == name@
                &&& rows == entry.rows()
                &&& total == entry.rows() + pad_rows
                &&& row_bytes == entry.row_bytes()
                &&& pitch == at
                &&& result->Ok_0.fits(ck@)
                &&& result->Ok_0.trouble(ck@) is None
            }
        },
{
    let entry = entry_at(ck, name)?;
    let row_bytes: usize = entry.row_bytes();
    let pitch: usize = if pitch_bytes != 0 {
        pitch_bytes
    } else {
        row_bytes
    };
    if pitch < row_bytes {
        return layout("a pitch narrower than the rows");
    }
    let rows: usize = entry.rows();
    let total: usize = rows + pad_rows;
    proof {
        lemma_rows_inside(entry@);
        assert(rows == 0 ==> rows * row_bytes == 0) by (nonlinear_arith);
        assert(0 <= total * pitch) by (nonlinear_arith)
            requires
                total >= 0,
                pitch >= 0,
        ;
    }
    Ok(
        Recipe::Built {
            bytes: total * pitch,
            build: Build::Padded { name: String::from_str(name), rows, total, row_bytes, pitch },
        },
    )
}

/// The first run that ends past `end`.
pub open spec fn run_past(runs: Seq<Run>, end: int) -> bool {
    exists|i: int| 0 <= i < runs.len() && (#[trigger] runs[i]).0 + runs[i].1 > end
}

/// The runs as segments of one tensor.
pub open spec fn run_segments(segments: Seq<Segment>, name: Seq<char>, runs: Seq<Run>) -> bool {
    &&& segments.len() == runs.len()
    &&& forall|i: int|
        0 <= i < segments.len() ==> (#[trigger] segments[i]).tensor@ == name && segments[i].row0
            == runs[i].0 && segments[i].rows == runs[i].1
}

/// A tensor's rows in an explicit order (the VAE attention's head-interleaved rows as `[Q|K|V]`).
pub fn rows_permuted(
    ck: &Checkpoint<'_>,
    name: &str,
    runs: &[Run],
    pitch_bytes: usize,
) -> (result: Result<Recipe>)
    requires
        ck.wf(),
        run_total(runs@) <= usize::MAX,
        forall|i: int| 0 <= i < runs@.len() ==> (#[trigger] runs@[i]).0 + runs@[i].1 <= usize::MAX,
    ensures
        if !ck@.entries.contains_key(name@) {
            result matches Err(e) && misses(e, name@, ck@)
        } else {
            let entry = ck@.entries[name@];
            if run_past(runs@, entry.rows()) {
                result matches Err(e) && says(e, "a row run past "@ + name@)
            } else {
                &&& result matches Ok(
                    Recipe::Rows { rows, row_bytes, pitch_bytes: pitch, segments },
                )
                &&& rows == run_total(runs@)
                &&& row_bytes == entry.row_bytes()
                &&& pitch == pitch_or(pitch_bytes as int, row_bytes as int)
                &&& run_segments(segments@, name@, runs@)
                &&& result->Ok_0.trouble(ck@) is None
                &&& pitch >= row_bytes && result->Ok_0.size() <= usize::MAX
                    ==> result->Ok_0.fits(ck@)
            }
        },
{
    let entry = entry_at(ck, name)?;
    let row_bytes: usize = entry.row_bytes();
    let pitch: usize = if pitch_bytes != 0 {
        pitch_bytes
    } else {
        row_bytes
    };
    let ghost ckv = ck@;
    let mut segments: Vec<Segment> = Vec::new();
    let mut rows: usize = 0;
    let mut i: usize = 0;
    assert(runs@.take(0).len() == 0);
    while i < runs.len()
        invariant
            i <= runs@.len(),
            ckv == ck@,
            ckv.entries.contains_pair(name@, entry@),
            row_bytes == entry@.row_bytes(),
            run_total(runs@) <= usize::MAX,
            forall|i: int|
                0 <= i < runs@.len() ==> (#[trigger] runs@[i]).0 + runs@[i].1 <= usize::MAX,
            forall|k: int| 0 <= k < i ==> (#[trigger] runs@[k]).0 + runs@[k].1 <= entry@.rows(),
            rows == run_total(runs@.take(i as int)),
            rows == rows_in(segments@),
            run_segments(segments@, name@, runs@.take(i as int)),
            forall|k: int|
                0 <= k < segments@.len() ==> segment_trouble(
                    ckv,
                    #[trigger] segments@[k],
                    row_bytes as int,
                ) is None && (segments@[k].row0 + segments@[k].rows) * row_bytes <= usize::MAX,
        decreases runs@.len() - i,
    {
        let (first, count) = runs[i];
        proof {
            assert(runs@[i as int] == (first, count));
            assert(runs@.take(i + 1).drop_last() =~= runs@.take(i as int));
            lemma_run_total(runs@, i + 1);
        }
        if first + count > entry.rows() {
            assert(runs@[i as int].0 + runs@[i as int].1 > entry@.rows());
            let mut message = String::from_str("a row run past ");
            message.append(name);
            return Err(Error::Layout(message));
        }
        let ghost before = segments@;
        segments.push(Segment { tensor: String::from_str(name), row0: first, rows: count });
        proof {
            assert(segments@.drop_last() =~= before);
            lemma_rows_inside(entry@);
            if entry@.rows() > 0 {
                lemma_run_inside(entry@, first + count);
            } else {
                assert((first + count) * row_bytes == 0) by (nonlinear_arith)
                    requires
                        first + count == 0,
                ;
            }
            assert forall|k: int| 0 <= k < segments@.len() implies segment_trouble(
                ckv,
                #[trigger] segments@[k],
                row_bytes as int,
            ) is None && (segments@[k].row0 + segments@[k].rows) * row_bytes <= usize::MAX by {
                if k < before.len() {
                    assert(segments@[k] == before[k]);
                }
            }
            assert forall|k: int| 0 <= k < segments@.len() implies (
            #[trigger] segments@[k]).tensor@ == name@ && segments@[k].row0 == runs@.take(
                i + 1,
            )[k].0 && segments@[k].rows == runs@.take(i + 1)[k].1 by {
                if k < before.len() {
                    assert(segments@[k] == before[k]);
                    assert(runs@.take(i as int)[k] == runs@[k]);
                }
            }
        }
        rows = rows + count;
        i += 1;
    }
    assert(runs@.take(i as int) =~= runs@);
    proof {
        lemma_no_trouble(ckv, segments@, row_bytes as int);
    }
    Ok(Recipe::Rows { rows, row_bytes, pitch_bytes: pitch, segments })
}

/// How many bytes the runs' elements take, widened.
proof fn lemma_runs_bytes_len(dtype: Dtype, src: Seq<u8>, runs: Seq<Run>)
    ensures
        runs_bytes(dtype, src, runs).len() == 4 * run_total(runs),
    decreases runs.len(),
{
    if runs.len() > 0 {
        lemma_runs_bytes_len(dtype, src, runs.drop_last());
    }
}

/// A float vector's elements in an explicit order, widened (a bias permuted like its rows).
pub fn widen_runs(ck: &Checkpoint<'_>, name: &str, runs: &[Run]) -> (result: Result<Recipe>)
    requires
        ck.wf(),
        4 * run_total(runs@) <= usize::MAX,
        forall|i: int| 0 <= i < runs@.len() ==> (#[trigger] runs@[i]).0 + runs@[i].1 <= usize::MAX,
    ensures
        if !ck@.entries.contains_key(name@) {
            result matches Err(e) && misses(e, name@, ck@)
        } else {
            let entry = ck@.entries[name@];
            if !widens(entry.dtype) {
                result matches Err(e) && says(e, not_for("widen_runs"@, entry.dtype))
            } else if run_past(runs@, entry.elements()) {
                result matches Err(e) && says(e, "an element run past "@ + name@)
            } else {
                &&& result matches Ok(
                    Recipe::Built { bytes, build: Build::Runs { name: of, runs: kept } },
                )
                &&& bytes == 4 * run_total(runs@)
                &&& of@ == name@
                &&& kept@ == runs@
                &&& result->Ok_0.fits(ck@)
                &&& result->Ok_0.trouble(ck@) is None
            }
        },
{
    let entry = entry_at(ck, name)?;
    let eb: usize = widenable(entry, "widen_runs")?;
    proof {
        checkpoint::lemma_entries_hold(ck, name@);
        lemma_elements_fit(entry@);
    }
    let ghost size = elem_size(entry.dtype);
    let all: usize = entry.elements();
    let mut kept: Vec<Run> = Vec::new();
    let mut n: usize = 0;
    let mut i: usize = 0;
    assert(runs@.take(0).len() == 0);
    while i < runs.len()
        invariant
            i <= runs@.len(),
            ck@.entries.contains_pair(name@, entry@),
            widens(entry.dtype),
            all == entry@.elements(),
            4 * run_total(runs@) <= usize::MAX,
            forall|i: int|
                0 <= i < runs@.len() ==> (#[trigger] runs@[i]).0 + runs@[i].1 <= usize::MAX,
            forall|k: int| 0 <= k < i ==> (#[trigger] runs@[k]).0 + runs@[k].1 <= all,
            n == run_total(runs@.take(i as int)),
            kept@ == runs@.take(i as int),
        decreases runs@.len() - i,
    {
        let (first, count) = runs[i];
        proof {
            assert(runs@[i as int] == (first, count));
            assert(runs@.take(i + 1).drop_last() =~= runs@.take(i as int));
            lemma_run_total(runs@, i + 1);
        }
        if first + count > all {
            assert(runs@[i as int].0 + runs@[i as int].1 > all);
            let mut message = String::from_str("an element run past ");
            message.append(name);
            return Err(Error::Layout(message));
        }
        kept.push((first, count));
        assert(kept@ =~= runs@.take(i + 1));
        n = n + count;
        i += 1;
    }
    assert(runs@.take(i as int) =~= runs@);
    proof {
        let src = ck@.bytes(entry@);
        lemma_runs_bytes_len(entry.dtype, src, runs@);
        assert forall|k: int| 0 <= k < runs@.len() implies ((#[trigger] runs@[k]).0 + runs@[k].1)
            * elem_size(entry.dtype) <= entry.bytes by {
            assert((runs@[k].0 + runs@[k].1) * size <= all * size) by (nonlinear_arith)
                requires
                    runs@[k].0 + runs@[k].1 <= all,
                    size >= 0,
            ;
        }
    }
    Ok(
        Recipe::Built {
            bytes: n * 4,
            build: Build::Runs { name: String::from_str(name), runs: kept },
        },
    )
}

/// Runs of `size` taken from two halves in turn: the first half's and the second's, from their starts.
pub open spec fn alternate_runs(runs: Seq<Run>, first: int, second: int, count: int, size: int) -> bool {
    &&& runs.len() == 2 * ((count + size - 1) / size)
    &&& forall|i: int|
        0 <= i < runs.len() ==> (#[trigger] runs[i]).1 == size && runs[i].0 == size * (i / 2) + if i
            % 2 == 0 {
            first
        } else {
            second
        }
}

/// Runs of `size` alternating two halves of one tensor, `first` first.
pub fn interleaved_runs(first: usize, second: usize, count: usize, size: usize) -> (runs: Vec<Run>)
    requires
        size > 0,
        first + count <= usize::MAX,
        second + count <= usize::MAX,
    ensures
        alternate_runs(runs@, first as int, second as int, count as int, size as int),
{
    let mut runs: Vec<Run> = Vec::new();
    let mut i: usize = 0;
    let mut more = count > 0;
    let ghost mut steps: int = 0;
    assert(size * 0 == 0) by (nonlinear_arith);
    while more
        invariant
            size > 0,
            first + count <= usize::MAX,
            second + count <= usize::MAX,
            0 <= steps,
            i <= count,
            more ==> i == size * steps && i < count,
            !more ==> count <= size * steps < count + size,
            runs@.len() == 2 * steps,
            forall|k: int|
                0 <= k < runs@.len() ==> (#[trigger] runs@[k]).1 == size && runs@[k].0 == size * (k
                    / 2) + if k % 2 == 0 {
                    first
                } else {
                    second
                },
        decreases
                count - i + if more {
                    1int
                } else {
                    0
                },
    {
        let ghost before = runs@;
        runs.push((first + i, size));
        runs.push((second + i, size));
        proof {
            assert(size * (steps + 1) == size * steps + size) by (nonlinear_arith);
            assert forall|k: int| 0 <= k < runs@.len() implies (#[trigger] runs@[k]).1 == size
                && runs@[k].0 == size * (k / 2) + if k % 2 == 0 {
                first
            } else {
                second
            } by {
                if k < before.len() {
                    assert(runs@[k] == before[k]);
                } else {
                    assert(k / 2 == steps);
                }
            }
            steps = steps + 1;
        }
        if count - i > size {
            i = i + size;
        } else {
            more = false;
        }
    }
    assert(steps == (count + size - 1) / size as int) by (nonlinear_arith)
        requires
            size > 0,
            0 <= steps,
            size * steps >= count,
            size * steps < count + size,
    ;
    runs
}

/// Each row's `groups` groups of `in_elems` zero-extended to `out_elems` (the attention output
/// projection's head dim 72 -> 128, or a plain K pad with one group). `out_rows` zero-pads the rows.
pub fn regroup(
    ck: &Checkpoint<'_>,
    name: &str,
    groups: usize,
    in_elems: usize,
    out_elems: usize,
    out_rows: usize,
) -> (result: Result<Recipe>)
    requires
        ck.wf(),
        ck@.entries.contains_key(name@) ==> {
            let entry = ck@.entries[name@];
            let size = elem_size(entry.dtype);
            &&& in_elems * size <= usize::MAX
            &&& groups * (in_elems * size) <= usize::MAX
            &&& out_elems * size <= usize::MAX
            &&& groups * (out_elems * size) <= usize::MAX
            &&& (if out_rows != 0 {
                out_rows as int
            } else {
                entry.rows()
            }) * (groups * (out_elems * size)) <= usize::MAX
        },
    ensures
        if !ck@.entries.contains_key(name@) {
            result matches Err(e) && misses(e, name@, ck@)
        } else {
            let entry = ck@.entries[name@];
            let size = elem_size(entry.dtype);
            let full = if out_rows != 0 {
                out_rows as int
            } else {
                entry.rows()
            };
            if size == 0 {
                result matches Err(e) && says(e, not_for("regroup"@, entry.dtype))
            } else if entry.row_bytes() != groups * (in_elems * size) || out_elems < in_elems {
                result matches Err(e) && says(e, "regroup: the row does not hold the groups"@)
            } else if full < entry.rows() {
                result matches Err(e) && says(e, "regroup: fewer rows than the tensor"@)
            } else {
                &&& result matches Ok(
                    Recipe::Built {
                        bytes,
                        build: Build::Regrouped {
                            name: of,
                            groups: g,
                            in_bytes,
                            out_bytes,
                            rows,
                            all,
                        },
                    },
                )
                &&& bytes == full * (groups * (out_elems * size))
                &&& of@ == name@
                &&& g == groups
                &&& in_bytes == in_elems * size
                &&& out_bytes == out_elems * size
                &&& rows == entry.rows()
                &&& all == full
                &&& result->Ok_0.fits(ck@)
                &&& result->Ok_0.trouble(ck@) is None
            }
        },
{
    let entry = entry_at(ck, name)?;
    let eb: usize = elem_bytes(entry.dtype);
    if eb == 0 {
        let mut message = String::from_str("regroup");
        message.append(" on ");
        message.append(entry.dtype.name());
        return Err(Error::Layout(message));
    }
    let in_bytes: usize = in_elems * eb;
    if entry.row_bytes() != groups * in_bytes || out_elems < in_elems {
        return layout("regroup: the row does not hold the groups");
    }
    let rows: usize = entry.rows();
    if out_rows != 0 && out_rows < rows {
        return layout("regroup: fewer rows than the tensor");
    }
    let all: usize = if out_rows != 0 {
        out_rows
    } else {
        rows
    };
    let out_bytes: usize = out_elems * eb;
    proof {
        lemma_rows_inside(entry@);
        let row_out = groups * out_bytes;
        assert(in_bytes <= out_bytes) by (nonlinear_arith)
            requires
                in_bytes == in_elems * eb,
                out_bytes == out_elems * eb,
                in_elems <= out_elems,
                eb >= 0,
        ;
        assert(rows == 0 ==> rows * (groups * in_bytes) == 0) by (nonlinear_arith);
        assert(0 <= all * row_out && 0 <= row_out) by (nonlinear_arith)
            requires
                all >= 0,
                row_out == groups * out_bytes,
                groups >= 0,
                out_bytes >= 0,
        ;
    }
    Ok(
        Recipe::Built {
            bytes: all * (groups * out_bytes),
            build: Build::Regrouped {
                name: String::from_str(name),
                groups,
                in_bytes,
                out_bytes,
                rows,
                all,
            },
        },
    )
}

/// What is wrong with widening whole tensors: one is missing, or its dtype does not widen.
pub enum WidenTrouble {
    Missing(Seq<char>),
    Dtype(Dtype),
}

/// What is wrong with the first part that anything is wrong with.
pub open spec fn wide_trouble(ck: CheckpointView, parts: Seq<&str>) -> Option<WidenTrouble>
    decreases parts.len(),
{
    if parts.len() == 0 {
        None
    } else {
        match wide_trouble(ck, parts.drop_last()) {
            Some(t) => Some(t),
            None => if !ck.entries.contains_key(parts.last()@) {
                Some(WidenTrouble::Missing(parts.last()@))
            } else if !widens(ck.entries[parts.last()@].dtype) {
                Some(WidenTrouble::Dtype(ck.entries[parts.last()@].dtype))
            } else {
                None
            },
        }
    }
}

/// How many elements the parts have together.
pub open spec fn part_elements(ck: CheckpointView, parts: Seq<&str>) -> int
    decreases parts.len(),
{
    if parts.len() == 0 {
        0
    } else {
        part_elements(ck, parts.drop_last()) + ck.entries[parts.last()@].elements()
    }
}

/// The same names, kept.
pub open spec fn keeps(kept: Seq<String>, parts: Seq<&str>) -> bool {
    &&& kept.len() == parts.len()
    &&& forall|i: int| 0 <= i < parts.len() ==> (#[trigger] kept[i])@ == parts[i]@
}

proof fn lemma_wide_trouble(ck: CheckpointView, parts: Seq<&str>, n: int)
    requires
        0 <= n <= parts.len(),
        wide_trouble(ck, parts.take(n)) is Some,
    ensures
        wide_trouble(ck, parts) == wide_trouble(ck, parts.take(n)),
    decreases parts.len() - n,
{
    if n < parts.len() {
        assert(parts.take(n + 1).drop_last() =~= parts.take(n));
        lemma_wide_trouble(ck, parts, n + 1);
    } else {
        assert(parts.take(n) =~= parts);
    }
}

proof fn lemma_part_elements(ck: CheckpointView, parts: Seq<&str>, n: int)
    requires
        0 <= n <= parts.len(),
    ensures
        0 <= part_elements(ck, parts.take(n)) <= part_elements(ck, parts),
    decreases parts.len() - n,
{
    if n < parts.len() {
        lemma_part_elements(ck, parts, n + 1);
        assert(parts.take(n + 1).drop_last() =~= parts.take(n));
        lemma_part_elements_counts(ck, parts.take(n));
        let shape = ck.entries[parts[n]@].shape;
        lemma_volume_counts(shape, shape.len() as int);
    } else {
        assert(parts.take(n) =~= parts);
        lemma_part_elements_counts(ck, parts);
    }
}

proof fn lemma_part_elements_counts(ck: CheckpointView, parts: Seq<&str>)
    ensures
        0 <= part_elements(ck, parts),
    decreases parts.len(),
{
    if parts.len() > 0 {
        lemma_part_elements_counts(ck, parts.drop_last());
        let shape = ck.entries[parts.last()@].shape;
        lemma_volume_counts(shape, shape.len() as int);
    }
}

/// Parts that widen make four bytes for each element, without trouble.
proof fn lemma_parts_widen(ck: CheckpointView, parts: Seq<&str>, kept: Seq<String>)
    requires
        keeps(kept, parts),
        wide_trouble(ck, parts) is None,
    ensures
        parts_trouble(ck, kept) is None,
        parts_bytes(ck, kept).len() == 4 * part_elements(ck, parts),
    decreases parts.len(),
{
    if parts.len() > 0 {
        let (p, k) = (parts.drop_last(), kept.drop_last());
        assert forall|i: int| 0 <= i < p.len() implies (#[trigger] k[i])@ == p[i]@ by {
            assert(kept[i]@ == parts[i]@);
        }
        lemma_parts_widen(ck, p, k);
        assert(kept[kept.len() - 1]@ == parts[parts.len() - 1]@);
        let shape = ck.entries[parts.last()@].shape;
        lemma_volume_counts(shape, shape.len() as int);
    }
}

/// Float tensors widened, element for element (singles verbatim; the 16-bit forms exactly).
pub fn widen_f32(ck: &Checkpoint<'_>, parts: &[&str]) -> (result: Result<Recipe>)
    requires
        ck.wf(),
        4 * part_elements(ck@, parts@) <= usize::MAX,
    ensures
        match wide_trouble(ck@, parts@) {
            Some(WidenTrouble::Missing(name)) => result matches Err(e) && misses(e, name, ck@),
            Some(WidenTrouble::Dtype(dtype)) => result matches Err(e) && says(
                e,
                not_for("widen_f32"@, dtype),
            ),
            None => {
                &&& result matches Ok(
                    Recipe::Built { bytes, build: Build::Widened { parts: kept } },
                )
                &&& bytes == 4 * part_elements(ck@, parts@)
                &&& keeps(kept@, parts@)
                &&& result->Ok_0.fits(ck@)
                &&& result->Ok_0.trouble(ck@) is None
            },
        },
{
    let ghost ckv = ck@;
    let mut kept: Vec<String> = Vec::new();
    let mut n: usize = 0;
    let mut i: usize = 0;
    assert(parts@.take(0).len() == 0);
    while i < parts.len()
        invariant
            i <= parts@.len(),
            ck.wf(),
            ckv == ck@,
            4 * part_elements(ckv, parts@) <= usize::MAX,
            wide_trouble(ckv, parts@.take(i as int)) is None,
            n == part_elements(ckv, parts@.take(i as int)),
            keeps(kept@, parts@.take(i as int)),
        decreases parts@.len() - i,
    {
        let name: &str = parts[i];
        proof {
            assert(parts@.take(i + 1).drop_last() =~= parts@.take(i as int));
            assert(parts@.take(i + 1).last() == parts@[i as int]);
            lemma_part_elements(ckv, parts@, i + 1);
        }
        let entry = match entry_at(ck, name) {
            Ok(entry) => entry,
            Err(e) => {
                proof {
                    lemma_wide_trouble(ckv, parts@, i + 1);
                }
                return Err(e);
            },
        };
        match widenable(entry, "widen_f32") {
            Ok(_) => {},
            Err(e) => {
                proof {
                    lemma_wide_trouble(ckv, parts@, i + 1);
                }
                return Err(e);
            },
        }
        proof {
            checkpoint::lemma_entries_hold(ck, name@);
        }
        n = n + entry.elements();
        let ghost before = kept@;
        kept.push(String::from_str(name));
        proof {
            assert forall|k: int| 0 <= k < i + 1 implies (#[trigger] kept@[k])@ == parts@.take(
                i + 1,
            )[k]@ by {
                if k < i {
                    assert(kept@[k] == before[k]);
                    assert(parts@.take(i as int)[k] == parts@[k]);
                }
            }
        }
        i += 1;
    }
    assert(parts@.take(i as int) =~= parts@);
    proof {
        lemma_parts_widen(ckv, parts@, kept@);
    }
    Ok(Recipe::Built { bytes: n * 4, build: Build::Widened { parts: kept } })
}

/// A float vector widened, zero-extended to `n_out` elements (a bias beside a zero-padded weight).
pub fn widen_padded(ck: &Checkpoint<'_>, name: &str, n_out: usize) -> (result: Result<Recipe>)
    requires
        ck.wf(),
        4 * n_out <= usize::MAX,
    ensures
        if !ck@.entries.contains_key(name@) {
            result matches Err(e) && misses(e, name@, ck@)
        } else {
            let entry = ck@.entries[name@];
            if !widens(entry.dtype) {
                result matches Err(e) && says(e, not_for("widen_padded"@, entry.dtype))
            } else if n_out < entry.elements() {
                result matches Err(e) && says(e, "widen_padded: shorter than the tensor"@)
            } else {
                &&& result matches Ok(
                    Recipe::Built { bytes, build: Build::Extended { name: of, n, n_out: to } },
                )
                &&& bytes == 4 * n_out
                &&& of@ == name@
                &&& n == entry.elements()
                &&& to == n_out
                &&& result->Ok_0.fits(ck@)
                &&& result->Ok_0.trouble(ck@) is None
            }
        },
{
    let entry = entry_at(ck, name)?;
    let eb: usize = widenable(entry, "widen_padded")?;
    proof {
        checkpoint::lemma_entries_hold(ck, name@);
        lemma_elements_fit(entry@);
    }
    let n: usize = entry.elements();
    if n_out < n {
        return layout("widen_padded: shorter than the tensor");
    }
    Ok(
        Recipe::Built {
            bytes: n_out * 4,
            build: Build::Extended { name: String::from_str(name), n, n_out },
        },
    )
}

/// The least multiple of `m` that is not below `n`.
pub open spec fn up_to(n: int, m: int) -> int {
    (n + m - 1) / m * m
}

/// It is a multiple, it is not below, and it is less than one multiple above.
pub proof fn law_up_is_the_least_multiple(n: int, m: int)
    requires
        0 <= n,
        0 < m,
    ensures
        up_to(n, m) % m == 0,
        n <= up_to(n, m) < n + m,
        n == 0 ==> up_to(n, m) == 0,
{
    let q = (n + m - 1) / m;
    assert((q * m) % m == 0 && n <= q * m < n + m && (n == 0 ==> q == 0)) by (nonlinear_arith)
        requires
            q == (n + m - 1) / m,
            0 <= n,
            0 < m,
    ;
    assert(n == 0 ==> 0 * m == 0) by (nonlinear_arith);
}

/// Rounds `n` up to a multiple of `m`.
pub fn up(n: usize, m: usize) -> (r: usize)
    requires
        m > 0,
        up_to(n as int, m as int) <= usize::MAX,
    ensures
        r == up_to(n as int, m as int),
{
    assert(n as int % m as int != 0 ==> n as int / m as int + 1 <= n) by (nonlinear_arith)
        requires
            m > 0,
            n >= 0,
    ;
    let q: usize = n / m + if n % m != 0 {
        1usize
    } else {
        0
    };
    assert(q == (n + m - 1) / m as int && 0 <= q * m) by (nonlinear_arith)
        requires
            m > 0,
            q == n as int / m as int + if n as int % m as int != 0 {
                1int
            } else {
                0
            },
    ;
    q * m
}

/// A causal 3-D conv weight `[Cout][Cin][3][3][3]` as the implicit GEMM's operand rows
/// `[Cout_pad][taps * Cin_pad]`, taps in `(t, y, x)` order with the channel innermost, zero-padded.
///
/// `taps` is 27 for the clip form and 9 for the image form, which keeps only the last temporal tap.
pub fn conv3d_taps(
    ck: &Checkpoint<'_>,
    name: &str,
    cout: usize,
    cin: usize,
    taps: usize,
) -> (result: Result<Recipe>)
    requires
        ck.wf(),
        taps == 27 || taps == 9 ==> {
            &&& up_to(cin as int, 8) <= usize::MAX
            &&& up_to(cout as int, 64) <= usize::MAX
            &&& taps * up_to(cin as int, 8) <= usize::MAX
            &&& up_to(taps * up_to(cin as int, 8), 32) <= usize::MAX
            &&& up_to(cout as int, 64) * up_to(taps * up_to(cin as int, 8), 32) * 2 <= usize::MAX
        },
    ensures
        if !ck@.entries.contains_key(name@) {
            result matches Err(e) && misses(e, name@, ck@)
        } else {
            let entry = ck@.entries[name@];
            let (cin_to, cout_to) = (up_to(cin as int, 8), up_to(cout as int, 64));
            let width = up_to(taps * cin_to, 32);
            if entry.dtype != Dtype::F16 {
                result matches Err(e) && says(e, not_for("conv3d_taps"@, entry.dtype))
            } else if taps != 27 && taps != 9 {
                result matches Err(e) && says(e, "conv3d_taps: taps must be 27 or 9"@)
            } else {
                &&& result matches Ok(
                    Recipe::Built {
                        bytes,
                        build: Build::Taps {
                            name: of,
                            cout: co,
                            cin: ci,
                            taps: t,
                            cin_pad,
                            cout_pad,
                            k,
                        },
                    },
                )
                &&& bytes == cout_to * width * 2
                &&& of@ == name@
                &&& (co, ci, t) == (cout, cin, taps)
                &&& (cin_pad as int, cout_pad as int, k as int) == (cin_to, cout_to, width)
                &&& cout * cin * 27 * 2 <= entry.bytes ==> result->Ok_0.fits(ck@)
                &&& result->Ok_0.trouble(ck@) is None
            }
        },
{
    let entry = entry_at(ck, name)?;
    if entry.dtype != Dtype::F16 {
        let mut message = String::from_str("conv3d_taps");
        message.append(" on ");
        message.append(entry.dtype.name());
        return Err(Error::Layout(message));
    }
    if taps != 27 && taps != 9 {
        return layout("conv3d_taps: taps must be 27 or 9");
    }
    proof {
        law_up_is_the_least_multiple(cin as int, 8);
        law_up_is_the_least_multiple(cout as int, 64);
        law_up_is_the_least_multiple(taps * up_to(cin as int, 8), 32);
    }
    let cin_pad: usize = up(cin, 8);
    let cout_pad: usize = up(cout, 64);
    let k: usize = up(taps * cin_pad, 32);
    assert(0 <= cout_pad * k) by (nonlinear_arith)
        requires
            cout_pad >= 0,
            k >= 0,
    ;
    Ok(
        Recipe::Built {
            bytes: cout_pad * k * 2,
            build: Build::Taps {
                name: String::from_str(name),
                cout,
                cin,
                taps,
                cin_pad,
                cout_pad,
                k,
            },
        },
    )
}

/// The single-precision `[N, 1]` per-row scales of concatenated int8 operands, in the rows' order.
pub fn scales_rows(ck: &Checkpoint<'_>, parts: &[&str]) -> (result: Result<Recipe>)
    requires
        ck.wf(),
        4 * part_elements(ck@, parts@) <= usize::MAX,
    ensures
        match wide_trouble(ck@, parts@) {
            Some(WidenTrouble::Missing(name)) => result matches Err(e) && misses(e, name, ck@),
            Some(WidenTrouble::Dtype(dtype)) => result matches Err(e) && says(
                e,
                not_for("widen_f32"@, dtype),
            ),
            None => {
                &&& result matches Ok(
                    Recipe::Built { bytes, build: Build::Widened { parts: kept } },
                )
                &&& bytes == 4 * part_elements(ck@, parts@)
                &&& keeps(kept@, parts@)
                &&& result->Ok_0.fits(ck@)
                &&& result->Ok_0.trouble(ck@) is None
            },
        },
{
    widen_f32(ck, parts)
}

/// Whether an entry is one of per-row scales: singles, one to a row.
pub open spec fn is_scales(entry: EntryView) -> bool {
    entry.dtype == Dtype::F32 && entry.row_bytes() == 4
}

proof fn lemma_alternated_len(a: Seq<u8>, b: Seq<u8>, runs: Seq<Run>)
    requires
        forall|i: int|
            0 <= i < runs.len() ==> 4 * ((#[trigger] runs[i]).0 + runs[i].1) <= if i % 2 == 0 {
                a.len()
            } else {
                b.len()
            },
    ensures
        alternated_bytes(a, b, runs).len() == 4 * run_total(runs),
    decreases runs.len(),
{
    if runs.len() > 0 {
        let rest = runs.drop_last();
        assert forall|i: int| 0 <= i < rest.len() implies 4 * ((#[trigger] rest[i]).0 + rest[i].1)
            <= if i % 2 == 0 {
            a.len()
        } else {
            b.len()
        } by {
            assert(rest[i] == runs[i]);
        }
        lemma_alternated_len(a, b, rest);
        assert(runs.last() == runs[runs.len() - 1]);
    }
}

proof fn lemma_alternate_total(runs: Seq<Run>, n: int, size: int)
    requires
        runs.len() == 2 * n,
        forall|i: int| 0 <= i < runs.len() ==> (#[trigger] runs[i]).1 == size,
    ensures
        run_total(runs) == 2 * n * size,
    decreases n,
{
    if n > 0 {
        let one = runs.drop_last();
        let two = one.drop_last();
        assert(one.last() == runs[runs.len() - 2]);
        assert(runs.last() == runs[runs.len() - 1]);
        assert forall|i: int| 0 <= i < two.len() implies (#[trigger] two[i]).1 == size by {
            assert(two[i] == runs[i]);
        }
        lemma_alternate_total(two, n - 1, size);
        assert(run_total(one) == run_total(two) + size);
        assert(2 * n * size == 2 * (n - 1) * size + 2 * size) by (nonlinear_arith);
    } else {
        assert(2 * n * size == 0) by (nonlinear_arith)
            requires
                n == 0,
        ;
    }
}

/// The per-row scales of an interleaved gate|up operand, in the interleaved rows' order.
///
/// The halves are not measured here: where a half has as many rows as the operand takes of it, and that
/// is a whole number of runs, the recipe assembles.
pub fn scales_interleave16(
    ck: &Checkpoint<'_>,
    first: (&str, usize),
    second: (&str, usize),
    rows_each: usize,
) -> (result: Result<Recipe>)
    requires
        ck.wf(),
        first.1 + rows_each <= usize::MAX,
        second.1 + rows_each <= usize::MAX,
        8 * (rows_each + 16) <= usize::MAX,
    ensures
        if !ck@.entries.contains_key(first.0@) {
            result matches Err(e) && misses(e, first.0@, ck@)
        } else if !is_scales(ck@.entries[first.0@]) {
            result matches Err(e) && says(e, "scales must be f32 [N, 1]"@)
        } else if !ck@.entries.contains_key(second.0@) {
            result matches Err(e) && misses(e, second.0@, ck@)
        } else if !is_scales(ck@.entries[second.0@]) {
            result matches Err(e) && says(e, "scales must be f32 [N, 1]"@)
        } else {
            &&& result matches Ok(
                Recipe::Built { bytes, build: Build::Alternated { first: a, second: b, runs } },
            )
            &&& bytes == 8 * rows_each
            &&& a@ == first.0@
            &&& b@ == second.0@
            &&& alternate_runs(
                runs@,
                first.1 as int,
                second.1 as int,
                rows_each as int,
                16,
            )
            &&& first.1 + rows_each <= ck@.entries[first.0@].rows() && second.1 + rows_each
                <= ck@.entries[second.0@].rows() && rows_each % 16 == 0 ==> result->Ok_0.fits(ck@)
                && result->Ok_0.trouble(ck@) is None
        },
{
    let a = entry_at(ck, first.0)?;
    if a.dtype != Dtype::F32 || a.row_bytes() != 4 {
        return layout("scales must be f32 [N, 1]");
    }
    let b = entry_at(ck, second.0)?;
    if b.dtype != Dtype::F32 || b.row_bytes() != 4 {
        return layout("scales must be f32 [N, 1]");
    }
    let runs = interleaved_runs(first.1, second.1, rows_each, 16);
    proof {
        let n = (rows_each + 15) / 16;
        lemma_alternate_total(runs@, n, 16);
        lemma_rows_inside(a@);
        lemma_rows_inside(b@);
        if first.1 + rows_each <= a@.rows() && second.1 + rows_each <= b@.rows() && rows_each % 16
            == 0 {
            checkpoint::lemma_entries_hold(ck, first.0@);
            checkpoint::lemma_entries_hold(ck, second.0@);
            assert forall|i: int| 0 <= i < runs@.len() implies 4 * ((#[trigger] runs@[i]).0
                + runs@[i].1) <= if i % 2 == 0 {
                a.bytes
            } else {
                b.bytes
            } by {}
            lemma_alternated_len(ck@.bytes(a@), ck@.bytes(b@), runs@);
        }
    }
    Ok(
        Recipe::Built {
            bytes: 2 * rows_each * 4,
            build: Build::Alternated {
                first: String::from_str(first.0),
                second: String::from_str(second.0),
                runs,
            },
        },
    )
}

/// The scales of an interleaved operand follow its rows: run for run they take the same half from the
/// same row, as many.
pub proof fn law_interleaved_scales_follow_the_rows(
    segments: Seq<Segment>,
    runs: Seq<Run>,
    first: Seq<char>,
    at1: int,
    second: Seq<char>,
    at2: int,
    rows_each: int,
)
    requires
        rows_each >= 0,
        rows_each % 16 == 0,
        alternate16(segments, first, at1, second, at2, rows_each),
        alternate_runs(runs, at1, at2, rows_each, 16),
    ensures
        runs.len() == segments.len(),
        forall|i: int|
            0 <= i < runs.len() ==> (#[trigger] segments[i]).row0 == runs[i].0 && segments[i].rows
                == runs[i].1 && segments[i].tensor@ == if i % 2 == 0 {
                first
            } else {
                second
            },
{
    assert forall|i: int| 0 <= i < runs.len() implies (#[trigger] segments[i]).row0 == runs[i].0
        && segments[i].rows == runs[i].1 by {
        assert(runs[i].1 == 16);
    }
}

/// Runs that alternate two halves of whole runs tile both: each half's runs begin where it does, each begins where the
/// one before it ends, and the last ends where the half does.
pub proof fn law_interleaved_runs_tile_both_halves(
    runs: Seq<Run>,
    first: int,
    second: int,
    count: int,
    size: int,
)
    requires
        size > 0,
        count >= 0,
        count % size == 0,
        alternate_runs(runs, first, second, count, size),
    ensures
        runs.len() == 2 * (count / size),
        runs.len() > 0 ==> runs[0].0 == first && runs[1].0 == second,
        forall|i: int|
            0 <= i < runs.len() - 2 ==> (#[trigger] runs[i + 2]).0 == runs[i].0 + runs[i].1,
        runs.len() > 0 ==> runs[runs.len() - 2].0 + size == first + count && runs[runs.len() - 1].0 + size
            == second + count,
{
    let n = count / size;
    assert(count == size * n) by (nonlinear_arith)
        requires
            size > 0,
            count % size == 0,
            n == count / size,
    ;
    assert((count + size - 1) / size == n && n >= 0) by (nonlinear_arith)
        requires
            size > 0,
            count >= 0,
            count == size * n,
    ;
    assert(size * 0 == 0) by (nonlinear_arith);
    if runs.len() > 0 {
        assert(runs[0].0 == size * (0int / 2) + first);
        assert(runs[1].0 == size * (1int / 2) + second);
        assert(runs[2 * n - 2].0 == size * ((2 * n - 2) / 2) + first);
        assert(runs[2 * n - 1].0 == size * ((2 * n - 1) / 2) + second);
        assert(size * (n - 1) + size == size * n) by (nonlinear_arith);
    }
    assert forall|i: int| 0 <= i < runs.len() - 2 implies (#[trigger] runs[i + 2]).0 == runs[i].0
        + runs[i].1 by {
        assert((i + 2) / 2 == i / 2 + 1);
        assert(size * (i / 2 + 1) == size * (i / 2) + size) by (nonlinear_arith);
    }
}

// What the recipes make, element by element.

/// A convolution's weight lands tap by tap: the two bytes of the row of an output channel, at the column of a tap and an
/// input channel, are those of that very element of the weight `[Cout][Cin][3][3][3]`. The image form has the taps of the
/// last plane alone.
pub proof fn law_a_tap_is_its_own_element(
    build: Build,
    ck: CheckpointView,
    oc: int,
    ic: int,
    t: int,
    y: int,
    x: int,
    b: int,
)
    requires
        build is Taps,
        build.fits(ck),
        0 <= oc < build->Taps_cout,
        0 <= ic < build->Taps_cin,
        0 <= t < 3,
        0 <= y < 3,
        0 <= x < 3,
        0 <= b < 2,
        build->taps == 9 ==> t == 2,
    ensures
        ({
            let (cin, pad, k) = (build->Taps_cin as int, build->cin_pad as int, build->k as int);
            let tap = if build->taps == 27 {
                9 * t + 3 * y + x
            } else {
                3 * y + x
            };
            let at = 2 * (oc * k + (tap * pad + ic)) + b;
            let element = (((oc * cin + ic) * 3 + t) * 3 + y) * 3 + x;
            &&& 0 <= at < build.made(ck).len()
            &&& build.made(ck)[at] == ck.bytes(ck.entries[build->Taps_name@])[2 * element + b]
        }),
{
    let (cin, pad, k) = (build->Taps_cin as int, build->cin_pad as int, build->k as int);
    let (cout_pad, taps) = (build->cout_pad as int, build->taps as int);
    let tap = if build->taps == 27 {
        9 * t + 3 * y + x
    } else {
        3 * y + x
    };
    let at = 2 * (oc * k + (tap * pad + ic)) + b;
    radix::lemma_flat2(tap, ic, taps, pad);
    radix::lemma_flat2(oc, tap * pad + ic, cout_pad, k);
    assert(at / 2 == oc * k + (tap * pad + ic) && at % 2 == b);
    assert(0 <= at < cout_pad * k * 2);
}

/// What a convolution's rows hold beside its taps is zero: past its channels, past its taps, and past its rows.
pub proof fn law_what_is_no_tap_is_zero(build: Build, ck: CheckpointView, row: int, tap: int, ic: int, b: int)
    requires
        build is Taps,
        build.fits(ck),
        0 <= row < build->cout_pad,
        0 <= tap,
        0 <= ic < build->cin_pad,
        tap * build->cin_pad + ic < build->k,
        0 <= b < 2,
        row >= build->Taps_cout || tap >= build->taps || ic >= build->Taps_cin,
    ensures
        ({
            let at = 2 * (row * build->k + (tap * build->cin_pad + ic)) + b;
            0 <= at < build.made(ck).len() && build.made(ck)[at] == 0
        }),
{
    let (pad, k) = (build->cin_pad as int, build->k as int);
    assert(0 <= tap * pad) by (nonlinear_arith)
        requires
            0 <= tap,
            0 <= pad,
    ;
    radix::lemma_flat2(tap, ic, tap + 1, pad);
    radix::lemma_flat2(row, tap * pad + ic, build->cout_pad as int, k);
    let at = 2 * (row * k + (tap * pad + ic)) + b;
    assert(at / 2 == row * k + (tap * pad + ic));
}

/// Padded rows keep their bytes, each at the pitch, and what is added is zero.
pub proof fn law_padded_rows_keep_their_bytes(build: Build, ck: CheckpointView, row: int, b: int)
    requires
        build is Padded,
        build.fits(ck),
        0 <= row < build->total,
        0 <= b < build->Padded_pitch,
    ensures
        ({
            let at = row * build->Padded_pitch + b;
            &&& 0 <= at < build.made(ck).len()
            &&& build.made(ck)[at] == if row < build->Padded_rows && b < build->Padded_row_bytes {
                ck.bytes(ck.entries[build->Padded_name@])[row * build->Padded_row_bytes + b]
            } else {
                0
            }
        }),
{
    radix::lemma_flat2(row, b, build->total as int, build->Padded_pitch as int);
}

/// Regrouped rows keep their groups, each zero-extended at its own place.
pub proof fn law_regrouped_rows_keep_their_groups(build: Build, ck: CheckpointView, row: int, g: int, b: int)
    requires
        build is Regrouped,
        build.fits(ck),
        0 <= row < build->all,
        0 <= g < build->groups,
        0 <= b < build->out_bytes,
    ensures
        ({
            let (groups, take, give) = (build->groups as int, build->in_bytes as int, build->out_bytes as int);
            let at = (row * groups + g) * give + b;
            &&& 0 <= at < build.made(ck).len()
            &&& build.made(ck)[at] == if row < build->Regrouped_rows && b < take {
                ck.bytes(ck.entries[build->Regrouped_name@])[(row * groups + g) * take + b]
            } else {
                0
            }
        }),
{
    let (groups, take, give) = (build->groups as int, build->in_bytes as int, build->out_bytes as int);
    let c = g * give + b;
    radix::lemma_flat2(g, b, groups, give);
    radix::lemma_flat2(row, c, build->all as int, groups * give);
    assert((row * groups + g) * give + b == row * (groups * give) + c && (row * groups + g) * take + b == row * (
    groups * take) + (g * take + b)) by (nonlinear_arith)
        requires
            c == g * give + b,
    ;
}

/// A row of a segment lands behind the rows of the segments before it, byte for byte, and the pad behind it is zero.
pub proof fn law_a_segments_rows_land_in_order(
    ck: CheckpointView,
    segments: Seq<Segment>,
    row_bytes: int,
    pitch: int,
    s: int,
    row: int,
    b: int,
)
    requires
        0 <= row_bytes <= pitch,
        0 <= s < segments.len(),
        0 <= row < segments[s].rows,
        0 <= b < pitch,
    ensures
        ({
            let at = (rows_in(segments.take(s)) + row) * pitch + b;
            &&& 0 <= at < gathered(ck, segments, row_bytes, pitch).len()
            &&& gathered(ck, segments, row_bytes, pitch)[at] == if b < row_bytes {
                ck.bytes(ck.entries[segments[s].tensor@])[(segments[s].row0 + row) * row_bytes + b]
            } else {
                0
            }
        }),
{
    let r = rows_in(segments.take(s)) + row;
    lemma_rows_in_counts(segments.take(s));
    lemma_rows_in(segments, s + 1);
    assert(segments.take(s + 1).drop_last() =~= segments.take(s));
    assert(segments.take(s + 1).last() == segments[s]);
    radix::lemma_flat2(r, b, rows_in(segments), pitch);
    lemma_source(segments, s, r);
}

/// Segments one behind the other have the rows of both.
pub proof fn law_rows_add_up(segments: Seq<Segment>, s: Segment)
    ensures
        rows_in(segments.push(s)) == rows_in(segments) + s.rows,
        rows_in(Seq::<Segment>::empty()) == 0,
{
    assert(segments.push(s).drop_last() =~= segments);
}

/// An element of a run lands behind the elements of the runs before it, as the bytes of a single.
pub proof fn law_a_runs_elements_land_in_order(
    dtype: Dtype,
    src: Seq<u8>,
    runs: Seq<Run>,
    s: int,
    j: int,
    b: int,
)
    requires
        0 <= s < runs.len(),
        0 <= j < runs[s].1,
        0 <= b < 4,
    ensures
        runs_bytes(dtype, src, runs).len() == 4 * run_total(runs),
        run_total(runs.take(s)) + j < run_total(runs),
        runs_bytes(dtype, src, runs)[4 * (run_total(runs.take(s)) + j) + b] == bytes::le32(
            widened(dtype, src, runs[s].0 + j),
        )[b],
    decreases runs.len(),
{
    let rest = runs.drop_last();
    lemma_runs_bytes_len(dtype, src, rest);
    lemma_run_total_counts(runs.take(s));
    let at = 4 * (run_total(runs.take(s)) + j) + b;
    if s == runs.len() - 1 {
        assert(runs.take(s) =~= rest);
        let k = at - runs_bytes(dtype, src, rest).len();
        assert(k / 4 == j && k % 4 == b);
    } else {
        assert(rest.take(s) =~= runs.take(s));
        assert(rest[s] == runs[s]);
        law_a_runs_elements_land_in_order(dtype, src, rest, s, j, b);
    }
}

/// How many elements tensors have together.
pub open spec fn elements_in(ck: CheckpointView, parts: Seq<String>) -> int
    decreases parts.len(),
{
    if parts.len() == 0 {
        0
    } else {
        elements_in(ck, parts.drop_last()) + ck.entries[parts.last()@].elements()
    }
}

proof fn lemma_parts_bytes_len(ck: CheckpointView, parts: Seq<String>)
    ensures
        parts_bytes(ck, parts).len() == 4 * elements_in(ck, parts),
        0 <= elements_in(ck, parts),
    decreases parts.len(),
{
    if parts.len() > 0 {
        lemma_parts_bytes_len(ck, parts.drop_last());
        let shape = ck.entries[parts.last()@].shape;
        lemma_volume_counts(shape, shape.len() as int);
    }
}

/// An element of a tensor lands behind the elements of the tensors before it, as the bytes of a single.
pub proof fn law_widened_tensors_follow_each_other(ck: CheckpointView, parts: Seq<String>, s: int, j: int, b: int)
    requires
        0 <= s < parts.len(),
        0 <= j < ck.entries[parts[s]@].elements(),
        0 <= b < 4,
    ensures
        ({
            let entry = ck.entries[parts[s]@];
            let at = 4 * (elements_in(ck, parts.take(s)) + j) + b;
            &&& 0 <= at < parts_bytes(ck, parts).len()
            &&& parts_bytes(ck, parts)[at] == bytes::le32(widened(entry.dtype, ck.bytes(entry), j))[b]
        }),
    decreases parts.len(),
{
    let rest = parts.drop_last();
    lemma_parts_bytes_len(ck, rest);
    lemma_parts_bytes_len(ck, parts.take(s));
    let at = 4 * (elements_in(ck, parts.take(s)) + j) + b;
    if s == parts.len() - 1 {
        assert(parts.take(s) =~= rest);
        let k = at - parts_bytes(ck, rest).len();
        assert(k / 4 == j && k % 4 == b);
    } else {
        assert(rest.take(s) =~= parts.take(s));
        assert(rest[s] == parts[s]);
        law_widened_tensors_follow_each_other(ck, rest, s, j, b);
    }
}

/// Singles widen to themselves: their bytes pass through.
pub proof fn law_singles_pass_through(src: Seq<u8>, first: int, count: int, k: int)
    requires
        0 <= first,
        0 <= k < 4 * count,
        4 * (first + count) <= src.len(),
    ensures
        widened_bytes(Dtype::F32, src, first, count)[k] == src[4 * first + k],
{
    let at = (first + k / 4) * 4;
    let four = src.subrange(at, at + 4);
    bytes::law_le32_round_trips(0, four);
    assert(four[k % 4] == src[4 * first + k]);
}

/// Rows of two halves alternate sixteen by sixteen: row `j` of each stands among the thirty-two of its turn, those of the
/// first half before those of the second.
pub proof fn law_halves_alternate_by_sixteen(
    ck: CheckpointView,
    segments: Seq<Segment>,
    first: Seq<char>,
    at1: int,
    second: Seq<char>,
    at2: int,
    rows_each: int,
    row_bytes: int,
    pitch: int,
    j: int,
    b: int,
)
    requires
        0 <= rows_each,
        rows_each % 16 == 0,
        alternate16(segments, first, at1, second, at2, rows_each),
        0 <= j < rows_each,
        0 <= b < row_bytes <= pitch,
    ensures
        ({
            let all = gathered(ck, segments, row_bytes, pitch);
            let turn = 32 * (j / 16) + j % 16;
            &&& all.len() == 2 * rows_each * pitch
            &&& all[turn * pitch + b] == ck.bytes(ck.entries[first])[(at1 + j) * row_bytes + b]
            &&& all[(turn + 16) * pitch + b] == ck.bytes(ck.entries[second])[(at2 + j) * row_bytes + b]
        }),
{
    let q = j / 16;
    lemma_sixteens(segments, 2 * q);
    lemma_sixteens(segments, 2 * q + 1);
    lemma_sixteens(segments, segments.len() as int);
    assert(segments.take(segments.len() as int) =~= segments);
    assert(segments[2 * q].rows == 16 && segments[2 * q + 1].rows == 16);
    law_a_segments_rows_land_in_order(ck, segments, row_bytes, pitch, 2 * q, j % 16, b);
    law_a_segments_rows_land_in_order(ck, segments, row_bytes, pitch, 2 * q + 1, j % 16, b);
    assert(0 <= 2 * rows_each * pitch) by (nonlinear_arith)
        requires
            0 <= rows_each,
            0 <= pitch,
    ;
}

proof fn lemma_sixteens(segments: Seq<Segment>, n: int)
    requires
        0 <= n <= segments.len(),
        forall|i: int| 0 <= i < segments.len() ==> (#[trigger] segments[i]).rows == 16,
    ensures
        rows_in(segments.take(n)) == 16 * n,
    decreases n,
{
    if n > 0 {
        lemma_sixteens(segments, n - 1);
        assert(segments.take(n).drop_last() =~= segments.take(n - 1));
        assert(segments.take(n).last() == segments[n - 1]);
    }
}

/// The scales of two halves alternate as their rows do.
pub proof fn law_scales_alternate_by_sixteen(
    a: Seq<u8>,
    b: Seq<u8>,
    runs: Seq<Run>,
    at1: int,
    at2: int,
    rows_each: int,
    j: int,
    k: int,
)
    requires
        0 <= rows_each,
        rows_each % 16 == 0,
        0 <= at1,
        0 <= at2,
        4 * (at1 + rows_each) <= a.len(),
        4 * (at2 + rows_each) <= b.len(),
        alternate_runs(runs, at1, at2, rows_each, 16),
        0 <= j < rows_each,
        0 <= k < 4,
    ensures
        ({
            let all = alternated_bytes(a, b, runs);
            let turn = 32 * (j / 16) + j % 16;
            &&& all.len() == 8 * rows_each
            &&& all[4 * turn + k] == a[4 * (at1 + j) + k]
            &&& all[4 * (turn + 16) + k] == b[4 * (at2 + j) + k]
        }),
{
    let q = j / 16;
    lemma_alternated_by_sixteen(a, b, runs, runs.len() as int);
    assert(runs.take(runs.len() as int) =~= runs);
    lemma_alternated_from(a, b, runs, 2 * q, 4 * (j % 16) + k);
    lemma_alternated_from(a, b, runs, 2 * q + 1, 4 * (j % 16) + k);
}

proof fn lemma_alternated_by_sixteen(a: Seq<u8>, b: Seq<u8>, runs: Seq<Run>, n: int)
    requires
        0 <= n <= runs.len(),
        forall|i: int|
            0 <= i < runs.len() ==> (#[trigger] runs[i]).1 == 16 && 4 * (runs[i].0 + 16) <= if i % 2 == 0 {
                a.len()
            } else {
                b.len()
            },
    ensures
        alternated_bytes(a, b, runs.take(n)).len() == 64 * n,
    decreases n,
{
    if n > 0 {
        lemma_alternated_by_sixteen(a, b, runs, n - 1);
        assert(runs.take(n).drop_last() =~= runs.take(n - 1));
        assert(runs.take(n).last() == runs[n - 1]);
    }
}

proof fn lemma_alternated_from(a: Seq<u8>, b: Seq<u8>, runs: Seq<Run>, s: int, k: int)
    requires
        0 <= s < runs.len(),
        0 <= k < 64,
        forall|i: int|
            0 <= i < runs.len() ==> (#[trigger] runs[i]).1 == 16 && 4 * (runs[i].0 + 16) <= if i % 2 == 0 {
                a.len()
            } else {
                b.len()
            },
    ensures
        alternated_bytes(a, b, runs)[64 * s + k] == if s % 2 == 0 {
            a[4 * runs[s].0 + k]
        } else {
            b[4 * runs[s].0 + k]
        },
    decreases runs.len(),
{
    let rest = runs.drop_last();
    lemma_alternated_by_sixteen(a, b, runs, runs.len() - 1);
    assert(runs.take(runs.len() - 1) =~= rest);
    assert(runs.last() == runs[runs.len() - 1]);
    if s < runs.len() - 1 {
        assert forall|i: int|
            0 <= i < rest.len() implies (#[trigger] rest[i]).1 == 16 && 4 * (rest[i].0 + 16) <= if i % 2 == 0 {
            a.len()
        } else {
            b.len()
        } by {
            assert(rest[i] == runs[i]);
        }
        lemma_alternated_from(a, b, rest, s, k);
        assert(rest[s] == runs[s]);
    }
}

/// Bytes staged per transfer. Large enough that the per-call overhead disappears, small enough that a
/// 27 GB tensor never needs a host copy of itself.
pub const CHUNK: usize = 0x100_0000;

/// How many rows of a pitch are staged per transfer: as many as fit a chunk, at least one.
pub open spec fn staged_rows(pitch: int) -> int {
    let fit = CHUNK as int / if pitch > 1 {
        pitch
    } else {
        1
    };
    if fit > 1 {
        fit
    } else {
        1
    }
}

/// One transfer to the device: these bytes, at this offset of the tensor.
pub struct Upload<'a> {
    pub offset: usize,
    pub bytes: Staged<'a>,
}

/// Where a transfer's bytes are: in the mapping itself, or staged on the host.
pub enum Staged<'a> {
    Mapped(&'a [u8]),
    Host(Vec<u8>),
}

impl<'a> Staged<'a> {
    /// The bytes, wherever they are.
    pub open spec fn held(&self) -> Seq<u8> {
        match self {
            Staged::Mapped(bytes) => bytes@,
            Staged::Host(bytes) => bytes@,
        }
    }
}

/// How many bytes of a recipe's tensor one transfer takes, but for the last.
pub open spec fn step_of(recipe: Recipe) -> int {
    match recipe {
        Recipe::Built { bytes, .. } => bytes as int,
        Recipe::Rows { row_bytes, pitch_bytes, segments, .. } => if segments@.len() == 1
            && pitch_bytes == row_bytes {
            CHUNK as int
        } else {
            staged_rows(pitch_bytes as int) * pitch_bytes
        },
    }
}

/// The bytes of a tensor that the transfer `i` carries, where each carries `step` of them.
pub open spec fn transfer(bytes: Seq<u8>, step: int, i: int) -> Seq<u8> {
    bytes.subrange(
        i * step,
        if (i + 1) * step < bytes.len() {
            (i + 1) * step
        } else {
            bytes.len() as int
        },
    )
}

/// The transfers carry the whole tensor: one after the other they are its bytes.
pub proof fn law_transfers_carry_the_tensor(bytes: Seq<u8>, step: int, k: int)
    requires
        step > 0,
        0 <= k < bytes.len(),
    ensures
        (k / step) * step <= k < (k / step) * step + step,
        (k / step) * step < bytes.len(),
        transfer(bytes, step, k / step)[k % step] == bytes[k],
{
    let i = k / step;
    assert(k == i * step + k % step && 0 <= k % step < step && (i + 1) * step == i * step + step
        && 0 <= i * step) by (nonlinear_arith)
        requires
            step > 0,
            0 <= k,
            i == k / step,
    ;
}

/// Stages the rows `from` up to `to` of a recipe's segments at the pitch.
fn stage(
    ck: &Checkpoint<'_>,
    segments: &[Segment],
    row_bytes: usize,
    pitch: usize,
    from: usize,
    to: usize,
) -> (out: Vec<u8>)
    requires
        ck.wf(),
        row_bytes <= pitch,
        from <= to <= rows_in(segments@) <= usize::MAX,
        to * pitch <= usize::MAX,
        trouble(ck@, segments@, row_bytes as int) is None,
        forall|i: int|
            0 <= i < segments@.len() ==> ((#[trigger] segments@[i]).row0 + segments@[i].rows)
                * row_bytes <= usize::MAX,
    ensures
        out@ == gathered(ck@, segments@, row_bytes as int, pitch as int).subrange(
            from * pitch,
            to * pitch,
        ),
{
    let ghost all = gathered(ck@, segments@, row_bytes as int, pitch as int);
    let ghost ckv = ck@;
    let mut out: Vec<u8> = Vec::new();
    let mut s: usize = 0;
    let mut base: usize = 0;
    let mut row: usize = from;
    assert(segments@.take(0).len() == 0);
    proof {
        assert(from * pitch <= to * pitch && to * pitch <= rows_in(segments@) * pitch && 0 <= from
            * pitch) by (nonlinear_arith)
            requires
                from <= to <= rows_in(segments@),
                pitch >= 0,
        ;
        assert(all.len() == rows_in(segments@) * pitch);
    }
    while s < segments.len() && row < to
        invariant
            s <= segments@.len(),
            ck.wf(),
            ckv == ck@,
            all == gathered(ckv, segments@, row_bytes as int, pitch as int),
            row_bytes <= pitch,
            from <= row <= to <= rows_in(segments@),
            to * pitch <= usize::MAX,
            trouble(ckv, segments@, row_bytes as int) is None,
            forall|i: int|
                0 <= i < segments@.len() ==> ((#[trigger] segments@[i]).row0 + segments@[i].rows)
                    * row_bytes <= usize::MAX,
            base == rows_in(segments@.take(s as int)),
            row < to ==> base <= row,
            rows_in(segments@) <= usize::MAX,
            out@.len() == (row - from) * pitch,
            forall|k: int|
                0 <= k < out@.len() ==> #[trigger] out@[k] == all[from * pitch + k],
        decreases segments@.len() - s,
    {
        let segment = &segments[s];
        proof {
            assert(segments@.take(s + 1).drop_last() =~= segments@.take(s as int));
            lemma_rows_in(segments@, s + 1);
            lemma_segment_fits(ckv, segments@, row_bytes as int, s as int);
        }
        if row < to && row >= base && row - base < segment.rows {
            let entry = match entry_at(ck, segment.tensor.as_str()) {
                Ok(entry) => entry,
                Err(_) => {
                    return out;
                },
            };
            let src: &[u8] = bytes_at(ck, entry, segment.tensor.as_str());
            while row < to && row - base < segment.rows
                invariant
                    s < segments@.len(),
                    *segment == segments@[s as int],
                    all == gathered(ckv, segments@, row_bytes as int, pitch as int),
                    ckv.entries.contains_pair(segment.tensor@, entry@),
                    src@ == ckv.bytes(entry@),
                    src@.len() == entry.bytes,
                    segment_trouble(ckv, *segment, row_bytes as int) is None,
                    (segment.row0 + segment.rows) * row_bytes <= usize::MAX,
                    row_bytes <= pitch,
                    base == rows_in(segments@.take(s as int)),
                    base <= row,
                    row - base <= segment.rows,
                    from <= row <= to <= rows_in(segments@),
                    to * pitch <= usize::MAX,
                    out@.len() == (row - from) * pitch,
                    forall|k: int|
                        0 <= k < out@.len() ==> #[trigger] out@[k] == all[from * pitch + k],
                decreases to - row,
            {
                let ghost i = row - base;
                proof {
                    lemma_staged_row(segment.row0 as int, i, segment.rows as int, row_bytes as int);
                }
                let at: usize = if row_bytes == 0 {
                    0
                } else {
                    (segment.row0 + (row - base)) * row_bytes
                };
                let ghost before = out@;
                push_row(&mut out, src, at, row_bytes, pitch);
                proof {
                    lemma_source(segments@, s as int, row as int);
                    assert((row + 1 - from) * pitch == (row - from) * pitch + pitch)
                        by (nonlinear_arith);
                    assert(from * pitch + (row - from) * pitch == row * pitch) by (nonlinear_arith);
                    assert((row + 1) * pitch == row * pitch + pitch) by (nonlinear_arith);
                    assert((row + 1) * pitch <= rows_in(segments@) * pitch) by (nonlinear_arith)
                        requires
                            row + 1 <= rows_in(segments@),
                            pitch >= 0,
                    ;
                    assert forall|k: int| 0 <= k < out@.len() implies #[trigger] out@[k] == all[from
                        * pitch + k] by {
                        if k < before.len() {
                            assert(out@[k] == before[k]);
                        } else {
                            let b = k - before.len();
                            radix::lemma_flat2(row as int, b, row + 1, pitch as int);
                            assert(out@[before.len() + b] == out@[k]);
                        }
                    }
                }
                row += 1;
            }
        }
        base = base + segment.rows;
        s += 1;
    }
    proof {
        if row < to {
            assert(segments@.take(s as int) =~= segments@);
        }
        assert(from * pitch + (to - from) * pitch == to * pitch) by (nonlinear_arith);
        assert(out@ =~= all.subrange(from * pitch, to * pitch));
    }
    out
}

proof fn lemma_staged_row(row0: int, i: int, rows: int, row_bytes: int)
    requires
        0 <= row0,
        0 <= i < rows,
        0 <= row_bytes,
    ensures
        (row0 + i) * row_bytes + row_bytes <= (row0 + rows) * row_bytes,
        0 <= (row0 + i) * row_bytes,
        row_bytes > 0 ==> row0 + i <= (row0 + i) * row_bytes,
        row_bytes == 0 ==> (row0 + i) * row_bytes == 0 && (row0 + rows) * row_bytes == 0,
{
    assert((row0 + i) * row_bytes + row_bytes <= (row0 + rows) * row_bytes) by (nonlinear_arith)
        requires
            i + 1 <= rows,
            0 <= row_bytes,
    ;
    assert(0 <= (row0 + i) * row_bytes) by (nonlinear_arith)
        requires
            0 <= row0 + i,
            0 <= row_bytes,
    ;
    assert(row_bytes > 0 ==> row0 + i <= (row0 + i) * row_bytes) by (nonlinear_arith)
        requires
            0 <= row0 + i,
    ;
    assert(row_bytes == 0 ==> (row0 + i) * row_bytes == 0 && (row0 + rows) * row_bytes == 0)
        by (nonlinear_arith);
}

/// Whether a recipe's rows are one straight run of the mapping at their own pitch.
pub open spec fn is_straight(recipe: Recipe) -> bool {
    recipe matches Recipe::Rows { row_bytes, pitch_bytes, segments, .. } && segments@.len() == 1
        && pitch_bytes == row_bytes
}

/// What is wrong with filling a device tensor by a recipe. A straight run is not counted against the
/// recipe's rows.
pub open spec fn fill_trouble(recipe: Recipe, ck: CheckpointView) -> Option<RecipeTrouble> {
    match recipe.trouble(ck) {
        Some(RecipeTrouble::Rows(..)) if is_straight(recipe) => None,
        other => other,
    }
}

/// Where a tensor is: already on the device under this handle, or yet to be put there, in an allocation
/// of this many bytes.
#[derive(Debug, PartialEq, Eq, Structural)]
pub enum Placed {
    Resident(u64),
    Absent(usize),
}

/// One checkpoint, the recipe table a plan built over it, and whatever has reached the device.
pub struct Weights<'a> {
    file: Checkpoint<'a>,
    recipes: Named<Recipe>,
    /// Uploaded on first use and kept for the session.
    uploaded: Named<u64>,
}

/// What weights are.
pub struct WeightsView {
    pub file: CheckpointView,
    pub recipes: Map<Seq<char>, Recipe>,
    pub uploaded: Map<Seq<char>, u64>,
}

impl<'a> View for Weights<'a> {
    type V = WeightsView;

    closed spec fn view(&self) -> WeightsView {
        WeightsView {
            file: self.file@,
            recipes: self.recipes@,
            uploaded: self.uploaded@,
        }
    }
}

/// What is said of a tensor that is not as large as its caller takes it to be.
pub open spec fn size_differs(name: Seq<char>, have: nat, want: nat) -> Seq<char> {
    "tensor "@ + name + " is "@ + text::decimal(have) + " bytes on the device, expected "@
        + text::decimal(want)
}

/// What is said of a table that does not have as many bytes as its caller reads.
pub open spec fn table_differs(name: Seq<char>, have: nat, want: nat) -> Seq<char> {
    "tensor "@ + name + " is "@ + text::decimal(have) + " bytes, expected "@ + text::decimal(want)
}

/// What is said of a tensor that does not have the shape a kernel reads it with.
pub open spec fn shape_differs(name: Seq<char>, rows: nat, row_bytes: nat, pitch: nat) -> Seq<char> {
    "tensor "@ + name + " is not "@ + text::decimal(rows) + " rows of "@ + text::decimal(row_bytes)
        + " bytes at pitch "@ + text::decimal(pitch)
}

/// Whether a recipe lays out this many rows of this width at this pitch.
pub open spec fn has_shape(recipe: Recipe, rows: int, row_bytes: int, pitch: int) -> bool {
    recipe matches Recipe::Rows { rows: r, row_bytes: rb, pitch_bytes: pb, .. } && r == rows && rb
        == row_bytes && pb == pitch
}

impl<'a> Weights<'a> {
    pub closed spec fn wf(&self) -> bool {
        &&& self.file.wf()
        &&& self.recipes.wf()
        &&& self.uploaded.wf()
    }

    /// A checkpoint with the recipe table a plan made of it. The plan validates every source tensor's
    /// dtype and shape, so a checkpoint that does not match fails here rather than mid-generation.
    pub fn open(file: Checkpoint<'a>, planned: Result<Named<Recipe>>) -> (result: Result<Self>)
        requires
            file.wf(),
            planned matches Ok(table) ==> table.wf(),
        ensures
            match planned {
                Ok(table) => {
                    &&& result matches Ok(w)
                    &&& w.wf()
                    &&& w@ == (WeightsView {
                        file: file@,
                        recipes: table@,
                        uploaded: Map::empty(),
                    })
                },
                Err(e) => result == Err::<Self, Error>(e),
            },
    {
        match planned {
            Ok(recipes) => Ok(Weights { file, recipes, uploaded: Named::new() }),
            Err(e) => Err(e),
        }
    }

    pub fn file(&self) -> (file: &Checkpoint<'a>)
        requires
            self.wf(),
        ensures
            file@ == self@.file,
            file.wf(),
    {
        &self.file
    }

    pub fn has(&self, name: &str) -> (has: bool)
        requires
            self.wf(),
        ensures
            has == self@.recipes.contains_key(name@),
    {
        self.recipes.get(name).is_some()
    }

    /// The recipe table, by name, in the order the names sort in.
    pub fn names(&self) -> (names: &Named<Recipe>)
        requires
            self.wf(),
        ensures
            names.wf(),
            names@ == self@.recipes,
    {
        &self.recipes
    }

    pub fn recipe(&self, name: &str) -> (result: Result<&Recipe>)
        requires
            self.wf(),
        ensures
            match result {
                Ok(recipe) => self@.recipes.contains_pair(name@, *recipe),
                Err(Error::NoRecipe(of)) => !self@.recipes.contains_key(name@) && of@ == name@,
                Err(_) => false,
            },
    {
        match self.recipes.get(name) {
            Some(recipe) => Ok(recipe),
            None => Err(Error::NoRecipe(String::from_str(name))),
        }
    }

    pub fn assemble(&self, name: &str) -> (result: Result<Vec<u8>>)
        requires
            self.wf(),
            self@.recipes.contains_key(name@) ==> self@.recipes[name@].fits(self@.file),
        ensures
            if !self@.recipes.contains_key(name@) {
                result matches Err(Error::NoRecipe(of)) && of@ == name@
            } else {
                match self@.recipes[name@].trouble(self@.file) {
                    Some(t) => result matches Err(e) && recipe_reports(e, t, self@.file),
                    None => result matches Ok(out) && out@ == self@.recipes[name@].assembled(
                        self@.file,
                    ),
                }
            },
    {
        let recipe = self.recipe(name)?;
        recipe.assemble(&self.file)
    }

    /// Where a tensor is.
    ///
    /// `expect_bytes` is what the caller has sized its kernel arguments for; a recipe that does not
    /// match is a wiring error and fails here rather than reading past an allocation later. The size is
    /// checked whether or not the tensor is resident: a check that held for the first caller and
    /// vanished for every one after would be the worst shape for a check to have.
    pub fn at(&self, name: &str, expect_bytes: usize) -> (result: Result<Placed>)
        requires
            self.wf(),
            self@.recipes.contains_key(name@) ==> self@.recipes[name@].size() <= usize::MAX,
        ensures
            if !self@.recipes.contains_key(name@) {
                result matches Err(Error::NoRecipe(of)) && of@ == name@
            } else if self@.recipes[name@].size() != expect_bytes {
                result matches Err(e) && says(
                    e,
                    size_differs(
                        name@,
                        self@.recipes[name@].size() as nat,
                        expect_bytes as nat,
                    ),
                )
            } else if self@.uploaded.contains_key(name@) {
                result matches Ok(Placed::Resident(handle)) && handle == self@.uploaded[name@]
            } else {
                result matches Ok(Placed::Absent(bytes)) && bytes == if expect_bytes == 0 {
                    1
                } else {
                    expect_bytes as int
                }
            },
    {
        let recipe = self.recipe(name)?;
        let have: usize = recipe.device_bytes();
        if have != expect_bytes {
            let mut message = String::from_str("tensor ");
            message.append(name);
            message.append(" is ");
            text::push_decimal(&mut message, have as u64);
            message.append(" bytes on the device, expected ");
            text::push_decimal(&mut message, expect_bytes as u64);
            return Err(Error::Layout(message));
        }
        match self.uploaded.get(name) {
            Some(handle) => Ok(Placed::Resident(*handle)),
            None => Ok(
                Placed::Absent(
                    if expect_bytes == 0 {
                        1
                    } else {
                        expect_bytes
                    },
                ),
            ),
        }
    }

    /// Keeps the handle of a tensor that has been filled.
    pub fn keep(&mut self, name: &str, handle: u64)
        requires
            old(self).wf(),
        ensures
            final(self).wf(),
            final(self)@ == (WeightsView {
                uploaded: old(self)@.uploaded.insert(name@, handle),
                ..old(self)@
            }),
    {
        self.uploaded.insert(String::from_str(name), handle);
    }

    /// As [`Weights::at`], additionally checking the shape the kernel will read it with.
    pub fn rows(&self, name: &str, rows: usize, row_bytes: usize, pitch_bytes: usize) -> (result:
        Result<Placed>)
        requires
            self.wf(),
            self@.recipes.contains_key(name@) ==> self@.recipes[name@].size() <= usize::MAX,
        ensures
            if !self@.recipes.contains_key(name@) {
                result matches Err(Error::NoRecipe(of)) && of@ == name@
            } else if !has_shape(
                self@.recipes[name@],
                rows as int,
                row_bytes as int,
                pitch_bytes as int,
            ) {
                result matches Err(e) && says(
                    e,
                    shape_differs(name@, rows as nat, row_bytes as nat, pitch_bytes as nat),
                )
            } else if self@.uploaded.contains_key(name@) {
                result matches Ok(Placed::Resident(handle)) && handle == self@.uploaded[name@]
            } else {
                result matches Ok(Placed::Absent(bytes)) && bytes == if rows * pitch_bytes == 0 {
                    1
                } else {
                    rows * pitch_bytes
                }
            },
    {
        let recipe = self.recipe(name)?;
        let fits: bool = match recipe {
            Recipe::Rows { rows: r, row_bytes: rb, pitch_bytes: pb, .. } => *r == rows && *rb
                == row_bytes && *pb == pitch_bytes,
            Recipe::Built { .. } => false,
        };
        if !fits {
            let mut message = String::from_str("tensor ");
            message.append(name);
            message.append(" is not ");
            text::push_decimal(&mut message, rows as u64);
            message.append(" rows of ");
            text::push_decimal(&mut message, row_bytes as u64);
            message.append(" bytes at pitch ");
            text::push_decimal(&mut message, pitch_bytes as u64);
            return Err(Error::Layout(message));
        }
        self.at(name, recipe.device_bytes())
    }

    /// The transfer `i` that fills a device tensor by a recipe; `None` once all have been given.
    ///
    /// Rows that are one straight run of the mapping at their own pitch go up chunk by chunk with no
    /// staging copy. Anything gathered at a wider pitch is staged a chunk at a time, so the pad between
    /// rows stays zero. A built array goes up at once.
    pub fn fill(&self, recipe: &Recipe, i: usize) -> (result: Result<Option<Upload<'a>>>)
        requires
            self.wf(),
            recipe.fits(self@.file),
            !(recipe.trouble(self@.file) matches Some(
                RecipeTrouble::Segment(Trouble::Past(_)),
            )),
        ensures
            match fill_trouble(*recipe, self@.file) {
                Some(t) => result matches Err(e) && recipe_reports(e, t, self@.file),
                None => {
                    let bytes = recipe.assembled(self@.file);
                    let step = step_of(*recipe);
                    if i * step < bytes.len() || (recipe is Built && i == 0) {
                        result matches Ok(Some(up)) && up.offset == i * step && up.bytes.held()
                            == transfer(bytes, step, i as int) && (up.bytes is Mapped
                            <==> is_straight(*recipe))
                    } else {
                        result matches Ok(None)
                    }
                },
            },
    {
        match recipe {
            Recipe::Built { bytes, .. } => {
                let out = recipe.assemble(&self.file)?;
                let ghost step = *bytes as int;
                if i > 0 {
                    assert(i * step >= step) by (nonlinear_arith)
                        requires
                            i >= 1,
                            step >= 0,
                    ;
                    return Ok(None);
                }
                proof {
                    assert(0 * step == 0 && 1 * step == step) by (nonlinear_arith);
                    assert(transfer(out@, step, 0) =~= out@);
                }
                Ok(Some(Upload { offset: 0, bytes: Staged::Host(out) }))
            },
            Recipe::Rows { rows, row_bytes, pitch_bytes, segments } => {
                self.fill_rows(*rows, *row_bytes, *pitch_bytes, segments, i)
            },
        }
    }

    fn fill_rows(
        &self,
        rows: usize,
        row_bytes: usize,
        pitch: usize,
        segments: &Vec<Segment>,
        i: usize,
    ) -> (result: Result<Option<Upload<'a>>>)
        requires
            self.wf(),
            row_bytes <= pitch,
            rows_in(segments@) <= rows,
            rows * pitch <= usize::MAX,
            forall|k: int|
                0 <= k < segments@.len() ==> ((#[trigger] segments@[k]).row0 + segments@[k].rows)
                    * row_bytes <= usize::MAX,
            !(trouble(self@.file, segments@, row_bytes as int) matches Some(Trouble::Past(_))),
        ensures
            ({
                let recipe = Recipe::Rows {
                    rows,
                    row_bytes,
                    pitch_bytes: pitch,
                    segments: *segments,
                };
                match fill_trouble(recipe, self@.file) {
                    Some(t) => result matches Err(e) && recipe_reports(e, t, self@.file),
                    None => {
                        let bytes = recipe.assembled(self@.file);
                        let step = step_of(recipe);
                        if i * step < bytes.len() {
                            result matches Ok(Some(up)) && up.offset == i * step && up.bytes.held()
                                == transfer(bytes, step, i as int) && (up.bytes is Mapped
                                <==> is_straight(recipe))
                        } else {
                            result matches Ok(None)
                        }
                    },
                }
            }),
    {
        let ghost ckv = self@.file;
        let ghost all = gathered(ckv, segments@, row_bytes as int, pitch as int);
        proof {
            lemma_rows_in_counts(segments@);
            assert(0 <= rows_in(segments@) * pitch <= rows * pitch) by (nonlinear_arith)
                requires
                    0 <= rows_in(segments@) <= rows,
                    pitch >= 0,
            ;
        }
        // Every tensor is looked up before any of it is sent.
        let mut have: usize = 0;
        let mut s: usize = 0;
        assert(segments@.take(0).len() == 0);
        while s < segments.len()
            invariant
                s <= segments@.len(),
                self.wf(),
                ckv == self@.file,
                rows_in(segments@) <= rows,
                have == rows_in(segments@.take(s as int)),
                !(trouble(ckv, segments@, row_bytes as int) matches Some(Trouble::Past(_))),
                trouble(ckv, segments@.take(s as int), row_bytes as int) is None,
            decreases segments@.len() - s,
        {
            proof {
                assert(segments@.take(s + 1).drop_last() =~= segments@.take(s as int));
                assert(segments@.take(s + 1).last() == segments@[s as int]);
                lemma_rows_in(segments@, s + 1);
                if trouble(ckv, segments@.take(s + 1), row_bytes as int) is Some {
                    lemma_trouble(ckv, segments@, row_bytes as int, s + 1);
                }
            }
            match entry_at(&self.file, segments[s].tensor.as_str()) {
                Ok(_) => {},
                Err(e) => {
                    return Err(e);
                },
            }
            have = have + segments[s].rows;
            s += 1;
        }
        assert(segments@.take(s as int) =~= segments@);
        if segments.len() == 1 && pitch == row_bytes {
            return Ok(self.fill_straight(row_bytes, segments, i));
        }
        if have != rows {
            let mut message = String::from_str("a recipe's segments add up to ");
            text::push_decimal(&mut message, have as u64);
            message.append(" rows, not ");
            text::push_decimal(&mut message, rows as u64);
            return Err(Error::Layout(message));
        }
        let fit: usize = CHUNK / if pitch > 1 {
            pitch
        } else {
            1
        };
        let per: usize = if fit > 1 {
            fit
        } else {
            1
        };
        let ghost step: int = per * pitch;
        if pitch == 0 {
            assert(step == 0 && i * step == 0 && rows_in(segments@) * pitch == 0)
                by (nonlinear_arith)
                requires
                    pitch == 0,
                    step == per * pitch,
            ;
            return Ok(None);
        }
        if i > rows / per {
            assert(i * step >= rows * pitch) by (nonlinear_arith)
                requires
                    i >= rows as int / per as int + 1,
                    per >= 1,
                    pitch >= 1,
                    step == per * pitch,
            ;
            return Ok(None);
        }
        assert(i * per <= rows) by (nonlinear_arith)
            requires
                i <= rows as int / per as int,
                per >= 1,
        ;
        let from: usize = i * per;
        assert(i * step == from * pitch) by (nonlinear_arith)
            requires
                step == per * pitch,
                from == i * per,
        ;
        if from == rows {
            return Ok(None);
        }
        let to: usize = if per < rows - from {
            from + per
        } else {
            rows
        };
        proof {
            assert(from * pitch < rows * pitch && to * pitch <= rows * pitch) by (nonlinear_arith)
                requires
                    from < rows,
                    to <= rows,
                    pitch >= 1,
            ;
            assert((i + 1) * step == from * pitch + per * pitch) by (nonlinear_arith)
                requires
                    i * step == from * pitch,
                    step == per * pitch,
            ;
            assert(to == from + per ==> to * pitch == from * pitch + per * pitch)
                by (nonlinear_arith);
            assert(from + per >= rows ==> from * pitch + per * pitch >= rows * pitch)
                by (nonlinear_arith)
                requires
                    pitch >= 1,
            ;
        }
        let out = stage(&self.file, segments.as_slice(), row_bytes, pitch, from, to);
        assert(out@ =~= transfer(all, step, i as int));
        Ok(Some(Upload { offset: from * pitch, bytes: Staged::Host(out) }))
    }

    /// The transfer `i` of a straight run: a piece of the mapping itself.
    fn fill_straight(&self, row_bytes: usize, segments: &Vec<Segment>, i: usize) -> (up: Option<
        Upload<'a>,
    >)
        requires
            self.wf(),
            segments@.len() == 1,
            (segments@[0].row0 + segments@[0].rows) * row_bytes <= usize::MAX,
            trouble(self@.file, segments@, row_bytes as int) is None,
        ensures
            ({
                let bytes = gathered(
                    self@.file,
                    segments@,
                    row_bytes as int,
                    row_bytes as int,
                );
                if i * CHUNK < bytes.len() {
                    up matches Some(up) && up.offset == i * CHUNK && up.bytes is Mapped
                        && up.bytes.held() == transfer(bytes, CHUNK as int, i as int)
                } else {
                    up is None
                }
            }),
    {
        let ghost ckv = self@.file;
        let ghost all = gathered(ckv, segments@, row_bytes as int, row_bytes as int);
        let segment = &segments[0];
        let ghost (row0, n, w) = (segment.row0 as int, segment.rows as int, row_bytes as int);
        proof {
            assert(segments@.drop_last() =~= Seq::empty());
            assert(rows_in(segments@.drop_last()) == 0);
            assert(rows_in(segments@) == n);
            lemma_segment_fits(ckv, segments@, w, 0);
        }
        if segment.rows == 0 || row_bytes == 0 {
            assert(n * w == 0) by (nonlinear_arith)
                requires
                    n == 0 || w == 0,
            ;
            return None;
        }
        let entry = match entry_at(&self.file, segment.tensor.as_str()) {
            Ok(entry) => entry,
            Err(_) => {
                return None;
            },
        };
        let src: &'a [u8] = bytes_at(&self.file, entry, segment.tensor.as_str());
        assert(src@.len() == src.len());
        proof {
            assert(0 <= row0 * w && (row0 + n) * w == row0 * w + n * w && 0 <= n * w)
                by (nonlinear_arith)
                requires
                    row0 >= 0,
                    n >= 0,
                    w >= 0,
            ;
        }
        let from: usize = segment.row0 * row_bytes;
        let len: usize = segment.rows * row_bytes;
        if i > len / CHUNK {
            return None;
        }
        let begin: usize = i * CHUNK;
        if begin >= len {
            return None;
        }
        let end: usize = if CHUNK < len - begin {
            begin + CHUNK
        } else {
            len
        };
        let piece: &'a [u8] = vstd::slice::slice_subrange(src, from + begin, from + end);
        proof {
            assert forall|k: int| 0 <= k < n * w implies #[trigger] all[k] == src@[from + k] by {
                radix::lemma_unflat2(k, n, w);
                lemma_source(segments@, 0, k / w);
                assert(segments@.take(0) =~= Seq::empty());
                let r = k / w;
                assert((row0 + r) * w + k % w == row0 * w + k) by (nonlinear_arith)
                    requires
                        k == r * w + k % w,
                ;
            }
            assert(piece@ =~= transfer(all, CHUNK as int, i as int));
        }
        Some(Upload { offset: begin, bytes: Staged::Mapped(piece) })
    }

    /// A recipe's bytes as the bits of singles, for the tables the host itself reads.
    pub fn host_f32(&self, name: &str, count: usize) -> (result: Result<Vec<u32>>)
        requires
            self.wf(),
            self@.recipes.contains_key(name@) ==> self@.recipes[name@].fits(self@.file),
            4 * count <= usize::MAX,
        ensures
            if !self@.recipes.contains_key(name@) {
                result matches Err(Error::NoRecipe(of)) && of@ == name@
            } else {
                let recipe = self@.recipes[name@];
                match recipe.trouble(self@.file) {
                    Some(t) => result matches Err(e) && recipe_reports(e, t, self@.file),
                    None => {
                        let bytes = recipe.assembled(self@.file);
                        if bytes.len() != 4 * count {
                            result matches Err(e) && says(
                                e,
                                table_differs(name@, bytes.len(), (4 * count) as nat),
                            )
                        } else {
                            &&& result matches Ok(words)
                            &&& words@.len() == count
                            &&& forall|i: int|
                                0 <= i < count ==> #[trigger] words@[i] == bytes::from_le32(
                                    bytes.subrange(4 * i, 4 * i + 4),
                                )
                        }
                    },
                }
            },
    {
        let out = self.assemble(name)?;
        if out.len() != count * 4 {
            let mut message = String::from_str("tensor ");
            message.append(name);
            message.append(" is ");
            text::push_decimal(&mut message, out.len() as u64);
            message.append(" bytes, expected ");
            text::push_decimal(&mut message, (count * 4) as u64);
            return Err(Error::Layout(message));
        }
        let mut words: Vec<u32> = Vec::new();
        let mut i: usize = 0;
        while i < count
            invariant
                i <= count,
                out@.len() == 4 * count,
                4 * count <= usize::MAX,
                words@.len() == i,
                forall|k: int|
                    0 <= k < i ==> #[trigger] words@[k] == bytes::from_le32(
                        out@.subrange(4 * k, 4 * k + 4),
                    ),
            decreases count - i,
        {
            words.push(bytes::read_le32(out.as_slice(), 4 * i));
            i += 1;
        }
        Ok(words)
    }
}

} // verus!
