//! Where the bytes of a checkpoint's tensors come to stand, tensor by tensor and number by number.
use vstd::prelude::*;

use crate::bytes;
use crate::checkpoint;
use crate::checkpoint::{CheckpointView, Dtype, Info};
use crate::weights;
use crate::weights::{Run, Segment};

verus! {

/// Tensors laid one behind the other stand in the order they are named: row `r` of part `p` stands behind all the rows of
/// the parts before it, byte for byte.
pub proof fn law_parts_follow_each_other(
    ck: CheckpointView,
    parts: Seq<&str>,
    segments: Seq<Segment>,
    row_bytes: int,
    pitch: int,
    p: int,
    r: int,
    b: int,
)
    requires
        weights::whole_parts(ck, parts, segments),
        0 <= p < parts.len(),
        0 <= r < ck.entries[parts[p]@].rows(),
        0 <= b < row_bytes <= pitch,
    ensures
        ({
            let all = weights::gathered(ck, segments, row_bytes, pitch);
            let before = weights::part_rows(ck, parts.take(p));
            &&& all[(before + r) * pitch + b] == ck.bytes(ck.entries[parts[p]@])[r * row_bytes + b]
            &&& weights::part_rows(ck, parts.take(p + 1)) == before + ck.entries[parts[p]@].rows()
        }),
        weights::part_rows(ck, parts.take(0)) == 0,
{
    assert(segments[p].tensor@ == parts[p]@);
    weights::law_a_segments_rows_land_in_order(ck, segments, row_bytes, pitch, p, r, b);
    lemma_rows_of_parts(ck, parts, segments, p);
    assert(parts.take(p + 1).drop_last() =~= parts.take(p));
    assert(parts.take(p + 1).last() == parts[p]);
}

proof fn lemma_rows_of_parts(ck: CheckpointView, parts: Seq<&str>, segments: Seq<Segment>, n: int)
    requires
        weights::whole_parts(ck, parts, segments),
        0 <= n <= parts.len(),
    ensures
        weights::rows_in(segments.take(n)) == weights::part_rows(ck, parts.take(n)),
    decreases n,
{
    if n > 0 {
        lemma_rows_of_parts(ck, parts, segments, n - 1);
        assert(segments.take(n).drop_last() =~= segments.take(n - 1));
        assert(parts.take(n).drop_last() =~= parts.take(n - 1));
        assert(segments[n - 1].tensor@ == parts[n - 1]@);
    }
}

/// Rows taken by runs stand in the order of the runs: row `j` of run `s` is the tensor's row that many behind where the run
/// begins, and stands behind all the rows of the runs before it.
pub proof fn law_permuted_rows_follow_their_runs(
    ck: CheckpointView,
    name: Seq<char>,
    runs: Seq<Run>,
    segments: Seq<Segment>,
    row_bytes: int,
    pitch: int,
    s: int,
    j: int,
    b: int,
)
    requires
        weights::run_segments(segments, name, runs),
        0 <= s < runs.len(),
        0 <= j < runs[s].1,
        0 <= b < row_bytes <= pitch,
    ensures
        weights::gathered(ck, segments, row_bytes, pitch)[(weights::run_total(runs.take(s)) + j) * pitch + b]
            == ck.bytes(ck.entries[name])[(runs[s].0 + j) * row_bytes + b],
        weights::run_total(runs.take(s + 1)) == weights::run_total(runs.take(s)) + runs[s].1,
        weights::run_total(runs.take(0)) == 0,
{
    assert(segments[s].tensor@ == name);
    weights::law_a_segments_rows_land_in_order(ck, segments, row_bytes, pitch, s, j, b);
    lemma_rows_of_runs(name, runs, segments, s);
    assert(runs.take(s + 1).drop_last() =~= runs.take(s));
    assert(runs.take(s + 1).last() == runs[s]);
}

proof fn lemma_rows_of_runs(name: Seq<char>, runs: Seq<Run>, segments: Seq<Segment>, n: int)
    requires
        weights::run_segments(segments, name, runs),
        0 <= n <= runs.len(),
    ensures
        weights::rows_in(segments.take(n)) == weights::run_total(runs.take(n)),
    decreases n,
{
    if n > 0 {
        lemma_rows_of_runs(name, runs, segments, n - 1);
        assert(segments.take(n).drop_last() =~= segments.take(n - 1));
        assert(runs.take(n).drop_last() =~= runs.take(n - 1));
        assert(segments[n - 1].tensor@ == name);
    }
}

/// Runs that alternate take the two halves in turn, and lose nothing of either: number `j` of the first half is the
/// `j % size`th of the run `2 (j / size)`, and that of the second half of the run behind it.
pub proof fn law_alternate_runs_take_the_halves_in_turn(
    runs: Seq<Run>,
    first: int,
    second: int,
    count: int,
    size: int,
    j: int,
)
    requires
        0 < size,
        weights::alternate_runs(runs, first, second, count, size),
        0 <= j < count,
    ensures
        ({
            let turn = 2 * (j / size);
            &&& 0 <= turn && turn + 1 < runs.len()
            &&& runs[turn].0 + j % size == first + j && j % size < runs[turn].1
            &&& runs[turn + 1].0 + j % size == second + j && j % size < runs[turn + 1].1
        }),
{
    let q = j / size;
    assert(j == size * q + j % size && 0 <= j % size < size && 0 <= q) by (nonlinear_arith)
        requires
            0 < size,
            0 <= j,
            q == j / size,
    ;
    assert(q < (count + size - 1) / size) by (nonlinear_arith)
        requires
            0 < size,
            0 <= j < count,
            q == j / size,
    ;
    assert((2 * q) / 2 == q && (2 * q + 1) / 2 == q);
}

/// A number is widened from its own bytes, the least first: a single is its four bytes as they are; a bfloat's two are the
/// upper two of the single, where it is a number; a half is widened from its two.
pub proof fn law_a_number_widens_from_its_own_bytes(src: Seq<u8>, i: int, k: int)
    requires
        0 <= i,
        4 * i + 4 <= src.len(),
        0 <= k < 4,
    ensures
        bytes::le32(weights::widened(Dtype::F32, src, i))[k] == src[4 * i + k],
        weights::widened(Dtype::F16, src, i) == bytes::half_as_single(
            (src[2 * i] + 256 * src[2 * i + 1]) as u16,
        ) as u32,
        ({
            let b = src[2 * i] + 256 * src[2 * i + 1];
            b % 32768 <= 0x7F80 ==> bytes::le32(weights::widened(Dtype::BF16, src, i)) == seq![
                0u8,
                0u8,
                src[2 * i],
                src[2 * i + 1],
            ]
        }),
{
    let four = src.subrange(4 * i, 4 * i + 4);
    bytes::law_le32_round_trips(0, four);
    assert(weights::widened(Dtype::F32, src, i) == bytes::from_le32(four) as u32);
    let two = src.subrange(2 * i, 2 * i + 2);
    assert(two[0] == src[2 * i] && two[1] == src[2 * i + 1]);
    lemma_upper_bytes(src[2 * i], src[2 * i + 1]);
}

#[verifier::spinoff_prover]
proof fn lemma_upper_bytes(lo: u8, hi: u8)
    ensures
        (lo + 256 * hi) % 32768 <= 0x7F80 ==> bytes::le32(
            bytes::bfloat_as_single((lo + 256 * hi) as u16) as u32,
        ) == seq![0u8, 0u8, lo, hi],
{
    let b = lo + 256 * hi;
    if b % 32768 <= 0x7F80 {
        let x = (b * 65536) as u32;
        assert(bytes::bfloat_as_single(b as u16) == b * 65536);
        assert(x % 256 == 0 && x / 256 % 256 == 0 && x / 65536 % 256 == lo && x / 16777216 == hi);
        assert(bytes::le32(x) =~= seq![0u8, 0u8, lo, hi]);
    }
}

/// A tensor's bytes are those of the file from where it begins in the data block on, and no others.
pub proof fn law_a_tensor_is_its_own_bytes(ck: CheckpointView, name: Seq<char>, k: int)
    requires
        0 <= ck.data,
        ck.holds(ck.entries[name]),
        0 <= k < ck.entries[name].bytes,
    ensures
        ck.bytes(ck.entries[name]).len() == ck.entries[name].bytes,
        ck.bytes(ck.entries[name])[k] == ck.map[ck.data + ck.entries[name].offset + k],
{
}

/// Every tensor a header names is found under its name, with its own shape, from where it begins to where it ends; and
/// nothing is found under another.
pub proof fn law_a_tensor_is_found_under_its_name(list: Seq<Info>, i: int, name: Seq<char>)
    requires
        checkpoint::sound_list(list),
        0 <= i < list.len(),
    ensures
        ({
            let (entries, info) = (checkpoint::entries_from(list), list[i]);
            let (own, dtype, shape, begin, end) = (info.0@, info.1@, info.2@, info.3, info.4);
            &&& entries.contains_key(own)
            &&& entries[own].shape == shape
            &&& entries[own].offset == begin
            &&& entries[own].offset + entries[own].bytes == end
            &&& entries[own].dtype.name_spec() == dtype
        }),
        checkpoint::entries_from(list).contains_key(name) ==> exists|k: int|
            0 <= k < list.len() && (#[trigger] list[k]).0@ == name,
    decreases list.len(),
{
    let short = list.drop_last();
    let last = list.len() - 1;
    assert forall|k: int| 0 <= k < last implies #[trigger] short[k] == list[k] by {}
    assert(checkpoint::sound_list(short)) by {
        assert forall|a: int, b: int| 0 <= a < b < short.len() implies (#[trigger] short[a]).0@ != (#[trigger] short[b]).0@ by {
            assert(list[a].0@ != list[b].0@);
        }
        assert forall|a: int| 0 <= a < short.len() implies checkpoint::sound_info(
            ((#[trigger] short[a]).1@, short[a].2@, short[a].3, short[a].4),
        ) by {
            assert(list[a] == short[a]);
        }
    }
    if i < last {
        law_a_tensor_is_found_under_its_name(short, i, name);
        assert(list[i].0@ != list[last].0@);
    } else {
        let info = list[i];
        assert(checkpoint::sound_info((info.1@, info.2@, info.3, info.4)));
        if short.len() > 0 {
            law_a_tensor_is_found_under_its_name(short, 0, name);
        }
    }
    if checkpoint::entries_from(list).contains_key(name) && name != list[last].0@ {
        let k = choose|k: int| 0 <= k < short.len() && (#[trigger] short[k]).0@ == name;
        assert(list[k].0@ == name);
    }
}

} // verus!
