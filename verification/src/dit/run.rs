//! The denoising run on the device: its buffers, and what each step does with them, in order.
use vstd::prelude::*;
use vstd::string::StringExecFns;

use crate::compile;
use crate::conditioning::device;
use crate::dispatch;
use crate::dispatch::{Classes, Launch, LaunchView, MatmulF32, NormMod, Tuning};
use crate::error::{Error, Result};
use crate::hrx::{Buffer, BufferRef, Extent};
use crate::model;
use crate::model::{
    AUDIO_CH, BLOCKS, CLASSES, FINAL_N, HID, MODS_ROWS, ROPE_HALF, TEXT_DIM, VIDEO_PATCH,
};
use crate::sampler::device::{Euler, Ratio};
use crate::stack;
use crate::stack::{Inputs, LayerCond, Stack, StackDims};
use crate::text;

verus! {

/// The bytes the sequence buffers are allocated with, all functions of one capacity.
#[derive(Clone, Copy, Debug)]
pub struct SeqSizes {
    pub capacity: usize,
    /// the stream, which starts as zeros
    pub x: usize,
    /// each of the three class rows, which start as zeros
    pub classes: usize,
    /// each of the two rope tables
    pub rope: usize,
    /// the embedders' input rows at the widest
    pub in32: usize,
    /// the final layer's output rows
    pub out32: usize,
}

/// Whether a sequence's buffers can be counted.
pub open spec fn seq_countable(capacity: int) -> bool {
    capacity * HID * 4 <= usize::MAX
}

/// What to allocate for a sequence, where what there is does not hold it.
///
/// The capacity is rounded to 256 rows plus 32, which is the slack the attention kernels read past the end
/// of a sequence.
pub fn ensure_seq(have: Option<usize>, seq: usize) -> (sizes: Option<SeqSizes>)
    requires
        seq_countable(super::capacity_for(seq as int)),
    ensures
        if have is Some && seq <= have->0 {
            sizes is None
        } else {
            &&& sizes matches Some(s)
            &&& s.capacity == super::capacity_for(seq as int)
            &&& s.x == s.capacity * HID * 4
            &&& s.classes == dispatch::class_bytes(s.capacity as int)
            &&& s.rope == s.capacity * ROPE_HALF * 4
            &&& s.in32 == s.capacity * VIDEO_PATCH * 4
            &&& s.out32 == s.capacity * FINAL_N * 4
        },
{
    if let Some(capacity) = have {
        if seq <= capacity {
            return None;
        }
    }
    let t: usize = super::seq_capacity(seq);
    Some(
        SeqSizes {
            capacity: t,
            x: t * HID * 4,
            classes: t * 4,
            rope: t * ROPE_HALF * 4,
            in32: t * VIDEO_PATCH * 4,
            out32: t * FINAL_N * 4,
        },
    )
}

/// The sequence buffers, sized for the longest sequence asked for so far.
pub struct SeqBuffers {
    pub capacity: usize,
    pub x: Buffer,
    /// the per-row class the modulated kernels index with
    pub cls: Classes,
    /// all zeros: what the single-class GEMMs index their gate table with
    pub cls0: Classes,
    /// the timestep classes of the generated rows
    pub tcls: Classes,
    pub cos: Buffer,
    pub sin: Buffer,
    pub in32: Buffer,
    pub out32: Buffer,
}

impl SeqBuffers {
    pub open spec fn wf(&self) -> bool {
        &&& self.capacity >= 1
        &&& seq_countable(self.capacity as int)
        &&& self.x.size() == self.capacity * HID * 4
        &&& self.cls.wf() && self.cls0.wf() && self.tcls.wf()
        &&& self.cos.size() == self.capacity * ROPE_HALF * 4
        &&& self.sin.size() == self.capacity * ROPE_HALF * 4
        &&& self.in32.size() == self.capacity * VIDEO_PATCH * 4
        &&& self.out32.size() == self.capacity * FINAL_N * 4
    }

    /// The rows `[row0, row0 + rows)` of the stream.
    pub open spec fn rows_of(&self, row0: int, rows: int) -> BufferRef {
        self.x.part((row0 * HID * 4) as usize, (rows * HID * 4) as usize)
    }

    pub fn rows(&self, row0: usize, rows: usize) -> (view: BufferRef)
        requires
            self.wf(),
            row0 + rows <= self.capacity,
        ensures
            view == self.rows_of(row0 as int, rows as int),
    {
        self.x.slice(row0 * HID * 4, rows * HID * 4)
    }
}

/// A projection in single precision and its resident operands, prepared outside the denoising loop.
#[derive(Debug)]
pub struct Projection {
    pub op: MatmulF32,
    pub weight: BufferRef,
    pub bias: BufferRef,
}

impl Projection {
    /// Whether this projects rows of `k` to rows of `n`, with operands that cover it.
    pub open spec fn from_to(&self, k: int, n: int) -> bool {
        &&& self.op.k == k && self.op.n == n
        &&& self.op.kernel@ == dispatch::sized_kernel(
            "matmul_f32"@,
            "matmul_f32"@,
            "k"@,
            k,
            "n"@,
            n,
        )
        &&& self.weight.length >= n * k * 4
        &&& self.bias.length >= n * 4
        &&& 0 <= n * k * 4 <= usize::MAX
        &&& 0 <= n * 4 <= usize::MAX
    }

    /// The weights a projection asks for: its rows, then its bias.
    pub fn weights_for(k: usize, n: usize) -> (bytes: (usize, usize))
        requires
            n * k * 4 <= usize::MAX,
            n * 4 <= usize::MAX,
        ensures
            bytes == ((n * k * 4) as usize, (n * 4) as usize),
    {
        assert(n * k >= 0) by (nonlinear_arith);
        (n * k * 4, n * 4)
    }

    pub fn build(k: usize, n: usize, weight: BufferRef, bias: BufferRef) -> (p: Self)
        requires
            n * k * 4 <= usize::MAX,
            n * 4 <= usize::MAX,
            weight.length >= n * k * 4,
            bias.length >= n * 4,
        ensures
            p.from_to(k as int, n as int),
            p.weight == weight,
            p.bias == bias,
    {
        assert(n * k * 4 >= 0) by (nonlinear_arith);
        Projection { op: MatmulF32::build(k, n), weight, bias }
    }

    /// The launch that projects rows.
    pub open spec fn projects(
        &self,
        stage: Seq<char>,
        rows: usize,
        input: BufferRef,
        output: BufferRef,
    ) -> LaunchView {
        self.op.launch(stage, rows, self.op.args(rows as int, input, self.weight, self.bias, output))
    }

    /// The launch that projects rows. It is refused where the rows do not cover it.
    pub fn run<'a>(
        &'a self,
        stage: &'a str,
        rows: usize,
        input: BufferRef,
        output: BufferRef,
    ) -> (result: compile::Result<Launch<'a>>)
        requires
            self.from_to(self.op.k as int, self.op.n as int),
            rows * self.op.k * 4 <= usize::MAX,
            rows * self.op.n * 4 <= usize::MAX,
        ensures
            ({
                let args = self.op.args(rows as int, input, self.weight, self.bias, output);
                &&& dispatch::launches(result, self.projects(stage@, rows, input, output), args)
                &&& input.length >= rows * self.op.k * 4 && output.length >= rows * self.op.n * 4
                    ==> result is Ok
            }),
    {
        proof {
            let args = self.op.args(rows as int, input, self.weight, self.bias, output);
            assert(rows * self.op.k * 4 >= 0 && rows * self.op.n * 4 >= 0) by (nonlinear_arith)
                requires
                    rows >= 0,
                    self.op.k >= 0,
                    self.op.n >= 0,
            ;
            assert(args[0].need == rows * self.op.k * 4 && args[3].need == rows * self.op.n * 4);
            if input.length >= rows * self.op.k * 4 && output.length >= rows * self.op.n * 4 {
                dispatch::lemma_covered(args);
            }
        }
        self.op.run(stage, rows, input, self.weight, self.bias, output)
    }
}

/// The prepared device conditioning tables.
#[derive(Debug)]
pub struct Conditioning {
    pub adaln: device::Projection,
    pub final_adaln: device::Projection,
    pub mods: Buffer,
    pub final_table: Buffer,
}

/// The bytes of the blocks' table, and of the final one.
pub fn table_bytes() -> (bytes: (usize, usize))
    ensures
        bytes == ((BLOCKS * MODS_ROWS * HID * 4) as usize, (4 * HID * 4) as usize),
{
    (BLOCKS * MODS_ROWS * HID * 4, 4 * HID * 4)
}

impl Conditioning {
    pub open spec fn wf(&self) -> bool {
        &&& self.adaln.plan.of(device::Layers::Blocks, BLOCKS as int)
        &&& self.adaln.maps@.len() == 4
        &&& self.final_adaln.plan.of(device::Layers::Last, 1)
        &&& self.final_adaln.maps@.len() == 2
        &&& self.mods.size() == BLOCKS * MODS_ROWS * HID * 4
        &&& self.final_table.size() == 4 * HID * 4
    }
}

/// A table of singles the host reads from the checkpoint, and how many it holds.
#[derive(Debug)]
pub struct HostTable {
    pub name: String,
    pub count: usize,
}

/// The name of a block's modulation weights, or biases.
pub open spec fn adaln_name(i: int, part: Seq<char>) -> Seq<char> {
    text::phrase_of("h3.blocks."@, i as nat, ".adaln."@ + part)
}

/// The tables conditioning is prepared from: each block's weights and biases, the timestep curve, the rope's
/// frequencies, and the final layer's weights and biases.
pub open spec fn host_table(i: int) -> (Seq<char>, int) {
    if i < 2 * BLOCKS {
        if i % 2 == 0 {
            (adaln_name(i / 2, "w"@), 18 * HID * 8)
        } else {
            (adaln_name(i / 2, "b"@), 18 * HID)
        }
    } else if i == 2 * BLOCKS {
        ("h3.adaln_t_table"@, 8200)
    } else if i == 2 * BLOCKS + 1 {
        ("h3.rope_inv_freq"@, 16)
    } else if i == 2 * BLOCKS + 2 {
        ("h3.final.adaln.w"@, 2 * HID * 8)
    } else {
        ("h3.final.adaln.b"@, 2 * HID)
    }
}

pub fn host_tables() -> (tables: Vec<HostTable>)
    ensures
        tables@.len() == 2 * BLOCKS + 4,
        forall|i: int|
            0 <= i < tables@.len() ==> ((#[trigger] tables@[i]).name@, tables@[i].count as int)
                == host_table(i),
{
    let mut tables: Vec<HostTable> = Vec::new();
    let mut i: usize = 0;
    while i < BLOCKS
        invariant
            i <= BLOCKS,
            tables@.len() == 2 * i,
            forall|k: int|
                0 <= k < tables@.len() ==> ((#[trigger] tables@[k]).name@, tables@[k].count as int)
                    == host_table(k),
        decreases BLOCKS - i,
    {
        let w = text::cat2(".adaln.", "w");
        let b = text::cat2(".adaln.", "b");
        tables.push(
            HostTable { name: text::phrase("h3.blocks.", i, w.as_str()), count: 18 * HID * 8 },
        );
        tables.push(HostTable { name: text::phrase("h3.blocks.", i, b.as_str()), count: 18 * HID });
        i += 1;
    }
    tables.push(HostTable { name: String::from_str("h3.adaln_t_table"), count: 8200 });
    tables.push(HostTable { name: String::from_str("h3.rope_inv_freq"), count: 16 });
    tables.push(HostTable { name: String::from_str("h3.final.adaln.w"), count: 2 * HID * 8 });
    tables.push(HostTable { name: String::from_str("h3.final.adaln.b"), count: 2 * HID });
    tables
}

/// The rows of a layer's slice of the modulation table, from `r` on.
pub open spec fn table_rows(mods: Buffer, i: int, r: int) -> BufferRef {
    mods.part(((i * MODS_ROWS + r) * HID * 4) as usize, ((MODS_ROWS - r) * HID * 4) as usize)
}

pub open spec fn layer_cond_of(mods: Buffer, i: int) -> LayerCond {
    LayerCond {
        table_msa: table_rows(mods, i, 0),
        gate_msa: table_rows(mods, i, 2 * CLASSES),
        table_mlp: table_rows(mods, i, 3 * CLASSES),
        gate_mlp: table_rows(mods, i, 5 * CLASSES),
    }
}

/// One layer's slice of the modulation table: rows [0, 2C) are (scale, shift) per class for the attention,
/// [2C, 3C) its gate, [3C, 5C) and [5C, 6C) the same for the MLP.
pub fn layer_cond(mods: &Buffer, i: usize) -> (cond: LayerCond)
    requires
        i < BLOCKS,
        mods.size() == BLOCKS * MODS_ROWS * HID * 4,
    ensures
        cond == layer_cond_of(*mods, i as int),
{
    let base: usize = i * MODS_ROWS;
    LayerCond {
        table_msa: mods.slice(base * HID * 4, MODS_ROWS * HID * 4),
        gate_msa: mods.slice((base + 2 * CLASSES) * HID * 4, (MODS_ROWS - 2 * CLASSES) * HID * 4),
        table_mlp: mods.slice((base + 3 * CLASSES) * HID * 4, (MODS_ROWS - 3 * CLASSES) * HID * 4),
        gate_mlp: mods.slice((base + 5 * CLASSES) * HID * 4, (MODS_ROWS - 5 * CLASSES) * HID * 4),
    }
}

/// A layer's slices hold what its kernels index: two rows per class where they modulate and one where they
/// gate, all inside the layer's own part of the table.
pub proof fn law_a_layers_slices_cover_its_classes(mods: Buffer, i: int, d: StackDims)
    requires
        0 <= i < BLOCKS,
        mods.size() == BLOCKS * MODS_ROWS * HID * 4,
        d.hidden == HID,
        d.classes == CLASSES,
    ensures
        layer_cond_of(mods, i).covers(d),
        layer_cond_of(mods, i).table_msa.offset == i * (MODS_ROWS * HID * 4),
        layer_cond_of(mods, i).gate_mlp.offset + layer_cond_of(mods, i).gate_mlp.length == (i + 1) * (
        MODS_ROWS * HID * 4),
{
    assert(d.classes * d.hidden * 8 == 12 * 5376 * 8) by (nonlinear_arith)
        requires
            d.hidden == 5376,
            d.classes == 12,
    ;
    assert(d.classes * d.hidden * 4 == 12 * 5376 * 4) by (nonlinear_arith)
        requires
            d.hidden == 5376,
            d.classes == 12,
    ;
}

// The blocks.

/// The QK width a setting names, or the one configured.
pub open spec fn qk_width(setting: Option<Seq<char>>, configured: int) -> int {
    match setting {
        Some(v) => if v == "f16"@ {
            16
        } else if v == "i8"@ {
            8
        } else {
            4
        },
        None => configured,
    }
}

/// The shape of the blocks, with the QK operands' width a setting may override.
pub fn block_dims(qk_bits: usize, setting: Option<&str>) -> (d: StackDims)
    ensures
        d.hidden == HID && d.heads == model::HEADS && d.kv_heads == model::HEADS,
        d.head_dim == model::HEAD_DIM && d.ffn == model::FFN && d.rope_dim == model::ROPE_DIM,
        d.classes == CLASSES && d.wbits == 8 && super::is_small_eps(d.eps) && d.eps.sound(),
        !d.bias && d.gate_first && !d.causal && !d.bf16,
        d.attn_qk_bits == qk_width(
            match setting {
                Some(v) => Some(v@),
                None => None,
            },
            qk_bits as int,
        ),
        d.attn_i4 == (d.attn_qk_bits == 4),
{
    let bits: usize = match setting {
        Some(v) => if text::same(v, "f16") {
            16
        } else if text::same(v, "i8") {
            8
        } else {
            4
        },
        None => qk_bits,
    };
    StackDims {
        hidden: HID,
        heads: model::HEADS,
        kv_heads: model::HEADS,
        head_dim: model::HEAD_DIM,
        ffn: model::FFN,
        rope_dim: model::ROPE_DIM,
        classes: CLASSES,
        wbits: 8,
        eps: super::small_eps(),
        bias: false,
        gate_first: true,
        causal: false,
        attn_i4: bits == 4,
        attn_qk_bits: bits,
        bf16: false,
    }
}

/// Whether the blocks there are, if any, are not those of this length and width.
pub fn ensure_blocks(have: Option<(usize, usize)>, tokens: usize, qk_bits: usize) -> (build: bool)
    ensures
        build == !(have is Some && have->0 == (tokens, qk_bits)),
{
    match have {
        Some((t, bits)) => !(t == tokens && bits == qk_bits),
        None => true,
    }
}

/// The blocks' stack, the final layer, and the buffers that depend on the sequence length.
pub struct Blocks {
    pub stack: Stack,
    pub tokens: usize,
    pub qk_bits: usize,
    /// the final head has only the video and audio timestep classes
    pub final_norm: NormMod,
    pub final_norm_scale: BufferRef,
    pub audio_in: Projection,
    pub video_in: Projection,
    pub final_out: Projection,
    /// the text rows, kept so they can be restored each step
    pub text_copy: Buffer,
}

impl Blocks {
    pub open spec fn wf(&self) -> bool {
        &&& self.stack.wf()
        &&& self.stack.plan.tokens == self.tokens
        &&& self.stack.plan.layers == BLOCKS
        &&& self.stack.plan.d.hidden == HID
        &&& self.stack.plan.d.classes == CLASSES
        &&& self.final_norm.width == HID
        &&& self.final_norm.classes == 2
        &&& self.final_norm_scale.length >= HID * 4
        &&& self.audio_in.from_to(AUDIO_CH as int, HID as int)
        &&& self.video_in.from_to(VIDEO_PATCH as int, HID as int)
        &&& self.final_out.from_to(HID as int, FINAL_N as int)
        &&& seq_countable(super::capacity_for(self.tokens as int))
        &&& self.text_copy.size() == super::capacity_for(self.tokens as int) * HID * 4
    }
}

/// The step cache's buffers, and the kernel that measures the change of a block's output.
#[derive(Debug)]
pub struct CacheBuffers {
    /// the elements of the stream
    pub n: usize,
    /// how many partial sums the measure comes in
    pub groups: usize,
    pub xb0: Buffer,
    pub prev: Buffer,
    pub resid: Buffer,
    pub partials: Buffer,
    pub metric: compile::Specialization,
    /// `y = x + y`, and `y = y - x`
    pub plus: compile::Specialization,
    pub minus: compile::Specialization,
}

impl CacheBuffers {
    pub open spec fn wf(&self) -> bool {
        &&& self.n * 4 <= usize::MAX
        &&& self.groups * 8 <= usize::MAX
        &&& self.xb0.size() >= self.n * 4
        &&& self.prev.size() >= self.n * 4
        &&& self.resid.size() >= self.n * 4
        &&& self.partials.size() >= self.groups * 8
        &&& self.metric@ == metric_kernel()
        &&& self.plus@ == dispatch::axpy_kernel_of("1"@, "1"@)
        &&& self.minus@ == dispatch::axpy_kernel_of("-1"@, "1"@)
    }

    /// The step cache's kernels.
    pub fn kernels() -> (kernels: (
        compile::Specialization,
        compile::Specialization,
        compile::Specialization,
    ))
        ensures
            kernels.0@ == metric_kernel(),
            kernels.1@ == dispatch::axpy_kernel_of("1"@, "1"@),
            kernels.2@ == dispatch::axpy_kernel_of("-1"@, "1"@),
    {
        let metric = compile::Specialization {
            module: String::from_str("absdiff_sum_f32"),
            symbol: String::from_str("h3_absdiff_sum_f32"),
            config: Vec::new(),
        };
        assert(metric@.config =~= Seq::empty());
        (metric, dispatch::axpy_kernel("1", "1"), dispatch::axpy_kernel("-1", "1"))
    }
}

pub open spec fn metric_kernel() -> compile::SpecializationView {
    compile::SpecializationView {
        module: "absdiff_sum_f32"@,
        symbol: "h3_absdiff_sum_f32"@,
        config: Seq::empty(),
    }
}

/// Whether the step cache's buffers there are, if any, do not hold `n` elements.
pub fn ensure_cache(have: Option<usize>, n: usize) -> (build: bool)
    ensures
        build == !(have is Some && have->0 >= n),
{
    match have {
        Some(m) => m < n,
        None => true,
    }
}

// What a step does.

/// Rows on the host.
#[derive(Clone, Copy, Debug, PartialEq, Eq, Structural)]
pub enum Host {
    /// the audio's rows
    Audio,
    /// the video's rows
    Video,
    /// the final layer's output rows
    Head,
    /// the rows of a reference segment
    Segment(usize),
    /// the partial sums of the cache's measure
    Partials,
}

/// One thing a step does.
#[derive(Debug)]
pub enum Op<'a> {
    Launch(Launch<'a>),
    /// a copy on the device
    Copy { to: BufferRef, from: BufferRef },
    Upload { to: BufferRef, rows: Host },
    Read { from: BufferRef, rows: Host },
    /// the audio's rows from the carried variable's
    Carry,
    /// the rows of a reference segment from its latents
    Fill(usize),
    /// the multistep's advance of both rows from the head's output
    Advance,
}

pub enum OpView {
    Launch(LaunchView),
    Copy { to: BufferRef, from: BufferRef },
    Upload { to: BufferRef, rows: Host },
    Read { from: BufferRef, rows: Host },
    Carry,
    Fill(usize),
    Advance,
}

impl<'a> View for Op<'a> {
    type V = OpView;

    open spec fn view(&self) -> OpView {
        match self {
            Op::Launch(launch) => OpView::Launch(launch@),
            Op::Copy { to, from } => OpView::Copy { to: *to, from: *from },
            Op::Upload { to, rows } => OpView::Upload { to: *to, rows: *rows },
            Op::Read { from, rows } => OpView::Read { from: *from, rows: *rows },
            Op::Carry => OpView::Carry,
            Op::Fill(i) => OpView::Fill(*i),
            Op::Advance => OpView::Advance,
        }
    }
}

pub open spec fn ops_of(ops: Seq<Op>) -> Seq<OpView> {
    Seq::new(ops.len(), |i: int| ops[i]@)
}

fn put<'a>(ops: &mut Vec<Op<'a>>, op: Op<'a>)
    ensures
        ops_of(final(ops)@) == ops_of(old(ops)@).push(op@),
{
    let ghost before = ops@;
    ops.push(op);
    assert(ops_of(ops@) =~= ops_of(before).push(op@));
}

/// Launches one after the other.
pub open spec fn launches_of(launches: Seq<LaunchView>) -> Seq<OpView> {
    Seq::new(launches.len(), |i: int| OpView::Launch(launches[i]))
}

fn put_all<'a>(ops: &mut Vec<Op<'a>>, launches: Vec<Launch<'a>>)
    ensures
        ops_of(final(ops)@) == ops_of(old(ops)@) + launches_of(dispatch::seen(launches@)),
{
    let ghost before = ops_of(ops@);
    let ghost all = dispatch::seen(launches@);
    let mut left = launches;
    let mut turned: Vec<Launch<'a>> = Vec::new();
    // the last first, so that each can be taken from the end
    while left.len() > 0
        invariant
            left@.len() + turned@.len() == all.len(),
            forall|i: int| 0 <= i < left@.len() ==> (#[trigger] left@[i])@ == all[i],
            forall|i: int|
                0 <= i < turned@.len() ==> (#[trigger] turned@[i])@ == all[all.len() - 1 - i],
        decreases left@.len(),
    {
        if let Some(launch) = left.pop() {
            turned.push(launch);
        }
    }
    assert(ops_of(ops@) =~= before + launches_of(all.take(0)));
    while turned.len() > 0
        invariant
            turned@.len() <= all.len(),
            forall|i: int|
                0 <= i < turned@.len() ==> (#[trigger] turned@[i])@ == all[all.len() - 1 - i],
            ops_of(ops@) == before + launches_of(all.take(all.len() - turned@.len())),
        decreases turned@.len(),
    {
        let ghost n = all.len() - turned@.len();
        if let Some(launch) = turned.pop() {
            put(ops, Op::Launch(launch));
            assert(ops_of(ops@) =~= before + launches_of(all.take(n + 1)));
        }
    }
    assert(all.take(all.len() as int) =~= all);
}

/// Where the parts of a run's sequence are: the text and reference rows, then the audio's, then the
/// video's.
#[derive(Clone, Copy, Debug)]
pub struct Pack {
    pub lr: usize,
    pub na: usize,
    pub nv: usize,
}

impl Pack {
    pub open spec fn length(&self) -> int {
        self.lr + self.na + self.nv
    }

    pub open spec fn generated(&self) -> int {
        self.na + self.nv
    }
}

/// A reference segment of the sequence.
#[derive(Clone, Copy, Debug)]
pub struct Segment {
    pub row0: usize,
    pub rows: usize,
    pub audio: bool,
}

/// A run: its buffers, sized and written, and where its parts are.
pub struct Denoise<'a> {
    pub seq: &'a SeqBuffers,
    pub blocks: &'a Blocks,
    pub cond: &'a Conditioning,
    /// the resident latents, where the run advances on the device
    pub euler: Option<&'a Euler>,
    pub pack: Pack,
}

impl<'a> Denoise<'a> {
    /// The buffers belong to this run's sequence, and its classes have been written.
    pub open spec fn wf(&self) -> bool {
        &&& self.seq.wf()
        &&& self.blocks.wf()
        &&& self.cond.wf()
        &&& self.pack.length() == self.blocks.tokens
        &&& self.pack.length() <= self.seq.capacity
        &&& self.seq.cls.values().len() >= self.pack.length()
        &&& self.seq.cls.checked_against() <= CLASSES
        &&& self.seq.tcls.values().len() >= self.pack.generated()
        &&& self.seq.tcls.checked_against() <= 2
        &&& self.euler matches Some(e) ==> e.wf() && e.audio_rows == self.pack.na && e.video_rows
            == self.pack.nv
    }

    /// The launch that writes rows of the stream from a patch projection.
    pub open spec fn embeds(
        &self,
        stage: Seq<char>,
        row0: int,
        rows: usize,
        audio: bool,
        input: BufferRef,
    ) -> OpView {
        let projection = if audio {
            self.blocks.audio_in
        } else {
            self.blocks.video_in
        };
        OpView::Launch(
            projection.projects(stage, rows, input, self.seq.rows_of(row0, rows as int)),
        )
    }

    fn embed_f32(
        &self,
        stage: &'a str,
        row0: usize,
        rows: usize,
        audio: bool,
        input: BufferRef,
        ops: &mut Vec<Op<'a>>,
    )
        requires
            self.wf(),
            row0 + rows <= self.seq.capacity,
            input.length >= rows * (if audio {
                AUDIO_CH
            } else {
                VIDEO_PATCH
            }) * 4,
        ensures
            ops_of(final(ops)@) == ops_of(old(ops)@).push(
                self.embeds(stage@, row0 as int, rows, audio, input),
            ),
    {
        let projection: &'a Projection = if audio {
            &self.blocks.audio_in
        } else {
            &self.blocks.video_in
        };
        proof {
            let (k, n) = (projection.op.k as int, projection.op.n as int);
            assert(k == (if audio {
                32int
            } else {
                96
            }) && n == 5376);
            assert(rows * k * 4 <= rows * 5376 * 4 && rows * n * 4 == rows * 5376 * 4 && (audio
                ==> rows * k == rows * 32) && (!audio ==> rows * k == rows * 96))
                by (nonlinear_arith)
                requires
                    k == (if audio {
                        32int
                    } else {
                        96
                    }),
                    n == 5376,
                    rows >= 0,
            ;
        }
        let out = self.seq.rows(row0, rows);
        match projection.run(stage, rows, input, out) {
            Ok(launch) => put(ops, Op::Launch(launch)),
            Err(_) => {
                assert(false);
            },
        }
    }

    /// The two modulation tables of one step's four timestep embeddings: video, audio, and the two
    /// conditioning classes.
    pub open spec fn mods_ops(&self, te: Seq<[u32; 8]>) -> Seq<OpView> {
        Seq::new(
            6,
            |i: int|
                OpView::Launch(
                    if i < 4 {
                        device::modulation_launch(
                            self.cond.adaln,
                            i,
                            te[i]@,
                            self.cond.mods.whole(),
                        )
                    } else {
                        device::modulation_launch(
                            self.cond.final_adaln,
                            i - 4,
                            te[i - 4]@,
                            self.cond.final_table.whole(),
                        )
                    },
                ),
        )
    }

    fn build_mods(&self, te: &[[u32; 8]; 4], ops: &mut Vec<Op<'a>>)
        requires
            self.wf(),
        ensures
            ops_of(final(ops)@) == ops_of(old(ops)@) + self.mods_ops(te@),
    {
        let ghost before = ops_of(ops@);
        let mut first: Vec<[u32; 8]> = Vec::new();
        first.push(te[0]);
        first.push(te[1]);
        let mut all: Vec<[u32; 8]> = Vec::new();
        all.push(te[0]);
        all.push(te[1]);
        all.push(te[2]);
        all.push(te[3]);
        match self.cond.adaln.run(all.as_slice(), &self.cond.mods) {
            Ok(launches) => {
                let ghost seen = dispatch::seen(launches@);
                put_all(ops, launches);
                assert(ops_of(ops@) =~= before + self.mods_ops(te@).take(4));
            },
            Err(_) => {
                assert(false);
            },
        }
        match self.cond.final_adaln.run(first.as_slice(), &self.cond.final_table) {
            Ok(launches) => {
                let ghost seen = dispatch::seen(launches@);
                put_all(ops, launches);
                assert(ops_of(ops@) =~= before + self.mods_ops(te@));
            },
            Err(_) => {
                assert(false);
            },
        }
    }
}

impl<'a> Denoise<'a> {
    /// Whether a segment lies among the text and reference rows.
    pub open spec fn holds(&self, segment: Segment) -> bool {
        segment.row0 + segment.rows <= self.pack.lr
    }

    /// A reference segment's rows: its latents into the embedder's input, and through its patch projection.
    pub open spec fn segment_ops(&self, i: usize, segment: Segment) -> Seq<OpView> {
        let channels = if segment.audio {
            AUDIO_CH
        } else {
            VIDEO_PATCH
        };
        seq![
            OpView::Fill(i),
            OpView::Upload {
                to: self.seq.in32.part(0, (segment.rows * channels * 4) as usize),
                rows: Host::Segment(i),
            },
            self.embeds(
                if segment.audio {
                    "ref audio in"@
                } else {
                    "ref video in"@
                },
                segment.row0 as int,
                segment.rows,
                segment.audio,
                self.seq.in32.whole(),
            ),
        ]
    }

    pub open spec fn reference_ops(&self, segments: Seq<Segment>) -> Seq<OpView>
        decreases segments.len(),
    {
        if segments.len() == 0 {
            Seq::empty()
        } else {
            self.reference_ops(segments.drop_last()) + self.segment_ops(
                (segments.len() - 1) as usize,
                segments.last(),
            )
        }
    }

    #[verifier::rlimit(40)]
    #[verifier::spinoff_prover]
    fn inject_references(&self, segments: &[Segment], ops: &mut Vec<Op<'a>>)
        requires
            self.wf(),
            forall|i: int| 0 <= i < segments@.len() ==> self.holds(#[trigger] segments@[i]),
        ensures
            ops_of(final(ops)@) == ops_of(old(ops)@) + self.reference_ops(segments@),
    {
        let ghost before = ops_of(ops@);
        let mut i: usize = 0;
        assert(segments@.take(0).len() == 0);
        assert(ops_of(ops@) =~= before + self.reference_ops(segments@.take(0)));
        while i < segments.len()
            invariant
                self.wf(),
                i <= segments@.len(),
                forall|i: int| 0 <= i < segments@.len() ==> self.holds(#[trigger] segments@[i]),
                ops_of(ops@) == before + self.reference_ops(segments@.take(i as int)),
            decreases segments@.len() - i,
        {
            let ghost next = segments@.take(i + 1);
            let ghost start = ops_of(ops@);
            let segment = segments[i];
            proof {
                assert(self.holds(segments@[i as int]));
                assert(next.drop_last() =~= segments@.take(i as int));
                assert(next.last() == segment);
            }
            put(ops, Op::Fill(i));
            let bytes: usize = if segment.audio {
                segment.rows * AUDIO_CH * 4
            } else {
                segment.rows * VIDEO_PATCH * 4
            };
            put(
                ops,
                Op::Upload { to: self.seq.in32.slice(0, bytes), rows: Host::Segment(i) },
            );
            let stage: &'a str = if segment.audio {
                "ref audio in"
            } else {
                "ref video in"
            };
            self.embed_f32(
                stage,
                segment.row0,
                segment.rows,
                segment.audio,
                self.seq.in32.binding(),
                ops,
            );
            assert(ops_of(ops@) =~= start + self.segment_ops(i, segment));
            assert(ops_of(ops@) =~= before + self.reference_ops(next));
            i += 1;
        }
        assert(segments@.take(i as int) =~= segments@);
    }

    /// The generated rows of the stream: the audio's then the video's, each through its patch projection.
    pub open spec fn input_ops(&self) -> Seq<OpView> {
        let (lr, na, nv) = (self.pack.lr, self.pack.na, self.pack.nv);
        match self.euler {
            None => seq![
                OpView::Carry,
                OpView::Upload {
                    to: self.seq.in32.part(0, (na * AUDIO_CH * 4) as usize),
                    rows: Host::Audio,
                },
                self.embeds("audio in"@, lr as int, na, true, self.seq.in32.whole()),
                OpView::Upload {
                    to: self.seq.in32.part(0, (nv * VIDEO_PATCH * 4) as usize),
                    rows: Host::Video,
                },
                self.embeds("video in"@, lr + na, nv, false, self.seq.in32.whole()),
            ],
            Some(e) => seq![
                self.embeds("audio in"@, lr as int, na, true, e.audio.whole()),
                self.embeds("video in"@, lr + na, nv, false, e.video.whole()),
            ],
        }
    }

    #[verifier::rlimit(40)]
    #[verifier::spinoff_prover]
    fn feed(&self, ops: &mut Vec<Op<'a>>)
        requires
            self.wf(),
        ensures
            ops_of(final(ops)@) == ops_of(old(ops)@) + self.input_ops(),
    {
        let ghost before = ops_of(ops@);
        let (lr, na, nv): (usize, usize, usize) = (self.pack.lr, self.pack.na, self.pack.nv);
        match self.euler {
            None => {
                put(ops, Op::Carry);
                put(
                    ops,
                    Op::Upload { to: self.seq.in32.slice(0, na * AUDIO_CH * 4), rows: Host::Audio },
                );
                self.embed_f32("audio in", lr, na, true, self.seq.in32.binding(), ops);
                put(
                    ops,
                    Op::Upload {
                        to: self.seq.in32.slice(0, nv * VIDEO_PATCH * 4),
                        rows: Host::Video,
                    },
                );
                self.embed_f32("video in", lr + na, nv, false, self.seq.in32.binding(), ops);
            },
            Some(e) => {
                self.embed_f32("audio in", lr, na, true, e.audio.binding(), ops);
                self.embed_f32("video in", lr + na, nv, false, e.video.binding(), ops);
            },
        }
        assert(ops_of(ops@) =~= before + self.input_ops());
    }

    /// The text and reference rows: written and kept at the first step, restored at every other, since the
    /// blocks update the stream in place.
    pub open spec fn text_ops(&self, step: int, segments: Seq<Segment>) -> Seq<OpView> {
        let kept = self.blocks.text_copy.part(0, (self.pack.lr * HID * 4) as usize);
        let rows = self.seq.rows_of(0, self.pack.lr as int);
        if step == 0 {
            self.reference_ops(segments).push(OpView::Copy { to: kept, from: rows })
        } else {
            seq![OpView::Copy { to: rows, from: kept }]
        }
    }

    /// What a step does before the blocks run.
    pub open spec fn opening_ops(&self, step: int, te: Seq<[u32; 8]>, segments: Seq<Segment>) -> Seq<
        OpView,
    > {
        self.mods_ops(te) + self.input_ops() + self.text_ops(step, segments)
    }

    /// What a step does before the blocks run: the modulation tables, the generated rows, and the text and
    /// reference rows.
    pub fn opening(&self, step: usize, te: &[[u32; 8]; 4], segments: &[Segment]) -> (ops: Vec<Op<'a>>)
        requires
            self.wf(),
            forall|i: int| 0 <= i < segments@.len() ==> self.holds(#[trigger] segments@[i]),
        ensures
            ops_of(ops@) == self.opening_ops(step as int, te@, segments@),
    {
        let mut ops: Vec<Op<'a>> = Vec::new();
        assert(ops_of(ops@) =~= Seq::empty());
        self.build_mods(te, &mut ops);
        self.feed(&mut ops);
        let ghost before = ops_of(ops@);
        assert(before =~= self.mods_ops(te@) + self.input_ops());
        let lr: usize = self.pack.lr;
        let kept = self.blocks.text_copy.slice(0, lr * HID * 4);
        let rows = self.seq.rows(0, lr);
        if step == 0 {
            self.inject_references(segments, &mut ops);
            put(&mut ops, Op::Copy { to: kept, from: rows });
        } else {
            put(&mut ops, Op::Copy { to: rows, from: kept });
        }
        assert(ops_of(ops@) =~= before + self.text_ops(step as int, segments@));
        ops
    }

    /// What the blocks read and write.
    pub open spec fn inputs_of(&self, inputs: Inputs) -> bool {
        &&& inputs.x == self.seq.x.whole()
        &&& inputs.cls.of(&self.seq.cls, 0, self.pack.length())
        &&& inputs.cos == self.seq.cos.whole()
        &&& inputs.sin == self.seq.sin.whole()
    }

    fn inputs(&self) -> (inputs: Inputs)
        requires
            self.wf(),
        ensures
            self.inputs_of(inputs),
            inputs.cover(self.blocks.stack),
    {
        let inputs = Inputs {
            x: self.seq.x.binding(),
            cls: self.seq.cls.slice(0, self.blocks.tokens),
            cos: self.seq.cos.binding(),
            sin: self.seq.sin.binding(),
        };
        proof {
            let (t, h) = (self.blocks.tokens as int, self.blocks.stack.plan.d.hidden as int);
            assert(t * h == t * 5376) by (nonlinear_arith)
                requires
                    h == 5376,
            ;
        }
        inputs
    }

    /// The conditioning of every layer.
    pub open spec fn conds_of(&self) -> Seq<LayerCond> {
        Seq::new(BLOCKS as nat, |i: int| layer_cond_of(self.cond.mods, i))
    }

    fn conds(&self) -> (conds: Vec<LayerCond>)
        requires
            self.wf(),
        ensures
            conds@ == self.conds_of(),
    {
        let mut conds: Vec<LayerCond> = Vec::new();
        let mut i: usize = 0;
        while i < BLOCKS
            invariant
                self.wf(),
                i <= BLOCKS,
                conds@ == self.conds_of().take(i as int),
            decreases BLOCKS - i,
        {
            conds.push(layer_cond(&self.cond.mods, i));
            i += 1;
            assert(conds@ =~= self.conds_of().take(i as int));
        }
        assert(conds@ =~= self.conds_of());
        conds
    }

    /// The launches of the layers from `first` up to `last`.
    pub open spec fn block_ops<
        L: Fn(usize) -> Option<usize>,
        F: Fn(usize, usize, usize) -> u32,
        M: Fn(usize, usize, usize, usize) -> u32,
        G: Fn(usize, u32, usize) -> u32,
    >(
        &self,
        tuning: Tuning<L, F, M, G>,
        inputs: Inputs,
        first: int,
        last: int,
    ) -> Seq<OpView> {
        let steps = self.blocks.stack.forward_steps(tuning, inputs, self.conds_of(), first, last);
        Seq::new(steps.len(), |i: int| OpView::Launch(steps[i].launch))
    }

    fn forward<
        L: Fn(usize) -> Option<usize>,
        F: Fn(usize, usize, usize) -> u32,
        M: Fn(usize, usize, usize, usize) -> u32,
        G: Fn(usize, u32, usize) -> u32,
    >(
        &self,
        tuning: &Tuning<L, F, M, G>,
        inputs: &Inputs,
        first: usize,
        last: usize,
        ops: &mut Vec<Op<'a>>,
    )
        requires
            self.wf(),
            tuning.measured(),
            inputs.cover(self.blocks.stack),
            last <= BLOCKS,
        ensures
            ops_of(final(ops)@) == ops_of(old(ops)@) + self.block_ops(
                *tuning,
                *inputs,
                first as int,
                last as int,
            ),
    {
        let ghost before = ops_of(ops@);
        let conds = self.conds();
        let blocks: &'a Blocks = self.blocks;
        proof {
            assert forall|i: int| first <= i < last implies (#[trigger] conds@[i]).covers(
                blocks.stack.plan.d,
            ) by {
                law_a_layers_slices_cover_its_classes(self.cond.mods, i, blocks.stack.plan.d);
            }
            stack::law_a_pass_is_never_refused(
                &blocks.stack,
                *tuning,
                *inputs,
                conds@,
                first as int,
                last as int,
            );
        }
        let (launches, _) = blocks.stack.forward(
            tuning,
            inputs,
            conds.as_slice(),
            first,
            Some(last),
        );
        put_all(ops, launches);
        assert(ops_of(ops@) =~= before + self.block_ops(
            *tuning,
            *inputs,
            first as int,
            last as int,
        ));
    }

    /// The blocks straight through.
    pub fn run_blocks<
        L: Fn(usize) -> Option<usize>,
        F: Fn(usize, usize, usize) -> u32,
        M: Fn(usize, usize, usize, usize) -> u32,
        G: Fn(usize, u32, usize) -> u32,
    >(&self, tuning: &Tuning<L, F, M, G>) -> (ops: Vec<Op<'a>>)
        requires
            self.wf(),
            tuning.measured(),
        ensures
            exists|inputs: Inputs| #[trigger]
                self.inputs_of(inputs) && ops_of(ops@) == self.block_ops(
                    *tuning,
                    inputs,
                    0,
                    BLOCKS as int,
                ),
    {
        let mut ops: Vec<Op<'a>> = Vec::new();
        let inputs = self.inputs();
        assert(ops_of(ops@) =~= Seq::empty());
        self.forward(tuning, &inputs, 0, BLOCKS, &mut ops);
        assert(self.inputs_of(inputs));
        ops
    }

    /// What the cache's buffers must hold for this run.
    pub open spec fn caches(&self, cache: CacheBuffers) -> bool {
        cache.wf() && cache.n >= self.pack.length() * HID
    }

    /// The measure of how the first block's output changed since the step before.
    pub open spec fn metric_ops(&self, cache: CacheBuffers) -> Seq<OpView> {
        let n = self.pack.length() * HID;
        seq![
            OpView::Launch(
                LaunchView {
                    kernel: cache.metric@,
                    stage: "cache metric"@,
                    grid: dispatch::line(cache.groups as u32),
                    block: dispatch::line(model::THREADS),
                    scalars: seq![n as u32],
                    bindings: seq![
                        self.seq.x.whole(),
                        cache.prev.whole(),
                        cache.partials.whole(),
                    ],
                },
            ),
            OpView::Read {
                from: cache.partials.part(0, (cache.groups * 8) as usize),
                rows: Host::Partials,
            },
        ]
    }

    /// The first block alone, and the measure of its change where there is a step to compare with.
    #[verifier::rlimit(40)]
    #[verifier::spinoff_prover]
    pub fn run_first_block<
        L: Fn(usize) -> Option<usize>,
        F: Fn(usize, usize, usize) -> u32,
        M: Fn(usize, usize, usize, usize) -> u32,
        G: Fn(usize, u32, usize) -> u32,
    >(
        &self,
        tuning: &Tuning<L, F, M, G>,
        cache: &'a CacheBuffers,
        step: usize,
    ) -> (ops: Vec<Op<'a>>)
        requires
            self.wf(),
            tuning.measured(),
            self.caches(*cache),
        ensures
            exists|inputs: Inputs| #[trigger]
                self.inputs_of(inputs) && ops_of(ops@) == self.block_ops(*tuning, inputs, 0, 1)
                    + if step > 0 {
                    self.metric_ops(*cache)
                } else {
                    Seq::empty()
                },
    {
        let mut ops: Vec<Op<'a>> = Vec::new();
        let inputs = self.inputs();
        assert(ops_of(ops@) =~= Seq::empty());
        self.forward(tuning, &inputs, 0, 1, &mut ops);
        let ghost before = ops_of(ops@);
        assert(before =~= self.block_ops(*tuning, inputs, 0, 1));
        if step > 0 {
            let n: usize = self.blocks.tokens * HID;
            let mut args = dispatch::Args::new(self.seq.x.binding(), n * 4);
            args.push(cache.prev.binding(), n * 4);
            args.push(cache.partials.binding(), cache.groups * 8);
            proof {
                assert(args.all() =~= seq![
                    dispatch::arg(self.seq.x.whole(), n * 4),
                    dispatch::arg(cache.prev.whole(), n * 4),
                    dispatch::arg(cache.partials.whole(), cache.groups * 8),
                ]);
                dispatch::lemma_covered(args.all());
            }
            let ghost all = args.all();
            match dispatch::checked(
                &cache.metric,
                "cache metric",
                Extent { x: cache.groups as u32, y: 1, z: 1 },
                Extent { x: model::THREADS, y: 1, z: 1 },
                n as u32,
                args,
            ) {
                Ok(launch) => {
                    proof {
                        assert(dispatch::views_of(all) =~= seq![
                            self.seq.x.whole(),
                            cache.prev.whole(),
                            cache.partials.whole(),
                        ]);
                    }
                    put(&mut ops, Op::Launch(launch));
                },
                Err(_) => {
                    assert(false);
                },
            }
            put(
                &mut ops,
                Op::Read {
                    from: cache.partials.slice(0, cache.groups * 8),
                    rows: Host::Partials,
                },
            );
            assert(ops_of(ops@) =~= before + self.metric_ops(*cache));
        } else {
            assert(ops_of(ops@) =~= before + Seq::empty());
        }
        assert(self.inputs_of(inputs));
        ops
    }

    /// `y = a x + b y` over the stream.
    pub open spec fn axpy_op(
        kernel: compile::SpecializationView,
        stage: Seq<char>,
        n: int,
        x: BufferRef,
        y: BufferRef,
    ) -> OpView {
        OpView::Launch(
            LaunchView {
                kernel,
                stage,
                grid: dispatch::line(dispatch::steps(n, 256) as u32),
                block: dispatch::line(model::THREADS),
                scalars: seq![n as u32],
                bindings: seq![x, y],
            },
        )
    }

    fn put_axpy(
        kernel: &'a compile::Specialization,
        stage: &'a str,
        n: usize,
        x: BufferRef,
        y: BufferRef,
        ops: &mut Vec<Op<'a>>,
    )
        requires
            n * 4 <= usize::MAX,
            x.length >= n * 4,
            y.length >= n * 4,
        ensures
            ops_of(final(ops)@) == ops_of(old(ops)@).push(
                Self::axpy_op(kernel@, stage@, n as int, x, y),
            ),
    {
        proof {
            let args = dispatch::axpy_args(n as int, x, y);
            dispatch::lemma_covered(args);
            assert(dispatch::views_of(args) =~= seq![x, y]);
        }
        match dispatch::axpy(kernel, stage, n, x, y) {
            Ok(launch) => put(ops, Op::Launch(launch)),
            Err(_) => {
                assert(false);
            },
        }
    }

    /// The rest of a cached step: the kept residual added where the other blocks are skipped; else they
    /// run, and what they changed is kept.
    pub open spec fn rest_ops<
        L: Fn(usize) -> Option<usize>,
        F: Fn(usize, usize, usize) -> u32,
        M: Fn(usize, usize, usize, usize) -> u32,
        G: Fn(usize, u32, usize) -> u32,
    >(
        &self,
        tuning: Tuning<L, F, M, G>,
        cache: CacheBuffers,
        inputs: Inputs,
        skip: bool,
    ) -> Seq<OpView> {
        let n = self.pack.length() * HID;
        let stream = self.seq.x.part(0, (n * 4) as usize);
        let (prev, xb0, resid) = (
            cache.prev.part(0, (n * 4) as usize),
            cache.xb0.part(0, (n * 4) as usize),
            cache.resid.part(0, (n * 4) as usize),
        );
        seq![OpView::Copy { to: prev, from: stream }] + if skip {
            seq![
                Self::axpy_op(
                    cache.plus@,
                    "cache add"@,
                    n,
                    cache.resid.whole(),
                    self.seq.x.whole(),
                ),
            ]
        } else {
            seq![OpView::Copy { to: xb0, from: stream }] + self.block_ops(
                tuning,
                inputs,
                1,
                BLOCKS as int,
            ) + seq![
                OpView::Copy { to: resid, from: stream },
                Self::axpy_op(
                    cache.minus@,
                    "cache resid"@,
                    n,
                    cache.xb0.whole(),
                    cache.resid.whole(),
                ),
            ]
        }
    }

    /// The rest of a cached step.
    pub fn run_rest<
        L: Fn(usize) -> Option<usize>,
        F: Fn(usize, usize, usize) -> u32,
        M: Fn(usize, usize, usize, usize) -> u32,
        G: Fn(usize, u32, usize) -> u32,
    >(
        &self,
        tuning: &Tuning<L, F, M, G>,
        cache: &'a CacheBuffers,
        skip: bool,
    ) -> (ops: Vec<Op<'a>>)
        requires
            self.wf(),
            tuning.measured(),
            self.caches(*cache),
        ensures
            exists|inputs: Inputs| #[trigger]
                self.inputs_of(inputs) && ops_of(ops@) == self.rest_ops(
                    *tuning,
                    *cache,
                    inputs,
                    skip,
                ),
    {
        let mut ops: Vec<Op<'a>> = Vec::new();
        let inputs = self.inputs();
        assert(ops_of(ops@) =~= Seq::empty());
        let n: usize = self.blocks.tokens * HID;
        let stream = self.seq.x.slice(0, n * 4);
        put(&mut ops, Op::Copy { to: cache.prev.slice(0, n * 4), from: stream });
        if skip {
            Self::put_axpy(
                &cache.plus,
                "cache add",
                n,
                cache.resid.binding(),
                self.seq.x.binding(),
                &mut ops,
            );
        } else {
            put(&mut ops, Op::Copy { to: cache.xb0.slice(0, n * 4), from: stream });
            self.forward(tuning, &inputs, 1, BLOCKS, &mut ops);
            // the residual of the blocks behind the first, which a skipped step adds instead of running
            // them
            put(&mut ops, Op::Copy { to: cache.resid.slice(0, n * 4), from: stream });
            Self::put_axpy(
                &cache.minus,
                "cache resid",
                n,
                cache.xb0.binding(),
                cache.resid.binding(),
                &mut ops,
            );
        }
        assert(ops_of(ops@) =~= self.rest_ops(*tuning, *cache, inputs, skip));
        assert(self.inputs_of(inputs));
        ops
    }
}

/// The scalars a step advances with on the device: the audio's and the video's.
#[derive(Clone, Copy, Debug)]
pub struct Ratios {
    pub audio: Ratio,
    pub video: Ratio,
}

impl<'a> Denoise<'a> {
    /// The final layer: the modulated norm on the generated rows, then the two heads. Two classes here, the
    /// video and audio timesteps, so four table rows.
    pub open spec fn final_ops(&self, tcls: dispatch::ClassRows) -> Seq<OpView> {
        let generated = self.pack.generated() as usize;
        let rows = self.seq.rows_of(self.pack.lr as int, self.pack.generated());
        let norm = self.blocks.final_norm;
        seq![
            OpView::Launch(
                norm.launch(
                    "final norm"@,
                    generated,
                    norm.args(
                        generated as int,
                        rows,
                        self.blocks.final_norm_scale,
                        self.cond.final_table.whole(),
                        tcls,
                    ),
                ),
            ),
            OpView::Launch(
                self.blocks.final_out.projects(
                    "final out"@,
                    generated,
                    rows,
                    self.seq.out32.whole(),
                ),
            ),
        ]
    }

    /// How a step ends: read back and advanced on the host, or advanced where the latents are.
    pub open spec fn advance_ops(&self, ratios: Ratios) -> Seq<OpView> {
        match self.euler {
            None => seq![
                OpView::Read {
                    from: self.seq.out32.part(
                        0,
                        (self.pack.generated() * FINAL_N * 4) as usize,
                    ),
                    rows: Host::Head,
                },
                OpView::Advance,
            ],
            Some(e) => seq![
                OpView::Launch(
                    Euler::advances(e.audio_kernel@, e.audio, self.seq.out32.whole(), ratios.audio),
                ),
                OpView::Launch(
                    Euler::advances(e.video_kernel@, e.video, self.seq.out32.whole(), ratios.video),
                ),
            ],
        }
    }

    /// What a step does after the blocks have run.
    #[verifier::rlimit(40)]
    #[verifier::spinoff_prover]
    pub fn closing(&self, ratios: Ratios) -> (ops: Vec<Op<'a>>)
        requires
            self.wf(),
        ensures
            exists|tcls: dispatch::ClassRows| #[trigger]
                tcls.of(&self.seq.tcls, 0, self.pack.generated()) && ops_of(ops@) == self.final_ops(
                    tcls,
                ) + self.advance_ops(ratios),
    {
        let mut ops: Vec<Op<'a>> = Vec::new();
        assert(ops_of(ops@) =~= Seq::empty());
        let generated: usize = self.pack.na + self.pack.nv;
        let rows = self.seq.rows(self.pack.lr, generated);
        let tcls = self.seq.tcls.slice(0, generated);
        let blocks: &'a Blocks = self.blocks;
        let table = self.cond.final_table.binding();
        proof {
            let norm = blocks.final_norm;
            let (g, w, c) = (generated as int, norm.width as int, norm.classes as int);
            assert(g * w * 4 == g * 5376 * 4 && c * w * 8 == 2 * 5376 * 8) by (nonlinear_arith)
                requires
                    w == 5376,
                    c == 2,
            ;
            let args = norm.args(g, rows, blocks.final_norm_scale, table, tcls);
            assert(args[0].need == g * w * 4 && args[1].need == w * 4);
            assert(args[2].need == c * w * 8 && args[3].need == g * 4);
            dispatch::lemma_covered(args);
            let (k, n) = (blocks.final_out.op.k as int, blocks.final_out.op.n as int);
            assert(g * k * 4 == g * 5376 * 4 && g * n * 4 == g * 128 * 4) by (nonlinear_arith)
                requires
                    k == 5376,
                    n == 128,
            ;
        }
        match blocks.final_norm.run(
            "final norm",
            generated,
            rows,
            blocks.final_norm_scale,
            table,
            tcls,
        ) {
            Ok(launch) => put(&mut ops, Op::Launch(launch)),
            Err(_) => {
                assert(false);
            },
        }
        match blocks.final_out.run("final out", generated, rows, self.seq.out32.binding()) {
            Ok(launch) => put(&mut ops, Op::Launch(launch)),
            Err(_) => {
                assert(false);
            },
        }
        assert(ops_of(ops@) =~= self.final_ops(tcls));
        match self.euler {
            None => {
                put(
                    &mut ops,
                    Op::Read {
                        from: self.seq.out32.slice(0, generated * FINAL_N * 4),
                        rows: Host::Head,
                    },
                );
                put(&mut ops, Op::Advance);
            },
            Some(e) => {
                match e.step(self.seq.out32.binding(), ratios.audio, ratios.video) {
                    Ok((audio, video)) => {
                        put(&mut ops, Op::Launch(audio));
                        put(&mut ops, Op::Launch(video));
                    },
                    Err(_) => {
                        assert(false);
                    },
                }
            },
        }
        assert(ops_of(ops@) =~= self.final_ops(tcls) + self.advance_ops(ratios));
        assert(tcls.of(&self.seq.tcls, 0, self.pack.generated()));
        ops
    }

    /// The stream's rows before the generated ones are touched by a step only as they should be: after its
    /// opening the last thing done to them is their restoration, or at the first step their copy.
    pub proof fn law_the_text_rows_are_restored(
        &self,
        step: int,
        te: Seq<[u32; 8]>,
        segments: Seq<Segment>,
    )
        requires
            step > 0,
        ensures
            self.opening_ops(step, te, segments).last() == (OpView::Copy {
                to: self.seq.rows_of(0, self.pack.lr as int),
                from: self.blocks.text_copy.part(0, (self.pack.lr * HID * 4) as usize),
            }),
            self.opening_ops(0, te, segments).last() == (OpView::Copy {
                to: self.blocks.text_copy.part(0, (self.pack.lr * HID * 4) as usize),
                from: self.seq.rows_of(0, self.pack.lr as int),
            }),
    {
    }
}

impl<'a> Denoise<'a> {
    /// Each timestep class is modulated by its own timestep. A step's opening launches the blocks' projection once for
    /// each of the four, and the final one once for the video's and once for the audio's; each launch has the eight
    /// numbers of its own timestep, and lands its rows by that timestep's own map in its own table. Nothing else is
    /// modulated.
    pub proof fn law_each_class_is_modulated_by_its_own_timestep(
        &self,
        step: int,
        te: Seq<[u32; 8]>,
        segments: Seq<Segment>,
        c: int,
    )
        requires
            self.wf(),
            0 <= c < 4,
        ensures
            exists|k: int|
                #![trigger self.opening_ops(step, te, segments)[k]]
                0 <= k < self.opening_ops(step, te, segments).len() && (self.opening_ops(
                    step,
                    te,
                    segments,
                )[k] matches OpView::Launch(l) && l.kernel == self.cond.adaln.plan.kernel@ && l.scalars == te[c]@
                    && l.bindings == seq![
                    self.cond.adaln.weights.whole(),
                    self.cond.adaln.bias.whole(),
                    self.cond.adaln.maps@[c].whole(),
                    self.cond.mods.whole(),
                ]),
            c < 2 ==> exists|k: int|
                #![trigger self.opening_ops(step, te, segments)[k]]
                0 <= k < self.opening_ops(step, te, segments).len() && (self.opening_ops(
                    step,
                    te,
                    segments,
                )[k] matches OpView::Launch(l) && l.kernel == self.cond.final_adaln.plan.kernel@ && l.scalars
                    == te[c]@ && l.bindings == seq![
                    self.cond.final_adaln.weights.whole(),
                    self.cond.final_adaln.bias.whole(),
                    self.cond.final_adaln.maps@[c].whole(),
                    self.cond.final_table.whole(),
                ]),
            forall|k: int|
                0 <= k < self.opening_ops(step, te, segments).len() ==> {
                    (#[trigger] self.opening_ops(step, te, segments)[k] matches OpView::Launch(l) && l.stage
                        == "modulation"@) ==> k < 6
                },
    {
        let ops = self.opening_ops(step, te, segments);
        assert(ops[c] == self.mods_ops(te)[c]);
        assert(ops[c + 4] == self.mods_ops(te)[c + 4] || c >= 2);
        self.lemma_only_six_modulate(step, te, segments);
    }

    proof fn lemma_only_six_modulate(&self, step: int, te: Seq<[u32; 8]>, segments: Seq<Segment>)
        requires
            self.wf(),
        ensures
            forall|k: int|
                0 <= k < self.opening_ops(step, te, segments).len() ==> {
                    (#[trigger] self.opening_ops(step, te, segments)[k] matches OpView::Launch(l) && l.stage
                        == "modulation"@) ==> k < 6
                },
    {
        reveal_strlit("modulation");
        reveal_strlit("audio in");
        reveal_strlit("video in");
        reveal_strlit("ref audio in");
        reveal_strlit("ref video in");
        assert("audio in"@.len() == 8 && "video in"@.len() == 8 && "ref audio in"@.len() == 12 && "ref video in"@.len()
            == 12 && "modulation"@.len() == 10);
        let ops = self.opening_ops(step, te, segments);
        let (a, b) = (self.mods_ops(te), self.input_ops());
        let c = self.text_ops(step, segments);
        self.lemma_references_do_not_modulate(segments);
        assert forall|k: int| 0 <= k < ops.len() implies {
            (#[trigger] ops[k] matches OpView::Launch(l) && l.stage == "modulation"@) ==> k < 6
        } by {
            if 6 <= k < 6 + b.len() {
                assert(ops[k] == b[k - 6]);
            } else if k >= 6 + b.len() {
                assert(ops[k] == c[k - 6 - b.len()]);
                let refs = self.reference_ops(segments);
                if step == 0 && k - 6 - b.len() < refs.len() {
                    assert(ops[k] == refs[k - 6 - b.len()]);
                }
            }
        }
    }

    proof fn lemma_references_do_not_modulate(&self, segments: Seq<Segment>)
        ensures
            forall|k: int|
                0 <= k < self.reference_ops(segments).len() ==> {
                    (#[trigger] self.reference_ops(segments)[k]) matches OpView::Launch(l) ==> l.stage
                        == "ref audio in"@ || l.stage == "ref video in"@
                },
        decreases segments.len(),
    {
        if segments.len() > 0 {
            let rest = self.reference_ops(segments.drop_last());
            let all = self.reference_ops(segments);
            self.lemma_references_do_not_modulate(segments.drop_last());
            assert forall|k: int| 0 <= k < all.len() implies {
                (#[trigger] all[k]) matches OpView::Launch(l) ==> l.stage == "ref audio in"@ || l.stage
                    == "ref video in"@
            } by {
                if k < rest.len() {
                    assert(all[k] == rest[k]);
                } else {
                    assert(all[k] == self.segment_ops((segments.len() - 1) as usize, segments.last())[k - rest.len()]);
                }
            }
        }
    }

    /// A layer modulates with what was projected for it. Of the six chunks a projection gives for a modality at a
    /// timestep, the attention's scale and shift are the two rows of its class that the layer's attention table begins
    /// with, its gate is the row of its class in the attention's gate; and so for the feed-forward. The class is three
    /// for each timestep, and the modality.
    pub proof fn law_a_layer_modulates_with_its_own_projection(
        &self,
        layer: int,
        modality: int,
        t: int,
    )
        requires
            self.wf(),
            0 <= layer < BLOCKS,
            0 <= modality < 3,
            0 <= t < 4,
        ensures
            ({
                let cond = layer_cond_of(self.cond.mods, layer);
                let map = self.cond.adaln.plan.maps@[t]@;
                let first = layer * 18 + modality * 6;
                let row = HID * 4;
                let class = 3 * t + modality;
                // shift, scale and gate of the attention, and then of the feed-forward
                &&& map[first] * row == cond.table_msa.offset + (2 * class + 1) * row
                &&& map[first + 1] * row == cond.table_msa.offset + 2 * class * row
                &&& map[first + 2] * row == cond.gate_msa.offset + class * row
                &&& map[first + 3] * row == cond.table_mlp.offset + (2 * class + 1) * row
                &&& map[first + 4] * row == cond.table_mlp.offset + 2 * class * row
                &&& map[first + 5] * row == cond.gate_mlp.offset + class * row
                &&& cond.table_msa.offset == layer * 72 * row
                &&& cond.gate_msa.offset == (layer * 72 + 24) * row
                &&& cond.table_mlp.offset == (layer * 72 + 36) * row
                &&& cond.gate_mlp.offset == (layer * 72 + 60) * row
                &&& cond.table_msa.buffer == self.cond.mods.handle() && cond.gate_msa.buffer == self.cond.mods.handle()
                &&& cond.table_mlp.buffer == self.cond.mods.handle() && cond.gate_mlp.buffer == self.cond.mods.handle()
            }),
    {
        reveal(device::destination);
        let map = self.cond.adaln.plan.maps@[t]@;
        assert(device::lands(device::Layers::Blocks, BLOCKS as int, t, map));
        let first = layer * 18 + modality * 6;
        assert forall|j: int| 0 <= j < 6 implies #[trigger] map[first + j] == layer * 72 + device::destination(
            3 * t + modality,
            j,
            12,
        ) by {
            let i = first + j;
            assert(i / 18 == layer && i / 6 % 3 == modality && i % 6 == j);
        }
        assert(map[first + 0] == layer * 72 + device::destination(3 * t + modality, 0, 12));
        assert(map[first + 1] == layer * 72 + device::destination(3 * t + modality, 1, 12));
        assert(map[first + 2] == layer * 72 + device::destination(3 * t + modality, 2, 12));
        assert(map[first + 3] == layer * 72 + device::destination(3 * t + modality, 3, 12));
        assert(map[first + 4] == layer * 72 + device::destination(3 * t + modality, 4, 12));
        assert(map[first + 5] == layer * 72 + device::destination(3 * t + modality, 5, 12));
    }

    /// The final table has the scale of each of its two classes, and behind it the shift: the second and the first of
    /// the chunks that the class's own timestep was projected to.
    pub proof fn law_the_final_table_is_scale_and_shift(&self, c: int)
        requires
            self.wf(),
            0 <= c < 2,
        ensures
            self.cond.final_adaln.plan.maps@[c]@ == seq![(2 * c + 1) as i32, (2 * c) as i32],
    {
        reveal(device::destination);
        let map = self.cond.final_adaln.plan.maps@[c]@;
        assert(device::lands(device::Layers::Last, 1, c, map));
        assert(map.len() == 2);
        assert(map[0] == 2 * c + 1 && map[1] == 2 * c);
        assert(map =~= seq![(2 * c + 1) as i32, (2 * c) as i32]);
    }

    /// A step's rows stand where the run's parts do: the audio's right behind the text and the references, the video's
    /// right behind the audio's, to the end of the sequence; each through its own projection, from its own latents.
    pub proof fn law_generated_rows_land_in_their_own_part(&self)
        requires
            self.wf(),
        ensures
            ({
                let row = HID * 4;
                let (lr, na, nv) = (self.pack.lr as int, self.pack.na as int, self.pack.nv as int);
                let ops = self.input_ops();
                let n = ops.len() as int;
                &&& n == if self.euler is Some {
                    2int
                } else {
                    5
                }
                &&& (ops[n - 1] matches OpView::Launch(video) && video.kernel == self.blocks.video_in.op.kernel@
                    && video.scalars == seq![nv as u32] && video.bindings.len() == 4 && video.bindings[1]
                    == self.blocks.video_in.weight && video.bindings[3].offset == (lr + na) * row
                    && video.bindings[3].length == nv * row && video.bindings[3].offset + video.bindings[3].length
                    == self.pack.length() * row)
                &&& (ops[if n == 2 {
                    0
                } else {
                    2
                }] matches OpView::Launch(audio) && audio.kernel == self.blocks.audio_in.op.kernel@ && audio.scalars
                    == seq![na as u32] && audio.bindings.len() == 4 && audio.bindings[1]
                    == self.blocks.audio_in.weight && audio.bindings[3].offset == lr * row
                    && audio.bindings[3].length == na * row)
                // from the latents on the device, or from rows that were just uploaded
                &&& match self.euler {
                    Some(e) => ops[0]->Launch_0.bindings[0] == e.audio.whole() && ops[1]->Launch_0.bindings[0]
                        == e.video.whole(),
                    None => {
                        &&& ops[0] is Carry
                        &&& ops[1] matches OpView::Upload { to, rows: Host::Audio } && to.length == na * 32 * 4
                            && to.offset == 0
                        &&& ops[2]->Launch_0.bindings[0] == self.seq.in32.whole()
                        &&& ops[3] matches OpView::Upload { to, rows: Host::Video } && to.length == nv * 96 * 4
                            && to.offset == 0
                        &&& ops[4]->Launch_0.bindings[0] == self.seq.in32.whole()
                    },
                }
            }),
    {
        let (lr, na, nv) = (self.pack.lr as int, self.pack.na as int, self.pack.nv as int);
        assert(0 <= (lr + na) * 5376 * 4 && (lr + na + nv) * 5376 * 4 <= self.seq.capacity * 5376 * 4) by (nonlinear_arith)
            requires
                0 <= lr,
                0 <= na,
                0 <= nv,
                lr + na + nv <= self.seq.capacity,
        ;
    }

    /// The kept rows are the same rows: what the first step keeps of the text and references, behind everything it wrote
    /// there, is what every other step begins with, and nothing a step writes before that lies among them.
    pub proof fn law_text_and_references_are_kept_whole(&self, te: Seq<[u32; 8]>, segments: Seq<Segment>, step: int)
        requires
            step > 0,
        ensures
            ({
                let (kept, later) = (self.opening_ops(0, te, segments), self.opening_ops(step, te, segments));
                &&& kept.last() matches OpView::Copy { to: copy, from: rows }
                &&& later.last() == (OpView::Copy { to: rows, from: copy })
                &&& rows == self.seq.rows_of(0, self.pack.lr as int)
                &&& later.len() == 6 + self.input_ops().len() + 1
                &&& kept.len() == later.len() + self.reference_ops(segments).len()
            }),
    {
    }

    /// A step ends on the rows it generated and no others: the norm and the heads read and write the audio's and the
    /// video's rows alone, the norm with the final table by each row's own class, and what comes out is what is advanced.
    pub proof fn law_a_step_ends_on_what_it_generated(&self, tcls: dispatch::ClassRows, ratios: Ratios)
        requires
            self.wf(),
        ensures
            ({
                let row = HID * 4;
                let n = self.pack.na + self.pack.nv;
                let ops = self.final_ops(tcls) + self.advance_ops(ratios);
                &&& ops.len() == 4
                &&& ops[0] matches OpView::Launch(norm)
                &&& ops[1] matches OpView::Launch(heads)
                &&& norm.kernel == self.blocks.final_norm.kernel@
                &&& heads.kernel == self.blocks.final_out.op.kernel@
                &&& norm.scalars == seq![n as u32] && heads.scalars == seq![n as u32]
                &&& norm.bindings == seq![
                    heads.bindings[0],
                    self.blocks.final_norm_scale,
                    self.cond.final_table.whole(),
                    tcls.binding(),
                ]
                &&& heads.bindings[0].offset == self.pack.lr * row && heads.bindings[0].length == n * row
                &&& heads.bindings[1] == self.blocks.final_out.weight && heads.bindings[2]
                    == self.blocks.final_out.bias
                &&& heads.bindings[3] == self.seq.out32.whole()
                &&& match self.euler {
                    None => {
                        &&& ops[2] matches OpView::Read { from, rows: Host::Head } && from.offset == 0 && from.length
                            == n * 128 * 4 && from.buffer == heads.bindings[3].buffer
                        &&& ops[3] is Advance
                    },
                    Some(e) => {
                        &&& ops[2] matches OpView::Launch(audio) && audio.kernel == e.audio_kernel@
                            && audio.bindings == seq![e.audio.whole(), heads.bindings[3]]
                            && audio.scalars == seq![ratios.audio.sigma, ratios.audio.ratio]
                        &&& ops[3] matches OpView::Launch(video) && video.kernel == e.video_kernel@
                            && video.bindings == seq![e.video.whole(), heads.bindings[3]]
                            && video.scalars == seq![ratios.video.sigma, ratios.video.ratio]
                    },
                }
            }),
    {
    }
}

impl<'a> Denoise<'a> {
    /// The segments are written one behind the other, each in three moves: its rows from its own latents, those rows up,
    /// and through the projection of what it is, a sound or a picture, to where its rows stand in the stream.
    pub proof fn law_a_segment_is_projected_into_its_own_rows(&self, segments: Seq<Segment>, i: int)
        requires
            self.wf(),
            segments.len() <= usize::MAX,
            0 <= i < segments.len(),
            self.holds(segments[i]),
        ensures
            self.reference_ops(segments).len() == 3 * segments.len(),
            ({
                let (ops, sg) = (self.reference_ops(segments), segments[i]);
                let (by, width) = if sg.audio {
                    (self.blocks.audio_in, 32int)
                } else {
                    (self.blocks.video_in, 96)
                };
                &&& ops[3 * i] == OpView::Fill(i as usize)
                &&& ops[3 * i + 1] matches OpView::Upload { to, rows } && rows == Host::Segment(i as usize) && to.buffer
                    == self.seq.in32.handle() && to.offset == 0 && to.length == sg.rows * width * 4
                &&& ops[3 * i + 2] matches OpView::Launch(l) && l.kernel == by.op.kernel@ && l.scalars == seq![
                    sg.rows as u32,
                ] && l.bindings.len() == 4 && l.bindings[0] == self.seq.in32.whole() && l.bindings[1] == by.weight
                    && l.bindings[2] == by.bias && l.bindings[3].buffer == self.seq.x.handle() && l.bindings[3].offset
                    == sg.row0 * 21504 && l.bindings[3].length == sg.rows * 21504
            }),
    {
        self.lemma_a_segments_moves(segments, i);
        self.lemma_reference_ops_len(segments);
        self.lemma_a_segment_moves(i as usize, segments[i]);
    }

    #[verifier::spinoff_prover]
    proof fn lemma_a_segment_moves(&self, i: usize, sg: Segment)
        requires
            self.wf(),
            self.holds(sg),
        ensures
            ({
                let own = self.segment_ops(i, sg);
                let (by, width) = if sg.audio {
                    (self.blocks.audio_in, 32int)
                } else {
                    (self.blocks.video_in, 96)
                };
                &&& own[0] == OpView::Fill(i)
                &&& own[1] matches OpView::Upload { to, rows } && rows == Host::Segment(i) && to.buffer
                    == self.seq.in32.handle() && to.offset == 0 && to.length == sg.rows * width * 4
                &&& own[2] matches OpView::Launch(l) && l.kernel == by.op.kernel@ && l.scalars == seq![sg.rows as u32]
                    && l.bindings == seq![
                    self.seq.in32.whole(),
                    by.weight,
                    by.bias,
                    self.seq.x.part((sg.row0 * 21504) as usize, (sg.rows * 21504) as usize),
                ]
                &&& sg.row0 * 21504 <= usize::MAX && sg.rows * 21504 <= usize::MAX
            }),
    {
        let own = self.segment_ops(i, sg);
        let by = if sg.audio {
            self.blocks.audio_in
        } else {
            self.blocks.video_in
        };
        let cap = self.seq.capacity as int;
        assert(sg.row0 * 5376 * 4 <= cap * 5376 * 4 && sg.rows * 5376 * 4 <= cap * 5376 * 4) by (nonlinear_arith)
            requires
                0 <= sg.row0 <= cap,
                0 <= sg.rows <= cap,
        ;
        if sg.audio {
            assert(own[1]->Upload_to.length == (sg.rows * 32 * 4) as usize);
        } else {
            assert(own[1]->Upload_to.length == (sg.rows * 96 * 4) as usize);
        }
        let to = self.seq.rows_of(sg.row0 as int, sg.rows as int);
        assert(own[2]->Launch_0.bindings =~= seq![self.seq.in32.whole(), by.weight, by.bias, to]);
    }

    proof fn lemma_a_segments_moves(&self, segments: Seq<Segment>, i: int)
        requires
            0 <= i < segments.len(),
        ensures
            self.reference_ops(segments)[3 * i] == self.segment_ops(i as usize, segments[i])[0],
            self.reference_ops(segments)[3 * i + 1] == self.segment_ops(i as usize, segments[i])[1],
            self.reference_ops(segments)[3 * i + 2] == self.segment_ops(i as usize, segments[i])[2],
        decreases segments.len(),
    {
        let short = segments.drop_last();
        self.lemma_reference_ops_len(short);
        if i < segments.len() - 1 {
            self.lemma_a_segments_moves(short, i);
            assert(short[i] == segments[i]);
        }
    }

    proof fn lemma_reference_ops_len(&self, segments: Seq<Segment>)
        ensures
            self.reference_ops(segments).len() == 3 * segments.len(),
        decreases segments.len(),
    {
        if segments.len() > 0 {
            self.lemma_reference_ops_len(segments.drop_last());
        }
    }

    /// Launch `k` of layer `i` comes behind all the launches of the layers before it, and is that layer's own, with what
    /// the layer was given of the modulation table.
    pub proof fn law_the_blocks_run_in_order<
        L: Fn(usize) -> Option<usize>,
        F: Fn(usize, usize, usize) -> u32,
        M: Fn(usize, usize, usize, usize) -> u32,
        G: Fn(usize, u32, usize) -> u32,
    >(&self, tuning: Tuning<L, F, M, G>, inputs: Inputs, first: int, last: int, i: int, k: int)
        requires
            self.wf(),
            0 <= first <= i < last <= BLOCKS,
            0 <= k < self.blocks.stack.second_norm() + if self.blocks.stack.plan.direct_down {
                3int
            } else {
                4
            },
        ensures
            ({
                let stack = self.blocks.stack;
                let each = stack.second_norm() + if stack.plan.direct_down {
                    3int
                } else {
                    4
                };
                let ops = self.block_ops(tuning, inputs, first, last);
                &&& ops.len() == (last - first) * each
                &&& ops[(i - first) * each + k] == OpView::Launch(
                    stack.block_steps(tuning, stack.blocks@[i], inputs, layer_cond_of(self.cond.mods, i))[k].launch,
                )
            }),
    {
        let stack = self.blocks.stack;
        let each = stack.second_norm() + if stack.plan.direct_down {
            3int
        } else {
            4
        };
        stack::law_a_pass_takes_its_layers_in_order(&stack, tuning, inputs, self.conds_of(), first, last, i, k);
        assert(0 <= (i - first) * each + k < (last - first) * each) by (nonlinear_arith)
            requires
                0 <= first <= i < last,
                0 <= k < each,
        ;
    }

    /// A cached step measures the stream against what was kept of the step before, and keeps the stream. Where the other
    /// blocks are skipped, what they last added is added to the stream and nothing else is done. Else the stream is put
    /// by, all the other blocks run on it, and what they added is kept: the stream after them, less what was put by.
    pub proof fn law_a_skipped_step_adds_what_was_kept<
        L: Fn(usize) -> Option<usize>,
        F: Fn(usize, usize, usize) -> u32,
        M: Fn(usize, usize, usize, usize) -> u32,
        G: Fn(usize, u32, usize) -> u32,
    >(&self, tuning: Tuning<L, F, M, G>, cache: CacheBuffers, inputs: Inputs)
        requires
            self.wf(),
            self.caches(cache),
        ensures
            ({
                let n = (self.pack.lr + self.pack.na + self.pack.nv) * 5376;
                let bytes = (n * 4) as usize;
                let (measured, skipped, run) = (
                    self.metric_ops(cache),
                    self.rest_ops(tuning, cache, inputs, true),
                    self.rest_ops(tuning, cache, inputs, false),
                );
                let blocks = self.block_ops(tuning, inputs, 1, 50);
                let (stream, prev, put_by, added) = (self.seq.x, cache.prev, cache.xb0, cache.resid);
                let keeps = OpView::Copy { to: prev.part(0, bytes), from: stream.part(0, bytes) };
                &&& measured.len() == 2
                &&& measured[0] matches OpView::Launch(l) && l.kernel.symbol == "h3_absdiff_sum_f32"@ && l.scalars
                    == seq![n as u32] && l.bindings == seq![stream.whole(), prev.whole(), cache.partials.whole()]
                &&& measured[1] matches OpView::Read { from, rows: Host::Partials } && from.buffer
                    == cache.partials.handle() && from.offset == 0 && from.length == cache.groups * 8
                &&& skipped.len() == 2
                &&& skipped[0] == keeps
                &&& adds(skipped[1], "1"@, n, added.whole(), stream.whole())
                &&& run.len() == blocks.len() + 4
                &&& run[0] == keeps
                &&& run[1] == (OpView::Copy { to: put_by.part(0, bytes), from: stream.part(0, bytes) })
                &&& run.subrange(2, 2 + blocks.len() as int) == blocks
                &&& run[run.len() - 2] == (OpView::Copy { to: added.part(0, bytes), from: stream.part(0, bytes) })
                &&& adds(run.last(), "-1"@, n, put_by.whole(), added.whole())
            }),
    {
        let n = self.pack.length() * HID;
        let run = self.rest_ops(tuning, cache, inputs, false);
        let blocks = self.block_ops(tuning, inputs, 1, BLOCKS as int);
        assert(run.subrange(2, 2 + blocks.len() as int) =~= blocks);
    }
}

/// Whether this adds `a` times a buffer's numbers to another's.
pub open spec fn adds(op: OpView, a: Seq<char>, n: int, x: BufferRef, y: BufferRef) -> bool {
    op matches OpView::Launch(l) && l.kernel.symbol == "h3_axpy_f32"@ && l.kernel.config == seq![
        ("h3.axpy_f32."@ + "a"@, a),
        ("h3.axpy_f32."@ + "b"@, "1"@),
    ] && l.scalars == seq![n as u32] && l.bindings == seq![x, y]
}

/// Whether a progress callback lets a run go on.
pub fn after_step(cancelled: bool) -> (result: Result<()>)
    ensures
        if cancelled {
            result == Err::<(), Error>(Error::Cancelled)
        } else {
            result is Ok
        },
{
    if cancelled {
        return Err(Error::Cancelled);
    }
    Ok(())
}

// The prompt.

/// The refiner and what it is run with.
pub struct Refiner {
    pub stack: Stack,
    pub tokens: usize,
    /// no rope: the identity rotation at every row
    pub cos: Buffer,
    pub sin: Buffer,
    pub norm: NormMod,
}

/// Whether the refiner there is, if any, is not of this length.
pub fn ensure_refiner(have: Option<usize>, n: usize) -> (build: bool)
    ensures
        build == (have != Some(n)),
{
    match have {
        Some(tokens) => tokens != n,
        None => true,
    }
}

impl Refiner {
    pub open spec fn wf(&self) -> bool {
        &&& self.stack.wf()
        &&& self.stack.plan.tokens == self.tokens
        &&& self.stack.plan.layers == model::REFINER_BLOCKS
        &&& self.stack.plan.d.hidden == HID
        &&& self.stack.plan.d.classes == 1
        &&& self.norm.width == HID
        &&& self.norm.classes == 1
    }
}

/// The weights the prompt is projected and normed with.
#[derive(Clone, Copy, Debug)]
pub struct PromptWeights {
    pub cond_w: BufferRef,
    pub cond_b: BufferRef,
    pub final_norm: BufferRef,
}

impl PromptWeights {
    /// What each is asked for as.
    pub fn wanted() -> (wants: Vec<stack::Request>)
        ensures
            stack::asked(wants@) == seq![
                ("h3.cond.w"@, stack::Want::Bytes((HID * TEXT_DIM * 2) as usize)),
                ("h3.cond.b"@, stack::Want::Bytes((HID * 4) as usize)),
                ("h3.refiner.final_norm"@, stack::Want::Bytes((HID * 4) as usize)),
            ],
    {
        let mut wants: Vec<stack::Request> = Vec::new();
        wants.push(
            stack::Request {
                name: String::from_str("h3.cond.w"),
                want: stack::Want::Bytes(HID * TEXT_DIM * 2),
            },
        );
        wants.push(
            stack::Request {
                name: String::from_str("h3.cond.b"),
                want: stack::Want::Bytes(HID * 4),
            },
        );
        wants.push(
            stack::Request {
                name: String::from_str("h3.refiner.final_norm"),
                want: stack::Want::Bytes(HID * 4),
            },
        );
        assert(stack::asked(wants@) =~= seq![
            ("h3.cond.w"@, stack::Want::Bytes((HID * TEXT_DIM * 2) as usize)),
            ("h3.cond.b"@, stack::Want::Bytes((HID * 4) as usize)),
            ("h3.refiner.final_norm"@, stack::Want::Bytes((HID * 4) as usize)),
        ]);
        wants
    }

    pub open spec fn wf(&self) -> bool {
        &&& self.cond_w.length >= HID * TEXT_DIM * 2
        &&& self.cond_b.length >= HID * 4
        &&& self.final_norm.length >= HID * 4
    }
}

/// The prompt on its way into the front of the sequence.
pub struct Prompt<'a> {
    pub seq: &'a SeqBuffers,
    pub refiner: &'a Refiner,
    pub constants: &'a stack::Constants,
    pub weights: PromptWeights,
    /// the projection to the DiT's width
    pub proj: &'a dispatch::Matmul16,
}

impl<'a> Prompt<'a> {
    pub open spec fn wf(&self) -> bool {
        &&& self.seq.wf()
        &&& self.refiner.wf()
        &&& self.constants.wf()
        &&& self.weights.wf()
        &&& self.refiner.tokens <= self.seq.capacity
        &&& self.seq.cls0.values().len() >= self.refiner.tokens
        &&& self.seq.cls0.checked_against() <= 1
        &&& self.proj.k == TEXT_DIM && self.proj.n == HID && !self.proj.resid
        &&& self.refiner.tokens * TEXT_DIM * 4 <= usize::MAX
    }

    /// What the refiner reads and writes.
    pub open spec fn inputs_of(&self, inputs: Inputs) -> bool {
        &&& inputs.x == self.seq.x.whole()
        &&& inputs.cls.of(&self.seq.cls0, 0, self.refiner.tokens as int)
        &&& inputs.cos == self.refiner.cos.whole()
        &&& inputs.sin == self.refiner.sin.whole()
    }

    /// The refiner neither shifts nor gates.
    pub open spec fn conds_of(&self) -> Seq<LayerCond> {
        Seq::new(
            model::REFINER_BLOCKS as nat,
            |i: int|
                LayerCond {
                    table_msa: self.constants.zeros.whole(),
                    gate_msa: self.constants.ones.whole(),
                    table_mlp: self.constants.zeros.whole(),
                    gate_mlp: self.constants.ones.whole(),
                },
        )
    }

    /// The encoder's rows to the DiT's width, the refiner over them, and its final norm, which modulates
    /// with a single class: two zero rows.
    pub open spec fn launches_of<
        L: Fn(usize) -> Option<usize>,
        F: Fn(usize, usize, usize) -> u32,
        M: Fn(usize, usize, usize, usize) -> u32,
        G: Fn(usize, u32, usize) -> u32,
    >(
        &self,
        tuning: Tuning<L, F, M, G>,
        hidden: BufferRef,
        inputs: Inputs,
    ) -> Seq<LaunchView> {
        let n = self.refiner.tokens;
        let steps = self.refiner.stack.forward_steps(
            tuning,
            inputs,
            self.conds_of(),
            0,
            model::REFINER_BLOCKS as int,
        );
        let (w, norm) = (self.weights, self.refiner.norm);
        seq![
            self.proj.launch(
                "condition proj"@,
                n,
                self.proj.args(n as int, hidden, w.cond_w, w.cond_b, self.seq.x.whole(), None),
            ),
        ] + Seq::new(steps.len(), |i: int| steps[i].launch) + seq![
            norm.launch(
                "refiner final norm"@,
                n,
                norm.args(
                    n as int,
                    self.seq.x.whole(),
                    w.final_norm,
                    self.constants.zeros.whole(),
                    inputs.cls,
                ),
            ),
        ]
    }

    /// The prompt into the front of the sequence: what the encoder produced, projected, refined and
    /// normed, all landing in the first rows of the stream.
    pub fn text_in<
        L: Fn(usize) -> Option<usize>,
        F: Fn(usize, usize, usize) -> u32,
        M: Fn(usize, usize, usize, usize) -> u32,
        G: Fn(usize, u32, usize) -> u32,
    >(&self, tuning: &Tuning<L, F, M, G>, hidden: BufferRef) -> (ops: Vec<Op<'a>>)
        requires
            self.wf(),
            tuning.measured(),
            hidden.length >= self.refiner.tokens * TEXT_DIM * 4,
        ensures
            exists|inputs: Inputs| #[trigger]
                self.inputs_of(inputs) && ops_of(ops@) == launches_of(
                    self.launches_of(*tuning, hidden, inputs),
                ),
    {
        let mut ops: Vec<Op<'a>> = Vec::new();
        let n: usize = self.refiner.tokens;
        let refiner: &'a Refiner = self.refiner;
        let proj: &'a dispatch::Matmul16 = self.proj;
        let x = self.seq.x.binding();
        let w = self.weights;
        let zeros = self.constants.zeros.binding();
        let cls = self.seq.cls0.slice(0, n);
        let inputs = Inputs { x, cls, cos: refiner.cos.binding(), sin: refiner.sin.binding() };
        let cond = self.constants.identity();
        let mut conds: Vec<LayerCond> = Vec::new();
        let mut i: usize = 0;
        while i < model::REFINER_BLOCKS
            invariant
                i <= model::REFINER_BLOCKS,
                conds@.len() == i,
                forall|k: int| 0 <= k < i ==> #[trigger] conds@[k] == cond,
            decreases model::REFINER_BLOCKS - i,
        {
            conds.push(cond);
            i += 1;
        }
        assert(conds@ =~= self.conds_of());
        let ghost want = self.launches_of(*tuning, hidden, inputs);
        proof {
            let (k, m) = (proj.k as int, proj.n as int);
            assert(n * k * 4 == n * 5120 * 4 && m * k * 2 == 5376 * 5120 * 2 && n * m * 4 == n
                * 5376 * 4) by (nonlinear_arith)
                requires
                    k == 5120,
                    m == 5376,
            ;
            let args = proj.args(n as int, hidden, w.cond_w, w.cond_b, x, None);
            assert(args[0].need == n * k * 4 && args[1].need == m * k * 2);
            assert(args[2].need == m * 4 && args[3].need == n * m * 4);
            assert(args.len() == 4);
            dispatch::lemma_covered(args);
            let d = refiner.stack.plan.d;
            assert(n * d.hidden == n * 5376 && d.classes * d.hidden * 8 == 5376 * 8 && d.classes
                * d.hidden * 4 == 5376 * 4) by (nonlinear_arith)
                requires
                    d.hidden == 5376,
                    d.classes == 1,
            ;
            assert(inputs.cover(refiner.stack));
            stack::law_a_pass_is_never_refused(
                &refiner.stack,
                *tuning,
                inputs,
                conds@,
                0,
                model::REFINER_BLOCKS as int,
            );
            let norm = refiner.norm;
            let (nw, nc) = (norm.width as int, norm.classes as int);
            assert(n * nw * 4 == n * 5376 * 4 && nc * nw * 8 == 5376 * 8) by (nonlinear_arith)
                requires
                    nw == 5376,
                    nc == 1,
            ;
            let nargs = norm.args(n as int, x, w.final_norm, zeros, cls);
            assert(nargs[0].need == n * nw * 4 && nargs[1].need == nw * 4);
            assert(nargs[2].need == nc * nw * 8 && nargs[3].need == n * 4);
            dispatch::lemma_covered(nargs);
        }
        assert(ops_of(ops@) =~= launches_of(want.take(0)));
        match proj.run("condition proj", n, hidden, w.cond_w, w.cond_b, x, None) {
            Ok(launch) => put(&mut ops, Op::Launch(launch)),
            Err(_) => {
                assert(false);
            },
        }
        assert(ops_of(ops@) =~= launches_of(want.take(1)));
        let (launches, _) = refiner.stack.forward(tuning, &inputs, conds.as_slice(), 0, None);
        put_all(&mut ops, launches);
        assert(ops_of(ops@) =~= launches_of(want.take(want.len() - 1)));
        match refiner.norm.run("refiner final norm", n, x, w.final_norm, zeros, cls) {
            Ok(launch) => put(&mut ops, Op::Launch(launch)),
            Err(_) => {
                assert(false);
            },
        }
        assert(ops_of(ops@) =~= launches_of(want));
        assert(self.inputs_of(inputs));
        ops
    }

    /// Where the first rows of the stream are read back from.
    pub fn read_rows(&self, rows: usize) -> (view: BufferRef)
        requires
            self.wf(),
            rows <= self.seq.capacity,
        ensures
            view == self.seq.rows_of(0, rows as int),
    {
        self.seq.rows(0, rows)
    }
}

/// The prompt is projected, refined and normed, in that order and in the front of the stream: the encoder's rows through
/// the condition's weights; every refiner block, ungated and unshifted, on what that gave; the refiner's own final norm.
pub proof fn law_the_prompt_is_projected_refined_and_normed<
    L: Fn(usize) -> Option<usize>,
    F: Fn(usize, usize, usize) -> u32,
    M: Fn(usize, usize, usize, usize) -> u32,
    G: Fn(usize, u32, usize) -> u32,
>(prompt: &Prompt, tuning: Tuning<L, F, M, G>, hidden: BufferRef, inputs: Inputs, i: int, k: int)
    requires
        prompt.wf(),
        prompt.inputs_of(inputs),
        0 <= i < model::REFINER_BLOCKS,
        0 <= k < prompt.refiner.stack.second_norm() + if prompt.refiner.stack.plan.direct_down {
            3int
        } else {
            4
        },
    ensures
        ({
            let stack = prompt.refiner.stack;
            let each = stack.second_norm() + if stack.plan.direct_down {
                3int
            } else {
                4
            };
            let (ones, zeros) = (prompt.constants.ones.whole(), prompt.constants.zeros.whole());
            let lc = LayerCond { table_msa: zeros, gate_msa: ones, table_mlp: zeros, gate_mlp: ones };
            let (x, w) = (prompt.seq.x.whole(), prompt.weights);
            let rows = seq![prompt.refiner.tokens as u32];
            let ops = prompt.launches_of(tuning, hidden, inputs);
            &&& inputs.x == x
            &&& ops.len() == 2 + model::REFINER_BLOCKS * each
            &&& ops[0].kernel == prompt.proj.kernel@ && ops[0].scalars == rows && ops[0].bindings == seq![
                hidden,
                w.cond_w,
                w.cond_b,
                x,
            ]
            &&& ops[1 + i * each + k] == stack.block_steps(tuning, stack.blocks@[i], inputs, lc)[k].launch
            &&& ops.last().kernel == prompt.refiner.norm.kernel@ && ops.last().scalars == rows && ops.last().bindings
                == seq![x, w.final_norm, zeros, inputs.cls.binding()]
        }),
{
    let stack = prompt.refiner.stack;
    let each = stack.second_norm() + if stack.plan.direct_down {
        3int
    } else {
        4
    };
    let count = model::REFINER_BLOCKS as int;
    stack::law_a_pass_takes_its_layers_in_order(&stack, tuning, inputs, prompt.conds_of(), 0, count, i, k);
    assert(0 <= i * each + k < count * each) by (nonlinear_arith)
        requires
            0 <= i < count,
            0 <= k < each,
    ;
    let ops = prompt.launches_of(tuning, hidden, inputs);
    let (x, w) = (prompt.seq.x.whole(), prompt.weights);
    assert(ops[0].bindings =~= seq![hidden, w.cond_w, w.cond_b, x]);
    assert(ops.last().bindings =~= seq![x, w.final_norm, prompt.constants.zeros.whole(), inputs.cls.binding()]);
}

} // verus!
