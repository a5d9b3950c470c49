//! The generic transformer stack: one block loop that the DiT, the token refiner, the text encoder and the
//! video decoder all run through, differing only in their dimensions and their operand types.
//!
//! What a stack decides at construction is which kernels it will use, and those choices depend on each
//! other: the operand element type follows the checkpoint's rows, the attention kernel follows the head
//! count and the QK^T width, and whether a projection needs a `prepare` at all follows from whether the
//! kernel before it already wrote its operand at the right pitch.
pub mod laws;

use vstd::prelude::*;
use vstd::string::StringExecFns;

use crate::bytes;
use crate::compile;
use crate::compile::{Cfg, Error, Number, Result, Specialization, SpecializationView};
use crate::dispatch;
use crate::dispatch::{
    ClassRows, Elem, Form, Gemm, Launch, LaunchView, Mode, Prepare, Run, Step, Tile, Tuning,
};
use crate::hrx;
use crate::hrx::{Buffer, BufferRef, Extent};
use crate::model;
use crate::radix;
use crate::text;

verus! {

/// One stack's shape and operand types.
#[derive(Clone, Copy, Debug)]
pub struct StackDims {
    pub hidden: usize,
    pub heads: usize,
    pub kv_heads: usize,
    pub head_dim: usize,
    pub ffn: usize,
    pub rope_dim: usize,
    pub classes: usize,
    /// 8: the checkpoint's 8-bit integer rows; 16: its half-precision rows, or its brain-float rows with
    /// `bf16` set.
    pub wbits: usize,
    pub eps: Number,
    pub bias: bool,
    pub gate_first: bool,
    pub causal: bool,
    /// QK^T in 4-bit integers.
    pub attn_i4: bool,
    /// 8: 8-bit integer operands; 4 is `attn_i4`.
    pub attn_qk_bits: usize,
    pub bf16: bool,
}

impl StackDims {
    pub open spec fn operand(&self) -> Elem {
        if self.wbits == 8 {
            Elem::I8
        } else if self.bf16 {
            Elem::BF16
        } else {
            Elem::F16
        }
    }

    pub fn elem(&self) -> (elem: Elem)
        ensures
            elem == self.operand(),
    {
        if self.wbits == 8 {
            Elem::I8
        } else if self.bf16 {
            Elem::BF16
        } else {
            Elem::F16
        }
    }

    /// The width of the queries of one token.
    pub open spec fn q_width(&self) -> int {
        self.heads * self.head_dim
    }

    pub fn inner(&self) -> (inner: usize)
        requires
            self.q_width() <= usize::MAX,
        ensures
            inner == self.q_width(),
    {
        proof {
            lemma_product(self.heads as int, self.head_dim as int);
        }
        self.heads * self.head_dim
    }

    /// The width of the keys, and of the values, of one token.
    pub open spec fn kv_width(&self) -> int {
        self.kv_heads * self.head_dim
    }

    pub fn kv_inner(&self) -> (kv: usize)
        requires
            self.kv_width() <= usize::MAX,
        ensures
            kv == self.kv_width(),
    {
        proof {
            lemma_product(self.kv_heads as int, self.head_dim as int);
        }
        self.kv_heads * self.head_dim
    }

    pub open spec fn qkv_width(&self) -> int {
        self.q_width() + 2 * self.kv_width()
    }

    pub fn qkv(&self) -> (qkv: usize)
        requires
            self.qkv_width() <= usize::MAX,
        ensures
            qkv == self.qkv_width(),
    {
        proof {
            lemma_product(self.heads as int, self.head_dim as int);
            lemma_product(self.kv_heads as int, self.head_dim as int);
        }
        self.inner() + 2 * self.kv_inner()
    }

    /// The pitch of a row of `k` elements.
    pub open spec fn pitch_of(&self, k: int) -> int {
        model::gemm_pitch_spec(k, self.wbits as int)
    }

    /// The bytes of one operand element.
    pub open spec fn unit(&self) -> int {
        if self.operand().is_quantised() {
            1
        } else {
            2
        }
    }

    /// Whether a row's pitch can be counted.
    pub open spec fn pitched(&self, k: int) -> bool {
        model::gemm_row_bytes(k, self.wbits as int) <= usize::MAX && self.pitch_of(k) <= usize::MAX
    }

    fn pitch(&self, k: usize) -> (pitch: usize)
        requires
            self.pitched(k as int),
        ensures
            pitch == self.pitch_of(k as int),
    {
        model::gemm_pitch(k, self.wbits)
    }
}

proof fn lemma_product(a: int, b: int)
    by (nonlinear_arith)
    requires
        a >= 0,
        b >= 0,
    ensures
        a * b >= 0,
{
}

/// The AdaLN rows a layer modulates with: a table and a gate for each of the two residual writes.
///
/// A table is a scale and a shift per class, so each `table_*` must hold **two** rows of the hidden width
/// per class, and each `gate_*` one row per class: a stack whose blocks modulate with a scale alone still
/// needs a zero table of twice the width.
#[derive(Clone, Copy, Debug)]
pub struct LayerCond {
    pub table_msa: BufferRef,
    pub gate_msa: BufferRef,
    pub table_mlp: BufferRef,
    pub gate_mlp: BufferRef,
}

/// The constant rows a stack modulates with when it does not really modulate.
///
/// A stack with no AdaLN still hands the kernels a table and a gate; these are the identity ones. Both are
/// sized for the widest consumer in the pipeline rather than the caller at hand.
#[derive(Debug)]
pub struct Constants {
    /// ones: a residual gate of one, and the per-head norm weights of a stack with none
    pub ones: Buffer,
    /// zeros: a (scale, shift) table of zero at any width the pipeline uses
    pub zeros: Buffer,
}

/// The bytes the ones are allocated with.
pub const ONES_BYTES: usize = 21504;

/// The bytes the zeros are allocated with.
pub const ZEROS_BYTES: usize = 204800;

impl Constants {
    pub open spec fn wf(&self) -> bool {
        self.ones.size() == model::HID * 4 && self.zeros.size() == 2 * model::TE_FFN * 4
    }

    /// The bytes of a row of ones.
    pub fn ones_row() -> (row: Vec<u8>)
        ensures
            row@ == Seq::new((4 * model::HID) as nat, |b: int| bytes::le32(0x3f80_0000)[b % 4]),
            row@.len() == ONES_BYTES,
    {
        let mut row: Vec<u8> = Vec::new();
        let mut i: usize = 0;
        while i < model::HID
            invariant
                i <= model::HID,
                row@ == Seq::new((4 * i) as nat, |b: int| bytes::le32(0x3f80_0000)[b % 4]),
            decreases model::HID - i,
        {
            bytes::push_le32(&mut row, 0x3f80_0000);
            i += 1;
            assert(row@ =~= Seq::new((4 * i) as nat, |b: int| bytes::le32(0x3f80_0000)[b % 4]));
        }
        row
    }

    /// The constants, on an allocation holding a row of ones and an allocation of zeros.
    pub fn new(ones: Buffer, zeros: Buffer) -> (constants: Self)
        requires
            ones.size() == ONES_BYTES,
            zeros.size() == ZEROS_BYTES,
        ensures
            constants.wf(),
            constants.ones == ones,
            constants.zeros == zeros,
    {
        Constants { ones, zeros }
    }

    /// The layer conditioning of a stack that neither shifts nor gates: a zero table and a gate of one.
    pub fn identity(&self) -> (cond: LayerCond)
        ensures
            cond.table_msa == self.zeros.whole(),
            cond.gate_msa == self.ones.whole(),
            cond.table_mlp == self.zeros.whole(),
            cond.gate_mlp == self.ones.whole(),
    {
        LayerCond {
            table_msa: self.zeros.binding(),
            gate_msa: self.ones.binding(),
            table_mlp: self.zeros.binding(),
            gate_mlp: self.ones.binding(),
        }
    }
}

/// What a run may choose of a stack's kernels.
#[derive(Clone, Copy, Debug)]
pub struct Knobs {
    /// the decoder's wide tile
    pub wide: bool,
    /// the decoder's fast tile
    pub fast: bool,
    /// the threshold the 4-bit attention skips at, where it is over zero
    pub skip_tau: Option<Number>,
    /// K mean smoothing
    pub smooth: bool,
}

/// What a setting holds, in text.
pub open spec fn held(setting: Option<&str>) -> Option<Seq<char>> {
    match setting {
        Some(v) => Some(v@),
        None => None,
    }
}

fn is_set_to(setting: Option<&str>, to: &str) -> (yes: bool)
    ensures
        yes == (held(setting) == Some(to@)),
{
    match setting {
        Some(v) => text::same(v, to),
        None => false,
    }
}

impl Knobs {
    /// What the settings choose: the wide tile and the smoothing are off unless they are `1`, and the fast
    /// tile on unless it is `0`.
    pub fn of(
        wide: Option<&str>,
        fast: Option<&str>,
        smooth: Option<&str>,
        skip_tau: Option<Number>,
    ) -> (knobs: Self)
        ensures
            knobs.wide == (held(wide) == Some("1"@)),
            knobs.fast == (held(fast) != Some("0"@)),
            knobs.smooth == (held(smooth) == Some("1"@)),
            knobs.skip_tau == skip_tau,
    {
        Knobs {
            wide: is_set_to(wide, "1"),
            fast: !is_set_to(fast, "0"),
            skip_tau,
            smooth: is_set_to(smooth, "1"),
        }
    }
}

/// The floats an attention is configured with.
#[derive(Clone, Copy, Debug)]
pub struct Scales {
    /// one over the square root of the head's width
    pub head: Number,
    /// that over 128
    pub operand: Number,
}

/// A letter in lower case.
pub open spec fn lower(b: u8) -> u8 {
    if 65 <= b <= 90 {
        (b + 32) as u8
    } else {
        b
    }
}

/// Bytes in lower case.
pub open spec fn lowered(b: Seq<u8>) -> Seq<u8> {
    Seq::new(b.len(), |i: int| lower(b[i]))
}

/// Whether text, its letters in lower case, is this word.
pub open spec fn reads(text: Seq<char>, word: Seq<char>) -> bool {
    lowered(vstd::utf8::encode_utf8(text)) == vstd::utf8::encode_utf8(word)
}

fn reads_as(text: &str, word: &str) -> (yes: bool)
    ensures
        yes == reads(text@, word@),
{
    let a: &[u8] = text.as_bytes();
    let b: &[u8] = word.as_bytes();
    if a.len() != b.len() {
        return false;
    }
    let mut i: usize = 0;
    while i < a.len()
        invariant
            i <= a@.len(),
            a@.len() == b@.len(),
            a@ == vstd::utf8::encode_utf8(text@),
            b@ == vstd::utf8::encode_utf8(word@),
            forall|k: int| 0 <= k < i ==> lower(a@[k]) == b@[k],
        decreases a@.len() - i,
    {
        let c: u8 = if 65 <= a[i] && a[i] <= 90 {
            a[i] + 32
        } else {
            a[i]
        };
        if c != b[i] {
            assert(lowered(a@)[i as int] != b@[i as int]);
            return false;
        }
        i += 1;
    }
    assert(lowered(a@) =~= b@);
    true
}

/// Whether a setting of the skip threshold is one to read as a number at all.
pub fn skip_wanted(setting: &str) -> (wanted: bool)
    ensures
        wanted == !(reads(setting@, "off"@) || reads(setting@, "none"@) || reads(setting@, "0"@)
            || reads(setting@, "1e30"@) || reads(setting@, ""@)),
{
    !(reads_as(setting, "off") || reads_as(setting, "none") || reads_as(setting, "0") || reads_as(
        setting,
        "1e30",
    ) || reads_as(setting, ""))
}

// What a stack is made of.

/// A shape only the decoder has: its measured tiles are restricted to it.
pub open spec fn decoder_shape(d: StackDims) -> bool {
    d.operand() == Elem::F16 && d.head_dim == 64 && d.bias && !d.gate_first
}

pub open spec fn tile_of(d: StackDims, knobs: Knobs) -> Tile {
    if decoder_shape(d) && knobs.wide {
        Tile::Wide
    } else if decoder_shape(d) && knobs.fast {
        Tile::Fast
    } else {
        Tile::Plain
    }
}

pub open spec fn waves_of(d: StackDims, tokens: int) -> int {
    if d.causal || tokens >= 4096 {
        8
    } else {
        4
    }
}

pub open spec fn greater(a: int, b: int) -> int {
    if a < b {
        b
    } else {
        a
    }
}

/// The rows a stack's buffers hold: slack past the tokens, a whole number of query blocks, and a whole
/// number of GEMM tiles.
pub open spec fn capacity_of(d: StackDims, tokens: int) -> int {
    greater(
        greater(
            dispatch::up_to(tokens + 16, 32),
            dispatch::up_to(tokens, 16 * waves_of(d, tokens)),
        ),
        dispatch::up_to(tokens, 256),
    )
}

/// The attention output is the out projection's operand as it stands: the kernel writes half-precision
/// rows at the padded pitch.
pub open spec fn attn_is_direct(d: StackDims) -> bool {
    d.operand() == Elem::F16
}

/// A gate|up product is the down projection's operand as it stands: where its pitch is not padded, or a
/// decoder tile writes the padded pitch itself.
pub open spec fn down_is_direct(d: StackDims, knobs: Knobs) -> bool {
    d.operand() == Elem::F16 && (tile_of(d, knobs) != Tile::Plain || d.pitch_of(d.ffn as int)
        == d.ffn)
}

/// Whether the QKV projection is fused with rope.
pub open spec fn qkv_is_fused(d: StackDims, tokens: int, knobs: Knobs) -> bool {
    &&& tile_of(d, knobs) == Tile::Fast
    &&& !d.causal
    &&& waves_of(d, tokens) == 4
    &&& d.hidden == 2048
    &&& d.heads == 32
    &&& d.kv_heads == 32
    &&& d.head_dim == 64
    &&& d.rope_dim == 48
}

/// Whether QK^T runs on integers.
pub open spec fn qk_is_integer(d: StackDims) -> bool {
    d.attn_i4 || d.attn_qk_bits == 8
}

/// Whether the integer operands are laid out head by head.
pub open spec fn qk_is_head_major(d: StackDims, tokens: int) -> bool {
    !d.attn_i4 && d.attn_qk_bits == 8 && waves_of(d, tokens) == 8
}

pub open spec fn rope_stem(d: StackDims) -> Seq<char> {
    if d.head_dim == 64 {
        "rope64_qknorm_f16"@
    } else if d.rope_dim == 128 {
        "rope128_qknorm_f16"@
    } else {
        "rope_qknorm_f16"@
    }
}

pub open spec fn operand_stem(d: StackDims, tokens: int) -> Seq<char> {
    if d.attn_i4 {
        "prepare_qk_i4"@
    } else if qk_is_head_major(d, tokens) {
        "prepare_qk_i8hm"@
    } else {
        "prepare_qk_i8"@
    }
}

/// Whether the attention is the skipping one; there are such for 4-bit operands only.
pub open spec fn attention_skips(d: StackDims, knobs: Knobs) -> bool {
    d.attn_i4 && knobs.skip_tau is Some
}

pub open spec fn attention_stem(d: StackDims, tokens: int, knobs: Knobs) -> Seq<char> {
    let waves = waves_of(d, tokens);
    let skip = attention_skips(d, knobs);
    if qk_is_head_major(d, tokens) {
        // head-major operands; 64 shared keys amortise softmax and loop overhead
        "attention_i8qkhm_mha8_k64_lds_f16_wmma"@
    } else if d.attn_i4 {
        if tokens >= 20000 {
            if skip {
                "attention_i4qksl_mha8_lds_f16_wmma"@
            } else {
                "attention_i4qkl_mha8_lds_f16_wmma"@
            }
        } else if waves == 8 {
            if skip {
                "attention_i4qks_mha8_lds_f16_wmma"@
            } else {
                "attention_i4qk_mha8_lds_f16_wmma"@
            }
        } else {
            if skip {
                "attention_i4qks_mha_lds_f16_wmma"@
            } else {
                "attention_i4qk_mha_lds_f16_wmma"@
            }
        }
    } else if d.attn_qk_bits == 8 {
        "attention_i8qk_mha_lds_f16_wmma"@
    } else if qkv_is_fused(d, tokens, knobs) {
        "attention_mha64hm32_lds_f16_wmma"@
    } else if tile_of(d, knobs) == Tile::Fast && waves == 4 {
        "attention_mha64t32_lds_f16_wmma"@
    } else if d.causal {
        "attention_gqa8c_lds_f16_wmma"@
    } else if d.head_dim == 64 {
        if waves == 8 {
            "attention_mha648_lds_f16_wmma"@
        } else {
            "attention_mha64_lds_f16_wmma"@
        }
    } else if waves == 8 {
        "attention_mha8_lds_f16_wmma"@
    } else {
        "attention_mha_lds_f16_wmma"@
    }
}

/// A kernel that is its own module.
pub open spec fn own_kernel(
    stem: Seq<char>,
    config: Seq<(Seq<char>, Seq<char>)>,
) -> SpecializationView {
    SpecializationView { module: stem, symbol: "h3_"@ + stem, config }
}

pub open spec fn qkv_rope_kernel(d: StackDims, tokens: int, group: u32) -> SpecializationView {
    let stem = "gemm_f16_qkvropehm_256b"@;
    let ns = dispatch::namespace(stem);
    own_kernel(
        stem,
        seq![
            (ns + "k_size"@, "2048"@),
            (ns + "n_size"@, "6144"@),
            dispatch::count_of(ns, "k_stride"@, d.pitch_of(d.hidden as int)),
            dispatch::count_of(ns, "m_group"@, group as int),
            dispatch::count_of(ns, "token_capacity"@, capacity_of(d, tokens)),
            (ns + "eps"@, compile::g17(d.eps)),
        ],
    )
}

pub open spec fn rope_kernel(d: StackDims) -> SpecializationView {
    let ns = dispatch::namespace(rope_stem(d));
    own_kernel(
        rope_stem(d),
        seq![
            dispatch::count_of(ns, "row_stride"@, d.qkv_width()),
            dispatch::count_of(ns, "heads"@, d.heads as int),
            dispatch::count_of(ns, "kv_heads"@, d.kv_heads as int),
            dispatch::count_of(ns, "k_offset"@, d.q_width()),
            (ns + "eps"@, compile::g17(d.eps)),
        ],
    )
}

/// The kernel that narrows one attention operand; the scale is folded into the queries.
pub open spec fn operand_kernel(d: StackDims, tokens: int, scale: Seq<char>) -> SpecializationView {
    let stem = operand_stem(d, tokens);
    let ns = dispatch::namespace(stem);
    own_kernel(
        stem,
        seq![
            dispatch::count_of(ns, "row_stride"@, d.q_width()),
            (ns + "head_offset"@, "0"@),
            dispatch::count_of(ns, "heads"@, d.heads as int),
        ] + (if qk_is_head_major(d, tokens) {
            seq![dispatch::count_of(ns, "token_capacity"@, capacity_of(d, tokens))]
        } else {
            Seq::empty()
        }) + seq![(ns + "extra_scale"@, scale)],
    )
}

pub open spec fn colmean_kernel(d: StackDims) -> SpecializationView {
    own_kernel(
        "colmean_f32"@,
        seq![dispatch::count_of("h3.colmean_f32."@, "width"@, d.q_width())],
    )
}

pub open spec fn transpose_kernel(d: StackDims, tokens: int) -> SpecializationView {
    own_kernel(
        "transpose_f16"@,
        seq![
            dispatch::count_of("h3.transpose_f16."@, "width"@, d.q_width()),
            dispatch::count_of("h3.transpose_f16."@, "row_capacity"@, capacity_of(d, tokens)),
        ],
    )
}

/// The width the attention writes its output at.
pub open spec fn attn_width(d: StackDims) -> int {
    if attn_is_direct(d) {
        d.pitch_of(d.q_width())
    } else {
        d.q_width()
    }
}

/// The width a gate|up product is written at.
pub open spec fn gu_width(d: StackDims, knobs: Knobs) -> int {
    if down_is_direct(d, knobs) {
        d.pitch_of(d.ffn as int)
    } else {
        d.ffn as int
    }
}

pub open spec fn attention_kernel(
    d: StackDims,
    tokens: int,
    knobs: Knobs,
    scales: Scales,
) -> SpecializationView {
    let stem = attention_stem(d, tokens, knobs);
    let ns = dispatch::namespace(stem);
    own_kernel(
        stem,
        seq![
            dispatch::count_of(ns, "q_stride"@, d.q_width()),
            dispatch::count_of(ns, "kv_stride"@, d.kv_width()),
            dispatch::count_of(ns, "tokens"@, tokens),
            dispatch::count_of(ns, "token_capacity"@, capacity_of(d, tokens)),
            (ns + "scale"@, compile::g17(scales.head)),
            // the out projection reads this as its A operand
            dispatch::count_of(ns, "out_stride"@, attn_width(d)),
        ] + (if attention_skips(d, knobs) {
            seq![(ns + "skip_tau"@, compile::g17(knobs.skip_tau->0))]
        } else {
            Seq::empty()
        }),
    )
}

/// A buffer to allocate, and whether it starts as zeros.
#[derive(Clone, Copy, Debug, PartialEq, Eq, Structural)]
pub struct Alloc {
    pub bytes: usize,
    pub zeroed: bool,
}

pub open spec fn takes(a: Alloc, bytes: int, zeroed: bool) -> bool {
    a.bytes == bytes && a.zeroed == zeroed
}

/// The buffers of the integer QK^T operands.
#[derive(Clone, Copy, Debug)]
pub struct IntSizes {
    pub qi: Alloc,
    pub ki: Alloc,
    pub qs: Alloc,
    pub ks: Alloc,
    pub kmean: Alloc,
    pub zmean: Alloc,
    pub vt: Alloc,
}

/// The buffers a stack works in.
#[derive(Clone, Copy, Debug)]
pub struct Sizes {
    pub a_q: Alloc,
    pub a_s: Alloc,
    pub fused: Alloc,
    /// none where q, k and v are views into `fused`
    pub q: Option<Alloc>,
    pub k: Option<Alloc>,
    pub v: Option<Alloc>,
    pub attn: Alloc,
    pub gu: Alloc,
    pub int_qk: Option<IntSizes>,
}

/// The widest operand row.
pub open spec fn widest(d: StackDims) -> int {
    greater(
        greater(d.pitch_of(d.ffn as int), d.pitch_of(d.hidden as int)),
        d.pitch_of(d.q_width()),
    )
}

/// The bytes of one head's operand in integer QK^T.
pub open spec fn code_bytes(d: StackDims) -> int {
    if d.attn_i4 {
        64
    } else {
        128
    }
}

pub open spec fn sized(sizes: Sizes, d: StackDims, tokens: int, knobs: Knobs) -> bool {
    let t = capacity_of(d, tokens);
    &&& takes(sizes.a_q, t * widest(d) * d.unit(), false)
    &&& takes(sizes.a_s, t * 4, false)
    &&& takes(sizes.fused, t * d.qkv_width() * 2, true)
    &&& if qkv_is_fused(d, tokens, knobs) {
        sizes.q is None && sizes.k is None && sizes.v is None
    } else {
        &&& sizes.q matches Some(q)
        &&& sizes.k matches Some(k)
        &&& sizes.v matches Some(v)
        &&& takes(q, t * d.q_width() * 2, true)
        &&& takes(k, t * d.kv_width() * 2, true)
        &&& takes(v, t * d.kv_width() * 2, true)
    }
    &&& takes(sizes.attn, t * attn_width(d) * 2, true)
    &&& takes(sizes.gu, t * gu_width(d, knobs) * 2, false)
    &&& if qk_is_integer(d) {
        &&& sizes.int_qk matches Some(i)
        &&& takes(i.qi, t * d.heads * code_bytes(d), true)
        &&& takes(i.ki, t * d.heads * code_bytes(d), true)
        &&& takes(i.qs, t * d.heads * 4, true)
        &&& takes(i.ks, t * d.heads * 4, true)
        &&& takes(i.kmean, d.q_width() * 4, false)
        &&& takes(i.zmean, d.q_width() * 4, true)
        &&& takes(i.vt, d.q_width() * t * 2, true)
    } else {
        sizes.int_qk is None
    }
}

/// The kernels of integer QK^T.
#[derive(Debug)]
pub struct IntKernels {
    pub colmean: Specialization,
    pub prep_q: Specialization,
    pub prep_k: Specialization,
    pub transpose: Specialization,
}

/// The kernels and the buffers a stack will use.
#[derive(Debug)]
pub struct Plan {
    pub d: StackDims,
    pub tokens: usize,
    pub capacity: usize,
    pub layers: usize,
    pub waves: usize,
    pub knobs: Knobs,
    pub scales: Scales,
    pub direct_attn: bool,
    pub direct_down: bool,
    pub prep_norm: Prepare,
    pub prep_attn: Option<Prepare>,
    pub prep_down: Option<Prepare>,
    pub gemm_qkv: Option<Gemm>,
    pub gemm_gu: Gemm,
    pub gemm_out: Gemm,
    pub gemm_down: Gemm,
    pub qkv_rope: Option<Specialization>,
    pub qkv_group: u32,
    pub rope: Option<Specialization>,
    pub attention: Specialization,
    pub int_qk: Option<IntKernels>,
    pub sizes: Sizes,
}

/// Whether the extents of a stack can be counted: what each operand, each weight and each buffer takes.
pub open spec fn countable(d: StackDims, tokens: int, knobs: Knobs) -> bool {
    let t = capacity_of(d, tokens);
    let unit = d.unit();
    let bits = d.operand().bits_of();
    let (hidden, inner, ffn, qkv) = (d.hidden as int, d.q_width(), d.ffn as int, d.qkv_width());
    &&& 0 <= tokens <= u32::MAX
    &&& tokens + 16 <= usize::MAX
    &&& t <= usize::MAX
    &&& d.pitched(hidden) && d.pitched(inner) && d.pitched(ffn)
    &&& qkv * 4 <= usize::MAX
    &&& ffn * 8 <= usize::MAX
    &&& d.classes * hidden * 8 <= usize::MAX
    &&& hidden * 4 <= usize::MAX
    // the operands a prepare writes
    &&& tokens * d.pitch_of(hidden) * bits <= usize::MAX
    &&& tokens * d.pitch_of(inner) * bits <= usize::MAX
    &&& tokens * d.pitch_of(ffn) * bits <= usize::MAX
    &&& tokens * hidden * 4 <= usize::MAX
    // the weights
    &&& qkv * d.pitch_of(hidden) * unit <= usize::MAX
    &&& hidden * d.pitch_of(inner) * unit <= usize::MAX
    &&& (2 * ffn) * d.pitch_of(hidden) * unit <= usize::MAX
    &&& hidden * d.pitch_of(ffn) * unit <= usize::MAX
    // the buffers
    &&& t * widest(d) * unit <= usize::MAX
    &&& t * 4 <= usize::MAX
    &&& t * qkv * 2 <= usize::MAX
    &&& t * attn_width(d) * 2 <= usize::MAX
    &&& t * gu_width(d, knobs) * 2 <= usize::MAX
    &&& qk_is_integer(d) ==> t * d.heads * 128 <= usize::MAX
}

/// What is said where a width has no lanes.
pub open spec fn no_lanes(width: int) -> Seq<char> {
    text::phrase_of("no prepare lane count for width "@, width as nat, ""@)
}

/// What stands in the way of a GEMM on a tile.
pub open spec fn gemm_trouble(
    mode: Mode,
    d: StackDims,
    gate_first: bool,
    n_size: int,
    tile: Tile,
    out_stride: int,
) -> Option<Seq<char>> {
    if dispatch::tile_refuses(mode, d.operand(), d.bias, gate_first, n_size, tile) {
        Some("decoder GEMM requires the biased f16 family and N divisible by 256"@)
    } else if dispatch::stride_refused(mode, n_size, tile, out_stride) {
        Some("invalid wide SwiGLU output stride"@)
    } else {
        None
    }
}

/// The first thing that stands in the way of a stack.
pub open spec fn plan_trouble<
    L: Fn(usize) -> Option<usize>,
    F: Fn(usize, usize, usize) -> u32,
    M: Fn(usize, usize, usize, usize) -> u32,
    G: Fn(usize, u32, usize) -> u32,
>(tuning: Tuning<L, F, M, G>, d: StackDims, tokens: int, knobs: Knobs) -> Option<Seq<char>> {
    let tile = tile_of(d, knobs);
    let qkv = gemm_trouble(Mode::Plain, d, true, d.qkv_width(), tile, 0);
    let gu = gemm_trouble(
        Mode::Swiglu,
        d,
        d.gate_first,
        2 * d.ffn,
        tile,
        d.pitch_of(d.ffn as int),
    );
    let resid = gemm_trouble(Mode::Resid, d, true, d.hidden as int, tile, 0);
    if tuning.lanes_for(d.hidden) is None {
        Some(no_lanes(d.hidden as int))
    } else if !attn_is_direct(d) && tuning.lanes_for(d.q_width() as usize) is None {
        Some(no_lanes(d.q_width()))
    } else if !down_is_direct(d, knobs) && tuning.lanes_for(d.ffn) is None {
        Some(no_lanes(d.ffn as int))
    } else if !qkv_is_fused(d, tokens, knobs) && qkv is Some {
        qkv
    } else if gu is Some {
        gu
    } else if resid is Some {
        resid
    } else if qk_is_integer(d) && (d.causal || d.head_dim != 128) {
        Some("integer QK^T attention: MHA with head 128 only"@)
    } else {
        None
    }
}

impl Plan {
    /// Whether the plan's kernels and buffers are those its shape asks for, whatever was measured.
    pub open spec fn laid(&self) -> bool {
        let (d, tokens, knobs) = (self.d, self.tokens as int, self.knobs);
        let tile = tile_of(d, knobs);
        let fused = qkv_is_fused(d, tokens, knobs);
        &&& self.capacity == capacity_of(d, tokens)
        &&& self.waves == waves_of(d, tokens)
        &&& self.direct_attn == attn_is_direct(d)
        &&& self.direct_down == down_is_direct(d, knobs)
        &&& self.prep_norm.shaped(
            Form::Norm,
            d.operand(),
            d.hidden as int,
            compile::g17(d.eps),
            d.classes as int,
            d.pitch_of(d.hidden as int),
        )
        &&& match self.prep_attn {
            None => attn_is_direct(d),
            Some(p) => !attn_is_direct(d) && p.shaped(
                Form::Plain,
                d.operand(),
                d.q_width(),
                "9.9999997473787516e-06"@,
                1,
                d.pitch_of(d.q_width()),
            ),
        }
        &&& match self.prep_down {
            None => down_is_direct(d, knobs),
            Some(p) => !down_is_direct(d, knobs) && p.shaped(
                Form::Plain,
                d.operand(),
                d.ffn as int,
                "9.9999997473787516e-06"@,
                1,
                d.pitch_of(d.ffn as int),
            ),
        }
        &&& match self.gemm_qkv {
            None => fused,
            Some(g) => !fused && g.shaped(
                Mode::Plain,
                d.operand(),
                d.bias,
                true,
                d.hidden as int,
                d.qkv_width(),
                1,
                d.pitch_of(d.hidden as int),
                tile,
                0,
            ),
        }
        &&& self.gemm_gu.shaped(
            Mode::Swiglu,
            d.operand(),
            d.bias,
            d.gate_first,
            d.hidden as int,
            2 * d.ffn,
            1,
            d.pitch_of(d.hidden as int),
            tile,
            d.pitch_of(d.ffn as int),
        )
        &&& self.gemm_out.shaped(
            Mode::Resid,
            d.operand(),
            d.bias,
            true,
            d.q_width(),
            d.hidden as int,
            d.classes as int,
            d.pitch_of(d.q_width()),
            tile,
            0,
        )
        &&& self.gemm_down.shaped(
            Mode::Resid,
            d.operand(),
            d.bias,
            true,
            d.ffn as int,
            d.hidden as int,
            d.classes as int,
            d.pitch_of(d.ffn as int),
            tile,
            0,
        )
        &&& match self.qkv_rope {
            None => !fused && self.qkv_group == 1,
            Some(k) => fused && k@ == qkv_rope_kernel(d, tokens, self.qkv_group),
        }
        &&& match self.rope {
            None => fused,
            Some(k) => !fused && k@ == rope_kernel(d),
        }
        &&& self.attention@ == attention_kernel(d, tokens, knobs, self.scales)
        &&& match self.int_qk {
            None => !qk_is_integer(d),
            Some(k) => {
                &&& qk_is_integer(d)
                &&& k.colmean@ == colmean_kernel(d)
                &&& k.prep_q@ == operand_kernel(d, tokens, compile::g17(self.scales.operand))
                &&& k.prep_k@ == operand_kernel(d, tokens, "1"@)
                &&& k.transpose@ == transpose_kernel(d, tokens)
            },
        }
        &&& sized(self.sizes, d, tokens, knobs)
    }

    /// Whether the plan's lanes and row groups are those that were measured.
    pub open spec fn tuned<
        L: Fn(usize) -> Option<usize>,
        F: Fn(usize, usize, usize) -> u32,
        M: Fn(usize, usize, usize, usize) -> u32,
        G: Fn(usize, u32, usize) -> u32,
    >(&self, tuning: Tuning<L, F, M, G>) -> bool {
        let (d, tokens) = (self.d, self.tokens);
        let fast = tile_of(d, self.knobs) == Tile::Fast;
        let bits = d.operand().bits_of() as usize;
        let (inner, qkv) = (d.q_width() as usize, d.qkv_width() as usize);
        &&& tuning.lanes_for(d.hidden) == Some(self.prep_norm.lanes)
        &&& self.prep_attn matches Some(p) ==> tuning.lanes_for(inner) == Some(p.lanes)
        &&& self.prep_down matches Some(p) ==> tuning.lanes_for(d.ffn) == Some(p.lanes)
        &&& self.gemm_qkv matches Some(g) ==> g.m_group == tuning.m_group_for(
            fast,
            tokens,
            d.hidden,
            qkv,
            bits,
        )
        &&& self.gemm_gu.m_group == tuning.m_group_for(
            fast,
            tokens,
            d.hidden,
            (2 * d.ffn) as usize,
            bits,
        )
        &&& self.gemm_out.m_group == tuning.m_group_for(fast, tokens, inner, d.hidden, bits)
        &&& self.gemm_down.m_group == tuning.m_group_for(fast, tokens, d.ffn, d.hidden, bits)
        &&& self.qkv_rope is Some ==> self.qkv_group == tuning.m_group_for(
            true,
            tokens,
            d.hidden,
            (3 * d.hidden) as usize,
            bits,
        )
    }
}

fn own(stem: &str, config: Cfg) -> (kernel: Specialization)
    ensures
        kernel@ == own_kernel(stem@, compile::pairs(config@)),
{
    Specialization { module: String::from_str(stem), symbol: text::cat2("h3_", stem), config }
}

fn tile_for(d: &StackDims, knobs: &Knobs) -> (tile: Tile)
    ensures
        tile == tile_of(*d, *knobs),
{
    let half: bool = match d.elem() {
        Elem::F16 => true,
        _ => false,
    };
    let decoder: bool = half && d.head_dim == 64 && d.bias && !d.gate_first;
    if decoder && knobs.wide {
        Tile::Wide
    } else if decoder && knobs.fast {
        Tile::Fast
    } else {
        Tile::Plain
    }
}

fn capacity_for(d: &StackDims, tokens: usize, waves: usize) -> (capacity: usize)
    requires
        waves == waves_of(*d, tokens as int),
        tokens + 16 <= usize::MAX,
        capacity_of(*d, tokens as int) <= usize::MAX,
    ensures
        capacity == capacity_of(*d, tokens as int),
{
    let a: usize = dispatch::steps_of(tokens + 16, 32) * 32;
    let b: usize = if waves == 8 {
        dispatch::steps_of(tokens, 128) * 128
    } else {
        dispatch::steps_of(tokens, 64) * 64
    };
    let c: usize = dispatch::steps_of(tokens, 256) * 256;
    let ab: usize = if a < b {
        b
    } else {
        a
    };
    if ab < c {
        c
    } else {
        ab
    }
}

/// Whether a product of three counts can be counted.
fn fits(a: usize, b: usize, c: usize) -> (yes: bool)
    requires
        c >= 1,
    ensures
        yes == (a * b * c <= usize::MAX),
{
    match a.checked_mul(b) {
        None => {
            assert(a * b * c >= a * b) by (nonlinear_arith)
                requires
                    c >= 1,
                    a * b >= 0,
            ;
            false
        },
        Some(ab) => ab.checked_mul(c).is_some(),
    }
}

impl StackDims {
    /// The widths of the queries and of all three, where they can be counted, each number on four bytes.
    fn widths(&self) -> (widths: Option<(usize, usize)>)
        ensures
            match widths {
                Some((inner, qkv)) => inner == self.q_width() && qkv == self.qkv_width() && self.qkv_width() * 4
                    <= usize::MAX,
                None => self.qkv_width() * 4 > usize::MAX,
            },
    {
        proof {
            lemma_product(self.heads as int, self.head_dim as int);
            lemma_product(self.kv_heads as int, self.head_dim as int);
        }
        match (self.heads.checked_mul(self.head_dim), self.kv_heads.checked_mul(self.head_dim)) {
            (Some(q), Some(kv)) => {
                if q > usize::MAX / 4 || kv > (usize::MAX / 4 - q) / 2 {
                    None
                } else {
                    Some((q, q + 2 * kv))
                }
            },
            _ => None,
        }
    }

    /// The pitch of a row, where it can be counted.
    fn counted_pitch(&self, k: usize) -> (pitch: Option<usize>)
        ensures
            match pitch {
                Some(pitch) => self.pitched(k as int) && pitch == self.pitch_of(k as int),
                None => !self.pitched(k as int),
            },
    {
        if self.wbits != 4 && self.wbits != 8 && k > usize::MAX / 2 {
            return None;
        }
        let row: usize = if self.wbits == 4 {
            k / 2
        } else if self.wbits == 8 {
            k
        } else {
            k * 2
        };
        let pad: usize = if self.wbits == 8 {
            64
        } else {
            128
        };
        if row % 1024 == 0 && k > usize::MAX - pad {
            return None;
        }
        Some(self.pitch(k))
    }
}

/// The rows a stack's buffers hold, where they can be counted.
fn counted_capacity(d: &StackDims, tokens: usize) -> (capacity: Option<usize>)
    requires
        tokens <= u32::MAX,
        tokens + 16 <= usize::MAX,
    ensures
        match capacity {
            Some(t) => t == capacity_of(*d, tokens as int),
            None => capacity_of(*d, tokens as int) > usize::MAX,
        },
{
    let n: u64 = tokens as u64;
    let a: u64 = (n + 47) / 32 * 32;
    let eight: bool = d.causal || tokens >= 4096;
    let b: u64 = if eight {
        (n + 127) / 128 * 128
    } else {
        (n + 63) / 64 * 64
    };
    let c: u64 = (n + 255) / 256 * 256;
    let ab: u64 = if a < b {
        b
    } else {
        a
    };
    let t: u64 = if ab < c {
        c
    } else {
        ab
    };
    assert(t == capacity_of(*d, tokens as int));
    if t > usize::MAX as u64 {
        None
    } else {
        Some(t as usize)
    }
}

/// Whether the extents of a stack can be counted.
#[verifier::spinoff_prover]
pub fn is_countable(d: &StackDims, tokens: usize, knobs: &Knobs) -> (yes: bool)
    ensures
        yes == countable(*d, tokens as int, *knobs),
{
    if tokens as u64 > u32::MAX as u64 || tokens > usize::MAX - 16 {
        return false;
    }
    let t: usize = match counted_capacity(d, tokens) {
        Some(t) => t,
        None => {
            return false;
        },
    };
    let (inner, qkv): (usize, usize) = match d.widths() {
        Some(widths) => widths,
        None => {
            return false;
        },
    };
    proof {
        lemma_product(d.kv_heads as int, d.head_dim as int);
    }
    let (hidden_pitch, inner_pitch, ffn_pitch): (usize, usize, usize) = match (
        d.counted_pitch(d.hidden),
        d.counted_pitch(inner),
        d.counted_pitch(d.ffn),
    ) {
        (Some(h), Some(i), Some(f)) => (h, i, f),
        _ => {
            return false;
        },
    };
    let elem = d.elem();
    let unit: usize = if elem.quantised() {
        1
    } else {
        2
    };
    let bits: usize = elem.bits();
    let half: bool = match elem {
        Elem::F16 => true,
        _ => false,
    };
    let plain: bool = match tile_for(d, knobs) {
        Tile::Plain => true,
        _ => false,
    };
    let attn: usize = if half {
        inner_pitch
    } else {
        inner
    };
    let gu: usize = if half && (!plain || ffn_pitch == d.ffn) {
        ffn_pitch
    } else {
        d.ffn
    };
    let wider: usize = if ffn_pitch < hidden_pitch {
        hidden_pitch
    } else {
        ffn_pitch
    };
    let wide: usize = if wider < inner_pitch {
        inner_pitch
    } else {
        wider
    };
    if d.ffn > usize::MAX / 8 || d.hidden > usize::MAX / 4 || t > usize::MAX / 4 {
        return false;
    }
    let rows = fits(tokens, hidden_pitch, bits) && fits(tokens, inner_pitch, bits) && fits(tokens, ffn_pitch, bits)
        && fits(tokens, d.hidden, 4) && fits(d.classes, d.hidden, 8);
    let weights = fits(qkv, hidden_pitch, unit) && fits(d.hidden, inner_pitch, unit) && fits(
        2 * d.ffn,
        hidden_pitch,
        unit,
    ) && fits(d.hidden, ffn_pitch, unit);
    let integer: bool = d.attn_i4 || d.attn_qk_bits == 8;
    let buffers = fits(t, wide, unit) && fits(t, qkv, 2) && fits(t, attn, 2) && fits(t, gu, 2) && (!integer || fits(
        t,
        d.heads,
        128,
    ));
    rows && weights && buffers
}

fn qkv_rope_for(d: &StackDims, pitch: usize, capacity: usize, group: u32, tokens: Ghost<int>) -> (kernel:
    Specialization)
    requires
        d.eps.sound(),
        pitch == d.pitch_of(d.hidden as int),
        capacity == capacity_of(*d, tokens@),
    ensures
        kernel@ == qkv_rope_kernel(*d, tokens@, group),
{
    let stem: &str = "gemm_f16_qkvropehm_256b";
    let ns = text::cat3("h3.", stem, ".");
    let mut cfg: Cfg = Vec::new();
    compile::set(&mut cfg, ns.as_str(), "k_size", String::from_str("2048"));
    compile::set(&mut cfg, ns.as_str(), "n_size", String::from_str("6144"));
    compile::set_count(&mut cfg, ns.as_str(), "k_stride", pitch);
    compile::set_count(&mut cfg, ns.as_str(), "m_group", group as usize);
    compile::set_count(&mut cfg, ns.as_str(), "token_capacity", capacity);
    compile::set(&mut cfg, ns.as_str(), "eps", compile::num(d.eps));
    assert(compile::pairs(cfg@) =~= qkv_rope_kernel(*d, tokens@, group).config);
    own(stem, cfg)
}

fn rope_for(d: &StackDims) -> (kernel: Specialization)
    requires
        d.eps.sound(),
        d.qkv_width() <= usize::MAX,
    ensures
        kernel@ == rope_kernel(*d),
{
    let stem: &str = if d.head_dim == 64 {
        "rope64_qknorm_f16"
    } else if d.rope_dim == 128 {
        "rope128_qknorm_f16"
    } else {
        "rope_qknorm_f16"
    };
    let ns = text::cat3("h3.", stem, ".");
    proof {
        lemma_product(d.kv_heads as int, d.head_dim as int);
    }
    let mut cfg: Cfg = Vec::new();
    compile::set_count(&mut cfg, ns.as_str(), "row_stride", d.qkv());
    compile::set_count(&mut cfg, ns.as_str(), "heads", d.heads);
    compile::set_count(&mut cfg, ns.as_str(), "kv_heads", d.kv_heads);
    compile::set_count(&mut cfg, ns.as_str(), "k_offset", d.inner());
    compile::set(&mut cfg, ns.as_str(), "eps", compile::num(d.eps));
    assert(compile::pairs(cfg@) =~= rope_kernel(*d).config);
    own(stem, cfg)
}

fn operand_for(
    d: &StackDims,
    tokens: usize,
    waves: usize,
    capacity: usize,
    scale: String,
) -> (kernel: Specialization)
    requires
        d.q_width() <= usize::MAX,
        waves == waves_of(*d, tokens as int),
        capacity == capacity_of(*d, tokens as int),
    ensures
        kernel@ == operand_kernel(*d, tokens as int, scale@),
{
    let head_major: bool = !d.attn_i4 && d.attn_qk_bits == 8 && waves == 8;
    let stem: &str = if d.attn_i4 {
        "prepare_qk_i4"
    } else if head_major {
        "prepare_qk_i8hm"
    } else {
        "prepare_qk_i8"
    };
    let ns = text::cat3("h3.", stem, ".");
    let ghost want = scale@;
    let mut cfg: Cfg = Vec::new();
    compile::set_count(&mut cfg, ns.as_str(), "row_stride", d.inner());
    compile::set(&mut cfg, ns.as_str(), "head_offset", String::from_str("0"));
    compile::set_count(&mut cfg, ns.as_str(), "heads", d.heads);
    if head_major {
        compile::set_count(&mut cfg, ns.as_str(), "token_capacity", capacity);
    }
    compile::set(&mut cfg, ns.as_str(), "extra_scale", scale);
    assert(compile::pairs(cfg@) =~= operand_kernel(*d, tokens as int, want).config);
    own(stem, cfg)
}

fn int_kernels_for(d: &StackDims, tokens: usize, waves: usize, capacity: usize, scales: &Scales) -> (
    kernels: IntKernels)
    requires
        d.q_width() <= usize::MAX,
        waves == waves_of(*d, tokens as int),
        capacity == capacity_of(*d, tokens as int),
        scales.operand.sound(),
    ensures
        kernels.colmean@ == colmean_kernel(*d),
        kernels.prep_q@ == operand_kernel(*d, tokens as int, compile::g17(scales.operand)),
        kernels.prep_k@ == operand_kernel(*d, tokens as int, "1"@),
        kernels.transpose@ == transpose_kernel(*d, tokens as int),
{
    let mut mean: Cfg = Vec::new();
    compile::set_count(&mut mean, "h3.colmean_f32.", "width", d.inner());
    assert(compile::pairs(mean@) =~= colmean_kernel(*d).config);
    let mut turn: Cfg = Vec::new();
    compile::set_count(&mut turn, "h3.transpose_f16.", "width", d.inner());
    compile::set_count(&mut turn, "h3.transpose_f16.", "row_capacity", capacity);
    assert(compile::pairs(turn@) =~= transpose_kernel(*d, tokens as int).config);
    IntKernels {
        colmean: own("colmean_f32", mean),
        prep_q: operand_for(d, tokens, waves, capacity, compile::num(scales.operand)),
        // the scale is in the queries already
        prep_k: operand_for(d, tokens, waves, capacity, String::from_str("1")),
        transpose: own("transpose_f16", turn),
    }
}

fn attention_stem_for(
    d: &StackDims,
    tokens: usize,
    waves: usize,
    knobs: &Knobs,
    fused: bool,
    fast: bool,
) -> (stem: &'static str)
    requires
        waves == waves_of(*d, tokens as int),
        fused == qkv_is_fused(*d, tokens as int, *knobs),
        fast == (tile_of(*d, *knobs) == Tile::Fast),
    ensures
        stem@ == attention_stem(*d, tokens as int, *knobs),
{
    let skip: bool = d.attn_i4 && knobs.skip_tau.is_some();
    if !d.attn_i4 && d.attn_qk_bits == 8 && waves == 8 {
        "attention_i8qkhm_mha8_k64_lds_f16_wmma"
    } else if d.attn_i4 {
        if tokens >= 20000 {
            if skip {
                "attention_i4qksl_mha8_lds_f16_wmma"
            } else {
                "attention_i4qkl_mha8_lds_f16_wmma"
            }
        } else if waves == 8 {
            if skip {
                "attention_i4qks_mha8_lds_f16_wmma"
            } else {
                "attention_i4qk_mha8_lds_f16_wmma"
            }
        } else {
            if skip {
                "attention_i4qks_mha_lds_f16_wmma"
            } else {
                "attention_i4qk_mha_lds_f16_wmma"
            }
        }
    } else if d.attn_qk_bits == 8 {
        "attention_i8qk_mha_lds_f16_wmma"
    } else if fused {
        "attention_mha64hm32_lds_f16_wmma"
    } else if fast && waves == 4 {
        "attention_mha64t32_lds_f16_wmma"
    } else if d.causal {
        "attention_gqa8c_lds_f16_wmma"
    } else if d.head_dim == 64 {
        if waves == 8 {
            "attention_mha648_lds_f16_wmma"
        } else {
            "attention_mha64_lds_f16_wmma"
        }
    } else if waves == 8 {
        "attention_mha8_lds_f16_wmma"
    } else {
        "attention_mha_lds_f16_wmma"
    }
}

fn attention_for(
    d: &StackDims,
    tokens: usize,
    waves: usize,
    capacity: usize,
    out_stride: usize,
    knobs: &Knobs,
    scales: &Scales,
    fused: bool,
    fast: bool,
) -> (kernel: Specialization)
    requires
        d.qkv_width() <= usize::MAX,
        waves == waves_of(*d, tokens as int),
        capacity == capacity_of(*d, tokens as int),
        out_stride == attn_width(*d),
        fused == qkv_is_fused(*d, tokens as int, *knobs),
        fast == (tile_of(*d, *knobs) == Tile::Fast),
        scales.head.sound(),
        knobs.skip_tau matches Some(tau) ==> tau.sound(),
    ensures
        kernel@ == attention_kernel(*d, tokens as int, *knobs, *scales),
{
    let stem = attention_stem_for(d, tokens, waves, knobs, fused, fast);
    let ns = text::cat3("h3.", stem, ".");
    proof {
        lemma_product(d.heads as int, d.head_dim as int);
        lemma_product(d.kv_heads as int, d.head_dim as int);
    }
    let mut cfg: Cfg = Vec::new();
    compile::set_count(&mut cfg, ns.as_str(), "q_stride", d.inner());
    compile::set_count(&mut cfg, ns.as_str(), "kv_stride", d.kv_inner());
    compile::set_count(&mut cfg, ns.as_str(), "tokens", tokens);
    compile::set_count(&mut cfg, ns.as_str(), "token_capacity", capacity);
    compile::set(&mut cfg, ns.as_str(), "scale", compile::num(scales.head));
    compile::set_count(&mut cfg, ns.as_str(), "out_stride", out_stride);
    if d.attn_i4 {
        if let Some(tau) = knobs.skip_tau {
            compile::set(&mut cfg, ns.as_str(), "skip_tau", compile::num(tau));
        }
    }
    assert(compile::pairs(cfg@) =~= attention_kernel(*d, tokens as int, *knobs, *scales).config);
    own(stem, cfg)
}

proof fn lemma_times(a: int, b: int, unit: int)
    by (nonlinear_arith)
    requires
        a >= 0,
        b >= 0,
        unit >= 1,
    ensures
        0 <= a * b <= a * b * unit,
{
}

proof fn lemma_wider(a: int, b: int, c: int)
    by (nonlinear_arith)
    requires
        a >= 0,
        0 <= b <= c,
    ensures
        0 <= a * b <= a * c,
        b * a <= c * a,
{
}

/// The bytes of `rows` rows of `width` elements of `unit` bytes.
fn area(rows: usize, width: usize, unit: usize) -> (bytes: usize)
    requires
        unit >= 1,
        rows * width * unit <= usize::MAX,
    ensures
        bytes == rows * width * unit,
{
    proof {
        lemma_times(rows as int, width as int, unit as int);
    }
    rows * width * unit
}

fn sizes_for(d: &StackDims, tokens: usize, capacity: usize, knobs: &Knobs, fused: bool) -> (sizes:
    Sizes)
    requires
        countable(*d, tokens as int, *knobs),
        capacity == capacity_of(*d, tokens as int),
        fused == qkv_is_fused(*d, tokens as int, *knobs),
    ensures
        sized(sizes, *d, tokens as int, *knobs),
{
    let ghost t = capacity as int;
    let ghost (q, kv) = (d.q_width(), d.kv_width());
    proof {
        lemma_product(d.heads as int, d.head_dim as int);
        lemma_product(d.kv_heads as int, d.head_dim as int);
        lemma_wider(t, q, d.qkv_width());
        lemma_wider(t, kv, d.qkv_width());
        assert(q * t == t * q) by (nonlinear_arith);
        if qk_is_integer(*d) {
            assert(t * d.heads * 4 <= t * d.heads * 128 && t * d.heads * 64 <= t * d.heads * 128)
                by (nonlinear_arith)
                requires
                    t >= 0,
                    d.heads >= 0,
            ;
        }
    }
    let unit: usize = if d.elem().quantised() {
        1
    } else {
        2
    };
    let inner: usize = d.inner();
    let kv_inner: usize = d.kv_inner();
    let qkv: usize = d.qkv();
    let ffn_pitch: usize = d.pitch(d.ffn);
    let hidden_pitch: usize = d.pitch(d.hidden);
    let inner_pitch: usize = d.pitch(inner);
    let wide: usize = if ffn_pitch < hidden_pitch {
        hidden_pitch
    } else {
        ffn_pitch
    };
    let widest: usize = if wide < inner_pitch {
        inner_pitch
    } else {
        wide
    };
    let half: bool = match d.elem() {
        Elem::F16 => true,
        _ => false,
    };
    let plain: bool = match tile_for(d, knobs) {
        Tile::Plain => true,
        _ => false,
    };
    let direct_down: bool = half && (!plain || ffn_pitch == d.ffn);
    let attn: usize = if half {
        inner_pitch
    } else {
        inner
    };
    let gu: usize = if direct_down {
        ffn_pitch
    } else {
        d.ffn
    };
    let (qa, ka, va) = if fused {
        (None, None, None)
    } else {
        (
            Some(Alloc { bytes: area(capacity, inner, 2), zeroed: true }),
            Some(Alloc { bytes: area(capacity, kv_inner, 2), zeroed: true }),
            Some(Alloc { bytes: area(capacity, kv_inner, 2), zeroed: true }),
        )
    };
    let int_qk: Option<IntSizes> = if d.attn_i4 || d.attn_qk_bits == 8 {
        let code: usize = if d.attn_i4 {
            64
        } else {
            128
        };
        let codes = Alloc { bytes: area(capacity, d.heads, code), zeroed: true };
        let marks = Alloc { bytes: area(capacity, d.heads, 4), zeroed: true };
        Some(
            IntSizes {
                qi: codes,
                ki: codes,
                qs: marks,
                ks: marks,
                kmean: Alloc { bytes: inner * 4, zeroed: false },
                zmean: Alloc { bytes: inner * 4, zeroed: true },
                vt: Alloc { bytes: area(inner, capacity, 2), zeroed: true },
            },
        )
    } else {
        None
    };
    Sizes {
        a_q: Alloc { bytes: area(capacity, widest, unit), zeroed: false },
        a_s: Alloc { bytes: capacity * 4, zeroed: false },
        fused: Alloc { bytes: area(capacity, qkv, 2), zeroed: true },
        q: qa,
        k: ka,
        v: va,
        attn: Alloc { bytes: area(capacity, attn, 2), zeroed: true },
        gu: Alloc { bytes: area(capacity, gu, 2), zeroed: false },
        int_qk,
    }
}

impl Plan {
    /// Decides a stack's kernels and its buffers.
    #[verifier::rlimit(40)]
    #[verifier::spinoff_prover]
    pub fn new<
        L: Fn(usize) -> Option<usize>,
        F: Fn(usize, usize, usize) -> u32,
        M: Fn(usize, usize, usize, usize) -> u32,
        G: Fn(usize, u32, usize) -> u32,
    >(
        tuning: &Tuning<L, F, M, G>,
        d: StackDims,
        tokens: usize,
        layers: usize,
        knobs: &Knobs,
        scales: &Scales,
    ) -> (result: Result<Self>)
        requires
            tuning.measured(),
            countable(d, tokens as int, *knobs),
            d.eps.sound(),
            scales.head.sound(),
            scales.operand.sound(),
            knobs.skip_tau matches Some(tau) ==> tau.sound(),
        ensures
            match plan_trouble(*tuning, d, tokens as int, *knobs) {
                Some(words) => result matches Err(e) && compile::says(e, words),
                None => {
                    &&& result matches Ok(plan)
                    &&& plan.d == d
                    &&& plan.tokens == tokens
                    &&& plan.layers == layers
                    &&& plan.knobs == *knobs
                    &&& plan.scales == *scales
                    &&& plan.laid()
                    &&& plan.tuned(*tuning)
                },
            },
    {
        proof {
            lemma_product(d.heads as int, d.head_dim as int);
            lemma_product(d.kv_heads as int, d.head_dim as int);
        }
        let elem = d.elem();
        let tile = tile_for(&d, knobs);
        let plain: bool = match tile {
            Tile::Plain => true,
            _ => false,
        };
        let fast: bool = match tile {
            Tile::Fast => true,
            _ => false,
        };
        let half: bool = match elem {
            Elem::F16 => true,
            _ => false,
        };
        let waves: usize = if d.causal || tokens >= 4096 {
            8
        } else {
            4
        };
        let capacity: usize = capacity_for(&d, tokens, waves);
        let inner: usize = d.inner();
        let qkv: usize = d.qkv();
        let hidden_pitch: usize = d.pitch(d.hidden);
        let inner_pitch: usize = d.pitch(inner);
        let ffn_pitch: usize = d.pitch(d.ffn);
        let eps = compile::num(d.eps);
        let prep_norm = Prepare::build(
            tuning,
            Form::Norm,
            elem,
            d.hidden,
            eps.as_str(),
            d.classes,
            hidden_pitch,
        )?;
        let direct_attn: bool = half;
        let direct_down: bool = half && (!plain || ffn_pitch == d.ffn);
        let prep_attn = if direct_attn {
            None
        } else {
            Some(
                Prepare::build(
                    tuning,
                    Form::Plain,
                    elem,
                    inner,
                    "9.9999997473787516e-06",
                    1,
                    inner_pitch,
                )?,
            )
        };
        let prep_down = if direct_down {
            None
        } else {
            Some(
                Prepare::build(
                    tuning,
                    Form::Plain,
                    elem,
                    d.ffn,
                    "9.9999997473787516e-06",
                    1,
                    ffn_pitch,
                )?,
            )
        };
        let fused: bool = fast && !d.causal && waves == 4 && d.hidden == 2048 && d.heads == 32
            && d.kv_heads == 32 && d.head_dim == 64 && d.rope_dim == 48;
        let qkv_group: u32 = if fused {
            (tuning.fast_group)(tokens, d.hidden, 3 * d.hidden)
        } else {
            1
        };
        let qkv_rope = if fused {
            Some(qkv_rope_for(&d, hidden_pitch, capacity, qkv_group, Ghost(tokens as int)))
        } else {
            None
        };
        let gemm_qkv = if fused {
            None
        } else {
            Some(
                Gemm::build(
                    tuning,
                    Mode::Plain,
                    elem,
                    d.bias,
                    true,
                    d.hidden,
                    qkv,
                    tokens,
                    1,
                    hidden_pitch,
                    tile,
                    0,
                )?,
            )
        };
        let gemm_gu = Gemm::build(
            tuning,
            Mode::Swiglu,
            elem,
            d.bias,
            d.gate_first,
            d.hidden,
            2 * d.ffn,
            tokens,
            1,
            hidden_pitch,
            tile,
            ffn_pitch,
        )?;
        let gemm_out = Gemm::build(
            tuning,
            Mode::Resid,
            elem,
            d.bias,
            true,
            inner,
            d.hidden,
            tokens,
            d.classes,
            inner_pitch,
            tile,
            0,
        )?;
        let gemm_down = Gemm::build(
            tuning,
            Mode::Resid,
            elem,
            d.bias,
            true,
            d.ffn,
            d.hidden,
            tokens,
            d.classes,
            ffn_pitch,
            tile,
            0,
        )?;
        let rope = if fused {
            None
        } else {
            Some(rope_for(&d))
        };
        let integer: bool = d.attn_i4 || d.attn_qk_bits == 8;
        if integer && (d.causal || d.head_dim != 128) {
            return Err(
                Error::Io(String::from_str("integer QK^T attention: MHA with head 128 only")),
            );
        }
        let int_qk = if integer {
            Some(int_kernels_for(&d, tokens, waves, capacity, scales))
        } else {
            None
        };
        let out_stride: usize = if direct_attn {
            inner_pitch
        } else {
            inner
        };
        let attention = attention_for(
            &d,
            tokens,
            waves,
            capacity,
            out_stride,
            knobs,
            scales,
            fused,
            fast,
        );
        let sizes = sizes_for(&d, tokens, capacity, knobs, fused);
        Ok(
            Plan {
                d,
                tokens,
                capacity,
                layers,
                waves,
                knobs: *knobs,
                scales: *scales,
                direct_attn,
                direct_down,
                prep_norm,
                prep_attn,
                prep_down,
                gemm_qkv,
                gemm_gu,
                gemm_out,
                gemm_down,
                qkv_rope,
                qkv_group,
                rope,
                attention,
                int_qk,
                sizes,
            },
        )
    }
}

/// The kernels a list refers to.
pub open spec fn these(list: Seq<&Specialization>) -> Seq<Specialization> {
    Seq::new(list.len(), |i: int| *list[i])
}

fn put<'a>(list: &mut Vec<&'a Specialization>, kernel: Option<&'a Specialization>)
    ensures
        these(final(list)@) == these(old(list)@) + (match kernel {
            Some(kernel) => seq![*kernel],
            None => Seq::empty(),
        }),
{
    if let Some(kernel) = kernel {
        list.push(kernel);
        assert(these(list@) =~= these(old(list)@) + seq![*kernel]);
    } else {
        assert(these(list@) =~= these(old(list)@) + Seq::empty());
    }
}

/// One kernel, where there is one.
pub open spec fn maybe(kernel: Option<Specialization>) -> Seq<Specialization> {
    match kernel {
        Some(kernel) => seq![kernel],
        None => Seq::empty(),
    }
}

pub open spec fn of_prepare(prepare: Option<Prepare>) -> Seq<Specialization> {
    match prepare {
        Some(p) => seq![p.kernel],
        None => Seq::empty(),
    }
}

pub open spec fn of_gemm(gemm: Option<Gemm>) -> Seq<Specialization> {
    match gemm {
        Some(g) => seq![g.kernel],
        None => Seq::empty(),
    }
}

pub open spec fn of_integers(kernels: Option<IntKernels>) -> Seq<Specialization> {
    match kernels {
        Some(k) => seq![k.colmean, k.prep_q, k.prep_k, k.transpose],
        None => Seq::empty(),
    }
}

impl Plan {
    /// The kernels up to the projection to Q, K and V.
    pub open spec fn asked_first(self) -> Seq<Specialization> {
        seq![self.prep_norm.kernel] + of_prepare(self.prep_attn) + of_prepare(self.prep_down) + maybe(
            self.qkv_rope,
        ) + of_gemm(self.gemm_qkv)
    }

    /// Every kernel the plan launches, in the order they are asked for.
    pub open spec fn asked(self) -> Seq<Specialization> {
        self.asked_first() + seq![self.gemm_gu.kernel, self.gemm_out.kernel, self.gemm_down.kernel]
            + maybe(self.rope) + of_integers(self.int_qk) + seq![self.attention]
    }

    /// Every kernel the plan launches. They are asked for in this order, so that all of them are built in one batch
    /// before the first is launched.
    pub fn kernels(&self) -> (kernels: Vec<&Specialization>)
        ensures
            these(kernels@) == self.asked(),
    {
        let mut kernels: Vec<&Specialization> = Vec::new();
        assert(these(kernels@) =~= Seq::empty());
        put(&mut kernels, Some(&self.prep_norm.kernel));
        put(
            &mut kernels,
            match &self.prep_attn {
                Some(p) => Some(&p.kernel),
                None => None,
            },
        );
        put(
            &mut kernels,
            match &self.prep_down {
                Some(p) => Some(&p.kernel),
                None => None,
            },
        );
        put(&mut kernels, self.qkv_rope.as_ref());
        put(
            &mut kernels,
            match &self.gemm_qkv {
                Some(g) => Some(&g.kernel),
                None => None,
            },
        );
        assert(these(kernels@) =~= self.asked_first());
        put(&mut kernels, Some(&self.gemm_gu.kernel));
        put(&mut kernels, Some(&self.gemm_out.kernel));
        put(&mut kernels, Some(&self.gemm_down.kernel));
        put(&mut kernels, self.rope.as_ref());
        assert(these(kernels@) =~= self.asked_first() + seq![
            self.gemm_gu.kernel,
            self.gemm_out.kernel,
            self.gemm_down.kernel,
        ] + maybe(self.rope));
        let ghost before = these(kernels@);
        if let Some(k) = &self.int_qk {
            put(&mut kernels, Some(&k.colmean));
            put(&mut kernels, Some(&k.prep_q));
            put(&mut kernels, Some(&k.prep_k));
            put(&mut kernels, Some(&k.transpose));
            assert(these(kernels@) =~= before + seq![k.colmean, k.prep_q, k.prep_k, k.transpose]);
        }
        assert(these(kernels@) =~= before + of_integers(self.int_qk));
        put(&mut kernels, Some(&self.attention));
        kernels
    }
}

// The weights of a layer.

/// How a weight is asked for: as rows at a pitch, or as so many bytes.
#[derive(Clone, Copy, Debug, PartialEq, Eq, Structural)]
pub enum Want {
    Rows { rows: usize, row_bytes: usize, pitch_bytes: usize },
    Bytes(usize),
}

impl Want {
    /// The bytes the weight takes.
    pub open spec fn size(self) -> int {
        match self {
            Want::Rows { rows, pitch_bytes, .. } => rows * pitch_bytes,
            Want::Bytes(bytes) => bytes as int,
        }
    }
}

/// A weight to have on the device.
#[derive(Debug)]
pub struct Request {
    pub name: String,
    pub want: Want,
}

/// The weights asked for, by name.
pub open spec fn asked(requests: Seq<Request>) -> Seq<(Seq<char>, Want)> {
    Seq::new(requests.len(), |i: int| (requests[i].name@, requests[i].want))
}

/// `n` rows of `k` operand elements, at their pitch.
pub open spec fn rows_of(d: StackDims, n: int, k: int) -> Want {
    Want::Rows {
        rows: n as usize,
        row_bytes: (k * d.unit()) as usize,
        pitch_bytes: (d.pitch_of(k) * d.unit()) as usize,
    }
}

/// `n` singles.
pub open spec fn singles(n: int) -> Want {
    Want::Bytes((n * 4) as usize)
}

/// What a layer's weights are asked for as: its head norms where it has them, its branch scales where it
/// has them, then its projections with their scales where the rows are integers, its biases where it has
/// them, and its norms.
pub open spec fn layer_wants(d: StackDims, p: Seq<char>, qk_weights: bool, scaled: bool) -> Seq<
    (Seq<char>, Want),
> {
    (head_wants(d, p, qk_weights) + scale_wants(d, p, scaled)) + weight_wants(d, p) + (bias_wants(d, p)
        + norm_wants(d, p))
}

pub open spec fn head_wants(d: StackDims, p: Seq<char>, qk_weights: bool) -> Seq<
    (Seq<char>, Want),
> {
    if qk_weights {
        seq![
            (p + "qnorm"@, singles(d.head_dim as int)),
            (p + "knorm"@, singles(d.head_dim as int)),
        ]
    } else {
        Seq::empty()
    }
}

pub open spec fn scale_wants(d: StackDims, p: Seq<char>, scaled: bool) -> Seq<(Seq<char>, Want)> {
    if scaled {
        seq![
            (p + "scale1"@, singles(d.hidden as int)),
            (p + "scale2"@, singles(d.hidden as int)),
        ]
    } else {
        Seq::empty()
    }
}

pub open spec fn weight_wants(d: StackDims, p: Seq<char>) -> Seq<(Seq<char>, Want)> {
    let (hidden, inner, ffn, qkv) = (d.hidden as int, d.q_width(), d.ffn as int, d.qkv_width());
    if d.operand().is_quantised() {
        seq![
            (p + "qkv.q"@, rows_of(d, qkv, hidden)),
            (p + "qkv.s"@, singles(qkv)),
            (p + "out.q"@, rows_of(d, hidden, inner)),
            (p + "out.s"@, singles(hidden)),
            (p + "gu.q"@, rows_of(d, 2 * ffn, hidden)),
            (p + "gu.s"@, singles(2 * ffn)),
            (p + "down.q"@, rows_of(d, hidden, ffn)),
            (p + "down.s"@, singles(hidden)),
        ]
    } else {
        seq![
            (p + "qkv.q"@, rows_of(d, qkv, hidden)),
            (p + "out.q"@, rows_of(d, hidden, inner)),
            (p + "gu.q"@, rows_of(d, 2 * ffn, hidden)),
            (p + "down.q"@, rows_of(d, hidden, ffn)),
        ]
    }
}

pub open spec fn bias_wants(d: StackDims, p: Seq<char>) -> Seq<(Seq<char>, Want)> {
    if d.bias {
        seq![
            (p + "qkv.b"@, singles(d.qkv_width())),
            (p + "out.b"@, singles(d.hidden as int)),
            (p + "gu.b"@, singles(2 * d.ffn)),
            (p + "down.b"@, singles(d.hidden as int)),
        ]
    } else {
        Seq::empty()
    }
}

pub open spec fn norm_wants(d: StackDims, p: Seq<char>) -> Seq<(Seq<char>, Want)> {
    seq![(p + "norm1"@, singles(d.hidden as int)), (p + "norm2"@, singles(d.hidden as int))]
}

/// How many requests stand before a layer's projections.
pub open spec fn before_weights(qk_weights: bool, scaled: bool) -> int {
    (if qk_weights {
        2int
    } else {
        0
    }) + (if scaled {
        2int
    } else {
        0
    })
}

/// How many requests a layer's projections are.
pub open spec fn weight_count(d: StackDims) -> int {
    if d.operand().is_quantised() {
        8
    } else {
        4
    }
}

/// How many requests a layer's biases are.
pub open spec fn bias_count(d: StackDims) -> int {
    if d.bias {
        4
    } else {
        0
    }
}

/// How many requests a layer makes.
pub open spec fn layer_count(d: StackDims, qk_weights: bool, scaled: bool) -> int {
    before_weights(qk_weights, scaled) + weight_count(d) + bias_count(d) + 2
}

/// Whether a layer's weights can be counted.
pub open spec fn weights_countable(d: StackDims) -> bool {
    let unit = d.unit();
    let (hidden, inner, ffn, qkv) = (d.hidden as int, d.q_width(), d.ffn as int, d.qkv_width());
    &&& d.pitched(hidden) && d.pitched(inner) && d.pitched(ffn)
    &&& qkv * 4 <= usize::MAX
    &&& ffn * 8 <= usize::MAX
    &&& hidden * 4 <= usize::MAX
    &&& d.head_dim * 4 <= usize::MAX
    &&& d.pitch_of(hidden) * unit <= usize::MAX
    &&& d.pitch_of(inner) * unit <= usize::MAX
    &&& d.pitch_of(ffn) * unit <= usize::MAX
}

fn want_rows(d: &StackDims, n: usize, k: usize) -> (want: Want)
    requires
        d.pitched(k as int),
        d.pitch_of(k as int) * d.unit() <= usize::MAX,
    ensures
        want == rows_of(*d, n as int, k as int),
{
    let pitch: usize = d.pitch(k);
    let quantised: bool = d.elem().quantised();
    proof {
        let unit = d.unit();
        assert(unit == if quantised {
            1int
        } else {
            2
        });
        assert(k * 1 == k && k * 2 == k + k && pitch * 1 == pitch && pitch * 2 == pitch + pitch);
    }
    if quantised {
        Want::Rows { rows: n, row_bytes: k, pitch_bytes: pitch }
    } else {
        Want::Rows { rows: n, row_bytes: k * 2, pitch_bytes: pitch * 2 }
    }
}

pub(crate) fn ask(list: &mut Vec<Request>, p: &str, name: &str, want: Want)
    ensures
        asked(final(list)@) == asked(old(list)@).push((p@ + name@, want)),
{
    let ghost before = list@;
    list.push(Request { name: text::cat2(p, name), want });
    assert(asked(list@) =~= asked(before).push((p@ + name@, want)));
}

fn ask_weights(list: &mut Vec<Request>, d: &StackDims, p: &str)
    requires
        weights_countable(*d),
    ensures
        asked(final(list)@) == asked(old(list)@) + weight_wants(*d, p@),
{
    let ghost before = asked(list@);
    proof {
        lemma_product(d.heads as int, d.head_dim as int);
        lemma_product(d.kv_heads as int, d.head_dim as int);
    }
    let inner: usize = d.inner();
    let qkv: usize = d.qkv();
    let quant: bool = d.elem().quantised();
    ask(list, p, "qkv.q", want_rows(d, qkv, d.hidden));
    if quant {
        ask(list, p, "qkv.s", Want::Bytes(qkv * 4));
    }
    ask(list, p, "out.q", want_rows(d, d.hidden, inner));
    if quant {
        ask(list, p, "out.s", Want::Bytes(d.hidden * 4));
    }
    ask(list, p, "gu.q", want_rows(d, 2 * d.ffn, d.hidden));
    if quant {
        ask(list, p, "gu.s", Want::Bytes(2 * d.ffn * 4));
    }
    ask(list, p, "down.q", want_rows(d, d.hidden, d.ffn));
    if quant {
        ask(list, p, "down.s", Want::Bytes(d.hidden * 4));
    }
    assert(asked(list@) =~= before + weight_wants(*d, p@));
}

fn ask_biases(list: &mut Vec<Request>, d: &StackDims, p: &str)
    requires
        weights_countable(*d),
    ensures
        asked(final(list)@) == asked(old(list)@) + (bias_wants(*d, p@) + norm_wants(*d, p@)),
{
    let ghost before = asked(list@);
    if d.bias {
        proof {
            lemma_product(d.heads as int, d.head_dim as int);
            lemma_product(d.kv_heads as int, d.head_dim as int);
        }
        ask(list, p, "qkv.b", Want::Bytes(d.qkv() * 4));
        ask(list, p, "out.b", Want::Bytes(d.hidden * 4));
        ask(list, p, "gu.b", Want::Bytes(2 * d.ffn * 4));
        ask(list, p, "down.b", Want::Bytes(d.hidden * 4));
    }
    ask(list, p, "norm1", Want::Bytes(d.hidden * 4));
    ask(list, p, "norm2", Want::Bytes(d.hidden * 4));
    assert(asked(list@) =~= before + (bias_wants(*d, p@) + norm_wants(*d, p@)));
}

/// What to have on the device for a layer under this prefix, in order.
pub fn layer_requests(d: &StackDims, p: &str, qk_weights: bool, scaled: bool) -> (list: Vec<Request>)
    requires
        weights_countable(*d),
    ensures
        asked(list@) == layer_wants(*d, p@, qk_weights, scaled),
{
    let mut list: Vec<Request> = Vec::new();
    assert(asked(list@) =~= Seq::empty());
    if qk_weights {
        ask(&mut list, p, "qnorm", Want::Bytes(d.head_dim * 4));
        ask(&mut list, p, "knorm", Want::Bytes(d.head_dim * 4));
    }
    assert(asked(list@) =~= head_wants(*d, p@, qk_weights));
    if scaled {
        ask(&mut list, p, "scale1", Want::Bytes(d.hidden * 4));
        ask(&mut list, p, "scale2", Want::Bytes(d.hidden * 4));
    }
    assert(asked(list@) =~= head_wants(*d, p@, qk_weights) + scale_wants(*d, p@, scaled));
    ask_weights(&mut list, d, p);
    ask_biases(&mut list, d, p);
    list
}

/// One layer's weights, already on the device.
#[derive(Clone, Copy, Debug)]
pub struct Block {
    pub qkv_q: BufferRef,
    pub qkv_s: Option<BufferRef>,
    pub out_q: BufferRef,
    pub out_s: Option<BufferRef>,
    pub gu_q: BufferRef,
    pub gu_s: Option<BufferRef>,
    pub down_q: BufferRef,
    pub down_s: Option<BufferRef>,
    pub qkv_b: Option<BufferRef>,
    pub out_b: Option<BufferRef>,
    pub gu_b: Option<BufferRef>,
    pub down_b: Option<BufferRef>,
    pub norm1: BufferRef,
    pub norm2: BufferRef,
    pub qnorm: BufferRef,
    pub knorm: BufferRef,
    pub scale1: Option<BufferRef>,
    pub scale2: Option<BufferRef>,
}

impl Block {
    /// Whether these are the weights, in the order they are asked for.
    pub open spec fn in_order(
        &self,
        placed: Seq<BufferRef>,
        d: StackDims,
        qk_weights: bool,
        scaled: bool,
    ) -> bool {
        let a = before_weights(qk_weights, scaled);
        let e = a + weight_count(d);
        let n = placed.len() as int;
        &&& n == layer_count(d, qk_weights, scaled)
        &&& qk_weights ==> self.qnorm == placed[0] && self.knorm == placed[1]
        &&& scaled ==> self.scale1 == Some(placed[a - 2]) && self.scale2 == Some(placed[a - 1])
        &&& if d.operand().is_quantised() {
            &&& self.qkv_q == placed[a] && self.qkv_s == Some(placed[a + 1])
            &&& self.out_q == placed[a + 2] && self.out_s == Some(placed[a + 3])
            &&& self.gu_q == placed[a + 4] && self.gu_s == Some(placed[a + 5])
            &&& self.down_q == placed[a + 6] && self.down_s == Some(placed[a + 7])
        } else {
            &&& self.qkv_q == placed[a]
            &&& self.out_q == placed[a + 1]
            &&& self.gu_q == placed[a + 2]
            &&& self.down_q == placed[a + 3]
        }
        &&& d.bias ==> {
            &&& self.qkv_b == Some(placed[e])
            &&& self.out_b == Some(placed[e + 1])
            &&& self.gu_b == Some(placed[e + 2])
            &&& self.down_b == Some(placed[e + 3])
        }
        &&& self.norm1 == placed[n - 2]
        &&& self.norm2 == placed[n - 1]
    }

    /// Whether the layer has what its shape asks for.
    pub open spec fn has(&self, d: StackDims, scaled: bool) -> bool {
        let quant = d.operand().is_quantised();
        &&& self.qkv_s is Some == quant
        &&& self.out_s is Some == quant
        &&& self.gu_s is Some == quant
        &&& self.down_s is Some == quant
        &&& self.qkv_b is Some == d.bias
        &&& self.out_b is Some == d.bias
        &&& self.gu_b is Some == d.bias
        &&& self.down_b is Some == d.bias
        &&& self.scale1 is Some == scaled
        &&& self.scale2 is Some == scaled
    }

    /// Whether the weights the GEMMs and the prepares read are as long as those read them.
    pub open spec fn fits(&self, d: StackDims) -> bool {
        let unit = d.unit();
        let (hidden, inner, ffn, qkv) = (d.hidden as int, d.q_width(), d.ffn as int, d.qkv_width());
        &&& self.qkv_q.length >= qkv * (d.pitch_of(hidden) * unit)
        &&& self.out_q.length >= hidden * (d.pitch_of(inner) * unit)
        &&& self.gu_q.length >= (2 * ffn) * (d.pitch_of(hidden) * unit)
        &&& self.down_q.length >= hidden * (d.pitch_of(ffn) * unit)
        &&& self.qkv_s matches Some(s) ==> s.length >= qkv * 4
        &&& self.out_s matches Some(s) ==> s.length >= hidden * 4
        &&& self.gu_s matches Some(s) ==> s.length >= 2 * ffn * 4
        &&& self.down_s matches Some(s) ==> s.length >= hidden * 4
        &&& self.qkv_b matches Some(b) ==> b.length >= qkv * 4
        &&& self.out_b matches Some(b) ==> b.length >= hidden * 4
        &&& self.gu_b matches Some(b) ==> b.length >= 2 * ffn * 4
        &&& self.down_b matches Some(b) ==> b.length >= hidden * 4
        &&& self.norm1.length >= hidden * 4
        &&& self.norm2.length >= hidden * 4
    }

    /// A layer's weights, from what its requests brought. A stack without head norms takes ones.
    pub fn new(
        d: &StackDims,
        qk_weights: bool,
        scaled: bool,
        placed: &Vec<BufferRef>,
        ones: BufferRef,
    ) -> (block: Self)
        requires
            placed@.len() == layer_count(*d, qk_weights, scaled),
        ensures
            block.in_order(placed@, *d, qk_weights, scaled),
            block.has(*d, scaled),
            !qk_weights ==> block.qnorm == ones && block.knorm == ones,
    {
        let quant: bool = d.elem().quantised();
        let mut at: usize = 0;
        let (qnorm, knorm) = if qk_weights {
            at = 2;
            (placed[0], placed[1])
        } else {
            (ones, ones)
        };
        let (scale1, scale2) = if scaled {
            at = at + 2;
            (Some(placed[at - 2]), Some(placed[at - 1]))
        } else {
            (None, None)
        };
        let (w, s): (usize, usize) = if quant {
            (2, 8)
        } else {
            (1, 4)
        };
        let end: usize = at + s;
        let qkv_s = if quant {
            Some(placed[at + 1])
        } else {
            None
        };
        let out_s = if quant {
            Some(placed[at + 3])
        } else {
            None
        };
        let gu_s = if quant {
            Some(placed[at + 5])
        } else {
            None
        };
        let down_s = if quant {
            Some(placed[at + 7])
        } else {
            None
        };
        let (qkv_b, out_b, gu_b, down_b) = if d.bias {
            (
                Some(placed[end]),
                Some(placed[end + 1]),
                Some(placed[end + 2]),
                Some(placed[end + 3]),
            )
        } else {
            (None, None, None, None)
        };
        let n: usize = placed.len();
        Block {
            qkv_q: placed[at],
            qkv_s,
            out_q: placed[at + w],
            out_s,
            gu_q: placed[at + 2 * w],
            gu_s,
            down_q: placed[at + 3 * w],
            down_s,
            qkv_b,
            out_b,
            gu_b,
            down_b,
            norm1: placed[n - 2],
            norm2: placed[n - 1],
            qnorm,
            knorm,
            scale1,
            scale2,
        }
    }
}

/// A layer whose requests were each given an allocation of their size can be read as its kernels read it.
#[verifier::rlimit(40)]
#[verifier::spinoff_prover]
pub proof fn law_a_placed_layer_fits(
    d: StackDims,
    p: Seq<char>,
    qk_weights: bool,
    scaled: bool,
    placed: Seq<BufferRef>,
    block: Block,
)
    requires
        weights_countable(d),
        block.has(d, scaled),
        block.in_order(placed, d, qk_weights, scaled),
        forall|i: int|
            0 <= i < placed.len() ==> (#[trigger] placed[i]).length == hrx::allocated(
                layer_wants(d, p, qk_weights, scaled)[i].1.size(),
            ),
    ensures
        layer_wants(d, p, qk_weights, scaled).len() == layer_count(d, qk_weights, scaled),
        block.fits(d),
{
    let wants = layer_wants(d, p, qk_weights, scaled);
    let front = head_wants(d, p, qk_weights) + scale_wants(d, p, scaled);
    let back = bias_wants(d, p) + norm_wants(d, p);
    let a = before_weights(qk_weights, scaled);
    let e = a + weight_count(d);
    let n = placed.len() as int;
    lemma_product(d.heads as int, d.head_dim as int);
    lemma_product(d.kv_heads as int, d.head_dim as int);
    assert(front.len() == a && weight_wants(d, p).len() == weight_count(d));
    assert(back.len() == bias_count(d) + 2);
    assert(forall|i: int| 0 <= i < weight_count(d) ==> wants[a + i] == #[trigger] weight_wants(d, p)[i]);
    assert(forall|i: int| 0 <= i < back.len() ==> wants[e + i] == #[trigger] back[i]);
    assert(placed[a].length == hrx::allocated(weight_wants(d, p)[0].1.size()));
    assert(placed[a + 1].length == hrx::allocated(weight_wants(d, p)[1].1.size()));
    assert(placed[a + 2].length == hrx::allocated(weight_wants(d, p)[2].1.size()));
    assert(placed[a + 3].length == hrx::allocated(weight_wants(d, p)[3].1.size()));
    if d.operand().is_quantised() {
        assert(placed[a + 4].length == hrx::allocated(weight_wants(d, p)[4].1.size()));
        assert(placed[a + 5].length == hrx::allocated(weight_wants(d, p)[5].1.size()));
        assert(placed[a + 6].length == hrx::allocated(weight_wants(d, p)[6].1.size()));
        assert(placed[a + 7].length == hrx::allocated(weight_wants(d, p)[7].1.size()));
    }
    if d.bias {
        assert(back[0] == bias_wants(d, p)[0] && back[1] == bias_wants(d, p)[1]);
        assert(back[2] == bias_wants(d, p)[2] && back[3] == bias_wants(d, p)[3]);
        assert(placed[e].length == hrx::allocated(back[0].1.size()));
        assert(placed[e + 1].length == hrx::allocated(back[1].1.size()));
        assert(placed[e + 2].length == hrx::allocated(back[2].1.size()));
        assert(placed[e + 3].length == hrx::allocated(back[3].1.size()));
    }
    let m = back.len() as int;
    assert(back[m - 2] == norm_wants(d, p)[0] && back[m - 1] == norm_wants(d, p)[1]);
    assert(placed[n - 2].length == hrx::allocated(back[m - 2].1.size()));
    assert(placed[n - 1].length == hrx::allocated(back[m - 1].1.size()));
}

// The stack.

/// The integer QK^T operands, when the attention runs on them.
#[derive(Debug)]
pub struct IntBuffers {
    pub qi: Buffer,
    pub ki: Buffer,
    pub qs: Buffer,
    pub ks: Buffer,
    pub kmean: Buffer,
    pub zmean: Buffer,
    pub vt: Buffer,
}

/// The buffers a stack works in.
#[derive(Debug)]
pub struct Buffers {
    pub a_q: Buffer,
    pub a_s: Buffer,
    pub fused: Buffer,
    /// when the QKV projection is fused with rope, these are views into `fused`; otherwise they are their
    /// own allocations
    pub q: Option<Buffer>,
    pub k: Option<Buffer>,
    pub v: Option<Buffer>,
    pub attn: Buffer,
    pub gu: Buffer,
    pub int_qk: Option<IntBuffers>,
}

/// Whether a buffer was allocated for this.
pub open spec fn holds(buffer: Buffer, a: Alloc) -> bool {
    buffer.size() == hrx::allocated(a.bytes as int)
}

/// Whether a buffer was allocated for this, if anything was asked for.
pub open spec fn holds_perhaps(buffer: Option<Buffer>, a: Option<Alloc>) -> bool {
    match (buffer, a) {
        (Some(b), Some(a)) => holds(b, a),
        (None, None) => true,
        _ => false,
    }
}

impl Buffers {
    pub open spec fn hold(&self, sizes: Sizes) -> bool {
        &&& holds(self.a_q, sizes.a_q)
        &&& holds(self.a_s, sizes.a_s)
        &&& holds(self.fused, sizes.fused)
        &&& holds_perhaps(self.q, sizes.q)
        &&& holds_perhaps(self.k, sizes.k)
        &&& holds_perhaps(self.v, sizes.v)
        &&& holds(self.attn, sizes.attn)
        &&& holds(self.gu, sizes.gu)
        &&& match (self.int_qk, sizes.int_qk) {
            (Some(b), Some(a)) => {
                &&& holds(b.qi, a.qi)
                &&& holds(b.ki, a.ki)
                &&& holds(b.qs, a.qs)
                &&& holds(b.ks, a.ks)
                &&& holds(b.kmean, a.kmean)
                &&& holds(b.zmean, a.zmean)
                &&& holds(b.vt, a.vt)
            },
            (None, None) => true,
            _ => false,
        }
    }
}

#[derive(Debug)]
pub struct Stack {
    pub plan: Plan,
    pub buffers: Buffers,
    pub blocks: Vec<Block>,
    pub tag: String,
    pub calls: usize,
}

/// What a forward pass reads and writes: the stream `[capacity][hidden]` of singles, a class per token,
/// and the rope tables.
#[derive(Clone, Copy, Debug)]
pub struct Inputs {
    pub x: BufferRef,
    pub cls: ClassRows,
    pub cos: BufferRef,
    pub sin: BufferRef,
}

/// A binding and what goes with it, where there is one.
pub open spec fn paired(s: Option<BufferRef>, a_s: BufferRef) -> Option<(BufferRef, BufferRef)> {
    match s {
        Some(s) => Some((s, a_s)),
        None => None,
    }
}

fn pair(s: Option<BufferRef>, a_s: BufferRef) -> (scales: Option<(BufferRef, BufferRef)>)
    ensures
        scales == paired(s, a_s),
{
    match s {
        Some(s) => Some((s, a_s)),
        None => None,
    }
}

/// A launch that takes its token count and these bindings.
pub open spec fn raw(
    kernel: SpecializationView,
    stage: Seq<char>,
    grid: Extent,
    block: Extent,
    t: u32,
    bindings: Seq<BufferRef>,
) -> Step {
    dispatch::free_step(
        LaunchView { kernel, stage, grid, block, scalars: seq![t], bindings },
    )
}

fn raw_launch<'a>(
    kernel: &'a Specialization,
    stage: &'a str,
    grid: Extent,
    block: Extent,
    t: u32,
    bindings: Vec<BufferRef>,
) -> (launch: Launch<'a>)
    ensures
        launch@ == raw(kernel@, stage@, grid, block, t, bindings@).launch,
{
    let mut scalars: Vec<u32> = Vec::new();
    scalars.push(t);
    assert(scalars@ =~= seq![t]);
    Launch { kernel, stage, grid, block, scalars, bindings }
}

pub proof fn lemma_capacity(d: StackDims, tokens: int)
    requires
        tokens >= 0,
    ensures
        capacity_of(d, tokens) >= tokens + 16,
{
}

/// Every launch of a plan addresses bytes that can be counted.
proof fn lemma_runs_count(plan: &Plan)
    requires
        plan.laid(),
        countable(plan.d, plan.tokens as int, plan.knobs),
    ensures
        plan.prep_norm.countable(plan.tokens as int),
        plan.prep_attn matches Some(p) ==> p.countable(plan.tokens as int),
        plan.prep_down matches Some(p) ==> p.countable(plan.tokens as int),
        plan.gemm_qkv matches Some(g) ==> g.countable(plan.tokens as int),
        plan.gemm_gu.countable(plan.tokens as int),
        plan.gemm_out.countable(plan.tokens as int),
        plan.gemm_down.countable(plan.tokens as int),
{
    let (d, knobs) = (plan.d, plan.knobs);
    let t = plan.tokens as int;
    let cap = capacity_of(d, t);
    let (hidden, inner, ffn, qkv) = (d.hidden as int, d.q_width(), d.ffn as int, d.qkv_width());
    let (ph, pi, pf) = (d.pitch_of(hidden), d.pitch_of(inner), d.pitch_of(ffn));
    let (bits, unit) = (d.operand().bits_of(), d.unit());
    lemma_capacity(d, t);
    lemma_product(d.heads as int, d.head_dim as int);
    lemma_product(d.kv_heads as int, d.head_dim as int);
    model::law_pitched_rows_do_not_alias(hidden as nat, d.wbits as nat);
    model::law_pitched_rows_do_not_alias(inner as nat, d.wbits as nat);
    model::law_pitched_rows_do_not_alias(ffn as nat, d.wbits as nat);
    assert(bits == 8 * unit);
    lemma_operand_counts(t, ph, unit);
    lemma_operand_counts(t, pi, unit);
    lemma_operand_counts(t, pf, unit);
    lemma_times(qkv, ph, unit);
    lemma_times(hidden, pi, unit);
    lemma_times(2 * ffn, ph, unit);
    lemma_times(hidden, pf, unit);
    lemma_wider(qkv, t, cap);
    lemma_wider(t, inner, qkv);
    lemma_wider(gu_width(d, knobs), t, cap);
    lemma_wider(t, ffn, gu_width(d, knobs));
    lemma_product(t, hidden);
    lemma_product(d.classes as int, hidden);
    assert(cap * qkv == qkv * cap && t * qkv == qkv * t && t * gu_width(d, knobs) == gu_width(
        d,
        knobs,
    ) * t && cap * gu_width(d, knobs) == gu_width(d, knobs) * cap) by (nonlinear_arith);
}

proof fn lemma_operand_counts(t: int, p: int, unit: int)
    by (nonlinear_arith)
    requires
        t >= 0,
        p >= 0,
        unit >= 1,
        t * p * (8 * unit) <= usize::MAX,
    ensures
        t * p * unit <= usize::MAX,
        t * p <= usize::MAX,
{
    assert(t * p >= 0);
    assert(t * p <= t * p * unit);
    assert(t * p * (8 * unit) == 8 * (t * p * unit));
}

impl Stack {
    /// The plan, the buffers and the blocks belong together.
    pub open spec fn wf(&self) -> bool {
        &&& self.plan.laid()
        &&& countable(self.plan.d, self.plan.tokens as int, self.plan.knobs)
        &&& self.buffers.hold(self.plan.sizes)
        &&& self.blocks@.len() == self.plan.layers
        &&& forall|i: int|
            0 <= i < self.blocks@.len() ==> (#[trigger] self.blocks@[i]).has(
                self.plan.d,
                self.blocks@[i].scale1 is Some,
            ) && self.blocks@[i].fits(self.plan.d)
    }

    /// A stack of a plan, on the buffers and the weights it asked for.
    pub fn new(plan: Plan, buffers: Buffers, blocks: Vec<Block>, tag: String) -> (stack: Self)
        requires
            plan.laid(),
            countable(plan.d, plan.tokens as int, plan.knobs),
            buffers.hold(plan.sizes),
            blocks@.len() == plan.layers,
            forall|i: int|
                0 <= i < blocks@.len() ==> (#[trigger] blocks@[i]).has(
                    plan.d,
                    blocks@[i].scale1 is Some,
                ) && blocks@[i].fits(plan.d),
        ensures
            stack.wf(),
            stack.plan == plan,
            stack.buffers == buffers,
            stack.blocks == blocks,
            stack.tag == tag,
            stack.calls == 0,
    {
        Stack { plan, buffers, blocks, tag, calls: 0 }
    }

    pub fn capacity(&self) -> (capacity: usize)
        ensures
            capacity == self.plan.capacity,
    {
        self.plan.capacity
    }

    pub fn tokens(&self) -> (tokens: usize)
        ensures
            tokens == self.plan.tokens,
    {
        self.plan.tokens
    }

    pub fn layers(&self) -> (layers: usize)
        ensures
            layers == self.plan.layers,
    {
        self.plan.layers
    }

    pub fn block(&self, i: usize) -> (block: &Block)
        requires
            i < self.blocks@.len(),
        ensures
            *block == self.blocks@[i as int],
    {
        &self.blocks[i]
    }

    /// The queries, whether they are their own allocation or a view into the fused one.
    pub open spec fn q_view(&self) -> BufferRef {
        match self.buffers.q {
            Some(q) => q.whole(),
            None => self.buffers.fused.part(0, (self.plan.capacity * self.plan.d.q_width() * 2) as usize),
        }
    }

    pub open spec fn k_view(&self) -> BufferRef {
        let (t, d) = (self.plan.capacity, self.plan.d);
        match self.buffers.k {
            Some(k) => k.whole(),
            None => self.buffers.fused.part(
                (t * d.q_width() * 2) as usize,
                (t * d.kv_width() * 2) as usize,
            ),
        }
    }

    pub open spec fn v_view(&self) -> BufferRef {
        let (t, d) = (self.plan.capacity, self.plan.d);
        match self.buffers.v {
            Some(v) => v.whole(),
            None => self.buffers.fused.part(
                (t * d.q_width() * 2 + t * d.kv_width() * 2) as usize,
                (t * d.kv_width() * 2) as usize,
            ),
        }
    }

    /// Q, K and V, whether they are their own allocations or views into the fused one, which is then
    /// `[Q/K/V][head][capacity][64]`.
    pub fn qkv_views(&self) -> (views: (BufferRef, BufferRef, BufferRef))
        requires
            self.wf(),
        ensures
            views == (self.q_view(), self.k_view(), self.v_view()),
    {
        match (&self.buffers.q, &self.buffers.k, &self.buffers.v) {
            (Some(q), Some(k), Some(v)) => (q.binding(), k.binding(), v.binding()),
            _ => {
                let t: usize = self.plan.capacity;
                let ghost d = self.plan.d;
                proof {
                    let (q, kv) = (d.q_width(), d.kv_width());
                    lemma_product(d.heads as int, d.head_dim as int);
                    lemma_product(d.kv_heads as int, d.head_dim as int);
                    assert(t * d.qkv_width() * 2 == t * q * 2 + 2 * (t * kv * 2))
                        by (nonlinear_arith)
                        requires
                            d.qkv_width() == q + 2 * kv,
                    ;
                    lemma_times(t as int, q, 2);
                    lemma_times(t as int, kv, 2);
                    lemma_capacity(d, self.plan.tokens as int);
                }
                let inner: usize = area(t, self.plan.d.inner(), 2);
                let kv: usize = area(t, self.plan.d.kv_inner(), 2);
                (
                    self.buffers.fused.slice(0, inner),
                    self.buffers.fused.slice(inner, kv),
                    self.buffers.fused.slice(inner + kv, kv),
                )
            },
        }
    }

    /// The rows of workgroups of one of the stack's GEMMs.
    pub open spec fn grid_y<
        L: Fn(usize) -> Option<usize>,
        F: Fn(usize, usize, usize) -> u32,
        M: Fn(usize, usize, usize, usize) -> u32,
        G: Fn(usize, u32, usize) -> u32,
    >(&self, tuning: Tuning<L, F, M, G>, g: Gemm) -> u32 {
        tuning.grid_y_for(self.plan.tokens, g.m_group, g.m_tile)
    }

    /// The projection to Q, K and V, and their rope.
    #[verifier::opaque]
    pub open spec fn qkv_steps<
        L: Fn(usize) -> Option<usize>,
        F: Fn(usize, usize, usize) -> u32,
        M: Fn(usize, usize, usize, usize) -> u32,
        G: Fn(usize, u32, usize) -> u32,
    >(
        &self,
        tuning: Tuning<L, F, M, G>,
        b: Block,
        inputs: Inputs,
    ) -> Seq<Step> {
        let t = self.plan.tokens as u32;
        let (a_q, a_s, fused) = (
            self.buffers.a_q.whole(),
            self.buffers.a_s.whole(),
            self.buffers.fused.whole(),
        );
        match self.plan.qkv_rope {
            Some(kernel) => seq![
                raw(
                    kernel@,
                    "gemm qkv + rope"@,
                    dispatch::plane(
                        (self.plan.d.qkv_width() / 256) as u32,
                        tuning.grid_y_for(self.plan.tokens, self.plan.qkv_group, 128),
                    ),
                    dispatch::line(model::THREADS),
                    t,
                    seq![
                        a_q,
                        b.qkv_q,
                        fused,
                        b.qkv_b->0,
                        b.qnorm,
                        b.knorm,
                        inputs.cos,
                        inputs.sin,
                    ],
                ),
            ],
            None => seq![
                self.plan.gemm_qkv->0.step(
                    self.grid_y(tuning, self.plan.gemm_qkv->0),
                    "gemm qkv"@,
                    t,
                    a_q,
                    b.qkv_q,
                    paired(b.qkv_s, a_s),
                    fused,
                    None,
                    b.qkv_b,
                ),
                raw(
                    self.plan.rope->0@,
                    "qk norm + rope"@,
                    dispatch::line(t),
                    dispatch::line(model::THREADS),
                    t,
                    seq![
                        fused,
                        b.qnorm,
                        b.knorm,
                        inputs.cos,
                        inputs.sin,
                        self.q_view(),
                        self.k_view(),
                        self.v_view(),
                    ],
                ),
            ],
        }
    }

    #[verifier::rlimit(40)]
    #[verifier::spinoff_prover]
    fn project<
        'a,
        L: Fn(usize) -> Option<usize>,
        F: Fn(usize, usize, usize) -> u32,
        M: Fn(usize, usize, usize, usize) -> u32,
        G: Fn(usize, u32, usize) -> u32,
    >(
        &'a self,
        tuning: &Tuning<L, F, M, G>,
        b: &Block,
        inputs: &Inputs,
        run: &mut Run<'a>,
    )
        requires
            self.wf(),
            tuning.measured(),
            b.has(self.plan.d, b.scale1 is Some),
            old(run).wf(),
        ensures
            final(run).wf(),
            final(run).taken() == old(run).taken() + self.qkv_steps(*tuning, *b, *inputs),
    {
        let ghost before = run.taken();
        let ghost steps = self.qkv_steps(*tuning, *b, *inputs);
        proof {
            reveal(Stack::qkv_steps);
            lemma_runs_count(&self.plan);
            lemma_product(self.plan.d.heads as int, self.plan.d.head_dim as int);
            lemma_product(self.plan.d.kv_heads as int, self.plan.d.head_dim as int);
        }
        let t: u32 = self.plan.tokens as u32;
        let a_q = self.buffers.a_q.binding();
        let a_s = self.buffers.a_s.binding();
        let fused = self.buffers.fused.binding();
        let threads = Extent { x: model::THREADS, y: 1, z: 1 };
        match (&self.plan.qkv_rope, &self.plan.gemm_qkv, &self.plan.rope) {
            (Some(kernel), _, _) => {
                let grid_y: u32 = (tuning.grid_y)(self.plan.tokens, self.plan.qkv_group, 128);
                let grid = Extent { x: (self.plan.d.qkv() / 256) as u32, y: grid_y, z: 1 };
                let bias = match b.qkv_b {
                    Some(bias) => bias,
                    None => fused,
                };
                let mut bindings: Vec<BufferRef> = Vec::new();
                bindings.push(a_q);
                bindings.push(b.qkv_q);
                bindings.push(fused);
                bindings.push(bias);
                bindings.push(b.qnorm);
                bindings.push(b.knorm);
                bindings.push(inputs.cos);
                bindings.push(inputs.sin);
                assert(bindings@ =~= steps[0].launch.bindings);
                let launch = raw_launch(kernel, "gemm qkv + rope", grid, threads, t, bindings);
                run.take(Ok(launch), Ghost(steps[0]));
                assert(run.taken() =~= before + steps);
            },
            (None, Some(gemm), Some(rope)) => {
                let launch = gemm.run(
                    tuning,
                    "gemm qkv",
                    t,
                    a_q,
                    b.qkv_q,
                    pair(b.qkv_s, a_s),
                    fused,
                    None,
                    b.qkv_b,
                );
                run.take(launch, Ghost(steps[0]));
                let (q, k, v) = self.qkv_views();
                let mut bindings: Vec<BufferRef> = Vec::new();
                bindings.push(fused);
                bindings.push(b.qnorm);
                bindings.push(b.knorm);
                bindings.push(inputs.cos);
                bindings.push(inputs.sin);
                bindings.push(q);
                bindings.push(k);
                bindings.push(v);
                assert(bindings@ =~= steps[1].launch.bindings);
                let launch = raw_launch(
                    rope,
                    "qk norm + rope",
                    Extent { x: t, y: 1, z: 1 },
                    threads,
                    t,
                    bindings,
                );
                run.take(Ok(launch), Ghost(steps[1]));
                assert(run.taken() =~= before + steps);
            },
            _ => {
                assert(false);
            },
        }
    }

    /// Attention, on half-precision Q, K and V or on the narrowed integer operands.
    #[verifier::opaque]
    pub open spec fn attend_steps(&self) -> Seq<Step> {
        let (d, t) = (self.plan.d, self.plan.tokens as u32);
        let threads = dispatch::line(model::THREADS);
        let (q, k, v, out) = (
            self.q_view(),
            self.k_view(),
            self.v_view(),
            self.buffers.attn.whole(),
        );
        let blocks = dispatch::plane(
            dispatch::steps(t as int, 16 * self.plan.waves as int) as u32,
            d.heads as u32,
        );
        match (self.plan.int_qk, self.buffers.int_qk) {
            (Some(kernels), Some(codes)) => {
                let mean = if self.plan.knobs.smooth {
                    codes.kmean.whole()
                } else {
                    codes.zmean.whole()
                };
                (if self.plan.knobs.smooth {
                    seq![
                        raw(
                            kernels.colmean@,
                            "attention operands"@,
                            dispatch::line((d.q_width() / 256) as u32),
                            threads,
                            t,
                            seq![k, codes.kmean.whole()],
                        ),
                    ]
                } else {
                    Seq::empty()
                }) + seq![
                    raw(
                        kernels.prep_q@,
                        "attention operands"@,
                        dispatch::line(t),
                        threads,
                        t,
                        seq![q, codes.zmean.whole(), codes.qi.whole(), codes.qs.whole()],
                    ),
                    raw(
                        kernels.prep_k@,
                        "attention operands"@,
                        dispatch::line(t),
                        threads,
                        t,
                        seq![k, mean, codes.ki.whole(), codes.ks.whole()],
                    ),
                    raw(
                        kernels.transpose@,
                        "attention operands"@,
                        dispatch::plane(
                            dispatch::steps(t as int, 32) as u32,
                            (d.q_width() / 32) as u32,
                        ),
                        threads,
                        t,
                        seq![v, codes.vt.whole()],
                    ),
                    raw(
                        self.plan.attention@,
                        "attention"@,
                        blocks,
                        dispatch::line((32 * self.plan.waves) as u32),
                        t,
                        seq![
                            codes.qi.whole(),
                            codes.qs.whole(),
                            codes.ki.whole(),
                            codes.ks.whole(),
                            codes.vt.whole(),
                            out,
                        ],
                    ),
                ]
            },
            _ => seq![
                raw(
                    self.plan.attention@,
                    "attention"@,
                    if d.causal {
                        dispatch::plane(dispatch::steps(t as int, 16) as u32, d.kv_heads as u32)
                    } else {
                        blocks
                    },
                    if d.causal {
                        threads
                    } else {
                        dispatch::line((32 * self.plan.waves) as u32)
                    },
                    t,
                    seq![q, k, v, out],
                ),
            ],
        }
    }

    #[verifier::rlimit(40)]
    #[verifier::spinoff_prover]
    fn attend<'a>(&'a self, run: &mut Run<'a>)
        requires
            self.wf(),
            old(run).wf(),
        ensures
            final(run).wf(),
            final(run).taken() == old(run).taken() + self.attend_steps(),
    {
        let ghost before = run.taken();
        let ghost steps = self.attend_steps();
        proof {
            reveal(Stack::attend_steps);
        }
        let d = &self.plan.d;
        let t: u32 = self.plan.tokens as u32;
        let threads = Extent { x: model::THREADS, y: 1, z: 1 };
        let (q, k, v) = self.qkv_views();
        let out = self.buffers.attn.binding();
        let waves: usize = self.plan.waves;
        let across: usize = if waves == 8 {
            dispatch::steps_of(t as usize, 128)
        } else {
            dispatch::steps_of(t as usize, 64)
        };
        let blocks = Extent { x: across as u32, y: d.heads as u32, z: 1 };
        let wide = Extent { x: (32 * waves) as u32, y: 1, z: 1 };
        match (&self.plan.int_qk, &self.buffers.int_qk) {
            (Some(kernels), Some(codes)) => {
                proof {
                    lemma_product(d.heads as int, d.head_dim as int);
                    lemma_product(d.kv_heads as int, d.head_dim as int);
                }
                let inner: usize = d.inner();
                let smooth: bool = self.plan.knobs.smooth;
                let ghost n: int = if smooth {
                    1
                } else {
                    0
                };
                if smooth {
                    let mut bindings: Vec<BufferRef> = Vec::new();
                    bindings.push(k);
                    bindings.push(codes.kmean.binding());
                    assert(bindings@ =~= steps[0].launch.bindings);
                    let launch = raw_launch(
                        &kernels.colmean,
                        "attention operands",
                        Extent { x: (inner / 256) as u32, y: 1, z: 1 },
                        threads,
                        t,
                        bindings,
                    );
                    run.take(Ok(launch), Ghost(steps[0]));
                }
                let mut bindings: Vec<BufferRef> = Vec::new();
                bindings.push(q);
                bindings.push(codes.zmean.binding());
                bindings.push(codes.qi.binding());
                bindings.push(codes.qs.binding());
                assert(bindings@ =~= steps[n].launch.bindings);
                let launch = raw_launch(
                    &kernels.prep_q,
                    "attention operands",
                    Extent { x: t, y: 1, z: 1 },
                    threads,
                    t,
                    bindings,
                );
                run.take(Ok(launch), Ghost(steps[n]));
                let mut bindings: Vec<BufferRef> = Vec::new();
                bindings.push(k);
                bindings.push(
                    if smooth {
                        codes.kmean.binding()
                    } else {
                        codes.zmean.binding()
                    },
                );
                bindings.push(codes.ki.binding());
                bindings.push(codes.ks.binding());
                assert(bindings@ =~= steps[n + 1].launch.bindings);
                let launch = raw_launch(
                    &kernels.prep_k,
                    "attention operands",
                    Extent { x: t, y: 1, z: 1 },
                    threads,
                    t,
                    bindings,
                );
                run.take(Ok(launch), Ghost(steps[n + 1]));
                let mut bindings: Vec<BufferRef> = Vec::new();
                bindings.push(v);
                bindings.push(codes.vt.binding());
                assert(bindings@ =~= steps[n + 2].launch.bindings);
                let launch = raw_launch(
                    &kernels.transpose,
                    "attention operands",
                    Extent {
                        x: dispatch::steps_of(t as usize, 32) as u32,
                        y: (inner / 32) as u32,
                        z: 1,
                    },
                    threads,
                    t,
                    bindings,
                );
                run.take(Ok(launch), Ghost(steps[n + 2]));
                let mut bindings: Vec<BufferRef> = Vec::new();
                bindings.push(codes.qi.binding());
                bindings.push(codes.qs.binding());
                bindings.push(codes.ki.binding());
                bindings.push(codes.ks.binding());
                bindings.push(codes.vt.binding());
                bindings.push(out);
                assert(bindings@ =~= steps[n + 3].launch.bindings);
                let launch = raw_launch(
                    &self.plan.attention,
                    "attention",
                    blocks,
                    wide,
                    t,
                    bindings,
                );
                run.take(Ok(launch), Ghost(steps[n + 3]));
                assert(run.taken() =~= before + steps);
            },
            _ => {
                let mut bindings: Vec<BufferRef> = Vec::new();
                bindings.push(q);
                bindings.push(k);
                bindings.push(v);
                bindings.push(out);
                assert(bindings@ =~= steps[0].launch.bindings);
                let grid = if d.causal {
                    Extent {
                        x: dispatch::steps_of(t as usize, 16) as u32,
                        y: d.kv_heads as u32,
                        z: 1,
                    }
                } else {
                    blocks
                };
                let block = if d.causal {
                    threads
                } else {
                    wide
                };
                let launch = raw_launch(
                    &self.plan.attention,
                    "attention",
                    grid,
                    block,
                    t,
                    bindings,
                );
                run.take(Ok(launch), Ghost(steps[0]));
                assert(run.taken() =~= before + steps);
            },
        }
    }
}

impl Stack {
    /// The norm and modulation in front of a projection.
    #[verifier::opaque]
    pub open spec fn norm_step(
        &self,
        inputs: Inputs,
        weight: BufferRef,
        table: BufferRef,
    ) -> Step {
        self.plan.prep_norm.step(
            "prepare norm"@,
            self.plan.tokens as u32,
            inputs.x,
            Some((weight, table, inputs.cls)),
            self.buffers.a_q.whole(),
            Some(self.buffers.a_s.whole()),
        )
    }

    /// The out projection, and what narrows its operand where the attention did not write it.
    #[verifier::opaque]
    pub open spec fn out_steps<
        L: Fn(usize) -> Option<usize>,
        F: Fn(usize, usize, usize) -> u32,
        M: Fn(usize, usize, usize, usize) -> u32,
        G: Fn(usize, u32, usize) -> u32,
    >(
        &self,
        tuning: Tuning<L, F, M, G>,
        b: Block,
        inputs: Inputs,
        lc: LayerCond,
    ) -> Seq<Step> {
        let t = self.plan.tokens as u32;
        let (a_q, a_s, attn) = (
            self.buffers.a_q.whole(),
            self.buffers.a_s.whole(),
            self.buffers.attn.whole(),
        );
        let gemm = self.plan.gemm_out.step(
            self.grid_y(tuning, self.plan.gemm_out),
            "gemm out + residual"@,
            t,
            if self.plan.direct_attn {
                attn
            } else {
                a_q
            },
            b.out_q,
            paired(b.out_s, a_s),
            inputs.x,
            Some((lc.gate_msa, inputs.cls)),
            b.out_b,
        );
        if self.plan.direct_attn {
            seq![gemm]
        } else {
            seq![
                self.plan.prep_attn->0.step(
                    "prepare out input"@,
                    t,
                    attn,
                    None,
                    a_q,
                    Some(a_s),
                ),
                gemm,
            ]
        }
    }

    /// The feed-forward, and what narrows its second operand where the first product is not it.
    #[verifier::opaque]
    pub open spec fn ffn_steps<
        L: Fn(usize) -> Option<usize>,
        F: Fn(usize, usize, usize) -> u32,
        M: Fn(usize, usize, usize, usize) -> u32,
        G: Fn(usize, u32, usize) -> u32,
    >(
        &self,
        tuning: Tuning<L, F, M, G>,
        b: Block,
        inputs: Inputs,
        lc: LayerCond,
    ) -> Seq<Step> {
        let t = self.plan.tokens as u32;
        let (a_q, a_s, gu) = (
            self.buffers.a_q.whole(),
            self.buffers.a_s.whole(),
            self.buffers.gu.whole(),
        );
        let up = self.plan.gemm_gu.step(
            self.grid_y(tuning, self.plan.gemm_gu),
            "gemm ff + swiglu"@,
            t,
            a_q,
            b.gu_q,
            paired(b.gu_s, a_s),
            gu,
            None,
            b.gu_b,
        );
        let down = self.plan.gemm_down.step(
            self.grid_y(tuning, self.plan.gemm_down),
            "gemm down + residual"@,
            t,
            if self.plan.direct_down {
                gu
            } else {
                a_q
            },
            b.down_q,
            paired(b.down_s, a_s),
            inputs.x,
            Some((lc.gate_mlp, inputs.cls)),
            b.down_b,
        );
        if self.plan.direct_down {
            seq![up, down]
        } else {
            seq![
                up,
                self.plan.prep_down->0.step(
                    "prepare down input"@,
                    t,
                    gu,
                    None,
                    a_q,
                    Some(a_s),
                ),
                down,
            ]
        }
    }

    /// What one layer does to the stream.
    pub open spec fn block_steps<
        L: Fn(usize) -> Option<usize>,
        F: Fn(usize, usize, usize) -> u32,
        M: Fn(usize, usize, usize, usize) -> u32,
        G: Fn(usize, u32, usize) -> u32,
    >(
        &self,
        tuning: Tuning<L, F, M, G>,
        b: Block,
        inputs: Inputs,
        lc: LayerCond,
    ) -> Seq<Step> {
        (seq![self.norm_step(inputs, b.norm1, lc.table_msa)] + self.qkv_steps(tuning, b, inputs))
            + (self.attend_steps() + self.out_steps(tuning, b, inputs, lc)) + (seq![
            self.norm_step(inputs, b.norm2, lc.table_mlp),
        ] + self.ffn_steps(tuning, b, inputs, lc))
    }

    /// What the layers from `first` up to `last` do, one after the other.
    pub open spec fn forward_steps<
        L: Fn(usize) -> Option<usize>,
        F: Fn(usize, usize, usize) -> u32,
        M: Fn(usize, usize, usize, usize) -> u32,
        G: Fn(usize, u32, usize) -> u32,
    >(
        &self,
        tuning: Tuning<L, F, M, G>,
        inputs: Inputs,
        cond: Seq<LayerCond>,
        first: int,
        last: int,
    ) -> Seq<Step>
        decreases last,
    {
        if last <= first || last <= 0 {
            Seq::empty()
        } else {
            self.forward_steps(tuning, inputs, cond, first, last - 1) + self.block_steps(
                tuning,
                self.blocks@[last - 1],
                inputs,
                cond[last - 1],
            )
        }
    }

    fn normalise<'a>(
        &'a self,
        inputs: &Inputs,
        weight: BufferRef,
        table: BufferRef,
        run: &mut Run<'a>,
    )
        requires
            self.wf(),
            old(run).wf(),
        ensures
            final(run).wf(),
            final(run).taken() == old(run).taken() + seq![self.norm_step(*inputs, weight, table)],
    {
        let ghost before = run.taken();
        let ghost step = self.norm_step(*inputs, weight, table);
        proof {
            reveal(Stack::norm_step);
            lemma_runs_count(&self.plan);
        }
        let launch = self.plan.prep_norm.run(
            "prepare norm",
            self.plan.tokens as u32,
            inputs.x,
            Some((weight, table, inputs.cls)),
            self.buffers.a_q.binding(),
            Some(self.buffers.a_s.binding()),
        );
        run.take(launch, Ghost(step));
        assert(run.taken() =~= before + seq![step]);
    }

    fn project_out<
        'a,
        L: Fn(usize) -> Option<usize>,
        F: Fn(usize, usize, usize) -> u32,
        M: Fn(usize, usize, usize, usize) -> u32,
        G: Fn(usize, u32, usize) -> u32,
    >(
        &'a self,
        tuning: &Tuning<L, F, M, G>,
        b: &Block,
        inputs: &Inputs,
        lc: &LayerCond,
        run: &mut Run<'a>,
    )
        requires
            self.wf(),
            tuning.measured(),
            b.has(self.plan.d, b.scale1 is Some),
            old(run).wf(),
        ensures
            final(run).wf(),
            final(run).taken() == old(run).taken() + self.out_steps(*tuning, *b, *inputs, *lc),
    {
        let ghost before = run.taken();
        let ghost steps = self.out_steps(*tuning, *b, *inputs, *lc);
        proof {
            reveal(Stack::out_steps);
            lemma_runs_count(&self.plan);
        }
        let t: u32 = self.plan.tokens as u32;
        let a_q = self.buffers.a_q.binding();
        let a_s = self.buffers.a_s.binding();
        let attn = self.buffers.attn.binding();
        let operand = match &self.plan.prep_attn {
            None => attn,
            Some(prepare) => {
                let launch = prepare.run("prepare out input", t, attn, None, a_q, Some(a_s));
                run.take(launch, Ghost(steps[0]));
                a_q
            },
        };
        let launch = self.plan.gemm_out.run(
            tuning,
            "gemm out + residual",
            t,
            operand,
            b.out_q,
            pair(b.out_s, a_s),
            inputs.x,
            Some((lc.gate_msa, inputs.cls)),
            b.out_b,
        );
        run.take(launch, Ghost(steps[steps.len() - 1]));
        assert(run.taken() =~= before + steps);
    }

    fn feed_forward<
        'a,
        L: Fn(usize) -> Option<usize>,
        F: Fn(usize, usize, usize) -> u32,
        M: Fn(usize, usize, usize, usize) -> u32,
        G: Fn(usize, u32, usize) -> u32,
    >(
        &'a self,
        tuning: &Tuning<L, F, M, G>,
        b: &Block,
        inputs: &Inputs,
        lc: &LayerCond,
        run: &mut Run<'a>,
    )
        requires
            self.wf(),
            tuning.measured(),
            b.has(self.plan.d, b.scale1 is Some),
            old(run).wf(),
        ensures
            final(run).wf(),
            final(run).taken() == old(run).taken() + self.ffn_steps(*tuning, *b, *inputs, *lc),
    {
        let ghost before = run.taken();
        let ghost steps = self.ffn_steps(*tuning, *b, *inputs, *lc);
        proof {
            reveal(Stack::ffn_steps);
            lemma_runs_count(&self.plan);
        }
        let t: u32 = self.plan.tokens as u32;
        let a_q = self.buffers.a_q.binding();
        let a_s = self.buffers.a_s.binding();
        let gu = self.buffers.gu.binding();
        let launch = self.plan.gemm_gu.run(
            tuning,
            "gemm ff + swiglu",
            t,
            a_q,
            b.gu_q,
            pair(b.gu_s, a_s),
            gu,
            None,
            b.gu_b,
        );
        run.take(launch, Ghost(steps[0]));
        let operand = match &self.plan.prep_down {
            None => gu,
            Some(prepare) => {
                let launch = prepare.run("prepare down input", t, gu, None, a_q, Some(a_s));
                run.take(launch, Ghost(steps[1]));
                a_q
            },
        };
        let launch = self.plan.gemm_down.run(
            tuning,
            "gemm down + residual",
            t,
            operand,
            b.down_q,
            pair(b.down_s, a_s),
            inputs.x,
            Some((lc.gate_mlp, inputs.cls)),
            b.down_b,
        );
        run.take(launch, Ghost(steps[steps.len() - 1]));
        assert(run.taken() =~= before + steps);
    }

    fn layer<
        'a,
        L: Fn(usize) -> Option<usize>,
        F: Fn(usize, usize, usize) -> u32,
        M: Fn(usize, usize, usize, usize) -> u32,
        G: Fn(usize, u32, usize) -> u32,
    >(
        &'a self,
        tuning: &Tuning<L, F, M, G>,
        b: &Block,
        inputs: &Inputs,
        lc: &LayerCond,
        run: &mut Run<'a>,
    )
        requires
            self.wf(),
            tuning.measured(),
            b.has(self.plan.d, b.scale1 is Some),
            old(run).wf(),
        ensures
            final(run).wf(),
            final(run).taken() == old(run).taken() + self.block_steps(*tuning, *b, *inputs, *lc),
    {
        let ghost before = run.taken();
        self.normalise(inputs, b.norm1, lc.table_msa, run);
        self.project(tuning, b, inputs, run);
        self.attend(run);
        self.project_out(tuning, b, inputs, lc, run);
        self.normalise(inputs, b.norm2, lc.table_mlp, run);
        self.feed_forward(tuning, b, inputs, lc, run);
        assert(run.taken() =~= before + self.block_steps(*tuning, *b, *inputs, *lc));
    }

    /// Runs the layers from `first` up to `last`, or to the end: the launches made, and how it ended.
    ///
    /// `cond` is a conditioning per layer. A launch that is refused ends the pass; the launches before it
    /// are made.
    pub fn forward<
        'a,
        L: Fn(usize) -> Option<usize>,
        F: Fn(usize, usize, usize) -> u32,
        M: Fn(usize, usize, usize, usize) -> u32,
        G: Fn(usize, u32, usize) -> u32,
    >(
        &'a self,
        tuning: &Tuning<L, F, M, G>,
        inputs: &Inputs,
        cond: &[LayerCond],
        first: usize,
        last: Option<usize>,
    ) -> (out: (Vec<Launch<'a>>, Result<()>))
        requires
            self.wf(),
            tuning.measured(),
            last matches Some(n) ==> n <= self.plan.layers,
            (match last {
                Some(n) => n,
                None => self.plan.layers,
            }) <= cond@.len(),
        ensures
            dispatch::ran(
                out.0@,
                out.1,
                self.forward_steps(
                    *tuning,
                    *inputs,
                    cond@,
                    first as int,
                    match last {
                        Some(n) => n as int,
                        None => self.plan.layers as int,
                    },
                ),
            ),
    {
        let mut run = Run::new();
        let last: usize = match last {
            Some(n) => n,
            None => self.plan.layers,
        };
        let mut i: usize = first;
        if last <= first {
            return run.finish();
        }
        while i < last
            invariant
                first <= i <= last <= self.plan.layers,
                last <= cond@.len(),
                self.wf(),
                tuning.measured(),
                run.wf(),
                run.taken() == self.forward_steps(*tuning, *inputs, cond@, first as int, i as int),
            decreases last - i,
        {
            self.layer(tuning, &self.blocks[i], inputs, &cond[i], &mut run);
            i += 1;
        }
        run.finish()
    }

    /// Whether this pass is the one whose stream is written out: a directory is set, it is the pass asked
    /// for, and it begins at the first layer. Passes are counted only while a directory is set.
    pub fn dumping(&mut self, directory: bool, call: usize, first: usize) -> (yes: bool)
        requires
            old(self).calls < usize::MAX,
        ensures
            yes == (directory && old(self).calls == call && first == 0),
            final(self).calls == old(self).calls + if directory {
                1int
            } else {
                0
            },
            final(self).plan == old(self).plan,
            final(self).buffers == old(self).buffers,
            final(self).blocks == old(self).blocks,
            final(self).tag == old(self).tag,
    {
        if !directory {
            return false;
        }
        let this: usize = self.calls;
        self.calls = this + 1;
        this == call && first == 0
    }

    /// The name a stream is written out under: what went in, or what came out of a layer.
    pub open spec fn dump_name_of(&self, layer: Option<int>) -> Seq<char> {
        self.tag@ + (match layer {
            None => "_h_in"@,
            Some(i) => "_blk_"@ + (if i < 10 {
                "0"@
            } else {
                ""@
            }) + text::decimal(i as nat),
        }) + ".f32"@
    }

    pub fn dump_name(&self, layer: Option<usize>) -> (name: String)
        ensures
            name@ == self.dump_name_of(
                match layer {
                    Some(i) => Some(i as int),
                    None => None,
                },
            ),
    {
        let mut name = self.tag.clone();
        let ghost tag = name@;
        match layer {
            None => {
                name.append("_h_in");
            },
            Some(i) => {
                name.append("_blk_");
                name.append(
                    if i < 10 {
                        "0"
                    } else {
                        ""
                    },
                );
                text::push_decimal(&mut name, i as u64);
                assert(name@ =~= tag + ("_blk_"@ + (if i < 10 {
                    "0"@
                } else {
                    ""@
                }) + text::decimal(i as nat)));
            },
        }
        name.append(".f32");
        name
    }

    /// How many bytes of the stream are written out.
    pub fn dump_bytes(&self) -> (bytes: usize)
        requires
            self.wf(),
        ensures
            bytes == self.plan.tokens * self.plan.d.hidden * 4,
    {
        area(self.plan.tokens, self.plan.d.hidden, 4)
    }
}

// What a pass may be handed.

impl Inputs {
    /// Whether the stream and the classes cover a stack's tokens.
    pub open spec fn cover(&self, stack: Stack) -> bool {
        let (d, t) = (stack.plan.d, stack.plan.tokens);
        &&& self.x.length >= t * d.hidden * 4
        &&& self.cls.binding().length >= t * 4
        &&& self.cls.count() >= t
        &&& self.cls.checked_against() <= d.classes
    }
}

impl LayerCond {
    /// Whether the tables hold two rows of the hidden width per class, and the gates one.
    pub open spec fn covers(&self, d: StackDims) -> bool {
        &&& self.table_msa.length >= d.classes * d.hidden * 8
        &&& self.table_mlp.length >= d.classes * d.hidden * 8
        &&& self.gate_msa.length >= d.classes * d.hidden * 4
        &&& self.gate_mlp.length >= d.classes * d.hidden * 4
    }
}

/// The lengths of a stack's own buffers, in the terms its kernels address them.
proof fn lemma_own_buffers(stack: &Stack)
    requires
        stack.wf(),
    ensures
        ({
            let (d, t) = (stack.plan.d, stack.plan.tokens as int);
            let bits = d.operand().bits_of();
            let unit = bits / 8;
            let (hidden, inner, ffn, qkv) = (
                d.hidden as int,
                d.q_width(),
                d.ffn as int,
                d.qkv_width(),
            );
            &&& unit == d.unit()
            &&& bits == 8 * unit
            &&& d.pitch_of(hidden) > 0 && d.pitch_of(inner) > 0 && d.pitch_of(ffn) > 0
            &&& stack.buffers.a_q.size() >= t * d.pitch_of(hidden) * unit
            &&& stack.buffers.a_q.size() >= t * d.pitch_of(inner) * unit
            &&& stack.buffers.a_q.size() >= t * d.pitch_of(ffn) * unit
            &&& stack.buffers.a_q.size() >= t * d.pitch_of(hidden) * bits / 8
            &&& stack.buffers.a_q.size() >= t * d.pitch_of(inner) * bits / 8
            &&& stack.buffers.a_q.size() >= t * d.pitch_of(ffn) * bits / 8
            &&& stack.buffers.a_s.size() >= t * 4
            &&& stack.buffers.fused.size() >= t * qkv * 2
            &&& stack.buffers.attn.size() >= t * attn_width(d) * 2
            &&& stack.buffers.gu.size() >= t * gu_width(d, stack.plan.knobs) * 2
            &&& d.classes * hidden * 4 <= d.classes * hidden * 8
        }),
{
    let (d, t) = (stack.plan.d, stack.plan.tokens as int);
    let cap = capacity_of(d, t);
    let (bits, unit) = (d.operand().bits_of(), d.unit());
    let (hidden, inner, ffn, qkv) = (d.hidden as int, d.q_width(), d.ffn as int, d.qkv_width());
    lemma_capacity(d, t);
    lemma_product(d.heads as int, d.head_dim as int);
    lemma_product(d.kv_heads as int, d.head_dim as int);
    lemma_product(d.classes as int, hidden);
    lemma_fits_in(t, cap, d.pitch_of(hidden), widest(d), unit);
    lemma_fits_in(t, cap, d.pitch_of(inner), widest(d), unit);
    lemma_fits_in(t, cap, d.pitch_of(ffn), widest(d), unit);
    lemma_fits_in(t, cap, qkv, qkv, 2);
    lemma_fits_in(t, cap, attn_width(d), attn_width(d), 2);
    lemma_fits_in(t, cap, gu_width(d, stack.plan.knobs), gu_width(d, stack.plan.knobs), 2);
    lemma_eighth(t * d.pitch_of(hidden), unit);
    lemma_eighth(t * d.pitch_of(inner), unit);
    lemma_eighth(t * d.pitch_of(ffn), unit);
}

proof fn lemma_eighth(x: int, unit: int)
    by (nonlinear_arith)
    requires
        x >= 0,
        unit >= 1,
    ensures
        x * (8 * unit) / 8 == x * unit,
{
    assert(x * (8 * unit) == 8 * (x * unit));
}

proof fn lemma_fits_in(t: int, cap: int, width: int, wide: int, unit: int)
    by (nonlinear_arith)
    requires
        0 <= t <= cap,
        0 <= width <= wide,
        unit >= 1,
    ensures
        0 <= t * width,
        t * width * unit <= cap * wide * unit,
{
    assert(t * width <= cap * width);
    assert(cap * width <= cap * wide);
}

/// One layer never reads or writes past a buffer: with a stream, classes and conditioning that cover the
/// stack's tokens, none of its launches is refused.
pub proof fn law_a_block_is_never_refused<
    L: Fn(usize) -> Option<usize>,
    F: Fn(usize, usize, usize) -> u32,
    M: Fn(usize, usize, usize, usize) -> u32,
    G: Fn(usize, u32, usize) -> u32,
>(
    stack: &Stack,
    tuning: Tuning<L, F, M, G>,
    layer: int,
    inputs: Inputs,
    lc: LayerCond,
)
    requires
        stack.wf(),
        0 <= layer < stack.plan.layers,
        inputs.cover(*stack),
        lc.covers(stack.plan.d),
    ensures
        forall|i: int|
            0 <= i < stack.block_steps(tuning, stack.blocks@[layer], inputs, lc).len()
                ==> (#[trigger] stack.block_steps(
                tuning,
                stack.blocks@[layer],
                inputs,
                lc,
            )[i]).trouble is None,
{
    let b = stack.blocks@[layer];
    lemma_norm_is_made(stack, inputs, b.norm1, lc.table_msa);
    lemma_norm_is_made(stack, inputs, b.norm2, lc.table_mlp);
    lemma_qkv_is_made(stack, tuning, b, inputs);
    lemma_out_is_made(stack, tuning, b, inputs, lc);
    lemma_ffn_is_made(stack, tuning, b, inputs, lc);
    lemma_attend_is_made(stack);
    let n1 = seq![stack.norm_step(inputs, b.norm1, lc.table_msa)];
    let n2 = seq![stack.norm_step(inputs, b.norm2, lc.table_mlp)];
    let (qkv, attend, out, ffn) = (
        stack.qkv_steps(tuning, b, inputs),
        stack.attend_steps(),
        stack.out_steps(tuning, b, inputs, lc),
        stack.ffn_steps(tuning, b, inputs, lc),
    );
    lemma_both_made(n1, qkv);
    lemma_both_made(attend, out);
    lemma_both_made(n2, ffn);
    lemma_both_made(n1 + qkv, attend + out);
    lemma_both_made((n1 + qkv) + (attend + out), n2 + ffn);
}

proof fn lemma_both_made(a: Seq<Step>, b: Seq<Step>)
    requires
        forall|i: int| 0 <= i < a.len() ==> (#[trigger] a[i]).trouble is None,
        forall|i: int| 0 <= i < b.len() ==> (#[trigger] b[i]).trouble is None,
    ensures
        forall|i: int| 0 <= i < (a + b).len() ==> (#[trigger] (a + b)[i]).trouble is None,
{
    assert forall|i: int| 0 <= i < (a + b).len() implies (#[trigger] (a + b)[i]).trouble is None by {
        if i < a.len() {
            assert((a + b)[i] == a[i]);
        } else {
            assert((a + b)[i] == b[i - a.len()]);
        }
    }
}

proof fn lemma_attend_is_made(stack: &Stack)
    ensures
        forall|i: int|
            0 <= i < stack.attend_steps().len() ==> (#[trigger] stack.attend_steps()[i]).trouble
                is None,
{
    reveal(Stack::attend_steps);
}

proof fn lemma_norm_is_made(stack: &Stack, inputs: Inputs, weight: BufferRef, table: BufferRef)
    requires
        stack.wf(),
        inputs.cover(*stack),
        weight.length >= stack.plan.d.hidden * 4,
        table.length >= stack.plan.d.classes * stack.plan.d.hidden * 8,
    ensures
        stack.norm_step(inputs, weight, table).trouble is None,
{
    reveal(Stack::norm_step);
    lemma_own_buffers(stack);
    dispatch::lemma_covered(
        stack.plan.prep_norm.args(
            stack.plan.tokens as int,
            inputs.x,
            Some((weight, table, inputs.cls)),
            stack.buffers.a_q.whole(),
            Some(stack.buffers.a_s.whole()),
        ),
    );
}

#[verifier::rlimit(40)]
#[verifier::spinoff_prover]
proof fn lemma_qkv_is_made<
    L: Fn(usize) -> Option<usize>,
    F: Fn(usize, usize, usize) -> u32,
    M: Fn(usize, usize, usize, usize) -> u32,
    G: Fn(usize, u32, usize) -> u32,
>(
    stack: &Stack,
    tuning: Tuning<L, F, M, G>,
    b: Block,
    inputs: Inputs,
)
    requires
        stack.wf(),
        b.has(stack.plan.d, b.scale1 is Some),
        b.fits(stack.plan.d),
    ensures
        forall|i: int|
            0 <= i < stack.qkv_steps(tuning, b, inputs).len() ==> (#[trigger] stack.qkv_steps(
                tuning,
                b,
                inputs,
            )[i]).trouble is None,
{
    reveal(Stack::qkv_steps);
    lemma_own_buffers(stack);
    let d = stack.plan.d;
    lemma_regroup(d.qkv_width(), d.pitch_of(d.hidden as int), d.unit());
    if stack.plan.qkv_rope is None {
        let g = stack.plan.gemm_qkv->0;
        let a_s = stack.buffers.a_s.whole();
        dispatch::lemma_covered(
            g.args(
                stack.plan.tokens as int,
                stack.buffers.a_q.whole(),
                b.qkv_q,
                paired(b.qkv_s, a_s),
                stack.buffers.fused.whole(),
                None,
                b.qkv_b,
            ),
        );
    }
}

proof fn lemma_regroup(a: int, b: int, c: int)
    by (nonlinear_arith)
    ensures
        a * b * c == a * (b * c),
{
}

#[verifier::rlimit(40)]
#[verifier::spinoff_prover]
proof fn lemma_out_is_made<
    L: Fn(usize) -> Option<usize>,
    F: Fn(usize, usize, usize) -> u32,
    M: Fn(usize, usize, usize, usize) -> u32,
    G: Fn(usize, u32, usize) -> u32,
>(
    stack: &Stack,
    tuning: Tuning<L, F, M, G>,
    b: Block,
    inputs: Inputs,
    lc: LayerCond,
)
    requires
        stack.wf(),
        b.has(stack.plan.d, b.scale1 is Some),
        b.fits(stack.plan.d),
        inputs.cover(*stack),
        lc.covers(stack.plan.d),
    ensures
        forall|i: int|
            0 <= i < stack.out_steps(tuning, b, inputs, lc).len() ==> (#[trigger] stack.out_steps(
                tuning,
                b,
                inputs,
                lc,
            )[i]).trouble is None,
{
    reveal(Stack::out_steps);
    lemma_own_buffers(stack);
    let d = stack.plan.d;
    let t = stack.plan.tokens as int;
    lemma_regroup(d.hidden as int, d.pitch_of(d.q_width()), d.unit());
    lemma_product(d.heads as int, d.head_dim as int);
    let (a_q, a_s, attn) = (
        stack.buffers.a_q.whole(),
        stack.buffers.a_s.whole(),
        stack.buffers.attn.whole(),
    );
    let operand = if stack.plan.direct_attn {
        attn
    } else {
        a_q
    };
    if !stack.plan.direct_attn {
        let p = stack.plan.prep_attn->0;
        dispatch::lemma_covered(p.args(t, attn, None, a_q, Some(a_s)));
    }
    dispatch::lemma_covered(
        stack.plan.gemm_out.args(
            t,
            operand,
            b.out_q,
            paired(b.out_s, a_s),
            inputs.x,
            Some((lc.gate_msa, inputs.cls)),
            b.out_b,
        ),
    );
}

#[verifier::rlimit(40)]
#[verifier::spinoff_prover]
proof fn lemma_up_is_covered(stack: &Stack, b: Block)
    requires
        stack.wf(),
        b.has(stack.plan.d, b.scale1 is Some),
        b.fits(stack.plan.d),
    ensures
        dispatch::short_at(
            stack.plan.gemm_gu.args(
                stack.plan.tokens as int,
                stack.buffers.a_q.whole(),
                b.gu_q,
                paired(b.gu_s, stack.buffers.a_s.whole()),
                stack.buffers.gu.whole(),
                None,
                b.gu_b,
            ),
        ) is None,
        stack.plan.prep_down matches Some(p) ==> dispatch::short_at(
            p.args(
                stack.plan.tokens as int,
                stack.buffers.gu.whole(),
                None,
                stack.buffers.a_q.whole(),
                Some(stack.buffers.a_s.whole()),
            ),
        ) is None,
{
    lemma_own_buffers(stack);
    let d = stack.plan.d;
    let t = stack.plan.tokens as int;
    lemma_regroup(2 * d.ffn, d.pitch_of(d.hidden as int), d.unit());
    lemma_wider(t, d.ffn as int, gu_width(d, stack.plan.knobs));
    let (a_q, a_s, gu) = (
        stack.buffers.a_q.whole(),
        stack.buffers.a_s.whole(),
        stack.buffers.gu.whole(),
    );
    dispatch::lemma_covered(
        stack.plan.gemm_gu.args(t, a_q, b.gu_q, paired(b.gu_s, a_s), gu, None, b.gu_b),
    );
    if let Some(p) = stack.plan.prep_down {
        dispatch::lemma_covered(p.args(t, gu, None, a_q, Some(a_s)));
    }
}

#[verifier::rlimit(40)]
#[verifier::spinoff_prover]
proof fn lemma_down_is_covered(stack: &Stack, b: Block, inputs: Inputs, lc: LayerCond)
    requires
        stack.wf(),
        b.has(stack.plan.d, b.scale1 is Some),
        b.fits(stack.plan.d),
        inputs.cover(*stack),
        lc.covers(stack.plan.d),
    ensures
        dispatch::short_at(
            stack.plan.gemm_down.args(
                stack.plan.tokens as int,
                if stack.plan.direct_down {
                    stack.buffers.gu.whole()
                } else {
                    stack.buffers.a_q.whole()
                },
                b.down_q,
                paired(b.down_s, stack.buffers.a_s.whole()),
                inputs.x,
                Some((lc.gate_mlp, inputs.cls)),
                b.down_b,
            ),
        ) is None,
{
    lemma_own_buffers(stack);
    let d = stack.plan.d;
    lemma_regroup(d.hidden as int, d.pitch_of(d.ffn as int), d.unit());
    dispatch::lemma_covered(
        stack.plan.gemm_down.args(
            stack.plan.tokens as int,
            if stack.plan.direct_down {
                stack.buffers.gu.whole()
            } else {
                stack.buffers.a_q.whole()
            },
            b.down_q,
            paired(b.down_s, stack.buffers.a_s.whole()),
            inputs.x,
            Some((lc.gate_mlp, inputs.cls)),
            b.down_b,
        ),
    );
}

#[verifier::rlimit(40)]
#[verifier::spinoff_prover]
proof fn lemma_ffn_is_made<
    L: Fn(usize) -> Option<usize>,
    F: Fn(usize, usize, usize) -> u32,
    M: Fn(usize, usize, usize, usize) -> u32,
    G: Fn(usize, u32, usize) -> u32,
>(
    stack: &Stack,
    tuning: Tuning<L, F, M, G>,
    b: Block,
    inputs: Inputs,
    lc: LayerCond,
)
    requires
        stack.wf(),
        b.has(stack.plan.d, b.scale1 is Some),
        b.fits(stack.plan.d),
        inputs.cover(*stack),
        lc.covers(stack.plan.d),
    ensures
        forall|i: int|
            0 <= i < stack.ffn_steps(tuning, b, inputs, lc).len() ==> (#[trigger] stack.ffn_steps(
                tuning,
                b,
                inputs,
                lc,
            )[i]).trouble is None,
{
    reveal(Stack::ffn_steps);
    lemma_up_is_covered(stack, b);
    lemma_down_is_covered(stack, b, inputs, lc);
}

/// A pass over any layers is never refused, and makes every launch of every one of them: with a stream,
/// classes and conditioning that cover the stack's tokens, the buffers a plan asked for are enough.
pub proof fn law_a_pass_is_never_refused<
    L: Fn(usize) -> Option<usize>,
    F: Fn(usize, usize, usize) -> u32,
    M: Fn(usize, usize, usize, usize) -> u32,
    G: Fn(usize, u32, usize) -> u32,
>(
    stack: &Stack,
    tuning: Tuning<L, F, M, G>,
    inputs: Inputs,
    cond: Seq<LayerCond>,
    first: int,
    last: int,
)
    requires
        stack.wf(),
        0 <= first,
        last <= stack.plan.layers,
        last <= cond.len(),
        inputs.cover(*stack),
        forall|i: int| first <= i < last ==> (#[trigger] cond[i]).covers(stack.plan.d),
    ensures
        ({
            let steps = stack.forward_steps(tuning, inputs, cond, first, last);
            &&& forall|i: int| 0 <= i < steps.len() ==> (#[trigger] steps[i]).trouble is None
            &&& dispatch::failed(steps) is None
            &&& dispatch::made(steps) == Seq::new(steps.len(), |i: int| steps[i].launch)
        }),
    decreases last,
{
    let steps = stack.forward_steps(tuning, inputs, cond, first, last);
    if first < last {
        law_a_pass_is_never_refused(stack, tuning, inputs, cond, first, last - 1);
        law_a_block_is_never_refused(stack, tuning, last - 1, inputs, cond[last - 1]);
        let before = stack.forward_steps(tuning, inputs, cond, first, last - 1);
        let block = stack.block_steps(tuning, stack.blocks@[last - 1], inputs, cond[last - 1]);
        assert forall|i: int| 0 <= i < steps.len() implies (#[trigger] steps[i]).trouble is None by {
            if i < before.len() {
                assert(steps[i] == before[i]);
            } else {
                assert(steps[i] == block[i - before.len()]);
            }
        }
    }
    dispatch::lemma_all_made(steps);
}

/// Whether a plan asks for a kernel.
#[verifier::opaque]
pub open spec fn asks_for(plan: Plan, kernel: SpecializationView) -> bool {
    exists|i: int| 0 <= i < plan.asked().len() && (#[trigger] plan.asked()[i])@ == kernel
}

/// Whether every launch of some steps runs a kernel that a plan asks for.
pub open spec fn run_asked(plan: Plan, steps: Seq<Step>) -> bool {
    forall|i: int| 0 <= i < steps.len() ==> asks_for(plan, (#[trigger] steps[i]).launch.kernel)
}

#[verifier::rlimit(40)]
#[verifier::spinoff_prover]
proof fn lemma_asked(plan: Plan)
    ensures
        asks_for(plan, plan.prep_norm.kernel@),
        plan.prep_attn matches Some(p) ==> asks_for(plan, p.kernel@),
        plan.prep_down matches Some(p) ==> asks_for(plan, p.kernel@),
        plan.qkv_rope matches Some(k) ==> asks_for(plan, k@),
        plan.gemm_qkv matches Some(g) ==> asks_for(plan, g.kernel@),
        asks_for(plan, plan.gemm_gu.kernel@),
        asks_for(plan, plan.gemm_out.kernel@),
        asks_for(plan, plan.gemm_down.kernel@),
        plan.rope matches Some(k) ==> asks_for(plan, k@),
        plan.int_qk matches Some(k) ==> asks_for(plan, k.colmean@) && asks_for(plan, k.prep_q@)
            && asks_for(plan, k.prep_k@) && asks_for(plan, k.transpose@),
        asks_for(plan, plan.attention@),
{
    reveal(asks_for);
    let all = plan.asked();
    let a: int = 1int + of_prepare(plan.prep_attn).len();
    let b: int = a + of_prepare(plan.prep_down).len();
    let c: int = b + maybe(plan.qkv_rope).len();
    let d: int = c + of_gemm(plan.gemm_qkv).len();
    let e: int = d + 3 + maybe(plan.rope).len();
    let f: int = e + of_integers(plan.int_qk).len();
    assert(all[0] == plan.prep_norm.kernel);
    if let Some(p) = plan.prep_attn {
        assert(all[1] == p.kernel);
    }
    if let Some(p) = plan.prep_down {
        assert(all[a] == p.kernel);
    }
    if let Some(k) = plan.qkv_rope {
        assert(all[b] == k);
    }
    if let Some(g) = plan.gemm_qkv {
        assert(all[c] == g.kernel);
    }
    assert(all[d] == plan.gemm_gu.kernel);
    assert(all[d + 1] == plan.gemm_out.kernel);
    assert(all[d + 2] == plan.gemm_down.kernel);
    if let Some(k) = plan.rope {
        assert(all[d + 3] == k);
    }
    if let Some(k) = plan.int_qk {
        assert(all[e] == k.colmean);
        assert(all[e + 1] == k.prep_q);
        assert(all[e + 2] == k.prep_k);
        assert(all[e + 3] == k.transpose);
    }
    assert(all[f] == plan.attention);
}

proof fn lemma_run_asked_joins(plan: Plan, a: Seq<Step>, b: Seq<Step>)
    requires
        run_asked(plan, a),
        run_asked(plan, b),
    ensures
        run_asked(plan, a + b),
{
    assert forall|i: int| 0 <= i < (a + b).len() implies asks_for(
        plan,
        (#[trigger] (a + b)[i]).launch.kernel,
    ) by {
        if i < a.len() {
            assert((a + b)[i] == a[i]);
        } else {
            assert((a + b)[i] == b[i - a.len()]);
        }
    }
}

proof fn lemma_qkv_runs_what_was_asked<
    L: Fn(usize) -> Option<usize>,
    F: Fn(usize, usize, usize) -> u32,
    M: Fn(usize, usize, usize, usize) -> u32,
    G: Fn(usize, u32, usize) -> u32,
>(stack: &Stack, tuning: Tuning<L, F, M, G>, b: Block, inputs: Inputs)
    requires
        stack.plan.qkv_rope is None ==> stack.plan.gemm_qkv is Some && stack.plan.rope is Some,
    ensures
        run_asked(stack.plan, stack.qkv_steps(tuning, b, inputs)),
{
    reveal(Stack::qkv_steps);
    lemma_asked(stack.plan);
}

proof fn lemma_attention_runs_what_was_asked(stack: &Stack)
    ensures
        run_asked(stack.plan, stack.attend_steps()),
{
    reveal(Stack::attend_steps);
    lemma_asked(stack.plan);
    let steps = stack.attend_steps();
    assert forall|i: int| 0 <= i < steps.len() implies asks_for(
        stack.plan,
        (#[trigger] steps[i]).launch.kernel,
    ) by {}
}

proof fn lemma_out_runs_what_was_asked<
    L: Fn(usize) -> Option<usize>,
    F: Fn(usize, usize, usize) -> u32,
    M: Fn(usize, usize, usize, usize) -> u32,
    G: Fn(usize, u32, usize) -> u32,
>(stack: &Stack, tuning: Tuning<L, F, M, G>, b: Block, inputs: Inputs, lc: LayerCond)
    requires
        !stack.plan.direct_attn ==> stack.plan.prep_attn is Some,
    ensures
        run_asked(stack.plan, stack.out_steps(tuning, b, inputs, lc)),
{
    reveal(Stack::out_steps);
    lemma_asked(stack.plan);
}

proof fn lemma_ffn_runs_what_was_asked<
    L: Fn(usize) -> Option<usize>,
    F: Fn(usize, usize, usize) -> u32,
    M: Fn(usize, usize, usize, usize) -> u32,
    G: Fn(usize, u32, usize) -> u32,
>(stack: &Stack, tuning: Tuning<L, F, M, G>, b: Block, inputs: Inputs, lc: LayerCond)
    requires
        !stack.plan.direct_down ==> stack.plan.prep_down is Some,
    ensures
        run_asked(stack.plan, stack.ffn_steps(tuning, b, inputs, lc)),
{
    reveal(Stack::ffn_steps);
    lemma_asked(stack.plan);
}

proof fn lemma_norm_runs_what_was_asked(stack: &Stack, inputs: Inputs, weight: BufferRef, table: BufferRef)
    ensures
        run_asked(stack.plan, seq![stack.norm_step(inputs, weight, table)]),
{
    reveal(Stack::norm_step);
    lemma_asked(stack.plan);
    assert(stack.norm_step(inputs, weight, table).launch.kernel == stack.plan.prep_norm.kernel@);
}

proof fn lemma_a_block_runs_what_was_asked<
    L: Fn(usize) -> Option<usize>,
    F: Fn(usize, usize, usize) -> u32,
    M: Fn(usize, usize, usize, usize) -> u32,
    G: Fn(usize, u32, usize) -> u32,
>(stack: &Stack, tuning: Tuning<L, F, M, G>, b: Block, inputs: Inputs, lc: LayerCond)
    requires
        stack.wf(),
    ensures
        run_asked(stack.plan, stack.block_steps(tuning, b, inputs, lc)),
{
    let plan = stack.plan;
    let qkv = stack.qkv_steps(tuning, b, inputs);
    let attend = stack.attend_steps();
    let out = stack.out_steps(tuning, b, inputs, lc);
    let ffn = stack.ffn_steps(tuning, b, inputs, lc);
    let norm1 = seq![stack.norm_step(inputs, b.norm1, lc.table_msa)];
    let norm2 = seq![stack.norm_step(inputs, b.norm2, lc.table_mlp)];
    lemma_norm_runs_what_was_asked(stack, inputs, b.norm1, lc.table_msa);
    lemma_norm_runs_what_was_asked(stack, inputs, b.norm2, lc.table_mlp);
    lemma_qkv_runs_what_was_asked(stack, tuning, b, inputs);
    lemma_attention_runs_what_was_asked(stack);
    lemma_out_runs_what_was_asked(stack, tuning, b, inputs, lc);
    lemma_ffn_runs_what_was_asked(stack, tuning, b, inputs, lc);
    lemma_run_asked_joins(plan, norm1, qkv);
    lemma_run_asked_joins(plan, attend, out);
    lemma_run_asked_joins(plan, norm2, ffn);
    lemma_run_asked_joins(plan, norm1 + qkv, attend + out);
    lemma_run_asked_joins(plan, (norm1 + qkv) + (attend + out), norm2 + ffn);
}

/// Every kernel that a pass launches was asked for with the plan: none is left to be built at its launch.
pub proof fn law_a_pass_launches_only_what_was_asked_for<
    L: Fn(usize) -> Option<usize>,
    F: Fn(usize, usize, usize) -> u32,
    M: Fn(usize, usize, usize, usize) -> u32,
    G: Fn(usize, u32, usize) -> u32,
>(
    stack: &Stack,
    tuning: Tuning<L, F, M, G>,
    inputs: Inputs,
    cond: Seq<LayerCond>,
    first: int,
    last: int,
)
    requires
        stack.wf(),
    ensures
        run_asked(stack.plan, stack.forward_steps(tuning, inputs, cond, first, last)),
    decreases last,
{
    if first < last && last > 0 {
        law_a_pass_launches_only_what_was_asked_for(stack, tuning, inputs, cond, first, last - 1);
        lemma_a_block_runs_what_was_asked(stack, tuning, stack.blocks@[last - 1], inputs, cond[last - 1]);
        lemma_run_asked_joins(
            stack.plan,
            stack.forward_steps(tuning, inputs, cond, first, last - 1),
            stack.block_steps(tuning, stack.blocks@[last - 1], inputs, cond[last - 1]),
        );
    }
}

impl Stack {
    /// How many launches the projection to Q, K and V takes: one where it is fused with the rope.
    pub open spec fn projection_len(&self) -> int {
        if self.plan.qkv_rope is Some {
            1
        } else {
            2
        }
    }

    /// How many launches the attention takes: one on half-precision operands; else one for each of the narrowed
    /// operands, one for the mean where it is smoothed, and itself.
    pub open spec fn attention_len(&self) -> int {
        if self.plan.int_qk is None {
            1
        } else if self.plan.knobs.smooth {
            5
        } else {
            4
        }
    }

    /// How many launches the out projection takes: one where the attention writes its operand.
    pub open spec fn out_len(&self) -> int {
        if self.plan.direct_attn {
            1
        } else {
            2
        }
    }

    /// Where a layer's second norm stands among its launches.
    pub open spec fn second_norm(&self) -> int {
        1 + self.projection_len() + self.attention_len() + self.out_len()
    }
}

/// What quantised operands bring along: the weights' scales and the rows'.
pub open spec fn with_scales(d: StackDims, s: Option<BufferRef>, a_s: BufferRef) -> Seq<BufferRef> {
    if d.wbits == 8 {
        seq![s->0, a_s]
    } else {
        Seq::empty()
    }
}

/// What a biased projection brings along.
pub open spec fn with_bias(d: StackDims, bias: Option<BufferRef>) -> Seq<BufferRef> {
    if d.bias {
        seq![bias->0]
    } else {
        Seq::empty()
    }
}

/// A layer's attention half reads and writes what it should. It norms the stream with the first norm's weights and the
/// attention's table, and projects what that gives with the weights of Q, K and V; the heads are normed and turned each
/// with their own; and what the attention gives is projected with the out weights and added to the stream through the
/// attention's gate. The feed-forward's half is nowhere in it.
pub proof fn law_a_layer_attends_with_its_own_operands<
    L: Fn(usize) -> Option<usize>,
    F: Fn(usize, usize, usize) -> u32,
    M: Fn(usize, usize, usize, usize) -> u32,
    G: Fn(usize, u32, usize) -> u32,
>(stack: &Stack, tuning: Tuning<L, F, M, G>, b: Block, inputs: Inputs, lc: LayerCond)
    requires
        stack.wf(),
        b.has(stack.plan.d, b.scale1 is Some),
    ensures
        ({
            let steps = stack.block_steps(tuning, b, inputs, lc);
            let d = stack.plan.d;
            let (a_q, a_s) = (stack.buffers.a_q.whole(), stack.buffers.a_s.whole());
            let (fused, attn) = (stack.buffers.fused.whole(), stack.buffers.attn.whole());
            let rows = if d.wbits == 8 {
                seq![a_q, a_s]
            } else {
                seq![a_q]
            };
            let out = steps[stack.second_norm() - 1].launch;
            let qkv = steps[1].launch;
            &&& steps.len() == stack.second_norm() + if stack.plan.direct_down {
                3int
            } else {
                4
            }
            &&& forall|i: int|
                0 <= i < steps.len() ==> (#[trigger] steps[i]).launch.scalars == seq![stack.plan.tokens as u32]
            &&& steps[0].launch.kernel == stack.plan.prep_norm.kernel@
            &&& steps[0].launch.bindings == seq![inputs.x, b.norm1, lc.table_msa, inputs.cls.binding()] + rows
            &&& match stack.plan.qkv_rope {
                Some(kernel) => qkv.kernel == kernel@ && qkv.bindings == seq![
                    a_q,
                    b.qkv_q,
                    fused,
                    b.qkv_b->0,
                    b.qnorm,
                    b.knorm,
                    inputs.cos,
                    inputs.sin,
                ],
                None => {
                    &&& qkv.kernel == stack.plan.gemm_qkv->0.kernel@
                    &&& qkv.bindings == seq![a_q, b.qkv_q] + with_scales(d, b.qkv_s, a_s) + seq![fused] + with_bias(
                        d,
                        b.qkv_b,
                    )
                    &&& steps[2].launch.kernel == stack.plan.rope->0@
                    &&& steps[2].launch.bindings == seq![
                        fused,
                        b.qnorm,
                        b.knorm,
                        inputs.cos,
                        inputs.sin,
                        stack.q_view(),
                        stack.k_view(),
                        stack.v_view(),
                    ]
                },
            }
            &&& !stack.plan.direct_attn ==> steps[stack.second_norm() - 2].launch.kernel
                == stack.plan.prep_attn->0.kernel@ && steps[stack.second_norm() - 2].launch.bindings == seq![attn]
                + rows
            &&& out.kernel == stack.plan.gemm_out.kernel@
            &&& out.bindings == seq![
                if stack.plan.direct_attn {
                    attn
                } else {
                    a_q
                },
                b.out_q,
            ] + with_scales(d, b.out_s, a_s) + seq![inputs.x, lc.gate_msa, inputs.cls.binding()] + with_bias(
                d,
                b.out_b,
            )
        }),
{
    let steps = stack.block_steps(tuning, b, inputs, lc);
    lemma_layer_parts(stack, tuning, b, inputs, lc);
    lemma_norm_binds(stack, inputs, b.norm1, lc.table_msa);
    lemma_qkv_binds(stack, tuning, b, inputs);
    lemma_out_binds(stack, tuning, b, inputs, lc);
    let at = 1 + stack.projection_len() + stack.attention_len();
    let qkv = stack.qkv_steps(tuning, b, inputs);
    let outs = stack.out_steps(tuning, b, inputs, lc);
    assert(steps[0] == stack.norm_step(inputs, b.norm1, lc.table_msa));
    assert(steps[1] == qkv[0]);
    if stack.plan.qkv_rope is None {
        assert(steps[2] == qkv[1]);
    }
    assert(steps[at] == outs[0]);
    assert(steps[at + stack.out_len() - 1] == outs[stack.out_len() - 1]);
}

proof fn lemma_norm_binds(stack: &Stack, inputs: Inputs, weight: BufferRef, table: BufferRef)
    requires
        stack.wf(),
    ensures
        ({
            let launch = stack.norm_step(inputs, weight, table).launch;
            let (a_q, a_s) = (stack.buffers.a_q.whole(), stack.buffers.a_s.whole());
            &&& launch.kernel == stack.plan.prep_norm.kernel@
            &&& launch.bindings == seq![inputs.x, weight, table, inputs.cls.binding()] + if stack.plan.d.wbits == 8 {
                seq![a_q, a_s]
            } else {
                seq![a_q]
            }
        }),
{
    reveal(Stack::norm_step);
    let (a_q, a_s) = (stack.buffers.a_q.whole(), stack.buffers.a_s.whole());
    assert(stack.norm_step(inputs, weight, table).launch.bindings =~= seq![
        inputs.x,
        weight,
        table,
        inputs.cls.binding(),
    ] + if stack.plan.d.wbits == 8 {
        seq![a_q, a_s]
    } else {
        seq![a_q]
    });
}

proof fn lemma_qkv_binds<
    L: Fn(usize) -> Option<usize>,
    F: Fn(usize, usize, usize) -> u32,
    M: Fn(usize, usize, usize, usize) -> u32,
    G: Fn(usize, u32, usize) -> u32,
>(stack: &Stack, tuning: Tuning<L, F, M, G>, b: Block, inputs: Inputs)
    requires
        stack.wf(),
        b.has(stack.plan.d, b.scale1 is Some),
    ensures
        ({
            let steps = stack.qkv_steps(tuning, b, inputs);
            let d = stack.plan.d;
            let (a_q, a_s, fused) = (
                stack.buffers.a_q.whole(),
                stack.buffers.a_s.whole(),
                stack.buffers.fused.whole(),
            );
            match stack.plan.qkv_rope {
                Some(kernel) => steps[0].launch.kernel == kernel@ && steps[0].launch.bindings == seq![
                    a_q,
                    b.qkv_q,
                    fused,
                    b.qkv_b->0,
                    b.qnorm,
                    b.knorm,
                    inputs.cos,
                    inputs.sin,
                ],
                None => {
                    &&& steps[0].launch.kernel == stack.plan.gemm_qkv->0.kernel@
                    &&& steps[0].launch.bindings == seq![a_q, b.qkv_q] + with_scales(d, b.qkv_s, a_s) + seq![fused]
                        + with_bias(d, b.qkv_b)
                    &&& steps[1].launch.kernel == stack.plan.rope->0@
                    &&& steps[1].launch.bindings == seq![
                        fused,
                        b.qnorm,
                        b.knorm,
                        inputs.cos,
                        inputs.sin,
                        stack.q_view(),
                        stack.k_view(),
                        stack.v_view(),
                    ]
                },
            }
        }),
{
    reveal(Stack::qkv_steps);
    let d = stack.plan.d;
    let (a_q, a_s, fused) = (
        stack.buffers.a_q.whole(),
        stack.buffers.a_s.whole(),
        stack.buffers.fused.whole(),
    );
    if stack.plan.qkv_rope is None {
        lemma_gemm_binds(
            stack.plan.gemm_qkv->0,
            d,
            stack.grid_y(tuning, stack.plan.gemm_qkv->0),
            "gemm qkv"@,
            stack.plan.tokens as u32,
            a_q,
            b.qkv_q,
            b.qkv_s,
            a_s,
            fused,
            None,
            b.qkv_b,
        );
        assert(stack.qkv_steps(tuning, b, inputs)[0].launch.bindings =~= seq![a_q, b.qkv_q] + with_scales(
            d,
            b.qkv_s,
            a_s,
        ) + seq![fused] + with_bias(d, b.qkv_b));
    }
}

proof fn lemma_out_binds<
    L: Fn(usize) -> Option<usize>,
    F: Fn(usize, usize, usize) -> u32,
    M: Fn(usize, usize, usize, usize) -> u32,
    G: Fn(usize, u32, usize) -> u32,
>(stack: &Stack, tuning: Tuning<L, F, M, G>, b: Block, inputs: Inputs, lc: LayerCond)
    requires
        stack.wf(),
        b.has(stack.plan.d, b.scale1 is Some),
    ensures
        ({
            let steps = stack.out_steps(tuning, b, inputs, lc);
            let d = stack.plan.d;
            let (a_q, a_s, attn) = (
                stack.buffers.a_q.whole(),
                stack.buffers.a_s.whole(),
                stack.buffers.attn.whole(),
            );
            let last = steps[stack.out_len() - 1].launch;
            &&& !stack.plan.direct_attn ==> steps[0].launch.kernel == stack.plan.prep_attn->0.kernel@
                && steps[0].launch.bindings == seq![attn] + if d.wbits == 8 {
                seq![a_q, a_s]
            } else {
                seq![a_q]
            }
            &&& last.kernel == stack.plan.gemm_out.kernel@
            &&& last.bindings == seq![
                if stack.plan.direct_attn {
                    attn
                } else {
                    a_q
                },
                b.out_q,
            ] + with_scales(d, b.out_s, a_s) + seq![inputs.x, lc.gate_msa, inputs.cls.binding()] + with_bias(
                d,
                b.out_b,
            )
        }),
{
    reveal(Stack::out_steps);
    let d = stack.plan.d;
    let (a_q, a_s, attn) = (
        stack.buffers.a_q.whole(),
        stack.buffers.a_s.whole(),
        stack.buffers.attn.whole(),
    );
    let steps = stack.out_steps(tuning, b, inputs, lc);
    if !stack.plan.direct_attn {
        assert(steps[0].launch.bindings =~= seq![attn] + if d.wbits == 8 {
            seq![a_q, a_s]
        } else {
            seq![a_q]
        });
    }
    lemma_gemm_binds(
        stack.plan.gemm_out,
        d,
        stack.grid_y(tuning, stack.plan.gemm_out),
        "gemm out + residual"@,
        stack.plan.tokens as u32,
        if stack.plan.direct_attn {
            attn
        } else {
            a_q
        },
        b.out_q,
        b.out_s,
        a_s,
        inputs.x,
        Some((lc.gate_msa, inputs.cls)),
        b.out_b,
    );
    assert(steps[stack.out_len() - 1].launch.bindings =~= seq![
        if stack.plan.direct_attn {
            attn
        } else {
            a_q
        },
        b.out_q,
    ] + with_scales(d, b.out_s, a_s) + seq![inputs.x, lc.gate_msa, inputs.cls.binding()] + with_bias(d, b.out_b));
}

/// A layer's feed-forward half reads and writes what it should. It norms the stream again, with the second norm's weights
/// and the feed-forward's table, widens what that gives with the weights of gate and up, narrows the product, and adds
/// what the down weights make of it to the stream through the feed-forward's gate. The attention's half is nowhere in it.
pub proof fn law_a_layer_feeds_forward_with_its_own_operands<
    L: Fn(usize) -> Option<usize>,
    F: Fn(usize, usize, usize) -> u32,
    M: Fn(usize, usize, usize, usize) -> u32,
    G: Fn(usize, u32, usize) -> u32,
>(stack: &Stack, tuning: Tuning<L, F, M, G>, b: Block, inputs: Inputs, lc: LayerCond)
    requires
        stack.wf(),
        b.has(stack.plan.d, b.scale1 is Some),
    ensures
        ({
            let steps = stack.block_steps(tuning, b, inputs, lc);
            let d = stack.plan.d;
            let (a_q, a_s) = (stack.buffers.a_q.whole(), stack.buffers.a_s.whole());
            let gu = stack.buffers.gu.whole();
            let rows = if d.wbits == 8 {
                seq![a_q, a_s]
            } else {
                seq![a_q]
            };
            let at = stack.second_norm();
            let down = steps.last().launch;
            &&& steps[at].launch.kernel == stack.plan.prep_norm.kernel@
            &&& steps[at].launch.bindings == seq![inputs.x, b.norm2, lc.table_mlp, inputs.cls.binding()] + rows
            &&& steps[at + 1].launch.kernel == stack.plan.gemm_gu.kernel@
            &&& steps[at + 1].launch.bindings == seq![a_q, b.gu_q] + with_scales(d, b.gu_s, a_s) + seq![gu] + with_bias(
                d,
                b.gu_b,
            )
            &&& !stack.plan.direct_down ==> steps[at + 2].launch.kernel == stack.plan.prep_down->0.kernel@ && steps[at
                + 2].launch.bindings == seq![gu] + rows
            &&& down.kernel == stack.plan.gemm_down.kernel@
            &&& down.bindings == seq![
                if stack.plan.direct_down {
                    gu
                } else {
                    a_q
                },
                b.down_q,
            ] + with_scales(d, b.down_s, a_s) + seq![inputs.x, lc.gate_mlp, inputs.cls.binding()] + with_bias(
                d,
                b.down_b,
            )
        }),
{
    let steps = stack.block_steps(tuning, b, inputs, lc);
    let d = stack.plan.d;
    let (a_q, a_s) = (stack.buffers.a_q.whole(), stack.buffers.a_s.whole());
    let gu = stack.buffers.gu.whole();
    lemma_layer_parts(stack, tuning, b, inputs, lc);
    reveal(Stack::norm_step);
    reveal(Stack::ffn_steps);
    let rows = if d.wbits == 8 {
        seq![a_q, a_s]
    } else {
        seq![a_q]
    };
    let at = stack.second_norm();
    let ffn = stack.ffn_steps(tuning, b, inputs, lc);
    assert(steps[at] == stack.norm_step(inputs, b.norm2, lc.table_mlp));
    assert(steps[at].launch.bindings =~= seq![inputs.x, b.norm2, lc.table_mlp, inputs.cls.binding()] + rows);
    assert(steps[at + 1] == ffn[0]);
    assert(steps.last() == ffn.last());
    lemma_gemm_binds(
        stack.plan.gemm_gu,
        d,
        stack.grid_y(tuning, stack.plan.gemm_gu),
        "gemm ff + swiglu"@,
        stack.plan.tokens as u32,
        a_q,
        b.gu_q,
        b.gu_s,
        a_s,
        gu,
        None,
        b.gu_b,
    );
    lemma_gemm_binds(
        stack.plan.gemm_down,
        d,
        stack.grid_y(tuning, stack.plan.gemm_down),
        "gemm down + residual"@,
        stack.plan.tokens as u32,
        if stack.plan.direct_down {
            gu
        } else {
            a_q
        },
        b.down_q,
        b.down_s,
        a_s,
        inputs.x,
        Some((lc.gate_mlp, inputs.cls)),
        b.down_b,
    );
    assert(ffn[0].launch.bindings =~= seq![a_q, b.gu_q] + with_scales(d, b.gu_s, a_s) + seq![gu] + with_bias(d, b.gu_b));
    if !stack.plan.direct_down {
        assert(steps[at + 2] == ffn[1]);
        assert(ffn[1].launch.bindings =~= seq![gu] + rows);
    }
    assert(ffn.last().launch.bindings =~= seq![
        if stack.plan.direct_down {
            gu
        } else {
            a_q
        },
        b.down_q,
    ] + with_scales(d, b.down_s, a_s) + seq![inputs.x, lc.gate_mlp, inputs.cls.binding()] + with_bias(d, b.down_b));
}

/// What a GEMM's launch binds: the rows and the weights, what they are scaled with, where it writes, its gate and the
/// class of each row where it adds, and the bias.
proof fn lemma_gemm_binds(
    g: Gemm,
    d: StackDims,
    grid_y: u32,
    stage: Seq<char>,
    t: u32,
    a: BufferRef,
    w: BufferRef,
    s: Option<BufferRef>,
    a_s: BufferRef,
    out: BufferRef,
    residual: Option<(BufferRef, ClassRows)>,
    bias: Option<BufferRef>,
)
    requires
        g.elem == d.operand(),
        g.bias == d.bias,
        s is Some == d.operand().is_quantised(),
        g.resid == residual is Some,
    ensures
        ({
            let launch = g.step(grid_y, stage, t, a, w, paired(s, a_s), out, residual, bias).launch;
            &&& launch.kernel == g.kernel@
            &&& launch.scalars == seq![t]
            &&& launch.bindings == seq![a, w] + with_scales(d, s, a_s) + seq![out] + (match residual {
                Some((gate, cls)) => seq![gate, cls.binding()],
                None => Seq::empty(),
            }) + with_bias(d, bias)
        }),
{
    let launch = g.step(grid_y, stage, t, a, w, paired(s, a_s), out, residual, bias).launch;
    assert(launch.bindings =~= seq![a, w] + with_scales(d, s, a_s) + seq![out] + (match residual {
        Some((gate, cls)) => seq![gate, cls.binding()],
        None => Seq::empty(),
    }) + with_bias(d, bias));
}

proof fn lemma_part_lens<
    L: Fn(usize) -> Option<usize>,
    F: Fn(usize, usize, usize) -> u32,
    M: Fn(usize, usize, usize, usize) -> u32,
    G: Fn(usize, u32, usize) -> u32,
>(stack: &Stack, tuning: Tuning<L, F, M, G>, b: Block, inputs: Inputs, lc: LayerCond)
    requires
        stack.wf(),
    ensures
        stack.qkv_steps(tuning, b, inputs).len() == stack.projection_len(),
        stack.attend_steps().len() == stack.attention_len(),
        stack.out_steps(tuning, b, inputs, lc).len() == stack.out_len(),
        stack.ffn_steps(tuning, b, inputs, lc).len() == if stack.plan.direct_down {
            2int
        } else {
            3
        },
        forall|i: int|
            0 <= i < stack.qkv_steps(tuning, b, inputs).len() ==> (#[trigger] stack.qkv_steps(
                tuning,
                b,
                inputs,
            )[i]).launch.scalars == seq![stack.plan.tokens as u32],
        forall|i: int|
            0 <= i < stack.out_steps(tuning, b, inputs, lc).len() ==> (#[trigger] stack.out_steps(
                tuning,
                b,
                inputs,
                lc,
            )[i]).launch.scalars == seq![stack.plan.tokens as u32],
        forall|i: int|
            0 <= i < stack.ffn_steps(tuning, b, inputs, lc).len() ==> (#[trigger] stack.ffn_steps(
                tuning,
                b,
                inputs,
                lc,
            )[i]).launch.scalars == seq![stack.plan.tokens as u32],
{
    reveal(Stack::qkv_steps);
    reveal(Stack::out_steps);
    reveal(Stack::ffn_steps);
    lemma_attention_scalars(stack);
}

proof fn lemma_attention_scalars(stack: &Stack)
    requires
        stack.wf(),
    ensures
        stack.attend_steps().len() == stack.attention_len(),
        forall|i: int|
            0 <= i < stack.attend_steps().len() ==> (#[trigger] stack.attend_steps()[i]).launch.scalars == seq![
                stack.plan.tokens as u32,
            ],
{
    reveal(Stack::attend_steps);
}

#[verifier::spinoff_prover]
proof fn lemma_layer_parts<
    L: Fn(usize) -> Option<usize>,
    F: Fn(usize, usize, usize) -> u32,
    M: Fn(usize, usize, usize, usize) -> u32,
    G: Fn(usize, u32, usize) -> u32,
>(stack: &Stack, tuning: Tuning<L, F, M, G>, b: Block, inputs: Inputs, lc: LayerCond)
    requires
        stack.wf(),
    ensures
        ({
            let steps = stack.block_steps(tuning, b, inputs, lc);
            let n = 1 + stack.projection_len();
            let m = n + stack.attention_len();
            let o = stack.second_norm();
            &&& stack.qkv_steps(tuning, b, inputs).len() == stack.projection_len()
            &&& stack.attend_steps().len() == stack.attention_len()
            &&& stack.out_steps(tuning, b, inputs, lc).len() == stack.out_len()
            &&& stack.ffn_steps(tuning, b, inputs, lc).len() == if stack.plan.direct_down {
                2int
            } else {
                3
            }
            &&& steps.len() == o + 1 + stack.ffn_steps(tuning, b, inputs, lc).len()
            &&& steps[0] == stack.norm_step(inputs, b.norm1, lc.table_msa)
            &&& forall|i: int| 1 <= i < n ==> #[trigger] steps[i] == stack.qkv_steps(tuning, b, inputs)[i - 1]
            &&& forall|i: int| n <= i < m ==> #[trigger] steps[i] == stack.attend_steps()[i - n]
            &&& forall|i: int| m <= i < o ==> #[trigger] steps[i] == stack.out_steps(tuning, b, inputs, lc)[i - m]
            &&& steps[o] == stack.norm_step(inputs, b.norm2, lc.table_mlp)
            &&& forall|i: int|
                o < i < steps.len() ==> #[trigger] steps[i] == stack.ffn_steps(tuning, b, inputs, lc)[i - o - 1]
            &&& forall|i: int|
                0 <= i < steps.len() ==> (#[trigger] steps[i]).launch.scalars == seq![stack.plan.tokens as u32]
        }),
{
    let steps = stack.block_steps(tuning, b, inputs, lc);
    lemma_part_lens(stack, tuning, b, inputs, lc);
    lemma_attention_scalars(stack);
    lemma_norm_scalars(stack, inputs, b.norm1, lc.table_msa);
    lemma_norm_scalars(stack, inputs, b.norm2, lc.table_mlp);
    let n = 1 + stack.projection_len();
    let m = n + stack.attention_len();
    let o = stack.second_norm();
    let (qkv, att) = (stack.qkv_steps(tuning, b, inputs), stack.attend_steps());
    let (out, ffn) = (stack.out_steps(tuning, b, inputs, lc), stack.ffn_steps(tuning, b, inputs, lc));
    assert forall|i: int| 0 <= i < steps.len() implies (#[trigger] steps[i]).launch.scalars == seq![
        stack.plan.tokens as u32,
    ] by {
        if i == 0 || i == o {
        } else if i < n {
            assert(steps[i] == qkv[i - 1]);
        } else if i < m {
            assert(steps[i] == att[i - n]);
        } else if i < o {
            assert(steps[i] == out[i - m]);
        } else {
            assert(steps[i] == ffn[i - o - 1]);
        }
    }
}

proof fn lemma_norm_scalars(stack: &Stack, inputs: Inputs, weight: BufferRef, table: BufferRef)
    ensures
        stack.norm_step(inputs, weight, table).launch.scalars == seq![stack.plan.tokens as u32],
{
    reveal(Stack::norm_step);
}

/// The attention reads the queries, the keys and the values and writes what the out projection takes. On integers each of
/// the queries and the keys is narrowed by itself, the keys less their mean where they are smoothed and the queries never,
/// and the values are turned; and it is those that are attended.
pub proof fn law_attention_reads_what_was_projected<
    L: Fn(usize) -> Option<usize>,
    F: Fn(usize, usize, usize) -> u32,
    M: Fn(usize, usize, usize, usize) -> u32,
    G: Fn(usize, u32, usize) -> u32,
>(stack: &Stack, tuning: Tuning<L, F, M, G>, b: Block, inputs: Inputs, lc: LayerCond)
    requires
        stack.wf(),
    ensures
        ({
            let steps = stack.block_steps(tuning, b, inputs, lc);
            let end = 1 + stack.projection_len() + stack.attention_len();
            let last = steps[end - 1].launch;
            let (q, k, v, out) = (stack.q_view(), stack.k_view(), stack.v_view(), stack.buffers.attn.whole());
            &&& last.kernel == stack.plan.attention@
            &&& match (stack.plan.int_qk, stack.buffers.int_qk) {
                (Some(kernels), Some(codes)) => {
                    let (keys, queries, values) = (
                        steps[end - 3].launch,
                        steps[end - 4].launch,
                        steps[end - 2].launch,
                    );
                    &&& queries.kernel == kernels.prep_q@ && queries.bindings == seq![
                        q,
                        codes.zmean.whole(),
                        codes.qi.whole(),
                        codes.qs.whole(),
                    ]
                    &&& keys.kernel == kernels.prep_k@ && keys.bindings == seq![
                        k,
                        if stack.plan.knobs.smooth {
                            codes.kmean.whole()
                        } else {
                            codes.zmean.whole()
                        },
                        codes.ki.whole(),
                        codes.ks.whole(),
                    ]
                    &&& values.kernel == kernels.transpose@ && values.bindings == seq![v, codes.vt.whole()]
                    &&& stack.plan.knobs.smooth ==> steps[end - 5].launch.kernel == kernels.colmean@ && steps[end
                        - 5].launch.bindings == seq![k, codes.kmean.whole()]
                    &&& last.bindings == seq![
                        codes.qi.whole(),
                        codes.qs.whole(),
                        codes.ki.whole(),
                        codes.ks.whole(),
                        codes.vt.whole(),
                        out,
                    ]
                },
                (None, None) => last.bindings == seq![q, k, v, out],
                _ => false,
            }
        }),
{
    lemma_layer_parts(stack, tuning, b, inputs, lc);
    reveal(Stack::attend_steps);
    let steps = stack.block_steps(tuning, b, inputs, lc);
    let n = 1 + stack.projection_len();
    let att = stack.attend_steps();
    let len = stack.attention_len();
    assert(steps[n + len - 1] == att[len - 1]);
    if stack.plan.int_qk is Some {
        assert(steps[n + len - 2] == att[len - 2]);
        assert(steps[n + len - 3] == att[len - 3]);
        assert(steps[n + len - 4] == att[len - 4]);
        if stack.plan.knobs.smooth {
            assert(steps[n + len - 5] == att[0]);
        }
    }
}

/// The queries, the keys and the values stand apart: each in its own buffer, or, where they are views of one, one behind
/// the other, each as long as its heads, and together as long as what the projection writes.
pub proof fn law_queries_keys_and_values_stand_apart(stack: &Stack)
    requires
        stack.wf(),
    ensures
        stack.buffers.q is Some ==> stack.q_view() == stack.buffers.q->0.whole() && stack.k_view()
            == stack.buffers.k->0.whole() && stack.v_view() == stack.buffers.v->0.whole(),
        stack.buffers.q is None ==> ({
            let (q, k, v) = (stack.q_view(), stack.k_view(), stack.v_view());
            let d = stack.plan.d;
            &&& q.buffer == stack.buffers.fused.whole().buffer && k.buffer == q.buffer && v.buffer == q.buffer
            &&& q.offset == 0
            &&& k.offset == q.offset + q.length
            &&& v.offset == k.offset + k.length
            &&& v.offset + v.length == stack.plan.capacity * ((d.heads + 2 * d.kv_heads) * d.head_dim) * 2
            &&& v.offset + v.length <= stack.buffers.fused.size()
            &&& q.length == stack.plan.capacity * (d.heads * d.head_dim) * 2
            &&& k.length == stack.plan.capacity * (d.kv_heads * d.head_dim) * 2
            &&& v.length == k.length
        }),
{
    let d = stack.plan.d;
    let t = stack.plan.capacity as int;
    let (q, kv) = (d.q_width(), d.kv_width());
    lemma_product(d.heads as int, d.head_dim as int);
    lemma_product(d.kv_heads as int, d.head_dim as int);
    lemma_capacity(d, stack.plan.tokens as int);
    lemma_product(t, q);
    lemma_product(t, kv);
    assert(t * d.qkv_width() * 2 == t * q * 2 + 2 * (t * kv * 2)) by (nonlinear_arith)
        requires
            d.qkv_width() == q + 2 * kv,
    ;
    assert((d.heads + 2 * d.kv_heads) * d.head_dim == q + 2 * kv) by (nonlinear_arith)
        requires
            q == d.heads * d.head_dim,
            kv == d.kv_heads * d.head_dim,
    ;
    assert(stack.buffers.q is None ==> stack.buffers.k is None && stack.buffers.v is None);
    assert(stack.plan.sizes.fused.bytes == t * d.qkv_width() * 2);
}

/// A pass takes its layers in order, each once, with its own weights and its own conditioning: what layer `i` does comes
/// behind all that the layers before it do.
pub proof fn law_a_pass_takes_its_layers_in_order<
    L: Fn(usize) -> Option<usize>,
    F: Fn(usize, usize, usize) -> u32,
    M: Fn(usize, usize, usize, usize) -> u32,
    G: Fn(usize, u32, usize) -> u32,
>(
    stack: &Stack,
    tuning: Tuning<L, F, M, G>,
    inputs: Inputs,
    cond: Seq<LayerCond>,
    first: int,
    last: int,
    i: int,
    k: int,
)
    requires
        stack.wf(),
        0 <= first <= i < last,
        0 <= k < stack.second_norm() + if stack.plan.direct_down {
            3int
        } else {
            4
        },
    ensures
        ({
            let each = stack.second_norm() + if stack.plan.direct_down {
                3int
            } else {
                4
            };
            let steps = stack.forward_steps(tuning, inputs, cond, first, last);
            &&& steps.len() == (last - first) * each
            &&& steps[(i - first) * each + k] == stack.block_steps(tuning, stack.blocks@[i], inputs, cond[i])[k]
        }),
    decreases last,
{
    let each = stack.second_norm() + if stack.plan.direct_down {
        3int
    } else {
        4
    };
    lemma_pass_len(stack, tuning, inputs, cond, first, last - 1);
    lemma_layer_parts(stack, tuning, stack.blocks@[last - 1], inputs, cond[last - 1]);
    assert((last - first) * each == (last - 1 - first) * each + each) by (nonlinear_arith);
    if i < last - 1 {
        law_a_pass_takes_its_layers_in_order(stack, tuning, inputs, cond, first, last - 1, i, k);
        radix::lemma_flat2(i - first, k, last - 1 - first, each);
    } else {
        assert(stack.forward_steps(tuning, inputs, cond, first, last - 1).len() == (i - first) * each);
    }
}

proof fn lemma_pass_len<
    L: Fn(usize) -> Option<usize>,
    F: Fn(usize, usize, usize) -> u32,
    M: Fn(usize, usize, usize, usize) -> u32,
    G: Fn(usize, u32, usize) -> u32,
>(stack: &Stack, tuning: Tuning<L, F, M, G>, inputs: Inputs, cond: Seq<LayerCond>, first: int, last: int)
    requires
        stack.wf(),
        0 <= first <= last,
    ensures
        stack.forward_steps(tuning, inputs, cond, first, last).len() == (last - first) * (stack.second_norm()
            + if stack.plan.direct_down {
            3int
        } else {
            4
        }),
    decreases last,
{
    let each = stack.second_norm() + if stack.plan.direct_down {
        3int
    } else {
        4
    };
    if first < last {
        lemma_pass_len(stack, tuning, inputs, cond, first, last - 1);
        lemma_layer_parts(stack, tuning, stack.blocks@[last - 1], inputs, cond[last - 1]);
        assert((last - first) * each == (last - 1 - first) * each + each) by (nonlinear_arith);
    } else {
        assert(0 * each == 0) by (nonlinear_arith);
    }
}

/// Each of a layer's four conditioning slices reaches one launch alone: the attention's table its first norm, the
/// attention's gate the launch in front of the second norm, the feed-forward's table the second norm, and its gate the
/// last launch. Two layers that differ in one slice differ nowhere else.
pub proof fn law_a_conditioning_slice_reaches_one_launch<
    L: Fn(usize) -> Option<usize>,
    F: Fn(usize, usize, usize) -> u32,
    M: Fn(usize, usize, usize, usize) -> u32,
    G: Fn(usize, u32, usize) -> u32,
>(stack: &Stack, tuning: Tuning<L, F, M, G>, b: Block, inputs: Inputs, lc: LayerCond, other: LayerCond, i: int)
    requires
        stack.wf(),
        b.has(stack.plan.d, b.scale1 is Some),
        0 <= i < stack.block_steps(tuning, b, inputs, lc).len(),
    ensures
        ({
            let (one, two) = (stack.block_steps(tuning, b, inputs, lc), stack.block_steps(tuning, b, inputs, other));
            let norm = stack.second_norm();
            &&& two.len() == one.len()
            &&& i != 0 && i != norm - 1 && i != norm && i != one.len() - 1 ==> one[i] == two[i]
            &&& one[0] == two[0] <== lc.table_msa == other.table_msa
            &&& one[norm - 1] == two[norm - 1] <== lc.gate_msa == other.gate_msa
            &&& one[norm] == two[norm] <== lc.table_mlp == other.table_mlp
            &&& one.last() == two.last() <== lc.gate_mlp == other.gate_mlp
            &&& one[0].launch == two[0].launch ==> lc.table_msa == other.table_msa
            &&& one[norm - 1].launch == two[norm - 1].launch ==> lc.gate_msa == other.gate_msa
            &&& one[norm].launch == two[norm].launch ==> lc.table_mlp == other.table_mlp
            &&& one.last().launch == two.last().launch ==> lc.gate_mlp == other.gate_mlp
        }),
{
    lemma_layer_parts(stack, tuning, b, inputs, lc);
    lemma_layer_parts(stack, tuning, b, inputs, other);
    law_a_layer_attends_with_its_own_operands(stack, tuning, b, inputs, lc);
    law_a_layer_attends_with_its_own_operands(stack, tuning, b, inputs, other);
    law_a_layer_feeds_forward_with_its_own_operands(stack, tuning, b, inputs, lc);
    law_a_layer_feeds_forward_with_its_own_operands(stack, tuning, b, inputs, other);
    let (one, two) = (stack.block_steps(tuning, b, inputs, lc), stack.block_steps(tuning, b, inputs, other));
    let norm = stack.second_norm();
    let d = stack.plan.d;
    let skip = 2 + if d.wbits == 8 {
        2int
    } else {
        0
    };
    assert(one[0].launch.bindings[2] == lc.table_msa && two[0].launch.bindings[2] == other.table_msa);
    assert(one[norm].launch.bindings[2] == lc.table_mlp && two[norm].launch.bindings[2] == other.table_mlp);
    assert(one[norm - 1].launch.bindings[skip + 1] == lc.gate_msa && two[norm - 1].launch.bindings[skip + 1]
        == other.gate_msa);
    assert(one.last().launch.bindings[skip + 1] == lc.gate_mlp && two.last().launch.bindings[skip + 1]
        == other.gate_mlp);
    lemma_steps_follow(stack, tuning, b, inputs, lc, other, i);
}

proof fn lemma_steps_follow<
    L: Fn(usize) -> Option<usize>,
    F: Fn(usize, usize, usize) -> u32,
    M: Fn(usize, usize, usize, usize) -> u32,
    G: Fn(usize, u32, usize) -> u32,
>(stack: &Stack, tuning: Tuning<L, F, M, G>, b: Block, inputs: Inputs, lc: LayerCond, other: LayerCond, i: int)
    requires
        stack.wf(),
        0 <= i < stack.block_steps(tuning, b, inputs, lc).len(),
    ensures
        ({
            let (one, two) = (stack.block_steps(tuning, b, inputs, lc), stack.block_steps(tuning, b, inputs, other));
            let norm = stack.second_norm();
            &&& i != 0 && i != norm - 1 && i != norm && i != one.len() - 1 ==> one[i] == two[i]
            &&& one[0] == two[0] <== lc.table_msa == other.table_msa
            &&& one[norm - 1] == two[norm - 1] <== lc.gate_msa == other.gate_msa
            &&& one[norm] == two[norm] <== lc.table_mlp == other.table_mlp
            &&& one.last() == two.last() <== lc.gate_mlp == other.gate_mlp
        }),
{
    lemma_layer_parts(stack, tuning, b, inputs, lc);
    lemma_layer_parts(stack, tuning, b, inputs, other);
    reveal(Stack::out_steps);
    reveal(Stack::ffn_steps);
    let (one, two) = (stack.block_steps(tuning, b, inputs, lc), stack.block_steps(tuning, b, inputs, other));
    let norm = stack.second_norm();
    let m = norm - stack.out_len();
    let (out1, out2) = (stack.out_steps(tuning, b, inputs, lc), stack.out_steps(tuning, b, inputs, other));
    let (ffn1, ffn2) = (stack.ffn_steps(tuning, b, inputs, lc), stack.ffn_steps(tuning, b, inputs, other));
    assert(one[norm - 1] == out1[stack.out_len() - 1] && two[norm - 1] == out2[stack.out_len() - 1]);
    assert(one[one.len() - 1] == ffn1[ffn1.len() - 1] && two[two.len() - 1] == ffn2[ffn2.len() - 1]);
    if m <= i < norm - 1 {
        assert(one[i] == out1[i - m] && two[i] == out2[i - m]);
    }
    if norm < i < one.len() - 1 {
        assert(one[i] == ffn1[i - norm - 1] && two[i] == ffn2[i - norm - 1]);
    }
}

/// Whether what was asked for under a name came to stand at this view.
pub open spec fn stands_at(wants: Seq<(Seq<char>, Want)>, placed: Seq<BufferRef>, name: Seq<char>, view: BufferRef) -> bool {
    exists|k: int| 0 <= k < wants.len() && (#[trigger] wants[k]).0 == name && placed[k] == view
}

/// A layer reads each of its weights from where what was asked for under that weight's name came to stand.
pub proof fn law_each_weight_is_the_one_its_name_says(
    b: Block,
    d: StackDims,
    p: Seq<char>,
    qk_weights: bool,
    scaled: bool,
    placed: Seq<BufferRef>,
)
    requires
        b.in_order(placed, d, qk_weights, scaled),
    ensures
        ({
            let wants = layer_wants(d, p, qk_weights, scaled);
            &&& placed.len() == wants.len()
            &&& stands_at(wants, placed, p + "norm1"@, b.norm1)
            &&& stands_at(wants, placed, p + "norm2"@, b.norm2)
            &&& stands_at(wants, placed, p + "qkv.q"@, b.qkv_q)
            &&& stands_at(wants, placed, p + "out.q"@, b.out_q)
            &&& stands_at(wants, placed, p + "gu.q"@, b.gu_q)
            &&& stands_at(wants, placed, p + "down.q"@, b.down_q)
            &&& qk_weights ==> stands_at(wants, placed, p + "qnorm"@, b.qnorm) && stands_at(
                wants,
                placed,
                p + "knorm"@,
                b.knorm,
            )
            &&& scaled ==> {
                &&& b.scale1 matches Some(v) && stands_at(wants, placed, p + "scale1"@, v)
                &&& b.scale2 matches Some(v) && stands_at(wants, placed, p + "scale2"@, v)
            }
            &&& d.wbits == 8 ==> {
                &&& b.qkv_s matches Some(v) && stands_at(wants, placed, p + "qkv.s"@, v)
                &&& b.out_s matches Some(v) && stands_at(wants, placed, p + "out.s"@, v)
                &&& b.gu_s matches Some(v) && stands_at(wants, placed, p + "gu.s"@, v)
                &&& b.down_s matches Some(v) && stands_at(wants, placed, p + "down.s"@, v)
            }
            &&& d.bias ==> {
                &&& b.qkv_b matches Some(v) && stands_at(wants, placed, p + "qkv.b"@, v)
                &&& b.out_b matches Some(v) && stands_at(wants, placed, p + "out.b"@, v)
                &&& b.gu_b matches Some(v) && stands_at(wants, placed, p + "gu.b"@, v)
                &&& b.down_b matches Some(v) && stands_at(wants, placed, p + "down.b"@, v)
            }
        }),
{
    let wants = layer_wants(d, p, qk_weights, scaled);
    let a = before_weights(qk_weights, scaled);
    let e = a + weight_count(d);
    let n = layer_count(d, qk_weights, scaled);
    assert(wants.len() == n);
    assert(wants[n - 2] == norm_wants(d, p)[0] && wants[n - 1] == norm_wants(d, p)[1]);
    if qk_weights {
        assert(wants[0] == head_wants(d, p, qk_weights)[0] && wants[1] == head_wants(d, p, qk_weights)[1]);
    }
    if scaled {
        assert(wants[a - 2] == scale_wants(d, p, scaled)[0] && wants[a - 1] == scale_wants(d, p, scaled)[1]);
    }
    if d.bias {
        let biases = bias_wants(d, p);
        assert(wants[e] == biases[0] && wants[e + 1] == biases[1] && wants[e + 2] == biases[2] && wants[e + 3]
            == biases[3]);
    }
    let weights = weight_wants(d, p);
    assert(wants[a] == weights[0] && wants[a + 1] == weights[1] && wants[a + 2] == weights[2] && wants[a + 3]
        == weights[3]);
    if d.operand().is_quantised() {
        assert(wants[a + 4] == weights[4] && wants[a + 5] == weights[5] && wants[a + 6] == weights[6] && wants[a + 7]
            == weights[7]);
    }
}

} // verus!
