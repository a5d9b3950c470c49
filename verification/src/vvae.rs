//! The video VAE: 36 transformer blocks between a patch embedding and an unpatchify, run over spatial tiles
//! and temporal chunks the way the released model does.
//!
//! The decoder's shape is not free. A grid of `(ft, h, w)` latent voxels becomes `ft*h*w` tokens plus four
//! register tokens and a zero cls row, and the rotary table is built over coordinates normalised to that grid,
//! so a tile decoded on its own is not a crop of the whole frame decoded at once. That is why the tiling and
//! the blends exist, and why the stack is rebuilt whenever the grid changes.
pub mod frames;
pub mod video;

use vstd::prelude::*;
use vstd::string::StringExecFns;

use crate::compile;
use crate::dispatch;
use crate::dispatch::{Classes, Elem, Form, Gemm, Launch, LaunchView, Mode, Prepare, Tile, Tuning};
use crate::dit;
use crate::error::Result;
use crate::hrx::{Buffer, BufferRef};
use crate::model::{
    LATENT_CH, VAE_BLOCKS, VAE_D, VAE_FFN, VAE_HEADS, VAE_HID, VAE_KIN, VAE_OUT, VAE_PS, VAE_PT,
    VAE_REG, VAE_ROPE_HALF,
};
use crate::stack;
use crate::stack::{Inputs, LayerCond, Request, Stack, StackDims, Want};
use crate::text;

verus! {

/// A latent grid: temporal length and the spatial extent in latent voxels.
///
/// Everything the decoder builds is a function of this, so it is one value rather than three loose integers
/// that could disagree.
#[derive(Clone, Copy, PartialEq, Eq, Debug, Structural)]
pub struct Grid {
    pub ft: usize,
    pub h: usize,
    pub w: usize,
}

impl Grid {
    pub open spec fn count(self) -> int {
        self.ft * self.h * self.w
    }

    /// Latent voxels, which is the token count before the registers and the cls row.
    pub fn voxels(&self) -> (voxels: usize)
        requires
            self.ft * self.h <= usize::MAX,
            self.count() <= usize::MAX,
        ensures
            voxels == self.count(),
    {
        assert(self.ft * self.h >= 0 && self.count() >= 0) by (nonlinear_arith)
            requires
                self.count() == self.ft * self.h * self.w,
                self.ft >= 0,
                self.h >= 0,
                self.w >= 0,
        ;
        self.ft * self.h * self.w
    }

    /// Every row the stack runs over.
    pub fn tokens(&self) -> (tokens: usize)
        requires
            self.ft * self.h <= usize::MAX,
            self.count() + VAE_REG + 1 <= usize::MAX,
        ensures
            tokens == self.count() + VAE_REG + 1,
    {
        self.voxels() + VAE_REG + 1
    }

    /// The frames and pixels this grid decodes to.
    pub fn frames(&self) -> (extent: (usize, usize, usize))
        requires
            self.ft * VAE_PT <= usize::MAX,
            self.h * VAE_PS <= usize::MAX,
            self.w * VAE_PS <= usize::MAX,
        ensures
            extent.0 == self.ft * VAE_PT,
            extent.1 == self.h * VAE_PS,
            extent.2 == self.w * VAE_PS,
    {
        (self.ft * VAE_PT, self.h * VAE_PS, self.w * VAE_PS)
    }
}

/// The stack's dimensions. Fixed by the checkpoint, spelled out once.
pub open spec fn are_dims(d: StackDims) -> bool {
    &&& d.hidden == VAE_HID && d.heads == VAE_HEADS && d.kv_heads == VAE_HEADS
    &&& d.head_dim == VAE_D && d.ffn == VAE_FFN && d.rope_dim == 48
    &&& d.classes == 1 && d.wbits == 16
    &&& dit::is_small_eps(d.eps)
    &&& d.bias && !d.gate_first && !d.causal && !d.attn_i4
    &&& d.attn_qk_bits == 16 && !d.bf16
}

pub fn dims() -> (d: StackDims)
    ensures
        are_dims(d),
        d.eps.sound(),
{
    StackDims {
        hidden: VAE_HID,
        heads: VAE_HEADS,
        kv_heads: VAE_HEADS,
        head_dim: VAE_D,
        ffn: VAE_FFN,
        rope_dim: 48,
        classes: 1,
        wbits: 16,
        eps: dit::small_eps(),
        bias: true,
        gate_first: false,
        causal: false,
        attn_i4: false,
        attn_qk_bits: 16,
        bf16: false,
    }
}

/// The name of a block's weights.
pub open spec fn block_prefix(i: int) -> Seq<char> {
    text::phrase_of("blocks."@, i as nat, "."@)
}

pub fn block_name(i: usize) -> (prefix: String)
    ensures
        prefix@ == block_prefix(i as int),
{
    text::phrase("blocks.", i, ".")
}

/// Whether what there is, if anything, was built for another grid.
pub fn ensure(have: Option<Grid>, grid: Grid) -> (build: bool)
    ensures
        build == (have != Some(grid)),
{
    match have {
        Some(g) => g != grid,
        None => true,
    }
}

/// The bytes of a decoder's buffers, for a stack of this capacity.
#[derive(Clone, Copy, Debug)]
pub struct Sizes {
    /// the stream, which starts as zeros
    pub x: usize,
    /// the padded latents, which start as zeros
    pub in16: usize,
    /// the class rows, which start as zeros
    pub cls: usize,
    /// each of the rope's two tables; the register and cls rows keep the identity rotation
    pub rope: usize,
    /// the output norm's (scale, shift) table: no scale, the checkpoint's bias as the shift
    pub norm_table: usize,
    pub a_q: usize,
    pub a_s: usize,
    pub out16: usize,
}

impl Sizes {
    pub open spec fn of(self, t: int) -> bool {
        &&& self.x == t * VAE_HID * 4
        &&& self.in16 == t * VAE_KIN * 2
        &&& self.cls == t * 4
        &&& self.rope == t * VAE_ROPE_HALF * 4
        &&& self.norm_table == 2 * VAE_HID * 4
        &&& self.a_q == t * VAE_HID * 2
        &&& self.a_s == t * 4
        &&& self.out16 == t * VAE_OUT * 2
    }
}

/// The bytes to allocate beside a stack of this capacity.
pub fn sizes(t: usize) -> (sizes: Sizes)
    requires
        t * VAE_HID * 4 <= usize::MAX,
    ensures
        sizes.of(t as int),
{
    Sizes {
        x: t * VAE_HID * 4,
        in16: t * VAE_KIN * 2,
        cls: t * 4,
        rope: t * VAE_ROPE_HALF * 4,
        norm_table: 2 * VAE_HID * 4,
        a_q: t * VAE_HID * 2,
        a_s: t * 4,
        out16: t * VAE_OUT * 2,
    }
}

/// The projections and the output norm.
#[derive(Debug)]
pub struct Ends {
    pub proj_in: Gemm,
    pub norm_out: Prepare,
    pub proj_out: Gemm,
}

/// One hundred-thousandth in single precision.
pub const NORM_EPS: &'static str = "9.9999997473787516e-06";

impl Ends {
    pub open spec fn shaped(&self) -> bool {
        &&& self.proj_in.shaped(
            Mode::Resid,
            Elem::F16,
            true,
            true,
            VAE_KIN as int,
            VAE_HID as int,
            1,
            0,
            Tile::Plain,
            0,
        )
        &&& self.norm_out.shaped(Form::Lnorm, Elem::F16, VAE_HID as int, NORM_EPS@, 1, 0)
        &&& self.proj_out.shaped(
            Mode::Plain,
            Elem::F16,
            true,
            true,
            VAE_HID as int,
            VAE_OUT as int,
            1,
            0,
            Tile::Plain,
            0,
        )
    }

    /// The ends of a decoder of `n` voxels and `nt` rows.
    pub fn build<
        L: Fn(usize) -> Option<usize>,
        F: Fn(usize, usize, usize) -> u32,
        M: Fn(usize, usize, usize, usize) -> u32,
        G: Fn(usize, u32, usize) -> u32,
    >(tuning: &Tuning<L, F, M, G>, n: usize, nt: usize) -> (result: compile::Result<Self>)
        requires
            tuning.measured(),
        ensures
            match result {
                Ok(ends) => {
                    &&& ends.shaped()
                    &&& tuning.lanes_for(VAE_HID) == Some(ends.norm_out.lanes)
                    &&& ends.proj_in.m_group == tuning.m_group_for(false, n, VAE_KIN, VAE_HID, 16)
                    &&& ends.proj_out.m_group == tuning.m_group_for(false, nt, VAE_HID, VAE_OUT, 16)
                },
                Err(e) => {
                    &&& tuning.lanes_for(VAE_HID) is None
                    &&& compile::says(
                        e,
                        text::phrase_of("no prepare lane count for width "@, VAE_HID as nat, ""@),
                    )
                },
            },
    {
        let proj_in = Gemm::build(
            tuning,
            Mode::Resid,
            Elem::F16,
            true,
            true,
            VAE_KIN,
            VAE_HID,
            n,
            1,
            0,
            Tile::Plain,
            0,
        )?;
        let norm_out = Prepare::build(tuning, Form::Lnorm, Elem::F16, VAE_HID, NORM_EPS, 1, 0)?;
        let proj_out = Gemm::build(
            tuning,
            Mode::Plain,
            Elem::F16,
            true,
            true,
            VAE_HID,
            VAE_OUT,
            nt,
            1,
            0,
            Tile::Plain,
            0,
        )?;
        Ok(Ends { proj_in, norm_out, proj_out })
    }
}

/// The weights beside the stack's.
#[derive(Clone, Copy, Debug)]
pub struct EndWeights {
    pub norm_out_b: BufferRef,
    pub proj_in_w: BufferRef,
    pub proj_in_b: BufferRef,
    pub registers: BufferRef,
    pub norm_out_w: BufferRef,
    pub proj_out_w: BufferRef,
    pub proj_out_b: BufferRef,
}

/// The weights beside the stack's, in the order they are asked for.
pub open spec fn end_wants() -> Seq<(Seq<char>, Want)> {
    seq![
        ("vae.norm_out.b"@, Want::Bytes((VAE_HID * 4) as usize)),
        ("vae.proj_in.w"@, Want::Bytes((VAE_HID * VAE_KIN * 2) as usize)),
        ("vae.proj_in.b"@, Want::Bytes((VAE_HID * 4) as usize)),
        ("vae.register_tokens"@, Want::Bytes((VAE_REG * VAE_HID * 4) as usize)),
        ("vae.norm_out.w"@, Want::Bytes((VAE_HID * 4) as usize)),
        ("vae.proj_out.w"@, Want::Bytes((VAE_OUT * VAE_HID * 2) as usize)),
        ("vae.proj_out.b"@, Want::Bytes((VAE_OUT * 4) as usize)),
    ]
}

fn ask(list: &mut Vec<Request>, name: &str, bytes: usize)
    ensures
        stack::asked(final(list)@) == stack::asked(old(list)@).push((name@, Want::Bytes(bytes))),
{
    let ghost before = list@;
    list.push(Request { name: String::from_str(name), want: Want::Bytes(bytes) });
    assert(stack::asked(list@) =~= stack::asked(before).push((name@, Want::Bytes(bytes))));
}

impl EndWeights {
    pub fn requests() -> (list: Vec<Request>)
        ensures
            stack::asked(list@) == end_wants(),
    {
        let mut list: Vec<Request> = Vec::new();
        ask(&mut list, "vae.norm_out.b", VAE_HID * 4);
        ask(&mut list, "vae.proj_in.w", VAE_HID * VAE_KIN * 2);
        ask(&mut list, "vae.proj_in.b", VAE_HID * 4);
        ask(&mut list, "vae.register_tokens", VAE_REG * VAE_HID * 4);
        ask(&mut list, "vae.norm_out.w", VAE_HID * 4);
        ask(&mut list, "vae.proj_out.w", VAE_OUT * VAE_HID * 2);
        ask(&mut list, "vae.proj_out.b", VAE_OUT * 4);
        assert(stack::asked(list@) =~= end_wants());
        list
    }

    /// Whether each is as long as it was asked for.
    pub open spec fn fits(self) -> bool {
        &&& self.norm_out_b.length >= VAE_HID * 4
        &&& self.proj_in_w.length >= VAE_HID * VAE_KIN * 2
        &&& self.proj_in_b.length >= VAE_HID * 4
        &&& self.registers.length >= VAE_REG * VAE_HID * 4
        &&& self.norm_out_w.length >= VAE_HID * 4
        &&& self.proj_out_w.length >= VAE_OUT * VAE_HID * 2
        &&& self.proj_out_b.length >= VAE_OUT * 4
    }
}

/// A table the host keeps, and how many numbers it holds.
#[derive(Debug)]
pub struct HostTable {
    pub name: String,
    pub count: usize,
}

/// The tables the host keeps: the post-quantisation convolution, a 24x24 matrix and a bias applied per voxel,
/// and the latents' mean and deviation.
pub fn host_tables() -> (tables: [HostTable; 4])
    ensures
        tables@[0].name@ == "vae.post_quant_conv.w"@ && tables@[0].count == LATENT_CH * LATENT_CH,
        tables@[1].name@ == "vae.post_quant_conv.b"@ && tables@[1].count == LATENT_CH,
        tables@[2].name@ == "vae.latents_mean"@ && tables@[2].count == LATENT_CH,
        tables@[3].name@ == "vae.latents_std"@ && tables@[3].count == LATENT_CH,
{
    [
        HostTable {
            name: String::from_str("vae.post_quant_conv.w"),
            count: LATENT_CH * LATENT_CH,
        },
        HostTable { name: String::from_str("vae.post_quant_conv.b"), count: LATENT_CH },
        HostTable { name: String::from_str("vae.latents_mean"), count: LATENT_CH },
        HostTable { name: String::from_str("vae.latents_std"), count: LATENT_CH },
    ]
}


// One clip on the device.

/// What the stack and its buffers were last built for.
pub struct Built {
    pub stack: Stack,
    pub grid: Grid,
    pub ends: Ends,
    pub x: Buffer,
    pub cos: Buffer,
    pub sin: Buffer,
    pub in16: Buffer,
    pub a_q: Buffer,
    pub a_s: Buffer,
    pub out16: Buffer,
    pub cls: Classes,
    pub norm_table: Buffer,
}

impl Built {
    pub open spec fn wf(&self) -> bool {
        let t = self.stack.plan.capacity;
        &&& self.stack.wf()
        &&& are_dims(self.stack.plan.d)
        &&& self.stack.plan.layers == VAE_BLOCKS
        &&& self.grid.ft * self.grid.h <= usize::MAX
        &&& self.stack.plan.tokens == self.grid.count() + VAE_REG + 1
        &&& forall|i: int|
            0 <= i < self.stack.blocks@.len() ==> {
                let b = #[trigger] self.stack.blocks@[i];
                &&& b.scale1 matches Some(s) && s.length >= VAE_HID * 4
                &&& b.scale2 matches Some(s) && s.length >= VAE_HID * 4
            }
        &&& self.ends.shaped()
        &&& t * VAE_HID * 4 <= usize::MAX
        &&& self.x.size() >= t * VAE_HID * 4
        &&& self.cos.size() >= t * VAE_ROPE_HALF * 4
        &&& self.sin.size() >= t * VAE_ROPE_HALF * 4
        &&& self.in16.size() >= t * VAE_KIN * 2
        &&& self.a_q.size() >= t * VAE_HID * 2
        &&& self.a_s.size() >= t * 4
        &&& self.out16.size() >= t * VAE_OUT * 2
        &&& self.norm_table.size() >= 2 * VAE_HID * 4
        &&& self.cls.wf()
        &&& self.cls.values().len() >= self.stack.plan.tokens
        &&& self.cls.checked_against() <= 1
    }
}

/// One thing a clip's decode does.
#[derive(Debug)]
pub enum Op<'a> {
    /// the padded latents go up
    Upload(BufferRef),
    Zero(BufferRef),
    Copy { to: BufferRef, from: BufferRef },
    Launch(Launch<'a>),
    /// the patches come back
    Read(BufferRef),
}

pub enum OpView {
    Upload(BufferRef),
    Zero(BufferRef),
    Copy { to: BufferRef, from: BufferRef },
    Launch(LaunchView),
    Read(BufferRef),
}

impl<'a> View for Op<'a> {
    type V = OpView;

    open spec fn view(&self) -> OpView {
        match self {
            Op::Upload(to) => OpView::Upload(*to),
            Op::Zero(to) => OpView::Zero(*to),
            Op::Copy { to, from } => OpView::Copy { to: *to, from: *from },
            Op::Launch(launch) => OpView::Launch(launch@),
            Op::Read(from) => OpView::Read(*from),
        }
    }
}

pub open spec fn ops_of(ops: Seq<Op>) -> Seq<OpView> {
    Seq::new(ops.len(), |i: int| ops[i]@)
}

pub open spec fn launches_of(launches: Seq<LaunchView>) -> Seq<OpView> {
    Seq::new(launches.len(), |i: int| OpView::Launch(launches[i]))
}

fn put<'a>(ops: &mut Vec<Op<'a>>, op: Op<'a>)
    ensures
        ops_of(final(ops)@) == ops_of(old(ops)@).push(op@),
{
    let ghost before = ops@;
    ops.push(op);
    assert(ops_of(ops@) =~= ops_of(before).push(op@));
}

/// A launch that nothing stands in the way of.
fn put_launch<'a>(
    ops: &mut Vec<Op<'a>>,
    result: compile::Result<Launch<'a>>,
    step: Ghost<dispatch::Step>,
)
    requires
        step@.trouble is None,
        dispatch::comes_out(result, step@),
    ensures
        ops_of(final(ops)@) == ops_of(old(ops)@).push(OpView::Launch(step@.launch)),
{
    match result {
        Ok(launch) => put(ops, Op::Launch(launch)),
        Err(_) => {
            assert(false);
        },
    }
}

fn put_all<'a>(ops: &mut Vec<Op<'a>>, launches: Vec<Launch<'a>>)
    ensures
        ops_of(final(ops)@) == ops_of(old(ops)@) + launches_of(dispatch::seen(launches@)),
{
    let ghost before = ops_of(ops@);
    let ghost all = dispatch::seen(launches@);
    let mut left = launches;
    let mut turned: Vec<Launch<'a>> = Vec::new();
    // the last first, so that each can be taken from the end
    while left.len() > 0
        invariant
            left@.len() + turned@.len() == all.len(),
            forall|i: int| 0 <= i < left@.len() ==> (#[trigger] left@[i])@ == all[i],
            forall|i: int|
                0 <= i < turned@.len() ==> (#[trigger] turned@[i])@ == all[all.len() - 1 - i],
        decreases left@.len(),
    {
        if let Some(launch) = left.pop() {
            turned.push(launch);
        }
    }
    assert(ops_of(ops@) =~= before + launches_of(all.take(0)));
    while turned.len() > 0
        invariant
            turned@.len() <= all.len(),
            forall|i: int|
                0 <= i < turned@.len() ==> (#[trigger] turned@[i])@ == all[all.len() - 1 - i],
            ops_of(ops@) == before + launches_of(all.take(all.len() - turned@.len())),
        decreases turned@.len(),
    {
        let ghost n = all.len() - turned@.len();
        if let Some(launch) = turned.pop() {
            put(ops, Op::Launch(launch));
            assert(ops_of(ops@) =~= before + launches_of(all.take(n + 1)));
        }
    }
    assert(all.take(all.len() as int) =~= all);
}

proof fn lemma_proj_in_covers(
    g: Gemm,
    n: int,
    a: BufferRef,
    w: BufferRef,
    out: BufferRef,
    gate: BufferRef,
    cls: dispatch::ClassRows,
    bias: BufferRef,
)
    requires
        g.k_stride == 64 && g.n == 2048 && g.out_width == 2048 && g.out_bytes == 4,
        g.classes == 1 && g.n_tile == 128 && g.elem == Elem::F16 && g.resid && g.bias,
        0 <= n,
        n * 2048 * 4 <= usize::MAX,
        a.length >= n * 64 * 2,
        w.length >= 2048 * 64 * 2,
        out.length >= n * 2048 * 4,
        gate.length >= 2048 * 4,
        cls.binding().length >= n * 4,
        bias.length >= 2048 * 4,
    ensures
        g.countable(n),
        dispatch::short_at(g.args(n, a, w, None, out, Some((gate, cls)), Some(bias))) is None,
{
    assert(n * g.k_stride == n * 64 && g.n * g.k_stride == 2048 * 64 && n * g.out_width
        * g.out_bytes == n * 2048 * 4 && g.classes * g.n * 4 == 2048 * 4) by (nonlinear_arith)
        requires
            g.k_stride == 64,
            g.n == 2048,
            g.out_width == 2048,
            g.out_bytes == 4,
            g.classes == 1,
    ;
    let args = g.args(n, a, w, None, out, Some((gate, cls)), Some(bias));
    assert(args[0].need == n * g.k_stride * 2 && args[1].need == g.n * g.k_stride * 2);
    assert(args[2].need == n * g.out_width * g.out_bytes);
    assert(args[3].need == g.classes * g.n * 4 && args[4].need == n * 4);
    assert(args[5].need == g.n * 4);
    assert(args.len() == 6);
    dispatch::lemma_covered(args);
}

proof fn lemma_norm_covers(
    p: Prepare,
    nt: int,
    x: BufferRef,
    w: BufferRef,
    table: BufferRef,
    cls: dispatch::ClassRows,
    a_q: BufferRef,
    a_s: BufferRef,
)
    requires
        p.width == 2048 && p.classes == 1 && p.out_stride == 2048,
        p.form == Form::Lnorm && p.elem == Elem::F16,
        0 <= nt,
        nt * 2048 * 16 <= usize::MAX,
        x.length >= nt * 2048 * 4,
        w.length >= 2048 * 4,
        table.length >= 2048 * 8,
        cls.binding().length >= nt * 4,
        a_q.length >= nt * 2048 * 2,
    ensures
        p.countable(nt),
        dispatch::short_at(p.args(nt, x, Some((w, table, cls)), a_q, Some(a_s))) is None,
{
    assert(nt * p.width * 4 == nt * 2048 * 4 && p.classes * p.width * 8 == 2048 * 8 && nt
        * p.out_stride * 16 == nt * 2048 * 16) by (nonlinear_arith)
        requires
            p.width == 2048,
            p.classes == 1,
            p.out_stride == 2048,
    ;
    let args = p.args(nt, x, Some((w, table, cls)), a_q, Some(a_s));
    assert(args[0].need == nt * p.width * 4 && args[1].need == p.width * 4);
    assert(args[2].need == p.classes * p.width * 8 && args[3].need == nt * 4);
    assert(args[4].need == nt * p.out_stride * 16 / 8);
    assert(args.len() == 5);
    dispatch::lemma_covered(args);
}

proof fn lemma_proj_out_covers(
    g: Gemm,
    nt: int,
    a: BufferRef,
    w: BufferRef,
    out: BufferRef,
    bias: BufferRef,
)
    requires
        g.k_stride == 2048 && g.n == 3072 && g.out_width == 3072 && g.out_bytes == 2,
        g.n_tile == 128 && g.elem == Elem::F16 && !g.resid && g.bias,
        0 <= nt,
        nt * 3072 * 2 <= usize::MAX,
        a.length >= nt * 2048 * 2,
        w.length >= 3072 * 2048 * 2,
        out.length >= nt * 3072 * 2,
        bias.length >= 3072 * 4,
    ensures
        g.countable(nt),
        dispatch::short_at(g.args(nt, a, w, None, out, None, Some(bias))) is None,
{
    assert(nt * g.k_stride == nt * 2048 && g.n * g.k_stride == 3072 * 2048 && nt * g.out_width
        * g.out_bytes == nt * 3072 * 2) by (nonlinear_arith)
        requires
            g.k_stride == 2048,
            g.n == 3072,
            g.out_width == 3072,
            g.out_bytes == 2,
    ;
    let args = g.args(nt, a, w, None, out, None, Some(bias));
    assert(args[0].need == nt * g.k_stride * 2 && args[1].need == g.n * g.k_stride * 2);
    assert(args[2].need == nt * g.out_width * g.out_bytes);
    assert(args[3].need == g.n * 4);
    assert(args.len() == 4);
    dispatch::lemma_covered(args);
}

/// A decoder with what it decodes with.
pub struct Decoder<'a> {
    pub built: &'a Built,
    pub w: EndWeights,
    /// a row of ones: what the input projection is scaled by
    pub ones: BufferRef,
    /// two rows of zeros: a modulation table is a scale and a shift per class
    pub zeros: BufferRef,
}

impl<'a> Decoder<'a> {
    pub open spec fn wf(&self) -> bool {
        &&& self.built.wf()
        &&& self.w.fits()
        &&& self.ones.length >= VAE_HID * 4
        &&& self.zeros.length >= 2 * VAE_HID * 4
    }

    pub open spec fn n(&self) -> int {
        self.built.grid.count()
    }

    pub open spec fn nt(&self) -> int {
        self.n() + VAE_REG + 1
    }

    /// The voxels to the stream's width.
    pub open spec fn proj_in_step<
        L: Fn(usize) -> Option<usize>,
        F: Fn(usize, usize, usize) -> u32,
        M: Fn(usize, usize, usize, usize) -> u32,
        G: Fn(usize, u32, usize) -> u32,
    >(&self, tuning: Tuning<L, F, M, G>, cls: dispatch::ClassRows) -> dispatch::Step {
        let (b, g) = (self.built, self.built.ends.proj_in);
        g.step(
            tuning.grid_y_for(self.n() as usize, g.m_group, g.m_tile),
            "vae proj_in"@,
            self.n() as u32,
            b.in16.whole(),
            self.w.proj_in_w,
            None,
            b.x.whole(),
            Some((self.ones, cls)),
            Some(self.w.proj_in_b),
        )
    }

    /// The output norm.
    pub open spec fn norm_out_step(&self, cls: dispatch::ClassRows) -> dispatch::Step {
        let b = self.built;
        b.ends.norm_out.step(
            "vae norm_out"@,
            self.nt() as u32,
            b.x.whole(),
            Some((self.w.norm_out_w, b.norm_table.whole(), cls)),
            b.a_q.whole(),
            Some(b.a_s.whole()),
        )
    }

    /// The stream to the patches' width.
    pub open spec fn proj_out_step<
        L: Fn(usize) -> Option<usize>,
        F: Fn(usize, usize, usize) -> u32,
        M: Fn(usize, usize, usize, usize) -> u32,
        G: Fn(usize, u32, usize) -> u32,
    >(&self, tuning: Tuning<L, F, M, G>) -> dispatch::Step {
        let (b, g) = (self.built, self.built.ends.proj_out);
        g.step(
            tuning.grid_y_for(self.nt() as usize, g.m_group, g.m_tile),
            "vae proj_out"@,
            self.nt() as u32,
            b.a_q.whole(),
            self.w.proj_out_w,
            None,
            b.out16.whole(),
            None,
            Some(self.w.proj_out_b),
        )
    }

    /// Every block modulates with its own learned scale and no shift.
    pub open spec fn conds(&self) -> Seq<LayerCond> {
        Seq::new(
            VAE_BLOCKS as nat,
            |i: int|
                LayerCond {
                    table_msa: self.zeros,
                    gate_msa: self.built.stack.blocks@[i].scale1->0,
                    table_mlp: self.zeros,
                    gate_mlp: self.built.stack.blocks@[i].scale2->0,
                },
        )
    }

    pub open spec fn inputs(&self, cls: dispatch::ClassRows) -> Inputs {
        Inputs {
            x: self.built.x.whole(),
            cls,
            cos: self.built.cos.whole(),
            sin: self.built.sin.whole(),
        }
    }

    /// What a clip's decode does: the padded latents through the input projection, the four register tokens
    /// after the voxels and a zero cls row, the blocks, the output norm and the output projection.
    pub open spec fn clip_ops<
        L: Fn(usize) -> Option<usize>,
        F: Fn(usize, usize, usize) -> u32,
        M: Fn(usize, usize, usize, usize) -> u32,
        G: Fn(usize, u32, usize) -> u32,
    >(&self, tuning: Tuning<L, F, M, G>, cls: dispatch::ClassRows) -> Seq<OpView> {
        let b = self.built;
        let steps = b.stack.forward_steps(
            tuning,
            self.inputs(cls),
            self.conds(),
            0,
            VAE_BLOCKS as int,
        );
        seq![
            OpView::Upload(b.in16.part(0, (self.n() * VAE_KIN * 2) as usize)),
            OpView::Zero(b.x.part(0, (self.nt() * VAE_HID * 4) as usize)),
            OpView::Launch(self.proj_in_step(tuning, cls).launch),
            OpView::Copy {
                to: b.x.part(
                    (self.n() * VAE_HID * 4) as usize,
                    (VAE_REG * VAE_HID * 4) as usize,
                ),
                from: BufferRef {
                    length: (VAE_REG * VAE_HID * 4) as usize,
                    ..self.w.registers
                },
            },
        ] + launches_of(Seq::new(steps.len(), |i: int| steps[i].launch)) + seq![
            OpView::Launch(self.norm_out_step(cls).launch),
            OpView::Launch(self.proj_out_step(tuning).launch),
            OpView::Read(b.out16.part(0, (self.n() * VAE_OUT * 2) as usize)),
        ]
    }

    proof fn lemma_rows(&self)
        requires
            self.wf(),
        ensures
            0 <= self.n() <= self.nt() <= self.built.stack.plan.capacity,
            self.nt() <= u32::MAX,
            self.nt() == self.built.stack.plan.tokens,
            self.nt() * 2048 * 16 <= usize::MAX,
            self.nt() * 2048 * 4 <= self.built.x.size(),
            self.nt() * 2048 * 2 <= self.built.a_q.size(),
            self.nt() * 3072 * 2 <= self.built.out16.size(),
            self.n() * 64 * 2 <= self.built.in16.size(),
    {
        let b = self.built;
        let (n, d) = (self.n(), b.stack.plan.d);
        assert(n >= 0) by (nonlinear_arith)
            requires
                n == b.grid.ft * b.grid.h * b.grid.w,
                b.grid.ft >= 0,
                b.grid.h >= 0,
                b.grid.w >= 0,
        ;
        stack::lemma_capacity(d, b.stack.plan.tokens as int);
        let nt = b.stack.plan.tokens as int;
        assert(d.pitch_of(2048) == 2176);
        assert(nt * d.pitch_of(d.hidden as int) * d.operand().bits_of() <= usize::MAX);
        assert(nt * d.pitch_of(d.hidden as int) * d.operand().bits_of() == nt * 2176 * 16)
            by (nonlinear_arith)
            requires
                d.pitch_of(d.hidden as int) == 2176,
                d.operand().bits_of() == 16,
        ;
        assert(nt * 2048 * 16 <= nt * 2176 * 16) by (nonlinear_arith)
            requires
                nt >= 0,
        ;
        assert(self.nt() == nt);
        let t = b.stack.plan.capacity as int;
        assert(nt * 2048 * 4 <= t * 2048 * 4 && nt * 2048 * 2 <= t * 2048 * 2 && nt * 3072 * 2 <= t
            * 3072 * 2 && n * 64 * 2 <= t * 64 * 2) by (nonlinear_arith)
            requires
                n <= nt <= t,
        ;
    }

    proof fn lemma_proj_in_runs<
        L: Fn(usize) -> Option<usize>,
        F: Fn(usize, usize, usize) -> u32,
        M: Fn(usize, usize, usize, usize) -> u32,
        G: Fn(usize, u32, usize) -> u32,
    >(&self, tuning: Tuning<L, F, M, G>, cls: dispatch::ClassRows)
        requires
            self.wf(),
            cls.binding().length >= self.nt() * 4,
            cls.count() >= self.nt(),
            cls.checked_against() <= 1,
        ensures
            self.built.ends.proj_in.countable(self.n()),
            self.proj_in_step(tuning, cls).trouble is None,
    {
        self.lemma_rows();
        let b = self.built;
        lemma_proj_in_covers(
            b.ends.proj_in,
            self.n(),
            b.in16.whole(),
            self.w.proj_in_w,
            b.x.whole(),
            self.ones,
            cls,
            self.w.proj_in_b,
        );
    }

    proof fn lemma_norm_out_runs(&self, cls: dispatch::ClassRows)
        requires
            self.wf(),
            cls.binding().length >= self.nt() * 4,
            cls.count() >= self.nt(),
            cls.checked_against() <= 1,
        ensures
            self.built.ends.norm_out.countable(self.nt()),
            self.norm_out_step(cls).trouble is None,
    {
        self.lemma_rows();
        let b = self.built;
        lemma_norm_covers(
            b.ends.norm_out,
            self.nt(),
            b.x.whole(),
            self.w.norm_out_w,
            b.norm_table.whole(),
            cls,
            b.a_q.whole(),
            b.a_s.whole(),
        );
    }

    proof fn lemma_proj_out_runs<
        L: Fn(usize) -> Option<usize>,
        F: Fn(usize, usize, usize) -> u32,
        M: Fn(usize, usize, usize, usize) -> u32,
        G: Fn(usize, u32, usize) -> u32,
    >(&self, tuning: Tuning<L, F, M, G>)
        requires
            self.wf(),
        ensures
            self.built.ends.proj_out.countable(self.nt()),
            self.proj_out_step(tuning).trouble is None,
    {
        self.lemma_rows();
        let b = self.built;
        lemma_proj_out_covers(
            b.ends.proj_out,
            self.nt(),
            b.a_q.whole(),
            self.w.proj_out_w,
            b.out16.whole(),
            self.w.proj_out_b,
        );
    }

    proof fn lemma_blocks_run(&self, cls: dispatch::ClassRows)
        requires
            self.wf(),
            cls.binding().length >= self.nt() * 4,
            cls.count() >= self.nt(),
            cls.checked_against() <= 1,
        ensures
            self.inputs(cls).cover(self.built.stack),
            forall|i: int|
                0 <= i < VAE_BLOCKS ==> (#[trigger] self.conds()[i]).covers(
                    self.built.stack.plan.d,
                ),
    {
        self.lemma_rows();
        let b = self.built;
        let (nt, d) = (self.nt(), b.stack.plan.d);
        assert(nt * d.hidden * 4 == nt * 2048 * 4 && d.classes * d.hidden * 8 == 2048 * 8
            && d.classes * d.hidden * 4 == 2048 * 4) by (nonlinear_arith)
            requires
                d.hidden == 2048,
                d.classes == 1,
        ;
        assert forall|i: int| 0 <= i < VAE_BLOCKS implies (#[trigger] self.conds()[i]).covers(
            d,
        ) by {
            assert(b.stack.blocks@[i].scale1 is Some);
        }
    }

    /// What to do with a clip's padded latents, in order.
    pub fn decode_clip<
        L: Fn(usize) -> Option<usize>,
        F: Fn(usize, usize, usize) -> u32,
        M: Fn(usize, usize, usize, usize) -> u32,
        G: Fn(usize, u32, usize) -> u32,
    >(&self, tuning: &Tuning<L, F, M, G>) -> (ops: Vec<Op<'a>>)
        requires
            self.wf(),
            tuning.measured(),
        ensures
            exists|cls: dispatch::ClassRows| #[trigger]
                cls.of(&self.built.cls, 0, self.nt()) && ops_of(ops@) == self.clip_ops(*tuning, cls),
    {
        let b: &'a Built = self.built;
        let mut ops: Vec<Op<'a>> = Vec::new();
        let n: usize = b.grid.voxels();
        let nt: usize = b.grid.tokens();
        let cls = b.cls.slice(0, nt);
        proof {
            self.lemma_proj_in_runs(*tuning, cls);
            self.lemma_norm_out_runs(cls);
            self.lemma_proj_out_runs(*tuning);
            self.lemma_blocks_run(cls);
            self.lemma_rows();
            stack::law_a_pass_is_never_refused(
                &b.stack,
                *tuning,
                self.inputs(cls),
                self.conds(),
                0,
                VAE_BLOCKS as int,
            );
        }
        let ghost want = self.clip_ops(*tuning, cls);
        put(&mut ops, Op::Upload(b.in16.slice(0, n * VAE_KIN * 2)));
        put(&mut ops, Op::Zero(b.x.slice(0, nt * VAE_HID * 4)));
        put_launch(
            &mut ops,
            b.ends.proj_in.run(
                tuning,
                "vae proj_in",
                n as u32,
                b.in16.binding(),
                self.w.proj_in_w,
                None,
                b.x.binding(),
                Some((self.ones, cls)),
                Some(self.w.proj_in_b),
            ),
            Ghost(self.proj_in_step(*tuning, cls)),
        );
        // the four register tokens follow the voxels, then a zero cls row
        let registers = BufferRef {
            buffer: self.w.registers.buffer,
            offset: self.w.registers.offset,
            length: VAE_REG * VAE_HID * 4,
        };
        put(
            &mut ops,
            Op::Copy {
                to: b.x.slice(n * VAE_HID * 4, VAE_REG * VAE_HID * 4),
                from: registers,
            },
        );
        assert(ops_of(ops@) =~= want.take(4));
        let mut conds: Vec<LayerCond> = Vec::new();
        let mut i: usize = 0;
        while i < VAE_BLOCKS
            invariant
                i <= VAE_BLOCKS,
                b == self.built,
                self.wf(),
                conds@ == self.conds().take(i as int),
            decreases VAE_BLOCKS - i,
        {
            let block = b.stack.block(i);
            assert(b.stack.blocks@[i as int].scale1 is Some);
            if let (Some(s1), Some(s2)) = (block.scale1, block.scale2) {
                conds.push(
                    LayerCond {
                        table_msa: self.zeros,
                        gate_msa: s1,
                        table_mlp: self.zeros,
                        gate_mlp: s2,
                    },
                );
            }
            i += 1;
            assert(conds@ =~= self.conds().take(i as int));
        }
        assert(conds@ =~= self.conds());
        let inputs = Inputs {
            x: b.x.binding(),
            cls,
            cos: b.cos.binding(),
            sin: b.sin.binding(),
        };
        let (launches, _) = b.stack.forward(tuning, &inputs, conds.as_slice(), 0, None);
        put_all(&mut ops, launches);
        put_launch(
            &mut ops,
            b.ends.norm_out.run(
                "vae norm_out",
                nt as u32,
                b.x.binding(),
                Some((self.w.norm_out_w, b.norm_table.binding(), cls)),
                b.a_q.binding(),
                Some(b.a_s.binding()),
            ),
            Ghost(self.norm_out_step(cls)),
        );
        put_launch(
            &mut ops,
            b.ends.proj_out.run(
                tuning,
                "vae proj_out",
                nt as u32,
                b.a_q.binding(),
                self.w.proj_out_w,
                None,
                b.out16.binding(),
                None,
                Some(self.w.proj_out_b),
            ),
            Ghost(self.proj_out_step(*tuning)),
        );
        put(&mut ops, Op::Read(b.out16.slice(0, n * VAE_OUT * 2)));
        assert(ops_of(ops@) =~= want);
        assert(cls.of(&b.cls, 0, self.nt()));
        ops
    }
}

/// A clip goes through the decoder in one order, each stage on what the one before it left. The latents go up into rows of
/// 64; the stream is cleared, every row of it; the projection takes the latents' rows to the stream's, scaled by ones; the
/// registers are copied whole behind the last voxel, so that the row behind them stays zero; the blocks take the stream;
/// the norm reads the whole stream, the projection what the norm left; and of what that gives the voxels' rows alone are
/// read back.
pub proof fn law_a_clip_goes_through_in_order<
    L: Fn(usize) -> Option<usize>,
    F: Fn(usize, usize, usize) -> u32,
    M: Fn(usize, usize, usize, usize) -> u32,
    G: Fn(usize, u32, usize) -> u32,
>(decoder: &Decoder, tuning: Tuning<L, F, M, G>, cls: dispatch::ClassRows)
    requires
        decoder.wf(),
    ensures
        ({
            let (b, w) = (decoder.built, decoder.w);
            let voxels = b.grid.ft * b.grid.h * b.grid.w;
            let ops = decoder.clip_ops(tuning, cls);
            let last = ops.len() - 1;
            let (stream, latents, normed, patches) = (b.x.whole(), b.in16.whole(), b.a_q.whole(), b.out16.whole());
            &&& last >= 6
            &&& ops[0] matches OpView::Upload(to) && to.buffer == latents.buffer && to.offset == 0 && to.length
                == voxels * 128
            &&& ops[1] matches OpView::Zero(to) && to.buffer == stream.buffer && to.offset == 0 && to.length == (voxels
                + 5) * 8192
            &&& ops[2] matches OpView::Launch(l) && l.kernel == b.ends.proj_in.kernel@ && l.scalars == seq![
                voxels as u32,
            ] && l.bindings == seq![latents, w.proj_in_w, stream, decoder.ones, cls.binding(), w.proj_in_b]
            &&& ops[3] matches OpView::Copy { to, from } && to.buffer == stream.buffer && to.offset == voxels * 8192
                && to.length == 4 * 8192 && from.buffer == w.registers.buffer && from.offset == w.registers.offset
                && from.length == 4 * 8192
            &&& ops[last - 2] matches OpView::Launch(l) && l.kernel == b.ends.norm_out.kernel@ && l.scalars == seq![
                (voxels + 5) as u32,
            ] && l.bindings == seq![stream, w.norm_out_w, b.norm_table.whole(), cls.binding(), normed]
            &&& ops[last - 1] matches OpView::Launch(l) && l.kernel == b.ends.proj_out.kernel@ && l.scalars == seq![
                (voxels + 5) as u32,
            ] && l.bindings == seq![normed, w.proj_out_w, patches, w.proj_out_b]
            &&& ops[last] matches OpView::Read(from) && from.buffer == patches.buffer && from.offset == 0 && from.length
                == voxels * 6144
        }),
{
    decoder.lemma_rows();
    let (b, w) = (decoder.built, decoder.w);
    let ops = decoder.clip_ops(tuning, cls);
    assert(decoder.proj_in_step(tuning, cls).launch.bindings =~= seq![
        b.in16.whole(),
        w.proj_in_w,
        b.x.whole(),
        decoder.ones,
        cls.binding(),
        w.proj_in_b,
    ]);
    assert(decoder.norm_out_step(cls).launch.bindings =~= seq![
        b.x.whole(),
        w.norm_out_w,
        b.norm_table.whole(),
        cls.binding(),
        b.a_q.whole(),
    ]);
    assert(decoder.proj_out_step(tuning).launch.bindings =~= seq![
        b.a_q.whole(),
        w.proj_out_w,
        b.out16.whole(),
        w.proj_out_b,
    ]);
}

/// Launch `k` of block `i` stands behind the four things a clip's decode begins with and all the blocks before it, and is
/// that block's own on the stream: its table has neither scale nor shift, what its attention adds is scaled by the block's
/// first learned scale, and what its feed-forward adds by the second.
pub proof fn law_a_clips_blocks_run_in_order<
    L: Fn(usize) -> Option<usize>,
    F: Fn(usize, usize, usize) -> u32,
    M: Fn(usize, usize, usize, usize) -> u32,
    G: Fn(usize, u32, usize) -> u32,
>(decoder: &Decoder, tuning: Tuning<L, F, M, G>, cls: dispatch::ClassRows, i: int, k: int)
    requires
        decoder.wf(),
        0 <= i < 36,
        0 <= k < decoder.built.stack.second_norm() + if decoder.built.stack.plan.direct_down {
            3int
        } else {
            4
        },
    ensures
        ({
            let stack = decoder.built.stack;
            let each = stack.second_norm() + if stack.plan.direct_down {
                3int
            } else {
                4
            };
            let ops = decoder.clip_ops(tuning, cls);
            let block = stack.blocks@[i];
            let (inputs, lc) = (
                (Inputs {
                    x: decoder.built.x.whole(),
                    cls,
                    cos: decoder.built.cos.whole(),
                    sin: decoder.built.sin.whole(),
                }),
                (LayerCond {
                    table_msa: decoder.zeros,
                    gate_msa: block.scale1->0,
                    table_mlp: decoder.zeros,
                    gate_mlp: block.scale2->0,
                }),
            );
            &&& ops.len() == 7 + 36 * each
            &&& ops[4 + i * each + k] == OpView::Launch(stack.block_steps(tuning, block, inputs, lc)[k].launch)
        }),
{
    let stack = decoder.built.stack;
    let each = stack.second_norm() + if stack.plan.direct_down {
        3int
    } else {
        4
    };
    let steps = stack.forward_steps(tuning, decoder.inputs(cls), decoder.conds(), 0, VAE_BLOCKS as int);
    stack::law_a_pass_takes_its_layers_in_order(
        &stack,
        tuning,
        decoder.inputs(cls),
        decoder.conds(),
        0,
        VAE_BLOCKS as int,
        i,
        k,
    );
    assert(0 <= i * each + k < 36 * each) by (nonlinear_arith)
        requires
            0 <= i < 36,
            0 <= k < each,
    ;
    assert(steps.len() == 36 * each);
    let ops = decoder.clip_ops(tuning, cls);
    assert(ops[4 + i * each + k] == OpView::Launch(steps[i * each + k].launch));
}

} // verus!
