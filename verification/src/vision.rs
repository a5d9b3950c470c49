//! The vision tower: Qwen3-VL's ViT, 27 blocks on a half-precision residual stream.
//!
//! It differs from every other stack here in enough ways to be worth its own module rather than a
//! configuration of `Stack`: LayerNorm with a bias instead of RMSNorm, GELU instead of SwiGLU, a
//! two-dimensional rope over the patch grid, heads of 72 padded to 128 for the attention, and three
//! DeepStack mergers tapping the stream mid-tower. Its weights live in the text encoder's checkpoint.
//!
//! The output is two things: `merged`, the tower's own embedding of every 2x2 patch block, and
//! `deepstack`, the same shape taken from blocks 8, 16 and 24. The DiT consumes all four.
pub mod laws;

use vstd::prelude::*;
use vstd::string::StringExecFns;

use crate::compile;
use crate::compile::{Specialization, SpecializationView};
use crate::dispatch;
use crate::dispatch::{Arg, Kind, Launch, LaunchView, LayerNorm16, Matmul16};
use crate::error;
use crate::error::Result;
use crate::hrx::{Buffer, BufferRef, Extent};
use crate::radix;
use crate::rope;
use crate::stack;
use crate::stack::{Request, Want};
use crate::text;

verus! {

/// The stream's width.
pub const VHID: usize = 1152;

/// The learned position table is this wide and this high.
pub const VPOS_GRID: usize = 48;

pub const VHEADS: usize = 16;

pub const VHD: usize = 72;

/// A head's width, padded for the attention.
pub const VHDP: usize = 128;

/// The MLP's width, padded from 4304.
pub const VMLP: usize = 4352;

/// Four patch rows side by side.
pub const VMERGE: usize = 4608;

pub const VOUT: usize = 5120;

pub const VBLOCKS: usize = 27;

/// The packed queries, keys and values.
pub const VQKV: usize = 3456;

/// The padded heads side by side.
pub const VPAD: usize = 2048;

/// The DeepStack merger that reads the stream after a block, if one does: those after 8, 16 and 24.
pub open spec fn deepstack_of(block: int) -> Option<int> {
    if block == 8 {
        Some(0)
    } else if block == 16 {
        Some(1)
    } else if block == 24 {
        Some(2)
    } else {
        None
    }
}

pub fn deepstack_at(block: usize) -> (merger: Option<usize>)
    ensures
        match deepstack_of(block as int) {
            Some(j) => merger matches Some(k) && k == j,
            None => merger is None,
        },
{
    if block == 8 {
        Some(0)
    } else if block == 16 {
        Some(1)
    } else if block == 24 {
        Some(2)
    } else {
        None
    }
}

/// An image's patches.
#[derive(Clone, Copy, Debug, PartialEq, Eq, Structural)]
pub struct Extents {
    /// the patch grid
    pub gh: usize,
    pub gw: usize,
    /// patches
    pub n: usize,
    /// merged 2x2 blocks
    pub m: usize,
    /// the attention's token capacity: sixteen rows of slack, rounded to 32
    pub cap: usize,
}

/// Whether an image can be embedded: a patch is sixteen wide and high, and the merger consumes 2x2 blocks of
/// them.
pub open spec fn embeddable(height: int, width: int) -> bool {
    height % 32 == 0 && width % 32 == 0 && height >= 32 && width >= 32
}

impl Extents {
    /// Whether these are the patches of an image.
    pub open spec fn of(self, height: int, width: int) -> bool {
        &&& self.gh == height / 16
        &&& self.gw == width / 16
        &&& self.n == self.gh * self.gw
        &&& self.m == self.n / 4
        &&& self.cap == dispatch::up_to(self.n + 16, 32)
    }

    /// Whether these are the patches of some image, and the bytes they take can be counted, each patch being
    /// `patch` numbers.
    pub open spec fn wf(self, patch: int) -> bool {
        &&& self.gh >= 2 && self.gw >= 2
        &&& self.gh % 2 == 0 && self.gw % 2 == 0
        &&& self.n == self.gh * self.gw
        &&& self.m == self.n / 4
        &&& self.cap == dispatch::up_to(self.n + 16, 32)
        &&& self.n * VMLP * 4 <= usize::MAX
        &&& self.cap * VPAD * 2 <= usize::MAX
        &&& 0 <= self.n * patch * 4 <= usize::MAX
        &&& 0 <= VHID * patch * 2 <= usize::MAX
    }
}

/// The patches of an image.
///
/// Both extents must be multiples of 32: sixteen for the patch and another factor of two because the merger
/// consumes 2x2 blocks.
pub fn extents(height: usize, width: usize) -> (result: Result<Extents>)
    requires
        (height / 16) * (width / 16) + 48 <= usize::MAX,
    ensures
        if embeddable(height as int, width as int) {
            result matches Ok(e) && e.of(height as int, width as int)
        } else {
            result matches Err(e) && error::blames(
                e,
                "vision images need height and width multiples of 32"@,
            )
        },
{
    if height % 32 != 0 || width % 32 != 0 || height < 32 || width < 32 {
        return error::invalid(
            String::from_str("vision images need height and width multiples of 32"),
        );
    }
    let gh: usize = height / 16;
    let gw: usize = width / 16;
    assert(gh * gw >= 0) by (nonlinear_arith)
        requires
            gh >= 0,
            gw >= 0,
    ;
    let n: usize = gh * gw;
    Ok(Extents { gh, gw, n, m: n / 4, cap: dispatch::steps_of(n + 16, 32) * 32 })
}

/// The patches of an embeddable image pair up into whole 2x2 blocks, and the attention's capacity leaves at
/// least sixteen rows past them.
pub proof fn law_an_image_is_whole_blocks(e: Extents, height: int, width: int)
    requires
        embeddable(height, width),
        e.of(height, width),
    ensures
        e.gh % 2 == 0 && e.gw % 2 == 0,
        e.gh >= 2 && e.gw >= 2,
        4 * e.m == e.n,
        e.cap % 32 == 0,
        e.n + 16 <= e.cap < e.n + 48,
{
    let (a, b) = (height / 32, width / 32);
    assert(e.gh == 2 * a && e.gw == 2 * b);
    assert(e.n == 4 * (a * b)) by (nonlinear_arith)
        requires
            e.n == e.gh * e.gw,
            e.gh == 2 * a,
            e.gw == 2 * b,
    ;
}

/// The bytes of a tower's buffers.
#[derive(Clone, Copy, Debug)]
pub struct Sizes {
    /// the patches, in single precision
    pub patches: usize,
    /// their projection, in single precision
    pub x32: usize,
    /// the stream
    pub x16: usize,
    /// each of the rope's two tables
    pub rope: usize,
    pub ln: usize,
    pub qkv: usize,
    /// each of the padded queries, keys, values and the attention's output; the first three start as zeros,
    /// since the attention reads rows past the patches that are never written
    pub padded: usize,
    pub hid: usize,
    pub hid16: usize,
    pub ln4: usize,
    pub mid: usize,
    pub out: usize,
    /// the residual GEMM's per-column scale, which this tower does not use: all ones
    pub lambda: usize,
}

impl Sizes {
    pub open spec fn of(self, e: Extents, patch: int) -> bool {
        &&& self.patches == e.n * patch * 4
        &&& self.x32 == e.n * VHID * 4
        &&& self.x16 == e.n * VHID * 2
        &&& self.rope == e.n * 36 * 4
        &&& self.ln == e.n * VHID * 4
        &&& self.qkv == e.n * VQKV * 4
        &&& self.padded == e.cap * VPAD * 2
        &&& self.hid == e.n * VMLP * 4
        &&& self.hid16 == e.n * VMLP * 2
        &&& self.ln4 == e.m * VMERGE * 4
        &&& self.mid == e.m * VMERGE * 4
        &&& self.out == e.m * VOUT * 4
        &&& self.lambda == VMERGE * 4
    }
}

/// The bytes to allocate for an image's run.
pub fn sizes(e: &Extents, patch: usize) -> (sizes: Sizes)
    requires
        e.wf(patch as int),
    ensures
        sizes.of(*e, patch as int),
{
    assert(0 <= e.n * patch <= e.n * patch * 4) by (nonlinear_arith)
        requires
            e.n >= 0,
            patch >= 0,
    ;
    Sizes {
        patches: e.n * patch * 4,
        x32: e.n * VHID * 4,
        x16: e.n * VHID * 2,
        rope: e.n * 36 * 4,
        ln: e.n * VHID * 4,
        qkv: e.n * VQKV * 4,
        padded: e.cap * VPAD * 2,
        hid: e.n * VMLP * 4,
        hid16: e.n * VMLP * 2,
        ln4: e.m * VMERGE * 4,
        mid: e.m * VMERGE * 4,
        out: e.m * VOUT * 4,
        lambda: VMERGE * 4,
    }
}

// The kernels.

/// The reciprocal of the square root of a head's width.
pub const ATTENTION_SCALE: &'static str = "0.11785113019775793";

pub const LAYERNORM_EPS: &'static str = "9.9999999999999995e-07";

pub open spec fn attention_kernel(e: Extents) -> SpecializationView {
    let ns = "h3.attention_mha_lds_f16_wmma."@;
    SpecializationView {
        module: "attention_mha_family"@,
        symbol: "h3_attention_mha_lds_f16_wmma"@,
        config: seq![
            dispatch::count_of(ns, "q_stride"@, VPAD as int),
            dispatch::count_of(ns, "kv_stride"@, VPAD as int),
            dispatch::count_of(ns, "tokens"@, e.n as int),
            dispatch::count_of(ns, "token_capacity"@, e.cap as int),
            (ns + "scale"@, ATTENTION_SCALE@),
            dispatch::count_of(ns, "out_stride"@, VPAD as int),
        ],
    }
}

fn build_attention(e: &Extents) -> (kernel: Specialization)
    ensures
        kernel@ == attention_kernel(*e),
{
    let ns: &str = "h3.attention_mha_lds_f16_wmma.";
    let mut cfg: compile::Cfg = Vec::new();
    compile::set_count(&mut cfg, ns, "q_stride", VPAD);
    compile::set_count(&mut cfg, ns, "kv_stride", VPAD);
    compile::set_count(&mut cfg, ns, "tokens", e.n);
    compile::set_count(&mut cfg, ns, "token_capacity", e.cap);
    compile::set(&mut cfg, ns, "scale", String::from_str(ATTENTION_SCALE));
    compile::set_count(&mut cfg, ns, "out_stride", VPAD);
    let kernel = Specialization {
        module: String::from_str("attention_mha_family"),
        symbol: String::from_str("h3_attention_mha_lds_f16_wmma"),
        config: cfg,
    };
    assert(kernel@.config =~= attention_kernel(*e).config);
    kernel
}

pub open spec fn rope_kernel() -> SpecializationView {
    let ns = "h3.rope2d_qkv_f16."@;
    SpecializationView {
        module: "rope2d_qkv_f16"@,
        symbol: "h3_rope2d_qkv_f16"@,
        config: seq![
            dispatch::count_of(ns, "heads"@, VHEADS as int),
            dispatch::count_of(ns, "hd"@, VHD as int),
            dispatch::count_of(ns, "hd_pad"@, VHDP as int),
        ],
    }
}

fn build_rope() -> (kernel: Specialization)
    ensures
        kernel@ == rope_kernel(),
{
    let ns: &str = "h3.rope2d_qkv_f16.";
    let mut cfg: compile::Cfg = Vec::new();
    compile::set_count(&mut cfg, ns, "heads", VHEADS);
    compile::set_count(&mut cfg, ns, "hd", VHD);
    compile::set_count(&mut cfg, ns, "hd_pad", VHDP);
    let kernel = Specialization {
        module: String::from_str("rope2d_qkv_f16"),
        symbol: String::from_str("h3_rope2d_qkv_f16"),
        config: cfg,
    };
    assert(kernel@.config =~= rope_kernel().config);
    kernel
}

pub open spec fn cast_kernel() -> SpecializationView {
    SpecializationView {
        module: "cast_f32_f16"@,
        symbol: "h3_cast_f32_f16"@,
        config: Seq::empty(),
    }
}

fn build_cast() -> (kernel: Specialization)
    ensures
        kernel@ == cast_kernel(),
{
    let kernel = Specialization {
        module: String::from_str("cast_f32_f16"),
        symbol: String::from_str("h3_cast_f32_f16"),
        config: Vec::new(),
    };
    assert(kernel@.config =~= cast_kernel().config);
    kernel
}

/// What a tower run launches.
#[derive(Debug)]
pub struct Kernels {
    pub patch: Matmul16,
    pub attn: Specialization,
    pub rope: Specialization,
    pub cast: Specialization,
    /// a patch row's norm
    pub norm: LayerNorm16,
    /// a merged row's
    pub norm4: LayerNorm16,
    pub qkv: Matmul16,
    pub proj: Matmul16,
    pub fc1: Matmul16,
    pub fc2: Matmul16,
    pub merge1: Matmul16,
    pub merge2: Matmul16,
}

/// Whether a GEMM is of this kind and shape.
pub open spec fn multiplies(g: Matmul16, kind: Kind, k: int, n: int) -> bool {
    &&& g.kernel@ == dispatch::matmul16_kernel(kind, k, n)
    &&& g.k == k
    &&& g.n == n
    &&& g.resid == (kind == Kind::Resid)
}

/// Whether a norm is over rows of this width.
pub open spec fn normalises(g: LayerNorm16, width: int) -> bool {
    &&& g.kernel@ == dispatch::layernorm16_kernel(width, LAYERNORM_EPS@)
    &&& g.width == width
}

impl Kernels {
    pub open spec fn of(&self, e: Extents, patch: int) -> bool {
        &&& multiplies(self.patch, Kind::Bias, patch, VHID as int)
        &&& self.attn@ == attention_kernel(e)
        &&& self.rope@ == rope_kernel()
        &&& self.cast@ == cast_kernel()
        &&& normalises(self.norm, VHID as int)
        &&& normalises(self.norm4, VMERGE as int)
        &&& multiplies(self.qkv, Kind::Bias, VHID as int, VQKV as int)
        &&& multiplies(self.proj, Kind::Resid, VPAD as int, VHID as int)
        &&& multiplies(self.fc1, Kind::Gelu, VHID as int, VMLP as int)
        &&& multiplies(self.fc2, Kind::Resid, VMLP as int, VHID as int)
        &&& multiplies(self.merge1, Kind::GeluErf, VMERGE as int, VMERGE as int)
        &&& multiplies(self.merge2, Kind::Bias, VMERGE as int, VOUT as int)
    }

    pub fn build(e: &Extents, patch: usize) -> (kernels: Self)
        ensures
            kernels.of(*e, patch as int),
    {
        Kernels {
            patch: Matmul16::build(Kind::Bias, patch, VHID),
            attn: build_attention(e),
            rope: build_rope(),
            cast: build_cast(),
            norm: LayerNorm16::build(VHID, LAYERNORM_EPS),
            norm4: LayerNorm16::build(VMERGE, LAYERNORM_EPS),
            qkv: Matmul16::build(Kind::Bias, VHID, VQKV),
            proj: Matmul16::build(Kind::Resid, VPAD, VHID),
            fc1: Matmul16::build(Kind::Gelu, VHID, VMLP),
            fc2: Matmul16::build(Kind::Resid, VMLP, VHID),
            merge1: Matmul16::build(Kind::GeluErf, VMERGE, VMERGE),
            merge2: Matmul16::build(Kind::Bias, VMERGE, VOUT),
        }
    }
}


// The weights.

/// The name of a block's weights.
pub open spec fn block_prefix(i: int) -> Seq<char> {
    text::phrase_of("vis.b"@, i as nat, "."@)
}

/// The name of a DeepStack merger's weights.
pub open spec fn deepstack_prefix(j: int) -> Seq<char> {
    text::phrase_of("vis.ds"@, j as nat, "."@)
}

pub open spec fn want(p: Seq<char>, name: Seq<char>, bytes: int) -> (Seq<char>, Want) {
    (p + name, Want::Bytes(bytes as usize))
}

/// A block's weights, in the order they are asked for.
pub open spec fn block_wants(p: Seq<char>) -> Seq<(Seq<char>, Want)> {
    seq![
        want(p, "norm1.w"@, VHID * 4),
        want(p, "norm1.b"@, VHID * 4),
        want(p, "qkv.w"@, VQKV * VHID * 2),
        want(p, "qkv.b"@, VQKV * 4),
        want(p, "proj.w"@, VHID * VPAD * 2),
        want(p, "proj.b"@, VHID * 4),
        want(p, "norm2.w"@, VHID * 4),
        want(p, "norm2.b"@, VHID * 4),
        want(p, "fc1.w"@, VMLP * VHID * 2),
        want(p, "fc1.b"@, VMLP * 4),
        want(p, "fc2.w"@, VHID * VMLP * 2),
        want(p, "fc2.b"@, VHID * 4),
    ]
}

/// A merger's weights, whose norm is over rows of this width.
pub open spec fn merger_wants(p: Seq<char>, width: int) -> Seq<(Seq<char>, Want)> {
    seq![
        want(p, "norm.w"@, width * 4),
        want(p, "norm.b"@, width * 4),
        want(p, "fc1.w"@, VMERGE * VMERGE * 2),
        want(p, "fc1.b"@, VMERGE * 4),
        want(p, "fc2.w"@, VOUT * VMERGE * 2),
        want(p, "fc2.b"@, VOUT * 4),
    ]
}

/// The patch projection's weights.
pub open spec fn patch_wants(patch: int) -> Seq<(Seq<char>, Want)> {
    seq![want("vis.patch."@, "w"@, VHID * patch * 2), want("vis.patch."@, "b"@, VHID * 4)]
}

/// What the first `n` blocks ask for: each its own weights, then those of the merger that follows it.
pub open spec fn blocks_wants(n: int) -> Seq<(Seq<char>, Want)>
    decreases n,
{
    if n <= 0 {
        Seq::empty()
    } else {
        blocks_wants(n - 1) + block_wants(block_prefix(n - 1)) + match deepstack_of(n - 1) {
            Some(j) => merger_wants(deepstack_prefix(j), VMERGE as int),
            None => Seq::empty(),
        }
    }
}

/// What a tower asks for, in order.
pub open spec fn tower_wants(patch: int) -> Seq<(Seq<char>, Want)> {
    patch_wants(patch) + blocks_wants(VBLOCKS as int) + merger_wants("vis.merger."@, VHID as int)
}

fn ask_block(list: &mut Vec<Request>, p: &str)
    ensures
        stack::asked(final(list)@) == stack::asked(old(list)@) + block_wants(p@),
{
    let ghost before = stack::asked(list@);
    stack::ask(list, p, "norm1.w", Want::Bytes(VHID * 4));
    stack::ask(list, p, "norm1.b", Want::Bytes(VHID * 4));
    stack::ask(list, p, "qkv.w", Want::Bytes(VQKV * VHID * 2));
    stack::ask(list, p, "qkv.b", Want::Bytes(VQKV * 4));
    stack::ask(list, p, "proj.w", Want::Bytes(VHID * VPAD * 2));
    stack::ask(list, p, "proj.b", Want::Bytes(VHID * 4));
    stack::ask(list, p, "norm2.w", Want::Bytes(VHID * 4));
    stack::ask(list, p, "norm2.b", Want::Bytes(VHID * 4));
    stack::ask(list, p, "fc1.w", Want::Bytes(VMLP * VHID * 2));
    stack::ask(list, p, "fc1.b", Want::Bytes(VMLP * 4));
    stack::ask(list, p, "fc2.w", Want::Bytes(VHID * VMLP * 2));
    stack::ask(list, p, "fc2.b", Want::Bytes(VHID * 4));
    assert(stack::asked(list@) =~= before + block_wants(p@));
}

fn ask_merger(list: &mut Vec<Request>, p: &str, width: usize)
    requires
        width <= VMERGE,
    ensures
        stack::asked(final(list)@) == stack::asked(old(list)@) + merger_wants(p@, width as int),
{
    let ghost before = stack::asked(list@);
    stack::ask(list, p, "norm.w", Want::Bytes(width * 4));
    stack::ask(list, p, "norm.b", Want::Bytes(width * 4));
    stack::ask(list, p, "fc1.w", Want::Bytes(VMERGE * VMERGE * 2));
    stack::ask(list, p, "fc1.b", Want::Bytes(VMERGE * 4));
    stack::ask(list, p, "fc2.w", Want::Bytes(VOUT * VMERGE * 2));
    stack::ask(list, p, "fc2.b", Want::Bytes(VOUT * 4));
    assert(stack::asked(list@) =~= before + merger_wants(p@, width as int));
}

/// What to have on the device for a tower, in order.
pub fn requests(patch: usize) -> (list: Vec<Request>)
    requires
        VHID * patch * 2 <= usize::MAX,
    ensures
        stack::asked(list@) == tower_wants(patch as int),
{
    let mut list: Vec<Request> = Vec::new();
    assert(stack::asked(list@) =~= Seq::empty());
    stack::ask(&mut list, "vis.patch.", "w", Want::Bytes(VHID * patch * 2));
    stack::ask(&mut list, "vis.patch.", "b", Want::Bytes(VHID * 4));
    assert(stack::asked(list@) =~= patch_wants(patch as int));
    assert(blocks_wants(0) =~= Seq::empty());
    let mut i: usize = 0;
    while i < VBLOCKS
        invariant
            i <= VBLOCKS,
            stack::asked(list@) == patch_wants(patch as int) + blocks_wants(i as int),
        decreases VBLOCKS - i,
    {
        let ghost before = stack::asked(list@);
        let p = text::phrase("vis.b", i, ".");
        ask_block(&mut list, p.as_str());
        if let Some(j) = deepstack_at(i) {
            let d = text::phrase("vis.ds", j, ".");
            ask_merger(&mut list, d.as_str(), VMERGE);
        }
        assert(stack::asked(list@) =~= patch_wants(patch as int) + blocks_wants(i + 1));
        i += 1;
    }
    ask_merger(&mut list, "vis.merger.", VHID);
    list
}

/// A block's weights, on the device.
#[derive(Clone, Copy, Debug)]
pub struct BlockWeights {
    pub norm1_w: BufferRef,
    pub norm1_b: BufferRef,
    pub qkv_w: BufferRef,
    pub qkv_b: BufferRef,
    pub proj_w: BufferRef,
    pub proj_b: BufferRef,
    pub norm2_w: BufferRef,
    pub norm2_b: BufferRef,
    pub fc1_w: BufferRef,
    pub fc1_b: BufferRef,
    pub fc2_w: BufferRef,
    pub fc2_b: BufferRef,
}

impl BlockWeights {
    /// The weights in the order they are asked for.
    pub open spec fn in_order(self) -> Seq<BufferRef> {
        seq![
            self.norm1_w,
            self.norm1_b,
            self.qkv_w,
            self.qkv_b,
            self.proj_w,
            self.proj_b,
            self.norm2_w,
            self.norm2_b,
            self.fc1_w,
            self.fc1_b,
            self.fc2_w,
            self.fc2_b,
        ]
    }

    /// Whether each is as long as it was asked for.
    pub open spec fn fits(self) -> bool {
        &&& self.norm1_w.length >= VHID * 4 && self.norm1_b.length >= VHID * 4
        &&& self.qkv_w.length >= VQKV * VHID * 2 && self.qkv_b.length >= VQKV * 4
        &&& self.proj_w.length >= VHID * VPAD * 2 && self.proj_b.length >= VHID * 4
        &&& self.norm2_w.length >= VHID * 4 && self.norm2_b.length >= VHID * 4
        &&& self.fc1_w.length >= VMLP * VHID * 2 && self.fc1_b.length >= VMLP * 4
        &&& self.fc2_w.length >= VHID * VMLP * 2 && self.fc2_b.length >= VHID * 4
    }

    /// A block's weights, from where its requests begin.
    fn new(placed: &[BufferRef], at: usize) -> (w: Self)
        requires
            at + 12 <= placed@.len(),
        ensures
            w.in_order() == placed@.subrange(at as int, at + 12),
    {
        let w = BlockWeights {
            norm1_w: placed[at],
            norm1_b: placed[at + 1],
            qkv_w: placed[at + 2],
            qkv_b: placed[at + 3],
            proj_w: placed[at + 4],
            proj_b: placed[at + 5],
            norm2_w: placed[at + 6],
            norm2_b: placed[at + 7],
            fc1_w: placed[at + 8],
            fc1_b: placed[at + 9],
            fc2_w: placed[at + 10],
            fc2_b: placed[at + 11],
        };
        assert(w.in_order() =~= placed@.subrange(at as int, at + 12));
        w
    }
}

/// A merger's weights, on the device.
#[derive(Clone, Copy, Debug)]
pub struct MergerWeights {
    pub norm_w: BufferRef,
    pub norm_b: BufferRef,
    pub fc1_w: BufferRef,
    pub fc1_b: BufferRef,
    pub fc2_w: BufferRef,
    pub fc2_b: BufferRef,
}

impl MergerWeights {
    /// The weights in the order they are asked for.
    pub open spec fn in_order(self) -> Seq<BufferRef> {
        seq![self.norm_w, self.norm_b, self.fc1_w, self.fc1_b, self.fc2_w, self.fc2_b]
    }

    /// Whether each is as long as it was asked for.
    pub open spec fn fits(self, width: int) -> bool {
        &&& self.norm_w.length >= width * 4 && self.norm_b.length >= width * 4
        &&& self.fc1_w.length >= VMERGE * VMERGE * 2 && self.fc1_b.length >= VMERGE * 4
        &&& self.fc2_w.length >= VOUT * VMERGE * 2 && self.fc2_b.length >= VOUT * 4
    }

    fn new(placed: &[BufferRef], at: usize) -> (w: Self)
        requires
            at + 6 <= placed@.len(),
        ensures
            w.in_order() == placed@.subrange(at as int, at + 6),
    {
        let w = MergerWeights {
            norm_w: placed[at],
            norm_b: placed[at + 1],
            fc1_w: placed[at + 2],
            fc1_b: placed[at + 3],
            fc2_w: placed[at + 4],
            fc2_b: placed[at + 5],
        };
        assert(w.in_order() =~= placed@.subrange(at as int, at + 6));
        w
    }
}

/// A tower's weights, on the device.
#[derive(Debug)]
pub struct TowerWeights {
    pub patch_w: BufferRef,
    pub patch_b: BufferRef,
    pub blocks: Vec<BlockWeights>,
    pub deepstack: Vec<MergerWeights>,
    pub merger: MergerWeights,
}

/// The views of the first `n` blocks and of the mergers that follow them.
pub open spec fn blocks_in_order(
    blocks: Seq<BlockWeights>,
    deepstack: Seq<MergerWeights>,
    n: int,
) -> Seq<BufferRef>
    decreases n,
{
    if n <= 0 {
        Seq::empty()
    } else {
        blocks_in_order(blocks, deepstack, n - 1) + blocks[n - 1].in_order() + match deepstack_of(
            n - 1,
        ) {
            Some(j) => deepstack[j].in_order(),
            None => Seq::empty(),
        }
    }
}

/// How many views the first `n` blocks and their mergers take.
pub open spec fn views_before(n: int) -> int
    decreases n,
{
    if n <= 0 {
        0
    } else {
        views_before(n - 1) + if deepstack_of(n - 1) is Some {
            18int
        } else {
            12
        }
    }
}

/// How many weights a tower has.
pub const TOWER_VIEWS: usize = 350;

/// How many of the mergers come after the blocks before `n`.
pub open spec fn mergers_before(n: int) -> int {
    if n <= 8 {
        0
    } else if n <= 16 {
        1
    } else if n <= 24 {
        2
    } else {
        3
    }
}

impl TowerWeights {
    /// The weights in the order they are asked for.
    pub open spec fn in_order(&self) -> Seq<BufferRef> {
        seq![self.patch_w, self.patch_b] + blocks_in_order(
            self.blocks@,
            self.deepstack@,
            VBLOCKS as int,
        ) + self.merger.in_order()
    }

    /// Whether there is one of each, as long as it was asked for.
    pub open spec fn wf(&self, patch: int) -> bool {
        &&& self.patch_w.length >= VHID * patch * 2
        &&& self.patch_b.length >= VHID * 4
        &&& self.blocks@.len() == VBLOCKS
        &&& self.deepstack@.len() == 3
        &&& forall|i: int| 0 <= i < VBLOCKS ==> (#[trigger] self.blocks@[i]).fits()
        &&& forall|j: int| 0 <= j < 3 ==> (#[trigger] self.deepstack@[j]).fits(VMERGE as int)
        &&& self.merger.fits(VHID as int)
    }

    /// A tower's weights, from what its requests brought.
    pub fn new(placed: &[BufferRef]) -> (w: Self)
        requires
            placed@.len() == TOWER_VIEWS,
        ensures
            w.in_order() == placed@,
            w.blocks@.len() == VBLOCKS,
            w.deepstack@.len() == 3,
    {
        let mut blocks: Vec<BlockWeights> = Vec::new();
        let mut deepstack: Vec<MergerWeights> = Vec::new();
        let mut at: usize = 2;
        let mut i: usize = 0;
        proof {
            lemma_views_of_blocks();
        }
        assert(blocks_in_order(blocks@, deepstack@, 0) =~= placed@.subrange(2, 2));
        while i < VBLOCKS
            invariant
                i <= VBLOCKS,
                placed@.len() == TOWER_VIEWS,
                forall|n: int| 0 <= n <= VBLOCKS ==> 0 <= #[trigger] views_before(n) <= 342,
                at == 2 + views_before(i as int),
                blocks@.len() == i,
                deepstack@.len() == mergers_before(i as int),
                blocks_in_order(blocks@, deepstack@, i as int) == placed@.subrange(2, at as int),
            decreases VBLOCKS - i,
        {
            let ghost (b0, d0, at0) = (blocks@, deepstack@, at as int);
            assert(views_before(i + 1) <= 342);
            blocks.push(BlockWeights::new(placed, at));
            at = at + 12;
            if let Some(j) = deepstack_at(i) {
                deepstack.push(MergerWeights::new(placed, at));
                at = at + 6;
            }
            proof {
                lemma_blocks_in_order_keep(b0, d0, blocks@, deepstack@, i as int);
                assert(blocks_in_order(blocks@, deepstack@, i + 1) =~= placed@.subrange(
                    2,
                    at as int,
                ));
            }
            i += 1;
        }
        assert(views_before(27) == 342) by {
            lemma_views_of_blocks();
        }
        let merger = MergerWeights::new(placed, at);
        let w = TowerWeights { patch_w: placed[0], patch_b: placed[1], blocks, deepstack, merger };
        assert(w.in_order() =~= placed@);
        w
    }
}

proof fn lemma_views_of_blocks()
    ensures
        forall|n: int| 0 <= n <= VBLOCKS ==> 0 <= #[trigger] views_before(n) <= 342,
        views_before(27) == 342,
{
    reveal_with_fuel(views_before, 28);
    assert forall|n: int| 0 <= n <= VBLOCKS implies 0 <= #[trigger] views_before(n) <= 342 by {
        lemma_views_before(n);
    }
}

proof fn lemma_views_before(n: int)
    requires
        0 <= n <= VBLOCKS,
    ensures
        views_before(n) == 12 * n + 6 * mergers_before(n),
    decreases n,
{
    if n > 0 {
        lemma_views_before(n - 1);
    }
}

/// Blocks and mergers that come later do not change the order of what is before them.
proof fn lemma_blocks_in_order_keep(
    b0: Seq<BlockWeights>,
    d0: Seq<MergerWeights>,
    b1: Seq<BlockWeights>,
    d1: Seq<MergerWeights>,
    n: int,
)
    requires
        0 <= n <= b0.len(),
        n <= VBLOCKS,
        d0.len() >= mergers_before(n),
        b0.is_prefix_of(b1),
        d0.is_prefix_of(d1),
    ensures
        blocks_in_order(b0, d0, n) == blocks_in_order(b1, d1, n),
    decreases n,
{
    if n > 0 {
        lemma_blocks_in_order_keep(b0, d0, b1, d1, n - 1);
        assert(b0[n - 1] == b1[n - 1]);
    }
}

/// Where a block's weights, and those of the merger that follows it, stand among all of them.
proof fn lemma_where_a_block_stands(w: &TowerWeights, n: int, i: int)
    requires
        0 <= i < n <= VBLOCKS,
        w.blocks@.len() == VBLOCKS,
        w.deepstack@.len() == 3,
    ensures
        views_before(i) + 12 <= views_before(n),
        blocks_wants(n).len() == views_before(n),
        blocks_in_order(w.blocks@, w.deepstack@, n).len() == views_before(n),
        forall|k: int|
            0 <= k < 12 ==> #[trigger] blocks_wants(n)[views_before(i) + k] == block_wants(
                block_prefix(i),
            )[k],
        forall|k: int|
            0 <= k < 12 ==> #[trigger] blocks_in_order(w.blocks@, w.deepstack@, n)[views_before(i)
                + k] == w.blocks@[i].in_order()[k],
        deepstack_of(i) matches Some(j) ==> {
            &&& views_before(i) + 18 <= views_before(n)
            &&& forall|k: int|
                12 <= k < 18 ==> #[trigger] blocks_wants(n)[views_before(i) + k] == merger_wants(
                    deepstack_prefix(j),
                    VMERGE as int,
                )[k - 12]
            &&& forall|k: int|
                12 <= k < 18 ==> #[trigger] blocks_in_order(
                    w.blocks@,
                    w.deepstack@,
                    n,
                )[views_before(i) + k] == w.deepstack@[j].in_order()[k - 12]
        },
    decreases n,
{
    lemma_views_before(i);
    lemma_views_before(n);
    lemma_views_before(n - 1);
    lemma_block_lengths(w, n - 1);
    if i < n - 1 {
        lemma_where_a_block_stands(w, n - 1, i);
    }
}

proof fn lemma_block_lengths(w: &TowerWeights, n: int)
    requires
        0 <= n <= VBLOCKS,
        w.blocks@.len() == VBLOCKS,
        w.deepstack@.len() == 3,
    ensures
        blocks_wants(n).len() == views_before(n),
        blocks_in_order(w.blocks@, w.deepstack@, n).len() == views_before(n),
    decreases n,
{
    if n > 0 {
        lemma_block_lengths(w, n - 1);
    }
}

/// Weights that are each as long as they were asked for are a tower's: none is missing and none is short.
pub proof fn law_a_placed_tower_fits(w: &TowerWeights, placed: Seq<BufferRef>, patch: int)
    requires
        w.in_order() == placed,
        w.blocks@.len() == VBLOCKS,
        w.deepstack@.len() == 3,
        0 <= VHID * patch * 2 <= usize::MAX,
        forall|i: int|
            0 <= i < placed.len() ==> (#[trigger] placed[i]).length >= tower_wants(patch)[i].1.size(),
    ensures
        w.wf(patch),
        placed.len() == tower_wants(patch).len(),
{
    let n = VBLOCKS as int;
    lemma_block_lengths(w, n);
    lemma_views_of_blocks();
    let wants = tower_wants(patch);
    let blocks = blocks_in_order(w.blocks@, w.deepstack@, n);
    assert forall|k: int| 0 <= k < 342 implies #[trigger] blocks[k] == placed[2 + k] && blocks_wants(
        n,
    )[k] == wants[2 + k] by {}
    assert(placed[0].length >= wants[0].1.size());
    assert(placed[1].length >= wants[1].1.size());
    assert(placed[0] == w.patch_w && placed[1] == w.patch_b);
    assert(wants[0] == patch_wants(patch)[0] && wants[1] == patch_wants(patch)[1]);
    assert forall|i: int| 0 <= i < VBLOCKS implies (#[trigger] w.blocks@[i]).fits() by {
        lemma_where_a_block_stands(w, n, i);
        let at = views_before(i);
        let (v, o) = (w.blocks@[i].in_order(), block_wants(block_prefix(i)));
        assert forall|k: int| 0 <= k < 12 implies (#[trigger] v[k]).length >= o[k].1.size() by {
            assert(blocks[at + k] == v[k]);
            assert(blocks_wants(n)[at + k] == o[k]);
            assert(placed[2 + (at + k)].length >= wants[2 + (at + k)].1.size());
        }
        lemma_block_fits(w.blocks@[i], block_prefix(i));
    }
    assert forall|j: int| 0 <= j < 3 implies (#[trigger] w.deepstack@[j]).fits(VMERGE as int) by {
        let i = 8 * (j + 1);
        assert(deepstack_of(i) == Some(j));
        lemma_where_a_block_stands(w, n, i);
        let at = views_before(i);
        let (v, o) = (
            w.deepstack@[j].in_order(),
            merger_wants(deepstack_prefix(j), VMERGE as int),
        );
        assert forall|k: int| 0 <= k < 6 implies (#[trigger] v[k]).length >= o[k].1.size() by {
            let q = k + 12;
            assert(blocks[at + q] == v[q - 12]);
            assert(blocks_wants(n)[at + q] == o[q - 12]);
            assert(placed[2 + (at + q)].length >= wants[2 + (at + q)].1.size());
        }
        lemma_merger_fits(w.deepstack@[j], deepstack_prefix(j), VMERGE as int);
    }
    let (v, o) = (w.merger.in_order(), merger_wants("vis.merger."@, VHID as int));
    assert forall|k: int| 0 <= k < 6 implies (#[trigger] v[k]).length >= o[k].1.size() by {
        assert(placed[344 + k] == v[k]);
        assert(wants[344 + k] == o[k]);
    }
    lemma_merger_fits(w.merger, "vis.merger."@, VHID as int);
}

proof fn lemma_block_fits(w: BlockWeights, p: Seq<char>)
    requires
        forall|k: int|
            0 <= k < 12 ==> (#[trigger] w.in_order()[k]).length >= block_wants(p)[k].1.size(),
    ensures
        w.fits(),
{
    let (v, o) = (w.in_order(), block_wants(p));
    assert(v[0].length >= o[0].1.size() && v[1].length >= o[1].1.size());
    assert(v[2].length >= o[2].1.size() && v[3].length >= o[3].1.size());
    assert(v[4].length >= o[4].1.size() && v[5].length >= o[5].1.size());
    assert(v[6].length >= o[6].1.size() && v[7].length >= o[7].1.size());
    assert(v[8].length >= o[8].1.size() && v[9].length >= o[9].1.size());
    assert(v[10].length >= o[10].1.size() && v[11].length >= o[11].1.size());
}

proof fn lemma_merger_fits(w: MergerWeights, p: Seq<char>, width: int)
    requires
        0 <= width <= VMERGE,
        forall|k: int|
            0 <= k < 6 ==> (#[trigger] w.in_order()[k]).length >= merger_wants(
                p,
                width,
            )[k].1.size(),
    ensures
        w.fits(width),
{
    let (v, o) = (w.in_order(), merger_wants(p, width));
    assert(v[0].length >= o[0].1.size() && v[1].length >= o[1].1.size());
    assert(v[2].length >= o[2].1.size() && v[3].length >= o[3].1.size());
    assert(v[4].length >= o[4].1.size() && v[5].length >= o[5].1.size());
}


// The run.

/// A tower's buffers.
#[derive(Debug)]
pub struct Buffers {
    pub patches: Buffer,
    pub x32: Buffer,
    pub x16: Buffer,
    pub cos: Buffer,
    pub sin: Buffer,
    pub ln: Buffer,
    pub qkv: Buffer,
    pub q16: Buffer,
    pub k16: Buffer,
    pub v16: Buffer,
    pub att16: Buffer,
    pub hid: Buffer,
    pub hid16: Buffer,
    pub ln4: Buffer,
    pub mid: Buffer,
    pub out: Buffer,
    pub lambda: Buffer,
}

impl Buffers {
    /// Whether each is at least as large as it has to be.
    pub open spec fn wf(&self, e: Extents, patch: int) -> bool {
        &&& self.patches.size() >= e.n * patch * 4
        &&& self.x32.size() >= e.n * VHID * 4
        &&& self.x16.size() >= e.n * VHID * 2
        &&& self.cos.size() >= e.n * 36 * 4
        &&& self.sin.size() >= e.n * 36 * 4
        &&& self.ln.size() >= e.n * VHID * 4
        &&& self.qkv.size() >= e.n * VQKV * 4
        &&& self.q16.size() >= e.cap * VPAD * 2
        &&& self.k16.size() >= e.cap * VPAD * 2
        &&& self.v16.size() >= e.cap * VPAD * 2
        &&& self.att16.size() >= e.cap * VPAD * 2
        &&& self.hid.size() >= e.n * VMLP * 4
        &&& self.hid16.size() >= e.n * VMLP * 2
        &&& self.ln4.size() >= e.m * VMERGE * 4
        &&& self.mid.size() >= e.m * VMERGE * 4
        &&& self.out.size() >= e.m * VOUT * 4
        &&& self.lambda.size() >= VMERGE * 4
    }
}

/// Rows of the embedding.
#[derive(Clone, Copy, Debug, PartialEq, Eq, Structural)]
pub enum Rows {
    /// the tower's own
    Merged,
    /// those of a DeepStack merger
    Deepstack(usize),
}

/// One thing a run does.
#[derive(Debug)]
pub enum Op<'a> {
    Launch(Launch<'a>),
    Read { from: BufferRef, rows: Rows },
}

pub enum OpView {
    Launch(LaunchView),
    Read { from: BufferRef, rows: Rows },
}

impl<'a> View for Op<'a> {
    type V = OpView;

    open spec fn view(&self) -> OpView {
        match self {
            Op::Launch(launch) => OpView::Launch(launch@),
            Op::Read { from, rows } => OpView::Read { from: *from, rows: *rows },
        }
    }
}

pub open spec fn ops_of(ops: Seq<Op>) -> Seq<OpView> {
    Seq::new(ops.len(), |i: int| ops[i]@)
}

fn put<'a>(ops: &mut Vec<Op<'a>>, op: Op<'a>)
    ensures
        ops_of(final(ops)@) == ops_of(old(ops)@).push(op@),
{
    let ghost before = ops@;
    ops.push(op);
    assert(ops_of(ops@) =~= ops_of(before).push(op@));
}

/// Whether the bindings of a launch cover what its kernel addresses.
pub open spec fn covered(args: Seq<Arg>) -> bool {
    forall|i: int|
        0 <= i < args.len() ==> 0 <= (#[trigger] args[i]).need <= args[i].view.length
}

/// A launch that nothing stands in the way of.
fn put_launch<'a>(
    ops: &mut Vec<Op<'a>>,
    result: compile::Result<Launch<'a>>,
    launch: Ghost<LaunchView>,
    args: Ghost<Seq<Arg>>,
)
    requires
        covered(args@),
        dispatch::launches(result, launch@, args@),
    ensures
        ops_of(final(ops)@) == ops_of(old(ops)@).push(OpView::Launch(launch@)),
{
    proof {
        dispatch::lemma_covered(args@);
    }
    match result {
        Ok(launch) => put(ops, Op::Launch(launch)),
        Err(_) => {
            assert(false);
        },
    }
}

/// A GEMM's bindings cover what it addresses where each is as long as its shape says.
proof fn lemma_gemm_covered(
    g: Matmul16,
    m: int,
    k: int,
    n: int,
    a: BufferRef,
    w: BufferRef,
    b: BufferRef,
    out: BufferRef,
    lambda: Option<BufferRef>,
)
    requires
        g.k == k && g.n == n,
        m >= 0,
        a.length >= m * k * if g.resid {
            2int
        } else {
            4
        },
        w.length >= n * k * 2,
        b.length >= n * 4,
        out.length >= m * n * if g.resid {
            2int
        } else {
            4
        },
        lambda matches Some(l) ==> l.length >= n * 4,
    ensures
        covered(g.args(m, a, w, b, out, lambda)),
{
    let args = g.args(m, a, w, b, out, lambda);
    let elem = if g.resid {
        2int
    } else {
        4
    };
    assert(0 <= m * k * elem && 0 <= n * k * 2 && 0 <= m * n * elem) by (nonlinear_arith)
        requires
            m >= 0,
            k >= 0,
            n >= 0,
            elem == 2 || elem == 4,
    ;
    assert(args[0] == dispatch::arg(a, m * k * elem));
    assert(args[1] == dispatch::arg(w, n * k * 2));
    assert(args[2] == dispatch::arg(b, n * 4));
    assert(args[3] == dispatch::arg(out, m * n * elem));
}

proof fn lemma_norm_covered(
    g: LayerNorm16,
    rows: int,
    width: int,
    x: BufferRef,
    w: BufferRef,
    b: BufferRef,
    out: BufferRef,
)
    requires
        g.width == width,
        rows >= 0,
        x.length >= rows * width * 2,
        w.length >= width * 4,
        b.length >= width * 4,
        out.length >= rows * width * 4,
    ensures
        covered(g.args(rows, x, w, b, out)),
{
    let args = g.args(rows, x, w, b, out);
    assert(0 <= rows * width) by (nonlinear_arith)
        requires
            rows >= 0,
            width >= 0,
    ;
    assert(args[0] == dispatch::arg(x, rows * width * 2));
    assert(args[3] == dispatch::arg(out, rows * width * 4));
}

/// One image's run.
#[derive(Debug)]
pub struct Tower<'a> {
    pub e: Extents,
    pub patch: usize,
    pub kernels: &'a Kernels,
    pub w: &'a TowerWeights,
    pub b: &'a Buffers,
}

impl<'a> Tower<'a> {
    pub open spec fn wf(&self) -> bool {
        &&& self.e.wf(self.patch as int)
        &&& self.kernels.of(self.e, self.patch as int)
        &&& self.w.wf(self.patch as int)
        &&& self.b.wf(self.e, self.patch as int)
    }

    /// The patch projection.
    pub open spec fn projection(&self) -> LaunchView {
        let g = self.kernels.patch;
        g.launch(
            "vision patch"@,
            self.e.n,
            g.args(
                self.e.n as int,
                self.b.patches.whole(),
                self.w.patch_w,
                self.w.patch_b,
                self.b.x32.whole(),
                None,
            ),
        )
    }

    /// The patches into the stream's width. The position table is resampled and added on the host before the
    /// stream narrows.
    pub fn project(&self) -> (ops: Vec<Op<'a>>)
        requires
            self.wf(),
        ensures
            ops_of(ops@) == seq![OpView::Launch(self.projection())],
    {
        let mut ops: Vec<Op<'a>> = Vec::new();
        let (e, w, b) = (self.e, self.w, self.b);
        let kernels: &'a Kernels = self.kernels;
        proof {
            lemma_gemm_covered(
                kernels.patch,
                e.n as int,
                self.patch as int,
                VHID as int,
                b.patches.whole(),
                w.patch_w,
                w.patch_b,
                b.x32.whole(),
                None,
            );
        }
        put_launch(
            &mut ops,
            kernels.patch.run(
                "vision patch",
                e.n,
                b.patches.binding(),
                w.patch_w,
                w.patch_b,
                b.x32.binding(),
                None,
            ),
            Ghost(self.projection()),
            Ghost(
                kernels.patch.args(
                    e.n as int,
                    b.patches.whole(),
                    w.patch_w,
                    w.patch_b,
                    b.x32.whole(),
                    None,
                ),
            ),
        );
        assert(ops_of(ops@) =~= seq![OpView::Launch(self.projection())]);
        ops
    }

    /// A norm over patch rows, into the rows the GEMMs read.
    pub open spec fn norms(&self, w: BufferRef, b: BufferRef) -> LaunchView {
        let g = self.kernels.norm;
        g.launch(self.e.n, g.args(self.e.n as int, self.b.x16.whole(), w, b, self.b.ln.whole()))
    }

    fn norm(&self, w: BufferRef, b: BufferRef, ops: &mut Vec<Op<'a>>)
        requires
            self.wf(),
            w.length >= VHID * 4,
            b.length >= VHID * 4,
        ensures
            ops_of(final(ops)@) == ops_of(old(ops)@).push(OpView::Launch(self.norms(w, b))),
    {
        let kernels: &'a Kernels = self.kernels;
        let n: usize = self.e.n;
        let (x16, ln) = (self.b.x16.binding(), self.b.ln.binding());
        proof {
            lemma_norm_covered(kernels.norm, n as int, VHID as int, x16, w, b, ln);
        }
        put_launch(
            ops,
            kernels.norm.run(n, x16, w, b, ln),
            Ghost(self.norms(w, b)),
            Ghost(kernels.norm.args(n as int, x16, w, b, ln)),
        );
    }

    /// A GEMM of the tower over rows of the patches.
    pub open spec fn multiplied(
        g: Matmul16,
        stage: Seq<char>,
        m: usize,
        a: BufferRef,
        w: BufferRef,
        b: BufferRef,
        out: BufferRef,
        lambda: Option<BufferRef>,
    ) -> LaunchView {
        g.launch(stage, m, g.args(m as int, a, w, b, out, lambda))
    }

    fn gemm(
        g: &'a Matmul16,
        stage: &'a str,
        m: usize,
        a: BufferRef,
        w: BufferRef,
        b: BufferRef,
        out: BufferRef,
        lambda: Option<BufferRef>,
        ops: &mut Vec<Op<'a>>,
    )
        requires
            g.resid == lambda is Some,
            covered(g.args(m as int, a, w, b, out, lambda)),
        ensures
            ops_of(final(ops)@) == ops_of(old(ops)@).push(
                OpView::Launch(Self::multiplied(*g, stage@, m, a, w, b, out, lambda)),
            ),
    {
        put_launch(
            ops,
            g.run(stage, m, a, w, b, out, lambda),
            Ghost(Self::multiplied(*g, stage@, m, a, w, b, out, lambda)),
            Ghost(g.args(m as int, a, w, b, out, lambda)),
        );
    }

    pub open spec fn rope_args(&self) -> Seq<Arg> {
        let (n, b) = (self.e.n, self.b);
        seq![
            dispatch::arg(b.qkv.whole(), n * VQKV * 4),
            dispatch::arg(b.cos.whole(), n * 36 * 4),
            dispatch::arg(b.sin.whole(), n * 36 * 4),
            dispatch::arg(b.q16.whole(), n * VPAD * 2),
            dispatch::arg(b.k16.whole(), n * VPAD * 2),
            dispatch::arg(b.v16.whole(), n * VPAD * 2),
        ]
    }

    /// The rope: it reads the packed queries, keys and values at their 72-deep heads and writes them out
    /// padded to 128.
    pub open spec fn turns(&self) -> LaunchView {
        LaunchView {
            kernel: self.kernels.rope@,
            stage: "vision rope"@,
            grid: dispatch::plane(self.e.n as u32, VHEADS as u32),
            block: dispatch::line(VHDP as u32),
            scalars: seq![self.e.n as u32],
            bindings: dispatch::views_of(self.rope_args()),
        }
    }

    pub open spec fn attention_args(&self) -> Seq<Arg> {
        let (pad, b) = (self.e.cap * VPAD * 2, self.b);
        seq![
            dispatch::arg(b.q16.whole(), pad),
            dispatch::arg(b.k16.whole(), pad),
            dispatch::arg(b.v16.whole(), pad),
            dispatch::arg(b.att16.whole(), pad),
        ]
    }

    /// The attention, whose kernel was compiled to the capacity: that many rows is what it addresses.
    pub open spec fn attends(&self) -> LaunchView {
        LaunchView {
            kernel: self.kernels.attn@,
            stage: "vision attention"@,
            grid: dispatch::plane(dispatch::steps(self.e.n as int, 64) as u32, VHEADS as u32),
            block: dispatch::line(128),
            scalars: seq![self.e.n as u32],
            bindings: dispatch::views_of(self.attention_args()),
        }
    }

    pub open spec fn cast_args(&self) -> Seq<Arg> {
        let (n, b) = (self.e.n, self.b);
        seq![
            dispatch::arg(b.hid.whole(), n * VMLP * 4),
            dispatch::arg(b.hid16.whole(), n * VMLP * 2),
        ]
    }

    /// The MLP's rows, narrowed for the residual GEMM.
    pub open spec fn narrows(&self) -> LaunchView {
        LaunchView {
            kernel: self.kernels.cast@,
            stage: "vision cast"@,
            grid: dispatch::line(dispatch::steps(self.e.n * VMLP, 256) as u32),
            block: dispatch::line(256),
            scalars: seq![(self.e.n * VMLP) as u32],
            bindings: dispatch::views_of(self.cast_args()),
        }
    }

    fn turn(&self, ops: &mut Vec<Op<'a>>)
        requires
            self.wf(),
        ensures
            ops_of(final(ops)@) == ops_of(old(ops)@).push(OpView::Launch(self.turns())),
    {
        let kernels: &'a Kernels = self.kernels;
        let (n, b) = (self.e.n, self.b);
        let mut args = dispatch::Args::new(b.qkv.binding(), n * VQKV * 4);
        args.push(b.cos.binding(), n * 36 * 4);
        args.push(b.sin.binding(), n * 36 * 4);
        args.push(b.q16.binding(), n * VPAD * 2);
        args.push(b.k16.binding(), n * VPAD * 2);
        args.push(b.v16.binding(), n * VPAD * 2);
        assert(args.all() =~= self.rope_args());
        put_launch(
            ops,
            dispatch::checked(
                &kernels.rope,
                "vision rope",
                Extent { x: n as u32, y: VHEADS as u32, z: 1 },
                Extent { x: VHDP as u32, y: 1, z: 1 },
                n as u32,
                args,
            ),
            Ghost(self.turns()),
            Ghost(self.rope_args()),
        );
    }

    fn attend(&self, ops: &mut Vec<Op<'a>>)
        requires
            self.wf(),
        ensures
            ops_of(final(ops)@) == ops_of(old(ops)@).push(OpView::Launch(self.attends())),
    {
        let kernels: &'a Kernels = self.kernels;
        let (n, b) = (self.e.n, self.b);
        let pad: usize = self.e.cap * VPAD * 2;
        let mut args = dispatch::Args::new(b.q16.binding(), pad);
        args.push(b.k16.binding(), pad);
        args.push(b.v16.binding(), pad);
        args.push(b.att16.binding(), pad);
        assert(args.all() =~= self.attention_args());
        put_launch(
            ops,
            dispatch::checked(
                &kernels.attn,
                "vision attention",
                Extent { x: dispatch::steps_of(n, 64) as u32, y: VHEADS as u32, z: 1 },
                Extent { x: 128, y: 1, z: 1 },
                n as u32,
                args,
            ),
            Ghost(self.attends()),
            Ghost(self.attention_args()),
        );
    }

    fn narrow(&self, ops: &mut Vec<Op<'a>>)
        requires
            self.wf(),
        ensures
            ops_of(final(ops)@) == ops_of(old(ops)@).push(OpView::Launch(self.narrows())),
    {
        let kernels: &'a Kernels = self.kernels;
        let (n, b) = (self.e.n, self.b);
        let mut args = dispatch::Args::new(b.hid.binding(), n * VMLP * 4);
        args.push(b.hid16.binding(), n * VMLP * 2);
        assert(args.all() =~= self.cast_args());
        put_launch(
            ops,
            dispatch::checked(
                &kernels.cast,
                "vision cast",
                Extent { x: dispatch::steps_of(n * VMLP, 256) as u32, y: 1, z: 1 },
                Extent { x: 256, y: 1, z: 1 },
                (n * VMLP) as u32,
                args,
            ),
            Ghost(self.narrows()),
            Ghost(self.cast_args()),
        );
    }

    /// The attention half of a block.
    pub open spec fn attention_half(&self, i: int) -> Seq<OpView> {
        let (n, w, b, k) = (self.e.n, self.w.blocks@[i], self.b, self.kernels);
        seq![
            OpView::Launch(self.norms(w.norm1_w, w.norm1_b)),
            OpView::Launch(
                Self::multiplied(
                    k.qkv,
                    "vision qkv"@,
                    n,
                    b.ln.whole(),
                    w.qkv_w,
                    w.qkv_b,
                    b.qkv.whole(),
                    None,
                ),
            ),
            OpView::Launch(self.turns()),
            OpView::Launch(self.attends()),
            OpView::Launch(
                Self::multiplied(
                    k.proj,
                    "vision proj"@,
                    n,
                    b.att16.whole(),
                    w.proj_w,
                    w.proj_b,
                    b.x16.whole(),
                    Some(b.lambda.whole()),
                ),
            ),
        ]
    }

    /// The MLP half of a block.
    pub open spec fn mlp_half(&self, i: int) -> Seq<OpView> {
        let (n, w, b, k) = (self.e.n, self.w.blocks@[i], self.b, self.kernels);
        seq![
            OpView::Launch(self.norms(w.norm2_w, w.norm2_b)),
            OpView::Launch(
                Self::multiplied(
                    k.fc1,
                    "vision fc1"@,
                    n,
                    b.ln.whole(),
                    w.fc1_w,
                    w.fc1_b,
                    b.hid.whole(),
                    None,
                ),
            ),
            OpView::Launch(self.narrows()),
            OpView::Launch(
                Self::multiplied(
                    k.fc2,
                    "vision fc2"@,
                    n,
                    b.hid16.whole(),
                    w.fc2_w,
                    w.fc2_b,
                    b.x16.whole(),
                    Some(b.lambda.whole()),
                ),
            ),
        ]
    }

    fn run_attention(&self, i: usize, ops: &mut Vec<Op<'a>>)
        requires
            self.wf(),
            i < VBLOCKS,
        ensures
            ops_of(final(ops)@) == ops_of(old(ops)@) + self.attention_half(i as int),
    {
        let ghost before = ops_of(ops@);
        let kernels: &'a Kernels = self.kernels;
        let (n, b) = (self.e.n, self.b);
        let w = self.w.blocks[i];
        assert(self.w.blocks@[i as int].fits());
        self.norm(w.norm1_w, w.norm1_b, ops);
        proof {
            lemma_gemm_covered(
                kernels.qkv,
                n as int,
                VHID as int,
                VQKV as int,
                b.ln.whole(),
                w.qkv_w,
                w.qkv_b,
                b.qkv.whole(),
                None,
            );
            lemma_gemm_covered(
                kernels.proj,
                n as int,
                VPAD as int,
                VHID as int,
                b.att16.whole(),
                w.proj_w,
                w.proj_b,
                b.x16.whole(),
                Some(b.lambda.whole()),
            );
        }
        Self::gemm(
            &kernels.qkv,
            "vision qkv",
            n,
            b.ln.binding(),
            w.qkv_w,
            w.qkv_b,
            b.qkv.binding(),
            None,
            ops,
        );
        self.turn(ops);
        self.attend(ops);
        Self::gemm(
            &kernels.proj,
            "vision proj",
            n,
            b.att16.binding(),
            w.proj_w,
            w.proj_b,
            b.x16.binding(),
            Some(b.lambda.binding()),
            ops,
        );
        assert(ops_of(ops@) =~= before + self.attention_half(i as int));
    }

    fn run_mlp(&self, i: usize, ops: &mut Vec<Op<'a>>)
        requires
            self.wf(),
            i < VBLOCKS,
        ensures
            ops_of(final(ops)@) == ops_of(old(ops)@) + self.mlp_half(i as int),
    {
        let ghost before = ops_of(ops@);
        let kernels: &'a Kernels = self.kernels;
        let (n, b) = (self.e.n, self.b);
        let w = self.w.blocks[i];
        assert(self.w.blocks@[i as int].fits());
        self.norm(w.norm2_w, w.norm2_b, ops);
        proof {
            lemma_gemm_covered(
                kernels.fc1,
                n as int,
                VHID as int,
                VMLP as int,
                b.ln.whole(),
                w.fc1_w,
                w.fc1_b,
                b.hid.whole(),
                None,
            );
            lemma_gemm_covered(
                kernels.fc2,
                n as int,
                VMLP as int,
                VHID as int,
                b.hid16.whole(),
                w.fc2_w,
                w.fc2_b,
                b.x16.whole(),
                Some(b.lambda.whole()),
            );
        }
        Self::gemm(
            &kernels.fc1,
            "vision fc1",
            n,
            b.ln.binding(),
            w.fc1_w,
            w.fc1_b,
            b.hid.binding(),
            None,
            ops,
        );
        self.narrow(ops);
        Self::gemm(
            &kernels.fc2,
            "vision fc2",
            n,
            b.hid16.binding(),
            w.fc2_w,
            w.fc2_b,
            b.x16.binding(),
            Some(b.lambda.binding()),
            ops,
        );
        assert(ops_of(ops@) =~= before + self.mlp_half(i as int));
    }

    /// What a merger does with the rows its norm left in `rows`.
    pub open spec fn merges(
        &self,
        stage: Seq<char>,
        rows: BufferRef,
        w: MergerWeights,
        to: Rows,
    ) -> Seq<OpView> {
        let (m, b, k) = (self.e.m, self.b, self.kernels);
        seq![
            OpView::Launch(
                Self::multiplied(k.merge1, stage, m, rows, w.fc1_w, w.fc1_b, b.mid.whole(), None),
            ),
            OpView::Launch(
                Self::multiplied(
                    k.merge2,
                    stage,
                    m,
                    b.mid.whole(),
                    w.fc2_w,
                    w.fc2_b,
                    b.out.whole(),
                    None,
                ),
            ),
            OpView::Read { from: b.out.part(0, (m * VOUT * 4) as usize), rows: to },
        ]
    }

    fn merge(
        &self,
        stage: &'a str,
        rows: BufferRef,
        w: MergerWeights,
        width: Ghost<int>,
        to: Rows,
        ops: &mut Vec<Op<'a>>,
    )
        requires
            self.wf(),
            w.fits(width@),
            rows.length >= self.e.m * VMERGE * 4,
        ensures
            ops_of(final(ops)@) == ops_of(old(ops)@) + self.merges(stage@, rows, w, to),
    {
        let ghost before = ops_of(ops@);
        let kernels: &'a Kernels = self.kernels;
        let (m, b) = (self.e.m, self.b);
        proof {
            lemma_gemm_covered(
                kernels.merge1,
                m as int,
                VMERGE as int,
                VMERGE as int,
                rows,
                w.fc1_w,
                w.fc1_b,
                b.mid.whole(),
                None,
            );
            lemma_gemm_covered(
                kernels.merge2,
                m as int,
                VMERGE as int,
                VOUT as int,
                b.mid.whole(),
                w.fc2_w,
                w.fc2_b,
                b.out.whole(),
                None,
            );
        }
        Self::gemm(
            &kernels.merge1,
            stage,
            m,
            rows,
            w.fc1_w,
            w.fc1_b,
            b.mid.binding(),
            None,
            ops,
        );
        Self::gemm(
            &kernels.merge2,
            stage,
            m,
            b.mid.binding(),
            w.fc2_w,
            w.fc2_b,
            b.out.binding(),
            None,
            ops,
        );
        put(ops, Op::Read { from: b.out.slice(0, m * VOUT * 4), rows: to });
        assert(ops_of(ops@) =~= before + self.merges(stage@, rows, w, to));
    }

    /// A DeepStack merger: it reads the stream after its block, viewing four patch rows as one merged row,
    /// and normalises the merged row itself.
    pub open spec fn deepstack_ops(&self, j: int) -> Seq<OpView> {
        let (m, w, b, g) = (self.e.m, self.w.deepstack@[j], self.b, self.kernels.norm4);
        seq![
            OpView::Launch(
                g.launch(
                    m,
                    g.args(m as int, b.x16.whole(), w.norm_w, w.norm_b, b.ln4.whole()),
                ),
            ),
        ] + self.merges("vision deepstack"@, b.ln4.whole(), w, Rows::Deepstack(j as usize))
    }

    fn tap(&self, j: usize, ops: &mut Vec<Op<'a>>)
        requires
            self.wf(),
            j < 3,
        ensures
            ops_of(final(ops)@) == ops_of(old(ops)@) + self.deepstack_ops(j as int),
    {
        let ghost before = ops_of(ops@);
        let kernels: &'a Kernels = self.kernels;
        let (m, b) = (self.e.m, self.b);
        let w = self.w.deepstack[j];
        proof {
            assert(self.w.deepstack@[j as int].fits(VMERGE as int));
            self.lemma_whole_blocks();
            lemma_norm_covered(
                kernels.norm4,
                m as int,
                VMERGE as int,
                b.x16.whole(),
                w.norm_w,
                w.norm_b,
                b.ln4.whole(),
            );
        }
        put_launch(
            ops,
            kernels.norm4.run(m, b.x16.binding(), w.norm_w, w.norm_b, b.ln4.binding()),
            Ghost(
                kernels.norm4.launch(
                    m,
                    kernels.norm4.args(
                        m as int,
                        b.x16.whole(),
                        w.norm_w,
                        w.norm_b,
                        b.ln4.whole(),
                    ),
                ),
            ),
            Ghost(
                kernels.norm4.args(m as int, b.x16.whole(), w.norm_w, w.norm_b, b.ln4.whole()),
            ),
        );
        self.merge(
            "vision deepstack",
            b.ln4.binding(),
            w,
            Ghost(VMERGE as int),
            Rows::Deepstack(j),
            ops,
        );
        assert(ops_of(ops@) =~= before + self.deepstack_ops(j as int));
    }

    proof fn lemma_whole_blocks(&self)
        requires
            self.wf(),
        ensures
            4 * self.e.m == self.e.n,
    {
        let (a, b) = (self.e.gh as int / 2, self.e.gw as int / 2);
        assert(self.e.n == 4 * (a * b)) by (nonlinear_arith)
            requires
                self.e.n == self.e.gh * self.e.gw,
                self.e.gh == 2 * a,
                self.e.gw == 2 * b,
        ;
    }

    /// The final merger, which normalises each patch row and only after that lets the GEMM read four of them
    /// as one. The DeepStack mergers normalise the merged row itself: the statistics are over different sets
    /// of numbers.
    pub open spec fn merger_ops(&self) -> Seq<OpView> {
        let w = self.w.merger;
        seq![OpView::Launch(self.norms(w.norm_w, w.norm_b))] + self.merges(
            "vision merger"@,
            self.b.ln.whole(),
            w,
            Rows::Merged,
        )
    }

    /// The first `n` blocks, and the mergers that tap the stream after them.
    pub open spec fn blocks_ops(&self, n: int) -> Seq<OpView>
        decreases n,
    {
        if n <= 0 {
            Seq::empty()
        } else {
            self.blocks_ops(n - 1) + self.attention_half(n - 1) + self.mlp_half(n - 1)
                + match deepstack_of(n - 1) {
                Some(j) => self.deepstack_ops(j),
                None => Seq::empty(),
            }
        }
    }

    /// The tower over an image whose stream is on the device: the blocks with the mergers that tap them, and
    /// the final merger.
    pub fn embed(&self) -> (ops: Vec<Op<'a>>)
        requires
            self.wf(),
        ensures
            ops_of(ops@) == self.blocks_ops(VBLOCKS as int) + self.merger_ops(),
    {
        let mut ops: Vec<Op<'a>> = Vec::new();
        let mut i: usize = 0;
        assert(ops_of(ops@) =~= self.blocks_ops(0));
        while i < VBLOCKS
            invariant
                i <= VBLOCKS,
                self.wf(),
                ops_of(ops@) == self.blocks_ops(i as int),
            decreases VBLOCKS - i,
        {
            self.run_attention(i, &mut ops);
            self.run_mlp(i, &mut ops);
            if let Some(j) = deepstack_at(i) {
                self.tap(j, &mut ops);
            }
            assert(ops_of(ops@) =~= self.blocks_ops(i + 1));
            i += 1;
        }
        let ghost before = ops_of(ops@);
        let w = self.w.merger;
        self.norm(w.norm_w, w.norm_b, &mut ops);
        proof {
            self.lemma_whole_blocks();
        }
        self.merge(
            "vision merger",
            self.b.ln.binding(),
            w,
            Ghost(VHID as int),
            Rows::Merged,
            &mut ops,
        );
        assert(ops_of(ops@) =~= before + self.merger_ops());
        ops
    }
}


// The positions.

pub open spec fn split_of<W, S: Fn(usize, usize, usize) -> (usize, W)>(
    split: S,
    k: usize,
    last: usize,
    span: usize,
) -> (usize, W) {
    choose|r: (usize, W)| call_ensures(split, (k, last, span), r)
}

/// How a coordinate falls on the position table: the cell it lies in, and how far into it. A lone row or
/// column reads the table's first.
pub open spec fn lands<W, S: Fn(usize, usize, usize) -> (usize, W)>(split: S, k: int, extent: int) -> (
    usize,
    W,
) {
    let last = (VPOS_GRID - 1) as usize;
    if extent == 1 {
        split_of(split, 0, last, 1)
    } else {
        split_of(split, k as usize, last, (extent - 1) as usize)
    }
}

/// The next cell, or the last.
pub open spec fn next_cell(cell: int) -> int {
    if cell + 1 < VPOS_GRID {
        cell + 1
    } else {
        VPOS_GRID - 1
    }
}

/// Column `c` of the table's row for a cell.
pub open spec fn table_at<T>(pos: Seq<T>, r: int, col: int, c: int) -> T {
    pos[(r * VPOS_GRID + col) * VHID + c]
}

/// The four rows of the table around a coordinate, at column `c`.
pub open spec fn corners<T>(pos: Seq<T>, h: int, w: int, c: int) -> (T, T, T, T) {
    (
        table_at(pos, h, w, c),
        table_at(pos, h, next_cell(w), c),
        table_at(pos, next_cell(h), w, c),
        table_at(pos, next_cell(h), next_cell(w), c),
    )
}

pub open spec fn blended<T, W, B: Fn(T, (T, T, T, T), W, W) -> T>(
    blend: B,
    v: T,
    corners: (T, T, T, T),
    dh: W,
    dw: W,
) -> T {
    choose|r: T| call_ensures(blend, (v, corners, dh, dw), r)
}

/// A stream after its first `n` patches were given their positions.
pub open spec fn positioned<
    T,
    W,
    S: Fn(usize, usize, usize) -> (usize, W),
    B: Fn(T, (T, T, T, T), W, W) -> T,
>(x: Seq<T>, pos: Seq<T>, gh: int, gw: int, split: S, blend: B, n: int) -> Seq<T>
    decreases n,
{
    if n <= 0 {
        x
    } else {
        let before = positioned(x, pos, gh, gw, split, blend, n - 1);
        let (hy, wx) = ((n - 1) / gw, (n - 1) % gw);
        let row = rope::merged_row(hy, wx, gw);
        let (h, w) = (lands(split, hy, gh), lands(split, wx, gw));
        Seq::new(
            x.len(),
            |d: int|
                if d / VHID as int == row {
                    blended(
                        blend,
                        before[d],
                        corners(pos, h.0 as int, w.0 as int, d % VHID as int),
                        h.1,
                        w.1,
                    )
                } else {
                    before[d]
                },
        )
    }
}

/// Whether a split of a coordinate and a blend of the table's rows are functions.
pub open spec fn interpolates<
    T,
    W,
    S: Fn(usize, usize, usize) -> (usize, W),
    B: Fn(T, (T, T, T, T), W, W) -> T,
>(split: S, blend: B) -> bool {
    &&& forall|k: usize, last: usize, span: usize|
        span >= 1 && k <= span ==> #[trigger] call_requires(split, (k, last, span))
    &&& forall|k: usize, last: usize, span: usize, r: (usize, W)| #[trigger]
        call_ensures(split, (k, last, span), r) && k <= span ==> r.0 <= last
    &&& forall|k: usize, last: usize, span: usize, r: (usize, W), s: (usize, W)| #[trigger]
        call_ensures(split, (k, last, span), r) && #[trigger] call_ensures(
            split,
            (k, last, span),
            s,
        ) ==> r == s
    &&& forall|v: T, c: (T, T, T, T), dh: W, dw: W| #[trigger]
        call_requires(blend, (v, c, dh, dw))
    &&& forall|v: T, c: (T, T, T, T), dh: W, dw: W, r: T, s: T| #[trigger]
        call_ensures(blend, (v, c, dh, dw), r) && #[trigger] call_ensures(
            blend,
            (v, c, dh, dw),
            s,
        ) ==> r == s
}

fn land<W, S: Fn(usize, usize, usize) -> (usize, W)>(split: &S, k: usize, extent: usize) -> (r: (
    usize,
    W,
))
    requires
        k < extent,
        forall|k: usize, last: usize, span: usize|
            span >= 1 && k <= span ==> #[trigger] call_requires(*split, (k, last, span)),
        forall|k: usize, last: usize, span: usize, r: (usize, W)| #[trigger]
            call_ensures(*split, (k, last, span), r) && k <= span ==> r.0 <= last,
        forall|k: usize, last: usize, span: usize, r: (usize, W), s: (usize, W)| #[trigger]
            call_ensures(*split, (k, last, span), r) && #[trigger] call_ensures(
                *split,
                (k, last, span),
                s,
            ) ==> r == s,
    ensures
        r == lands(*split, k as int, extent as int),
        r.0 < VPOS_GRID,
{
    if extent == 1 {
        split(0, VPOS_GRID - 1, 1)
    } else {
        split(k, VPOS_GRID - 1, extent - 1)
    }
}

fn next_of(cell: usize) -> (next: usize)
    requires
        cell < VPOS_GRID,
    ensures
        next == next_cell(cell as int),
{
    if cell + 1 < VPOS_GRID {
        cell + 1
    } else {
        VPOS_GRID - 1
    }
}

fn add_patch<T: Copy, W: Copy, B: Fn(T, (T, T, T, T), W, W) -> T>(
    x: &mut [T],
    pos: &[T],
    row: usize,
    h: (usize, W),
    w: (usize, W),
    blend: &B,
)
    requires
        (row + 1) * VHID <= old(x)@.len(),
        pos@.len() >= VPOS_GRID * VPOS_GRID * VHID,
        h.0 < VPOS_GRID && w.0 < VPOS_GRID,
        forall|v: T, c: (T, T, T, T), dh: W, dw: W| #[trigger]
            call_requires(*blend, (v, c, dh, dw)),
        forall|v: T, c: (T, T, T, T), dh: W, dw: W, r: T, s: T| #[trigger]
            call_ensures(*blend, (v, c, dh, dw), r) && #[trigger] call_ensures(
                *blend,
                (v, c, dh, dw),
                s,
            ) ==> r == s,
    ensures
        final(x)@.len() == old(x)@.len(),
        forall|d: int|
            0 <= d < old(x)@.len() ==> #[trigger] final(x)@[d] == if d / VHID as int == row {
                blended(
                    *blend,
                    old(x)@[d],
                    corners(pos@, h.0 as int, w.0 as int, d % VHID as int),
                    h.1,
                    w.1,
                )
            } else {
                old(x)@[d]
            },
{
    let ghost x0 = x@;
    assert(pos@.len() == pos.len());
    let (h1, w1): (usize, usize) = (next_of(h.0), next_of(w.0));
    let r00: usize = (h.0 * VPOS_GRID + w.0) * VHID;
    let r01: usize = (h.0 * VPOS_GRID + w1) * VHID;
    let r10: usize = (h1 * VPOS_GRID + w.0) * VHID;
    let r11: usize = (h1 * VPOS_GRID + w1) * VHID;
    assert(x@.len() == x.len());
    let base: usize = row * VHID;
    let mut c: usize = 0;
    while c < VHID
        invariant
            c <= VHID,
            base == row * VHID,
            base + VHID <= x0.len(),
            x@.len() == x0.len(),
            pos@.len() >= VPOS_GRID * VPOS_GRID * VHID,
            h.0 < VPOS_GRID && w.0 < VPOS_GRID,
            h1 == next_cell(h.0 as int) && w1 == next_cell(w.0 as int),
            r00 == (h.0 * VPOS_GRID + w.0) * VHID,
            r01 == (h.0 * VPOS_GRID + w1) * VHID,
            r10 == (h1 * VPOS_GRID + w.0) * VHID,
            r11 == (h1 * VPOS_GRID + w1) * VHID,
            forall|v: T, c: (T, T, T, T), dh: W, dw: W| #[trigger]
                call_requires(*blend, (v, c, dh, dw)),
            forall|v: T, c: (T, T, T, T), dh: W, dw: W, r: T, s: T| #[trigger]
                call_ensures(*blend, (v, c, dh, dw), r) && #[trigger] call_ensures(
                    *blend,
                    (v, c, dh, dw),
                    s,
                ) ==> r == s,
            forall|d: int|
                0 <= d < x0.len() ==> #[trigger] x@[d] == if base <= d < base + c {
                    blended(
                        *blend,
                        x0[d],
                        corners(pos@, h.0 as int, w.0 as int, d - base),
                        h.1,
                        w.1,
                    )
                } else {
                    x0[d]
                },
        decreases VHID - c,
    {
        let around = (pos[r00 + c], pos[r01 + c], pos[r10 + c], pos[r11 + c]);
        let v = blend(x[base + c], around, h.1, w.1);
        assert(around == corners(pos@, h.0 as int, w.0 as int, c as int));
        x[base + c] = v;
        c += 1;
    }
    assert forall|d: int| 0 <= d < x0.len() implies #[trigger] x@[d] == if d / VHID as int == row {
        blended(
            *blend,
            x0[d],
            corners(pos@, h.0 as int, w.0 as int, d % VHID as int),
            h.1,
            w.1,
        )
    } else {
        x0[d]
    } by {
        if d / VHID as int == row {
            assert(d % VHID as int == d - base);
        }
    }
}

/// The bilinear resample of the learned 48x48 position table onto a `gh` by `gw` grid, added to the patch
/// embedding in place.
///
/// `split` is how a coordinate falls on the table: of `k` steps out of `span`, stretched over `last` cells,
/// the cell it lies in and how far into it. A single row or column maps to the table's first rather than
/// dividing by it. `blend` adds the four rows around the coordinate to what is there. The row a patch lands on
/// is the merge order, the same permutation the patches themselves took.
pub fn add_positions<
    T: Copy,
    W: Copy,
    S: Fn(usize, usize, usize) -> (usize, W),
    B: Fn(T, (T, T, T, T), W, W) -> T,
>(x: &mut [T], pos: &[T], gh: usize, gw: usize, split: S, blend: B)
    requires
        interpolates(split, blend),
        pos@.len() >= VPOS_GRID * VPOS_GRID * VHID,
        forall|g: int|
            0 <= g < gh * gw ==> (#[trigger] rope::merged_row(
                g / gw as int,
                g % gw as int,
                gw as int,
            ) + 1) * VHID <= old(x)@.len(),
    ensures
        final(x)@ == positioned(
            old(x)@,
            pos@,
            gh as int,
            gw as int,
            split,
            blend,
            gh * gw,
        ),
{
    let ghost x0 = x@;
    let ghost (ghi, gwi) = (gh as int, gw as int);
    assert(x@.len() == x.len());
    let mut hy: usize = 0;
    assert(0 * gwi == 0) by (nonlinear_arith);
    while hy < gh
        invariant
            hy <= gh,
            ghi == gh && gwi == gw,
            x@.len() == x0.len() <= usize::MAX,
            interpolates(split, blend),
            pos@.len() >= VPOS_GRID * VPOS_GRID * VHID,
            forall|g: int|
                0 <= g < gh * gw ==> (#[trigger] rope::merged_row(g / gwi, g % gwi, gwi) + 1) * VHID
                    <= x0.len(),
            x@ == positioned(x0, pos@, ghi, gwi, split, blend, hy * gwi),
        decreases gh - hy,
    {
        let mut wx: usize = 0;
        while wx < gw
            invariant
                hy < gh,
                wx <= gw,
                ghi == gh && gwi == gw,
                x@.len() == x0.len() <= usize::MAX,
                interpolates(split, blend),
                pos@.len() >= VPOS_GRID * VPOS_GRID * VHID,
                forall|g: int|
                    0 <= g < gh * gw ==> (#[trigger] rope::merged_row(g / gwi, g % gwi, gwi) + 1)
                        * VHID <= x0.len(),
                x@ == positioned(x0, pos@, ghi, gwi, split, blend, hy * gwi + wx),
            decreases gw - wx,
        {
            let ghost g: int = hy * gwi + wx;
            proof {
                radix::lemma_flat2(hy as int, wx as int, ghi, gwi);
                assert(g < gh * gw);
                assert(rope::merged_row(g / gwi, g % gwi, gwi) + 1 <= x0.len());
                rope::lemma_merged_row_counts(hy as int, wx as int, gwi);
            }
            let row: usize = rope::merge_row(hy, wx, gw);
            let ghost x1 = x@;
            let h = land(&split, hy, gh);
            let w = land(&split, wx, gw);
            add_patch(x, pos, row, h, w, &blend);
            proof {
                assert(g + 1 - 1 == g);
                assert(x@ =~= positioned(x0, pos@, ghi, gwi, split, blend, g + 1));
            }
            wx += 1;
        }
        assert((hy + 1) * gwi == hy * gwi + gwi) by (nonlinear_arith);
        hy += 1;
    }
}

proof fn lemma_positioned_once<
    T,
    W,
    S: Fn(usize, usize, usize) -> (usize, W),
    B: Fn(T, (T, T, T, T), W, W) -> T,
>(x: Seq<T>, pos: Seq<T>, gh: int, gw: int, split: S, blend: B, n: int, d: int)
    requires
        gh % 2 == 0 && gw % 2 == 0,
        gh > 0 && gw > 0,
        0 <= n <= gh * gw,
        0 <= d < x.len(),
        d / (VHID as int) < gh * gw,
    ensures
        ({
            let g = rope::merged_from(d / VHID as int, gw);
            let (h, w) = (lands(split, g / gw, gh), lands(split, g % gw, gw));
            positioned(x, pos, gh, gw, split, blend, n)[d] == if g < n {
                blended(
                    blend,
                    x[d],
                    corners(pos, h.0 as int, w.0 as int, d % VHID as int),
                    h.1,
                    w.1,
                )
            } else {
                x[d]
            }
        }),
        positioned(x, pos, gh, gw, split, blend, n).len() == x.len(),
    decreases n,
{
    let r = d / VHID as int;
    rope::law_merging_permutes_the_patches(r, gh, gw);
    if n > 0 {
        lemma_positioned_once(x, pos, gh, gw, split, blend, n - 1, d);
        rope::law_merging_permutes_the_patches(n - 1, gh, gw);
    }
}

/// On a grid of whole 2x2 blocks every patch row is given exactly one position: that of the patch that was
/// merged into it.
pub proof fn law_every_patch_gets_one_position<
    T,
    W,
    S: Fn(usize, usize, usize) -> (usize, W),
    B: Fn(T, (T, T, T, T), W, W) -> T,
>(x: Seq<T>, pos: Seq<T>, gh: int, gw: int, split: S, blend: B, d: int)
    requires
        gh % 2 == 0 && gw % 2 == 0,
        gh > 0 && gw > 0,
        0 <= d < x.len(),
        d / (VHID as int) < gh * gw,
    ensures
        ({
            let g = rope::merged_from(d / VHID as int, gw);
            let (h, w) = (lands(split, g / gw, gh), lands(split, g % gw, gw));
            &&& 0 <= g < gh * gw
            &&& rope::merged_row(g / gw, g % gw, gw) == d / VHID as int
            &&& positioned(x, pos, gh, gw, split, blend, gh * gw)[d] == blended(
                blend,
                x[d],
                corners(pos, h.0 as int, w.0 as int, d % VHID as int),
                h.1,
                w.1,
            )
        }),
{
    assert(gh * gw >= 0) by (nonlinear_arith)
        requires
            gh > 0,
            gw > 0,
    ;
    rope::law_merging_permutes_the_patches(d / VHID as int, gh, gw);
    lemma_positioned_once(x, pos, gh, gw, split, blend, gh * gw, d);
}

/// Two patches down and across from a corner, and column `c` of the stream: a patch is given the blend of the four rows
/// of the 48x48 table round where it falls, by how far down and how far across it falls past the first of them. The row
/// it stands on is that of its place in its block of four.
pub proof fn law_a_patch_is_given_its_own_position<
    T,
    W,
    S: Fn(usize, usize, usize) -> (usize, W),
    B: Fn(T, (T, T, T, T), W, W) -> T,
>(
    x: Seq<T>,
    pos: Seq<T>,
    hh: int,
    ww: int,
    split: S,
    blend: B,
    v: int,
    u: int,
    dy: int,
    dx: int,
    c: int,
    down: (usize, W),
    across: (usize, W),
    given: T,
)
    requires
        interpolates(split, blend),
        0 <= v < hh,
        0 <= u < ww,
        0 <= dy < 2,
        0 <= dx < 2,
        0 <= c < 1152,
        2 * hh <= usize::MAX,
        2 * ww <= usize::MAX,
        x.len() >= 4 * (hh * ww) * 1152,
        call_ensures(split, ((2 * v + dy) as usize, 47, (2 * hh - 1) as usize), down),
        call_ensures(split, ((2 * u + dx) as usize, 47, (2 * ww - 1) as usize), across),
        ({
            let (h, w) = (down.0 as int, across.0 as int);
            let (below, beside) = (
                if h == 47 {
                    47
                } else {
                    h + 1
                },
                if w == 47 {
                    47
                } else {
                    w + 1
                },
            );
            call_ensures(
                blend,
                (
                    x[(4 * (v * ww + u) + 2 * dy + dx) * 1152 + c],
                    (
                        pos[(h * 48 + w) * 1152 + c],
                        pos[(h * 48 + beside) * 1152 + c],
                        pos[(below * 48 + w) * 1152 + c],
                        pos[(below * 48 + beside) * 1152 + c],
                    ),
                    down.1,
                    across.1,
                ),
                given,
            )
        }),
    ensures
        positioned(x, pos, 2 * hh, 2 * ww, split, blend, (2 * hh) * (2 * ww))[(4 * (v * ww + u) + 2 * dy + dx) * 1152
            + c] == given,
{
    let (gh, gw) = (2 * hh, 2 * ww);
    let (hy, wx) = (2 * v + dy, 2 * u + dx);
    let row = 4 * (v * ww + u) + 2 * dy + dx;
    let d = row * 1152 + c;
    radix::lemma_flat2(v, u, hh, ww);
    assert(gh * gw == 4 * (hh * ww)) by (nonlinear_arith)
        requires
            gh == 2 * hh,
            gw == 2 * ww,
    ;
    assert(0 <= row < gh * gw);
    assert(d / 1152 == row && d % 1152 == c);
    assert(0 <= d < x.len());
    rope::law_four_neighbours_are_merged_together(v, u, dy, dx, hh, ww);
    radix::lemma_flat2(hy, wx, gh, gw);
    law_every_patch_gets_one_position(x, pos, gh, gw, split, blend, d);
    assert(lands(split, hy, gh) == down);
    assert(lands(split, wx, gw) == across);
    assert(down.0 <= 47 && across.0 <= 47);
}

/// A block's launches read and write what they should: the first norm reads the stream and the queries, keys and values
/// are made of what it gives; those are turned, attended, and what comes of it is added to the stream. Then the second
/// norm reads the stream again; the MLP widens what it gives, and what is narrowed of that is added to the stream.
pub proof fn law_a_vision_block_uses_its_own_weights(tower: &Tower, i: int)
    requires
        tower.wf(),
        0 <= i < 27,
    ensures
        ({
            let (b, k, w) = (tower.b, tower.kernels, tower.w.blocks@[i]);
            let ops = tower.attention_half(i) + tower.mlp_half(i);
            let patches = seq![tower.e.n as u32];
            let (stream, normed, lambda) = (b.x16.whole(), b.ln.whole(), b.lambda.whole());
            let (q, key, value, attended) = (b.q16.whole(), b.k16.whole(), b.v16.whole(), b.att16.whole());
            &&& ops.len() == 9
            &&& does(ops[0], k.norm.kernel@, patches, seq![stream, w.norm1_w, w.norm1_b, normed])
            &&& does(ops[1], k.qkv.kernel@, patches, seq![normed, w.qkv_w, w.qkv_b, b.qkv.whole()])
            &&& does(
                ops[2],
                k.rope@,
                patches,
                seq![b.qkv.whole(), b.cos.whole(), b.sin.whole(), q, key, value],
            )
            &&& does(ops[3], k.attn@, patches, seq![q, key, value, attended])
            &&& does(ops[4], k.proj.kernel@, patches, seq![attended, w.proj_w, w.proj_b, stream, lambda])
            &&& does(ops[5], k.norm.kernel@, patches, seq![stream, w.norm2_w, w.norm2_b, normed])
            &&& does(ops[6], k.fc1.kernel@, patches, seq![normed, w.fc1_w, w.fc1_b, b.hid.whole()])
            &&& does(ops[7], k.cast@, seq![(tower.e.n * 4352) as u32], seq![b.hid.whole(), b.hid16.whole()])
            &&& does(ops[8], k.fc2.kernel@, patches, seq![b.hid16.whole(), w.fc2_w, w.fc2_b, stream, lambda])
        }),
{
    let (b, k, w) = (tower.b, tower.kernels, tower.w.blocks@[i]);
    let n = tower.e.n;
    let ops = tower.attention_half(i) + tower.mlp_half(i);
    let (stream, normed, lambda) = (b.x16.whole(), b.ln.whole(), b.lambda.whole());
    lemma_norm_launch(k.norm, n, stream, w.norm1_w, w.norm1_b, normed);
    lemma_norm_launch(k.norm, n, stream, w.norm2_w, w.norm2_b, normed);
    lemma_matmul_launch(k.qkv, "vision qkv"@, n, normed, w.qkv_w, w.qkv_b, b.qkv.whole(), None);
    lemma_matmul_launch(k.proj, "vision proj"@, n, b.att16.whole(), w.proj_w, w.proj_b, stream, Some(lambda));
    lemma_matmul_launch(k.fc1, "vision fc1"@, n, normed, w.fc1_w, w.fc1_b, b.hid.whole(), None);
    lemma_matmul_launch(k.fc2, "vision fc2"@, n, b.hid16.whole(), w.fc2_w, w.fc2_b, stream, Some(lambda));
    assert(tower.turns().bindings =~= seq![
        b.qkv.whole(),
        b.cos.whole(),
        b.sin.whole(),
        b.q16.whole(),
        b.k16.whole(),
        b.v16.whole(),
    ]);
    assert(tower.attends().bindings =~= seq![b.q16.whole(), b.k16.whole(), b.v16.whole(), b.att16.whole()]);
    assert(tower.narrows().bindings =~= seq![b.hid.whole(), b.hid16.whole()]);
    let (first, second) = (tower.attention_half(i), tower.mlp_half(i));
    assert(ops[0] == first[0] && ops[1] == first[1] && ops[2] == first[2] && ops[3] == first[3] && ops[4] == first[4]);
    assert(ops[5] == second[0] && ops[6] == second[1] && ops[7] == second[2] && ops[8] == second[3]);
}

/// Whether an op is this launch: a kernel over so many rows, on these buffers.
pub open spec fn does(op: OpView, kernel: SpecializationView, scalars: Seq<u32>, bindings: Seq<BufferRef>) -> bool {
    op matches OpView::Launch(l) && l.kernel == kernel && l.scalars == scalars && l.bindings == bindings
}

proof fn lemma_norm_launch(g: LayerNorm16, rows: usize, x: BufferRef, w: BufferRef, b: BufferRef, out: BufferRef)
    ensures
        ({
            let launch = g.launch(rows, g.args(rows as int, x, w, b, out));
            &&& launch.kernel == g.kernel@
            &&& launch.scalars == seq![rows as u32]
            &&& launch.bindings == seq![x, w, b, out]
        }),
{
    assert(g.launch(rows, g.args(rows as int, x, w, b, out)).bindings =~= seq![x, w, b, out]);
}

proof fn lemma_matmul_launch(
    g: Matmul16,
    stage: Seq<char>,
    m: usize,
    a: BufferRef,
    w: BufferRef,
    b: BufferRef,
    out: BufferRef,
    lambda: Option<BufferRef>,
)
    ensures
        ({
            let launch = g.launch(stage, m, g.args(m as int, a, w, b, out, lambda));
            &&& launch.kernel == g.kernel@
            &&& launch.scalars == seq![m as u32]
            &&& launch.bindings == match lambda {
                Some(l) => seq![a, w, b, out, l],
                None => seq![a, w, b, out],
            }
        }),
{
    assert(g.launch(stage, m, g.args(m as int, a, w, b, out, lambda)).bindings =~= match lambda {
        Some(l) => seq![a, w, b, out, l],
        None => seq![a, w, b, out],
    });
}

/// A merger's two GEMMs run one behind the other over merged rows and what the second gives is read back. Each of the
/// three that tap the stream norms merged rows of it with its own weights and is told apart by its number; the last norms
/// patch rows with its own.
pub proof fn law_a_merger_uses_its_own_weights(tower: &Tower, j: int)
    requires
        tower.wf(),
        0 <= j < 3,
    ensures
        ({
            let (b, k) = (tower.b, tower.kernels);
            let (w, last) = (tower.w.deepstack@[j], tower.w.merger);
            let (tap, end) = (tower.deepstack_ops(j), tower.merger_ops());
            let (merged, patches) = (seq![tower.e.m as u32], seq![tower.e.n as u32]);
            let (stream, wide, normed, mid, out) = (
                b.x16.whole(),
                b.ln4.whole(),
                b.ln.whole(),
                b.mid.whole(),
                b.out.whole(),
            );
            &&& tap.len() == 4
            &&& does(tap[0], k.norm4.kernel@, merged, seq![stream, w.norm_w, w.norm_b, wide])
            &&& does(tap[1], k.merge1.kernel@, merged, seq![wide, w.fc1_w, w.fc1_b, mid])
            &&& does(tap[2], k.merge2.kernel@, merged, seq![mid, w.fc2_w, w.fc2_b, out])
            &&& tap[3] matches OpView::Read { from, rows } && from.buffer == out.buffer && from.offset == 0
                && from.length == tower.e.m * 20480 && rows == Rows::Deepstack(j as usize)
            &&& end.len() == 4
            &&& does(end[0], k.norm.kernel@, patches, seq![stream, last.norm_w, last.norm_b, normed])
            &&& does(end[1], k.merge1.kernel@, merged, seq![normed, last.fc1_w, last.fc1_b, mid])
            &&& does(end[2], k.merge2.kernel@, merged, seq![mid, last.fc2_w, last.fc2_b, out])
            &&& end[3] matches OpView::Read { from, rows } && from.buffer == out.buffer && from.offset == 0
                && from.length == tower.e.m * 20480 && rows == Rows::Merged
        }),
{
    let (b, k) = (tower.b, tower.kernels);
    let (w, last) = (tower.w.deepstack@[j], tower.w.merger);
    let (m, n) = (tower.e.m, tower.e.n);
    let (wide, normed, mid, out) = (b.ln4.whole(), b.ln.whole(), b.mid.whole(), b.out.whole());
    lemma_norm_launch(k.norm4, m, b.x16.whole(), w.norm_w, w.norm_b, wide);
    lemma_norm_launch(k.norm, n, b.x16.whole(), last.norm_w, last.norm_b, normed);
    lemma_matmul_launch(k.merge1, "vision deepstack"@, m, wide, w.fc1_w, w.fc1_b, mid, None);
    lemma_matmul_launch(k.merge2, "vision deepstack"@, m, mid, w.fc2_w, w.fc2_b, out, None);
    lemma_matmul_launch(k.merge1, "vision merger"@, m, normed, last.fc1_w, last.fc1_b, mid, None);
    lemma_matmul_launch(k.merge2, "vision merger"@, m, mid, last.fc2_w, last.fc2_b, out, None);
    let first = tower.merges("vision deepstack"@, wide, w, Rows::Deepstack(j as usize));
    let second = tower.merges("vision merger"@, normed, last, Rows::Merged);
    assert(tower.deepstack_ops(j)[1] == first[0] && tower.deepstack_ops(j)[2] == first[1] && tower.deepstack_ops(j)[3]
        == first[2]);
    assert(tower.merger_ops()[1] == second[0] && tower.merger_ops()[2] == second[1] && tower.merger_ops()[3]
        == second[2]);
    assert(m * VOUT * 4 <= usize::MAX) by {
        assert(tower.e.n * VMLP * 4 <= usize::MAX && 4 * m <= n);
    }
}

/// How many of the mergers have tapped the stream before a block.
pub open spec fn taps_before(i: int) -> int {
    (if i > 8 {
        1int
    } else {
        0
    }) + (if i > 16 {
        1int
    } else {
        0
    }) + (if i > 24 {
        1int
    } else {
        0
    })
}

/// The blocks run in order, each once, and the three mergers tap the stream straight behind blocks 8, 16 and 24.
pub proof fn law_the_tower_runs_its_blocks_in_order(tower: &Tower, n: int, i: int)
    requires
        0 <= i < n <= 27,
    ensures
        ({
            let ops = tower.blocks_ops(n);
            let at = 9 * i + 4 * taps_before(i);
            let halves = tower.attention_half(i) + tower.mlp_half(i);
            &&& ops.len() == 9 * n + 4 * taps_before(n)
            &&& forall|k: int| 0 <= k < 9 ==> #[trigger] ops[at + k] == halves[k]
            &&& forall|j: int, k: int|
                0 <= j < 3 && i == 8 * (j + 1) && 0 <= k < 4 ==> #[trigger] ops[at + 9 + k]
                    == #[trigger] tower.deepstack_ops(j)[k]
        }),
    decreases n,
{
    lemma_blocks_len(tower, n - 1);
    let halves = tower.attention_half(i) + tower.mlp_half(i);
    let (ops, before) = (tower.blocks_ops(n), tower.blocks_ops(n - 1));
    let at = 9 * i + 4 * taps_before(i);
    assert(deepstack_of(n - 1) matches Some(j) ==> tower.deepstack_ops(j).len() == 4);
    assert forall|k: int| 0 <= k < before.len() implies #[trigger] ops[k] == before[k] by {}
    if i < n - 1 {
        law_the_tower_runs_its_blocks_in_order(tower, n - 1, i);
        assert forall|k: int| 0 <= k < 9 implies #[trigger] ops[at + k] == halves[k] by {
            assert(before[at + k] == halves[k]);
        }
        assert forall|j: int, k: int|
            0 <= j < 3 && i == 8 * (j + 1) && 0 <= k < 4 implies #[trigger] ops[at + 9 + k]
            == #[trigger] tower.deepstack_ops(j)[k] by {
            assert(before[at + 9 + k] == tower.deepstack_ops(j)[k]);
        }
    }
}

proof fn lemma_blocks_len(tower: &Tower, n: int)
    requires
        0 <= n <= 27,
    ensures
        tower.blocks_ops(n).len() == 9 * n + 4 * taps_before(n),
    decreases n,
{
    if n > 0 {
        lemma_blocks_len(tower, n - 1);
    }
}

/// A block's weights, and a merger's, are read from where what was asked for under their names came to stand.
#[verifier::spinoff_prover]
pub proof fn law_each_vision_weight_is_the_one_its_name_says(w: &TowerWeights, patch: int, i: int, j: int)
    requires
        w.blocks@.len() == 27,
        w.deepstack@.len() == 3,
        0 <= i < 27,
        0 <= j < 3,
    ensures
        ({
            let (wants, placed) = (tower_wants(patch), w.in_order());
            let p = "vis.b"@ + text::decimal(i as nat) + "."@;
            let t = "vis.ds"@ + text::decimal(j as nat) + "."@;
            let (b, d, m) = (w.blocks@[i], w.deepstack@[j], w.merger);
            &&& wants.len() == placed.len() == 350
            &&& stack::stands_at(wants, placed, "vis.patch."@ + "w"@, w.patch_w)
            &&& stack::stands_at(wants, placed, "vis.patch."@ + "b"@, w.patch_b)
            &&& stack::stands_at(wants, placed, p + "norm1.w"@, b.norm1_w)
            &&& stack::stands_at(wants, placed, p + "norm1.b"@, b.norm1_b)
            &&& stack::stands_at(wants, placed, p + "qkv.w"@, b.qkv_w)
            &&& stack::stands_at(wants, placed, p + "qkv.b"@, b.qkv_b)
            &&& stack::stands_at(wants, placed, p + "proj.w"@, b.proj_w)
            &&& stack::stands_at(wants, placed, p + "proj.b"@, b.proj_b)
            &&& stack::stands_at(wants, placed, p + "norm2.w"@, b.norm2_w)
            &&& stack::stands_at(wants, placed, p + "norm2.b"@, b.norm2_b)
            &&& stack::stands_at(wants, placed, p + "fc1.w"@, b.fc1_w)
            &&& stack::stands_at(wants, placed, p + "fc1.b"@, b.fc1_b)
            &&& stack::stands_at(wants, placed, p + "fc2.w"@, b.fc2_w)
            &&& stack::stands_at(wants, placed, p + "fc2.b"@, b.fc2_b)
            &&& stack::stands_at(wants, placed, t + "norm.w"@, d.norm_w)
            &&& stack::stands_at(wants, placed, t + "norm.b"@, d.norm_b)
            &&& stack::stands_at(wants, placed, t + "fc1.w"@, d.fc1_w)
            &&& stack::stands_at(wants, placed, t + "fc1.b"@, d.fc1_b)
            &&& stack::stands_at(wants, placed, t + "fc2.w"@, d.fc2_w)
            &&& stack::stands_at(wants, placed, t + "fc2.b"@, d.fc2_b)
            &&& stack::stands_at(wants, placed, "vis.merger."@ + "norm.w"@, m.norm_w)
            &&& stack::stands_at(wants, placed, "vis.merger."@ + "norm.b"@, m.norm_b)
            &&& stack::stands_at(wants, placed, "vis.merger."@ + "fc1.w"@, m.fc1_w)
            &&& stack::stands_at(wants, placed, "vis.merger."@ + "fc1.b"@, m.fc1_b)
            &&& stack::stands_at(wants, placed, "vis.merger."@ + "fc2.w"@, m.fc2_w)
            &&& stack::stands_at(wants, placed, "vis.merger."@ + "fc2.b"@, m.fc2_b)
        }),
{
    let (wants, placed) = (tower_wants(patch), w.in_order());
    lemma_patch_stands(w, patch);
    lemma_block_stands(w, patch, i);
    lemma_tap_stands(w, patch, j);
    lemma_last_merger_stands(w, patch);
    lemma_block_named(wants, placed, block_prefix(i), w.blocks@[i]);
    lemma_merger_named(wants, placed, deepstack_prefix(j), VMERGE as int, w.deepstack@[j]);
    lemma_merger_named(wants, placed, "vis.merger."@, VHID as int, w.merger);
}

#[verifier::spinoff_prover]
proof fn lemma_patch_stands(w: &TowerWeights, patch: int)
    requires
        w.blocks@.len() == 27,
        w.deepstack@.len() == 3,
    ensures
        tower_wants(patch).len() == 350,
        w.in_order().len() == 350,
        stack::stands_at(tower_wants(patch), w.in_order(), "vis.patch."@ + "w"@, w.patch_w),
        stack::stands_at(tower_wants(patch), w.in_order(), "vis.patch."@ + "b"@, w.patch_b),
{
    let (wants, placed) = (tower_wants(patch), w.in_order());
    lemma_views_of_blocks();
    lemma_block_lengths(w, VBLOCKS as int);
    assert(wants[0] == patch_wants(patch)[0] && wants[1] == patch_wants(patch)[1]);
    assert(placed[0] == w.patch_w && placed[1] == w.patch_b);
}

/// What the blocks ask for and where it stands, behind the patch projection's.
proof fn lemma_inner_stands(w: &TowerWeights, patch: int, k: int)
    requires
        w.blocks@.len() == 27,
        w.deepstack@.len() == 3,
        0 <= k < 342,
    ensures
        tower_wants(patch).len() == 350,
        tower_wants(patch)[2 + k] == blocks_wants(VBLOCKS as int)[k],
        w.in_order()[2 + k] == blocks_in_order(w.blocks@, w.deepstack@, VBLOCKS as int)[k],
{
    lemma_views_of_blocks();
    lemma_block_lengths(w, VBLOCKS as int);
}

#[verifier::spinoff_prover]
proof fn lemma_block_stands(w: &TowerWeights, patch: int, i: int)
    requires
        w.blocks@.len() == 27,
        w.deepstack@.len() == 3,
        0 <= i < 27,
    ensures
        forall|k: int|
            0 <= k < 12 ==> stack::stands_at(
                tower_wants(patch),
                w.in_order(),
                (#[trigger] block_wants(block_prefix(i))[k]).0,
                w.blocks@[i].in_order()[k],
            ),
{
    let n = VBLOCKS as int;
    lemma_views_of_blocks();
    lemma_where_a_block_stands(w, n, i);
    let (wants, placed) = (tower_wants(patch), w.in_order());
    let (bw, bv) = (block_wants(block_prefix(i)), w.blocks@[i].in_order());
    assert forall|k: int| 0 <= k < 12 implies stack::stands_at(wants, placed, (#[trigger] bw[k]).0, bv[k]) by {
        let q = views_before(i) + k;
        lemma_inner_stands(w, patch, q);
        assert(blocks_wants(n)[q] == bw[k]);
        assert(blocks_in_order(w.blocks@, w.deepstack@, n)[q] == bv[k]);
        lemma_stands(wants, placed, bw[k].0, bv[k], 2 + q);
    }
}

#[verifier::spinoff_prover]
proof fn lemma_tap_stands(w: &TowerWeights, patch: int, j: int)
    requires
        w.blocks@.len() == 27,
        w.deepstack@.len() == 3,
        0 <= j < 3,
    ensures
        forall|k: int|
            0 <= k < 6 ==> stack::stands_at(
                tower_wants(patch),
                w.in_order(),
                (#[trigger] merger_wants(deepstack_prefix(j), VMERGE as int)[k]).0,
                w.deepstack@[j].in_order()[k],
            ),
{
    let n = VBLOCKS as int;
    let i = 8 * (j + 1);
    assert(deepstack_of(i) == Some(j));
    lemma_views_of_blocks();
    lemma_where_a_block_stands(w, n, i);
    let (wants, placed) = (tower_wants(patch), w.in_order());
    let (dw, dv) = (merger_wants(deepstack_prefix(j), VMERGE as int), w.deepstack@[j].in_order());
    assert forall|k: int| 0 <= k < 6 implies stack::stands_at(wants, placed, (#[trigger] dw[k]).0, dv[k]) by {
        let r = 12 + k;
        let q = views_before(i) + r;
        lemma_inner_stands(w, patch, q);
        assert(blocks_wants(n)[q] == dw[r - 12]);
        assert(blocks_in_order(w.blocks@, w.deepstack@, n)[q] == dv[r - 12]);
        lemma_stands(wants, placed, dw[k].0, dv[k], 2 + q);
    }
}

#[verifier::spinoff_prover]
proof fn lemma_last_merger_stands(w: &TowerWeights, patch: int)
    requires
        w.blocks@.len() == 27,
        w.deepstack@.len() == 3,
    ensures
        forall|k: int|
            0 <= k < 6 ==> stack::stands_at(
                tower_wants(patch),
                w.in_order(),
                (#[trigger] merger_wants("vis.merger."@, VHID as int)[k]).0,
                w.merger.in_order()[k],
            ),
{
    lemma_views_of_blocks();
    lemma_block_lengths(w, VBLOCKS as int);
    let (wants, placed) = (tower_wants(patch), w.in_order());
    let (mw, mv) = (merger_wants("vis.merger."@, VHID as int), w.merger.in_order());
    assert forall|k: int| 0 <= k < 6 implies stack::stands_at(wants, placed, (#[trigger] mw[k]).0, mv[k]) by {
        lemma_stands(wants, placed, mw[k].0, mv[k], 344 + k);
    }
}

proof fn lemma_stands(
    wants: Seq<(Seq<char>, Want)>,
    placed: Seq<BufferRef>,
    name: Seq<char>,
    view: BufferRef,
    at: int,
)
    requires
        0 <= at < wants.len(),
        wants[at].0 == name,
        placed[at] == view,
    ensures
        stack::stands_at(wants, placed, name, view),
{
}

proof fn lemma_block_named(
    wants: Seq<(Seq<char>, Want)>,
    placed: Seq<BufferRef>,
    p: Seq<char>,
    b: BlockWeights,
)
    requires
        forall|k: int|
            0 <= k < 12 ==> stack::stands_at(
                wants,
                placed,
                (#[trigger] block_wants(p)[k]).0,
                b.in_order()[k],
            ),
    ensures
        stack::stands_at(wants, placed, p + "norm1.w"@, b.norm1_w),
        stack::stands_at(wants, placed, p + "norm1.b"@, b.norm1_b),
        stack::stands_at(wants, placed, p + "qkv.w"@, b.qkv_w),
        stack::stands_at(wants, placed, p + "qkv.b"@, b.qkv_b),
        stack::stands_at(wants, placed, p + "proj.w"@, b.proj_w),
        stack::stands_at(wants, placed, p + "proj.b"@, b.proj_b),
        stack::stands_at(wants, placed, p + "norm2.w"@, b.norm2_w),
        stack::stands_at(wants, placed, p + "norm2.b"@, b.norm2_b),
        stack::stands_at(wants, placed, p + "fc1.w"@, b.fc1_w),
        stack::stands_at(wants, placed, p + "fc1.b"@, b.fc1_b),
        stack::stands_at(wants, placed, p + "fc2.w"@, b.fc2_w),
        stack::stands_at(wants, placed, p + "fc2.b"@, b.fc2_b),
{
    let o = block_wants(p);
    let v = b.in_order();
    assert(o[0].0 == p + "norm1.w"@ && v[0] == b.norm1_w && o[1].0 == p + "norm1.b"@ && v[1] == b.norm1_b);
    assert(o[2].0 == p + "qkv.w"@ && v[2] == b.qkv_w && o[3].0 == p + "qkv.b"@ && v[3] == b.qkv_b);
    assert(o[4].0 == p + "proj.w"@ && v[4] == b.proj_w && o[5].0 == p + "proj.b"@ && v[5] == b.proj_b);
    assert(o[6].0 == p + "norm2.w"@ && v[6] == b.norm2_w && o[7].0 == p + "norm2.b"@ && v[7] == b.norm2_b);
    assert(o[8].0 == p + "fc1.w"@ && v[8] == b.fc1_w && o[9].0 == p + "fc1.b"@ && v[9] == b.fc1_b);
    assert(o[10].0 == p + "fc2.w"@ && v[10] == b.fc2_w && o[11].0 == p + "fc2.b"@ && v[11] == b.fc2_b);
}

proof fn lemma_merger_named(
    wants: Seq<(Seq<char>, Want)>,
    placed: Seq<BufferRef>,
    p: Seq<char>,
    width: int,
    m: MergerWeights,
)
    requires
        forall|k: int|
            0 <= k < 6 ==> stack::stands_at(
                wants,
                placed,
                (#[trigger] merger_wants(p, width)[k]).0,
                m.in_order()[k],
            ),
    ensures
        stack::stands_at(wants, placed, p + "norm.w"@, m.norm_w),
        stack::stands_at(wants, placed, p + "norm.b"@, m.norm_b),
        stack::stands_at(wants, placed, p + "fc1.w"@, m.fc1_w),
        stack::stands_at(wants, placed, p + "fc1.b"@, m.fc1_b),
        stack::stands_at(wants, placed, p + "fc2.w"@, m.fc2_w),
        stack::stands_at(wants, placed, p + "fc2.b"@, m.fc2_b),
{
    let o = merger_wants(p, width);
    let v = m.in_order();
    assert(o[0].0 == p + "norm.w"@ && v[0] == m.norm_w && o[1].0 == p + "norm.b"@ && v[1] == m.norm_b);
    assert(o[2].0 == p + "fc1.w"@ && v[2] == m.fc1_w && o[3].0 == p + "fc1.b"@ && v[3] == m.fc1_b);
    assert(o[4].0 == p + "fc2.w"@ && v[4] == m.fc2_w && o[5].0 == p + "fc2.b"@ && v[5] == m.fc2_b);
}

} // verus!
