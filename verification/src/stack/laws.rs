//! What the kernels of a stack's plan have in common: each reads its operand at the pitch, and of the width, at which the
//! one before it writes it.
use vstd::prelude::*;

use crate::compile::SpecializationView;
use crate::dispatch;
use crate::dispatch::{Elem, Form, Gemm, Mode, Prepare, Tile};
use crate::stack;
use crate::stack::{Plan, Stack};
use crate::text;

verus! {

/// Whether a kernel is compiled with a key of its own set to a number.
pub open spec fn compiled_with(kernel: SpecializationView, key: Seq<char>, value: int) -> bool {
    exists|stem: Seq<char>, i: int|
        #![trigger dispatch::namespace(stem), kernel.config[i]]
        kernel.symbol == "h3_"@ + stem && 0 <= i < kernel.config.len() && kernel.config[i] == (
            dispatch::namespace(stem) + key,
            text::decimal(value as nat),
        )
}

proof fn lemma_compiled_with(kernel: SpecializationView, stem: Seq<char>, key: Seq<char>, value: int, i: int)
    requires
        kernel.symbol == "h3_"@ + stem,
        0 <= i < kernel.config.len(),
        kernel.config[i] == dispatch::count_of(dispatch::namespace(stem), key, value),
    ensures
        compiled_with(kernel, key, value),
{
}

proof fn lemma_prepare(p: Prepare, form: Form, elem: Elem, width: int, eps: Seq<char>, classes: int, stride: int)
    requires
        p.shaped(form, elem, width, eps, classes, stride),
    ensures
        compiled_with(p.kernel@, "width"@, width),
        compiled_with(p.kernel@, "out_stride"@, p.out_stride as int),
        form != Form::Plain ==> compiled_with(p.kernel@, "classes"@, classes),
{
    let stem = dispatch::prepare_stem(form, elem, width);
    lemma_compiled_with(p.kernel@, stem, "width"@, width, 0);
    if form != Form::Plain {
        lemma_compiled_with(p.kernel@, stem, "classes"@, classes, 3);
        lemma_compiled_with(p.kernel@, stem, "out_stride"@, p.out_stride as int, 4);
    } else {
        lemma_compiled_with(p.kernel@, stem, "out_stride"@, p.out_stride as int, 2);
    }
}

proof fn lemma_gemm(
    g: Gemm,
    mode: Mode,
    elem: Elem,
    bias: bool,
    gate_first: bool,
    k: int,
    n: int,
    classes: int,
    k_stride: int,
    tile: Tile,
    out_stride: int,
)
    requires
        g.shaped(mode, elem, bias, gate_first, k, n, classes, k_stride, tile, out_stride),
    ensures
        compiled_with(g.kernel@, "k_size"@, k),
        compiled_with(g.kernel@, "n_size"@, n),
        compiled_with(g.kernel@, "k_stride"@, g.k_stride as int),
        mode == Mode::Resid ==> compiled_with(g.kernel@, "classes"@, classes),
        mode == Mode::Swiglu && tile != Tile::Plain ==> compiled_with(g.kernel@, "out_stride"@, g.out_width as int),
{
    let stem = dispatch::gemm_stem_of(elem, mode, bias, gate_first, tile);
    lemma_compiled_with(g.kernel@, stem, "k_size"@, k, 0);
    lemma_compiled_with(g.kernel@, stem, "n_size"@, n, 1);
    if mode == Mode::Resid {
        lemma_compiled_with(g.kernel@, stem, "classes"@, classes, 3);
        lemma_compiled_with(g.kernel@, stem, "k_stride"@, g.k_stride as int, 4);
    } else {
        lemma_compiled_with(g.kernel@, stem, "k_stride"@, g.k_stride as int, 3);
        if mode == Mode::Swiglu && tile != Tile::Plain {
            lemma_compiled_with(g.kernel@, stem, "out_stride"@, g.out_width as int, 4);
        }
    }
}

/// The norm's rows are what the first projections multiply: it takes rows of the stream's width and writes them at the
/// pitch at which the projection to the queries, keys and values, and the gated one to the feed-forward, read them.
/// The one goes to as many columns as the heads of all three take, the other to twice the feed-forward's.
pub proof fn law_the_norm_writes_what_the_projections_read(plan: Plan)
    requires
        plan.laid(),
    ensures
        ({
            let d = plan.d;
            let stride = plan.prep_norm.out_stride as int;
            &&& compiled_with(plan.prep_norm.kernel@, "width"@, d.hidden as int)
            &&& compiled_with(plan.prep_norm.kernel@, "out_stride"@, stride)
            &&& compiled_with(plan.prep_norm.kernel@, "classes"@, d.classes as int)
            &&& compiled_with(plan.gemm_gu.kernel@, "k_size"@, d.hidden as int)
            &&& compiled_with(plan.gemm_gu.kernel@, "k_stride"@, stride)
            &&& compiled_with(plan.gemm_gu.kernel@, "n_size"@, 2 * d.ffn)
            &&& plan.prep_norm.elem == plan.gemm_gu.elem
            &&& plan.gemm_qkv matches Some(g) ==> {
                &&& compiled_with(g.kernel@, "k_size"@, d.hidden as int)
                &&& compiled_with(g.kernel@, "k_stride"@, stride)
                &&& compiled_with(g.kernel@, "n_size"@, d.heads * d.head_dim + 2 * (d.kv_heads * d.head_dim))
                &&& plan.prep_norm.elem == g.elem
                &&& !g.resid
            }
            &&& plan.gemm_qkv is Some == plan.qkv_rope is None
            &&& !plan.gemm_gu.resid
        }),
{
    let d = plan.d;
    let tile = stack::tile_of(d, plan.knobs);
    let pitch = d.pitch_of(d.hidden as int);
    lemma_prepare(
        plan.prep_norm,
        Form::Norm,
        d.operand(),
        d.hidden as int,
        crate::compile::g17(d.eps),
        d.classes as int,
        pitch,
    );
    lemma_gemm(
        plan.gemm_gu,
        Mode::Swiglu,
        d.operand(),
        d.bias,
        d.gate_first,
        d.hidden as int,
        2 * d.ffn,
        1,
        pitch,
        tile,
        d.pitch_of(d.ffn as int),
    );
    if let Some(g) = plan.gemm_qkv {
        lemma_gemm(
            g,
            Mode::Plain,
            d.operand(),
            d.bias,
            true,
            d.hidden as int,
            d.qkv_width(),
            1,
            pitch,
            tile,
            0,
        );
    }
}

/// The attention works on as many rows as the plan has, each as wide as its heads, and what it writes is what the out
/// projection reads, straight or through a prepare; and that goes back to the stream's width.
pub proof fn law_the_attention_writes_what_the_out_projection_reads(plan: Plan)
    requires
        plan.laid(),
    ensures
        ({
            let d = plan.d;
            let heads = d.heads * d.head_dim;
            let out = plan.gemm_out;
            &&& compiled_with(plan.attention@, "q_stride"@, heads)
            &&& compiled_with(plan.attention@, "kv_stride"@, d.kv_heads * d.head_dim)
            &&& compiled_with(plan.attention@, "tokens"@, plan.tokens as int)
            &&& compiled_with(plan.attention@, "token_capacity"@, plan.capacity as int)
            &&& compiled_with(out.kernel@, "k_size"@, heads)
            &&& compiled_with(out.kernel@, "n_size"@, d.hidden as int)
            &&& compiled_with(out.kernel@, "k_stride"@, out.k_stride as int)
            &&& compiled_with(out.kernel@, "classes"@, d.classes as int)
            &&& out.resid
            &&& match plan.prep_attn {
                Some(p) => {
                    &&& !plan.direct_attn
                    &&& compiled_with(plan.attention@, "out_stride"@, heads)
                    &&& compiled_with(p.kernel@, "width"@, heads)
                    &&& compiled_with(p.kernel@, "out_stride"@, out.k_stride as int)
                    &&& p.elem == out.elem
                },
                None => plan.direct_attn && out.elem == Elem::F16 && (d.pitch_of(heads) != 0 ==> compiled_with(
                    plan.attention@,
                    "out_stride"@,
                    out.k_stride as int,
                )),
            }
            &&& plan.rope matches Some(kernel) ==> {
                &&& compiled_with(kernel@, "row_stride"@, heads + 2 * (d.kv_heads * d.head_dim))
                &&& compiled_with(kernel@, "heads"@, d.heads as int)
                &&& compiled_with(kernel@, "kv_heads"@, d.kv_heads as int)
                &&& compiled_with(kernel@, "k_offset"@, heads)
            }
        }),
{
    let d = plan.d;
    let tile = stack::tile_of(d, plan.knobs);
    let stem = stack::attention_stem(d, plan.tokens as int, plan.knobs);
    let heads = d.q_width();
    lemma_compiled_with(plan.attention@, stem, "q_stride"@, heads, 0);
    lemma_compiled_with(plan.attention@, stem, "kv_stride"@, d.kv_width(), 1);
    lemma_compiled_with(plan.attention@, stem, "tokens"@, plan.tokens as int, 2);
    lemma_compiled_with(plan.attention@, stem, "token_capacity"@, plan.capacity as int, 3);
    lemma_compiled_with(plan.attention@, stem, "out_stride"@, stack::attn_width(d), 5);
    lemma_gemm(
        plan.gemm_out,
        Mode::Resid,
        d.operand(),
        d.bias,
        true,
        heads,
        d.hidden as int,
        d.classes as int,
        d.pitch_of(heads),
        tile,
        0,
    );
    if let Some(p) = plan.prep_attn {
        lemma_prepare(p, Form::Plain, d.operand(), heads, "9.9999997473787516e-06"@, 1, d.pitch_of(heads));
    }
    if let Some(kernel) = plan.rope {
        let stem = stack::rope_stem(d);
        lemma_compiled_with(kernel@, stem, "row_stride"@, d.qkv_width(), 0);
        lemma_compiled_with(kernel@, stem, "heads"@, d.heads as int, 1);
        lemma_compiled_with(kernel@, stem, "kv_heads"@, d.kv_heads as int, 2);
        lemma_compiled_with(kernel@, stem, "k_offset"@, heads, 3);
    }
}

/// What the gated projection writes is what the down projection reads, straight or through a prepare; and that goes from
/// the feed-forward's width back to the stream's.
pub proof fn law_the_gate_writes_what_the_down_projection_reads(plan: Plan)
    requires
        plan.laid(),
    ensures
        ({
            let d = plan.d;
            let (gate, down) = (plan.gemm_gu, plan.gemm_down);
            &&& compiled_with(down.kernel@, "k_size"@, d.ffn as int)
            &&& compiled_with(down.kernel@, "n_size"@, d.hidden as int)
            &&& compiled_with(down.kernel@, "k_stride"@, down.k_stride as int)
            &&& compiled_with(down.kernel@, "classes"@, d.classes as int)
            &&& down.resid
            &&& gate.out_bytes == 2
            &&& match plan.prep_down {
                Some(p) => {
                    &&& !plan.direct_down
                    &&& stack::tile_of(d, plan.knobs) == Tile::Plain ==> gate.out_width == d.ffn
                    &&& compiled_with(p.kernel@, "width"@, d.ffn as int)
                    &&& compiled_with(p.kernel@, "out_stride"@, down.k_stride as int)
                    &&& p.elem == down.elem
                },
                None => plan.direct_down && down.elem == Elem::F16 && gate.out_width == down.k_stride,
            }
        }),
{
    let d = plan.d;
    let tile = stack::tile_of(d, plan.knobs);
    lemma_gemm(
        plan.gemm_down,
        Mode::Resid,
        d.operand(),
        d.bias,
        true,
        d.ffn as int,
        d.hidden as int,
        d.classes as int,
        d.pitch_of(d.ffn as int),
        tile,
        0,
    );
    if let Some(p) = plan.prep_down {
        lemma_prepare(
            p,
            Form::Plain,
            d.operand(),
            d.ffn as int,
            "9.9999997473787516e-06"@,
            1,
            d.pitch_of(d.ffn as int),
        );
    }
}

/// The attention has a workgroup for every row and every head: sixteen rows to a wave, and so many waves to a workgroup,
/// one workgroup to a head; one to a group of heads that share their keys, sixteen rows to it, where it is causal.
pub proof fn law_the_attention_covers_every_row_and_head(stack: &Stack)
    requires
        stack.wf(),
    ensures
        ({
            let last = stack.attend_steps().last().launch;
            let (d, tokens, waves) = (stack.plan.d, stack.plan.tokens, stack.plan.waves);
            &&& waves == 4 || waves == 8
            &&& last.grid.z == 1
            &&& last.block.y == 1 && last.block.z == 1
            &&& if stack.plan.int_qk is None && d.causal {
                &&& last.grid.x * 16 >= tokens
                &&& last.grid.y == d.kv_heads as u32
                &&& last.block.x == 256
            } else {
                &&& last.grid.x * 16 * waves >= tokens
                &&& last.grid.y == d.heads as u32
                &&& last.block.x == 32 * waves
            }
        }),
{
    reveal(Stack::attend_steps);
    let (t, waves) = (stack.plan.tokens as nat, stack.plan.waves as int);
    assert(waves == 4 || waves == 8);
    dispatch::laws::law_steps_are_the_fewest_that_cover(t, 64);
    dispatch::laws::law_steps_are_the_fewest_that_cover(t, 128);
    dispatch::laws::law_steps_are_the_fewest_that_cover(t, 16);
}

} // verus!
