//! What a launch covers: of each buffer the whole rows it works on, and of those every one.
use vstd::prelude::*;

use crate::dispatch;
use crate::dispatch::{ClassRows, Elem, Form, Gemm, LayerNorm16, Matmul16, MatmulF32, NormMod, Prepare};
use crate::hrx::BufferRef;

verus! {

/// Steps cover what they are counted for, and one fewer would not; what is rounded up is the least whole number of steps.
pub proof fn law_steps_are_the_fewest_that_cover(n: nat, step: nat)
    requires
        0 < step,
    ensures
        dispatch::steps(n as int, step as int) * step >= n,
        (dispatch::steps(n as int, step as int) - 1) * step < n,
        dispatch::up_to(n as int, step as int) == dispatch::steps(n as int, step as int) * step,
        dispatch::up_to(n as int, step as int) % (step as int) == 0,
{
    let (n, s) = (n as int, step as int);
    let q = (n + s - 1) / s;
    assert(q * s >= n && (q - 1) * s < n && (q * s) % s == 0) by (nonlinear_arith)
        requires
            n >= 0,
            s > 0,
            q == (n + s - 1) / s,
    ;
}

/// A GEMM reads whole rows of both operands at its pitch, `t` of the one and one for each of its columns of the other; a
/// scale for each where they are integers; it writes `t` rows; and adds a gate of each class, by the class of each row.
pub proof fn law_a_gemm_addresses_its_operands(
    g: Gemm,
    t: int,
    a: BufferRef,
    w: BufferRef,
    s: BufferRef,
    a_s: BufferRef,
    out: BufferRef,
    gate: BufferRef,
    cls: ClassRows,
    bias: BufferRef,
)
    ensures
        ({
            let residual = if g.resid {
                Some((gate, cls))
            } else {
                None
            };
            let args = g.args(t, a, w, Some((s, a_s)), out, residual, Some(bias));
            let wide = if g.elem == Elem::F16 || g.elem == Elem::BF16 {
                2int
            } else {
                1
            };
            let from = if g.elem == Elem::I8 || g.elem == Elem::I4 {
                4int
            } else {
                2
            };
            &&& args[0].view == a && args[1].view == w && args[from].view == out
            &&& args[from].need == t * g.out_width * g.out_bytes
            &&& g.elem != Elem::I4 ==> args[0].need == t * g.k_stride * wide && args[1].need == g.n * g.k_stride * wide
            &&& from == 4 ==> {
                &&& args[2].view == s && args[2].need == g.n * 4
                &&& args[3].view == a_s && args[3].need == t * 4
            }
            &&& g.resid ==> {
                &&& args[from + 1].view == gate && args[from + 1].need == g.classes * g.n * 4
                &&& args[from + 2].view == cls.binding() && args[from + 2].need == t * 4
            }
            &&& g.bias ==> args.last().view == bias && args.last().need == g.n * 4
            &&& args.len() == from + 1 + (if g.resid {
                2int
            } else {
                0
            }) + if g.bias {
                1int
            } else {
                0
            }
        }),
{
    let residual = if g.resid {
        Some((gate, cls))
    } else {
        None
    };
    let args = g.args(t, a, w, Some((s, a_s)), out, residual, Some(bias));
    if g.elem == Elem::F16 || g.elem == Elem::BF16 {
        assert(g.elem.bits_of() / 8 == 2);
    }
}

/// A prepare reads `t` rows, of singles where it norms and of halves where it does not, with a weight for each column and
/// a scale and a shift for each of every class; and writes `t` rows at its pitch, with a scale for each where they are
/// integers.
pub proof fn law_a_prepare_addresses_its_rows(
    p: Prepare,
    t: int,
    x: BufferRef,
    weight: BufferRef,
    table: BufferRef,
    cls: ClassRows,
    a_q: BufferRef,
    a_s: BufferRef,
)
    requires
        p.elem != Elem::I4,
    ensures
        ({
            let args = p.args(t, x, Some((weight, table, cls)), a_q, Some(a_s));
            let from = if p.form == Form::Plain {
                1int
            } else {
                4
            };
            &&& args[0].view == x
            &&& p.form == Form::Plain ==> args[0].need == t * p.width * 2
            &&& p.form != Form::Plain ==> {
                &&& args[0].need == t * p.width * 4
                &&& args[1].view == weight && args[1].need == p.width * 4
                &&& args[2].view == table && args[2].need == p.classes * p.width * 8
                &&& args[3].view == cls.binding() && args[3].need == t * 4
            }
            &&& args[from].view == a_q
            &&& p.elem == Elem::I8 ==> {
                &&& args.len() == from + 2
                &&& args[from].need == t * p.out_stride
                &&& args[from + 1].view == a_s && args[from + 1].need == t * 4
            }
            &&& p.elem != Elem::I8 ==> args.len() == from + 1 && args[from].need == t * p.out_stride * 2
        }),
{
}

/// The other launches cover all their rows and columns: each names its rows once, and has workgroups for every one and
/// for every column.
pub proof fn law_a_launch_covers_its_rows(
    m: Matmul16,
    f: MatmulF32,
    l: LayerNorm16,
    n: NormMod,
    rows: usize,
    a: BufferRef,
    w: BufferRef,
    b: BufferRef,
    out: BufferRef,
    cls: ClassRows,
    stage: Seq<char>,
)
    requires
        rows <= u32::MAX,
        m.n <= u32::MAX,
        f.n <= u32::MAX,
        m.n % 64 == 0,
        !m.resid,
    ensures
        ({
            let margs = m.args(rows as int, a, w, b, out, None);
            let launch = m.launch(stage, rows, margs);
            &&& margs == seq![
                dispatch::arg(a, rows * m.k * 4),
                dispatch::arg(w, m.n * m.k * 2),
                dispatch::arg(b, m.n * 4),
                dispatch::arg(out, rows * m.n * 4),
            ]
            &&& launch.grid.x * 64 == m.n && launch.grid.y * 64 >= rows && launch.grid.z == 1
            &&& launch.block.x == 256 && launch.block.y == 1 && launch.block.z == 1
        }),
        ({
            let fargs = f.args(rows as int, a, w, b, out);
            let launch = f.launch(stage, rows, fargs);
            &&& fargs == seq![
                dispatch::arg(a, rows * f.k * 4),
                dispatch::arg(w, f.n * f.k * 4),
                dispatch::arg(b, f.n * 4),
                dispatch::arg(out, rows * f.n * 4),
            ]
            &&& launch.grid.x * 256 >= f.n && launch.grid.y == rows && launch.grid.z == 1
            &&& launch.block.x == 256 && launch.block.y == 1 && launch.block.z == 1
        }),
        ({
            let largs = l.args(rows as int, a, w, b, out);
            let launch = l.launch(rows, largs);
            &&& largs == seq![
                dispatch::arg(a, rows * l.width * 2),
                dispatch::arg(w, l.width * 4),
                dispatch::arg(b, l.width * 4),
                dispatch::arg(out, rows * l.width * 4),
            ]
            &&& launch.grid.x == rows && launch.grid.y == 1 && launch.grid.z == 1
            &&& launch.block.x == 32
        }),
        ({
            let nargs = n.args(rows as int, a, w, b, cls);
            let launch = n.launch(stage, rows, nargs);
            &&& nargs == seq![
                dispatch::arg(a, rows * n.width * 4),
                dispatch::arg(w, n.width * 4),
                dispatch::arg(b, n.classes * n.width * 8),
                dispatch::arg(cls.binding(), rows * 4),
            ]
            &&& launch.grid.x == rows && launch.grid.y == 1 && launch.grid.z == 1
            &&& launch.block.x == n.lanes as u32
        }),
{
    law_steps_are_the_fewest_that_cover(rows as nat, 64);
    law_steps_are_the_fewest_that_cover(f.n as nat, 256);
    let margs = m.args(rows as int, a, w, b, out, None);
    assert(margs =~= seq![
        dispatch::arg(a, rows * m.k * 4),
        dispatch::arg(w, m.n * m.k * 2),
        dispatch::arg(b, m.n * 4),
        dispatch::arg(out, rows * m.n * 4),
    ]);
}

/// A GEMM and a prepare have a workgroup for every tile of columns and for every row: the one as many as its tiles across
/// and as the rows were measured to need, the other one to a row.
pub proof fn law_operands_are_covered(g: Gemm, p: Prepare, tokens: u32, grid_y: u32, stage: Seq<char>)
    requires
        0 < g.n_tile,
        g.n % g.n_tile == 0,
        g.n <= u32::MAX,
    ensures
        ({
            let launch = g.launch(stage, tokens, grid_y, Seq::empty());
            &&& launch.grid.x * g.n_tile == g.n && launch.grid.y == grid_y && launch.grid.z == 1
            &&& launch.block.x == g.threads
            &&& launch.scalars == seq![tokens]
        }),
        ({
            let launch = p.launch(stage, tokens, Seq::empty());
            &&& launch.grid.x == tokens && launch.grid.y == 1 && launch.grid.z == 1
            &&& launch.block.x == p.lanes as u32
            &&& launch.scalars == seq![tokens]
        }),
{
    let (n, s) = (g.n as int, g.n_tile as int);
    assert(n / s * s == n && 0 <= n / s <= n) by (nonlinear_arith)
        requires
            0 < s,
            n >= 0,
            n % s == 0,
    ;
}

} // verus!
