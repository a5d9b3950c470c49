//! Flat indices of row-major arrays, and what their quotients and remainders are.
use vstd::prelude::*;

verus! {

/// The flat index of `(i, j)` in rows of `n`: `i` and `j` come back as its quotient and remainder,
/// and it stays inside `m` rows.
pub proof fn lemma_flat2(i: int, j: int, m: int, n: int)
    by (nonlinear_arith)
    requires
        0 <= i < m,
        0 <= j < n,
    ensures
        0 <= i * n + j < m * n,
        (i * n + j) / n == i,
        (i * n + j) % n == j,
{
}

/// A flat index inside `m` rows of `n` has its quotient among the rows and its remainder in the row.
pub proof fn lemma_unflat2(k: int, m: int, n: int)
    by (nonlinear_arith)
    requires
        0 <= k < m * n,
        0 <= m,
        0 <= n,
    ensures
        0 < n,
        0 <= k / n < m,
        0 <= k % n < n,
        k == (k / n) * n + k % n,
{
}

/// The flat index of `(a, b, c, d)` in an array of `[..][nb][nc][nd]`.
pub open spec fn flat4(a: int, b: int, c: int, d: int, nb: int, nc: int, nd: int) -> int {
    ((a * nb + b) * nc + c) * nd + d
}

/// The flat index of a cell of `[na][nb][nc][nd]` lies in the array, and gives the cell back.
pub proof fn lemma_flat4(a: int, b: int, c: int, d: int, na: int, nb: int, nc: int, nd: int)
    requires
        0 <= a < na,
        0 <= b < nb,
        0 <= c < nc,
        0 <= d < nd,
    ensures
        ({
            let k = flat4(a, b, c, d, nb, nc, nd);
            &&& 0 <= k < na * nb * nc * nd
            &&& k % nd == d
            &&& k / nd % nc == c
            &&& k / nd / nc % nb == b
            &&& k / nd / nc / nb == a
        }),
{
    lemma_flat2(a, b, na, nb);
    lemma_flat2(a * nb + b, c, na * nb, nc);
    lemma_flat2((a * nb + b) * nc + c, d, na * nb * nc, nd);
}

/// An index into `[na][nb][nc][nd]` is the flat index of a cell.
pub proof fn lemma_unflat4(k: int, na: int, nb: int, nc: int, nd: int)
    requires
        0 <= k < na * nb * nc * nd,
        0 <= na,
        0 <= nb,
        0 <= nc,
        0 <= nd,
    ensures
        0 < nb,
        0 < nc,
        0 < nd,
        0 <= k % nd < nd,
        0 <= k / nd % nc < nc,
        0 <= k / nd / nc % nb < nb,
        0 <= k / nd / nc / nb < na,
        k == flat4(k / nd / nc / nb, k / nd / nc % nb, k / nd % nc, k % nd, nb, nc, nd),
{
    assert(0 <= na * nb) by (nonlinear_arith)
        requires
            0 <= na,
            0 <= nb,
    ;
    assert(0 <= na * nb * nc) by (nonlinear_arith)
        requires
            0 <= na * nb,
            0 <= nc,
    ;
    lemma_unflat2(k, na * nb * nc, nd);
    lemma_unflat2(k / nd, na * nb, nc);
    lemma_unflat2(k / nd / nc, na, nb);
}

/// Whether an index lies among the first `na` blocks of `[..][nb][nc][nd]` is told by its block.
pub proof fn lemma_block4(k: int, na: int, nb: int, nc: int, nd: int)
    requires
        0 <= k,
        0 <= na,
        0 < nb,
        0 < nc,
        0 < nd,
    ensures
        k / nd / nc / nb < na <==> k < na * nb * nc * nd,
{
    let q = k / nd;
    let r = q / nc;
    assert(0 <= na * nb) by (nonlinear_arith)
        requires
            0 <= na,
            0 < nb,
    ;
    assert(0 <= na * nb * nc) by (nonlinear_arith)
        requires
            0 <= na * nb,
            0 < nc,
    ;
    lemma_below(k, na * nb * nc, nd);
    lemma_below(q, na * nb, nc);
    lemma_below(r, na, nb);
}

/// A quotient is below a count of rows exactly where the index is below their end.
pub proof fn lemma_below(k: int, m: int, n: int)
    by (nonlinear_arith)
    requires
        0 <= k,
        0 <= m,
        0 < n,
    ensures
        0 <= k / n,
        k / n < m <==> k < m * n,
{
}

} // verus!
