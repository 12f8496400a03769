//! Dense matrix product over exact integers, used to reduce regression
//! design rows into the normal-equation systems fed to the solver.

use vstd::prelude::*;

verus! {

/// Partial dot product: the first `k` terms of row `row` of `m1` (row-major,
/// `inner_dim` columns) against column `col` of `m2` (row-major, `m2_cols`
/// columns).
pub open spec fn mat_dot(
    m1: Seq<i64>,
    m2: Seq<i64>,
    row: int,
    col: int,
    inner_dim: nat,
    m2_cols: int,
    k: nat,
) -> int
    decreases k,
{
    if k == 0 {
        0
    } else {
        mat_dot(m1, m2, row, col, inner_dim, m2_cols, (k - 1) as nat) + m1[row * inner_dim + (k
            - 1)] * m2[(k - 1) * m2_cols + col]
    }
}

/// One entry of the matrix product `m1 * m2`: the full dot product of row
/// `row` of `m1` with column `col` of `m2`.
pub open spec fn mat_product_entry(
    m1: Seq<i64>,
    m2: Seq<i64>,
    row: int,
    col: int,
    inner_dim: nat,
    m2_cols: int,
) -> int {
    mat_dot(m1, m2, row, col, inner_dim, m2_cols, inner_dim)
}

/// All entries of a matrix buffer have magnitude at most `bound`.
pub open spec fn mat_bounded(m: Seq<i64>, bound: int) -> bool {
    forall|e: int| 0 <= e < m.len() ==> -bound <= #[trigger] m[e] <= bound
}

/// Admissible inputs for the matrix product: entry bounds for the two
/// matrices whose product, times the inner dimension, keeps every dot
/// product inside a 64-bit accumulator. The product of two admissible
/// matrices is bounded by `b1 * b2 * inner_dim`, so it can feed a further
/// multiply whenever its own bound condition holds — products chain.
pub open spec fn mat_input_bounds(
    m1: Seq<i64>,
    m2: Seq<i64>,
    b1: int,
    b2: int,
    inner_dim: int,
) -> bool {
    &&& 0 <= b1
    &&& 0 <= b2
    &&& mat_bounded(m1, b1)
    &&& mat_bounded(m2, b2)
    &&& b1 * b2 * inner_dim < 0x8000_0000_0000_0000
}

/// A partial dot product of bounded entries is bounded by the product of
/// the entry bounds per term.
pub proof fn lemma_mat_dot_bounds(
    m1: Seq<i64>,
    m2: Seq<i64>,
    row: int,
    col: int,
    inner_dim: nat,
    m2_cols: int,
    k: nat,
    b1: int,
    b2: int,
)
    requires
        mat_bounded(m1, b1),
        mat_bounded(m2, b2),
        0 <= b1,
        0 <= b2,
        0 <= row,
        0 <= col < m2_cols,
        k <= inner_dim,
        (row + 1) * inner_dim <= m1.len(),
        inner_dim * m2_cols <= m2.len(),
    ensures
        -(b1 * b2) * k <= mat_dot(m1, m2, row, col, inner_dim, m2_cols, k) <= (b1 * b2) * k,
    decreases k,
{
    if k > 0 {
        lemma_mat_dot_bounds(m1, m2, row, col, inner_dim, m2_cols, (k - 1) as nat, b1, b2);
        assert(0 <= row * inner_dim + (k - 1) < m1.len()) by (nonlinear_arith)
            requires
                0 <= row,
                0 < k <= inner_dim,
                (row + 1) * inner_dim <= m1.len(),
        ;
        assert(0 <= (k - 1) * m2_cols + col < m2.len()) by (nonlinear_arith)
            requires
                0 <= col < m2_cols,
                0 < k <= inner_dim,
                inner_dim * m2_cols <= m2.len(),
        ;
        let u = m1[row * inner_dim + (k - 1)];
        let v = m2[(k - 1) * m2_cols + col];
        assert(-(b1 * b2) <= u * v <= b1 * b2) by (nonlinear_arith)
            requires
                -b1 <= u <= b1,
                -b2 <= v <= b2,
                0 <= b1,
                0 <= b2,
        ;
        assert(-(b1 * b2) * ((k - 1) as nat) - (b1 * b2) == -(b1 * b2) * k && (b1 * b2) * ((k
            - 1) as nat) + (b1 * b2) == (b1 * b2) * k) by (nonlinear_arith)
            requires
                k >= 1,
        ;
    } else {
        assert((b1 * b2) * k == 0 && -(b1 * b2) * k == 0) by (nonlinear_arith)
            requires
                k == 0,
        ;
    }
}

/// Two distinct row-major positions never share a flat index.
proof fn lemma_row_major_injective(cols: int, r1: int, c1: int, r2: int, c2: int)
    requires
        0 <= c1 < cols,
        0 <= c2 < cols,
        r1 * cols + c1 == r2 * cols + c2,
    ensures
        r1 == r2,
        c1 == c2,
{
    assert(r1 == r2 && c1 == c2) by (nonlinear_arith)
        requires
            0 <= c1 < cols,
            0 <= c2 < cols,
            r1 * cols + c1 == r2 * cols + c2,
    ;
}

/// Computes `res = m1 * m2` for `m1` of shape `m1_rows` by `inner_dim` and
/// `m2` of shape `inner_dim` by `m2_cols`, all row-major; entries of `res`
/// past the product are left untouched. The caller exhibits entry bounds
/// under `mat_input_bounds`, which keep every dot product inside the
/// 64-bit accumulator and let the result feed a further multiply.
pub fn multiply_mat(
    m1: &Vec<i64>,
    m2: &Vec<i64>,
    res: &mut Vec<i64>,
    m1_rows: usize,
    inner_dim: usize,
    m2_cols: usize,
)
    requires
        m1_rows * inner_dim <= m1.len(),
        inner_dim * m2_cols <= m2.len(),
        m1_rows * m2_cols <= old(res).len(),
        exists|b1: int, b2: int| mat_input_bounds(m1@, m2@, b1, b2, inner_dim as int),
    ensures
        final(res).len() == old(res).len(),
        forall|r: int, c: int|
            0 <= r < m1_rows && 0 <= c < m2_cols ==> final(res)[r * m2_cols + c]
                == #[trigger] mat_product_entry(
                m1@,
                m2@,
                r,
                c,
                inner_dim as nat,
                m2_cols as int,
            ),
        forall|e: int|
            m1_rows * m2_cols <= e < old(res).len() ==> final(res)[e] == old(res)[e],
{
    let ghost (gb1, gb2): (int, int) = choose|b1: int, b2: int|
        mat_input_bounds(m1@, m2@, b1, b2, inner_dim as int);
    let mut row: usize = 0;
    while row < m1_rows
        invariant
            m1_rows * inner_dim <= m1.len(),
            inner_dim * m2_cols <= m2.len(),
            m1_rows * m2_cols <= res.len(),
            mat_input_bounds(m1@, m2@, gb1, gb2, inner_dim as int),
            res.len() == old(res).len(),
            row <= m1_rows,
            forall|r: int, c: int|
                0 <= r < row && 0 <= c < m2_cols ==> res[r * m2_cols + c]
                    == #[trigger] mat_product_entry(
                    m1@,
                    m2@,
                    r,
                    c,
                    inner_dim as nat,
                    m2_cols as int,
                ),
            forall|e: int| row * m2_cols <= e < res.len() ==> res[e] == old(res)[e],
        decreases m1_rows - row,
    {
        let mut col: usize = 0;
        while col < m2_cols
            invariant
                m1_rows * inner_dim <= m1.len(),
                inner_dim * m2_cols <= m2.len(),
                m1_rows * m2_cols <= res.len(),
                mat_input_bounds(m1@, m2@, gb1, gb2, inner_dim as int),
                res.len() == old(res).len(),
                row < m1_rows,
                col <= m2_cols,
                forall|r: int, c: int|
                    0 <= r && 0 <= c < m2_cols && (r < row || (r == row && c < col)) ==> res[r
                        * m2_cols + c] == #[trigger] mat_product_entry(
                        m1@,
                        m2@,
                        r,
                        c,
                        inner_dim as nat,
                        m2_cols as int,
                    ),
                forall|e: int| row * m2_cols + col <= e < res.len() ==> res[e] == old(res)[e],
            decreases m2_cols - col,
        {
            let mut sum: i64 = 0;
            let mut k: usize = 0;
            while k < inner_dim
                invariant
                    m1_rows * inner_dim <= m1.len(),
                    inner_dim * m2_cols <= m2.len(),
                    mat_input_bounds(m1@, m2@, gb1, gb2, inner_dim as int),
                    row < m1_rows,
                    col < m2_cols,
                    k <= inner_dim,
                    sum == mat_dot(
                        m1@,
                        m2@,
                        row as int,
                        col as int,
                        inner_dim as nat,
                        m2_cols as int,
                        k as nat,
                    ),
                decreases inner_dim - k,
            {
                proof {
                    assert((row + 1) * inner_dim <= m1_rows * inner_dim) by (nonlinear_arith)
                        requires
                            row + 1 <= m1_rows,
                            0 <= inner_dim,
                    ;
                    lemma_mat_dot_bounds(
                        m1@,
                        m2@,
                        row as int,
                        col as int,
                        inner_dim as nat,
                        m2_cols as int,
                        k as nat,
                        gb1,
                        gb2,
                    );
                    assert(0 <= row * inner_dim + k < m1.len()) by (nonlinear_arith)
                        requires
                            0 <= row,
                            0 <= k < inner_dim,
                            (row + 1) * inner_dim <= m1.len(),
                    ;
                    assert(0 <= k * m2_cols + col < m2.len()) by (nonlinear_arith)
                        requires
                            0 <= col < m2_cols,
                            0 <= k < inner_dim,
                            inner_dim * m2_cols <= m2.len(),
                    ;
                    assert((gb1 * gb2) * (k as nat) + (gb1 * gb2) <= gb1 * gb2 * (
                    inner_dim as int) && -(gb1 * gb2) * (k as nat) - (gb1 * gb2) >= -(gb1 * gb2
                        * (inner_dim as int))) by (nonlinear_arith)
                        requires
                            0 <= gb1,
                            0 <= gb2,
                            0 <= k,
                            k + 1 <= inner_dim,
                    ;
                }
                let u = m1[row * inner_dim + k];
                let v = m2[k * m2_cols + col];
                proof {
                    assert(-(gb1 * gb2) <= u * v <= gb1 * gb2) by (nonlinear_arith)
                        requires
                            -gb1 <= u <= gb1,
                            -gb2 <= v <= gb2,
                            0 <= gb1,
                            0 <= gb2,
                    ;
                }
                sum = sum + u * v;
                k = k + 1;
            }
            proof {
                assert(0 <= row * m2_cols + col < m1_rows * m2_cols) by (nonlinear_arith)
                    requires
                        0 <= row < m1_rows,
                        0 <= col < m2_cols,
                ;
            }
            let idx = row * m2_cols + col;
            proof {
                assert(sum == mat_product_entry(
                    m1@,
                    m2@,
                    row as int,
                    col as int,
                    inner_dim as nat,
                    m2_cols as int,
                ));
            }
            let ghost prev = res@;
            res.set(idx, sum);
            proof {
                assert(res@ == prev.update(idx as int, sum));
                assert forall|r: int, c: int|
                    0 <= r && 0 <= c < m2_cols && (r < row || (r == row && c < col + 1))
                        implies res[r * m2_cols + c] == #[trigger] mat_product_entry(
                        m1@,
                        m2@,
                        r,
                        c,
                        inner_dim as nat,
                        m2_cols as int,
                    ) by {
                    if r == row as int && c == col as int {
                        assert(r * m2_cols + c == idx as int);
                        assert(res[idx as int] == sum);
                    } else {
                        if r * m2_cols + c == idx as int {
                            lemma_row_major_injective(m2_cols as int, r, c, row as int, col as int);
                            assert(false);
                        } else {
                            assert(0 <= r * m2_cols + c && r * m2_cols + c < m1_rows * m2_cols)
                                by (nonlinear_arith)
                                requires
                                    0 <= r < m1_rows,
                                    0 <= c < m2_cols,
                            ;
                            assert(res[r * m2_cols + c] == prev[r * m2_cols + c]);
                            assert(prev[r * m2_cols + c] == mat_product_entry(
                                m1@,
                                m2@,
                                r,
                                c,
                                inner_dim as nat,
                                m2_cols as int,
                            ));
                        }
                    }
                };
            }
            col = col + 1;
        }
        proof {
            assert(row * m2_cols + m2_cols == (row + 1) * m2_cols) by (nonlinear_arith);
        }
        row = row + 1;
    }
}

/// One term of the triple product `a * b * c` at row `row`, column `col`:
/// `a[row][j] * b[j][k] * c[k][col]`, with `a` of width `n`, `b` of width
/// `p` and `c` of width `q`.
spec fn triple_term(
    a: Seq<i64>,
    b: Seq<i64>,
    c: Seq<i64>,
    row: int,
    col: int,
    n: nat,
    p: nat,
    q: int,
    j: int,
    k: int,
) -> int {
    (a[row * n + j] * b[j * p + k]) * c[k * q + col]
}

/// Triple-product terms summed over `j < jj` for one fixed `k`.
spec fn triple_sum_j(
    a: Seq<i64>,
    b: Seq<i64>,
    c: Seq<i64>,
    row: int,
    col: int,
    n: nat,
    p: nat,
    q: int,
    k: int,
    jj: nat,
) -> int
    decreases jj,
{
    if jj == 0 {
        0
    } else {
        triple_sum_j(a, b, c, row, col, n, p, q, k, (jj - 1) as nat) + triple_term(
            a,
            b,
            c,
            row,
            col,
            n,
            p,
            q,
            jj - 1,
            k,
        )
    }
}

/// Triple-product terms summed over `k < kk`, then `j < jj`.
spec fn triple_sum_kj(
    a: Seq<i64>,
    b: Seq<i64>,
    c: Seq<i64>,
    row: int,
    col: int,
    n: nat,
    p: nat,
    q: int,
    kk: nat,
    jj: nat,
) -> int
    decreases kk,
{
    if kk == 0 {
        0
    } else {
        triple_sum_kj(a, b, c, row, col, n, p, q, (kk - 1) as nat, jj) + triple_sum_j(
            a,
            b,
            c,
            row,
            col,
            n,
            p,
            q,
            kk - 1,
            jj,
        )
    }
}

/// Triple-product terms summed over `k < kk` for one fixed `j`.
spec fn triple_sum_k(
    a: Seq<i64>,
    b: Seq<i64>,
    c: Seq<i64>,
    row: int,
    col: int,
    n: nat,
    p: nat,
    q: int,
    j: int,
    kk: nat,
) -> int
    decreases kk,
{
    if kk == 0 {
        0
    } else {
        triple_sum_k(a, b, c, row, col, n, p, q, j, (kk - 1) as nat) + triple_term(
            a,
            b,
            c,
            row,
            col,
            n,
            p,
            q,
            j,
            kk - 1,
        )
    }
}

/// Triple-product terms summed over `j < jj`, then `k < kk`.
spec fn triple_sum_jk(
    a: Seq<i64>,
    b: Seq<i64>,
    c: Seq<i64>,
    row: int,
    col: int,
    n: nat,
    p: nat,
    q: int,
    jj: nat,
    kk: nat,
) -> int
    decreases jj,
{
    if jj == 0 {
        0
    } else {
        triple_sum_jk(a, b, c, row, col, n, p, q, (jj - 1) as nat, kk) + triple_sum_k(
            a,
            b,
            c,
            row,
            col,
            n,
            p,
            q,
            jj - 1,
            kk,
        )
    }
}

/// Extending the inner `k` range by one adds one column of terms.
proof fn lemma_triple_col_step(
    a: Seq<i64>,
    b: Seq<i64>,
    c: Seq<i64>,
    row: int,
    col: int,
    n: nat,
    p: nat,
    q: int,
    jj: nat,
    k: int,
)
    requires
        0 <= k,
    ensures
        triple_sum_jk(a, b, c, row, col, n, p, q, jj, (k + 1) as nat) == triple_sum_jk(
            a,
            b,
            c,
            row,
            col,
            n,
            p,
            q,
            jj,
            k as nat,
        ) + triple_sum_j(a, b, c, row, col, n, p, q, k, jj),
    decreases jj,
{
    if jj > 0 {
        lemma_triple_col_step(a, b, c, row, col, n, p, q, (jj - 1) as nat, k);
    }
}

/// An empty inner range sums to zero however long the outer range is.
proof fn lemma_triple_jk_empty(
    a: Seq<i64>,
    b: Seq<i64>,
    c: Seq<i64>,
    row: int,
    col: int,
    n: nat,
    p: nat,
    q: int,
    jj: nat,
)
    ensures
        triple_sum_jk(a, b, c, row, col, n, p, q, jj, 0) == 0,
    decreases jj,
{
    if jj > 0 {
        lemma_triple_jk_empty(a, b, c, row, col, n, p, q, (jj - 1) as nat);
    }
}

/// The two summation orders of the triple product agree.
proof fn lemma_triple_fubini(
    a: Seq<i64>,
    b: Seq<i64>,
    c: Seq<i64>,
    row: int,
    col: int,
    n: nat,
    p: nat,
    q: int,
    kk: nat,
    jj: nat,
)
    ensures
        triple_sum_kj(a, b, c, row, col, n, p, q, kk, jj) == triple_sum_jk(
            a,
            b,
            c,
            row,
            col,
            n,
            p,
            q,
            jj,
            kk,
        ),
    decreases kk,
{
    if kk > 0 {
        lemma_triple_fubini(a, b, c, row, col, n, p, q, (kk - 1) as nat, jj);
        lemma_triple_col_step(a, b, c, row, col, n, p, q, jj, kk - 1);
    } else {
        lemma_triple_jk_empty(a, b, c, row, col, n, p, q, jj);
    }
}

/// A dot product of row `row` of `a` with column `k` of `b`, scaled by one
/// factor, distributes into a sum of triple terms.
proof fn lemma_scale_ab_column(
    a: Seq<i64>,
    b: Seq<i64>,
    c: Seq<i64>,
    row: int,
    col: int,
    n: nat,
    p: nat,
    q: int,
    k: int,
    jj: nat,
)
    ensures
        triple_sum_j(a, b, c, row, col, n, p, q, k, jj) == mat_dot(a, b, row, k, n, p as int, jj)
            * c[k * q + col],
    decreases jj,
{
    if jj == 0 {
        assert(0 * c[k * q + col] == 0) by (nonlinear_arith);
    } else {
        lemma_scale_ab_column(a, b, c, row, col, n, p, q, k, (jj - 1) as nat);
        let d = mat_dot(a, b, row, k, n, p as int, (jj - 1) as nat);
        let t = a[row * n + (jj - 1)] * b[(jj - 1) * p + k];
        let cv = c[k * q + col];
        assert((d + t) * cv == d * cv + t * cv) by (nonlinear_arith);
    }
}

/// A dot product of row `j` of `b` with column `col` of `c`, scaled by one
/// factor, distributes into a sum of triple terms.
proof fn lemma_scale_bc_row(
    a: Seq<i64>,
    b: Seq<i64>,
    c: Seq<i64>,
    row: int,
    col: int,
    n: nat,
    p: nat,
    q: int,
    j: int,
    kk: nat,
)
    ensures
        triple_sum_k(a, b, c, row, col, n, p, q, j, kk) == a[row * n + j] * mat_dot(
            b,
            c,
            j,
            col,
            p,
            q,
            kk,
        ),
    decreases kk,
{
    if kk == 0 {
        assert(a[row * n + j] * 0 == 0) by (nonlinear_arith);
    } else {
        lemma_scale_bc_row(a, b, c, row, col, n, p, q, j, (kk - 1) as nat);
        let av = a[row * n + j];
        let d = mat_dot(b, c, j, col, p, q, (kk - 1) as nat);
        let t = b[j * p + (kk - 1)] * c[(kk - 1) * q + col];
        assert(av * (d + t) == av * d + av * t) by (nonlinear_arith);
        assert((av * b[j * p + (kk - 1)]) * c[(kk - 1) * q + col] == av * (b[j * p + (kk - 1)]
            * c[(kk - 1) * q + col])) by (nonlinear_arith);
    }
}

/// The left-associated product entry expands into the double sum.
proof fn lemma_left_assoc_expands(
    a: Seq<i64>,
    b: Seq<i64>,
    c: Seq<i64>,
    ab: Seq<i64>,
    row: int,
    col: int,
    n: nat,
    p: nat,
    q: int,
    kk: nat,
)
    requires
        0 <= row,
        forall|k: int| 0 <= k < p ==> ab[row * p + k] == #[trigger] mat_product_entry(
            a,
            b,
            row,
            k,
            n,
            p as int,
        ),
        kk <= p,
    ensures
        mat_dot(ab, c, row, col, p, q, kk) == triple_sum_kj(a, b, c, row, col, n, p, q, kk, n),
    decreases kk,
{
    if kk > 0 {
        lemma_left_assoc_expands(a, b, c, ab, row, col, n, p, q, (kk - 1) as nat);
        lemma_scale_ab_column(a, b, c, row, col, n, p, q, kk - 1, n);
        assert(ab[row * p + (kk - 1)] == mat_product_entry(a, b, row, kk - 1, n, p as int));
    }
}

/// The right-associated product entry expands into the other double sum.
proof fn lemma_right_assoc_expands(
    a: Seq<i64>,
    b: Seq<i64>,
    c: Seq<i64>,
    bc: Seq<i64>,
    row: int,
    col: int,
    n: nat,
    p: nat,
    q: int,
    jj: nat,
)
    requires
        0 <= col,
        forall|j: int| 0 <= j < n ==> bc[j * q + col] == #[trigger] mat_product_entry(
            b,
            c,
            j,
            col,
            p,
            q,
        ),
        jj <= n,
    ensures
        mat_dot(a, bc, row, col, n, q, jj) == triple_sum_jk(a, b, c, row, col, n, p, q, jj, p),
    decreases jj,
{
    if jj > 0 {
        lemma_right_assoc_expands(a, b, c, bc, row, col, n, p, q, (jj - 1) as nat);
        lemma_scale_bc_row(a, b, c, row, col, n, p, q, jj - 1, p);
        assert(bc[(jj - 1) * q + col] == mat_product_entry(b, c, jj - 1, col, p, q));
    }
}

/// Matrix-multiply associativity law: when `ab` holds the exact product
/// `a * b` along row `row` and `bc` holds the exact product `b * c` along
/// column `col`, the `(row, col)` entry of `ab * c` equals the `(row, col)`
/// entry of `a * bc` — `(A*B)*C == A*(B*C)`, exactly, entry by entry. Here
/// `a` is `rows` by `n`, `b` is `n` by `p`, and `c` is `p` by `q`.
pub proof fn lemma_mul_associative(
    a: Seq<i64>,
    b: Seq<i64>,
    c: Seq<i64>,
    ab: Seq<i64>,
    bc: Seq<i64>,
    row: int,
    col: int,
    n: nat,
    p: nat,
    q: int,
)
    requires
        0 <= row,
        0 <= col,
        forall|k: int| 0 <= k < p ==> ab[row * p + k] == #[trigger] mat_product_entry(
            a,
            b,
            row,
            k,
            n,
            p as int,
        ),
        forall|j: int| 0 <= j < n ==> bc[j * q + col] == #[trigger] mat_product_entry(
            b,
            c,
            j,
            col,
            p,
            q,
        ),
    ensures
        mat_product_entry(ab, c, row, col, p, q) == mat_product_entry(a, bc, row, col, n, q),
{
    lemma_left_assoc_expands(a, b, c, ab, row, col, n, p, q, p);
    lemma_right_assoc_expands(a, b, c, bc, row, col, n, p, q, n);
    lemma_triple_fubini(a, b, c, row, col, n, p, q, p, n);
}

/// One entry of the identity matrix of any dimension.
pub open spec fn ident_entry(i: int, j: int) -> i64 {
    if i == j {
        1
    } else {
        0
    }
}

/// `m` is the `n` by `n` identity matrix.
pub open spec fn is_identity(m: Seq<i64>, n: int) -> bool {
    forall|i: int, j: int|
        0 <= i < n && 0 <= j < n ==> m[i * n + j] == #[trigger] ident_entry(i, j)
}

/// A partial dot product against an identity column picks out the one
/// matching entry once the scan has passed it.
proof fn lemma_dot_identity_right(m1: Seq<i64>, id: Seq<i64>, row: int, col: int, n: nat, k: nat)
    requires
        is_identity(id, n as int),
        0 <= row,
        0 <= col < n,
        k <= n,
    ensures
        mat_dot(m1, id, row, col, n, n as int, k) == if col < k {
            m1[row * n + col]
        } else {
            0
        },
    decreases k,
{
    if k > 0 {
        lemma_dot_identity_right(m1, id, row, col, n, (k - 1) as nat);
        assert(id[(k - 1) * (n as int) + col] == ident_entry(k - 1, col));
        if k - 1 == col {
            assert(m1[row * n + (k - 1)] * 1 == m1[row * n + col]);
        } else {
            assert(m1[row * n + (k - 1)] * 0 == 0) by (nonlinear_arith);
        }
    }
}

/// Matrix-multiply identity law, right side: every entry of `m1 * I` equals
/// the corresponding entry of `m1`.
pub proof fn lemma_mul_identity_right(m1: Seq<i64>, id: Seq<i64>, row: int, col: int, n: nat)
    requires
        is_identity(id, n as int),
        0 <= row,
        0 <= col < n,
    ensures
        mat_product_entry(m1, id, row, col, n, n as int) == m1[row * n + col],
{
    lemma_dot_identity_right(m1, id, row, col, n, n);
}

/// A partial dot product of an identity row picks out the one matching
/// entry once the scan has passed it.
proof fn lemma_dot_identity_left(id: Seq<i64>, m2: Seq<i64>, row: int, col: int, n: nat, m2_cols: int, k: nat)
    requires
        is_identity(id, n as int),
        0 <= row < n,
        0 <= col < m2_cols,
        k <= n,
    ensures
        mat_dot(id, m2, row, col, n, m2_cols, k) == if row < k {
            m2[row * m2_cols + col]
        } else {
            0
        },
    decreases k,
{
    if k > 0 {
        lemma_dot_identity_left(id, m2, row, col, n, m2_cols, (k - 1) as nat);
        assert(id[row * (n as int) + (k - 1)] == ident_entry(row, k - 1));
        if k - 1 == row {
            assert(1 * m2[row * m2_cols + col] == m2[row * m2_cols + col]) by (nonlinear_arith);
        } else {
            assert(0 * m2[(k - 1) * m2_cols + col] == 0) by (nonlinear_arith);
        }
    }
}

/// Matrix-multiply identity law, left side: every entry of `I * m2` equals
/// the corresponding entry of `m2`.
pub proof fn lemma_mul_identity_left(id: Seq<i64>, m2: Seq<i64>, row: int, col: int, n: nat, m2_cols: int)
    requires
        is_identity(id, n as int),
        0 <= row < n,
        0 <= col < m2_cols,
    ensures
        mat_product_entry(id, m2, row, col, n, m2_cols) == m2[row * m2_cols + col],
{
    lemma_dot_identity_left(id, m2, row, col, n, m2_cols, n);
}

} // verus!
