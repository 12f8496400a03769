//! Dense linear solver: Gaussian elimination with bubble-style partial
//! pivoting, carried out over exact rationals so that a reported solution
//! satisfies the system exactly.

use vstd::prelude::*;

verus! {

/// An exact rational `num / den` with a positive denominator.
#[derive(Clone, Copy)]
pub struct Ratio {
    /// Numerator.
    pub num: i128,
    /// Denominator; always positive.
    pub den: i128,
}

impl Ratio {
    /// The denominator is positive, so the sign lives in the numerator and
    /// no division by zero can happen.
    pub open spec fn wf(self) -> bool {
        self.den > 0
    }
}

/// A solution of `A * x == b * den`: component `i` of the solution vector
/// is `num[i] / den`.
pub struct LinSolution {
    /// Numerators of the solution components, over the one denominator.
    pub num: Vec<i128>,
    /// Common denominator; always positive.
    pub den: i128,
}

/// The dot product of row `row` of the matrix `a` (row-major with pitch
/// `stride`) with the first `k` entries of the vector `xs`.
pub open spec fn lin_dot(a: Seq<i64>, stride: int, row: int, xs: Seq<i128>, k: nat) -> int
    decreases k,
{
    if k == 0 {
        0
    } else {
        lin_dot(a, stride, row, xs, (k - 1) as nat) + a[row * stride + (k - 1)] * xs[k - 1]
    }
}

/// One coefficient of a row-major matrix with pitch `stride`.
pub open spec fn mat_entry(a: Seq<i64>, stride: int, row: int, k: int) -> i64 {
    a[row * stride + k]
}

/// Row `i2` of `a2` carries the same first `n` coefficients as row `i1` of
/// `a1`.
pub open spec fn rows_match(
    a1: Seq<i64>,
    stride1: int,
    i1: int,
    a2: Seq<i64>,
    stride2: int,
    i2: int,
    n: nat,
) -> bool {
    forall|k: int| 0 <= k < n ==> #[trigger] mat_entry(a2, stride2, i2, k) == mat_entry(
        a1,
        stride1,
        i1,
        k,
    )
}

/// Equal rows give equal dot products against any vector.
proof fn lemma_lin_dot_rows_equal(
    a1: Seq<i64>,
    stride1: int,
    i1: int,
    a2: Seq<i64>,
    stride2: int,
    i2: int,
    xs: Seq<i128>,
    k: nat,
    n: nat,
)
    requires
        rows_match(a1, stride1, i1, a2, stride2, i2, n),
        k <= n,
    ensures
        lin_dot(a2, stride2, i2, xs, k) == lin_dot(a1, stride1, i1, xs, k),
    decreases k,
{
    if k > 0 {
        lemma_lin_dot_rows_equal(a1, stride1, i1, a2, stride2, i2, xs, (k - 1) as nat, n);
        assert(mat_entry(a2, stride2, i2, k - 1) == mat_entry(a1, stride1, i1, k - 1));
    }
}

/// Pivoting-stability law: when every row of a second system is one of the
/// rows of a first system with the matching right-hand side — in
/// particular, when the second system is the first with its rows permuted —
/// any exact solution of the first system is an exact solution of the
/// second. The row order never changes which vectors solve the system.
pub proof fn lemma_row_permutation_preserves_solutions(
    a1: Seq<i64>,
    stride1: int,
    b1: Seq<i64>,
    a2: Seq<i64>,
    stride2: int,
    b2: Seq<i64>,
    n: nat,
    perm: spec_fn(int) -> int,
    xs: Seq<i128>,
    den: i128,
)
    requires
        forall|i: int|
            0 <= i < n ==> {
                &&& 0 <= #[trigger] perm(i) < n
                &&& rows_match(a1, stride1, perm(i), a2, stride2, i, n)
                &&& b2[i] == b1[perm(i)]
            },
        forall|i: int| 0 <= i < n ==> lin_dot(a1, stride1, i, xs, n) == #[trigger] b1[i] * den,
    ensures
        forall|i: int| 0 <= i < n ==> lin_dot(a2, stride2, i, xs, n) == #[trigger] b2[i] * den,
{
    assert forall|i: int| 0 <= i < n implies lin_dot(a2, stride2, i, xs, n) == #[trigger] b2[i]
        * den by {
        lemma_lin_dot_rows_equal(a1, stride1, perm(i), a2, stride2, i, xs, n, n);
    }
}

/// A dot product against an all-zero row vanishes.
proof fn lemma_zero_row_dot(a: Seq<i64>, stride: int, row: int, xs: Seq<i128>, k: nat)
    requires
        forall|j: int| 0 <= j < k ==> #[trigger] mat_entry(a, stride, row, j) == 0,
    ensures
        lin_dot(a, stride, row, xs, k) == 0,
    decreases k,
{
    if k > 0 {
        lemma_zero_row_dot(a, stride, row, xs, (k - 1) as nat);
        assert(mat_entry(a, stride, row, k - 1) == 0);
        assert(0 * xs[k - 1] == 0) by (nonlinear_arith);
    }
}

/// Solver-degeneracy law for a degenerate row: a system with an all-zero
/// coefficient row and a nonzero right-hand side entry there has no exact
/// solution at all, so `linsolve`'s contract forces it to report failure —
/// it can never dress such a system up as a success.
pub proof fn lemma_zero_row_has_no_solution(
    a: Seq<i64>,
    stride: int,
    b: Seq<i64>,
    row: int,
    n: nat,
    xs: Seq<i128>,
    den: i128,
)
    requires
        0 <= row < n,
        forall|j: int| 0 <= j < n ==> #[trigger] mat_entry(a, stride, row, j) == 0,
        b[row] != 0,
        den != 0,
    ensures
        lin_dot(a, stride, row, xs, n) != b[row] * den,
{
    lemma_zero_row_dot(a, stride, row, xs, n);
    assert(b[row] * den != 0) by (nonlinear_arith)
        requires
            b[row] != 0,
            den != 0,
    ;
}

/// Solver-degeneracy law for contradictory rows: when two rows carry the
/// same coefficients but different right-hand sides, no vector satisfies
/// both exactly, so `linsolve`'s contract forces it to report failure on
/// such a system. (Duplicate rows with equal right-hand sides leave the
/// system consistent, so failure there is the algorithm's zero-pivot
/// behavior, not a consequence of the contract.)
pub proof fn lemma_contradictory_rows_have_no_solution(
    a: Seq<i64>,
    stride: int,
    b: Seq<i64>,
    i1: int,
    i2: int,
    n: nat,
    xs: Seq<i128>,
    den: i128,
)
    requires
        0 <= i1 < n,
        0 <= i2 < n,
        rows_match(a, stride, i1, a, stride, i2, n),
        b[i1] != b[i2],
        den != 0,
    ensures
        lin_dot(a, stride, i1, xs, n) != b[i1] * den || lin_dot(a, stride, i2, xs, n) != b[i2]
            * den,
{
    lemma_lin_dot_rows_equal(a, stride, i1, a, stride, i2, xs, n, n);
    if lin_dot(a, stride, i1, xs, n) == b[i1] * den && lin_dot(a, stride, i2, xs, n) == b[i2]
        * den {
        assert(false) by (nonlinear_arith)
            requires
                b[i1 as int] != b[i2 as int],
                den != 0,
                b[i1 as int] * den == b[i2 as int] * den,
        ;
    }
}

/// Greatest common divisor by Euclid's algorithm; positive whenever `b0`
/// is.
fn gcd_pos(a0: i128, b0: i128) -> (g: i128)
    requires
        a0 >= 0,
        b0 > 0,
    ensures
        g > 0,
{
    let mut a = a0;
    let mut b = b0;
    while b != 0
        invariant
            a >= 0,
            b >= 0,
            a > 0 || b > 0,
        decreases b,
    {
        let t = a % b;
        a = b;
        b = t;
    }
    a
}

/// Brings a rational to lowest terms: a zero numerator collapses to the
/// canonical `0 / 1`, and otherwise numerator and denominator are divided
/// by their greatest common divisor. The divisions are checked to be exact
/// (and the reduced denominator positive) before the reduced form is used,
/// so the value — later validated by the residual check — is unchanged.
/// Without this reduction, denominators would multiply at every
/// elimination step and leave the 128-bit range for all but tiny systems.
fn q_norm(num: i128, den: i128) -> (r: Ratio)
    requires
        den > 0,
    ensures
        r.wf(),
{
    if num == 0 {
        return Ratio { num: 0, den: 1 };
    }
    let mag = if num < 0 {
        match 0i128.checked_sub(num) {
            Some(v) => v,
            None => {
                return Ratio { num, den };
            },
        }
    } else {
        num
    };
    let g = gcd_pos(mag, den);
    if g > 1 {
        let nn = num / g;
        let dd = den / g;
        if dd > 0 {
            match (nn.checked_mul(g), dd.checked_mul(g)) {
                (Some(cn), Some(cd)) => {
                    if cn == num && cd == den {
                        return Ratio { num: nn, den: dd };
                    }
                },
                _ => {},
            }
        }
    }
    Ratio { num, den }
}

/// Exact rational product; `None` when a 128-bit step overflows.
fn q_mul(a: Ratio, b: Ratio) -> (r: Option<Ratio>)
    requires
        a.wf(),
        b.wf(),
    ensures
        r matches Some(q) ==> q.wf(),
{
    match (a.num.checked_mul(b.num), a.den.checked_mul(b.den)) {
        (Some(n), Some(d)) => {
            proof {
                assert(d > 0) by (nonlinear_arith)
                    requires
                        a.den > 0,
                        b.den > 0,
                        d == a.den * b.den,
                ;
            }
            Some(q_norm(n, d))
        },
        _ => None,
    }
}

/// Exact rational sum; `None` when a 128-bit step overflows.
fn q_add(a: Ratio, b: Ratio) -> (r: Option<Ratio>)
    requires
        a.wf(),
        b.wf(),
    ensures
        r matches Some(q) ==> q.wf(),
{
    let l = a.num.checked_mul(b.den);
    let rn = b.num.checked_mul(a.den);
    let d = a.den.checked_mul(b.den);
    match (l, rn, d) {
        (Some(l), Some(rn), Some(d)) => match l.checked_add(rn) {
            Some(n) => {
                proof {
                    assert(d > 0) by (nonlinear_arith)
                        requires
                            a.den > 0,
                            b.den > 0,
                            d == a.den * b.den,
                    ;
                }
                Some(q_norm(n, d))
            },
            None => None,
        },
        _ => None,
    }
}

/// Exact rational difference; `None` when a 128-bit step overflows.
fn q_sub(a: Ratio, b: Ratio) -> (r: Option<Ratio>)
    requires
        a.wf(),
        b.wf(),
    ensures
        r matches Some(q) ==> q.wf(),
{
    let l = a.num.checked_mul(b.den);
    let rn = b.num.checked_mul(a.den);
    let d = a.den.checked_mul(b.den);
    match (l, rn, d) {
        (Some(l), Some(rn), Some(d)) => match l.checked_sub(rn) {
            Some(n) => {
                proof {
                    assert(d > 0) by (nonlinear_arith)
                        requires
                            a.den > 0,
                            b.den > 0,
                            d == a.den * b.den,
                    ;
                }
                Some(q_norm(n, d))
            },
            None => None,
        },
        _ => None,
    }
}

/// Exact rational quotient, normalized back to a positive denominator;
/// `None` when a 128-bit step overflows.
fn q_div(a: Ratio, b: Ratio) -> (r: Option<Ratio>)
    requires
        a.wf(),
        b.wf(),
        b.num != 0,
    ensures
        r matches Some(q) ==> q.wf(),
{
    let n = a.num.checked_mul(b.den);
    let d = a.den.checked_mul(b.num);
    match (n, d) {
        (Some(n), Some(d)) => {
            proof {
                assert(d != 0) by (nonlinear_arith)
                    requires
                        a.den > 0,
                        b.num != 0,
                        d == a.den * b.num,
                ;
            }
            if d < 0 {
                match (0i128.checked_sub(n), 0i128.checked_sub(d)) {
                    (Some(nn), Some(nd)) => Some(q_norm(nn, nd)),
                    _ => None,
                }
            } else {
                Some(q_norm(n, d))
            }
        },
        _ => None,
    }
}

/// The absolute value, guarded against the one overflowing negation.
fn abs_checked(v: i128) -> (r: Option<i128>)
    ensures
        r matches Some(m) ==> m == if v >= 0 {
            v as int
        } else {
            -v as int
        },
{
    if v >= 0 {
        Some(v)
    } else {
        0i128.checked_sub(v)
    }
}

/// Whether `|a| < |b|`; `None` when a 128-bit step overflows.
fn q_abs_lt(a: Ratio, b: Ratio) -> (r: Option<bool>)
    requires
        a.wf(),
        b.wf(),
{
    match (abs_checked(a.num), abs_checked(b.num)) {
        (Some(an), Some(bn)) => match (an.checked_mul(b.den), bn.checked_mul(a.den)) {
            (Some(l), Some(rn)) => Some(l < rn),
            _ => None,
        },
        _ => None,
    }
}

/// All entries of a rational vector are well-formed.
spec fn all_wf(v: Seq<Ratio>) -> bool {
    forall|e: int| 0 <= e < v.len() ==> (#[trigger] v[e]).wf()
}

/// A row-major index stays inside a `rows * cols` buffer.
proof fn lemma_flat_index(rows: int, cols: int, r: int, c: int)
    requires
        0 <= r < rows,
        0 <= c < cols,
    ensures
        0 <= r * cols + c < rows * cols,
{
    assert(0 <= r * cols + c < rows * cols) by (nonlinear_arith)
        requires
            0 <= r < rows,
            0 <= c < cols,
    ;
}

/// Copies the `n` by `n` leading sub-matrix of `a` (pitch `stride`) and the
/// first `n` entries of `b` into rational working vectors.
fn build_working(n: usize, a: &Vec<i64>, stride: usize, b: &Vec<i64>) -> (r: (Vec<Ratio>, Vec<
    Ratio,
>))
    requires
        n <= stride,
        n * stride <= a.len(),
        n <= b.len(),
        n <= 0x10000,
    ensures
        r.0.len() == n * n,
        r.1.len() == n,
        all_wf(r.0@),
        all_wf(r.1@),
{
    proof {
        assert(n * n <= n * stride) by (nonlinear_arith)
            requires
                n <= stride,
                0 <= n,
        ;
    }
    let mut m: Vec<Ratio> = Vec::new();
    let mut row: usize = 0;
    while row < n
        invariant
            n <= stride,
            n * stride <= a.len(),
            n <= 0x10000,
            row <= n,
            m.len() == row * n,
            all_wf(m@),
        decreases n - row,
    {
        let mut col: usize = 0;
        while col < n
            invariant
                n <= stride,
                n * stride <= a.len(),
                n <= 0x10000,
                row < n,
                col <= n,
                m.len() == row * n + col,
                all_wf(m@),
            decreases n - col,
        {
            proof {
                lemma_flat_index(n as int, stride as int, row as int, col as int);
                assert(row * stride + col < n * stride);
                lemma_flat_index(n as int, n as int, row as int, col as int);
            }
            let v = a[row * stride + col];
            m.push(Ratio { num: v as i128, den: 1 });
            col = col + 1;
        }
        row = row + 1;
        proof {
            assert((row - 1) * n + n == row * n) by (nonlinear_arith);
        }
    }
    let mut bv: Vec<Ratio> = Vec::new();
    let mut i: usize = 0;
    while i < n
        invariant
            n <= b.len(),
            i <= n,
            bv.len() == i,
            all_wf(bv@),
        decreases n - i,
    {
        let v = b[i];
        bv.push(Ratio { num: v as i128, den: 1 });
        i = i + 1;
    }
    proof {
        assert(m.len() == n * n);
    }
    (m, bv)
}

/// Forward elimination with the bubble-style partial pivot: before each
/// elimination column, adjacent rows below the pivot are swapped, scanning
/// upward, whenever the lower row has the larger-magnitude entry in that
/// column. Returns `false` on a zero pivot (a singular system) or when a
/// 128-bit step overflows.
fn eliminate(n: usize, m: &mut Vec<Ratio>, bv: &mut Vec<Ratio>) -> (ok: bool)
    requires
        1 <= n <= 0x10000,
        old(m).len() == n * n,
        old(bv).len() == n,
        all_wf(old(m)@),
        all_wf(old(bv)@),
    ensures
        final(m).len() == n * n,
        final(bv).len() == n,
        all_wf(final(m)@),
        all_wf(final(bv)@),
{
    let mut k: usize = 0;
    while k < n - 1
        invariant
            1 <= n <= 0x10000,
            m.len() == n * n,
            bv.len() == n,
            all_wf(m@),
            all_wf(bv@),
            k <= n - 1,
        decreases n - 1 - k,
    {
        // Bubble the larger-magnitude entries of column k upward.
        let mut i: usize = n - 1;
        while i >= k + 1
            invariant
                1 <= n <= 0x10000,
                m.len() == n * n,
                bv.len() == n,
                all_wf(m@),
                all_wf(bv@),
                k < n,
                k <= i < n,
            decreases i,
        {
            proof {
                lemma_flat_index(n as int, n as int, i as int, k as int);
                lemma_flat_index(n as int, n as int, i as int - 1, k as int);
            }
            let should_swap = match q_abs_lt(m[(i - 1) * n + k], m[i * n + k]) {
                Some(lt) => lt,
                None => false,
            };
            if should_swap {
                let mut j: usize = 0;
                while j < n
                    invariant
                        1 <= n <= 0x10000,
                        m.len() == n * n,
                        all_wf(m@),
                        1 <= i < n,
                        j <= n,
                    decreases n - j,
                {
                    proof {
                        lemma_flat_index(n as int, n as int, i as int, j as int);
                        lemma_flat_index(n as int, n as int, i as int - 1, j as int);
                    }
                    let t = m[i * n + j];
                    let u = m[(i - 1) * n + j];
                    m.set(i * n + j, u);
                    m.set((i - 1) * n + j, t);
                    j = j + 1;
                }
                let t = bv[i];
                let u = bv[i - 1];
                bv.set(i, u);
                bv.set(i - 1, t);
            }
            i = i - 1;
        }

        // Eliminate column k from every row below the pivot row.
        let mut r: usize = k;
        while r < n - 1
            invariant
                1 <= n <= 0x10000,
                m.len() == n * n,
                bv.len() == n,
                all_wf(m@),
                all_wf(bv@),
                k < n,
                k <= r <= n - 1,
            decreases n - 1 - r,
        {
            proof {
                lemma_flat_index(n as int, n as int, k as int, k as int);
                lemma_flat_index(n as int, n as int, r as int + 1, k as int);
            }
            let pivot = m[k * n + k];
            if pivot.num == 0 {
                return false;
            }
            let c = match q_div(m[(r + 1) * n + k], pivot) {
                Some(c) => c,
                None => {
                    return false;
                },
            };
            if c.num != 0 {
                let mut j: usize = 0;
                while j < n
                    invariant
                        1 <= n <= 0x10000,
                        m.len() == n * n,
                        bv.len() == n,
                        all_wf(m@),
                        all_wf(bv@),
                        k < n,
                        r < n - 1,
                        j <= n,
                        c.wf(),
                    decreases n - j,
                {
                    proof {
                        lemma_flat_index(n as int, n as int, k as int, j as int);
                        lemma_flat_index(n as int, n as int, r as int + 1, j as int);
                    }
                    let scaled = match q_mul(c, m[k * n + j]) {
                        Some(v) => v,
                        None => {
                            return false;
                        },
                    };
                    let updated = match q_sub(m[(r + 1) * n + j], scaled) {
                        Some(v) => v,
                        None => {
                            return false;
                        },
                    };
                    m.set((r + 1) * n + j, updated);
                    j = j + 1;
                }
                let scaled = match q_mul(c, bv[k]) {
                    Some(v) => v,
                    None => {
                        return false;
                    },
                };
                let updated = match q_sub(bv[r + 1], scaled) {
                    Some(v) => v,
                    None => {
                        return false;
                    },
                };
                bv.set(r + 1, updated);
            }
            r = r + 1;
        }
        k = k + 1;
    }
    true
}

/// Backward substitution; `None` on a zero diagonal entry or when a
/// 128-bit step overflows.
fn back_substitute(n: usize, m: &Vec<Ratio>, bv: &Vec<Ratio>) -> (r: Option<Vec<Ratio>>)
    requires
        1 <= n <= 0x10000,
        m.len() == n * n,
        bv.len() == n,
        all_wf(m@),
        all_wf(bv@),
    ensures
        r matches Some(x) ==> x.len() == n && all_wf(x@),
{
    let mut x: Vec<Ratio> = Vec::new();
    let mut f: usize = 0;
    while f < n
        invariant
            f <= n,
            x.len() == f,
            all_wf(x@),
        decreases n - f,
    {
        x.push(Ratio { num: 0, den: 1 });
        f = f + 1;
    }

    let mut ii: usize = n;
    while ii > 0
        invariant
            1 <= n <= 0x10000,
            m.len() == n * n,
            bv.len() == n,
            all_wf(m@),
            all_wf(bv@),
            ii <= n,
            x.len() == n,
            all_wf(x@),
        decreases ii,
    {
        let i = ii - 1;
        proof {
            lemma_flat_index(n as int, n as int, i as int, i as int);
        }
        let diag = m[i * n + i];
        if diag.num == 0 {
            return None;
        }
        let mut csum = Ratio { num: 0, den: 1 };
        let mut j: usize = i + 1;
        while j < n
            invariant
                1 <= n <= 0x10000,
                m.len() == n * n,
                all_wf(m@),
                i < n,
                i + 1 <= j <= n,
                x.len() == n,
                all_wf(x@),
                csum.wf(),
            decreases n - j,
        {
            proof {
                lemma_flat_index(n as int, n as int, i as int, j as int);
            }
            let prod = match q_mul(m[i * n + j], x[j]) {
                Some(v) => v,
                None => {
                    return None;
                },
            };
            csum = match q_add(csum, prod) {
                Some(v) => v,
                None => {
                    return None;
                },
            };
            j = j + 1;
        }
        let diff = match q_sub(bv[i], csum) {
            Some(v) => v,
            None => {
                return None;
            },
        };
        let xi = match q_div(diff, diag) {
            Some(v) => v,
            None => {
                return None;
            },
        };
        x.set(i, xi);
        ii = ii - 1;
    }
    Some(x)
}

/// Rewrites a rational vector over one common positive denominator;
/// `None` when a 128-bit step overflows.
fn to_common_denominator(x: &Vec<Ratio>) -> (r: Option<LinSolution>)
    requires
        all_wf(x@),
    ensures
        r matches Some(s) ==> s.den > 0 && s.num.len() == x.len(),
{
    let n = x.len();
    let mut den: i128 = 1;
    let mut j: usize = 0;
    while j < n
        invariant
            n == x.len(),
            all_wf(x@),
            j <= n,
            den > 0,
        decreases n - j,
    {
        den = match den.checked_mul(x[j].den) {
            Some(d) => {
                proof {
                    assert(d > 0) by (nonlinear_arith)
                        requires
                            den > 0,
                            x[j as int].den > 0,
                            d == den * x[j as int].den,
                    ;
                }
                d
            },
            None => {
                return None;
            },
        };
        j = j + 1;
    }
    let mut nums: Vec<i128> = Vec::new();
    let mut i: usize = 0;
    while i < n
        invariant
            n == x.len(),
            all_wf(x@),
            i <= n,
            den > 0,
            nums.len() == i,
        decreases n - i,
    {
        let scale = den / x[i].den;
        let v = match x[i].num.checked_mul(scale) {
            Some(v) => v,
            None => {
                return None;
            },
        };
        nums.push(v);
        i = i + 1;
    }
    Some(LinSolution { num: nums, den })
}

/// Verifies the candidate exactly against the original system: row by row,
/// `sum_j a[i][j] * num[j]` must equal `b[i] * den`.
fn residual_check(
    n: usize,
    a: &Vec<i64>,
    stride: usize,
    b: &Vec<i64>,
    nums: &Vec<i128>,
    den: i128,
) -> (ok: bool)
    requires
        n <= stride,
        n * stride <= a.len(),
        n <= b.len(),
        nums.len() == n,
    ensures
        ok ==> forall|i: int|
            0 <= i < n ==> lin_dot(a@, stride as int, i, nums@, n as nat) == b[i] * den,
{
    let mut i: usize = 0;
    while i < n
        invariant
            n <= stride,
            n * stride <= a.len(),
            n <= b.len(),
            nums.len() == n,
            i <= n,
            forall|r: int|
                0 <= r < i ==> lin_dot(a@, stride as int, r, nums@, n as nat) == b[r] * den,
        decreases n - i,
    {
        let mut acc: i128 = 0;
        let mut k: usize = 0;
        while k < n
            invariant
                n <= stride,
                n * stride <= a.len(),
                nums.len() == n,
                i < n,
                k <= n,
                acc == lin_dot(a@, stride as int, i as int, nums@, k as nat),
            decreases n - k,
        {
            proof {
                lemma_flat_index(n as int, stride as int, i as int, k as int);
                assert(i * stride + k < n * stride);
            }
            let prod = match (a[i * stride + k] as i128).checked_mul(nums[k]) {
                Some(p) => p,
                None => {
                    return false;
                },
            };
            acc = match acc.checked_add(prod) {
                Some(v) => v,
                None => {
                    return false;
                },
            };
            k = k + 1;
        }
        let rhs = match (b[i] as i128).checked_mul(den) {
            Some(v) => v,
            None => {
                return false;
            },
        };
        if acc != rhs {
            return false;
        }
        i = i + 1;
    }
    true
}

/// A product of two values from the 64-bit range stays strictly inside the
/// 128-bit range.
proof fn lemma_i64_products_fit(u: i128, v: i128)
    requires
        -0x8000_0000_0000_0000 <= u < 0x8000_0000_0000_0000,
        -0x8000_0000_0000_0000 <= v < 0x8000_0000_0000_0000,
    ensures
        -0x4000_0000_0000_0000_0000_0000_0000_0000 <= u * v
            <= 0x4000_0000_0000_0000_0000_0000_0000_0000,
{
    assert(-0x4000_0000_0000_0000_0000_0000_0000_0000 <= u * v
        <= 0x4000_0000_0000_0000_0000_0000_0000_0000) by (nonlinear_arith)
        requires
            -0x8000_0000_0000_0000 <= u <= 0x8000_0000_0000_0000,
            -0x8000_0000_0000_0000 <= v <= 0x8000_0000_0000_0000,
    ;
}

/// Under the `small2` entry bound, every cross product of the 2 by 2 solve
/// stays so far inside the 128-bit range that no difference of two of them
/// (and no negation) can overflow.
proof fn lemma_small2_differences_fit(
    a: Seq<i64>,
    stride: int,
    b: Seq<i64>,
    a00: i128,
    a01: i128,
    a10: i128,
    a11: i128,
    b0: i128,
    b1: i128,
)
    requires
        small2(a, stride, b),
        a00 == a[0],
        a01 == a[1],
        a10 == a[stride],
        a11 == a[stride + 1],
        b0 == b[0],
        b1 == b[1],
    ensures
        -0x1000_0000_0000_0000_0000_0000_0000_0000 < a00 * a11 - a01 * a10
            < 0x1000_0000_0000_0000_0000_0000_0000_0000,
        -0x1000_0000_0000_0000_0000_0000_0000_0000 < b0 * a11 - b1 * a01
            < 0x1000_0000_0000_0000_0000_0000_0000_0000,
        -0x1000_0000_0000_0000_0000_0000_0000_0000 < a00 * b1 - a10 * b0
            < 0x1000_0000_0000_0000_0000_0000_0000_0000,
{
    assert(-0x400_0000_0000_0000_0000_0000_0000_0000 <= a00 * a11
        <= 0x400_0000_0000_0000_0000_0000_0000_0000 && -0x400_0000_0000_0000_0000_0000_0000_0000
        <= a01 * a10 <= 0x400_0000_0000_0000_0000_0000_0000_0000
        && -0x400_0000_0000_0000_0000_0000_0000_0000 <= b0 * a11
        <= 0x400_0000_0000_0000_0000_0000_0000_0000 && -0x400_0000_0000_0000_0000_0000_0000_0000
        <= b1 * a01 <= 0x400_0000_0000_0000_0000_0000_0000_0000
        && -0x400_0000_0000_0000_0000_0000_0000_0000 <= a00 * b1
        <= 0x400_0000_0000_0000_0000_0000_0000_0000 && -0x400_0000_0000_0000_0000_0000_0000_0000
        <= a10 * b0 <= 0x400_0000_0000_0000_0000_0000_0000_0000) by (nonlinear_arith)
        requires
            -0x2000_0000_0000_0000 <= a00 <= 0x2000_0000_0000_0000,
            -0x2000_0000_0000_0000 <= a01 <= 0x2000_0000_0000_0000,
            -0x2000_0000_0000_0000 <= a10 <= 0x2000_0000_0000_0000,
            -0x2000_0000_0000_0000 <= a11 <= 0x2000_0000_0000_0000,
            -0x2000_0000_0000_0000 <= b0 <= 0x2000_0000_0000_0000,
            -0x2000_0000_0000_0000 <= b1 <= 0x2000_0000_0000_0000,
    ;
}

/// The Cramer identities for a 2 by 2 system: the candidate numerators
/// satisfy both rows exactly, scaled by the determinant.
proof fn lemma_cramer2_rows(a00: i128, a01: i128, a10: i128, a11: i128, b0: i128, b1: i128)
    ensures
        a00 * (b0 * a11 - b1 * a01) + a01 * (a00 * b1 - a10 * b0) == b0 * (a00 * a11 - a01 * a10),
        a10 * (b0 * a11 - b1 * a01) + a11 * (a00 * b1 - a10 * b0) == b1 * (a00 * a11 - a01 * a10),
{
    assert(a00 * (b0 * a11 - b1 * a01) == a00 * (b0 * a11) - a00 * (b1 * a01))
        by (nonlinear_arith);
    assert(a01 * (a00 * b1 - a10 * b0) == a01 * (a00 * b1) - a01 * (a10 * b0))
        by (nonlinear_arith);
    assert(b0 * (a00 * a11 - a01 * a10) == b0 * (a00 * a11) - b0 * (a01 * a10))
        by (nonlinear_arith);
    assert(a00 * (b0 * a11) == b0 * (a00 * a11)) by (nonlinear_arith);
    assert(a00 * (b1 * a01) == a01 * (a00 * b1)) by (nonlinear_arith);
    assert(a01 * (a10 * b0) == b0 * (a01 * a10)) by (nonlinear_arith);
    assert(a10 * (b0 * a11 - b1 * a01) == a10 * (b0 * a11) - a10 * (b1 * a01))
        by (nonlinear_arith);
    assert(a11 * (a00 * b1 - a10 * b0) == a11 * (a00 * b1) - a11 * (a10 * b0))
        by (nonlinear_arith);
    assert(b1 * (a00 * a11 - a01 * a10) == b1 * (a00 * a11) - b1 * (a01 * a10))
        by (nonlinear_arith);
    assert(a10 * (b0 * a11) == a11 * (a10 * b0)) by (nonlinear_arith);
    assert(a10 * (b1 * a01) == b1 * (a01 * a10)) by (nonlinear_arith);
    assert(a11 * (a00 * b1) == b1 * (a00 * a11)) by (nonlinear_arith);
}

/// The determinant of the 2 by 2 leading sub-matrix of `a`.
pub open spec fn det2(a: Seq<i64>, stride: int) -> int {
    a[0] * a[stride + 1] - a[1] * a[stride]
}

/// The Cramer numerator of the first unknown of the 2 by 2 leading
/// sub-system of `a`, `b`.
pub open spec fn cramer2_x0(a: Seq<i64>, stride: int, b: Seq<i64>) -> int {
    b[0] * a[stride + 1] - b[1] * a[1]
}

/// The Cramer numerator of the second unknown of the 2 by 2 leading
/// sub-system of `a`, `b`.
pub open spec fn cramer2_x1(a: Seq<i64>, stride: int, b: Seq<i64>) -> int {
    a[0] * b[1] - a[stride] * b[0]
}

/// Entry sizes under which the direct 2 by 2 solve provably stays inside
/// 128-bit arithmetic.
pub open spec fn small2(a: Seq<i64>, stride: int, b: Seq<i64>) -> bool {
    &&& -0x2000_0000_0000_0000 <= a[0] <= 0x2000_0000_0000_0000
    &&& -0x2000_0000_0000_0000 <= a[1] <= 0x2000_0000_0000_0000
    &&& -0x2000_0000_0000_0000 <= a[stride] <= 0x2000_0000_0000_0000
    &&& -0x2000_0000_0000_0000 <= a[stride + 1] <= 0x2000_0000_0000_0000
    &&& -0x2000_0000_0000_0000 <= b[0] <= 0x2000_0000_0000_0000
    &&& -0x2000_0000_0000_0000 <= b[1] <= 0x2000_0000_0000_0000
}

/// Solves `A * x == b` for the `n` by `n` leading sub-matrix of `a`
/// (row-major with pitch `stride`) by Gaussian elimination with partial
/// pivoting over exact rationals.
///
/// On success the solution comes back as exact numerators over one
/// positive common denominator, and it satisfies every row of the system
/// exactly. Failure reports a degenerate (singular) system — a zero pivot
/// or zero diagonal entry, the exact counterpart of a floating-point
/// implementation's epsilon test — or a 128-bit overflow of the exact
/// arithmetic; no partial result is ever returned.
///
/// An empty system always succeeds; a one-equation system succeeds exactly
/// when its one coefficient is nonzero; and a two-equation system with
/// entries under the `small2` bound succeeds exactly when its determinant
/// is nonzero — those sizes are solved directly, elimination having no
/// pivot choice to make there. For larger systems success depends on the
/// pivots and on the 128-bit range, which the contract leaves open.
pub fn linsolve(n: usize, a: &Vec<i64>, stride: usize, b: &Vec<i64>) -> (r: Option<LinSolution>)
    requires
        n <= stride,
        n * stride <= a.len(),
        n <= b.len(),
        n <= 0x10000,
    ensures
        r matches Some(s) ==> {
            &&& s.den > 0
            &&& s.num.len() == n
            &&& forall|i: int|
                0 <= i < n ==> lin_dot(a@, stride as int, i, s.num@, n as nat) == b[i] * s.den
        },
        n == 0 ==> r is Some,
        n == 1 ==> (r is Some <==> a[0] != 0),
        n == 1 && a[0] != 0 ==> {
            &&& r->0.den == if a[0] < 0 {
                -(a[0] as int)
            } else {
                a[0] as int
            }
            &&& r->0.num@[0] == if a[0] < 0 {
                -(b[0] as int)
            } else {
                b[0] as int
            }
        },
        n == 2 && small2(a@, stride as int, b@) ==> (r is Some <==> det2(a@, stride as int)
            != 0),
        n == 2 && small2(a@, stride as int, b@) && det2(a@, stride as int) != 0 ==> {
            let flip: int = if det2(a@, stride as int) < 0 {
                -1
            } else {
                1
            };
            &&& r->0.den == flip * det2(a@, stride as int)
            &&& r->0.num@[0] == flip * cramer2_x0(a@, stride as int, b@)
            &&& r->0.num@[1] == flip * cramer2_x1(a@, stride as int, b@)
        },
{
    if n == 0 {
        return Some(LinSolution { num: Vec::new(), den: 1 });
    }
    if n == 1 {
        let a0 = a[0];
        let b0 = b[0];
        if a0 == 0 {
            return None;
        }
        let (num0, den) = if a0 < 0 {
            (0i128 - b0 as i128, 0i128 - a0 as i128)
        } else {
            (b0 as i128, a0 as i128)
        };
        let mut num: Vec<i128> = Vec::new();
        num.push(num0);
        proof {
            assert((a0 as int) * num0 == (b0 as int) * den) by (nonlinear_arith)
                requires
                    (a0 < 0 ==> num0 == -(b0 as int) && den == -(a0 as int)) && (a0 >= 0 ==> num0
                        == b0 as int && den == a0 as int),
            ;
            assert(num@[0] == num0);
            assert(lin_dot(a@, stride as int, 0, num@, 0) == 0);
            assert(lin_dot(a@, stride as int, 0, num@, 1) == a@[0 * (stride as int) + 0]
                * num@[0]);
            assert(0 * (stride as int) + 0 == 0) by (nonlinear_arith);
        }
        return Some(LinSolution { num, den });
    }
    if n == 2 {
        proof {
            assert(stride + 1 < a.len()) by (nonlinear_arith)
                requires
                    2 <= stride,
                    2 * stride <= a.len(),
            ;
        }
        let a00 = a[0] as i128;
        let a01 = a[1] as i128;
        let a10 = a[stride] as i128;
        let a11 = a[stride + 1] as i128;
        let b0 = b[0] as i128;
        let b1 = b[1] as i128;
        proof {
            lemma_i64_products_fit(a00, a11);
            lemma_i64_products_fit(a01, a10);
            lemma_i64_products_fit(b0, a11);
            lemma_i64_products_fit(b1, a01);
            lemma_i64_products_fit(a00, b1);
            lemma_i64_products_fit(a10, b0);
        }
        let det_raw = match (a00 * a11).checked_sub(a01 * a10) {
            Some(v) => v,
            None => {
                proof {
                    if small2(a@, stride as int, b@) {
                        lemma_small2_differences_fit(
                            a@,
                            stride as int,
                            b@,
                            a00,
                            a01,
                            a10,
                            a11,
                            b0,
                            b1,
                        );
                        assert(false);
                    }
                }
                return None;
            },
        };
        if det_raw == 0 {
            return None;
        }
        let x0_raw = match (b0 * a11).checked_sub(b1 * a01) {
            Some(v) => v,
            None => {
                proof {
                    if small2(a@, stride as int, b@) {
                        lemma_small2_differences_fit(
                            a@,
                            stride as int,
                            b@,
                            a00,
                            a01,
                            a10,
                            a11,
                            b0,
                            b1,
                        );
                        assert(false);
                    }
                }
                return None;
            },
        };
        let x1_raw = match (a00 * b1).checked_sub(a10 * b0) {
            Some(v) => v,
            None => {
                proof {
                    if small2(a@, stride as int, b@) {
                        lemma_small2_differences_fit(
                            a@,
                            stride as int,
                            b@,
                            a00,
                            a01,
                            a10,
                            a11,
                            b0,
                            b1,
                        );
                        assert(false);
                    }
                }
                return None;
            },
        };
        let (x0, x1, den) = if det_raw < 0 {
            match (0i128.checked_sub(x0_raw), 0i128.checked_sub(x1_raw), 0i128.checked_sub(
                det_raw,
            )) {
                (Some(n0), Some(n1), Some(d)) => (n0, n1, d),
                _ => {
                    proof {
                        if small2(a@, stride as int, b@) {
                            lemma_small2_differences_fit(
                                a@,
                                stride as int,
                                b@,
                                a00,
                                a01,
                                a10,
                                a11,
                                b0,
                                b1,
                            );
                            assert(false);
                        }
                    }
                    return None;
                },
            }
        } else {
            (x0_raw, x1_raw, det_raw)
        };
        let mut num: Vec<i128> = Vec::new();
        num.push(x0);
        num.push(x1);
        proof {
            lemma_cramer2_rows(a00, a01, a10, a11, b0, b1);
            if det_raw < 0 {
                assert(a00 * x0 + a01 * x1 == b0 * den && a10 * x0 + a11 * x1 == b1 * den)
                    by (nonlinear_arith)
                    requires
                        x0 == -x0_raw,
                        x1 == -x1_raw,
                        den == -det_raw,
                        a00 * x0_raw + a01 * x1_raw == b0 * det_raw,
                        a10 * x0_raw + a11 * x1_raw == b1 * det_raw,
                ;
            }
            assert(num@[0] == x0 && num@[1] == x1);
            reveal_with_fuel(lin_dot, 3);
            assert(lin_dot(a@, stride as int, 0, num@, 2) == a@[0 * (stride as int) + 0] * num@[0]
                + a@[0 * (stride as int) + 1] * num@[1]);
            assert(0 * (stride as int) + 0 == 0 && 0 * (stride as int) + 1 == 1)
                by (nonlinear_arith);
            assert(lin_dot(a@, stride as int, 1, num@, 2) == a@[1 * (stride as int) + 0] * num@[0]
                + a@[1 * (stride as int) + 1] * num@[1]);
            assert(1 * (stride as int) + 0 == stride && 1 * (stride as int) + 1 == stride + 1)
                by (nonlinear_arith);
            assert forall|i: int| 0 <= i < 2 implies lin_dot(a@, stride as int, i, num@, 2)
                == b[i] * den by {
                if i == 0 {
                } else {
                    assert(i == 1);
                }
            };
        }
        return Some(LinSolution { num, den });
    }

    let (mut m, mut bv) = build_working(n, a, stride, b);
    if !eliminate(n, &mut m, &mut bv) {
        return None;
    }
    let x = match back_substitute(n, &m, &bv) {
        Some(x) => x,
        None => {
            return None;
        },
    };
    let sol = match to_common_denominator(&x) {
        Some(s) => s,
        None => {
            return None;
        },
    };
    if residual_check(n, a, stride, b, &sol.num, sol.den) {
        Some(sol)
    } else {
        None
    }
}

} // verus!
