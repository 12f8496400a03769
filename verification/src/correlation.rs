//! Normalized cross-correlation: the exact sums behind the cosine
//! similarity of two residual sequences.

use vstd::prelude::*;

verus! {

/// Largest magnitude allowed for an entry of the correlation inputs; with
/// the length cap it keeps each accumulated sum inside a 64-bit integer.
pub const ENTRY_BOUND: i64 = 32767;

/// All entries of a sequence lie within the correlation input bound.
pub open spec fn entries_bounded(m: Seq<i64>) -> bool {
    forall|e: int| 0 <= e < m.len() ==> -ENTRY_BOUND <= #[trigger] m[e] <= ENTRY_BOUND
}

/// Dot product of the first `k` entries of `a` and `b`.
pub open spec fn cross_sum(a: Seq<i64>, b: Seq<i64>, k: nat) -> int
    decreases k,
{
    if k == 0 {
        0
    } else {
        cross_sum(a, b, (k - 1) as nat) + a[k - 1] * b[k - 1]
    }
}

/// Sum of the squares of the first `k` entries of `a`: correlating a
/// sequence with itself.
pub open spec fn sq_sum(a: Seq<i64>, k: nat) -> int {
    cross_sum(a, a, k)
}

/// A dot product of bounded entries is bounded by the squared entry bound
/// per term.
pub proof fn lemma_cross_sum_bounds(a: Seq<i64>, b: Seq<i64>, k: nat)
    requires
        entries_bounded(a),
        entries_bounded(b),
        k <= a.len(),
        k <= b.len(),
    ensures
        -1073676289 * k <= cross_sum(a, b, k) <= 1073676289 * k,
    decreases k,
{
    if k > 0 {
        lemma_cross_sum_bounds(a, b, (k - 1) as nat);
        let u = a[k - 1];
        let v = b[k - 1];
        assert(-1073676289 <= u * v <= 1073676289) by (nonlinear_arith)
            requires
                -32767 <= u <= 32767,
                -32767 <= v <= 32767,
        ;
        assert(-1073676289 * ((k - 1) as nat) - 1073676289 == -1073676289 * k && 1073676289 * ((k
            - 1) as nat) + 1073676289 == 1073676289 * k) by (nonlinear_arith)
            requires
                k >= 1,
        ;
    } else {
        assert(1073676289 * k == 0 && -1073676289 * k == 0) by (nonlinear_arith)
            requires
                k == 0,
        ;
    }
}

/// A sum of squares is never negative.
pub proof fn lemma_sq_sum_nonneg(a: Seq<i64>, k: nat)
    ensures
        sq_sum(a, k) >= 0,
    decreases k,
{
    if k > 0 {
        lemma_sq_sum_nonneg(a, (k - 1) as nat);
        let u = a[k - 1];
        assert(u * u >= 0) by (nonlinear_arith);
    }
}

/// The quadratic form behind the Cauchy-Schwarz induction: for any weights
/// `u`, `v`, the combination `sq_sum(a)*v^2 + sq_sum(b)*u^2 -
/// 2*cross_sum(a,b)*u*v` is a sum of squares `(a[i]*v - b[i]*u)^2`, so it
/// is never negative.
#[verifier::rlimit(100)]
proof fn lemma_bilinear_nonneg(a: Seq<i64>, b: Seq<i64>, k: nat, u: int, v: int)
    ensures
        sq_sum(a, k) * (v * v) + sq_sum(b, k) * (u * u) - 2 * (cross_sum(a, b, k) * (u * v)) >= 0,
    decreases k,
{
    if k == 0 {
    } else {
        lemma_bilinear_nonneg(a, b, (k - 1) as nat, u, v);
        let sa = sq_sum(a, (k - 1) as nat);
        let sb = sq_sum(b, (k - 1) as nat);
        let c = cross_sum(a, b, (k - 1) as nat);
        let p = a[k - 1] as int;
        let q = b[k - 1] as int;
        assert(sq_sum(a, k) == sa + p * p);
        assert(sq_sum(b, k) == sb + q * q);
        assert(cross_sum(a, b, k) == c + p * q);
        let s = p * v;
        let t = q * u;
        assert((s - t) * (s - t) == s * s - 2 * (s * t) + t * t) by (nonlinear_arith);
        assert((s - t) * (s - t) >= 0) by (nonlinear_arith);
        assert(s * s == p * p * (v * v)) by (nonlinear_arith)
            requires
                s == p * v,
        ;
        assert(t * t == q * q * (u * u)) by (nonlinear_arith)
            requires
                t == q * u,
        ;
        assert(s * t == (p * q) * (u * v)) by (nonlinear_arith)
            requires
                s == p * v,
                t == q * u,
        ;
        assert((sa + p * p) * (v * v) == sa * (v * v) + p * p * (v * v)) by (nonlinear_arith);
        assert((sb + q * q) * (u * u) == sb * (u * u) + q * q * (u * u)) by (nonlinear_arith);
        assert((c + p * q) * (u * v) == c * (u * v) + (p * q) * (u * v)) by (nonlinear_arith);
    }
}

/// Cauchy-Schwarz: the squared dot product never exceeds the product of
/// the squared magnitudes — the exact form of "a normalized correlation
/// lies in [-1, 1]".
pub proof fn lemma_cross_correlation_bound(a: Seq<i64>, b: Seq<i64>, k: nat)
    ensures
        cross_sum(a, b, k) * cross_sum(a, b, k) <= sq_sum(a, k) * sq_sum(b, k),
    decreases k,
{
    if k == 0 {
    } else {
        lemma_cross_correlation_bound(a, b, (k - 1) as nat);
        let sa = sq_sum(a, (k - 1) as nat);
        let sb = sq_sum(b, (k - 1) as nat);
        let c = cross_sum(a, b, (k - 1) as nat);
        let p = a[k - 1] as int;
        let q = b[k - 1] as int;
        lemma_bilinear_nonneg(a, b, (k - 1) as nat, p, q);
        assert(sq_sum(a, k) == sa + p * p);
        assert(sq_sum(b, k) == sb + q * q);
        assert(cross_sum(a, b, k) == c + p * q);
        assert((c + p * q) * (c + p * q) == c * c + 2 * (c * (p * q)) + (p * q) * (p * q))
            by (nonlinear_arith);
        assert((sa + p * p) * (sb + q * q) == sa * sb + sa * (q * q) + sb * (p * p) + (p * p) * (q
            * q)) by (nonlinear_arith);
        assert((p * q) * (p * q) == (p * p) * (q * q)) by (nonlinear_arith);
    }
}

/// Computes the exact parts of the normalized cross-correlation of the
/// first `n` entries of `a` and `b`: the dot product and the two squared
/// magnitudes. The cosine similarity is `r.0 / sqrt(r.1 * r.2)`; a zero
/// squared magnitude means the similarity is undefined.
pub fn normalized_cross_correlation(a: &Vec<i64>, b: &Vec<i64>, n: usize) -> (r: (i64, i64, i64))
    requires
        n <= a.len(),
        n <= b.len(),
        n <= 0x1_0000_0000,
        entries_bounded(a@),
        entries_bounded(b@),
    ensures
        r.0 == cross_sum(a@, b@, n as nat),
        r.1 == sq_sum(a@, n as nat),
        r.2 == sq_sum(b@, n as nat),
        r.1 >= 0,
        r.2 >= 0,
        r.0 * r.0 <= r.1 * r.2,
{
    let mut c: i64 = 0;
    let mut a_sq: i64 = 0;
    let mut b_sq: i64 = 0;
    let mut i: usize = 0;
    while i < n
        invariant
            n <= a.len(),
            n <= b.len(),
            n <= 0x1_0000_0000,
            entries_bounded(a@),
            entries_bounded(b@),
            i <= n,
            c == cross_sum(a@, b@, i as nat),
            a_sq == sq_sum(a@, i as nat),
            b_sq == sq_sum(b@, i as nat),
        decreases n - i,
    {
        proof {
            lemma_cross_sum_bounds(a@, b@, i as nat);
            lemma_cross_sum_bounds(a@, a@, i as nat);
            lemma_cross_sum_bounds(b@, b@, i as nat);
            assert(1073676289 * (i as nat) + 1073676289 <= 1073676289 * 0x1_0000_0001
                && -1073676289 * (i as nat) - 1073676289 >= -1073676289 * 0x1_0000_0001)
                by (nonlinear_arith)
                requires
                    0 <= i <= 0x1_0000_0000,
            ;
        }
        let u = a[i];
        let v = b[i];
        proof {
            assert(-1073676289 <= u * v && u * v <= 1073676289 && 0 <= u * u && u * u <= 1073676289
                && 0 <= v * v && v * v <= 1073676289) by (nonlinear_arith)
                requires
                    -32767 <= u <= 32767,
                    -32767 <= v <= 32767,
            ;
        }
        c = c + u * v;
        a_sq = a_sq + u * u;
        b_sq = b_sq + v * v;
        i = i + 1;
    }
    proof {
        lemma_sq_sum_nonneg(a@, n as nat);
        lemma_sq_sum_nonneg(b@, n as nat);
        lemma_cross_correlation_bound(a@, b@, n as nat);
    }
    (c, a_sq, b_sq)
}

} // verus!
