use vstd::prelude::*;
use vstd::arithmetic::mul::{
    lemma_mul_strictly_positive, lemma_mul_inequality,
};
use crate::errors::KernelError;
use crate::rational::{
    Rational, Qv, q_eq, q_add, q_sub, q_mul, q_neg, q_zero, q_one,
    q_valid, q_wf, lemma_q_eq_trans, lemma_q_ops_wf,
    lemma_q_add_congruence, lemma_q_sub_congruence, lemma_q_mul_congruence,
};
use crate::complex::{
    Complex, Cv, c_wf, c_eq, c_add, c_sub, c_mul, c_conj, c_scale,
    c_zero, c_one, c_valid, c_small, c_int_bnd, c_bnd, lemma_c_eq_trans,
    lemma_c_add_congruence, lemma_c_mul_congruence,
};

verus! {

// ---------------------------------------------------------------------
// Finite sums of complex models.
// ---------------------------------------------------------------------

/// The sum f(0) + f(1) + ... + f(k-1) of complex models.
pub open spec fn csum(k: nat, f: spec_fn(int) -> Cv) -> Cv
    decreases k,
{
    if k == 0 {
        c_zero()
    } else {
        c_add(csum((k - 1) as nat, f), f(k - 1))
    }
}

/// A sum of well-formed terms is well formed.
pub proof fn lemma_csum_wf(k: nat, f: spec_fn(int) -> Cv)
    requires
        forall|i: int| 0 <= i < k ==> c_wf(#[trigger] f(i)),
    ensures
        c_wf(csum(k, f)),
    decreases k,
{
    if k > 0 {
        lemma_csum_wf((k - 1) as nat, f);
        lemma_q_ops_wf(csum((k - 1) as nat, f).re, f(k - 1).re);
        lemma_q_ops_wf(csum((k - 1) as nat, f).im, f(k - 1).im);
    }
}

/// Two sums of pointwise equal terms are equal.
pub proof fn lemma_csum_ext(k: nat, f: spec_fn(int) -> Cv, g: spec_fn(int) -> Cv)
    requires
        forall|i: int| 0 <= i < k ==> #[trigger] f(i) == g(i),
    ensures
        csum(k, f) == csum(k, g),
    decreases k,
{
    if k > 0 {
        lemma_csum_ext((k - 1) as nat, f, g);
    }
}

/// Two sums of pointwise value-equal, well-formed terms are value-equal.
pub proof fn lemma_csum_congruence(k: nat, f: spec_fn(int) -> Cv, g: spec_fn(int) -> Cv)
    requires
        forall|i: int| 0 <= i < k ==> c_wf(#[trigger] f(i)),
        forall|i: int| 0 <= i < k ==> c_wf(#[trigger] g(i)),
        forall|i: int| 0 <= i < k ==> c_eq(#[trigger] f(i), g(i)),
    ensures
        c_eq(csum(k, f), csum(k, g)),
    decreases k,
{
    if k == 0 {
    } else {
        lemma_csum_congruence((k - 1) as nat, f, g);
        lemma_c_add_congruence(csum((k - 1) as nat, f), f(k - 1),
            csum((k - 1) as nat, g), g(k - 1));
    }
}

/// Complex addition of models is commutative (exactly).
pub proof fn lemma_c_add_comm(a: Cv, b: Cv)
    ensures
        c_add(a, b) == c_add(b, a),
{
    assert(a.re.d * b.re.d == b.re.d * a.re.d) by (nonlinear_arith);
    assert(a.im.d * b.im.d == b.im.d * a.im.d) by (nonlinear_arith);
}

/// Complex addition of models is associative (exactly).
pub proof fn lemma_c_add_assoc(a: Cv, b: Cv, c: Cv)
    ensures
        c_add(c_add(a, b), c) == c_add(a, c_add(b, c)),
{
    lemma_q_add_assoc(a.re, b.re, c.re);
    lemma_q_add_assoc(a.im, b.im, c.im);
}

/// Fraction addition of models is associative (exactly).
pub proof fn lemma_q_add_assoc(a: Qv, b: Qv, c: Qv)
    ensures
        q_add(q_add(a, b), c) == q_add(a, q_add(b, c)),
{
    assert((a.n * b.d + b.n * a.d) * c.d
        == (a.n * b.d) * c.d + (b.n * a.d) * c.d) by (nonlinear_arith);
    assert((a.n * b.d) * c.d == a.n * (b.d * c.d)) by (nonlinear_arith);
    assert((b.n * c.d + c.n * b.d) * a.d
        == (b.n * c.d) * a.d + (c.n * b.d) * a.d) by (nonlinear_arith);
    assert((b.n * a.d) * c.d == (b.n * c.d) * a.d) by (nonlinear_arith);
    assert(c.n * (a.d * b.d) == (c.n * b.d) * a.d) by (nonlinear_arith);
    assert((a.d * b.d) * c.d == a.d * (b.d * c.d)) by (nonlinear_arith);
}

/// A sum of pointwise sums splits into two sums (exactly).
pub proof fn lemma_csum_add(k: nat, f: spec_fn(int) -> Cv, g: spec_fn(int) -> Cv,
    h: spec_fn(int) -> Cv)
    requires
        forall|i: int| 0 <= i < k ==> #[trigger] h(i) == c_add(f(i), g(i)),
    ensures
        csum(k, h) == c_add(csum(k, f), csum(k, g)),
    decreases k,
{
    if k == 0 {
        lemma_c_add_zero(c_zero());
    } else {
        let km = (k - 1) as nat;
        lemma_csum_add(km, f, g, h);
        // (F + G) + (f + g) == (F + f) + (G + g)
        let ff = csum(km, f);
        let gg = csum(km, g);
        let fk = f(k - 1);
        let gk = g(k - 1);
        lemma_c_add_assoc(c_add(ff, gg), fk, gk);
        lemma_c_add_assoc(ff, gg, fk);
        lemma_c_add_comm(gg, fk);
        lemma_c_add_assoc(ff, fk, gg);
        lemma_c_add_assoc(c_add(ff, fk), gg, gk);
    }
}

/// Adding the zero model is exact.
pub proof fn lemma_c_add_zero(a: Cv)
    ensures
        c_add(a, c_zero()) == a,
{
    assert(a.re.n * 1 + 0 * a.re.d == a.re.n) by (nonlinear_arith);
    assert(a.im.n * 1 + 0 * a.im.d == a.im.n) by (nonlinear_arith);
    assert(a.re.d * 1 == a.re.d) by (nonlinear_arith);
    assert(a.im.d * 1 == a.im.d) by (nonlinear_arith);
}

/// The order of a double sum can be exchanged (exactly).
pub proof fn lemma_csum_swap(n: nat, m: nat, h: spec_fn(int, int) -> Cv)
    ensures
        csum(n, |i: int| csum(m, |j: int| h(i, j)))
            == csum(m, |j: int| csum(n, |i: int| h(i, j))),
    decreases n,
{
    let fo = |i: int| csum(m, |j: int| h(i, j));
    let go = |j: int| csum(n, |i: int| h(i, j));
    if n == 0 {
        let z = |j: int| c_zero();
        assert forall|j: int| 0 <= j < m implies #[trigger] go(j) == z(j) by {
        }
        lemma_csum_ext(m, go, z);
        lemma_csum_zero(m);
    } else {
        let nm = (n - 1) as nat;
        let fprev = |i: int| csum(m, |j: int| h(i, j));
        let gprev = |j: int| csum(nm, |i: int| h(i, j));
        lemma_csum_swap(nm, m, h);
        // csum(n, fo) == csum(nm, fo) + fo(n-1)
        //            == csum(m, gprev) + csum(m, |j| h(n-1, j))
        //            == csum(m, |j| gprev(j) + h(n-1, j)) == csum(m, go).
        let hn = |j: int| h(n - 1, j);
        let gsum = |j: int| c_add(gprev(j), hn(j));
        lemma_csum_add(m, gprev, hn, gsum);
        assert forall|j: int| 0 <= j < m implies #[trigger] go(j) == gsum(j) by {
            reveal_with_fuel(csum, 2);
            assert(csum(n, |i: int| h(i, j))
                == c_add(csum(nm, |i: int| h(i, j)), h(n - 1, j)));
        }
        lemma_csum_ext(m, go, gsum);
    }
}

/// A sum of zero terms is the zero model.
pub proof fn lemma_csum_zero(m: nat)
    ensures
        csum(m, |j: int| c_zero()) == c_zero(),
    decreases m,
{
    if m > 0 {
        lemma_csum_zero((m - 1) as nat);
        lemma_c_add_zero(c_zero());
    }
}

/// Conjugation distributes over addition of models (exactly).
pub proof fn lemma_c_conj_add(a: Cv, b: Cv)
    ensures
        c_conj(c_add(a, b)) == c_add(c_conj(a), c_conj(b)),
{
    assert(-(a.im.n * b.im.d + b.im.n * a.im.d)
        == (-a.im.n) * b.im.d + (-b.im.n) * a.im.d) by (nonlinear_arith);
}

/// Conjugation turns a product into the product of conjugates (exactly).
pub proof fn lemma_c_conj_mul(a: Cv, b: Cv)
    ensures
        c_conj(c_mul(a, b)) == c_mul(c_conj(a), c_conj(b)),
{
    let p = a.re.n;
    let q = a.re.d;
    let r = a.im.n;
    let s = a.im.d;
    let t = b.re.n;
    let u = b.re.d;
    let v = b.im.n;
    let w = b.im.d;
    assert((-r) * (-v) == r * v) by (nonlinear_arith);
    assert(q_mul(q_neg(a.im), q_neg(b.im)) == q_mul(a.im, b.im));
    assert(-((p * v) * (s * u) + (r * t) * (q * w))
        == (p * (-v)) * (s * u) + ((-r) * t) * (q * w)) by (nonlinear_arith);
    assert(c_conj(c_mul(a, b)).im == c_mul(c_conj(a), c_conj(b)).im);
}

/// Complex multiplication of models is commutative (exactly).
pub proof fn lemma_c_mul_comm(a: Cv, b: Cv)
    ensures
        c_mul(a, b) == c_mul(b, a),
{
    assert(a.re.n * b.re.n == b.re.n * a.re.n) by (nonlinear_arith);
    assert(a.re.d * b.re.d == b.re.d * a.re.d) by (nonlinear_arith);
    assert(a.im.n * b.im.n == b.im.n * a.im.n) by (nonlinear_arith);
    assert(a.im.d * b.im.d == b.im.d * a.im.d) by (nonlinear_arith);
    assert(q_mul(a.re, b.re) == q_mul(b.re, a.re));
    assert(q_mul(a.im, b.im) == q_mul(b.im, a.im));
    assert(q_mul(a.re, b.im) == q_mul(b.im, a.re));
    assert(q_mul(a.im, b.re) == q_mul(b.re, a.im));
    lemma_q_add_comm(q_mul(a.re, b.im), q_mul(a.im, b.re));
}

/// Fraction addition of models is commutative (exactly).
pub proof fn lemma_q_add_comm(a: Qv, b: Qv)
    ensures
        q_add(a, b) == q_add(b, a),
{
    assert(a.d * b.d == b.d * a.d) by (nonlinear_arith);
}

/// From `c_eq(x, a + b)` and component replacements, `c_eq(x, a2 + b2)`.
pub proof fn lemma_c_eq_add2(x: Cv, a: Cv, b: Cv, a2: Cv, b2: Cv)
    requires
        c_wf(a),
        c_wf(b),
        c_eq(x, c_add(a, b)),
        c_eq(a, a2),
        c_eq(b, b2),
    ensures
        c_eq(x, c_add(a2, b2)),
{
    lemma_c_add_congruence(a, b, a2, b2);
    lemma_q_ops_wf(a.re, b.re);
    lemma_q_ops_wf(a.im, b.im);
    lemma_c_eq_trans(x, c_add(a, b), c_add(a2, b2));
}

/// From `c_eq(x, a * b)` and component replacements, `c_eq(x, a2 * b2)`.
pub proof fn lemma_c_eq_mul2(x: Cv, a: Cv, b: Cv, a2: Cv, b2: Cv)
    requires
        c_wf(a),
        c_wf(b),
        c_eq(x, c_mul(a, b)),
        c_eq(a, a2),
        c_eq(b, b2),
    ensures
        c_eq(x, c_mul(a2, b2)),
{
    lemma_c_mul_congruence(a, b, a2, b2);
    lemma_q_ops_wf(a.re, b.re);
    lemma_q_ops_wf(a.im, b.im);
    lemma_q_ops_wf(a.re, b.im);
    lemma_q_ops_wf(a.im, b.re);
    lemma_q_ops_wf(q_mul(a.re, b.re), q_mul(a.im, b.im));
    lemma_q_ops_wf(q_mul(a.re, b.im), q_mul(a.im, b.re));
    lemma_c_eq_trans(x, c_mul(a, b), c_mul(a2, b2));
}

/// The product of two well-formed models is well formed.
pub proof fn lemma_c_mul_wf(a: Cv, b: Cv)
    requires
        c_wf(a),
        c_wf(b),
    ensures
        c_wf(c_mul(a, b)),
        c_wf(c_add(a, b)),
        c_wf(c_sub(a, b)),
        c_wf(c_conj(a)),
{
    lemma_q_ops_wf(a.re, b.re);
    lemma_q_ops_wf(a.im, b.im);
    lemma_q_ops_wf(a.re, b.im);
    lemma_q_ops_wf(a.im, b.re);
    lemma_q_ops_wf(q_mul(a.re, b.re), q_mul(a.im, b.im));
    lemma_q_ops_wf(q_mul(a.re, b.im), q_mul(a.im, b.re));
}

// ---------------------------------------------------------------------
// The matrix model.
// ---------------------------------------------------------------------

/// Mathematical model of a rectangular complex matrix: a shape and a
/// row-major sequence of entries.
#[verifier::ext_equal]
pub struct Mv {
    pub rows: int,
    pub cols: int,
    pub e: Seq<Cv>,
}

pub open spec fn m_wf(m: Mv) -> bool {
    m.rows >= 0 && m.cols >= 0 && m.e.len() == m.rows * m.cols
        && forall|k: int| 0 <= k < m.e.len() ==> c_wf(#[trigger] m.e[k])
}

/// The entry in row `i`, column `j`.
pub open spec fn m_idx(m: Mv, i: int, j: int) -> Cv {
    m.e[i * m.cols + j]
}

/// Value equality of two matrix models: same shape and value-equal
/// entries.
pub open spec fn m_eq(a: Mv, b: Mv) -> bool {
    a.rows == b.rows && a.cols == b.cols && a.e.len() == b.e.len()
        && forall|k: int| 0 <= k < a.e.len() ==> c_eq(#[trigger] a.e[k], b.e[k])
}

pub open spec fn m_add(a: Mv, b: Mv) -> Mv {
    Mv { rows: a.rows, cols: a.cols, e: Seq::new(a.e.len(), |k: int| c_add(a.e[k], b.e[k])) }
}

pub open spec fn m_sub(a: Mv, b: Mv) -> Mv {
    Mv { rows: a.rows, cols: a.cols, e: Seq::new(a.e.len(), |k: int| c_sub(a.e[k], b.e[k])) }
}

/// Scaling every entry by a complex scalar.
pub open spec fn m_scale(s: Cv, a: Mv) -> Mv {
    Mv { rows: a.rows, cols: a.cols, e: Seq::new(a.e.len(), |k: int| c_mul(s, a.e[k])) }
}

pub open spec fn m_transpose(a: Mv) -> Mv {
    Mv {
        rows: a.cols,
        cols: a.rows,
        e: Seq::new(a.e.len(), |k: int| m_idx(a, k % a.rows, k / a.rows)),
    }
}

pub open spec fn m_conj_transpose(a: Mv) -> Mv {
    Mv {
        rows: a.cols,
        cols: a.rows,
        e: Seq::new(a.e.len(), |k: int| c_conj(m_idx(a, k % a.rows, k / a.rows))),
    }
}

/// The matrix product; entry (i, j) is the sum over t of a[i, t]*b[t, j].
pub open spec fn m_mul(a: Mv, b: Mv) -> Mv {
    Mv {
        rows: a.rows,
        cols: b.cols,
        e: Seq::new((a.rows * b.cols) as nat, |k: int|
            csum(a.cols as nat, |t: int|
                c_mul(m_idx(a, k / b.cols, t), m_idx(b, t, k % b.cols)))),
    }
}

pub open spec fn m_identity(n: int) -> Mv {
    Mv {
        rows: n,
        cols: n,
        e: Seq::new((n * n) as nat, |k: int| if k / n == k % n { c_one() } else { c_zero() }),
    }
}

/// The trace: the sum of the diagonal entries.
pub open spec fn m_trace(a: Mv) -> Cv {
    csum(a.rows as nat, |i: int| m_idx(a, i, i))
}

/// The Kronecker (tensor) product: entry (i*rb + k, j*cb + l) is
/// a[i, j] * b[k, l].
pub open spec fn m_kron(a: Mv, b: Mv) -> Mv {
    Mv {
        rows: a.rows * b.rows,
        cols: a.cols * b.cols,
        e: Seq::new(((a.rows * b.rows) * (a.cols * b.cols)) as nat, |k: int|
            c_mul(
                m_idx(a, (k / (a.cols * b.cols)) / b.rows, (k % (a.cols * b.cols)) / b.cols),
                m_idx(b, (k / (a.cols * b.cols)) % b.rows, (k % (a.cols * b.cols)) % b.cols),
            )),
    }
}

/// The marginal on the first factor of a (d*d) x (d*d) joint matrix:
/// entry (i, j) is the sum over k of m[i*d + k, j*d + k].
pub open spec fn m_ptrace_first(m: Mv, d: int) -> Mv {
    Mv {
        rows: d,
        cols: d,
        e: Seq::new((d * d) as nat, |x: int|
            csum(d as nat, |k: int| m_idx(m, (x / d) * d + k, (x % d) * d + k))),
    }
}

/// The marginal on the second factor: entry (i, j) is the sum over k of
/// m[k*d + i, k*d + j].
pub open spec fn m_ptrace_second(m: Mv, d: int) -> Mv {
    Mv {
        rows: d,
        cols: d,
        e: Seq::new((d * d) as nat, |x: int|
            csum(d as nat, |k: int| m_idx(m, k * d + (x / d), k * d + (x % d)))),
    }
}

/// Hermitian: square and value-equal to its own conjugate transpose.
pub open spec fn m_is_hermitian(m: Mv) -> bool {
    m.rows == m.cols && m_eq(m, m_conj_transpose(m))
}

/// Unitary: square, and the product with the conjugate transpose is the
/// identity on both sides.
pub open spec fn m_is_unitary(u: Mv) -> bool {
    u.rows == u.cols && m_eq(m_mul(u, m_conj_transpose(u)), m_identity(u.rows))
        && m_eq(m_mul(m_conj_transpose(u), u), m_identity(u.rows))
}

// ---------------------------------------------------------------------
// Index arithmetic helpers.
// ---------------------------------------------------------------------

/// Bound bookkeeping for an integer-valued accumulation of `cols`
/// products of b1- and b2-bounded factors, at step t.
pub proof fn lemma_int_step_bounds(b1: int, b2: int, t: int, cols: int)
    requires
        0 <= b1,
        0 <= b2,
        0 <= t <= cols,
        cols * (2 * (b1 * b2)) <= 0x7fff_ffff_ffff_ffff_ffff_ffff_ffff_ffff,
    ensures
        0 <= b1 * b2,
        cols >= 1 ==> 2 * (b1 * b2) <= 0x7fff_ffff_ffff_ffff_ffff_ffff_ffff_ffff,
        0 <= t * (2 * (b1 * b2)),
        t * (2 * (b1 * b2)) + 2 * (b1 * b2) == (t + 1) * (2 * (b1 * b2)),
        t * (2 * (b1 * b2)) <= cols * (2 * (b1 * b2)),
        t < cols ==> (t + 1) * (2 * (b1 * b2)) <= cols * (2 * (b1 * b2)),
{
    vstd::arithmetic::mul::lemma_mul_nonnegative(b1, b2);
    vstd::arithmetic::mul::lemma_mul_nonnegative(t, 2 * (b1 * b2));
    if cols >= 1 {
        assert(1 * (2 * (b1 * b2)) <= cols * (2 * (b1 * b2))) by (nonlinear_arith)
            requires
                1 <= cols,
                0 <= 2 * (b1 * b2),
        ;
    }
    assert(t * (2 * (b1 * b2)) + 2 * (b1 * b2) == (t + 1) * (2 * (b1 * b2)))
        by (nonlinear_arith);
    lemma_mul_inequality(t, cols, 2 * (b1 * b2));
    if t < cols {
        lemma_mul_inequality(t + 1, cols, 2 * (b1 * b2));
    }
}

/// Bound bookkeeping for an integer-valued accumulation of up to `n`
/// entries each bounded by `b`, at step t.
pub proof fn lemma_int_acc_bounds(b: int, t: int, n: int)
    requires
        0 <= b,
        0 <= t <= n,
        n * b <= 0x7fff_ffff_ffff_ffff_ffff_ffff_ffff_ffff,
    ensures
        0 <= t * b,
        t * b + b == (t + 1) * b,
        t * b <= n * b,
        t < n ==> (t + 1) * b <= n * b,
        n >= 1 ==> b <= 0x7fff_ffff_ffff_ffff_ffff_ffff_ffff_ffff,
{
    vstd::arithmetic::mul::lemma_mul_nonnegative(t, b);
    assert(t * b + b == (t + 1) * b) by (nonlinear_arith);
    lemma_mul_inequality(t, n, b);
    if t < n {
        lemma_mul_inequality(t + 1, n, b);
    }
    if n >= 1 {
        assert(1 * b <= n * b) by (nonlinear_arith)
            requires
                1 <= n,
                0 <= b,
        ;
    }
}

/// A row-major index stays inside the flat storage.
pub proof fn lemma_rc_index(i: int, j: int, rows: int, cols: int)
    requires
        0 <= i < rows,
        0 <= j < cols,
    ensures
        0 <= i * cols + j < rows * cols,
        (i * cols + j) / cols == i,
        (i * cols + j) % cols == j,
{
    assert(0 <= i * cols + j < rows * cols) by (nonlinear_arith)
        requires
            0 <= i < rows,
            0 <= j < cols,
    ;
    vstd::arithmetic::div_mod::lemma_fundamental_div_mod_converse(
        i * cols + j, cols, i, j);
}

/// A flat index decomposes into its row and column.
pub proof fn lemma_rc_split(k: int, rows: int, cols: int)
    requires
        0 <= k < rows * cols,
        cols >= 1,
    ensures
        0 <= k / cols < rows,
        0 <= k % cols < cols,
        k == (k / cols) * cols + k % cols,
{
    vstd::arithmetic::div_mod::lemma_fundamental_div_mod(k, cols);
    vstd::arithmetic::div_mod::lemma_mod_bound(k, cols);
    vstd::arithmetic::div_mod::lemma_div_pos_is_pos(k, cols);
    assert(k / cols < rows) by (nonlinear_arith)
        requires
            k == cols * (k / cols) + k % cols,
            0 <= k % cols,
            k < rows * cols,
            cols >= 1,
            k / cols >= 0,
    ;
    assert(cols * (k / cols) == (k / cols) * cols) by (nonlinear_arith);
}

// ---------------------------------------------------------------------
// The executable matrix.
// ---------------------------------------------------------------------

/// A dense rectangular matrix of complex scalars, stored row-major. The
/// shape is fixed at construction; operations between matrices of
/// disagreeing shapes fail with `DimensionMismatch`.
#[derive(Clone, Debug)]
pub struct Matrix {
    rows: usize,
    cols: usize,
    data: Vec<Complex>,
}

impl View for Matrix {
    type V = Mv;

    closed spec fn view(&self) -> Mv {
        Mv {
            rows: self.rows as int,
            cols: self.cols as int,
            e: self.data@.map_values(|c: Complex| c@),
        }
    }
}

/// All entries of a matrix model are storable scalars.
pub open spec fn m_valid(m: Mv) -> bool {
    forall|k: int| 0 <= k < m.e.len() ==> c_valid(#[trigger] m.e[k])
}

/// All entries are small enough that one elementwise arithmetic step
/// is guaranteed to succeed.
pub open spec fn m_small(m: Mv) -> bool {
    forall|k: int| 0 <= k < m.e.len() ==> c_small(#[trigger] m.e[k])
}

/// All entries are integer-valued and bounded by `b` in magnitude.
pub open spec fn m_int_bnd(m: Mv, b: int) -> bool {
    forall|k: int| 0 <= k < m.e.len() ==> c_int_bnd(#[trigger] m.e[k], b)
}

/// All entries have stored parts bounded by `b`.
pub open spec fn m_bnd(m: Mv, b: int) -> bool {
    forall|k: int| 0 <= k < m.e.len() ==> c_bnd(#[trigger] m.e[k], b)
}

impl Matrix {
    pub open spec fn wf(&self) -> bool {
        m_wf(self@) && m_valid(self@)
    }

    /// The number of rows.
    pub fn rows(&self) -> (r: usize)
        ensures
            r as int == self@.rows,
    {
        self.rows
    }

    /// The number of columns.
    pub fn cols(&self) -> (r: usize)
        ensures
            r as int == self@.cols,
    {
        self.cols
    }

    /// A zero-filled matrix of the given shape; fails only when the
    /// element count does not fit in a machine word.
    pub fn zeros(rows: usize, cols: usize) -> (r: Result<Matrix, KernelError>)
        ensures
            rows * cols <= usize::MAX ==> (r matches Ok(m) && m.wf()
                && m@.rows == rows as int && m@.cols == cols as int
                && (forall|k: int| 0 <= k < m@.e.len() ==> #[trigger] m@.e[k] == c_zero())),
            rows * cols > usize::MAX ==> (r matches Err(e) && e == KernelError::NumericalError),
    {
        let n: usize = match rows.checked_mul(cols) {
            Some(v) => v,
            None => { return Err(KernelError::NumericalError); },
        };
        let mut data: Vec<Complex> = Vec::new();
        let mut k: usize = 0;
        while k < n
            invariant
                k <= n,
                data@.len() == k as int,
                forall|t: int| 0 <= t < k ==> (#[trigger] data@[t])@ == c_zero(),
            decreases n - k,
        {
            data.push(Complex::zero());
            k = k + 1;
        }
        Ok(Matrix { rows, cols, data })
    }

    /// Builds a matrix of the given shape from a row-major entry list;
    /// a wrong entry count is a `DimensionMismatch`.
    pub fn from_array(rows: usize, cols: usize, entries: Vec<Complex>) -> (r: Result<Matrix, KernelError>)
        requires
            forall|k: int| 0 <= k < entries@.len() ==> (#[trigger] entries@[k]).wf(),
        ensures
            rows * cols == entries@.len() ==> (r matches Ok(m) && m.wf()
                && m@.rows == rows as int && m@.cols == cols as int
                && (forall|k: int| 0 <= k < m@.e.len() ==> #[trigger] m@.e[k] == entries@[k]@)),
            rows * cols != entries@.len() ==> (r matches Err(e) && e == KernelError::DimensionMismatch),
    {
        let len: usize = entries.len();
        let n: usize = match rows.checked_mul(cols) {
            Some(v) => v,
            None => {
                // More entries than a machine word holds cannot match an
                // overflowing product.
                return Err(KernelError::DimensionMismatch);
            },
        };
        if len != n {
            return Err(KernelError::DimensionMismatch);
        }
        Ok(Matrix { rows, cols, data: entries })
    }

    /// The identity matrix of size n; fails only when n*n does not fit
    /// in a machine word.
    pub fn identity(n: usize) -> (r: Result<Matrix, KernelError>)
        ensures
            n * n <= usize::MAX ==> (r matches Ok(m) && m.wf()
                && m@ == m_identity(n as int)),
            n * n > usize::MAX ==> (r matches Err(e) && e == KernelError::NumericalError),
    {
        let total: usize = match n.checked_mul(n) {
            Some(v) => v,
            None => { return Err(KernelError::NumericalError); },
        };
        let mut data: Vec<Complex> = Vec::new();
        let mut i: usize = 0;
        while i < n
            invariant
                i <= n,
                n * n == total,
                total <= usize::MAX,
                data@.len() == i as int * n as int,
                forall|t: int| 0 <= t < data@.len()
                    ==> (#[trigger] data@[t])@ == m_identity(n as int).e[t],
            decreases n - i,
        {
            let mut j: usize = 0;
            proof {
                lemma_mul_inequality(i as int + 1, n as int, n as int);
            }
            while j < n
                invariant
                    i < n,
                    j <= n,
                    n * n == total,
                    total <= usize::MAX,
                    (i as int + 1) * n as int <= n as int * n as int,
                    data@.len() == i as int * n as int + j as int,
                    forall|t: int| 0 <= t < data@.len()
                        ==> (#[trigger] data@[t])@ == m_identity(n as int).e[t],
                decreases n - j,
            {
                proof {
                    lemma_rc_index(i as int, j as int, n as int, n as int);
                }
                if i == j {
                    data.push(Complex::one());
                } else {
                    data.push(Complex::zero());
                }
                j = j + 1;
            }
            proof {
                assert((i as int + 1) * n as int == i as int * n as int + n as int)
                    by (nonlinear_arith);
            }
            i = i + 1;
        }
        let m = Matrix { rows: n, cols: n, data };
        proof {
            assert(m@.e =~= m_identity(n as int).e);
            assert(m@ =~= m_identity(n as int));
        }
        Ok(m)
    }

    /// Bounds-checked read of the entry at (row, col).
    pub fn get(&self, row: usize, col: usize) -> (r: Result<Complex, KernelError>)
        requires
            self.wf(),
        ensures
            (row as int) < self@.rows && (col as int) < self@.cols
                <==> (r matches Ok(v) && v.wf()
                    && v@ == m_idx(self@, row as int, col as int)),
            !((row as int) < self@.rows && (col as int) < self@.cols)
                <==> (r matches Err(e) && e == KernelError::IndexOutOfRange),
    {
        if row < self.rows && col < self.cols {
            let len: usize = self.data.len();
            proof {
                lemma_rc_index(row as int, col as int, self@.rows, self@.cols);
            }
            let k: usize = row * self.cols + col;
            let v: Complex = self.data[k];
            proof {
                assert(self@.e[k as int] == self.data@[k as int]@);
                assert(c_valid(self@.e[k as int]));
            }
            Ok(v)
        } else {
            Err(KernelError::IndexOutOfRange)
        }
    }

    /// Bounds-checked write of the entry at (row, col).
    pub fn set(&mut self, row: usize, col: usize, value: Complex) -> (r: Result<(), KernelError>)
        requires
            old(self).wf(),
            value.wf(),
        ensures
            (row as int) < old(self)@.rows && (col as int) < old(self)@.cols
                ==> (r matches Ok(u)
                    && final(self)@.rows == old(self)@.rows
                    && final(self)@.cols == old(self)@.cols
                    && final(self)@.e == old(self)@.e.update(
                        row as int * old(self)@.cols + col as int, value@)
                    && final(self).wf()),
            !((row as int) < old(self)@.rows && (col as int) < old(self)@.cols)
                ==> (r matches Err(e) && e == KernelError::IndexOutOfRange
                    && final(self)@ == old(self)@),
    {
        if row < self.rows && col < self.cols {
            let len: usize = self.data.len();
            proof {
                lemma_rc_index(row as int, col as int, self@.rows, self@.cols);
            }
            let k: usize = row * self.cols + col;
            self.data[k] = value;
            proof {
                assert(self@.e =~= old(self)@.e.update(k as int, value@));
            }
            Ok(())
        } else {
            Err(KernelError::IndexOutOfRange)
        }
    }

    /// Exact entrywise addition; shapes must agree.
    pub fn add(&self, other: &Matrix) -> (r: Result<Matrix, KernelError>)
        requires
            self.wf(),
            other.wf(),
        ensures
            r matches Ok(v) ==> v.wf() && m_eq(v@, m_add(self@, other@)),
            !(self@.rows == other@.rows && self@.cols == other@.cols)
                <==> (r matches Err(e) && e == KernelError::DimensionMismatch),
            self@.rows == other@.rows && self@.cols == other@.cols
                && m_small(self@) && m_small(other@) ==> r is Ok,
            forall|b1: int, b2: int|
                #![trigger m_int_bnd(self@, b1), m_int_bnd(other@, b2)]
                0 <= b1 && 0 <= b2 && m_int_bnd(self@, b1) && m_int_bnd(other@, b2)
                    && self@.rows == other@.rows && self@.cols == other@.cols
                    && b1 + b2 <= 0x7fff_ffff_ffff_ffff_ffff_ffff_ffff_ffff
                ==> (r matches Ok(v) && m_int_bnd(v@, b1 + b2)),
    {
        if self.rows != other.rows || self.cols != other.cols {
            return Err(KernelError::DimensionMismatch);
        }
        let n: usize = self.data.len();
        let mut data: Vec<Complex> = Vec::new();
        let mut k: usize = 0;
        while k < n
            invariant
                self.wf(),
                other.wf(),
                self@.rows == other@.rows,
                self@.cols == other@.cols,
                n as int == self@.e.len(),
                other@.e.len() == n as int,
                k <= n,
                data@.len() == k as int,
                forall|t: int| 0 <= t < k ==> c_valid((#[trigger] data@[t])@)
                    && c_eq(data@[t]@, c_add(self@.e[t], other@.e[t])),
                forall|b1: int, b2: int|
                    #![trigger m_int_bnd(self@, b1), m_int_bnd(other@, b2)]
                    0 <= b1 && 0 <= b2 && m_int_bnd(self@, b1) && m_int_bnd(other@, b2)
                        && b1 + b2 <= 0x7fff_ffff_ffff_ffff_ffff_ffff_ffff_ffff
                    ==> (forall|t: int| 0 <= t < k
                        ==> c_int_bnd((#[trigger] data@[t])@, b1 + b2)),
            decreases n - k,
        {
            let a: Complex = self.data[k];
            let b: Complex = other.data[k];
            proof {
                assert(a@ == self@.e[k as int]);
                assert(b@ == other@.e[k as int]);
            }
            let v = match a.add(&b) {
                Ok(v) => v,
                Err(e) => {
                    proof {
                        assert forall|b1: int, b2: int|
                            #![trigger m_int_bnd(self@, b1), m_int_bnd(other@, b2)]
                            0 <= b1 && 0 <= b2 && m_int_bnd(self@, b1)
                                && m_int_bnd(other@, b2) && b1 + b2 <= 0x7fff_ffff_ffff_ffff_ffff_ffff_ffff_ffff
                            implies false by {
                            assert(c_int_bnd(a@, b1));
                            assert(c_int_bnd(b@, b2));
                        }
                    }
                    return Err(e);
                },
            };
            proof {
                assert forall|b1: int, b2: int|
                    #![trigger m_int_bnd(self@, b1), m_int_bnd(other@, b2)]
                    0 <= b1 && 0 <= b2 && m_int_bnd(self@, b1)
                        && m_int_bnd(other@, b2) && b1 + b2 <= 0x7fff_ffff_ffff_ffff_ffff_ffff_ffff_ffff
                    implies c_int_bnd(v@, b1 + b2) by {
                    assert(c_int_bnd(a@, b1));
                    assert(c_int_bnd(b@, b2));
                }
            }
            data.push(v);
            k = k + 1;
        }
        let m = Matrix { rows: self.rows, cols: self.cols, data };
        Ok(m)
    }

    /// Exact entrywise subtraction; shapes must agree.
    pub fn sub(&self, other: &Matrix) -> (r: Result<Matrix, KernelError>)
        requires
            self.wf(),
            other.wf(),
        ensures
            r matches Ok(v) ==> v.wf() && m_eq(v@, m_sub(self@, other@)),
            !(self@.rows == other@.rows && self@.cols == other@.cols)
                <==> (r matches Err(e) && e == KernelError::DimensionMismatch),
            self@.rows == other@.rows && self@.cols == other@.cols
                && m_small(self@) && m_small(other@) ==> r is Ok,
            forall|b1: int, b2: int|
                #![trigger m_int_bnd(self@, b1), m_int_bnd(other@, b2)]
                0 <= b1 && 0 <= b2 && m_int_bnd(self@, b1) && m_int_bnd(other@, b2)
                    && self@.rows == other@.rows && self@.cols == other@.cols
                    && b1 + b2 <= 0x7fff_ffff_ffff_ffff_ffff_ffff_ffff_ffff
                ==> (r matches Ok(v) && m_int_bnd(v@, b1 + b2)),
    {
        if self.rows != other.rows || self.cols != other.cols {
            return Err(KernelError::DimensionMismatch);
        }
        let n: usize = self.data.len();
        let mut data: Vec<Complex> = Vec::new();
        let mut k: usize = 0;
        while k < n
            invariant
                self.wf(),
                other.wf(),
                self@.rows == other@.rows,
                self@.cols == other@.cols,
                n as int == self@.e.len(),
                other@.e.len() == n as int,
                k <= n,
                data@.len() == k as int,
                forall|t: int| 0 <= t < k ==> c_valid((#[trigger] data@[t])@)
                    && c_eq(data@[t]@, c_sub(self@.e[t], other@.e[t])),
                forall|b1: int, b2: int|
                    #![trigger m_int_bnd(self@, b1), m_int_bnd(other@, b2)]
                    0 <= b1 && 0 <= b2 && m_int_bnd(self@, b1) && m_int_bnd(other@, b2)
                        && b1 + b2 <= 0x7fff_ffff_ffff_ffff_ffff_ffff_ffff_ffff
                    ==> (forall|t: int| 0 <= t < k
                        ==> c_int_bnd((#[trigger] data@[t])@, b1 + b2)),
            decreases n - k,
        {
            let a: Complex = self.data[k];
            let b: Complex = other.data[k];
            proof {
                assert(a@ == self@.e[k as int]);
                assert(b@ == other@.e[k as int]);
            }
            let v = match a.sub(&b) {
                Ok(v) => v,
                Err(e) => {
                    proof {
                        assert forall|b1: int, b2: int|
                            #![trigger m_int_bnd(self@, b1), m_int_bnd(other@, b2)]
                            0 <= b1 && 0 <= b2 && m_int_bnd(self@, b1)
                                && m_int_bnd(other@, b2) && b1 + b2 <= 0x7fff_ffff_ffff_ffff_ffff_ffff_ffff_ffff
                            implies false by {
                            assert(c_int_bnd(a@, b1));
                            assert(c_int_bnd(b@, b2));
                        }
                    }
                    return Err(e);
                },
            };
            proof {
                assert forall|b1: int, b2: int|
                    #![trigger m_int_bnd(self@, b1), m_int_bnd(other@, b2)]
                    0 <= b1 && 0 <= b2 && m_int_bnd(self@, b1)
                        && m_int_bnd(other@, b2) && b1 + b2 <= 0x7fff_ffff_ffff_ffff_ffff_ffff_ffff_ffff
                    implies c_int_bnd(v@, b1 + b2) by {
                    assert(c_int_bnd(a@, b1));
                    assert(c_int_bnd(b@, b2));
                }
            }
            data.push(v);
            k = k + 1;
        }
        let m = Matrix { rows: self.rows, cols: self.cols, data };
        Ok(m)
    }

    /// Exact scaling of every entry by a complex scalar.
    pub fn mul_scalar(&self, s: &Complex) -> (r: Result<Matrix, KernelError>)
        requires
            self.wf(),
            s.wf(),
        ensures
            r matches Ok(v) ==> v.wf() && m_eq(v@, m_scale(s@, self@)),
            r matches Err(e) ==> e == KernelError::NumericalError,
            forall|b1: int, b2: int|
                #![trigger c_bnd(s@, b1), m_bnd(self@, b2)]
                1 <= b1 && 1 <= b2 && c_bnd(s@, b1) && m_bnd(self@, b2)
                    && 2 * ((b1 * b2) * (b1 * b2)) <= 0x7fff_ffff_ffff_ffff_ffff_ffff_ffff_ffff
                ==> (r matches Ok(v) && m_bnd(v@, 2 * ((b1 * b2) * (b1 * b2)))),
    {
        let n: usize = self.data.len();
        let mut data: Vec<Complex> = Vec::new();
        let mut k: usize = 0;
        while k < n
            invariant
                self.wf(),
                s.wf(),
                n as int == self@.e.len(),
                k <= n,
                data@.len() == k as int,
                forall|t: int| 0 <= t < k ==> c_valid((#[trigger] data@[t])@)
                    && c_eq(data@[t]@, c_mul(s@, self@.e[t])),
                forall|b1: int, b2: int|
                    #![trigger c_bnd(s@, b1), m_bnd(self@, b2)]
                    1 <= b1 && 1 <= b2 && c_bnd(s@, b1) && m_bnd(self@, b2)
                        && 2 * ((b1 * b2) * (b1 * b2)) <= 0x7fff_ffff_ffff_ffff_ffff_ffff_ffff_ffff
                    ==> (forall|t: int| 0 <= t < k
                        ==> c_bnd((#[trigger] data@[t])@, 2 * ((b1 * b2) * (b1 * b2)))),
            decreases n - k,
        {
            let a: Complex = self.data[k];
            proof {
                assert(a@ == self@.e[k as int]);
            }
            let v = match s.mul(&a) {
                Ok(v) => v,
                Err(e) => {
                    proof {
                        assert forall|b1: int, b2: int|
                            #![trigger c_bnd(s@, b1), m_bnd(self@, b2)]
                            1 <= b1 && 1 <= b2 && c_bnd(s@, b1) && m_bnd(self@, b2)
                                && 2 * ((b1 * b2) * (b1 * b2)) <= 0x7fff_ffff_ffff_ffff_ffff_ffff_ffff_ffff
                            implies false by {
                            assert(c_bnd(a@, b2));
                        }
                    }
                    return Err(e);
                },
            };
            proof {
                assert forall|b1: int, b2: int|
                    #![trigger c_bnd(s@, b1), m_bnd(self@, b2)]
                    1 <= b1 && 1 <= b2 && c_bnd(s@, b1) && m_bnd(self@, b2)
                        && 2 * ((b1 * b2) * (b1 * b2)) <= 0x7fff_ffff_ffff_ffff_ffff_ffff_ffff_ffff
                    implies c_bnd(v@, 2 * ((b1 * b2) * (b1 * b2))) by {
                    assert(c_bnd(a@, b2));
                }
            }
            data.push(v);
            k = k + 1;
        }
        let m = Matrix { rows: self.rows, cols: self.cols, data };
        Ok(m)
    }

    /// The transpose; exact and total.
    pub fn transpose(&self) -> (r: Matrix)
        requires
            self.wf(),
        ensures
            r.wf(),
            r@ == m_transpose(self@),
    {
        let n: usize = self.data.len();
        let mut data: Vec<Complex> = Vec::new();
        let mut i: usize = 0;
        while i < self.cols
            invariant
                self.wf(),
                n as int == self@.e.len(),
                i <= self.cols,
                self@.rows * self@.cols == n as int,
                data@.len() == i as int * self@.rows,
                data@.len() <= n as int,
                forall|t: int| 0 <= t < data@.len()
                    ==> (#[trigger] data@[t])@ == m_transpose(self@).e[t],
            decreases self.cols - i,
        {
            let mut j: usize = 0;
            proof {
                assert((i as int + 1) * self@.rows <= self@.cols * self@.rows)
                    by (nonlinear_arith)
                    requires
                        i as int + 1 <= self@.cols,
                        self@.rows >= 0,
                ;
                assert(self@.cols * self@.rows == self@.rows * self@.cols)
                    by (nonlinear_arith);
            }
            while j < self.rows
                invariant
                    self.wf(),
                    n as int == self@.e.len(),
                    i < self.cols,
                    j <= self.rows,
                    self@.rows * self@.cols == n as int,
                    (i as int + 1) * self@.rows <= n as int,
                    data@.len() == i as int * self@.rows + j as int,
                    forall|t: int| 0 <= t < data@.len()
                        ==> (#[trigger] data@[t])@ == m_transpose(self@).e[t],
                decreases self.rows - j,
            {
                proof {
                    lemma_rc_index(j as int, i as int, self@.rows, self@.cols);
                    lemma_rc_index(i as int, j as int, self@.cols, self@.rows);
                    assert((i as int + 1) * self@.rows
                        == i as int * self@.rows + self@.rows) by (nonlinear_arith);
                }
                let k: usize = j * self.cols + i;
                let v: Complex = self.data[k];
                proof {
                    let t = i as int * self@.rows + j as int;
                    assert(m_transpose(self@).e[t]
                        == m_idx(self@, t % self@.rows, t / self@.rows));
                    assert(t % self@.rows == j as int && t / self@.rows == i as int);
                    assert(v@ == self@.e[k as int]);
                }
                data.push(v);
                j = j + 1;
            }
            proof {
                assert((i as int + 1) * self@.rows
                    == i as int * self@.rows + self@.rows) by (nonlinear_arith);
            }
            i = i + 1;
        }
        let m = Matrix { rows: self.cols, cols: self.rows, data };
        proof {
            assert(m@.e.len() == self@.cols * self@.rows);
            assert(self@.cols * self@.rows == self@.rows * self@.cols)
                by (nonlinear_arith);
            assert(m@.e =~= m_transpose(self@).e);
            assert(m@ =~= m_transpose(self@));
            assert forall|t: int| 0 <= t < m@.e.len()
                implies c_valid(#[trigger] m@.e[t]) by {
                let rr = self@.rows;
                let cc = self@.cols;
                lemma_rc_split(t, cc, rr);
                lemma_rc_index(t / rr, t % rr, cc, rr);
                lemma_rc_index(t % rr, t / rr, rr, cc);
            }
        }
        m
    }

    /// The conjugate transpose; exact and total.
    pub fn conj_transpose(&self) -> (r: Matrix)
        requires
            self.wf(),
        ensures
            r.wf(),
            r@ == m_conj_transpose(self@),
    {
        let n: usize = self.data.len();
        let mut data: Vec<Complex> = Vec::new();
        let mut i: usize = 0;
        while i < self.cols
            invariant
                self.wf(),
                n as int == self@.e.len(),
                i <= self.cols,
                self@.rows * self@.cols == n as int,
                data@.len() == i as int * self@.rows,
                data@.len() <= n as int,
                forall|t: int| 0 <= t < data@.len()
                    ==> (#[trigger] data@[t])@ == m_conj_transpose(self@).e[t],
            decreases self.cols - i,
        {
            let mut j: usize = 0;
            proof {
                assert((i as int + 1) * self@.rows <= self@.cols * self@.rows)
                    by (nonlinear_arith)
                    requires
                        i as int + 1 <= self@.cols,
                        self@.rows >= 0,
                ;
                assert(self@.cols * self@.rows == self@.rows * self@.cols)
                    by (nonlinear_arith);
            }
            while j < self.rows
                invariant
                    self.wf(),
                    n as int == self@.e.len(),
                    i < self.cols,
                    j <= self.rows,
                    self@.rows * self@.cols == n as int,
                    (i as int + 1) * self@.rows <= n as int,
                    data@.len() == i as int * self@.rows + j as int,
                    forall|t: int| 0 <= t < data@.len()
                        ==> (#[trigger] data@[t])@ == m_conj_transpose(self@).e[t],
                decreases self.rows - j,
            {
                proof {
                    lemma_rc_index(j as int, i as int, self@.rows, self@.cols);
                    lemma_rc_index(i as int, j as int, self@.cols, self@.rows);
                    assert((i as int + 1) * self@.rows
                        == i as int * self@.rows + self@.rows) by (nonlinear_arith);
                }
                let k: usize = j * self.cols + i;
                let w: Complex = self.data[k];
                proof {
                    assert(w@ == self@.e[k as int]);
                }
                let v: Complex = w.conj();
                proof {
                    let t = i as int * self@.rows + j as int;
                    assert(m_conj_transpose(self@).e[t]
                        == c_conj(m_idx(self@, t % self@.rows, t / self@.rows)));
                    assert(t % self@.rows == j as int && t / self@.rows == i as int);
                }
                data.push(v);
                j = j + 1;
            }
            proof {
                assert((i as int + 1) * self@.rows
                    == i as int * self@.rows + self@.rows) by (nonlinear_arith);
            }
            i = i + 1;
        }
        let m = Matrix { rows: self.cols, cols: self.rows, data };
        proof {
            assert(m@.e.len() == self@.cols * self@.rows);
            assert(self@.cols * self@.rows == self@.rows * self@.cols)
                by (nonlinear_arith);
            assert(m@.e =~= m_conj_transpose(self@).e);
            assert(m@ =~= m_conj_transpose(self@));
            assert forall|t: int| 0 <= t < m@.e.len()
                implies c_valid(#[trigger] m@.e[t]) by {
                let rr = self@.rows;
                let cc = self@.cols;
                lemma_rc_split(t, cc, rr);
                lemma_rc_index(t / rr, t % rr, cc, rr);
                lemma_rc_index(t % rr, t / rr, rr, cc);
            }
        }
        m
    }

    /// The trace (sum of the diagonal); the matrix must be square.
    pub fn trace(&self) -> (r: Result<Complex, KernelError>)
        requires
            self.wf(),
        ensures
            r matches Ok(v) ==> v.wf() && c_eq(v@, m_trace(self@)),
            self@.rows != self@.cols
                <==> (r matches Err(e) && e == KernelError::DimensionMismatch),
            r is Err && self@.rows == self@.cols ==> (r matches Err(e)
                && e == KernelError::NumericalError),
            forall|b: int|
                #![trigger m_int_bnd(self@, b)]
                0 <= b && m_int_bnd(self@, b) && self@.rows == self@.cols
                    && self@.rows * b <= 0x7fff_ffff_ffff_ffff_ffff_ffff_ffff_ffff
                ==> (r matches Ok(v) && c_int_bnd(v@, self@.rows * b)),
    {
        if self.rows != self.cols {
            return Err(KernelError::DimensionMismatch);
        }
        let ghost f = |i: int| m_idx(self@, i, i);
        let n: usize = self.data.len();
        let mut acc: Complex = Complex::zero();
        let mut i: usize = 0;
        while i < self.rows
            invariant
                self.wf(),
                self@.rows == self@.cols,
                n as int == self@.e.len(),
                i <= self.rows,
                f == (|i: int| m_idx(self@, i, i)),
                acc.wf(),
                c_eq(acc@, csum(i as nat, f)),
                forall|b: int|
                    #![trigger m_int_bnd(self@, b)]
                    0 <= b && m_int_bnd(self@, b) && self@.rows * b <= 0x7fff_ffff_ffff_ffff_ffff_ffff_ffff_ffff
                    ==> c_int_bnd(acc@, i as int * b),
            decreases self.rows - i,
        {
            proof {
                lemma_rc_index(i as int, i as int, self@.rows, self@.cols);
            }
            let k: usize = i * self.cols + i;
            let d: Complex = self.data[k];
            proof {
                assert(d@ == self@.e[k as int]);
                assert(d@ == f(i as int));
            }
            let acc2 = match acc.add(&d) {
                Ok(v) => v,
                Err(e) => {
                    proof {
                        assert forall|b: int|
                            #![trigger m_int_bnd(self@, b)]
                            0 <= b && m_int_bnd(self@, b) && self@.rows * b <= 0x7fff_ffff_ffff_ffff_ffff_ffff_ffff_ffff
                            implies false by {
                            lemma_int_acc_bounds(b, i as int, self@.rows);
                            assert(c_int_bnd(d@, b));
                            assert(c_int_bnd(acc@, i as int * b));
                        }
                    }
                    return Err(e);
                },
            };
            proof {
                assert forall|b: int|
                    #![trigger m_int_bnd(self@, b)]
                    0 <= b && m_int_bnd(self@, b) && self@.rows * b <= 0x7fff_ffff_ffff_ffff_ffff_ffff_ffff_ffff
                    implies c_int_bnd(acc2@, (i + 1) as int * b) by {
                    lemma_int_acc_bounds(b, i as int, self@.rows);
                    assert(c_int_bnd(d@, b));
                    assert(c_int_bnd(acc@, i as int * b));
                }
            }
            proof {
                assert forall|t: int| 0 <= t < i implies c_wf(#[trigger] f(t)) by {
                    lemma_rc_index(t, t, self@.rows, self@.cols);
                }
                lemma_csum_wf(i as nat, f);
                lemma_c_eq_add2(acc2@, acc@, d@, csum(i as nat, f), f(i as int));
            }
            acc = acc2;
            i = i + 1;
        }
        Ok(acc)
    }
}

impl Matrix {
    /// The exact matrix product; the inner dimensions must agree.
    pub fn mul(&self, other: &Matrix) -> (r: Result<Matrix, KernelError>)
        requires
            self.wf(),
            other.wf(),
        ensures
            r matches Ok(v) ==> v.wf() && m_eq(v@, m_mul(self@, other@)),
            self@.cols != other@.rows
                ==> (r matches Err(e) && e == KernelError::DimensionMismatch),
            r is Err && self@.cols == other@.rows ==> (r matches Err(e)
                && e == KernelError::NumericalError),
            forall|b1: int, b2: int|
                #![trigger m_int_bnd(self@, b1), m_int_bnd(other@, b2)]
                0 <= b1 && 0 <= b2 && m_int_bnd(self@, b1) && m_int_bnd(other@, b2)
                    && self@.cols == other@.rows
                    && self@.rows * other@.cols <= usize::MAX
                    && self@.cols * (2 * (b1 * b2)) <= 0x7fff_ffff_ffff_ffff_ffff_ffff_ffff_ffff
                ==> (r matches Ok(v)
                    && m_int_bnd(v@, self@.cols * (2 * (b1 * b2)))),
    {
        if self.cols != other.rows {
            return Err(KernelError::DimensionMismatch);
        }
        let n: usize = match self.rows.checked_mul(other.cols) {
            Some(v) => v,
            None => { return Err(KernelError::NumericalError); },
        };
        let na: usize = self.data.len();
        let nb: usize = other.data.len();
        let prod: Ghost<Mv> = Ghost(m_mul(self@, other@));
        let mut data: Vec<Complex> = Vec::new();
        let mut i: usize = 0;
        while i < self.rows
            invariant
                self.wf(),
                other.wf(),
                self@.cols == other@.rows,
                na as int == self@.e.len(),
                nb as int == other@.e.len(),
                n as int == self@.rows * other@.cols,
                n <= usize::MAX,
                prod@ == m_mul(self@, other@),
                i <= self.rows,
                data@.len() == i as int * other@.cols,
                data@.len() <= n as int,
                forall|t: int| 0 <= t < data@.len()
                    ==> c_valid((#[trigger] data@[t])@)
                        && c_eq(data@[t]@, prod@.e[t]),
                forall|b1: int, b2: int|
                    #![trigger m_int_bnd(self@, b1), m_int_bnd(other@, b2)]
                    0 <= b1 && 0 <= b2 && m_int_bnd(self@, b1) && m_int_bnd(other@, b2)
                        && self@.cols == other@.rows
                        && self@.rows * other@.cols <= usize::MAX
                        && self@.cols * (2 * (b1 * b2)) <= 0x7fff_ffff_ffff_ffff_ffff_ffff_ffff_ffff
                    ==> (forall|t: int| 0 <= t < data@.len()
                        ==> c_int_bnd((#[trigger] data@[t])@,
                            self@.cols * (2 * (b1 * b2)))),
            decreases self.rows - i,
        {
            let mut j: usize = 0;
            proof {
                assert((i as int + 1) * other@.cols <= self@.rows * other@.cols)
                    by (nonlinear_arith)
                    requires
                        i as int + 1 <= self@.rows,
                        other@.cols >= 0,
                ;
            }
            while j < other.cols
                invariant
                    self.wf(),
                    other.wf(),
                    self@.cols == other@.rows,
                    na as int == self@.e.len(),
                    nb as int == other@.e.len(),
                    n as int == self@.rows * other@.cols,
                    n <= usize::MAX,
                    prod@ == m_mul(self@, other@),
                    i < self.rows,
                    j <= other.cols,
                    (i as int + 1) * other@.cols <= n as int,
                    data@.len() == i as int * other@.cols + j as int,
                    forall|t: int| 0 <= t < data@.len()
                        ==> c_valid((#[trigger] data@[t])@)
                            && c_eq(data@[t]@, prod@.e[t]),
                    forall|b1: int, b2: int|
                        #![trigger m_int_bnd(self@, b1), m_int_bnd(other@, b2)]
                        0 <= b1 && 0 <= b2 && m_int_bnd(self@, b1) && m_int_bnd(other@, b2)
                            && self@.cols == other@.rows
                            && self@.rows * other@.cols <= usize::MAX
                            && self@.cols * (2 * (b1 * b2)) <= 0x7fff_ffff_ffff_ffff_ffff_ffff_ffff_ffff
                        ==> (forall|t: int| 0 <= t < data@.len()
                            ==> c_int_bnd((#[trigger] data@[t])@,
                                self@.cols * (2 * (b1 * b2)))),
                decreases other.cols - j,
            {
                let ghost f = |t: int| c_mul(m_idx(self@, i as int, t),
                    m_idx(other@, t, j as int));
                let mut acc: Complex = Complex::zero();
                let mut t: usize = 0;
                while t < self.cols
                    invariant
                        self.wf(),
                        other.wf(),
                        self@.cols == other@.rows,
                        na as int == self@.e.len(),
                        nb as int == other@.e.len(),
                        i < self.rows,
                        j < other.cols,
                        t <= self.cols,
                        f == (|t: int| c_mul(m_idx(self@, i as int, t),
                            m_idx(other@, t, j as int))),
                        acc.wf(),
                        c_eq(acc@, csum(t as nat, f)),
                        forall|b1: int, b2: int|
                            #![trigger m_int_bnd(self@, b1), m_int_bnd(other@, b2)]
                            0 <= b1 && 0 <= b2 && m_int_bnd(self@, b1) && m_int_bnd(other@, b2)
                                && self@.cols == other@.rows
                                && self@.rows * other@.cols <= usize::MAX
                                && self@.cols * (2 * (b1 * b2)) <= 0x7fff_ffff_ffff_ffff_ffff_ffff_ffff_ffff
                            ==> c_int_bnd(acc@, t as int * (2 * (b1 * b2))),
                    decreases self.cols - t,
                {
                    proof {
                        lemma_rc_index(i as int, t as int, self@.rows, self@.cols);
                        lemma_rc_index(t as int, j as int, other@.rows, other@.cols);
                    }
                    let ka: usize = i * self.cols + t;
                    let kb: usize = t * other.cols + j;
                    let a: Complex = self.data[ka];
                    let b: Complex = other.data[kb];
                    proof {
                        assert(a@ == self@.e[ka as int]);
                        assert(b@ == other@.e[kb as int]);
                    }
                    let p = match a.mul(&b) {
                        Ok(v) => v,
                        Err(e) => {
                            proof {
                                assert forall|b1: int, b2: int|
                                    #![trigger m_int_bnd(self@, b1), m_int_bnd(other@, b2)]
                                    0 <= b1 && 0 <= b2 && m_int_bnd(self@, b1) && m_int_bnd(other@, b2)
                                    && self@.cols == other@.rows
                                    && self@.rows * other@.cols <= usize::MAX
                                    && self@.cols * (2 * (b1 * b2)) <= 0x7fff_ffff_ffff_ffff_ffff_ffff_ffff_ffff
                                    implies false by {
                                    lemma_int_step_bounds(b1, b2, t as int,
                                        self@.cols);
                                    assert(c_int_bnd(a@, b1));
                                    assert(c_int_bnd(b@, b2));
                                }
                            }
                            return Err(e);
                        },
                    };
                    let acc2 = match acc.add(&p) {
                        Ok(v) => v,
                        Err(e) => {
                            proof {
                                assert forall|b1: int, b2: int|
                                    #![trigger m_int_bnd(self@, b1), m_int_bnd(other@, b2)]
                                    0 <= b1 && 0 <= b2 && m_int_bnd(self@, b1) && m_int_bnd(other@, b2)
                                    && self@.cols == other@.rows
                                    && self@.rows * other@.cols <= usize::MAX
                                    && self@.cols * (2 * (b1 * b2)) <= 0x7fff_ffff_ffff_ffff_ffff_ffff_ffff_ffff
                                    implies false by {
                                    lemma_int_step_bounds(b1, b2, t as int,
                                        self@.cols);
                                    assert(c_int_bnd(a@, b1));
                                    assert(c_int_bnd(b@, b2));
                                    assert(c_int_bnd(p@, 2 * (b1 * b2)));
                                    assert(c_int_bnd(acc@, t as int * (2 * (b1 * b2))));
                                }
                            }
                            return Err(e);
                        },
                    };
                    proof {
                        assert forall|b1: int, b2: int|
                            #![trigger m_int_bnd(self@, b1), m_int_bnd(other@, b2)]
                            0 <= b1 && 0 <= b2 && m_int_bnd(self@, b1) && m_int_bnd(other@, b2)
                            && self@.cols == other@.rows
                            && self@.rows * other@.cols <= usize::MAX
                            && self@.cols * (2 * (b1 * b2)) <= 0x7fff_ffff_ffff_ffff_ffff_ffff_ffff_ffff
                            implies c_int_bnd(acc2@, (t + 1) as int * (2 * (b1 * b2))) by {
                            lemma_int_step_bounds(b1, b2, t as int, self@.cols);
                            assert(c_int_bnd(a@, b1));
                            assert(c_int_bnd(b@, b2));
                            assert(c_int_bnd(p@, 2 * (b1 * b2)));
                            assert(c_int_bnd(acc@, t as int * (2 * (b1 * b2))));
                        }
                        assert forall|u: int| 0 <= u < t
                            implies c_wf(#[trigger] f(u)) by {
                            lemma_rc_index(i as int, u, self@.rows, self@.cols);
                            lemma_rc_index(u, j as int, other@.rows, other@.cols);
                            lemma_c_mul_wf(m_idx(self@, i as int, u),
                                m_idx(other@, u, j as int));
                        }
                        lemma_csum_wf(t as nat, f);
                        lemma_c_mul_wf(a@, b@);
                        lemma_c_eq_trans(p@, c_mul(a@, b@), f(t as int));
                        lemma_c_eq_add2(acc2@, acc@, p@, csum(t as nat, f),
                            f(t as int));
                    }
                    acc = acc2;
                    t = t + 1;
                }
                proof {
                    lemma_rc_index(i as int, j as int, self@.rows, other@.cols);
                    let x = i as int * other@.cols + j as int;
                    let g = |t: int| c_mul(m_idx(self@, x / other@.cols, t),
                        m_idx(other@, t, x % other@.cols));
                    assert forall|u: int| 0 <= u < self@.cols
                        implies #[trigger] f(u) == g(u) by {
                    }
                    lemma_csum_ext(self@.cols as nat, f, g);
                    assert(prod@.e[x] == csum(self@.cols as nat, g));
                    assert(c_eq(acc@, prod@.e[x]));
                    assert((i as int + 1) * other@.cols
                        == i as int * other@.cols + other@.cols) by (nonlinear_arith);
                    assert forall|b1: int, b2: int|
                        #![trigger m_int_bnd(self@, b1), m_int_bnd(other@, b2)]
                        0 <= b1 && 0 <= b2 && m_int_bnd(self@, b1) && m_int_bnd(other@, b2)
                        && self@.cols == other@.rows
                        && self@.rows * other@.cols <= usize::MAX
                        && self@.cols * (2 * (b1 * b2)) <= 0x7fff_ffff_ffff_ffff_ffff_ffff_ffff_ffff
                        implies c_int_bnd(acc@, self@.cols * (2 * (b1 * b2))) by {
                        lemma_int_step_bounds(b1, b2, self@.cols, self@.cols);
                        assert(c_int_bnd(acc@, self@.cols * (2 * (b1 * b2))));
                    }
                }
                data.push(acc);
                j = j + 1;
            }
            proof {
                assert((i as int + 1) * other@.cols
                    == i as int * other@.cols + other@.cols) by (nonlinear_arith);
            }
            i = i + 1;
        }
        let m = Matrix { rows: self.rows, cols: other.cols, data };
        Ok(m)
    }
}

/// One half, as a complex model.
pub open spec fn c_half() -> Cv {
    Cv { re: Qv { n: 1, d: 2 }, im: q_zero() }
}

/// Re-symmetrization (M + M^dagger) / 2, the repair a caller applies after
/// a lossy transform to restore Hermiticity.
pub open spec fn m_hermitize(m: Mv) -> Mv {
    m_scale(c_half(), m_add(m, m_conj_transpose(m)))
}

impl Matrix {
    /// The Kronecker (tensor) product: the entry at (i*rb + k, j*cb + l)
    /// is self[i, j] * other[k, l].
    pub fn tensor_product(&self, other: &Matrix) -> (r: Result<Matrix, KernelError>)
        requires
            self.wf(),
            other.wf(),
        ensures
            r matches Ok(v) ==> v.wf() && m_eq(v@, m_kron(self@, other@)),
            r matches Err(e) ==> e == KernelError::NumericalError,
            forall|b1: int, b2: int|
                #![trigger m_int_bnd(self@, b1), m_int_bnd(other@, b2)]
                0 <= b1 && 0 <= b2 && m_int_bnd(self@, b1) && m_int_bnd(other@, b2)
                    && self@.rows * other@.rows <= usize::MAX
                    && self@.cols * other@.cols <= usize::MAX
                    && (self@.rows * other@.rows) * (self@.cols * other@.cols) <= usize::MAX
                    && 2 * (b1 * b2) <= 0x7fff_ffff_ffff_ffff_ffff_ffff_ffff_ffff
                ==> (r matches Ok(v) && m_int_bnd(v@, 2 * (b1 * b2))),
    {
        let rows: usize = match self.rows.checked_mul(other.rows) {
            Some(v) => v,
            None => { return Err(KernelError::NumericalError); },
        };
        let cols: usize = match self.cols.checked_mul(other.cols) {
            Some(v) => v,
            None => { return Err(KernelError::NumericalError); },
        };
        let n: usize = match rows.checked_mul(cols) {
            Some(v) => v,
            None => { return Err(KernelError::NumericalError); },
        };
        let na: usize = self.data.len();
        let nb: usize = other.data.len();
        let prod: Ghost<Mv> = Ghost(m_kron(self@, other@));
        let mut data: Vec<Complex> = Vec::new();
        let mut rr: usize = 0;
        while rr < rows
            invariant
                self.wf(),
                other.wf(),
                na as int == self@.e.len(),
                nb as int == other@.e.len(),
                rows as int == self@.rows * other@.rows,
                cols as int == self@.cols * other@.cols,
                n as int == rows as int * cols as int,
                n <= usize::MAX,
                prod@ == m_kron(self@, other@),
                rr <= rows,
                data@.len() == rr as int * cols as int,
                data@.len() <= n as int,
                forall|t: int| 0 <= t < data@.len()
                    ==> c_valid((#[trigger] data@[t])@)
                        && c_eq(data@[t]@, prod@.e[t]),
                forall|b1: int, b2: int|
                    #![trigger m_int_bnd(self@, b1), m_int_bnd(other@, b2)]
                    0 <= b1 && 0 <= b2 && m_int_bnd(self@, b1) && m_int_bnd(other@, b2)
                        && self@.rows * other@.rows <= usize::MAX
                        && self@.cols * other@.cols <= usize::MAX
                        && (self@.rows * other@.rows) * (self@.cols * other@.cols) <= usize::MAX
                        && 2 * (b1 * b2) <= 0x7fff_ffff_ffff_ffff_ffff_ffff_ffff_ffff
                    ==> (forall|t: int| 0 <= t < data@.len()
                        ==> c_int_bnd((#[trigger] data@[t])@, 2 * (b1 * b2))),
            decreases rows - rr,
        {
            let mut cc: usize = 0;
            proof {
                assert((rr as int + 1) * cols as int <= rows as int * cols as int)
                    by (nonlinear_arith)
                    requires
                        rr as int + 1 <= rows as int,
                        cols as int >= 0,
                ;
            }
            while cc < cols
                invariant
                    self.wf(),
                    other.wf(),
                    na as int == self@.e.len(),
                    nb as int == other@.e.len(),
                    rows as int == self@.rows * other@.rows,
                    cols as int == self@.cols * other@.cols,
                    n as int == rows as int * cols as int,
                    n <= usize::MAX,
                    prod@ == m_kron(self@, other@),
                    rr < rows,
                    cc <= cols,
                    (rr as int + 1) * cols as int <= n as int,
                    data@.len() == rr as int * cols as int + cc as int,
                    forall|t: int| 0 <= t < data@.len()
                        ==> c_valid((#[trigger] data@[t])@)
                            && c_eq(data@[t]@, prod@.e[t]),
                    forall|b1: int, b2: int|
                        #![trigger m_int_bnd(self@, b1), m_int_bnd(other@, b2)]
                        0 <= b1 && 0 <= b2 && m_int_bnd(self@, b1) && m_int_bnd(other@, b2)
                            && self@.rows * other@.rows <= usize::MAX
                            && self@.cols * other@.cols <= usize::MAX
                            && (self@.rows * other@.rows) * (self@.cols * other@.cols) <= usize::MAX
                            && 2 * (b1 * b2) <= 0x7fff_ffff_ffff_ffff_ffff_ffff_ffff_ffff
                        ==> (forall|t: int| 0 <= t < data@.len()
                            ==> c_int_bnd((#[trigger] data@[t])@, 2 * (b1 * b2))),
                decreases cols - cc,
            {
                proof {
                    assert(other@.rows >= 1 && self@.rows >= 1) by (nonlinear_arith)
                        requires
                            self@.rows * other@.rows >= 1,
                            self@.rows >= 0,
                            other@.rows >= 0,
                    ;
                    assert(other@.cols >= 1 && self@.cols >= 1) by (nonlinear_arith)
                        requires
                            self@.cols * other@.cols >= 1,
                            self@.cols >= 0,
                            other@.cols >= 0,
                    ;
                    lemma_rc_split(rr as int, self@.rows, other@.rows);
                    lemma_rc_split(cc as int, self@.cols, other@.cols);
                }
                let i: usize = rr / other.rows;
                let k: usize = rr % other.rows;
                let j: usize = cc / other.cols;
                let l: usize = cc % other.cols;
                proof {
                    lemma_rc_index(i as int, j as int, self@.rows, self@.cols);
                    lemma_rc_index(k as int, l as int, other@.rows, other@.cols);
                }
                let ka: usize = i * self.cols + j;
                let kb: usize = k * other.cols + l;
                let a: Complex = self.data[ka];
                let b: Complex = other.data[kb];
                proof {
                    assert(a@ == self@.e[ka as int]);
                    assert(b@ == other@.e[kb as int]);
                }
                let v = match a.mul(&b) {
                    Ok(v) => v,
                    Err(e) => {
                        proof {
                            assert forall|b1: int, b2: int|
                                #![trigger m_int_bnd(self@, b1), m_int_bnd(other@, b2)]
                                0 <= b1 && 0 <= b2 && m_int_bnd(self@, b1) && m_int_bnd(other@, b2)
                                    && self@.rows * other@.rows <= usize::MAX
                                    && self@.cols * other@.cols <= usize::MAX
                                    && (self@.rows * other@.rows) * (self@.cols * other@.cols) <= usize::MAX
                                    && 2 * (b1 * b2) <= 0x7fff_ffff_ffff_ffff_ffff_ffff_ffff_ffff
                                implies false by {
                                vstd::arithmetic::mul::lemma_mul_nonnegative(b1, b2);
                                assert(c_int_bnd(a@, b1));
                                assert(c_int_bnd(b@, b2));
                            }
                        }
                        return Err(e);
                    },
                };
                proof {
                    lemma_rc_index(rr as int, cc as int, rows as int, cols as int);
                    let x = rr as int * cols as int + cc as int;
                    assert(x / (self@.cols * other@.cols) == rr as int
                        && x % (self@.cols * other@.cols) == cc as int);
                    assert(prod@.e[x] == c_mul(a@, b@));
                    assert forall|b1: int, b2: int|
                        #![trigger m_int_bnd(self@, b1), m_int_bnd(other@, b2)]
                        0 <= b1 && 0 <= b2 && m_int_bnd(self@, b1) && m_int_bnd(other@, b2)
                            && self@.rows * other@.rows <= usize::MAX
                            && self@.cols * other@.cols <= usize::MAX
                            && (self@.rows * other@.rows) * (self@.cols * other@.cols) <= usize::MAX
                            && 2 * (b1 * b2) <= 0x7fff_ffff_ffff_ffff_ffff_ffff_ffff_ffff
                        implies c_int_bnd(v@, 2 * (b1 * b2)) by {
                        vstd::arithmetic::mul::lemma_mul_nonnegative(b1, b2);
                        assert(c_int_bnd(a@, b1));
                        assert(c_int_bnd(b@, b2));
                    }
                }
                data.push(v);
                cc = cc + 1;
            }
            proof {
                assert((rr as int + 1) * cols as int
                    == rr as int * cols as int + cols as int) by (nonlinear_arith);
            }
            rr = rr + 1;
        }
        let m = Matrix { rows, cols, data };
        proof {
            assert((self@.rows * other@.rows) * (self@.cols * other@.cols)
                == rows as int * cols as int);
        }
        Ok(m)
    }

    /// The marginal on the first tensor factor of a (d*d) x (d*d) joint
    /// matrix: entry (i, j) is the sum over k of self[i*d + k, j*d + k].
    pub fn partial_trace_first(&self, d: usize) -> (r: Result<Matrix, KernelError>)
        requires
            self.wf(),
        ensures
            r matches Ok(v) ==> v.wf() && m_eq(v@, m_ptrace_first(self@, d as int)),
            !(self@.rows == d * d && self@.cols == d * d)
                <==> (r matches Err(e) && e == KernelError::DimensionMismatch),
            r is Err && self@.rows == d * d && self@.cols == d * d
                ==> (r matches Err(e) && e == KernelError::NumericalError),
            forall|b: int|
                #![trigger m_int_bnd(self@, b)]
                0 <= b && m_int_bnd(self@, b) && self@.rows == d as int * d as int
                    && self@.cols == d as int * d as int
                    && d as int * b <= 0x7fff_ffff_ffff_ffff_ffff_ffff_ffff_ffff
                ==> (r matches Ok(v) && m_int_bnd(v@, d as int * b)),
    {
        let dd: usize = match d.checked_mul(d) {
            Some(v) => v,
            None => { return Err(KernelError::DimensionMismatch); },
        };
        if self.rows != dd || self.cols != dd {
            return Err(KernelError::DimensionMismatch);
        }
        let n: usize = self.data.len();
        let marg: Ghost<Mv> = Ghost(m_ptrace_first(self@, d as int));
        let mut data: Vec<Complex> = Vec::new();
        let mut i: usize = 0;
        while i < d
            invariant
                self.wf(),
                self@.rows == d as int * d as int,
                self@.cols == d as int * d as int,
                dd as int == d as int * d as int,
                n as int == self@.e.len(),
                marg@ == m_ptrace_first(self@, d as int),
                i <= d,
                data@.len() == i as int * d as int,
                data@.len() <= dd as int,
                forall|t: int| 0 <= t < data@.len()
                    ==> c_valid((#[trigger] data@[t])@)
                        && c_eq(data@[t]@, marg@.e[t]),
                forall|b: int|
                    #![trigger m_int_bnd(self@, b)]
                    0 <= b && m_int_bnd(self@, b) && self@.rows == d as int * d as int
                        && self@.cols == d as int * d as int
                        && d as int * b <= 0x7fff_ffff_ffff_ffff_ffff_ffff_ffff_ffff
                    ==> (forall|t: int| 0 <= t < data@.len()
                        ==> c_int_bnd((#[trigger] data@[t])@, d as int * b)),
            decreases d - i,
        {
            let mut j: usize = 0;
            proof {
                assert((i as int + 1) * d as int <= d as int * d as int)
                    by (nonlinear_arith)
                    requires
                        i as int + 1 <= d as int,
                        d as int >= 0,
                ;
            }
            while j < d
                invariant
                    self.wf(),
                    self@.rows == d as int * d as int,
                    self@.cols == d as int * d as int,
                    dd as int == d as int * d as int,
                    n as int == self@.e.len(),
                    marg@ == m_ptrace_first(self@, d as int),
                    i < d,
                    j <= d,
                    (i as int + 1) * d as int <= dd as int,
                    data@.len() == i as int * d as int + j as int,
                    forall|t: int| 0 <= t < data@.len()
                        ==> c_valid((#[trigger] data@[t])@)
                            && c_eq(data@[t]@, marg@.e[t]),
                    forall|b: int|
                        #![trigger m_int_bnd(self@, b)]
                        0 <= b && m_int_bnd(self@, b) && self@.rows == d as int * d as int
                            && self@.cols == d as int * d as int
                            && d as int * b <= 0x7fff_ffff_ffff_ffff_ffff_ffff_ffff_ffff
                        ==> (forall|t: int| 0 <= t < data@.len()
                            ==> c_int_bnd((#[trigger] data@[t])@, d as int * b)),
                decreases d - j,
            {
                let ghost f = |k: int| m_idx(self@, i as int * d as int + k,
                    j as int * d as int + k);
                let mut acc: Complex = Complex::zero();
                let mut k: usize = 0;
                while k < d
                    invariant
                        self.wf(),
                        self@.rows == d as int * d as int,
                        self@.cols == d as int * d as int,
                        dd as int == d as int * d as int,
                        n as int == self@.e.len(),
                        i < d,
                        j < d,
                        k <= d,
                        f == (|k: int| m_idx(self@, i as int * d as int + k,
                            j as int * d as int + k)),
                        acc.wf(),
                        c_eq(acc@, csum(k as nat, f)),
                        forall|b: int|
                            #![trigger m_int_bnd(self@, b)]
                            0 <= b && m_int_bnd(self@, b) && self@.rows == d as int * d as int
                                && self@.cols == d as int * d as int
                                && d as int * b <= 0x7fff_ffff_ffff_ffff_ffff_ffff_ffff_ffff
                            ==> c_int_bnd(acc@, k as int * b),
                    decreases d - k,
                {
                    proof {
                        lemma_rc_index(i as int, k as int, d as int, d as int);
                        lemma_rc_index(j as int, k as int, d as int, d as int);
                        lemma_rc_index(i as int * d as int + k as int,
                            j as int * d as int + k as int,
                            d as int * d as int, d as int * d as int);
                    }
                    let row: usize = i * d + k;
                    let col: usize = j * d + k;
                    let kk: usize = row * dd + col;
                    let v: Complex = self.data[kk];
                    proof {
                        assert(v@ == self@.e[kk as int]);
                        assert(v@ == f(k as int));
                    }
                    let acc2 = match acc.add(&v) {
                        Ok(w) => w,
                        Err(e) => {
                            proof {
                                assert forall|b: int|
                                    #![trigger m_int_bnd(self@, b)]
                                    0 <= b && m_int_bnd(self@, b) && self@.rows == d as int * d as int
                                    && self@.cols == d as int * d as int
                                    && d as int * b <= 0x7fff_ffff_ffff_ffff_ffff_ffff_ffff_ffff
                                    implies false by {
                                    lemma_int_acc_bounds(b, k as int, d as int);
                                    assert(c_int_bnd(v@, b));
                                    assert(c_int_bnd(acc@, k as int * b));
                                }
                            }
                            return Err(e);
                        },
                    };
                    proof {
                        assert forall|b: int|
                            #![trigger m_int_bnd(self@, b)]
                            0 <= b && m_int_bnd(self@, b) && self@.rows == d as int * d as int
                            && self@.cols == d as int * d as int
                            && d as int * b <= 0x7fff_ffff_ffff_ffff_ffff_ffff_ffff_ffff
                            implies c_int_bnd(acc2@, (k + 1) as int * b) by {
                            lemma_int_acc_bounds(b, k as int, d as int);
                            assert(c_int_bnd(v@, b));
                            assert(c_int_bnd(acc@, k as int * b));
                        }
                        assert forall|u: int| 0 <= u < k
                            implies c_wf(#[trigger] f(u)) by {
                            lemma_rc_index(i as int, u, d as int, d as int);
                            lemma_rc_index(j as int, u, d as int, d as int);
                            lemma_rc_index(i as int * d as int + u,
                                j as int * d as int + u,
                                d as int * d as int, d as int * d as int);
                        }
                        lemma_csum_wf(k as nat, f);
                        lemma_c_eq_add2(acc2@, acc@, v@, csum(k as nat, f),
                            f(k as int));
                    }
                    acc = acc2;
                    k = k + 1;
                }
                proof {
                    lemma_rc_index(i as int, j as int, d as int, d as int);
                    let x = i as int * d as int + j as int;
                    let g = |k: int| m_idx(self@, (x / d as int) * d as int + k,
                        (x % d as int) * d as int + k);
                    assert forall|u: int| 0 <= u < d as int
                        implies #[trigger] f(u) == g(u) by {
                    }
                    lemma_csum_ext(d as nat, f, g);
                    assert(c_eq(acc@, marg@.e[x]));
                    assert((i as int + 1) * d as int
                        == i as int * d as int + d as int) by (nonlinear_arith);
                }
                data.push(acc);
                j = j + 1;
            }
            proof {
                assert((i as int + 1) * d as int
                    == i as int * d as int + d as int) by (nonlinear_arith);
            }
            i = i + 1;
        }
        let m = Matrix { rows: d, cols: d, data };
        Ok(m)
    }

    /// The marginal on the second tensor factor: entry (i, j) is the sum
    /// over k of self[k*d + i, k*d + j].
    pub fn partial_trace_second(&self, d: usize) -> (r: Result<Matrix, KernelError>)
        requires
            self.wf(),
        ensures
            r matches Ok(v) ==> v.wf() && m_eq(v@, m_ptrace_second(self@, d as int)),
            !(self@.rows == d * d && self@.cols == d * d)
                <==> (r matches Err(e) && e == KernelError::DimensionMismatch),
            r is Err && self@.rows == d * d && self@.cols == d * d
                ==> (r matches Err(e) && e == KernelError::NumericalError),
            forall|b: int|
                #![trigger m_int_bnd(self@, b)]
                0 <= b && m_int_bnd(self@, b) && self@.rows == d as int * d as int
                    && self@.cols == d as int * d as int
                    && d as int * b <= 0x7fff_ffff_ffff_ffff_ffff_ffff_ffff_ffff
                ==> (r matches Ok(v) && m_int_bnd(v@, d as int * b)),
    {
        let dd: usize = match d.checked_mul(d) {
            Some(v) => v,
            None => { return Err(KernelError::DimensionMismatch); },
        };
        if self.rows != dd || self.cols != dd {
            return Err(KernelError::DimensionMismatch);
        }
        let n: usize = self.data.len();
        let marg: Ghost<Mv> = Ghost(m_ptrace_second(self@, d as int));
        let mut data: Vec<Complex> = Vec::new();
        let mut i: usize = 0;
        while i < d
            invariant
                self.wf(),
                self@.rows == d as int * d as int,
                self@.cols == d as int * d as int,
                dd as int == d as int * d as int,
                n as int == self@.e.len(),
                marg@ == m_ptrace_second(self@, d as int),
                i <= d,
                data@.len() == i as int * d as int,
                data@.len() <= dd as int,
                forall|t: int| 0 <= t < data@.len()
                    ==> c_valid((#[trigger] data@[t])@)
                        && c_eq(data@[t]@, marg@.e[t]),
                forall|b: int|
                    #![trigger m_int_bnd(self@, b)]
                    0 <= b && m_int_bnd(self@, b) && self@.rows == d as int * d as int
                        && self@.cols == d as int * d as int
                        && d as int * b <= 0x7fff_ffff_ffff_ffff_ffff_ffff_ffff_ffff
                    ==> (forall|t: int| 0 <= t < data@.len()
                        ==> c_int_bnd((#[trigger] data@[t])@, d as int * b)),
            decreases d - i,
        {
            let mut j: usize = 0;
            proof {
                assert((i as int + 1) * d as int <= d as int * d as int)
                    by (nonlinear_arith)
                    requires
                        i as int + 1 <= d as int,
                        d as int >= 0,
                ;
            }
            while j < d
                invariant
                    self.wf(),
                    self@.rows == d as int * d as int,
                    self@.cols == d as int * d as int,
                    dd as int == d as int * d as int,
                    n as int == self@.e.len(),
                    marg@ == m_ptrace_second(self@, d as int),
                    i < d,
                    j <= d,
                    (i as int + 1) * d as int <= dd as int,
                    data@.len() == i as int * d as int + j as int,
                    forall|t: int| 0 <= t < data@.len()
                        ==> c_valid((#[trigger] data@[t])@)
                            && c_eq(data@[t]@, marg@.e[t]),
                    forall|b: int|
                        #![trigger m_int_bnd(self@, b)]
                        0 <= b && m_int_bnd(self@, b) && self@.rows == d as int * d as int
                            && self@.cols == d as int * d as int
                            && d as int * b <= 0x7fff_ffff_ffff_ffff_ffff_ffff_ffff_ffff
                        ==> (forall|t: int| 0 <= t < data@.len()
                            ==> c_int_bnd((#[trigger] data@[t])@, d as int * b)),
                decreases d - j,
            {
                let ghost f = |k: int| m_idx(self@, k * d as int + i as int,
                    k * d as int + j as int);
                let mut acc: Complex = Complex::zero();
                let mut k: usize = 0;
                while k < d
                    invariant
                        self.wf(),
                        self@.rows == d as int * d as int,
                        self@.cols == d as int * d as int,
                        dd as int == d as int * d as int,
                        n as int == self@.e.len(),
                        i < d,
                        j < d,
                        k <= d,
                        f == (|k: int| m_idx(self@, k * d as int + i as int,
                            k * d as int + j as int)),
                        acc.wf(),
                        c_eq(acc@, csum(k as nat, f)),
                        forall|b: int|
                            #![trigger m_int_bnd(self@, b)]
                            0 <= b && m_int_bnd(self@, b) && self@.rows == d as int * d as int
                                && self@.cols == d as int * d as int
                                && d as int * b <= 0x7fff_ffff_ffff_ffff_ffff_ffff_ffff_ffff
                            ==> c_int_bnd(acc@, k as int * b),
                    decreases d - k,
                {
                    proof {
                        lemma_rc_index(k as int, i as int, d as int, d as int);
                        lemma_rc_index(k as int, j as int, d as int, d as int);
                        lemma_rc_index(k as int * d as int + i as int,
                            k as int * d as int + j as int,
                            d as int * d as int, d as int * d as int);
                    }
                    let row: usize = k * d + i;
                    let col: usize = k * d + j;
                    let kk: usize = row * dd + col;
                    let v: Complex = self.data[kk];
                    proof {
                        assert(v@ == self@.e[kk as int]);
                        assert(v@ == f(k as int));
                    }
                    let acc2 = match acc.add(&v) {
                        Ok(w) => w,
                        Err(e) => {
                            proof {
                                assert forall|b: int|
                                    #![trigger m_int_bnd(self@, b)]
                                    0 <= b && m_int_bnd(self@, b) && self@.rows == d as int * d as int
                                    && self@.cols == d as int * d as int
                                    && d as int * b <= 0x7fff_ffff_ffff_ffff_ffff_ffff_ffff_ffff
                                    implies false by {
                                    lemma_int_acc_bounds(b, k as int, d as int);
                                    assert(c_int_bnd(v@, b));
                                    assert(c_int_bnd(acc@, k as int * b));
                                }
                            }
                            return Err(e);
                        },
                    };
                    proof {
                        assert forall|b: int|
                            #![trigger m_int_bnd(self@, b)]
                            0 <= b && m_int_bnd(self@, b) && self@.rows == d as int * d as int
                            && self@.cols == d as int * d as int
                            && d as int * b <= 0x7fff_ffff_ffff_ffff_ffff_ffff_ffff_ffff
                            implies c_int_bnd(acc2@, (k + 1) as int * b) by {
                            lemma_int_acc_bounds(b, k as int, d as int);
                            assert(c_int_bnd(v@, b));
                            assert(c_int_bnd(acc@, k as int * b));
                        }
                        assert forall|u: int| 0 <= u < k
                            implies c_wf(#[trigger] f(u)) by {
                            lemma_rc_index(u, i as int, d as int, d as int);
                            lemma_rc_index(u, j as int, d as int, d as int);
                            lemma_rc_index(u * d as int + i as int,
                                u * d as int + j as int,
                                d as int * d as int, d as int * d as int);
                        }
                        lemma_csum_wf(k as nat, f);
                        lemma_c_eq_add2(acc2@, acc@, v@, csum(k as nat, f),
                            f(k as int));
                    }
                    acc = acc2;
                    k = k + 1;
                }
                proof {
                    lemma_rc_index(i as int, j as int, d as int, d as int);
                    let x = i as int * d as int + j as int;
                    let g = |k: int| m_idx(self@, k * d as int + (x / d as int),
                        k * d as int + (x % d as int));
                    assert forall|u: int| 0 <= u < d as int
                        implies #[trigger] f(u) == g(u) by {
                    }
                    lemma_csum_ext(d as nat, f, g);
                    assert(c_eq(acc@, marg@.e[x]));
                    assert((i as int + 1) * d as int
                        == i as int * d as int + d as int) by (nonlinear_arith);
                }
                data.push(acc);
                j = j + 1;
            }
            proof {
                assert((i as int + 1) * d as int
                    == i as int * d as int + d as int) by (nonlinear_arith);
            }
            i = i + 1;
        }
        let m = Matrix { rows: d, cols: d, data };
        Ok(m)
    }
}

impl Matrix {
    /// Re-symmetrizes a square matrix: (self + self^dagger) / 2. Callers
    /// apply this after a lossy transform to keep the Hermiticity
    /// invariant.
    pub fn hermitize(&self) -> (r: Result<Matrix, KernelError>)
        requires
            self.wf(),
        ensures
            r matches Ok(v) ==> v.wf() && m_eq(v@, m_hermitize(self@)),
            self@.rows != self@.cols
                <==> (r matches Err(e) && e == KernelError::DimensionMismatch),
            r is Err && self@.rows == self@.cols ==> (r matches Err(e)
                && e == KernelError::NumericalError),
            forall|b: int|
                #![trigger m_int_bnd(self@, b)]
                1 <= b && m_int_bnd(self@, b) && self@.rows == self@.cols
                    && 32 * (b * b) <= 0x7fff_ffff_ffff_ffff_ffff_ffff_ffff_ffff
                ==> r is Ok,
    {
        if self.rows != self.cols {
            return Err(KernelError::DimensionMismatch);
        }
        let ct = self.conj_transpose();
        proof {
            assert forall|b: int|
                #![trigger m_int_bnd(self@, b)]
                1 <= b && m_int_bnd(self@, b) && self@.rows == self@.cols
                    && 32 * (b * b) <= 0x7fff_ffff_ffff_ffff_ffff_ffff_ffff_ffff
                implies m_int_bnd(ct@, b) && b + b <= 0x7fff_ffff_ffff_ffff_ffff_ffff_ffff_ffff
                    && 2 * b <= 0x7fff_ffff_ffff_ffff_ffff_ffff_ffff_ffff by {
                lemma_m_conj_transpose_int_bnd(self@, b);
                assert(2 * b <= 32 * (b * b)) by (nonlinear_arith)
                    requires
                        1 <= b,
                ;
            }
        }
        let s = match self.add(&ct) {
            Ok(v) => v,
            Err(_) => {
                proof {
                    assert forall|b: int|
                        #![trigger m_int_bnd(self@, b)]
                        1 <= b && m_int_bnd(self@, b) && self@.rows == self@.cols
                            && 32 * (b * b) <= 0x7fff_ffff_ffff_ffff_ffff_ffff_ffff_ffff
                        implies false by {
                        assert(m_int_bnd(self@, b));
                        assert(m_int_bnd(ct@, b));
                    }
                }
                return Err(KernelError::NumericalError);
            },
        };
        let half_rat = match Rational::new(1, 2) {
            Ok(v) => v,
            Err(_) => { return Err(KernelError::NumericalError); },
        };
        let half = Complex::new(half_rat, Rational::from_int(0));
        proof {
            assert(crate::rational::q_bnd(Qv { n: 1, d: 2 }, 2));
            assert(c_bnd(half@, 2));
        }
        let v = match s.mul_scalar(&half) {
            Ok(v) => v,
            Err(e) => {
                proof {
                    assert forall|b: int|
                        #![trigger m_int_bnd(self@, b)]
                        1 <= b && m_int_bnd(self@, b) && self@.rows == self@.cols
                            && 32 * (b * b) <= 0x7fff_ffff_ffff_ffff_ffff_ffff_ffff_ffff
                        implies false by {
                        assert(m_int_bnd(self@, b));
                        assert(m_int_bnd(ct@, b));
                        assert(m_int_bnd(s@, b + b));
                        assert forall|k: int| 0 <= k < s@.e.len()
                            implies c_bnd(#[trigger] s@.e[k], 2 * b) by {
                            assert(c_int_bnd(s@.e[k], b + b));
                        }
                        assert(m_bnd(s@, 2 * b));
                        assert(2 * ((2 * (2 * b)) * (2 * (2 * b))) == 32 * (b * b))
                            by (nonlinear_arith);
                    }
                }
                return Err(e);
            },
        };
        proof {
            assert forall|b: int|
                #![trigger m_int_bnd(self@, b)]
                1 <= b && m_int_bnd(self@, b) && self@.rows == self@.cols
                    && 32 * (b * b) <= 0x7fff_ffff_ffff_ffff_ffff_ffff_ffff_ffff
                implies true by {
            }
        }
        proof {
            assert(c_eq(half@, c_half()));
            lemma_m_scale_congruence(half@, s@, c_half(),
                m_add(self@, m_conj_transpose(self@)));
            assert forall|k: int| 0 <= k < s@.e.len()
                implies c_wf(#[trigger] m_scale(half@, s@).e[k]) by {
                lemma_c_mul_wf(half@, s@.e[k]);
            }
            lemma_m_eq_trans(v@, m_scale(half@, s@), m_hermitize(self@));
        }
        Ok(v)
    }

    /// The commutator [self, other] = self*other - other*self; both
    /// operands must be square and of the same size.
    pub fn commutator(&self, other: &Matrix) -> (r: Result<Matrix, KernelError>)
        requires
            self.wf(),
            other.wf(),
        ensures
            r matches Ok(v) ==> v.wf()
                && m_eq(v@, m_sub(m_mul(self@, other@), m_mul(other@, self@))),
            !(self@.rows == self@.cols && other@.rows == other@.cols
                && self@.rows == other@.rows)
                ==> (r matches Err(e) && e == KernelError::DimensionMismatch),
            forall|b: int|
                #![trigger m_int_bnd(self@, b), m_int_bnd(other@, b)]
                0 <= b && m_int_bnd(self@, b) && m_int_bnd(other@, b)
                    && self@.rows == self@.cols && other@.rows == other@.cols
                    && self@.rows == other@.rows
                    && self@.rows * self@.cols <= usize::MAX
                    && 2 * (self@.rows * (2 * (b * b))) <= 0x7fff_ffff_ffff_ffff_ffff_ffff_ffff_ffff
                ==> r is Ok,
    {
        if self.rows != self.cols || other.rows != other.cols
            || self.rows != other.rows {
            return Err(KernelError::DimensionMismatch);
        }
        proof {
            assert forall|b: int|
                #![trigger m_int_bnd(self@, b), m_int_bnd(other@, b)]
                0 <= b && m_int_bnd(self@, b) && m_int_bnd(other@, b)
                    && self@.rows == self@.cols && other@.rows == other@.cols
                    && self@.rows == other@.rows
                    && self@.rows * self@.cols <= usize::MAX
                    && 2 * (self@.rows * (2 * (b * b))) <= 0x7fff_ffff_ffff_ffff_ffff_ffff_ffff_ffff
                implies self@.cols * (2 * (b * b)) <= 0x7fff_ffff_ffff_ffff_ffff_ffff_ffff_ffff
                    && 0 <= self@.cols * (2 * (b * b)) by {
                vstd::arithmetic::mul::lemma_mul_nonnegative(b, b);
                vstd::arithmetic::mul::lemma_mul_nonnegative(self@.cols,
                    2 * (b * b));
            }
        }
        let x = match self.mul(other) {
            Ok(v) => v,
            Err(e) => {
                proof {
                    assert forall|b: int|
                        #![trigger m_int_bnd(self@, b), m_int_bnd(other@, b)]
                        0 <= b && m_int_bnd(self@, b) && m_int_bnd(other@, b)
                            && self@.rows == self@.cols && other@.rows == other@.cols
                            && self@.rows == other@.rows
                            && self@.rows * self@.cols <= usize::MAX
                            && 2 * (self@.rows * (2 * (b * b))) <= 0x7fff_ffff_ffff_ffff_ffff_ffff_ffff_ffff
                        implies false by {
                        vstd::arithmetic::mul::lemma_mul_nonnegative(b, b);
                        vstd::arithmetic::mul::lemma_mul_nonnegative(self@.cols,
                            2 * (b * b));
                    }
                }
                return Err(e);
            },
        };
        let y = match other.mul(self) {
            Ok(v) => v,
            Err(e) => {
                proof {
                    assert forall|b: int|
                        #![trigger m_int_bnd(self@, b), m_int_bnd(other@, b)]
                        0 <= b && m_int_bnd(self@, b) && m_int_bnd(other@, b)
                            && self@.rows == self@.cols && other@.rows == other@.cols
                            && self@.rows == other@.rows
                            && self@.rows * self@.cols <= usize::MAX
                            && 2 * (self@.rows * (2 * (b * b))) <= 0x7fff_ffff_ffff_ffff_ffff_ffff_ffff_ffff
                        implies false by {
                        vstd::arithmetic::mul::lemma_mul_nonnegative(b, b);
                        vstd::arithmetic::mul::lemma_mul_nonnegative(self@.cols,
                            2 * (b * b));
                    }
                }
                return Err(e);
            },
        };
        let z = match x.sub(&y) {
            Ok(v) => v,
            Err(e) => {
                proof {
                    assert forall|b: int|
                        #![trigger m_int_bnd(self@, b), m_int_bnd(other@, b)]
                        0 <= b && m_int_bnd(self@, b) && m_int_bnd(other@, b)
                            && self@.rows == self@.cols && other@.rows == other@.cols
                            && self@.rows == other@.rows
                            && self@.rows * self@.cols <= usize::MAX
                            && 2 * (self@.rows * (2 * (b * b))) <= 0x7fff_ffff_ffff_ffff_ffff_ffff_ffff_ffff
                        implies false by {
                        vstd::arithmetic::mul::lemma_mul_nonnegative(b, b);
                        vstd::arithmetic::mul::lemma_mul_nonnegative(self@.cols,
                            2 * (b * b));
                        assert(m_int_bnd(x@, self@.cols * (2 * (b * b))));
                        assert(m_int_bnd(y@, self@.cols * (2 * (b * b))));
                    }
                }
                return Err(e);
            },
        };
        proof {
            assert(x@.e.len() == y@.e.len());
            lemma_m_sub_congruence(x@, y@, m_mul(self@, other@),
                m_mul(other@, self@));
            assert forall|k: int| 0 <= k < m_sub(x@, y@).e.len()
                implies c_wf(#[trigger] m_sub(x@, y@).e[k]) by {
                lemma_c_mul_wf(x@.e[k], y@.e[k]);
            }
            lemma_m_eq_trans(z@, m_sub(x@, y@),
                m_sub(m_mul(self@, other@), m_mul(other@, self@)));
        }
        Ok(z)
    }

    /// The expectation value Tr(self * op) of an observable `op` in the
    /// state described by this (density) matrix.
    pub fn expectation_of(&self, op: &Matrix) -> (r: Result<Complex, KernelError>)
        requires
            self.wf(),
            op.wf(),
        ensures
            r matches Ok(v) ==> v.wf() && c_eq(v@, m_trace(m_mul(self@, op@))),
            !(self@.cols == op@.rows && self@.rows == op@.cols)
                ==> (r matches Err(e) && e == KernelError::DimensionMismatch),
            forall|b: int|
                #![trigger m_int_bnd(self@, b), m_int_bnd(op@, b)]
                0 <= b && m_int_bnd(self@, b) && m_int_bnd(op@, b)
                    && self@.cols == op@.rows && self@.rows == op@.cols
                    && self@.rows * op@.cols <= usize::MAX
                    && self@.cols * (2 * (b * b)) <= 0x7fff_ffff_ffff_ffff_ffff_ffff_ffff_ffff
                    && self@.rows * (self@.cols * (2 * (b * b))) <= 0x7fff_ffff_ffff_ffff_ffff_ffff_ffff_ffff
                ==> r is Ok,
    {
        if self.cols != op.rows || self.rows != op.cols {
            return Err(KernelError::DimensionMismatch);
        }
        let p = match self.mul(op) {
            Ok(v) => v,
            Err(e) => {
                proof {
                    assert forall|b: int|
                        #![trigger m_int_bnd(self@, b), m_int_bnd(op@, b)]
                        0 <= b && m_int_bnd(self@, b) && m_int_bnd(op@, b)
                            && self@.cols == op@.rows && self@.rows == op@.cols
                            && self@.rows * op@.cols <= usize::MAX
                            && self@.cols * (2 * (b * b)) <= 0x7fff_ffff_ffff_ffff_ffff_ffff_ffff_ffff
                            && self@.rows * (self@.cols * (2 * (b * b))) <= 0x7fff_ffff_ffff_ffff_ffff_ffff_ffff_ffff
                        implies false by {
                        assert(m_int_bnd(self@, b));
                        assert(m_int_bnd(op@, b));
                    }
                }
                return Err(e);
            },
        };
        let t = match p.trace() {
            Ok(v) => v,
            Err(e) => {
                proof {
                    assert forall|b: int|
                        #![trigger m_int_bnd(self@, b), m_int_bnd(op@, b)]
                        0 <= b && m_int_bnd(self@, b) && m_int_bnd(op@, b)
                            && self@.cols == op@.rows && self@.rows == op@.cols
                            && self@.rows * op@.cols <= usize::MAX
                            && self@.cols * (2 * (b * b)) <= 0x7fff_ffff_ffff_ffff_ffff_ffff_ffff_ffff
                            && self@.rows * (self@.cols * (2 * (b * b))) <= 0x7fff_ffff_ffff_ffff_ffff_ffff_ffff_ffff
                        implies false by {
                        assert(m_int_bnd(self@, b));
                        assert(m_int_bnd(op@, b));
                        assert(m_int_bnd(p@, self@.cols * (2 * (b * b))));
                        vstd::arithmetic::mul::lemma_mul_nonnegative(b, b);
                        vstd::arithmetic::mul::lemma_mul_nonnegative(self@.cols,
                            2 * (b * b));
                    }
                }
                return Err(e);
            },
        };
        proof {
            lemma_m_mul_wf(self@, op@);
            lemma_m_trace_congruence(p@, m_mul(self@, op@));
            let f = |i: int| m_idx(p@, i, i);
            assert forall|i: int| 0 <= i < p@.rows
                implies c_wf(#[trigger] f(i)) by {
                lemma_rc_index(i, i, p@.rows, p@.cols);
            }
            lemma_csum_wf(p@.rows as nat, f);
            lemma_c_eq_trans(t@, m_trace(p@), m_trace(m_mul(self@, op@)));
        }
        Ok(t)
    }
}

/// Matrix value equality is transitive across a well-formed middle term.
pub proof fn lemma_m_eq_trans(a: Mv, b: Mv, c: Mv)
    requires
        m_eq(a, b),
        m_eq(b, c),
        forall|k: int| 0 <= k < b.e.len() ==> c_wf(#[trigger] b.e[k]),
    ensures
        m_eq(a, c),
{
    assert forall|k: int| 0 <= k < a.e.len()
        implies c_eq(#[trigger] a.e[k], c.e[k]) by {
        lemma_c_eq_trans(a.e[k], b.e[k], c.e[k]);
    }
}

/// Entrywise addition respects value equality.
pub proof fn lemma_m_add_congruence(a: Mv, b: Mv, a2: Mv, b2: Mv)
    requires
        m_eq(a, a2),
        m_eq(b, b2),
        a.e.len() == b.e.len(),
    ensures
        m_eq(m_add(a, b), m_add(a2, b2)),
{
    assert forall|k: int| 0 <= k < m_add(a, b).e.len()
        implies c_eq(#[trigger] m_add(a, b).e[k], m_add(a2, b2).e[k]) by {
        lemma_q_add_congruence(a.e[k].re, b.e[k].re, a2.e[k].re, b2.e[k].re);
        lemma_q_add_congruence(a.e[k].im, b.e[k].im, a2.e[k].im, b2.e[k].im);
    }
}

/// Scaling respects value equality of the scalar and of the matrix.
pub proof fn lemma_m_scale_congruence(s: Cv, a: Mv, s2: Cv, a2: Mv)
    requires
        c_eq(s, s2),
        m_eq(a, a2),
    ensures
        m_eq(m_scale(s, a), m_scale(s2, a2)),
{
    assert forall|k: int| 0 <= k < m_scale(s, a).e.len()
        implies c_eq(#[trigger] m_scale(s, a).e[k], m_scale(s2, a2).e[k]) by {
        lemma_c_mul_congruence(s, a.e[k], s2, a2.e[k]);
    }
}

/// The conjugate transpose respects value equality.
pub proof fn lemma_m_conj_transpose_congruence(a: Mv, a2: Mv)
    requires
        m_eq(a, a2),
        m_wf(a),
        m_wf(a2),
    ensures
        m_eq(m_conj_transpose(a), m_conj_transpose(a2)),
{
    let ct = m_conj_transpose(a);
    let ct2 = m_conj_transpose(a2);
    assert(a.cols * a.rows == a.rows * a.cols) by (nonlinear_arith);
    assert forall|k: int| 0 <= k < ct.e.len()
        implies c_eq(#[trigger] ct.e[k], ct2.e[k]) by {
        if a.rows >= 1 {
            lemma_rc_split(k, a.cols, a.rows);
            lemma_rc_index(k % a.rows, k / a.rows, a.rows, a.cols);
            let p = a.e[(k % a.rows) * a.cols + k / a.rows];
            let p2 = a2.e[(k % a.rows) * a.cols + k / a.rows];
            crate::rational::lemma_q_neg_congruence(p.im, p2.im);
        } else {
            assert(a.rows * a.cols == 0) by (nonlinear_arith)
                requires
                    a.rows == 0,
            ;
        }
    }
}

/// The well-formedness of a matrix product.
pub proof fn lemma_m_mul_wf(a: Mv, b: Mv)
    requires
        m_wf(a),
        m_wf(b),
        a.cols == b.rows,
    ensures
        m_wf(m_mul(a, b)),
{
    let p = m_mul(a, b);
    vstd::arithmetic::mul::lemma_mul_nonnegative(a.rows, b.cols);
    assert forall|k: int| 0 <= k < p.e.len()
        implies c_wf(#[trigger] p.e[k]) by {
        assert(b.cols >= 1) by (nonlinear_arith)
            requires
                0 <= k < a.rows * b.cols,
                b.cols >= 0,
        ;
        lemma_rc_split(k, a.rows, b.cols);
        let f = |t: int| c_mul(m_idx(a, k / b.cols, t), m_idx(b, t, k % b.cols));
        assert forall|u: int| 0 <= u < a.cols implies c_wf(#[trigger] f(u)) by {
            lemma_rc_index(k / b.cols, u, a.rows, a.cols);
            lemma_rc_index(u, k % b.cols, b.rows, b.cols);
            lemma_c_mul_wf(m_idx(a, k / b.cols, u), m_idx(b, u, k % b.cols));
        }
        lemma_csum_wf(a.cols as nat, f);
    }
}

/// The trace respects value equality of square matrices.
pub proof fn lemma_m_trace_congruence(a: Mv, b: Mv)
    requires
        m_eq(a, b),
        m_wf(a),
        m_wf(b),
        a.rows == a.cols,
    ensures
        c_eq(m_trace(a), m_trace(b)),
{
    let f = |i: int| m_idx(a, i, i);
    let g = |i: int| m_idx(b, i, i);
    assert forall|i: int| 0 <= i < a.rows implies c_wf(#[trigger] f(i)) by {
        lemma_rc_index(i, i, a.rows, a.cols);
    }
    assert forall|i: int| 0 <= i < a.rows implies c_wf(#[trigger] g(i)) by {
        lemma_rc_index(i, i, a.rows, a.cols);
    }
    assert forall|i: int| 0 <= i < a.rows implies c_eq(#[trigger] f(i), g(i)) by {
        lemma_rc_index(i, i, a.rows, a.cols);
    }
    lemma_csum_congruence(a.rows as nat, f, g);
}

/// Entrywise subtraction respects value equality.
pub proof fn lemma_m_sub_congruence(a: Mv, b: Mv, a2: Mv, b2: Mv)
    requires
        m_eq(a, a2),
        m_eq(b, b2),
        a.e.len() == b.e.len(),
    ensures
        m_eq(m_sub(a, b), m_sub(a2, b2)),
{
    assert forall|k: int| 0 <= k < m_sub(a, b).e.len()
        implies c_eq(#[trigger] m_sub(a, b).e[k], m_sub(a2, b2).e[k]) by {
        lemma_q_sub_congruence(a.e[k].re, b.e[k].re, a2.e[k].re, b2.e[k].re);
        lemma_q_sub_congruence(a.e[k].im, b.e[k].im, a2.e[k].im, b2.e[k].im);
    }
}



/// Matrix value equality is symmetric.
pub proof fn lemma_m_eq_sym_swap(a: Mv, b: Mv)
    requires
        m_eq(a, b),
    ensures
        m_eq(b, a),
{
    assert forall|k: int| 0 <= k < b.e.len()
        implies c_eq(#[trigger] b.e[k], a.e[k]) by {
        crate::rational::lemma_q_eq_sym(a.e[k].re, b.e[k].re);
        crate::rational::lemma_q_eq_sym(a.e[k].im, b.e[k].im);
    }
}

/// The identity model is well formed.
pub proof fn lemma_m_identity_wf(n: int)
    requires
        n >= 0,
    ensures
        m_wf(m_identity(n)),
{
    vstd::arithmetic::mul::lemma_mul_nonnegative(n, n);
}

/// The conjugate transpose of a well-formed model is well formed.
pub proof fn lemma_m_conj_transpose_wf(a: Mv)
    requires
        m_wf(a),
    ensures
        m_wf(m_conj_transpose(a)),
        m_conj_transpose(a).rows == a.cols,
        m_conj_transpose(a).cols == a.rows,
        m_conj_transpose(a).e.len() == a.cols * a.rows,
{
    let ct = m_conj_transpose(a);
    assert(a.cols * a.rows == a.rows * a.cols) by (nonlinear_arith);
    assert forall|k: int| 0 <= k < ct.e.len()
        implies c_wf(#[trigger] ct.e[k]) by {
        assert(a.rows >= 1) by (nonlinear_arith)
            requires
                0 <= k < a.rows * a.cols,
                a.rows >= 0,
        ;
        lemma_rc_split(k, a.cols, a.rows);
        lemma_rc_index(k % a.rows, k / a.rows, a.rows, a.cols);
    }
}

/// The conjugate transpose keeps integer-valued bounded entries.
pub proof fn lemma_m_conj_transpose_int_bnd(a: Mv, b: int)
    requires
        m_wf(a),
        m_int_bnd(a, b),
        0 <= b,
    ensures
        m_int_bnd(m_conj_transpose(a), b),
{
    let ct = m_conj_transpose(a);
    assert(a.cols * a.rows == a.rows * a.cols) by (nonlinear_arith);
    assert forall|k: int| 0 <= k < ct.e.len()
        implies c_int_bnd(#[trigger] ct.e[k], b) by {
        assert(a.rows >= 1) by (nonlinear_arith)
            requires
                0 <= k < a.rows * a.cols,
                a.rows >= 0,
        ;
        lemma_rc_split(k, a.cols, a.rows);
        lemma_rc_index(k % a.rows, k / a.rows, a.rows, a.cols);
    }
}

/// Re-symmetrization of a well-formed square model is well formed.
pub proof fn lemma_m_hermitize_wf(a: Mv)
    requires
        m_wf(a),
        a.rows == a.cols,
    ensures
        m_wf(m_hermitize(a)),
        m_hermitize(a).rows == a.rows,
        m_hermitize(a).cols == a.cols,
{
    lemma_m_conj_transpose_wf(a);
    let sum = m_add(a, m_conj_transpose(a));
    assert forall|k: int| 0 <= k < sum.e.len()
        implies c_wf(#[trigger] sum.e[k]) by {
        lemma_c_mul_wf(a.e[k], m_conj_transpose(a).e[k]);
    }
    let h = m_hermitize(a);
    assert forall|k: int| 0 <= k < h.e.len()
        implies c_wf(#[trigger] h.e[k]) by {
        lemma_c_mul_wf(c_half(), sum.e[k]);
    }
}

} // verus!