//! The algebraic laws of the kernel, proved once over the mathematical
//! models: conjugation and modulus laws for scalars, Hermiticity of the
//! re-symmetrized density update, trace preservation under unitary
//! conjugation, recovery of the factors of a product state by partial
//! trace, and associativity of the tensor product and of the matrix
//! product.

use vstd::prelude::*;
use crate::rational::{
    Qv, q_wf, q_eq, q_add, q_sub, q_mul, q_neg, q_zero, q_one,
    lemma_q_eq_sym, lemma_q_eq_trans, lemma_q_ops_wf,
    lemma_q_add_congruence, lemma_q_sub_congruence, lemma_q_mul_congruence,
};
use crate::complex::{
    Cv, c_wf, c_eq, c_add, c_sub, c_mul, c_conj, c_zero, c_one, c_abs2,
    lemma_c_eq_trans, lemma_c_add_congruence, lemma_c_mul_congruence,
};
use crate::matrix::{
    Mv, csum, m_wf, m_eq, m_idx, m_add, m_sub, m_scale, m_mul, m_kron,
    m_transpose, m_conj_transpose, m_trace, m_identity, m_hermitize,
    m_ptrace_first, m_ptrace_second, m_is_hermitian, m_is_unitary, c_half,
    lemma_q_add_assoc, lemma_q_add_comm, lemma_c_mul_wf, lemma_c_add_comm,
    lemma_c_conj_add, lemma_c_conj_mul, lemma_c_mul_comm, lemma_csum_wf,
    lemma_csum_ext, lemma_csum_congruence, lemma_csum_swap,
    lemma_rc_index, lemma_rc_split, lemma_m_eq_trans,
};

verus! {

// ---------------------------------------------------------------------
// Exact rewriting in the additive group of fraction models.
// ---------------------------------------------------------------------

/// Subtraction is addition of the negation, exactly.
pub proof fn lemma_q_sub_is_add_neg(a: Qv, b: Qv)
    ensures
        q_sub(a, b) == q_add(a, q_neg(b)),
{
    assert(a.n * b.d + (-b.n) * a.d == a.n * b.d - b.n * a.d) by (nonlinear_arith);
}

/// Negation distributes over addition, exactly.
pub proof fn lemma_q_neg_add(a: Qv, b: Qv)
    ensures
        q_neg(q_add(a, b)) == q_add(q_neg(a), q_neg(b)),
{
    assert(-(a.n * b.d + b.n * a.d) == (-a.n) * b.d + (-b.n) * a.d)
        by (nonlinear_arith);
}

/// (p + q) + (r + s) == (p + r) + (q + s), exactly.
pub proof fn lemma_q_add_rearrange(p: Qv, q: Qv, r: Qv, s: Qv)
    ensures
        q_add(q_add(p, q), q_add(r, s)) == q_add(q_add(p, r), q_add(q, s)),
{
    lemma_q_add_assoc(q_add(p, q), r, s);
    lemma_q_add_assoc(p, q, r);
    lemma_q_add_comm(q, r);
    lemma_q_add_assoc(p, r, q);
    lemma_q_add_assoc(q_add(p, r), q, s);
}

/// (w + x) - (y + z) == (w - y) + (x - z), exactly.
pub proof fn lemma_q_sub_add_exchange(w: Qv, x: Qv, y: Qv, z: Qv)
    ensures
        q_sub(q_add(w, x), q_add(y, z)) == q_add(q_sub(w, y), q_sub(x, z)),
{
    lemma_q_sub_is_add_neg(q_add(w, x), q_add(y, z));
    lemma_q_neg_add(y, z);
    lemma_q_add_rearrange(w, x, q_neg(y), q_neg(z));
    lemma_q_sub_is_add_neg(w, y);
    lemma_q_sub_is_add_neg(x, z);
}

/// (a - b) - (c + d) == (a - c) - (d + b), exactly.
pub proof fn lemma_q_subsub_exchange(a: Qv, b: Qv, c: Qv, d: Qv)
    ensures
        q_sub(q_sub(a, b), q_add(c, d)) == q_sub(q_sub(a, c), q_add(d, b)),
{
    lemma_q_sub_is_add_neg(q_sub(a, b), q_add(c, d));
    lemma_q_sub_is_add_neg(a, b);
    lemma_q_neg_add(c, d);
    lemma_q_add_rearrange(a, q_neg(b), q_neg(c), q_neg(d));
    lemma_q_sub_is_add_neg(q_sub(a, c), q_add(d, b));
    lemma_q_sub_is_add_neg(a, c);
    lemma_q_neg_add(d, b);
    lemma_q_add_comm(q_neg(b), q_neg(d));
}

/// (a - b) + (c + d) == (a + c) + (d - b), exactly.
pub proof fn lemma_q_subadd_exchange(a: Qv, b: Qv, c: Qv, d: Qv)
    ensures
        q_add(q_sub(a, b), q_add(c, d)) == q_add(q_add(a, c), q_sub(d, b)),
{
    lemma_q_sub_is_add_neg(a, b);
    lemma_q_add_rearrange(a, q_neg(b), c, d);
    lemma_q_sub_is_add_neg(d, b);
    lemma_q_add_comm(q_neg(b), d);
}

// ---------------------------------------------------------------------
// Multiplicative structure, up to value equality.
// ---------------------------------------------------------------------

/// Fraction multiplication is associative, exactly.
pub proof fn lemma_q_mul_assoc(x: Qv, y: Qv, z: Qv)
    ensures
        q_mul(q_mul(x, y), z) == q_mul(x, q_mul(y, z)),
{
    assert((x.n * y.n) * z.n == x.n * (y.n * z.n)) by (nonlinear_arith);
    assert((x.d * y.d) * z.d == x.d * (y.d * z.d)) by (nonlinear_arith);
}

/// Fraction multiplication is commutative, exactly.
pub proof fn lemma_q_mul_comm(x: Qv, y: Qv)
    ensures
        q_mul(x, y) == q_mul(y, x),
{
    assert(x.n * y.n == y.n * x.n) by (nonlinear_arith);
    assert(x.d * y.d == y.d * x.d) by (nonlinear_arith);
}

/// From nr == m*nl and dr == m*dl, cross multiplication agrees:
/// nl*dr == nr*dl.
pub proof fn lemma_cross_scale(nl: int, dl: int, nr: int, dr: int, m: int)
    requires
        nr == m * nl,
        dr == m * dl,
    ensures
        nl * dr == nr * dl,
{
    assert(nl * (m * dl) == (m * nl) * dl) by (nonlinear_arith);
}

/// Multiplication distributes over addition of fractions, up to value
/// equality.
pub proof fn lemma_q_mul_add_distrib(x: Qv, y: Qv, z: Qv)
    ensures
        q_eq(q_mul(x, q_add(y, z)), q_add(q_mul(x, y), q_mul(x, z))),
{
    let nl = x.n * (y.n * z.d + z.n * y.d);
    let dl = x.d * (y.d * z.d);
    let nr = (x.n * y.n) * (x.d * z.d) + (x.n * z.n) * (x.d * y.d);
    let dr = (x.d * y.d) * (x.d * z.d);
    vstd::arithmetic::mul::lemma_mul_is_distributive_add(x.n, y.n * z.d, z.n * y.d);
    vstd::arithmetic::mul::lemma_mul_is_distributive_add(x.d,
        x.n * (y.n * z.d), x.n * (z.n * y.d));
    assert((x.n * y.n) * (x.d * z.d) == x.d * (x.n * (y.n * z.d)))
        by (nonlinear_arith);
    assert((x.n * z.n) * (x.d * y.d) == x.d * (x.n * (z.n * y.d)))
        by (nonlinear_arith);
    assert((x.d * y.d) * (x.d * z.d) == x.d * (x.d * (y.d * z.d)))
        by (nonlinear_arith);
    lemma_cross_scale(nl, dl, nr, dr, x.d);
}

/// Multiplication distributes over subtraction of fractions, up to value
/// equality.
pub proof fn lemma_q_mul_sub_distrib(x: Qv, y: Qv, z: Qv)
    ensures
        q_eq(q_mul(x, q_sub(y, z)), q_sub(q_mul(x, y), q_mul(x, z))),
{
    let nl = x.n * (y.n * z.d - z.n * y.d);
    let dl = x.d * (y.d * z.d);
    let nr = (x.n * y.n) * (x.d * z.d) - (x.n * z.n) * (x.d * y.d);
    let dr = (x.d * y.d) * (x.d * z.d);
    vstd::arithmetic::mul::lemma_mul_is_distributive_sub(x.n, y.n * z.d, z.n * y.d);
    vstd::arithmetic::mul::lemma_mul_is_distributive_sub(x.d,
        x.n * (y.n * z.d), x.n * (z.n * y.d));
    assert((x.n * y.n) * (x.d * z.d) == x.d * (x.n * (y.n * z.d)))
        by (nonlinear_arith);
    assert((x.n * z.n) * (x.d * y.d) == x.d * (x.n * (z.n * y.d)))
        by (nonlinear_arith);
    assert((x.d * y.d) * (x.d * z.d) == x.d * (x.d * (y.d * z.d)))
        by (nonlinear_arith);
    lemma_cross_scale(nl, dl, nr, dr, x.d);
}

/// Two fractions value-equal to a common well-formed middle are
/// value-equal to each other.
pub proof fn lemma_q_eq_join(x: Qv, y: Qv, m: Qv)
    requires
        q_wf(m),
        q_eq(x, m),
        q_eq(y, m),
    ensures
        q_eq(x, y),
{
    lemma_q_eq_sym(y, m);
    lemma_q_eq_trans(x, m, y);
}

/// Complex multiplication of models is associative, up to value
/// equality.
pub proof fn lemma_c_mul_assoc(a: Cv, b: Cv, c: Cv)
    requires
        c_wf(a),
        c_wf(b),
        c_wf(c),
    ensures
        c_eq(c_mul(c_mul(a, b), c), c_mul(a, c_mul(b, c))),
{
    let ra = a.re;
    let ia = a.im;
    let rb = b.re;
    let ib = b.im;
    let rc = c.re;
    let ic = c.im;
    let m1 = q_mul(q_mul(ra, rb), rc);
    let m2 = q_mul(q_mul(ia, ib), rc);
    let m3 = q_mul(q_mul(ra, ib), ic);
    let m4 = q_mul(q_mul(ia, rb), ic);
    let m1i = q_mul(q_mul(ra, rb), ic);
    let m2i = q_mul(q_mul(ia, ib), ic);
    let m3i = q_mul(q_mul(ra, ib), rc);
    let m4i = q_mul(q_mul(ia, rb), rc);
    // Well-formedness of every atom.
    lemma_q_ops_wf(ra, rb);
    lemma_q_ops_wf(ia, ib);
    lemma_q_ops_wf(ra, ib);
    lemma_q_ops_wf(ia, rb);
    lemma_q_ops_wf(rb, rc);
    lemma_q_ops_wf(ib, ic);
    lemma_q_ops_wf(rb, ic);
    lemma_q_ops_wf(ib, rc);
    lemma_q_ops_wf(q_mul(ra, rb), rc);
    lemma_q_ops_wf(q_mul(ia, ib), rc);
    lemma_q_ops_wf(q_mul(ra, ib), ic);
    lemma_q_ops_wf(q_mul(ia, rb), ic);
    lemma_q_ops_wf(q_mul(ra, rb), ic);
    lemma_q_ops_wf(q_mul(ia, ib), ic);
    lemma_q_ops_wf(q_mul(ra, ib), rc);
    lemma_q_ops_wf(q_mul(ia, rb), rc);
    lemma_q_ops_wf(q_mul(ra, rb), q_mul(ia, ib));
    lemma_q_ops_wf(q_mul(ra, ib), q_mul(ia, rb));
    lemma_q_ops_wf(q_mul(rb, rc), q_mul(ib, ic));
    lemma_q_ops_wf(q_mul(rb, ic), q_mul(ib, rc));
    lemma_q_ops_wf(m1, m2);
    lemma_q_ops_wf(m3, m4);
    lemma_q_ops_wf(m1i, m2i);
    lemma_q_ops_wf(m3i, m4i);
    lemma_q_ops_wf(m1, m3);
    lemma_q_ops_wf(m4, m2);
    lemma_q_ops_wf(m1i, m3i);
    lemma_q_ops_wf(m4i, m2i);
    lemma_q_ops_wf(q_sub(m1, m3), q_add(m4, m2));
    lemma_q_ops_wf(q_add(m1i, m3i), q_sub(m4i, m2i));
    // The common middle forms.
    let xre = q_sub(q_sub(m1, m3), q_add(m4, m2));
    let xim = q_add(q_add(m1i, m3i), q_sub(m4i, m2i));
    // Left side, real part.
    let abre = q_sub(q_mul(ra, rb), q_mul(ia, ib));
    let abim = q_add(q_mul(ra, ib), q_mul(ia, rb));
    lemma_q_mul_comm(abre, rc);
    lemma_q_mul_sub_distrib(rc, q_mul(ra, rb), q_mul(ia, ib));
    lemma_q_mul_comm(rc, q_mul(ra, rb));
    lemma_q_mul_comm(rc, q_mul(ia, ib));
    assert(q_eq(q_mul(abre, rc), q_sub(m1, m2)));
    lemma_q_mul_comm(abim, ic);
    lemma_q_mul_add_distrib(ic, q_mul(ra, ib), q_mul(ia, rb));
    lemma_q_mul_comm(ic, q_mul(ra, ib));
    lemma_q_mul_comm(ic, q_mul(ia, rb));
    assert(q_eq(q_mul(abim, ic), q_add(m3, m4)));
    lemma_q_ops_wf(abre, rc);
    lemma_q_ops_wf(abim, ic);
    lemma_q_sub_congruence(q_mul(abre, rc), q_mul(abim, ic),
        q_sub(m1, m2), q_add(m3, m4));
    lemma_q_subsub_exchange(m1, m2, m3, m4);
    lemma_q_ops_wf(q_sub(m1, m2), q_add(m3, m4));
    assert(q_eq(c_mul(c_mul(a, b), c).re, xre)) by {
        lemma_q_eq_trans(q_sub(q_mul(abre, rc), q_mul(abim, ic)),
            q_sub(q_sub(m1, m2), q_add(m3, m4)), xre);
    };
    // Left side, imaginary part.
    lemma_q_mul_comm(abre, ic);
    lemma_q_mul_sub_distrib(ic, q_mul(ra, rb), q_mul(ia, ib));
    lemma_q_mul_comm(ic, q_mul(ra, rb));
    lemma_q_mul_comm(ic, q_mul(ia, ib));
    assert(q_eq(q_mul(abre, ic), q_sub(m1i, m2i)));
    lemma_q_mul_comm(abim, rc);
    lemma_q_mul_add_distrib(rc, q_mul(ra, ib), q_mul(ia, rb));
    lemma_q_mul_comm(rc, q_mul(ra, ib));
    lemma_q_mul_comm(rc, q_mul(ia, rb));
    assert(q_eq(q_mul(abim, rc), q_add(m3i, m4i)));
    lemma_q_add_congruence(q_mul(abre, ic), q_mul(abim, rc),
        q_sub(m1i, m2i), q_add(m3i, m4i));
    lemma_q_subadd_exchange(m1i, m2i, m3i, m4i);
    lemma_q_ops_wf(q_sub(m1i, m2i), q_add(m3i, m4i));
    assert(q_eq(c_mul(c_mul(a, b), c).im, xim)) by {
        lemma_q_eq_trans(q_add(q_mul(abre, ic), q_mul(abim, rc)),
            q_add(q_sub(m1i, m2i), q_add(m3i, m4i)), xim);
    };
    // Right side, real part.
    let bcre = q_sub(q_mul(rb, rc), q_mul(ib, ic));
    let bcim = q_add(q_mul(rb, ic), q_mul(ib, rc));
    lemma_q_mul_sub_distrib(ra, q_mul(rb, rc), q_mul(ib, ic));
    lemma_q_mul_assoc(ra, rb, rc);
    lemma_q_mul_assoc(ra, ib, ic);
    assert(q_eq(q_mul(ra, bcre), q_sub(m1, m3)));
    lemma_q_mul_add_distrib(ia, q_mul(rb, ic), q_mul(ib, rc));
    lemma_q_mul_assoc(ia, rb, ic);
    lemma_q_mul_assoc(ia, ib, rc);
    assert(q_eq(q_mul(ia, bcim), q_add(m4, m2)));
    lemma_q_ops_wf(ra, bcre);
    lemma_q_ops_wf(ia, bcim);
    lemma_q_sub_congruence(q_mul(ra, bcre), q_mul(ia, bcim),
        q_sub(m1, m3), q_add(m4, m2));
    assert(q_eq(c_mul(a, c_mul(b, c)).re, xre));
    // Right side, imaginary part.
    lemma_q_mul_add_distrib(ra, q_mul(rb, ic), q_mul(ib, rc));
    lemma_q_mul_assoc(ra, rb, ic);
    lemma_q_mul_assoc(ra, ib, rc);
    assert(q_eq(q_mul(ra, bcim), q_add(m1i, m3i)));
    lemma_q_mul_sub_distrib(ia, q_mul(rb, rc), q_mul(ib, ic));
    lemma_q_mul_assoc(ia, rb, rc);
    lemma_q_mul_assoc(ia, ib, ic);
    assert(q_eq(q_mul(ia, bcre), q_sub(m4i, m2i)));
    lemma_q_ops_wf(ra, bcim);
    lemma_q_ops_wf(ia, bcre);
    lemma_q_add_congruence(q_mul(ra, bcim), q_mul(ia, bcre),
        q_add(m1i, m3i), q_sub(m4i, m2i));
    assert(q_eq(c_mul(a, c_mul(b, c)).im, xim));
    // Join the two sides across the middle forms.
    lemma_q_eq_join(c_mul(c_mul(a, b), c).re, c_mul(a, c_mul(b, c)).re, xre);
    lemma_q_eq_join(c_mul(c_mul(a, b), c).im, c_mul(a, c_mul(b, c)).im, xim);
}

/// Complex multiplication distributes over addition, up to value
/// equality.
pub proof fn lemma_c_mul_add_distrib(a: Cv, b: Cv, c: Cv)
    requires
        c_wf(a),
        c_wf(b),
        c_wf(c),
    ensures
        c_eq(c_mul(a, c_add(b, c)), c_add(c_mul(a, b), c_mul(a, c))),
{
    let ra = a.re;
    let ia = a.im;
    // Real part.
    lemma_q_mul_add_distrib(ra, b.re, c.re);
    lemma_q_mul_add_distrib(ia, b.im, c.im);
    lemma_q_ops_wf(b.re, c.re);
    lemma_q_ops_wf(b.im, c.im);
    lemma_q_ops_wf(ra, q_add(b.re, c.re));
    lemma_q_ops_wf(ia, q_add(b.im, c.im));
    lemma_q_ops_wf(ra, b.re);
    lemma_q_ops_wf(ra, c.re);
    lemma_q_ops_wf(ia, b.im);
    lemma_q_ops_wf(ia, c.im);
    lemma_q_sub_congruence(q_mul(ra, q_add(b.re, c.re)), q_mul(ia, q_add(b.im, c.im)),
        q_add(q_mul(ra, b.re), q_mul(ra, c.re)),
        q_add(q_mul(ia, b.im), q_mul(ia, c.im)));
    lemma_q_sub_add_exchange(q_mul(ra, b.re), q_mul(ra, c.re),
        q_mul(ia, b.im), q_mul(ia, c.im));
    lemma_q_ops_wf(q_mul(ra, b.re), q_mul(ra, c.re));
    lemma_q_ops_wf(q_mul(ia, b.im), q_mul(ia, c.im));
    lemma_q_ops_wf(q_add(q_mul(ra, b.re), q_mul(ra, c.re)),
        q_add(q_mul(ia, b.im), q_mul(ia, c.im)));
    lemma_q_eq_trans(c_mul(a, c_add(b, c)).re,
        q_sub(q_add(q_mul(ra, b.re), q_mul(ra, c.re)),
            q_add(q_mul(ia, b.im), q_mul(ia, c.im))),
        c_add(c_mul(a, b), c_mul(a, c)).re);
    // Imaginary part.
    lemma_q_mul_add_distrib(ra, b.im, c.im);
    lemma_q_mul_add_distrib(ia, b.re, c.re);
    lemma_q_ops_wf(ra, q_add(b.im, c.im));
    lemma_q_ops_wf(ia, q_add(b.re, c.re));
    lemma_q_ops_wf(ra, b.im);
    lemma_q_ops_wf(ra, c.im);
    lemma_q_ops_wf(ia, b.re);
    lemma_q_ops_wf(ia, c.re);
    lemma_q_add_congruence(q_mul(ra, q_add(b.im, c.im)), q_mul(ia, q_add(b.re, c.re)),
        q_add(q_mul(ra, b.im), q_mul(ra, c.im)),
        q_add(q_mul(ia, b.re), q_mul(ia, c.re)));
    lemma_q_add_rearrange(q_mul(ra, b.im), q_mul(ra, c.im),
        q_mul(ia, b.re), q_mul(ia, c.re));
    lemma_q_ops_wf(q_mul(ra, b.im), q_mul(ra, c.im));
    lemma_q_ops_wf(q_mul(ia, b.re), q_mul(ia, c.re));
    lemma_q_ops_wf(q_add(q_mul(ra, b.im), q_mul(ra, c.im)),
        q_add(q_mul(ia, b.re), q_mul(ia, c.re)));
    lemma_q_eq_trans(c_mul(a, c_add(b, c)).im,
        q_add(q_add(q_mul(ra, b.im), q_mul(ra, c.im)),
            q_add(q_mul(ia, b.re), q_mul(ia, c.re))),
        c_add(c_mul(a, b), c_mul(a, c)).im);
}


// ---------------------------------------------------------------------
// Units, zeros, and scaled sums.
// ---------------------------------------------------------------------

/// Multiplying by the unit model gives the same value.
pub proof fn lemma_c_mul_one(a: Cv)
    requires
        c_wf(a),
    ensures
        c_eq(c_mul(c_one(), a), a),
        c_eq(c_mul(a, c_one()), a),
{
    assert(((1 * a.re.n) * (1 * a.im.d) - (0 * a.im.n) * (1 * a.re.d)) * a.re.d
        == a.re.n * ((1 * a.re.d) * (1 * a.im.d))) by (nonlinear_arith);
    assert(q_eq(c_mul(c_one(), a).re, a.re));
    assert(((1 * a.im.n) * (1 * a.re.d) + (0 * a.re.n) * (1 * a.im.d)) * a.im.d
        == a.im.n * ((1 * a.im.d) * (1 * a.re.d))) by (nonlinear_arith);
    assert(q_eq(c_mul(c_one(), a).im, a.im));
    assert(((a.re.n * 1) * (a.im.d * 1) - (a.im.n * 0) * (a.re.d * 1)) * a.re.d
        == a.re.n * ((a.re.d * 1) * (a.im.d * 1))) by (nonlinear_arith);
    assert(q_eq(c_mul(a, c_one()).re, a.re));
    assert(((a.re.n * 0) * (a.im.d * 1) + (a.im.n * 1) * (a.re.d * 1)) * a.im.d
        == a.im.n * ((a.re.d * 1) * (a.im.d * 1))) by (nonlinear_arith);
    assert(q_eq(c_mul(a, c_one()).im, a.im));
}

/// Multiplying by a zero-valued model gives a zero value.
pub proof fn lemma_c_mul_zero(z: Cv, a: Cv)
    requires
        c_wf(z),
        c_wf(a),
        c_eq(z, c_zero()),
    ensures
        c_eq(c_mul(z, a), c_zero()),
        c_eq(c_mul(a, z), c_zero()),
{
    assert(z.re.n == 0) by (nonlinear_arith)
        requires
            z.re.n * 1 == 0 * z.re.d,
    ;
    assert(z.im.n == 0) by (nonlinear_arith)
        requires
            z.im.n * 1 == 0 * z.im.d,
    ;
    assert((z.re.n * a.re.n) * (z.im.d * a.im.d)
        - (z.im.n * a.im.n) * (z.re.d * a.re.d) == 0) by (nonlinear_arith)
        requires
            z.re.n == 0,
            z.im.n == 0,
    ;
    assert((z.re.n * a.im.n) * (z.im.d * a.re.d)
        + (z.im.n * a.re.n) * (z.re.d * a.im.d) == 0) by (nonlinear_arith)
        requires
            z.re.n == 0,
            z.im.n == 0,
    ;
    assert((a.re.n * z.re.n) * (a.im.d * z.im.d)
        - (a.im.n * z.im.n) * (a.re.d * z.re.d) == 0) by (nonlinear_arith)
        requires
            z.re.n == 0,
            z.im.n == 0,
    ;
    assert((a.re.n * z.im.n) * (a.im.d * z.re.d)
        + (a.im.n * z.re.n) * (a.re.d * z.im.d) == 0) by (nonlinear_arith)
        requires
            z.re.n == 0,
            z.im.n == 0,
    ;
    assert(c_mul(z, a).re.n == 0 && c_mul(z, a).im.n == 0);
    assert(c_mul(a, z).re.n == 0 && c_mul(a, z).im.n == 0);
    assert(c_mul(z, a).re.n * 1 == 0 * c_mul(z, a).re.d);
    assert(c_mul(z, a).im.n * 1 == 0 * c_mul(z, a).im.d);
    assert(c_mul(a, z).re.n * 1 == 0 * c_mul(a, z).re.d);
    assert(c_mul(a, z).im.n * 1 == 0 * c_mul(a, z).im.d);
}

/// Adding a zero-valued model keeps the value.
pub proof fn lemma_c_add_zero_eqv(z: Cv, a: Cv)
    requires
        c_wf(z),
        c_wf(a),
        c_eq(z, c_zero()),
    ensures
        c_eq(c_add(z, a), a),
        c_eq(c_add(a, z), a),
{
    assert(z.re.n == 0) by (nonlinear_arith)
        requires
            z.re.n * 1 == 0 * z.re.d,
    ;
    assert(z.im.n == 0) by (nonlinear_arith)
        requires
            z.im.n * 1 == 0 * z.im.d,
    ;
    assert((z.re.n * a.re.d + a.re.n * z.re.d) * a.re.d
        == a.re.n * (z.re.d * a.re.d)) by (nonlinear_arith)
        requires
            z.re.n == 0,
    ;
    assert((z.im.n * a.im.d + a.im.n * z.im.d) * a.im.d
        == a.im.n * (z.im.d * a.im.d)) by (nonlinear_arith)
        requires
            z.im.n == 0,
    ;
    assert((a.re.n * z.re.d + z.re.n * a.re.d) * a.re.d
        == a.re.n * (a.re.d * z.re.d)) by (nonlinear_arith)
        requires
            z.re.n == 0,
    ;
    assert((a.im.n * z.im.d + z.im.n * a.im.d) * a.im.d
        == a.im.n * (a.im.d * z.im.d)) by (nonlinear_arith)
        requires
            z.im.n == 0,
    ;
}

/// A common scalar factor moves out of a sum, up to value equality.
pub proof fn lemma_csum_mul_left(k: nat, c: Cv, f: spec_fn(int) -> Cv,
    g: spec_fn(int) -> Cv)
    requires
        c_wf(c),
        forall|i: int| 0 <= i < k ==> c_wf(#[trigger] f(i)),
        forall|i: int| 0 <= i < k ==> #[trigger] g(i) == c_mul(c, f(i)),
    ensures
        c_eq(c_mul(c, csum(k, f)), csum(k, g)),
    decreases k,
{
    if k == 0 {
        lemma_c_mul_zero(c_zero(), c);
        crate::matrix::lemma_c_mul_comm(c, c_zero());
    } else {
        let km = (k - 1) as nat;
        lemma_csum_mul_left(km, c, f, g);
        let sp = csum(km, f);
        crate::matrix::lemma_csum_wf(km, f);
        lemma_c_mul_add_distrib(c, sp, f(k - 1));
        assert forall|i: int| 0 <= i < km implies c_wf(#[trigger] g(i)) by {
            lemma_c_mul_wf(c, f(i));
        }
        crate::matrix::lemma_csum_wf(km, g);
        lemma_c_mul_wf(c, sp);
        lemma_c_mul_wf(c, f(k - 1));
        lemma_c_mul_wf(sp, f(k - 1));
        lemma_c_add_congruence(c_mul(c, sp), c_mul(c, f(k - 1)),
            csum(km, g), g(k - 1));
        lemma_c_mul_wf(c_mul(c, sp), c_mul(c, f(k - 1)));
        lemma_c_mul_wf(c, c_add(sp, f(k - 1)));
        crate::complex::lemma_c_eq_trans(c_mul(c, csum(k, f)),
            c_add(c_mul(c, sp), c_mul(c, f(k - 1))), csum(k, g));
    }
}

/// A common right factor moves out of a sum, up to value equality.
pub proof fn lemma_csum_mul_right(k: nat, c: Cv, f: spec_fn(int) -> Cv,
    g: spec_fn(int) -> Cv)
    requires
        c_wf(c),
        forall|i: int| 0 <= i < k ==> c_wf(#[trigger] f(i)),
        forall|i: int| 0 <= i < k ==> #[trigger] g(i) == c_mul(f(i), c),
    ensures
        c_eq(c_mul(csum(k, f), c), csum(k, g)),
    decreases k,
{
    let g2 = |i: int| c_mul(c, f(i));
    lemma_csum_mul_left(k, c, f, g2);
    assert forall|i: int| 0 <= i < k implies #[trigger] g(i) == g2(i) by {
        crate::matrix::lemma_c_mul_comm(f(i), c);
    }
    crate::matrix::lemma_csum_ext(k, g, g2);
    crate::matrix::lemma_c_mul_comm(csum(k, f), c);
}

// ---------------------------------------------------------------------
// Laws of the complex scalar.
// ---------------------------------------------------------------------

/// Conjugation is an involution: conj(conj(a)) == a, exactly.
pub proof fn lemma_conj_involution(a: Cv)
    ensures
        c_conj(c_conj(a)) == a,
{
}

/// The squared modulus is multiplicative:
/// |a*b|^2 == |a|^2 * |b|^2 as exact values.
pub proof fn lemma_abs2_multiplicative(a: Cv, b: Cv)
    ensures
        q_eq(c_abs2(c_mul(a, b)), q_mul(c_abs2(a), c_abs2(b))),
{
    let p = a.re.n * a.im.d;
    let q = a.im.n * a.re.d;
    let rr = b.re.n * b.im.d;
    let ss = b.im.n * b.re.d;
    let rn = c_mul(a, b).re.n;
    let sn = c_mul(a, b).im.n;
    let dd = c_mul(a, b).re.d;
    // Both product components share one denominator.
    assert(c_mul(a, b).im.d == (a.re.d * b.im.d) * (a.im.d * b.re.d));
    assert((a.re.d * b.im.d) * (a.im.d * b.re.d)
        == (a.re.d * b.re.d) * (a.im.d * b.im.d)) by (nonlinear_arith);
    assert(c_mul(a, b).im.d == dd);
    // The numerators in atom form.
    assert((a.re.n * b.re.n) * (a.im.d * b.im.d)
        == (a.re.n * a.im.d) * (b.re.n * b.im.d)) by (nonlinear_arith);
    assert((a.im.n * b.im.n) * (a.re.d * b.re.d)
        == (a.im.n * a.re.d) * (b.im.n * b.re.d)) by (nonlinear_arith);
    assert(rn == p * rr - q * ss);
    assert((a.re.n * b.im.n) * (a.im.d * b.re.d)
        == (a.re.n * a.im.d) * (b.im.n * b.re.d)) by (nonlinear_arith);
    assert((a.im.n * b.re.n) * (a.re.d * b.im.d)
        == (a.im.n * a.re.d) * (b.re.n * b.im.d)) by (nonlinear_arith);
    assert(sn == p * ss + q * rr);
    // Brahmagupta's identity on the atoms.
    lemma_brahmagupta(p, q, rr, ss);
    // The right-hand numerators in atom form.
    assert((a.re.n * a.re.n) * (a.im.d * a.im.d)
        == (a.re.n * a.im.d) * (a.re.n * a.im.d)) by (nonlinear_arith);
    assert((a.im.n * a.im.n) * (a.re.d * a.re.d)
        == (a.im.n * a.re.d) * (a.im.n * a.re.d)) by (nonlinear_arith);
    assert(c_abs2(a).n == p * p + q * q);
    assert((b.re.n * b.re.n) * (b.im.d * b.im.d)
        == (b.re.n * b.im.d) * (b.re.n * b.im.d)) by (nonlinear_arith);
    assert((b.im.n * b.im.n) * (b.re.d * b.re.d)
        == (b.im.n * b.re.d) * (b.im.n * b.re.d)) by (nonlinear_arith);
    assert(c_abs2(b).n == rr * rr + ss * ss);
    assert(rn * rn + sn * sn == c_abs2(a).n * c_abs2(b).n) by (nonlinear_arith)
        requires
            rn == p * rr - q * ss,
            sn == p * ss + q * rr,
            (p * rr - q * ss) * (p * rr - q * ss)
                + (p * ss + q * rr) * (p * ss + q * rr)
                == (p * p + q * q) * (rr * rr + ss * ss),
            c_abs2(a).n == p * p + q * q,
            c_abs2(b).n == rr * rr + ss * ss,
    ;
    // Denominators.
    assert(c_abs2(a).d == (a.re.d * a.re.d) * (a.im.d * a.im.d));
    assert(c_abs2(b).d == (b.re.d * b.re.d) * (b.im.d * b.im.d));
    lemma_den_square(a.re.d, a.im.d, b.re.d, b.im.d);
    assert(dd * dd == c_abs2(a).d * c_abs2(b).d);
    // Cross multiplication.
    assert(c_abs2(c_mul(a, b)).n == (rn * rn) * (dd * dd) + (sn * sn) * (dd * dd));
    assert(c_abs2(c_mul(a, b)).d == (dd * dd) * (dd * dd));
    lemma_abs2_cross(rn, sn, dd, c_abs2(a).n, c_abs2(a).d,
        c_abs2(b).n, c_abs2(b).d);
}

/// Product-pair exchange: (x*y)*(z*w) == (x*z)*(y*w).
proof fn lemma_pair_swap(x: int, y: int, z: int, w: int)
    ensures
        (x * y) * (z * w) == (x * z) * (y * w),
{
    assert((x * y) * (z * w) == (x * z) * (y * w)) by (nonlinear_arith);
}

/// ((p*r)*(q*s))^2 == ((p*p)*(q*q))*((r*r)*(s*s)).
proof fn lemma_den_square(p: int, q: int, r: int, s: int)
    ensures
        ((p * r) * (q * s)) * ((p * r) * (q * s))
            == ((p * p) * (q * q)) * ((r * r) * (s * s)),
{
    lemma_pair_swap(p * r, q * s, p * r, q * s);
    assert((p * r) * (p * r) == (p * p) * (r * r)) by (nonlinear_arith);
    assert((q * s) * (q * s) == (q * q) * (s * s)) by (nonlinear_arith);
    lemma_pair_swap(p * p, r * r, q * q, s * s);
}

/// (pr - qs)^2 + (ps + qr)^2 == (p^2 + q^2)(r^2 + s^2).
pub proof fn lemma_brahmagupta(p: int, q: int, r: int, s: int)
    ensures
        (p * r - q * s) * (p * r - q * s) + (p * s + q * r) * (p * s + q * r)
            == (p * p + q * q) * (r * r + s * s),
{
    assert((p * r - q * s) * (p * r - q * s)
        == (p * r) * (p * r) - 2 * ((p * r) * (q * s)) + (q * s) * (q * s))
        by (nonlinear_arith);
    assert((p * s + q * r) * (p * s + q * r)
        == (p * s) * (p * s) + 2 * ((p * s) * (q * r)) + (q * r) * (q * r))
        by (nonlinear_arith);
    assert((p * r) * (q * s) == (p * s) * (q * r)) by (nonlinear_arith);
    assert((p * p + q * q) * (r * r + s * s)
        == (p * p) * (r * r) + (p * p) * (s * s)
            + (q * q) * (r * r) + (q * q) * (s * s)) by (nonlinear_arith);
    assert((p * r) * (p * r) == (p * p) * (r * r)) by (nonlinear_arith);
    assert((q * s) * (q * s) == (q * q) * (s * s)) by (nonlinear_arith);
    assert((p * s) * (p * s) == (p * p) * (s * s)) by (nonlinear_arith);
    assert((q * r) * (q * r) == (q * q) * (r * r)) by (nonlinear_arith);
}

/// Cross multiplication for the squared-modulus law.
proof fn lemma_abs2_cross(rn: int, sn: int, dd: int, an: int, ad: int,
    bn: int, bd: int)
    requires
        rn * rn + sn * sn == an * bn,
        dd * dd == ad * bd,
    ensures
        ((rn * rn) * (dd * dd) + (sn * sn) * (dd * dd)) * (ad * bd)
            == (an * bn) * ((dd * dd) * (dd * dd)),
{
    assert((rn * rn) * (dd * dd) + (sn * sn) * (dd * dd)
        == (rn * rn + sn * sn) * (dd * dd)) by (nonlinear_arith);
    assert(((rn * rn + sn * sn) * (dd * dd)) * (ad * bd)
        == (rn * rn + sn * sn) * ((dd * dd) * (ad * bd))) by (nonlinear_arith);
    assert((dd * dd) * (ad * bd) == (dd * dd) * (dd * dd)) by (nonlinear_arith)
        requires
            dd * dd == ad * bd,
    ;
}


// ---------------------------------------------------------------------
// Laws of the matrix algebra.
// ---------------------------------------------------------------------

/// Re-symmetrizing any square matrix yields a Hermitian matrix: the
/// repaired density matrix (M + M^dagger)/2 equals its own conjugate
/// transpose, entry for entry.
pub proof fn lemma_hermitize_is_hermitian(m: Mv)
    requires
        m_wf(m),
        m.rows == m.cols,
    ensures
        m_is_hermitian(m_hermitize(m)),
{
    let n = m.rows;
    let h = m_hermitize(m);
    let ct = m_conj_transpose(h);
    assert(c_conj(c_half()) == c_half());
    assert forall|k: int| 0 <= k < h.e.len()
        implies c_eq(#[trigger] h.e[k], ct.e[k]) by {
        assert(n >= 1) by (nonlinear_arith)
            requires
                0 <= k < n * n,
                n >= 0,
        ;
        lemma_rc_split(k, n, n);
        let i = k / n;
        let j = k % n;
        lemma_rc_index(i, j, n, n);
        lemma_rc_index(j, i, n, n);
        let kt = j * n + i;
        // The entry of the re-symmetrized matrix at k and at its mirror.
        assert(h.e[k] == c_mul(c_half(), c_add(m.e[k], c_conj(m.e[kt]))));
        assert(h.e[kt] == c_mul(c_half(), c_add(m.e[kt], c_conj(m.e[k]))));
        assert(ct.e[k] == c_conj(h.e[kt]));
        lemma_c_conj_mul(c_half(), c_add(m.e[kt], c_conj(m.e[k])));
        lemma_c_conj_add(m.e[kt], c_conj(m.e[k]));
        assert(c_conj(c_conj(m.e[k])) == m.e[k]);
        lemma_c_add_comm(c_conj(m.e[kt]), m.e[k]);
        assert(ct.e[k] == h.e[k]);
        crate::rational::lemma_q_eq_refl(h.e[k].re);
        crate::rational::lemma_q_eq_refl(h.e[k].im);
    }
}

/// Any matrix value-equal to a re-symmetrization is itself Hermitian;
/// in particular the result of a density evolution step, which is
/// value-equal to (U rho U^dagger + (U rho U^dagger)^dagger) / 2.
pub proof fn lemma_eqv_hermitize_is_hermitian(v: Mv, m: Mv)
    requires
        m_wf(v),
        m_wf(m),
        m.rows == m.cols,
        v.rows == m.rows,
        v.cols == m.cols,
        m_eq(v, m_hermitize(m)),
    ensures
        m_is_hermitian(v),
{
    lemma_hermitize_is_hermitian(m);
    crate::matrix::lemma_m_hermitize_wf(m);
    let h = m_hermitize(m);
    crate::matrix::lemma_m_conj_transpose_wf(h);
    crate::matrix::lemma_m_conj_transpose_wf(v);
    crate::matrix::lemma_m_conj_transpose_congruence(v, h);
    // v ~ h ~ ct(h) ~ ct(v).
    crate::matrix::lemma_m_eq_trans(v, h, m_conj_transpose(h));
    crate::matrix::lemma_m_eq_sym_swap(v, h);
    crate::matrix::lemma_m_eq_sym_swap(m_conj_transpose(v), m_conj_transpose(h));
    crate::matrix::lemma_m_eq_trans(v, m_conj_transpose(h), m_conj_transpose(v));
}

/// Tracing the second subsystem out of a product state a (x) b returns
/// the first factor: when b has trace one, the marginal on the first
/// factor of the Kronecker product equals a, entry for entry.
pub proof fn lemma_partial_trace_first_of_product(a: Mv, b: Mv, d: int)
    requires
        m_wf(a),
        m_wf(b),
        a.rows == d,
        a.cols == d,
        b.rows == d,
        b.cols == d,
        c_eq(m_trace(b), c_one()),
    ensures
        m_eq(m_ptrace_first(m_kron(a, b), d), a),
{
    let kk = m_kron(a, b);
    let pt = m_ptrace_first(kk, d);
    let bdiag = |k: int| m_idx(b, k, k);
    assert forall|t: int| 0 <= t < d implies c_wf(#[trigger] bdiag(t)) by {
        lemma_rc_index(t, t, d, d);
    }
    lemma_csum_wf(d as nat, bdiag);
    assert forall|x: int| 0 <= x < pt.e.len()
        implies c_eq(#[trigger] pt.e[x], a.e[x]) by {
        assert(d >= 1) by (nonlinear_arith)
            requires
                0 <= x < d * d,
                d >= 0,
        ;
        lemma_rc_split(x, d, d);
        let i = x / d;
        let j = x % d;
        let f0 = |k: int| m_idx(kk, (x / d) * d + k, (x % d) * d + k);
        let g = |k: int| c_mul(a.e[x], bdiag(k));
        assert forall|k: int| 0 <= k < d implies #[trigger] f0(k) == g(k) by {
            lemma_rc_index(i, k, d, d);
            lemma_rc_index(j, k, d, d);
            lemma_rc_index(i * d + k, j * d + k, d * d, d * d);
            let y = (i * d + k) * (d * d) + (j * d + k);
            assert(kk.e[y] == c_mul(
                m_idx(a, (y / (d * d)) / d, (y % (d * d)) / d),
                m_idx(b, (y / (d * d)) % d, (y % (d * d)) % d)));
            assert(y / (d * d) == i * d + k && y % (d * d) == j * d + k);
            lemma_rc_index(i, j, d, d);
        }
        lemma_csum_ext(d as nat, f0, g);
        lemma_csum_mul_left(d as nat, a.e[x], bdiag, g);
        lemma_c_mul_congruence(a.e[x], m_trace(b), a.e[x], c_one());
        lemma_c_mul_wf(a.e[x], m_trace(b));
        lemma_c_mul_one(a.e[x]);
        lemma_c_mul_wf(a.e[x], c_one());
        crate::complex::lemma_c_eq_trans(csum(d as nat, g),
            c_mul(a.e[x], m_trace(b)), c_mul(a.e[x], c_one()));
        crate::complex::lemma_c_eq_trans(csum(d as nat, g),
            c_mul(a.e[x], c_one()), a.e[x]);
    }
}

/// Tracing the first subsystem out of a product state a (x) b returns
/// the second factor, when a has trace one.
pub proof fn lemma_partial_trace_second_of_product(a: Mv, b: Mv, d: int)
    requires
        m_wf(a),
        m_wf(b),
        a.rows == d,
        a.cols == d,
        b.rows == d,
        b.cols == d,
        c_eq(m_trace(a), c_one()),
    ensures
        m_eq(m_ptrace_second(m_kron(a, b), d), b),
{
    let kk = m_kron(a, b);
    let pt = m_ptrace_second(kk, d);
    let adiag = |k: int| m_idx(a, k, k);
    assert forall|t: int| 0 <= t < d implies c_wf(#[trigger] adiag(t)) by {
        lemma_rc_index(t, t, d, d);
    }
    lemma_csum_wf(d as nat, adiag);
    assert forall|x: int| 0 <= x < pt.e.len()
        implies c_eq(#[trigger] pt.e[x], b.e[x]) by {
        assert(d >= 1) by (nonlinear_arith)
            requires
                0 <= x < d * d,
                d >= 0,
        ;
        lemma_rc_split(x, d, d);
        let i = x / d;
        let j = x % d;
        let f0 = |k: int| m_idx(kk, k * d + (x / d), k * d + (x % d));
        let g = |k: int| c_mul(adiag(k), b.e[x]);
        assert forall|k: int| 0 <= k < d implies #[trigger] f0(k) == g(k) by {
            lemma_rc_index(k, i, d, d);
            lemma_rc_index(k, j, d, d);
            lemma_rc_index(k * d + i, k * d + j, d * d, d * d);
            let y = (k * d + i) * (d * d) + (k * d + j);
            assert(kk.e[y] == c_mul(
                m_idx(a, (y / (d * d)) / d, (y % (d * d)) / d),
                m_idx(b, (y / (d * d)) % d, (y % (d * d)) % d)));
            assert(y / (d * d) == k * d + i && y % (d * d) == k * d + j);
            lemma_rc_index(k, k, d, d);
            lemma_rc_index(i, j, d, d);
        }
        lemma_csum_ext(d as nat, f0, g);
        lemma_csum_mul_right(d as nat, b.e[x], adiag, g);
        lemma_c_mul_congruence(m_trace(a), b.e[x], c_one(), b.e[x]);
        lemma_c_mul_wf(m_trace(a), b.e[x]);
        lemma_c_mul_one(b.e[x]);
        lemma_c_mul_wf(c_one(), b.e[x]);
        crate::complex::lemma_c_eq_trans(csum(d as nat, g),
            c_mul(m_trace(a), b.e[x]), c_mul(c_one(), b.e[x]));
        crate::complex::lemma_c_eq_trans(csum(d as nat, g),
            c_mul(c_one(), b.e[x]), b.e[x]);
    }
}


/// Splits a composite index: for 0 <= x and positive p, q,
/// (x/p)/q == x/(q*p)-style facts for a two-level row-major layout.
pub proof fn lemma_nested_index(x: int, outer: int, inner: int)
    requires
        0 <= x,
        0 < inner,
        0 < outer,
    ensures
        (x / inner) / outer == x / (outer * inner),
        (x / inner) % outer == (x % (outer * inner)) / inner,
        x % inner == (x % (outer * inner)) % inner,
{
    vstd::arithmetic::div_mod::lemma_div_denominator(x, inner, outer);
    assert(inner * outer == outer * inner) by (nonlinear_arith);
    vstd::arithmetic::div_mod::lemma_mod_breakdown(x, inner, outer);
    // x % (inner*outer) == inner*((x/inner) % outer) + x % inner
    vstd::arithmetic::div_mod::lemma_mod_bound(x, inner);
    vstd::arithmetic::div_mod::lemma_mod_bound(x / inner, outer);
    vstd::arithmetic::div_mod::lemma_fundamental_div_mod_converse(
        x % (outer * inner), inner, (x / inner) % outer, x % inner);
}

/// The tensor (Kronecker) product is associative: (a (x) b) (x) c and
/// a (x) (b (x) c) agree in shape and entry for entry.
pub proof fn lemma_tensor_assoc(a: Mv, b: Mv, c: Mv)
    requires
        m_wf(a),
        m_wf(b),
        m_wf(c),
    ensures
        m_eq(m_kron(m_kron(a, b), c), m_kron(a, m_kron(b, c))),
{
    let lhs = m_kron(m_kron(a, b), c);
    let rhs = m_kron(a, m_kron(b, c));
    assert((a.rows * b.rows) * c.rows == a.rows * (b.rows * c.rows))
        by (nonlinear_arith);
    assert((a.cols * b.cols) * c.cols == a.cols * (b.cols * c.cols))
        by (nonlinear_arith);
    assert(((a.rows * b.rows) * c.rows) * ((a.cols * b.cols) * c.cols)
        == (a.rows * (b.rows * c.rows)) * (a.cols * (b.cols * c.cols)))
        by (nonlinear_arith);
    let rr = (a.rows * b.rows) * c.rows;
    let cc = (a.cols * b.cols) * c.cols;
    assert forall|x: int| 0 <= x < lhs.e.len()
        implies c_eq(#[trigger] lhs.e[x], rhs.e[x]) by {
        assert(rr >= 1 && cc >= 1) by (nonlinear_arith)
            requires
                0 <= x < rr * cc,
                rr >= 0,
                cc >= 0,
        ;
        assert(a.rows >= 1 && b.rows >= 1 && c.rows >= 1) by (nonlinear_arith)
            requires
                (a.rows * b.rows) * c.rows >= 1,
                a.rows >= 0,
                b.rows >= 0,
                c.rows >= 0,
        ;
        assert(a.cols >= 1 && b.cols >= 1 && c.cols >= 1) by (nonlinear_arith)
            requires
                (a.cols * b.cols) * c.cols >= 1,
                a.cols >= 0,
                b.cols >= 0,
                c.cols >= 0,
        ;
        lemma_rc_split(x, rr, cc);
        let r1 = x / cc;
        let c1 = x % cc;
        // Row-side decompositions.
        assert(b.rows * c.rows >= 1 && b.cols * c.cols >= 1) by (nonlinear_arith)
            requires
                b.rows >= 1,
                c.rows >= 1,
                b.cols >= 1,
                c.cols >= 1,
        ;
        lemma_nested_index(r1, b.rows, c.rows);
        lemma_nested_index(c1, b.cols, c.cols);
        // Entry of the left side.
        assert(lhs.e[x] == c_mul(
            m_idx(m_kron(a, b), r1 / c.rows, c1 / c.cols),
            m_idx(c, r1 % c.rows, c1 % c.cols)));
        assert(0 <= r1 < rr && 0 <= c1 < cc);
        assert(r1 / c.rows < a.rows * b.rows && c1 / c.cols < a.cols * b.cols) by {
            assert(rr == (a.rows * b.rows) * c.rows);
            lemma_rc_split(r1, a.rows * b.rows, c.rows);
            assert(cc == (a.cols * b.cols) * c.cols);
            lemma_rc_split(c1, a.cols * b.cols, c.cols);
        };
        vstd::arithmetic::div_mod::lemma_div_pos_is_pos(r1, c.rows);
        vstd::arithmetic::div_mod::lemma_div_pos_is_pos(c1, c.cols);
        lemma_rc_index(r1 / c.rows, c1 / c.cols, a.rows * b.rows, a.cols * b.cols);
        let y1 = (r1 / c.rows) * (a.cols * b.cols) + (c1 / c.cols);
        assert(m_idx(m_kron(a, b), r1 / c.rows, c1 / c.cols) == m_kron(a, b).e[y1]);
        assert(y1 / (a.cols * b.cols) == r1 / c.rows
            && y1 % (a.cols * b.cols) == c1 / c.cols);
        assert(m_kron(a, b).e[y1] == c_mul(
            m_idx(a, (r1 / c.rows) / b.rows, (c1 / c.cols) / b.cols),
            m_idx(b, (r1 / c.rows) % b.rows, (c1 / c.cols) % b.cols)));
        // Entry of the right side.
        assert(a.cols * (b.cols * c.cols) == (a.cols * b.cols) * c.cols)
            by (nonlinear_arith);
        assert(rhs.e[x] == c_mul(
            m_idx(a, r1 / (b.rows * c.rows), c1 / (b.cols * c.cols)),
            m_idx(m_kron(b, c), r1 % (b.rows * c.rows), c1 % (b.cols * c.cols))));
        vstd::arithmetic::div_mod::lemma_mod_bound(r1, b.rows * c.rows);
        vstd::arithmetic::div_mod::lemma_mod_bound(c1, b.cols * c.cols);
        lemma_rc_index(r1 % (b.rows * c.rows), c1 % (b.cols * c.cols),
            b.rows * c.rows, b.cols * c.cols);
        let y2 = (r1 % (b.rows * c.rows)) * (b.cols * c.cols)
            + (c1 % (b.cols * c.cols));
        assert(m_idx(m_kron(b, c), r1 % (b.rows * c.rows), c1 % (b.cols * c.cols))
            == m_kron(b, c).e[y2]);
        assert(y2 / (b.cols * c.cols) == r1 % (b.rows * c.rows)
            && y2 % (b.cols * c.cols) == c1 % (b.cols * c.cols));
        assert(m_kron(b, c).e[y2] == c_mul(
            m_idx(b, (r1 % (b.rows * c.rows)) / c.rows,
                (c1 % (b.cols * c.cols)) / c.cols),
            m_idx(c, (r1 % (b.rows * c.rows)) % c.rows,
                (c1 % (b.cols * c.cols)) % c.cols)));
        // The three index pairs agree on both sides.
        let ia = (r1 / c.rows) / b.rows;
        let ja = (c1 / c.cols) / b.cols;
        let ib = (r1 / c.rows) % b.rows;
        let jb = (c1 / c.cols) % b.cols;
        let ic = r1 % c.rows;
        let jc = c1 % c.cols;
        assert(r1 / (b.rows * c.rows) == ia && c1 / (b.cols * c.cols) == ja);
        assert((r1 % (b.rows * c.rows)) / c.rows == ib
            && (c1 % (b.cols * c.cols)) / c.cols == jb);
        assert((r1 % (b.rows * c.rows)) % c.rows == ic
            && (c1 % (b.cols * c.cols)) % c.cols == jc);
        // Associativity of the entry product.
        assert(0 <= ia < a.rows && 0 <= ja < a.cols) by {
            lemma_rc_split(r1 / c.rows, a.rows, b.rows);
            lemma_rc_split(c1 / c.cols, a.cols, b.cols);
        };
        lemma_rc_index(ia, ja, a.rows, a.cols);
        lemma_rc_index(ib, jb, b.rows, b.cols);
        lemma_rc_index(ic, jc, c.rows, c.cols);
        lemma_c_mul_assoc(m_idx(a, ia, ja), m_idx(b, ib, jb), m_idx(c, ic, jc));
    }
}


/// The matrix product respects value equality of its operands.
pub proof fn lemma_m_mul_congruence(a: Mv, b: Mv, a2: Mv, b2: Mv)
    requires
        m_wf(a),
        m_wf(b),
        m_wf(a2),
        m_wf(b2),
        m_eq(a, a2),
        m_eq(b, b2),
        a.cols == b.rows,
    ensures
        m_eq(m_mul(a, b), m_mul(a2, b2)),
{
    let p = m_mul(a, b);
    let p2 = m_mul(a2, b2);
    vstd::arithmetic::mul::lemma_mul_nonnegative(a.rows, b.cols);
    assert forall|k: int| 0 <= k < p.e.len()
        implies c_eq(#[trigger] p.e[k], p2.e[k]) by {
        assert(b.cols >= 1) by (nonlinear_arith)
            requires
                0 <= k < a.rows * b.cols,
                b.cols >= 0,
        ;
        lemma_rc_split(k, a.rows, b.cols);
        let i = k / b.cols;
        let j = k % b.cols;
        let f = |t: int| c_mul(m_idx(a, i, t), m_idx(b, t, j));
        let g = |t: int| c_mul(m_idx(a2, i, t), m_idx(b2, t, j));
        assert forall|u: int| 0 <= u < a.cols implies c_wf(#[trigger] f(u)) by {
            lemma_rc_index(i, u, a.rows, a.cols);
            lemma_rc_index(u, j, b.rows, b.cols);
            lemma_c_mul_wf(m_idx(a, i, u), m_idx(b, u, j));
        }
        assert forall|u: int| 0 <= u < a.cols implies c_wf(#[trigger] g(u)) by {
            lemma_rc_index(i, u, a2.rows, a2.cols);
            lemma_rc_index(u, j, b2.rows, b2.cols);
            lemma_c_mul_wf(m_idx(a2, i, u), m_idx(b2, u, j));
        }
        assert forall|u: int| 0 <= u < a.cols implies c_eq(#[trigger] f(u), g(u)) by {
            lemma_rc_index(i, u, a.rows, a.cols);
            lemma_rc_index(u, j, b.rows, b.cols);
            lemma_c_mul_congruence(m_idx(a, i, u), m_idx(b, u, j),
                m_idx(a2, i, u), m_idx(b2, u, j));
        }
        lemma_csum_congruence(a.cols as nat, f, g);
    }
}


/// A sum of zero-valued terms is zero-valued.
pub proof fn lemma_csum_zero_eqv(k: nat, f: spec_fn(int) -> Cv)
    requires
        forall|i: int| 0 <= i < k ==> c_wf(#[trigger] f(i)),
        forall|i: int| 0 <= i < k ==> c_eq(#[trigger] f(i), c_zero()),
    ensures
        c_eq(csum(k, f), c_zero()),
    decreases k,
{
    if k > 0 {
        let km = (k - 1) as nat;
        lemma_csum_zero_eqv(km, f);
        crate::matrix::lemma_csum_wf(km, f);
        lemma_c_add_congruence(csum(km, f), f(k - 1), c_zero(), c_zero());
        assert(c_add(c_zero(), c_zero()) == c_zero());
        lemma_q_ops_wf(csum(km, f).re, f(k - 1).re);
        lemma_q_ops_wf(csum(km, f).im, f(k - 1).im);
        crate::complex::lemma_c_eq_trans(csum(k, f),
            c_add(c_zero(), c_zero()), c_zero());
    }
}

/// A sum whose terms all vanish except the one at `t` has that term's
/// value.
pub proof fn lemma_csum_delta(k: nat, f: spec_fn(int) -> Cv, t: int, x: Cv)
    requires
        0 <= t < k,
        c_wf(x),
        forall|i: int| 0 <= i < k ==> c_wf(#[trigger] f(i)),
        c_eq(f(t), x),
        forall|i: int| 0 <= i < k && i != t ==> c_eq(#[trigger] f(i), c_zero()),
    ensures
        c_eq(csum(k, f), x),
    decreases k,
{
    let km = (k - 1) as nat;
    crate::matrix::lemma_csum_wf(km, f);
    if t == k - 1 {
        lemma_csum_zero_eqv(km, f);
        lemma_c_add_zero_eqv(csum(km, f), f(t));
        lemma_q_ops_wf(csum(km, f).re, f(t).re);
        lemma_q_ops_wf(csum(km, f).im, f(t).im);
        crate::complex::lemma_c_eq_trans(csum(k, f), f(t), x);
    } else {
        lemma_csum_delta(km, f, t, x);
        lemma_c_add_zero_eqv(f(k - 1), csum(km, f));
        lemma_q_ops_wf(csum(km, f).re, f(k - 1).re);
        lemma_q_ops_wf(csum(km, f).im, f(k - 1).im);
        crate::complex::lemma_c_eq_trans(csum(k, f), csum(km, f), x);
    }
}

/// Multiplying by the identity on the left keeps the matrix's values.
pub proof fn lemma_m_mul_identity_left(a: Mv)
    requires
        m_wf(a),
    ensures
        m_eq(m_mul(m_identity(a.rows), a), a),
{
    let n = a.rows;
    let idm = m_identity(n);
    crate::matrix::lemma_m_identity_wf(n);
    let p = m_mul(idm, a);
    assert(p.e.len() == a.e.len());
    assert forall|x: int| 0 <= x < p.e.len()
        implies c_eq(#[trigger] p.e[x], a.e[x]) by {
        assert(a.cols >= 1) by (nonlinear_arith)
            requires
                0 <= x < a.rows * a.cols,
                a.cols >= 0,
        ;
        assert(a.rows >= 1) by (nonlinear_arith)
            requires
                0 <= x < a.rows * a.cols,
                a.rows >= 0,
                a.cols >= 1,
        ;
        lemma_rc_split(x, n, a.cols);
        let i = x / a.cols;
        let j = x % a.cols;
        let f = |k: int| c_mul(m_idx(idm, i, k), m_idx(a, k, j));
        assert forall|k: int| 0 <= k < n implies c_wf(#[trigger] f(k)) by {
            lemma_rc_index(i, k, n, n);
            lemma_rc_index(k, j, a.rows, a.cols);
            lemma_c_mul_wf(m_idx(idm, i, k), m_idx(a, k, j));
        }
        lemma_rc_index(i, j, a.rows, a.cols);
        assert(c_eq(f(i), a.e[x])) by {
            lemma_rc_index(i, i, n, n);
            assert(m_idx(idm, i, i) == c_one());
            lemma_c_mul_one(a.e[x]);
        };
        assert forall|k: int| 0 <= k < n && k != i
            implies c_eq(#[trigger] f(k), c_zero()) by {
            lemma_rc_index(i, k, n, n);
            assert(m_idx(idm, i, k) == c_zero());
            lemma_rc_index(k, j, a.rows, a.cols);
            crate::rational::lemma_q_eq_refl(c_zero().re);
            crate::rational::lemma_q_eq_refl(c_zero().im);
            lemma_c_mul_zero(c_zero(), m_idx(a, k, j));
        }
        lemma_csum_delta(n as nat, f, i, a.e[x]);
    }
}

/// The trace of a product does not depend on the order of the factors:
/// trace(A*B) == trace(B*A), exactly.
pub proof fn lemma_trace_mul_comm(a: Mv, b: Mv)
    requires
        m_wf(a),
        m_wf(b),
        a.cols == b.rows,
        b.cols == a.rows,
    ensures
        m_trace(m_mul(a, b)) == m_trace(m_mul(b, a)),
{
    let n = a.rows;
    let m = a.cols;
    let h = |i: int, t: int| c_mul(m_idx(a, i, t), m_idx(b, t, i));
    let lhs_f = |i: int| m_idx(m_mul(a, b), i, i);
    let lhs_g = |i: int| csum(m as nat, |t: int| h(i, t));
    assert forall|i: int| 0 <= i < n implies #[trigger] lhs_f(i) == lhs_g(i) by {
        lemma_rc_index(i, i, n, n);
        let x = i * n + i;
        assert(m_mul(a, b).e[x] == csum(m as nat, |t: int|
            c_mul(m_idx(a, x / n, t), m_idx(b, t, x % n))));
        crate::matrix::lemma_csum_ext(m as nat,
            |t: int| c_mul(m_idx(a, x / n, t), m_idx(b, t, x % n)),
            |t: int| h(i, t));
    }
    crate::matrix::lemma_csum_ext(n as nat, lhs_f, lhs_g);
    let rhs_f = |t: int| m_idx(m_mul(b, a), t, t);
    let rhs_g = |t: int| csum(n as nat, |i: int| h(i, t));
    assert forall|t: int| 0 <= t < m implies #[trigger] rhs_f(t) == rhs_g(t) by {
        lemma_rc_index(t, t, m, m);
        let x = t * m + t;
        assert(m_mul(b, a).e[x] == csum(n as nat, |i: int|
            c_mul(m_idx(b, x / m, i), m_idx(a, i, x % m))));
        let inner_raw = |i: int| c_mul(m_idx(b, t, i), m_idx(a, i, t));
        assert forall|i: int| 0 <= i < n
            implies #[trigger] inner_raw(i) == (|i2: int| h(i2, t))(i) by {
            crate::matrix::lemma_c_mul_comm(m_idx(b, t, i), m_idx(a, i, t));
        }
        crate::matrix::lemma_csum_ext(n as nat,
            |i: int| c_mul(m_idx(b, x / m, i), m_idx(a, i, x % m)),
            inner_raw);
        crate::matrix::lemma_csum_ext(n as nat, inner_raw, |i2: int| h(i2, t));
    }
    crate::matrix::lemma_csum_ext(m as nat, rhs_f, rhs_g);
    crate::matrix::lemma_csum_swap(n as nat, m as nat, h);
}


/// The matrix product is associative, up to value equality:
/// (A*B)*C and A*(B*C) agree in shape and entry for entry.
pub proof fn lemma_m_mul_assoc(a: Mv, b: Mv, c: Mv)
    requires
        m_wf(a),
        m_wf(b),
        m_wf(c),
        a.cols == b.rows,
        b.cols == c.rows,
    ensures
        m_eq(m_mul(m_mul(a, b), c), m_mul(a, m_mul(b, c))),
{
    let p = a.rows;
    let q = a.cols;
    let r = b.cols;
    let s = c.cols;
    let ab = m_mul(a, b);
    let bc = m_mul(b, c);
    let lhs = m_mul(ab, c);
    let rhs = m_mul(a, bc);
    crate::matrix::lemma_m_mul_wf(a, b);
    crate::matrix::lemma_m_mul_wf(b, c);
    crate::matrix::lemma_m_mul_wf(ab, c);
    crate::matrix::lemma_m_mul_wf(a, bc);
    assert forall|x: int| 0 <= x < lhs.e.len()
        implies c_eq(#[trigger] lhs.e[x], rhs.e[x]) by {
        assert(c.cols >= 1) by (nonlinear_arith)
            requires
                0 <= x < a.rows * c.cols,
                c.cols >= 0,
        ;
        lemma_rc_split(x, p, s);
        let i = x / s;
        let j = x % s;
        let hh = |k: int, t: int| c_mul(c_mul(m_idx(a, i, t), m_idx(b, t, k)),
            m_idx(c, k, j));
        let hr = |t: int, k: int| c_mul(m_idx(a, i, t),
            c_mul(m_idx(b, t, k), m_idx(c, k, j)));
        // The left entry as a double sum.
        let f1 = |k: int| c_mul(m_idx(ab, i, k), m_idx(c, k, j));
        assert(lhs.e[x] == csum(r as nat, f1)) by {
            crate::matrix::lemma_csum_ext(r as nat,
                |t: int| c_mul(m_idx(ab, x / s, t), m_idx(c, t, x % s)), f1);
        };
        let g1 = |k: int| csum(q as nat, |t: int| hh(k, t));
        assert forall|k: int| 0 <= k < r
            implies c_eq(#[trigger] f1(k), g1(k)) by {
            lemma_rc_index(i, k, ab.rows, ab.cols);
            let y = i * r + k;
            let raw = |t: int| c_mul(m_idx(a, y / r, t), m_idx(b, t, y % r));
            let abin = |t: int| c_mul(m_idx(a, i, t), m_idx(b, t, k));
            assert(m_idx(ab, i, k) == csum(q as nat, raw));
            crate::matrix::lemma_csum_ext(q as nat, raw, abin);
            assert forall|t: int| 0 <= t < q implies c_wf(#[trigger] abin(t)) by {
                lemma_rc_index(i, t, a.rows, a.cols);
                lemma_rc_index(t, k, b.rows, b.cols);
                lemma_c_mul_wf(m_idx(a, i, t), m_idx(b, t, k));
            }
            lemma_rc_index(k, j, c.rows, c.cols);
            lemma_csum_mul_right(q as nat, m_idx(c, k, j), abin,
                |t: int| hh(k, t));
        }
        assert forall|k: int| 0 <= k < r implies c_wf(#[trigger] f1(k)) by {
            lemma_rc_index(i, k, ab.rows, ab.cols);
            lemma_rc_index(k, j, c.rows, c.cols);
            assert(c_wf(m_idx(ab, i, k)));
            lemma_c_mul_wf(m_idx(ab, i, k), m_idx(c, k, j));
        }
        assert forall|k: int| 0 <= k < r implies c_wf(#[trigger] g1(k)) by {
            let inner = |t: int| hh(k, t);
            assert forall|t: int| 0 <= t < q implies c_wf(#[trigger] inner(t)) by {
                lemma_rc_index(i, t, a.rows, a.cols);
                lemma_rc_index(t, k, b.rows, b.cols);
                lemma_rc_index(k, j, c.rows, c.cols);
                lemma_c_mul_wf(m_idx(a, i, t), m_idx(b, t, k));
                lemma_c_mul_wf(c_mul(m_idx(a, i, t), m_idx(b, t, k)),
                    m_idx(c, k, j));
            }
            crate::matrix::lemma_csum_wf(q as nat, inner);
        }
        crate::matrix::lemma_csum_congruence(r as nat, f1, g1);
        crate::matrix::lemma_csum_swap(r as nat, q as nat, hh);
        let g2 = |t: int| csum(r as nat, |k: int| hh(k, t));
        assert(csum(r as nat, g1) == csum(q as nat, g2)) by {
            crate::matrix::lemma_csum_ext(r as nat, g1,
                |k: int| csum(q as nat, |t: int| hh(k, t)));
            crate::matrix::lemma_csum_ext(q as nat,
                |t: int| csum(r as nat, |k: int| hh(k, t)), g2);
        };
        // Reassociate each term and pull the left factor out.
        let g3 = |t: int| csum(r as nat, |k: int| hr(t, k));
        let g4 = |t: int| c_mul(m_idx(a, i, t), m_idx(bc, t, j));
        assert forall|t: int| 0 <= t < q
            implies c_wf(#[trigger] g2(t)) by {
            let inner = |k: int| hh(k, t);
            assert forall|k: int| 0 <= k < r implies c_wf(#[trigger] inner(k)) by {
                lemma_rc_index(i, t, a.rows, a.cols);
                lemma_rc_index(t, k, b.rows, b.cols);
                lemma_rc_index(k, j, c.rows, c.cols);
                lemma_c_mul_wf(m_idx(a, i, t), m_idx(b, t, k));
                lemma_c_mul_wf(c_mul(m_idx(a, i, t), m_idx(b, t, k)),
                    m_idx(c, k, j));
            }
            crate::matrix::lemma_csum_wf(r as nat, inner);
        }
        assert forall|t: int| 0 <= t < q
            implies c_wf(#[trigger] g3(t)) by {
            let inner = |k: int| hr(t, k);
            assert forall|k: int| 0 <= k < r implies c_wf(#[trigger] inner(k)) by {
                lemma_rc_index(i, t, a.rows, a.cols);
                lemma_rc_index(t, k, b.rows, b.cols);
                lemma_rc_index(k, j, c.rows, c.cols);
                lemma_c_mul_wf(m_idx(b, t, k), m_idx(c, k, j));
                lemma_c_mul_wf(m_idx(a, i, t),
                    c_mul(m_idx(b, t, k), m_idx(c, k, j)));
            }
            crate::matrix::lemma_csum_wf(r as nat, inner);
        }
        assert forall|t: int| 0 <= t < q
            implies c_wf(#[trigger] g4(t)) by {
            lemma_rc_index(i, t, a.rows, a.cols);
            lemma_rc_index(t, j, bc.rows, bc.cols);
            assert(c_wf(m_idx(bc, t, j)));
            lemma_c_mul_wf(m_idx(a, i, t), m_idx(bc, t, j));
        }
        assert forall|t: int| 0 <= t < q
            implies c_eq(#[trigger] g2(t), g3(t)) by {
            assert forall|k: int| 0 <= k < r
                implies c_eq(#[trigger] hh(k, t), hr(t, k)) by {
                lemma_rc_index(i, t, a.rows, a.cols);
                lemma_rc_index(t, k, b.rows, b.cols);
                lemma_rc_index(k, j, c.rows, c.cols);
                lemma_c_mul_assoc(m_idx(a, i, t), m_idx(b, t, k), m_idx(c, k, j));
            }
            let fin = |k: int| hh(k, t);
            let gin = |k: int| hr(t, k);
            assert forall|k: int| 0 <= k < r implies c_wf(#[trigger] fin(k)) by {
                lemma_rc_index(i, t, a.rows, a.cols);
                lemma_rc_index(t, k, b.rows, b.cols);
                lemma_rc_index(k, j, c.rows, c.cols);
                lemma_c_mul_wf(m_idx(a, i, t), m_idx(b, t, k));
                lemma_c_mul_wf(c_mul(m_idx(a, i, t), m_idx(b, t, k)),
                    m_idx(c, k, j));
            }
            assert forall|k: int| 0 <= k < r implies c_wf(#[trigger] gin(k)) by {
                lemma_rc_index(i, t, a.rows, a.cols);
                lemma_rc_index(t, k, b.rows, b.cols);
                lemma_rc_index(k, j, c.rows, c.cols);
                lemma_c_mul_wf(m_idx(b, t, k), m_idx(c, k, j));
                lemma_c_mul_wf(m_idx(a, i, t),
                    c_mul(m_idx(b, t, k), m_idx(c, k, j)));
            }
            assert forall|k: int| 0 <= k < r
                implies c_eq(#[trigger] fin(k), gin(k)) by {
            }
            crate::matrix::lemma_csum_congruence(r as nat, fin, gin);
        }
        assert forall|t: int| 0 <= t < q
            implies c_eq(g4(t), #[trigger] g3(t)) by {
            lemma_rc_index(t, j, bc.rows, bc.cols);
            let y = t * s + j;
            let raw = |k: int| c_mul(m_idx(b, y / s, k), m_idx(c, k, y % s));
            let bcin = |k: int| c_mul(m_idx(b, t, k), m_idx(c, k, j));
            assert(m_idx(bc, t, j) == csum(r as nat, raw));
            crate::matrix::lemma_csum_ext(r as nat, raw, bcin);
            assert forall|k: int| 0 <= k < r implies c_wf(#[trigger] bcin(k)) by {
                lemma_rc_index(t, k, b.rows, b.cols);
                lemma_rc_index(k, j, c.rows, c.cols);
                lemma_c_mul_wf(m_idx(b, t, k), m_idx(c, k, j));
            }
            lemma_rc_index(i, t, a.rows, a.cols);
            lemma_csum_mul_left(r as nat, m_idx(a, i, t), bcin,
                |k: int| hr(t, k));
        }
        assert forall|t: int| 0 <= t < q
            implies c_eq(#[trigger] g3(t), g4(t)) by {
            crate::rational::lemma_q_eq_sym(g4(t).re, g3(t).re);
            crate::rational::lemma_q_eq_sym(g4(t).im, g3(t).im);
        }
        // The right entry.
        assert(rhs.e[x] == csum(q as nat, g4)) by {
            crate::matrix::lemma_csum_ext(q as nat,
                |t: int| c_mul(m_idx(a, x / s, t), m_idx(bc, t, x % s)), g4);
        };
        // Join the chain.
        crate::matrix::lemma_csum_congruence(q as nat, g2, g3);
        crate::matrix::lemma_csum_wf(q as nat, g2);
        crate::matrix::lemma_csum_wf(q as nat, g3);
        crate::complex::lemma_c_eq_trans(lhs.e[x], csum(q as nat, g2),
            csum(q as nat, g3));
        crate::matrix::lemma_csum_congruence(q as nat, g3, g4);
        crate::complex::lemma_c_eq_trans(lhs.e[x], csum(q as nat, g3),
            csum(q as nat, g4));
    }
    assert(lhs.e.len() == rhs.e.len());
}

/// Conjugating a density matrix by a unitary preserves its trace:
/// trace(U * rho * U^dagger) has the value of trace(rho).
pub proof fn lemma_evolution_preserves_trace(u: Mv, rho: Mv)
    requires
        m_wf(u),
        m_wf(rho),
        u.rows == u.cols,
        rho.rows == u.rows,
        rho.cols == u.rows,
        m_is_unitary(u),
    ensures
        c_eq(m_trace(m_mul(m_mul(u, rho), m_conj_transpose(u))), m_trace(rho)),
{
    let n = u.rows;
    let ct = m_conj_transpose(u);
    let ur = m_mul(u, rho);
    crate::matrix::lemma_m_conj_transpose_wf(u);
    crate::matrix::lemma_m_mul_wf(u, rho);
    crate::matrix::lemma_m_mul_wf(ur, ct);
    crate::matrix::lemma_m_mul_wf(ct, ur);
    crate::matrix::lemma_m_mul_wf(ct, u);
    crate::matrix::lemma_m_mul_wf(m_mul(ct, u), rho);
    crate::matrix::lemma_m_identity_wf(n);
    crate::matrix::lemma_m_mul_wf(m_identity(n), rho);
    // trace((U rho) U+) == trace(U+ (U rho)) exactly.
    lemma_trace_mul_comm(ur, ct);
    // U+ (U rho) ~ (U+ U) rho ~ I rho ~ rho.
    lemma_m_mul_assoc(ct, u, rho);
    crate::matrix::lemma_m_eq_sym_swap(m_mul(m_mul(ct, u), rho),
        m_mul(ct, m_mul(u, rho)));
    lemma_m_mul_congruence(m_mul(ct, u), rho, m_identity(n), rho);
    lemma_m_mul_identity_left(rho);
    crate::matrix::lemma_m_eq_trans(m_mul(ct, ur),
        m_mul(m_mul(ct, u), rho), m_mul(m_identity(n), rho));
    crate::matrix::lemma_m_eq_trans(m_mul(ct, ur),
        m_mul(m_identity(n), rho), rho);
    // Traces of value-equal square matrices agree.
    crate::matrix::lemma_m_trace_congruence(m_mul(ct, ur), rho);
}

} // verus!