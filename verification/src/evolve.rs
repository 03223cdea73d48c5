use vstd::prelude::*;
use crate::errors::KernelError;
use crate::rational::{
    Rational, Qv, q_wf, q_eq, q_mul, q_sub, q_div, q_neg, q_zero, q_one,
    q_bnd, lemma_q_eq_trans, lemma_q_ops_wf, lemma_q_neg_congruence,
};
use crate::complex::{
    Complex, Cv, c_wf, c_eq, c_add, c_sub, c_mul, c_conj, c_scale, c_zero,
    c_from_int, c_abs2, c_valid, lemma_c_eq_trans,
};
use crate::matrix::{
    Matrix, Mv, m_wf, m_eq, m_idx, m_add, m_scale, m_mul, m_conj_transpose,
    m_identity, m_hermitize, m_valid, m_bnd, m_int_bnd, lemma_m_eq_trans,
    lemma_m_mul_wf, lemma_c_mul_wf, lemma_m_scale_congruence,
    lemma_m_add_congruence, lemma_m_conj_transpose_congruence,
    lemma_m_conj_transpose_int_bnd,
};
use crate::complex::c_bnd;
use crate::laws::lemma_m_mul_congruence;
use crate::vector::{Vector, mv_apply, v_norm2};

verus! {

/// The factorial function.
pub open spec fn fact(n: nat) -> nat
    decreases n,
{
    if n == 0 {
        1
    } else {
        n * fact((n - 1) as nat)
    }
}

/// The factorial is at least one.
pub proof fn lemma_fact_pos(n: nat)
    ensures
        fact(n) >= 1,
    decreases n,
{
    if n > 0 {
        lemma_fact_pos((n - 1) as nat);
        assert(n * fact((n - 1) as nat) >= 1) by (nonlinear_arith)
            requires
                n >= 1,
                fact((n - 1) as nat) >= 1,
        ;
    }
}

/// The factorial is monotone.
pub proof fn lemma_fact_mono(a: nat, b: nat)
    requires
        a <= b,
    ensures
        fact(a) <= fact(b),
    decreases b,
{
    if a < b {
        lemma_fact_mono(a, (b - 1) as nat);
        lemma_fact_pos((b - 1) as nat);
        assert(fact((b - 1) as nat) <= b * fact((b - 1) as nat))
            by (nonlinear_arith)
            requires
                b >= 1,
                fact((b - 1) as nat) >= 0,
        ;
    }
}

/// The exact reciprocal factorial 1/k!.
pub open spec fn q_inv_fact(k: nat) -> Qv {
    Qv { n: 1, d: fact(k) as int }
}

/// The k-th power of a square matrix model.
pub open spec fn m_pow(x: Mv, k: nat) -> Mv
    decreases k,
{
    if k == 0 {
        m_identity(x.rows)
    } else {
        m_mul(m_pow(x, (k - 1) as nat), x)
    }
}

/// Powers of a well-formed square model are well formed.
pub proof fn lemma_m_pow_wf(x: Mv, k: nat)
    requires
        m_wf(x),
        x.rows == x.cols,
    ensures
        m_wf(m_pow(x, k)),
        m_pow(x, k).rows == x.rows,
        m_pow(x, k).cols == x.cols,
    decreases k,
{
    if k == 0 {
        crate::matrix::lemma_m_identity_wf(x.rows);
    } else {
        lemma_m_pow_wf(x, (k - 1) as nat);
        lemma_m_mul_wf(m_pow(x, (k - 1) as nat), x);
    }
}

/// The truncated exponential series: the sum of X^k / k! for k up to
/// `order`.
pub open spec fn taylor_sum(x: Mv, order: nat) -> Mv
    decreases order,
{
    if order == 0 {
        m_identity(x.rows)
    } else {
        m_add(taylor_sum(x, (order - 1) as nat),
            m_scale(Cv { re: q_inv_fact(order), im: q_zero() }, m_pow(x, order)))
    }
}

/// The exact factorial of a machine integer; reports `NumericalError`
/// exactly when the true factorial does not fit in 64 bits.
pub fn factorial(n: u64) -> (r: Result<u64, KernelError>)
    ensures
        r matches Ok(v) ==> v as nat == fact(n as nat),
        r is Ok <==> fact(n as nat) <= u64::MAX,
        r matches Err(e) ==> e == KernelError::NumericalError,
{
    let mut acc: u64 = 1;
    let mut i: u64 = 0;
    while i < n
        invariant
            i <= n,
            acc as nat == fact(i as nat),
        decreases n - i,
    {
        let next: u64 = i + 1;
        acc = match acc.checked_mul(next) {
            Some(v) => v,
            None => {
                proof {
                    // The factorial only grows beyond this overflowing
                    // prefix product.
                    assert(fact((i + 1) as nat) == (i + 1) * fact(i as nat));
                    assert((i + 1) * fact(i as nat) == fact(i as nat) * (i + 1))
                        by (nonlinear_arith);
                    lemma_fact_mono((i + 1) as nat, n as nat);
                }
                return Err(KernelError::NumericalError);
            },
        };
        proof {
            assert(fact((i + 1) as nat) == (i + 1) * fact(i as nat));
            assert((i + 1) * fact(i as nat) == fact(i as nat) * (i + 1))
                by (nonlinear_arith);
        }
        i = next;
    }
    Ok(acc)
}

/// Builds the scaled generator X = -i * H * dt / hbar from a Hamiltonian
/// and a time step; a zero hbar is a `DomainError`.
pub fn scale_generator(h: &Matrix, dt: &Rational, hbar: &Rational)
    -> (r: Result<Matrix, KernelError>)
    requires
        h.wf(),
        dt.wf(),
        hbar.wf(),
    ensures
        r matches Ok(x) ==> x.wf()
            && m_eq(x@, m_scale(
                Cv { re: q_zero(), im: q_neg(q_div(dt@, hbar@)) }, h@)),
        hbar@.n == 0 ==> (r matches Err(e) && e == KernelError::DomainError),
        forall|b1: int, b2: int, b3: int|
            #![trigger m_bnd(h@, b1), q_bnd(dt@, b2), q_bnd(hbar@, b3)]
            1 <= b1 && 1 <= b2 && 1 <= b3
                && m_bnd(h@, b1) && q_bnd(dt@, b2) && q_bnd(hbar@, b3)
                && hbar@.n != 0 && b2 * b3 <= 0x7fff_ffff_ffff_ffff_ffff_ffff_ffff_ffff
                && 2 * (((b2 * b3) * b1) * ((b2 * b3) * b1)) <= 0x7fff_ffff_ffff_ffff_ffff_ffff_ffff_ffff
            ==> r is Ok,
    {
    let ratio = match dt.div(hbar) {
        Ok(v) => v,
        Err(e) => {
            proof {
                assert forall|b1: int, b2: int, b3: int|
                    #![trigger m_bnd(h@, b1), q_bnd(dt@, b2), q_bnd(hbar@, b3)]
                    1 <= b1 && 1 <= b2 && 1 <= b3
                        && m_bnd(h@, b1) && q_bnd(dt@, b2) && q_bnd(hbar@, b3)
                        && hbar@.n != 0 && b2 * b3 <= 0x7fff_ffff_ffff_ffff_ffff_ffff_ffff_ffff
                        && 2 * (((b2 * b3) * b1) * ((b2 * b3) * b1)) <= 0x7fff_ffff_ffff_ffff_ffff_ffff_ffff_ffff
                    implies false by {
                    assert(q_bnd(dt@, b2));
                    assert(q_bnd(hbar@, b3));
                }
            }
            return Err(e);
        },
    };
    let factor = Complex::new(Rational::from_int(0), ratio.neg());
    let x = match h.mul_scalar(&factor) {
        Ok(v) => v,
        Err(_) => {
            proof {
                assert forall|b1: int, b2: int, b3: int|
                    #![trigger m_bnd(h@, b1), q_bnd(dt@, b2), q_bnd(hbar@, b3)]
                    1 <= b1 && 1 <= b2 && 1 <= b3
                        && m_bnd(h@, b1) && q_bnd(dt@, b2) && q_bnd(hbar@, b3)
                        && hbar@.n != 0 && b2 * b3 <= 0x7fff_ffff_ffff_ffff_ffff_ffff_ffff_ffff
                        && 2 * (((b2 * b3) * b1) * ((b2 * b3) * b1)) <= 0x7fff_ffff_ffff_ffff_ffff_ffff_ffff_ffff
                    implies false by {
                    assert(q_bnd(dt@, b2));
                    assert(q_bnd(hbar@, b3));
                    assert(q_bnd(ratio@, b2 * b3));
                    assert(q_bnd(factor@.im, b2 * b3));
                    assert(q_bnd(factor@.re, b2 * b3));
                    assert(c_bnd(factor@, b2 * b3));
                    assert(m_bnd(h@, b1));
                }
            }
            return Err(KernelError::NumericalError);
        },
    };
    proof {
        let target = Cv { re: q_zero(), im: q_neg(q_div(dt@, hbar@)) };
        lemma_q_neg_congruence(ratio@, q_div(dt@, hbar@));
        lemma_m_scale_congruence(factor@, h@, target, h@);
        assert forall|k: int| 0 <= k < h@.e.len()
            implies c_wf(#[trigger] m_scale(factor@, h@).e[k]) by {
            lemma_c_mul_wf(factor@, h@.e[k]);
        }
        lemma_m_eq_trans(x@, m_scale(factor@, h@), m_scale(target, h@));
    }
    Ok(x)
}

/// The unitary evolution operator by truncated Taylor series: the sum of
/// X^k / k! for k up to `order`, where X is the scaled generator.
pub fn taylor_exp(x: &Matrix, order: u32) -> (r: Result<Matrix, KernelError>)
    requires
        x.wf(),
    ensures
        r matches Ok(u) ==> u.wf() && m_eq(u@, taylor_sum(x@, order as nat)),
        x@.rows != x@.cols
            <==> (r matches Err(e) && e == KernelError::DimensionMismatch),
        r is Err && x@.rows == x@.cols ==> (r matches Err(e)
            && e == KernelError::NumericalError),
{
    let n: usize = x.rows();
    if n != x.cols() {
        return Err(KernelError::DimensionMismatch);
    }
    let mut acc: Matrix = match Matrix::identity(n) {
        Ok(v) => v,
        Err(e) => { return Err(e); },
    };
    let mut p: Matrix = match Matrix::identity(n) {
        Ok(v) => v,
        Err(e) => { return Err(e); },
    };
    let mut invf: Rational = Rational::from_int(1);
    let mut k: u32 = 0;
    proof {
        lemma_fact_pos(0);
    }
    while k < order
        invariant
            x.wf(),
            x@.rows == n as int,
            x@.cols == n as int,
            k <= order,
            acc.wf(),
            p.wf(),
            invf.wf(),
            acc@.rows == n as int,
            acc@.cols == n as int,
            p@.rows == n as int,
            p@.cols == n as int,
            m_eq(acc@, taylor_sum(x@, k as nat)),
            m_eq(p@, m_pow(x@, k as nat)),
            q_eq(invf@, q_inv_fact(k as nat)),
        decreases order - k,
    {
        let k1: u32 = k + 1;
        // Next power of the generator.
        let p2 = match p.mul(x) {
            Ok(v) => v,
            Err(e) => { return Err(KernelError::NumericalError); },
        };
        proof {
            lemma_m_mul_wf(p@, x@);
            lemma_m_pow_wf(x@, k as nat);
            lemma_m_mul_congruence(p@, x@, m_pow(x@, k as nat), x@);
            assert forall|t: int| 0 <= t < m_mul(p@, x@).e.len()
                implies c_wf(#[trigger] m_mul(p@, x@).e[t]) by {
                assert(m_wf(m_mul(p@, x@)));
            }
            lemma_m_eq_trans(p2@, m_mul(p@, x@), m_pow(x@, k1 as nat));
        }
        // Next reciprocal factorial.
        let kr: Rational = Rational::from_int(k1 as i64);
        let invf2 = match invf.div(&kr) {
            Ok(v) => v,
            Err(e) => { return Err(KernelError::NumericalError); },
        };
        proof {
            lemma_fact_pos(k1 as nat);
            assert(fact(k1 as nat) == k1 * fact(k as nat));
            let mid = q_div(invf@, kr@);
            assert(q_wf(mid)) by (nonlinear_arith)
                requires
                    invf@.d >= 1,
                    kr@.n >= 1,
                    mid.d == invf@.d * kr@.n,
            ;
            assert(q_eq(mid, q_inv_fact(k1 as nat))) by (nonlinear_arith)
                requires
                    invf@.n * (fact(k as nat) as int) == 1 * invf@.d,
                    mid.n == invf@.n * 1,
                    mid.d == invf@.d * (k1 as int),
                    fact(k1 as nat) as int == (k1 as int) * (fact(k as nat) as int),
            ;
            lemma_q_eq_trans(invf2@, mid, q_inv_fact(k1 as nat));
        }
        // The next term and the new partial sum.
        let cf = Complex::new(invf2, Rational::from_int(0));
        let term = match p2.mul_scalar(&cf) {
            Ok(v) => v,
            Err(e) => { return Err(KernelError::NumericalError); },
        };
        let acc2 = match acc.add(&term) {
            Ok(v) => v,
            Err(e) => { return Err(KernelError::NumericalError); },
        };
        proof {
            let tc = Cv { re: q_inv_fact(k1 as nat), im: q_zero() };
            lemma_m_scale_congruence(cf@, p2@, tc, m_pow(x@, k1 as nat));
            assert forall|t: int| 0 <= t < m_scale(cf@, p2@).e.len()
                implies c_wf(#[trigger] m_scale(cf@, p2@).e[t]) by {
                lemma_c_mul_wf(cf@, p2@.e[t]);
            }
            lemma_m_eq_trans(term@, m_scale(cf@, p2@),
                m_scale(tc, m_pow(x@, k1 as nat)));
            lemma_m_add_congruence(acc@, term@, taylor_sum(x@, k as nat),
                m_scale(tc, m_pow(x@, k1 as nat)));
            assert forall|t: int| 0 <= t < m_add(acc@, term@).e.len()
                implies c_wf(#[trigger] m_add(acc@, term@).e[t]) by {
                lemma_c_mul_wf(acc@.e[t], term@.e[t]);
            }
            lemma_m_eq_trans(acc2@, m_add(acc@, term@),
                taylor_sum(x@, k1 as nat));
        }
        acc = acc2;
        p = p2;
        invf = invf2;
        k = k1;
    }
    Ok(acc)
}

/// One evolution step of a density matrix: rho' = U * rho * U^dagger,
/// re-symmetrized as (M + M^dagger)/2 to pin down Hermiticity.
pub fn evolve_density(u: &Matrix, rho: &Matrix) -> (r: Result<Matrix, KernelError>)
    requires
        u.wf(),
        rho.wf(),
    ensures
        r matches Ok(v) ==> v.wf()
            && m_eq(v@, m_hermitize(m_mul(m_mul(u@, rho@), m_conj_transpose(u@)))),
        !(u@.rows == u@.cols && rho@.rows == u@.cols && rho@.cols == u@.cols)
            ==> (r matches Err(e) && e == KernelError::DimensionMismatch),
        forall|b: int|
            #![trigger m_int_bnd(u@, b), m_int_bnd(rho@, b)]
            1 <= b && m_int_bnd(u@, b) && m_int_bnd(rho@, b)
            && u@.rows == u@.cols && rho@.rows == u@.cols
            && rho@.cols == u@.cols && 1 <= u@.rows
            && u@.rows * u@.cols <= usize::MAX
            && u@.cols * (2 * (b * b)) <= 0x7fff_ffff_ffff_ffff_ffff_ffff_ffff_ffff
            && u@.cols * (2 * ((u@.rows * (2 * (b * b))) * b)) <= 0x7fff_ffff_ffff_ffff_ffff_ffff_ffff_ffff
            && 32 * ((u@.rows * (2 * ((u@.rows * (2 * (b * b))) * b)))
                    * (u@.rows * (2 * ((u@.rows * (2 * (b * b))) * b)))) <= 0x7fff_ffff_ffff_ffff_ffff_ffff_ffff_ffff
            ==> r is Ok,
{
    if u.rows() != u.cols() || rho.rows() != u.cols() || rho.cols() != u.cols() {
        return Err(KernelError::DimensionMismatch);
    }
    proof {
        assert forall|b: int|
            #![trigger m_int_bnd(u@, b), m_int_bnd(rho@, b)]
            1 <= b && m_int_bnd(u@, b) && m_int_bnd(rho@, b)
            && u@.rows == u@.cols && rho@.rows == u@.cols
            && rho@.cols == u@.cols && 1 <= u@.rows
            && u@.rows * u@.cols <= usize::MAX
            && u@.cols * (2 * (b * b)) <= 0x7fff_ffff_ffff_ffff_ffff_ffff_ffff_ffff
            && u@.cols * (2 * ((u@.rows * (2 * (b * b))) * b)) <= 0x7fff_ffff_ffff_ffff_ffff_ffff_ffff_ffff
            && 32 * ((u@.rows * (2 * ((u@.rows * (2 * (b * b))) * b)))
                    * (u@.rows * (2 * ((u@.rows * (2 * (b * b))) * b)))) <= 0x7fff_ffff_ffff_ffff_ffff_ffff_ffff_ffff
            implies 0 <= u@.cols * (2 * (b * b))
                && 0 <= u@.cols * (2 * ((u@.rows * (2 * (b * b))) * b))
                && 1 <= u@.rows * (2 * ((u@.rows * (2 * (b * b))) * b)) by {
            vstd::arithmetic::mul::lemma_mul_nonnegative(b, b);
            vstd::arithmetic::mul::lemma_mul_nonnegative(u@.cols, 2 * (b * b));
            assert(1 <= u@.rows * (2 * (b * b))) by (nonlinear_arith)
                requires
                    1 <= u@.rows,
                    1 <= b,
            ;
            assert(1 <= (u@.rows * (2 * (b * b))) * b) by (nonlinear_arith)
                requires
                    1 <= u@.rows * (2 * (b * b)),
                    1 <= b,
            ;
            vstd::arithmetic::mul::lemma_mul_nonnegative(u@.cols,
                2 * ((u@.rows * (2 * (b * b))) * b));
            assert(1 <= u@.rows * (2 * ((u@.rows * (2 * (b * b))) * b)))
                by (nonlinear_arith)
                requires
                    1 <= u@.rows,
                    1 <= (u@.rows * (2 * (b * b))) * b,
            ;
        }
    }
    let t1 = match u.mul(rho) {
        Ok(v) => v,
        Err(e) => {
            proof {
                assert forall|b: int|
                    #![trigger m_int_bnd(u@, b), m_int_bnd(rho@, b)]
                    1 <= b && m_int_bnd(u@, b) && m_int_bnd(rho@, b)
                    && u@.rows == u@.cols && rho@.rows == u@.cols
                    && rho@.cols == u@.cols && 1 <= u@.rows
                    && u@.rows * u@.cols <= usize::MAX
                    && u@.cols * (2 * (b * b)) <= 0x7fff_ffff_ffff_ffff_ffff_ffff_ffff_ffff
                    && u@.cols * (2 * ((u@.rows * (2 * (b * b))) * b)) <= 0x7fff_ffff_ffff_ffff_ffff_ffff_ffff_ffff
                    && 32 * ((u@.rows * (2 * ((u@.rows * (2 * (b * b))) * b)))
                    * (u@.rows * (2 * ((u@.rows * (2 * (b * b))) * b)))) <= 0x7fff_ffff_ffff_ffff_ffff_ffff_ffff_ffff
                    implies false by {
                    assert(m_int_bnd(u@, b));
                    assert(m_int_bnd(rho@, b));
                }
            }
            return Err(e);
        },
    };
    let ct = u.conj_transpose();
    proof {
        assert forall|b: int|
            #![trigger m_int_bnd(u@, b), m_int_bnd(rho@, b)]
            1 <= b && m_int_bnd(u@, b) && m_int_bnd(rho@, b)
            && u@.rows == u@.cols && rho@.rows == u@.cols
            && rho@.cols == u@.cols && 1 <= u@.rows
            && u@.rows * u@.cols <= usize::MAX
            && u@.cols * (2 * (b * b)) <= 0x7fff_ffff_ffff_ffff_ffff_ffff_ffff_ffff
            && u@.cols * (2 * ((u@.rows * (2 * (b * b))) * b)) <= 0x7fff_ffff_ffff_ffff_ffff_ffff_ffff_ffff
            && 32 * ((u@.rows * (2 * ((u@.rows * (2 * (b * b))) * b)))
                    * (u@.rows * (2 * ((u@.rows * (2 * (b * b))) * b)))) <= 0x7fff_ffff_ffff_ffff_ffff_ffff_ffff_ffff
            implies m_int_bnd(ct@, b) by {
            lemma_m_conj_transpose_int_bnd(u@, b);
        }
    }
    let t2 = match t1.mul(&ct) {
        Ok(v) => v,
        Err(e) => {
            proof {
                assert forall|b: int|
                    #![trigger m_int_bnd(u@, b), m_int_bnd(rho@, b)]
                    1 <= b && m_int_bnd(u@, b) && m_int_bnd(rho@, b)
                    && u@.rows == u@.cols && rho@.rows == u@.cols
                    && rho@.cols == u@.cols && 1 <= u@.rows
                    && u@.rows * u@.cols <= usize::MAX
                    && u@.cols * (2 * (b * b)) <= 0x7fff_ffff_ffff_ffff_ffff_ffff_ffff_ffff
                    && u@.cols * (2 * ((u@.rows * (2 * (b * b))) * b)) <= 0x7fff_ffff_ffff_ffff_ffff_ffff_ffff_ffff
                    && 32 * ((u@.rows * (2 * ((u@.rows * (2 * (b * b))) * b)))
                    * (u@.rows * (2 * ((u@.rows * (2 * (b * b))) * b)))) <= 0x7fff_ffff_ffff_ffff_ffff_ffff_ffff_ffff
                    implies false by {
                    assert(m_int_bnd(u@, b));
                    assert(m_int_bnd(rho@, b));
                    assert(m_int_bnd(t1@, u@.cols * (2 * (b * b))));
                    assert(m_int_bnd(ct@, b));
                }
            }
            return Err(e);
        },
    };
    proof {
        lemma_m_mul_wf(u@, rho@);
        lemma_m_mul_congruence(t1@, ct@, m_mul(u@, rho@), m_conj_transpose(u@));
        lemma_m_mul_wf(t1@, ct@);
        assert forall|t: int| 0 <= t < m_mul(t1@, ct@).e.len()
            implies c_wf(#[trigger] m_mul(t1@, ct@).e[t]) by {
            assert(m_wf(m_mul(t1@, ct@)));
        }
        lemma_m_eq_trans(t2@, m_mul(t1@, ct@),
            m_mul(m_mul(u@, rho@), m_conj_transpose(u@)));
    }
    let h = match t2.hermitize() {
        Ok(v) => v,
        Err(_) => {
            proof {
                assert forall|b: int|
                    #![trigger m_int_bnd(u@, b), m_int_bnd(rho@, b)]
                    1 <= b && m_int_bnd(u@, b) && m_int_bnd(rho@, b)
                    && u@.rows == u@.cols && rho@.rows == u@.cols
                    && rho@.cols == u@.cols && 1 <= u@.rows
                    && u@.rows * u@.cols <= usize::MAX
                    && u@.cols * (2 * (b * b)) <= 0x7fff_ffff_ffff_ffff_ffff_ffff_ffff_ffff
                    && u@.cols * (2 * ((u@.rows * (2 * (b * b))) * b)) <= 0x7fff_ffff_ffff_ffff_ffff_ffff_ffff_ffff
                    && 32 * ((u@.rows * (2 * ((u@.rows * (2 * (b * b))) * b)))
                    * (u@.rows * (2 * ((u@.rows * (2 * (b * b))) * b)))) <= 0x7fff_ffff_ffff_ffff_ffff_ffff_ffff_ffff
                    implies false by {
                    assert(m_int_bnd(u@, b));
                    assert(m_int_bnd(rho@, b));
                    assert(m_int_bnd(t1@, u@.cols * (2 * (b * b))));
                    assert(m_int_bnd(ct@, b));
                    assert(m_int_bnd(t2@,
                        u@.cols * (2 * ((u@.rows * (2 * (b * b))) * b))));
                }
            }
            return Err(KernelError::NumericalError);
        },
    };
    proof {
        let target = m_mul(m_mul(u@, rho@), m_conj_transpose(u@));
        crate::matrix::lemma_m_conj_transpose_wf(u@);
        lemma_m_mul_wf(u@, rho@);
        lemma_m_mul_wf(m_mul(u@, rho@), m_conj_transpose(u@));
        lemma_m_hermitize_congruence(t2@, target);
        crate::matrix::lemma_m_hermitize_wf(t2@);
        assert(m_wf(m_hermitize(t2@)));
        lemma_m_eq_trans(h@, m_hermitize(t2@), m_hermitize(target));
    }
    Ok(h)
}

/// Re-symmetrization respects value equality.
pub proof fn lemma_m_hermitize_congruence(a: Mv, b: Mv)
    requires
        m_wf(a),
        m_wf(b),
        m_eq(a, b),
        a.rows == a.cols,
    ensures
        m_eq(m_hermitize(a), m_hermitize(b)),
{
    lemma_m_conj_transpose_congruence(a, b);
    assert(a.cols * a.rows == a.rows * a.cols) by (nonlinear_arith);
    assert(b.cols * b.rows == b.rows * b.cols) by (nonlinear_arith);
    lemma_m_add_congruence(a, m_conj_transpose(a), b, m_conj_transpose(b));
    crate::rational::lemma_q_eq_refl(crate::matrix::c_half().re);
    crate::rational::lemma_q_eq_refl(crate::matrix::c_half().im);
    lemma_m_scale_congruence(crate::matrix::c_half(), m_add(a, m_conj_transpose(a)),
        crate::matrix::c_half(), m_add(b, m_conj_transpose(b)));
}

/// One evolution step of a state vector: psi' = U * psi, renormalized to
/// absorb the residual drift of the series approximation. The result is
/// the positive real multiple of U * psi whose squared norm is one.
pub fn evolve_vector(u: &Matrix, psi: &Vector) -> (r: Result<Vector, KernelError>)
    requires
        u.wf(),
        psi.wf(),
    ensures
        r matches Ok(w) ==> w.wf() && w@.len() == u@.rows
            && (exists|s: Qv| q_wf(s) && s.n > 0
                && q_eq(q_mul(s, s), v_norm2(mv_apply(u@, psi@)))
                && (forall|i: int| 0 <= i < w@.len()
                    ==> c_eq(#[trigger] c_scale(s, w@[i]), mv_apply(u@, psi@)[i]))),
        u@.cols != psi@.len()
            <==> (r matches Err(e) && e == KernelError::DimensionMismatch),
{
    let applied = match u.mul_vector(psi) {
        Ok(v) => v,
        Err(e) => { return Err(e); },
    };
    let w = match applied.normalize() {
        Ok(v) => v,
        Err(e) => { return Err(KernelError::NumericalError); },
    };
    proof {
        let s0 = choose|s: Qv| q_wf(s) && s.n > 0
            && q_eq(q_mul(s, s), v_norm2(applied@))
            && (forall|i: int| 0 <= i < applied@.len()
                ==> c_eq(#[trigger] c_scale(s, w@[i]), applied@[i]));
        crate::vector::lemma_mv_apply_wf(u@, psi@);
        crate::vector::lemma_v_norm2_wf(applied@);
        crate::vector::lemma_v_norm2_congruence(applied@, mv_apply(u@, psi@));
        lemma_q_ops_wf(s0, s0);
        lemma_q_eq_trans(q_mul(s0, s0), v_norm2(applied@),
            v_norm2(mv_apply(u@, psi@)));
        assert(w@.len() == applied@.len());
        assert forall|i: int| 0 <= i < w@.len()
            implies c_eq(#[trigger] c_scale(s0, w@[i]), mv_apply(u@, psi@)[i]) by {
            assert(c_eq(c_scale(s0, w@[i]), applied@[i]));
            lemma_q_ops_wf(s0, w@[i].re);
            lemma_q_ops_wf(s0, w@[i].im);
            lemma_q_eq_trans(q_mul(s0, w@[i].re), applied@[i].re,
                mv_apply(u@, psi@)[i].re);
            lemma_q_eq_trans(q_mul(s0, w@[i].im), applied@[i].im,
                mv_apply(u@, psi@)[i].im);
        }
    }
    Ok(w)
}


/// The coefficient of X^k in the order-6 diagonal Pade polynomial:
/// (12 - k)! / (k! (6 - k)!).
pub open spec fn pade6_coeff(k: int) -> int {
    if k == 0 {
        665280
    } else if k == 1 {
        332640
    } else if k == 2 {
        75600
    } else if k == 3 {
        10080
    } else if k == 4 {
        840
    } else if k == 5 {
        42
    } else {
        1
    }
}

/// The order-6 Pade polynomial up to degree k: the numerator uses the
/// coefficients as they stand, the denominator (alternate) flips the
/// sign of every odd power, giving p(X) and p(-X).
pub open spec fn pade6_poly(x: Mv, k: nat, alternate: bool) -> Mv
    decreases k,
{
    if k == 0 {
        m_scale(c_from_int(665280), m_identity(x.rows))
    } else {
        m_add(pade6_poly(x, (k - 1) as nat, alternate),
            m_scale(c_from_int(
                if alternate && k % 2 == 1 {
                    -pade6_coeff(k as int)
                } else {
                    pade6_coeff(k as int)
                }), m_pow(x, k)))
    }
}

/// The determinant of a 2 x 2 model.
pub open spec fn det2(m: Mv) -> Cv {
    c_sub(c_mul(m_idx(m, 0, 0), m_idx(m, 1, 1)),
        c_mul(m_idx(m, 0, 1), m_idx(m, 1, 0)))
}

/// Cramer's numerator for entry (i, j) of the solution U of D * U = N,
/// for 2 x 2 matrices.
pub open spec fn cramer2(d: Mv, n: Mv, i: int, j: int) -> Cv {
    if i == 0 {
        c_sub(c_mul(m_idx(d, 1, 1), m_idx(n, 0, j)),
            c_mul(m_idx(d, 0, 1), m_idx(n, 1, j)))
    } else {
        c_sub(c_mul(m_idx(d, 0, 0), m_idx(n, 1, j)),
            c_mul(m_idx(d, 1, 0), m_idx(n, 0, j)))
    }
}

/// The returned operator U solves D * U = N for the Pade polynomials:
/// the witnesses nm and dm have the values of p(X) and p(-X), the
/// denominator's determinant is nonzero, and every entry of U is pinned
/// by Cramer's rule through the complex-division relation
/// |det|^2 * u_ij == cramer_ij * conj(det).
pub open spec fn pade6_solution(u: Mv, x: Mv, nm: Mv, dm: Mv) -> bool {
    m_wf(nm) && m_wf(dm)
        && nm.rows == 2 && nm.cols == 2 && dm.rows == 2 && dm.cols == 2
        && m_eq(nm, pade6_poly(x, 6, false))
        && m_eq(dm, pade6_poly(x, 6, true))
        && !(det2(dm).re.n == 0 && det2(dm).im.n == 0)
        && (forall|i: int, j: int| 0 <= i < 2 && 0 <= j < 2
            ==> c_eq(#[trigger] c_scale(c_abs2(det2(dm)), m_idx(u, i, j)),
                c_mul(cramer2(dm, nm, i, j), c_conj(det2(dm)))))
}

/// Transports the division relation across value-equal determinants and
/// numerators.
proof fn lemma_div_pin_transport(u: Cv, deta: Cv, detb: Cv, crama: Cv, cramb: Cv)
    requires
        c_wf(u),
        c_wf(deta),
        c_wf(detb),
        c_wf(crama),
        c_wf(cramb),
        c_eq(deta, detb),
        c_eq(crama, cramb),
        c_eq(c_scale(c_abs2(deta), u), c_mul(crama, c_conj(deta))),
    ensures
        c_eq(c_scale(c_abs2(detb), u), c_mul(cramb, c_conj(detb))),
{
    crate::rational::lemma_q_mul_congruence(deta.re, deta.re, detb.re, detb.re);
    crate::rational::lemma_q_mul_congruence(deta.im, deta.im, detb.im, detb.im);
    crate::rational::lemma_q_add_congruence(
        q_mul(deta.re, deta.re), q_mul(deta.im, deta.im),
        q_mul(detb.re, detb.re), q_mul(detb.im, detb.im));
    crate::rational::lemma_q_eq_sym(crate::complex::c_abs2(deta),
        crate::complex::c_abs2(detb));
    let qa = crate::complex::c_abs2(deta);
    let qb = crate::complex::c_abs2(detb);
    crate::rational::lemma_q_ops_wf(deta.re, deta.re);
    crate::rational::lemma_q_ops_wf(deta.im, deta.im);
    crate::rational::lemma_q_ops_wf(q_mul(deta.re, deta.re), q_mul(deta.im, deta.im));
    crate::rational::lemma_q_ops_wf(detb.re, detb.re);
    crate::rational::lemma_q_ops_wf(detb.im, detb.im);
    crate::rational::lemma_q_ops_wf(q_mul(detb.re, detb.re), q_mul(detb.im, detb.im));
    // scale(|detb|^2, u) ~ scale(|deta|^2, u).
    crate::rational::lemma_q_mul_congruence(qb, u.re, qa, u.re);
    crate::rational::lemma_q_mul_congruence(qb, u.im, qa, u.im);
    crate::rational::lemma_q_ops_wf(qa, u.re);
    crate::rational::lemma_q_ops_wf(qa, u.im);
    // ~ mul(crama, conj(deta)) ~ mul(cramb, conj(detb)).
    crate::vector::lemma_c_conj_congruence(deta, detb);
    crate::complex::lemma_c_mul_congruence(crama, c_conj(deta), cramb, c_conj(detb));
    lemma_c_mul_wf(crama, c_conj(deta));
    crate::rational::lemma_q_eq_trans(q_mul(qb, u.re),
        q_mul(qa, u.re), c_mul(crama, c_conj(deta)).re);
    crate::rational::lemma_q_eq_trans(q_mul(qb, u.im),
        q_mul(qa, u.im), c_mul(crama, c_conj(deta)).im);
    crate::rational::lemma_q_eq_trans(q_mul(qb, u.re),
        c_mul(crama, c_conj(deta)).re, c_mul(cramb, c_conj(detb)).re);
    crate::rational::lemma_q_eq_trans(q_mul(qb, u.im),
        c_mul(crama, c_conj(deta)).im, c_mul(cramb, c_conj(detb)).im);
}

/// The unitary evolution operator by the order-6 diagonal Pade
/// approximant: U solves p(-X) * U = p(X), computed for 2 x 2 generators
/// by Cramer's rule. A singular denominator is a `NumericalError`.
pub fn pade6_exp(x: &Matrix) -> (r: Result<Matrix, KernelError>)
    requires
        x.wf(),
    ensures
        r matches Ok(u) ==> u.wf() && u@.rows == 2 && u@.cols == 2
            && (exists|nm: Mv, dm: Mv| pade6_solution(u@, x@, nm, dm)),
        !(x@.rows == 2 && x@.cols == 2)
            <==> (r matches Err(e) && e == KernelError::DimensionMismatch),
{
    if x.rows() != 2 || x.cols() != 2 {
        return Err(KernelError::DimensionMismatch);
    }
    let start = match Matrix::identity(2) {
        Ok(v) => v,
        Err(_) => { return Err(KernelError::NumericalError); },
    };
    let start_d = match Matrix::identity(2) {
        Ok(v) => v,
        Err(_) => { return Err(KernelError::NumericalError); },
    };
    let c0 = Complex::from_int(665280);
    let mut accn = match start.mul_scalar(&c0) {
        Ok(v) => v,
        Err(_) => { return Err(KernelError::NumericalError); },
    };
    let mut accd = match start_d.mul_scalar(&c0) {
        Ok(v) => v,
        Err(_) => { return Err(KernelError::NumericalError); },
    };
    let mut p = start;
    let mut k: u32 = 0;
    proof {
        assert(m_eq(accn@, pade6_poly(x@, 0, false)));
        assert(m_eq(accd@, pade6_poly(x@, 0, true)));
    }
    while k < 6
        invariant
            x.wf(),
            x@.rows == 2,
            x@.cols == 2,
            k <= 6,
            accn.wf(),
            accd.wf(),
            p.wf(),
            accn@.rows == 2,
            accn@.cols == 2,
            accd@.rows == 2,
            accd@.cols == 2,
            p@.rows == 2,
            p@.cols == 2,
            m_eq(accn@, pade6_poly(x@, k as nat, false)),
            m_eq(accd@, pade6_poly(x@, k as nat, true)),
            m_eq(p@, m_pow(x@, k as nat)),
        decreases 6 - k,
    {
        let k1: u32 = k + 1;
        let p2 = match p.mul(x) {
            Ok(v) => v,
            Err(_) => { return Err(KernelError::NumericalError); },
        };
        proof {
            lemma_m_mul_wf(p@, x@);
            lemma_m_pow_wf(x@, k as nat);
            lemma_m_mul_congruence(p@, x@, m_pow(x@, k as nat), x@);
            assert(m_wf(m_mul(p@, x@)));
            lemma_m_eq_trans(p2@, m_mul(p@, x@), m_pow(x@, k1 as nat));
        }
        let coef: i64 = if k1 == 1 {
            332640
        } else if k1 == 2 {
            75600
        } else if k1 == 3 {
            10080
        } else if k1 == 4 {
            840
        } else if k1 == 5 {
            42
        } else {
            1
        };
        let coefd: i64 = if k1 % 2 == 1 {
            -coef
        } else {
            coef
        };
        let cfn = Complex::from_int(coef);
        let cfd = Complex::from_int(coefd);
        let termn = match p2.mul_scalar(&cfn) {
            Ok(v) => v,
            Err(_) => { return Err(KernelError::NumericalError); },
        };
        let termd = match p2.mul_scalar(&cfd) {
            Ok(v) => v,
            Err(_) => { return Err(KernelError::NumericalError); },
        };
        let accn2 = match accn.add(&termn) {
            Ok(v) => v,
            Err(_) => { return Err(KernelError::NumericalError); },
        };
        let accd2 = match accd.add(&termd) {
            Ok(v) => v,
            Err(_) => { return Err(KernelError::NumericalError); },
        };
        proof {
            let tn = c_from_int(pade6_coeff(k1 as int));
            let td = c_from_int(
                if k1 % 2 == 1 { -pade6_coeff(k1 as int) } else { pade6_coeff(k1 as int) });
            assert(cfn@ == tn);
            assert(cfd@ == td);
            lemma_m_scale_congruence(cfn@, p2@, tn, m_pow(x@, k1 as nat));
            lemma_m_scale_congruence(cfd@, p2@, td, m_pow(x@, k1 as nat));
            assert forall|t: int| 0 <= t < m_scale(cfn@, p2@).e.len()
                implies c_wf(#[trigger] m_scale(cfn@, p2@).e[t]) by {
                lemma_c_mul_wf(cfn@, p2@.e[t]);
            }
            assert forall|t: int| 0 <= t < m_scale(cfd@, p2@).e.len()
                implies c_wf(#[trigger] m_scale(cfd@, p2@).e[t]) by {
                lemma_c_mul_wf(cfd@, p2@.e[t]);
            }
            lemma_m_eq_trans(termn@, m_scale(cfn@, p2@),
                m_scale(tn, m_pow(x@, k1 as nat)));
            lemma_m_eq_trans(termd@, m_scale(cfd@, p2@),
                m_scale(td, m_pow(x@, k1 as nat)));
            lemma_m_add_congruence(accn@, termn@, pade6_poly(x@, k as nat, false),
                m_scale(tn, m_pow(x@, k1 as nat)));
            lemma_m_add_congruence(accd@, termd@, pade6_poly(x@, k as nat, true),
                m_scale(td, m_pow(x@, k1 as nat)));
            assert forall|t: int| 0 <= t < m_add(accn@, termn@).e.len()
                implies c_wf(#[trigger] m_add(accn@, termn@).e[t]) by {
                lemma_c_mul_wf(accn@.e[t], termn@.e[t]);
            }
            assert forall|t: int| 0 <= t < m_add(accd@, termd@).e.len()
                implies c_wf(#[trigger] m_add(accd@, termd@).e[t]) by {
                lemma_c_mul_wf(accd@.e[t], termd@.e[t]);
            }
            lemma_m_eq_trans(accn2@, m_add(accn@, termn@),
                pade6_poly(x@, k1 as nat, false));
            lemma_m_eq_trans(accd2@, m_add(accd@, termd@),
                pade6_poly(x@, k1 as nat, true));
        }
        accn = accn2;
        accd = accd2;
        p = p2;
        k = k1;
    }
    // Solve D * U = N by Cramer's rule.
    let d00 = match accd.get(0, 0) { Ok(v) => v, Err(e) => { return Err(KernelError::NumericalError); } };
    let d01 = match accd.get(0, 1) { Ok(v) => v, Err(e) => { return Err(KernelError::NumericalError); } };
    let d10 = match accd.get(1, 0) { Ok(v) => v, Err(e) => { return Err(KernelError::NumericalError); } };
    let d11 = match accd.get(1, 1) { Ok(v) => v, Err(e) => { return Err(KernelError::NumericalError); } };
    let n00 = match accn.get(0, 0) { Ok(v) => v, Err(e) => { return Err(KernelError::NumericalError); } };
    let n01 = match accn.get(0, 1) { Ok(v) => v, Err(e) => { return Err(KernelError::NumericalError); } };
    let n10 = match accn.get(1, 0) { Ok(v) => v, Err(e) => { return Err(KernelError::NumericalError); } };
    let n11 = match accn.get(1, 1) { Ok(v) => v, Err(e) => { return Err(KernelError::NumericalError); } };
    let det = match mul_sub(&d00, &d11, &d01, &d10) {
        Ok(v) => v,
        Err(e) => { return Err(e); },
    };
    proof {
        assert(c_eq(det@, det2(accd@)));
    }
    if det.is_zero() {
        return Err(KernelError::NumericalError);
    }
    let c00 = match mul_sub(&d11, &n00, &d01, &n10) { Ok(v) => v, Err(e) => { return Err(e); } };
    let c01 = match mul_sub(&d11, &n01, &d01, &n11) { Ok(v) => v, Err(e) => { return Err(e); } };
    let c10 = match mul_sub(&d00, &n10, &d10, &n00) { Ok(v) => v, Err(e) => { return Err(e); } };
    let c11 = match mul_sub(&d00, &n11, &d10, &n01) { Ok(v) => v, Err(e) => { return Err(e); } };
    let u00 = match c00.div(&det) { Ok(v) => v, Err(_) => { return Err(KernelError::NumericalError); } };
    let u01 = match c01.div(&det) { Ok(v) => v, Err(_) => { return Err(KernelError::NumericalError); } };
    let u10 = match c10.div(&det) { Ok(v) => v, Err(_) => { return Err(KernelError::NumericalError); } };
    let u11 = match c11.div(&det) { Ok(v) => v, Err(_) => { return Err(KernelError::NumericalError); } };
    let u = match Matrix::from_array(2, 2, vec![u00, u01, u10, u11]) {
        Ok(v) => v,
        Err(_) => { return Err(KernelError::NumericalError); },
    };
    proof {
        let dm = accd@;
        let nm = accn@;
        crate::matrix::lemma_rc_index(0, 0, 2, 2);
        crate::matrix::lemma_rc_index(0, 1, 2, 2);
        crate::matrix::lemma_rc_index(1, 0, 2, 2);
        crate::matrix::lemma_rc_index(1, 1, 2, 2);
        lemma_c_mul_wf(m_idx(dm, 0, 0), m_idx(dm, 1, 1));
        lemma_c_mul_wf(m_idx(dm, 0, 1), m_idx(dm, 1, 0));
        lemma_c_mul_wf(c_mul(m_idx(dm, 0, 0), m_idx(dm, 1, 1)),
            c_mul(m_idx(dm, 0, 1), m_idx(dm, 1, 0)));
        // The computed determinant is value-equal to det2(dm), so the
        // latter is nonzero too.
        lemma_det_nonzero(det@, det2(dm));
        assert forall|i: int, j: int| 0 <= i < 2 && 0 <= j < 2
            implies c_eq(#[trigger] c_scale(c_abs2(det2(dm)), m_idx(u@, i, j)),
                c_mul(cramer2(dm, nm, i, j), c_conj(det2(dm)))) by {
            crate::matrix::lemma_rc_index(i, j, 2, 2);
            lemma_c_mul_wf(m_idx(dm, 0, 0), m_idx(dm, 1, 1));
            lemma_c_mul_wf(m_idx(dm, 0, 1), m_idx(dm, 1, 0));
            lemma_c_mul_wf(c_mul(m_idx(dm, 0, 0), m_idx(dm, 1, 1)),
                c_mul(m_idx(dm, 0, 1), m_idx(dm, 1, 0)));
            if i == 0 && j == 0 {
                lemma_cram_wf(dm, nm, 0, 0);
                lemma_div_pin_transport(u00@, det@, det2(dm), c00@, cramer2(dm, nm, 0, 0));
            } else if i == 0 && j == 1 {
                lemma_cram_wf(dm, nm, 0, 1);
                lemma_div_pin_transport(u01@, det@, det2(dm), c01@, cramer2(dm, nm, 0, 1));
            } else if i == 1 && j == 0 {
                lemma_cram_wf(dm, nm, 1, 0);
                lemma_div_pin_transport(u10@, det@, det2(dm), c10@, cramer2(dm, nm, 1, 0));
            } else {
                lemma_cram_wf(dm, nm, 1, 1);
                lemma_div_pin_transport(u11@, det@, det2(dm), c11@, cramer2(dm, nm, 1, 1));
            }
        }
        assert(pade6_solution(u@, x@, nm, dm));
    }
    Ok(u)
}

/// Cramer's numerators are well formed.
proof fn lemma_cram_wf(dm: Mv, nm: Mv, i: int, j: int)
    requires
        m_wf(dm),
        m_wf(nm),
        dm.rows == 2,
        dm.cols == 2,
        nm.rows == 2,
        nm.cols == 2,
        0 <= i < 2,
        0 <= j < 2,
    ensures
        c_wf(cramer2(dm, nm, i, j)),
{
    crate::matrix::lemma_rc_index(0, 0, 2, 2);
    crate::matrix::lemma_rc_index(0, 1, 2, 2);
    crate::matrix::lemma_rc_index(1, 0, 2, 2);
    crate::matrix::lemma_rc_index(1, 1, 2, 2);
    crate::matrix::lemma_rc_index(0, j, 2, 2);
    crate::matrix::lemma_rc_index(1, j, 2, 2);
    lemma_c_mul_wf(m_idx(dm, 1, 1), m_idx(nm, 0, j));
    lemma_c_mul_wf(m_idx(dm, 0, 1), m_idx(nm, 1, j));
    lemma_c_mul_wf(c_mul(m_idx(dm, 1, 1), m_idx(nm, 0, j)),
        c_mul(m_idx(dm, 0, 1), m_idx(nm, 1, j)));
    lemma_c_mul_wf(m_idx(dm, 0, 0), m_idx(nm, 1, j));
    lemma_c_mul_wf(m_idx(dm, 1, 0), m_idx(nm, 0, j));
    lemma_c_mul_wf(c_mul(m_idx(dm, 0, 0), m_idx(nm, 1, j)),
        c_mul(m_idx(dm, 1, 0), m_idx(nm, 0, j)));
}

/// A value-equal pair of scalars is zero together.
proof fn lemma_det_nonzero(a: Cv, b: Cv)
    requires
        c_wf(a),
        c_wf(b),
        c_eq(a, b),
        !(a.re.n == 0 && a.im.n == 0),
    ensures
        !(b.re.n == 0 && b.im.n == 0),
{
    if b.re.n == 0 && b.im.n == 0 {
        assert(a.re.n == 0) by (nonlinear_arith)
            requires
                a.re.n * b.re.d == b.re.n * a.re.d,
                b.re.n == 0,
                b.re.d >= 1,
        ;
        assert(a.im.n == 0) by (nonlinear_arith)
            requires
                a.im.n * b.im.d == b.im.n * a.im.d,
                b.im.n == 0,
                b.im.d >= 1,
        ;
    }
}

/// The combination a*b - c*d of four scalars, with its exact value.
fn mul_sub(a: &Complex, b: &Complex, c: &Complex, d: &Complex)
    -> (r: Result<Complex, KernelError>)
    requires
        a.wf(),
        b.wf(),
        c.wf(),
        d.wf(),
    ensures
        r matches Ok(v) ==> v.wf()
            && c_eq(v@, c_sub(c_mul(a@, b@), c_mul(c@, d@))),
        r matches Err(e) ==> e == KernelError::NumericalError,
{
    let t1 = match a.mul(b) {
        Ok(v) => v,
        Err(e) => { return Err(e); },
    };
    let t2 = match c.mul(d) {
        Ok(v) => v,
        Err(e) => { return Err(e); },
    };
    let v = match t1.sub(&t2) {
        Ok(v) => v,
        Err(e) => { return Err(e); },
    };
    proof {
        crate::rational::lemma_q_sub_congruence(t1@.re, t2@.re,
            c_mul(a@, b@).re, c_mul(c@, d@).re);
        crate::rational::lemma_q_sub_congruence(t1@.im, t2@.im,
            c_mul(a@, b@).im, c_mul(c@, d@).im);
        crate::rational::lemma_q_ops_wf(t1@.re, t2@.re);
        crate::rational::lemma_q_ops_wf(t1@.im, t2@.im);
        crate::rational::lemma_q_eq_trans(v@.re, q_sub(t1@.re, t2@.re),
            c_sub(c_mul(a@, b@), c_mul(c@, d@)).re);
        crate::rational::lemma_q_eq_trans(v@.im, q_sub(t1@.im, t2@.im),
            c_sub(c_mul(a@, b@), c_mul(c@, d@)).im);
    }
    Ok(v)
}


// ---------------------------------------------------------------------
// Dominant-eigenvector selection.
// ---------------------------------------------------------------------

/// |a| >= |b| as exact values: |a.n| * b.d >= |b.n| * a.d.
pub open spec fn q_abs_ge(a: Qv, b: Qv) -> bool {
    crate::rational::q_iabs(a.n) * b.d >= crate::rational::q_iabs(b.n) * a.d
}

/// Compares two scalars by magnitude; exact, with success owed to small
/// operands.
fn abs_ge(a: &Rational, b: &Rational) -> (r: Result<bool, KernelError>)
    requires
        a.wf(),
        b.wf(),
    ensures
        r matches Ok(x) ==> (x <==> q_abs_ge(a@, b@)),
        r matches Err(e) ==> e == KernelError::NumericalError,
        crate::rational::q_small(a@) && crate::rational::q_small(b@) ==> r is Ok,
    {
    let na: i128 = a.numerator();
    let nb: i128 = b.numerator();
    let ma: i128 = if na < 0 { -na } else { na };
    let mb: i128 = if nb < 0 { -nb } else { nb };
    proof {
        if crate::rational::q_small(a@) && crate::rational::q_small(b@) {
            crate::rational::lemma_abs_mul_bound(ma as int, b@.d,
                0x7fff_ffff_ffff_ffff);
            crate::rational::lemma_abs_mul_bound(mb as int, a@.d,
                0x7fff_ffff_ffff_ffff);
        }
    }
    let lhs: i128 = match ma.checked_mul(b.denominator()) {
        Some(v) => v,
        None => { return Err(KernelError::NumericalError); },
    };
    let rhs: i128 = match mb.checked_mul(a.denominator()) {
        Some(v) => v,
        None => { return Err(KernelError::NumericalError); },
    };
    Ok(lhs >= rhs)
}

/// The index of the entry of largest magnitude, the lowest index winning
/// ties: the deterministic pick of the dominant eigenvalue from an
/// eigensolver's output. An empty list is a `DomainError`.
pub fn dominant_index(values: &Vec<Rational>) -> (r: Result<usize, KernelError>)
    requires
        forall|i: int| 0 <= i < values@.len() ==> (#[trigger] values@[i]).wf(),
    ensures
        values@.len() == 0 <==> (r matches Err(e) && e == KernelError::DomainError),
        r matches Ok(i) ==> (i as int) < values@.len()
            && (forall|j: int| 0 <= j < values@.len()
                ==> q_abs_ge(values@[i as int]@, (#[trigger] values@[j])@))
            && (forall|j: int| 0 <= j < i as int
                ==> !q_abs_ge((#[trigger] values@[j])@, values@[i as int]@)),
        (forall|i: int| 0 <= i < values@.len()
            ==> crate::rational::q_small((#[trigger] values@[i])@))
            && values@.len() > 0 ==> r is Ok,
    {
    if values.len() == 0 {
        return Err(KernelError::DomainError);
    }
    let mut best: usize = 0;
    let mut k: usize = 1;
    while k < values.len()
        invariant
            forall|i: int| 0 <= i < values@.len() ==> (#[trigger] values@[i]).wf(),
            values@.len() >= 1,
            best < k,
            1 <= k <= values@.len(),
            forall|j: int| 0 <= j < k
                ==> q_abs_ge(values@[best as int]@, (#[trigger] values@[j])@),
            forall|j: int| 0 <= j < best as int
                ==> !q_abs_ge((#[trigger] values@[j])@, values@[best as int]@),
        decreases values@.len() - k,
    {
        let keep = match abs_ge(&values[best], &values[k]) {
            Ok(x) => x,
            Err(e) => { return Err(e); },
        };
        if keep {
            proof {
                assert(q_abs_ge(values@[best as int]@, values@[k as int]@));
            }
        } else {
            proof {
                let old_best = best as int;
                let nk = k as int;
                assert(!q_abs_ge(values@[old_best]@, values@[nk]@));
                assert forall|j: int| 0 <= j < nk + 1
                    implies q_abs_ge(values@[nk]@, (#[trigger] values@[j])@) by {
                    if j < nk {
                        // |v_k| > |v_best| >= |v_j|.
                        let x1 = crate::rational::q_iabs(values@[nk]@.n);
                        let x2 = crate::rational::q_iabs(values@[old_best]@.n);
                        let x3 = crate::rational::q_iabs(values@[j]@.n);
                        assert(x1 * values@[j]@.d >= x3 * values@[nk]@.d)
                            by (nonlinear_arith)
                            requires
                                x2 * values@[nk]@.d < x1 * values@[old_best]@.d,
                                x2 * values@[j]@.d >= x3 * values@[old_best]@.d,
                                values@[nk]@.d >= 1,
                                values@[old_best]@.d >= 1,
                                values@[j]@.d >= 1,
                                x1 >= 0,
                                x2 >= 0,
                                x3 >= 0,
                        ;
                    } else {
                        assert(q_abs_ge(values@[nk]@, values@[nk]@));
                    }
                }
                assert forall|j: int| 0 <= j < nk
                    implies !q_abs_ge((#[trigger] values@[j])@, values@[nk]@) by {
                    let x1 = crate::rational::q_iabs(values@[j]@.n);
                    let x2 = crate::rational::q_iabs(values@[old_best]@.n);
                    let x3 = crate::rational::q_iabs(values@[nk]@.n);
                    assert(x1 * values@[nk]@.d < x3 * values@[j]@.d)
                        by (nonlinear_arith)
                        requires
                            x2 * values@[nk]@.d < x3 * values@[old_best]@.d,
                            x2 * values@[j]@.d >= x1 * values@[old_best]@.d,
                            values@[nk]@.d >= 1,
                            values@[old_best]@.d >= 1,
                            values@[j]@.d >= 1,
                            x1 >= 0,
                            x2 >= 0,
                            x3 >= 0,
                    ;
                }
            }
            best = k;
        }
        k = k + 1;
    }
    Ok(best)
}

/// Picks the column of `vectors` at the dominant index of `values` and
/// normalizes it: the collapse of a marginal onto its leading pure
/// state, given an eigensolver's eigenvalues and eigenvector columns.
pub fn dominant_state(values: &Vec<Rational>, vectors: &Matrix)
    -> (r: Result<(usize, Vector), KernelError>)
    requires
        forall|i: int| 0 <= i < values@.len() ==> (#[trigger] values@[i]).wf(),
        vectors.wf(),
        values@.len() == vectors@.cols,
    ensures
        r matches Ok(p) ==> (p.0 as int) < values@.len()
            && (forall|j: int| 0 <= j < values@.len()
                ==> q_abs_ge(values@[p.0 as int]@, (#[trigger] values@[j])@))
            && (forall|j: int| 0 <= j < p.0 as int
                ==> !q_abs_ge((#[trigger] values@[j])@, values@[p.0 as int]@))
            && p.1.wf() && p.1@.len() == vectors@.rows
            && (exists|sc: Qv| q_wf(sc) && sc.n > 0
                && (forall|t: int| 0 <= t < p.1@.len()
                    ==> c_eq(#[trigger] crate::complex::c_scale(sc, p.1@[t]),
                        m_idx(vectors@, t, p.0 as int)))),
    {
    let i = match dominant_index(values) {
        Ok(v) => v,
        Err(e) => { return Err(e); },
    };
    let rows: usize = vectors.rows();
    let mut entries: Vec<Complex> = Vec::new();
    let mut t: usize = 0;
    while t < rows
        invariant
            vectors.wf(),
            rows as int == vectors@.rows,
            (i as int) < vectors@.cols,
            t <= rows,
            entries@.len() == t as int,
            forall|u: int| 0 <= u < t ==> (#[trigger] entries@[u]).wf()
                && entries@[u]@ == m_idx(vectors@, u, i as int),
        decreases rows - t,
    {
        let e = match vectors.get(t, i) {
            Ok(v) => v,
            Err(_) => { return Err(KernelError::NumericalError); },
        };
        entries.push(e);
        t = t + 1;
    }
    let col = Vector::from_entries(entries);
    let w = match col.normalize() {
        Ok(v) => v,
        Err(e) => { return Err(e); },
    };
    proof {
        let sc = choose|sc: Qv| q_wf(sc) && sc.n > 0
            && q_eq(q_mul(sc, sc), crate::vector::v_norm2(col@))
            && (forall|u: int| 0 <= u < col@.len()
                ==> c_eq(#[trigger] crate::complex::c_scale(sc, w@[u]), col@[u]));
        assert forall|u: int| 0 <= u < w@.len()
            implies c_eq(#[trigger] crate::complex::c_scale(sc, w@[u]),
                m_idx(vectors@, u, i as int)) by {
            assert(c_eq(crate::complex::c_scale(sc, w@[u]), col@[u]));
            assert(col@[u] == m_idx(vectors@, u, i as int));
        }
    }
    Ok((i, w))
}

} // verus!