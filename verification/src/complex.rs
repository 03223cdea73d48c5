use vstd::prelude::*;
use crate::errors::KernelError;
use crate::rational::{
    Rational, Qv, q_eq, q_add, q_sub, q_mul, q_neg, q_zero, q_one, q_from_int,
    q_small, q_valid, q_int_bnd, q_bnd, lemma_q_add_congruence,
    lemma_q_sub_congruence, lemma_q_mul_congruence,
};
use vstd::arithmetic::mul::lemma_mul_nonnegative;

verus! {

/// Mathematical model of a complex scalar: an exact real and imaginary
/// part.
pub struct Cv {
    pub re: Qv,
    pub im: Qv,
}

pub open spec fn c_wf(c: Cv) -> bool {
    c.re.d >= 1 && c.im.d >= 1
}

/// Value equality of two complex models.
pub open spec fn c_eq(a: Cv, b: Cv) -> bool {
    q_eq(a.re, b.re) && q_eq(a.im, b.im)
}

pub open spec fn c_zero() -> Cv {
    Cv { re: q_zero(), im: q_zero() }
}

pub open spec fn c_one() -> Cv {
    Cv { re: q_one(), im: q_zero() }
}

pub open spec fn c_from_int(i: int) -> Cv {
    Cv { re: q_from_int(i), im: q_zero() }
}

pub open spec fn c_add(a: Cv, b: Cv) -> Cv {
    Cv { re: q_add(a.re, b.re), im: q_add(a.im, b.im) }
}

pub open spec fn c_sub(a: Cv, b: Cv) -> Cv {
    Cv { re: q_sub(a.re, b.re), im: q_sub(a.im, b.im) }
}

/// (a + bi)(c + di) = (ac - bd) + (ad + bc)i.
pub open spec fn c_mul(a: Cv, b: Cv) -> Cv {
    Cv {
        re: q_sub(q_mul(a.re, b.re), q_mul(a.im, b.im)),
        im: q_add(q_mul(a.re, b.im), q_mul(a.im, b.re)),
    }
}

pub open spec fn c_neg(a: Cv) -> Cv {
    Cv { re: q_neg(a.re), im: q_neg(a.im) }
}

pub open spec fn c_conj(a: Cv) -> Cv {
    Cv { re: a.re, im: q_neg(a.im) }
}

/// Scaling by a real scalar.
pub open spec fn c_scale(s: Qv, a: Cv) -> Cv {
    Cv { re: q_mul(s, a.re), im: q_mul(s, a.im) }
}

/// The squared modulus |a|^2 = re^2 + im^2, an exact real scalar.
pub open spec fn c_abs2(a: Cv) -> Qv {
    q_add(q_mul(a.re, a.re), q_mul(a.im, a.im))
}

pub open spec fn c_small(a: Cv) -> bool {
    q_small(a.re) && q_small(a.im)
}

pub open spec fn c_valid(a: Cv) -> bool {
    q_valid(a.re) && q_valid(a.im)
}

/// An integer-valued complex model with both components bounded by `b`
/// in magnitude.
pub open spec fn c_int_bnd(a: Cv, b: int) -> bool {
    q_int_bnd(a.re, b) && q_int_bnd(a.im, b)
}

/// A complex model whose stored component parts are all bounded by `b`.
pub open spec fn c_bnd(a: Cv, b: int) -> bool {
    q_bnd(a.re, b) && q_bnd(a.im, b)
}

/// Complex value equality is transitive across a well-formed middle term.
pub proof fn lemma_c_eq_trans(a: Cv, b: Cv, c: Cv)
    requires
        c_wf(b),
        c_eq(a, b),
        c_eq(b, c),
    ensures
        c_eq(a, c),
{
    crate::rational::lemma_q_eq_trans(a.re, b.re, c.re);
    crate::rational::lemma_q_eq_trans(a.im, b.im, c.im);
}

/// Complex addition respects value equality.
pub proof fn lemma_c_add_congruence(a: Cv, b: Cv, a2: Cv, b2: Cv)
    requires
        c_eq(a, a2),
        c_eq(b, b2),
    ensures
        c_eq(c_add(a, b), c_add(a2, b2)),
{
    lemma_q_add_congruence(a.re, b.re, a2.re, b2.re);
    lemma_q_add_congruence(a.im, b.im, a2.im, b2.im);
}

/// Complex multiplication respects value equality.
pub proof fn lemma_c_mul_congruence(a: Cv, b: Cv, a2: Cv, b2: Cv)
    requires
        c_eq(a, a2),
        c_eq(b, b2),
    ensures
        c_eq(c_mul(a, b), c_mul(a2, b2)),
{
    lemma_q_mul_congruence(a.re, b.re, a2.re, b2.re);
    lemma_q_mul_congruence(a.im, b.im, a2.im, b2.im);
    lemma_q_mul_congruence(a.re, b.im, a2.re, b2.im);
    lemma_q_mul_congruence(a.im, b.re, a2.im, b2.re);
    lemma_q_sub_congruence(q_mul(a.re, b.re), q_mul(a.im, b.im),
        q_mul(a2.re, b2.re), q_mul(a2.im, b2.im));
    lemma_q_add_congruence(q_mul(a.re, b.im), q_mul(a.im, b.re),
        q_mul(a2.re, b2.im), q_mul(a2.im, b2.re));
}

/// A complex scalar with exact fraction components. It stands in for the
/// two floating-point components of the simulations' complex numbers.
#[derive(Clone, Copy, Debug)]
pub struct Complex {
    re: Rational,
    im: Rational,
}

impl View for Complex {
    type V = Cv;

    closed spec fn view(&self) -> Cv {
        Cv { re: self.re@, im: self.im@ }
    }
}

impl Complex {
    pub open spec fn wf(&self) -> bool {
        c_valid(self@)
    }

    /// Builds a complex scalar from its parts.
    pub fn new(re: Rational, im: Rational) -> (r: Complex)
        requires
            re.wf(),
            im.wf(),
        ensures
            r.wf(),
            r@ == (Cv { re: re@, im: im@ }),
    {
        Complex { re, im }
    }

    /// The zero scalar.
    pub fn zero() -> (r: Complex)
        ensures
            r.wf(),
            r@ == c_zero(),
    {
        Complex { re: Rational::from_int(0), im: Rational::from_int(0) }
    }

    /// The unit scalar.
    pub fn one() -> (r: Complex)
        ensures
            r.wf(),
            r@ == c_one(),
    {
        Complex { re: Rational::from_int(1), im: Rational::from_int(0) }
    }

    /// The exact integer `i`, as a complex scalar.
    pub fn from_int(i: i64) -> (r: Complex)
        ensures
            r.wf(),
            r@ == c_from_int(i as int),
    {
        Complex { re: Rational::from_int(i), im: Rational::from_int(0) }
    }

    /// The real part.
    pub fn re(&self) -> (r: Rational)
        requires
            self.wf(),
        ensures
            r.wf(),
            r@ == self@.re,
    {
        self.re
    }

    /// The imaginary part.
    pub fn im(&self) -> (r: Rational)
        requires
            self.wf(),
        ensures
            r.wf(),
            r@ == self@.im,
    {
        self.im
    }

    /// True exactly when both parts are zero.
    pub fn is_zero(&self) -> (z: bool)
        requires
            self.wf(),
        ensures
            z <==> (self@.re.n == 0 && self@.im.n == 0),
    {
        self.re.is_zero() && self.im.is_zero()
    }

    /// The complex conjugate; exact and total.
    pub fn conj(&self) -> (r: Complex)
        requires
            self.wf(),
        ensures
            r.wf(),
            r@ == c_conj(self@),
    {
        Complex { re: self.re, im: self.im.neg() }
    }

    /// Exact negation; total.
    pub fn neg(&self) -> (r: Complex)
        requires
            self.wf(),
        ensures
            r.wf(),
            r@ == c_neg(self@),
    {
        Complex { re: self.re.neg(), im: self.im.neg() }
    }

    /// Exact addition. Success is owed to small operands, and to
    /// integer-valued operands whose exact sums are representable.
    pub fn add(&self, other: &Complex) -> (r: Result<Complex, KernelError>)
        requires
            self.wf(),
            other.wf(),
        ensures
            r matches Ok(v) ==> v.wf() && c_eq(v@, c_add(self@, other@)),
            r matches Err(e) ==> e == KernelError::NumericalError,
            c_small(self@) && c_small(other@) ==> r is Ok,
            forall|b1: int, b2: int|
                #![trigger c_int_bnd(self@, b1), c_int_bnd(other@, b2)]
                0 <= b1 && 0 <= b2 && c_int_bnd(self@, b1) && c_int_bnd(other@, b2)
                    && b1 + b2 <= 0x7fff_ffff_ffff_ffff_ffff_ffff_ffff_ffff
                ==> (r matches Ok(v) && v@ == c_add(self@, other@)
                    && c_int_bnd(v@, b1 + b2)),
            forall|b1: int, b2: int|
                #![trigger c_bnd(self@, b1), c_bnd(other@, b2)]
                1 <= b1 && 1 <= b2 && c_bnd(self@, b1) && c_bnd(other@, b2)
                    && 2 * (b1 * b2) <= 0x7fff_ffff_ffff_ffff_ffff_ffff_ffff_ffff
                ==> (r matches Ok(v) && c_bnd(v@, 2 * (b1 * b2))),
    {
        let re = match self.re.add(&other.re) {
            Ok(v) => v,
            Err(e) => {
                proof {
                    assert forall|b1: int, b2: int|
                        #![trigger c_int_bnd(self@, b1), c_int_bnd(other@, b2)]
                        0 <= b1 && 0 <= b2 && c_int_bnd(self@, b1)
                            && c_int_bnd(other@, b2) && b1 + b2 <= 0x7fff_ffff_ffff_ffff_ffff_ffff_ffff_ffff
                        implies false by {
                        assert(q_int_bnd(self@.re, b1));
                        assert(q_int_bnd(other@.re, b2));
                    }
                    assert forall|b1: int, b2: int|
                        #![trigger c_bnd(self@, b1), c_bnd(other@, b2)]
                        1 <= b1 && 1 <= b2 && c_bnd(self@, b1) && c_bnd(other@, b2)
                    && 2 * (b1 * b2) <= 0x7fff_ffff_ffff_ffff_ffff_ffff_ffff_ffff
                        implies false by {
                        assert(q_bnd(self@.re, b1));
                        assert(q_bnd(other@.re, b2));
                    }
                }
                return Err(e);
            },
        };
        let im = match self.im.add(&other.im) {
            Ok(v) => v,
            Err(e) => {
                proof {
                    assert forall|b1: int, b2: int|
                        #![trigger c_int_bnd(self@, b1), c_int_bnd(other@, b2)]
                        0 <= b1 && 0 <= b2 && c_int_bnd(self@, b1)
                            && c_int_bnd(other@, b2) && b1 + b2 <= 0x7fff_ffff_ffff_ffff_ffff_ffff_ffff_ffff
                        implies false by {
                        assert(q_int_bnd(self@.im, b1));
                        assert(q_int_bnd(other@.im, b2));
                    }
                    assert forall|b1: int, b2: int|
                        #![trigger c_bnd(self@, b1), c_bnd(other@, b2)]
                        1 <= b1 && 1 <= b2 && c_bnd(self@, b1) && c_bnd(other@, b2)
                    && 2 * (b1 * b2) <= 0x7fff_ffff_ffff_ffff_ffff_ffff_ffff_ffff
                        implies false by {
                        assert(q_bnd(self@.im, b1));
                        assert(q_bnd(other@.im, b2));
                    }
                }
                return Err(e);
            },
        };
        let v = Complex { re, im };
        proof {
            assert forall|b1: int, b2: int|
                #![trigger c_int_bnd(self@, b1), c_int_bnd(other@, b2)]
                0 <= b1 && 0 <= b2 && c_int_bnd(self@, b1) && c_int_bnd(other@, b2)
                    && b1 + b2 <= 0x7fff_ffff_ffff_ffff_ffff_ffff_ffff_ffff
                implies v@ == c_add(self@, other@) && c_int_bnd(v@, b1 + b2) by {
                assert(q_int_bnd(self@.re, b1));
                assert(q_int_bnd(other@.re, b2));
                assert(q_int_bnd(self@.im, b1));
                assert(q_int_bnd(other@.im, b2));
            }
            assert forall|b1: int, b2: int|
                #![trigger c_bnd(self@, b1), c_bnd(other@, b2)]
                1 <= b1 && 1 <= b2 && c_bnd(self@, b1) && c_bnd(other@, b2)
                    && 2 * (b1 * b2) <= 0x7fff_ffff_ffff_ffff_ffff_ffff_ffff_ffff
                implies c_bnd(v@, 2 * (b1 * b2)) by {
                assert(q_bnd(self@.re, b1));
                assert(q_bnd(other@.re, b2));
                assert(q_bnd(self@.im, b1));
                assert(q_bnd(other@.im, b2));
            }
        }
        Ok(v)
    }

    /// Exact subtraction. Success is owed to small operands, and to
    /// integer-valued operands whose exact differences are representable.
    pub fn sub(&self, other: &Complex) -> (r: Result<Complex, KernelError>)
        requires
            self.wf(),
            other.wf(),
        ensures
            r matches Ok(v) ==> v.wf() && c_eq(v@, c_sub(self@, other@)),
            r matches Err(e) ==> e == KernelError::NumericalError,
            c_small(self@) && c_small(other@) ==> r is Ok,
            forall|b1: int, b2: int|
                #![trigger c_int_bnd(self@, b1), c_int_bnd(other@, b2)]
                0 <= b1 && 0 <= b2 && c_int_bnd(self@, b1) && c_int_bnd(other@, b2)
                    && b1 + b2 <= 0x7fff_ffff_ffff_ffff_ffff_ffff_ffff_ffff
                ==> (r matches Ok(v) && v@ == c_sub(self@, other@)
                    && c_int_bnd(v@, b1 + b2)),
    {
        let re = match self.re.sub(&other.re) {
            Ok(v) => v,
            Err(e) => {
                proof {
                    assert forall|b1: int, b2: int|
                        #![trigger c_int_bnd(self@, b1), c_int_bnd(other@, b2)]
                        0 <= b1 && 0 <= b2 && c_int_bnd(self@, b1)
                            && c_int_bnd(other@, b2) && b1 + b2 <= 0x7fff_ffff_ffff_ffff_ffff_ffff_ffff_ffff
                        implies false by {
                        assert(q_int_bnd(self@.re, b1));
                        assert(q_int_bnd(other@.re, b2));
                    }
                }
                return Err(e);
            },
        };
        let im = match self.im.sub(&other.im) {
            Ok(v) => v,
            Err(e) => {
                proof {
                    assert forall|b1: int, b2: int|
                        #![trigger c_int_bnd(self@, b1), c_int_bnd(other@, b2)]
                        0 <= b1 && 0 <= b2 && c_int_bnd(self@, b1)
                            && c_int_bnd(other@, b2) && b1 + b2 <= 0x7fff_ffff_ffff_ffff_ffff_ffff_ffff_ffff
                        implies false by {
                        assert(q_int_bnd(self@.im, b1));
                        assert(q_int_bnd(other@.im, b2));
                    }
                }
                return Err(e);
            },
        };
        let v = Complex { re, im };
        proof {
            assert forall|b1: int, b2: int|
                #![trigger c_int_bnd(self@, b1), c_int_bnd(other@, b2)]
                0 <= b1 && 0 <= b2 && c_int_bnd(self@, b1) && c_int_bnd(other@, b2)
                    && b1 + b2 <= 0x7fff_ffff_ffff_ffff_ffff_ffff_ffff_ffff
                implies v@ == c_sub(self@, other@) && c_int_bnd(v@, b1 + b2) by {
                assert(q_int_bnd(self@.re, b1));
                assert(q_int_bnd(other@.re, b2));
                assert(q_int_bnd(self@.im, b1));
                assert(q_int_bnd(other@.im, b2));
            }
        }
        Ok(v)
    }

    /// Exact complex multiplication. Success is owed to integer-valued
    /// operands whose component products and their sums are
    /// representable.
    pub fn mul(&self, other: &Complex) -> (r: Result<Complex, KernelError>)
        requires
            self.wf(),
            other.wf(),
        ensures
            r matches Ok(v) ==> v.wf() && c_eq(v@, c_mul(self@, other@)),
            r matches Err(e) ==> e == KernelError::NumericalError,
            forall|b1: int, b2: int|
                #![trigger c_int_bnd(self@, b1), c_int_bnd(other@, b2)]
                0 <= b1 && 0 <= b2 && c_int_bnd(self@, b1) && c_int_bnd(other@, b2)
                    && 2 * (b1 * b2) <= 0x7fff_ffff_ffff_ffff_ffff_ffff_ffff_ffff
                ==> (r matches Ok(v) && v@ == c_mul(self@, other@)
                    && c_int_bnd(v@, 2 * (b1 * b2))),
            forall|b1: int, b2: int|
                #![trigger c_bnd(self@, b1), c_bnd(other@, b2)]
                1 <= b1 && 1 <= b2 && c_bnd(self@, b1) && c_bnd(other@, b2)
                    && 2 * ((b1 * b2) * (b1 * b2)) <= 0x7fff_ffff_ffff_ffff_ffff_ffff_ffff_ffff
                ==> (r matches Ok(v) && c_bnd(v@, 2 * ((b1 * b2) * (b1 * b2)))),
    {
        proof {
            assert forall|b1: int, b2: int|
                #![trigger c_int_bnd(self@, b1), c_int_bnd(other@, b2)]
                0 <= b1 && 0 <= b2 && c_int_bnd(self@, b1) && c_int_bnd(other@, b2)
                    && 2 * (b1 * b2) <= 0x7fff_ffff_ffff_ffff_ffff_ffff_ffff_ffff
                implies 0 <= b1 * b2 && b1 * b2 <= 0x7fff_ffff_ffff_ffff_ffff_ffff_ffff_ffff by {
                lemma_mul_nonnegative(b1, b2);
            }
            assert forall|b1: int, b2: int|
                #![trigger c_bnd(self@, b1), c_bnd(other@, b2)]
                1 <= b1 && 1 <= b2 && c_bnd(self@, b1) && c_bnd(other@, b2)
                    && 2 * ((b1 * b2) * (b1 * b2)) <= 0x7fff_ffff_ffff_ffff_ffff_ffff_ffff_ffff
                implies 1 <= b1 * b2 && b1 * b2 <= 0x7fff_ffff_ffff_ffff_ffff_ffff_ffff_ffff
                    && (b1 * b2) * (b1 * b2) <= 0x7fff_ffff_ffff_ffff_ffff_ffff_ffff_ffff
                    && (b1 * b2) + (b1 * b2) <= 2 * (b1 * b2)
                    && 2 * ((b1 * b2) * (b1 * b2)) <= 0x7fff_ffff_ffff_ffff_ffff_ffff_ffff_ffff by {
                assert(1 * 1 <= b1 * b2) by (nonlinear_arith)
                    requires
                        1 <= b1,
                        1 <= b2,
                ;
                assert((b1 * b2) * 1 <= (b1 * b2) * (b1 * b2)) by (nonlinear_arith)
                    requires
                        1 <= b1 * b2,
                ;
            }
        }
        let t1 = match self.re.mul(&other.re) {
            Ok(v) => v,
            Err(e) => {
                proof {
                    assert forall|b1: int, b2: int|
                        #![trigger c_int_bnd(self@, b1), c_int_bnd(other@, b2)]
                        0 <= b1 && 0 <= b2 && c_int_bnd(self@, b1)
                            && c_int_bnd(other@, b2) && 2 * (b1 * b2) <= 0x7fff_ffff_ffff_ffff_ffff_ffff_ffff_ffff
                        implies false by {
                        lemma_mul_nonnegative(b1, b2);
                        assert(q_int_bnd(self@.re, b1));
                        assert(q_int_bnd(other@.re, b2));
                    }
                    assert forall|b1: int, b2: int|
                        #![trigger c_bnd(self@, b1), c_bnd(other@, b2)]
                        1 <= b1 && 1 <= b2 && c_bnd(self@, b1) && c_bnd(other@, b2)
                            && 2 * ((b1 * b2) * (b1 * b2)) <= 0x7fff_ffff_ffff_ffff_ffff_ffff_ffff_ffff
                        implies false by {
                        assert(1 * 1 <= b1 * b2) by (nonlinear_arith)
                            requires
                                1 <= b1,
                                1 <= b2,
                        ;
                        assert((b1 * b2) * 1 <= (b1 * b2) * (b1 * b2)) by (nonlinear_arith)
                            requires
                                1 <= b1 * b2,
                        ;
                        assert(q_bnd(self@.re, b1));
                        assert(q_bnd(other@.re, b2));
                    }
                }
                return Err(e);
            },
        };
        let t2 = match self.im.mul(&other.im) {
            Ok(v) => v,
            Err(e) => {
                proof {
                    assert forall|b1: int, b2: int|
                        #![trigger c_int_bnd(self@, b1), c_int_bnd(other@, b2)]
                        0 <= b1 && 0 <= b2 && c_int_bnd(self@, b1)
                            && c_int_bnd(other@, b2) && 2 * (b1 * b2) <= 0x7fff_ffff_ffff_ffff_ffff_ffff_ffff_ffff
                        implies false by {
                        lemma_mul_nonnegative(b1, b2);
                        assert(q_int_bnd(self@.im, b1));
                        assert(q_int_bnd(other@.im, b2));
                    }
                    assert forall|b1: int, b2: int|
                        #![trigger c_bnd(self@, b1), c_bnd(other@, b2)]
                        1 <= b1 && 1 <= b2 && c_bnd(self@, b1) && c_bnd(other@, b2)
                            && 2 * ((b1 * b2) * (b1 * b2)) <= 0x7fff_ffff_ffff_ffff_ffff_ffff_ffff_ffff
                        implies false by {
                        assert(1 * 1 <= b1 * b2) by (nonlinear_arith)
                            requires
                                1 <= b1,
                                1 <= b2,
                        ;
                        assert((b1 * b2) * 1 <= (b1 * b2) * (b1 * b2)) by (nonlinear_arith)
                            requires
                                1 <= b1 * b2,
                        ;
                        assert(q_bnd(self@.im, b1));
                        assert(q_bnd(other@.im, b2));
                    }
                }
                return Err(e);
            },
        };
        let t3 = match self.re.mul(&other.im) {
            Ok(v) => v,
            Err(e) => {
                proof {
                    assert forall|b1: int, b2: int|
                        #![trigger c_int_bnd(self@, b1), c_int_bnd(other@, b2)]
                        0 <= b1 && 0 <= b2 && c_int_bnd(self@, b1)
                            && c_int_bnd(other@, b2) && 2 * (b1 * b2) <= 0x7fff_ffff_ffff_ffff_ffff_ffff_ffff_ffff
                        implies false by {
                        lemma_mul_nonnegative(b1, b2);
                        assert(q_int_bnd(self@.re, b1));
                        assert(q_int_bnd(other@.im, b2));
                    }
                    assert forall|b1: int, b2: int|
                        #![trigger c_bnd(self@, b1), c_bnd(other@, b2)]
                        1 <= b1 && 1 <= b2 && c_bnd(self@, b1) && c_bnd(other@, b2)
                            && 2 * ((b1 * b2) * (b1 * b2)) <= 0x7fff_ffff_ffff_ffff_ffff_ffff_ffff_ffff
                        implies false by {
                        assert(1 * 1 <= b1 * b2) by (nonlinear_arith)
                            requires
                                1 <= b1,
                                1 <= b2,
                        ;
                        assert((b1 * b2) * 1 <= (b1 * b2) * (b1 * b2)) by (nonlinear_arith)
                            requires
                                1 <= b1 * b2,
                        ;
                        assert(q_bnd(self@.re, b1));
                        assert(q_bnd(other@.im, b2));
                    }
                }
                return Err(e);
            },
        };
        let t4 = match self.im.mul(&other.re) {
            Ok(v) => v,
            Err(e) => {
                proof {
                    assert forall|b1: int, b2: int|
                        #![trigger c_int_bnd(self@, b1), c_int_bnd(other@, b2)]
                        0 <= b1 && 0 <= b2 && c_int_bnd(self@, b1)
                            && c_int_bnd(other@, b2) && 2 * (b1 * b2) <= 0x7fff_ffff_ffff_ffff_ffff_ffff_ffff_ffff
                        implies false by {
                        lemma_mul_nonnegative(b1, b2);
                        assert(q_int_bnd(self@.im, b1));
                        assert(q_int_bnd(other@.re, b2));
                    }
                    assert forall|b1: int, b2: int|
                        #![trigger c_bnd(self@, b1), c_bnd(other@, b2)]
                        1 <= b1 && 1 <= b2 && c_bnd(self@, b1) && c_bnd(other@, b2)
                            && 2 * ((b1 * b2) * (b1 * b2)) <= 0x7fff_ffff_ffff_ffff_ffff_ffff_ffff_ffff
                        implies false by {
                        assert(1 * 1 <= b1 * b2) by (nonlinear_arith)
                            requires
                                1 <= b1,
                                1 <= b2,
                        ;
                        assert((b1 * b2) * 1 <= (b1 * b2) * (b1 * b2)) by (nonlinear_arith)
                            requires
                                1 <= b1 * b2,
                        ;
                        assert(q_bnd(self@.im, b1));
                        assert(q_bnd(other@.re, b2));
                    }
                }
                return Err(e);
            },
        };
        let re = match t1.sub(&t2) {
            Ok(v) => v,
            Err(e) => {
                proof {
                    assert forall|b1: int, b2: int|
                        #![trigger c_int_bnd(self@, b1), c_int_bnd(other@, b2)]
                        0 <= b1 && 0 <= b2 && c_int_bnd(self@, b1)
                            && c_int_bnd(other@, b2) && 2 * (b1 * b2) <= 0x7fff_ffff_ffff_ffff_ffff_ffff_ffff_ffff
                        implies false by {
                        lemma_mul_nonnegative(b1, b2);
                        assert(q_int_bnd(self@.re, b1));
                        assert(q_int_bnd(other@.re, b2));
                        assert(q_int_bnd(self@.im, b1));
                        assert(q_int_bnd(other@.im, b2));
                        assert(q_int_bnd(t1@, b1 * b2));
                        assert(q_int_bnd(t2@, b1 * b2));
                        assert(b1 * b2 + b1 * b2 <= 0x7fff_ffff_ffff_ffff_ffff_ffff_ffff_ffff);
                    }
                    assert forall|b1: int, b2: int|
                        #![trigger c_bnd(self@, b1), c_bnd(other@, b2)]
                        1 <= b1 && 1 <= b2 && c_bnd(self@, b1) && c_bnd(other@, b2)
                            && 2 * ((b1 * b2) * (b1 * b2)) <= 0x7fff_ffff_ffff_ffff_ffff_ffff_ffff_ffff
                        implies false by {
                        assert(1 * 1 <= b1 * b2) by (nonlinear_arith)
                            requires
                                1 <= b1,
                                1 <= b2,
                        ;
                        assert((b1 * b2) * 1 <= (b1 * b2) * (b1 * b2)) by (nonlinear_arith)
                            requires
                                1 <= b1 * b2,
                        ;
                        assert(q_bnd(self@.re, b1));
                        assert(q_bnd(other@.re, b2));
                        assert(q_bnd(self@.im, b1));
                        assert(q_bnd(other@.im, b2));
                        assert(q_bnd(t1@, b1 * b2));
                        assert(q_bnd(t2@, b1 * b2));
                    }
                }
                return Err(e);
            },
        };
        let im = match t3.add(&t4) {
            Ok(v) => v,
            Err(e) => {
                proof {
                    assert forall|b1: int, b2: int|
                        #![trigger c_int_bnd(self@, b1), c_int_bnd(other@, b2)]
                        0 <= b1 && 0 <= b2 && c_int_bnd(self@, b1)
                            && c_int_bnd(other@, b2) && 2 * (b1 * b2) <= 0x7fff_ffff_ffff_ffff_ffff_ffff_ffff_ffff
                        implies false by {
                        lemma_mul_nonnegative(b1, b2);
                        assert(q_int_bnd(self@.re, b1));
                        assert(q_int_bnd(other@.re, b2));
                        assert(q_int_bnd(self@.im, b1));
                        assert(q_int_bnd(other@.im, b2));
                        assert(q_int_bnd(t3@, b1 * b2));
                        assert(q_int_bnd(t4@, b1 * b2));
                        assert(b1 * b2 + b1 * b2 <= 0x7fff_ffff_ffff_ffff_ffff_ffff_ffff_ffff);
                    }
                    assert forall|b1: int, b2: int|
                        #![trigger c_bnd(self@, b1), c_bnd(other@, b2)]
                        1 <= b1 && 1 <= b2 && c_bnd(self@, b1) && c_bnd(other@, b2)
                            && 2 * ((b1 * b2) * (b1 * b2)) <= 0x7fff_ffff_ffff_ffff_ffff_ffff_ffff_ffff
                        implies false by {
                        assert(1 * 1 <= b1 * b2) by (nonlinear_arith)
                            requires
                                1 <= b1,
                                1 <= b2,
                        ;
                        assert((b1 * b2) * 1 <= (b1 * b2) * (b1 * b2)) by (nonlinear_arith)
                            requires
                                1 <= b1 * b2,
                        ;
                        assert(q_bnd(self@.re, b1));
                        assert(q_bnd(other@.re, b2));
                        assert(q_bnd(self@.im, b1));
                        assert(q_bnd(other@.im, b2));
                        assert(q_bnd(t3@, b1 * b2));
                        assert(q_bnd(t4@, b1 * b2));
                    }
                }
                return Err(e);
            },
        };
        proof {
            assert forall|b1: int, b2: int|
                #![trigger c_int_bnd(self@, b1), c_int_bnd(other@, b2)]
                0 <= b1 && 0 <= b2 && c_int_bnd(self@, b1) && c_int_bnd(other@, b2)
                    && 2 * (b1 * b2) <= 0x7fff_ffff_ffff_ffff_ffff_ffff_ffff_ffff
                implies (Cv { re: re@, im: im@ }) == c_mul(self@, other@)
                    && c_int_bnd(Cv { re: re@, im: im@ }, 2 * (b1 * b2)) by {
                lemma_mul_nonnegative(b1, b2);
                assert(q_int_bnd(self@.re, b1));
                assert(q_int_bnd(other@.re, b2));
                assert(q_int_bnd(self@.im, b1));
                assert(q_int_bnd(other@.im, b2));
                assert(q_int_bnd(t1@, b1 * b2));
                assert(q_int_bnd(t2@, b1 * b2));
                assert(q_int_bnd(t3@, b1 * b2));
                assert(q_int_bnd(t4@, b1 * b2));
                assert(b1 * b2 + b1 * b2 <= 0x7fff_ffff_ffff_ffff_ffff_ffff_ffff_ffff);
            }
            assert forall|b1: int, b2: int|
                #![trigger c_bnd(self@, b1), c_bnd(other@, b2)]
                1 <= b1 && 1 <= b2 && c_bnd(self@, b1) && c_bnd(other@, b2)
                    && 2 * ((b1 * b2) * (b1 * b2)) <= 0x7fff_ffff_ffff_ffff_ffff_ffff_ffff_ffff
                implies c_bnd(Cv { re: re@, im: im@ }, 2 * ((b1 * b2) * (b1 * b2))) by {
                assert(1 * 1 <= b1 * b2) by (nonlinear_arith)
                    requires
                        1 <= b1,
                        1 <= b2,
                ;
                assert((b1 * b2) * 1 <= (b1 * b2) * (b1 * b2)) by (nonlinear_arith)
                    requires
                        1 <= b1 * b2,
                ;
                assert(q_bnd(self@.re, b1));
                assert(q_bnd(other@.re, b2));
                assert(q_bnd(self@.im, b1));
                assert(q_bnd(other@.im, b2));
                assert(q_bnd(t1@, b1 * b2));
                assert(q_bnd(t2@, b1 * b2));
                assert(q_bnd(t3@, b1 * b2));
                assert(q_bnd(t4@, b1 * b2));
            }
        }
        proof {
            lemma_q_sub_congruence(t1@, t2@,
                q_mul(self@.re, other@.re), q_mul(self@.im, other@.im));
            lemma_q_add_congruence(t3@, t4@,
                q_mul(self@.re, other@.im), q_mul(self@.im, other@.re));
            crate::rational::lemma_q_ops_wf(t1@, t2@);
            crate::rational::lemma_q_ops_wf(t3@, t4@);
            crate::rational::lemma_q_eq_trans(re@,
                q_sub(t1@, t2@),
                q_sub(q_mul(self@.re, other@.re), q_mul(self@.im, other@.im)));
            crate::rational::lemma_q_eq_trans(im@,
                q_add(t3@, t4@),
                q_add(q_mul(self@.re, other@.im), q_mul(self@.im, other@.re)));
        }
        Ok(Complex { re, im })
    }

    /// Exact scaling by a real scalar. Success is owed to integer-valued
    /// operands whose exact products are representable.
    pub fn mul_scalar(&self, s: &Rational) -> (r: Result<Complex, KernelError>)
        requires
            self.wf(),
            s.wf(),
        ensures
            r matches Ok(v) ==> v.wf() && c_eq(v@, c_scale(s@, self@)),
            r matches Err(e) ==> e == KernelError::NumericalError,
            forall|b1: int, b2: int|
                #![trigger c_int_bnd(self@, b1), q_int_bnd(s@, b2)]
                0 <= b1 && 0 <= b2 && c_int_bnd(self@, b1) && q_int_bnd(s@, b2)
                    && b1 * b2 <= 0x7fff_ffff_ffff_ffff_ffff_ffff_ffff_ffff
                ==> (r matches Ok(v) && v@ == c_scale(s@, self@)
                    && c_int_bnd(v@, b1 * b2)),
    {
        let re = match s.mul(&self.re) {
            Ok(v) => v,
            Err(e) => {
                proof {
                    assert forall|b1: int, b2: int|
                        #![trigger c_int_bnd(self@, b1), q_int_bnd(s@, b2)]
                        0 <= b1 && 0 <= b2 && c_int_bnd(self@, b1)
                            && q_int_bnd(s@, b2) && b1 * b2 <= 0x7fff_ffff_ffff_ffff_ffff_ffff_ffff_ffff
                        implies false by {
                        assert(q_int_bnd(self@.re, b1));
                        assert(b2 * b1 == b1 * b2) by (nonlinear_arith);
                    }
                }
                return Err(e);
            },
        };
        let im = match s.mul(&self.im) {
            Ok(v) => v,
            Err(e) => {
                proof {
                    assert forall|b1: int, b2: int|
                        #![trigger c_int_bnd(self@, b1), q_int_bnd(s@, b2)]
                        0 <= b1 && 0 <= b2 && c_int_bnd(self@, b1)
                            && q_int_bnd(s@, b2) && b1 * b2 <= 0x7fff_ffff_ffff_ffff_ffff_ffff_ffff_ffff
                        implies false by {
                        assert(q_int_bnd(self@.im, b1));
                        assert(b2 * b1 == b1 * b2) by (nonlinear_arith);
                    }
                }
                return Err(e);
            },
        };
        let v = Complex { re, im };
        proof {
            assert forall|b1: int, b2: int|
                #![trigger c_int_bnd(self@, b1), q_int_bnd(s@, b2)]
                0 <= b1 && 0 <= b2 && c_int_bnd(self@, b1) && q_int_bnd(s@, b2)
                    && b1 * b2 <= 0x7fff_ffff_ffff_ffff_ffff_ffff_ffff_ffff
                implies v@ == c_scale(s@, self@) && c_int_bnd(v@, b1 * b2) by {
                assert(q_int_bnd(self@.re, b1));
                assert(q_int_bnd(self@.im, b1));
                assert(b2 * b1 == b1 * b2) by (nonlinear_arith);
            }
        }
        Ok(v)
    }

    /// Exact division by a real scalar; zero is a `DomainError`. Success
    /// is owed to a nonzero divisor with small operands, and to any
    /// integer-valued operands with a nonzero divisor.
    pub fn div_scalar(&self, s: &Rational) -> (r: Result<Complex, KernelError>)
        requires
            self.wf(),
            s.wf(),
        ensures
            r matches Ok(v) ==> v.wf()
                && c_eq(c_scale(s@, v@), self@)
                && s@.n != 0,
            s@.n == 0 <==> (r matches Err(e) && e == KernelError::DomainError),
            c_small(self@) && q_small(s@) && s@.n != 0 ==> r is Ok,
            self@.re.d == 1 && self@.im.d == 1 && s@.d == 1 && s@.n != 0
                ==> r is Ok,
    {
        if s.is_zero() {
            return Err(KernelError::DomainError);
        }
        let re = match self.re.div(s) {
            Ok(v) => v,
            Err(_) => { return Err(KernelError::NumericalError); },
        };
        let im = match self.im.div(s) {
            Ok(v) => v,
            Err(_) => { return Err(KernelError::NumericalError); },
        };
        proof {
            lemma_div_scalar_roundtrip(self@.re, s@, re@);
            lemma_div_scalar_roundtrip(self@.im, s@, im@);
        }
        Ok(Complex { re, im })
    }

    /// Exact complex division: the result v is pinned by
    /// |other|^2 * v == self * conj(other), which determines v whenever
    /// the divisor is nonzero; a zero divisor is a `DomainError`. Success
    /// is owed to integer-valued operands with a nonzero divisor, when
    /// the intermediate products are representable.
    pub fn div(&self, other: &Complex) -> (r: Result<Complex, KernelError>)
        requires
            self.wf(),
            other.wf(),
        ensures
            r matches Ok(v) ==> v.wf()
                && c_eq(c_scale(c_abs2(other@), v@), c_mul(self@, c_conj(other@))),
            (other@.re.n == 0 && other@.im.n == 0)
                <==> (r matches Err(e) && e == KernelError::DomainError),
            forall|b1: int, b2: int|
                #![trigger c_int_bnd(self@, b1), c_int_bnd(other@, b2)]
                0 <= b1 && 0 <= b2 && c_int_bnd(self@, b1) && c_int_bnd(other@, b2)
                            && !(other@.re.n == 0 && other@.im.n == 0)
                            && 2 * (b2 * b2) <= 0x7fff_ffff_ffff_ffff_ffff_ffff_ffff_ffff && 2 * (b1 * b2) <= 0x7fff_ffff_ffff_ffff_ffff_ffff_ffff_ffff
                ==> r is Ok,
    {
        if other.is_zero() {
            return Err(KernelError::DomainError);
        }
        let n2 = match other.modulus_squared() {
            Ok(v) => v,
            Err(e) => {
                proof {
                    assert forall|b1: int, b2: int|
                        #![trigger c_int_bnd(self@, b1), c_int_bnd(other@, b2)]
                        0 <= b1 && 0 <= b2 && c_int_bnd(self@, b1) && c_int_bnd(other@, b2)
                            && !(other@.re.n == 0 && other@.im.n == 0)
                            && 2 * (b2 * b2) <= 0x7fff_ffff_ffff_ffff_ffff_ffff_ffff_ffff && 2 * (b1 * b2) <= 0x7fff_ffff_ffff_ffff_ffff_ffff_ffff_ffff
                        implies false by {
                        assert(c_int_bnd(other@, b2));
                    }
                }
                return Err(e);
            },
        };
        proof {
            // A nonzero divisor has a positive squared modulus.
            let o = other@;
            crate::rational::lemma_q_ops_wf(o.re, o.re);
            crate::rational::lemma_q_ops_wf(o.im, o.im);
            crate::rational::lemma_q_ops_wf(q_mul(o.re, o.re), q_mul(o.im, o.im));
            assert((o.re.n * o.re.n) * (o.im.d * o.im.d)
                + (o.im.n * o.im.n) * (o.re.d * o.re.d) >= 1) by (nonlinear_arith)
                requires
                    !(o.re.n == 0 && o.im.n == 0),
                    o.re.d >= 1,
                    o.im.d >= 1,
            ;
            assert(n2@.n >= 1) by (nonlinear_arith)
                requires
                    n2@.n * c_abs2(o).d == c_abs2(o).n * n2@.d,
                    c_abs2(o).n >= 1,
                    c_abs2(o).d >= 1,
                    n2@.d >= 1,
            ;
        }
        let num = match self.mul(&other.conj()) {
            Ok(v) => v,
            Err(e) => {
                proof {
                    assert forall|b1: int, b2: int|
                        #![trigger c_int_bnd(self@, b1), c_int_bnd(other@, b2)]
                        0 <= b1 && 0 <= b2 && c_int_bnd(self@, b1) && c_int_bnd(other@, b2)
                            && !(other@.re.n == 0 && other@.im.n == 0)
                            && 2 * (b2 * b2) <= 0x7fff_ffff_ffff_ffff_ffff_ffff_ffff_ffff && 2 * (b1 * b2) <= 0x7fff_ffff_ffff_ffff_ffff_ffff_ffff_ffff
                        implies false by {
                        assert(c_int_bnd(self@, b1));
                        assert(c_int_bnd(c_conj(other@), b2));
                    }
                }
                return Err(e);
            },
        };
        let v = match num.div_scalar(&n2) {
            Ok(v) => v,
            Err(e) => {
                proof {
                    assert forall|b1: int, b2: int|
                        #![trigger c_int_bnd(self@, b1), c_int_bnd(other@, b2)]
                        0 <= b1 && 0 <= b2 && c_int_bnd(self@, b1) && c_int_bnd(other@, b2)
                            && !(other@.re.n == 0 && other@.im.n == 0)
                            && 2 * (b2 * b2) <= 0x7fff_ffff_ffff_ffff_ffff_ffff_ffff_ffff && 2 * (b1 * b2) <= 0x7fff_ffff_ffff_ffff_ffff_ffff_ffff_ffff
                        implies false by {
                        assert(c_int_bnd(self@, b1));
                        assert(c_int_bnd(c_conj(other@), b2));
                        assert(c_int_bnd(num@, 2 * (b1 * b2)));
                        assert(q_int_bnd(n2@, 2 * (b2 * b2)));
                    }
                }
                return Err(e);
            },
        };
        proof {
            crate::rational::lemma_q_ops_wf(other@.re, other@.re);
            crate::rational::lemma_q_ops_wf(other@.im, other@.im);
            crate::rational::lemma_q_ops_wf(
                q_mul(other@.re, other@.re), q_mul(other@.im, other@.im));
            crate::matrix::lemma_c_mul_wf(self@, c_conj(other@));
            crate::vector::lemma_scale_congruence_chain(
                c_abs2(other@), n2@, v@, num@, c_mul(self@, c_conj(other@)));
        }
        Ok(v)
    }

    /// The squared modulus |self|^2 as an exact real scalar. Success is
    /// owed to an integer-valued scalar whose component squares and
    /// their sum are representable.
    pub fn modulus_squared(&self) -> (r: Result<Rational, KernelError>)
        requires
            self.wf(),
        ensures
            r matches Ok(v) ==> v.wf() && q_eq(v@, c_abs2(self@)),
            r matches Err(e) ==> e == KernelError::NumericalError,
            forall|b: int|
                #![trigger c_int_bnd(self@, b)]
                0 <= b && c_int_bnd(self@, b) && 2 * (b * b) <= 0x7fff_ffff_ffff_ffff_ffff_ffff_ffff_ffff
                ==> (r matches Ok(v) && v@ == q_add(q_mul(self@.re, self@.re),
                        q_mul(self@.im, self@.im))
                    && q_int_bnd(v@, 2 * (b * b))),
    {
        proof {
            assert forall|b: int|
                #![trigger c_int_bnd(self@, b)]
                0 <= b && c_int_bnd(self@, b) && 2 * (b * b) <= 0x7fff_ffff_ffff_ffff_ffff_ffff_ffff_ffff
                implies 0 <= b * b && b * b <= 0x7fff_ffff_ffff_ffff_ffff_ffff_ffff_ffff
                    && b * b + b * b <= 0x7fff_ffff_ffff_ffff_ffff_ffff_ffff_ffff by {
                lemma_mul_nonnegative(b, b);
            }
        }
        let t1 = match self.re.mul(&self.re) {
            Ok(v) => v,
            Err(e) => {
                proof {
                    assert forall|b: int|
                        #![trigger c_int_bnd(self@, b)]
                        0 <= b && c_int_bnd(self@, b) && 2 * (b * b) <= 0x7fff_ffff_ffff_ffff_ffff_ffff_ffff_ffff
                        implies false by {
                        lemma_mul_nonnegative(b, b);
                        assert(q_int_bnd(self@.re, b));
                    }
                }
                return Err(e);
            },
        };
        let t2 = match self.im.mul(&self.im) {
            Ok(v) => v,
            Err(e) => {
                proof {
                    assert forall|b: int|
                        #![trigger c_int_bnd(self@, b)]
                        0 <= b && c_int_bnd(self@, b) && 2 * (b * b) <= 0x7fff_ffff_ffff_ffff_ffff_ffff_ffff_ffff
                        implies false by {
                        lemma_mul_nonnegative(b, b);
                        assert(q_int_bnd(self@.im, b));
                    }
                }
                return Err(e);
            },
        };
        let s = match t1.add(&t2) {
            Ok(v) => v,
            Err(e) => {
                proof {
                    assert forall|b: int|
                        #![trigger c_int_bnd(self@, b)]
                        0 <= b && c_int_bnd(self@, b) && 2 * (b * b) <= 0x7fff_ffff_ffff_ffff_ffff_ffff_ffff_ffff
                        implies false by {
                        lemma_mul_nonnegative(b, b);
                        assert(q_int_bnd(self@.re, b));
                        assert(q_int_bnd(self@.im, b));
                        assert(q_int_bnd(t1@, b * b));
                        assert(q_int_bnd(t2@, b * b));
                        assert(b * b + b * b <= 0x7fff_ffff_ffff_ffff_ffff_ffff_ffff_ffff);
                    }
                }
                return Err(e);
            },
        };
        proof {
            lemma_q_add_congruence(t1@, t2@,
                q_mul(self@.re, self@.re), q_mul(self@.im, self@.im));
            crate::rational::lemma_q_ops_wf(t1@, t2@);
            crate::rational::lemma_q_eq_trans(s@,
                q_add(t1@, t2@), c_abs2(self@));
            assert forall|b: int|
                #![trigger c_int_bnd(self@, b)]
                0 <= b && c_int_bnd(self@, b) && 2 * (b * b) <= 0x7fff_ffff_ffff_ffff_ffff_ffff_ffff_ffff
                implies s@ == q_add(q_mul(self@.re, self@.re),
                    q_mul(self@.im, self@.im)) && q_int_bnd(s@, 2 * (b * b)) by {
                lemma_mul_nonnegative(b, b);
                assert(q_int_bnd(self@.re, b));
                assert(q_int_bnd(self@.im, b));
                assert(q_int_bnd(t1@, b * b));
                assert(q_int_bnd(t2@, b * b));
                assert(b * b + b * b <= 0x7fff_ffff_ffff_ffff_ffff_ffff_ffff_ffff);
            }
        }
        Ok(s)
    }
}

/// If v = x / s exactly (via the division contract), then s * v has the
/// value of x again.
proof fn lemma_div_scalar_roundtrip(x: Qv, s: Qv, v: Qv)
    requires
        s.d >= 1,
        x.d >= 1,
        v.d >= 1,
        s.n != 0,
        q_eq(v, crate::rational::q_div(x, s)),
    ensures
        q_eq(q_mul(s, v), x),
{
    assert((s.n * v.n) * x.d == x.n * (s.d * v.d)) by (nonlinear_arith)
        requires
            v.n * (x.d * s.n) == (x.n * s.d) * v.d,
            s.d >= 1,
            x.d >= 1,
            s.n != 0,
    ;
}

} // verus!
