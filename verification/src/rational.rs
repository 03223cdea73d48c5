use vstd::prelude::*;
use vstd::arithmetic::div_mod::{
    lemma_fundamental_div_mod, lemma_div_pos_is_pos, lemma_div_nonincreasing,
    lemma_mod_multiples_basic, lemma_add_mod_noop, lemma_mod_bound,
};
use vstd::arithmetic::mul::{
    lemma_mul_strictly_positive, lemma_mul_nonzero,
};
use crate::errors::KernelError;

verus! {

/// Mathematical model of an exact fraction: a numerator and a denominator,
/// both unbounded integers. Two models stand for the same number exactly
/// when they agree under cross multiplication (`q_eq`).
pub struct Qv {
    pub n: int,
    pub d: int,
}

/// A model is well formed when its denominator is positive.
pub open spec fn q_wf(q: Qv) -> bool {
    q.d >= 1
}

/// Value equality of two fraction models: n1/d1 == n2/d2.
pub open spec fn q_eq(a: Qv, b: Qv) -> bool {
    a.n * b.d == b.n * a.d
}

pub open spec fn q_zero() -> Qv {
    Qv { n: 0, d: 1 }
}

pub open spec fn q_one() -> Qv {
    Qv { n: 1, d: 1 }
}

pub open spec fn q_from_int(i: int) -> Qv {
    Qv { n: i, d: 1 }
}

pub open spec fn q_add(a: Qv, b: Qv) -> Qv {
    Qv { n: a.n * b.d + b.n * a.d, d: a.d * b.d }
}

pub open spec fn q_sub(a: Qv, b: Qv) -> Qv {
    Qv { n: a.n * b.d - b.n * a.d, d: a.d * b.d }
}

pub open spec fn q_mul(a: Qv, b: Qv) -> Qv {
    Qv { n: a.n * b.n, d: a.d * b.d }
}

pub open spec fn q_neg(a: Qv) -> Qv {
    Qv { n: -a.n, d: a.d }
}

/// The raw quotient model a/b; its denominator carries the sign of b.n.
pub open spec fn q_div(a: Qv, b: Qv) -> Qv {
    Qv { n: a.n * b.d, d: a.d * b.n }
}

/// The fraction is small enough that one further arithmetic step is
/// guaranteed to be representable.
pub open spec fn q_small(q: Qv) -> bool {
    -0x7fff_ffff_ffff_ffff <= q.n <= 0x7fff_ffff_ffff_ffff
        && q.d <= 0x7fff_ffff_ffff_ffff
}

/// The absolute value of an unbounded integer.
pub open spec fn q_iabs(x: int) -> int {
    if x < 0 {
        -x
    } else {
        x
    }
}

/// An integer-valued fraction model whose value is bounded by `b` in
/// magnitude: denominator one and |numerator| at most b.
pub open spec fn q_int_bnd(q: Qv, b: int) -> bool {
    q.d == 1 && -b <= q.n <= b
}

/// A fraction model whose stored parts are bounded by `b`: |numerator|
/// and denominator at most b.
pub open spec fn q_bnd(q: Qv, b: int) -> bool {
    -b <= q.n <= b && 1 <= q.d <= b
}

/// A model that a stored scalar can hold: positive denominator, and both
/// parts within the 128-bit build space (the numerator strictly above the
/// minimum so that negation is always exact).
pub open spec fn q_valid(q: Qv) -> bool {
    1 <= q.d <= 0x7fff_ffff_ffff_ffff_ffff_ffff_ffff_ffff
        && -0x7fff_ffff_ffff_ffff_ffff_ffff_ffff_ffff <= q.n
            <= 0x7fff_ffff_ffff_ffff_ffff_ffff_ffff_ffff
}

/// Value equality is reflexive.
pub proof fn lemma_q_eq_refl(a: Qv)
    ensures
        q_eq(a, a),
{
}

/// Value equality is symmetric.
pub proof fn lemma_q_eq_sym(a: Qv, b: Qv)
    requires
        q_eq(a, b),
    ensures
        q_eq(b, a),
{
}

/// Value equality is transitive across a well-formed middle term.
pub proof fn lemma_q_eq_trans(a: Qv, b: Qv, c: Qv)
    requires
        q_wf(b),
        q_eq(a, b),
        q_eq(b, c),
    ensures
        q_eq(a, c),
{
    assert(a.n * c.d == c.n * a.d) by (nonlinear_arith)
        requires
            a.n * b.d == b.n * a.d,
            b.n * c.d == c.n * b.d,
            b.d >= 1,
    ;
}

/// Addition respects value equality.
pub proof fn lemma_q_add_congruence(a: Qv, b: Qv, a2: Qv, b2: Qv)
    requires
        q_eq(a, a2),
        q_eq(b, b2),
    ensures
        q_eq(q_add(a, b), q_add(a2, b2)),
{
    assert((a.n * b.d) * (a2.d * b2.d) == (a2.n * b2.d) * (a.d * b.d))
        by (nonlinear_arith)
        requires
            a.n * a2.d == a2.n * a.d,
    ;
    assert((b.n * a.d) * (a2.d * b2.d) == (b2.n * a2.d) * (a.d * b.d))
        by (nonlinear_arith)
        requires
            b.n * b2.d == b2.n * b.d,
    ;
    assert((a.n * b.d + b.n * a.d) * (a2.d * b2.d)
        == (a.n * b.d) * (a2.d * b2.d) + (b.n * a.d) * (a2.d * b2.d))
        by (nonlinear_arith);
    assert((a2.n * b2.d + b2.n * a2.d) * (a.d * b.d)
        == (a2.n * b2.d) * (a.d * b.d) + (b2.n * a2.d) * (a.d * b.d))
        by (nonlinear_arith);
}

/// Subtraction respects value equality.
pub proof fn lemma_q_sub_congruence(a: Qv, b: Qv, a2: Qv, b2: Qv)
    requires
        q_eq(a, a2),
        q_eq(b, b2),
    ensures
        q_eq(q_sub(a, b), q_sub(a2, b2)),
{
    assert((a.n * b.d) * (a2.d * b2.d) == (a2.n * b2.d) * (a.d * b.d))
        by (nonlinear_arith)
        requires
            a.n * a2.d == a2.n * a.d,
    ;
    assert((b.n * a.d) * (a2.d * b2.d) == (b2.n * a2.d) * (a.d * b.d))
        by (nonlinear_arith)
        requires
            b.n * b2.d == b2.n * b.d,
    ;
    assert((a.n * b.d - b.n * a.d) * (a2.d * b2.d)
        == (a.n * b.d) * (a2.d * b2.d) - (b.n * a.d) * (a2.d * b2.d))
        by (nonlinear_arith);
    assert((a2.n * b2.d - b2.n * a2.d) * (a.d * b.d)
        == (a2.n * b2.d) * (a.d * b.d) - (b2.n * a2.d) * (a.d * b.d))
        by (nonlinear_arith);
}

/// Multiplication respects value equality.
pub proof fn lemma_q_mul_congruence(a: Qv, b: Qv, a2: Qv, b2: Qv)
    requires
        q_eq(a, a2),
        q_eq(b, b2),
    ensures
        q_eq(q_mul(a, b), q_mul(a2, b2)),
{
    assert((a.n * b.n) * (a2.d * b2.d) == (a2.n * b2.n) * (a.d * b.d))
        by (nonlinear_arith)
        requires
            a.n * a2.d == a2.n * a.d,
            b.n * b2.d == b2.n * b.d,
    ;
}

/// Negation respects value equality.
pub proof fn lemma_q_neg_congruence(a: Qv, a2: Qv)
    requires
        q_eq(a, a2),
    ensures
        q_eq(q_neg(a), q_neg(a2)),
{
    assert((-a.n) * a2.d == (-a2.n) * a.d) by (nonlinear_arith)
        requires
            a.n * a2.d == a2.n * a.d,
    ;
}

/// The arithmetic operations keep the denominator positive.
pub proof fn lemma_q_ops_wf(a: Qv, b: Qv)
    requires
        q_wf(a),
        q_wf(b),
    ensures
        q_wf(q_add(a, b)),
        q_wf(q_sub(a, b)),
        q_wf(q_mul(a, b)),
        q_wf(q_neg(a)),
{
    lemma_mul_strictly_positive(a.d, b.d);
}

/// The product of values bounded by `b1` and `b2` in magnitude is
/// bounded by `b1 * b2` in magnitude.
pub proof fn lemma_abs_mul_bound2(x: int, y: int, b1: int, b2: int)
    requires
        -b1 <= x <= b1,
        -b2 <= y <= b2,
        0 <= b1,
        0 <= b2,
    ensures
        -(b1 * b2) <= x * y <= b1 * b2,
{
    assert(-(b1 * b2) <= x * y <= b1 * b2) by (nonlinear_arith)
        requires
            -b1 <= x <= b1,
            -b2 <= y <= b2,
            0 <= b1,
            0 <= b2,
    ;
}

/// The product of two values bounded by `b` in magnitude is bounded by
/// `b * b` in magnitude.
pub proof fn lemma_abs_mul_bound(x: int, y: int, b: int)
    requires
        -b <= x <= b,
        -b <= y <= b,
        0 <= b,
    ensures
        -(b * b) <= x * y <= b * b,
{
    assert(-(b * b) <= x * y <= b * b) by (nonlinear_arith)
        requires
            -b <= x <= b,
            -b <= y <= b,
            0 <= b,
    ;
}

/// An exact fraction of two 128-bit integers, the kernel's scalar. It
/// stands in for one floating-point component of a complex number; all
/// arithmetic on it is exact, and an operation whose exact result cannot
/// be represented reports `KernelError::NumericalError` instead of
/// overflowing or rounding silently.
#[derive(Clone, Copy, Debug)]
pub struct Rational {
    num: i128,
    den: i128,
}

impl View for Rational {
    type V = Qv;

    closed spec fn view(&self) -> Qv {
        Qv { n: self.num as int, d: self.den as int }
    }
}

/// Greatest-common-divisor helper: returns a positive common divisor of
/// `a` and `b` (Euclid's algorithm), used to keep stored fractions small.
fn gcd_u128(a: u128, b: u128) -> (g: u128)
    requires
        a >= 1,
    ensures
        g >= 1,
        a as int % g as int == 0,
        b as int % g as int == 0,
        g <= a,
    decreases b,
{
    if b == 0 {
        proof {
            lemma_mod_multiples_basic(1, a as int);
            lemma_mod_multiples_basic(0, a as int);
        }
        a
    } else {
        let r: u128 = a % b;
        proof {
            lemma_mod_bound(a as int, b as int);
        }
        let g: u128 = gcd_u128(b, r);
        proof {
            let ai = a as int;
            let bi = b as int;
            let gi = g as int;
            let ri = r as int;
            // g divides b and a % b, so it divides a = (a/b)*b + a%b.
            lemma_fundamental_div_mod(ai, bi);
            let q = ai / bi;
            lemma_fundamental_div_mod(bi, gi);
            let bb = bi / gi;
            assert(bi == gi * bb);
            assert(q * bi == (q * bb) * gi) by (nonlinear_arith)
                requires
                    bi == gi * bb,
            ;
            lemma_mod_multiples_basic(q * bb, gi);
            lemma_add_mod_noop(q * bi, ri, gi);
            lemma_mod_multiples_basic(0, gi);
            assert(ai % gi == 0);
            // g divides a >= 1, so g <= a.
            lemma_fundamental_div_mod(ai, gi);
            lemma_div_pos_is_pos(ai, gi);
            let k = ai / gi;
            assert(gi <= ai) by (nonlinear_arith)
                requires
                    ai == gi * k,
                    gi >= 1,
                    ai >= 1,
                    k >= 0,
            ;
        }
        g
    }
}

/// Divides out the greatest common divisor and rebuilds a well-formed
/// scalar with the same value.
fn reduce(n: i128, d: i128) -> (r: Rational)
    requires
        1 <= d,
        -0x7fff_ffff_ffff_ffff_ffff_ffff_ffff_ffff <= n,
    ensures
        r.wf(),
        q_eq(r@, Qv { n: n as int, d: d as int }),
        n >= 0 ==> r@.n >= 0,
        r@.d <= d,
        -q_iabs(n as int) <= r@.n <= q_iabs(n as int),
        d == 1 ==> r@ == (Qv { n: n as int, d: 1 }),
{
    let mag: u128 = if n < 0 { (-n) as u128 } else { n as u128 };
    let g: u128 = gcd_u128(d as u128, mag);
    let rd: u128 = (d as u128) / g;
    let rm: u128 = mag / g;
    proof {
        let di = d as int;
        let mi = mag as int;
        let gi = g as int;
        let qd = di / gi;
        let qm = mi / gi;
        lemma_fundamental_div_mod(di, gi);
        lemma_fundamental_div_mod(mi, gi);
        lemma_div_pos_is_pos(di, gi);
        lemma_div_pos_is_pos(mi, gi);
        lemma_div_nonincreasing(di, gi);
        lemma_div_nonincreasing(mi, gi);
        assert(di == gi * qd);
        assert(mi == gi * qm);
        assert(qd >= 1) by (nonlinear_arith)
            requires
                di == gi * qd,
                gi >= 1,
                di >= 1,
                qd >= 0,
        ;
        // Value preserved: (mag/g) * d == mag * (d/g).
        assert(qm * di == mi * qd) by (nonlinear_arith)
            requires
                di == gi * qd,
                mi == gi * qm,
        ;
        assert((-qm) * di == -(qm * di)) by (nonlinear_arith);
        assert((-mi) * qd == -(mi * qd)) by (nonlinear_arith);
    }
    let rn: i128 = if n < 0 { -(rm as i128) } else { rm as i128 };
    proof {
        if d == 1 {
            // The denominator cannot shrink below one, so the value is
            // returned as it came in.
            assert(rd as int >= 1 && rd as int <= 1);
            assert(rn as int * 1 == n as int * (rd as int));
        }
    }
    Rational { num: rn, den: rd as i128 }
}

impl Rational {
    /// Well-formedness: the stored denominator is positive and the
    /// numerator's negation is representable.
    pub open spec fn wf(&self) -> bool {
        q_valid(self@)
    }

    /// Builds the exact fraction `num / den`; a zero denominator is a
    /// `DomainError`.
    pub fn new(num: i64, den: i64) -> (r: Result<Rational, KernelError>)
        ensures
            den != 0 ==> (r matches Ok(v) && v.wf()
                && q_eq(v@, Qv { n: num as int, d: den as int })),
            den == 0 ==> (r matches Err(e) && e == KernelError::DomainError),
            forall|b: int| #![trigger q_bnd(Qv { n: num as int, d: den as int }, b)]
                den != 0 && 1 <= b && -b <= num && num <= b && -b <= den && den <= b
                ==> (r matches Ok(v) && q_bnd(v@, b)),
    {
        if den == 0 {
            Err(KernelError::DomainError)
        } else if den < 0 {
            let n: i128 = -(num as i128);
            let d: i128 = -(den as i128);
            let v = reduce(n, d);
            proof {
                let target = Qv { n: num as int, d: den as int };
                let mid = Qv { n: n as int, d: d as int };
                assert(q_eq(mid, target)) by (nonlinear_arith)
                    requires
                        mid.n == -target.n,
                        mid.d == -target.d,
                ;
                lemma_q_eq_trans(v@, mid, target);
            }
            Ok(v)
        } else {
            Ok(reduce(num as i128, den as i128))
        }
    }

    /// The exact integer `i`, as a scalar.
    pub fn from_int(i: i64) -> (r: Rational)
        ensures
            r.wf(),
            r@ == q_from_int(i as int),
    {
        Rational { num: i as i128, den: 1 }
    }

    /// The stored numerator (after reduction), for reporting.
    pub fn numerator(&self) -> (n: i128)
        ensures
            n as int == self@.n,
    {
        self.num
    }

    /// The stored denominator (after reduction), for reporting.
    pub fn denominator(&self) -> (d: i128)
        ensures
            d as int == self@.d,
    {
        self.den
    }

    /// True exactly when the scalar is zero.
    pub fn is_zero(&self) -> (z: bool)
        requires
            self.wf(),
        ensures
            z <==> self@.n == 0,
            z <==> q_eq(self@, q_zero()),
    {
        proof {
            assert(0 * self@.d == 0) by (nonlinear_arith);
        }
        self.num == 0
    }

    /// Exact negation; always representable.
    pub fn neg(&self) -> (r: Rational)
        requires
            self.wf(),
        ensures
            r.wf(),
            r@ == q_neg(self@),
    {
        Rational { num: -self.num, den: self.den }
    }

    /// Exact addition. Reports `NumericalError` only when the exact result
    /// overflows the 128-bit build space. Success is owed to small
    /// operands, and to integer-valued operands whose exact sum is
    /// representable, with the exact integer result.
    pub fn add(&self, other: &Rational) -> (r: Result<Rational, KernelError>)
        requires
            self.wf(),
            other.wf(),
        ensures
            r matches Ok(v) ==> v.wf() && q_eq(v@, q_add(self@, other@)),
            r matches Err(e) ==> e == KernelError::NumericalError,
            q_small(self@) && q_small(other@) ==> r is Ok,
            forall|b1: int, b2: int|
                #![trigger q_int_bnd(self@, b1), q_int_bnd(other@, b2)]
                0 <= b1 && 0 <= b2 && q_int_bnd(self@, b1) && q_int_bnd(other@, b2)
                    && b1 + b2 <= 0x7fff_ffff_ffff_ffff_ffff_ffff_ffff_ffff
                ==> (r matches Ok(v) && v@ == q_add(self@, other@)
                    && q_int_bnd(v@, b1 + b2)),
            forall|b1: int, b2: int|
                #![trigger q_bnd(self@, b1), q_bnd(other@, b2)]
                1 <= b1 && 1 <= b2 && q_bnd(self@, b1) && q_bnd(other@, b2)
                    && 2 * (b1 * b2) <= 0x7fff_ffff_ffff_ffff_ffff_ffff_ffff_ffff
                ==> (r matches Ok(v) && q_bnd(v@, 2 * (b1 * b2))),
    {
        proof {
            assert forall|b1: int, b2: int|
                #![trigger q_bnd(self@, b1), q_bnd(other@, b2)]
                1 <= b1 && 1 <= b2 && q_bnd(self@, b1) && q_bnd(other@, b2)
                    && 2 * (b1 * b2) <= 0x7fff_ffff_ffff_ffff_ffff_ffff_ffff_ffff
                implies 1 <= b1 * b2
                    && -(b1 * b2) <= self@.n * other@.d <= b1 * b2
                    && -(b1 * b2) <= other@.n * self@.d <= b1 * b2
                    && 1 <= self@.d * other@.d <= b1 * b2 by {
                lemma_abs_mul_bound2(self@.n, other@.d, b1, b2);
                lemma_abs_mul_bound2(other@.n, self@.d, b2, b1);
                lemma_abs_mul_bound2(self@.d, other@.d, b1, b2);
                lemma_mul_strictly_positive(self@.d, other@.d);
                assert(b2 * b1 == b1 * b2) by (nonlinear_arith);
                assert(1 * 1 <= b1 * b2) by (nonlinear_arith)
                    requires
                        1 <= b1,
                        1 <= b2,
                ;
            }
        }
        if self.den == 1 && other.den == 1 {
            // Integer fast path: the sum of the numerators is the exact
            // result, with denominator one.
            let n: i128 = match self.num.checked_add(other.num) {
                Some(v) => v,
                None => {
                    proof {
                        assert forall|b1: int, b2: int|
                            #![trigger q_int_bnd(self@, b1), q_int_bnd(other@, b2)]
                            0 <= b1 && 0 <= b2 && q_int_bnd(self@, b1)
                                && q_int_bnd(other@, b2) && b1 + b2 <= 0x7fff_ffff_ffff_ffff_ffff_ffff_ffff_ffff
                            implies false by {
                        }
                    }
                    return Err(KernelError::NumericalError);
                },
            };
            if n == i128::MIN {
                proof {
                    assert forall|b1: int, b2: int|
                        #![trigger q_int_bnd(self@, b1), q_int_bnd(other@, b2)]
                        0 <= b1 && 0 <= b2 && q_int_bnd(self@, b1)
                            && q_int_bnd(other@, b2) && b1 + b2 <= 0x7fff_ffff_ffff_ffff_ffff_ffff_ffff_ffff
                        implies false by {
                    }
                }
                return Err(KernelError::NumericalError);
            }
            let v = Rational { num: n, den: 1 };
            proof {
                assert(q_eq(v@, q_add(self@, other@)));
            }
            return Ok(v);
        }
        proof {
            if q_small(self@) && q_small(other@) {
                lemma_abs_mul_bound(self@.n, other@.d, 0x7fff_ffff_ffff_ffff);
                lemma_abs_mul_bound(other@.n, self@.d, 0x7fff_ffff_ffff_ffff);
                lemma_abs_mul_bound(self@.d, other@.d, 0x7fff_ffff_ffff_ffff);
            }
            lemma_mul_strictly_positive(self@.d, other@.d);
        }
        let n1: i128 = match self.num.checked_mul(other.den) {
            Some(v) => v,
            None => { return Err(KernelError::NumericalError); },
        };
        let n2: i128 = match other.num.checked_mul(self.den) {
            Some(v) => v,
            None => { return Err(KernelError::NumericalError); },
        };
        let n: i128 = match n1.checked_add(n2) {
            Some(v) => v,
            None => { return Err(KernelError::NumericalError); },
        };
        let d: i128 = match self.den.checked_mul(other.den) {
            Some(v) => v,
            None => { return Err(KernelError::NumericalError); },
        };
        if n == i128::MIN {
            return Err(KernelError::NumericalError);
        }
        Ok(reduce(n, d))
    }

    /// Exact subtraction, by negating and adding. Success is owed to
    /// small operands, and to integer-valued operands whose exact
    /// difference is representable, with the exact integer result.
    pub fn sub(&self, other: &Rational) -> (r: Result<Rational, KernelError>)
        requires
            self.wf(),
            other.wf(),
        ensures
            r matches Ok(v) ==> v.wf() && q_eq(v@, q_sub(self@, other@)),
            r matches Err(e) ==> e == KernelError::NumericalError,
            q_small(self@) && q_small(other@) ==> r is Ok,
            forall|b1: int, b2: int|
                #![trigger q_int_bnd(self@, b1), q_int_bnd(other@, b2)]
                0 <= b1 && 0 <= b2 && q_int_bnd(self@, b1) && q_int_bnd(other@, b2)
                    && b1 + b2 <= 0x7fff_ffff_ffff_ffff_ffff_ffff_ffff_ffff
                ==> (r matches Ok(v) && v@ == q_sub(self@, other@)
                    && q_int_bnd(v@, b1 + b2)),
            forall|b1: int, b2: int|
                #![trigger q_bnd(self@, b1), q_bnd(other@, b2)]
                1 <= b1 && 1 <= b2 && q_bnd(self@, b1) && q_bnd(other@, b2)
                    && 2 * (b1 * b2) <= 0x7fff_ffff_ffff_ffff_ffff_ffff_ffff_ffff
                ==> (r matches Ok(v) && q_bnd(v@, 2 * (b1 * b2))),
    {
        let r = self.add(&other.neg());
        proof {
            assert forall|b1: int, b2: int|
                #![trigger q_bnd(self@, b1), q_bnd(other@, b2)]
                1 <= b1 && 1 <= b2 && q_bnd(self@, b1) && q_bnd(other@, b2)
                    && 2 * (b1 * b2) <= 0x7fff_ffff_ffff_ffff_ffff_ffff_ffff_ffff
                implies (r matches Ok(v) && q_bnd(v@, 2 * (b1 * b2))) by {
                assert(q_bnd(q_neg(other@), b2));
            }
        }
        proof {
            assert((-other@.n) * self@.d == -(other@.n * self@.d))
                by (nonlinear_arith);
            assert(q_add(self@, q_neg(other@)) == q_sub(self@, other@));
            assert forall|b1: int, b2: int|
                #![trigger q_int_bnd(self@, b1), q_int_bnd(other@, b2)]
                0 <= b1 && 0 <= b2 && q_int_bnd(self@, b1) && q_int_bnd(other@, b2)
                    && b1 + b2 <= 0x7fff_ffff_ffff_ffff_ffff_ffff_ffff_ffff
                implies (r matches Ok(v) && v@ == q_sub(self@, other@)
                    && q_int_bnd(v@, b1 + b2)) by {
                assert(q_int_bnd(q_neg(other@), b2));
            }
        }
        r
    }

    /// Exact multiplication. Success is owed to small operands, and to
    /// integer-valued operands whose exact product is representable, with
    /// the exact integer result.
    pub fn mul(&self, other: &Rational) -> (r: Result<Rational, KernelError>)
        requires
            self.wf(),
            other.wf(),
        ensures
            r matches Ok(v) ==> v.wf() && q_eq(v@, q_mul(self@, other@)),
            r matches Err(e) ==> e == KernelError::NumericalError,
            q_small(self@) && q_small(other@) ==> r is Ok,
            forall|b1: int, b2: int|
                #![trigger q_int_bnd(self@, b1), q_int_bnd(other@, b2)]
                0 <= b1 && 0 <= b2 && q_int_bnd(self@, b1) && q_int_bnd(other@, b2)
                    && b1 * b2 <= 0x7fff_ffff_ffff_ffff_ffff_ffff_ffff_ffff
                ==> (r matches Ok(v) && v@ == q_mul(self@, other@)
                    && q_int_bnd(v@, b1 * b2)),
            forall|b1: int, b2: int|
                #![trigger q_bnd(self@, b1), q_bnd(other@, b2)]
                1 <= b1 && 1 <= b2 && q_bnd(self@, b1) && q_bnd(other@, b2)
                    && b1 * b2 <= 0x7fff_ffff_ffff_ffff_ffff_ffff_ffff_ffff
                ==> (r matches Ok(v) && q_bnd(v@, b1 * b2)),
    {
        proof {
            assert forall|b1: int, b2: int|
                #![trigger q_bnd(self@, b1), q_bnd(other@, b2)]
                1 <= b1 && 1 <= b2 && q_bnd(self@, b1) && q_bnd(other@, b2)
                    && b1 * b2 <= 0x7fff_ffff_ffff_ffff_ffff_ffff_ffff_ffff
                implies 1 <= b1 * b2
                    && -(b1 * b2) <= self@.n * other@.n <= b1 * b2
                    && 1 <= self@.d * other@.d <= b1 * b2 by {
                lemma_abs_mul_bound2(self@.n, other@.n, b1, b2);
                lemma_abs_mul_bound2(self@.d, other@.d, b1, b2);
                lemma_mul_strictly_positive(self@.d, other@.d);
                assert(1 * 1 <= b1 * b2) by (nonlinear_arith)
                    requires
                        1 <= b1,
                        1 <= b2,
                ;
            }
        }
        if self.den == 1 && other.den == 1 {
            // Integer fast path: the product of the numerators is the
            // exact result, with denominator one.
            proof {
                if q_small(self@) && q_small(other@) {
                    lemma_abs_mul_bound(self@.n, other@.n, 0x7fff_ffff_ffff_ffff);
                }
                assert forall|b1: int, b2: int|
                    #![trigger q_int_bnd(self@, b1), q_int_bnd(other@, b2)]
                    0 <= b1 && 0 <= b2 && q_int_bnd(self@, b1)
                        && q_int_bnd(other@, b2) && b1 * b2 <= 0x7fff_ffff_ffff_ffff_ffff_ffff_ffff_ffff
                    implies -(b1 * b2) <= self@.n * other@.n <= b1 * b2 by {
                    lemma_abs_mul_bound2(self@.n, other@.n, b1, b2);
                }
            }
            let n: i128 = match self.num.checked_mul(other.num) {
                Some(v) => v,
                None => { return Err(KernelError::NumericalError); },
            };
            if n == i128::MIN {
                return Err(KernelError::NumericalError);
            }
            let v = Rational { num: n, den: 1 };
            proof {
                assert(q_eq(v@, q_mul(self@, other@)));
            }
            return Ok(v);
        }
        proof {
            if q_small(self@) && q_small(other@) {
                lemma_abs_mul_bound(self@.n, other@.n, 0x7fff_ffff_ffff_ffff);
                lemma_abs_mul_bound(self@.d, other@.d, 0x7fff_ffff_ffff_ffff);
            }
            lemma_mul_strictly_positive(self@.d, other@.d);
        }
        let n: i128 = match self.num.checked_mul(other.num) {
            Some(v) => v,
            None => { return Err(KernelError::NumericalError); },
        };
        let d: i128 = match self.den.checked_mul(other.den) {
            Some(v) => v,
            None => { return Err(KernelError::NumericalError); },
        };
        if n == i128::MIN {
            return Err(KernelError::NumericalError);
        }
        Ok(reduce(n, d))
    }

    /// Exact division. Division by zero is a `DomainError`; an overflowing
    /// exact result is a `NumericalError`. Success is owed whenever the
    /// divisor is nonzero and both operands are small.
    pub fn div(&self, other: &Rational) -> (r: Result<Rational, KernelError>)
        requires
            self.wf(),
            other.wf(),
        ensures
            r matches Ok(v) ==> v.wf() && q_eq(v@, q_div(self@, other@)),
            other@.n == 0 <==> (r matches Err(e) && e == KernelError::DomainError),
            r is Err && other@.n != 0 ==> (r matches Err(e)
                && e == KernelError::NumericalError),
            q_small(self@) && q_small(other@) && other@.n != 0 ==> r is Ok,
            self@.d == 1 && other@.d == 1 && other@.n != 0 ==> r is Ok,
            forall|b1: int, b2: int|
                #![trigger q_bnd(self@, b1), q_bnd(other@, b2)]
                1 <= b1 && 1 <= b2 && q_bnd(self@, b1) && q_bnd(other@, b2)
                    && b1 * b2 <= 0x7fff_ffff_ffff_ffff_ffff_ffff_ffff_ffff && other@.n != 0
                ==> (r matches Ok(v) && q_bnd(v@, b1 * b2)),
    {
        if other.num == 0 {
            return Err(KernelError::DomainError);
        }
        proof {
            if q_small(self@) && q_small(other@) {
                lemma_abs_mul_bound(self@.n, other@.d, 0x7fff_ffff_ffff_ffff);
                lemma_abs_mul_bound(self@.d, other@.n, 0x7fff_ffff_ffff_ffff);
            }
            if self@.d == 1 && other@.d == 1 {
                assert(self@.n * other@.d == self@.n) by (nonlinear_arith)
                    requires
                        other@.d == 1,
                ;
                assert(self@.d * other@.n == other@.n) by (nonlinear_arith)
                    requires
                        self@.d == 1,
                ;
            }
            assert forall|b1: int, b2: int|
                #![trigger q_bnd(self@, b1), q_bnd(other@, b2)]
                1 <= b1 && 1 <= b2 && q_bnd(self@, b1) && q_bnd(other@, b2)
                    && b1 * b2 <= 0x7fff_ffff_ffff_ffff_ffff_ffff_ffff_ffff && other@.n != 0
                implies 1 <= b1 * b2
                    && -(b1 * b2) <= self@.n * other@.d <= b1 * b2
                    && -(b1 * b2) <= self@.d * other@.n <= b1 * b2 by {
                lemma_abs_mul_bound2(self@.n, other@.d, b1, b2);
                lemma_abs_mul_bound2(self@.d, other@.n, b1, b2);
                assert(1 * 1 <= b1 * b2) by (nonlinear_arith)
                    requires
                        1 <= b1,
                        1 <= b2,
                ;
            }
        }
        let n0: i128 = match self.num.checked_mul(other.den) {
            Some(v) => v,
            None => { return Err(KernelError::NumericalError); },
        };
        let d0: i128 = match self.den.checked_mul(other.num) {
            Some(v) => v,
            None => { return Err(KernelError::NumericalError); },
        };
        if n0 == i128::MIN || d0 == i128::MIN {
            return Err(KernelError::NumericalError);
        }
        proof {
            lemma_mul_nonzero(self@.d, other@.n);
        }
        if d0 < 0 {
            let v = reduce(-n0, -d0);
            proof {
                let target = q_div(self@, other@);
                let mid = Qv { n: -n0 as int, d: -d0 as int };
                assert(q_eq(mid, target)) by (nonlinear_arith)
                    requires
                        mid.n == -target.n,
                        mid.d == -target.d,
                ;
                lemma_q_eq_trans(v@, mid, target);
            }
            Ok(v)
        } else {
            let v = reduce(n0, d0);
            Ok(v)
        }
    }
}


/// The integer square root: the unique s with s*s <= n < (s+1)*(s+1).
fn isqrt_u128(n: u128) -> (s: u128)
    ensures
        s * s <= n,
        n < (s + 1) * (s + 1),
{
    let mut lo: u128 = 0;
    let mut hi: u128 = 0xffff_ffff_ffff_ffff;
    proof {
        assert((0xffff_ffff_ffff_ffff as int + 1) * (0xffff_ffff_ffff_ffff as int + 1)
            > u128::MAX) by (nonlinear_arith);
    }
    while lo < hi
        invariant
            lo <= hi,
            hi <= 0xffff_ffff_ffff_ffff,
            lo * lo <= n,
            n < (hi + 1) * (hi + 1),
        decreases hi - lo,
    {
        let mid: u128 = lo + (hi - lo + 1) / 2;
        proof {
            assert(lo < mid <= hi);
            assert(mid * mid <= 0xffff_ffff_ffff_ffff * 0xffff_ffff_ffff_ffff)
                by (nonlinear_arith)
                requires
                    mid <= 0xffff_ffff_ffff_ffff,
            ;
            assert(0xffff_ffff_ffff_ffff as int * 0xffff_ffff_ffff_ffff as int
                <= u128::MAX) by (nonlinear_arith);
        }
        let sq: u128 = mid * mid;
        if sq <= n {
            lo = mid;
        } else {
            proof {
                assert(n < mid * mid);
                assert(mid * mid <= ((mid - 1) + 1) * ((mid - 1) + 1));
            }
            hi = mid - 1;
        }
    }
    lo
}

impl Rational {
    /// The exact square root, where one exists. A negative value is a
    /// `DomainError`; a value whose square root is not rational (or whose
    /// build products overflow) is a `NumericalError`.
    pub fn sqrt(&self) -> (r: Result<Rational, KernelError>)
        requires
            self.wf(),
        ensures
            r matches Ok(v) ==> v.wf() && v@.n >= 0
                && q_eq(q_mul(v@, v@), self@),
            self@.d == 1 ==> (r matches Ok(v) ==> v@.d == 1),
            self@.n < 0 <==> (r matches Err(e) && e == KernelError::DomainError),
            self@.n >= 0 && self@.n * self@.d <= 0x7fff_ffff_ffff_ffff_ffff_ffff_ffff_ffff
                && (exists|t: int| 0 <= t && #[trigger] (t * t) == self@.n * self@.d)
                ==> r is Ok,
            r is Err && self@.n >= 0 ==> (r matches Err(e)
                && e == KernelError::NumericalError),
    {
        if self.num < 0 {
            return Err(KernelError::DomainError);
        }
        let m: i128 = match self.num.checked_mul(self.den) {
            Some(v) => v,
            None => { return Err(KernelError::NumericalError); },
        };
        let s: u128 = isqrt_u128(m as u128);
        let sq: u128 = s * s;
        proof {
            assert(s * s <= m as u128);
        }
        if sq != m as u128 {
            proof {
                // No integer squares to m, so no rational squares to the
                // stored value either.
                if exists|t: int| 0 <= t && #[trigger] (t * t) == self@.n * self@.d {
                    let t = choose|t: int| 0 <= t && #[trigger] (t * t) == self@.n * self@.d;
                    assert(t * t == m as int);
                    if t <= s {
                        assert(t * t <= s as int * s as int) by (nonlinear_arith)
                            requires
                                0 <= t <= s as int,
                        ;
                        assert((s as int) * (s as int) < m as int);
                        assert(false);
                    } else {
                        assert(s as int + 1 <= t);
                        assert((s as int + 1) * (s as int + 1) <= t * t)
                            by (nonlinear_arith)
                            requires
                                0 <= s as int + 1 <= t,
                        ;
                        assert((m as int) < (s as int + 1) * (s as int + 1));
                        assert(false);
                    }
                }
            }
            return Err(KernelError::NumericalError);
        }
        proof {
            assert(s as int * s as int == m as int);
            assert(s as int <= m as int) by (nonlinear_arith)
                requires
                    s as int * s as int == m as int,
                    s as int >= 0,
            ;
        }
        let v = reduce(s as i128, self.den);
        proof {
            let sv = Qv { n: s as int, d: self@.d };
            lemma_q_mul_congruence(v@, v@, sv, sv);
            // (s/d)^2 has the value of the original fraction.
            assert((s as int * s as int) * (self@.d) == self@.n * (self@.d * self@.d))
                by (nonlinear_arith)
                requires
                    s as int * s as int == self@.n * self@.d,
            ;
            assert(q_eq(q_mul(sv, sv), self@));
            lemma_mul_strictly_positive(sv.d, sv.d);
            lemma_q_eq_trans(q_mul(v@, v@), q_mul(sv, sv), self@);
            // The reduced square root keeps a nonnegative numerator.
            assert(v@.n * sv.d == sv.n * v@.d);
            assert(v@.n >= 0) by (nonlinear_arith)
                requires
                    v@.n * sv.d == sv.n * v@.d,
                    sv.n >= 0,
                    sv.d >= 1,
                    v@.d >= 1,
            ;
        }
        Ok(v)
    }
}

} // verus!