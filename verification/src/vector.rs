use vstd::prelude::*;
use crate::errors::KernelError;
use crate::rational::{
    Rational, Qv, q_wf, q_eq, q_mul, q_zero, q_valid, q_int_bnd,
    lemma_q_eq_trans, lemma_q_ops_wf, lemma_q_mul_congruence,
};
use crate::complex::{
    Complex, Cv, c_wf, c_eq, c_add, c_mul, c_conj, c_scale, c_zero, c_valid,
    c_small, c_int_bnd, c_bnd, lemma_c_eq_trans,
};
use crate::matrix::{
    Matrix, Mv, csum, m_wf, m_eq, m_idx, m_int_bnd, lemma_csum_wf,
    lemma_c_eq_add2, lemma_c_mul_wf, lemma_rc_index, lemma_rc_split,
    lemma_csum_ext, lemma_int_step_bounds,
};

verus! {

/// The inner product <a, b> = sum of conj(a_i) * b_i.
pub open spec fn v_inner(a: Seq<Cv>, b: Seq<Cv>) -> Cv {
    csum(a.len(), |i: int| c_mul(c_conj(a[i]), b[i]))
}

/// The squared norm: the real part of <v, v>.
pub open spec fn v_norm2(a: Seq<Cv>) -> Qv {
    v_inner(a, a).re
}

/// The tensor (Kronecker) product of state vectors: entry i*len(b)+j is
/// a_i * b_j.
pub open spec fn v_kron(a: Seq<Cv>, b: Seq<Cv>) -> Seq<Cv> {
    Seq::new(a.len() * b.len(), |k: int| c_mul(a[k / b.len() as int], b[k % b.len() as int]))
}

/// The outer product |a><a| as a matrix model: entry (i, j) is
/// a_i * conj(a_j).
pub open spec fn v_outer(a: Seq<Cv>) -> Mv {
    Mv {
        rows: a.len() as int,
        cols: a.len() as int,
        e: Seq::new(a.len() * a.len(), |k: int|
            c_mul(a[k / a.len() as int], c_conj(a[k % a.len() as int]))),
    }
}

pub open spec fn v_wf(a: Seq<Cv>) -> bool {
    forall|i: int| 0 <= i < a.len() ==> c_wf(#[trigger] a[i])
}

pub open spec fn v_valid(a: Seq<Cv>) -> bool {
    forall|i: int| 0 <= i < a.len() ==> c_valid(#[trigger] a[i])
}

/// All entries are small enough that one elementwise arithmetic step
/// is guaranteed to succeed.
pub open spec fn v_small(a: Seq<Cv>) -> bool {
    forall|i: int| 0 <= i < a.len() ==> c_small(#[trigger] a[i])
}

/// All entries are integer-valued and bounded by `b` in magnitude.
pub open spec fn v_int_bnd(a: Seq<Cv>, b: int) -> bool {
    forall|i: int| 0 <= i < a.len() ==> c_int_bnd(#[trigger] a[i], b)
}

/// Entrywise value equality of two state sequences.
pub open spec fn v_eq(a: Seq<Cv>, b: Seq<Cv>) -> bool {
    a.len() == b.len() && forall|i: int| 0 <= i < a.len() ==> c_eq(#[trigger] a[i], b[i])
}

/// A state vector of complex scalars with a fixed dimension.
#[derive(Clone, Debug)]
pub struct Vector {
    data: Vec<Complex>,
}

impl View for Vector {
    type V = Seq<Cv>;

    closed spec fn view(&self) -> Seq<Cv> {
        self.data@.map_values(|c: Complex| c@)
    }
}

impl Vector {
    pub open spec fn wf(&self) -> bool {
        v_valid(self@)
    }

    /// A zero-filled vector of the given dimension.
    pub fn zeros(size: usize) -> (r: Vector)
        ensures
            r.wf(),
            r@.len() == size as int,
            forall|i: int| 0 <= i < size ==> #[trigger] r@[i] == c_zero(),
    {
        let mut data: Vec<Complex> = Vec::new();
        let mut k: usize = 0;
        while k < size
            invariant
                k <= size,
                data@.len() == k as int,
                forall|t: int| 0 <= t < k ==> (#[trigger] data@[t])@ == c_zero(),
            decreases size - k,
        {
            data.push(Complex::zero());
            k = k + 1;
        }
        Vector { data }
    }

    /// Builds a vector from an entry list.
    pub fn from_entries(entries: Vec<Complex>) -> (r: Vector)
        requires
            forall|k: int| 0 <= k < entries@.len() ==> (#[trigger] entries@[k]).wf(),
        ensures
            r.wf(),
            r@.len() == entries@.len(),
            forall|k: int| 0 <= k < entries@.len() ==> #[trigger] r@[k] == entries@[k]@,
    {
        Vector { data: entries }
    }

    /// The dimension.
    pub fn dim(&self) -> (n: usize)
        ensures
            n as int == self@.len(),
    {
        self.data.len()
    }

    /// Bounds-checked read of the entry at `index`.
    pub fn get(&self, index: usize) -> (r: Result<Complex, KernelError>)
        requires
            self.wf(),
        ensures
            (index as int) < self@.len()
                <==> (r matches Ok(v) && v.wf() && v@ == self@[index as int]),
            (index as int) >= self@.len()
                <==> (r matches Err(e) && e == KernelError::IndexOutOfRange),
    {
        if index < self.data.len() {
            let v: Complex = self.data[index];
            proof {
                assert(v@ == self@[index as int]);
            }
            Ok(v)
        } else {
            Err(KernelError::IndexOutOfRange)
        }
    }

    /// Bounds-checked write of the entry at `index`.
    pub fn set(&mut self, index: usize, value: Complex) -> (r: Result<(), KernelError>)
        requires
            old(self).wf(),
            value.wf(),
        ensures
            (index as int) < old(self)@.len()
                ==> (r matches Ok(u) && final(self)@ == old(self)@.update(index as int, value@)
                    && final(self).wf()),
            (index as int) >= old(self)@.len()
                ==> (r matches Err(e) && e == KernelError::IndexOutOfRange
                    && final(self)@ == old(self)@),
    {
        if index < self.data.len() {
            self.data[index] = value;
            proof {
                assert(self@ =~= old(self)@.update(index as int, value@));
            }
            Ok(())
        } else {
            Err(KernelError::IndexOutOfRange)
        }
    }

    /// Exact entrywise addition; dimensions must agree.
    pub fn add(&self, other: &Vector) -> (r: Result<Vector, KernelError>)
        requires
            self.wf(),
            other.wf(),
        ensures
            r matches Ok(v) ==> v.wf() && v@.len() == self@.len()
                && (forall|i: int| 0 <= i < self@.len()
                    ==> c_eq(#[trigger] v@[i], c_add(self@[i], other@[i]))),
            self@.len() != other@.len()
                <==> (r matches Err(e) && e == KernelError::DimensionMismatch),
            r is Err && self@.len() == other@.len() ==> (r matches Err(e)
                && e == KernelError::NumericalError),
            self@.len() == other@.len() && v_small(self@) && v_small(other@)
                ==> r is Ok,
            forall|b1: int, b2: int|
                #![trigger v_int_bnd(self@, b1), v_int_bnd(other@, b2)]
                0 <= b1 && 0 <= b2 && v_int_bnd(self@, b1) && v_int_bnd(other@, b2)
                    && self@.len() == other@.len() && b1 + b2 <= 0x7fff_ffff_ffff_ffff_ffff_ffff_ffff_ffff
                ==> (r matches Ok(v) && v_int_bnd(v@, b1 + b2)),
    {
        if self.data.len() != other.data.len() {
            return Err(KernelError::DimensionMismatch);
        }
        let n: usize = self.data.len();
        let mut data: Vec<Complex> = Vec::new();
        let mut k: usize = 0;
        while k < n
            invariant
                self.wf(),
                other.wf(),
                n as int == self@.len(),
                other@.len() == n as int,
                k <= n,
                data@.len() == k as int,
                forall|t: int| 0 <= t < k ==> c_valid((#[trigger] data@[t])@)
                    && c_eq(data@[t]@, c_add(self@[t], other@[t])),
                forall|b1: int, b2: int|
                    #![trigger v_int_bnd(self@, b1), v_int_bnd(other@, b2)]
                    0 <= b1 && 0 <= b2 && v_int_bnd(self@, b1) && v_int_bnd(other@, b2)
                        && b1 + b2 <= 0x7fff_ffff_ffff_ffff_ffff_ffff_ffff_ffff
                    ==> (forall|t: int| 0 <= t < k
                        ==> c_int_bnd((#[trigger] data@[t])@, b1 + b2)),
            decreases n - k,
        {
            let a: Complex = self.data[k];
            let b: Complex = other.data[k];
            proof {
                assert(a@ == self@[k as int]);
                assert(b@ == other@[k as int]);
            }
            let v = match a.add(&b) {
                Ok(v) => v,
                Err(e) => {
                    proof {
                        assert forall|b1: int, b2: int|
                            #![trigger v_int_bnd(self@, b1), v_int_bnd(other@, b2)]
                            0 <= b1 && 0 <= b2 && v_int_bnd(self@, b1)
                                && v_int_bnd(other@, b2) && b1 + b2 <= 0x7fff_ffff_ffff_ffff_ffff_ffff_ffff_ffff
                            implies false by {
                            assert(c_int_bnd(a@, b1));
                            assert(c_int_bnd(b@, b2));
                        }
                    }
                    return Err(e);
                },
            };
            proof {
                assert forall|b1: int, b2: int|
                    #![trigger v_int_bnd(self@, b1), v_int_bnd(other@, b2)]
                    0 <= b1 && 0 <= b2 && v_int_bnd(self@, b1)
                        && v_int_bnd(other@, b2) && b1 + b2 <= 0x7fff_ffff_ffff_ffff_ffff_ffff_ffff_ffff
                    implies c_int_bnd(v@, b1 + b2) by {
                    assert(c_int_bnd(a@, b1));
                    assert(c_int_bnd(b@, b2));
                }
            }
            data.push(v);
            k = k + 1;
        }
        Ok(Vector { data })
    }

    /// Exact scaling of every entry by a complex scalar.
    pub fn mul_scalar(&self, s: &Complex) -> (r: Result<Vector, KernelError>)
        requires
            self.wf(),
            s.wf(),
        ensures
            r matches Ok(v) ==> v.wf() && v@.len() == self@.len()
                && (forall|i: int| 0 <= i < self@.len()
                    ==> c_eq(#[trigger] v@[i], c_mul(self@[i], s@))),
            r matches Err(e) ==> e == KernelError::NumericalError,
            forall|b1: int, b2: int|
                #![trigger v_int_bnd(self@, b1), c_int_bnd(s@, b2)]
                0 <= b1 && 0 <= b2 && v_int_bnd(self@, b1) && c_int_bnd(s@, b2)
                    && 2 * (b1 * b2) <= 0x7fff_ffff_ffff_ffff_ffff_ffff_ffff_ffff
                ==> (r matches Ok(v) && v_int_bnd(v@, 2 * (b1 * b2))),
    {
        let n: usize = self.data.len();
        let mut data: Vec<Complex> = Vec::new();
        let mut k: usize = 0;
        while k < n
            invariant
                self.wf(),
                s.wf(),
                n as int == self@.len(),
                k <= n,
                data@.len() == k as int,
                forall|t: int| 0 <= t < k ==> c_valid((#[trigger] data@[t])@)
                    && c_eq(data@[t]@, c_mul(self@[t], s@)),
                forall|b1: int, b2: int|
                    #![trigger v_int_bnd(self@, b1), c_int_bnd(s@, b2)]
                    0 <= b1 && 0 <= b2 && v_int_bnd(self@, b1) && c_int_bnd(s@, b2)
                        && 2 * (b1 * b2) <= 0x7fff_ffff_ffff_ffff_ffff_ffff_ffff_ffff
                    ==> (forall|t: int| 0 <= t < k
                        ==> c_int_bnd((#[trigger] data@[t])@, 2 * (b1 * b2))),
            decreases n - k,
        {
            let a: Complex = self.data[k];
            proof {
                assert(a@ == self@[k as int]);
            }
            let v = match a.mul(s) {
                Ok(v) => v,
                Err(e) => {
                    proof {
                        assert forall|b1: int, b2: int|
                            #![trigger v_int_bnd(self@, b1), c_int_bnd(s@, b2)]
                            0 <= b1 && 0 <= b2 && v_int_bnd(self@, b1)
                                && c_int_bnd(s@, b2) && 2 * (b1 * b2) <= 0x7fff_ffff_ffff_ffff_ffff_ffff_ffff_ffff
                            implies false by {
                            assert(c_int_bnd(a@, b1));
                        }
                    }
                    return Err(e);
                },
            };
            proof {
                assert forall|b1: int, b2: int|
                    #![trigger v_int_bnd(self@, b1), c_int_bnd(s@, b2)]
                    0 <= b1 && 0 <= b2 && v_int_bnd(self@, b1)
                        && c_int_bnd(s@, b2) && 2 * (b1 * b2) <= 0x7fff_ffff_ffff_ffff_ffff_ffff_ffff_ffff
                    implies c_int_bnd(v@, 2 * (b1 * b2)) by {
                    assert(c_int_bnd(a@, b1));
                }
            }
            data.push(v);
            k = k + 1;
        }
        Ok(Vector { data })
    }

    /// The inner product sum of conj(self_i) * other_i; dimensions must
    /// agree.
    pub fn inner_product(&self, other: &Vector) -> (r: Result<Complex, KernelError>)
        requires
            self.wf(),
            other.wf(),
        ensures
            r matches Ok(v) ==> v.wf() && c_eq(v@, v_inner(self@, other@)),
            self@.len() != other@.len()
                <==> (r matches Err(e) && e == KernelError::DimensionMismatch),
            r is Err && self@.len() == other@.len() ==> (r matches Err(e)
                && e == KernelError::NumericalError),
            forall|b1: int, b2: int|
                #![trigger v_int_bnd(self@, b1), v_int_bnd(other@, b2)]
                0 <= b1 && 0 <= b2 && v_int_bnd(self@, b1) && v_int_bnd(other@, b2)
                    && self@.len() == other@.len()
                    && self@.len() * (2 * (b1 * b2)) <= 0x7fff_ffff_ffff_ffff_ffff_ffff_ffff_ffff
                ==> (r matches Ok(v)
                    && c_int_bnd(v@, self@.len() * (2 * (b1 * b2)))),
    {
        if self.data.len() != other.data.len() {
            return Err(KernelError::DimensionMismatch);
        }
        let ghost f = |i: int| c_mul(c_conj(self@[i]), other@[i]);
        let n: usize = self.data.len();
        let mut acc: Complex = Complex::zero();
        let mut k: usize = 0;
        while k < n
            invariant
                self.wf(),
                other.wf(),
                n as int == self@.len(),
                other@.len() == n as int,
                k <= n,
                f == (|i: int| c_mul(c_conj(self@[i]), other@[i])),
                acc.wf(),
                c_eq(acc@, csum(k as nat, f)),
                forall|b1: int, b2: int|
                    #![trigger v_int_bnd(self@, b1), v_int_bnd(other@, b2)]
                    0 <= b1 && 0 <= b2 && v_int_bnd(self@, b1) && v_int_bnd(other@, b2)
                        && self@.len() == other@.len()
                        && self@.len() * (2 * (b1 * b2)) <= 0x7fff_ffff_ffff_ffff_ffff_ffff_ffff_ffff
                    ==> c_int_bnd(acc@, k as int * (2 * (b1 * b2))),
            decreases n - k,
        {
            let a: Complex = self.data[k];
            let b: Complex = other.data[k];
            proof {
                assert(a@ == self@[k as int]);
                assert(b@ == other@[k as int]);
            }
            let p = match a.conj().mul(&b) {
                Ok(v) => v,
                Err(e) => {
                    proof {
                        assert forall|b1: int, b2: int|
                            #![trigger v_int_bnd(self@, b1), v_int_bnd(other@, b2)]
                            0 <= b1 && 0 <= b2 && v_int_bnd(self@, b1) && v_int_bnd(other@, b2)
                            && self@.len() == other@.len()
                            && self@.len() * (2 * (b1 * b2)) <= 0x7fff_ffff_ffff_ffff_ffff_ffff_ffff_ffff
                            implies false by {
                            crate::matrix::lemma_int_step_bounds(b1, b2, k as int,
                                self@.len() as int);
                            assert(c_int_bnd(a@, b1));
                            assert(c_int_bnd(c_conj(a@), b1));
                            assert(c_int_bnd(b@, b2));
                        }
                    }
                    return Err(e);
                },
            };
            let acc2 = match acc.add(&p) {
                Ok(v) => v,
                Err(e) => {
                    proof {
                        assert forall|b1: int, b2: int|
                            #![trigger v_int_bnd(self@, b1), v_int_bnd(other@, b2)]
                            0 <= b1 && 0 <= b2 && v_int_bnd(self@, b1) && v_int_bnd(other@, b2)
                            && self@.len() == other@.len()
                            && self@.len() * (2 * (b1 * b2)) <= 0x7fff_ffff_ffff_ffff_ffff_ffff_ffff_ffff
                            implies false by {
                            crate::matrix::lemma_int_step_bounds(b1, b2, k as int,
                                self@.len() as int);
                            assert(c_int_bnd(a@, b1));
                            assert(c_int_bnd(c_conj(a@), b1));
                            assert(c_int_bnd(b@, b2));
                            assert(c_int_bnd(p@, 2 * (b1 * b2)));
                            assert(c_int_bnd(acc@, k as int * (2 * (b1 * b2))));
                        }
                    }
                    return Err(e);
                },
            };
            proof {
                assert forall|b1: int, b2: int|
                    #![trigger v_int_bnd(self@, b1), v_int_bnd(other@, b2)]
                    0 <= b1 && 0 <= b2 && v_int_bnd(self@, b1) && v_int_bnd(other@, b2)
                    && self@.len() == other@.len()
                    && self@.len() * (2 * (b1 * b2)) <= 0x7fff_ffff_ffff_ffff_ffff_ffff_ffff_ffff
                    implies c_int_bnd(acc2@, (k + 1) as int * (2 * (b1 * b2))) by {
                    crate::matrix::lemma_int_step_bounds(b1, b2, k as int,
                        self@.len() as int);
                    assert(c_int_bnd(a@, b1));
                    assert(c_int_bnd(c_conj(a@), b1));
                    assert(c_int_bnd(b@, b2));
                    assert(c_int_bnd(p@, 2 * (b1 * b2)));
                    assert(c_int_bnd(acc@, k as int * (2 * (b1 * b2))));
                }
                assert forall|u: int| 0 <= u < k implies c_wf(#[trigger] f(u)) by {
                    lemma_c_mul_wf(c_conj(self@[u]), other@[u]);
                }
                lemma_csum_wf(k as nat, f);
                lemma_c_mul_wf(c_conj(a@), b@);
                lemma_c_eq_trans(p@, c_mul(c_conj(a@), b@), f(k as int));
                lemma_c_eq_add2(acc2@, acc@, p@, csum(k as nat, f), f(k as int));
            }
            acc = acc2;
            k = k + 1;
        }
        Ok(acc)
    }

    /// The squared norm, an exact real scalar.
    pub fn norm_squared(&self) -> (r: Result<Rational, KernelError>)
        requires
            self.wf(),
        ensures
            r matches Ok(v) ==> v.wf() && q_eq(v@, v_norm2(self@)),
            r matches Err(e) ==> e == KernelError::NumericalError,
            forall|b: int|
                #![trigger v_int_bnd(self@, b)]
                0 <= b && v_int_bnd(self@, b)
                    && self@.len() * (2 * (b * b)) <= 0x7fff_ffff_ffff_ffff_ffff_ffff_ffff_ffff
                ==> (r matches Ok(v)
                    && q_int_bnd(v@, self@.len() * (2 * (b * b)))),
    {
        let ip = match self.inner_product(self) {
            Ok(v) => v,
            Err(_) => {
                proof {
                    assert forall|b: int|
                        #![trigger v_int_bnd(self@, b)]
                        0 <= b && v_int_bnd(self@, b)
                            && self@.len() * (2 * (b * b)) <= 0x7fff_ffff_ffff_ffff_ffff_ffff_ffff_ffff
                        implies false by {
                        assert(v_int_bnd(self@, b));
                    }
                }
                return Err(KernelError::NumericalError);
            },
        };
        Ok(ip.re())
    }

    /// Normalizes the vector to unit norm: each entry is divided by the
    /// square root of the squared norm. A zero vector is a `DomainError`;
    /// a norm without an exact rational square root is a
    /// `NumericalError`.
    pub fn normalize(&self) -> (r: Result<Vector, KernelError>)
        requires
            self.wf(),
        ensures
            r matches Ok(v) ==> v.wf() && v@.len() == self@.len()
                && (exists|s: Qv| q_wf(s) && s.n > 0
                    && q_eq(q_mul(s, s), v_norm2(self@))
                    && (forall|i: int| 0 <= i < self@.len()
                        ==> c_eq(#[trigger] c_scale(s, v@[i]), self@[i]))),
            r matches Err(e) && e == KernelError::DomainError
                ==> q_eq(v_norm2(self@), q_zero()),
            forall|b: int|
                #![trigger v_int_bnd(self@, b)]
                0 <= b && v_int_bnd(self@, b)
                    && self@.len() * (2 * (b * b)) <= 0x7fff_ffff_ffff_ffff_ffff_ffff_ffff_ffff && q_eq(v_norm2(self@), q_zero())
                ==> (r matches Err(e) && e == KernelError::DomainError),
            forall|b: int|
                #![trigger v_int_bnd(self@, b)]
                0 <= b && v_int_bnd(self@, b)
                    && self@.len() * (2 * (b * b)) <= 0x7fff_ffff_ffff_ffff_ffff_ffff_ffff_ffff && !q_eq(v_norm2(self@), q_zero())
                    && (exists|t: int| 0 <= t
                        && #[trigger] (t * t) * v_norm2(self@).d == v_norm2(self@).n)
                ==> r is Ok,
    {
        proof {
            lemma_v_norm2_wf(self@);
        }
        let n2 = match self.norm_squared() {
            Ok(v) => v,
            Err(e) => {
                proof {
                    assert forall|b: int|
                        #![trigger v_int_bnd(self@, b)]
                        0 <= b && v_int_bnd(self@, b)
                            && self@.len() * (2 * (b * b)) <= 0x7fff_ffff_ffff_ffff_ffff_ffff_ffff_ffff
                        implies false by {
                        assert(v_int_bnd(self@, b));
                    }
                }
                return Err(e);
            },
        };
        if n2.is_zero() {
            proof {
                crate::rational::lemma_q_eq_sym(n2@, v_norm2(self@));
                lemma_q_eq_trans(q_zero(), n2@, v_norm2(self@));
                crate::rational::lemma_q_eq_sym(q_zero(), v_norm2(self@));
            }
            return Err(KernelError::DomainError);
        }
        proof {
            // A nonzero stored squared norm means a nonzero value.
            assert(!q_eq(v_norm2(self@), q_zero())) by {
                if q_eq(v_norm2(self@), q_zero()) {
                    lemma_q_eq_trans(n2@, v_norm2(self@), q_zero());
                    assert(n2@.n * 1 == 0 * n2@.d);
                    assert(n2@.n == 0) by (nonlinear_arith)
                        requires
                            n2@.n * 1 == 0 * n2@.d,
                    ;
                }
            };
            // On integer-valued input whose norm is a perfect square, the
            // stored squared norm is that square.
            assert forall|b: int|
                #![trigger v_int_bnd(self@, b)]
                0 <= b && v_int_bnd(self@, b)
                            && self@.len() * (2 * (b * b)) <= 0x7fff_ffff_ffff_ffff_ffff_ffff_ffff_ffff && (exists|t: int| 0 <= t
                        && #[trigger] (t * t) * v_norm2(self@).d == v_norm2(self@).n)
                implies n2@.d == 1 && n2@.n >= 0
                    && (exists|t: int| 0 <= t
                        && #[trigger] (t * t) == n2@.n * n2@.d)
                    && n2@.n * n2@.d <= 0x7fff_ffff_ffff_ffff_ffff_ffff_ffff_ffff by {
                assert(v_int_bnd(self@, b));
                assert(q_int_bnd(n2@, self@.len() * (2 * (b * b))));
                let t = choose|t: int| 0 <= t
                    && #[trigger] (t * t) * v_norm2(self@).d == v_norm2(self@).n;
                assert(n2@.n * v_norm2(self@).d == v_norm2(self@).n * n2@.d);
                assert(n2@.n == t * t) by (nonlinear_arith)
                    requires
                        n2@.n * v_norm2(self@).d == v_norm2(self@).n * 1,
                        v_norm2(self@).n == (t * t) * v_norm2(self@).d,
                        v_norm2(self@).d >= 1,
                ;
                assert(n2@.n * n2@.d == n2@.n) by (nonlinear_arith)
                    requires
                        n2@.d == 1,
                ;
                assert((t * t) == n2@.n * n2@.d);
            }
        }
        let s = match n2.sqrt() {
            Ok(v) => v,
            Err(_) => {
                proof {
                    assert forall|b: int|
                        #![trigger v_int_bnd(self@, b)]
                        0 <= b && v_int_bnd(self@, b)
                            && self@.len() * (2 * (b * b)) <= 0x7fff_ffff_ffff_ffff_ffff_ffff_ffff_ffff && !q_eq(v_norm2(self@), q_zero()) && (exists|t: int| 0 <= t
                        && #[trigger] (t * t) * v_norm2(self@).d == v_norm2(self@).n)
                        implies false by {
                        assert(v_int_bnd(self@, b));
                    }
                }
                return Err(KernelError::NumericalError);
            },
        };
        if s.is_zero() {
            // A zero root would contradict the nonzero norm; treat it as
            // a numeric failure rather than divide by zero.
            proof {
                lemma_q_ops_wf(s@, s@);
                assert(s@.n == 0);
                assert(q_mul(s@, s@).n == 0) by (nonlinear_arith)
                    requires
                        s@.n == 0,
                ;
                assert(n2@.n == 0) by (nonlinear_arith)
                    requires
                        q_mul(s@, s@).n * n2@.d == n2@.n * q_mul(s@, s@).d,
                        q_mul(s@, s@).n == 0,
                        q_mul(s@, s@).d >= 1,
                ;
            }
            return Err(KernelError::NumericalError);
        }
        let n: usize = self.data.len();
        let mut data: Vec<Complex> = Vec::new();
        let mut k: usize = 0;
        while k < n
            invariant
                self.wf(),
                s.wf(),
                s@.n != 0,
                !q_eq(v_norm2(self@), q_zero()),
                n2.wf(),
                q_eq(n2@, v_norm2(self@)),
                n2@.d == 1 ==> s@.d == 1,
                q_eq(q_mul(s@, s@), n2@),
                forall|b: int|
                    #![trigger v_int_bnd(self@, b)]
                    0 <= b && v_int_bnd(self@, b)
                        && self@.len() * (2 * (b * b)) <= 0x7fff_ffff_ffff_ffff_ffff_ffff_ffff_ffff
                    ==> q_int_bnd(n2@, self@.len() * (2 * (b * b))),
                n as int == self@.len(),
                k <= n,
                data@.len() == k as int,
                forall|t: int| 0 <= t < k ==> c_valid((#[trigger] data@[t])@)
                    && c_eq(c_scale(s@, data@[t]@), self@[t]),
            decreases n - k,
        {
            let a: Complex = self.data[k];
            proof {
                assert(a@ == self@[k as int]);
            }
            let v = match a.div_scalar(&s) {
                Ok(v) => v,
                Err(_) => {
                    proof {
                        assert forall|b: int|
                            #![trigger v_int_bnd(self@, b)]
                            0 <= b && v_int_bnd(self@, b)
                            && self@.len() * (2 * (b * b)) <= 0x7fff_ffff_ffff_ffff_ffff_ffff_ffff_ffff
                            && !q_eq(v_norm2(self@), q_zero())
                            && (exists|t: int| 0 <= t
                                && #[trigger] (t * t) * v_norm2(self@).d == v_norm2(self@).n)
                            implies false by {
                            assert(v_int_bnd(self@, b));
                            assert(q_int_bnd(n2@, self@.len() * (2 * (b * b))));
                            assert(c_int_bnd(a@, b));
                        }
                    }
                    return Err(KernelError::NumericalError);
                },
            };
            data.push(v);
            k = k + 1;
        }
        let w = Vector { data };
        proof {
            let sv = s@;
            assert(sv.n > 0) by (nonlinear_arith)
                requires
                    sv.n >= 0,
                    sv.n != 0,
            ;
            assert(q_wf(sv) && sv.n > 0 && q_eq(q_mul(sv, sv), v_norm2(self@))
                && (forall|i: int| 0 <= i < self@.len()
                    ==> c_eq(#[trigger] c_scale(sv, w@[i]), self@[i]))) by {
                lemma_q_mul_congruence(s@, s@, s@, s@);
                lemma_q_ops_wf(s@, s@);
                lemma_q_eq_trans(q_mul(s@, s@), n2@, v_norm2(self@));
            };
        }
        Ok(w)
    }

    /// The tensor (Kronecker) product of two state vectors.
    pub fn tensor_product(&self, other: &Vector) -> (r: Result<Vector, KernelError>)
        requires
            self.wf(),
            other.wf(),
        ensures
            r matches Ok(v) ==> v.wf() && v@.len() == self@.len() * other@.len()
                && (forall|i: int| 0 <= i < v@.len()
                    ==> c_eq(#[trigger] v@[i], v_kron(self@, other@)[i])),
            r matches Err(e) ==> e == KernelError::NumericalError,
    {
        let na: usize = self.data.len();
        let nb: usize = other.data.len();
        let n: usize = match na.checked_mul(nb) {
            Some(v) => v,
            None => { return Err(KernelError::NumericalError); },
        };
        let mut data: Vec<Complex> = Vec::new();
        let mut i: usize = 0;
        while i < na
            invariant
                self.wf(),
                other.wf(),
                na as int == self@.len(),
                nb as int == other@.len(),
                n as int == na as int * nb as int,
                n <= usize::MAX,
                i <= na,
                data@.len() == i as int * nb as int,
                data@.len() <= n as int,
                forall|t: int| 0 <= t < data@.len()
                    ==> c_valid((#[trigger] data@[t])@)
                        && c_eq(data@[t]@, v_kron(self@, other@)[t]),
            decreases na - i,
        {
            let mut j: usize = 0;
            proof {
                assert((i as int + 1) * nb as int <= na as int * nb as int)
                    by (nonlinear_arith)
                    requires
                        i as int + 1 <= na as int,
                        nb as int >= 0,
                ;
            }
            while j < nb
                invariant
                    self.wf(),
                    other.wf(),
                    na as int == self@.len(),
                    nb as int == other@.len(),
                    n as int == na as int * nb as int,
                    n <= usize::MAX,
                    i < na,
                    j <= nb,
                    (i as int + 1) * nb as int <= n as int,
                    data@.len() == i as int * nb as int + j as int,
                    forall|t: int| 0 <= t < data@.len()
                        ==> c_valid((#[trigger] data@[t])@)
                            && c_eq(data@[t]@, v_kron(self@, other@)[t]),
                decreases nb - j,
            {
                let a: Complex = self.data[i];
                let b: Complex = other.data[j];
                proof {
                    assert(a@ == self@[i as int]);
                    assert(b@ == other@[j as int]);
                }
                let v = match a.mul(&b) {
                    Ok(v) => v,
                    Err(e) => { return Err(e); },
                };
                proof {
                    lemma_rc_index(i as int, j as int, na as int, nb as int);
                    let t = i as int * nb as int + j as int;
                    assert(v_kron(self@, other@)[t] == c_mul(a@, b@));
                }
                data.push(v);
                j = j + 1;
            }
            proof {
                assert((i as int + 1) * nb as int
                    == i as int * nb as int + nb as int) by (nonlinear_arith);
            }
            i = i + 1;
        }
        Ok(Vector { data })
    }

    /// The pure-state density matrix |v><v| / <v|v>: the outer product of
    /// the vector with itself, normalized by the squared norm. A zero
    /// vector is a `DomainError`.
    pub fn density_from_state(&self) -> (r: Result<Matrix, KernelError>)
        requires
            self.wf(),
        ensures
            r matches Ok(m) ==> m.wf()
                && m@.rows == self@.len() && m@.cols == self@.len()
                && (forall|k: int| 0 <= k < m@.e.len()
                    ==> c_eq(#[trigger] c_scale(v_norm2(self@), m@.e[k]),
                        v_outer(self@).e[k])),
            r matches Err(e) && e == KernelError::DomainError
                ==> q_eq(v_norm2(self@), q_zero()),
            forall|b: int|
                #![trigger v_int_bnd(self@, b)]
                0 <= b && v_int_bnd(self@, b)
                    && self@.len() * (2 * (b * b)) <= 0x7fff_ffff_ffff_ffff_ffff_ffff_ffff_ffff
                    && self@.len() * self@.len() <= usize::MAX && q_eq(v_norm2(self@), q_zero())
                ==> (r matches Err(e) && e == KernelError::DomainError),
            forall|b: int|
                #![trigger v_int_bnd(self@, b)]
                0 <= b && v_int_bnd(self@, b)
                    && self@.len() * (2 * (b * b)) <= 0x7fff_ffff_ffff_ffff_ffff_ffff_ffff_ffff
                    && self@.len() * self@.len() <= usize::MAX && !q_eq(v_norm2(self@), q_zero())
                ==> r is Ok,
    {
        proof {
            lemma_v_norm2_wf(self@);
        }
        let n2 = match self.norm_squared() {
            Ok(v) => v,
            Err(e) => {
                proof {
                    assert forall|b: int|
                        #![trigger v_int_bnd(self@, b)]
                        0 <= b && v_int_bnd(self@, b)
                        && self@.len() * (2 * (b * b)) <= 0x7fff_ffff_ffff_ffff_ffff_ffff_ffff_ffff
                        && self@.len() * self@.len() <= usize::MAX
                        implies false by {
                        assert(v_int_bnd(self@, b));
                    }
                }
                return Err(e);
            },
        };
        if n2.is_zero() {
            proof {
                crate::rational::lemma_q_eq_sym(n2@, v_norm2(self@));
                lemma_q_eq_trans(q_zero(), n2@, v_norm2(self@));
                crate::rational::lemma_q_eq_sym(q_zero(), v_norm2(self@));
            }
            return Err(KernelError::DomainError);
        }
        proof {
            assert(!q_eq(v_norm2(self@), q_zero())) by {
                if q_eq(v_norm2(self@), q_zero()) {
                    lemma_q_eq_trans(n2@, v_norm2(self@), q_zero());
                    assert(n2@.n == 0) by (nonlinear_arith)
                        requires
                            n2@.n * 1 == 0 * n2@.d,
                    ;
                }
            };
        }
        let n: usize = self.data.len();
        let total: usize = match n.checked_mul(n) {
            Some(v) => v,
            None => { return Err(KernelError::NumericalError); },
        };
        let mut data: Vec<Complex> = Vec::new();
        let mut i: usize = 0;
        while i < n
            invariant
                self.wf(),
                n2.wf(),
                n2@.n != 0,
                q_eq(n2@, v_norm2(self@)),
                forall|b: int|
                    #![trigger v_int_bnd(self@, b)]
                    0 <= b && v_int_bnd(self@, b)
                        && self@.len() * (2 * (b * b)) <= 0x7fff_ffff_ffff_ffff_ffff_ffff_ffff_ffff
                    ==> q_int_bnd(n2@, self@.len() * (2 * (b * b))),
                n as int == self@.len(),
                total as int == n as int * n as int,
                total <= usize::MAX,
                i <= n,
                data@.len() == i as int * n as int,
                data@.len() <= total as int,
                forall|t: int| 0 <= t < data@.len()
                    ==> c_valid((#[trigger] data@[t])@)
                        && c_eq(c_scale(v_norm2(self@), data@[t]@),
                            v_outer(self@).e[t]),
            decreases n - i,
        {
            let mut j: usize = 0;
            proof {
                assert((i as int + 1) * n as int <= n as int * n as int)
                    by (nonlinear_arith)
                    requires
                        i as int + 1 <= n as int,
                        n as int >= 0,
                ;
            }
            while j < n
                invariant
                    self.wf(),
                    n2.wf(),
                    n2@.n != 0,
                    q_eq(n2@, v_norm2(self@)),
                    forall|b: int|
                        #![trigger v_int_bnd(self@, b)]
                        0 <= b && v_int_bnd(self@, b)
                            && self@.len() * (2 * (b * b)) <= 0x7fff_ffff_ffff_ffff_ffff_ffff_ffff_ffff
                        ==> q_int_bnd(n2@, self@.len() * (2 * (b * b))),
                    n as int == self@.len(),
                    total as int == n as int * n as int,
                    total <= usize::MAX,
                    i < n,
                    j <= n,
                    (i as int + 1) * n as int <= total as int,
                    data@.len() == i as int * n as int + j as int,
                    forall|t: int| 0 <= t < data@.len()
                        ==> c_valid((#[trigger] data@[t])@)
                            && c_eq(c_scale(v_norm2(self@), data@[t]@),
                                v_outer(self@).e[t]),
                decreases n - j,
            {
                let a: Complex = self.data[i];
                let b0: Complex = self.data[j];
                proof {
                    assert(a@ == self@[i as int]);
                    assert(b0@ == self@[j as int]);
                }
                let b: Complex = b0.conj();
                let num = match a.mul(&b) {
                    Ok(v) => v,
                    Err(e) => {
                        proof {
                            assert forall|bb: int|
                                #![trigger v_int_bnd(self@, bb)]
                                0 <= bb && v_int_bnd(self@, bb)
                                    && self@.len() * (2 * (bb * bb)) <= 0x7fff_ffff_ffff_ffff_ffff_ffff_ffff_ffff
                                    && self@.len() * self@.len() <= usize::MAX
                                implies false by {
                                vstd::arithmetic::mul::lemma_mul_nonnegative(bb, bb);
                                assert(c_int_bnd(a@, bb));
                                assert(c_int_bnd(b0@, bb));
                                assert(c_int_bnd(b@, bb));
                                crate::matrix::lemma_int_acc_bounds(
                                    2 * (bb * bb), 1, self@.len() as int);
                            }
                        }
                        return Err(e);
                    },
                };
                let v = match num.div_scalar(&n2) {
                    Ok(v) => v,
                    Err(_) => {
                        proof {
                            assert forall|bb: int|
                                #![trigger v_int_bnd(self@, bb)]
                                0 <= bb && v_int_bnd(self@, bb)
                                    && self@.len() * (2 * (bb * bb)) <= 0x7fff_ffff_ffff_ffff_ffff_ffff_ffff_ffff
                                    && self@.len() * self@.len() <= usize::MAX
                                implies false by {
                                vstd::arithmetic::mul::lemma_mul_nonnegative(bb, bb);
                                assert(c_int_bnd(a@, bb));
                                assert(c_int_bnd(b@, bb));
                                crate::matrix::lemma_int_acc_bounds(
                                    2 * (bb * bb), 1, self@.len() as int);
                                assert(c_int_bnd(num@, 2 * (bb * bb)));
                                assert(q_int_bnd(n2@, self@.len() * (2 * (bb * bb))));
                            }
                        }
                        return Err(KernelError::NumericalError);
                    },
                };
                proof {
                    lemma_rc_index(i as int, j as int, n as int, n as int);
                    let t = i as int * n as int + j as int;
                    assert(v_outer(self@).e[t]
                        == c_mul(self@[i as int], c_conj(self@[j as int])));
                    // scale(norm2, v) ~ scale(n2, v) ~ num ~ outer entry.
                    lemma_c_mul_wf(a@, b@);
                    lemma_scale_congruence_chain(v_norm2(self@), n2@, v@, num@,
                        c_mul(a@, b@));
                }
                data.push(v);
                j = j + 1;
            }
            proof {
                assert((i as int + 1) * n as int
                    == i as int * n as int + n as int) by (nonlinear_arith);
            }
            i = i + 1;
        }
        let m = match Matrix::from_array(n, n, data) {
            Ok(v) => v,
            Err(_) => {
                proof {
                    assert(false);
                }
                return Err(KernelError::NumericalError);
            },
        };
        Ok(m)
    }
}

/// The matrix-vector product m * v.
pub open spec fn mv_apply(m: Mv, v: Seq<Cv>) -> Seq<Cv> {
    Seq::new(m.rows as nat, |i: int| csum(m.cols as nat, |t: int|
        c_mul(m_idx(m, i, t), v[t])))
}

impl Matrix {
    /// Applies the matrix to a state vector; the column count must match
    /// the vector's dimension.
    pub fn mul_vector(&self, v: &Vector) -> (r: Result<Vector, KernelError>)
        requires
            self.wf(),
            v.wf(),
        ensures
            r matches Ok(w) ==> w.wf() && w@.len() == self@.rows
                && (forall|i: int| 0 <= i < w@.len()
                    ==> c_eq(#[trigger] w@[i], mv_apply(self@, v@)[i])),
            self@.cols != v@.len()
                <==> (r matches Err(e) && e == KernelError::DimensionMismatch),
            r is Err && self@.cols == v@.len() ==> (r matches Err(e)
                && e == KernelError::NumericalError),
            forall|b1: int, b2: int|
                #![trigger m_int_bnd(self@, b1), v_int_bnd(v@, b2)]
                0 <= b1 && 0 <= b2 && m_int_bnd(self@, b1) && v_int_bnd(v@, b2)
                    && self@.cols == v@.len()
                    && self@.cols * (2 * (b1 * b2)) <= 0x7fff_ffff_ffff_ffff_ffff_ffff_ffff_ffff
                ==> (r matches Ok(w)
                    && v_int_bnd(w@, self@.cols * (2 * (b1 * b2)))),
    {
        let n: usize = self.cols();
        if n != v.dim() {
            return Err(KernelError::DimensionMismatch);
        }
        let rows: usize = self.rows();
        let mut data: Vec<Complex> = Vec::new();
        let mut i: usize = 0;
        while i < rows
            invariant
                self.wf(),
                v.wf(),
                n as int == self@.cols,
                v@.len() == n as int,
                rows as int == self@.rows,
                i <= rows,
                data@.len() == i as int,
                forall|t: int| 0 <= t < i ==> c_valid((#[trigger] data@[t])@)
                    && c_eq(data@[t]@, mv_apply(self@, v@)[t]),
                forall|b1: int, b2: int|
                    #![trigger m_int_bnd(self@, b1), v_int_bnd(v@, b2)]
                    0 <= b1 && 0 <= b2 && m_int_bnd(self@, b1) && v_int_bnd(v@, b2)
                        && self@.cols == v@.len()
                        && self@.cols * (2 * (b1 * b2)) <= 0x7fff_ffff_ffff_ffff_ffff_ffff_ffff_ffff
                    ==> (forall|t: int| 0 <= t < i
                        ==> c_int_bnd((#[trigger] data@[t])@,
                            self@.cols * (2 * (b1 * b2)))),
            decreases rows - i,
        {
            let ghost f = |t: int| c_mul(m_idx(self@, i as int, t), v@[t]);
            let mut acc: Complex = Complex::zero();
            let mut t: usize = 0;
            while t < n
                invariant
                    self.wf(),
                    v.wf(),
                    n as int == self@.cols,
                    v@.len() == n as int,
                    rows as int == self@.rows,
                    i < rows,
                    t <= n,
                    f == (|t: int| c_mul(m_idx(self@, i as int, t), v@[t])),
                    acc.wf(),
                    c_eq(acc@, csum(t as nat, f)),
                    forall|b1: int, b2: int|
                        #![trigger m_int_bnd(self@, b1), v_int_bnd(v@, b2)]
                        0 <= b1 && 0 <= b2 && m_int_bnd(self@, b1) && v_int_bnd(v@, b2)
                            && self@.cols == v@.len()
                            && self@.cols * (2 * (b1 * b2)) <= 0x7fff_ffff_ffff_ffff_ffff_ffff_ffff_ffff
                        ==> c_int_bnd(acc@, t as int * (2 * (b1 * b2))),
                decreases n - t,
            {
                let a = match self.get(i, t) {
                    Ok(x) => x,
                    Err(_) => { return Err(KernelError::NumericalError); },
                };
                let b: Complex = v.data[t];
                proof {
                    assert(b@ == v@[t as int]);
                }
                let p = match a.mul(&b) {
                    Ok(x) => x,
                    Err(e) => {
                        proof {
                            assert forall|b1: int, b2: int|
                                #![trigger m_int_bnd(self@, b1), v_int_bnd(v@, b2)]
                                0 <= b1 && 0 <= b2 && m_int_bnd(self@, b1) && v_int_bnd(v@, b2)
                                    && self@.cols == v@.len()
                                    && self@.cols * (2 * (b1 * b2)) <= 0x7fff_ffff_ffff_ffff_ffff_ffff_ffff_ffff
                                implies false by {
                                lemma_int_step_bounds(b1, b2, t as int, self@.cols);
                                lemma_rc_index(i as int, t as int, self@.rows, self@.cols);
                                assert(a@ == self@.e[i as int * self@.cols + t as int]);
                                assert(c_int_bnd(a@, b1));
                                assert(c_int_bnd(b@, b2));
                            }
                        }
                        return Err(e);
                    },
                };
                let acc2 = match acc.add(&p) {
                    Ok(x) => x,
                    Err(e) => {
                        proof {
                            assert forall|b1: int, b2: int|
                                #![trigger m_int_bnd(self@, b1), v_int_bnd(v@, b2)]
                                0 <= b1 && 0 <= b2 && m_int_bnd(self@, b1) && v_int_bnd(v@, b2)
                                    && self@.cols == v@.len()
                                    && self@.cols * (2 * (b1 * b2)) <= 0x7fff_ffff_ffff_ffff_ffff_ffff_ffff_ffff
                                implies false by {
                                lemma_int_step_bounds(b1, b2, t as int, self@.cols);
                                lemma_rc_index(i as int, t as int, self@.rows, self@.cols);
                                assert(a@ == self@.e[i as int * self@.cols + t as int]);
                                assert(c_int_bnd(a@, b1));
                                assert(c_int_bnd(b@, b2));
                                assert(c_int_bnd(p@, 2 * (b1 * b2)));
                                assert(c_int_bnd(acc@, t as int * (2 * (b1 * b2))));
                            }
                        }
                        return Err(e);
                    },
                };
                proof {
                    assert forall|b1: int, b2: int|
                        #![trigger m_int_bnd(self@, b1), v_int_bnd(v@, b2)]
                        0 <= b1 && 0 <= b2 && m_int_bnd(self@, b1) && v_int_bnd(v@, b2)
                            && self@.cols == v@.len()
                            && self@.cols * (2 * (b1 * b2)) <= 0x7fff_ffff_ffff_ffff_ffff_ffff_ffff_ffff
                        implies c_int_bnd(acc2@, (t + 1) as int * (2 * (b1 * b2))) by {
                        lemma_int_step_bounds(b1, b2, t as int, self@.cols);
                        lemma_rc_index(i as int, t as int, self@.rows, self@.cols);
                        assert(a@ == self@.e[i as int * self@.cols + t as int]);
                        assert(c_int_bnd(a@, b1));
                        assert(c_int_bnd(b@, b2));
                        assert(c_int_bnd(p@, 2 * (b1 * b2)));
                        assert(c_int_bnd(acc@, t as int * (2 * (b1 * b2))));
                    }
                    assert forall|u: int| 0 <= u < t implies c_wf(#[trigger] f(u)) by {
                        lemma_rc_index(i as int, u, self@.rows, self@.cols);
                        lemma_c_mul_wf(m_idx(self@, i as int, u), v@[u]);
                    }
                    lemma_csum_wf(t as nat, f);
                    lemma_c_mul_wf(a@, b@);
                    lemma_c_eq_trans(p@, c_mul(a@, b@), f(t as int));
                    lemma_c_eq_add2(acc2@, acc@, p@, csum(t as nat, f), f(t as int));
                }
                acc = acc2;
                t = t + 1;
            }
            proof {
                assert forall|b1: int, b2: int|
                    #![trigger m_int_bnd(self@, b1), v_int_bnd(v@, b2)]
                    0 <= b1 && 0 <= b2 && m_int_bnd(self@, b1) && v_int_bnd(v@, b2)
                        && self@.cols == v@.len()
                        && self@.cols * (2 * (b1 * b2)) <= 0x7fff_ffff_ffff_ffff_ffff_ffff_ffff_ffff
                    implies c_int_bnd(acc@, self@.cols * (2 * (b1 * b2))) by {
                    lemma_int_step_bounds(b1, b2, self@.cols, self@.cols);
                    assert(c_int_bnd(acc@, self@.cols * (2 * (b1 * b2))));
                }
            }
            data.push(acc);
            i = i + 1;
        }
        Ok(Vector { data })
    }
}

/// Conjugation respects value equality.
pub proof fn lemma_c_conj_congruence(a: Cv, b: Cv)
    requires
        c_eq(a, b),
    ensures
        c_eq(c_conj(a), c_conj(b)),
{
    crate::rational::lemma_q_neg_congruence(a.im, b.im);
}

/// The squared norm respects entrywise value equality; the second
/// sequence must be well formed and of the same length.
pub proof fn lemma_v_norm2_congruence(a: Seq<Cv>, b: Seq<Cv>)
    requires
        v_wf(a),
        v_wf(b),
        a.len() == b.len(),
        forall|i: int| 0 <= i < a.len() ==> c_eq(#[trigger] a[i], b[i]),
    ensures
        q_eq(v_norm2(a), v_norm2(b)),
{
    let f = |i: int| c_mul(c_conj(a[i]), a[i]);
    let g = |i: int| c_mul(c_conj(b[i]), b[i]);
    assert forall|i: int| 0 <= i < a.len() implies c_wf(#[trigger] f(i)) by {
        lemma_c_mul_wf(c_conj(a[i]), a[i]);
    }
    assert forall|i: int| 0 <= i < a.len() implies c_wf(#[trigger] g(i)) by {
        lemma_c_mul_wf(c_conj(b[i]), b[i]);
    }
    assert forall|i: int| 0 <= i < a.len() implies c_eq(#[trigger] f(i), g(i)) by {
        lemma_c_conj_congruence(a[i], b[i]);
        crate::complex::lemma_c_mul_congruence(c_conj(a[i]), a[i],
            c_conj(b[i]), b[i]);
    }
    crate::matrix::lemma_csum_congruence(a.len(), f, g);
}

/// Applying a well-formed matrix to a well-formed vector gives
/// well-formed entries.
pub proof fn lemma_mv_apply_wf(m: Mv, v: Seq<Cv>)
    requires
        m_wf(m),
        v_wf(v),
        m.cols == v.len(),
    ensures
        v_wf(mv_apply(m, v)),
        mv_apply(m, v).len() == m.rows,
{
    assert forall|i: int| 0 <= i < mv_apply(m, v).len()
        implies c_wf(#[trigger] mv_apply(m, v)[i]) by {
        let f = |t: int| c_mul(m_idx(m, i, t), v[t]);
        assert forall|u: int| 0 <= u < m.cols implies c_wf(#[trigger] f(u)) by {
            lemma_rc_index(i, u, m.rows, m.cols);
            lemma_c_mul_wf(m_idx(m, i, u), v[u]);
        }
        lemma_csum_wf(m.cols as nat, f);
    }
}

/// The squared norm of a well-formed sequence is a well-formed scalar.
pub proof fn lemma_v_norm2_wf(a: Seq<Cv>)
    requires
        v_wf(a),
    ensures
        q_wf(v_norm2(a)),
        c_wf(v_inner(a, a)),
{
    let f = |i: int| c_mul(c_conj(a[i]), a[i]);
    assert forall|i: int| 0 <= i < a.len() implies c_wf(#[trigger] f(i)) by {
        lemma_c_mul_wf(c_conj(a[i]), a[i]);
    }
    lemma_csum_wf(a.len(), f);
}

/// Chains the congruences for a normalized outer-product entry: if
/// scale(n2, v) has the value of num, num has the value of target, and
/// n2 has the value of norm2, then scale(norm2, v) has the value of
/// target.
pub proof fn lemma_scale_congruence_chain(norm2: Qv, n2: Qv, v: Cv, num: Cv, target: Cv)
    requires
        q_wf(n2),
        c_wf(v),
        c_wf(num),
        c_wf(target),
        q_eq(n2, norm2),
        c_eq(c_scale(n2, v), num),
        c_eq(num, target),
    ensures
        c_eq(c_scale(norm2, v), target),
{
    crate::rational::lemma_q_eq_sym(n2, norm2);
    lemma_q_mul_congruence(norm2, v.re, n2, v.re);
    lemma_q_mul_congruence(norm2, v.im, n2, v.im);
    lemma_q_ops_wf(n2, v.re);
    lemma_q_ops_wf(n2, v.im);
    lemma_q_eq_trans(q_mul(norm2, v.re), q_mul(n2, v.re), num.re);
    lemma_q_eq_trans(q_mul(norm2, v.im), q_mul(n2, v.im), num.im);
    lemma_q_eq_trans(q_mul(norm2, v.re), num.re, target.re);
    lemma_q_eq_trans(q_mul(norm2, v.im), num.im, target.im);
}

} // verus!
