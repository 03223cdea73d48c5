use vstd::prelude::*;
use crate::errors::KernelError;
use crate::complex::{Complex, Cv, c_zero, c_one, c_from_int, c_conj};
use crate::rational::{Rational, Qv, q_zero, q_from_int};
use crate::matrix::{Matrix, m_idx, m_conj_transpose, lemma_rc_index, lemma_rc_split};
use crate::vector::Vector;

verus! {

/// The value at (i, j) of the Dirac gamma matrix with index mu, in the
/// Dirac representation.
pub open spec fn gamma_entry(mu: int, i: int, j: int) -> Cv {
    if mu == 0 {
        if i == j {
            if i < 2 {
                c_one()
            } else {
                c_from_int(-1)
            }
        } else {
            c_zero()
        }
    } else if mu == 1 {
        if i + j == 3 {
            if i < 2 {
                c_one()
            } else {
                c_from_int(-1)
            }
        } else {
            c_zero()
        }
    } else if mu == 2 {
        if i + j == 3 {
            if i < 2 {
                Cv { re: q_zero(), im: q_from_int(-1) }
            } else {
                Cv { re: q_zero(), im: q_from_int(1) }
            }
        } else {
            c_zero()
        }
    } else {
        if j == i + 2 {
            if i == 0 {
                c_one()
            } else {
                c_from_int(-1)
            }
        } else if i == j + 2 {
            if j == 0 {
                c_from_int(-1)
            } else {
                c_one()
            }
        } else {
            c_zero()
        }
    }
}

/// The Dirac gamma matrix with index mu (0 through 3), a 4 x 4 matrix of
/// exact unit entries in the Dirac representation.
pub fn gamma(mu: usize) -> (r: Matrix)
    requires
        mu <= 3,
    ensures
        r.wf(),
        r@.rows == 4,
        r@.cols == 4,
        forall|i: int, j: int| 0 <= i < 4 && 0 <= j < 4
            ==> #[trigger] m_idx(r@, i, j) == gamma_entry(mu as int, i, j),
{
    let z = Complex::zero();
    let o = Complex::one();
    let m1 = Complex::from_int(-1);
    let mi = Complex::new(Rational::from_int(0), Rational::from_int(-1));
    let pi = Complex::new(Rational::from_int(0), Rational::from_int(1));
    let entries: Vec<Complex> = if mu == 0 {
        vec![
            o, z, z, z,
            z, o, z, z,
            z, z, m1, z,
            z, z, z, m1,
        ]
    } else if mu == 1 {
        vec![
            z, z, z, o,
            z, z, o, z,
            z, m1, z, z,
            m1, z, z, z,
        ]
    } else if mu == 2 {
        vec![
            z, z, z, mi,
            z, z, mi, z,
            z, pi, z, z,
            pi, z, z, z,
        ]
    } else {
        vec![
            z, z, o, z,
            z, z, z, m1,
            m1, z, z, z,
            z, o, z, z,
        ]
    };
    let m = match Matrix::from_array(4, 4, entries) {
        Ok(v) => v,
        Err(_) => {
            // 16 entries always match a 4 x 4 shape.
            proof {
                assert(false);
            }
            Matrix::from_array(0, 0, Vec::new()).unwrap()
        },
    };
    proof {
        assert forall|i: int, j: int| 0 <= i < 4 && 0 <= j < 4
            implies #[trigger] m_idx(m@, i, j) == gamma_entry(mu as int, i, j) by {
            lemma_rc_index(i, j, 4, 4);
        }
    }
    m
}

/// The i-th standard basis state of the given dimension: one at `index`
/// and zero elsewhere. An index outside the space is an
/// `IndexOutOfRange`.
pub fn basis_state(dim: usize, index: usize) -> (r: Result<Vector, KernelError>)
    ensures
        index < dim ==> (r matches Ok(v) && v.wf() && v@.len() == dim as int
            && (forall|i: int| 0 <= i < dim as int
                ==> #[trigger] v@[i] == (if i == index as int { c_one() } else { c_zero() }))),
        index >= dim <==> (r matches Err(e) && e == KernelError::IndexOutOfRange),
    {
    if index >= dim {
        return Err(KernelError::IndexOutOfRange);
    }
    let mut v = Vector::zeros(dim);
    match v.set(index, Complex::one()) {
        Ok(u) => u,
        Err(_) => { return Err(KernelError::IndexOutOfRange); },
    };
    Ok(v)
}

/// The occupation projector used as the simplified fermionic raising
/// operator on a mode: a dim x dim matrix with a single one at
/// (index, index).
pub fn create_operator(dim: usize, index: usize) -> (r: Result<Matrix, KernelError>)
    ensures
        r matches Ok(m) ==> m.wf() && index < dim
            && m@.rows == dim as int && m@.cols == dim as int
            && (forall|i: int, j: int| 0 <= i < dim as int && 0 <= j < dim as int
                ==> #[trigger] m_idx(m@, i, j)
                    == (if i == j && i == index as int { c_one() } else { c_zero() })),
        index < dim && dim * dim <= usize::MAX ==> r is Ok,
        index >= dim ==> (r matches Err(e) && e == KernelError::IndexOutOfRange),
    {
    if index >= dim {
        return Err(KernelError::IndexOutOfRange);
    }
    let mut m = match Matrix::zeros(dim, dim) {
        Ok(v) => v,
        Err(e) => { return Err(e); },
    };
    match m.set(index, index, Complex::one()) {
        Ok(u) => u,
        Err(_) => { return Err(KernelError::IndexOutOfRange); },
    };
    proof {
        assert forall|i: int, j: int| 0 <= i < dim as int && 0 <= j < dim as int
            implies #[trigger] m_idx(m@, i, j)
                == (if i == j && i == index as int { c_one() } else { c_zero() }) by {
            lemma_rc_index(i, j, dim as int, dim as int);
            lemma_rc_index(index as int, index as int, dim as int, dim as int);
        }
    }
    Ok(m)
}

/// The matching lowering operator: the conjugate transpose of the
/// raising operator.
pub fn annihilate_operator(dim: usize, index: usize) -> (r: Result<Matrix, KernelError>)
    ensures
        r matches Ok(m) ==> m.wf() && index < dim
            && m@ == m_conj_transpose(create_spec(dim as int, index as int)),
        index < dim && dim * dim <= usize::MAX ==> r is Ok,
        index >= dim ==> (r matches Err(e) && e == KernelError::IndexOutOfRange),
    {
    let c = match create_operator(dim, index) {
        Ok(v) => v,
        Err(e) => { return Err(e); },
    };
    let a = c.conj_transpose();
    proof {
        lemma_create_spec_matches(c@, dim as int, index as int);
        assert(a@ == m_conj_transpose(create_spec(dim as int, index as int)));
    }
    Ok(a)
}

/// The occupation projector as a model.
pub open spec fn create_spec(dim: int, index: int) -> crate::matrix::Mv {
    crate::matrix::Mv {
        rows: dim,
        cols: dim,
        e: Seq::new((dim * dim) as nat, |k: int|
            if k == index * dim + index { c_one() } else { c_zero() }),
    }
}

/// A matrix whose entries match the projector pattern is the projector
/// model.
proof fn lemma_create_spec_matches(m: crate::matrix::Mv, dim: int, index: int)
    requires
        0 <= index < dim,
        m.rows == dim,
        m.cols == dim,
        m.e.len() == dim * dim,
        forall|i: int, j: int| 0 <= i < dim && 0 <= j < dim
            ==> #[trigger] m_idx(m, i, j)
                == (if i == j && i == index { c_one() } else { c_zero() }),
    ensures
        m == create_spec(dim, index),
{
    assert forall|k: int| 0 <= k < m.e.len()
        implies m.e[k] == create_spec(dim, index).e[k] by {
        lemma_rc_split(k, dim, dim);
        let i = k / dim;
        let j = k % dim;
        lemma_rc_index(i, j, dim, dim);
        lemma_rc_index(index, index, dim, dim);
        assert(m.e[k] == m_idx(m, i, j));
        if k == index * dim + index {
            assert(i == index && j == index);
        } else {
            assert(!(i == j && i == index));
        }
    }
    assert(m.e =~= create_spec(dim, index).e);
    assert(m =~= create_spec(dim, index));
}

/// The z-axis spin-1 operator: diag(1, 0, -1).
pub fn spin_z() -> (r: Matrix)
    ensures
        r.wf(),
        r@.rows == 3,
        r@.cols == 3,
        forall|i: int, j: int| 0 <= i < 3 && 0 <= j < 3
            ==> #[trigger] m_idx(r@, i, j)
                == (if i == j { c_from_int(1 - i) } else { c_zero() }),
{
    let z = Complex::zero();
    let entries: Vec<Complex> = vec![
        Complex::from_int(1), z, z,
        z, z, z,
        z, z, Complex::from_int(-1),
    ];
    let m = match Matrix::from_array(3, 3, entries) {
        Ok(v) => v,
        Err(_) => {
            proof {
                assert(false);
            }
            Matrix::from_array(0, 0, Vec::new()).unwrap()
        },
    };
    proof {
        assert forall|i: int, j: int| 0 <= i < 3 && 0 <= j < 3
            implies #[trigger] m_idx(m@, i, j)
                == (if i == j { c_from_int(1 - i) } else { c_zero() }) by {
            lemma_rc_index(i, j, 3, 3);
        }
    }
    m
}

} // verus!
