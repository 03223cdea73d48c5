use qkernel::{Complex, KernelError, Matrix, Rational, Vector};

fn r(n: i64, d: i64) -> Rational {
    Rational::new(n, d).unwrap()
}

fn c(re: i64, im: i64) -> Complex {
    Complex::new(Rational::from_int(re), Rational::from_int(im))
}

fn rat_f64(x: &Rational) -> f64 {
    (x.numerator() as f64) / (x.denominator() as f64)
}

fn re_f64(z: &Complex) -> f64 {
    rat_f64(&z.re())
}

fn im_f64(z: &Complex) -> f64 {
    rat_f64(&z.im())
}

fn rat_is(x: &Rational, n: i128, d: i128) -> bool {
    x.numerator() * d == n * x.denominator()
}

fn complex_is(z: &Complex, re_n: i128, re_d: i128, im_n: i128, im_d: i128) -> bool {
    rat_is(&z.re(), re_n, re_d) && rat_is(&z.im(), im_n, im_d)
}

#[test]
fn complex_scenario_arithmetic() {
    let a = c(1, 2);
    let b = c(3, -1);
    let sum = a.add(&b).unwrap();
    assert!(complex_is(&sum, 4, 1, 1, 1));
    let prod = a.mul(&b).unwrap();
    assert!(complex_is(&prod, 5, 1, 5, 1));
    let conj = a.conj();
    assert!(complex_is(&conj, 1, 1, -2, 1));
}

#[test]
fn conjugation_is_an_involution() {
    let a = Complex::new(r(-7, 3), r(11, 5));
    let back = a.conj().conj();
    assert!(complex_is(&back, -7, 3, 11, 5));
}

#[test]
fn modulus_is_multiplicative() {
    let a = c(3, 4);
    let b = c(5, 12);
    let ab = a.mul(&b).unwrap();
    let ma = a.modulus_squared().unwrap().sqrt().unwrap();
    let mb = b.modulus_squared().unwrap().sqrt().unwrap();
    let mab = ab.modulus_squared().unwrap().sqrt().unwrap();
    assert!(rat_is(&ma, 5, 1));
    assert!(rat_is(&mb, 13, 1));
    assert!(rat_is(&mab, 65, 1));
}

#[test]
fn rational_arithmetic_is_exact() {
    let x = r(1, 2);
    let y = r(1, 3);
    let sum = x.add(&y).unwrap();
    assert!(rat_is(&sum, 5, 6));
    let prod = x.mul(&y).unwrap();
    assert!(rat_is(&prod, 1, 6));
    let diff = x.sub(&y).unwrap();
    assert!(rat_is(&diff, 1, 6));
    let quot = x.div(&y).unwrap();
    assert!(rat_is(&quot, 3, 2));
}

#[test]
fn rational_division_by_zero_is_domain_error() {
    let x = r(1, 2);
    let z = Rational::from_int(0);
    assert_eq!(x.div(&z).unwrap_err(), KernelError::DomainError);
    assert_eq!(Rational::new(1, 0).unwrap_err(), KernelError::DomainError);
}

#[test]
fn rational_square_roots() {
    assert!(rat_is(&r(25, 1).sqrt().unwrap(), 5, 1));
    assert!(rat_is(&r(9, 4).sqrt().unwrap(), 3, 2));
    assert_eq!(r(2, 1).sqrt().unwrap_err(), KernelError::NumericalError);
    assert_eq!(r(-1, 1).sqrt().unwrap_err(), KernelError::DomainError);
}

#[test]
fn normalize_keeps_a_unit_vector() {
    let v = Vector::from_entries(vec![c(1, 0), c(0, 0)]);
    let w = v.normalize().unwrap();
    assert!(complex_is(&w.get(0).unwrap(), 1, 1, 0, 1));
    assert!(complex_is(&w.get(1).unwrap(), 0, 1, 0, 1));
}

#[test]
fn normalize_scales_a_three_four_vector() {
    let v = Vector::from_entries(vec![c(3, 0), c(4, 0)]);
    let w = v.normalize().unwrap();
    assert!(complex_is(&w.get(0).unwrap(), 3, 5, 0, 1));
    assert!(complex_is(&w.get(1).unwrap(), 4, 5, 0, 1));
}

#[test]
fn normalize_of_zero_vector_is_domain_error() {
    let v = Vector::zeros(3);
    assert_eq!(v.normalize().unwrap_err(), KernelError::DomainError);
}

#[test]
fn inner_product_conjugates_the_left_side() {
    let a = Vector::from_entries(vec![c(0, 1), c(2, 0)]);
    let b = Vector::from_entries(vec![c(0, 1), c(1, 0)]);
    // <a, b> = conj(i)*i + conj(2)*1 = 1 + 2 = 3.
    let ip = a.inner_product(&b).unwrap();
    assert!(complex_is(&ip, 3, 1, 0, 1));
}

#[test]
fn mismatched_shapes_are_rejected() {
    let a = Matrix::zeros(2, 2).unwrap();
    let b = Matrix::zeros(2, 3).unwrap();
    assert_eq!(a.add(&b).unwrap_err(), KernelError::DimensionMismatch);
    assert_eq!(b.mul(&b).unwrap_err(), KernelError::DimensionMismatch);
    let v = Vector::zeros(3);
    assert_eq!(a.mul_vector(&v).unwrap_err(), KernelError::DimensionMismatch);
    let w = Vector::zeros(2);
    assert_eq!(w.add(&v).unwrap_err(), KernelError::DimensionMismatch);
}

#[test]
fn out_of_range_indices_are_rejected() {
    let m = Matrix::zeros(2, 2).unwrap();
    assert_eq!(m.get(2, 0).unwrap_err(), KernelError::IndexOutOfRange);
    assert_eq!(m.get(0, 5).unwrap_err(), KernelError::IndexOutOfRange);
    let mut w = Vector::zeros(2);
    assert_eq!(w.get(2).unwrap_err(), KernelError::IndexOutOfRange);
    assert_eq!(w.set(7, c(1, 0)).unwrap_err(), KernelError::IndexOutOfRange);
}

fn diag2(a: Complex, b: Complex) -> Matrix {
    Matrix::from_array(2, 2, vec![a, c(0, 0), c(0, 0), b]).unwrap()
}

#[test]
fn evolution_of_diagonal_hamiltonian_gives_diagonal_phases() {
    // H = diag(0, 1), dt close to pi, hbar = 1: U is close to diag(1, -1).
    let h = diag2(c(0, 0), c(1, 0));
    let x = qkernel::evolve::scale_generator(&h, &r(22, 7), &Rational::from_int(1)).unwrap();
    let u = qkernel::evolve::taylor_exp(&x, 14).unwrap();
    let u00 = u.get(0, 0).unwrap();
    assert!(complex_is(&u00, 1, 1, 0, 1));
    let u01 = u.get(0, 1).unwrap();
    assert!(complex_is(&u01, 0, 1, 0, 1));
    let u11 = u.get(1, 1).unwrap();
    assert!((re_f64(&u11) + 1.0).abs() < 1e-2);
    assert!(im_f64(&u11).abs() < 1e-2);
}

#[test]
fn series_operator_is_unitary_within_tolerance() {
    // H = [[0, 1], [1, 0]] (Hermitian), dt = 1/4: the truncated series
    // satisfies U * U^dagger = I within 1e-6.
    let h = Matrix::from_array(2, 2, vec![c(0, 0), c(1, 0), c(1, 0), c(0, 0)]).unwrap();
    let x = qkernel::evolve::scale_generator(&h, &r(1, 4), &Rational::from_int(1)).unwrap();
    let u = qkernel::evolve::taylor_exp(&x, 8).unwrap();
    let prod = u.mul(&u.conj_transpose()).unwrap();
    for i in 0..2 {
        for j in 0..2 {
            let e = prod.get(i, j).unwrap();
            let expect = if i == j { 1.0 } else { 0.0 };
            assert!((re_f64(&e) - expect).abs() < 1e-6);
            assert!(im_f64(&e).abs() < 1e-6);
        }
    }
}

#[test]
fn density_evolution_keeps_hermiticity_and_trace() {
    // rho = I/2, U = diag(1, i): an exact unitary.
    let rho = diag2(
        Complex::new(r(1, 2), Rational::from_int(0)),
        Complex::new(r(1, 2), Rational::from_int(0)),
    );
    let u = diag2(c(1, 0), c(0, 1));
    let evolved = qkernel::evolve::evolve_density(&u, &rho).unwrap();
    // Hermitian: entry (i, j) equals the conjugate of entry (j, i).
    for i in 0..2 {
        for j in 0..2 {
            let a = evolved.get(i, j).unwrap();
            let b = evolved.get(j, i).unwrap().conj();
            assert!((re_f64(&a) - re_f64(&b)).abs() < 1e-12);
            assert!((im_f64(&a) - im_f64(&b)).abs() < 1e-12);
        }
    }
    // Trace stays exactly one.
    let t = evolved.trace().unwrap();
    assert!(complex_is(&t, 1, 1, 0, 1));
}

#[test]
fn bell_state_marginals_are_maximally_mixed() {
    // |Phi+> is proportional to |00> + |11>; both marginals are I/2.
    let joint = Vector::from_entries(vec![c(1, 0), c(0, 0), c(0, 0), c(1, 0)]);
    let rho = joint.density_from_state().unwrap();
    let ra = rho.partial_trace_first(2).unwrap();
    let rb = rho.partial_trace_second(2).unwrap();
    for m in [&ra, &rb] {
        for i in 0..2 {
            for j in 0..2 {
                let e = m.get(i, j).unwrap();
                if i == j {
                    assert!(complex_is(&e, 1, 2, 0, 1));
                } else {
                    assert!(complex_is(&e, 0, 1, 0, 1));
                }
            }
        }
    }
}

#[test]
fn partial_trace_recovers_product_factors() {
    // rho_a = diag(3/4, 1/4), rho_b = [[1/2, 1/2], [1/2, 1/2]]: tracing
    // out either factor of the product recovers the other exactly.
    let half = Complex::new(r(1, 2), Rational::from_int(0));
    let ra = diag2(
        Complex::new(r(3, 4), Rational::from_int(0)),
        Complex::new(r(1, 4), Rational::from_int(0)),
    );
    let rb = Matrix::from_array(2, 2, vec![half, half, half, half]).unwrap();
    let joint = ra.tensor_product(&rb).unwrap();
    let got_a = joint.partial_trace_first(2).unwrap();
    let got_b = joint.partial_trace_second(2).unwrap();
    for i in 0..2 {
        for j in 0..2 {
            let ea = got_a.get(i, j).unwrap();
            let xa = ra.get(i, j).unwrap();
            assert!((re_f64(&ea) - re_f64(&xa)).abs() < 1e-12);
            assert!(im_f64(&ea).abs() < 1e-12);
            let eb = got_b.get(i, j).unwrap();
            let xb = rb.get(i, j).unwrap();
            assert!((re_f64(&eb) - re_f64(&xb)).abs() < 1e-12);
            assert!(im_f64(&eb).abs() < 1e-12);
        }
    }
}

#[test]
fn tensor_product_is_associative_on_values() {
    let a = Matrix::from_array(2, 2, vec![c(1, 0), c(0, 2), c(3, 0), c(0, -1)]).unwrap();
    let b = Matrix::from_array(2, 2, vec![c(0, 1), c(1, 1), c(2, 0), c(0, 0)]).unwrap();
    let dd = Matrix::from_array(2, 2, vec![c(1, 1), c(0, 0), c(0, 3), c(2, 2)]).unwrap();
    let left = a.tensor_product(&b).unwrap().tensor_product(&dd).unwrap();
    let right = a.tensor_product(&b.tensor_product(&dd).unwrap()).unwrap();
    assert_eq!(left.rows(), right.rows());
    assert_eq!(left.cols(), right.cols());
    for i in 0..8 {
        for j in 0..8 {
            let l = left.get(i, j).unwrap();
            let rr = right.get(i, j).unwrap();
            assert!((re_f64(&l) - re_f64(&rr)).abs() < 1e-12);
            assert!((im_f64(&l) - im_f64(&rr)).abs() < 1e-12);
        }
    }
}

#[test]
fn tensor_product_of_state_vectors() {
    let a = Vector::from_entries(vec![c(1, 0), c(2, 0)]);
    let b = Vector::from_entries(vec![c(0, 1), c(3, 0)]);
    let k = a.tensor_product(&b).unwrap();
    assert_eq!(k.dim(), 4);
    assert!(complex_is(&k.get(0).unwrap(), 0, 1, 1, 1));
    assert!(complex_is(&k.get(1).unwrap(), 3, 1, 0, 1));
    assert!(complex_is(&k.get(2).unwrap(), 0, 1, 2, 1));
    assert!(complex_is(&k.get(3).unwrap(), 6, 1, 0, 1));
}

#[test]
fn commutator_of_pauli_like_matrices() {
    let sz = diag2(c(1, 0), c(-1, 0));
    let sx = Matrix::from_array(2, 2, vec![c(0, 0), c(1, 0), c(1, 0), c(0, 0)]).unwrap();
    let comm = sz.commutator(&sx).unwrap();
    assert!(complex_is(&comm.get(0, 0).unwrap(), 0, 1, 0, 1));
    assert!(complex_is(&comm.get(0, 1).unwrap(), 2, 1, 0, 1));
    assert!(complex_is(&comm.get(1, 0).unwrap(), -2, 1, 0, 1));
    assert!(complex_is(&comm.get(1, 1).unwrap(), 0, 1, 0, 1));
}

#[test]
fn expectation_value_of_diagonal_observable() {
    let rho = diag2(
        Complex::new(r(3, 4), Rational::from_int(0)),
        Complex::new(r(1, 4), Rational::from_int(0)),
    );
    let sz = diag2(c(1, 0), c(-1, 0));
    let e = rho.expectation_of(&sz).unwrap();
    assert!(complex_is(&e, 1, 2, 0, 1));
}

#[test]
fn transpose_and_conjugate_transpose() {
    let m = Matrix::from_array(2, 2, vec![c(1, 2), c(3, 4), c(5, 6), c(7, 8)]).unwrap();
    let t = m.transpose();
    assert!(complex_is(&t.get(0, 1).unwrap(), 5, 1, 6, 1));
    let ct = m.conj_transpose();
    assert!(complex_is(&ct.get(0, 1).unwrap(), 5, 1, -6, 1));
    assert!(complex_is(&ct.get(1, 0).unwrap(), 3, 1, -4, 1));
}

#[test]
fn hermitize_repairs_asymmetry() {
    let m = Matrix::from_array(2, 2, vec![c(1, 0), c(2, 2), c(0, 0), c(3, 0)]).unwrap();
    let h = m.hermitize().unwrap();
    // (M + M^dagger)/2 has entry (0,1) = (1, 1i) and entry (1,0) = (1, -1i).
    assert!(complex_is(&h.get(0, 1).unwrap(), 1, 1, 1, 1));
    assert!(complex_is(&h.get(1, 0).unwrap(), 1, 1, -1, 1));
    assert!(complex_is(&h.get(0, 0).unwrap(), 1, 1, 0, 1));
}

#[test]
fn factorial_values_and_overflow() {
    assert_eq!(qkernel::evolve::factorial(0).unwrap(), 1);
    assert_eq!(qkernel::evolve::factorial(5).unwrap(), 120);
    assert_eq!(qkernel::evolve::factorial(20).unwrap(), 2432902008176640000);
    assert_eq!(
        qkernel::evolve::factorial(30).unwrap_err(),
        KernelError::NumericalError
    );
}

#[test]
fn evolve_vector_keeps_unit_norm() {
    // U = diag(1, i) applied to (3/5, 4/5): the result keeps norm one.
    let u = diag2(c(1, 0), c(0, 1));
    let psi = Vector::from_entries(vec![
        Complex::new(r(3, 5), Rational::from_int(0)),
        Complex::new(r(4, 5), Rational::from_int(0)),
    ]);
    let next = qkernel::evolve::evolve_vector(&u, &psi).unwrap();
    let n2 = next.norm_squared().unwrap();
    assert!(rat_is(&n2, 1, 1));
    assert!(complex_is(&next.get(0).unwrap(), 3, 5, 0, 1));
    assert!(complex_is(&next.get(1).unwrap(), 0, 1, 4, 5));
}

#[test]
fn particle_statistics_tagging() {
    let f = qkernel::ParticleType::Fermion;
    let b = qkernel::ParticleType::Boson;
    assert!(f.excludes());
    assert!(!b.excludes());
    assert_ne!(f, b);
}

#[test]
fn basis_vectors_are_orthonormal() {
    let dim = 3;
    let mut basis: Vec<Vector> = Vec::new();
    for i in 0..dim {
        let mut v = Vector::zeros(dim);
        v.set(i, c(1, 0)).unwrap();
        basis.push(v);
    }
    for i in 0..dim {
        for j in 0..dim {
            let ip = basis[i].inner_product(&basis[j]).unwrap();
            let expect = if i == j { 1 } else { 0 };
            assert!(complex_is(&ip, expect, 1, 0, 1));
        }
    }
}

#[test]
fn pade_operator_matches_diagonal_phases() {
    // H = diag(0, 1), dt close to pi: the order-6 Pade approximant of
    // exp(-i H dt) is close to diag(1, -1).
    let h = diag2(c(0, 0), c(1, 0));
    let x = qkernel::evolve::scale_generator(&h, &r(25, 8), &Rational::from_int(1)).unwrap();
    let u = qkernel::evolve::pade6_exp(&x).unwrap();
    let u00 = u.get(0, 0).unwrap();
    assert!((re_f64(&u00) - 1.0).abs() < 1e-9);
    assert!(im_f64(&u00).abs() < 1e-9);
    let u01 = u.get(0, 1).unwrap();
    assert!(complex_is(&u01, 0, 1, 0, 1));
    let u11 = u.get(1, 1).unwrap();
    assert!((re_f64(&u11) + 1.0).abs() < 5e-2);
    assert!(im_f64(&u11).abs() < 5e-2);
}

#[test]
fn complex_division_round_trips() {
    let a = c(5, 5);
    let b = c(3, -1);
    let q = a.div(&b).unwrap();
    assert!(complex_is(&q, 1, 1, 2, 1));
    let back = q.mul(&b).unwrap();
    assert!(complex_is(&back, 5, 1, 5, 1));
    assert_eq!(a.div(&c(0, 0)).unwrap_err(), KernelError::DomainError);
}

#[test]
fn gamma_matrices_have_unit_entries() {
    let g0 = qkernel::operators::gamma(0);
    assert!(complex_is(&g0.get(0, 0).unwrap(), 1, 1, 0, 1));
    assert!(complex_is(&g0.get(3, 3).unwrap(), -1, 1, 0, 1));
    assert!(complex_is(&g0.get(0, 1).unwrap(), 0, 1, 0, 1));
    let g1 = qkernel::operators::gamma(1);
    assert!(complex_is(&g1.get(0, 3).unwrap(), 1, 1, 0, 1));
    assert!(complex_is(&g1.get(3, 0).unwrap(), -1, 1, 0, 1));
    let g2 = qkernel::operators::gamma(2);
    assert!(complex_is(&g2.get(0, 3).unwrap(), 0, 1, -1, 1));
    assert!(complex_is(&g2.get(3, 0).unwrap(), 0, 1, 1, 1));
    let g3 = qkernel::operators::gamma(3);
    assert!(complex_is(&g3.get(0, 2).unwrap(), 1, 1, 0, 1));
    assert!(complex_is(&g3.get(1, 3).unwrap(), -1, 1, 0, 1));
}

#[test]
fn gamma_zero_squares_to_identity() {
    let g0 = qkernel::operators::gamma(0);
    let sq = g0.mul(&g0).unwrap();
    for i in 0..4 {
        for j in 0..4 {
            let e = sq.get(i, j).unwrap();
            let expect = if i == j { 1 } else { 0 };
            assert!(complex_is(&e, expect, 1, 0, 1));
        }
    }
}

#[test]
fn ladder_operators_act_on_basis_states() {
    let create = qkernel::operators::create_operator(3, 1).unwrap();
    let annihilate = qkernel::operators::annihilate_operator(3, 1).unwrap();
    let e1 = qkernel::operators::basis_state(3, 1).unwrap();
    let kept = create.mul_vector(&e1).unwrap();
    assert!(complex_is(&kept.get(1).unwrap(), 1, 1, 0, 1));
    let e0 = qkernel::operators::basis_state(3, 0).unwrap();
    let dropped = annihilate.mul_vector(&e0).unwrap();
    assert!(complex_is(&dropped.get(0).unwrap(), 0, 1, 0, 1));
    assert_eq!(
        qkernel::operators::basis_state(3, 7).unwrap_err(),
        KernelError::IndexOutOfRange
    );
}

#[test]
fn spin_z_diagonal_values() {
    let sz = qkernel::operators::spin_z();
    assert!(complex_is(&sz.get(0, 0).unwrap(), 1, 1, 0, 1));
    assert!(complex_is(&sz.get(1, 1).unwrap(), 0, 1, 0, 1));
    assert!(complex_is(&sz.get(2, 2).unwrap(), -1, 1, 0, 1));
}

#[test]
fn density_evolution_with_off_diagonal_state() {
    // rho = [[3/4, 1/8 + i/8], [1/8 - i/8, 1/4]] is Hermitian with trace
    // one; U = [[0, 1], [1, 0]] is an exact unitary.
    let rho = Matrix::from_array(2, 2, vec![
        Complex::new(r(3, 4), Rational::from_int(0)),
        Complex::new(r(1, 8), r(1, 8)),
        Complex::new(r(1, 8), r(-1, 8)),
        Complex::new(r(1, 4), Rational::from_int(0)),
    ]).unwrap();
    let u = Matrix::from_array(2, 2, vec![c(0, 0), c(1, 0), c(1, 0), c(0, 0)]).unwrap();
    let evolved = qkernel::evolve::evolve_density(&u, &rho).unwrap();
    // Conjugation by the swap exchanges the diagonal entries.
    assert!(complex_is(&evolved.get(0, 0).unwrap(), 1, 4, 0, 1));
    assert!(complex_is(&evolved.get(1, 1).unwrap(), 3, 4, 0, 1));
    assert!(complex_is(&evolved.get(0, 1).unwrap(), 1, 8, -1, 8));
    assert!(complex_is(&evolved.get(1, 0).unwrap(), 1, 8, 1, 8));
    let t = evolved.trace().unwrap();
    assert!(complex_is(&t, 1, 1, 0, 1));
}

#[test]
fn empty_matrices_are_consistent() {
    let a = Matrix::zeros(0, 0).unwrap();
    assert_eq!(a.rows(), 0);
    assert_eq!(a.cols(), 0);
    let t = a.trace().unwrap();
    assert!(complex_is(&t, 0, 1, 0, 1));
    let k = a.tensor_product(&a).unwrap();
    assert_eq!(k.rows(), 0);
    let s = a.add(&a).unwrap();
    assert_eq!(s.cols(), 0);
}

#[test]
fn matrix_product_matches_hand_computation() {
    // [[1, i], [2, 0]] * [[3, 1], [0, i]]:
    // row 0 is [1*3 + i*0, 1*1 + i*i] = [3, 0]; row 1 is [6, 2].
    let a = Matrix::from_array(2, 2, vec![c(1, 0), c(0, 1), c(2, 0), c(0, 0)]).unwrap();
    let b = Matrix::from_array(2, 2, vec![c(3, 0), c(1, 0), c(0, 0), c(0, 1)]).unwrap();
    let p = a.mul(&b).unwrap();
    assert!(complex_is(&p.get(0, 0).unwrap(), 3, 1, 0, 1));
    assert!(complex_is(&p.get(0, 1).unwrap(), 0, 1, 0, 1));
    assert!(complex_is(&p.get(1, 0).unwrap(), 6, 1, 0, 1));
    assert!(complex_is(&p.get(1, 1).unwrap(), 2, 1, 0, 1));
}

#[test]
fn periodic_neighbors_wrap_at_the_boundary() {
    let n = qkernel::lattice::periodic_neighbors(5, 0, 4, 2).unwrap();
    assert_eq!(n.len(), 6);
    assert_eq!(n[0], (4, 4, 2));
    assert_eq!(n[1], (1, 4, 2));
    assert_eq!(n[2], (0, 3, 2));
    assert_eq!(n[3], (0, 0, 2));
    assert_eq!(n[4], (0, 4, 1));
    assert_eq!(n[5], (0, 4, 3));
    assert_eq!(
        qkernel::lattice::periodic_neighbors(5, 5, 0, 0).unwrap_err(),
        KernelError::IndexOutOfRange
    );
}

#[test]
fn dominant_index_prefers_magnitude_then_lowest_index() {
    let values = vec![r(1, 2), r(-3, 4), r(3, 4), r(1, 4)];
    let i = qkernel::evolve::dominant_index(&values).unwrap();
    assert_eq!(i, 1);
    let empty: Vec<Rational> = Vec::new();
    assert_eq!(
        qkernel::evolve::dominant_index(&empty).unwrap_err(),
        KernelError::DomainError
    );
}

#[test]
fn dominant_state_collapses_to_the_leading_column() {
    // Eigenvalues 1/4 and 3/4; eigenvector columns (1,0) and (3,4)/5.
    let values = vec![r(1, 4), r(3, 4)];
    let vectors = Matrix::from_array(2, 2, vec![c(1, 0), c(3, 0), c(0, 0), c(4, 0)]).unwrap();
    let (i, w) = qkernel::evolve::dominant_state(&values, &vectors).unwrap();
    assert_eq!(i, 1);
    assert!(complex_is(&w.get(0).unwrap(), 3, 5, 0, 1));
    assert!(complex_is(&w.get(1).unwrap(), 4, 5, 0, 1));
}
