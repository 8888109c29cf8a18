use ark_bn254::Fr;
use ark_ff::{Field, One, PrimeField, UniformRand, Zero};
use ark_poly::{univariate::DensePolynomial, Polynomial, UVPolynomial};
use ark_std::test_rng;
use subproduct_tree::error::Error;
use subproduct_tree::subtree::{multiply_pow2_monic_polys, Pow2ProductSubtree};
use subproduct_tree::Scalar;

fn to_scalar(x: &Fr) -> Scalar {
    Scalar { limbs: x.into_repr().0 }
}

fn to_poly(p: &DensePolynomial<Fr>) -> Vec<Scalar> {
    p.coeffs.iter().map(to_scalar).collect()
}

fn to_scalars(xs: &[Fr]) -> Vec<Scalar> {
    xs.iter().map(to_scalar).collect()
}

/// given x coords construct Li polynomials
fn construct_lagrange_basis(evaluation_domain: &[Fr]) -> Vec<DensePolynomial<Fr>> {
    let mut bases = Vec::with_capacity(evaluation_domain.len());
    for i in 0..evaluation_domain.len() {
        let mut l_i = DensePolynomial::from_coefficients_slice(&[Fr::one()]);
        let x_i = evaluation_domain[i];
        for (j, _) in evaluation_domain.iter().enumerate() {
            if j != i {
                let xi_minus_xj_inv = (x_i - evaluation_domain[j]).inverse().unwrap();
                l_i = &l_i
                    * &DensePolynomial::from_coefficients_slice(&[
                        -evaluation_domain[j] * xi_minus_xj_inv,
                        xi_minus_xj_inv,
                    ]);
            }
        }
        bases.push(l_i);
    }
    bases
}

fn vanishing_of(roots: &[Fr]) -> DensePolynomial<Fr> {
    let mut vanishing = DensePolynomial::from_coefficients_slice(&[Fr::one()]);
    for root in roots {
        vanishing = &vanishing * &DensePolynomial::from_coefficients_slice(&[-*root, Fr::one()]);
    }
    vanishing
}

#[test]
fn test_monic_fft() {
    let n = 32;
    let mut rng = test_rng();

    let mut a = DensePolynomial::<Fr>::rand(n, &mut rng);
    a.coeffs[n] = Fr::one();

    let mut b = DensePolynomial::<Fr>::rand(n, &mut rng);
    b.coeffs[n] = Fr::one();

    let product_slow = &a * &b;
    let product_fast = multiply_pow2_monic_polys(&to_poly(&a), &to_poly(&b));
    assert_eq!(product_fast, to_poly(&product_slow));
}

#[test]
fn test_tree_construction() {
    let n: usize = 32;
    let mut rng = test_rng();

    let roots: Vec<_> = (0..n).map(|_| Fr::rand(&mut rng)).collect();
    let subtree = Pow2ProductSubtree::construct(&to_scalars(&roots)).unwrap();

    let lagrange_basis = construct_lagrange_basis(&roots);
    let vanishing = vanishing_of(&roots);

    assert_eq!(subtree.get_vanishing(), to_poly(&vanishing));

    let alpha = Fr::rand(&mut rng);
    let li_evals_slow: Vec<_> = lagrange_basis.iter().map(|li| li.evaluate(&alpha)).collect();

    let li_evals_fast = subtree.batch_evaluate_lagrange_basis(&to_scalar(&alpha));
    assert_eq!(to_scalars(&li_evals_slow), li_evals_fast);
}

#[test]
fn test_interpolation() {
    let n: usize = 32;
    let mut rng = test_rng();

    let roots: Vec<_> = (0..n).map(|_| Fr::rand(&mut rng)).collect();
    let subtree = Pow2ProductSubtree::construct(&to_scalars(&roots)).unwrap();

    let lagrange_basis = construct_lagrange_basis(&roots);
    let f_evals: Vec<_> = (0..n).map(|_| Fr::rand(&mut rng)).collect();

    let mut f_slow = DensePolynomial::default();
    for (li, &fi) in lagrange_basis.iter().zip(f_evals.iter()) {
        f_slow += (fi, li);
    }

    let f_fast = subtree.interpolate(&to_scalars(&f_evals));
    assert_eq!(to_poly(&f_slow), f_fast);
}

#[test]
fn test_evaluate_over_domain() {
    let n: usize = 32;
    let mut rng = test_rng();

    let roots: Vec<_> = (0..n).map(|_| Fr::rand(&mut rng)).collect();
    let subtree = Pow2ProductSubtree::construct(&to_scalars(&roots)).unwrap();

    let lagrange_basis = construct_lagrange_basis(&roots);
    let f_evals: Vec<_> = (0..n).map(|_| Fr::rand(&mut rng)).collect();

    let mut f = DensePolynomial::default();
    for (li, &fi) in lagrange_basis.iter().zip(f_evals.iter()) {
        f += (fi, li);
    }

    let f_computed_evals = subtree.evaluate_over_domain(&to_poly(&f));
    assert_eq!(to_scalars(&f_evals), f_computed_evals);
}

#[test]
fn construct_rejects_empty_roots() {
    let roots: Vec<Scalar> = Vec::new();
    assert!(matches!(Pow2ProductSubtree::construct(&roots), Err(Error::EmptyRoots)));
}

#[test]
fn construct_rejects_sizes_that_are_not_powers_of_two() {
    let mut rng = test_rng();
    for n in [3usize, 5, 6, 7, 9, 12, 33] {
        let roots: Vec<_> = (0..n).map(|_| to_scalar(&Fr::rand(&mut rng))).collect();
        assert!(matches!(Pow2ProductSubtree::construct(&roots), Err(Error::NotPow2)));
    }
}

#[test]
fn construct_accepts_powers_of_two() {
    let mut rng = test_rng();
    for n in [1usize, 2, 4, 8, 16, 32, 64] {
        let roots: Vec<_> = (0..n).map(|_| Fr::rand(&mut rng)).collect();
        let subtree = Pow2ProductSubtree::construct(&to_scalars(&roots)).unwrap();
        let vanishing = subtree.get_vanishing();
        assert_eq!(vanishing.len(), n + 1);
        assert_eq!(vanishing, to_poly(&vanishing_of(&roots)));
    }
}

#[test]
fn single_root_tree() {
    let root = Fr::from(7u64);
    let subtree = Pow2ProductSubtree::construct(&[to_scalar(&root)]).unwrap();
    assert_eq!(subtree.get_vanishing(), vec![to_scalar(&-root), Scalar::one()]);
    assert_eq!(subtree.get_ri(), vec![Scalar::one()]);
    let f = vec![to_scalar(&Fr::from(5u64))];
    assert_eq!(subtree.evaluate_over_domain(&f), f);
    assert_eq!(subtree.interpolate(&f), f);
    assert_eq!(subtree.batch_evaluate_lagrange_basis(&to_scalar(&Fr::from(11u64))), vec![Scalar::one()]);
}

#[test]
fn weights_are_inverse_derivative_values() {
    let n: usize = 32;
    let mut rng = test_rng();
    let roots: Vec<_> = (0..n).map(|_| Fr::rand(&mut rng)).collect();
    let subtree = Pow2ProductSubtree::construct(&to_scalars(&roots)).unwrap();

    let vanishing = vanishing_of(&roots);
    assert_eq!(vanishing.degree(), n);
    assert_eq!(*vanishing.coeffs.last().unwrap(), Fr::one());
    let derivative = DensePolynomial::from_coefficients_vec(
        vanishing.coeffs.iter().enumerate().skip(1).map(|(i, c)| Fr::from(i as u64) * c).collect(),
    );
    let expected: Vec<_> = roots.iter().map(|r| derivative.evaluate(r).inverse().unwrap()).collect();
    assert_eq!(subtree.get_ri(), to_scalars(&expected));
}

#[test]
fn interpolate_after_evaluate_is_identity() {
    let n: usize = 16;
    let mut rng = test_rng();
    let roots: Vec<_> = (0..n).map(|_| Fr::rand(&mut rng)).collect();
    let subtree = Pow2ProductSubtree::construct(&to_scalars(&roots)).unwrap();
    let f = DensePolynomial::<Fr>::rand(n - 1, &mut rng);
    let evals = subtree.evaluate_over_domain(&to_poly(&f));
    let expected: Vec<_> = roots.iter().map(|r| to_scalar(&f.evaluate(r))).collect();
    assert_eq!(evals, expected);
    assert_eq!(subtree.interpolate(&evals), to_poly(&f));
}

#[test]
fn evaluate_after_interpolate_is_identity() {
    let n: usize = 8;
    let mut rng = test_rng();
    let roots: Vec<_> = (0..n).map(|_| Fr::rand(&mut rng)).collect();
    let subtree = Pow2ProductSubtree::construct(&to_scalars(&roots)).unwrap();
    let v: Vec<_> = (0..n).map(|_| to_scalar(&Fr::rand(&mut rng))).collect();
    let p = subtree.interpolate(&v);
    assert!(p.len() <= n);
    assert_eq!(subtree.evaluate_over_domain(&p), v);
}

#[test]
fn evaluate_accepts_zero_polynomial() {
    let mut rng = test_rng();
    let roots: Vec<_> = (0..4).map(|_| to_scalar(&Fr::rand(&mut rng))).collect();
    let subtree = Pow2ProductSubtree::construct(&roots).unwrap();
    assert_eq!(subtree.evaluate_over_domain(&Vec::new()), vec![Scalar::zero(); 4]);
    assert_eq!(subtree.interpolate(&vec![Scalar::zero(); 4]), Vec::<Scalar>::new());
}

#[test]
fn monic_product_with_vanishing_middle_coefficient() {
    // (x - 3)(x + 3) = x^2 - 9: the coefficient of x is zero.
    let three = Fr::from(3u64);
    let a = vec![to_scalar(&-three), Scalar::one()];
    let b = vec![to_scalar(&three), Scalar::one()];
    let expected = vec![to_scalar(&-Fr::from(9u64)), Scalar::zero(), Scalar::one()];
    assert_eq!(multiply_pow2_monic_polys(&a, &b), expected);
}

#[test]
fn monic_product_of_linear_factors() {
    // (x - 1)(x - 2) = x^2 - 3x + 2
    let a = vec![to_scalar(&-Fr::one()), Scalar::one()];
    let b = vec![to_scalar(&-Fr::from(2u64)), Scalar::one()];
    let expected = vec![to_scalar(&Fr::from(2u64)), to_scalar(&-Fr::from(3u64)), Scalar::one()];
    assert_eq!(multiply_pow2_monic_polys(&a, &b), expected);
}

#[test]
fn lagrange_basis_at_a_root_and_off_it() {
    let n: usize = 4;
    let roots: Vec<_> = (1..=n as u64).map(Fr::from).collect();
    let subtree = Pow2ProductSubtree::construct(&to_scalars(&roots)).unwrap();
    // At a root the basis values form the unit vector of that root.
    let values = subtree.batch_evaluate_lagrange_basis(&to_scalar(&roots[2]));
    assert_eq!(values, vec![Scalar::zero(), Scalar::zero(), Scalar::one(), Scalar::zero()]);
    let alpha = Fr::from(10u64);
    let lagrange_basis = construct_lagrange_basis(&roots);
    let slow: Vec<_> = lagrange_basis.iter().map(|li| to_scalar(&li.evaluate(&alpha))).collect();
    assert_eq!(subtree.batch_evaluate_lagrange_basis(&to_scalar(&alpha)), slow);
    let total = lagrange_basis.iter().fold(Fr::zero(), |acc, li| acc + li.evaluate(&alpha));
    assert_eq!(total, Fr::one());
}

#[test]
fn scalar_constants() {
    assert!(Scalar::zero().is_zero());
    assert!(!Scalar::one().is_zero());
    assert_eq!(Scalar::one(), to_scalar(&Fr::one()));
}

#[test]
fn lagrange_basis_at_first_of_two_roots() {
    let roots = vec![Fr::from(1u64), Fr::from(2u64)];
    let subtree = Pow2ProductSubtree::construct(&to_scalars(&roots)).unwrap();
    let values = subtree.batch_evaluate_lagrange_basis(&to_scalar(&Fr::from(1u64)));
    assert_eq!(values, vec![Scalar::one(), Scalar::zero()]);
    assert_eq!(subtree.get_vanishing(), to_scalars(&[Fr::from(2u64), -Fr::from(3u64), Fr::one()]));
    assert_eq!(subtree.get_ri(), to_scalars(&[-Fr::one(), Fr::one()]));
}
