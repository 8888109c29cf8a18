//! Dense univariate polynomials over the scalar field as coefficient vectors
//! (index `i` holds the coefficient of `x^i`), with their mathematical model
//! over `Seq<nat>` and the operations that `ark_poly` performs on them.

use crate::field::{fadd, finv, fmul, fsub, modulus, Scalar};
use ark_bn254::Fr;
use ark_ff::{BigInteger256, PrimeField};
use ark_poly::univariate::{DenseOrSparsePolynomial, DensePolynomial};
use ark_poly::{EvaluationDomain, GeneralEvaluationDomain, Polynomial, UVPolynomial};
use vstd::arithmetic::power::pow;
use vstd::prelude::*;

verus! {

/// The values of a coefficient vector.
pub open spec fn vals(s: Seq<Scalar>) -> Seq<nat> {
    s.map_values(|x: Scalar| x.val())
}

/// Every coefficient is a canonical field element.
pub open spec fn all_wf(s: Seq<Scalar>) -> bool {
    forall|i: int| 0 <= i < s.len() ==> (#[trigger] s[i]).wf()
}

/// The coefficient of `x^i`, zero beyond the stored ones.
pub open spec fn coeff(p: Seq<nat>, i: int) -> nat {
    if 0 <= i < p.len() {
        p[i]
    } else {
        0
    }
}

/// No zero coefficient at the top: the canonical form of a polynomial.
pub open spec fn trimmed(p: Seq<nat>) -> bool {
    p.len() == 0 || p.last() != 0
}

/// `p` without its zero top coefficients.
pub open spec fn trim(p: Seq<nat>) -> Seq<nat>
    decreases p.len(),
{
    if p.len() > 0 && p.last() == 0 {
        trim(p.drop_last())
    } else {
        p
    }
}

/// The value of `p` at `x`.
pub open spec fn peval(p: Seq<nat>, x: nat) -> nat
    decreases p.len(),
{
    if p.len() == 0 {
        0
    } else {
        fadd(p[0], fmul(x, peval(p.drop_first(), x)))
    }
}

/// `Σ_{t < m} a_t · b_{k-t}`.
pub open spec fn conv(a: Seq<nat>, b: Seq<nat>, k: int, m: int) -> nat
    decreases m,
{
    if m <= 0 {
        0
    } else {
        fadd(conv(a, b, k, m - 1), fmul(coeff(a, m - 1), coeff(b, k - (m - 1))))
    }
}

/// The schoolbook product of two polynomials.
pub open spec fn pmul(a: Seq<nat>, b: Seq<nat>) -> Seq<nat> {
    if a.len() == 0 || b.len() == 0 {
        Seq::empty()
    } else {
        Seq::new((a.len() + b.len() - 1) as nat, |k: int| conv(a, b, k, k + 1))
    }
}

/// The sum of two polynomials.
pub open spec fn padd(a: Seq<nat>, b: Seq<nat>) -> Seq<nat> {
    let n = if a.len() >= b.len() {
        a.len()
    } else {
        b.len()
    };
    Seq::new(n, |i: int| fadd(coeff(a, i), coeff(b, i)))
}

/// `g` is monic: its top coefficient is one.
pub open spec fn monic(g: Seq<nat>) -> bool {
    g.len() > 0 && g.last() == 1
}

/// One step of long division by a monic `g`: `f - f_top · x^(deg f - deg g) · g`,
/// whose top coefficient vanishes and is dropped.
pub open spec fn rem_step(f: Seq<nat>, g: Seq<nat>) -> Seq<nat> {
    Seq::new(
        (f.len() - 1) as nat,
        |i: int| fsub(f[i], fmul(f.last(), coeff(g, i - (f.len() - g.len())))),
    )
}

/// The remainder of `f` modulo a monic `g`, possibly with zero top coefficients.
pub open spec fn rem_monic(f: Seq<nat>, g: Seq<nat>) -> Seq<nat>
    decreases f.len(),
{
    if g.len() == 0 || f.len() < g.len() {
        f
    } else {
        rem_monic(rem_step(f, g), g)
    }
}

/// `x^e` in the field.
pub open spec fn fpow(x: nat, e: nat) -> nat {
    (pow(x as int, e) % (modulus() as int)) as nat
}

/// `2^k`.
pub open spec fn exp2(k: nat) -> nat
    decreases k,
{
    if k == 0 {
        1
    } else {
        2 * exp2((k - 1) as nat)
    }
}

/// `log2(n)` for a power of two `n`.
pub open spec fn log2(n: nat) -> nat
    decreases n,
{
    if n <= 1 {
        0
    } else {
        1 + log2(n / 2)
    }
}

/// The field's fixed generator of its multiplicative subgroup of order `2^28`, in
/// canonical form (`g^(2^27) = -1`).
pub open spec fn two_adic_root() -> nat {
    19103219067921713944291392827692070036145651957329286315305642004821462161904nat
}

/// The generator of the subgroup of order `n` (a power of two up to `2^28`) that
/// a transform domain of `n` points is built on: the two-adic root squared
/// `28 - log2(n)` times.
pub open spec fn subgroup_gen(n: nat) -> nat {
    fpow(two_adic_root(), exp2((28 - log2(n)) as nat))
}

/// The forward transform over the subgroup of order `n`: the values of `c` at
/// the powers `ω^0, …, ω^(n-1)` of its generator `ω`.
pub open spec fn dft(c: Seq<nat>, n: nat) -> Seq<nat> {
    Seq::new(n, |i: int| peval(c, fpow(subgroup_gen(n), i as nat)))
}

/// The inverse transform over the subgroup of order `n`: coefficient `i` is
/// `n^(-1) · Σ_j e_j · ω^(-ij)`.
pub open spec fn idft(e: Seq<nat>, n: nat) -> Seq<nat> {
    Seq::new(
        n,
        |i: int| fmul(finv(n % modulus()), peval(e, fpow(finv(subgroup_gen(n)), i as nat))),
    )
}

/// `n` is `2^k` for some `k`.
pub open spec fn is_pow2(n: nat) -> bool
    decreases n,
{
    if n == 0 {
        false
    } else if n == 1 {
        true
    } else {
        n % 2 == 0 && is_pow2(n / 2)
    }
}

/// The largest transform size that the field's two-adic subgroup admits.
pub const MAX_DOMAIN: usize = 268435456;

/// Relies on `Polynomial::evaluate` of ark-poly's `DensePolynomial`: the value of
/// the polynomial at the point.
#[verifier::external_body]
pub(crate) fn evaluate(p: &Vec<Scalar>, x: &Scalar) -> (r: Scalar)
    requires
        all_wf(p@),
        x.wf(),
    ensures
        r.wf(),
        r.val() == peval(vals(p@), x.val()),
{
    let c: Vec<Fr> = p.iter().map(|a| Fr::from_repr(BigInteger256(a.limbs)).unwrap()).collect();
    let y = Fr::from_repr(BigInteger256(x.limbs)).unwrap();
    let v = DensePolynomial::from_coefficients_vec(c).evaluate(&y);
    Scalar { limbs: v.into_repr().0 }
}

/// Relies on `&DensePolynomial * &DensePolynomial` of ark-poly: the product of the
/// two polynomials, without zero top coefficients. It builds a transform domain of
/// `a.len() + b.len()` points, hence the bound.
#[verifier::external_body]
pub(crate) fn poly_mul(a: &Vec<Scalar>, b: &Vec<Scalar>) -> (r: Vec<Scalar>)
    requires
        all_wf(a@),
        all_wf(b@),
        trimmed(vals(a@)),
        trimmed(vals(b@)),
        a@.len() + b@.len() <= MAX_DOMAIN,
    ensures
        all_wf(r@),
        vals(r@) == trim(pmul(vals(a@), vals(b@))),
{
    let x: Vec<Fr> = a.iter().map(|c| Fr::from_repr(BigInteger256(c.limbs)).unwrap()).collect();
    let y: Vec<Fr> = b.iter().map(|c| Fr::from_repr(BigInteger256(c.limbs)).unwrap()).collect();
    let z = &DensePolynomial::from_coefficients_vec(x) * &DensePolynomial::from_coefficients_vec(y);
    z.coeffs.iter().map(|c| Scalar { limbs: c.into_repr().0 }).collect()
}

/// Relies on `&DensePolynomial + &DensePolynomial` of ark-poly: the sum of the two
/// polynomials, without zero top coefficients.
#[verifier::external_body]
pub(crate) fn poly_add(a: &Vec<Scalar>, b: &Vec<Scalar>) -> (r: Vec<Scalar>)
    requires
        all_wf(a@),
        all_wf(b@),
        trimmed(vals(a@)),
        trimmed(vals(b@)),
    ensures
        all_wf(r@),
        vals(r@) == trim(padd(vals(a@), vals(b@))),
{
    let x: Vec<Fr> = a.iter().map(|c| Fr::from_repr(BigInteger256(c.limbs)).unwrap()).collect();
    let y: Vec<Fr> = b.iter().map(|c| Fr::from_repr(BigInteger256(c.limbs)).unwrap()).collect();
    let z = &DensePolynomial::from_coefficients_vec(x) + &DensePolynomial::from_coefficients_vec(y);
    z.coeffs.iter().map(|c| Scalar { limbs: c.into_repr().0 }).collect()
}

/// Relies on `DenseOrSparsePolynomial::divide_with_q_and_r` of ark-poly, of which
/// the remainder is kept: for a monic divisor it is the remainder of long division,
/// without zero top coefficients. The conversion drops zero top coefficients of `f`,
/// which change no remainder. A monic divisor is never zero, on which it panics.
#[verifier::external_body]
pub(crate) fn remainder(f: &Vec<Scalar>, g: &Vec<Scalar>) -> (r: Vec<Scalar>)
    requires
        all_wf(f@),
        all_wf(g@),
        monic(vals(g@)),
    ensures
        all_wf(r@),
        vals(r@) == trim(rem_monic(vals(f@), vals(g@))),
{
    let x: Vec<Fr> = f.iter().map(|c| Fr::from_repr(BigInteger256(c.limbs)).unwrap()).collect();
    let y: Vec<Fr> = g.iter().map(|c| Fr::from_repr(BigInteger256(c.limbs)).unwrap()).collect();
    let (fp, gp) = (DensePolynomial::from_coefficients_vec(x), DensePolynomial::from_coefficients_vec(y));
    let (_, rem) = DenseOrSparsePolynomial::from(&fp).divide_with_q_and_r(&(&gp).into()).unwrap();
    rem.coeffs.iter().map(|c| Scalar { limbs: c.into_repr().0 }).collect()
}

/// Relies on `GeneralEvaluationDomain::new` and `EvaluationDomain::fft` of ark-poly:
/// for a power of two `n` within the field's two-adicity the domain is the subgroup
/// of order `n` generated by `F::get_root_of_unity(n)`, which squares the field's
/// `TWO_ADIC_ROOT_OF_UNITY` `28 - log2(n)` times, and the transform pads the
/// coefficients to `n` and returns their values at the subgroup's elements in order.
#[verifier::external_body]
pub(crate) fn fft(c: &Vec<Scalar>, n: usize) -> (r: Vec<Scalar>)
    requires
        all_wf(c@),
        is_pow2(n as nat),
        n <= MAX_DOMAIN,
        c@.len() <= n,
    ensures
        r@.len() == n,
        all_wf(r@),
        forall|i: int|
            0 <= i < n ==> (#[trigger] r@[i]).val() == peval(
                vals(c@),
                fpow(subgroup_gen(n as nat), i as nat),
            ),
{
    let x: Vec<Fr> = c.iter().map(|a| Fr::from_repr(BigInteger256(a.limbs)).unwrap()).collect();
    let domain = GeneralEvaluationDomain::<Fr>::new(n).unwrap();
    domain.fft(&x).iter().map(|a| Scalar { limbs: a.into_repr().0 }).collect()
}

/// Relies on `GeneralEvaluationDomain::new` and `EvaluationDomain::ifft` of ark-poly:
/// the inverse transform over the same subgroup of order `n`, scaled by `n^(-1)`.
#[verifier::external_body]
pub(crate) fn ifft(e: &Vec<Scalar>, n: usize) -> (r: Vec<Scalar>)
    requires
        all_wf(e@),
        is_pow2(n as nat),
        n <= MAX_DOMAIN,
        e@.len() == n,
    ensures
        r@.len() == n,
        all_wf(r@),
        forall|i: int|
            0 <= i < n ==> (#[trigger] r@[i]).val() == fmul(
                finv(n as nat % modulus()),
                peval(vals(e@), fpow(finv(subgroup_gen(n as nat)), i as nat)),
            ),
{
    let x: Vec<Fr> = e.iter().map(|a| Fr::from_repr(BigInteger256(a.limbs)).unwrap()).collect();
    let domain = GeneralEvaluationDomain::<Fr>::new(n).unwrap();
    domain.ifft(&x).iter().map(|a| Scalar { limbs: a.into_repr().0 }).collect()
}

} // verus!
