//! Elements of the BN254 scalar field, held as canonical little-endian limbs.
//!
//! The arithmetic itself is done by `ark_bn254::Fr`; each operation below
//! converts to that type, makes one call and converts back.

use ark_bn254::Fr;
use ark_ff::{BigInteger256, PrimeField};
use vstd::arithmetic::power::pow;
use vstd::prelude::*;

verus! {

/// The prime order of the BN254 scalar field.
pub open spec fn modulus() -> nat {
    21888242871839275222246405745257275088548364400416034343698204186575808495617nat
}

/// `2^64`, the weight of one limb.
pub open spec fn limb_base() -> nat {
    18446744073709551616nat
}

pub open spec fn fadd(a: nat, b: nat) -> nat {
    (a + b) % modulus()
}

pub open spec fn fsub(a: nat, b: nat) -> nat {
    ((a - b) % (modulus() as int)) as nat
}

pub open spec fn fmul(a: nat, b: nat) -> nat {
    (a * b) % modulus()
}

pub open spec fn fneg(a: nat) -> nat {
    fsub(0, a)
}

/// `a^(p-2) mod p`: the multiplicative inverse of a non-zero `a` in the prime
/// field, and zero for zero.
pub open spec fn finv(a: nat) -> nat {
    (pow(a as int, (modulus() - 2) as nat) % (modulus() as int)) as nat
}

/// A field element: the integer `limbs[0] + limbs[1]·2^64 + limbs[2]·2^128 + limbs[3]·2^192`.
#[derive(Clone, Copy, Debug, PartialEq, Eq)]
pub struct Scalar {
    pub limbs: [u64; 4],
}

impl Scalar {
    pub open spec fn val(self) -> nat {
        self.limbs[0] as nat + limb_base() * (self.limbs[1] as nat + limb_base() * (
        self.limbs[2] as nat + limb_base() * self.limbs[3] as nat))
    }

    /// The limbs hold a canonical representative.
    pub open spec fn wf(self) -> bool {
        self.val() < modulus()
    }

    pub fn zero() -> (r: Scalar)
        ensures
            r.wf(),
            r.val() == 0,
    {
        Scalar { limbs: [0, 0, 0, 0] }
    }

    pub fn is_zero(&self) -> (r: bool)
        ensures
            r == (self.val() == 0),
    {
        proof {
            lemma_val_zero(*self);
        }
        self.limbs[0] == 0 && self.limbs[1] == 0 && self.limbs[2] == 0 && self.limbs[3] == 0
    }

    pub fn one() -> (r: Scalar)
        ensures
            r.wf(),
            r.val() == 1,
    {
        Scalar { limbs: [1, 0, 0, 0] }
    }
}

proof fn lemma_val_zero(s: Scalar)
    ensures
        (s.val() == 0) == (s.limbs[0] == 0 && s.limbs[1] == 0 && s.limbs[2] == 0 && s.limbs[3] == 0),
{
    let b = limb_base() as int;
    let (a0, a1, a2, a3) = (s.limbs[0] as int, s.limbs[1] as int, s.limbs[2] as int, s.limbs[3] as int);
    let x2 = a2 + b * a3;
    let x1 = a1 + b * x2;
    assert(b * a3 >= 0) by (nonlinear_arith)
        requires
            b > 0,
            a3 >= 0,
    ;
    assert(b * x2 >= 0) by (nonlinear_arith)
        requires
            b > 0,
            x2 >= 0,
    ;
    assert(b * x1 >= 0) by (nonlinear_arith)
        requires
            b > 0,
            x1 >= 0,
    ;
    assert(b * x1 == 0 ==> x1 == 0) by (nonlinear_arith)
        requires
            b > 0,
    ;
    assert(b * x2 == 0 ==> x2 == 0) by (nonlinear_arith)
        requires
            b > 0,
    ;
    assert(b * a3 == 0 ==> a3 == 0) by (nonlinear_arith)
        requires
            b > 0,
    ;
}

/// Relies on `Fr - Fr` of ark-ff: subtraction modulo the field's order, and on
/// `PrimeField::from_repr` / `into_repr` converting canonical limbs both ways.
#[verifier::external_body]
pub(crate) fn fe_sub(a: &Scalar, b: &Scalar) -> (r: Scalar)
    requires
        a.wf(),
        b.wf(),
    ensures
        r.wf(),
        r.val() == fsub(a.val(), b.val()),
{
    let x = Fr::from_repr(BigInteger256(a.limbs)).unwrap();
    let y = Fr::from_repr(BigInteger256(b.limbs)).unwrap();
    Scalar { limbs: (x - y).into_repr().0 }
}

/// Relies on `Fr * Fr` of ark-ff: multiplication modulo the field's order.
#[verifier::external_body]
pub(crate) fn fe_mul(a: &Scalar, b: &Scalar) -> (r: Scalar)
    requires
        a.wf(),
        b.wf(),
    ensures
        r.wf(),
        r.val() == fmul(a.val(), b.val()),
{
    let x = Fr::from_repr(BigInteger256(a.limbs)).unwrap();
    let y = Fr::from_repr(BigInteger256(b.limbs)).unwrap();
    Scalar { limbs: (x * y).into_repr().0 }
}

/// Relies on `ark_ff::batch_inversion`: every non-zero element is replaced by
/// its inverse (its product with the element is one), and zero elements are left
/// as they are (`finv(0) == 0`).
#[verifier::external_body]
pub(crate) fn batch_invert(v: &mut Vec<Scalar>)
    requires
        forall|i: int| 0 <= i < old(v)@.len() ==> (#[trigger] old(v)@[i]).wf(),
    ensures
        final(v)@.len() == old(v)@.len(),
        forall|i: int|
            0 <= i < final(v)@.len() ==> (#[trigger] final(v)@[i]).wf() && final(v)@[i].val() == finv(
                old(v)@[i].val(),
            ),
        forall|i: int|
            0 <= i < final(v)@.len() && old(v)@[i].val() != 0 ==> fmul(
                old(v)@[i].val(),
                (#[trigger] final(v)@[i]).val(),
            ) == 1,
{
    let mut xs: Vec<Fr> = v.iter().map(|a| Fr::from_repr(BigInteger256(a.limbs)).unwrap()).collect();
    ark_ff::batch_inversion(&mut xs);
    *v = xs.iter().map(|x| Scalar { limbs: x.into_repr().0 }).collect();
}

} // verus!
