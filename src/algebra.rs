//! Facts about polynomial values that the remainder tree rests on.

use crate::field::{fmul, fsub, modulus};
use crate::poly::{coeff, monic, peval, rem_monic, rem_step, trim};
use vstd::arithmetic::div_mod::{
    lemma_add_mod_noop_right, lemma_mod_twice, lemma_mul_mod_noop_right, lemma_small_mod,
    lemma_sub_mod_noop_right,
};
use vstd::arithmetic::power::pow;
use vstd::prelude::*;

verus! {

/// Every coefficient is below the field's order.
pub open spec fn reduced(p: Seq<nat>) -> bool {
    forall|i: int| 0 <= i < p.len() ==> #[trigger] p[i] < modulus()
}

/// The value of `p` at `x` over the integers, before any reduction.
pub open spec fn ieval(p: Seq<nat>, x: int) -> int
    decreases p.len(),
{
    if p.len() == 0 {
        0
    } else {
        p[0] + x * ieval(p.drop_first(), x)
    }
}

/// `p - c · x^s · b`, coefficient by coefficient, over the length of `p`.
pub open spec fn comb(a: Seq<nat>, b: Seq<nat>, c: nat, s: int) -> Seq<nat> {
    Seq::new(a.len(), |i: int| fsub(a[i], fmul(c, coeff(b, i - s))))
}

proof fn lemma_cong(p: int, q: int, u: int, v: int, x: int)
    requires
        p % (modulus() as int) == q % (modulus() as int),
        u % (modulus() as int) == v % (modulus() as int),
    ensures
        (p + x * u) % (modulus() as int) == (q + x * v) % (modulus() as int),
{
    let m = modulus() as int;
    lemma_mul_mod_noop_right(x, u, m);
    lemma_mul_mod_noop_right(x, v, m);
    lemma_add_mod_noop_right(p, x * u, m);
    lemma_add_mod_noop_right(q, x * v, m);
    vstd::arithmetic::div_mod::lemma_add_mod_noop(p, (x * u) % m, m);
    vstd::arithmetic::div_mod::lemma_add_mod_noop(q, (x * v) % m, m);
    lemma_mod_twice(x * u, m);
}

/// The field value of a polynomial is its integer value reduced.
proof fn lemma_peval_ieval(p: Seq<nat>, x: nat)
    ensures
        peval(p, x) as int == ieval(p, x as int) % (modulus() as int),
    decreases p.len(),
{
    let m = modulus() as int;
    if p.len() > 0 {
        let r = p.drop_first();
        lemma_peval_ieval(r, x);
        lemma_mul_mod_noop_right(x as int, ieval(r, x as int), m);
        lemma_add_mod_noop_right(p[0] as int, x * ieval(r, x as int), m);
    }
}

proof fn lemma_ieval_drop_zero(p: Seq<nat>, x: int)
    requires
        p.len() > 0,
        p.last() == 0,
    ensures
        ieval(p, x) == ieval(p.drop_last(), x),
    decreases p.len(),
{
    if p.len() > 1 {
        assert(p.drop_first().last() == p.last());
        lemma_ieval_drop_zero(p.drop_first(), x);
        assert(p.drop_first().drop_last() =~= p.drop_last().drop_first());
        assert(p.drop_last()[0] == p[0]);
    } else {
        assert(p.drop_first().len() == 0);
        assert(p[0] == 0);
        assert(p.drop_last().len() == 0);
        assert(ieval(p.drop_first(), x) == 0);
        assert(ieval(p.drop_last(), x) == 0);
        assert(x * 0 == 0);
    }
}

proof fn lemma_ieval_trim(p: Seq<nat>, x: int)
    ensures
        ieval(trim(p), x) == ieval(p, x),
    decreases p.len(),
{
    if p.len() > 0 && p.last() == 0 {
        lemma_ieval_drop_zero(p, x);
        lemma_ieval_trim(p.drop_last(), x);
    }
}

proof fn lemma_distrib(x: int, a: int, c: int, p: int, b: int)
    ensures
        x * (a - c * p * b) == x * a - c * (x * p) * b,
{
    assert(x * (a - c * p * b) == x * a - c * (x * p) * b) by (nonlinear_arith);
}

/// Subtracting `c · x^s · b` coefficientwise subtracts it from the value.
proof fn lemma_comb(a: Seq<nat>, b: Seq<nat>, c: nat, s: int, x: int)
    requires
        reduced(a),
        0 <= s,
        s + b.len() <= a.len(),
    ensures
        ieval(comb(a, b, c, s), x) % (modulus() as int) == (ieval(a, x) - c * pow(x, s as nat)
            * ieval(b, x)) % (modulus() as int),
    decreases a.len(),
{
    let m = modulus() as int;
    let h = comb(a, b, c, s);
    reveal(pow);
    if a.len() == 0 {
        assert(b.len() == 0);
    } else if s > 0 {
        let a1 = a.drop_first();
        lemma_comb(a1, b, c, s - 1, x);
        assert(h.drop_first() =~= comb(a1, b, c, s - 1));
        lemma_small_mod(a[0], modulus());
        assert(coeff(b, 0 - s) == 0);
        assert(fmul(c, 0) == 0);
        assert(h[0] == a[0]);
        let u = ieval(comb(a1, b, c, s - 1), x);
        let v = ieval(a1, x) - c * pow(x, (s - 1) as nat) * ieval(b, x);
        lemma_cong(a[0] as int, a[0] as int, u, v, x);
        lemma_distrib(x, ieval(a1, x), c as int, pow(x, (s - 1) as nat), ieval(b, x));
        assert(pow(x, s as nat) == x * pow(x, (s - 1) as nat));
    } else if b.len() == 0 {
        assert(h =~= a) by {
            assert forall|i: int| 0 <= i < a.len() implies h[i] == a[i] by {
                lemma_small_mod(a[i], modulus());
                assert(coeff(b, i - s) == 0);
                assert(fmul(c, 0) == 0);
            }
        }
    } else {
        let a1 = a.drop_first();
        let b1 = b.drop_first();
        lemma_comb(a1, b1, c, 0, x);
        assert(h.drop_first() =~= comb(a1, b1, c, 0));
        lemma_small_mod(a[0], modulus());
        lemma_sub_mod_noop_right(a[0] as int, (c * b[0]) as int, m);
        let u = ieval(comb(a1, b1, c, 0), x);
        let v = ieval(a1, x) - c * pow(x, 0) * ieval(b1, x);
        lemma_cong(h[0] as int, a[0] - c * b[0], u, v, x);
        assert(pow(x, 0) == 1);
        assert(a[0] - c * b[0] + x * (ieval(a1, x) - c * ieval(b1, x)) == ieval(a, x) - c * (b[0]
            + x * ieval(b1, x))) by (nonlinear_arith)
            requires
                ieval(a, x) == a[0] + x * ieval(a1, x),
        ;
    }
}

/// Reducing a polynomial modulo a monic divisor keeps its value at every point
/// where the divisor vanishes.
pub proof fn lemma_remainder_keeps_value(f: Seq<nat>, g: Seq<nat>, x: nat)
    requires
        reduced(f),
        reduced(g),
        monic(g),
        peval(g, x) == 0,
    ensures
        peval(trim(rem_monic(f, g)), x) == peval(f, x),
    decreases f.len(),
{
    let m = modulus() as int;
    lemma_peval_ieval(f, x);
    lemma_peval_ieval(trim(rem_monic(f, g)), x);
    lemma_ieval_trim(rem_monic(f, g), x as int);
    lemma_ieval_trim(f, x as int);
    if f.len() >= g.len() {
        let s = f.len() - g.len();
        let c = f.last();
        let h = comb(f, g, c, s);
        lemma_small_mod(c, modulus());
        assert(coeff(g, f.len() - 1 - s) == 1);
        assert(fmul(c, 1) == c);
        assert(h.last() == 0);
        assert(rem_step(f, g) =~= h.drop_last());
        lemma_ieval_drop_zero(h, x as int);
        lemma_comb(f, g, c, s, x as int);
        lemma_peval_ieval(g, x);
        lemma_mul_mod_noop_right(c * pow(x as int, s as nat), ieval(g, x as int), m);
        lemma_sub_mod_noop_right(
            ieval(f, x as int),
            c * pow(x as int, s as nat) * ieval(g, x as int),
            m,
        );
        let r = rem_step(f, g);
        assert(reduced(r));
        lemma_remainder_keeps_value(r, g, x);
        lemma_peval_ieval(r, x);
        lemma_ieval_trim(rem_monic(r, g), x as int);
    }
}

proof fn lemma_trim_prefix(p: Seq<nat>)
    ensures
        trim(p).len() <= p.len(),
        forall|i: int| 0 <= i < trim(p).len() ==> #[trigger] trim(p)[i] == p[i],
        forall|i: int| trim(p).len() <= i < p.len() ==> #[trigger] p[i] == 0,
    decreases p.len(),
{
    if p.len() > 0 && p.last() == 0 {
        let q = p.drop_last();
        lemma_trim_prefix(q);
        assert forall|i: int| trim(p).len() <= i < p.len() implies #[trigger] p[i] == 0 by {
            if i < q.len() {
                assert(q[i] == p[i]);
            }
        }
        assert forall|i: int| 0 <= i < trim(p).len() implies #[trigger] trim(p)[i] == p[i] by {
            assert(q[i] == p[i]);
        }
    }
}

/// Trimming keeps the values of a polynomial and its reducedness.
pub proof fn lemma_trim_value(p: Seq<nat>, x: nat)
    ensures
        peval(trim(p), x) == peval(p, x),
        reduced(p) ==> reduced(trim(p)),
        trim(p).len() <= p.len(),
{
    lemma_trim_prefix(p);
    lemma_ieval_trim(p, x as int);
    lemma_peval_ieval(p, x);
    lemma_peval_ieval(trim(p), x);
}

/// A polynomial with at most one coefficient takes its constant term everywhere.
pub proof fn lemma_constant_value(p: Seq<nat>, x: nat)
    requires
        reduced(p),
        trim(p).len() <= 1,
    ensures
        peval(p, x) == coeff(p, 0),
{
    lemma_trim_value(p, x);
    lemma_trim_prefix(p);
    let q = trim(p);
    if q.len() == 1 {
        assert(q.drop_first().len() == 0);
        assert(peval(q.drop_first(), x) == 0);
        assert(fmul(x, 0) == 0);
        lemma_small_mod(q[0], modulus());
    } else if p.len() > 0 {
        assert(p[0] == 0);
    }
}

/// The remainder modulo a monic `g` is shorter than `g` and stays reduced.
pub proof fn lemma_rem_shape(f: Seq<nat>, g: Seq<nat>)
    requires
        reduced(f),
        g.len() >= 1,
    ensures
        rem_monic(f, g).len() < g.len(),
        reduced(rem_monic(f, g)),
    decreases f.len(),
{
    if f.len() >= g.len() {
        let r = rem_step(f, g);
        assert(reduced(r));
        lemma_rem_shape(r, g);
    }
}

/// The linear factor `x - r` vanishes at `r`.
pub proof fn lemma_linear_factor_root(r: nat)
    requires
        r < modulus(),
    ensures
        peval(seq![fsub(0, r), 1nat], r) == 0,
{
    let m = modulus() as int;
    let p = seq![fsub(0, r), 1nat];
    lemma_peval_ieval(p, r);
    assert(p.drop_first() =~= seq![1nat]);
    assert(seq![1nat].drop_first().len() == 0);
    assert(ieval(seq![1nat].drop_first(), r as int) == 0);
    assert(r * 0 == 0);
    assert(ieval(seq![1nat], r as int) == 1);
    assert(ieval(p, r as int) == fsub(0, r) + r);
    vstd::arithmetic::div_mod::lemma_add_mod_noop(0 - r, r as int, m);
    lemma_small_mod(r, modulus());
    lemma_mod_twice(0 - r, m);
    assert((0 - r + r) % m == 0);
}

/// The linear factor `x - r` vanishes at `a` exactly where `a` is `r`.
pub proof fn lemma_linear_factor_zero(r: nat, a: nat)
    requires
        r < modulus(),
        a < modulus(),
    ensures
        (peval(seq![fsub(0, r), 1nat], a) == 0) == (a == r),
{
    let m = modulus() as int;
    let p = seq![fsub(0, r), 1nat];
    lemma_peval_ieval(p, a);
    assert(p.drop_first() =~= seq![1nat]);
    assert(seq![1nat].drop_first().len() == 0);
    assert(ieval(seq![1nat].drop_first(), a as int) == 0);
    assert(a * 0 == 0);
    assert(ieval(seq![1nat], a as int) == 1);
    assert(ieval(p, a as int) == fsub(0, r) + a);
    vstd::arithmetic::div_mod::lemma_add_mod_noop(0 - r, a as int, m);
    lemma_small_mod(a, modulus());
    lemma_mod_twice(0 - r, m);
    assert(peval(p, a) as int == (a - r) % m);
    if a >= r {
        lemma_small_mod((a - r) as nat, modulus());
    } else {
        vstd::arithmetic::div_mod::lemma_mod_add_multiples_vanish(a - r, m);
        lemma_small_mod((a - r + m) as nat, modulus());
    }
}

} // verus!
