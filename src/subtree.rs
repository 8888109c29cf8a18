//! The subproduct tree over a set of `2^k` roots and the algorithms that walk it.

use crate::algebra::{
    lemma_constant_value, lemma_linear_factor_root, lemma_linear_factor_zero, lemma_rem_shape, lemma_remainder_keeps_value,
    lemma_trim_value, reduced,
};
use crate::error::Error;
use crate::field::{batch_invert, fe_mul, fe_sub, finv, fmul, fneg, fsub, modulus, Scalar};
use crate::poly::{
    poly_add, all_wf, coeff, evaluate, dft, exp2, fft, idft, ifft, is_pow2, monic, poly_mul, padd, peval,
    pmul, rem_monic, remainder, trim, trimmed, vals, MAX_DOMAIN,
};
use vstd::prelude::*;

verus! {

/// The pointwise product of two evaluation vectors.
pub open spec fn pointwise(a: Seq<nat>, b: Seq<nat>) -> Seq<nat> {
    Seq::new(a.len(), |i: int| fmul(a[i], coeff(b, i)))
}

/// What the monic product computes for `a`, `b` of degree `d`: the inverse
/// transform, over `2d` points, of the pointwise product of their transforms,
/// whose constant term is lowered by the aliased top coefficient one, and then
/// that top coefficient appended.
pub open spec fn monic_product(a: Seq<nat>, b: Seq<nat>) -> Seq<nat> {
    let n = (2 * (a.len() - 1)) as nat;
    let e = idft(pointwise(dft(a, n), dft(b, n)), n);
    e.update(0, fsub(e[0], 1)).push(1)
}

proof fn lemma_pow2_double(d: nat)
    requires
        is_pow2(d),
    ensures
        is_pow2(2 * d),
{
    assert((2 * d) / 2 == d);
}

/// Multiplies two monic polynomials of the same power-of-two degree `d` with
/// transforms over `2d` points instead of `2d + 1`.
pub fn multiply_pow2_monic_polys(a: &Vec<Scalar>, b: &Vec<Scalar>) -> (r: Vec<Scalar>)
    requires
        all_wf(a@),
        all_wf(b@),
        a@.len() == b@.len(),
        a@.len() >= 2,
        is_pow2((a@.len() - 1) as nat),
        monic(vals(a@)),
        monic(vals(b@)),
        2 * (a@.len() - 1) <= MAX_DOMAIN,
    ensures
        all_wf(r@),
        vals(r@) == monic_product(vals(a@), vals(b@)),
        r@.len() == 2 * a@.len() - 1,
        monic(vals(r@)),
{
    let d = a.len() - 1;
    let n = 2 * d;
    proof {
        lemma_pow2_double(d as nat);
    }
    let fa = fft(a, n);
    let fb = fft(b, n);
    assert(vals(fa@) =~= dft(vals(a@), n as nat));
    assert(vals(fb@) =~= dft(vals(b@), n as nat));
    let mut prod: Vec<Scalar> = Vec::with_capacity(n);
    let mut i: usize = 0;
    while i < n
        invariant
            i <= n,
            fa@.len() == n,
            fb@.len() == n,
            all_wf(fa@),
            all_wf(fb@),
            prod@.len() == i,
            all_wf(prod@),
            forall|j: int| 0 <= j < i ==> (#[trigger] prod@[j]).val() == fmul(fa@[j].val(), fb@[j].val()),
        decreases n - i,
    {
        prod.push(fe_mul(&fa[i], &fb[i]));
        i += 1;
    }
    assert(vals(prod@) =~= pointwise(vals(fa@), vals(fb@)));
    let mut e = ifft(&prod, n);
    assert(vals(e@) =~= idft(vals(prod@), n as nat));
    let c0 = fe_sub(&e[0], &Scalar::one());
    e.set(0, c0);
    e.push(Scalar::one());
    assert(vals(e@) =~= monic_product(vals(a@), vals(b@)));
    e
}

/// `n` values, all zero but a one at `m`.
fn unit_vector(n: usize, m: usize) -> (r: Vec<Scalar>)
    requires
        m < n,
    ensures
        r@.len() == n,
        all_wf(r@),
        forall|i: int| 0 <= i < n ==> (#[trigger] r@[i]).val() == (if i == m {
            1nat
        } else {
            0nat
        }),
{
    let mut r: Vec<Scalar> = Vec::with_capacity(n);
    let mut i: usize = 0;
    while i < n
        invariant
            i <= n,
            m < n,
            r@.len() == i,
            forall|j: int| 0 <= j < i ==> (#[trigger] r@[j]).wf() && r@[j].val() == (if j == m {
                1nat
            } else {
                0nat
            }),
        decreases n - i,
    {
        if i == m {
            r.push(Scalar::one());
        } else {
            r.push(Scalar::zero());
        }
        i += 1;
    }
    r
}

/// The values held by the tree's layers: `t[l][j]` is node `j` of layer `l`.
pub open spec fn model(layers: Seq<Vec<Vec<Scalar>>>) -> Seq<Seq<Seq<nat>>> {
    layers.map_values(|layer: Vec<Vec<Scalar>>| layer@.map_values(|p: Vec<Scalar>| vals(p@)))
}

/// Every coefficient of every node is a canonical field element.
pub open spec fn layers_wf(layers: Seq<Vec<Vec<Scalar>>>) -> bool {
    forall|l: int, j: int|
        0 <= l < layers.len() && 0 <= j < layers[l]@.len() ==> all_wf(#[trigger] layers[l]@[j]@)
}

/// Node `j` of layer `l` is monic of degree `2^l`: on layer 0 the linear factor
/// `x - roots[j]`, above it the monic product of its two children.
pub open spec fn node_ok(t: Seq<Seq<Seq<nat>>>, roots: Seq<nat>, l: int, j: int) -> bool {
    &&& t[l][j].len() == exp2(l as nat) + 1
    &&& monic(t[l][j])
    &&& if l == 0 {
        t[0][j] == seq![fneg(roots[j]), 1nat]
    } else {
        t[l][j] == monic_product(t[l - 1][2 * j], t[l - 1][2 * j + 1])
    }
}

/// Layer `l` of a tree of height `k` holds `2^(k-l)` well-formed nodes.
pub open spec fn layer_ok(t: Seq<Seq<Seq<nat>>>, roots: Seq<nat>, k: nat, l: int) -> bool {
    &&& t[l].len() == exp2((k - l) as nat)
    &&& forall|j: int| 0 <= j < t[l].len() ==> #[trigger] node_ok(t, roots, l, j)
}

/// `t` is the subproduct tree of height `k` over `2^k` roots.
pub open spec fn tree_ok(t: Seq<Seq<Seq<nat>>>, roots: Seq<nat>, k: nat) -> bool {
    &&& t.len() == k + 1
    &&& roots.len() == exp2(k)
    &&& forall|l: int| 0 <= l <= k ==> #[trigger] layer_ok(t, roots, k, l)
}

/// Up-the-tree combination at node `j` of layer `l`: the sum, over the leaves `i`
/// below the node, of `v[i]` times the product of the other leaves' factors.
pub open spec fn up_tree(t: Seq<Seq<Seq<nat>>>, l: nat, j: int, v: Seq<nat>) -> Seq<nat>
    decreases l,
{
    if l == 0 {
        trim(seq![coeff(v, j)])
    } else {
        let left = up_tree(t, (l - 1) as nat, 2 * j, v);
        let right = up_tree(t, (l - 1) as nat, 2 * j + 1, v);
        trim(
            padd(
                trim(pmul(left, t[l - 1][2 * j + 1])),
                trim(pmul(right, t[l - 1][2 * j])),
            ),
        )
    }
}

/// Down-the-tree reduction from node `j` of layer `l`: `f` is reduced modulo each
/// child's polynomial and the residues are passed on; a leaf yields the constant
/// term of its residue.
pub open spec fn down_tree(t: Seq<Seq<Seq<nat>>>, l: nat, j: int, f: Seq<nat>) -> Seq<nat>
    decreases l,
{
    if l == 0 {
        seq![coeff(f, 0)]
    } else {
        down_tree(t, (l - 1) as nat, 2 * j, trim(rem_monic(f, t[l - 1][2 * j]))) + down_tree(
            t,
            (l - 1) as nat,
            2 * j + 1,
            trim(rem_monic(f, t[l - 1][2 * j + 1])),
        )
    }
}

proof fn lemma_exp2_mono(a: nat, b: nat)
    requires
        a <= b,
    ensures
        1 <= exp2(a) <= exp2(b),
    decreases b,
{
    if b > a {
        lemma_exp2_mono(a, (b - 1) as nat);
    } else if a > 0 {
        lemma_exp2_mono(0, (a - 1) as nat);
    }
}

proof fn lemma_trim(p: Seq<nat>)
    ensures
        trim(p).len() <= p.len(),
        trimmed(trim(p)),
    decreases p.len(),
{
    if p.len() > 0 && p.last() == 0 {
        lemma_trim(p.drop_last());
    }
}

/// Facts about a node of a well-formed tree that the walks need.
proof fn lemma_node(layers: Seq<Vec<Vec<Scalar>>>, roots: Seq<nat>, k: nat, l: int, j: int)
    requires
        layers_wf(layers),
        tree_ok(model(layers), roots, k),
        0 <= l <= k,
        0 <= j < exp2((k - l) as nat),
    ensures
        layers.len() == k + 1,
        layers[l]@.len() == exp2((k - l) as nat),
        all_wf(layers[l]@[j]@),
        layers[l]@[j]@.len() == exp2(l as nat) + 1,
        vals(layers[l]@[j]@) == model(layers)[l][j],
        monic(vals(layers[l]@[j]@)),
        trimmed(vals(layers[l]@[j]@)),
{
    let t = model(layers);
    assert(layer_ok(t, roots, k, l));
    assert(node_ok(t, roots, l, j));
}

fn multiply_up_the_tree(
    layers: &Vec<Vec<Vec<Scalar>>>,
    l: usize,
    j: usize,
    v: &Vec<Scalar>,
    Ghost(roots): Ghost<Seq<nat>>,
    Ghost(k): Ghost<nat>,
) -> (r: Vec<Scalar>)
    requires
        layers_wf(layers@),
        tree_ok(model(layers@), roots, k),
        exp2(k) <= MAX_DOMAIN / 2,
        l <= k,
        j < exp2((k - l) as nat),
        v@.len() == exp2(k),
        all_wf(v@),
    ensures
        all_wf(r@),
        vals(r@) == up_tree(model(layers@), l as nat, j as int, vals(v@)),
        trimmed(vals(r@)),
        r@.len() <= exp2(l as nat),
    decreases l,
{
    let ghost t = model(layers@);
    proof {
        lemma_exp2_mono((k - l) as nat, k);
        lemma_exp2_mono(l as nat, k);
    }
    if l == 0 {
        let x = v[j];
        let r: Vec<Scalar> = if x.is_zero() {
            Vec::new()
        } else {
            vec![x]
        };
        proof {
            assert(seq![coeff(vals(v@), j as int)].drop_last() =~= Seq::<nat>::empty());
            assert(trim(Seq::<nat>::empty()) == Seq::<nat>::empty());
            assert(vals(r@) =~= up_tree(t, 0, j as int, vals(v@)));
        }
        r
    } else {
        proof {
            assert(exp2((k - (l - 1)) as nat) == 2 * exp2((k - l) as nat));
            lemma_node(layers@, roots, k, l - 1, 2 * j);
            lemma_node(layers@, roots, k, l - 1, 2 * j + 1);
        }
        let left = multiply_up_the_tree(layers, l - 1, 2 * j, v, Ghost(roots), Ghost(k));
        let right = multiply_up_the_tree(layers, l - 1, 2 * j + 1, v, Ghost(roots), Ghost(k));
        let p1 = poly_mul(&left, &layers[l - 1][2 * j + 1]);
        let p2 = poly_mul(&right, &layers[l - 1][2 * j]);
        proof {
            lemma_trim(pmul(vals(left@), t[l - 1][2 * j + 1]));
            lemma_trim(pmul(vals(right@), t[l - 1][2 * j]));
        }
        let r = poly_add(&p1, &p2);
        proof {
            lemma_trim(padd(vals(p1@), vals(p2@)));
        }
        r
    }
}

fn divide_down_the_tree(
    layers: &Vec<Vec<Vec<Scalar>>>,
    l: usize,
    j: usize,
    f: &Vec<Scalar>,
    Ghost(roots): Ghost<Seq<nat>>,
    Ghost(k): Ghost<nat>,
) -> (r: Vec<Scalar>)
    requires
        layers_wf(layers@),
        tree_ok(model(layers@), roots, k),
        exp2(k) <= MAX_DOMAIN / 2,
        l <= k,
        j < exp2((k - l) as nat),
        all_wf(f@),
    ensures
        all_wf(r@),
        vals(r@) == down_tree(model(layers@), l as nat, j as int, vals(f@)),
        r@.len() == exp2(l as nat),
    decreases l,
{
    let ghost t = model(layers@);
    proof {
        lemma_exp2_mono((k - l) as nat, k);
    }
    if l == 0 {
        let x = if f.len() == 0 {
            Scalar::zero()
        } else {
            f[0]
        };
        let r = vec![x];
        proof {
            assert(vals(r@) =~= down_tree(t, 0, j as int, vals(f@)));
        }
        r
    } else {
        proof {
            assert(exp2((k - (l - 1)) as nat) == 2 * exp2((k - l) as nat));
            lemma_node(layers@, roots, k, l - 1, 2 * j);
            lemma_node(layers@, roots, k, l - 1, 2 * j + 1);
        }
        let fl = remainder(f, &layers[l - 1][2 * j]);
        let fr = remainder(f, &layers[l - 1][2 * j + 1]);
        let mut left = divide_down_the_tree(layers, l - 1, 2 * j, &fl, Ghost(roots), Ghost(k));
        let mut right = divide_down_the_tree(layers, l - 1, 2 * j + 1, &fr, Ghost(roots), Ghost(k));
        let ghost lv = left@;
        let ghost rv = right@;
        left.append(&mut right);
        proof {
            assert(vals(left@) =~= vals(lv) + vals(rv));
        }
        left
    }
}

/// Each value times its weight.
pub open spec fn scaled(v: Seq<nat>, w: Seq<nat>) -> Seq<nat> {
    Seq::new(v.len(), |i: int| fmul(v[i], w[i]))
}

proof fn lemma_down_len(t: Seq<Seq<Seq<nat>>>, l: nat, j: int, f: Seq<nat>)
    ensures
        down_tree(t, l, j, f).len() == exp2(l),
    decreases l,
{
    if l > 0 {
        lemma_down_len(t, (l - 1) as nat, 2 * j, trim(rem_monic(f, t[l - 1][2 * j])));
        lemma_down_len(t, (l - 1) as nat, 2 * j + 1, trim(rem_monic(f, t[l - 1][2 * j + 1])));
    }
}

/// No value occurs twice.
pub open spec fn distinct(s: Seq<nat>) -> bool {
    forall|i: int, j: int| 0 <= i < s.len() && 0 <= j < s.len() && i != j ==> s[i] != s[j]
}

/// `n` copies of one.
pub open spec fn ones(n: nat) -> Seq<nat> {
    Seq::new(n, |i: int| 1nat)
}

/// The formal derivative of the vanishing polynomial, built up the tree from
/// all-one contributions and evaluated down the tree at each root.
pub open spec fn derivative_at_roots(t: Seq<Seq<Seq<nat>>>, k: nat) -> Seq<nat> {
    down_tree(t, k, 0, up_tree(t, k, 0, ones(exp2(k))))
}

/// The barycentric weights of a tree of height `k`: the inverses of the
/// derivative's values at the roots.
pub open spec fn weights_of(t: Seq<Seq<Seq<nat>>>, k: nat) -> Seq<nat> {
    derivative_at_roots(t, k).map_values(|x: nat| finv(x))
}

proof fn lemma_pow2_exp2(k: nat)
    ensures
        is_pow2(exp2(k)),
        exp2(k) >= 1,
    decreases k,
{
    if k > 0 {
        lemma_pow2_exp2((k - 1) as nat);
        lemma_pow2_double(exp2((k - 1) as nat));
    }
}

/// The subproduct tree over `2^k` roots, with the barycentric weights of the roots.
pub struct Pow2ProductSubtree {
    layers: Vec<Vec<Vec<Scalar>>>,
    ri: Vec<Scalar>,
    roots: Ghost<Seq<nat>>,
}

impl Pow2ProductSubtree {
    /// The roots, in the order in which they were given.
    pub closed spec fn roots(self) -> Seq<nat> {
        self.roots@
    }

    /// `k`, where there are `2^k` roots.
    pub closed spec fn height(self) -> nat {
        (self.layers@.len() - 1) as nat
    }

    /// The polynomials of the tree, layer by layer.
    pub closed spec fn tree(self) -> Seq<Seq<Seq<nat>>> {
        model(self.layers@)
    }

    /// The stored barycentric weights.
    pub closed spec fn weights(self) -> Seq<nat> {
        vals(self.ri@)
    }

    pub closed spec fn wf(self) -> bool {
        &&& self.layers@.len() >= 1
        &&& layers_wf(self.layers@)
        &&& tree_ok(self.tree(), self.roots(), self.height())
        &&& exp2(self.height()) <= MAX_DOMAIN / 2
        &&& all_wf(self.ri@)
        &&& self.weights() == weights_of(self.tree(), self.height())
        &&& reduced(self.roots())
        &&& distinct(self.roots())
    }

    /// Builds the tree over `roots`, which must be pairwise distinct: fails with
    /// `EmptyRoots` on no roots and with `NotPow2` where their number is not a
    /// power of two.
    pub fn construct(roots: &[Scalar]) -> (r: Result<Self, Error>)
        requires
            all_wf(roots@),
            distinct(vals(roots@)),
            roots@.len() <= MAX_DOMAIN / 2,
        ensures
            match r {
                Ok(t) => {
                    &&& is_pow2(roots@.len() as nat)
                    &&& t.wf()
                    &&& t.roots() == vals(roots@)
                    &&& t.size() == roots@.len()
                    &&& exp2(t.height()) == roots@.len()
                    &&& tree_ok(t.tree(), t.roots(), t.height())
                    &&& t.vanishing() == t.tree()[t.height() as int][0]
                    &&& t.weights() == weights_of(t.tree(), t.height())
                    &&& t.weights().len() == roots@.len()
                    &&& forall|i: int|
                        0 <= i < roots@.len() && derivative_at_roots(t.tree(), t.height())[i] != 0
                            ==> fmul(
                            derivative_at_roots(t.tree(), t.height())[i],
                            #[trigger] t.weights()[i],
                        ) == 1
                },
                Err(e) => {
                    ||| roots@.len() == 0 && e == Error::EmptyRoots
                    ||| roots@.len() > 0 && !is_pow2(roots@.len() as nat) && e == Error::NotPow2
                },
            },
    {
        let n = roots.len();
        if n == 0 {
            return Err(Error::EmptyRoots);
        }
        let mut m: usize = n;
        let mut k: usize = 0;
        assert(exp2(0) == 1);
        assert(n == m * exp2(0));
        while m % 2 == 0
            invariant
                1 <= m <= n,
                k + m <= n,
                n == m * exp2(k as nat),
                is_pow2(n as nat) == is_pow2(m as nat),
            decreases m,
        {
            proof {
                let e = exp2(k as nat);
                assert((m / 2) * (2 * e) == m * e) by (nonlinear_arith)
                    requires
                        m % 2 == 0,
                ;
            }
            m = m / 2;
            k = k + 1;
        }
        if m != 1 {
            return Err(Error::NotPow2);
        }
        let ghost vroots = vals(roots@);
        let ghost kk = k as nat;

        let mut layer0: Vec<Vec<Scalar>> = Vec::with_capacity(n);
        let mut i: usize = 0;
        while i < n
            invariant
                i <= n,
                n == roots@.len(),
                vroots == vals(roots@),
                all_wf(roots@),
                layer0@.len() == i,
                forall|j: int|
                    0 <= j < i ==> all_wf(#[trigger] layer0@[j]@) && vals(layer0@[j]@) == seq![
                        fneg(vroots[j]),
                        1nat,
                    ],
            decreases n - i,
        {
            let neg = fe_sub(&Scalar::zero(), &roots[i]);
            let node = vec![neg, Scalar::one()];
            proof {
                assert(vals(node@) =~= seq![fneg(vroots[i as int]), 1nat]);
            }
            layer0.push(node);
            i += 1;
        }
        let mut layers: Vec<Vec<Vec<Scalar>>> = Vec::new();
        layers.push(layer0);
        proof {
            let t = model(layers@);
            assert(t[0] =~= layer0@.map_values(|p: Vec<Scalar>| vals(p@)));
            assert forall|j: int| 0 <= j < t[0].len() implies #[trigger] node_ok(t, vroots, 0, j) by {
                assert(all_wf(layer0@[j]@));
            }
            assert(layer_ok(t, vroots, kk, 0));
        }

        let mut nodes: usize = n;
        let mut i: usize = 1;
        while i <= k
            invariant
                1 <= i <= k + 1,
                k < n,
                n == exp2(kk),
                kk == k,
                n <= MAX_DOMAIN / 2,
                vroots.len() == n,
                layers@.len() == i,
                nodes == exp2((kk - (i - 1)) as nat),
                layers_wf(layers@),
                forall|l: int| 0 <= l < i ==> #[trigger] layer_ok(model(layers@), vroots, kk, l),
            decreases k + 1 - i,
        {
            proof {
                assert(exp2((kk - (i - 1)) as nat) == 2 * exp2((kk - i) as nat));
                lemma_exp2_mono((kk - (i - 1)) as nat, kk);
                lemma_exp2_mono((i - 1) as nat, kk);
                lemma_pow2_exp2((i - 1) as nat);
                assert(exp2(i as nat) == 2 * exp2((i - 1) as nat));
                lemma_exp2_mono(i as nat, kk);
            }
            nodes = nodes / 2;
            let ghost t = model(layers@);
            let mut layer: Vec<Vec<Scalar>> = Vec::with_capacity(nodes);
            let mut j: usize = 0;
            while j < nodes
                invariant
                    j <= nodes,
                    nodes == exp2((kk - i) as nat),
                    2 * nodes == exp2((kk - (i - 1)) as nat),
                    2 * nodes <= n,
                    n <= MAX_DOMAIN / 2,
                    exp2(i as nat) == 2 * exp2((i - 1) as nat),
                    exp2(i as nat) <= n,
                    is_pow2(exp2((i - 1) as nat)),
                    exp2((i - 1) as nat) >= 1,
                    1 <= i <= kk,
                    layers@.len() == i,
                    t == model(layers@),
                    layers_wf(layers@),
                    layer_ok(t, vroots, kk, i - 1),
                    layer@.len() == j,
                    forall|jj: int|
                        0 <= jj < j ==> {
                            &&& all_wf(#[trigger] layer@[jj]@)
                            &&& vals(layer@[jj]@).len() == exp2(i as nat) + 1
                            &&& monic(vals(layer@[jj]@))
                            &&& vals(layer@[jj]@) == monic_product(
                                t[i - 1][2 * jj],
                                t[i - 1][2 * jj + 1],
                            )
                        },
                decreases nodes - j,
            {
                proof {
                    assert(node_ok(t, vroots, i - 1, 2 * j));
                    assert(node_ok(t, vroots, i - 1, 2 * j + 1));
                    assert(all_wf(layers@[i - 1]@[2 * j as int]@));
                    assert(all_wf(layers@[i - 1]@[2 * j + 1]@));
                }
                let prod = multiply_pow2_monic_polys(&layers[i - 1][2 * j], &layers[i - 1][2 * j + 1]);
                layer.push(prod);
                j += 1;
            }
            let ghost old_layers = layers@;
            layers.push(layer);
            proof {
                let t2 = model(layers@);
                assert forall|l: int| 0 <= l < i implies #[trigger] layer_ok(t2, vroots, kk, l) by {
                    assert(t2[l] == t[l]);
                    if l > 0 {
                        assert(t2[l - 1] == t[l - 1]);
                    }
                    assert(layer_ok(t, vroots, kk, l));
                    assert forall|jj: int| 0 <= jj < t2[l].len() implies #[trigger] node_ok(t2, vroots, l, jj) by {
                        assert(node_ok(t, vroots, l, jj));
                    }
                }
                assert(t2[i as int - 1] == t[i - 1]);
                assert forall|jj: int| 0 <= jj < t2[i as int].len() implies #[trigger] node_ok(t2, vroots, i as int, jj) by {
                    assert(all_wf(layer@[jj]@));
                }
                assert(layer_ok(t2, vroots, kk, i as int));
                assert forall|l: int, jj: int|
                    0 <= l < layers@.len() && 0 <= jj < layers@[l]@.len() implies all_wf(#[trigger] layers@[l]@[jj]@) by {
                    if l < i {
                        assert(layers@[l] == old_layers[l]);
                    } else {
                        assert(all_wf(layer@[jj]@));
                    }
                }
            }
            i += 1;
        }
        proof {
            assert(tree_ok(model(layers@), vroots, kk));
        }

        let mut one_evals: Vec<Scalar> = Vec::with_capacity(n);
        let mut i: usize = 0;
        while i < n
            invariant
                i <= n,
                one_evals@.len() == i,
                forall|j: int| 0 <= j < i ==> (#[trigger] one_evals@[j]).wf() && one_evals@[j].val() == 1,
            decreases n - i,
        {
            one_evals.push(Scalar::one());
            i += 1;
        }
        proof {
            assert(vals(one_evals@) =~= ones(n as nat));
            lemma_exp2_mono(0, kk);
        }
        let derivative = multiply_up_the_tree(&layers, k, 0, &one_evals, Ghost(vroots), Ghost(kk));
        let mut ri = divide_down_the_tree(&layers, k, 0, &derivative, Ghost(vroots), Ghost(kk));
        let ghost before = ri@;
        batch_invert(&mut ri);
        let t = Pow2ProductSubtree { layers, ri, roots: Ghost(vroots) };
        proof {
            assert(t.weights() =~= weights_of(t.tree(), t.height()));
            assert forall|q: int| 0 <= q < vroots.len() implies #[trigger] vroots[q] < modulus() by {
                assert(roots@[q].wf());
            }
            lemma_down_len(t.tree(), kk, 0, up_tree(t.tree(), kk, 0, ones(exp2(kk))));
            assert forall|i: int|
                0 <= i < n && derivative_at_roots(t.tree(), t.height())[i] != 0 implies fmul(
                derivative_at_roots(t.tree(), t.height())[i],
                #[trigger] t.weights()[i],
            ) == 1 by {
                assert(before[i].val() == derivative_at_roots(t.tree(), t.height())[i]);
                assert(t.weights()[i] == ri@[i].val());
            }
        }
        Ok(t)
    }

    /// The vanishing polynomial `Z(x) = Π (x - root_i)`: the root of the tree.
    pub closed spec fn vanishing(self) -> Seq<nat> {
        self.tree()[self.height() as int][0]
    }

    /// The number of roots.
    pub closed spec fn size(self) -> nat {
        self.roots().len()
    }

    pub fn get_vanishing(&self) -> (r: Vec<Scalar>)
        requires
            self.wf(),
        ensures
            all_wf(r@),
            vals(r@) == self.vanishing(),
            r@.len() == self.size() + 1,
            monic(vals(r@)),
    {
        let k = self.layers.len() - 1;
        proof {
            lemma_exp2_mono(0, k as nat);
            lemma_node(self.layers@, self.roots(), k as nat, k as int, 0);
        }
        let r = self.layers[k][0].clone();
        assert(r@ =~= self.layers@[k as int]@[0]@);
        r
    }

    /// The values of `f` at every root, in the roots' order, by reducing `f` down
    /// the tree. `f` must have degree below the number of roots.
    pub fn evaluate_over_domain(&self, f: &Vec<Scalar>) -> (r: Vec<Scalar>)
        requires
            self.wf(),
            all_wf(f@),
            trim(vals(f@)).len() <= self.size(),
        ensures
            all_wf(r@),
            r@.len() == self.size(),
            vals(r@) == down_tree(self.tree(), self.height(), 0, vals(f@)),
    {
        let k = self.layers.len() - 1;
        proof {
            lemma_exp2_mono(0, k as nat);
        }
        divide_down_the_tree(&self.layers, k, 0, f, Ghost(self.roots()), Ghost(k as nat))
    }

    /// The polynomial of degree below the number of roots that takes the value
    /// `evals[i]` at root `i`: each value is scaled by its weight and the results
    /// are combined up the tree.
    pub fn interpolate(&self, evals: &[Scalar]) -> (r: Vec<Scalar>)
        requires
            self.wf(),
            all_wf(evals@),
            evals@.len() == self.size(),
        ensures
            all_wf(r@),
            trimmed(vals(r@)),
            r@.len() <= self.size(),
            vals(r@) == up_tree(
                self.tree(),
                self.height(),
                0,
                scaled(vals(evals@), self.weights()),
            ),
    {
        let k = self.layers.len() - 1;
        let n = self.ri.len();
        proof {
            lemma_exp2_mono(0, k as nat);
            assert(down_tree(self.tree(), k as nat, 0, up_tree(self.tree(), k as nat, 0, ones(exp2(k as nat)))).len() == exp2(k as nat)) by {
                lemma_down_len(self.tree(), k as nat, 0, up_tree(self.tree(), k as nat, 0, ones(exp2(k as nat))));
            }
        }
        assert(self.ri@.len() == vals(self.ri@).len());
        let mut scaled_evals: Vec<Scalar> = Vec::with_capacity(n);
        let mut i: usize = 0;
        while i < n
            invariant
                i <= n,
                n == self.ri@.len(),
                n == evals@.len(),
                all_wf(self.ri@),
                all_wf(evals@),
                scaled_evals@.len() == i,
                forall|j: int|
                    0 <= j < i ==> (#[trigger] scaled_evals@[j]).wf() && scaled_evals@[j].val()
                        == fmul(evals@[j].val(), self.ri@[j].val()),
            decreases n - i,
        {
            scaled_evals.push(fe_mul(&evals[i], &self.ri[i]));
            i += 1;
        }
        proof {
            assert(vals(scaled_evals@) =~= scaled(vals(evals@), self.weights()));
        }
        multiply_up_the_tree(&self.layers, k, 0, &scaled_evals, Ghost(self.roots()), Ghost(k as nat))
    }

    /// The values at `point` of all Lagrange basis polynomials of the roots: at
    /// root `m` the unit vector with its one at `m`, elsewhere
    /// `ri_i · (point - root_i)^(-1) · Z(point)`.
    pub fn batch_evaluate_lagrange_basis(&self, point: &Scalar) -> (r: Vec<Scalar>)
        requires
            self.wf(),
            point.wf(),
        ensures
            all_wf(r@),
            r@.len() == self.size(),
            forall|m: int, i: int|
                #![trigger self.roots()[m], r@[i]]
                0 <= m < self.size() && 0 <= i < self.size() && point.val() == self.roots()[m]
                    ==> r@[i].val() == (if i == m {
                    1nat
                } else {
                    0nat
                }),
            (forall|m: int| 0 <= m < self.size() ==> point.val() != #[trigger] self.roots()[m])
                ==> forall|i: int|
                0 <= i < self.size() ==> (#[trigger] r@[i]).val() == fmul(
                    fmul(self.weights()[i], finv(peval(self.tree()[0][i], point.val()))),
                    peval(self.vanishing(), point.val()),
                ),
    {
        let k = self.layers.len() - 1;
        proof {
            lemma_exp2_mono(0, k as nat);
            lemma_exp2_mono(k as nat, k as nat);
            assert(layer_ok(self.tree(), self.roots(), k as nat, 0));
            assert(down_tree(self.tree(), k as nat, 0, up_tree(self.tree(), k as nat, 0, ones(exp2(k as nat)))).len() == exp2(k as nat)) by {
                lemma_down_len(self.tree(), k as nat, 0, up_tree(self.tree(), k as nat, 0, ones(exp2(k as nat))));
            }
        }
        let n = self.layers[0].len();
        let mut diffs: Vec<Scalar> = Vec::with_capacity(n);
        let mut i: usize = 0;
        while i < n
            invariant
                i <= n,
                n == exp2(k as nat),
                self.wf(),
                point.wf(),
                k == self.height(),
                diffs@.len() == i,
                forall|j: int|
                    0 <= j < i ==> (#[trigger] diffs@[j]).wf() && diffs@[j].val() == peval(
                        self.tree()[0][j],
                        point.val(),
                    ),
            decreases n - i,
        {
            proof {
                lemma_node(self.layers@, self.roots(), k as nat, 0, i as int);
            }
            diffs.push(evaluate(&self.layers[0][i], point));
            i += 1;
        }
        let mut m: usize = 0;
        while m < n
            invariant
                m <= n,
                n == exp2(k as nat),
                self.wf(),
                point.wf(),
                k == self.height(),
                diffs@.len() == n,
                forall|j: int|
                    0 <= j < n ==> (#[trigger] diffs@[j]).wf() && diffs@[j].val() == peval(
                        self.tree()[0][j],
                        point.val(),
                    ),
                forall|j: int| 0 <= j < m ==> point.val() != #[trigger] self.roots()[j],
            decreases n - m,
        {
            proof {
                assert(layer_ok(self.tree(), self.roots(), k as nat, 0));
                assert(node_ok(self.tree(), self.roots(), 0, m as int));
                lemma_linear_factor_zero(self.roots()[m as int], point.val());
            }
            if diffs[m].is_zero() {
                let r = unit_vector(n, m);
                proof {
                    assert forall|m2: int, i: int|
                        #![trigger self.roots()[m2], r@[i]]
                        0 <= m2 < self.size() && 0 <= i < self.size() && point.val()
                            == self.roots()[m2] implies r@[i].val() == (if i == m2 {
                        1nat
                    } else {
                        0nat
                    }) by {
                        assert(m2 == m);
                    }
                }
                return r;
            }
            m += 1;
        }
        batch_invert(&mut diffs);
        proof {
            lemma_node(self.layers@, self.roots(), k as nat, k as int, 0);
        }
        let vh = evaluate(&self.layers[k][0], point);
        assert(self.ri@.len() == vals(self.ri@).len());
        let mut r: Vec<Scalar> = Vec::with_capacity(n);
        let mut i: usize = 0;
        while i < n
            invariant
                i <= n,
                n == exp2(k as nat),
                self.wf(),
                k == self.height(),
                diffs@.len() == n,
                self.ri@.len() == n,
                all_wf(self.ri@),
                vh.wf(),
                vh.val() == peval(self.vanishing(), point.val()),
                forall|j: int|
                    0 <= j < n ==> (#[trigger] diffs@[j]).wf() && diffs@[j].val() == finv(
                        peval(self.tree()[0][j], point.val()),
                    ),
                r@.len() == i,
                forall|j: int|
                    0 <= j < i ==> (#[trigger] r@[j]).wf() && r@[j].val() == fmul(
                        fmul(self.weights()[j], finv(peval(self.tree()[0][j], point.val()))),
                        peval(self.vanishing(), point.val()),
                    ),
            decreases n - i,
        {
            let w = fe_mul(&self.ri[i], &diffs[i]);
            r.push(fe_mul(&w, &vh));
            i += 1;
        }
        r
    }

    pub fn get_ri(&self) -> (r: Vec<Scalar>)
        requires
            self.wf(),
        ensures
            all_wf(r@),
            vals(r@) == self.weights(),
            vals(r@) == weights_of(self.tree(), self.height()),
    {
        let r = self.ri.clone();
        assert(r@ =~= self.ri@);
        r
    }
}

/// What a well-formed tree is: its shape and layers, its root polynomial and
/// its weights, over `2^height` distinct roots.
pub proof fn lemma_tree_facts(t: Pow2ProductSubtree)
    requires
        t.wf(),
    ensures
        t.size() == exp2(t.height()),
        t.size() <= MAX_DOMAIN / 2,
        tree_ok(t.tree(), t.roots(), t.height()),
        t.vanishing() == t.tree()[t.height() as int][0],
        t.vanishing().len() == t.size() + 1,
        monic(t.vanishing()),
        t.weights() == weights_of(t.tree(), t.height()),
        t.weights().len() == t.size(),
        reduced(t.roots()),
        distinct(t.roots()),
{
    let k = t.height();
    lemma_exp2_mono(0, k);
    lemma_node(t.layers@, t.roots(), k, k as int, 0);
    lemma_down_len(t.tree(), k, 0, up_tree(t.tree(), k, 0, ones(exp2(k))));
}

/// Node `j` of layer `l` vanishes at each of the roots below it, those of index
/// `j·2^l` up to `(j+1)·2^l - 1`.
pub open spec fn node_vanishes(t: Seq<Seq<Seq<nat>>>, roots: Seq<nat>, l: int, j: int) -> bool {
    forall|q: int|
        j * exp2(l as nat) <= q < (j + 1) * exp2(l as nat) ==> peval(t[l][j], #[trigger] roots[q])
            == 0
}

/// Every node above the leaves and below layer `l` vanishes at the roots below it.
pub open spec fn inner_nodes_vanish(t: Seq<Seq<Seq<nat>>>, roots: Seq<nat>, k: nat, l: int) -> bool {
    forall|l2: int, j2: int|
        1 <= l2 < l && 0 <= j2 < exp2((k - l2) as nat) ==> #[trigger] node_vanishes(t, roots, l2, j2)
}

/// Every coefficient of every node is below the field's order.
pub open spec fn tree_reduced(t: Seq<Seq<Seq<nat>>>) -> bool {
    forall|l: int, j: int| 0 <= l < t.len() && 0 <= j < t[l].len() ==> reduced(#[trigger] t[l][j])
}

proof fn lemma_halves(j: int, e: int, i: int)
    requires
        0 <= j,
        0 <= i < 2 * e,
    ensures
        j * (2 * e) + i == (2 * j) * e + i,
        (2 * j + 1) * e == (2 * j) * e + e,
        (2 * j + 2) * e == (2 * j) * e + 2 * e,
        (j + 1) * (2 * e) == (2 * j) * e + 2 * e,
{
    assert(j * (2 * e) == (2 * j) * e) by (nonlinear_arith);
    assert((2 * j + 1) * e == (2 * j) * e + e) by (nonlinear_arith);
    assert((2 * j + 2) * e == (2 * j) * e + 2 * e) by (nonlinear_arith);
    assert((j + 1) * (2 * e) == (2 * j) * e + 2 * e) by (nonlinear_arith);
}

/// The reduction from node `j` of layer `l` yields the values of `f` at the roots
/// below that node, wherever the inner nodes below it vanish at their roots.
proof fn lemma_down_tree_values(
    t: Seq<Seq<Seq<nat>>>,
    roots: Seq<nat>,
    k: nat,
    l: nat,
    j: int,
    f: Seq<nat>,
)
    requires
        tree_ok(t, roots, k),
        tree_reduced(t),
        reduced(roots),
        l <= k,
        0 <= j < exp2((k - l) as nat),
        reduced(f),
        trim(f).len() <= exp2(l),
        inner_nodes_vanish(t, roots, k, l as int),
    ensures
        forall|i: int|
            0 <= i < exp2(l) ==> #[trigger] down_tree(t, l, j, f)[i] == peval(
                f,
                roots[j * exp2(l) + i],
            ),
    decreases l,
{
    lemma_exp2_mono((k - l) as nat, k);
    if l == 0 {
        assert(exp2(0) == 1);
        lemma_constant_value(f, roots[j]);
        assert(j * 1 + 0 == j);
    } else {
        let e = exp2((l - 1) as nat);
        assert(exp2(l) == 2 * e);
        assert(exp2((k - (l - 1)) as nat) == 2 * exp2((k - l) as nat));
        assert(layer_ok(t, roots, k, l - 1));
        assert(node_ok(t, roots, l - 1, 2 * j));
        assert(node_ok(t, roots, l - 1, 2 * j + 1));
        let c0 = t[l - 1][2 * j];
        let c1 = t[l - 1][2 * j + 1];
        assert(reduced(c0));
        assert(reduced(c1));
        lemma_rem_shape(f, c0);
        lemma_rem_shape(f, c1);
        let f0 = trim(rem_monic(f, c0));
        let f1 = trim(rem_monic(f, c1));
        lemma_trim_value(rem_monic(f, c0), 0);
        lemma_trim_value(rem_monic(f, c1), 0);
        lemma_trim_value(f0, 0);
        lemma_trim_value(f1, 0);
        assert(inner_nodes_vanish(t, roots, k, (l - 1) as int));
        lemma_down_tree_values(t, roots, k, (l - 1) as nat, 2 * j, f0);
        lemma_down_tree_values(t, roots, k, (l - 1) as nat, 2 * j + 1, f1);
        lemma_down_len(t, (l - 1) as nat, 2 * j, f0);
        lemma_down_len(t, (l - 1) as nat, 2 * j + 1, f1);
        let d = down_tree(t, l, j, f);
        assert forall|i: int| 0 <= i < exp2(l) implies #[trigger] down_tree(t, l, j, f)[i] == peval(
            f,
            roots[j * exp2(l) + i],
        ) by {
            lemma_halves(j, e as int, i);
            let q = j * exp2(l) + i;
            if i < e {
                assert(d[i] == down_tree(t, (l - 1) as nat, 2 * j, f0)[i]);
                if l == 1 {
                    assert(e == 1);
                    lemma_linear_factor_root(roots[2 * j]);
                } else {
                    assert(node_vanishes(t, roots, l - 1, 2 * j));
                }
                assert(peval(c0, roots[q]) == 0);
                lemma_remainder_keeps_value(f, c0, roots[q]);
            } else {
                assert(d[i] == down_tree(t, (l - 1) as nat, 2 * j + 1, f1)[i - e]);
                assert((2 * j + 1) * e + (i - e) == q);
                if l == 1 {
                    assert(e == 1);
                    lemma_linear_factor_root(roots[2 * j + 1]);
                } else {
                    assert(node_vanishes(t, roots, l - 1, 2 * j + 1));
                }
                assert(peval(c1, roots[q]) == 0);
                lemma_remainder_keeps_value(f, c1, roots[q]);
            }
        }
    }
}

/// Evaluation over the domain yields `[f(root_0), …, f(root_{n-1})]` for every
/// `f` of degree below `n`, on any tree whose nodes above the leaves vanish at
/// the roots below them (which holds where each node is the product of its
/// children).
pub proof fn lemma_evaluate_over_domain_values(tree: Pow2ProductSubtree, f: Seq<nat>)
    requires
        tree.wf(),
        reduced(f),
        trim(f).len() <= tree.size(),
        inner_nodes_vanish(tree.tree(), tree.roots(), tree.height(), tree.height() as int),
    ensures
        forall|i: int|
            0 <= i < tree.size() ==> #[trigger] down_tree(tree.tree(), tree.height(), 0, f)[i]
                == peval(f, tree.roots()[i]),
{
    let t = tree.tree();
    let k = tree.height();
    lemma_exp2_mono(0, k);
    assert forall|l: int, j: int| 0 <= l < t.len() && 0 <= j < t[l].len() implies reduced(
        #[trigger] t[l][j],
    ) by {
        assert(all_wf(tree.layers@[l]@[j]@));
        assert forall|i: int| 0 <= i < t[l][j].len() implies #[trigger] t[l][j][i] < modulus() by {
            assert(tree.layers@[l]@[j]@[i].wf());
        }
    }
    lemma_down_tree_values(t, tree.roots(), k, k, 0, f);
    assert forall|i: int| 0 <= i < tree.size() implies #[trigger] down_tree(t, k, 0, f)[i] == peval(
        f,
        tree.roots()[i],
    ) by {
        assert(0 * exp2(k) + i == i);
    }
}

} // verus!
