//! Polynomials over the integers, as coefficient sequences (constant term
//! first), and the fact that makes threshold aggregation work: the Lagrange
//! multipliers at zero of `n` points recover `f(0)` from the values at those
//! points of any polynomial `f` with fewer than `n` coefficients.
use crate::lagrange::{lagrange_coefficient, lagrange_coefficients, lagrange_partial};
use crate::scalar::{inverse, modulus, mul_mod, sub_mod};
use vstd::arithmetic::div_mod::{
    lemma_add_mod_noop, lemma_mod_equivalence, lemma_mul_mod_noop_general, lemma_small_mod,
};
use vstd::prelude::*;

verus! {

/// The value at `t` of the polynomial with coefficients `c`.
pub open spec fn eval(c: Seq<int>, t: int) -> int
    decreases c.len(),
{
    if c.len() == 0 {
        0
    } else {
        c[0] + t * eval(c.drop_first(), t)
    }
}

spec fn scale(c: Seq<int>, s: int) -> Seq<int> {
    c.map_values(|x: int| x * s)
}

spec fn shift(c: Seq<int>) -> Seq<int> {
    seq![0int] + c
}

spec fn poly_add(c: Seq<int>, d: Seq<int>) -> Seq<int>
    decreases c.len(),
{
    if c.len() == 0 {
        d
    } else if d.len() == 0 {
        c
    } else {
        seq![c[0] + d[0]] + poly_add(c.drop_first(), d.drop_first())
    }
}

/// The product of `c` and the linear polynomial `b - t`.
spec fn times_linear(c: Seq<int>, b: int) -> Seq<int> {
    poly_add(scale(c, b), scale(shift(c), -1))
}

proof fn lemma_eval_scale(c: Seq<int>, s: int, t: int)
    ensures
        eval(scale(c, s), t) == s * eval(c, t),
        scale(c, s).len() == c.len(),
    decreases c.len(),
{
    if c.len() > 0 {
        assert(scale(c, s).drop_first() =~= scale(c.drop_first(), s));
        lemma_eval_scale(c.drop_first(), s, t);
        let e = eval(c.drop_first(), t);
        assert(c[0] * s + t * (s * e) == s * (c[0] + t * e)) by (nonlinear_arith);
    }
}

proof fn lemma_eval_shift(c: Seq<int>, t: int)
    ensures
        eval(shift(c), t) == t * eval(c, t),
        shift(c).len() == c.len() + 1,
{
    assert(shift(c).drop_first() =~= c);
}

proof fn lemma_eval_poly_add(c: Seq<int>, d: Seq<int>, t: int)
    ensures
        eval(poly_add(c, d), t) == eval(c, t) + eval(d, t),
        poly_add(c, d).len() == if c.len() >= d.len() {
            c.len()
        } else {
            d.len()
        },
    decreases c.len(),
{
    if c.len() > 0 && d.len() > 0 {
        let r = poly_add(c.drop_first(), d.drop_first());
        assert((seq![c[0] + d[0]] + r).drop_first() =~= r);
        lemma_eval_poly_add(c.drop_first(), d.drop_first(), t);
        let ec = eval(c.drop_first(), t);
        let ed = eval(d.drop_first(), t);
        assert(t * (ec + ed) == t * ec + t * ed) by (nonlinear_arith);
    }
}

proof fn lemma_eval_times_linear(c: Seq<int>, b: int, t: int)
    ensures
        eval(times_linear(c, b), t) == (b - t) * eval(c, t),
        times_linear(c, b).len() == c.len() + 1,
{
    lemma_eval_scale(c, b, t);
    lemma_eval_shift(c, t);
    lemma_eval_scale(shift(c), -1, t);
    lemma_eval_poly_add(scale(c, b), scale(shift(c), -1), t);
    let e = eval(c, t);
    assert(b * e + -1 * (t * e) == (b - t) * e) by (nonlinear_arith);
}

/// The multiplier of the difference `x_j - x_i`: its inverse modulo `q`.
spec fn diff_inverse(xs: Seq<nat>, i: int, j: int) -> nat {
    inverse(sub_mod(xs[j], xs[i]))
}

/// The Lagrange basis polynomial of `xs[i]`, built from the first `k` points:
/// the product over `j < k`, `j != i`, of `(x_j - t) / (x_j - x_i)`.
spec fn basis(xs: Seq<nat>, i: int, k: nat) -> Seq<int>
    decreases k,
{
    if k == 0 {
        seq![1int]
    } else if k - 1 == i {
        basis(xs, i, (k - 1) as nat)
    } else {
        scale(
            times_linear(basis(xs, i, (k - 1) as nat), xs[k - 1] as int),
            diff_inverse(xs, i, k - 1) as int,
        )
    }
}

/// The value of that product at `t`.
spec fn basis_value(xs: Seq<nat>, i: int, k: nat, t: int) -> int
    decreases k,
{
    if k == 0 {
        1
    } else if k - 1 == i {
        basis_value(xs, i, (k - 1) as nat, t)
    } else {
        basis_value(xs, i, (k - 1) as nat, t) * ((xs[k - 1] - t) * diff_inverse(xs, i, k - 1))
    }
}

proof fn lemma_eval_basis(xs: Seq<nat>, i: int, k: nat, t: int)
    requires
        0 <= i,
        k <= xs.len(),
    ensures
        eval(basis(xs, i, k), t) == basis_value(xs, i, k, t),
        basis(xs, i, k).len() == if k <= i {
            (k + 1) as int
        } else {
            k as int
        },
    decreases k,
{
    if k == 0 {
        assert(seq![1int].drop_first() =~= Seq::<int>::empty());
        assert(eval(Seq::<int>::empty(), t) == 0);
        assert(t * 0 == 0);
        assert(eval(seq![1int], t) == 1 + t * eval(Seq::<int>::empty(), t));
    } else {
        lemma_eval_basis(xs, i, (k - 1) as nat, t);
        if k - 1 != i {
            let b = basis(xs, i, (k - 1) as nat);
            let s = diff_inverse(xs, i, k - 1) as int;
            lemma_eval_times_linear(b, xs[k - 1] as int, t);
            lemma_eval_scale(times_linear(b, xs[k - 1] as int), s, t);
            let e = eval(b, t);
            let x = xs[k - 1] as int;
            assert(s * ((x - t) * e) == e * ((x - t) * s)) by (nonlinear_arith);
        }
    }
}

/// At zero the basis product is, modulo `q`, the Lagrange multiplier.
proof fn lemma_basis_at_zero(xs: Seq<nat>, i: int, k: nat)
    requires
        0 <= i,
        k <= xs.len(),
    ensures
        basis_value(xs, i, k, 0) % (modulus() as int) == lagrange_partial(xs, i, k),
    decreases k,
{
    let q = modulus() as int;
    if k == 0 {
        lemma_small_mod(1, modulus());
    } else {
        lemma_basis_at_zero(xs, i, (k - 1) as nat);
        if k - 1 != i {
            let a = basis_value(xs, i, (k - 1) as nat, 0);
            let f = xs[k - 1] * diff_inverse(xs, i, k - 1);
            assert((xs[k - 1] - 0) * diff_inverse(xs, i, k - 1) == f);
            lemma_mul_mod_noop_general(a, f as int, q);
        }
    }
}

/// The basis product of `xs[i]` vanishes at every other of its points.
proof fn lemma_basis_vanishes(xs: Seq<nat>, i: int, k: nat, m: int)
    requires
        0 <= m < k,
        m != i,
        k <= xs.len(),
    ensures
        basis_value(xs, i, k, xs[m] as int) == 0,
    decreases k,
{
    if m < k - 1 {
        lemma_basis_vanishes(xs, i, (k - 1) as nat, m);
        let x = xs[k - 1] - xs[m];
        assert(0 * (x * diff_inverse(xs, i, k - 1)) == 0) by (nonlinear_arith);
    } else {
        let b = basis_value(xs, i, (k - 1) as nat, xs[m] as int);
        assert(b * (0 * diff_inverse(xs, i, k - 1)) == 0) by (nonlinear_arith);
    }
}

/// The difference `x_j - x_i` is invertible modulo `q`.
pub open spec fn difference_invertible(xs: Seq<nat>, i: int, j: int) -> bool {
    (sub_mod(xs[j], xs[i]) * inverse(sub_mod(xs[j], xs[i]))) % modulus() == 1
}

/// The differences of the points are invertible modulo `q`.
pub open spec fn differences_invertible(xs: Seq<nat>) -> bool {
    forall|i: int, j: int|
        0 <= i < xs.len() && 0 <= j < xs.len() && i != j ==> #[trigger] difference_invertible(
            xs,
            i,
            j,
        )
}

/// `a * b` is one modulo `q` when each factor is.
proof fn lemma_mul_one_mod(a: int, b: int)
    requires
        a % (modulus() as int) == 1,
        b % (modulus() as int) == 1,
    ensures
        (a * b) % (modulus() as int) == 1,
{
    let q = modulus() as int;
    lemma_mul_mod_noop_general(a, b, q);
    lemma_small_mod(1, modulus());
}

/// At its own point the basis product is one modulo `q`.
proof fn lemma_basis_at_own_point(xs: Seq<nat>, i: int, k: nat)
    requires
        0 <= i < xs.len(),
        k <= xs.len(),
        differences_invertible(xs),
    ensures
        basis_value(xs, i, k, xs[i] as int) % (modulus() as int) == 1,
    decreases k,
{
    let q = modulus() as int;
    if k == 0 {
        lemma_small_mod(1, modulus());
    } else {
        lemma_basis_at_own_point(xs, i, (k - 1) as nat);
        if k - 1 != i {
            let j = k - 1;
            let d = xs[j] - xs[i];
            let w = diff_inverse(xs, i, j) as int;
            assert(difference_invertible(xs, i, j));
            assert(sub_mod(xs[j], xs[i]) as int == d % q);
            lemma_mul_mod_noop_general(d, w, q);
            lemma_mul_one_mod(basis_value(xs, i, (k - 1) as nat, xs[i] as int), d * w);
        }
    }
}

/// The polynomial through the points `(xs[i], ys[i])` for `i < k`, built from
/// the basis polynomials.
spec fn interpolant(xs: Seq<nat>, ys: Seq<int>, k: nat) -> Seq<int>
    decreases k,
{
    if k == 0 {
        Seq::empty()
    } else {
        poly_add(interpolant(xs, ys, (k - 1) as nat), scale(basis(xs, k - 1, xs.len()), ys[k - 1]))
    }
}

spec fn interpolant_value(xs: Seq<nat>, ys: Seq<int>, k: nat, t: int) -> int
    decreases k,
{
    if k == 0 {
        0
    } else {
        interpolant_value(xs, ys, (k - 1) as nat, t) + ys[k - 1] * basis_value(
            xs,
            k - 1,
            xs.len(),
            t,
        )
    }
}

proof fn lemma_eval_interpolant(xs: Seq<nat>, ys: Seq<int>, k: nat, t: int)
    requires
        k <= xs.len(),
    ensures
        eval(interpolant(xs, ys, k), t) == interpolant_value(xs, ys, k, t),
        interpolant(xs, ys, k).len() <= xs.len(),
    decreases k,
{
    if k > 0 {
        lemma_eval_interpolant(xs, ys, (k - 1) as nat, t);
        let b = basis(xs, k - 1, xs.len());
        lemma_eval_basis(xs, k - 1, xs.len(), t);
        lemma_eval_scale(b, ys[k - 1], t);
        lemma_eval_poly_add(interpolant(xs, ys, (k - 1) as nat), scale(b, ys[k - 1]), t);
    }
}

/// At one of the points, only that point's basis product contributes.
proof fn lemma_interpolant_at_point(xs: Seq<nat>, ys: Seq<int>, k: nat, m: int)
    requires
        k <= xs.len(),
        0 <= m < xs.len(),
    ensures
        interpolant_value(xs, ys, k, xs[m] as int) == if m < k {
            ys[m] * basis_value(xs, m, xs.len(), xs[m] as int)
        } else {
            0
        },
    decreases k,
{
    if k > 0 {
        lemma_interpolant_at_point(xs, ys, (k - 1) as nat, m);
        if k - 1 != m {
            lemma_basis_vanishes(xs, k - 1, xs.len(), m);
            assert(ys[k - 1] * 0 == 0);
        }
    }
}

/// `sum of ls[i] * ys[i]` over `i < k`.
pub open spec fn weighted_sum(ls: Seq<nat>, ys: Seq<int>, k: nat) -> int
    decreases k,
{
    if k == 0 {
        0
    } else {
        weighted_sum(ls, ys, (k - 1) as nat) + ls[k - 1] * ys[k - 1]
    }
}

/// At zero the interpolant is, modulo `q`, the multipliers' weighted sum.
proof fn lemma_interpolant_at_zero(xs: Seq<nat>, ys: Seq<int>, k: nat)
    requires
        k <= xs.len(),
    ensures
        interpolant_value(xs, ys, k, 0) % (modulus() as int) == weighted_sum(
            lagrange_coefficients(xs),
            ys,
            k,
        ) % (modulus() as int),
    decreases k,
{
    let q = modulus() as int;
    if k > 0 {
        lemma_interpolant_at_zero(xs, ys, (k - 1) as nat);
        let i = k - 1;
        let bv = basis_value(xs, i, xs.len(), 0);
        let l = lagrange_coefficients(xs)[i];
        lemma_basis_at_zero(xs, i, xs.len());
        assert(bv % q == l);
        let prev = interpolant_value(xs, ys, (k - 1) as nat, 0);
        let wprev = weighted_sum(lagrange_coefficients(xs), ys, (k - 1) as nat);
        lemma_mul_mod_noop_general(ys[i], bv, q);
        assert(ys[i] * (bv % q) == l * ys[i]) by (nonlinear_arith)
            requires
                bv % q == l,
        ;
        lemma_add_mod_noop(prev, ys[i] * bv, q);
        lemma_add_mod_noop(wprev, l * ys[i], q);
    }
}

/// Synthetic division by `t - a`: the quotient.
spec fn quotient(c: Seq<int>, a: int) -> Seq<int>
    decreases c.len(),
{
    if c.len() <= 1 {
        Seq::empty()
    } else {
        seq![eval(c.drop_first(), a)] + quotient(c.drop_first(), a)
    }
}

proof fn lemma_quotient(c: Seq<int>, a: int, t: int)
    ensures
        eval(c, t) == eval(c, a) + (t - a) * eval(quotient(c, a), t),
        quotient(c, a).len() == if c.len() == 0 {
            0
        } else {
            c.len() - 1
        },
    decreases c.len(),
{
    assert((t - a) * 0 == 0);
    if c.len() == 0 {
        assert(eval(quotient(c, a), t) == 0);
    } else if c.len() == 1 {
        assert(c.drop_first().len() == 0);
        assert(eval(c.drop_first(), t) == 0);
        assert(eval(c.drop_first(), a) == 0);
        assert(eval(quotient(c, a), t) == 0);
        assert(t * 0 == 0 && a * 0 == 0);
    } else if c.len() > 1 {
        let c1 = c.drop_first();
        lemma_quotient(c1, a, t);
        let qt = quotient(c1, a);
        assert((seq![eval(c1, a)] + qt).drop_first() =~= qt);
        let e1t = eval(c1, t);
        let e1a = eval(c1, a);
        let eq = eval(qt, t);
        assert(t * e1t - a * e1a == (t - a) * (e1a + t * eq)) by (nonlinear_arith)
            requires
                e1t == e1a + (t - a) * eq,
        ;
        assert(eval(quotient(c, a), t) == e1a + t * eq);
        assert(eval(c, t) == c[0] + t * e1t);
        assert(eval(c, a) == c[0] + a * e1a);
    }
}

/// If `u * w` is one and `u * v` is zero modulo `q`, then `v` is zero.
proof fn lemma_cancel(u: int, v: int, w: int)
    requires
        (u * w) % (modulus() as int) == 1,
        (u * v) % (modulus() as int) == 0,
    ensures
        v % (modulus() as int) == 0,
{
    let q = modulus() as int;
    lemma_mul_mod_noop_general(u * v, w, q);
    lemma_mul_mod_noop_general(u * w, v, q);
    assert((u * v) * w == (u * w) * v) by (nonlinear_arith);
    lemma_small_mod(0, modulus());
    assert(((u * v) % q) * w == 0);
    assert(((u * w) % q) * v == v);
}

/// A polynomial with at most `m` coefficients that vanishes modulo `q` at `m`
/// points with invertible differences vanishes modulo `q` everywhere.
proof fn lemma_roots(c: Seq<int>, xs: Seq<nat>, m: nat, t: int)
    requires
        c.len() <= m,
        m <= xs.len(),
        differences_invertible(xs),
        forall|i: int| 0 <= i < m ==> #[trigger] eval(c, xs[i] as int) % (modulus() as int) == 0,
    ensures
        eval(c, t) % (modulus() as int) == 0,
    decreases m,
{
    let q = modulus() as int;
    if c.len() == 0 {
        lemma_small_mod(0, modulus());
    } else {
        let a = xs[m - 1] as int;
        let d = quotient(c, a);
        lemma_quotient(c, a, t);
        assert forall|i: int| 0 <= i < m - 1 implies #[trigger] eval(d, xs[i] as int) % q == 0 by {
            lemma_quotient(c, a, xs[i] as int);
            let u = xs[i] - a;
            let v = eval(d, xs[i] as int);
            assert(eval(c, xs[i] as int) % q == 0);
            assert(eval(c, a) % q == 0);
            lemma_mod_equivalence(eval(c, xs[i] as int), eval(c, a), q);
            assert((u * v) % q == 0);
            let s = sub_mod(xs[i], xs[m - 1]);
            let w = inverse(s) as int;
            assert(difference_invertible(xs, m - 1, i));
            assert(s as int == u % q);
            lemma_mul_mod_noop_general(u, w, q);
            lemma_cancel(u, v, w);
        }
        lemma_roots(d, xs, (m - 1) as nat, t);
        let v = eval(d, t);
        lemma_mul_mod_noop_general(t - a, v, q);
        lemma_small_mod(0, modulus());
        assert((t - a) * (v % q) == 0);
        lemma_add_mod_noop(eval(c, a), (t - a) * v, q);
    }
}

/// The values of a polynomial at the points.
pub open spec fn values_at(c: Seq<int>, xs: Seq<nat>) -> Seq<int> {
    Seq::new(xs.len(), |i: int| eval(c, xs[i] as int))
}

/// Lagrange interpolation at zero: for points with invertible differences,
/// the multipliers at zero, weighting the values at the points of a
/// polynomial with no more coefficients than there are points, give the
/// polynomial's value at zero, modulo `q`.
pub proof fn lemma_lagrange_interpolation(xs: Seq<nat>, c: Seq<int>)
    requires
        differences_invertible(xs),
        c.len() <= xs.len(),
    ensures
        weighted_sum(lagrange_coefficients(xs), values_at(c, xs), xs.len()) % (modulus() as int)
            == eval(c, 0) % (modulus() as int),
{
    let q = modulus() as int;
    let n = xs.len();
    let ys = values_at(c, xs);
    let p = interpolant(xs, ys, n);
    let h = poly_add(p, scale(c, -1));
    lemma_eval_interpolant(xs, ys, n, 0);
    lemma_eval_scale(c, -1, 0);
    lemma_eval_poly_add(p, scale(c, -1), 0);
    assert forall|m: int| 0 <= m < n implies #[trigger] eval(h, xs[m] as int) % q == 0 by {
        let x = xs[m] as int;
        lemma_eval_interpolant(xs, ys, n, x);
        lemma_eval_scale(c, -1, x);
        lemma_eval_poly_add(p, scale(c, -1), x);
        lemma_interpolant_at_point(xs, ys, n, m);
        lemma_basis_at_own_point(xs, m, n);
        let b = basis_value(xs, m, n, x);
        let y = ys[m];
        assert(eval(h, x) == y * b - y);
        assert(y * b - y == y * (b - 1)) by (nonlinear_arith);
        lemma_mod_equivalence(b, 1, q);
        lemma_small_mod(1, modulus());
        lemma_mul_mod_noop_general(y, b - 1, q);
        lemma_small_mod(0, modulus());
        assert(y * ((b - 1) % q) == 0);
    }
    lemma_roots(h, xs, n, 0);
    assert(eval(h, 0) == interpolant_value(xs, ys, n, 0) - eval(c, 0));
    lemma_mod_equivalence(interpolant_value(xs, ys, n, 0), eval(c, 0), q);
    lemma_interpolant_at_zero(xs, ys, n);
}

/// `perm` lists indices below `n`, `n` of them, none twice.
pub open spec fn is_permutation(perm: Seq<int>, n: nat) -> bool {
    &&& perm.len() == n
    &&& forall|i: int| 0 <= i < n ==> 0 <= #[trigger] perm[i] < n
    &&& forall|i: int, j: int|
        0 <= i < n && 0 <= j < n && i != j ==> #[trigger] perm[i] != #[trigger] perm[j]
}

/// The points in the order that `perm` gives: `xs[perm[0]], xs[perm[1]], ...`.
pub open spec fn permuted(xs: Seq<nat>, perm: Seq<int>) -> Seq<nat> {
    Seq::new(perm.len(), |i: int| xs[perm[i]])
}

/// A partial Lagrange product is below the modulus.
pub proof fn lemma_partial_bound(xs: Seq<nat>, i: int, k: nat)
    ensures
        lagrange_partial(xs, i, k) < modulus(),
    decreases k,
{
    if k > 0 {
        lemma_partial_bound(xs, i, (k - 1) as nat);
    }
}

/// A weighted sum whose terms are zero but for one, which is one, modulo `q`,
/// is that term's weight modulo `q`.
proof fn lemma_weighted_sum_single(ls: Seq<nat>, ys: Seq<int>, k: nat, i: int)
    requires
        k <= ls.len(),
        k <= ys.len(),
        0 <= i,
        i < k ==> ys[i] % (modulus() as int) == 1,
        forall|j: int| 0 <= j < k && j != i ==> #[trigger] ys[j] == 0,
    ensures
        weighted_sum(ls, ys, k) % (modulus() as int) == if i < k {
            (ls[i] as int) % (modulus() as int)
        } else {
            0
        },
    decreases k,
{
    let q = modulus() as int;
    if k == 0 {
        lemma_small_mod(0, modulus());
    } else {
        let j = k - 1;
        lemma_weighted_sum_single(ls, ys, (k - 1) as nat, i);
        let w = weighted_sum(ls, ys, (k - 1) as nat);
        if j == i {
            lemma_mul_mod_noop_general(ls[j] as int, ys[j], q);
            assert((ls[j] as int) * 1 == ls[j] as int);
            lemma_mul_mod_noop_general(ls[j] as int, 1, q);
            lemma_add_mod_noop(w, ls[j] * ys[j], q);
            lemma_small_mod(0, modulus());
            vstd::arithmetic::div_mod::lemma_mod_twice(ls[j] as int, q);
        } else {
            assert(ls[j] * ys[j] == 0) by (nonlinear_arith)
                requires
                    ys[j] == 0,
            ;
        }
    }
}

/// The Lagrange multipliers do not depend on the order of the points: the
/// multiplier of a point among the points reordered is its multiplier among
/// the points in their first order.
pub proof fn lemma_lagrange_permutation(xs: Seq<nat>, perm: Seq<int>, i: int)
    requires
        differences_invertible(xs),
        is_permutation(perm, xs.len()),
        0 <= i < xs.len(),
    ensures
        lagrange_coefficient(permuted(xs, perm), i) == lagrange_coefficient(xs, perm[i]),
{
    let q = modulus() as int;
    let n = xs.len();
    let t = permuted(xs, perm);
    let m = perm[i];
    assert forall|a: int, b: int| 0 <= a < t.len() && 0 <= b < t.len() && a != b implies #[trigger]
        difference_invertible(t, a, b) by {
        assert(difference_invertible(xs, perm[a], perm[b]));
    }
    let f = basis(xs, m, n);
    lemma_eval_basis(xs, m, n, 0);
    lemma_lagrange_interpolation(t, f);
    let ys = values_at(f, t);
    assert forall|k: int| 0 <= k < n && k != i implies #[trigger] ys[k] == 0 by {
        lemma_eval_basis(xs, m, n, xs[perm[k]] as int);
        lemma_basis_vanishes(xs, m, n, perm[k]);
    }
    lemma_eval_basis(xs, m, n, xs[m] as int);
    lemma_basis_at_own_point(xs, m, n);
    lemma_weighted_sum_single(lagrange_coefficients(t), ys, n, i);
    lemma_basis_at_zero(xs, m, n);
    lemma_partial_bound(t, i, n);
    lemma_partial_bound(xs, m, n);
    lemma_small_mod(lagrange_coefficient(t, i), modulus());
}

} // verus!
