//! Lagrange multipliers at zero over the scalar field.
use crate::scalar::{
    inverse, is_canonical, le_nat, lemma_is_inverse, modulus, mul_mod, scalar_from_u64, scalar_invert,
    scalar_mul, scalar_sub, sub_mod,
};
use crate::poly::{
    difference_invertible, differences_invertible, eval, is_permutation,
    lemma_lagrange_interpolation, lemma_lagrange_permutation, permuted, values_at, weighted_sum,
};
use vstd::prelude::*;

verus! {

/// The values of a sequence of scalar encodings.
pub open spec fn values(xs: Seq<[u8; 32]>) -> Seq<nat> {
    xs.map_values(|x: [u8; 32]| le_nat(x@))
}

/// The factor that the point `xs[j]` contributes to the multiplier of
/// `xs[i]`: `x_j / (x_j - x_i)`.
pub open spec fn lagrange_factor(xs: Seq<nat>, i: int, j: int) -> nat {
    mul_mod(xs[j], inverse(sub_mod(xs[j], xs[i])))
}

/// The product, in order, of the factors of the first `k` points other than
/// `xs[i]`.
pub open spec fn lagrange_partial(xs: Seq<nat>, i: int, k: nat) -> nat
    decreases k,
{
    if k == 0 {
        1
    } else if k - 1 == i {
        lagrange_partial(xs, i, (k - 1) as nat)
    } else {
        mul_mod(lagrange_partial(xs, i, (k - 1) as nat), lagrange_factor(xs, i, k - 1))
    }
}

/// The Lagrange multiplier of `xs[i]` at zero:
/// the product over `j != i` of `x_j / (x_j - x_i)`.
pub open spec fn lagrange_coefficient(xs: Seq<nat>, i: int) -> nat {
    lagrange_partial(xs, i, xs.len())
}

/// The Lagrange multipliers at zero of all the points.
pub open spec fn lagrange_coefficients(xs: Seq<nat>) -> Seq<nat> {
    Seq::new(xs.len(), |i: int| lagrange_coefficient(xs, i))
}

/// Every scalar of the sequence is canonical and no value occurs twice.
pub open spec fn distinct_canonical(xs: Seq<[u8; 32]>) -> bool {
    &&& forall|i: int| 0 <= i < xs.len() ==> is_canonical(#[trigger] xs[i]@)
    &&& forall|i: int, j: int|
        0 <= i < xs.len() && 0 <= j < xs.len() && i != j ==> le_nat(#[trigger] xs[i]@) != le_nat(
            #[trigger] xs[j]@,
        )
}

/// Two distinct values below the modulus have a nonzero difference.
proof fn lemma_sub_mod_nonzero(a: nat, b: nat)
    requires
        a < modulus(),
        b < modulus(),
        a != b,
    ensures
        sub_mod(a, b) != 0,
{
    let q = modulus() as int;
    if a > b {
        vstd::arithmetic::div_mod::lemma_small_mod((a - b) as nat, modulus());
    } else {
        assert(((a as int - b as int) + q) % q == (a as int - b as int) % q) by {
            vstd::arithmetic::div_mod::lemma_mod_add_multiples_vanish(a as int - b as int, q);
        }
        vstd::arithmetic::div_mod::lemma_small_mod((a as int - b as int + q) as nat, modulus());
    }
}

/// For each scalar, its Lagrange multiplier at zero with respect to all the
/// scalars. The scalars must be pairwise distinct; a single scalar has no
/// multiplier (its product would be empty).
pub fn lagrange_multipliers(scalars: &Vec<[u8; 32]>) -> (r: Vec<[u8; 32]>)
    requires
        scalars.len() != 1,
        distinct_canonical(scalars@),
    ensures
        r.len() == scalars.len(),
        forall|i: int|
            0 <= i < r.len() ==> is_canonical(#[trigger] r[i]@) && le_nat(r[i]@)
                == lagrange_coefficient(values(scalars@), i),
        forall|c: Seq<int>|
            c.len() <= scalars.len() ==> #[trigger] weighted_sum(
                values(r@),
                values_at(c, values(scalars@)),
                scalars.len() as nat,
            ) % (modulus() as int) == eval(c, 0) % (modulus() as int),
        forall|perm: Seq<int>, i: int|
            is_permutation(perm, scalars.len() as nat) && 0 <= i < scalars.len()
                ==> #[trigger] lagrange_coefficient(permuted(values(scalars@), perm), i) == le_nat(
                r[perm[i]]@,
            ),
{
    let ghost xs = values(scalars@);
    let n = scalars.len();
    let mut r: Vec<[u8; 32]> = Vec::new();
    let mut i: usize = 0;
    while i < n
        invariant
            n == scalars.len(),
            n != 1,
            i <= n,
            xs == values(scalars@),
            distinct_canonical(scalars@),
            r.len() == i,
            forall|k: int|
                0 <= k < i ==> is_canonical(#[trigger] r[k]@) && le_nat(r[k]@)
                    == lagrange_coefficient(xs, k),
            forall|a: int, b: int|
                0 <= a < i && 0 <= b < n && a != b ==> #[trigger] difference_invertible(xs, a, b),
        decreases n - i,
    {
        let mut acc: [u8; 32] = scalar_from_u64(1);
        let mut j: usize = 0;
        while j < n
            invariant
                n == scalars.len(),
                i < n,
                j <= n,
                xs == values(scalars@),
                distinct_canonical(scalars@),
                is_canonical(acc@),
                le_nat(acc@) == lagrange_partial(xs, i as int, j as nat),
                forall|a: int, b: int|
                    0 <= a < i && 0 <= b < n && a != b ==> #[trigger] difference_invertible(
                        xs,
                        a,
                        b,
                    ),
                forall|b: int|
                    0 <= b < j && b != i ==> #[trigger] difference_invertible(xs, i as int, b),
            decreases n - j,
        {
            if j != i {
                let xj = &scalars[j];
                let xi = &scalars[i];
                let diff = scalar_sub(xj, xi);
                proof {
                    assert(le_nat(scalars@[j as int]@) != le_nat(scalars@[i as int]@));
                    lemma_sub_mod_nonzero(le_nat(xj@), le_nat(xi@));
                }
                let inv = match scalar_invert(&diff) {
                    Some(v) => v,
                    None => {
                        proof {
                            assert(false);
                        }
                        diff
                    },
                };
                proof {
                    lemma_is_inverse(le_nat(diff@), le_nat(inv@));
                    assert(difference_invertible(xs, i as int, j as int));
                }
                let factor = scalar_mul(xj, &inv);
                acc = scalar_mul(&acc, &factor);
            }
            j = j + 1;
        }
        r.push(acc);
        i = i + 1;
    }
    proof {
        assert(differences_invertible(xs));
        assert(values(r@) =~= lagrange_coefficients(xs));
        assert forall|c: Seq<int>| c.len() <= scalars.len() implies #[trigger] weighted_sum(
            values(r@),
            values_at(c, xs),
            scalars.len() as nat,
        ) % (modulus() as int) == eval(c, 0) % (modulus() as int) by {
            lemma_lagrange_interpolation(xs, c);
        }
        assert forall|perm: Seq<int>, i: int|
            is_permutation(perm, scalars.len() as nat) && 0 <= i < scalars.len()
                implies #[trigger] lagrange_coefficient(permuted(xs, perm), i) == le_nat(
            r[perm[i]]@,
        ) by {
            lemma_lagrange_permutation(xs, perm, i);
        }
    }
    r
}

} // verus!
