//! Laws of the arithmetic that hold in spite of rounding.

use vstd::prelude::*;
use vstd::arithmetic::power2::*;
use vstd::arithmetic::div_mod::*;
use vstd::arithmetic::mul::*;
use crate::accuracy::{gap, lemma_nearest_is_nearest};
use crate::rounding::{nearest, nearest_ratio};
use crate::scalar::{Scalar, scaled_of, one, zero, lemma_scaled_monotonic};

verus! {

/// A representable magnitude is rounded to itself.
pub proof fn lemma_nearest_exact(mag: nat)
    requires
        mag <= 0x7f80_0000,
    ensures
        nearest_ratio(scaled_of(mag), 1) == mag,
{
    let s = scaled_of(mag);
    let h = 2 * s;
    assert((2 * s) / 1 == h && (2 * s) % 1 == 0);
    let r = nearest(h, false);
    lemma_nearest_is_nearest(h, false, mag);
    assert(gap(mag, h, false) == 0);
    assert(scaled_of(r) == s);
    if r < mag {
        lemma_scaled_monotonic(r, mag);
    }
    if mag < r {
        lemma_scaled_monotonic(mag, r);
    }
}

/// The product does not depend on the order of its factors.
pub proof fn lemma_product_commutes(a: Scalar, b: Scalar)
    ensures
        a.product(b) == b.product(a),
{
    reveal(Scalar::product);
    lemma_mul_is_commutative(a.scaled() as int, b.scaled() as int);
}

/// The sum does not depend on the order of its terms.
pub proof fn lemma_sum_commutes(a: Scalar, b: Scalar)
    ensures
        a.sum(b) == b.sum(a),
{
    reveal(Scalar::sum);
}

/// Negating twice gives the number back.
pub proof fn lemma_negation_involutive(a: Scalar)
    ensures
        a.negated().negated() == a,
{
}

/// Multiplying by one changes no number.
pub proof fn lemma_one_is_neutral(a: Scalar)
    requires
        !a.is_nan(),
    ensures
        one().product(a) == a,
        a.product(one()) == a,
{
    reveal(Scalar::product);
    lemma_product_commutes(a, one());
    lemma2_to64();
    let unit = pow2(149);
    lemma_pow2_pos(149);
    lemma_pow2_adds(23, 126);
    assert(one().scaled() == unit);
    if a.is_finite() {
        let s = a.scaled();
        let n = unit * s;
        lemma_nearest_exact(a.magnitude());
        assert(2 * n == (2 * s) * unit + 0) by (nonlinear_arith)
            requires
                n == unit * s,
        ;
        lemma_fundamental_div_mod_converse((2 * n) as int, unit as int, (2 * s) as int, 0);
        assert(nearest_ratio(n, unit) == nearest_ratio(s, 1));
    }
}

/// A finite number less itself is zero.
pub proof fn lemma_difference_of_self(a: Scalar)
    requires
        a.is_finite(),
    ensures
        a.difference(a) == zero(),
{
    reveal(Scalar::sum);
}

/// `below` is a strict order: nothing is below itself, and what is below
/// something below a third is below the third.
pub proof fn lemma_below_is_strict(a: Scalar, b: Scalar, c: Scalar)
    ensures
        !a.below(a),
        a.below(b) ==> !b.below(a),
        a.below(b) && b.below(c) ==> a.below(c),
{
}

} // verus!
