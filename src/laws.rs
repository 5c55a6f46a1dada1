//! Laws of canonical forms and of the arithmetic on them.

use crate::fraction::{
    canonical, is_canonical, spec_add, spec_div, spec_mul, spec_sub, undefined, value_cmp,
};
use crate::number_theory::{
    abs, gcd, lemma_common_divisor_divides_gcd, lemma_gcd_divides, lemma_gcd_reduced,
    lemma_gcd_scale, lemma_mutual_divisors_equal, lemma_quotient_positive,
};
use vstd::arithmetic::div_mod::lemma_mod_multiples_basic;
use vstd::arithmetic::mul::lemma_mul_is_commutative;
use core::cmp::Ordering;
use vstd::prelude::*;

verus! {

/// The canonical form of any pair is canonical: with a nonzero denominator it
/// has a positive denominator sharing no factor with its numerator, and with a
/// zero denominator it is the division-by-zero value, whatever the numerator.
pub proof fn lemma_canonical_is_canonical(n: int, d: int)
    ensures
        is_canonical(canonical(n, d)),
        d != 0 ==> canonical(n, d).1 > 0 && gcd(abs(canonical(n, d).0), canonical(n, d).1 as nat)
            == 1,
        d == 0 ==> canonical(n, d) == undefined(),
{
    if d != 0 {
        if n == 0 {
            reveal_with_fuel(gcd, 2);
        } else {
            let g = gcd(abs(n), abs(d));
            lemma_gcd_divides(abs(n), abs(d));
            lemma_gcd_reduced(abs(n), abs(d));
            lemma_quotient_positive(abs(d), g);
            lemma_quotient_positive(abs(n), g);
        }
    }
}

/// Reducing a pair with a nonzero denominator keeps its value:
/// `c.0 / c.1 == n / d`, stated without division as `c.0 * d == n * c.1`.
pub proof fn lemma_canonical_same_value(n: int, d: int)
    requires
        d != 0,
    ensures
        canonical(n, d).0 * d == n * canonical(n, d).1,
{
    let c = canonical(n, d);
    if n != 0 {
        let g = gcd(abs(n), abs(d));
        lemma_gcd_divides(abs(n), abs(d));
        lemma_quotient_positive(abs(d), g);
        lemma_quotient_positive(abs(n), g);
        let n1 = (abs(n) / g) as int;
        let d1 = (abs(d) / g) as int;
        let gi = g as int;
        assert(gi * n1 == abs(n) && gi * d1 == abs(d));
        if (n < 0) == (d < 0) {
            assert(c == (n1, d1));
            assert(n1 * d == n * d1) by (nonlinear_arith)
                requires
                    gi * n1 == abs(n),
                    gi * d1 == abs(d),
                    (n < 0 && d < 0 && abs(n) == -n && abs(d) == -d) || (n > 0 && d > 0
                        && abs(n) == n && abs(d) == d),
            ;
        } else {
            assert(c == (-n1, d1));
            assert((-n1) * d == n * d1) by (nonlinear_arith)
                requires
                    gi * n1 == abs(n),
                    gi * d1 == abs(d),
                    (n < 0 && d > 0 && abs(n) == -n && abs(d) == d) || (n > 0 && d < 0
                        && abs(n) == n && abs(d) == -d),
            ;
        }
        assert(c.0 * d == n * c.1);
    } else {
        assert(c == (0int, 1int));
        assert(0 * d == 0 * 1) by (nonlinear_arith);
    }
}

/// Normalizing is idempotent: a canonical pair is its own canonical form, so
/// normalizing twice gives what normalizing once gives.
pub proof fn lemma_canonical_idempotent(n: int, d: int)
    ensures
        canonical(canonical(n, d).0, canonical(n, d).1) == canonical(n, d),
{
    lemma_canonical_is_canonical(n, d);
    lemma_canonical_fixed(canonical(n, d));
}

/// A canonical pair is its own canonical form.
pub proof fn lemma_canonical_fixed(p: (int, int))
    requires
        is_canonical(p),
    ensures
        canonical(p.0, p.1) == p,
{
    if p.1 != 0 {
        if p.0 == 0 {
            reveal_with_fuel(gcd, 2);
            assert(gcd(0, p.1 as nat) == p.1);
        } else {
            assert(gcd(abs(p.0), abs(p.1)) == 1);
        }
    }
}

/// Canonical pairs are unique: two canonical pairs with positive
/// denominators that stand for the same value are the same pair, so equality
/// of the fields is equality of the values.
pub proof fn lemma_canonical_unique(a: (int, int), b: (int, int))
    requires
        is_canonical(a),
        is_canonical(b),
        a.1 > 0,
        b.1 > 0,
    ensures
        a == b <==> a.0 * b.1 == b.0 * a.1,
{
    if a.0 * b.1 == b.0 * a.1 {
        let n1 = abs(a.0);
        let n2 = abs(b.0);
        let d1 = a.1 as nat;
        let d2 = b.1 as nat;
        assert(n1 * d2 == n2 * d1) by (nonlinear_arith)
            requires
                a.0 * b.1 == b.0 * a.1,
                a.1 > 0,
                b.1 > 0,
                d1 == a.1,
                d2 == b.1,
                (a.0 >= 0 && n1 == a.0) || (a.0 < 0 && n1 == -a.0),
                (b.0 >= 0 && n2 == b.0) || (b.0 < 0 && n2 == -b.0),
        ;
        lemma_divides_other_denominator(n1, d1, n2, d2);
        lemma_divides_other_denominator(n2, d2, n1, d1);
        lemma_mutual_divisors_equal(d1, d2);
        assert(a.0 == b.0) by (nonlinear_arith)
            requires
                a.0 * b.1 == b.0 * a.1,
                a.1 == b.1,
                a.1 > 0,
        ;
    }
}

/// If `n1 / d1` is in lowest terms and equals `n2 / d2`, then `d1` divides
/// `d2`.
proof fn lemma_divides_other_denominator(n1: nat, d1: nat, n2: nat, d2: nat)
    requires
        d1 > 0,
        d2 > 0,
        gcd(n1, d1) == 1,
        n1 * d2 == n2 * d1,
    ensures
        d2 % d1 == 0,
{
    lemma_gcd_scale(d2, n1, d1);
    lemma_mul_is_commutative(d2 as int, n1 as int);
    lemma_mod_multiples_basic(n2 as int, d1 as int);
    lemma_mod_multiples_basic(d2 as int, d1 as int);
    lemma_mul_is_commutative(d2 as int, d1 as int);
    lemma_common_divisor_divides_gcd(d2 * n1, d2 * d1, d1);
}

/// Normalizing depends on the value alone: pairs with nonzero denominators
/// that stand for the same value have the same canonical form.
pub proof fn lemma_canonical_of_same_value(n1: int, d1: int, n2: int, d2: int)
    requires
        d1 != 0,
        d2 != 0,
        n1 * d2 == n2 * d1,
    ensures
        canonical(n1, d1) == canonical(n2, d2),
{
    let c1 = canonical(n1, d1);
    let c2 = canonical(n2, d2);
    lemma_canonical_is_canonical(n1, d1);
    lemma_canonical_is_canonical(n2, d2);
    lemma_canonical_same_value(n1, d1);
    lemma_canonical_same_value(n2, d2);
    assert(c1.0 * c2.1 == c2.0 * c1.1) by (nonlinear_arith)
        requires
            c1.0 * d1 == n1 * c1.1,
            c2.0 * d2 == n2 * c2.1,
            n1 * d2 == n2 * d1,
            d1 != 0,
            d2 != 0,
    ;
    lemma_canonical_unique(c1, c2);
}

/// The sum of two canonical fractions with nonzero denominators is the exact
/// sum `a.0/a.1 + b.0/b.1` in lowest terms.
pub proof fn lemma_add_exact(a: (int, int), b: (int, int))
    requires
        is_canonical(a),
        is_canonical(b),
        a.1 > 0,
        b.1 > 0,
    ensures
        is_canonical(spec_add(a, b)),
        spec_add(a, b).1 > 0,
        spec_add(a, b).0 * (a.1 * b.1) == (a.0 * b.1 + b.0 * a.1) * spec_add(a, b).1,
{
    lemma_positive_product(a.1, b.1);
    lemma_canonical_is_canonical(a.0 * b.1 + b.0 * a.1, a.1 * b.1);
    lemma_canonical_same_value(a.0 * b.1 + b.0 * a.1, a.1 * b.1);
}

/// Addition gives the exact sum in lowest terms: whatever pair `n / d`
/// stands for `a.0/a.1 + b.0/b.1`, the sum is its canonical form.
pub proof fn lemma_add_is_reduced_exact_sum(a: (int, int), b: (int, int), n: int, d: int)
    requires
        is_canonical(a),
        is_canonical(b),
        a.1 > 0,
        b.1 > 0,
        d != 0,
        n * (a.1 * b.1) == (a.0 * b.1 + b.0 * a.1) * d,
    ensures
        spec_add(a, b) == canonical(n, d),
{
    lemma_positive_product(a.1, b.1);
    lemma_canonical_of_same_value(a.0 * b.1 + b.0 * a.1, a.1 * b.1, n, d);
}

/// The difference of two canonical fractions with nonzero denominators is the
/// exact difference in lowest terms.
pub proof fn lemma_sub_exact(a: (int, int), b: (int, int))
    requires
        is_canonical(a),
        is_canonical(b),
        a.1 > 0,
        b.1 > 0,
    ensures
        is_canonical(spec_sub(a, b)),
        spec_sub(a, b).1 > 0,
        spec_sub(a, b).0 * (a.1 * b.1) == (a.0 * b.1 - b.0 * a.1) * spec_sub(a, b).1,
{
    lemma_positive_product(a.1, b.1);
    lemma_canonical_is_canonical(a.0 * b.1 - b.0 * a.1, a.1 * b.1);
    lemma_canonical_same_value(a.0 * b.1 - b.0 * a.1, a.1 * b.1);
}

/// The product of two canonical fractions with nonzero denominators is the
/// exact product in lowest terms.
pub proof fn lemma_mul_exact(a: (int, int), b: (int, int))
    requires
        is_canonical(a),
        is_canonical(b),
        a.1 > 0,
        b.1 > 0,
    ensures
        is_canonical(spec_mul(a, b)),
        spec_mul(a, b).1 > 0,
        spec_mul(a, b).0 * (a.1 * b.1) == (a.0 * b.0) * spec_mul(a, b).1,
{
    lemma_positive_product(a.1, b.1);
    lemma_canonical_is_canonical(a.0 * b.0, a.1 * b.1);
    lemma_canonical_same_value(a.0 * b.0, a.1 * b.1);
}

/// The quotient of two canonical fractions with nonzero denominators, the
/// divisor nonzero, is the exact quotient in lowest terms; dividing by zero
/// gives the division-by-zero value.
pub proof fn lemma_div_exact(a: (int, int), b: (int, int))
    requires
        is_canonical(a),
        is_canonical(b),
        a.1 > 0,
        b.1 > 0,
    ensures
        is_canonical(spec_div(a, b)),
        b.0 == 0 ==> spec_div(a, b) == undefined(),
        b.0 != 0 ==> spec_div(a, b).1 > 0 && spec_div(a, b).0 * (a.1 * b.0) == (a.0 * b.1)
            * spec_div(a, b).1,
{
    lemma_canonical_is_canonical(a.0 * b.1, a.1 * b.0);
    if b.0 != 0 {
        assert(a.1 * b.0 != 0) by (nonlinear_arith)
            requires
                a.1 > 0,
                b.0 != 0,
        ;
        lemma_canonical_same_value(a.0 * b.1, a.1 * b.0);
    } else {
        assert(a.1 * b.0 == 0) by (nonlinear_arith)
            requires
                b.0 == 0,
        ;
    }
}

/// The order of fractions is the order of their values: for canonical pairs
/// with positive denominators it compares `a.0/a.1` with `b.0/b.1`, and it
/// says `Equal` exactly when the pairs are equal. The division-by-zero value
/// comes after every canonical pair with a positive denominator.
pub proof fn lemma_order_is_value_order(a: (int, int), b: (int, int))
    requires
        is_canonical(a),
        is_canonical(b),
    ensures
        a.1 > 0 && b.1 > 0 ==> {
            &&& (value_cmp(a, b) == Ordering::Less <==> a.0 * b.1 < b.0 * a.1)
            &&& (value_cmp(a, b) == Ordering::Greater <==> a.0 * b.1 > b.0 * a.1)
            &&& (value_cmp(a, b) == Ordering::Equal <==> a == b)
        },
        a == undefined() && b.1 > 0 ==> value_cmp(a, b) == Ordering::Greater,
        value_cmp(a, b) == Ordering::Equal <==> a == b,
{
    if a.1 > 0 && b.1 > 0 {
        lemma_canonical_unique(a, b);
    }
}

proof fn lemma_positive_product(x: int, y: int)
    requires
        x > 0,
        y > 0,
    ensures
        x * y > 0,
{
    assert(x * y > 0) by (nonlinear_arith)
        requires
            x > 0,
            y > 0,
    ;
}

} // verus!
