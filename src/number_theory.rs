//! Greatest common divisors: the spec function and the facts about it that
//! reducing a fraction relies on.

use vstd::arithmetic::div_mod::*;
use vstd::arithmetic::mul::*;
use vstd::prelude::*;

verus! {

/// The greatest common divisor, by Euclid's recurrence.
pub open spec fn gcd(a: nat, b: nat) -> nat
    decreases b,
{
    if b == 0 {
        a
    } else {
        gcd(b, a % b)
    }
}

/// Magnitude of an integer.
pub open spec fn abs(x: int) -> nat {
    if x < 0 {
        (-x) as nat
    } else {
        x as nat
    }
}

/// `d` divides `x` (for a positive `d`).
pub open spec fn divides(d: nat, x: nat) -> bool {
    d > 0 && x % d == 0
}

/// The gcd of two numbers that are not both zero is positive.
pub proof fn lemma_gcd_positive(a: nat, b: nat)
    requires
        a > 0 || b > 0,
    ensures
        gcd(a, b) > 0,
    decreases b,
{
    if b > 0 {
        lemma_gcd_positive(b, a % b);
    }
}

/// The gcd divides both of its arguments.
pub proof fn lemma_gcd_divides(a: nat, b: nat)
    requires
        a > 0 || b > 0,
    ensures
        divides(gcd(a, b), a),
        divides(gcd(a, b), b),
    decreases b,
{
    lemma_gcd_positive(a, b);
    if b > 0 {
        let g = gcd(a, b);
        let r = a % b;
        lemma_gcd_divides(b, r);
        lemma_fundamental_div_mod(a as int, b as int);
        lemma_fundamental_div_mod(b as int, g as int);
        lemma_fundamental_div_mod(r as int, g as int);
        let qb = b / g;
        let qr = r / g;
        let q = a / b;
        assert(a == g * (qb * q + qr)) by (nonlinear_arith)
            requires
                a == b * q + r,
                b == g * qb,
                r == g * qr,
        ;
        lemma_mod_multiples_basic((qb * q + qr) as int, g as int);
        lemma_mul_is_commutative(g as int, (qb * q + qr) as int);
    }
}

/// Scaling both arguments scales the gcd: `gcd(k·a, k·b) == k·gcd(a, b)`.
pub proof fn lemma_gcd_scale(k: nat, a: nat, b: nat)
    requires
        k > 0,
    ensures
        gcd(k * a, k * b) == k * gcd(a, b),
    decreases b,
{
    if b == 0 {
        assert(k * b == 0) by (nonlinear_arith)
            requires
                b == 0,
        ;
    } else {
        let r = a % b;
        let q = a / b;
        lemma_fundamental_div_mod(a as int, b as int);
        assert(k * b > 0) by (nonlinear_arith)
            requires
                k > 0,
                b > 0,
        ;
        assert(k * a == (k * b) * q + k * r) by (nonlinear_arith)
            requires
                a == b * q + r,
        ;
        assert(k * r < k * b) by (nonlinear_arith)
            requires
                k > 0,
                r < b,
        ;
        lemma_fundamental_div_mod_converse(
            (k * a) as int,
            (k * b) as int,
            q as int,
            (k * r) as int,
        );
        lemma_gcd_scale(k, b, r);
    }
}

/// Dividing two numbers, not both zero, by their gcd leaves coprime numbers.
pub proof fn lemma_gcd_reduced(a: nat, b: nat)
    requires
        a > 0 || b > 0,
    ensures
        gcd(a / gcd(a, b), b / gcd(a, b)) == 1,
{
    let g = gcd(a, b);
    lemma_gcd_divides(a, b);
    lemma_fundamental_div_mod(a as int, g as int);
    lemma_fundamental_div_mod(b as int, g as int);
    let a1 = a / g;
    let b1 = b / g;
    lemma_gcd_scale(g, a1, b1);
    assert(g * a1 == a && g * b1 == b);
    assert(g * gcd(a1, b1) == g);
    assert(gcd(a1, b1) == 1) by (nonlinear_arith)
        requires
            g * gcd(a1, b1) == g,
            g > 0,
    ;
}

/// A positive number divided by one of its divisors is at least one.
pub proof fn lemma_quotient_positive(x: nat, d: nat)
    requires
        x > 0,
        divides(d, x),
    ensures
        x / d >= 1,
        x / d <= x,
        d * (x / d) == x,
{
    lemma_fundamental_div_mod(x as int, d as int);
    lemma_div_is_ordered_by_denominator(x as int, 1, d as int);
}

/// A common divisor of two numbers divides their gcd.
pub proof fn lemma_common_divisor_divides_gcd(a: nat, b: nat, c: nat)
    requires
        divides(c, a),
        divides(c, b),
    ensures
        divides(c, gcd(a, b)),
    decreases b,
{
    if b > 0 {
        let q = a / b;
        let r = a % b;
        lemma_fundamental_div_mod(a as int, b as int);
        lemma_fundamental_div_mod(a as int, c as int);
        lemma_fundamental_div_mod(b as int, c as int);
        let x = a / c;
        let y = b / c;
        assert(r == c * (x - y * q)) by (nonlinear_arith)
            requires
                a == b * q + r,
                a == c * x,
                b == c * y,
        ;
        assert(x - y * q >= 0) by (nonlinear_arith)
            requires
                r == c * (x - y * q),
                r >= 0,
                c > 0,
        ;
        lemma_mod_multiples_basic(x - y * q, c as int);
        lemma_mul_is_commutative(c as int, x - y * q);
        lemma_common_divisor_divides_gcd(b, r, c);
    }
}

/// Two positive numbers that divide each other are equal.
pub proof fn lemma_mutual_divisors_equal(x: nat, y: nat)
    requires
        x > 0,
        y > 0,
        divides(x, y),
        divides(y, x),
    ensures
        x == y,
{
    lemma_quotient_positive(y, x);
    lemma_quotient_positive(x, y);
    let k = y / x;
    let m = x / y;
    assert(x <= y && y <= x) by (nonlinear_arith)
        requires
            x * k == y,
            y * m == x,
            k >= 1,
            m >= 1,
            x > 0,
            y > 0,
    ;
}

} // verus!
