//! The `Fraction` type: a numerator and a denominator, always in canonical
//! form, and the normalizer that puts a raw pair into that form.

use crate::number_theory::{
    abs, gcd, lemma_gcd_divides, lemma_gcd_reduced, lemma_quotient_positive,
};
use crate::laws::{
    lemma_add_exact, lemma_canonical_fixed, lemma_canonical_is_canonical,
    lemma_canonical_same_value,
};
use core::cmp::Ordering;
use vstd::arithmetic::div_mod::lemma_fundamental_div_mod;
use vstd::prelude::*;

verus! {

/// The integer range of the fields.
pub open spec fn in_i128(x: int) -> bool {
    i128::MIN <= x <= i128::MAX
}

/// Both components of a pair fit in the fields.
pub open spec fn fits(p: (int, int)) -> bool {
    in_i128(p.0) && in_i128(p.1)
}

/// The reserved value that stands for a division by zero.
pub open spec fn undefined() -> (int, int) {
    (1, 0)
}

/// The canonical form of the raw pair `n / d`: the division-by-zero value when
/// `d` is zero, `0 / 1` for a zero numerator, and otherwise both magnitudes
/// divided by their gcd, with the sign carried by the numerator.
pub open spec fn canonical(n: int, d: int) -> (int, int) {
    if d == 0 {
        undefined()
    } else if n == 0 {
        (0, 1)
    } else {
        let g = gcd(abs(n), abs(d));
        let mag = (abs(n) / g) as int;
        if (n < 0) == (d < 0) {
            (mag, (abs(d) / g) as int)
        } else {
            (-mag, (abs(d) / g) as int)
        }
    }
}

/// A pair in canonical form: the division-by-zero value, or a positive
/// denominator that shares no factor with the numerator.
pub open spec fn is_canonical(p: (int, int)) -> bool {
    ||| p == undefined()
    ||| p.1 > 0 && gcd(abs(p.0), p.1 as nat) == 1
}

/// The canonical form of a pair of field values fits in the fields, unless
/// the denominator is negative and one of the two is `i128::MIN`.
pub proof fn lemma_canonical_fits(n: int, d: int)
    requires
        in_i128(n),
        in_i128(d),
        d >= 0 || (n > i128::MIN && d > i128::MIN),
    ensures
        fits(canonical(n, d)),
{
    if d != 0 && n != 0 {
        lemma_gcd_divides(abs(n), abs(d));
        lemma_quotient_positive(abs(n), gcd(abs(n), abs(d)));
        lemma_quotient_positive(abs(d), gcd(abs(n), abs(d)));
    }
}

/// The sum of two pairs over the product of their denominators, reduced.
pub open spec fn spec_add(a: (int, int), b: (int, int)) -> (int, int) {
    canonical(a.0 * b.1 + b.0 * a.1, a.1 * b.1)
}

/// The difference of two pairs over the product of their denominators, reduced.
pub open spec fn spec_sub(a: (int, int), b: (int, int)) -> (int, int) {
    canonical(a.0 * b.1 - b.0 * a.1, a.1 * b.1)
}

/// The product of two pairs, reduced.
pub open spec fn spec_mul(a: (int, int), b: (int, int)) -> (int, int) {
    canonical(a.0 * b.0, a.1 * b.1)
}

/// The quotient of two pairs, reduced.
pub open spec fn spec_div(a: (int, int), b: (int, int)) -> (int, int) {
    canonical(a.0 * b.1, a.1 * b.0)
}

/// Remainder of `x` by `y` truncated toward zero: it takes the sign of `x`.
pub open spec fn trunc_rem(x: int, y: int) -> int {
    if x < 0 {
        -(abs(x) % abs(y))
    } else {
        (abs(x) % abs(y)) as int
    }
}

/// The remainder of the cross-multiplied numerators over the product of the
/// denominators, reduced.
pub open spec fn spec_rem(a: (int, int), b: (int, int)) -> (int, int) {
    canonical(trunc_rem(a.0 * b.1, b.0 * a.1), a.1 * b.1)
}

/// The three products that bring two pairs to a common denominator fit.
pub open spec fn cross_in_range(a: (int, int), b: (int, int)) -> bool {
    &&& in_i128(a.0 * b.1)
    &&& in_i128(b.0 * a.1)
    &&& in_i128(a.1 * b.1)
}

/// Every intermediate value of an addition fits.
pub open spec fn add_in_range(a: (int, int), b: (int, int)) -> bool {
    cross_in_range(a, b) && in_i128(a.0 * b.1 + b.0 * a.1)
}

/// Every intermediate value of a subtraction fits.
pub open spec fn sub_in_range(a: (int, int), b: (int, int)) -> bool {
    cross_in_range(a, b) && in_i128(a.0 * b.1 - b.0 * a.1)
}

/// Every intermediate value of a multiplication fits.
pub open spec fn mul_in_range(a: (int, int), b: (int, int)) -> bool {
    in_i128(a.0 * b.0) && in_i128(a.1 * b.1)
}

/// Every intermediate value of a division fits, and so does the result.
pub open spec fn div_in_range(a: (int, int), b: (int, int)) -> bool {
    &&& in_i128(a.0 * b.1)
    &&& in_i128(a.1 * b.0)
    &&& fits(spec_div(a, b))
}

/// The cross-multiplied values fit, and the remainder is taken by a nonzero
/// divisor.
pub open spec fn rem_in_range(a: (int, int), b: (int, int)) -> bool {
    cross_in_range(a, b) && b.0 * a.1 != 0
}

/// The order of two integers.
pub open spec fn int_cmp(x: int, y: int) -> Ordering {
    if x < y {
        Ordering::Less
    } else if x > y {
        Ordering::Greater
    } else {
        Ordering::Equal
    }
}

/// The order of the values of two pairs with nonnegative denominators: by
/// `a.0 * b.1` against `b.0 * a.1` where both denominators are positive, and
/// with the division-by-zero value after every other value, as `1.0 / 0.0`
/// is infinite.
pub open spec fn value_cmp(a: (int, int), b: (int, int)) -> Ordering {
    if a.1 == 0 && b.1 == 0 {
        Ordering::Equal
    } else if a.1 == 0 {
        Ordering::Greater
    } else if b.1 == 0 {
        Ordering::Less
    } else {
        int_cmp(a.0 * b.1, b.0 * a.1)
    }
}

/// The reverse of an order.
pub open spec fn reversed(o: Ordering) -> Ordering {
    match o {
        Ordering::Less => Ordering::Greater,
        Ordering::Equal => Ordering::Equal,
        Ordering::Greater => Ordering::Less,
    }
}

fn reverse(o: Ordering) -> (r: Ordering)
    ensures
        r == reversed(o),
{
    match o {
        Ordering::Less => Ordering::Greater,
        Ordering::Equal => Ordering::Equal,
        Ordering::Greater => Ordering::Less,
    }
}

/// Compares `p / q` with `r / s` without forming `p * s` or `r * q`: by the
/// integer parts, then by the remainders, whose order is the reverse of the
/// order of their reciprocals (the steps of Euclid's algorithm).
fn compare_ratios(p: u128, q: u128, r: u128, s: u128) -> (o: Ordering)
    requires
        q > 0,
        s > 0,
    ensures
        o == int_cmp(p * s, r * q),
    decreases q + s,
{
    let a = p / q;
    let b = r / s;
    let p2 = p % q;
    let r2 = r % s;
    proof {
        lemma_fundamental_div_mod(p as int, q as int);
        lemma_fundamental_div_mod(r as int, s as int);
    }
    if a < b {
        assert(p * s < r * q) by (nonlinear_arith)
            requires
                p == q * a + p2,
                r == s * b + r2,
                p2 < q,
                a + 1 <= b,
                s > 0,
                r2 >= 0,
        ;
        return Ordering::Less;
    }
    if a > b {
        assert(p * s > r * q) by (nonlinear_arith)
            requires
                p == q * a + p2,
                r == s * b + r2,
                r2 < s,
                b + 1 <= a,
                q > 0,
                p2 >= 0,
        ;
        return Ordering::Greater;
    }
    assert(p * s - r * q == p2 * s - r2 * q) by (nonlinear_arith)
        requires
            p == q * a + p2,
            r == s * b + r2,
            a == b,
    ;
    if p2 == 0 && r2 == 0 {
        assert(p2 * s == 0 && r2 * q == 0) by (nonlinear_arith)
            requires
                p2 == 0,
                r2 == 0,
        ;
        Ordering::Equal
    } else if p2 == 0 {
        assert(r2 * q > 0 && p2 * s == 0) by (nonlinear_arith)
            requires
                r2 > 0,
                q > 0,
                p2 == 0,
        ;
        Ordering::Less
    } else if r2 == 0 {
        assert(p2 * s > 0 && r2 * q == 0) by (nonlinear_arith)
            requires
                p2 > 0,
                s > 0,
                r2 == 0,
        ;
        Ordering::Greater
    } else {
        let o = compare_ratios(q, p2, s, r2);
        assert(q * r2 == r2 * q && s * p2 == p2 * s) by (nonlinear_arith);
        reverse(o)
    }
}

/// A rational number `num / den`, kept in canonical form.
///
/// Equality compares the two fields: every value has exactly one canonical
/// form (`lemma_canonical_unique`), so equality of fields is equality of
/// values. Ordering is the order of the values, computed without products
/// that could overflow; the division-by-zero value comes after all others.
#[derive(Clone, Copy, Debug, Eq)]
pub struct Fraction {
    num: i128,
    den: i128,
}

impl View for Fraction {
    type V = (int, int);

    closed spec fn view(&self) -> (int, int) {
        (self.num as int, self.den as int)
    }
}

/// Magnitude of a field value, which always fits in `u128`.
pub(crate) fn magnitude(x: i128) -> (r: u128)
    ensures
        r == abs(x as int),
{
    if x >= 0 {
        x as u128
    } else {
        (-(x + 1)) as u128 + 1
    }
}

impl Fraction {
    #[verifier::type_invariant]
    pub(crate) open spec fn inv(self) -> bool {
        is_canonical(self@)
    }

    /// Euclid's algorithm on the magnitudes of a numerator and a denominator.
    fn calc_greatest_common_divisor(num: u128, den: u128) -> (r: u128)
        ensures
            r == gcd(num as nat, den as nat),
    {
        let mut a = num;
        let mut b = den;
        while b != 0
            invariant
                gcd(a as nat, b as nat) == gcd(num as nat, den as nat),
            decreases b,
        {
            let t = a % b;
            a = b;
            b = t;
        }
        a
    }

    /// Puts `num / den` in canonical form, or returns `None` when that form
    /// does not fit in the fields.
    fn simplify(num: i128, den: i128) -> (r: Option<Fraction>)
        ensures
            r is Some <==> fits(canonical(num as int, den as int)),
            r matches Some(f) ==> f@ == canonical(num as int, den as int),
            den == 0 ==> (r matches Some(f) && f@ == undefined()),
            den != 0 && num > i128::MIN && den > i128::MIN ==> (r matches Some(f) && f@.1 > 0
                && gcd(abs(f@.0), f@.1 as nat) == 1 && f@.0 * den == num * f@.1),
            is_canonical((num as int, den as int)) ==> (r matches Some(f) && f@ == (
                num as int,
                den as int,
            )),
    {
        proof {
            lemma_canonical_is_canonical(num as int, den as int);
            if num > i128::MIN && den > i128::MIN {
                lemma_canonical_fits(num as int, den as int);
            }
            if den != 0 {
                lemma_canonical_same_value(num as int, den as int);
            }
            if is_canonical((num as int, den as int)) {
                lemma_canonical_fixed((num as int, den as int));
            }
        }
        if den == 0 {
            return Some(Fraction { num: 1, den: 0 });
        }
        if num == 0 {
            proof {
                reveal_with_fuel(gcd, 2);
            }
            return Some(Fraction { num: 0, den: 1 });
        }
        let n_mag = magnitude(num);
        let d_mag = magnitude(den);
        let divisor = Self::calc_greatest_common_divisor(n_mag, d_mag);
        proof {
            lemma_gcd_divides(n_mag as nat, d_mag as nat);
            lemma_gcd_reduced(n_mag as nat, d_mag as nat);
            lemma_quotient_positive(d_mag as nat, divisor as nat);
            lemma_quotient_positive(n_mag as nat, divisor as nat);
        }
        let rn = n_mag / divisor;
        let rd = d_mag / divisor;
        if rd > i128::MAX as u128 {
            return None;
        }
        if (num < 0) == (den < 0) {
            if rn > i128::MAX as u128 {
                return None;
            }
            Some(Fraction { num: rn as i128, den: rd as i128 })
        } else if rn > i128::MAX as u128 {
            Some(Fraction { num: i128::MIN, den: rd as i128 })
        } else {
            Some(Fraction { num: -(rn as i128), den: rd as i128 })
        }
    }

    /// The canonical form of `num / den`: with a nonzero denominator, a
    /// positive denominator sharing no factor with the numerator, of the same
    /// value; with a zero denominator, the division-by-zero value `1 / 0`,
    /// whatever `num` is. A pair already canonical comes back unchanged.
    /// The form fits whenever `den >= 0` (see `lemma_canonical_fits`); it
    /// does not for `i128::MIN / -1`.
    pub fn new(num: i128, den: i128) -> (r: Fraction)
        requires
            fits(canonical(num as int, den as int)),
        ensures
            r@ == canonical(num as int, den as int),
            den == 0 ==> r@ == undefined(),
            den != 0 ==> r@.1 > 0 && gcd(abs(r@.0), r@.1 as nat) == 1 && r@.0 * den == num * r@.1,
            is_canonical((num as int, den as int)) ==> r@ == (num as int, den as int),
    {
        proof {
            lemma_canonical_is_canonical(num as int, den as int);
            if den != 0 {
                lemma_canonical_same_value(num as int, den as int);
            }
            if is_canonical((num as int, den as int)) {
                lemma_canonical_fixed((num as int, den as int));
            }
        }
        Self::simplify(num, den).unwrap()
    }

    /// The canonical form of `num / den`, or `None` when it does not fit in
    /// the fields (as for `i128::MIN / -1`).
    pub fn checked_new(num: i128, den: i128) -> (r: Option<Fraction>)
        ensures
            r is Some <==> fits(canonical(num as int, den as int)),
            r matches Some(f) ==> f@ == canonical(num as int, den as int),
    {
        Self::simplify(num, den)
    }

    /// Both fractions brought to the common denominator `one.den * two.den`:
    /// the two numerators and that denominator, or `None` when a product
    /// overflows.
    fn sync_base(one: &Fraction, two: &Fraction) -> (r: Option<(i128, i128, i128)>)
        ensures
            r is Some <==> cross_in_range(one@, two@),
            r matches Some(t) ==> {
                &&& t.0 == one@.0 * two@.1
                &&& t.1 == two@.0 * one@.1
                &&& t.2 == one@.1 * two@.1
            },
    {
        let n1 = match one.num.checked_mul(two.den) {
            Some(v) => v,
            None => return None,
        };
        let n2 = match two.num.checked_mul(one.den) {
            Some(v) => v,
            None => return None,
        };
        let d = match one.den.checked_mul(two.den) {
            Some(v) => v,
            None => return None,
        };
        Some((n1, n2, d))
    }

    /// `self + other`, or `None` when an intermediate value overflows.
    pub fn checked_add(self, other: Fraction) -> (r: Option<Fraction>)
        ensures
            r is Some <==> add_in_range(self@, other@),
            r matches Some(f) ==> f@ == spec_add(self@, other@),
    {
        proof {
            use_type_invariant(&self);
            use_type_invariant(&other);
        }
        let (n1, n2, d) = match Self::sync_base(&self, &other) {
            Some(t) => t,
            None => return None,
        };
        let n = match n1.checked_add(n2) {
            Some(v) => v,
            None => return None,
        };
        proof {
            assert(d >= 0) by (nonlinear_arith)
                requires
                    d == self@.1 * other@.1,
                    self@.1 >= 0,
                    other@.1 >= 0,
            ;
            lemma_canonical_fits(n as int, d as int);
        }
        Self::simplify(n, d)
    }

    /// The sum `self + other` in canonical form.
    pub fn add(self, other: Fraction) -> (r: Fraction)
        requires
            add_in_range(self@, other@),
        ensures
            r@ == spec_add(self@, other@),
            self@.1 > 0 && other@.1 > 0 ==> r@.1 > 0 && gcd(abs(r@.0), r@.1 as nat) == 1 && r@.0 * (
            self@.1 * other@.1) == (self@.0 * other@.1 + other@.0 * self@.1) * r@.1,
    {
        proof {
            use_type_invariant(&self);
            use_type_invariant(&other);
            if self@.1 > 0 && other@.1 > 0 {
                lemma_add_exact(self@, other@);
            }
        }
        self.checked_add(other).unwrap()
    }

    /// `self - other`, or `None` when an intermediate value overflows.
    pub fn checked_sub(self, other: Fraction) -> (r: Option<Fraction>)
        ensures
            r is Some <==> sub_in_range(self@, other@),
            r matches Some(f) ==> f@ == spec_sub(self@, other@),
    {
        proof {
            use_type_invariant(&self);
            use_type_invariant(&other);
        }
        let (n1, n2, d) = match Self::sync_base(&self, &other) {
            Some(t) => t,
            None => return None,
        };
        let n = match n1.checked_sub(n2) {
            Some(v) => v,
            None => return None,
        };
        proof {
            assert(d >= 0) by (nonlinear_arith)
                requires
                    d == self@.1 * other@.1,
                    self@.1 >= 0,
                    other@.1 >= 0,
            ;
            lemma_canonical_fits(n as int, d as int);
        }
        Self::simplify(n, d)
    }

    /// The difference `self - other` in canonical form.
    pub fn sub(self, other: Fraction) -> (r: Fraction)
        requires
            sub_in_range(self@, other@),
        ensures
            r@ == spec_sub(self@, other@),
    {
        self.checked_sub(other).unwrap()
    }

    /// `self * other`, or `None` when an intermediate value overflows.
    pub fn checked_mul(self, other: Fraction) -> (r: Option<Fraction>)
        ensures
            r is Some <==> mul_in_range(self@, other@),
            r matches Some(f) ==> f@ == spec_mul(self@, other@),
    {
        proof {
            use_type_invariant(&self);
            use_type_invariant(&other);
        }
        let n = match self.num.checked_mul(other.num) {
            Some(v) => v,
            None => return None,
        };
        let d = match self.den.checked_mul(other.den) {
            Some(v) => v,
            None => return None,
        };
        proof {
            assert(d >= 0) by (nonlinear_arith)
                requires
                    d == self@.1 * other@.1,
                    self@.1 >= 0,
                    other@.1 >= 0,
            ;
            lemma_canonical_fits(n as int, d as int);
        }
        Self::simplify(n, d)
    }

    /// The product `self * other` in canonical form.
    pub fn mul(self, other: Fraction) -> (r: Fraction)
        requires
            mul_in_range(self@, other@),
        ensures
            r@ == spec_mul(self@, other@),
    {
        self.checked_mul(other).unwrap()
    }

    /// `self / other`, or `None` when an intermediate value or the result
    /// overflows. Dividing by zero gives the division-by-zero value.
    pub fn checked_div(self, other: Fraction) -> (r: Option<Fraction>)
        ensures
            r is Some <==> div_in_range(self@, other@),
            r matches Some(f) ==> f@ == spec_div(self@, other@),
    {
        let n = match self.num.checked_mul(other.den) {
            Some(v) => v,
            None => return None,
        };
        let d = match self.den.checked_mul(other.num) {
            Some(v) => v,
            None => return None,
        };
        Self::simplify(n, d)
    }

    /// The quotient `self / other` in canonical form; the division-by-zero
    /// value when `other` is zero.
    pub fn div(self, other: Fraction) -> (r: Fraction)
        requires
            div_in_range(self@, other@),
        ensures
            r@ == spec_div(self@, other@),
    {
        self.checked_div(other).unwrap()
    }

    /// The remainder of the numerators brought to a common denominator, over
    /// that denominator; `None` when a product overflows or the divisor is
    /// zero. The remainder is truncated: it takes the sign of `self`'s side.
    pub fn checked_rem(self, other: Fraction) -> (r: Option<Fraction>)
        ensures
            r is Some <==> rem_in_range(self@, other@),
            r matches Some(f) ==> f@ == spec_rem(self@, other@),
    {
        proof {
            use_type_invariant(&self);
            use_type_invariant(&other);
        }
        let (n1, n2, d) = match Self::sync_base(&self, &other) {
            Some(t) => t,
            None => return None,
        };
        if n2 == 0 {
            return None;
        }
        let m = magnitude(n1) % magnitude(n2);
        let n: i128 = if n1 < 0 {
            -(m as i128)
        } else {
            m as i128
        };
        proof {
            assert(d >= 0) by (nonlinear_arith)
                requires
                    d == self@.1 * other@.1,
                    self@.1 >= 0,
                    other@.1 >= 0,
            ;
            lemma_canonical_fits(n as int, d as int);
        }
        Self::simplify(n, d)
    }

    /// The remainder `self % other` in canonical form.
    pub fn rem(self, other: Fraction) -> (r: Fraction)
        requires
            rem_in_range(self@, other@),
        ensures
            r@ == spec_rem(self@, other@),
    {
        self.checked_rem(other).unwrap()
    }

    /// The numerator; it carries the sign.
    pub fn num(&self) -> (r: i128)
        ensures
            r == self@.0,
    {
        self.num
    }

    /// The denominator: positive, or zero for the division-by-zero value.
    pub fn den(&self) -> (r: i128)
        ensures
            r == self@.1,
    {
        self.den
    }
}

impl PartialEq for Fraction {
    fn eq(&self, other: &Fraction) -> (r: bool) {
        self.num == other.num && self.den == other.den
    }
}

impl vstd::std_specs::cmp::PartialEqSpecImpl for Fraction {
    open spec fn obeys_eq_spec() -> bool {
        true
    }

    open spec fn eq_spec(&self, other: &Fraction) -> bool {
        self@ == other@
    }
}

/// The order of the values. The division-by-zero value comes after every
/// other value and equals only itself.
impl PartialOrd for Fraction {
    fn partial_cmp(&self, other: &Fraction) -> (r: Option<Ordering>) {
        proof {
            use_type_invariant(self);
            use_type_invariant(other);
        }
        let a = self.num;
        let b = other.num;
        let o = if self.den == 0 && other.den == 0 {
            Ordering::Equal
        } else if self.den == 0 {
            Ordering::Greater
        } else if other.den == 0 {
            Ordering::Less
        } else {
            let ghost da = self@.1;
            let ghost db = other@.1;
            proof {
                assert(a * db < 0 <==> a < 0) by (nonlinear_arith)
                    requires
                        db > 0,
                ;
                assert(a * db > 0 <==> a > 0) by (nonlinear_arith)
                    requires
                        db > 0,
                ;
                assert(b * da < 0 <==> b < 0) by (nonlinear_arith)
                    requires
                        da > 0,
                ;
                assert(b * da > 0 <==> b > 0) by (nonlinear_arith)
                    requires
                        da > 0,
                ;
            }
            if a < 0 && b >= 0 || a == 0 && b > 0 {
                Ordering::Less
            } else if a >= 0 && b < 0 || a > 0 && b == 0 {
                Ordering::Greater
            } else if a == 0 {
                Ordering::Equal
            } else {
                let p = magnitude(a);
                let r = magnitude(b);
                let o = compare_ratios(p, self.den as u128, r, other.den as u128);
                if a > 0 {
                    o
                } else {
                    assert(a * db == -(p * db) && b * da == -(r * da)) by (nonlinear_arith)
                        requires
                            p == -a,
                            r == -b,
                    ;
                    reverse(o)
                }
            }
        };
        Some(o)
    }
}

impl vstd::std_specs::cmp::PartialOrdSpecImpl for Fraction {
    open spec fn obeys_partial_cmp_spec() -> bool {
        true
    }

    open spec fn partial_cmp_spec(&self, other: &Fraction) -> Option<Ordering> {
        Some(value_cmp(self@, other@))
    }
}

/// An integer as the fraction `value / 1`.
impl From<i128> for Fraction {
    fn from(value: i128) -> (r: Fraction)
        ensures
            r@ == (value as int, 1int),
    {
        proof {
            reveal_with_fuel(gcd, 2);
        }
        Fraction { num: value, den: 1 }
    }
}

impl vstd::std_specs::convert::FromSpecImpl<i128> for Fraction {
    open spec fn obeys_from_spec() -> bool {
        true
    }

    closed spec fn from_spec(value: i128) -> Fraction {
        Fraction { num: value, den: 1 }
    }
}

} // verus!
