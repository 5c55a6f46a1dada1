//! Text forms of fractions: rendering as a short decimal or as `num/den`.

use crate::fraction::{magnitude, Fraction};
use crate::number_theory::abs;
use vstd::arithmetic::div_mod::lemma_fundamental_div_mod;
use vstd::prelude::*;

verus! {

/// Fractional digits up to which a fraction is shown as a decimal.
pub const DECIMAL_PLACES: u32 = 2;

/// `10^k`.
pub open spec fn pow10(k: nat) -> nat
    decreases k,
{
    if k == 0 {
        1
    } else {
        10 * pow10((k - 1) as nat)
    }
}

/// The character of a decimal digit.
pub open spec fn digit_char(d: nat) -> char {
    seq!['0', '1', '2', '3', '4', '5', '6', '7', '8', '9'][d as int]
}

/// Decimal digits of a natural number, without leading zeros.
pub open spec fn nat_text(n: nat) -> Seq<char>
    decreases n,
{
    if n < 10 {
        seq![digit_char(n)]
    } else {
        nat_text(n / 10).push(digit_char(n % 10))
    }
}

/// Decimal text of an integer, with a leading `-` when negative.
pub open spec fn int_text(i: int) -> Seq<char> {
    if i < 0 {
        seq!['-'] + nat_text(abs(i))
    } else {
        nat_text(i as nat)
    }
}

/// The last `width` decimal digits of `v`, padded with leading zeros.
pub open spec fn padded_digits(v: nat, width: nat) -> Seq<char>
    decreases width,
{
    if width == 0 {
        seq![]
    } else {
        padded_digits(v / 10, (width - 1) as nat).push(digit_char(v % 10))
    }
}

/// The digits `padded_digits(v, width)` with the trailing zeros dropped.
pub open spec fn fraction_digits(v: nat, width: nat) -> Seq<char>
    decreases width,
{
    if width > 0 && v % 10 == 0 {
        fraction_digits(v / 10, (width - 1) as nat)
    } else {
        padded_digits(v, width)
    }
}

/// A denominator whose fractions have at most `places` fractional digits.
pub open spec fn terminates_within(den: int, places: nat) -> bool {
    den > 0 && pow10(places) % (den as nat) == 0
}

/// The text of the canonical pair `p`. Where its decimal expansion ends
/// within `places` digits it is that decimal, written exactly and without
/// trailing zeros (`-0.25`, `3`); otherwise it is `num/den`. The digits are
/// those of the exact value, not of the nearest float: past 2^53 they differ
/// (`2^60 + 1` reads `1152921504606846977`, where the float prints
/// `...976`). The division-by-zero value reads `inf`, as `1.0 / 0.0` prints.
pub open spec fn render(p: (int, int), places: nat) -> Seq<char> {
    if p.1 == 0 {
        seq!['i', 'n', 'f']
    } else if terminates_within(p.1, places) {
        let m = abs(p.0);
        let d = p.1 as nat;
        let sign = if p.0 < 0 {
            seq!['-']
        } else {
            seq![]
        };
        let frac = fraction_digits((m % d) * (pow10(places) / d), places);
        if frac.len() == 0 {
            sign + nat_text(m / d)
        } else {
            sign + nat_text(m / d) + seq!['.'] + frac
        }
    } else {
        int_text(p.0) + seq!['/'] + nat_text(p.1 as nat)
    }
}

/// `10^k` is positive.
pub proof fn lemma_pow10_positive(k: nat)
    ensures
        pow10(k) >= 1,
    decreases k,
{
    if k > 0 {
        lemma_pow10_positive((k - 1) as nat);
    }
}

/// `10^i <= 10^j` for `i <= j`.
pub proof fn lemma_pow10_monotone(i: nat, j: nat)
    requires
        i <= j,
    ensures
        1 <= pow10(i) <= pow10(j),
    decreases j,
{
    lemma_pow10_positive(i);
    if i < j {
        lemma_pow10_monotone(i, (j - 1) as nat);
    }
}

/// `10^places`, for a `places` whose power fits in `u128`.
fn pow10_u128(places: u32) -> (r: u128)
    requires
        places <= 38,
    ensures
        r == pow10(places as nat),
{
    proof {
        reveal_with_fuel(pow10, 39);
        lemma_pow10_monotone(places as nat, 38);
    }
    let mut r: u128 = 1;
    let mut i: u32 = 0;
    while i < places
        invariant
            i <= places <= 38,
            r == pow10(i as nat),
            pow10(places as nat) <= pow10(38),
            pow10(38) == 100000000000000000000000000000000000000,
        decreases places - i,
    {
        proof {
            lemma_pow10_monotone((i + 1) as nat, places as nat);
        }
        r = r * 10;
        i = i + 1;
    }
    r
}

/// The one-character text of a decimal digit.
fn digit_str(d: u128) -> (r: &'static str)
    requires
        d < 10,
    ensures
        r@ == seq![digit_char(d as nat)],
{
    let digits = "0123456789";
    proof {
        reveal_strlit("0123456789");
    }
    let r = digits.substring_ascii(d as usize, d as usize + 1);
    assert(r@ =~= seq![digit_char(d as nat)]);
    r
}

/// Appends the decimal digits of `n`.
fn push_nat(out: &mut String, n: u128)
    ensures
        final(out)@ == old(out)@ + nat_text(n as nat),
    decreases n,
{
    if n >= 10 {
        push_nat(out, n / 10);
    }
    out.append(digit_str(n % 10));
    assert(final(out)@ =~= old(out)@ + nat_text(n as nat));
}

/// `padded_digits(v, width)` has `width` characters.
proof fn lemma_padded_len(v: nat, width: nat)
    ensures
        padded_digits(v, width).len() == width,
    decreases width,
{
    if width > 0 {
        lemma_padded_len(v / 10, (width - 1) as nat);
    }
}

/// Appends the last `width` digits of `v`, padded with leading zeros.
fn push_padded(out: &mut String, v: u128, width: u32)
    ensures
        final(out)@ == old(out)@ + padded_digits(v as nat, width as nat),
    decreases width,
{
    if width > 0 {
        push_padded(out, v / 10, width - 1);
        out.append(digit_str(v % 10));
        assert(final(out)@ =~= old(out)@ + padded_digits(v as nat, width as nat));
    }
}

impl Fraction {
    /// The text of this fraction: the exact decimal where its expansion ends
    /// within `places` fractional digits, otherwise `num/den`; `inf` for the
    /// division-by-zero value. The decimal is computed from the two integers,
    /// so it is exact, not the text of the nearest float.
    pub fn to_string_with_places(&self, places: u32) -> (r: String)
        requires
            places <= 38,
        ensures
            r@ == render(self@, places as nat),
    {
        proof {
            use_type_invariant(self);
        }
        let n = self.num();
        let d = self.den();
        let mut out = String::new();
        if d == 0 {
            proof {
                reveal_strlit("inf");
            }
            out.append("inf");
            assert(out@ =~= render(self@, places as nat));
            return out;
        }
        let m = magnitude(n);
        let du = d as u128;
        let p = pow10_u128(places);
        if p % du == 0 {
            proof {
                reveal_strlit("-");
                reveal_strlit(".");
            }
            if n < 0 {
                out.append("-");
            }
            push_nat(&mut out, m / du);
            let ghost v0 = (m % du) as nat * (p / du) as nat;
            proof {
                lemma_fundamental_div_mod(p as int, du as int);
                lemma_pow10_positive(places as nat);
            }
            assert(v0 < p) by (nonlinear_arith)
                requires
                    v0 == (m % du) as nat * (p / du) as nat,
                    m % du < du,
                    du * (p / du) == p,
                    du > 0,
                    p > 0,
            ;
            let mut v = (m % du) * (p / du);
            let mut w = places;
            while w > 0 && v % 10 == 0
                invariant
                    fraction_digits(v as nat, w as nat) == fraction_digits(v0, places as nat),
                decreases w,
            {
                v = v / 10;
                w = w - 1;
            }
            proof {
                lemma_padded_len(v as nat, w as nat);
            }
            if w > 0 {
                out.append(".");
                push_padded(&mut out, v, w);
            }
            assert(out@ =~= render(self@, places as nat));
        } else {
            proof {
                reveal_strlit("-");
                reveal_strlit("/");
            }
            if n < 0 {
                out.append("-");
            }
            push_nat(&mut out, m);
            out.append("/");
            push_nat(&mut out, du);
            assert(out@ =~= render(self@, places as nat));
        }
        out
    }

    /// The text of this fraction with `DECIMAL_PLACES` places: `1/2` reads
    /// `0.5`, `1/3` reads `1/3`, `-1/3` reads `-1/3`, zero reads `0`. The
    /// decimal is exact, not the text of the nearest float.
    pub fn to_string(&self) -> (r: String)
        ensures
            r@ == render(self@, DECIMAL_PLACES as nat),
    {
        self.to_string_with_places(DECIMAL_PLACES)
    }
}

} // verus!
