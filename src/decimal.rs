//! Reading a fraction from the decimal text of a number, as a float prints:
//! an optional `-`, digits, and optionally a point followed by digits.

use crate::fraction::{canonical, lemma_canonical_fits, Fraction};
use crate::text::{lemma_pow10_monotone, lemma_pow10_positive, pow10};
use vstd::prelude::*;

verus! {

/// Why a decimal text gives no fraction.
#[derive(Clone, Copy, Debug, PartialEq, Eq, Structural)]
pub enum ConversionError {
    /// The text is not a decimal number (as the text of NaN or infinity).
    NotADecimal,
    /// The digits, read as one integer, or the power of ten under them, do
    /// not fit in an `i128`.
    OutOfRange,
}

/// A decimal digit character.
pub open spec fn is_digit(c: char) -> bool {
    '0' <= c <= '9'
}

/// The value of a digit character.
pub open spec fn digit_value(c: char) -> nat {
    (c as u32 - '0' as u32) as nat
}

/// Every character is a digit.
pub open spec fn all_digits(s: Seq<char>) -> bool {
    forall|i: int| 0 <= i < s.len() ==> is_digit(#[trigger] s[i])
}

/// A run of digits read as a natural number.
pub open spec fn digits_value(s: Seq<char>) -> nat
    decreases s.len(),
{
    if s.len() == 0 {
        0
    } else {
        digits_value(s.drop_last()) * 10 + digit_value(s.last())
    }
}

/// The text starts with a minus sign.
pub open spec fn is_negative_text(s: Seq<char>) -> bool {
    s.len() > 0 && s[0] == '-'
}

/// The text after an optional leading minus sign.
pub open spec fn unsigned_part(s: Seq<char>) -> Seq<char> {
    if is_negative_text(s) {
        s.drop_first()
    } else {
        s
    }
}

/// `u` is digits up to index `p`, and at `p` it either ends or has a point
/// followed by one or more digits.
pub open spec fn point_at(u: Seq<char>, p: int) -> bool {
    &&& 0 < p <= u.len()
    &&& all_digits(u.take(p))
    &&& p < u.len() ==> u[p] == '.' && p + 1 < u.len() && all_digits(u.skip(p + 1))
}

/// The text is a decimal number.
pub open spec fn is_decimal(s: Seq<char>) -> bool {
    exists|p: int| point_at(unsigned_part(s), p)
}

/// Where the integer digits of a decimal end.
pub open spec fn point_of(s: Seq<char>) -> int {
    choose|p: int| point_at(unsigned_part(s), p)
}

/// The digits after the point, if any.
pub open spec fn fraction_part(s: Seq<char>) -> Seq<char> {
    let u = unsigned_part(s);
    let p = point_of(s);
    if p < u.len() {
        u.skip(p + 1)
    } else {
        seq![]
    }
}

/// All digits of a decimal, the point left out, read as one integer.
pub open spec fn decimal_mantissa(s: Seq<char>) -> nat {
    digits_value(unsigned_part(s).take(point_of(s)) + fraction_part(s))
}

/// The number of digits after the point.
pub open spec fn decimal_scale(s: Seq<char>) -> nat {
    fraction_part(s).len()
}

/// The mantissa and the power of ten under it fit in an `i128`.
pub open spec fn decimal_in_range(s: Seq<char>) -> bool {
    decimal_mantissa(s) <= i128::MAX && pow10(decimal_scale(s)) <= i128::MAX
}

/// The value of a decimal text: its mantissa, negated under a minus sign,
/// over ten to the power of its scale, in canonical form.
pub open spec fn decimal_value(s: Seq<char>) -> (int, int) {
    let m = decimal_mantissa(s) as int;
    canonical(
        if is_negative_text(s) {
            -m
        } else {
            m
        },
        pow10(decimal_scale(s)) as int,
    )
}

/// `digits_value(a + b) == digits_value(a) * 10^|b| + digits_value(b)`.
proof fn lemma_digits_value_append(a: Seq<char>, b: Seq<char>)
    ensures
        digits_value(a + b) == digits_value(a) * pow10(b.len()) + digits_value(b),
    decreases b.len(),
{
    if b.len() == 0 {
        assert(a + b =~= a);
        assert(digits_value(a) * pow10(0) == digits_value(a) * 1);
    } else {
        let b1 = b.drop_last();
        assert((a + b).drop_last() =~= a + b1);
        assert((a + b).last() == b.last());
        lemma_digits_value_append(a, b1);
        let x = digits_value(a);
        let y = digits_value(b1);
        let pw = pow10(b1.len());
        let z = digit_value(b.last());
        assert((x * pw + y) * 10 + z == x * (10 * pw) + (y * 10 + z)) by (nonlinear_arith);
        assert(pow10(b.len()) == 10 * pw);
        assert(digits_value(b) == y * 10 + z);
    }
}

/// Appending digits never makes the value smaller.
proof fn lemma_digits_value_prefix(a: Seq<char>, b: Seq<char>)
    ensures
        digits_value(a) <= digits_value(a + b),
{
    lemma_digits_value_append(a, b);
    lemma_pow10_positive(b.len());
    let x = digits_value(a);
    let pw = pow10(b.len());
    assert(x <= x * pw) by (nonlinear_arith)
        requires
            pw >= 1,
    ;
}

/// Where the first non-digit of `u` stands is the only place a point can be.
proof fn lemma_point_unique(u: Seq<char>, i: int, p: int)
    requires
        0 <= i <= u.len(),
        forall|j: int| 0 <= j < i ==> is_digit(#[trigger] u[j]),
        i < u.len() ==> !is_digit(u[i]),
        point_at(u, p),
    ensures
        p == i,
{
    if p > i {
        assert(u.take(p)[i] == u[i]);
    } else if p < i {
        assert(is_digit(u[p]));
    }
}

/// Where the parts of a decimal text stand: `Some((start, p))` with `start`
/// the index of the first digit and `p` the index where the integer digits
/// end, or `None` when the text is not a decimal.
fn decimal_layout(s: &str) -> (r: Option<(usize, usize)>)
    ensures
        r is Some <==> is_decimal(s@),
        r matches Some((start, p)) ==> {
            &&& start == (if is_negative_text(s@) {
                1int
            } else {
                0int
            })
            &&& start <= p <= s@.len()
            &&& p - start == point_of(s@)
            &&& unsigned_part(s@).take(point_of(s@)) == s@.subrange(start as int, p as int)
            &&& p < s@.len() ==> fraction_part(s@) == s@.subrange(p + 1, s@.len() as int)
            &&& p == s@.len() ==> fraction_part(s@) == Seq::<char>::empty()
            &&& forall|j: int| start <= j < p ==> is_digit(#[trigger] s@[j])
            &&& forall|j: int| p < j < s@.len() ==> is_digit(#[trigger] s@[j])
        },
{
    let len = s.unicode_len();
    let start: usize = if len > 0 && s.get_char(0) == '-' {
        1
    } else {
        0
    };
    let ghost u = unsigned_part(s@);
    assert(u =~= s@.skip(start as int));
    let mut p: usize = start;
    while p < len
        invariant
            start <= p <= len,
            len == s@.len(),
            forall|j: int| start <= j < p ==> is_digit(#[trigger] s@[j]),
        ensures
            start <= p <= len,
            forall|j: int| start <= j < p ==> is_digit(#[trigger] s@[j]),
            p < len ==> !is_digit(s@[p as int]),
        decreases len - p,
    {
        let c = s.get_char(p);
        if !('0' <= c && c <= '9') {
            break;
        }
        p = p + 1;
    }
    let ghost pl = p - start;
    proof {
        assert forall|j: int| 0 <= j < pl implies is_digit(#[trigger] u[j]) by {
            assert(u[j] == s@[j + start]);
        }
        if pl < u.len() {
            assert(u[pl] == s@[p as int]);
        }
    }
    if p == start {
        proof {
            if is_decimal(s@) {
                lemma_point_unique(u, pl, point_of(s@));
            }
        }
        return None;
    }
    if p < len {
        if s.get_char(p) != '.' || p + 1 == len {
            proof {
                if is_decimal(s@) {
                    lemma_point_unique(u, pl, point_of(s@));
                }
            }
            return None;
        }
        let mut k: usize = p + 1;
        while k < len
            invariant
                start <= p < k <= len,
                len == s@.len(),
                u == s@.skip(start as int),
                u == unsigned_part(s@),
                pl == p - start,
                forall|j: int| 0 <= j < pl ==> is_digit(#[trigger] u[j]),
                pl < u.len() ==> !is_digit(u[pl]),
                forall|j: int| p < j < k ==> is_digit(#[trigger] s@[j]),
            decreases len - k,
        {
            let c = s.get_char(k);
            if !('0' <= c && c <= '9') {
                proof {
                    if is_decimal(s@) {
                        lemma_point_unique(u, pl, point_of(s@));
                        assert(u.skip(pl + 1)[k - p - 1] == s@[k as int]);
                    }
                }
                return None;
            }
            k = k + 1;
        }
        proof {
            assert forall|j: int| 0 <= j < u.skip(pl + 1).len() implies is_digit(
                #[trigger] u.skip(pl + 1)[j],
            ) by {
                assert(u.skip(pl + 1)[j] == s@[j + p + 1]);
            }
        }
    }
    proof {
        assert forall|j: int| 0 <= j < u.take(pl).len() implies is_digit(
            #[trigger] u.take(pl)[j],
        ) by {
            assert(u.take(pl)[j] == u[j]);
        }
        assert(point_at(u, pl));
        lemma_point_unique(u, pl, point_of(s@));
        assert(u.take(pl) =~= s@.subrange(start as int, p as int));
        if p < len {
            assert(fraction_part(s@) =~= s@.subrange(p + 1, len as int));
        }
    }
    Some((start, p))
}

/// Reads the digits `s[from..to]` on after the value `m` of the digits
/// `pre`, or returns `None` as soon as the value passes `i128::MAX`.
fn read_digits(s: &str, from: usize, to: usize, m: i128, Ghost(pre): Ghost<Seq<char>>) -> (r:
    Option<i128>)
    requires
        from <= to <= s@.len(),
        forall|j: int| from <= j < to ==> is_digit(#[trigger] s@[j]),
        0 <= m,
        m == digits_value(pre),
    ensures
        r is Some <==> digits_value(pre + s@.subrange(from as int, to as int)) <= i128::MAX,
        r matches Some(v) ==> v == digits_value(pre + s@.subrange(from as int, to as int)),
{
    let mut v = m;
    let mut k = from;
    while k < to
        invariant
            from <= k <= to <= s@.len(),
            forall|j: int| from <= j < to ==> is_digit(#[trigger] s@[j]),
            0 <= v,
            v == digits_value(pre + s@.subrange(from as int, k as int)),
        decreases to - k,
    {
        let c = s.get_char(k);
        let dv = (c as u32 - '0' as u32) as i128;
        let ghost head = pre + s@.subrange(from as int, k + 1);
        assert(head.drop_last() =~= pre + s@.subrange(from as int, k as int));
        if v > (i128::MAX - dv) / 10 {
            proof {
                let tail = s@.subrange(k + 1, to as int);
                assert(head + tail =~= pre + s@.subrange(from as int, to as int));
                lemma_digits_value_prefix(head, tail);
            }
            return None;
        }
        v = v * 10 + dv;
        k = k + 1;
    }
    Some(v)
}

/// `10^k`, or `None` when it passes `i128::MAX`; the bound is tested before
/// each multiplication.
fn checked_pow10(k: usize) -> (r: Option<i128>)
    ensures
        r is Some <==> pow10(k as nat) <= i128::MAX,
        r matches Some(v) ==> v == pow10(k as nat),
{
    let mut v: i128 = 1;
    let mut i: usize = 0;
    while i < k
        invariant
            i <= k,
            v == pow10(i as nat),
        decreases k - i,
    {
        if v > i128::MAX / 10 {
            proof {
                lemma_pow10_monotone((i + 1) as nat, k as nat);
            }
            return None;
        }
        v = v * 10;
        i = i + 1;
    }
    Some(v)
}

impl Fraction {
    /// The fraction that a decimal text stands for, as `0.123` for
    /// `123/1000`: the digits read as one integer over ten to the number of
    /// digits after the point, reduced. This reads the text that a float
    /// prints as, so that a float converts by its finite decimal form. It
    /// fails, rather than wrap, where the digits or the power of ten do not
    /// fit in an `i128`.
    pub fn from_decimal_str(s: &str) -> (r: Result<Fraction, ConversionError>)
        ensures
            r is Ok <==> is_decimal(s@) && decimal_in_range(s@),
            r matches Ok(f) ==> f@ == decimal_value(s@),
            r matches Err(e) ==> (e is NotADecimal <==> !is_decimal(s@)),
    {
        let (start, p) = match decimal_layout(s) {
            Some(layout) => layout,
            None => return Err(ConversionError::NotADecimal),
        };
        let len = s.unicode_len();
        let ghost int_digits = s@.subrange(start as int, p as int);
        let ghost frac_digits = fraction_part(s@);
        assert(Seq::<char>::empty() + int_digits =~= int_digits);
        let m = match read_digits(s, start, p, 0, Ghost(Seq::empty())) {
            Some(v) => v,
            None => {
                proof {
                    lemma_digits_value_prefix(int_digits, frac_digits);
                }
                return Err(ConversionError::OutOfRange);
            },
        };
        let (m, scale) = if p < len {
            match read_digits(s, p + 1, len, m, Ghost(int_digits)) {
                Some(v) => (v, len - p - 1),
                None => return Err(ConversionError::OutOfRange),
            }
        } else {
            assert(int_digits + frac_digits =~= int_digits);
            (m, 0)
        };
        let den = match checked_pow10(scale) {
            Some(v) => v,
            None => return Err(ConversionError::OutOfRange),
        };
        let n: i128 = if start == 1 {
            -m
        } else {
            m
        };
        proof {
            lemma_pow10_positive(scale as nat);
            lemma_canonical_fits(n as int, den as int);
        }
        Ok(Fraction::new(n, den))
    }
}

} // verus!
