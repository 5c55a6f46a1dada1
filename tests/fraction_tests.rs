use fraction::{ConversionError, Fraction, DECIMAL_PLACES};

fn pair(f: Fraction) -> (i128, i128) {
    (f.num(), f.den())
}

fn gcd(a: i128, b: i128) -> i128 {
    let (mut a, mut b) = (a.abs(), b.abs());
    while b != 0 {
        let t = a % b;
        a = b;
        b = t;
    }
    a
}

fn to_f64(f: Fraction) -> f64 {
    f.num() as f64 / f.den() as f64
}

#[test]
fn new_reduces_to_lowest_terms() {
    assert_eq!(pair(Fraction::new(6, 8)), (3, 4));
    assert_eq!(pair(Fraction::new(100, 10)), (10, 1));
    assert_eq!(pair(Fraction::new(7, 13)), (7, 13));
}

#[test]
fn new_puts_the_sign_on_the_numerator() {
    assert_eq!(pair(Fraction::new(2, -6)), (-1, 3));
    assert_eq!(pair(Fraction::new(-2, -6)), (1, 3));
    assert_eq!(pair(Fraction::new(-2, 6)), (-1, 3));
}

#[test]
fn zero_denominator_gives_the_undefined_value() {
    assert_eq!(pair(Fraction::new(5, 0)), (1, 0));
    assert_eq!(pair(Fraction::new(-5, 0)), (1, 0));
    assert_eq!(pair(Fraction::new(0, 0)), (1, 0));
}

#[test]
fn zero_numerator_gives_zero_over_one() {
    assert_eq!(pair(Fraction::new(0, -7)), (0, 1));
    assert_eq!(pair(Fraction::new(0, 12)), (0, 1));
}

#[test]
fn normalized_fractions_have_positive_coprime_denominators() {
    for n in -30i128..=30 {
        for d in -30i128..=30 {
            let f = Fraction::new(n, d);
            if d == 0 {
                assert_eq!(pair(f), (1, 0));
            } else {
                assert!(f.den() > 0);
                assert_eq!(gcd(f.num(), f.den()), 1);
                assert_eq!(f.num() * d, n * f.den());
            }
        }
    }
}

#[test]
fn normalizing_a_canonical_fraction_changes_nothing() {
    for n in -20i128..=20 {
        for d in -20i128..=20 {
            let f = Fraction::new(n, d);
            assert_eq!(Fraction::new(f.num(), f.den()), f);
        }
    }
}

#[test]
fn extreme_values() {
    assert!(Fraction::checked_new(i128::MIN, -1).is_none());
    assert!(Fraction::checked_new(1, i128::MIN).is_none());
    assert_eq!(pair(Fraction::new(i128::MIN, 2)), (i128::MIN / 2, 1));
    assert_eq!(pair(Fraction::new(i128::MIN, i128::MIN)), (1, 1));
    assert_eq!(pair(Fraction::new(i128::MAX, -1)), (-i128::MAX, 1));
}

#[test]
fn addition_is_exact() {
    assert_eq!(pair(Fraction::new(1, 2).add(Fraction::new(3, 4))), (5, 4));
    assert_eq!(pair(Fraction::new(1, 2).add(Fraction::new(1, 3))), (5, 6));
    assert_eq!(pair(Fraction::new(1, 6).add(Fraction::new(1, 3))), (1, 2));
    assert_eq!(pair(Fraction::new(1, 2).add(Fraction::new(-1, 2))), (0, 1));
    for a in -6i128..=6 {
        for b in 1i128..=6 {
            for c in -6i128..=6 {
                for d in 1i128..=6 {
                    let x = Fraction::new(a, b);
                    let y = Fraction::new(c, d);
                    let s = x.add(y);
                    assert_eq!(s.num() * (b * d), (a * d + c * b) * s.den());
                    assert_eq!(gcd(s.num(), s.den()), 1);
                    let exact = a as f64 / b as f64 + c as f64 / d as f64;
                    assert!((to_f64(s) - exact).abs() < 1e-9);
                }
            }
        }
    }
}

#[test]
fn subtraction_multiplication_division() {
    assert_eq!(pair(Fraction::new(3, 4).sub(Fraction::new(1, 4))), (1, 2));
    assert_eq!(pair(Fraction::new(1, 3).sub(Fraction::new(1, 2))), (-1, 6));
    assert_eq!(pair(Fraction::new(2, 3).mul(Fraction::new(9, 4))), (3, 2));
    assert_eq!(pair(Fraction::new(-2, 3).mul(Fraction::new(3, 2))), (-1, 1));
    assert_eq!(pair(Fraction::new(3, 4).div(Fraction::new(1, 2))), (3, 2));
    assert_eq!(pair(Fraction::new(1, 2).div(Fraction::new(-1, 4))), (-2, 1));
}

#[test]
fn remainder_of_synced_numerators() {
    assert_eq!(pair(Fraction::new(7, 2).rem(Fraction::from(1))), (1, 2));
    assert_eq!(pair(Fraction::new(-7, 2).rem(Fraction::from(1))), (-1, 2));
    assert_eq!(pair(Fraction::new(3, 4).rem(Fraction::new(1, 2))), (1, 4));
    assert!(Fraction::new(1, 2).checked_rem(Fraction::from(0)).is_none());
}

#[test]
fn division_by_zero_gives_the_undefined_value() {
    assert_eq!(pair(Fraction::new(1, 2).div(Fraction::from(0))), (1, 0));
    let undefined = Fraction::new(1, 0);
    assert_eq!(pair(undefined.add(Fraction::new(1, 2))), (1, 0));
    assert_eq!(pair(undefined.mul(Fraction::new(1, 2))), (1, 0));
}

#[test]
fn overflow_is_reported_by_the_checked_operations() {
    let big = Fraction::from(i128::MAX);
    assert!(big.checked_add(Fraction::from(1)).is_none());
    assert!(big.checked_sub(Fraction::from(-1)).is_none());
    assert!(big.checked_mul(Fraction::from(2)).is_none());
    assert!(Fraction::new(1, i128::MAX).checked_add(Fraction::new(1, 2)).is_none());
    assert!(Fraction::from(1).checked_div(Fraction::from(i128::MIN)).is_none());
    assert_eq!(big.checked_add(Fraction::from(-1)), Some(Fraction::from(i128::MAX - 1)));
}

#[test]
fn integers_convert_back_to_the_same_float() {
    for k in [-1_000_000i128, -5, 0, 1, 7, 1 << 40] {
        let f = Fraction::from(k);
        assert_eq!(pair(f), (k, 1));
        assert_eq!(to_f64(f), k as f64);
    }
}

#[test]
fn float_text_converts_exactly() {
    let f = Fraction::from_decimal_str(&format!("{}", 0.123f64));
    assert_eq!(f, Ok(Fraction::new(123, 1000)));
    let g = Fraction::from_decimal_str(&format!("{}", -2.5f64));
    assert_eq!(g, Ok(Fraction::new(-5, 2)));
    assert_eq!(Fraction::from_decimal_str("0.50"), Ok(Fraction::new(1, 2)));
    assert_eq!(Fraction::from_decimal_str("-0"), Ok(Fraction::from(0)));
    assert_eq!(Fraction::from_decimal_str("42"), Ok(Fraction::from(42)));
}

#[test]
fn float_text_beyond_the_range_fails() {
    let too_big = format!("{}", i128::MAX as f64 * 1.5);
    assert_eq!(Fraction::from_decimal_str(&too_big), Err(ConversionError::OutOfRange));
    let too_big_frac = format!("{}", i128::MAX as f64 * 1.5 + 0.12345);
    assert_eq!(Fraction::from_decimal_str(&too_big_frac), Err(ConversionError::OutOfRange));
    let negative = format!("{}", -(i128::MAX as f64) * 1.5);
    assert_eq!(Fraction::from_decimal_str(&negative), Err(ConversionError::OutOfRange));
    let tiny = format!("{}", 1e-40f64);
    assert_eq!(Fraction::from_decimal_str(&tiny), Err(ConversionError::OutOfRange));
    let max = format!("{}", i128::MAX);
    assert_eq!(Fraction::from_decimal_str(&max), Ok(Fraction::from(i128::MAX)));
}

#[test]
fn text_that_is_not_a_decimal_fails() {
    for s in ["NaN", "inf", "-inf", "", "-", "1.", ".5", "1.2.3", "1e5", "+1", "--1", "1 "] {
        assert_eq!(Fraction::from_decimal_str(s), Err(ConversionError::NotADecimal), "{}", s);
    }
    assert_eq!(Fraction::from_decimal_str(&format!("{}", f64::NAN)), Err(ConversionError::NotADecimal));
    assert_eq!(Fraction::from_decimal_str(&format!("{}", f64::INFINITY)), Err(ConversionError::NotADecimal));
}

#[test]
fn order_matches_float_order() {
    let mut values = Vec::new();
    for n in -12i128..=12 {
        for d in 1i128..=12 {
            values.push(Fraction::new(n, d));
        }
    }
    for a in &values {
        for b in &values {
            assert_eq!(a < b, to_f64(*a) < to_f64(*b), "{:?} {:?}", a, b);
            assert_eq!(a > b, to_f64(*a) > to_f64(*b), "{:?} {:?}", a, b);
            assert_eq!(a == b, to_f64(*a) == to_f64(*b), "{:?} {:?}", a, b);
            assert_eq!(a.partial_cmp(b), to_f64(*a).partial_cmp(&to_f64(*b)));
        }
    }
}

#[test]
fn order_is_the_order_of_values() {
    assert!(Fraction::new(1, 3) < Fraction::new(1, 2));
    assert!(Fraction::new(2, 5) < Fraction::new(1, 2));
    assert!(Fraction::new(2, 3) < Fraction::new(1, 1));
    assert!(Fraction::new(-1, 2) < Fraction::new(-1, 3));
    assert!(Fraction::new(-1, 2) < Fraction::new(0, 1));
    assert_eq!(Fraction::new(2, 4), Fraction::new(1, 2));
    assert_ne!(Fraction::new(1, 2), Fraction::new(1, 3));
}

#[test]
fn order_of_extreme_values() {
    let max = Fraction::from(i128::MAX);
    let min = Fraction::from(i128::MIN);
    let near = Fraction::new(i128::MAX - 1, i128::MAX);
    let nearer = Fraction::new(i128::MAX - 2, i128::MAX - 1);
    assert!(min < max);
    assert!(nearer < near);
    assert!(near < Fraction::from(1));
    assert!(Fraction::new(-(i128::MAX - 1), i128::MAX) < Fraction::new(-(i128::MAX - 2), i128::MAX - 1));
}

#[test]
fn division_by_zero_value_orders_after_every_other_value() {
    let undefined = Fraction::new(1, 0);
    assert!(Fraction::from(i128::MAX) < undefined);
    assert!(Fraction::new(-3, 4) < undefined);
    assert!(undefined > Fraction::from(0));
    assert_eq!(undefined.partial_cmp(&Fraction::new(5, 0)), Some(std::cmp::Ordering::Equal));
}

#[test]
fn text_of_fractions() {
    assert_eq!(Fraction::new(1, 2).to_string(), "0.5");
    assert_eq!(Fraction::new(1, 3).to_string(), "1/3");
    assert_eq!(Fraction::new(2, -6).to_string(), "-1/3");
    assert_eq!(Fraction::from(10).to_string(), "10");
    assert_eq!(Fraction::new(1, 4).to_string(), "0.25");
    assert_eq!(Fraction::new(-1, 2).to_string(), "-0.5");
    assert_eq!(Fraction::new(-7, 4).to_string(), "-1.75");
    assert_eq!(Fraction::new(1, 8).to_string(), "1/8");
    assert_eq!(Fraction::new(5, 4).add(Fraction::new(0, 1)).to_string(), "1.25");
    assert_eq!(Fraction::new(1, 0).to_string(), "inf");
    assert_eq!(Fraction::new(1, 8).to_string_with_places(3), "0.125");
    assert_eq!(Fraction::new(1, 20).to_string_with_places(0), "1/20");
    assert_eq!(Fraction::from(-3).to_string_with_places(0), "-3");
    assert_eq!(DECIMAL_PLACES, 2);
    assert_eq!(Fraction::from((1i128 << 60) + 1).to_string(), "1152921504606846977");
}

#[test]
fn quotient_minus_fraction_reads_zero() {
    let r = Fraction::new(3, 4).div(Fraction::new(1, 2)).sub(Fraction::new(3, 2));
    assert_eq!(pair(r), (0, 1));
    assert_eq!(r.to_string(), "0");
}

#[test]
fn sum_of_half_and_three_quarters_reads_decimal() {
    assert_eq!(Fraction::new(1, 2).add(Fraction::new(3, 4)).to_string(), "1.25");
}
