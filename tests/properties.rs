use bignum::decimal::{char_to_digit, digit_to_char};
use bignum::basic_ops::{bignum_add, bignum_long_mult, bignum_sub};
use bignum::karatsuba::bignum_karatsuba_mult;
use bignum::types::{from_string, string_add, string_mult, Bignum, Sign, BASE};
use std::cmp::Ordering;

fn big(s: &str) -> Bignum {
    from_string(s).unwrap()
}

/// A deterministic stream of pseudo-random numbers.
struct Lcg(u64);

impl Lcg {
    fn next(&mut self) -> u64 {
        self.0 = self.0.wrapping_mul(6364136223846793005).wrapping_add(1442695040888963407);
        self.0 >> 33
    }

    fn bignum(&mut self) -> Bignum {
        let len = (self.next() % 14) as usize + 1;
        let mut parts: Vec<u32> = (0..len).map(|_| (self.next() % BASE as u64) as u32).collect();
        if self.next() % 4 == 0 {
            for p in parts.iter_mut().take(len / 2) {
                *p = 0;
            }
        }
        while parts.len() > 1 && *parts.last().unwrap() == 0 {
            parts.pop();
        }
        if *parts.last().unwrap() == 0 {
            return Bignum { parts, sign: Sign::Nonnegative };
        }
        let sign = if self.next() % 2 == 0 { Sign::Nonnegative } else { Sign::Negative };
        Bignum { parts, sign }
    }
}

#[test]
fn scenario_add_and_subtract() {
    assert_eq!(bignum_add(&big("123"), &big("123")).to_string(), "246");
    assert_eq!(bignum_add(&big("123"), &big("10000")).to_string(), "10123");
    assert_eq!(bignum_sub(&big("123"), &big("10000")).to_string(), "-9877");
}

#[test]
fn scenario_schoolbook() {
    assert_eq!(
        bignum_long_mult(&big("123456789"), &big("987654321")).to_string(),
        "121932631112635269"
    );
}

#[test]
fn scenario_karatsuba_sequential() {
    let r = bignum_karatsuba_mult(&big("1234567891"), &big("9876543219"), 4, false).unwrap();
    assert_eq!(r.to_string(), "12193263132251181129");
}

#[test]
fn scenario_karatsuba_parallel() {
    let a = big("3124679846169848946416687981");
    let b = big("4864789415649194764186476");
    let r = bignum_karatsuba_mult(&a, &b, 4, true).unwrap();
    assert_eq!(r.to_string(), "15200909442939435242569275059005520266618929791944956");
    assert_eq!(r, bignum_long_mult(&a, &b));
}

#[test]
fn karatsuba_recurses_with_small_cutoff() {
    let a = big("-98765432109876543210987654321098765432109876543210");
    let b = big("12345678901234567890123456789012345678901234567890123456789");
    let expected = bignum_long_mult(&a, &b);
    assert_eq!(expected.sign, Sign::Negative);
    for cutoff in 2..6 {
        assert_eq!(bignum_karatsuba_mult(&a, &b, cutoff, false).unwrap(), expected);
        assert_eq!(bignum_karatsuba_mult(&a, &b, cutoff, true).unwrap(), expected);
    }
}

#[test]
fn karatsuba_rejects_small_cutoff() {
    let a = big("12345678901234567890");
    assert!(bignum_karatsuba_mult(&a, &a, 0, false).is_err());
    assert!(bignum_karatsuba_mult(&a, &a, 1, true).is_err());
    assert!(bignum_karatsuba_mult(&a, &a, 2, true).is_ok());
}

#[test]
fn round_trip_of_canonical_numerals() {
    for s in ["0", "7", "-7", "1999999999", "2000000000", "-2000000001", "4000000000000000000",
              "100000000000000000000000000000000000", "-123456789012345678901234567890"] {
        assert_eq!(big(s).to_string(), s);
    }
}

#[test]
fn zero_is_canonical() {
    let zero = big("0");
    assert_eq!(zero.parts, vec![0]);
    assert_eq!(zero.sign, Sign::Nonnegative);
    for s in ["-0", "-000", "000"] {
        let z = big(s);
        assert_eq!(z, zero);
        assert_eq!(z.cmp(&zero), Ordering::Equal);
        assert_eq!(z.to_string(), "0");
    }
    let x = big("-31415926535897932384626");
    let d = bignum_sub(&x, &x);
    assert_eq!(d, zero);
    assert_eq!(d.cmp(&big("-0")), Ordering::Equal);
}

#[test]
fn leading_zeros_are_skipped() {
    assert_eq!(big("-000123").to_string(), "-123");
    assert_eq!(big("0002000000000").parts, vec![0, 1]);
}

#[test]
fn parse_rejects_malformed_text() {
    for s in ["", "-", "--1", "+5", "12a", " 1", "1 ", "1.5", "١٢"] {
        assert!(from_string(s).is_err(), "accepted {:?}", s);
    }
}

#[test]
fn addition_commutes_and_inverts() {
    let mut rng = Lcg(7);
    let zero = big("0");
    for _ in 0..200 {
        let a = rng.bignum();
        let b = rng.bignum();
        assert_eq!(bignum_add(&a, &b), bignum_add(&b, &a));
        assert_eq!(bignum_long_mult(&a, &b), bignum_long_mult(&b, &a));
        assert_eq!(bignum_add(&a, &bignum_sub(&zero, &a)), zero);
        assert_eq!(bignum_sub(&bignum_add(&a, &b), &b), a);
    }
}

#[test]
fn multiplication_strategies_agree() {
    let mut rng = Lcg(11);
    for i in 0..150 {
        let a = rng.bignum();
        let b = rng.bignum();
        let cutoff = 2 + i % 4;
        let school = bignum_long_mult(&a, &b);
        assert_eq!(bignum_karatsuba_mult(&a, &b, cutoff, false).unwrap(), school);
        assert_eq!(bignum_karatsuba_mult(&a, &b, cutoff, true).unwrap(), school);
    }
}

#[test]
fn sums_of_negatives_stay_negative() {
    assert_eq!(bignum_add(&big("-2"), &big("-3")).to_string(), "-5");
    assert_eq!(bignum_sub(&big("-2"), &big("3")).to_string(), "-5");
    assert_eq!(bignum_sub(&big("-2"), &big("-3")).to_string(), "1");
    assert_eq!(bignum_add(&big("-1999999999"), &big("-1")).to_string(), "-2000000000");
}

#[test]
fn carries_cross_digit_boundaries() {
    let r = bignum_add(&big("1999999999"), &big("1"));
    assert_eq!(r.parts, vec![0, 1]);
    let r = bignum_sub(&big("2000000000"), &big("1"));
    assert_eq!(r.parts, vec![1999999999]);
    let r = bignum_long_mult(&big("1999999999"), &big("1999999999"));
    assert_eq!(r.to_string(), "3999999996000000001");
    assert_eq!(r.parts, vec![1, 1999999998]);
}

#[test]
fn compare_orders_by_value() {
    let values = ["-400000000000000000000", "-2000000000", "-1999999999", "-5", "0", "3",
                  "1999999999", "2000000000", "400000000000000000000"];
    for (i, x) in values.iter().enumerate() {
        for (j, y) in values.iter().enumerate() {
            let a = big(x);
            let b = big(y);
            assert_eq!(a.cmp(&b), i.cmp(&j), "{} vs {}", x, y);
            assert_eq!(a.cmp(&b), b.cmp(&a).reverse());
        }
    }
}

#[test]
fn string_add_keeps_width_and_carries() {
    assert_eq!(string_add("999", "1"), "1000");
    assert_eq!(string_add("007", "5"), "012");
    assert_eq!(string_add("", ""), "");
}

#[test]
fn string_mult_trims_leading_zeros() {
    assert_eq!(string_mult("000", "12"), "0");
    assert_eq!(string_mult("010", "0012"), "120");
    assert_eq!(string_mult("2000000000", "2000000000"), "4000000000000000000");
}

#[test]
fn shift_multiplies_by_base_powers() {
    let mut b = big("-7");
    bignum::types::shift_left(&mut b, 2);
    assert_eq!(b.parts, vec![0, 0, 7]);
    assert_eq!(b.to_string(), "-28000000000000000000");
}

#[test]
fn normalize_trims_and_fixes_zero_sign() {
    let mut b = Bignum { parts: vec![5, 0, 0], sign: Sign::Negative };
    b.normalize();
    assert_eq!(b.parts, vec![5]);
    assert_eq!(b.sign, Sign::Negative);
    let mut z = Bignum { parts: vec![0, 0], sign: Sign::Negative };
    z.normalize();
    assert_eq!(z, big("0"));
    let mut e = Bignum { parts: vec![], sign: Sign::Nonnegative };
    e.normalize();
    assert_eq!(e, big("0"));
}

#[test]
fn decimal_digit_conversions() {
    for d in 0..10u32 {
        let c = digit_to_char(d);
        assert_eq!(c, char::from_digit(d, 10).unwrap());
        assert_eq!(char_to_digit(c), d);
    }
}
