use bignum::basic_ops::bignum_long_mult;
use bignum::karatsuba::bignum_karatsuba_mult;
use bignum::types::{Bignum, Sign};

#[test]
fn regression_test_1() {
    let b1 = Bignum {
        sign: Sign::Nonnegative,
        parts: vec!(0, 0, 0, 0, 1),
    };
    let b2 = Bignum {
        sign: Sign::Negative,
        parts: vec!(0, 0, 0, 0, 0, 0, 0, 0, 1)
    };

    let long_mult = bignum_long_mult(&b1, &b2);
    let karatsuba_mult = bignum_karatsuba_mult(&b1, &b2, 4, true).unwrap();
    assert_eq!(long_mult, karatsuba_mult);
}
