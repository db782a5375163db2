//! Comparison, addition, subtraction and schoolbook multiplication of
//! `Bignum` values.
use vstd::prelude::*;
use std::cmp::Ordering;
use crate::digits::{
    add_digits, copy_digits, digits_below, is_trimmed, lemma_first_difference,
    lemma_longer_is_larger, lemma_value_zero_all, mul_digits, sub_digits,
};
use crate::types::{
    canonical, lemma_canonical, magnitude, Bignum, Sign,
    BASE,
};

verus! {

/// `Less`, `Equal` or `Greater` as `x` is below, at or above `y`.
pub open spec fn order_of(x: int, y: int) -> Ordering {
    if x < y {
        Ordering::Less
    } else if x == y {
        Ordering::Equal
    } else {
        Ordering::Greater
    }
}

/// Rank of a sign in the order of values: `Negative` below `Nonnegative`.
pub open spec fn sign_rank(s: Sign) -> int {
    match s {
        Sign::Nonnegative => 1,
        Sign::Negative => 0,
    }
}

impl Bignum {
    /// Whether every digit is zero.
    fn is_zero(&self) -> (r: bool)
        ensures
            r == (magnitude(self.parts@) == 0),
    {
        proof {
            lemma_value_zero_all(self.parts@, BASE as nat);
        }
        let mut i: usize = 0;
        while i < self.parts.len()
            invariant
                i <= self.parts.len(),
                forall|j: int| 0 <= j < i ==> #[trigger] self.parts@[j] == 0,
            decreases self.parts.len() - i,
        {
            if self.parts[i] != 0 {
                proof {
                    lemma_value_zero_all(self.parts@, BASE as nat);
                    assert(self.parts@[i as int] != 0);
                }
                return false;
            }
            i += 1;
        }
        true
    }

    /// Orders the two signs, `Negative` below `Nonnegative`.
    fn cmp_sign(&self, other: &Bignum) -> (r: Ordering)
        ensures
            r == order_of(sign_rank(self.sign), sign_rank(other.sign)),
    {
        match (self.sign, other.sign) {
            (Sign::Nonnegative, Sign::Negative) => Ordering::Greater,
            (Sign::Negative, Sign::Nonnegative) => Ordering::Less,
            _ => Ordering::Equal,
        }
    }

    /// Orders the magnitudes, reversed when `self` is negative.
    fn cmp_parts(&self, other: &Bignum) -> (r: Ordering)
        requires
            digits_below(self.parts@, BASE as nat),
            digits_below(other.parts@, BASE as nat),
            is_trimmed(self.parts@),
            is_trimmed(other.parts@),
        ensures
            r == match self.sign {
                Sign::Nonnegative => order_of(
                    magnitude(self.parts@) as int,
                    magnitude(other.parts@) as int,
                ),
                Sign::Negative => order_of(
                    magnitude(other.parts@) as int,
                    magnitude(self.parts@) as int,
                ),
            },
    {
        let (left, right) = match self.sign {
            Sign::Nonnegative => (Ordering::Greater, Ordering::Less),
            Sign::Negative => (Ordering::Less, Ordering::Greater),
        };
        let ghost s = self.parts@;
        let ghost t = other.parts@;
        let p = self.parts.len();
        let q = other.parts.len();
        if p > q {
            proof {
                lemma_longer_is_larger(s, t, BASE as nat);
            }
            return left;
        } else if p < q {
            proof {
                lemma_longer_is_larger(t, s, BASE as nat);
            }
            return right;
        }
        let mut i: usize = p;
        while i > 0
            invariant
                i <= p,
                p == s.len(),
                p == t.len(),
                s == self.parts@,
                t == other.parts@,
                digits_below(s, BASE as nat),
                digits_below(t, BASE as nat),
                left == (match self.sign {
                    Sign::Nonnegative => Ordering::Greater,
                    Sign::Negative => Ordering::Less,
                }),
                right == (match self.sign {
                    Sign::Nonnegative => Ordering::Less,
                    Sign::Negative => Ordering::Greater,
                }),
                forall|j: int| i <= j < p ==> s[j] == t[j],
            decreases i,
        {
            i -= 1;
            let self_digit = self.parts[i];
            let other_digit = other.parts[i];
            if self_digit > other_digit {
                proof {
                    lemma_first_difference(s, t, i as int, BASE as nat);
                }
                return left;
            } else if self_digit < other_digit {
                proof {
                    lemma_first_difference(t, s, i as int, BASE as nat);
                }
                return right;
            }
        }
        assert(s =~= t);
        Ordering::Equal
    }

    /// Orders two values as the integers they denote.
    pub fn cmp(&self, other: &Bignum) -> (r: Ordering)
        requires
            self.wf(),
            other.wf(),
        ensures
            r == order_of(self.value(), other.value()),
    {
        if self.is_zero() && other.is_zero() {
            return Ordering::Equal;
        }
        proof {
            crate::digits::lemma_value_zero_iff(self.parts@, BASE as nat);
            crate::digits::lemma_value_zero_iff(other.parts@, BASE as nat);
            if self.parts@.len() == 1 && self.parts@[0] == 0 {
                assert(self.parts@ =~= seq![0u32]);
            }
            if other.parts@.len() == 1 && other.parts@[0] == 0 {
                assert(other.parts@ =~= seq![0u32]);
            }
        }
        let sign_order = self.cmp_sign(other);
        match sign_order {
            Ordering::Equal => self.cmp_parts(other),
            _ => sign_order,
        }
    }
}

/// The sum `a + b`.
pub fn bignum_add(a: &Bignum, b: &Bignum) -> (sum: Bignum)
    requires
        a.wf(),
        b.wf(),
        a.parts.len() < usize::MAX,
        b.parts.len() < usize::MAX,
    ensures
        sum@ == canonical(a.value() + b.value()),
        sum.wf(),
{
    proof {
        lemma_canonical(a.value() + b.value());
    }
    let parts_ord = a.cmp_parts(b);
    let should_sub = a.sign != b.sign;
    if !should_sub {
        let parts = add_digits(&a.parts, &b.parts, BASE);
        let mut sum = Bignum { parts, sign: a.sign };
        sum.normalize();
        sum
    } else {
        let a_smaller = match (a.sign, parts_ord) {
            (Sign::Nonnegative, Ordering::Less) => true,
            (Sign::Negative, Ordering::Greater) => true,
            _ => false,
        };
        let (big, small) = if a_smaller {
            (b, a)
        } else {
            (a, b)
        };
        proof {
            if small.parts@.len() > big.parts@.len() {
                lemma_longer_is_larger(small.parts@, big.parts@, BASE as nat);
            }
        }
        let parts = sub_digits(&big.parts, &small.parts, BASE);
        let mut sum = Bignum { parts, sign: big.sign };
        sum.normalize();
        sum
    }
}

/// The difference `a - b`: `a` plus `b` with its sign flipped, zero staying
/// `Nonnegative`.
pub fn bignum_sub(a: &Bignum, b: &Bignum) -> (diff: Bignum)
    requires
        a.wf(),
        b.wf(),
        a.parts.len() < usize::MAX,
        b.parts.len() < usize::MAX,
    ensures
        diff@ == canonical(a.value() - b.value()),
        diff.wf(),
{
    let zero = b.is_zero();
    let neg_b = Bignum {
        sign: match b.sign {
            Sign::Negative => Sign::Nonnegative,
            Sign::Nonnegative => if zero {
                Sign::Nonnegative
            } else {
                Sign::Negative
            },
        },
        parts: copy_digits(&b.parts, 0, b.parts.len()),
    };
    proof {
        assert(b.parts@.subrange(0, b.parts@.len() as int) =~= b.parts@);
        crate::digits::lemma_value_zero_iff(b.parts@, BASE as nat);
        if b.parts@.len() == 1 && b.parts@[0] == 0 {
            assert(b.parts@ =~= seq![0u32]);
        }
    }
    bignum_add(a, &neg_b)
}

/// The product `a * b`, digit by digit.
pub fn bignum_long_mult(a: &Bignum, b: &Bignum) -> (product: Bignum)
    requires
        a.wf(),
        b.wf(),
        a.parts.len() + b.parts.len() <= usize::MAX,
    ensures
        product@ == canonical(a.value() * b.value()),
        product.wf(),
{
    proof {
        lemma_canonical(a.value() * b.value());
    }
    let parts = mul_digits(&a.parts, &b.parts, BASE);
    let sign = match (a.sign, b.sign) {
        (Sign::Nonnegative, Sign::Nonnegative) => Sign::Nonnegative,
        (Sign::Nonnegative, Sign::Negative) => Sign::Negative,
        (Sign::Negative, Sign::Nonnegative) => Sign::Negative,
        (Sign::Negative, Sign::Negative) => Sign::Nonnegative,
    };
    let mut product = Bignum { parts, sign };
    proof {
        let x = magnitude(a.parts@) as int;
        let y = magnitude(b.parts@) as int;
        assert((-x) * y == -(x * y)) by (nonlinear_arith);
        assert(x * (-y) == -(x * y)) by (nonlinear_arith);
        assert((-x) * (-y) == x * y) by (nonlinear_arith);
    }
    product.normalize();
    product
}

} // verus!
