//! Laws that relate the operations to one another, stated over the models
//! their contracts use and proved from those contracts.
use vstd::prelude::*;
use std::cmp::Ordering;
use crate::basic_ops::order_of;
use crate::decimal::{
    decimal_value, is_canonical_numeral, is_numeral, lemma_numeral_round_trip,
    numeral_body, numeral_value, signed_text, text_digits,
};
use crate::digits::{lemma_longer_is_larger, lemma_value_zeros};
use crate::types::{
    canonical, is_canonical, lemma_canonical, lemma_canonical_unique, signed_value,
    Bignum, Sign, BASE,
};

verus! {

/// Parsing a canonical numeral and formatting the result gives the numeral
/// back: `from_string` accepts it, and `to_string` of the value it returns
/// is the same text.
pub proof fn lemma_parse_format_round_trip(s: Seq<char>)
    requires
        is_canonical_numeral(s),
    ensures
        is_numeral(s),
        signed_text(signed_value(canonical(numeral_value(s)))) == s,
{
    lemma_canonical(numeral_value(s));
    lemma_numeral_round_trip(s);
}

/// Every numeral of zero, with or without `-` and with any number of zero
/// digits, parses to the canonical zero; so does the difference of any value
/// and itself, and all of these compare equal.
pub proof fn lemma_zero_numerals(s: Seq<char>, x: Bignum)
    requires
        is_numeral(s),
        forall|i: int| 0 <= i < numeral_body(s).len() ==> #[trigger] numeral_body(s)[i] == '0',
        x.wf(),
    ensures
        canonical(numeral_value(s)) == canonical(0),
        canonical(x.value() - x.value()) == canonical(0),
        canonical(0) == (Sign::Nonnegative, seq![0u32]),
        order_of(signed_value(canonical(numeral_value(s))), signed_value(canonical(x.value() - x.value())))
            == Ordering::Equal,
{
    let body = numeral_body(s);
    let d = text_digits(body);
    assert forall|i: int| 0 <= i < d.len() implies #[trigger] d[i] == 0 by {
        assert(body[body.len() - 1 - i] == '0');
    }
    lemma_value_zeros(d, 10);
    assert(decimal_value(body) == 0);
    if s.len() > 0 && s[0] == '-' {
        assert(numeral_value(s) == 0);
    }
    lemma_canonical(0);
    lemma_canonical_unique((Sign::Nonnegative, seq![0u32]));
    crate::digits::lemma_value_single(seq![0u32], BASE as nat);
}

/// Addition and schoolbook multiplication are commutative: the canonical
/// results for `(a, b)` and `(b, a)` are the same, digit for digit.
pub proof fn lemma_commutative(a: Bignum, b: Bignum)
    requires
        a.wf(),
        b.wf(),
    ensures
        canonical(a.value() + b.value()) == canonical(b.value() + a.value()),
        canonical(a.value() * b.value()) == canonical(b.value() * a.value()),
{
    assert(a.value() * b.value() == b.value() * a.value()) by (nonlinear_arith);
}

/// Schoolbook and Karatsuba multiplication agree: with a cutoff of at least
/// two, Karatsuba (sequential or parallel) succeeds, and both give the one
/// canonical value that denotes `a * b`; any canonical value denoting that
/// product is it, digit for digit.
pub proof fn lemma_multiplications_agree(a: Bignum, b: Bignum, cutoff: usize, r: Bignum)
    requires
        a.wf(),
        b.wf(),
        cutoff >= 2,
        r.wf(),
        r.value() == a.value() * b.value(),
    ensures
        !(cutoff < 2),
        is_canonical(canonical(a.value() * b.value())),
        signed_value(canonical(a.value() * b.value())) == a.value() * b.value(),
        r@ == canonical(a.value() * b.value()),
{
    lemma_canonical(a.value() * b.value());
    lemma_canonical_unique(r@);
}

/// Adding the negation of a value to it gives zero: `a + (0 - a)` is the
/// canonical zero.
pub proof fn lemma_additive_inverse(a: Bignum)
    requires
        a.wf(),
    ensures
        canonical(a.value() + signed_value(canonical(signed_value(canonical(0)) - a.value())))
            == canonical(0),
{
    lemma_canonical(0);
    lemma_canonical(signed_value(canonical(0)) - a.value());
}

/// Comparison is a total order on values: antisymmetric, with `Equal` only
/// for identical canonical values, and transitive.
pub proof fn lemma_compare_total_order(a: Bignum, b: Bignum, c: Bignum)
    requires
        a.wf(),
        b.wf(),
        c.wf(),
    ensures
        order_of(a.value(), b.value()) == Ordering::Less <==> order_of(b.value(), a.value())
            == Ordering::Greater,
        order_of(a.value(), b.value()) == Ordering::Equal <==> a@ == b@,
        order_of(a.value(), a.value()) == Ordering::Equal,
        order_of(a.value(), b.value()) == Ordering::Less && order_of(b.value(), c.value())
            == Ordering::Less ==> order_of(a.value(), c.value()) == Ordering::Less,
        order_of(a.value(), b.value()) == Ordering::Equal && order_of(b.value(), c.value())
            == Ordering::Equal ==> order_of(a.value(), c.value()) == Ordering::Equal,
        order_of(a.value(), b.value()) == Ordering::Greater && order_of(b.value(), c.value())
            == Ordering::Greater ==> order_of(a.value(), c.value()) == Ordering::Greater,
{
    lemma_canonical_unique(a@);
    lemma_canonical_unique(b@);
}

/// Comparison agrees with signs and magnitudes: a negative value is below a
/// nonnegative one; of two nonnegative values the one with more digits is
/// larger, and of two negative values the one with more digits is smaller.
pub proof fn lemma_compare_sign_magnitude(a: Bignum, b: Bignum)
    requires
        a.wf(),
        b.wf(),
    ensures
        a.sign == Sign::Negative && b.sign == Sign::Nonnegative ==> order_of(a.value(), b.value())
            == Ordering::Less,
        a.sign == Sign::Nonnegative && b.sign == Sign::Nonnegative && a.parts.len()
            > b.parts.len() ==> order_of(a.value(), b.value()) == Ordering::Greater,
        a.sign == Sign::Negative && b.sign == Sign::Negative && a.parts.len() > b.parts.len()
            ==> order_of(a.value(), b.value()) == Ordering::Less,
{
    crate::digits::lemma_value_zero_iff(a.parts@, BASE as nat);
    if a.parts@.len() == 1 && a.parts@[0] == 0 {
        assert(a.parts@ =~= seq![0u32]);
    }
    if a.parts.len() > b.parts.len() {
        lemma_longer_is_larger(a.parts@, b.parts@, BASE as nat);
    }
}

} // verus!
