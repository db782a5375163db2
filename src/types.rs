//! The signed big integer, its canonical form, and its conversion from and
//! to decimal text.
use vstd::prelude::*;
use crate::decimal::{
    all_digit_chars, char_digit, char_to_digit, decimal_text, decimal_value, digits_to_string,
    is_digit_char, is_numeral, lemma_digits_text, lemma_text_digits,
    numeral_body, numeral_value, signed_text, text_digits, text_to_digits, u32_to_digits,
};
use crate::digits::{
    add_digits, copy_digits, digits_below, is_trimmed, lemma_digits_below_subrange, lemma_len_from_bound,
    lemma_pow_adds, lemma_radix_digits, lemma_radix_digits_unique,
    lemma_trimmed, lemma_value_bound, lemma_value_push, lemma_value_shift, lemma_value_single,
    lemma_value_zero_iff, max_nat, mul_digits, radix_digits, radix_pow, radix_value, trim_digits,
    trimmed, zero_digits,
};

verus! {

/// Radix of a `Bignum`'s digits. Twice a digit plus a carry fits a `u32`,
/// and the square of a digit plus two digits fits a `u64`.
pub const BASE: u32 = 2000000000;

/// `BASE` written in decimal.
pub const BASE_STR: &'static str = "2000000000";

/// Sign of a `Bignum`; zero is always `Nonnegative`.
#[derive(Debug, Clone, Copy, PartialEq, Eq, Structural)]
pub enum Sign {
    Nonnegative,
    Negative,
}

/// A signed integer of any size: `parts` holds its magnitude as
/// little-endian digits in radix `BASE`.
#[derive(Debug, Clone, PartialEq, Eq)]
pub struct Bignum {
    pub parts: Vec<u32>,
    pub sign: Sign,
}

/// Text that is not an optional `-` followed by one or more decimal digits.
#[derive(Debug)]
pub struct ParseBignumError;

impl View for Bignum {
    type V = (Sign, Seq<u32>);

    open spec fn view(&self) -> (Sign, Seq<u32>) {
        (self.sign, self.parts@)
    }
}

/// The magnitude that little-endian radix-`BASE` digits denote.
pub open spec fn magnitude(s: Seq<u32>) -> nat {
    radix_value(s, BASE as nat)
}

/// The integer that a sign and a digit sequence denote.
pub open spec fn signed_value(x: (Sign, Seq<u32>)) -> int {
    match x.0 {
        Sign::Nonnegative => magnitude(x.1) as int,
        Sign::Negative => -(magnitude(x.1) as int),
    }
}

/// Digits in range, no most-significant zero digit, and zero written as the
/// single digit zero with sign `Nonnegative`.
pub open spec fn is_canonical(x: (Sign, Seq<u32>)) -> bool {
    &&& digits_below(x.1, BASE as nat)
    &&& is_trimmed(x.1)
    &&& (x.1 == seq![0u32] ==> x.0 == Sign::Nonnegative)
}

/// The canonical sign and digits of `v`.
pub open spec fn canonical(v: int) -> (Sign, Seq<u32>) {
    if v < 0 {
        (Sign::Negative, radix_digits((-v) as nat, BASE as nat))
    } else {
        (Sign::Nonnegative, radix_digits(v as nat, BASE as nat))
    }
}

impl Bignum {
    /// The integer this value denotes.
    pub open spec fn value(&self) -> int {
        signed_value(self@)
    }

    /// The value is in canonical form.
    pub open spec fn wf(&self) -> bool {
        is_canonical(self@)
    }
}

/// The canonical form of `v` is canonical and denotes `v`.
pub proof fn lemma_canonical(v: int)
    ensures
        is_canonical(canonical(v)),
        signed_value(canonical(v)) == v,
{
    let n: nat = if v < 0 {
        (-v) as nat
    } else {
        v as nat
    };
    lemma_radix_digits(n, BASE as nat);
    lemma_value_zero_iff(radix_digits(n, BASE as nat), BASE as nat);
    if radix_digits(n, BASE as nat) == seq![0u32] {
        assert(radix_digits(n, BASE as nat)[0] == 0);
    }
}

/// A canonical sign and digit sequence is the canonical form of its value:
/// two canonical values are equal exactly when they denote the same integer.
pub proof fn lemma_canonical_unique(x: (Sign, Seq<u32>))
    requires
        is_canonical(x),
    ensures
        canonical(signed_value(x)) == x,
{
    lemma_radix_digits_unique(x.1, BASE as nat);
    lemma_value_zero_iff(x.1, BASE as nat);
    if x.1.len() == 1 && x.1[0] == 0 {
        assert(x.1 =~= seq![0u32]);
    }
}

impl Bignum {
    /// Brings the value to canonical form: drops most-significant zero digits
    /// (an empty digit sequence becomes the single digit zero) and gives zero
    /// the sign `Nonnegative`.
    pub fn normalize(&mut self)
        ensures
            final(self).parts@ == trimmed(old(self).parts@),
            final(self).sign == if trimmed(old(self).parts@) == seq![0u32] {
                Sign::Nonnegative
            } else {
                old(self).sign
            },
            digits_below(old(self).parts@, BASE as nat) ==> final(self)@ == canonical(
                old(self).value(),
            ),
    {
        let ghost old_value = self.value();
        trim_digits(&mut self.parts);
        if self.parts.len() == 1 && self.parts[0] == 0 {
            self.sign = Sign::Nonnegative;
        }
        proof {
            lemma_trimmed(old(self).parts@, BASE as nat);
            if self.parts@.len() == 1 && self.parts@[0] == 0 {
                assert(self.parts@ =~= seq![0u32]);
                lemma_value_single(self.parts@, BASE as nat);
            } else {
                lemma_value_zero_iff(self.parts@, BASE as nat);
                assert(self.parts@ != seq![0u32]);
            }
            assert(signed_value(self@) == old_value);
            if digits_below(old(self).parts@, BASE as nat) {
                lemma_canonical_unique(self@);
            }
        }
    }
}

/// Multiplies `a` by `BASE` to the power `num_places` by prepending that many
/// zero digits.
pub fn shift_left(a: &mut Bignum, num_places: usize)
    ensures
        final(a).parts@ == Seq::new(num_places as nat, |i: int| 0u32) + old(a).parts@,
        final(a).sign == old(a).sign,
        final(a).value() == old(a).value() * radix_pow(BASE as nat, num_places as nat),
{
    let mut zeroes = zero_digits(num_places);
    zeroes.append(&mut a.parts);
    a.parts = zeroes;
    proof {
        lemma_value_shift(old(a).parts@, num_places as nat, BASE as nat);
        let m = magnitude(old(a).parts@) as int;
        let pw = radix_pow(BASE as nat, num_places as nat) as int;
        assert(a.parts@ =~= Seq::new(num_places as nat, |i: int| 0u32) + old(a).parts@);
        assert(magnitude(a.parts@) == pw * m);
        assert(m * pw == pw * m) by (nonlinear_arith);
        assert((-m) * pw == -(pw * m)) by (nonlinear_arith);
    }
}

/// The canonical form of a number below `BASE` to the `k` has at most `k` digits.
pub proof fn lemma_canonical_len(v: int, k: nat)
    requires
        k >= 1,
        -radix_pow(BASE as nat, k) < v < radix_pow(BASE as nat, k),
    ensures
        canonical(v).1.len() <= k,
{
    lemma_canonical(v);
    crate::digits::lemma_len_from_bound(canonical(v).1, k, BASE as nat);
}

/// Long division of little-endian decimal digits by `BASE`: the quotient,
/// with as many digits, and the remainder.
fn divide_by_base(d: &Vec<u32>) -> (r: (Vec<u32>, u32))
    requires
        digits_below(d@, 10),
    ensures
        digits_below(r.0@, 10),
        r.0.len() == d.len(),
        r.1 < BASE,
        radix_value(d@, 10) == radix_value(r.0@, 10) * BASE + r.1,
{
    let n = d.len();
    let mut quotient = zero_digits(n);
    let mut carry: u64 = 0;
    let mut i: usize = n;
    proof {
        assert(d@.skip(n as int) =~= Seq::<u32>::empty());
        assert(quotient@.skip(n as int) =~= Seq::<u32>::empty());
        assert(digits_below(quotient@, 10));
    }
    while i > 0
        invariant
            n == d.len(),
            n == quotient.len(),
            i <= n,
            digits_below(d@, 10),
            digits_below(quotient@, 10),
            carry < BASE,
            radix_value(d@.skip(i as int), 10) == radix_value(quotient@.skip(i as int), 10)
                * BASE + carry,
        decreases i,
    {
        i -= 1;
        let ghost old_q = quotient@;
        let ghost old_carry = carry as nat;
        let digit = d[i];
        carry = carry * 10 + digit as u64;
        let q_digit = (carry / BASE as u64) as u32;
        quotient.set(i, q_digit);
        carry = carry % BASE as u64;
        proof {
            let c1 = old_carry * 10 + digit as nat;
            assert(q_digit < 10 && c1 == q_digit as nat * BASE + carry) by (nonlinear_arith)
                requires
                    old_carry < BASE,
                    digit < 10,
                    c1 == old_carry * 10 + digit as nat,
                    q_digit as nat == c1 / BASE as nat,
                    carry as nat == c1 % BASE as nat,
            ;
            let ds = d@.skip(i as int);
            let qs = quotient@.skip(i as int);
            assert(ds.skip(1) =~= d@.skip(i + 1));
            assert(qs.skip(1) =~= old_q.skip(i + 1));
            assert(ds[0] == digit && qs[0] == q_digit);
            let vq = radix_value(old_q.skip(i + 1), 10);
            assert((q_digit as nat + 10 * vq) * BASE + carry == digit as nat + 10 * (vq * BASE
                + old_carry)) by (nonlinear_arith)
                requires
                    c1 == old_carry * 10 + digit as nat,
                    c1 == q_digit as nat * BASE + carry,
            ;
            assert(digits_below(quotient@, 10)) by {
                assert forall|j: int| 0 <= j < quotient.len() implies (#[trigger] quotient@[j] as nat) < 10 by {
                    if j != i {
                        assert(quotient@[j] == old_q[j]);
                    }
                }
            }
        }
    }
    proof {
        assert(d@.skip(0) =~= d@);
        assert(quotient@.skip(0) =~= quotient@);
    }
    (quotient, carry as u32)
}

/// The canonical radix-`BASE` digits of the number that little-endian
/// decimal digits denote, by repeated long division by `BASE`.
fn string_to_parts(digits: &Vec<u32>) -> (parts: Vec<u32>)
    requires
        digits_below(digits@, 10),
    ensures
        parts@ == radix_digits(radix_value(digits@, 10), BASE as nat),
{
    let ghost total = radix_value(digits@, 10);
    let mut quotient = copy_digits(digits, 0, digits.len());
    trim_digits(&mut quotient);
    let mut parts: Vec<u32> = Vec::new();
    proof {
        assert(digits@.subrange(0, digits@.len() as int) =~= digits@);
        lemma_trimmed(digits@, 10);
        assert(radix_pow(BASE as nat, 0) == 1);
        assert(radix_value(parts@, BASE as nat) == 0);
        assert(1 * radix_value(quotient@, 10) == radix_value(quotient@, 10));
    }
    while !(quotient.len() == 1 && quotient[0] == 0)
        invariant
            is_trimmed(quotient@),
            digits_below(quotient@, 10),
            digits_below(parts@, BASE as nat),
            radix_value(parts@, BASE as nat) + radix_pow(BASE as nat, parts.len() as nat)
                * radix_value(quotient@, 10) == total,
        decreases radix_value(quotient@, 10),
    {
        let (mut next, remainder) = divide_by_base(&quotient);
        let ghost next_raw = next@;
        let ghost old_parts = parts@;
        let ghost vq = radix_value(quotient@, 10);
        let ghost vn = radix_value(next@, 10);
        trim_digits(&mut next);
        parts.push(remainder);
        proof {
            lemma_trimmed(quotient@, 10);
            lemma_value_zero_iff(quotient@, 10);
            lemma_trimmed(next_raw, 10);
            lemma_value_push(old_parts, remainder, BASE as nat);
            let pw = radix_pow(BASE as nat, old_parts.len());
            assert(radix_pow(BASE as nat, parts.len() as nat) == BASE * pw);
            assert(pw * vq == remainder as nat * pw + (BASE * pw) * vn) by (nonlinear_arith)
                requires
                    vq == vn * BASE + remainder,
            ;
            assert(vn < vq) by (nonlinear_arith)
                requires
                    vq == vn * BASE + remainder,
                    vq > 0,
            ;
            assert(digits_below(parts@, BASE as nat)) by {
                assert forall|j: int| 0 <= j < parts.len() implies (#[trigger] parts@[j] as nat) < BASE by {
                    if j < old_parts.len() {
                        assert(parts@[j] == old_parts[j]);
                    }
                }
            }
        }
        quotient = next;
    }
    proof {
        lemma_value_single(quotient@, 10);
        let pw = radix_pow(BASE as nat, parts.len() as nat);
        assert(pw * 0 == 0);
        lemma_trimmed(parts@, BASE as nat);
    }
    trim_digits(&mut parts);
    proof {
        lemma_radix_digits_unique(parts@, BASE as nat);
    }
    parts
}

/// Parses an optional `-` followed by one or more decimal digits; leading
/// zeros are allowed and zero is `Nonnegative` whatever its sign.
pub fn from_string(input_str: &str) -> (r: Result<Bignum, ParseBignumError>)
    ensures
        r is Ok <==> is_numeral(input_str@),
        r matches Ok(b) ==> b@ == canonical(numeral_value(input_str@)) && b.wf(),
{
    proof {
        lemma_canonical(numeral_value(input_str@));
    }
    let ghost s = input_str@;
    let n = input_str.unicode_len();
    if n == 0 {
        return Err(ParseBignumError);
    }
    let negative = input_str.get_char(0) == '-';
    let start: usize = if negative {
        1
    } else {
        0
    };
    let ghost body = numeral_body(s);
    assert(body =~= s.subrange(start as int, n as int));
    if start == n {
        return Err(ParseBignumError);
    }
    let mut digits: Vec<u32> = Vec::new();
    let mut i: usize = n;
    while i > start
        invariant
            s == input_str@,
            n == s.len(),
            start <= i <= n,
            body == s.subrange(start as int, n as int),
            body == numeral_body(s),
            forall|k: int| i <= k < n ==> is_digit_char(#[trigger] s[k]),
            digits@ == Seq::new((n - i) as nat, |k: int| char_digit(s[n - 1 - k])),
        decreases i,
    {
        i -= 1;
        let c = input_str.get_char(i);
        if !('0' <= c && c <= '9') {
            assert(body[i - start] == c);
            assert(!is_digit_char(body[i - start]));
            assert(!all_digit_chars(body));
            return Err(ParseBignumError);
        }
        digits.push(char_to_digit(c));
        assert(digits@ =~= Seq::new((n - i) as nat, |k: int| char_digit(s[n - 1 - k])));
    }
    assert(all_digit_chars(body)) by {
        assert forall|k: int| 0 <= k < body.len() implies is_digit_char(#[trigger] body[k]) by {
            assert(body[k] == s[k + start]);
        }
    }
    assert(digits@ =~= text_digits(body));
    proof {
        lemma_text_digits(body);
    }
    let parts = string_to_parts(&digits);
    proof {
        lemma_radix_digits(decimal_value(body), BASE as nat);
    }
    let mut result = Bignum {
        parts,
        sign: if negative {
            Sign::Negative
        } else {
            Sign::Nonnegative
        },
    };
    result.normalize();
    Ok(result)
}

proof fn lemma_ten_to_ten()
    ensures
        radix_pow(10, 10) == 10000000000,
{
    reveal_with_fuel(radix_pow, 11);
}

/// `BASE` to the `k` is below ten to the `10 * k`: a value of `k` digits has
/// at most `10 * k` decimal digits.
proof fn lemma_base_pow_decimal(k: nat)
    ensures
        radix_pow(BASE as nat, k) <= radix_pow(10, 10 * k),
    decreases k,
{
    if k > 0 {
        lemma_base_pow_decimal((k - 1) as nat);
        lemma_ten_to_ten();
        lemma_pow_adds(10, 10, (10 * (k - 1)) as nat);
        assert(10 + 10 * (k - 1) == 10 * k);
        let a = radix_pow(BASE as nat, (k - 1) as nat);
        let b = radix_pow(10, (10 * (k - 1)) as nat);
        assert(BASE * a <= 10000000000 * b) by (nonlinear_arith)
            requires
                a <= b,
        ;
    }
}

/// The sum of two decimal digit strings, without dropping leading zeros: as
/// many digits as the longer one, and one more when the sum needs it.
pub fn string_add(left: &str, right: &str) -> (sum: String)
    requires
        all_digit_chars(left@),
        all_digit_chars(right@),
        left@.len() < usize::MAX,
        right@.len() < usize::MAX,
    ensures
        all_digit_chars(sum@),
        decimal_value(sum@) == decimal_value(left@) + decimal_value(right@),
        sum@.len() == if decimal_value(left@) + decimal_value(right@) < radix_pow(
            10,
            max_nat(left@.len(), right@.len()),
        ) {
            max_nat(left@.len(), right@.len())
        } else {
            max_nat(left@.len(), right@.len()) + 1
        },
{
    let l = text_to_digits(left);
    let r = text_to_digits(right);
    proof {
        lemma_text_digits(left@);
        lemma_text_digits(right@);
    }
    let digits = add_digits(&l, &r, 10);
    proof {
        lemma_digits_text(digits@);
    }
    digits_to_string(&digits)
}

/// The product of two decimal digit strings, as a canonical decimal numeral.
pub fn string_mult(left: &str, right: &str) -> (product: String)
    requires
        all_digit_chars(left@),
        all_digit_chars(right@),
        left@.len() + right@.len() <= usize::MAX,
    ensures
        product@ == decimal_text(decimal_value(left@) * decimal_value(right@)),
{
    let l = text_to_digits(left);
    let r = text_to_digits(right);
    proof {
        lemma_text_digits(left@);
        lemma_text_digits(right@);
    }
    let mut digits = mul_digits(&l, &r, 10);
    let ghost raw = digits@;
    trim_digits(&mut digits);
    proof {
        lemma_trimmed(raw, 10);
        lemma_radix_digits_unique(digits@, 10);
    }
    digits_to_string(&digits)
}

impl Bignum {
    /// The decimal numeral of the value: its digits after `-` when negative.
    /// Built by repeatedly multiplying a decimal accumulator by `BASE` and
    /// adding the next digit, from the most significant down.
    pub fn to_string(&self) -> (s: String)
        requires
            self.wf(),
            self.parts.len() <= usize::MAX / 16,
        ensures
            s@ == signed_text(self.value()),
    {
        let mut prefix = String::new();
        match self.sign {
            Sign::Negative => {
                prefix.append("-");
            },
            Sign::Nonnegative => {},
        }
        proof {
            reveal_strlit("-");
        }
        let base_digits = u32_to_digits(BASE);
        let mut product = u32_to_digits(0);
        let len = self.parts.len();
        let ghost parts = self.parts@;
        proof {
            lemma_radix_digits(BASE as nat, 10);
            lemma_radix_digits(0, 10);
            assert(parts.skip(len as int) =~= Seq::<u32>::empty());
            lemma_ten_to_ten();
            lemma_len_from_bound(base_digits@, 10, 10);
        }
        let mut i: usize = len;
        while i > 0
            invariant
                len == self.parts.len(),
                len <= usize::MAX / 16,
                parts == self.parts@,
                i <= len,
                self.wf(),
                radix_value(base_digits@, 10) == BASE,
                digits_below(base_digits@, 10),
                base_digits.len() <= 10,
                is_trimmed(product@),
                digits_below(product@, 10),
                product.len() <= 10 * (len - i) + 1,
                radix_value(product@, 10) == magnitude(parts.skip(i as int)),
            decreases i,
        {
            i -= 1;
            let ghost v = radix_value(product@, 10);
            let mut next = mul_digits(&product, &base_digits, 10);
            let ghost next_raw = next@;
            trim_digits(&mut next);
            let part_digits = u32_to_digits(self.parts[i]);
            let ghost k = (len - i) as nat;
            let ghost ps = parts.skip(i as int);
            proof {
                lemma_trimmed(next_raw, 10);
                lemma_radix_digits(self.parts[i as int] as nat, 10);
                lemma_ten_to_ten();
                lemma_len_from_bound(part_digits@, 10, 10);
                assert(ps.skip(1) =~= parts.skip(i + 1));
                assert(ps[0] == self.parts[i as int]);
                assert(magnitude(ps) == ps[0] as nat + BASE * v);
                lemma_digits_below_subrange(parts, i as int, len as int, BASE as nat);
                lemma_value_bound(ps, BASE as nat);
                lemma_base_pow_decimal(k);
                assert(radix_value(next@, 10) == v * BASE) by (nonlinear_arith)
                    requires
                        radix_value(next@, 10) == v * radix_value(base_digits@, 10),
                        radix_value(base_digits@, 10) == BASE,
                ;
                lemma_len_from_bound(next@, 10 * k, 10);
            }
            let mut sum = add_digits(&next, &part_digits, 10);
            let ghost sum_raw = sum@;
            trim_digits(&mut sum);
            product = sum;
            proof {
                lemma_trimmed(sum_raw, 10);
                assert(radix_value(product@, 10) == magnitude(ps));
                lemma_len_from_bound(product@, 10 * k, 10);
            }
        }
        proof {
            assert(parts.skip(0) =~= parts);
            lemma_radix_digits_unique(product@, 10);
            lemma_value_zero_iff(self.parts@, BASE as nat);
            if self.parts@.len() == 1 && self.parts@[0] == 0 {
                assert(self.parts@ =~= seq![0u32]);
            }
        }
        let text = digits_to_string(&product);
        prefix.append(text.as_str());
        prefix
    }
}

} // verus!
