//! Little-endian digit sequences in an arbitrary radix: their value, their
//! canonical form, and the facts about both that the arithmetic relies on.
use vstd::prelude::*;

verus! {

/// `r` raised to the `n`-th power.
pub open spec fn radix_pow(r: nat, n: nat) -> nat
    decreases n,
{
    if n == 0 {
        1
    } else {
        r * radix_pow(r, (n - 1) as nat)
    }
}

/// The number that the little-endian digit sequence `s` denotes in radix `r`.
pub open spec fn radix_value(s: Seq<u32>, r: nat) -> nat
    decreases s.len(),
{
    if s.len() == 0 {
        0
    } else {
        s[0] as nat + r * radix_value(s.skip(1), r)
    }
}

/// Every digit of `s` is a digit of radix `r`.
pub open spec fn digits_below(s: Seq<u32>, r: nat) -> bool {
    forall|i: int| 0 <= i < s.len() ==> (#[trigger] s[i] as nat) < r
}

/// At least one digit, and a zero in the most significant place only when
/// it is the sole digit.
pub open spec fn is_trimmed(s: Seq<u32>) -> bool {
    s.len() >= 1 && (s.len() == 1 || s[s.len() - 1] != 0)
}

/// The canonical little-endian digits of `n` in radix `r`.
pub open spec fn radix_digits(n: nat, r: nat) -> Seq<u32>
    decreases n,
    via radix_digits_decreases
{
    if r < 2 || n < r {
        seq![n as u32]
    } else {
        seq![(n % r) as u32] + radix_digits(n / r, r)
    }
}

/// The recursive call of `radix_digits` is on a smaller number.
#[via_fn]
proof fn radix_digits_decreases(n: nat, r: nat) {
    if !(r < 2 || n < r) {
        assert(n / r < n) by (nonlinear_arith)
            requires
                r >= 2,
                n >= r,
        ;
    }
}

/// A power of a positive radix is positive.
pub proof fn lemma_pow_positive(r: nat, n: nat)
    requires
        r >= 1,
    ensures
        radix_pow(r, n) >= 1,
    decreases n,
{
    if n > 0 {
        lemma_pow_positive(r, (n - 1) as nat);
        assert(r * radix_pow(r, (n - 1) as nat) >= 1) by (nonlinear_arith)
            requires
                r >= 1,
                radix_pow(r, (n - 1) as nat) >= 1,
        ;
    }
}

/// Powers add their exponents when multiplied.
pub proof fn lemma_pow_adds(r: nat, m: nat, n: nat)
    ensures
        radix_pow(r, m + n) == radix_pow(r, m) * radix_pow(r, n),
    decreases m,
{
    if m > 0 {
        let k = (m - 1) as nat;
        lemma_pow_adds(r, k, n);
        assert((m + n - 1) as nat == k + n);
        let a = radix_pow(r, k);
        let b = radix_pow(r, n);
        assert(radix_pow(r, m + n) == r * radix_pow(r, k + n));
        assert(radix_pow(r, m) == r * a);
        assert(r * (a * b) == (r * a) * b) by (nonlinear_arith);
    } else {
        assert(radix_pow(r, 0) == 1);
        assert(m + n == n);
        assert(1 * radix_pow(r, n) == radix_pow(r, n));
    }
}

/// Powers of a positive radix grow with the exponent.
pub proof fn lemma_pow_increases(r: nat, m: nat, n: nat)
    requires
        r >= 1,
        m <= n,
    ensures
        radix_pow(r, m) <= radix_pow(r, n),
    decreases n,
{
    if m < n {
        lemma_pow_increases(r, m, (n - 1) as nat);
        lemma_pow_positive(r, (n - 1) as nat);
        assert(radix_pow(r, (n - 1) as nat) <= r * radix_pow(r, (n - 1) as nat)) by (nonlinear_arith)
            requires
                r >= 1,
        ;
    }
}

/// Appending a digit in the most significant place adds it at its weight.
pub proof fn lemma_value_push(s: Seq<u32>, d: u32, r: nat)
    ensures
        radix_value(s.push(d), r) == radix_value(s, r) + d as nat * radix_pow(r, s.len()),
    decreases s.len(),
{
    let u = s.push(d);
    if s.len() == 0 {
        lemma_value_single(u, r);
        assert(radix_pow(r, 0) == 1);
        assert(d as nat * radix_pow(r, 0) == d as nat);
    } else {
        let t = s.skip(1);
        assert(u.skip(1) =~= t.push(d));
        lemma_value_push(t, d, r);
        let vt = radix_value(t, r);
        let p = radix_pow(r, t.len());
        assert(radix_pow(r, s.len()) == r * p);
        assert(radix_value(u, r) == s[0] as nat + r * (vt + d as nat * p));
        assert(radix_value(s, r) == s[0] as nat + r * vt);
        assert(r * (vt + d as nat * p) == r * vt + d as nat * (r * p)) by (nonlinear_arith);
    }
}

/// A sequence of `n` digits of radix `r` denotes less than `r` to the `n`.
pub proof fn lemma_value_bound(s: Seq<u32>, r: nat)
    requires
        digits_below(s, r),
    ensures
        radix_value(s, r) < radix_pow(r, s.len()),
    decreases s.len(),
{
    if s.len() > 0 {
        let t = s.skip(1);
        assert(digits_below(t, r)) by {
            assert forall|i: int| 0 <= i < t.len() implies (#[trigger] t[i] as nat) < r by {
                assert(t[i] == s[i + 1]);
            }
        }
        lemma_value_bound(t, r);
        let v = radix_value(t, r);
        let p = radix_pow(r, t.len());
        assert(s[0] as nat + r * v < r * p) by (nonlinear_arith)
            requires
                v < p,
                (s[0] as nat) < r,
        ;
    }
}

/// Splitting a sequence at `k` splits its value into a low and a high part.
pub proof fn lemma_value_split(s: Seq<u32>, k: int, r: nat)
    requires
        0 <= k <= s.len(),
    ensures
        radix_value(s, r) == radix_value(s.take(k), r) + radix_pow(r, k as nat) * radix_value(
            s.skip(k),
            r,
        ),
    decreases k,
{
    if k == 0 {
        assert(s.take(0) =~= Seq::<u32>::empty());
        assert(s.skip(0) =~= s);
        assert(radix_value(s.take(0), r) == 0);
        assert(radix_pow(r, 0) == 1);
        assert(1 * radix_value(s, r) == radix_value(s, r));
    } else {
        let t = s.skip(1);
        lemma_value_split(t, k - 1, r);
        assert(s.take(k).skip(1) =~= t.take(k - 1));
        assert(s.skip(k) =~= t.skip(k - 1));
        assert(s.take(k).len() > 0);
        assert(s.take(k)[0] == s[0]);
        let lo = radix_value(t.take(k - 1), r);
        let hi = radix_value(t.skip(k - 1), r);
        let p = radix_pow(r, (k - 1) as nat);
        assert(radix_pow(r, k as nat) == r * p);
        assert(radix_value(s, r) == s[0] as nat + r * radix_value(t, r));
        assert(radix_value(t, r) == lo + p * hi);
        assert(radix_value(s.take(k), r) == s[0] as nat + r * lo);
        assert(r * (lo + p * hi) == r * lo + (r * p) * hi) by (nonlinear_arith);
    }
}

/// Replacing the digit at `k` changes the value by the difference at its weight.
pub proof fn lemma_value_update(s: Seq<u32>, k: int, x: u32, r: nat)
    requires
        0 <= k < s.len(),
    ensures
        radix_value(s.update(k, x), r) + s[k] as nat * radix_pow(r, k as nat) == radix_value(s, r)
            + x as nat * radix_pow(r, k as nat),
    decreases k,
{
    let u = s.update(k, x);
    if k == 0 {
        assert(u.skip(1) =~= s.skip(1));
        assert(radix_pow(r, 0) == 1);
        assert(s[k] as nat * radix_pow(r, 0) == s[k] as nat);
        assert(x as nat * radix_pow(r, 0) == x as nat);
    } else {
        let t = s.skip(1);
        lemma_value_update(t, k - 1, x, r);
        assert(u.skip(1) =~= t.update(k - 1, x));
        let p = radix_pow(r, (k - 1) as nat);
        assert(radix_pow(r, k as nat) == r * p);
        let a = radix_value(t.update(k - 1, x), r);
        let b = radix_value(t, r);
        assert(radix_value(u, r) == s[0] as nat + r * a);
        assert(radix_value(s, r) == s[0] as nat + r * b);
        assert(a + s[k] as nat * p == b + x as nat * p);
        assert(r * (a + s[k] as nat * p) == r * (b + x as nat * p));
        assert(r * (a + s[k] as nat * p) == r * a + s[k] as nat * (r * p)) by (nonlinear_arith);
        assert(r * (b + x as nat * p) == r * b + x as nat * (r * p)) by (nonlinear_arith);
    }
}

/// A sequence of zero digits denotes zero.
pub proof fn lemma_value_zeros(s: Seq<u32>, r: nat)
    requires
        forall|i: int| 0 <= i < s.len() ==> #[trigger] s[i] == 0,
    ensures
        radix_value(s, r) == 0,
    decreases s.len(),
{
    if s.len() > 0 {
        lemma_value_zeros(s.skip(1), r);
        assert(s[0] == 0);
        assert(r * radix_value(s.skip(1), r) == 0);
    }
}

/// Prepending `n` zero digits multiplies the value by `r` to the `n`.
pub proof fn lemma_value_shift(s: Seq<u32>, n: nat, r: nat)
    ensures
        radix_value(Seq::new(n, |i: int| 0u32) + s, r) == radix_pow(r, n) * radix_value(s, r),
{
    let z = Seq::new(n, |i: int| 0u32);
    let t = z + s;
    lemma_value_split(t, n as int, r);
    assert(t.take(n as int) =~= z);
    assert(t.skip(n as int) =~= s);
    lemma_value_zeros(z, r);
}

/// A single digit denotes itself.
pub proof fn lemma_value_single(s: Seq<u32>, r: nat)
    requires
        s.len() == 1,
    ensures
        radix_value(s, r) == s[0] as nat,
{
    let t = s.skip(1);
    assert(t =~= Seq::<u32>::empty());
    assert(radix_value(t, r) == 0);
    assert(r * radix_value(t, r) == 0) by (nonlinear_arith)
        requires
            radix_value(t, r) == 0,
    ;
}

/// A trimmed sequence of more than one digit denotes at least `r` to the
/// power of its length less one.
pub proof fn lemma_value_top(s: Seq<u32>, r: nat)
    requires
        is_trimmed(s),
        s.len() > 1,
    ensures
        radix_value(s, r) >= radix_pow(r, (s.len() - 1) as nat),
{
    let k = s.len() - 1;
    lemma_value_split(s, k, r);
    let t = s.skip(k);
    lemma_value_single(t, r);
    assert(t[0] == s[k]);
    assert(radix_value(t, r) == s[k] as nat);
    let p = radix_pow(r, k as nat);
    assert(p * (s[k] as nat) >= p) by (nonlinear_arith)
        requires
            s[k] as nat >= 1,
    ;
}

/// A trimmed sequence denotes zero exactly when it is the single digit zero.
pub proof fn lemma_value_zero_iff(s: Seq<u32>, r: nat)
    requires
        is_trimmed(s),
        r >= 1,
    ensures
        (radix_value(s, r) == 0) <==> (s.len() == 1 && s[0] == 0),
{
    if s.len() > 1 {
        lemma_value_top(s, r);
        lemma_pow_positive(r, (s.len() - 1) as nat);
    } else {
        lemma_value_single(s, r);
    }
}

/// The digits of `n` are canonical and denote `n`.
pub proof fn lemma_radix_digits(n: nat, r: nat)
    requires
        2 <= r <= 0x1_0000_0000,
    ensures
        digits_below(radix_digits(n, r), r),
        is_trimmed(radix_digits(n, r)),
        radix_value(radix_digits(n, r), r) == n,
    decreases n,
{
    let s = radix_digits(n, r);
    if n < r {
        lemma_value_single(s, r);
    } else {
        assert(n / r < n) by (nonlinear_arith)
            requires
                r >= 2,
                n >= r,
        ;
        assert(n / r >= 1) by (nonlinear_arith)
            requires
                r >= 2,
                n >= r,
        ;
        lemma_radix_digits(n / r, r);
        let t = radix_digits(n / r, r);
        assert(s.skip(1) =~= t);
        assert(n % r < r) by (nonlinear_arith)
            requires
                r >= 2,
        ;
        assert(n == n % r + r * (n / r)) by (nonlinear_arith)
            requires
                r >= 2,
        ;
        lemma_value_zero_iff(t, r);
        assert(s[s.len() - 1] == t[t.len() - 1]);
        assert(digits_below(s, r)) by {
            assert forall|i: int| 0 <= i < s.len() implies (#[trigger] s[i] as nat) < r by {
                if i > 0 {
                    assert(s[i] == t[i - 1]);
                }
            }
        }
        assert(radix_value(s, r) == (n % r) + r * radix_value(t, r));
    }
}

/// A canonical sequence is the digits of its own value.
pub proof fn lemma_radix_digits_unique(s: Seq<u32>, r: nat)
    requires
        2 <= r <= 0x1_0000_0000,
        digits_below(s, r),
        is_trimmed(s),
    ensures
        s == radix_digits(radix_value(s, r), r),
    decreases s.len(),
{
    let v = radix_value(s, r);
    if s.len() == 1 {
        lemma_value_single(s, r);
        assert((s[0] as nat) < r);
        assert(radix_digits(v, r) == seq![v as u32]);
        assert(s =~= seq![v as u32]);
    } else {
        let t = s.skip(1);
        assert(digits_below(t, r)) by {
            assert forall|i: int| 0 <= i < t.len() implies (#[trigger] t[i] as nat) < r by {
                assert(t[i] == s[i + 1]);
            }
        }
        assert(t[t.len() - 1] == s[s.len() - 1]);
        lemma_radix_digits_unique(t, r);
        lemma_value_top(s, r);
        lemma_pow_increases(r, 1, (s.len() - 1) as nat);
        assert(radix_pow(r, 1) == r) by {
            assert(radix_pow(r, 0) == 1);
            assert(r * 1 == r);
        }
        let w = radix_value(t, r);
        assert(v == s[0] as nat + r * w);
        assert(v % r == s[0] as nat && v / r == w) by (nonlinear_arith)
            requires
                v == s[0] as nat + r * w,
                (s[0] as nat) < r,
                r >= 2,
        ;
        assert(v >= r);
        assert(radix_digits(v, r) == seq![(v % r) as u32] + radix_digits(w, r));
        assert(s =~= seq![(v % r) as u32] + t);
    }
}

/// `s` with its most significant zero digits removed, down to a single digit;
/// the empty sequence becomes the single digit zero.
pub open spec fn trimmed(s: Seq<u32>) -> Seq<u32>
    decreases s.len(),
{
    if s.len() == 0 {
        seq![0u32]
    } else if s.len() > 1 && s[s.len() - 1] == 0 {
        trimmed(s.drop_last())
    } else {
        s
    }
}

/// Trimming keeps the value and the digits' range, and trims.
pub proof fn lemma_trimmed(s: Seq<u32>, r: nat)
    ensures
        is_trimmed(trimmed(s)),
        radix_value(trimmed(s), r) == radix_value(s, r),
        r >= 1 && digits_below(s, r) ==> digits_below(trimmed(s), r),
    decreases s.len(),
{
    if s.len() == 0 {
        lemma_value_single(seq![0u32], r);
    } else if s.len() > 1 && s[s.len() - 1] == 0 {
        let t = s.drop_last();
        lemma_trimmed(t, r);
        assert(t.push(0) =~= s);
        lemma_value_push(t, 0, r);
        assert(0 * radix_pow(r, t.len()) == 0);
    }
}

/// The digit of `s` at position `i`, zero past its end.
pub open spec fn digit_or_zero(s: Seq<u32>, i: int) -> u32 {
    if 0 <= i < s.len() {
        s[i]
    } else {
        0
    }
}

/// The value of the `n` least significant positions of `s`, reading zero past its end.
pub open spec fn prefix_value(s: Seq<u32>, n: nat, r: nat) -> nat {
    if n <= s.len() {
        radix_value(s.take(n as int), r)
    } else {
        radix_value(s, r)
    }
}

/// One more position adds its digit at its weight.
pub proof fn lemma_prefix_step(s: Seq<u32>, n: nat, r: nat)
    ensures
        prefix_value(s, n + 1, r) == prefix_value(s, n, r) + digit_or_zero(s, n as int) as nat
            * radix_pow(r, n),
{
    if n < s.len() {
        assert(s.take(n as int).push(s[n as int]) =~= s.take(n + 1 as int));
        lemma_value_push(s.take(n as int), s[n as int], r);
    } else {
        if n == s.len() {
            assert(s.take(n as int) =~= s);
        }
        assert(0 * radix_pow(r, n) == 0);
    }
}

/// No positions denote zero.
pub proof fn lemma_prefix_zero(s: Seq<u32>, r: nat)
    ensures
        prefix_value(s, 0, r) == 0,
{
    assert(s.take(0) =~= Seq::<u32>::empty());
}

/// All positions, and any past the end, denote the whole sequence.
pub proof fn lemma_prefix_full(s: Seq<u32>, n: nat, r: nat)
    requires
        n >= s.len(),
    ensures
        prefix_value(s, n, r) == radix_value(s, r),
{
    if n == s.len() {
        assert(s.take(n as int) =~= s);
    }
}

/// Removes the most significant zero digits of `v`, keeping at least one digit.
pub fn trim_digits(v: &mut Vec<u32>)
    ensures
        final(v)@ == trimmed(old(v)@),
{
    if v.len() == 0 {
        v.push(0);
        assert(trimmed(v@) == v@);
    }
    while v.len() > 1 && v[v.len() - 1] == 0
        invariant
            v.len() >= 1,
            trimmed(v@) == trimmed(old(v)@),
        decreases v.len(),
    {
        v.pop();
    }
}

/// The larger of `x` and `y`.
pub open spec fn max_nat(x: nat, y: nat) -> nat {
    if x >= y {
        x
    } else {
        y
    }
}

/// Digit-wise sum of two digit sequences in radix `radix`, with carry.
pub fn add_digits(a: &Vec<u32>, b: &Vec<u32>, radix: u32) -> (sum: Vec<u32>)
    requires
        2 <= radix <= 0x8000_0000,
        digits_below(a@, radix as nat),
        digits_below(b@, radix as nat),
        a.len() < usize::MAX,
        b.len() < usize::MAX,
    ensures
        digits_below(sum@, radix as nat),
        radix_value(sum@, radix as nat) == radix_value(a@, radix as nat) + radix_value(
            b@,
            radix as nat,
        ),
        sum.len() == if radix_value(a@, radix as nat) + radix_value(b@, radix as nat) < radix_pow(
            radix as nat,
            max_nat(a.len() as nat, b.len() as nat),
        ) {
            max_nat(a.len() as nat, b.len() as nat)
        } else {
            max_nat(a.len() as nat, b.len() as nat) + 1
        },
{
    let ghost r = radix as nat;
    let p = a.len();
    let q = b.len();
    let max = if p >= q {
        p
    } else {
        q
    };
    let mut sum: Vec<u32> = Vec::new();
    let mut carry: u32 = 0;
    let mut i: usize = 0;
    proof {
        lemma_prefix_zero(a@, r);
        lemma_prefix_zero(b@, r);
        assert(radix_value(sum@, r) == 0);
        assert(0 * radix_pow(r, 0) == 0);
    }
    while i < max
        invariant
            r == radix as nat,
            2 <= radix <= 0x8000_0000,
            digits_below(a@, r),
            digits_below(b@, r),
            p == a.len(),
            q == b.len(),
            max == if p >= q {
                p
            } else {
                q
            },
            i <= max,
            sum.len() == i,
            carry <= 1,
            digits_below(sum@, r),
            radix_value(sum@, r) + carry as nat * radix_pow(r, i as nat) == prefix_value(
                a@,
                i as nat,
                r,
            ) + prefix_value(b@, i as nat, r),
        decreases max - i,
    {
        let a_digit = if i < p {
            a[i]
        } else {
            0
        };
        let b_digit = if i < q {
            b[i]
        } else {
            0
        };
        assert(a_digit == digit_or_zero(a@, i as int) && b_digit == digit_or_zero(b@, i as int));
        let result = a_digit + b_digit + carry;
        let digit = result % radix;
        let ghost old_sum = sum@;
        let ghost old_carry = carry;
        sum.push(digit);
        carry = result / radix;
        proof {
            lemma_prefix_step(a@, i as nat, r);
            lemma_prefix_step(b@, i as nat, r);
            lemma_value_push(old_sum, digit, r);
            let pw = radix_pow(r, i as nat);
            assert(radix_pow(r, (i + 1) as nat) == r * pw);
            assert(result as nat == digit as nat + r * carry as nat) by (nonlinear_arith)
                requires
                    digit == result % radix,
                    carry == result / radix,
                    r == radix as nat,
                    radix >= 2,
            ;
            assert(carry <= 1) by (nonlinear_arith)
                requires
                    carry == result / radix,
                    result <= 2 * radix - 1,
                    radix >= 2,
            ;
            assert(digit as nat * pw + carry as nat * (r * pw) == result as nat * pw)
                by (nonlinear_arith)
                requires
                    result as nat == digit as nat + r * carry as nat,
            ;
            assert(result as nat * pw == a_digit as nat * pw + b_digit as nat * pw + old_carry
                as nat * pw) by (nonlinear_arith)
                requires
                    result == a_digit + b_digit + old_carry,
            ;
            assert(digits_below(sum@, r)) by {
                assert forall|j: int| 0 <= j < sum.len() implies (#[trigger] sum@[j] as nat) < r by {
                    if j < i {
                        assert(sum@[j] == old_sum[j]);
                    }
                }
            }
        }
        i += 1;
    }
    proof {
        lemma_prefix_full(a@, max as nat, r);
        lemma_prefix_full(b@, max as nat, r);
        lemma_value_bound(sum@, r);
    }
    if carry > 0 {
        let ghost old_sum = sum@;
        sum.push(carry);
        proof {
            lemma_value_push(old_sum, carry, r);
            assert(digits_below(sum@, r)) by {
                assert forall|j: int| 0 <= j < sum.len() implies (#[trigger] sum@[j] as nat) < r by {
                    if j < max {
                        assert(sum@[j] == old_sum[j]);
                    }
                }
            }
        }
    } else {
        assert(carry as nat * radix_pow(r, max as nat) == 0);
    }
    sum
}

/// Digit-wise difference `big - small` in radix `radix`, with borrow; the
/// result has as many digits as `big`.
pub fn sub_digits(big: &Vec<u32>, small: &Vec<u32>, radix: u32) -> (diff: Vec<u32>)
    requires
        2 <= radix <= 0x8000_0000,
        digits_below(big@, radix as nat),
        digits_below(small@, radix as nat),
        small.len() <= big.len(),
        radix_value(small@, radix as nat) <= radix_value(big@, radix as nat),
    ensures
        digits_below(diff@, radix as nat),
        diff.len() == big.len(),
        radix_value(diff@, radix as nat) == radix_value(big@, radix as nat) - radix_value(
            small@,
            radix as nat,
        ),
{
    let ghost r = radix as nat;
    let n = big.len();
    let q = small.len();
    let mut diff: Vec<u32> = Vec::new();
    let mut borrow: u32 = 0;
    let mut i: usize = 0;
    proof {
        lemma_prefix_zero(big@, r);
        lemma_prefix_zero(small@, r);
        assert(0 * radix_pow(r, 0) == 0);
    }
    while i < n
        invariant
            r == radix as nat,
            2 <= radix <= 0x8000_0000,
            digits_below(big@, r),
            digits_below(small@, r),
            n == big.len(),
            q == small.len(),
            q <= n,
            i <= n,
            diff.len() == i,
            borrow <= 1,
            digits_below(diff@, r),
            radix_value(diff@, r) + prefix_value(small@, i as nat, r) == prefix_value(
                big@,
                i as nat,
                r,
            ) + borrow as nat * radix_pow(r, i as nat),
        decreases n - i,
    {
        let big_digit = big[i];
        let small_digit = if i < q {
            small[i]
        } else {
            0
        };
        assert(big_digit == digit_or_zero(big@, i as int) && small_digit == digit_or_zero(
            small@,
            i as int,
        ));
        let ghost old_diff = diff@;
        let ghost old_borrow = borrow;
        let digit = if big_digit < small_digit + borrow {
            let d = big_digit + radix - borrow - small_digit;
            borrow = 1;
            d
        } else {
            let d = big_digit - borrow - small_digit;
            borrow = 0;
            d
        };
        diff.push(digit);
        proof {
            lemma_prefix_step(big@, i as nat, r);
            lemma_prefix_step(small@, i as nat, r);
            lemma_value_push(old_diff, digit, r);
            let pw = radix_pow(r, i as nat);
            assert(radix_pow(r, (i + 1) as nat) == r * pw);
            if borrow == 1 {
                assert(r * borrow as int == r);
            } else {
                assert(r * borrow as int == 0);
            }
            assert(digit as int + small_digit as int == big_digit as int - old_borrow as int + r
                * borrow as int);
            assert(digit as nat * pw + small_digit as nat * pw == big_digit as nat * pw + borrow as nat * (r * pw) - old_borrow as nat * pw)
                by (nonlinear_arith)
                requires
                    digit as int + small_digit as int == big_digit as int - old_borrow as int + r * borrow as int,
            ;
            assert(digits_below(diff@, r)) by {
                assert forall|j: int| 0 <= j < diff.len() implies (#[trigger] diff@[j] as nat) < r by {
                    if j < i {
                        assert(diff@[j] == old_diff[j]);
                    }
                }
            }
        }
        i += 1;
    }
    proof {
        lemma_prefix_full(big@, n as nat, r);
        lemma_prefix_full(small@, n as nat, r);
        lemma_value_bound(diff@, r);
        if borrow == 1 {
            assert(1 * radix_pow(r, n as nat) == radix_pow(r, n as nat));
        } else {
            assert(0 * radix_pow(r, n as nat) == 0);
        }
    }
    diff
}

/// Schoolbook product of two digit sequences in radix `radix`; the result
/// has as many digits as the two factors together.
pub fn mul_digits(a: &Vec<u32>, b: &Vec<u32>, radix: u32) -> (product: Vec<u32>)
    requires
        2 <= radix,
        digits_below(a@, radix as nat),
        digits_below(b@, radix as nat),
        a.len() + b.len() <= usize::MAX,
    ensures
        digits_below(product@, radix as nat),
        product.len() == a.len() + b.len(),
        radix_value(product@, radix as nat) == radix_value(a@, radix as nat) * radix_value(
            b@,
            radix as nat,
        ),
{
    let ghost r = radix as nat;
    let ghost va = radix_value(a@, r);
    let p = a.len();
    let q = b.len();
    let mut product: Vec<u32> = zero_digits(p + q);
    proof {
        lemma_value_zeros(product@, r);
        lemma_prefix_zero(b@, r);
        assert(va * 0 == 0);
    }
    let radix_wide = radix as u64;
    let mut bi: usize = 0;
    while bi < q
        invariant
            r == radix as nat,
            radix_wide == radix as u64,
            2 <= radix,
            digits_below(a@, r),
            digits_below(b@, r),
            va == radix_value(a@, r),
            p == a.len(),
            q == b.len(),
            p + q <= usize::MAX,
            bi <= q,
            product.len() == p + q,
            digits_below(product@, r),
            forall|j: int| bi + p <= j < p + q ==> #[trigger] product@[j] == 0,
            radix_value(product@, r) == va * prefix_value(b@, bi as nat, r),
        decreases q - bi,
    {
        let b_digit = b[bi];
        let mut carry: u64 = 0;
        let mut ai: usize = 0;
        proof {
            lemma_prefix_zero(a@, r);
            assert(0 * radix_pow(r, bi as nat) == 0);
            assert(0 * (b_digit as nat) * radix_pow(r, bi as nat) == 0);
            assert((b_digit as nat) < r);
        }
        while ai < p
            invariant
                r == radix as nat,
                radix_wide == radix as u64,
                2 <= radix,
                digits_below(a@, r),
                digits_below(b@, r),
                va == radix_value(a@, r),
                p == a.len(),
                q == b.len(),
                p + q <= usize::MAX,
                bi < q,
                b_digit == b@[bi as int],
                (b_digit as nat) < r,
                ai <= p,
                (carry as nat) < r,
                product.len() == p + q,
                digits_below(product@, r),
                forall|j: int| bi + p <= j < p + q ==> #[trigger] product@[j] == 0,
                radix_value(product@, r) + carry as nat * radix_pow(r, (ai + bi) as nat) == va
                    * prefix_value(b@, bi as nat, r) + prefix_value(a@, ai as nat, r) * (b_digit as nat)
                    * radix_pow(r, bi as nat),
            decreases p - ai,
        {
            let k = ai + bi;
            let a_digit = a[ai];
            let x = product[k];
            let ghost old_product = product@;
            let ghost old_carry = carry as nat;
            assert((a_digit as nat) < r && (x as nat) < r);
            assert((x as nat) + (a_digit as nat) * (b_digit as nat) + old_carry <= r * r - 1)
                by (nonlinear_arith)
                requires
                    (x as nat) < r,
                    (a_digit as nat) < r,
                    (b_digit as nat) < r,
                    old_carry < r,
            ;
            assert(r * r <= 0x1_0000_0000 * 0x1_0000_0000) by (nonlinear_arith)
                requires
                    r < 0x1_0000_0000,
            ;
            let result: u64 = x as u64 + a_digit as u64 * b_digit as u64 + carry;
            let digit = (result % radix_wide) as u32;
            carry = result / radix_wide;
            product.set(k, digit);
            proof {
                let pw = radix_pow(r, k as nat);
                let res = result as nat;
                assert(res == digit as nat + r * carry as nat && (carry as nat) < r)
                    by (nonlinear_arith)
                    requires
                        digit as nat == res % r,
                        carry as nat == res / r,
                        res <= r * r - 1,
                        r >= 2,
                ;
                lemma_value_update(old_product, k as int, digit, r);
                lemma_prefix_step(a@, ai as nat, r);
                assert(digit_or_zero(a@, ai as int) == a_digit);
                lemma_pow_adds(r, ai as nat, bi as nat);
                assert(radix_pow(r, (k + 1) as nat) == r * pw);
                let pa = radix_pow(r, ai as nat);
                let pb = radix_pow(r, bi as nat);
                assert(pw == pa * pb);
                let pre = prefix_value(a@, ai as nat, r);
                assert((pre + (a_digit as nat) * pa) * (b_digit as nat) * pb == pre * (b_digit as nat) * pb + (a_digit as nat) * (b_digit as nat) * pw)
                    by (nonlinear_arith)
                    requires
                        pw == pa * pb,
                ;
                assert(digit as nat * pw + carry as nat * (r * pw) == x as nat * pw + (a_digit as nat) * (b_digit as nat) * pw + old_carry * pw)
                    by (nonlinear_arith)
                    requires
                        res == digit as nat + r * carry as nat,
                        res == x as nat + (a_digit as nat) * (b_digit as nat) + old_carry,
                ;
                assert(digits_below(product@, r)) by {
                    assert forall|j: int| 0 <= j < product.len() implies (#[trigger] product@[j] as nat) < r by {
                        if j != k {
                            assert(product@[j] == old_product[j]);
                        }
                    }
                }
            }
            ai += 1;
        }
        let ghost old_product = product@;
        let top = bi + p;
        proof {
            assert(old_product[top as int] == 0);
            lemma_value_update(old_product, top as int, carry as u32, r);
            lemma_prefix_full(a@, p as nat, r);
            lemma_prefix_step(b@, bi as nat, r);
            assert(digit_or_zero(b@, bi as int) == b_digit);
            assert(0 * radix_pow(r, top as nat) == 0);
            assert(va * (prefix_value(b@, bi as nat, r) + (b_digit as nat) * radix_pow(r, bi as nat)) == va * prefix_value(b@, bi as nat, r) + va * (b_digit as nat) * radix_pow(r, bi as nat))
                by (nonlinear_arith);
        }
        product.set(top, carry as u32);
        proof {
            assert(digits_below(product@, r)) by {
                assert forall|j: int| 0 <= j < product.len() implies (#[trigger] product@[j] as nat) < r by {
                    if j != top {
                        assert(product@[j] == old_product[j]);
                    }
                }
            }
        }
        bi += 1;
    }
    proof {
        lemma_prefix_full(b@, q as nat, r);
    }
    product
}

/// `n` zero digits.
pub fn zero_digits(n: usize) -> (z: Vec<u32>)
    ensures
        z@ == Seq::new(n as nat, |i: int| 0u32),
{
    let mut z: Vec<u32> = Vec::new();
    let mut k: usize = 0;
    while k < n
        invariant
            k <= n,
            z@ == Seq::new(k as nat, |i: int| 0u32),
        decreases n - k,
    {
        z.push(0);
        k += 1;
        assert(z@ =~= Seq::new(k as nat, |i: int| 0u32));
    }
    z
}

/// A copy of the digits of `v` from position `lo` up to, not including, `hi`.
pub fn copy_digits(v: &Vec<u32>, lo: usize, hi: usize) -> (c: Vec<u32>)
    requires
        lo <= hi <= v.len(),
    ensures
        c@ == v@.subrange(lo as int, hi as int),
{
    let mut c: Vec<u32> = Vec::new();
    let mut k: usize = lo;
    while k < hi
        invariant
            lo <= k <= hi <= v.len(),
            c@ == v@.subrange(lo as int, k as int),
        decreases hi - k,
    {
        c.push(v[k]);
        k += 1;
        assert(c@ =~= v@.subrange(lo as int, k as int));
    }
    c
}

/// A prefix of a sequence of digits of radix `r` has digits of radix `r`.
pub proof fn lemma_digits_below_subrange(s: Seq<u32>, lo: int, hi: int, r: nat)
    requires
        digits_below(s, r),
        0 <= lo <= hi <= s.len(),
    ensures
        digits_below(s.subrange(lo, hi), r),
{
    let t = s.subrange(lo, hi);
    assert forall|i: int| 0 <= i < t.len() implies (#[trigger] t[i] as nat) < r by {
        assert(t[i] == s[lo + i]);
    }
}

/// Of two trimmed sequences, the longer denotes the larger number.
pub proof fn lemma_longer_is_larger(s: Seq<u32>, t: Seq<u32>, r: nat)
    requires
        r >= 2,
        is_trimmed(s),
        is_trimmed(t),
        digits_below(t, r),
        s.len() > t.len(),
    ensures
        radix_value(t, r) < radix_value(s, r),
{
    lemma_value_bound(t, r);
    lemma_pow_increases(r, t.len(), (s.len() - 1) as nat);
    lemma_value_top(s, r);
}

/// Of two sequences of one length that agree above position `i`, the one
/// with the larger digit at `i` denotes the larger number.
pub proof fn lemma_first_difference(s: Seq<u32>, t: Seq<u32>, i: int, r: nat)
    requires
        s.len() == t.len(),
        0 <= i < s.len(),
        digits_below(s, r),
        digits_below(t, r),
        forall|j: int| i < j < s.len() ==> s[j] == t[j],
        s[i] > t[i],
    ensures
        radix_value(t, r) < radix_value(s, r),
{
    lemma_value_split(s, i + 1, r);
    lemma_value_split(t, i + 1, r);
    assert(s.skip(i + 1) =~= t.skip(i + 1));
    assert(s.take(i).push(s[i]) =~= s.take(i + 1));
    assert(t.take(i).push(t[i]) =~= t.take(i + 1));
    lemma_value_push(s.take(i), s[i], r);
    lemma_value_push(t.take(i), t[i], r);
    lemma_digits_below_subrange(t, 0, i, r);
    lemma_value_bound(t.take(i), r);
    let pw = radix_pow(r, i as nat);
    let lo_t = radix_value(t.take(i), r);
    assert(lo_t + t[i] as nat * pw < s[i] as nat * pw) by (nonlinear_arith)
        requires
            lo_t < pw,
            t[i] < s[i],
    ;
}

/// A sequence denotes zero exactly when all of its digits are zero.
pub proof fn lemma_value_zero_all(s: Seq<u32>, r: nat)
    requires
        r >= 1,
    ensures
        (radix_value(s, r) == 0) <==> (forall|i: int| 0 <= i < s.len() ==> #[trigger] s[i] == 0),
    decreases s.len(),
{
    if s.len() > 0 {
        let t = s.skip(1);
        lemma_value_zero_all(t, r);
        let v = radix_value(t, r);
        assert(r * v == 0 <==> v == 0) by (nonlinear_arith)
            requires
                r >= 1,
        ;
        if forall|i: int| 0 <= i < s.len() ==> #[trigger] s[i] == 0 {
            assert forall|i: int| 0 <= i < t.len() implies #[trigger] t[i] == 0 by {
                assert(t[i] == s[i + 1]);
            }
        }
        if forall|i: int| 0 <= i < t.len() ==> #[trigger] t[i] == 0 {
            if s[0] == 0 {
                assert forall|i: int| 0 <= i < s.len() implies #[trigger] s[i] == 0 by {
                    if i > 0 {
                        assert(s[i] == t[i - 1]);
                    }
                }
            }
        }
    }
}

/// A trimmed sequence that denotes less than `r` to the `k` has at most `k` digits.
pub proof fn lemma_len_from_bound(s: Seq<u32>, k: nat, r: nat)
    requires
        r >= 2,
        k >= 1,
        is_trimmed(s),
        radix_value(s, r) < radix_pow(r, k),
    ensures
        s.len() <= k,
{
    if s.len() > k {
        lemma_value_top(s, r);
        lemma_pow_increases(r, k, (s.len() - 1) as nat);
    }
}

} // verus!
