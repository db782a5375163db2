//! Karatsuba multiplication: sequential, or with the three partial products
//! of the top level computed in a fork-join split.
use vstd::prelude::*;
use crate::basic_ops::{bignum_add, bignum_long_mult, bignum_sub};
use crate::digits::{
    copy_digits, digits_below, is_trimmed, lemma_digits_below_subrange, lemma_pow_adds,
    lemma_pow_increases, lemma_pow_positive, lemma_value_bound, lemma_value_split,
    lemma_value_top, lemma_value_zero_all, radix_pow,
};
use crate::types::{
    canonical, lemma_canonical, lemma_canonical_len, magnitude, shift_left, Bignum, Sign, BASE,
};

verus! {

/// A cutoff below two, with which Karatsuba could not split its operands.
#[derive(Debug)]
pub struct InvalidCutoff;

/// Relies on rayon::join: it runs both closures, possibly in parallel, and
/// returns the pair of their results.
pub assume_specification<A, B, RA, RB>[ rayon::join::<A, B, RA, RB> ](oper_a: A, oper_b: B) -> (r: (RA, RB))
    where
        A: FnOnce() -> RA + Send,
        B: FnOnce() -> RB + Send,
        RA: Send,
        RB: Send,
    requires
        oper_a.requires(()),
        oper_b.requires(()),
    ensures
        oper_a.ensures((), r.0),
        oper_b.ensures((), r.1),
;

/// The quotient `a / b` rounded up.
fn divide_round_up(a: usize, b: usize) -> (r: usize)
    requires
        a >= 1,
        b >= 1,
    ensures
        r * b >= a,
        (r - 1) * b < a,
{
    let q = (a - 1) / b;
    assert(q * b <= a - 1 && a - 1 < (q + 1) * b) by (nonlinear_arith)
        requires
            q as int == (a as int - 1) / (b as int),
            b >= 1,
            a >= 1,
    ;
    q + 1
}

/// The digits of `v` from `lo` up to `hi`, as a canonical nonnegative value.
fn magnitude_slice(v: &Vec<u32>, lo: usize, hi: usize) -> (r: Bignum)
    requires
        lo <= hi <= v.len(),
        digits_below(v@, BASE as nat),
    ensures
        r@ == canonical(magnitude(v@.subrange(lo as int, hi as int)) as int),
{
    let parts = copy_digits(v, lo, hi);
    let mut r = Bignum { parts, sign: Sign::Nonnegative };
    proof {
        lemma_digits_below_subrange(v@, lo as int, hi as int, BASE as nat);
    }
    r.normalize();
    r
}

/// Splitting a canonical magnitude of at most `2 * m` digits at `m`, or at
/// its end if it is shorter, into a low and a high half below `BASE` to the `m`.
proof fn lemma_split(s: Seq<u32>, m: nat, split: nat)
    requires
        digits_below(s, BASE as nat),
        is_trimmed(s),
        s.len() >= 3,
        m >= 1,
        s.len() <= 2 * m,
        split == if m < s.len() {
            m
        } else {
            s.len()
        },
    ensures
        magnitude(s) == magnitude(s.subrange(0, split as int)) + radix_pow(BASE as nat, m)
            * magnitude(s.subrange(split as int, s.len() as int)),
        magnitude(s.subrange(0, split as int)) < radix_pow(BASE as nat, m),
        magnitude(s.subrange(split as int, s.len() as int)) < radix_pow(BASE as nat, m),
        s.len() > m ==> magnitude(s.subrange(split as int, s.len() as int)) > 0,
        magnitude(s) > 0,
{
    let r = BASE as nat;
    let lo_s = s.subrange(0, split as int);
    let hi_s = s.subrange(split as int, s.len() as int);
    lemma_value_split(s, split as int, r);
    assert(s.take(split as int) == lo_s);
    assert(s.skip(split as int) == hi_s);
    lemma_digits_below_subrange(s, 0, split as int, r);
    lemma_digits_below_subrange(s, split as int, s.len() as int, r);
    lemma_value_bound(lo_s, r);
    lemma_value_bound(hi_s, r);
    lemma_pow_increases(r, split, m);
    lemma_pow_increases(r, (s.len() - split) as nat, m);
    if split == s.len() {
        assert(hi_s =~= Seq::<u32>::empty());
        assert(magnitude(hi_s) == 0);
        assert(radix_pow(r, m) * 0 == 0);
        assert(radix_pow(r, split) * 0 == 0);
    } else {
        assert(hi_s[hi_s.len() - 1] == s[s.len() - 1]);
        lemma_value_zero_all(hi_s, r);
        assert(hi_s[hi_s.len() - 1] != 0);
    }
    lemma_value_top(s, r);
    lemma_pow_positive(r, (s.len() - 1) as nat);
}

/// `c * BASE^(2m) + e * BASE^m + d`: the product from its three partial products.
fn combine(c: Bignum, e: Bignum, d: &Bignum, m: usize, Ghost(n): Ghost<nat>) -> (r: Bignum)
    requires
        c.wf(),
        e.wf(),
        d.wf(),
        c.value() >= 0,
        e.value() >= 0,
        d.value() >= 0,
        2 * m <= usize::MAX,
        1 <= n < usize::MAX,
        c.value() * radix_pow(BASE as nat, 2 * m as nat) + e.value() * radix_pow(BASE as nat, m as nat)
            + d.value() < radix_pow(BASE as nat, n),
    ensures
        r@ == canonical(
            c.value() * radix_pow(BASE as nat, 2 * m as nat) + e.value() * radix_pow(BASE as nat, m as nat)
                + d.value(),
        ),
{
    let ghost pn = radix_pow(BASE as nat, n) as int;
    let ghost cv = c.value() * radix_pow(BASE as nat, 2 * m as nat);
    let ghost ev = e.value() * radix_pow(BASE as nat, m as nat);
    let ghost dv = d.value();
    let ghost c0 = c.value();
    let ghost e0 = e.value();
    let mut c = c;
    let mut e = e;
    shift_left(&mut c, 2 * m);
    shift_left(&mut e, m);
    proof {
        assert(digits_below(c.parts@, BASE as nat));
        assert(digits_below(e.parts@, BASE as nat));
    }
    c.normalize();
    e.normalize();
    proof {
        lemma_pow_positive(BASE as nat, 2 * m as nat);
        lemma_pow_positive(BASE as nat, m as nat);
        assert(cv >= 0 && ev >= 0) by (nonlinear_arith)
            requires
                cv == c0 * radix_pow(BASE as nat, 2 * m as nat),
                ev == e0 * radix_pow(BASE as nat, m as nat),
                c0 >= 0,
                e0 >= 0,
        ;
        lemma_canonical(cv);
        lemma_canonical(ev);
        lemma_canonical(ev + dv);
        lemma_canonical_len(cv, n);
        lemma_canonical_len(ev, n);
        lemma_canonical_len(dv, n);
        lemma_canonical_len(ev + dv, n);
        crate::types::lemma_canonical_unique(d@);
    }
    let ed = bignum_add(&e, d);
    bignum_add(&c, &ed)
}

/// Two canonical nonnegative values whose digits fit one vector together,
/// and a cutoff at which they can be split.
pub open spec fn karatsuba_operands(a: Bignum, b: Bignum, cutoff: usize) -> bool {
    &&& cutoff >= 2
    &&& a.wf()
    &&& b.wf()
    &&& a.sign == Sign::Nonnegative
    &&& b.sign == Sign::Nonnegative
    &&& a.parts.len() + b.parts.len() < usize::MAX
}

/// The canonical form of the product of two values.
pub open spec fn canonical_product(a: Bignum, b: Bignum) -> (Sign, Seq<u32>) {
    canonical(a.value() * b.value())
}

/// The canonical form of the product of the sums of two pairs of values.
pub open spec fn canonical_cross(ah: Bignum, al: Bignum, bh: Bignum, bl: Bignum) -> (Sign, Seq<u32>) {
    canonical((ah.value() + al.value()) * (bh.value() + bl.value()))
}

/// Karatsuba product of two nonnegative values, by schoolbook multiplication
/// once either has at most `cutoff` digits.
fn karatsuba_rec(a: &Bignum, b: &Bignum, cutoff: usize) -> (r: Bignum)
    requires
        karatsuba_operands(*a, *b, cutoff),
    ensures
        r@ == canonical(a.value() * b.value()),
    decreases a.value() + b.value(),
{
    let p = a.parts.len();
    let q = b.parts.len();
    if p <= cutoff || q <= cutoff {
        return bignum_long_mult(a, b);
    }
    let m = divide_round_up(if p >= q { p } else { q }, 2);
    let a_split = if m < p { m } else { p };
    let b_split = if m < q { m } else { q };
    let a_l_b = magnitude_slice(&a.parts, 0, a_split);
    let a_h_b = magnitude_slice(&a.parts, a_split, p);
    let b_l_b = magnitude_slice(&b.parts, 0, b_split);
    let b_h_b = magnitude_slice(&b.parts, b_split, q);
    proof {
        split_facts(*a, *b, a_l_b, a_h_b, b_l_b, b_h_b, m as nat, a_split as nat, b_split as nat);
    }
    let c = karatsuba_rec(&a_h_b, &b_h_b, cutoff);
    let d = karatsuba_rec(&a_l_b, &b_l_b, cutoff);
    let a_sum = bignum_add(&a_h_b, &a_l_b);
    let b_sum = bignum_add(&b_h_b, &b_l_b);
    proof {
        sum_facts(a_h_b, a_l_b, b_h_b, b_l_b, a_sum, b_sum, m as nat, (p + q) as nat);
    }
    let cross = karatsuba_rec(&a_sum, &b_sum, cutoff);
    proof {
        product_facts(*a, *b, a_l_b, a_h_b, b_l_b, b_h_b, c, d, cross, m as nat);
    }
    let cross_minus_c = bignum_sub(&cross, &c);
    proof {
        lemma_canonical(cross.value() - c.value());
        lemma_canonical_len(cross.value() - c.value(), 2 * m as nat + 2);
    }
    let e = bignum_sub(&cross_minus_c, &d);
    proof {
        lemma_canonical(cross.value() - c.value() - d.value());
    }
    combine(c, e, &d, m, Ghost((p + q) as nat))
}

/// The bounds on the operands that Karatsuba splits, on their halves, and
/// on the three measures that its recursive calls decrease.
proof fn split_facts(
    a: Bignum,
    b: Bignum,
    al: Bignum,
    ah: Bignum,
    bl: Bignum,
    bh: Bignum,
    m: nat,
    a_split: nat,
    b_split: nat,
)
    requires
        a.wf(),
        b.wf(),
        a.sign == Sign::Nonnegative,
        b.sign == Sign::Nonnegative,
        a.parts.len() >= 3,
        b.parts.len() >= 3,
        a.parts.len() + b.parts.len() < usize::MAX,
        m >= 1,
        m * 2 >= a.parts.len(),
        m * 2 >= b.parts.len(),
        (m - 1) * 2 < a.parts.len() || (m - 1) * 2 < b.parts.len(),
        a_split == if m < a.parts.len() {
            m
        } else {
            a.parts.len() as nat
        },
        b_split == if m < b.parts.len() {
            m
        } else {
            b.parts.len() as nat
        },
        al@ == canonical(magnitude(a.parts@.subrange(0, a_split as int)) as int),
        ah@ == canonical(magnitude(a.parts@.subrange(a_split as int, a.parts.len() as int)) as int),
        bl@ == canonical(magnitude(b.parts@.subrange(0, b_split as int)) as int),
        bh@ == canonical(magnitude(b.parts@.subrange(b_split as int, b.parts.len() as int)) as int),
    ensures
        al.wf() && ah.wf() && bl.wf() && bh.wf(),
        al.sign == Sign::Nonnegative && ah.sign == Sign::Nonnegative,
        bl.sign == Sign::Nonnegative && bh.sign == Sign::Nonnegative,
        a.value() == al.value() + radix_pow(BASE as nat, m) * ah.value(),
        b.value() == bl.value() + radix_pow(BASE as nat, m) * bh.value(),
        0 <= al.value() < radix_pow(BASE as nat, m),
        0 <= ah.value() < radix_pow(BASE as nat, m),
        0 <= bl.value() < radix_pow(BASE as nat, m),
        0 <= bh.value() < radix_pow(BASE as nat, m),
        al.parts.len() <= m && ah.parts.len() <= m,
        bl.parts.len() <= m && bh.parts.len() <= m,
        2 * m + 2 <= a.parts.len() + b.parts.len(),
        0 <= ah.value() + bh.value() < a.value() + b.value(),
        0 <= al.value() + bl.value() < a.value() + b.value(),
        ah.value() + al.value() + bh.value() + bl.value() < a.value() + b.value(),
{
    let r = BASE as nat;
    lemma_split(a.parts@, m, a_split);
    lemma_split(b.parts@, m, b_split);
    let alv = magnitude(a.parts@.subrange(0, a_split as int)) as int;
    let ahv = magnitude(a.parts@.subrange(a_split as int, a.parts.len() as int)) as int;
    let blv = magnitude(b.parts@.subrange(0, b_split as int)) as int;
    let bhv = magnitude(b.parts@.subrange(b_split as int, b.parts.len() as int)) as int;
    lemma_canonical(alv);
    lemma_canonical(ahv);
    lemma_canonical(blv);
    lemma_canonical(bhv);
    lemma_canonical_len(alv, m);
    lemma_canonical_len(ahv, m);
    lemma_canonical_len(blv, m);
    lemma_canonical_len(bhv, m);
    let pm = radix_pow(r, m) as int;
    lemma_pow_increases(r, 1, m);
    assert(radix_pow(r, 1) == r) by {
        assert(radix_pow(r, 0) == 1);
        assert(r * 1 == r);
    }
    assert(pm >= 2);
    let av = a.value();
    let bv = b.value();
    assert(ahv < av) by (nonlinear_arith)
        requires
            av == alv + pm * ahv,
            av > 0,
            pm >= 2,
            alv >= 0,
            ahv >= 0,
    ;
    assert(bhv < bv) by (nonlinear_arith)
        requires
            bv == blv + pm * bhv,
            bv > 0,
            pm >= 2,
            blv >= 0,
            bhv >= 0,
    ;
    assert(ahv + alv <= av && (ahv > 0 ==> ahv + alv < av)) by (nonlinear_arith)
        requires
            av == alv + pm * ahv,
            pm >= 2,
            ahv >= 0,
    ;
    assert(bhv + blv <= bv && (bhv > 0 ==> bhv + blv < bv)) by (nonlinear_arith)
        requires
            bv == blv + pm * bhv,
            pm >= 2,
            bhv >= 0,
    ;
    assert(ahv > 0 || bhv > 0);
}

/// The sums of the halves are canonical, nonnegative, and short enough to
/// multiply.
proof fn sum_facts(
    ah: Bignum,
    al: Bignum,
    bh: Bignum,
    bl: Bignum,
    a_sum: Bignum,
    b_sum: Bignum,
    m: nat,
    n: nat,
)
    requires
        m >= 1,
        2 * m + 2 <= n < usize::MAX,
        0 <= al.value() < radix_pow(BASE as nat, m),
        0 <= ah.value() < radix_pow(BASE as nat, m),
        0 <= bl.value() < radix_pow(BASE as nat, m),
        0 <= bh.value() < radix_pow(BASE as nat, m),
        a_sum@ == canonical(ah.value() + al.value()),
        b_sum@ == canonical(bh.value() + bl.value()),
    ensures
        a_sum.wf() && b_sum.wf(),
        a_sum.sign == Sign::Nonnegative && b_sum.sign == Sign::Nonnegative,
        a_sum.value() == ah.value() + al.value(),
        b_sum.value() == bh.value() + bl.value(),
        a_sum.parts.len() + b_sum.parts.len() < usize::MAX,
        a_sum.value() < radix_pow(BASE as nat, m + 1),
        b_sum.value() < radix_pow(BASE as nat, m + 1),
{
    let r = BASE as nat;
    lemma_canonical(ah.value() + al.value());
    lemma_canonical(bh.value() + bl.value());
    assert(radix_pow(r, m + 1) == r * radix_pow(r, m));
    assert(2 * radix_pow(r, m) <= r * radix_pow(r, m)) by (nonlinear_arith)
        requires
            r >= 2,
    ;
    lemma_canonical_len(ah.value() + al.value(), m + 1);
    lemma_canonical_len(bh.value() + bl.value(), m + 1);
}

/// The partial products are canonical and short, and recombine to `a * b`.
proof fn product_facts(
    a: Bignum,
    b: Bignum,
    al: Bignum,
    ah: Bignum,
    bl: Bignum,
    bh: Bignum,
    c: Bignum,
    d: Bignum,
    cross: Bignum,
    m: nat,
)
    requires
        m >= 1,
        2 * m + 2 <= a.parts.len() + b.parts.len() < usize::MAX,
        a.wf(),
        b.wf(),
        a.value() == al.value() + radix_pow(BASE as nat, m) * ah.value(),
        b.value() == bl.value() + radix_pow(BASE as nat, m) * bh.value(),
        0 <= al.value() < radix_pow(BASE as nat, m),
        0 <= ah.value() < radix_pow(BASE as nat, m),
        0 <= bl.value() < radix_pow(BASE as nat, m),
        0 <= bh.value() < radix_pow(BASE as nat, m),
        c@ == canonical(ah.value() * bh.value()),
        d@ == canonical(al.value() * bl.value()),
        cross@ == canonical((ah.value() + al.value()) * (bh.value() + bl.value())),
    ensures
        c.wf() && d.wf() && cross.wf(),
        c.value() == ah.value() * bh.value(),
        d.value() == al.value() * bl.value(),
        cross.value() == (ah.value() + al.value()) * (bh.value() + bl.value()),
        c.value() >= 0 && d.value() >= 0,
        cross.value() - c.value() - d.value() == ah.value() * bl.value() + al.value() * bh.value(),
        cross.value() - c.value() >= 0,
        cross.value() - c.value() < radix_pow(BASE as nat, 2 * m + 2),
        cross.parts.len() < usize::MAX,
        c.parts.len() < usize::MAX,
        d.parts.len() < usize::MAX,
        c.value() * radix_pow(BASE as nat, 2 * m) + (cross.value() - c.value() - d.value())
            * radix_pow(BASE as nat, m) + d.value() == a.value() * b.value(),
        a.value() * b.value() < radix_pow(BASE as nat, (a.parts.len() + b.parts.len()) as nat),
{
    let r = BASE as nat;
    let pm = radix_pow(r, m) as int;
    let x = ah.value();
    let y = al.value();
    let u = bh.value();
    let w = bl.value();
    assert(x * u >= 0 && y * w >= 0 && (x + y) * (u + w) >= 0) by (nonlinear_arith)
        requires
            x >= 0,
            y >= 0,
            u >= 0,
            w >= 0,
    ;
    lemma_canonical(x * u);
    lemma_canonical(y * w);
    lemma_canonical((x + y) * (u + w));
    lemma_pow_adds(r, m, m);
    lemma_pow_adds(r, m + 1, m + 1);
    let p1 = radix_pow(r, m + 1) as int;
    assert(p1 == r * pm);
    assert(2 * pm <= p1) by (nonlinear_arith)
        requires
            p1 == r * pm,
            r >= 2,
            pm >= 0,
    ;
    assert((x + y) * (u + w) < p1 * p1) by (nonlinear_arith)
        requires
            0 <= x + y < p1,
            0 <= u + w < p1,
    ;
    assert(x * u <= (x + y) * (u + w) && y * w <= (x + y) * (u + w)) by (nonlinear_arith)
        requires
            x >= 0,
            y >= 0,
            u >= 0,
            w >= 0,
    ;
    lemma_canonical_len((x + y) * (u + w), 2 * m + 2);
    lemma_canonical_len(x * u, 2 * m + 2);
    lemma_canonical_len(y * w, 2 * m + 2);
    assert((x + y) * (u + w) - x * u - y * w == x * w + y * u) by (nonlinear_arith);
    assert(x * w + y * u >= 0) by (nonlinear_arith)
        requires
            x >= 0,
            y >= 0,
            u >= 0,
            w >= 0,
    ;
    assert((y + pm * x) * (w + pm * u) == y * (w + pm * u) + (pm * x) * (w + pm * u))
        by (nonlinear_arith);
    assert(y * (w + pm * u) == y * w + (y * u) * pm) by (nonlinear_arith);
    assert((pm * x) * (w + pm * u) == (x * w) * pm + (x * u) * (pm * pm)) by (nonlinear_arith);
    assert((x * w + y * u) * pm == (x * w) * pm + (y * u) * pm) by (nonlinear_arith);
    lemma_value_bound(a.parts@, r);
    lemma_value_bound(b.parts@, r);
    lemma_pow_adds(r, a.parts.len() as nat, b.parts.len() as nat);
    let av = a.value();
    let bv = b.value();
    let pa = radix_pow(r, a.parts.len() as nat) as int;
    let pb = radix_pow(r, b.parts.len() as nat) as int;
    assert(av * bv < pa * pb) by (nonlinear_arith)
        requires
            0 <= av < pa,
            0 <= bv < pb,
    ;
}

/// `karatsuba_rec` with its three partial products computed in a fork-join
/// split: one branch computes the high product while the other forks again
/// for the low product and the product of the sums.
fn karatsuba_rec_parallel(a: &Bignum, b: &Bignum, cutoff: usize) -> (r: Bignum)
    requires
        karatsuba_operands(*a, *b, cutoff),
    ensures
        r@ == canonical(a.value() * b.value()),
{
    let p = a.parts.len();
    let q = b.parts.len();
    if p <= cutoff || q <= cutoff {
        return bignum_long_mult(a, b);
    }
    let m = divide_round_up(if p >= q { p } else { q }, 2);
    let a_split = if m < p { m } else { p };
    let b_split = if m < q { m } else { q };
    let a_l_b = magnitude_slice(&a.parts, 0, a_split);
    let a_h_b = magnitude_slice(&a.parts, a_split, p);
    let b_l_b = magnitude_slice(&b.parts, 0, b_split);
    let b_h_b = magnitude_slice(&b.parts, b_split, q);
    proof {
        split_facts(*a, *b, a_l_b, a_h_b, b_l_b, b_h_b, m as nat, a_split as nat, b_split as nat);
    }
    let ghost n = (p + q) as nat;
    let high = || -> (c: Bignum)
        requires
            karatsuba_operands(a_h_b, b_h_b, cutoff),
        ensures
            c@ == canonical_product(a_h_b, b_h_b),
        { karatsuba_rec(&a_h_b, &b_h_b, cutoff) };
    let low = || -> (d: Bignum)
        requires
            karatsuba_operands(a_l_b, b_l_b, cutoff),
        ensures
            d@ == canonical_product(a_l_b, b_l_b),
        { karatsuba_rec(&a_l_b, &b_l_b, cutoff) };
    let sums = || -> (cross: Bignum)
        requires
            cutoff >= 2,
            m >= 1,
            2 * m + 2 <= n < usize::MAX,
            0 <= a_l_b.value() < radix_pow(BASE as nat, m as nat),
            0 <= a_h_b.value() < radix_pow(BASE as nat, m as nat),
            0 <= b_l_b.value() < radix_pow(BASE as nat, m as nat),
            0 <= b_h_b.value() < radix_pow(BASE as nat, m as nat),
            a_h_b.wf() && b_h_b.wf() && a_l_b.wf() && b_l_b.wf(),
            a_h_b.parts.len() <= m && b_h_b.parts.len() <= m,
            a_l_b.parts.len() <= m && b_l_b.parts.len() <= m,
        ensures
            cross@ == canonical_cross(a_h_b, a_l_b, b_h_b, b_l_b),
        {
            let a_sum = bignum_add(&a_h_b, &a_l_b);
            let b_sum = bignum_add(&b_h_b, &b_l_b);
            proof {
                sum_facts(a_h_b, a_l_b, b_h_b, b_l_b, a_sum, b_sum, m as nat, n);
            }
            karatsuba_rec(&a_sum, &b_sum, cutoff)
        };
    let rest = move || -> (r: (Bignum, Bignum))
        requires
            call_requires(low, ()),
            call_requires(sums, ()),
        ensures
            call_ensures(low, (), r.0),
            call_ensures(sums, (), r.1),
        { rayon::join(low, sums) };
    let (c, (d, cross)) = rayon::join(high, rest);
    proof {
        product_facts(*a, *b, a_l_b, a_h_b, b_l_b, b_h_b, c, d, cross, m as nat);
    }
    let cross_minus_c = bignum_sub(&cross, &c);
    proof {
        lemma_canonical(cross.value() - c.value());
        lemma_canonical_len(cross.value() - c.value(), 2 * m as nat + 2);
    }
    let e = bignum_sub(&cross_minus_c, &d);
    proof {
        lemma_canonical(cross.value() - c.value() - d.value());
    }
    combine(c, e, &d, m, Ghost((p + q) as nat))
}

/// The product `a * b` by Karatsuba's method, falling back to schoolbook
/// multiplication for operands of at most `cutoff` digits; with `parallel`,
/// the three partial products of the top level are computed concurrently.
/// A `cutoff` below two is refused.
pub fn bignum_karatsuba_mult(a: &Bignum, b: &Bignum, cutoff: usize, parallel: bool) -> (r: Result<
    Bignum,
    InvalidCutoff,
>)
    requires
        a.wf(),
        b.wf(),
        a.parts.len() + b.parts.len() < usize::MAX,
    ensures
        r is Err <==> cutoff < 2,
        r matches Ok(product) ==> product@ == canonical(a.value() * b.value()) && product.wf(),
{
    proof {
        lemma_canonical(a.value() * b.value());
    }
    if cutoff < 2 {
        return Err(InvalidCutoff);
    }
    let sign = match (a.sign, b.sign) {
        (Sign::Nonnegative, Sign::Nonnegative) => Sign::Nonnegative,
        (Sign::Nonnegative, Sign::Negative) => Sign::Negative,
        (Sign::Negative, Sign::Nonnegative) => Sign::Negative,
        (Sign::Negative, Sign::Negative) => Sign::Nonnegative,
    };
    let a_mag = Bignum { parts: copy_digits(&a.parts, 0, a.parts.len()), sign: Sign::Nonnegative };
    let b_mag = Bignum { parts: copy_digits(&b.parts, 0, b.parts.len()), sign: Sign::Nonnegative };
    proof {
        assert(a.parts@.subrange(0, a.parts@.len() as int) =~= a.parts@);
        assert(b.parts@.subrange(0, b.parts@.len() as int) =~= b.parts@);
    }
    let result = if parallel {
        karatsuba_rec_parallel(&a_mag, &b_mag, cutoff)
    } else {
        karatsuba_rec(&a_mag, &b_mag, cutoff)
    };
    let mut product = Bignum { parts: result.parts, sign };
    proof {
        let x = magnitude(a.parts@) as int;
        let y = magnitude(b.parts@) as int;
        assert(x * y >= 0) by (nonlinear_arith)
            requires
                x >= 0,
                y >= 0,
        ;
        lemma_canonical(x * y);
        assert((-x) * y == -(x * y)) by (nonlinear_arith);
        assert(x * (-y) == -(x * y)) by (nonlinear_arith);
        assert((-x) * (-y) == x * y) by (nonlinear_arith);
    }
    product.normalize();
    Ok(product)
}

} // verus!
