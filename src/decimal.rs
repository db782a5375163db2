//! Decimal text: what a numeral denotes, the canonical numeral of a number,
//! and conversions between text and little-endian decimal digits.
use vstd::prelude::*;
use crate::digits::{
    digits_below, is_trimmed, lemma_radix_digits, lemma_radix_digits_unique, radix_digits,
    radix_value,
};

verus! {

/// An ASCII decimal digit.
pub open spec fn is_digit_char(c: char) -> bool {
    '0' <= c <= '9'
}

/// Every character of `s` is a decimal digit.
pub open spec fn all_digit_chars(s: Seq<char>) -> bool {
    forall|i: int| 0 <= i < s.len() ==> is_digit_char(#[trigger] s[i])
}

/// The value of a decimal digit character.
pub open spec fn char_digit(c: char) -> u32 {
    (c as u32 - '0' as u32) as u32
}

/// The character of a decimal digit.
pub open spec fn digit_char(d: u32) -> char {
    ((d + 48) as u8) as char
}

/// The digits of decimal text, least significant first.
pub open spec fn text_digits(s: Seq<char>) -> Seq<u32> {
    Seq::new(s.len(), |i: int| char_digit(s[s.len() - 1 - i]))
}

/// The text of little-endian decimal digits, most significant first.
pub open spec fn digits_text(d: Seq<u32>) -> Seq<char> {
    Seq::new(d.len(), |i: int| digit_char(d[d.len() - 1 - i]))
}

/// The number that a string of decimal digits denotes (zero for no digits).
pub open spec fn decimal_value(s: Seq<char>) -> nat {
    radix_value(text_digits(s), 10)
}

/// The decimal numeral of `n`, without leading zeros.
pub open spec fn decimal_text(n: nat) -> Seq<char> {
    digits_text(radix_digits(n, 10))
}

/// The numeral of `v`: its decimal numeral, after `-` when negative.
pub open spec fn signed_text(v: int) -> Seq<char> {
    if v < 0 {
        seq!['-'] + decimal_text((-v) as nat)
    } else {
        decimal_text(v as nat)
    }
}

/// Whether `s` starts with a minus sign.
pub open spec fn has_minus(s: Seq<char>) -> bool {
    s.len() > 0 && s[0] == '-'
}

/// `s` without its leading minus sign, if it has one.
pub open spec fn numeral_body(s: Seq<char>) -> Seq<char> {
    if has_minus(s) {
        s.skip(1)
    } else {
        s
    }
}

/// An optional `-` followed by one or more decimal digits.
pub open spec fn is_numeral(s: Seq<char>) -> bool {
    numeral_body(s).len() >= 1 && all_digit_chars(numeral_body(s))
}

/// The integer that a numeral denotes.
pub open spec fn numeral_value(s: Seq<char>) -> int {
    if has_minus(s) {
        -(decimal_value(s.skip(1)) as int)
    } else {
        decimal_value(s) as int
    }
}

/// A numeral in canonical form: no leading zero but in `0` itself, and no `-0`.
pub open spec fn is_canonical_numeral(s: Seq<char>) -> bool {
    &&& is_numeral(s)
    &&& (numeral_body(s).len() == 1 || numeral_body(s)[0] != '0')
    &&& !(has_minus(s) && numeral_body(s) == seq!['0'])
}

/// The character of a decimal digit is a digit character with that value.
pub proof fn lemma_digit_char(d: u32)
    requires
        d < 10,
    ensures
        is_digit_char(digit_char(d)),
        char_digit(digit_char(d)) == d,
{
}

/// A digit character is the character of its value.
pub proof fn lemma_char_digit(c: char)
    requires
        is_digit_char(c),
    ensures
        char_digit(c) < 10,
        digit_char(char_digit(c)) == c,
{
}

/// The digits of decimal text are decimal digits, and give the text back.
pub proof fn lemma_text_digits(s: Seq<char>)
    requires
        all_digit_chars(s),
    ensures
        digits_below(text_digits(s), 10),
        digits_text(text_digits(s)) == s,
{
    let d = text_digits(s);
    assert forall|i: int| 0 <= i < d.len() implies (#[trigger] d[i] as nat) < 10 by {
        lemma_char_digit(s[s.len() - 1 - i]);
    }
    assert forall|i: int| 0 <= i < s.len() implies #[trigger] digits_text(d)[i] == s[i] by {
        lemma_char_digit(s[i]);
        assert(d[d.len() - 1 - i] == char_digit(s[i]));
    }
    assert(digits_text(d) =~= s);
}

/// The text of decimal digits is decimal text, and gives the digits back.
pub proof fn lemma_digits_text(d: Seq<u32>)
    requires
        digits_below(d, 10),
    ensures
        all_digit_chars(digits_text(d)),
        text_digits(digits_text(d)) == d,
{
    let s = digits_text(d);
    assert forall|i: int| 0 <= i < s.len() implies is_digit_char(#[trigger] s[i]) by {
        lemma_digit_char(d[d.len() - 1 - i]);
    }
    assert forall|i: int| 0 <= i < d.len() implies #[trigger] text_digits(s)[i] == d[i] by {
        lemma_digit_char(d[i]);
        assert(s[s.len() - 1 - i] == digit_char(d[i]));
    }
    assert(text_digits(s) =~= d);
}

/// The decimal numeral of a number is decimal text, denotes that number, and
/// has no leading zero unless it is `0`.
pub proof fn lemma_decimal_text(n: nat)
    ensures
        all_digit_chars(decimal_text(n)),
        decimal_value(decimal_text(n)) == n,
        decimal_text(n).len() >= 1,
        decimal_text(n).len() == 1 || decimal_text(n)[0] != '0',
        decimal_text(n) == seq!['0'] <==> n == 0,
{
    let d = radix_digits(n, 10);
    lemma_radix_digits(n, 10);
    lemma_digits_text(d);
    let s = decimal_text(n);
    if s.len() > 1 {
        assert(s[0] == digit_char(d[d.len() - 1]));
        lemma_digit_char(d[d.len() - 1]);
        assert(char_digit(s[0]) != 0);
    }
    crate::digits::lemma_value_zero_iff(d, 10);
    if n == 0 {
        assert(d.len() == 1 && d[0] == 0);
        assert(s =~= seq!['0']);
    }
    if s == seq!['0'] {
        assert(d[0] == char_digit(s[0]));
    }
}

/// Decimal text without a leading zero (or the single digit `0`) is the
/// decimal numeral of its own value.
pub proof fn lemma_decimal_text_unique(s: Seq<char>)
    requires
        all_digit_chars(s),
        s.len() >= 1,
        s.len() == 1 || s[0] != '0',
    ensures
        decimal_text(decimal_value(s)) == s,
{
    let d = text_digits(s);
    lemma_text_digits(s);
    if s.len() > 1 {
        lemma_char_digit(s[0]);
        assert(d[d.len() - 1] == char_digit(s[0]));
        if char_digit(s[0]) == 0 {
            assert(digit_char(char_digit(s[0])) == '0');
        }
    }
    assert(is_trimmed(d));
    lemma_radix_digits_unique(d, 10);
}

/// Formatting the value of a canonical numeral gives back the numeral.
pub proof fn lemma_numeral_round_trip(s: Seq<char>)
    requires
        is_canonical_numeral(s),
    ensures
        signed_text(numeral_value(s)) == s,
{
    let body = numeral_body(s);
    lemma_decimal_text_unique(body);
    lemma_decimal_text(decimal_value(body));
    if has_minus(s) {
        assert(decimal_value(body) != 0);
        assert(seq!['-'] + body =~= s);
    }
}

/// The value of a decimal digit character.
pub fn char_to_digit(c: char) -> (d: u32)
    requires
        is_digit_char(c),
    ensures
        d == char_digit(c),
        d < 10,
{
    c as u32 - '0' as u32
}

/// The character of a decimal digit.
pub fn digit_to_char(part: u32) -> (c: char)
    requires
        part < 10,
    ensures
        c == digit_char(part),
{
    ((part as u8) + 48u8) as char
}

/// The digits of decimal text, least significant first.
pub fn text_to_digits(s: &str) -> (d: Vec<u32>)
    requires
        all_digit_chars(s@),
    ensures
        d@ == text_digits(s@),
{
    let n = s.unicode_len();
    let mut d: Vec<u32> = Vec::new();
    let mut i: usize = n;
    while i > 0
        invariant
            n == s@.len(),
            i <= n,
            all_digit_chars(s@),
            d@ == Seq::new((n - i) as nat, |k: int| char_digit(s@[n - 1 - k])),
        decreases i,
    {
        i -= 1;
        let c = s.get_char(i);
        d.push(char_to_digit(c));
        assert(d@ =~= Seq::new((n - i) as nat, |k: int| char_digit(s@[n - 1 - k])));
    }
    assert(d@ =~= text_digits(s@));
    d
}

/// The text of little-endian decimal digits.
pub fn digits_to_string(d: &Vec<u32>) -> (s: String)
    requires
        digits_below(d@, 10),
    ensures
        s@ == digits_text(d@),
{
    let mut s = String::new();
    let mut i: usize = d.len();
    while i > 0
        invariant
            i <= d.len(),
            digits_below(d@, 10),
            s@ == Seq::new((d.len() - i) as nat, |k: int| digit_char(d@[d.len() - 1 - k])),
        decreases i,
    {
        i -= 1;
        let c = digit_to_char(d[i]);
        s.append(digit_str(c));
        assert(s@ =~= Seq::new((d.len() - i) as nat, |k: int| digit_char(d@[d.len() - 1 - k])));
    }
    assert(s@ =~= digits_text(d@));
    s
}

/// The one-character text of a decimal digit character.
fn digit_str(c: char) -> (s: &'static str)
    requires
        is_digit_char(c),
    ensures
        s@ == seq![c],
{
    proof {
        reveal_strlit("0");
        reveal_strlit("1");
        reveal_strlit("2");
        reveal_strlit("3");
        reveal_strlit("4");
        reveal_strlit("5");
        reveal_strlit("6");
        reveal_strlit("7");
        reveal_strlit("8");
        reveal_strlit("9");
    }
    match c {
        '0' => "0",
        '1' => "1",
        '2' => "2",
        '3' => "3",
        '4' => "4",
        '5' => "5",
        '6' => "6",
        '7' => "7",
        '8' => "8",
        _ => "9",
    }
}

/// The canonical decimal digits of `n`, least significant first.
pub fn u32_to_digits(n: u32) -> (d: Vec<u32>)
    ensures
        d@ == radix_digits(n as nat, 10),
{
    let mut d: Vec<u32> = Vec::new();
    let mut rest = n;
    while rest >= 10
        invariant
            d@ + radix_digits(rest as nat, 10) == radix_digits(n as nat, 10),
        decreases rest,
    {
        let ghost before = d@;
        d.push(rest % 10);
        assert(radix_digits(rest as nat, 10) == seq![(rest % 10) as u32] + radix_digits(
            (rest / 10) as nat,
            10,
        ));
        rest = rest / 10;
        assert(d@ + radix_digits(rest as nat, 10) =~= before + (seq![(d@.last())] + radix_digits(
            rest as nat,
            10,
        )));
    }
    let ghost before = d@;
    d.push(rest);
    assert(radix_digits(rest as nat, 10) == seq![rest]);
    assert(d@ =~= before + radix_digits(rest as nat, 10));
    d
}

} // verus!
