//! Quality weights: the value of a `q` parameter in a list of accepted
//! codings.
//!
//! A weight is written as a decimal number, with an optional sign, fraction
//! and exponent, and is read as a single-precision floating-point number.
//! Only one thing is asked of it: whether it excludes the coding it belongs
//! to. It does so when it is zero, and also when it is not a number at all.
//! A number so small that the nearest floating-point number is zero counts
//! as zero.

use vstd::prelude::*;
use vstd::arithmetic::power::{
    lemma_pow0, lemma_pow1, lemma_pow_adds, lemma_pow_distributes, lemma_pow_multiplies,
    lemma_pow_positive, pow,
};
use vstd::slice::slice_subrange;

use crate::digits::{
    all_digits, at_most_padded, digit_of, is_digit, leading_zeros, lemma_five_below_ten,
    lemma_number_leading_zeros, lemma_number_lower, lemma_number_trailing_zeros,
    lemma_number_upper, lemma_number_zero, lemma_pow10, lemma_pow10_grows, number, padded,
    power_of_five,
};
use crate::text::{trim, trimmed};

verus! {

/// The end of the run of digits that starts at `from`.
pub open spec fn digits_end(s: Seq<char>, from: int) -> int
    decreases s.len() - from,
{
    if 0 <= from < s.len() && is_digit(s[from]) {
        digits_end(s, from + 1)
    } else {
        from
    }
}

/// `s` without the sign that it may start with.
pub open spec fn unsigned(s: Seq<char>) -> Seq<char> {
    if s.len() > 0 && (s[0] == '+' || s[0] == '-') {
        s.skip(1)
    } else {
        s
    }
}

/// Whether `s` is `word`, a word in lower case, in whatever case.
pub open spec fn spells(s: Seq<char>, word: Seq<char>) -> bool {
    &&& s.len() == word.len()
    &&& forall|i: int|
        0 <= i < s.len() ==> (#[trigger] s[i] == word[i] || s[i] as u32 + 0x20 == word[i] as u32)
}

/// Whether `s` names an infinity or a value that is no number. Such a weight
/// is a weight and is not zero.
pub open spec fn is_special(s: Seq<char>) -> bool {
    ||| spells(s, seq!['i', 'n', 'f'])
    ||| spells(s, seq!['n', 'a', 'n'])
    ||| spells(s, seq!['i', 'n', 'f', 'i', 'n', 'i', 't', 'y'])
}

/// A decimal number as it is written.
pub struct Decimal {
    /// The digits before and behind the point, in order.
    pub digits: Seq<char>,
    /// How many of the digits stand behind the point.
    pub fraction: nat,
    /// The power of ten that follows `e`; zero where none is written.
    pub exponent: int,
}

/// The least positive single-precision number is 2^-149. What is at most half
/// of it, 2^-150, is nearer to zero than to it, or as near, and rounds to
/// zero.
pub const TINY: usize = 150;

/// Whether `mantissa` times ten to the `scale` rounds to zero: it is at most
/// 2^-150.
pub open spec fn rounds_to_zero(mantissa: nat, scale: int) -> bool {
    if scale >= 0 {
        mantissa == 0
    } else {
        mantissa * pow(2, TINY as nat) <= pow(10, (-scale) as nat)
    }
}

/// The exponent that a sign and a size make.
pub open spec fn power_of(negative: bool, size: nat) -> int {
    if negative {
        -(size as int)
    } else {
        size as int
    }
}

impl Decimal {
    /// Whether the number rounds to zero.
    pub open spec fn is_zero(self) -> bool {
        rounds_to_zero(number(self.digits), self.exponent - self.fraction)
    }
}

/// The decimal number that `s` writes, if it writes one: digits with at most
/// one point among them, at least one digit in all, and then, if anything,
/// `e` or `E`, an optional sign, and at least one digit, up to the end.
pub open spec fn decimal(s: Seq<char>) -> Option<Decimal> {
    let int_end = digits_end(s, 0);
    let has_point = int_end < s.len() && s[int_end] == '.';
    let frac_start = if has_point {
        int_end + 1
    } else {
        int_end
    };
    let frac_end = digits_end(s, frac_start);
    let digits = s.subrange(0, int_end) + s.subrange(frac_start, frac_end);
    let fraction = (frac_end - frac_start) as nat;
    if digits.len() == 0 {
        None
    } else if frac_end == s.len() {
        Some(Decimal { digits, fraction, exponent: 0 })
    } else if s[frac_end] == 'e' || s[frac_end] == 'E' {
        let signed = frac_end + 1 < s.len() && (s[frac_end + 1] == '+' || s[frac_end + 1] == '-');
        let negative = signed && s[frac_end + 1] == '-';
        let exp_start = if signed {
            frac_end + 2
        } else {
            frac_end + 1
        };
        let exp_end = digits_end(s, exp_start);
        if exp_start < exp_end && exp_end == s.len() {
            let size = number(s.subrange(exp_start, exp_end));
            Some(Decimal { digits, fraction, exponent: power_of(negative, size) })
        } else {
            None
        }
    } else {
        None
    }
}

/// Whether a weight written as `text` excludes its coding: with the white
/// space around it and its sign left off, it is a decimal number that rounds
/// to zero, or it is neither a decimal number nor a special value.
pub open spec fn weight_excludes(text: Seq<char>) -> bool {
    let body = unsigned(trimmed(text));
    if is_special(body) {
        false
    } else {
        match decimal(body) {
            Some(d) => d.is_zero(),
            None => true,
        }
    }
}

proof fn lemma_digits_end(s: Seq<char>, from: int)
    requires
        0 <= from <= s.len(),
    ensures
        from <= digits_end(s, from) <= s.len(),
        digits_end(s, from) < s.len() ==> !is_digit(s[digits_end(s, from)]),
        forall|j: int| from <= j < digits_end(s, from) ==> is_digit(s[j]),
    decreases s.len() - from,
{
    if from < s.len() && is_digit(s[from]) {
        lemma_digits_end(s, from + 1);
    }
}

/// Whether `c` is a decimal digit.
fn is_digit_char(c: char) -> (digit: bool)
    ensures
        digit == is_digit(c),
{
    digit_of(c).is_some()
}

/// The end of the run of digits that starts at `from`.
fn scan_digits(s: &[char], from: usize) -> (end: usize)
    requires
        from <= s@.len(),
    ensures
        end == digits_end(s@, from as int),
        from <= end <= s@.len(),
{
    let mut i: usize = from;
    while i < s.len() && is_digit_char(s[i])
        invariant
            from <= i <= s@.len(),
            digits_end(s@, from as int) == digits_end(s@, i as int),
        decreases s@.len() - i,
    {
        i = i + 1;
    }
    i
}

/// Whether `c` is the lower-case letter `letter` in either case.
fn is_letter(c: char, letter: char) -> (same: bool)
    requires
        0x61 <= letter as u32 <= 0x7A,
    ensures
        same == (c == letter || c as u32 + 0x20 == letter as u32),
{
    let n: u32 = c as u32;
    let l: u32 = letter as u32;
    n == l || n == l - 0x20
}

/// Whether `s` names an infinity or a value that is no number.
fn is_special_word(s: &[char]) -> (special: bool)
    ensures
        special == is_special(s@),
{
    if s.len() == 3 {
        (is_letter(s[0], 'i') && is_letter(s[1], 'n') && is_letter(s[2], 'f')) || (is_letter(
            s[0],
            'n',
        ) && is_letter(s[1], 'a') && is_letter(s[2], 'n'))
    } else if s.len() == 8 {
        is_letter(s[0], 'i') && is_letter(s[1], 'n') && is_letter(s[2], 'f') && is_letter(s[3], 'i')
            && is_letter(s[4], 'n') && is_letter(s[5], 'i') && is_letter(s[6], 't') && is_letter(
            s[7],
            'y',
        )
    } else {
        false
    }
}

/// `s` without the sign that it may start with.
fn without_sign(s: &[char]) -> (body: &[char])
    ensures
        body@ == unsigned(s@),
{
    if s.len() > 0 && (s[0] == '+' || s[0] == '-') {
        slice_subrange(s, 1, s.len())
    } else {
        s
    }
}

/// Two is more than ten to the power of 45 when raised to the power of 150.
proof fn lemma_two_above_ten()
    ensures
        pow(10, 45) < pow(2, 150),
{
    lemma_pow_multiplies(2, 10, 15);
    lemma_pow_multiplies(10, 3, 15);
    assert(pow(2, 10) == 1024) by {
        reveal_with_fuel(pow, 11);
    }
    assert(pow(10, 3) == 1000) by {
        reveal_with_fuel(pow, 4);
    }
    lemma_pow_base_grows(1000, 1024, 15);
}

/// A greater base gives a greater power.
proof fn lemma_pow_base_grows(a: int, b: int, e: nat)
    requires
        0 < a < b,
        e > 0,
    ensures
        0 < pow(a, e) < pow(b, e),
    decreases e,
{
    lemma_pow_adds(a, 1, (e - 1) as nat);
    lemma_pow_adds(b, 1, (e - 1) as nat);
    lemma_pow1(a);
    lemma_pow1(b);
    lemma_pow_positive(a, (e - 1) as nat);
    lemma_pow_positive(b, (e - 1) as nat);
    let x = pow(a, (e - 1) as nat);
    let y = pow(b, (e - 1) as nat);
    if e == 1 {
        lemma_pow0(a);
        lemma_pow0(b);
    } else {
        lemma_pow_base_grows(a, b, (e - 1) as nat);
    }
    assert(0 < a * x && a * x < b * y) by (nonlinear_arith)
        requires
            0 < a < b,
            0 < x <= y,
    ;
}

/// Against 2^-150 a number is measured in whole numbers: multiplied by the
/// same power of five, the two sides of the comparison are free of the power
/// of two.
proof fn lemma_measure(mantissa: nat, m: nat)
    ensures
        mantissa * pow(2, 150) <= pow(10, m) <==> mantissa * pow(10, 150) <= pow(5, 150) * pow(10, m),
{
    lemma_pow_distributes(2, 5, 150);
    lemma_pow_positive(2, 150);
    lemma_pow_positive(5, 150);
    let x = mantissa as int;
    let a = pow(2, 150);
    let b = pow(5, 150);
    let t = pow(10, 150);
    let y = pow(10, m);
    assert(t == a * b);
    if x * a <= y {
        assert(x * (a * b) <= b * y) by (nonlinear_arith)
            requires
                x * a <= y,
                b > 0,
        ;
    }
    if x * t <= b * y {
        assert(x * a <= y) by (nonlinear_arith)
            requires
                x * (a * b) <= b * y,
                b > 0,
        ;
    }
}

/// Zero rounds to zero, whatever its scale.
pub proof fn lemma_zero_rounds_to_zero(scale: int)
    ensures
        rounds_to_zero(0, scale),
{
    if scale < 0 {
        lemma_pow_positive(10, (-scale) as nat);
        assert(0 * pow(2, 150) == 0);
    }
}

/// A number whose first digit other than zero is the first of `n` digits,
/// with fewer than `n + 45` decimal places, does not round to zero: it is
/// above 2^-150.
pub proof fn lemma_not_tiny(mantissa: nat, n: nat, m: int)
    requires
        n >= 1,
        pow(10, (n - 1) as nat) <= mantissa,
        m < n + 45,
    ensures
        !rounds_to_zero(mantissa, -m),
{
    lemma_pow10((n - 1) as nat);
    if m >= 1 {
        lemma_two_above_ten();
        lemma_pow10(45);
        lemma_pow10_grows(m as nat, (n + 44) as nat);
        lemma_pow_adds(10, (n - 1) as nat, 45);
        let low = pow(10, (n - 1) as nat);
        let ten = pow(10, 45);
        let two = pow(2, 150);
        let x = mantissa as int;
        assert(low * ten < x * two) by (nonlinear_arith)
            requires
                0 < low <= x,
                0 < ten < two,
        ;
    }
}

/// How a number of `n` digits with `m` decimal places compares with 2^-150,
/// by the count of digits of `5^150`, which is `t`: by the lengths where
/// they tell, else by the digits.
proof fn lemma_by_length(mantissa: nat, n: nat, five: nat, t: nat, m: nat)
    requires
        n >= 1,
        t >= 1,
        pow(10, (n - 1) as nat) <= mantissa < pow(10, n),
        pow(10, (t - 1) as nat) <= five < pow(10, t),
        five == pow(5, 150),
        m >= 1,
    ensures
        t + m > n + 150 ==> rounds_to_zero(mantissa, -(m as int)),
        t + m < n + 150 ==> !rounds_to_zero(mantissa, -(m as int)),
        t + m == n + 150 ==> {
            let len = if n >= t {
                n
            } else {
                t
            };
            rounds_to_zero(mantissa, -(m as int)) == (mantissa * pow(10, (len - n) as nat) <= five
                * pow(10, (len - t) as nat))
        },
{
    lemma_measure(mantissa, m);
    let x = mantissa as int;
    let f = five as int;
    let shift = pow(10, 150);
    let places = pow(10, m);
    lemma_pow10(150);
    lemma_pow10(m);
    lemma_pow10((n - 1) as nat);
    lemma_pow10((t - 1) as nat);
    if t + m > n + 150 {
        lemma_pow_adds(10, n, 150);
        lemma_pow_adds(10, (t - 1) as nat, m);
        lemma_pow10_grows(n + 150, (t - 1 + m) as nat);
        let high = pow(10, n);
        let low = pow(10, (t - 1) as nat);
        assert(x * shift <= f * places) by (nonlinear_arith)
            requires
                0 <= x < high,
                0 < low <= f,
                shift > 0,
                places > 0,
                high * shift <= low * places,
        ;
    } else if t + m < n + 150 {
        lemma_pow_adds(10, (n - 1) as nat, 150);
        lemma_pow_adds(10, t, m);
        lemma_pow10_grows(t + m, (n - 1 + 150) as nat);
        let low = pow(10, (n - 1) as nat);
        let high = pow(10, t);
        assert(f * places < x * shift) by (nonlinear_arith)
            requires
                0 < low <= x,
                0 <= f < high,
                shift > 0,
                places > 0,
                high * places <= low * shift,
        ;
    } else {
        let len = if n >= t {
            n
        } else {
            t
        };
        let c = (150 - (len - n)) as nat;
        assert(c == m - (len - t));
        lemma_pow_adds(10, (len - n) as nat, c);
        lemma_pow_adds(10, (len - t) as nat, c);
        lemma_pow10(c);
        let pa = pow(10, (len - n) as nat);
        let pb = pow(10, (len - t) as nat);
        let pc = pow(10, c);
        assert(shift == pa * pc);
        assert(places == pb * pc);
        if x * pa <= f * pb {
            assert(x * (pa * pc) <= f * (pb * pc)) by (nonlinear_arith)
                requires
                    x * pa <= f * pb,
                    pc > 0,
            ;
        }
        if x * shift <= f * places {
            assert(x * pa <= f * pb) by (nonlinear_arith)
                requires
                    x * (pa * pc) <= f * (pb * pc),
                    pc > 0,
            ;
        }
    }
}

/// The greatest size of an exponent that is still told from a greater one.
/// Beyond it no count of digits that a machine can hold makes up for the
/// exponent.
pub const HUGE: u128 = 1_000_000_000_000_000_000_000_000_000_000;

/// The number that a run of digits writes, or `HUGE` if that is less.
fn clipped(digits: &[char]) -> (value: u128)
    requires
        all_digits(digits@),
    ensures
        value == if number(digits@) < HUGE {
            number(digits@)
        } else {
            HUGE as nat
        },
{
    let mut value: u128 = 0;
    let mut i: usize = 0;
    assert(digits@.take(0) =~= Seq::<char>::empty());
    while i < digits.len()
        invariant
            i <= digits@.len(),
            all_digits(digits@),
            value <= HUGE,
            value == if number(digits@.take(i as int)) < HUGE {
                number(digits@.take(i as int))
            } else {
                HUGE as nat
            },
        decreases digits@.len() - i,
    {
        let d = match digit_of(digits[i]) {
            Some(d) => d,
            None => 0,
        };
        proof {
            let next = digits@.take(i + 1);
            assert(next.drop_last() =~= digits@.take(i as int));
            assert(next.last() == digits@[i as int]);
            assert(is_digit(digits@[i as int]));
        }
        if value < HUGE {
            let x = value * 10 + d as u128;
            value = if x < HUGE {
                x
            } else {
                HUGE
            };
        }
        i = i + 1;
    }
    assert(digits@.take(digits@.len() as int) =~= digits@);
    value
}

/// Whether the number that `digits` writes, with `fraction` of its digits
/// behind the point and times ten to the exponent that `negative` and
/// `exponent` give, rounds to zero.
fn is_tiny(digits: &[char], fraction: usize, negative: bool, exponent: &[char]) -> (tiny: bool)
    requires
        all_digits(digits@),
        all_digits(exponent@),
        fraction <= digits@.len(),
    ensures
        tiny == rounds_to_zero(
            number(digits@),
            power_of(negative, number(exponent@)) - fraction,
        ),
{
    let lead = leading_zeros(digits);
    let n = digits.len() - lead;
    let ghost mantissa = number(digits@);
    let ghost scale = power_of(negative, number(exponent@)) - fraction;
    let ghost places = -scale;
    if n == 0 {
        proof {
            lemma_number_zero(digits@);
            if scale < 0 {
                lemma_pow_positive(10, places as nat);
                assert(0 * pow(2, 150) == 0);
            }
        }
        return true;
    }
    let significant = slice_subrange(digits, lead, digits.len());
    proof {
        lemma_number_leading_zeros(digits@, lead as int);
        assert(significant@ == digits@.skip(lead as int));
        assert(significant@[0] == digits@[lead as int]);
        assert(is_digit(digits@[lead as int]));
        lemma_number_lower(significant@);
        lemma_number_upper(significant@);
        assert(all_digits(significant@)) by {
            assert forall|k: int| 0 <= k < significant@.len() implies is_digit(
                #[trigger] significant@[k],
            ) by {
                assert(significant@[k] == digits@[lead + k]);
            }
        }
    }
    let size = clipped(exponent);
    let size_signed: i128 = if negative {
        -(size as i128)
    } else {
        size as i128
    };
    let m: i128 = fraction as i128 - size_signed;
    if m < n as i128 + 45 {
        proof {
            assert(places < n + 45);
            lemma_not_tiny(mantissa, n as nat, places);
        }
        return false;
    }
    assert(places >= m);
    let five = power_of_five(TINY);
    let five_lead = leading_zeros(five.as_slice());
    proof {
        lemma_five_below_ten(150);
        if five_lead == five@.len() {
            lemma_number_zero(five@);
        }
    }
    let t = five.len() - five_lead;
    let five_significant = slice_subrange(five.as_slice(), five_lead, five.len());
    proof {
        lemma_number_leading_zeros(five@, five_lead as int);
        assert(five_significant@ == five@.skip(five_lead as int));
        assert(five_significant@[0] == five@[five_lead as int]);
        assert(is_digit(five@[five_lead as int]));
        lemma_number_lower(five_significant@);
        lemma_number_upper(five_significant@);
        assert(all_digits(five_significant@)) by {
            assert forall|k: int| 0 <= k < five_significant@.len() implies is_digit(
                #[trigger] five_significant@[k],
            ) by {
                assert(five_significant@[k] == five@[five_lead + k]);
            }
        }
        lemma_by_length(mantissa, n as nat, number(five@), t as nat, places as nat);
    }
    let ours: i128 = n as i128 + 150;
    let theirs: i128 = t as i128 + m;
    if theirs > ours {
        true
    } else if theirs < ours {
        false
    } else {
        assert(places == m);
        let at_most = at_most_padded(significant, five_significant);
        proof {
            let len = if n >= t {
                n as int
            } else {
                t as int
            };
            lemma_number_trailing_zeros(significant@, (len - n) as nat);
            lemma_number_trailing_zeros(five_significant@, (len - t) as nat);
            assert(padded(significant@, len) == significant@ + crate::digits::zeros(
                (len - n) as nat,
            ));
        }
        at_most
    }
}

/// Whether a weight written as `text` excludes its coding.
pub fn excludes(text: &[char]) -> (excluded: bool)
    ensures
        excluded == weight_excludes(text@),
{
    let body = without_sign(trim(text));
    if is_special_word(body) {
        return false;
    }
    let int_end = scan_digits(body, 0);
    let has_point = int_end < body.len() && body[int_end] == '.';
    let frac_start = if has_point {
        int_end + 1
    } else {
        int_end
    };
    let frac_end = scan_digits(body, frac_start);
    if int_end + (frac_end - frac_start) == 0 {
        return true;
    }
    let mut negative = false;
    let mut exp_start = frac_end;
    let mut exp_end = frac_end;
    if frac_end < body.len() {
        if body[frac_end] != 'e' && body[frac_end] != 'E' {
            return true;
        }
        let signed = frac_end + 1 < body.len() && (body[frac_end + 1] == '+' || body[frac_end + 1]
            == '-');
        negative = signed && body[frac_end + 1] == '-';
        exp_start = if signed {
            frac_end + 2
        } else {
            frac_end + 1
        };
        exp_end = scan_digits(body, exp_start);
        if !(exp_start < exp_end && exp_end == body.len()) {
            return true;
        }
    }
    let mut digits: Vec<char> = Vec::new();
    let mut i: usize = 0;
    while i < int_end
        invariant
            i <= int_end <= body@.len(),
            digits@ == body@.subrange(0, i as int),
        decreases int_end - i,
    {
        digits.push(body[i]);
        i = i + 1;
        assert(digits@ =~= body@.subrange(0, i as int));
    }
    i = frac_start;
    while i < frac_end
        invariant
            frac_start <= i <= frac_end <= body@.len(),
            int_end <= body@.len(),
            digits@ == body@.subrange(0, int_end as int) + body@.subrange(
                frac_start as int,
                i as int,
            ),
        decreases frac_end - i,
    {
        digits.push(body[i]);
        i = i + 1;
        assert(digits@ =~= body@.subrange(0, int_end as int) + body@.subrange(
            frac_start as int,
            i as int,
        ));
    }
    let exponent = slice_subrange(body, exp_start, exp_end);
    proof {
        lemma_digits_end(body@, 0);
        lemma_digits_end(body@, frac_start as int);
        assert(decimal(body@) is Some);
        assert(decimal(body@)->0.digits == digits@);
        assert(all_digits(digits@)) by {
            assert forall|k: int| 0 <= k < digits@.len() implies is_digit(#[trigger] digits@[k]) by {
                if k < int_end {
                    assert(digits@[k] == body@[k]);
                } else {
                    assert(digits@[k] == body@[frac_start + (k - int_end)]);
                }
            }
        }
        if frac_end < body@.len() {
            lemma_digits_end(body@, exp_start as int);
            assert(all_digits(exponent@)) by {
                assert forall|k: int| 0 <= k < exponent@.len() implies is_digit(
                    #[trigger] exponent@[k],
                ) by {
                    assert(exponent@[k] == body@[exp_start + k]);
                }
            }
            assert(decimal(body@)->0.exponent == power_of(negative, number(exponent@)));
        } else {
            assert(exponent@ =~= Seq::<char>::empty());
            assert(decimal(body@)->0.exponent == 0);
        }
    }
    is_tiny(digits.as_slice(), frac_end - frac_start, negative, exponent)
}

} // verus!
