//! Runs of decimal digits and the numbers they write, however long.

use vstd::prelude::*;
use vstd::arithmetic::power::{lemma_pow0, lemma_pow1, lemma_pow_adds, lemma_pow_positive, pow};

verus! {

/// The value of a decimal digit; zero for any other character.
pub open spec fn digit_value(c: char) -> nat {
    if c == '1' {
        1
    } else if c == '2' {
        2
    } else if c == '3' {
        3
    } else if c == '4' {
        4
    } else if c == '5' {
        5
    } else if c == '6' {
        6
    } else if c == '7' {
        7
    } else if c == '8' {
        8
    } else if c == '9' {
        9
    } else {
        0
    }
}

/// Whether `c` is one of the ten decimal digits.
pub open spec fn is_digit(c: char) -> bool {
    c == '0' || digit_value(c) > 0
}

/// Whether `s` holds nothing but decimal digits.
pub open spec fn all_digits(s: Seq<char>) -> bool {
    forall|i: int| 0 <= i < s.len() ==> is_digit(#[trigger] s[i])
}

/// The number that a run of decimal digits writes, the leading digit first.
pub open spec fn number(digits: Seq<char>) -> nat
    decreases digits.len(),
{
    if digits.len() == 0 {
        0
    } else {
        10 * number(digits.drop_last()) + digit_value(digits.last())
    }
}

/// A run of `n` zeros.
pub open spec fn zeros(n: nat) -> Seq<char> {
    Seq::new(n, |i: int| '0')
}

/// The powers of ten are positive, and each is ten times the one before.
pub proof fn lemma_pow10(n: nat)
    ensures
        pow(10, n) > 0,
        pow(10, n + 1) == 10 * pow(10, n),
{
    lemma_pow_positive(10, n);
    lemma_pow_adds(10, 1, n);
    lemma_pow1(10);
}

/// The powers of ten grow with the exponent.
pub proof fn lemma_pow10_grows(a: nat, b: nat)
    requires
        a <= b,
    ensures
        0 < pow(10, a) <= pow(10, b),
        a < b ==> 10 * pow(10, a) <= pow(10, b),
    decreases b - a,
{
    lemma_pow10(a);
    if a < b {
        lemma_pow10_grows(a + 1, b);
    }
}

/// A single digit writes its value.
pub proof fn lemma_number_single(c: char)
    ensures
        number(seq![c]) == digit_value(c),
{
    let s = seq![c];
    assert(s.drop_last() =~= Seq::<char>::empty());
    assert(number(s.drop_last()) == 0);
    assert(s.last() == c);
}

/// A run of digits followed by another writes the first number, shifted by
/// the length of the second run, plus the second number.
pub proof fn lemma_number_concat(a: Seq<char>, b: Seq<char>)
    ensures
        number(a + b) == number(a) * pow(10, b.len()) + number(b),
    decreases b.len(),
{
    if b.len() == 0 {
        assert(a + b =~= a);
        lemma_pow0(10);
    } else {
        let front = b.drop_last();
        let d = digit_value(b.last());
        assert((a + b).drop_last() =~= a + front);
        assert((a + b).last() == b.last());
        lemma_number_concat(a, front);
        lemma_pow10(front.len());
        let x = number(a) as int;
        let p = pow(10, front.len());
        let y = number(front) as int;
        assert(pow(10, b.len()) == 10 * p);
        assert(10 * (x * p + y) + d == x * (10 * p) + (10 * y + d)) by (nonlinear_arith);
    }
}

/// A run of digits writes zero exactly when all of them are `0`.
pub proof fn lemma_number_zero(digits: Seq<char>)
    requires
        all_digits(digits),
    ensures
        number(digits) == 0 <==> forall|i: int| 0 <= i < digits.len() ==> digits[i] == '0',
    decreases digits.len(),
{
    if digits.len() > 0 {
        let front = digits.drop_last();
        assert(all_digits(front)) by {
            assert forall|i: int| 0 <= i < front.len() implies is_digit(#[trigger] front[i]) by {
                assert(front[i] == digits[i]);
            }
        }
        lemma_number_zero(front);
        if number(digits) == 0 {
            assert(number(front) == 0);
            assert(is_digit(digits[digits.len() - 1]));
            assert(digits.last() == '0');
            assert forall|i: int| 0 <= i < digits.len() implies digits[i] == '0' by {
                if i < front.len() {
                    assert(front[i] == digits[i]);
                    assert(front[i] == '0');
                } else {
                    assert(digits[i] == digits.last());
                }
            }
        }
        if forall|i: int| 0 <= i < digits.len() ==> digits[i] == '0' {
            assert forall|i: int| 0 <= i < front.len() implies front[i] == '0' by {
                assert(front[i] == digits[i]);
            }
            assert(digits.last() == '0');
        }
    }
}

/// A run of `n` digits writes a number below the `n`-th power of ten.
pub proof fn lemma_number_upper(digits: Seq<char>)
    ensures
        number(digits) < pow(10, digits.len()),
    decreases digits.len(),
{
    if digits.len() == 0 {
        lemma_pow0(10);
    } else {
        let front = digits.drop_last();
        lemma_number_upper(front);
        lemma_pow10(front.len());
        assert(digit_value(digits.last()) <= 9);
    }
}

/// A run of `n` digits that does not start with `0` writes a number of at
/// least the power of ten below the `n`-th.
pub proof fn lemma_number_lower(digits: Seq<char>)
    requires
        digits.len() > 0,
        is_digit(digits[0]),
        digits[0] != '0',
    ensures
        number(digits) >= pow(10, (digits.len() - 1) as nat),
{
    let head = digits.take(1);
    let rest = digits.skip(1);
    assert(head + rest =~= digits);
    lemma_number_concat(head, rest);
    assert(head.drop_last() =~= Seq::<char>::empty());
    assert(number(head.drop_last()) == 0);
    assert(head.last() == digits[0]);
    assert(number(head) == digit_value(digits[0]));
    lemma_pow10(rest.len());
    let h = number(head) as int;
    let p = pow(10, rest.len());
    assert(h * p >= p) by (nonlinear_arith)
        requires
            h >= 1,
            p > 0,
    ;
}

/// Zeros before a run of digits do not change the number.
pub proof fn lemma_number_leading_zeros(digits: Seq<char>, lead: int)
    requires
        0 <= lead <= digits.len(),
        forall|j: int| 0 <= j < lead ==> digits[j] == '0',
    ensures
        number(digits) == number(digits.skip(lead)),
{
    let head = digits.take(lead);
    let rest = digits.skip(lead);
    assert(head + rest =~= digits);
    lemma_number_concat(head, rest);
    assert(all_digits(head));
    lemma_number_zero(head);
    assert(number(head) == 0);
    assert(0 * pow(10, rest.len()) == 0);
}

/// Zeros behind a run of digits shift the number by as many places.
pub proof fn lemma_number_trailing_zeros(digits: Seq<char>, n: nat)
    ensures
        number(digits + zeros(n)) == number(digits) * pow(10, n),
{
    lemma_number_concat(digits, zeros(n));
    assert(all_digits(zeros(n)));
    lemma_number_zero(zeros(n));
}

/// Of two runs of digits of one length, the one with the smaller digit at
/// the first place where they differ writes the smaller number.
pub proof fn lemma_number_order(a: Seq<char>, b: Seq<char>, k: int)
    requires
        a.len() == b.len(),
        0 <= k < a.len(),
        forall|j: int| 0 <= j < k ==> a[j] == b[j],
        digit_value(a[k]) < digit_value(b[k]),
    ensures
        number(a) < number(b),
{
    let a_head = a.take(k + 1);
    let b_head = b.take(k + 1);
    let a_rest = a.skip(k + 1);
    let b_rest = b.skip(k + 1);
    assert(a_head + a_rest =~= a);
    assert(b_head + b_rest =~= b);
    lemma_number_concat(a_head, a_rest);
    lemma_number_concat(b_head, b_rest);
    assert(a_head.drop_last() =~= a.take(k));
    assert(b_head.drop_last() =~= b.take(k));
    assert(a.take(k) =~= b.take(k));
    assert(a_head.last() == a[k]);
    assert(b_head.last() == b[k]);
    assert(number(a_head) + 1 <= number(b_head));
    lemma_number_upper(a_rest);
    lemma_pow10(a_rest.len());
    let x = number(a_head) as int;
    let y = number(b_head) as int;
    let p = pow(10, a_rest.len());
    assert((x + 1) * p <= y * p) by (nonlinear_arith)
        requires
            x + 1 <= y,
            p > 0,
    ;
    assert((x + 1) * p == x * p + p) by (nonlinear_arith);
}

/// `s` with zeros behind it up to the length `len`.
pub open spec fn padded(s: Seq<char>, len: int) -> Seq<char> {
    s + zeros((len - s.len()) as nat)
}

/// The value of `c` as a decimal digit, if it is one.
pub fn digit_of(c: char) -> (value: Option<u8>)
    ensures
        value is Some == is_digit(c),
        value matches Some(v) ==> v == digit_value(c),
{
    if c == '0' {
        Some(0)
    } else if c == '1' {
        Some(1)
    } else if c == '2' {
        Some(2)
    } else if c == '3' {
        Some(3)
    } else if c == '4' {
        Some(4)
    } else if c == '5' {
        Some(5)
    } else if c == '6' {
        Some(6)
    } else if c == '7' {
        Some(7)
    } else if c == '8' {
        Some(8)
    } else if c == '9' {
        Some(9)
    } else {
        None
    }
}

/// The digit that writes `value`.
pub(crate) fn digit_char(value: u8) -> (c: char)
    requires
        value <= 9,
    ensures
        is_digit(c),
        digit_value(c) == value,
{
    if value == 0 {
        '0'
    } else if value == 1 {
        '1'
    } else if value == 2 {
        '2'
    } else if value == 3 {
        '3'
    } else if value == 4 {
        '4'
    } else if value == 5 {
        '5'
    } else if value == 6 {
        '6'
    } else if value == 7 {
        '7'
    } else if value == 8 {
        '8'
    } else {
        '9'
    }
}

/// How many zeros `s` starts with.
pub fn leading_zeros(s: &[char]) -> (lead: usize)
    ensures
        lead <= s@.len(),
        forall|j: int| 0 <= j < lead ==> s@[j] == '0',
        lead < s@.len() ==> s@[lead as int] != '0',
{
    let mut i: usize = 0;
    while i < s.len() && s[i] == '0'
        invariant
            i <= s@.len(),
            forall|j: int| 0 <= j < i ==> s@[j] == '0',
        decreases s@.len() - i,
    {
        i = i + 1;
    }
    i
}

/// Multiplies the number that `digits` writes by five, in place. The run
/// keeps its length, so the product has to fit.
pub(crate) fn times_five(digits: &mut Vec<char>)
    requires
        all_digits(old(digits)@),
        5 * number(old(digits)@) < pow(10, old(digits)@.len()),
    ensures
        final(digits)@.len() == old(digits)@.len(),
        all_digits(final(digits)@),
        number(final(digits)@) == 5 * number(old(digits)@),
{
    let ghost before = digits@;
    let width = digits.len();
    let mut i: usize = width;
    let mut carry: u8 = 0;
    proof {
        assert(digits@.skip(i as int) =~= Seq::<char>::empty());
        lemma_pow0(10);
    }
    while i > 0
        invariant
            i <= width,
            width == before.len(),
            digits@.len() == width,
            all_digits(before),
            all_digits(digits@),
            digits@.take(i as int) == before.take(i as int),
            carry <= 4,
            number(digits@.skip(i as int)) + carry * pow(10, (width - i) as nat) == 5 * number(
                before.skip(i as int),
            ),
        decreases i,
    {
        let j = i - 1;
        let ghost entry = digits@;
        assert(digits@[j as int] == before[j as int]) by {
            assert(digits@.take(i as int)[j as int] == before.take(i as int)[j as int]);
        }
        let d = match digit_of(digits[j]) {
            Some(d) => d,
            None => 0,
        };
        let x = 5 * d + carry;
        let c = digit_char(x % 10);
        digits.set(j, c);
        proof {
            let p = pow(10, (width - i) as nat);
            lemma_pow10((width - i) as nat);
            assert(digits@.skip(j as int) =~= seq![c] + entry.skip(i as int));
            lemma_number_concat(seq![c], entry.skip(i as int));
            lemma_number_single(c);
            assert(before.skip(j as int) =~= seq![before[j as int]] + before.skip(i as int));
            lemma_number_concat(seq![before[j as int]], before.skip(i as int));
            lemma_number_single(before[j as int]);
            assert(is_digit(before[j as int]));
            assert(number(seq![before[j as int]]) == d);
            assert(entry.skip(i as int).len() == width - i);
            assert(before.skip(i as int).len() == width - i);
            let low = number(entry.skip(i as int)) as int;
            let old_low = number(before.skip(i as int)) as int;
            let r = (x % 10) as int;
            let q = (x / 10) as int;
            let dd = d as int;
            let cc = carry as int;
            assert(r + 10 * q == 5 * dd + cc);
            assert(low + cc * p == 5 * old_low);
            assert(pow(10, (width - j) as nat) == 10 * p);
            assert(r * p + low + q * (10 * p) == 5 * (dd * p + old_low)) by (nonlinear_arith)
                requires
                    r + 10 * q == 5 * dd + cc,
                    low + cc * p == 5 * old_low,
            ;
            assert(digits@.take(j as int) =~= before.take(j as int)) by {
                assert forall|k: int| 0 <= k < j implies digits@[k] == before[k] by {
                    assert(entry.take(i as int)[k] == before.take(i as int)[k]);
                }
            }
            assert(all_digits(digits@)) by {
                assert forall|k: int| 0 <= k < digits@.len() implies is_digit(
                    #[trigger] digits@[k],
                ) by {
                    if k != j {
                        assert(digits@[k] == entry[k]);
                    }
                }
            }
        }
        carry = x / 10;
        i = j;
    }
    proof {
        assert(digits@.skip(0) =~= digits@);
        assert(before.skip(0) =~= before);
        let p = pow(10, width as nat);
        let cc = carry as int;
        lemma_pow10(width as nat);
        assert(p == pow(10, (width - i) as nat));
        assert(number(digits@) + cc * p == 5 * number(before));
        assert(cc == 0) by (nonlinear_arith)
            requires
                cc >= 0,
                p > 0,
                number(digits@) + cc * p < p,
        {
        }
        assert(cc * p == 0) by (nonlinear_arith)
            requires
                cc == 0,
        ;
    }
}

/// No power of five is above the same power of ten.
pub proof fn lemma_five_below_ten(k: nat)
    ensures
        0 < pow(5, k) <= pow(10, k),
    decreases k,
{
    if k == 0 {
        lemma_pow0(5);
        lemma_pow0(10);
    } else {
        lemma_five_below_ten((k - 1) as nat);
        lemma_pow_adds(5, 1, (k - 1) as nat);
        lemma_pow1(5);
        lemma_pow10((k - 1) as nat);
        let a = pow(5, (k - 1) as nat);
        let b = pow(10, (k - 1) as nat);
        assert(5 * a <= 10 * b);
    }
}

/// The digits of `5^exponent`, in a run of `exponent + 1` digits that starts
/// with as many zeros as it takes.
pub fn power_of_five(exponent: usize) -> (digits: Vec<char>)
    requires
        exponent < usize::MAX,
    ensures
        digits@.len() == exponent + 1,
        all_digits(digits@),
        number(digits@) == pow(5, exponent as nat),
{
    let mut digits: Vec<char> = Vec::new();
    while digits.len() < exponent
        invariant
            digits@.len() <= exponent,
            digits@ =~= zeros(digits@.len()),
        decreases exponent - digits@.len(),
    {
        digits.push('0');
    }
    digits.push('1');
    proof {
        assert(digits@.drop_last() =~= zeros(exponent as nat));
        assert(all_digits(zeros(exponent as nat)));
        lemma_number_zero(zeros(exponent as nat));
        assert(digits@.last() == '1');
        lemma_pow0(5);
        assert(all_digits(digits@)) by {
            assert forall|k: int| 0 <= k < digits@.len() implies is_digit(#[trigger] digits@[k]) by {
                if k < exponent {
                    assert(digits@[k] == digits@.drop_last()[k]);
                }
            }
        }
    }
    let mut done: usize = 0;
    while done < exponent
        invariant
            done <= exponent,
            digits@.len() == exponent + 1,
            all_digits(digits@),
            number(digits@) == pow(5, done as nat),
        decreases exponent - done,
    {
        proof {
            lemma_five_below_ten((done + 1) as nat);
            lemma_pow_adds(5, 1, done as nat);
            lemma_pow1(5);
            lemma_pow10_grows((done + 1) as nat, exponent as nat);
            lemma_pow10(exponent as nat);
        }
        times_five(&mut digits);
        done = done + 1;
    }
    digits
}

/// Whether the number that `a` writes is at most the one that `b` writes,
/// once the shorter of the two runs is given zeros behind it to make it as
/// long as the other.
pub(crate) fn at_most_padded(a: &[char], b: &[char]) -> (at_most: bool)
    requires
        all_digits(a@),
        all_digits(b@),
    ensures
        at_most == {
            let len = if a@.len() >= b@.len() {
                a@.len() as int
            } else {
                b@.len() as int
            };
            number(padded(a@, len)) <= number(padded(b@, len))
        },
{
    let len = if a.len() >= b.len() {
        a.len()
    } else {
        b.len()
    };
    let ghost wide_a = padded(a@, len as int);
    let ghost wide_b = padded(b@, len as int);
    let mut k: usize = 0;
    while k < len
        invariant
            k <= len,
            len >= a@.len(),
            len >= b@.len(),
            len == a@.len() || len == b@.len(),
            wide_a == padded(a@, len as int),
            wide_b == padded(b@, len as int),
            all_digits(a@),
            all_digits(b@),
            forall|j: int| 0 <= j < k ==> wide_a[j] == wide_b[j],
        decreases len - k,
    {
        let x = if k < a.len() {
            a[k]
        } else {
            '0'
        };
        let y = if k < b.len() {
            b[k]
        } else {
            '0'
        };
        assert(wide_a[k as int] == x);
        assert(wide_b[k as int] == y);
        assert(is_digit(x) && is_digit(y));
        if x != y {
            let dx = match digit_of(x) {
                Some(d) => d,
                None => 0,
            };
            let dy = match digit_of(y) {
                Some(d) => d,
                None => 0,
            };
            if dx < dy {
                proof {
                    lemma_number_order(wide_a, wide_b, k as int);
                }
                return true;
            } else {
                assert(dy < dx);
                proof {
                    lemma_number_order(wide_b, wide_a, k as int);
                }
                return false;
            }
        }
        k = k + 1;
    }
    assert(wide_a =~= wide_b);
    true
}

} // verus!
