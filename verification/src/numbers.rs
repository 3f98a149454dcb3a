//! Numbers as text: the decimal digits of unsigned integers.
use vstd::prelude::*;

verus! {

// ---------------------------------------------------------------- statements

/// An ASCII decimal digit.
pub open spec fn is_digit(c: char) -> bool {
    '0' <= c <= '9'
}

/// Nothing but decimal digits.
pub open spec fn all_digits(text: Seq<char>) -> bool {
    forall|i: int| 0 <= i < text.len() ==> is_digit(#[trigger] text[i])
}

/// What a digit stands for.
pub open spec fn digit_value(c: char) -> int {
    c as int - '0' as int
}

/// The number that a row of digits writes.
pub open spec fn digits_value(digits: Seq<char>) -> int
    decreases digits.len(),
{
    if digits.len() == 0 {
        0
    } else {
        10 * digits_value(digits.drop_last()) + digit_value(digits.last())
    }
}

/// The digit that stands for `n`.
pub open spec fn digit_char(n: int) -> char {
    ('0' as int + n) as char
}

/// `n` in decimal, without leading zeros.
pub open spec fn decimal(n: nat) -> Seq<char>
    decreases n,
{
    if n < 10 {
        seq![digit_char(n as int)]
    } else {
        decimal(n / 10).push(digit_char((n % 10) as int))
    }
}

/// `text` without one leading plus sign.
pub open spec fn without_plus(text: Seq<char>) -> Seq<char> {
    if text.len() > 0 && text[0] == '+' {
        text.drop_first()
    } else {
        text
    }
}

/// The unsigned integer that `text` writes: digits, at least one, behind an
/// optional plus sign, and no more than `max`.
pub open spec fn unsigned_value(text: Seq<char>, max: nat) -> Option<nat> {
    let digits = without_plus(text);
    if digits.len() > 0 && all_digits(digits) && digits_value(digits) <= max {
        Some(digits_value(digits) as nat)
    } else {
        None
    }
}

// -------------------------------------------------------------------- lemmas

/// A row of digits writes a number between zero and a power of ten.
pub proof fn lemma_digits_value_bounds(digits: Seq<char>)
    requires
        all_digits(digits),
    ensures
        0 <= digits_value(digits) < vstd::arithmetic::power::pow(10, digits.len()),
    decreases digits.len(),
{
    reveal(vstd::arithmetic::power::pow);
    if digits.len() > 0 {
        let front = digits.drop_last();
        assert(all_digits(front));
        lemma_digits_value_bounds(front);
        assert(is_digit(digits.last()));
    }
}

/// What two rows of digits write one behind the other.
pub proof fn lemma_digits_value_of_two(a: Seq<char>, b: Seq<char>)
    ensures
        digits_value(a + b) == digits_value(a) * vstd::arithmetic::power::pow(10, b.len())
            + digits_value(b),
    decreases b.len(),
{
    reveal(vstd::arithmetic::power::pow);
    if b.len() == 0 {
        assert(a + b == a);
    } else {
        assert((a + b).drop_last() == a + b.drop_last());
        assert((a + b).last() == b.last());
        lemma_digits_value_of_two(a, b.drop_last());
        let p = vstd::arithmetic::power::pow(10, b.drop_last().len());
        let v = digits_value(a);
        assert(10 * (v * p) == v * (10 * p)) by (nonlinear_arith);
    }
}

/// A prefix of a row of digits writes no more than the whole row.
pub proof fn lemma_digits_value_of_prefix(digits: Seq<char>, n: int)
    requires
        all_digits(digits),
        0 <= n <= digits.len(),
    ensures
        0 <= digits_value(digits.take(n)) <= digits_value(digits),
    decreases digits.len(),
{
    if n < digits.len() {
        let front = digits.drop_last();
        assert(all_digits(front));
        lemma_digits_value_of_prefix(front, n);
        assert(front.take(n) == digits.take(n));
        assert(is_digit(digits.last()));
    } else {
        assert(digits.take(n) == digits);
        lemma_digits_value_bounds(digits);
    }
}

/// The decimal form of a number is a row of digits that writes the number.
pub proof fn lemma_decimal_writes(n: nat)
    ensures
        decimal(n).len() > 0,
        all_digits(decimal(n)),
        digits_value(decimal(n)) == n,
    decreases n,
{
    reveal_with_fuel(digits_value, 2);
    if n < 10 {
        assert(decimal(n).drop_last() == Seq::<char>::empty());
    } else {
        lemma_decimal_writes(n / 10);
        assert(decimal(n).drop_last() == decimal(n / 10));
    }
}

/// Reading the decimal form of a number gives the number back.
pub proof fn decimal_reads_back(n: nat, max: nat)
    requires
        n <= max,
    ensures
        unsigned_value(decimal(n), max) == Some(n),
{
    lemma_decimal_writes(n);
    assert(is_digit(decimal(n)[0]));
}

/// Different numbers have different decimal forms.
pub proof fn decimal_is_injective(a: nat, b: nat)
    requires
        decimal(a) == decimal(b),
    ensures
        a == b,
{
    lemma_decimal_writes(a);
    lemma_decimal_writes(b);
}

// ---------------------------------------------------------------- operations

/// Whether a character is a decimal digit.
pub fn digit(c: char) -> (r: bool)
    ensures
        r == is_digit(c),
{
    '0' <= c && c <= '9'
}

/// Whether there is nothing but digits.
pub fn only_digits(chars: &[char]) -> (r: bool)
    ensures
        r == all_digits(chars@),
{
    let mut i: usize = 0;
    while i < chars.len()
        invariant
            i <= chars@.len(),
            forall|j: int| 0 <= j < i ==> is_digit(#[trigger] chars@[j]),
        decreases chars@.len() - i,
    {
        if !digit(chars[i]) {
            return false;
        }
        i = i + 1;
    }
    true
}

/// The decimal form of a number.
pub fn to_decimal(n: u64) -> (text: String)
    ensures
        text@ == decimal(n as nat),
    decreases n,
{
    let mut text = if n < 10 {
        String::new()
    } else {
        to_decimal(n / 10)
    };
    let digit: u8 = (n % 10) as u8;
    text.push((48 + digit) as char);
    assert(n < 10 ==> text@ == seq![digit_char(n as int)]);
    text
}

/// The unsigned integer that the characters write, up to `max`.
pub fn parse_unsigned(chars: &[char], max: u64) -> (r: Option<u64>)
    ensures
        match r {
            Some(n) => n <= max && unsigned_value(chars@, max as nat) == Some(n as nat),
            None => unsigned_value(chars@, max as nat) is None,
        },
{
    let from: usize = if chars.len() > 0 && chars[0] == '+' {
        1
    } else {
        0
    };
    let ghost digits = without_plus(chars@);
    assert(digits == chars@.skip(from as int));
    if chars.len() == from || !only_digits(crate::text::stretch(chars, from, chars.len()).as_slice()) {
        assert(chars@.subrange(from as int, chars@.len() as int) == digits);
        return None;
    }
    assert(chars@.subrange(from as int, chars@.len() as int) == digits);
    let mut value: u64 = 0;
    let mut i: usize = from;
    assert(digits.take(0) == Seq::<char>::empty());
    while i < chars.len()
        invariant
            from <= i <= chars@.len(),
            digits == chars@.skip(from as int),
            digits == without_plus(chars@),
            all_digits(digits),
            value <= max,
            value == digits_value(digits.take(i - from)),
        decreases chars@.len() - i,
    {
        assert(is_digit(digits[i - from]));
        let digit: u64 = chars[i] as u64 - '0' as u64;
        assert(digits.take(i - from + 1).drop_last() == digits.take(i - from));
        assert(digits.take(i - from + 1).last() == digits[i - from]);
        if digit > max || value > (max - digit) / 10 {
            proof {
                lemma_digits_value_of_prefix(digits, i - from + 1);
            }
            return None;
        }
        value = value * 10 + digit;
        i = i + 1;
    }
    assert(digits.take(i - from) == digits);
    Some(value)
}

// ---------------------------------------------------------------------- laws

/// The digits from zero to nine stand for themselves, and each further digit is
/// worth a tenth of the one before it.
pub proof fn digits_count_in_tens(digits: Seq<char>, c: char)
    ensures
        digits_value(Seq::<char>::empty()) == 0,
        digits_value(digits.push(c)) == 10 * digits_value(digits) + (c as int - 48),
        is_digit(c) <==> 48 <= c as int <= 57,
{
    assert(digits.push(c).drop_last() == digits);
}

/// A number is written in decimal by writing its tenth and its last digit behind
/// that; below ten it is one digit. There is no zero in front.
pub proof fn decimals_grow_digit_by_digit(n: nat, d: nat)
    requires
        d < 10,
    ensures
        decimal(d) == seq![(48 + d) as char],
        n > 0 ==> decimal(10 * n + d) == decimal(n).push((48 + d) as char),
        n > 0 ==> decimal(n)[0] != '0',
    decreases n,
{
    if n > 0 {
        assert((10 * n + d) / 10 == n && (10 * n + d) % 10 == d);
        if n >= 10 {
            decimals_grow_digit_by_digit(n / 10, (n % 10) as nat);
            lemma_decimal_writes(n / 10);
            assert(decimal(n)[0] == decimal(n / 10)[0]);
        }
    }
}

/// Digits are read as the number that they write, with a plus sign in front or
/// not and with as many zeros in front as one likes, unless it is too great.
pub proof fn digits_are_read(digits: Seq<char>, max: nat)
    requires
        digits.len() > 0,
        forall|i: int| 0 <= i < digits.len() ==> '0' <= #[trigger] digits[i] <= '9',
    ensures
        0 <= digits_value(digits) <= max ==> unsigned_value(digits, max) == Some(
            digits_value(digits) as nat,
        ) && unsigned_value(seq!['+'] + digits, max) == Some(digits_value(digits) as nat),
        digits_value(digits) > max ==> unsigned_value(digits, max) is None && unsigned_value(
            seq!['+'] + digits,
            max,
        ) is None,
        digits_value(digits) >= 0,
        digits_value(seq!['0'] + digits) == digits_value(digits),
{
    assert(all_digits(digits));
    lemma_digits_value_bounds(digits);
    assert('0' <= digits[0] <= '9');
    assert((seq!['+'] + digits).drop_first() == digits);
    lemma_digits_value_of_two(seq!['0'], digits);
    reveal_with_fuel(digits_value, 2);
    assert(seq!['0'].drop_last() == Seq::<char>::empty());
    assert(0 * vstd::arithmetic::power::pow(10, digits.len()) == 0) by (nonlinear_arith);
}

/// Nothing is read where no digit is, or where anything but a digit is behind
/// the sign.
pub proof fn only_digits_are_read(text: Seq<char>, max: nat, i: int)
    requires
        0 <= i < text.len(),
        !('0' <= text[i] <= '9'),
        i > 0 || text[0] != '+' || text.len() == 1,
    ensures
        unsigned_value(text, max) is None,
        unsigned_value(Seq::<char>::empty(), max) is None,
{
    let digits = without_plus(text);
    if digits.len() < text.len() && digits.len() > 0 {
        assert(digits[i - 1] == text[i]);
        assert(!is_digit(digits[i - 1]));
    } else if digits.len() == text.len() {
        assert(!is_digit(digits[i]));
    }
}

} // verus!
