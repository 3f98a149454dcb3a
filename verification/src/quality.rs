//! Quality values: numbers as a header or an environment variable writes them,
//! with a sign, a fraction and an exponent.
//!
//! Such a text is read as the nearest single-precision number. What matters of
//! it here is whether there is one, and whether it is greater than zero; both
//! are decided on the text itself, without rounding.
use crate::numbers;
use crate::text;
use vstd::prelude::*;

verus! {

// ---------------------------------------------------------------- statements

/// `text` without one leading sign.
pub open spec fn without_sign(text: Seq<char>) -> Seq<char> {
    if text.len() > 0 && (text[0] == '+' || text[0] == '-') {
        text.drop_first()
    } else {
        text
    }
}

/// `text` begins with a minus sign.
pub open spec fn is_negative(text: Seq<char>) -> bool {
    text.len() > 0 && text[0] == '-'
}

/// The words for infinity.
pub open spec fn is_infinity(body: Seq<char>) -> bool {
    text::same_ignoring_case(body, "inf"@) || text::same_ignoring_case(body, "infinity"@)
}

/// The word for a value that is no number.
pub open spec fn is_nan(body: Seq<char>) -> bool {
    text::same_ignoring_case(body, "nan"@)
}

/// Where the exponent mark of an unsigned number stands, or the length of the
/// text where there is none.
pub open spec fn mark_place(body: Seq<char>) -> int {
    text::first_place(text::lowered(body), 'e')
}

/// The part of an unsigned number before its exponent mark.
pub open spec fn mantissa(body: Seq<char>) -> Seq<char> {
    body.take(mark_place(body))
}

/// The part of an unsigned number behind its exponent mark.
pub open spec fn exponent(body: Seq<char>) -> Seq<char> {
    body.skip(mark_place(body) + 1)
}

/// The digits before the decimal point.
pub open spec fn whole_digits(body: Seq<char>) -> Seq<char> {
    text::before_first(mantissa(body), '.')
}

/// The digits behind the decimal point.
pub open spec fn fraction_digits(body: Seq<char>) -> Seq<char> {
    text::after_first(mantissa(body), '.')
}

/// Digits with at most one decimal point among them and at least one digit,
/// then, behind a mark, an optional exponent of at least one digit with an
/// optional sign.
pub open spec fn is_decimal(body: Seq<char>) -> bool {
    &&& numbers::all_digits(whole_digits(body))
    &&& numbers::all_digits(fraction_digits(body))
    &&& whole_digits(body).len() + fraction_digits(body).len() > 0
    &&& mark_place(body) < body.len() ==> without_sign(exponent(body)).len() > 0
        && numbers::all_digits(without_sign(exponent(body)))
}

/// `text` writes a number: an optional sign, then a decimal number, one of the
/// words for infinity, or the word for what is no number.
pub open spec fn is_number(text: Seq<char>) -> bool {
    let body = without_sign(text);
    is_decimal(body) || is_infinity(body) || is_nan(body)
}

/// The digits of a decimal number, without its point.
pub open spec fn all_its_digits(body: Seq<char>) -> Seq<char> {
    whole_digits(body) + fraction_digits(body)
}

/// The power of ten that the digits of a decimal number are scaled by.
pub open spec fn scale(body: Seq<char>) -> int {
    let written = if mark_place(body) < body.len() {
        let digits = numbers::digits_value(without_sign(exponent(body)));
        if is_negative(exponent(body)) {
            -digits
        } else {
            digits
        }
    } else {
        0
    };
    written - fraction_digits(body).len()
}

/// `digits` times ten to the power `scale` is nearer to a positive
/// single-precision number than to zero: it is greater than half of the
/// smallest one, that is, than two to the power -150.
pub open spec fn rounds_above_zero(digits: int, scale: int) -> bool {
    if scale >= 0 {
        digits > 0
    } else {
        digits * vstd::arithmetic::power::pow(2, 150) > vstd::arithmetic::power::pow(
            10,
            (-scale) as nat,
        )
    }
}

/// `text` writes a number that is greater than zero once it is rounded to
/// single precision.
pub open spec fn is_positive_number(text: Seq<char>) -> bool {
    let body = without_sign(text);
    &&& !is_negative(text)
    &&& is_infinity(body) || (is_decimal(body) && rounds_above_zero(
        numbers::digits_value(all_its_digits(body)),
        scale(body),
    ))
}

// -------------------------------------------------------------------- lemmas

/// The power for a sum of exponents, where both powers are known.
proof fn lemma_power_product(b: int, m: nat, n: nat, at_m: int, at_n: int)
    requires
        vstd::arithmetic::power::pow(b, m) == at_m,
        vstd::arithmetic::power::pow(b, n) == at_n,
    ensures
        vstd::arithmetic::power::pow(b, m + n) == at_m * at_n,
{
    vstd::arithmetic::power::lemma_pow_adds(b, m, n);
}

/// The powers that the comparison is made with.
proof fn lemma_powers()
    ensures
        vstd::arithmetic::power::pow(2, 150) == 1427247692705959881058285969449495136382746624int,
        vstd::arithmetic::power::pow(10, 35) == 100000000000000000000000000000000000int,
        vstd::arithmetic::power::pow(10, 45) == 1000000000000000000000000000000000000000000000int,
        vstd::arithmetic::power::pow(10, 46) == 10000000000000000000000000000000000000000000000int,
        vstd::arithmetic::power::pow(10, 70) == 100000000000000000000000000000000000int
            * 100000000000000000000000000000000000int,
        vstd::arithmetic::power::pow(5, 150)
            == 26469779601696885595885078146238811314105987548828125int
            * 26469779601696885595885078146238811314105987548828125int,
{
    assert(vstd::arithmetic::power::pow(2, 15) == 32768) by {
        reveal_with_fuel(vstd::arithmetic::power::pow, 16);
    }
    lemma_power_product(2, 15, 15, 32768, 32768);
    lemma_power_product(2, 30, 30, 1073741824, 1073741824);
    lemma_power_product(2, 60, 15, 1152921504606846976, 32768);
    lemma_power_product(2, 75, 75, 37778931862957161709568int, 37778931862957161709568int);
    assert(vstd::arithmetic::power::pow(10, 5) == 100000) by {
        reveal_with_fuel(vstd::arithmetic::power::pow, 6);
    }
    lemma_power_product(10, 5, 5, 100000, 100000);
    lemma_power_product(10, 10, 10, 10000000000, 10000000000);
    lemma_power_product(10, 20, 10, 100000000000000000000int, 10000000000);
    lemma_power_product(10, 30, 5, 1000000000000000000000000000000int, 100000);
    lemma_power_product(10, 35, 10, 100000000000000000000000000000000000int, 10000000000);
    vstd::arithmetic::power::lemma_pow1(10);
    lemma_power_product(10, 1, 45, 10, 1000000000000000000000000000000000000000000000int);
    lemma_power_product(
        10,
        35,
        35,
        100000000000000000000000000000000000int,
        100000000000000000000000000000000000int,
    );
    assert(vstd::arithmetic::power::pow(5, 15) == 30517578125) by {
        reveal_with_fuel(vstd::arithmetic::power::pow, 16);
    }
    lemma_power_product(5, 15, 15, 30517578125, 30517578125);
    lemma_power_product(5, 30, 30, 931322574615478515625int, 931322574615478515625int);
    lemma_power_product(
        5,
        60,
        15,
        867361737988403547205962240695953369140625int,
        30517578125,
    );
    lemma_power_product(
        5,
        75,
        75,
        26469779601696885595885078146238811314105987548828125int,
        26469779601696885595885078146238811314105987548828125int,
    );
}

/// A row of digits writes zero where all of them are zero, and only there.
proof fn lemma_zero_digits(digits: Seq<char>)
    requires
        numbers::all_digits(digits),
    ensures
        numbers::digits_value(digits) >= 0,
        numbers::digits_value(digits) == 0 <==> (forall|i: int|
            0 <= i < digits.len() ==> #[trigger] digits[i] == '0'),
    decreases digits.len(),
{
    if digits.len() > 0 {
        let front = digits.drop_last();
        assert(numbers::all_digits(front));
        lemma_zero_digits(front);
        assert(numbers::is_digit(digits.last()));
        if numbers::digits_value(digits) == 0 {
            assert forall|i: int| 0 <= i < digits.len() implies #[trigger] digits[i] == '0' by {
                if i < front.len() {
                    assert(front[i] == digits[i]);
                }
            }
        }
        if forall|i: int| 0 <= i < digits.len() ==> #[trigger] digits[i] == '0' {
            assert forall|i: int| 0 <= i < front.len() implies #[trigger] front[i] == '0' by {
                assert(digits[i] == '0');
            }
            assert(digits.last() == '0');
        }
    }
}

/// Zeros in front change nothing.
proof fn lemma_leading_zeros(digits: Seq<char>, n: int)
    requires
        numbers::all_digits(digits),
        0 <= n <= digits.len(),
        forall|i: int| 0 <= i < n ==> #[trigger] digits[i] == '0',
    ensures
        numbers::digits_value(digits.skip(n)) == numbers::digits_value(digits),
{
    let zeros = digits.take(n);
    assert(numbers::all_digits(zeros));
    lemma_zero_digits(zeros);
    numbers::lemma_digits_value_of_two(zeros, digits.skip(n));
    assert(zeros + digits.skip(n) == digits);
    assert(0 * vstd::arithmetic::power::pow(10, digits.skip(n).len()) == 0) by (nonlinear_arith);
}

/// A row of `n` digits that does not begin with a zero writes at least ten to
/// the power `n - 1`.
proof fn lemma_leading_digit(digits: Seq<char>)
    requires
        numbers::all_digits(digits),
        digits.len() > 0,
        digits[0] != '0',
    ensures
        numbers::digits_value(digits) >= vstd::arithmetic::power::pow(
            10,
            (digits.len() - 1) as nat,
        ),
{
    let head = digits.take(1);
    let tail = digits.skip(1);
    assert(head + tail == digits);
    assert(numbers::all_digits(tail));
    numbers::lemma_digits_value_of_two(head, tail);
    numbers::lemma_digits_value_bounds(tail);
    reveal_with_fuel(numbers::digits_value, 2);
    assert(head.drop_last() == Seq::<char>::empty());
    assert(numbers::is_digit(digits[0]));
    let v = numbers::digits_value(head);
    let p = vstd::arithmetic::power::pow(10, tail.len());
    vstd::arithmetic::power::lemma_pow_positive(10, tail.len());
    assert(v >= 1);
    assert(v * p >= p) by (nonlinear_arith)
        requires
            v >= 1,
            p > 0,
    ;
}

/// A number whose leading digit stands left of the 45th place behind the point
/// is above half of the smallest positive number; one whose leading digit
/// stands right of the 46th is below it.
proof fn lemma_far_from_half_unit(digits: Seq<char>, scale: int)
    requires
        numbers::all_digits(digits),
        digits.len() > 0,
        digits[0] != '0',
        scale < 0,
    ensures
        digits.len() + scale >= -44 ==> rounds_above_zero(numbers::digits_value(digits), scale),
        digits.len() + scale <= -46 ==> !rounds_above_zero(numbers::digits_value(digits), scale),
{
    let k = digits.len();
    let m = numbers::digits_value(digits);
    let e = (-scale) as nat;
    let two = vstd::arithmetic::power::pow(2, 150);
    lemma_powers();
    lemma_leading_digit(digits);
    numbers::lemma_digits_value_bounds(digits);
    if k + scale >= -44 {
        let low = vstd::arithmetic::power::pow(10, (k - 1) as nat);
        let ten = vstd::arithmetic::power::pow(10, 45);
        vstd::arithmetic::power::lemma_pow_adds(10, (k - 1) as nat, 45);
        vstd::arithmetic::power::lemma_pow_increases(10, e, (k + 44) as nat);
        vstd::arithmetic::power::lemma_pow_positive(10, (k - 1) as nat);
        assert(low * ten <= m * ten) by (nonlinear_arith)
            requires
                low <= m,
                ten >= 0,
        ;
        assert(m * ten < m * two) by (nonlinear_arith)
            requires
                m > 0,
                ten < two,
        ;
    }
    if k + scale <= -46 {
        let high = vstd::arithmetic::power::pow(10, k);
        let ten = vstd::arithmetic::power::pow(10, 46);
        vstd::arithmetic::power::lemma_pow_adds(10, k, 46);
        vstd::arithmetic::power::lemma_pow_increases(10, (k + 46) as nat, e);
        assert(m * two <= high * ten) by (nonlinear_arith)
            requires
                0 <= m <= high,
                0 <= two <= ten,
        ;
    }
}

/// The first 105 digits, with zeros behind where there are fewer.
spec fn padded(digits: Seq<char>) -> Seq<char> {
    Seq::new(
        105,
        |i: int|
            if i < digits.len() {
                digits[i]
            } else {
                '0'
            },
    )
}

/// Where the leading digit stands at the 46th place behind the point, the
/// first 105 digits are compared with those of two to the power -150, which has
/// no more; behind them any digit but zero makes the number greater.
proof fn lemma_near_half_unit(digits: Seq<char>)
    requires
        numbers::all_digits(digits),
        digits.len() > 0,
    ensures
        numbers::all_digits(padded(digits)),
        ({
            let lead = numbers::digits_value(padded(digits));
            let half = vstd::arithmetic::power::pow(5, 150);
            let beyond = digits.len() > 105 && exists|i: int|
                105 <= i < digits.len() && #[trigger] digits[i] != '0';
            rounds_above_zero(numbers::digits_value(digits), -(digits.len() + 45)) <==> (lead > half
                || (lead == half && beyond))
        }),
{
    let k = digits.len();
    let m = numbers::digits_value(digits);
    let lead = numbers::digits_value(padded(digits));
    let half = vstd::arithmetic::power::pow(5, 150);
    let two = vstd::arithmetic::power::pow(2, 150);
    let bound = vstd::arithmetic::power::pow(10, (k + 45) as nat);
    vstd::arithmetic::power::lemma_pow_distributes(2, 5, 150);
    assert(two * half == vstd::arithmetic::power::pow(10, 150));
    vstd::arithmetic::power::lemma_pow_positive(2, 150);
    assert(numbers::all_digits(padded(digits)));
    if k <= 105 {
        let zeros = Seq::new((105 - k) as nat, |i: int| '0');
        assert(digits + zeros == padded(digits));
        lemma_zero_digits(zeros);
        numbers::lemma_digits_value_of_two(digits, zeros);
        let t = vstd::arithmetic::power::pow(10, zeros.len());
        vstd::arithmetic::power::lemma_pow_positive(10, zeros.len());
        vstd::arithmetic::power::lemma_pow_adds(10, (k + 45) as nat, zeros.len());
        assert((m * two > bound) <==> (lead > half)) by (nonlinear_arith)
            requires
                lead == m * t,
                bound * t == two * half,
                t > 0,
                two > 0,
        ;
    } else {
        let rest = digits.skip(105);
        assert(padded(digits) == digits.take(105));
        assert(digits.take(105) + rest == digits);
        assert(numbers::all_digits(rest));
        numbers::lemma_digits_value_of_two(digits.take(105), rest);
        numbers::lemma_digits_value_bounds(rest);
        lemma_zero_digits(rest);
        let r = numbers::digits_value(rest);
        let t = vstd::arithmetic::power::pow(10, rest.len());
        vstd::arithmetic::power::lemma_pow_adds(10, 150, rest.len());
        assert((m * two > bound) <==> (lead > half || (lead == half && r > 0)))
            by (nonlinear_arith)
            requires
                m == lead * t + r,
                bound == two * half * t,
                0 <= r < t,
                two > 0,
        ;
        let beyond = exists|i: int| 105 <= i < digits.len() && #[trigger] digits[i] != '0';
        if r > 0 {
            let j = choose|j: int| 0 <= j < rest.len() && #[trigger] rest[j] != '0';
            assert(digits[j + 105] != '0');
        }
        if beyond {
            let i = choose|i: int| 105 <= i < digits.len() && #[trigger] digits[i] != '0';
            assert(rest[i - 105] != '0');
        }
    }
}

/// One or more digits write a number.
pub proof fn lemma_digits_write_a_number(s: Seq<char>)
    requires
        numbers::all_digits(s),
        s.len() > 0,
    ensures
        is_number(s),
{
    assert(numbers::is_digit(s[0]));
    let low = text::lowered(s);
    text::lemma_first_place(low, 'e');
    if mark_place(s) < s.len() {
        assert(numbers::is_digit(s[mark_place(s)]));
    }
    assert(mantissa(s) == s);
    text::lemma_first_place(s, '.');
    if text::first_place(s, '.') < s.len() {
        assert(numbers::is_digit(s[text::first_place(s, '.')]));
    }
    assert(whole_digits(s) == s);
    assert(fraction_digits(s).len() == 0);
}

/// A character that a number is written with: a letter, a digit, a sign or a
/// point.
pub open spec fn is_number_char(c: char) -> bool {
    'a' <= text::lower(c) <= 'z' || numbers::is_digit(c) || c == '.' || c == '+' || c == '-'
}

/// Numbers are written with letters, digits, signs and points.
pub proof fn lemma_number_chars(s: Seq<char>)
    requires
        is_number(s),
    ensures
        forall|i: int| 0 <= i < s.len() ==> is_number_char(#[trigger] s[i]),
{
    let body = without_sign(s);
    assert forall|j: int| 0 <= j < body.len() implies is_number_char(#[trigger] body[j]) by {
        if is_decimal(body) {
            lemma_decimal_chars(body, j);
        } else {
            lemma_word_chars(body, j);
        }
    }
    assert forall|i: int| 0 <= i < s.len() implies is_number_char(#[trigger] s[i]) by {
        if body.len() < s.len() && i > 0 {
            assert(body[i - 1] == s[i]);
        } else if body.len() == s.len() {
            assert(body[i] == s[i]);
        }
    }
}

/// The characters of a decimal number.
proof fn lemma_decimal_chars(body: Seq<char>, j: int)
    requires
        is_decimal(body),
        0 <= j < body.len(),
    ensures
        is_number_char(body[j]),
{
    let low = text::lowered(body);
    let m = mark_place(body);
    text::lemma_first_place(low, 'e');
    if j < m {
        let front = mantissa(body);
        let p = text::first_place(front, '.');
        text::lemma_first_place(front, '.');
        assert(front[j] == body[j]);
        if j < p {
            assert(whole_digits(body)[j] == body[j]);
            assert(numbers::is_digit(whole_digits(body)[j]));
        } else if j > p {
            assert(fraction_digits(body)[j - p - 1] == body[j]);
            assert(numbers::is_digit(fraction_digits(body)[j - p - 1]));
        }
    } else if j == m {
        assert(low[j] == text::lower(body[j]));
    } else {
        let tail = exponent(body);
        assert(tail[j - m - 1] == body[j]);
        let digits = without_sign(tail);
        if digits.len() == tail.len() {
            assert(numbers::is_digit(digits[j - m - 1]));
        } else if j - m - 1 > 0 {
            assert(digits[j - m - 2] == body[j]);
            assert(numbers::is_digit(digits[j - m - 2]));
        }
    }
}

/// The characters of a word for infinity or for what is no number.
proof fn lemma_word_chars(body: Seq<char>, j: int)
    requires
        is_infinity(body) || is_nan(body),
        0 <= j < body.len(),
    ensures
        is_number_char(body[j]),
{
    reveal_strlit("inf");
    reveal_strlit("infinity");
    reveal_strlit("nan");
    assert(text::lowered(body)[j] == text::lower(body[j]));
    assert(text::lowered("inf"@) == "inf"@);
    assert(text::lowered("infinity"@) == "infinity"@);
    assert(text::lowered("nan"@) == "nan"@);
}

// ---------------------------------------------------------------- operations

/// The value of the 35 digits from the place `from` on, read with zeros behind
/// the last digit.
fn stretch_value(digits: &[char], from: usize) -> (value: u128)
    requires
        numbers::all_digits(digits@),
        from <= 70,
    ensures
        value == numbers::digits_value(padded(digits@).subrange(from as int, from + 35)),
        value < 100000000000000000000000000000000000,
{
    let ghost row = padded(digits@);
    let mut value: u128 = 0;
    let mut i: usize = 0;
    assert(row.subrange(from as int, from as int) == Seq::<char>::empty());
    proof {
        lemma_powers();
        vstd::arithmetic::power::lemma_pow0(10);
    }
    while i < 35
        invariant
            i <= 35,
            from <= 70,
            row == padded(digits@),
            numbers::all_digits(digits@),
            value == numbers::digits_value(row.subrange(from as int, from + i)),
            value < vstd::arithmetic::power::pow(10, i as nat),
            vstd::arithmetic::power::pow(10, 35) == 100000000000000000000000000000000000int,
        decreases 35 - i,
    {
        let c = if from + i < digits.len() {
            digits[from + i]
        } else {
            '0'
        };
        assert(numbers::is_digit(c));
        proof {
            vstd::arithmetic::power::lemma_pow_increases(10, (i + 1) as nat, 35);
            assert(vstd::arithmetic::power::pow(10, (i + 1) as nat)
                == 10 * vstd::arithmetic::power::pow(10, i as nat)) by {
                reveal(vstd::arithmetic::power::pow);
            }
            let longer = row.subrange(from as int, from + i + 1);
            assert(longer.drop_last() == row.subrange(from as int, from + i));
            assert(longer.last() == c);
        }
        value = value * 10 + (c as u128 - '0' as u128);
        i = i + 1;
    }
    value
}

/// Whether digits whose leading one stands at the 46th place behind the point
/// are above half of the smallest positive number.
fn above_half_unit(digits: &[char]) -> (above: bool)
    requires
        numbers::all_digits(digits@),
        digits@.len() > 0,
    ensures
        above == rounds_above_zero(numbers::digits_value(digits@), -(digits@.len() + 45)),
{
    let a = stretch_value(digits, 0);
    let b = stretch_value(digits, 35);
    let c = stretch_value(digits, 70);
    let ghost lead = numbers::digits_value(padded(digits@));
    let ghost half = vstd::arithmetic::power::pow(5, 150);
    proof {
        lemma_powers();
        lemma_near_half_unit(digits@);
        let row = padded(digits@);
        let first = row.subrange(0, 35);
        let second = row.subrange(35, 70);
        let third = row.subrange(70, 105);
        numbers::lemma_digits_value_of_two(first, second + third);
        numbers::lemma_digits_value_of_two(second, third);
        assert(first + (second + third) == row);
        let step = 100000000000000000000000000000000000int;
        let high = vstd::arithmetic::power::pow(10, 70);
        let low = vstd::arithmetic::power::pow(10, 35);
        assert(lead == a * (step * step) + (b * step + c)) by (nonlinear_arith)
            requires
                lead == a * high + (b * low + c),
                high == step * step,
                low == step,
        ;
        assert(half == 70064923216240853546186479164495806int * (step * step)
            + 56401309709382578858785341419448955int * step
            + 41342930300743319094181060791015625int);
        let wide = step * step;
        let tail = b * step + c;
        let half_tail = 56401309709382578858785341419448955int * step
            + 41342930300743319094181060791015625int;
        assert(0 <= tail < wide && 0 <= half_tail < wide);
        let h = 70064923216240853546186479164495806int;
        assert((a > h ==> lead > half) && (a < h ==> lead < half)) by (nonlinear_arith)
            requires
                lead == a * wide + tail,
                half == h * wide + half_tail,
                0 <= tail < wide,
                0 <= half_tail < wide,
        ;
    }
    if a != 70064923216240853546186479164495806 {
        return a > 70064923216240853546186479164495806;
    }
    if b != 56401309709382578858785341419448955 {
        return b > 56401309709382578858785341419448955;
    }
    if c != 41342930300743319094181060791015625 {
        return c > 41342930300743319094181060791015625;
    }
    let mut i: usize = 105;
    while i < digits.len()
        invariant
            105 <= i,
            numbers::all_digits(digits@),
            digits@.len() > 0,
            lead == half,
            lead == numbers::digits_value(padded(digits@)),
            half == vstd::arithmetic::power::pow(5, 150),
            forall|j: int| 105 <= j < i && j < digits@.len() ==> #[trigger] digits@[j] == '0',
        decreases digits@.len() - i,
    {
        if digits[i] != '0' {
            proof {
                lemma_near_half_unit(digits@);
            }
            return true;
        }
        i = i + 1;
    }
    false
}

/// The value of a row of digits, or `cap` where that is less.
fn capped_value(digits: &[char], cap: u128) -> (value: u128)
    requires
        numbers::all_digits(digits@),
        cap <= 1_000_000_000_000_000_000_000_000,
    ensures
        numbers::digits_value(digits@) <= cap ==> value == numbers::digits_value(digits@),
        numbers::digits_value(digits@) > cap ==> value == cap,
{
    let mut value: u128 = 0;
    let mut i: usize = 0;
    assert(digits@.take(0) == Seq::<char>::empty());
    while i < digits.len()
        invariant
            i <= digits@.len(),
            numbers::all_digits(digits@),
            value <= cap <= 1_000_000_000_000_000_000_000_000,
            value == numbers::digits_value(digits@.take(i as int)),
        decreases digits@.len() - i,
    {
        assert(numbers::is_digit(digits@[i as int]));
        let next: u128 = value * 10 + (digits[i] as u128 - '0' as u128);
        assert(digits@.take(i + 1).drop_last() == digits@.take(i as int));
        if next > cap {
            proof {
                numbers::lemma_digits_value_of_prefix(digits@, i + 1);
            }
            return cap;
        }
        value = next;
        i = i + 1;
    }
    assert(digits@.take(i as int) == digits@);
    value
}

/// A decimal number taken apart: its digits without the point, and the power
/// of ten that they are scaled by.
struct Decimal {
    digits: Vec<char>,
    scale: i128,
}

/// No text in memory has as many characters.
const FAR: i128 = 100_000_000_000_000_000_000;

/// `scale` stands for `exact`: it is the same, or both are beyond `FAR` on the
/// same side.
spec fn stands_for(scale: i128, exact: int) -> bool {
    ||| scale == exact
    ||| scale >= FAR && exact >= FAR
    ||| scale <= -FAR && exact <= -FAR
}

/// Takes a decimal number apart, if the characters write one.
fn read_decimal(body: &[char]) -> (r: Option<Decimal>)
    ensures
        match r {
            Some(d) => is_decimal(body@) && d.digits@ == all_its_digits(body@) && stands_for(
                d.scale,
                scale(body@),
            ),
            None => !is_decimal(body@),
        },
{
    let len: usize = body.len();
    let lower = text::to_lowered(body);
    let mark: usize = text::find(lower.as_slice(), 'e');
    assert(mark == mark_place(body@));
    let front = text::stretch(body, 0, mark);
    assert(front@ == mantissa(body@));
    let point: usize = text::find(front.as_slice(), '.');
    let whole = text::stretch(front.as_slice(), 0, point);
    assert(whole@ == whole_digits(body@));
    let fraction = if point < front.len() {
        text::stretch(front.as_slice(), point + 1, front.len())
    } else {
        Vec::new()
    };
    assert(fraction@ == fraction_digits(body@));
    if !numbers::only_digits(whole.as_slice()) || !numbers::only_digits(fraction.as_slice()) || (
    whole.len() == 0 && fraction.len() == 0) {
        return None;
    }
    let places: i128 = fraction.len() as i128;
    let mut written: i128 = 0;
    if mark < len {
        let behind = text::stretch(body, mark + 1, len);
        assert(behind@ == exponent(body@));
        let signed = behind.len() > 0 && (behind[0] == '+' || behind[0] == '-');
        let negative = behind.len() > 0 && behind[0] == '-';
        let from: usize = if signed {
            1
        } else {
            0
        };
        let power = text::stretch(behind.as_slice(), from, behind.len());
        assert(power@ == without_sign(exponent(body@)));
        if power.len() == 0 || !numbers::only_digits(power.as_slice()) {
            return None;
        }
        let exact: i128 = capped_value(power.as_slice(), 200_000_000_000_000_000_000) as i128;
        written = if negative {
            -exact
        } else {
            exact
        };
    }
    assert(stands_for((written - places) as i128, scale(body@)));
    let mut digits = whole;
    let mut rest = fraction;
    digits.append(&mut rest);
    Some(Decimal { digits, scale: written - places })
}

/// Whether a decimal number is greater than zero in single precision.
fn above_zero(decimal: Decimal) -> (r: bool)
    requires
        numbers::all_digits(decimal.digits@),
    ensures
        forall|exact: int| #[trigger]
            stands_for(decimal.scale, exact) ==> r == rounds_above_zero(
                numbers::digits_value(decimal.digits@),
                exact,
            ),
{
    let digits = decimal.digits;
    let scale: i128 = decimal.scale;
    let ghost all = digits@;
    let mut from: usize = 0;
    while from < digits.len() && digits[from] == '0'
        invariant
            from <= digits@.len(),
            forall|i: int| 0 <= i < from ==> #[trigger] digits@[i] == '0',
        decreases digits@.len() - from,
    {
        from = from + 1;
    }
    let lead = text::stretch(digits.as_slice(), from, digits.len());
    let ghost value = numbers::digits_value(all);
    proof {
        lemma_leading_zeros(all, from as int);
        assert(lead@ == all.skip(from as int));
        assert(numbers::all_digits(lead@));
        assert(vstd::arithmetic::power::pow(2, 150) > 0) by {
            lemma_powers();
        }
    }
    if lead.len() == 0 {
        proof {
            lemma_zero_digits(all);
            assert forall|exact: int| #[trigger] stands_for(scale, exact) implies !rounds_above_zero(
                value,
                exact,
            ) by {
                if exact < 0 {
                    vstd::arithmetic::power::lemma_pow_positive(10, (-exact) as nat);
                }
            }
        }
        return false;
    }
    proof {
        lemma_leading_digit(lead@);
        vstd::arithmetic::power::lemma_pow_positive(10, (lead@.len() - 1) as nat);
    }
    if scale >= 0 {
        return true;
    }
    if scale <= -FAR {
        proof {
            assert forall|exact: int| #[trigger] stands_for(scale, exact) implies !rounds_above_zero(
                value,
                exact,
            ) by {
                lemma_far_from_half_unit(lead@, exact);
            }
        }
        return false;
    }
    proof {
        lemma_far_from_half_unit(lead@, scale as int);
    }
    let place: i128 = lead.len() as i128 + scale;
    if place >= -44 {
        true
    } else if place <= -46 {
        false
    } else {
        above_half_unit(lead.as_slice())
    }
}

/// Whether the characters write a number.
pub fn number(chars: &[char]) -> (r: bool)
    ensures
        r == is_number(chars@),
{
    let body = drop_sign(chars);
    read_decimal(body.as_slice()).is_some() || text::is_text_ignoring_case(body.as_slice(), "inf")
        || text::is_text_ignoring_case(body.as_slice(), "infinity") || text::is_text_ignoring_case(
        body.as_slice(),
        "nan",
    )
}

/// The characters without one leading sign.
fn drop_sign(chars: &[char]) -> (r: Vec<char>)
    ensures
        r@ == without_sign(chars@),
{
    let from: usize = if chars.len() > 0 && (chars[0] == '+' || chars[0] == '-') {
        1
    } else {
        0
    };
    text::stretch(chars, from, chars.len())
}

/// Whether the characters write a number that is greater than zero in single
/// precision.
pub fn positive_number(chars: &[char]) -> (r: bool)
    ensures
        r == is_positive_number(chars@),
{
    if chars.len() > 0 && chars[0] == '-' {
        return false;
    }
    let body = drop_sign(chars);
    if text::is_text_ignoring_case(body.as_slice(), "inf") || text::is_text_ignoring_case(
        body.as_slice(),
        "infinity",
    ) {
        return true;
    }
    match read_decimal(body.as_slice()) {
        Some(decimal) => above_zero(decimal),
        None => false,
    }
}

// ---------------------------------------------------------------------- laws

/// A number is written with one character at least.
pub proof fn lemma_number_is_written(s: Seq<char>)
    requires
        is_number(s),
    ensures
        s.len() > 0,
{
    let body = without_sign(s);
    if s.len() == 0 {
        reveal_strlit("inf");
        reveal_strlit("infinity");
        reveal_strlit("nan");
        assert(text::lowered(body).len() == 0);
        assert(text::lowered("inf"@).len() == 3);
        assert(text::lowered("infinity"@).len() == 8);
        assert(text::lowered("nan"@).len() == 3);
        text::lemma_first_place(text::lowered(body), 'e');
        text::lemma_first_place(mantissa(body), '.');
    }
}

/// A decimal number, written out: digits, a point and further digits behind it,
/// or neither, then a mark, a sign and the digits of an exponent, or none of
/// those.
pub open spec fn written_number(
    whole: Seq<char>,
    fraction: Option<Seq<char>>,
    power: Option<(char, Seq<char>, Seq<char>)>,
) -> Seq<char> {
    whole + match fraction {
        Some(digits) => seq!['.'] + digits,
        None => Seq::empty(),
    } + match power {
        Some((mark, sign, digits)) => seq![mark] + sign + digits,
        None => Seq::empty(),
    }
}

/// The parts of a decimal number that was written out.
proof fn lemma_written_number(
    whole: Seq<char>,
    fraction: Option<Seq<char>>,
    power: Option<(char, Seq<char>, Seq<char>)>,
)
    requires
        numbers::all_digits(whole),
        fraction matches Some(digits) ==> numbers::all_digits(digits),
        whole.len() > 0 || (fraction matches Some(digits) && digits.len() > 0),
        power matches Some((mark, sign, digits)) ==> (mark == 'e' || mark == 'E') && (sign
            == Seq::<char>::empty() || sign == seq!['+'] || sign == seq!['-']) && digits.len() > 0
            && numbers::all_digits(digits),
    ensures
        ({
            let s = written_number(whole, fraction, power);
            &&& s.len() > 0
            &&& numbers::is_digit(s[0]) || s[0] == '.'
            &&& is_decimal(s)
            &&& whole_digits(s) == whole
            &&& fraction_digits(s) == match fraction {
                Some(digits) => digits,
                None => Seq::empty(),
            }
            &&& mark_place(s) < s.len() <==> power is Some
            &&& power matches Some((mark, sign, digits)) ==> exponent(s) == sign + digits
                && without_sign(exponent(s)) == digits && is_negative(exponent(s)) == (sign
                == seq!['-'])
        }),
{
    let s = written_number(whole, fraction, power);
    let front = whole + match fraction {
        Some(digits) => seq!['.'] + digits,
        None => Seq::empty(),
    };
    let low = text::lowered(front);
    assert(text::free_of(low, 'e')) by {
        assert forall|i: int| 0 <= i < low.len() implies low[i] != 'e' by {
            assert(low[i] == text::lower(front[i]));
            if i < whole.len() {
                assert(numbers::is_digit(whole[i]));
            } else if i > whole.len() {
                assert(numbers::is_digit(fraction->0[i - whole.len() - 1]));
            }
        }
    }
    match power {
        Some((mark, sign, digits)) => {
            let tail = sign + digits;
            assert(s == front.push(mark) + tail);
            assert(text::lowered(s) == low.push('e') + text::lowered(tail));
            text::first_separator_divides(low, 'e', text::lowered(tail));
            text::lemma_first_place(text::lowered(s), 'e');
            assert(text::before_first(text::lowered(s), 'e').len() == mark_place(s));
            assert(mark_place(s) == front.len());
            assert(mantissa(s) == front);
            assert(exponent(s) == tail);
            assert(numbers::is_digit(digits[0]));
            if sign.len() == 0 {
                assert(tail == digits);
            } else {
                assert(tail[0] == sign[0]);
                assert(tail.drop_first() == digits);
            }
        },
        None => {
            assert(s == front);
            text::first_separator_divides(low, 'e', low);
            text::lemma_first_place(low, 'e');
            assert(mark_place(s) == front.len());
            assert(mantissa(s) == front);
        },
    }
    assert(text::free_of(whole, '.')) by {
        assert forall|i: int| 0 <= i < whole.len() implies whole[i] != '.' by {
            assert(numbers::is_digit(whole[i]));
        }
    }
    match fraction {
        Some(digits) => {
            assert(front == whole.push('.') + digits);
            text::first_separator_divides(whole, '.', digits);
        },
        None => {
            assert(front == whole);
            text::first_separator_divides(whole, '.', whole);
        },
    }
    if whole.len() > 0 {
        assert(s[0] == whole[0]);
        assert(numbers::is_digit(whole[0]));
    } else {
        assert(s[0] == '.');
    }
}

/// A decimal number that is written out is one, with a sign in front or not. It
/// is above zero exactly if there is no minus sign and its digits, with the
/// point and the exponent reckoned in, are worth more than two to the power
/// -150.
pub proof fn decimal_numbers_are_worth_their_digits(
    whole: Seq<char>,
    fraction: Option<Seq<char>>,
    power: Option<(char, Seq<char>, Seq<char>)>,
)
    requires
        numbers::all_digits(whole),
        fraction matches Some(digits) ==> numbers::all_digits(digits),
        whole.len() > 0 || (fraction matches Some(digits) && digits.len() > 0),
        power matches Some((mark, sign, digits)) ==> (mark == 'e' || mark == 'E') && (sign
            == Seq::<char>::empty() || sign == seq!['+'] || sign == seq!['-']) && digits.len() > 0
            && numbers::all_digits(digits),
    ensures
        ({
            let s = written_number(whole, fraction, power);
            let behind = match fraction {
                Some(digits) => digits,
                None => Seq::empty(),
            };
            let shift = match power {
                Some((_, sign, digits)) => if sign == seq!['-'] {
                    -numbers::digits_value(digits)
                } else {
                    numbers::digits_value(digits)
                },
                None => 0,
            } - behind.len();
            let worth = numbers::digits_value(whole + behind);
            &&& is_number(s) && is_number(seq!['+'] + s) && is_number(seq!['-'] + s)
            &&& !is_positive_number(seq!['-'] + s)
            &&& is_positive_number(seq!['+'] + s) == is_positive_number(s)
            &&& shift >= 0 ==> (is_positive_number(s) <==> worth > 0)
            &&& shift < 0 ==> (is_positive_number(s) <==> worth * vstd::arithmetic::power::pow(
                2,
                150,
            ) > vstd::arithmetic::power::pow(10, (-shift) as nat))
        }),
{
    let s = written_number(whole, fraction, power);
    lemma_written_number(whole, fraction, power);
    assert(without_sign(s) == s);
    assert((seq!['+'] + s).drop_first() == s);
    assert((seq!['-'] + s).drop_first() == s);
    reveal_strlit("inf");
    reveal_strlit("infinity");
    assert(!is_infinity(s)) by {
        assert(text::lowered(s)[0] == text::lower(s[0]));
        assert(text::lowered("inf"@)[0] == 'i');
        assert(text::lowered("infinity"@)[0] == 'i');
    }
}

/// The words for infinity write a number above zero, unless a minus sign stands
/// before them; the word for what is no number is read, but is not above zero.
/// Case makes no difference.
pub proof fn words_are_numbers(word: Seq<char>)
    ensures
        (text::lowered(word) == seq!['i', 'n', 'f'] || text::lowered(word) == seq![
            'i',
            'n',
            'f',
            'i',
            'n',
            'i',
            't',
            'y',
        ]) ==> is_number(word) && is_positive_number(word) && is_positive_number(
            seq!['+'] + word,
        ) && is_number(seq!['-'] + word) && !is_positive_number(seq!['-'] + word),
        text::lowered(word) == seq!['n', 'a', 'n'] ==> is_number(word) && !is_positive_number(
            word,
        ) && is_number(seq!['-'] + word) && !is_positive_number(seq!['-'] + word),
{
    reveal_strlit("inf");
    reveal_strlit("infinity");
    reveal_strlit("nan");
    assert("inf"@ == seq!['i', 'n', 'f']);
    assert("infinity"@ == seq!['i', 'n', 'f', 'i', 'n', 'i', 't', 'y']);
    assert("nan"@ == seq!['n', 'a', 'n']);
    assert(text::lowered("inf"@) == "inf"@);
    assert(text::lowered("infinity"@) == "infinity"@);
    assert(text::lowered("nan"@) == "nan"@);
    assert((seq!['+'] + word).drop_first() == word);
    assert((seq!['-'] + word).drop_first() == word);
    if word.len() > 0 {
        assert(text::lowered(word)[0] == text::lower(word[0]));
    }
    if text::lowered(word) == seq!['n', 'a', 'n'] {
        assert(word.len() == 3);
        assert(without_sign(word) == word);
        assert(text::lowered(word)[0] == 'n');
        assert("inf"@[0] == 'i' && "infinity"@[0] == 'i');
        assert(!is_infinity(word));
        assert(!is_decimal(word)) by {
            lemma_word_is_no_decimal(word);
        }
    }
}

/// A text that begins with a letter other than the mark of an exponent is no
/// decimal number.
proof fn lemma_word_is_no_decimal(word: Seq<char>)
    requires
        word.len() > 0,
        text::lower(word[0]) == 'n',
    ensures
        !is_decimal(word),
{
    let low = text::lowered(word);
    text::lemma_first_place(low, 'e');
    assert(low[0] == 'n');
    let front = mantissa(word);
    if mark_place(word) == 0 {
        assert(low[0] == 'e');
    }
    assert(front[0] == word[0]);
    text::lemma_first_place(front, '.');
    let p = text::first_place(front, '.');
    if p == 0 {
        assert(front[0] == '.');
    }
    assert(whole_digits(word)[0] == word[0]);
    assert(!numbers::is_digit(whole_digits(word)[0]));
}

/// What is a decimal number is put together of digits, a point, a mark and an
/// exponent, and of nothing else.
pub proof fn decimal_numbers_come_apart(body: Seq<char>)
    requires
        is_decimal(body),
    ensures
        exists|
            whole: Seq<char>,
            fraction: Option<Seq<char>>,
            power: Option<(char, Seq<char>, Seq<char>)>,
        |
            #![trigger written_number(whole, fraction, power)]
            body == written_number(whole, fraction, power) && numbers::all_digits(whole) && (
            fraction matches Some(digits) ==> numbers::all_digits(digits)) && (whole.len() > 0 || (
            fraction matches Some(digits) && digits.len() > 0)) && (power matches Some(
                (mark, sign, digits),
            ) ==> (mark == 'e' || mark == 'E') && (sign == Seq::<char>::empty() || sign == seq![
                '+',
            ] || sign == seq!['-']) && digits.len() > 0 && numbers::all_digits(digits)),
{
    let low = text::lowered(body);
    text::lemma_first_place(low, 'e');
    let m = mark_place(body);
    let front = mantissa(body);
    text::lemma_first_place(front, '.');
    let p = text::first_place(front, '.');
    let whole = whole_digits(body);
    let fraction = if p < front.len() {
        Some(fraction_digits(body))
    } else {
        None
    };
    if p < front.len() {
        assert(front == whole + (seq!['.'] + fraction_digits(body)));
    } else {
        assert(front == whole + Seq::<char>::empty());
        assert(fraction_digits(body).len() == 0);
    }
    let tail = exponent(body);
    let digits = without_sign(tail);
    let power = if m < body.len() {
        Some((body[m], tail.take(tail.len() - digits.len()), digits))
    } else {
        None
    };
    if m < body.len() {
        assert(low[m] == text::lower(body[m]));
        let sign = tail.take(tail.len() - digits.len());
        assert(sign + digits == tail);
        if digits.len() == tail.len() {
            assert(sign == Seq::<char>::empty());
        } else {
            assert(sign == seq![tail[0]]);
        }
        assert(body == front + (seq![body[m]] + sign + digits));
    } else {
        assert(body == front + Seq::<char>::empty());
    }
    assert(body == written_number(whole, fraction, power));
}

} // verus!
