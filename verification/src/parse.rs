//! Reading a landscape from text.
//!
//! A landscape is written as heights in blocks, separated by single spaces or
//! commas: `"3,1,6 4"`. A height is written as a decimal number: an optional
//! sign, digits with at most one decimal point among them, and an optional
//! exponent, which is `e` or `E`, an optional sign and digits: `"2"`,
//! `"+0.75"`, `"-1."`, `".5"`, `"1e3"`, `"2.5E-1"`. It is read to the nearest
//! thousandth of a block, and to the one farther from zero where two are
//! equally near.
//!
//! The names `inf`, `infinity` and `nan`, in letters of either size and with
//! or without a sign, denote no height: they are refused as not finite, a
//! cause apart from that of a token that is not written as a number.

use vstd::prelude::*;
use vstd::slice::slice_subrange;
use crate::canvas::MILLI;

verus! {

/// Why a token is not a height.
#[derive(Clone, Copy, PartialEq, Eq, Debug, Structural)]
pub enum NumberError {
    /// The token is empty.
    Empty,
    /// The token is not written as a number.
    Invalid,
    /// The token names infinity or what is no number: `inf`, `infinity` or
    /// `nan`, in letters of either size, with or without a sign.
    NotFinite,
    /// The number does not fit into 64 bits of thousandths.
    OutOfRange,
}

impl NumberError {
    /// The reason in words.
    pub open spec fn cause_text(self) -> Seq<char> {
        match self {
            NumberError::Empty => "cannot parse float from empty string"@,
            NumberError::Invalid => "invalid float literal"@,
            NumberError::NotFinite => "not a finite number"@,
            NumberError::OutOfRange => "number out of range"@,
        }
    }

    /// The reason in words.
    pub fn cause(self) -> (text: &'static str)
        ensures
            text@ == self.cause_text(),
    {
        match self {
            NumberError::Empty => "cannot parse float from empty string",
            NumberError::Invalid => "invalid float literal",
            NumberError::NotFinite => "not a finite number",
            NumberError::OutOfRange => "number out of range",
        }
    }
}

/// A token of a landscape that is not a height.
#[derive(Clone, PartialEq, Eq, Debug)]
pub struct ParseError {
    /// The token as it was written.
    pub token: String,
    /// Why it is not a height.
    pub cause: NumberError,
}

/// The message that reports `token` as unreadable for `cause`.
pub open spec fn message_text(token: Seq<char>, cause: NumberError) -> Seq<char> {
    "Cannot parse '"@ + token + "' as number: "@ + cause.cause_text()
}

impl ParseError {
    /// The message to show to the user.
    pub fn message(&self) -> (message: String)
        ensures
            message@ == message_text(self.token@, self.cause),
    {
        let message = String::from_str("Cannot parse '");
        let message = message.concat(self.token.as_str());
        let message = message.concat("' as number: ");
        message.concat(self.cause.cause())
    }
}

/// Whether `c` separates the heights of a landscape.
pub open spec fn is_delimiter(c: char) -> bool {
    c == ' ' || c == ','
}

/// The tokens of `text`: what stands before, between and after its
/// delimiters, from left to right. A text with `n` delimiters has `n + 1`
/// tokens, and those beside a delimiter at either end of the text or beside
/// another delimiter are empty.
pub open spec fn tokens(text: Seq<char>) -> Seq<Seq<char>>
    decreases text.len(),
{
    if text.len() == 0 {
        seq![Seq::empty()]
    } else {
        let before = tokens(text.drop_last());
        if is_delimiter(text.last()) {
            before.push(Seq::empty())
        } else {
            before.drop_last().push(before.last().push(text.last()))
        }
    }
}

/// Every text has a token, and no token holds a delimiter.
pub proof fn lemma_tokens_hold_no_delimiter(text: Seq<char>)
    ensures
        tokens(text).len() > 0,
        forall|k: int, j: int|
            0 <= k < tokens(text).len() && 0 <= j < tokens(text)[k].len() ==> !is_delimiter(
                #[trigger] tokens(text)[k][j],
            ),
    decreases text.len(),
{
    if text.len() > 0 {
        lemma_tokens_hold_no_delimiter(text.drop_last());
    }
}

/// A text without delimiters is its own and only token.
pub proof fn lemma_tokens_of_one(text: Seq<char>)
    requires
        forall|i: int| 0 <= i < text.len() ==> !is_delimiter(text[i]),
    ensures
        tokens(text) == seq![text],
    decreases text.len(),
{
    if text.len() > 0 {
        let front = text.drop_last();
        assert forall|i: int| 0 <= i < front.len() implies !is_delimiter(front[i]) by {
            assert(front[i] == text[i]);
        }
        lemma_tokens_of_one(front);
        assert(!is_delimiter(text[text.len() - 1]));
        let before = tokens(front);
        assert(before.last().push(text.last()) =~= text);
        assert(before.drop_last() =~= Seq::<Seq<char>>::empty());
    } else {
        assert(text =~= Seq::<char>::empty());
    }
}

/// A delimiter parts a text: the tokens of the whole are those of what
/// stands before the delimiter, then those of what stands after it.
pub proof fn lemma_tokens_part(left: Seq<char>, delimiter: char, right: Seq<char>)
    requires
        is_delimiter(delimiter),
    ensures
        tokens(left.push(delimiter) + right) == tokens(left) + tokens(right),
    decreases right.len(),
{
    let text = left.push(delimiter) + right;
    if right.len() == 0 {
        assert(text.drop_last() =~= left);
        assert(tokens(right) =~= seq![Seq::<char>::empty()]);
        assert(tokens(text) =~= tokens(left) + tokens(right));
    } else {
        let front = right.drop_last();
        lemma_tokens_part(left, delimiter, front);
        lemma_tokens_hold_no_delimiter(front);
        assert(text.drop_last() =~= left.push(delimiter) + front);
        assert(text.last() == right.last());
        assert(tokens(text) =~= tokens(left) + tokens(right));
    }
}

/// Whether `text` is a landscape of the heights `heights`: each token is a
/// height, and they are these.
pub open spec fn reads_as(text: Seq<char>, heights: Seq<i64>) -> bool {
    &&& tokens(text).len() == heights.len()
    &&& forall|k: int|
        0 <= k < heights.len() ==> height_of(#[trigger] tokens(text)[k]) == Ok::<i64, NumberError>(
            heights[k],
        )
}

/// Whether `token` is the first token of `text` that is no height, and
/// `cause` the reason.
pub open spec fn fails_with(text: Seq<char>, token: Seq<char>, cause: NumberError) -> bool {
    exists|k: int|
        {
            &&& 0 <= k < tokens(text).len()
            &&& #[trigger] tokens(text)[k] == token
            &&& height_of(token) == Err::<i64, NumberError>(cause)
            &&& forall|j: int| 0 <= j < k ==> height_of(#[trigger] tokens(text)[j]) is Ok
        }
}

/// Whether `c` is a decimal digit.
pub open spec fn is_digit(c: char) -> bool {
    '0' <= c <= '9'
}

/// The number that the digit `c` stands for.
pub open spec fn digit_value(c: char) -> nat {
    (c as int - '0' as int) as nat
}

/// Whether `digits` holds decimal digits only.
pub open spec fn all_digits(digits: Seq<char>) -> bool {
    forall|i: int| 0 <= i < digits.len() ==> is_digit(#[trigger] digits[i])
}

/// The number that a string of digits denotes in base ten; zero for the
/// empty string.
pub open spec fn decimal(digits: Seq<char>) -> nat
    decreases digits.len(),
{
    if digits.len() == 0 {
        0
    } else {
        decimal(digits.drop_last()) * 10 + digit_value(digits.last())
    }
}

/// Ten to the power `n`.
pub open spec fn pow10(n: nat) -> nat
    decreases n,
{
    if n == 0 {
        1
    } else {
        10 * pow10((n - 1) as nat)
    }
}

/// The whole number nearest to `mantissa` times ten to the power `shift`,
/// and of two equally near the larger.
pub open spec fn scaled(mantissa: nat, shift: int) -> nat {
    if shift >= 0 {
        mantissa * pow10(shift as nat)
    } else {
        ((2 * mantissa + pow10((-shift) as nat)) / (2 * pow10((-shift) as nat))) as nat
    }
}

/// Whether `text` begins with a sign.
pub open spec fn is_signed(text: Seq<char>) -> bool {
    text.len() > 0 && (text[0] == '+' || text[0] == '-')
}

/// Whether `text` begins with a minus sign.
pub open spec fn is_negative(text: Seq<char>) -> bool {
    text.len() > 0 && text[0] == '-'
}

/// What follows the sign of `text`, or all of it where it has none.
pub open spec fn unsigned_part(text: Seq<char>) -> Seq<char> {
    if is_signed(text) {
        text.skip(1)
    } else {
        text
    }
}

/// Whether `text` spells the word that `lower` holds in small letters and
/// `upper` in capitals, in letters of either size.
pub open spec fn spells(text: Seq<char>, lower: Seq<char>, upper: Seq<char>) -> bool {
    &&& text.len() == lower.len()
    &&& text.len() == upper.len()
    &&& forall|i: int| 0 <= i < text.len() ==> text[i] == lower[i] || text[i] == upper[i]
}

/// Whether `body` names a value that is no finite number.
pub open spec fn names_no_finite_number(body: Seq<char>) -> bool {
    ||| spells(body, "inf"@, "INF"@)
    ||| spells(body, "infinity"@, "INFINITY"@)
    ||| spells(body, "nan"@, "NAN"@)
}

/// The position of the first `a` or `b` in `text`, or its length where it
/// holds neither.
pub open spec fn first_of(text: Seq<char>, a: char, b: char) -> int
    decreases text.len(),
{
    if text.len() == 0 || text[0] == a || text[0] == b {
        0
    } else {
        1 + first_of(text.skip(1), a, b)
    }
}

/// What stands in `text` before the first `a` or `b`.
pub open spec fn before_first(text: Seq<char>, a: char, b: char) -> Seq<char> {
    text.take(first_of(text, a, b))
}

/// What stands in `text` after the first `a` or `b`.
pub open spec fn after_first(text: Seq<char>, a: char, b: char) -> Seq<char> {
    if first_of(text, a, b) < text.len() {
        text.skip(first_of(text, a, b) + 1)
    } else {
        Seq::empty()
    }
}

/// The mantissa of `body`: what stands before its exponent mark.
pub open spec fn mantissa_part(body: Seq<char>) -> Seq<char> {
    before_first(body, 'e', 'E')
}

/// Whether `body` has an exponent mark, `e` or `E`.
pub open spec fn has_exponent(body: Seq<char>) -> bool {
    first_of(body, 'e', 'E') < body.len()
}

/// What stands after the exponent mark of `body`.
pub open spec fn exponent_part(body: Seq<char>) -> Seq<char> {
    after_first(body, 'e', 'E')
}

/// What stands before the decimal point of `mantissa`.
pub open spec fn whole_part(mantissa: Seq<char>) -> Seq<char> {
    before_first(mantissa, '.', '.')
}

/// What stands after the decimal point of `mantissa`.
pub open spec fn fraction_part(mantissa: Seq<char>) -> Seq<char> {
    after_first(mantissa, '.', '.')
}

/// The digits of `mantissa`, without its decimal point.
pub open spec fn mantissa_digits(mantissa: Seq<char>) -> Seq<char> {
    whole_part(mantissa) + fraction_part(mantissa)
}

/// Whether `body` is written as an unsigned number: digits before and after
/// at most one decimal point, at least one digit in all, and then, if there
/// is an exponent mark, an optional sign and at least one digit.
pub open spec fn well_formed(body: Seq<char>) -> bool {
    &&& all_digits(whole_part(mantissa_part(body)))
    &&& all_digits(fraction_part(mantissa_part(body)))
    &&& mantissa_digits(mantissa_part(body)).len() > 0
    &&& has_exponent(body) ==> {
        &&& all_digits(unsigned_part(exponent_part(body)))
        &&& unsigned_part(exponent_part(body)).len() > 0
    }
}

/// The exponent that `body` is written with, zero where it has none.
pub open spec fn exponent_of(body: Seq<char>) -> int {
    if !has_exponent(body) {
        0
    } else if is_negative(exponent_part(body)) {
        -decimal(unsigned_part(exponent_part(body)))
    } else {
        decimal(unsigned_part(exponent_part(body))) as int
    }
}

/// The number of thousandths nearest to what `body` denotes: its digits
/// taken as a whole number, times ten to the power of the exponent, less one
/// power for each decimal place and three more for the thousandths.
pub open spec fn magnitude_of(body: Seq<char>) -> nat {
    scaled(
        decimal(mantissa_digits(mantissa_part(body))),
        exponent_of(body) - fraction_part(mantissa_part(body)).len() + 3,
    )
}

/// The height that `token` denotes, in thousandths of a block, or why it
/// denotes none.
pub open spec fn height_of(token: Seq<char>) -> Result<i64, NumberError> {
    let body = unsigned_part(token);
    let height = if is_negative(token) {
        -magnitude_of(body)
    } else {
        magnitude_of(body) as int
    };
    if token.len() == 0 {
        Err(NumberError::Empty)
    } else if names_no_finite_number(body) {
        Err(NumberError::NotFinite)
    } else if !well_formed(body) {
        Err(NumberError::Invalid)
    } else if !(i64::MIN <= height <= i64::MAX) {
        Err(NumberError::OutOfRange)
    } else {
        Ok(height as i64)
    }
}

/// The first `a` or `b` of `text` is at `k` where one stands there and none
/// before, and likewise where `k` is the length and `text` has none.
proof fn lemma_first_is(text: Seq<char>, a: char, b: char, k: int)
    requires
        0 <= k <= text.len(),
        forall|j: int| 0 <= j < k ==> text[j] != a && text[j] != b,
        k < text.len() ==> text[k] == a || text[k] == b,
    ensures
        first_of(text, a, b) == k,
    decreases k,
{
    if k > 0 {
        let rest = text.skip(1);
        assert forall|j: int| 0 <= j < k - 1 implies rest[j] != a && rest[j] != b by {
            assert(rest[j] == text[j + 1]);
        }
        lemma_first_is(rest, a, b, k - 1);
    }
}

/// The first `a` or `b` of `text` is not among its first `k` characters
/// where none of them is one.
proof fn lemma_first_beyond(text: Seq<char>, a: char, b: char, k: int)
    requires
        0 <= k <= text.len(),
        forall|j: int| 0 <= j < k ==> text[j] != a && text[j] != b,
    ensures
        k <= first_of(text, a, b) <= text.len(),
    decreases text.len(),
{
    if text.len() > 0 && text[0] != a && text[0] != b {
        let rest = text.skip(1);
        if k > 0 {
            assert forall|j: int| 0 <= j < k - 1 implies rest[j] != a && rest[j] != b by {
                assert(rest[j] == text[j + 1]);
            }
            lemma_first_beyond(rest, a, b, k - 1);
        } else {
            lemma_first_beyond(rest, a, b, 0);
        }
    }
}

/// Powers of ten are positive and grow with the exponent.
pub proof fn lemma_pow10_grows(low: nat, high: nat)
    requires
        low <= high,
    ensures
        1 <= pow10(low) <= pow10(high),
    decreases high,
{
    if low < high {
        lemma_pow10_grows(low, (high - 1) as nat);
    } else if low > 0 {
        lemma_pow10_grows((low - 1) as nat, (low - 1) as nat);
    }
}

/// A string of `n` digits denotes a number below ten to the power `n`.
pub proof fn lemma_decimal_bound(digits: Seq<char>)
    requires
        all_digits(digits),
    ensures
        decimal(digits) < pow10(digits.len()),
    decreases digits.len(),
{
    if digits.len() > 0 {
        let front = digits.drop_last();
        assert forall|i: int| 0 <= i < front.len() implies is_digit(#[trigger] front[i]) by {
            assert(front[i] == digits[i]);
        }
        lemma_decimal_bound(front);
        assert(is_digit(digits[digits.len() - 1]));
    }
}

/// A string of digits denotes what its first `k` digits denote, times ten
/// to the power of the number of the others, and what the others denote.
pub proof fn lemma_decimal_split(digits: Seq<char>, k: int)
    requires
        0 <= k <= digits.len(),
    ensures
        decimal(digits) == decimal(digits.take(k)) * pow10((digits.len() - k) as nat) + decimal(
            digits.skip(k),
        ),
    decreases digits.len(),
{
    if k == digits.len() {
        assert(digits.take(k) =~= digits);
        assert(digits.skip(k) =~= Seq::<char>::empty());
        assert(decimal(digits.skip(k)) == 0);
        assert(decimal(digits) * pow10(0) == decimal(digits)) by (nonlinear_arith)
            requires
                pow10(0) == 1,
        ;
    } else {
        let front = digits.drop_last();
        lemma_decimal_split(front, k);
        assert(front.take(k) =~= digits.take(k));
        assert(front.skip(k) =~= digits.skip(k).drop_last());
        assert(digits.skip(k).last() == digits.last());
        assert(decimal(digits) == decimal(front) * 10 + digit_value(digits.last()));
        assert(decimal(digits.skip(k)) == decimal(front.skip(k)) * 10 + digit_value(
            digits.last(),
        ));
        let head = decimal(digits.take(k)) as int;
        let power = pow10((front.len() - k) as nat) as int;
        let tail = decimal(front.skip(k)) as int;
        assert(pow10((digits.len() - k) as nat) == 10 * power);
        assert((head * power + tail) * 10 == head * (10 * power) + tail * 10) by (nonlinear_arith);
    }
}

/// Rounding to the nearest whole looks at one digit: a number written in
/// digits, with the last of them cut off from `keep` on, is nearest to what
/// the digits before `keep` denote, and to one more where the digit at
/// `keep` is five or above.
pub proof fn lemma_scaled_by_digits(digits: Seq<char>, keep: int)
    requires
        all_digits(digits),
        0 <= keep < digits.len(),
    ensures
        scaled(decimal(digits), keep - digits.len()) == decimal(digits.take(keep)) + (
        if digit_value(digits[keep]) >= 5 {
            1nat
        } else {
            0nat
        }),
{
    let cut = digits.skip(keep);
    let rest = cut.skip(1);
    assert forall|i: int| 0 <= i < rest.len() implies is_digit(#[trigger] rest[i]) by {
        assert(rest[i] == digits[keep + 1 + i]);
    }
    lemma_decimal_split(digits, keep);
    lemma_decimal_split(cut, 1);
    lemma_decimal_bound(rest);
    assert(cut.take(1).drop_last() =~= Seq::<char>::empty());
    assert(decimal(cut.take(1)) == digit_value(digits[keep])) by {
        assert(cut.take(1).last() == digits[keep]);
        assert(decimal(cut.take(1).drop_last()) == 0);
    }
    assert(is_digit(digits[keep]));
    let q = decimal(digits.take(keep)) as int;
    let d = digit_value(digits[keep]) as int;
    let tenth = pow10((cut.len() - 1) as nat) as int;
    let power = pow10(cut.len()) as int;
    let low = decimal(rest) as int;
    let m = decimal(digits) as int;
    assert(power == 10 * tenth);
    assert(m == q * power + (d * tenth + low));
    assert(0 <= low < tenth);
    assert(0 <= d <= 9);
    if d >= 5 {
        let r = 2 * (d * tenth + low) - power;
        assert(0 <= r < 2 * power) by (nonlinear_arith)
            requires
                r == 2 * (d * tenth + low) - power,
                power == 10 * tenth,
                0 <= low < tenth,
                5 <= d <= 9,
        ;
        assert(2 * m + power == (q + 1) * (2 * power) + r) by (nonlinear_arith)
            requires
                m == q * power + (d * tenth + low),
                r == 2 * (d * tenth + low) - power,
        ;
        vstd::arithmetic::div_mod::lemma_fundamental_div_mod_converse(
            2 * m + power,
            2 * power,
            q + 1,
            r,
        );
    } else {
        let r = 2 * (d * tenth + low) + power;
        assert(0 <= r < 2 * power) by (nonlinear_arith)
            requires
                r == 2 * (d * tenth + low) + power,
                power == 10 * tenth,
                0 <= low < tenth,
                0 <= d <= 4,
        ;
        assert(2 * m + power == q * (2 * power) + r) by (nonlinear_arith)
            requires
                m == q * power + (d * tenth + low),
                r == 2 * (d * tenth + low) + power,
        ;
        vstd::arithmetic::div_mod::lemma_fundamental_div_mod_converse(
            2 * m + power,
            2 * power,
            q,
            r,
        );
    }
}

/// A number written in fewer digits than are cut off is nearest to zero.
pub proof fn lemma_scaled_to_zero(digits: Seq<char>, cut: nat)
    requires
        all_digits(digits),
        cut > digits.len(),
    ensures
        scaled(decimal(digits), -cut) == 0,
{
    lemma_decimal_bound(digits);
    lemma_pow10_grows(digits.len(), (cut - 1) as nat);
    let m = decimal(digits) as int;
    let power = pow10(cut) as int;
    assert(power == 10 * pow10((cut - 1) as nat));
    assert(0 <= 2 * m + power < 2 * power);
    vstd::arithmetic::div_mod::lemma_fundamental_div_mod_converse(
        2 * m + power,
        2 * power,
        0,
        2 * m + power,
    );
}

/// Zero stays zero at every power of ten.
pub proof fn lemma_scaled_zero(shift: int)
    ensures
        scaled(0, shift) == 0,
{
    if shift < 0 {
        let power = pow10((-shift) as nat) as int;
        lemma_pow10_grows(0, (-shift) as nat);
        vstd::arithmetic::div_mod::lemma_fundamental_div_mod_converse(power, 2 * power, 0, power);
    }
}

/// Above this a number is out of range whatever follows.
const CEILING: u128 = 0x10_0000_0000_0000_0000_0000_0000;

/// The largest magnitude of a height, that of the lowest.
const BOUND: u128 = 0x8000_0000_0000_0000;

/// `n`, or `CEILING` where `n` is above it.
spec fn capped(n: nat) -> nat {
    if n > CEILING {
        CEILING as nat
    } else {
        n
    }
}

/// The value of the digit `c`, or `None` where `c` is no digit.
fn digit_of(c: char) -> (value: Option<u8>)
    ensures
        value is Some <==> is_digit(c),
        value matches Some(v) ==> v == digit_value(c) && v <= 9,
{
    if '0' <= c && c <= '9' {
        Some((c as u32 - '0' as u32) as u8)
    } else {
        None
    }
}

/// Moves the digits that `token` holds from `from` on to the end of
/// `digits`. Returns where they end.
fn scan_digits(token: &[char], from: usize, digits: &mut Vec<char>) -> (end: usize)
    requires
        from <= token@.len(),
    ensures
        from <= end <= token@.len(),
        all_digits(token@.subrange(from as int, end as int)),
        end < token@.len() ==> !is_digit(token@[end as int]),
        final(digits)@ == old(digits)@ + token@.subrange(from as int, end as int),
{
    let mut i: usize = from;
    assert(token@.subrange(from as int, from as int) =~= Seq::<char>::empty());
    assert(digits@ =~= old(digits)@ + token@.subrange(from as int, from as int));
    while i < token.len()
        invariant
            from <= i <= token@.len(),
            all_digits(token@.subrange(from as int, i as int)),
            digits@ == old(digits)@ + token@.subrange(from as int, i as int),
        decreases token@.len() - i,
    {
        match digit_of(token[i]) {
            Some(_) => {
                let ghost before = token@.subrange(from as int, i as int);
                let ghost after = token@.subrange(from as int, i + 1);
                assert(after =~= before.push(token@[i as int]));
                assert forall|k: int| 0 <= k < after.len() implies is_digit(
                    #[trigger] after[k],
                ) by {
                    if k < before.len() {
                        assert(after[k] == before[k]);
                    }
                }
                digits.push(token[i]);
                assert(digits@ =~= old(digits)@ + after);
                i += 1;
            },
            None => {
                return i;
            },
        }
    }
    i
}

/// What the first `upto` of `digits` denote, capped.
fn capped_decimal(digits: &Vec<char>, upto: usize) -> (value: u128)
    requires
        upto <= digits@.len(),
        all_digits(digits@),
    ensures
        value == capped(decimal(digits@.take(upto as int))),
{
    let mut value: u128 = 0;
    let mut i: usize = 0;
    while i < upto
        invariant
            i <= upto <= digits@.len(),
            all_digits(digits@),
            value == capped(decimal(digits@.take(i as int))),
        decreases upto - i,
    {
        assert(digits@.take(i + 1).drop_last() =~= digits@.take(i as int));
        assert(digits@.take(i + 1).last() == digits@[i as int]);
        assert(is_digit(digits@[i as int]));
        let d: u128 = match digit_of(digits[i]) {
            Some(d) => d as u128,
            None => 0,
        };
        value = value * 10 + d;
        if value > CEILING {
            value = CEILING;
        }
        i += 1;
    }
    value
}

/// Whether `token` from `from` on spells the word that `lower` holds in
/// small letters and `upper` in capitals.
fn spells_word(token: &[char], from: usize, lower: &str, upper: &str) -> (same: bool)
    requires
        from <= token@.len(),
    ensures
        same == spells(token@.subrange(from as int, token@.len() as int), lower@, upper@),
{
    let small = chars_of(lower);
    let capital = chars_of(upper);
    let n: usize = token.len();
    let ghost text = token@.subrange(from as int, n as int);
    if n - from != small.len() || small.len() != capital.len() {
        return false;
    }
    let mut i: usize = 0;
    while i < small.len()
        invariant
            i <= small@.len(),
            n == token@.len(),
            from + small@.len() == n,
            small@.len() == capital@.len(),
            small@ == lower@,
            capital@ == upper@,
            text == token@.subrange(from as int, n as int),
            forall|k: int| 0 <= k < i ==> text[k] == small@[k] || text[k] == capital@[k],
        decreases small@.len() - i,
    {
        assert(text[i as int] == token@[from + i]);
        if token[from + i] != small[i] && token[from + i] != capital[i] {
            assert(!(text[i as int] == small@[i as int] || text[i as int] == capital@[i as int]));
            return false;
        }
        i += 1;
    }
    true
}

/// The number of thousandths nearest to the number written in `digits`, of
/// which the last `fraction_len` are decimal places, with the exponent
/// written in `exponent`. `None` where it is above the magnitude of every
/// height.
fn magnitude(
    digits: &Vec<char>,
    fraction_len: usize,
    exponent_negative: bool,
    exponent: &Vec<char>,
) -> (thousandths: Option<u128>)
    requires
        all_digits(digits@),
        all_digits(exponent@),
        fraction_len <= digits@.len(),
    ensures
        ({
            let power = if exponent_negative {
                -decimal(exponent@)
            } else {
                decimal(exponent@) as int
            };
            let nearest = scaled(decimal(digits@), power - fraction_len + 3);
            match thousandths {
                Some(value) => value == nearest && value <= BOUND,
                None => nearest > BOUND,
            }
        }),
{
    let ghost power = if exponent_negative {
        -decimal(exponent@)
    } else {
        decimal(exponent@) as int
    };
    let ghost mantissa = decimal(digits@);
    assert(digits@.take(digits@.len() as int) =~= digits@);
    assert(exponent@.take(exponent@.len() as int) =~= exponent@);
    let mantissa_capped: u128 = capped_decimal(digits, digits.len());
    if mantissa_capped == 0 {
        proof {
            lemma_scaled_zero(power - fraction_len + 3);
        }
        return Some(0);
    }
    let power_capped: u128 = capped_decimal(exponent, exponent.len());
    let shift: i128 = if exponent_negative {
        3 - power_capped as i128 - fraction_len as i128
    } else {
        power_capped as i128 - fraction_len as i128 + 3
    };
    if shift >= 19 {
        proof {
            let true_shift = power - fraction_len + 3;
            assert(true_shift >= 19);
            lemma_pow10_grows(19, true_shift as nat);
            lemma_pow10_19();
            assert(mantissa * pow10(true_shift as nat) >= pow10(19)) by (nonlinear_arith)
                requires
                    mantissa >= 1,
                    pow10(true_shift as nat) >= pow10(19),
            ;
        }
        return None;
    }
    if shift >= 0 {
        assert(power - fraction_len + 3 == shift);
        let mut value: u128 = mantissa_capped;
        let mut i: i128 = 0;
        assert(mantissa * pow10(0) == mantissa) by (nonlinear_arith)
            requires
                pow10(0) == 1,
        ;
        while i < shift
            invariant
                0 <= i <= shift < 19,
                value == capped(mantissa * pow10(i as nat)),
            decreases shift - i,
        {
            assert(mantissa * pow10((i + 1) as nat) == mantissa * pow10(i as nat) * 10)
                by (nonlinear_arith)
                requires
                    pow10((i + 1) as nat) == 10 * pow10(i as nat),
            ;
            value = value * 10;
            if value > CEILING {
                value = CEILING;
            }
            i += 1;
        }
        if value > BOUND {
            None
        } else {
            Some(value)
        }
    } else {
        let cut: i128 = 0 - shift;
        if cut > digits.len() as i128 {
            proof {
                let true_cut = -(power - fraction_len + 3);
                assert(true_cut >= cut);
                lemma_scaled_to_zero(digits@, true_cut as nat);
            }
            return Some(0);
        }
        assert(power - fraction_len + 3 == shift);
        let keep: usize = digits.len() - cut as usize;
        proof {
            lemma_scaled_by_digits(digits@, keep as int);
            assert(is_digit(digits@[keep as int]));
        }
        let whole: u128 = capped_decimal(digits, keep);
        let rounds_up: bool = match digit_of(digits[keep]) {
            Some(d) => d >= 5,
            None => false,
        };
        let value: u128 = if rounds_up {
            whole + 1
        } else {
            whole
        };
        if value > BOUND {
            None
        } else {
            Some(value)
        }
    }
}

/// Ten to the power nineteen is above the magnitude of every height.
proof fn lemma_pow10_19()
    ensures
        pow10(19) > BOUND,
{
    reveal_with_fuel(pow10, 20);
}

/// Whether `body` begins with `w` digits, then, if `pointed`, a decimal
/// point and digits up to `j`, and otherwise `j` is `w`.
spec fn laid_out(body: Seq<char>, w: int, pointed: bool, j: int) -> bool {
    &&& 0 <= w <= j <= body.len()
    &&& all_digits(body.take(w))
    &&& pointed ==> w < j && body[w] == '.' && all_digits(body.subrange(w + 1, j))
    &&& !pointed ==> j == w
}

/// The decimal places of a body laid out so.
spec fn places(body: Seq<char>, w: int, pointed: bool, j: int) -> Seq<char> {
    if pointed {
        body.subrange(w + 1, j)
    } else {
        Seq::empty()
    }
}

/// In a body laid out so, none of the first `j` characters is an exponent
/// mark, and none of the first `w` a decimal point.
proof fn lemma_laid_out(body: Seq<char>, w: int, pointed: bool, j: int)
    requires
        laid_out(body, w, pointed, j),
    ensures
        forall|i: int| 0 <= i < j ==> body[i] != 'e' && body[i] != 'E',
        forall|i: int| 0 <= i < w ==> body[i] != '.',
{
    assert forall|i: int| 0 <= i < j implies body[i] != 'e' && body[i] != 'E' by {
        if i < w {
            assert(body.take(w)[i] == body[i]);
            assert(is_digit(body.take(w)[i]));
        } else if i > w {
            assert(body.subrange(w + 1, j)[i - w - 1] == body[i]);
            assert(is_digit(body.subrange(w + 1, j)[i - w - 1]));
        }
    }
    assert forall|i: int| 0 <= i < w implies body[i] != '.' by {
        assert(body.take(w)[i] == body[i]);
        assert(is_digit(body.take(w)[i]));
    }
}

/// The parts of a body laid out so, which ends at `j` or has its exponent
/// mark there.
proof fn lemma_parts(body: Seq<char>, w: int, pointed: bool, j: int)
    requires
        laid_out(body, w, pointed, j),
        j < body.len() ==> body[j] == 'e' || body[j] == 'E',
    ensures
        has_exponent(body) == (j < body.len()),
        j < body.len() ==> exponent_part(body) == body.skip(j + 1),
        whole_part(mantissa_part(body)) == body.take(w),
        fraction_part(mantissa_part(body)) == places(body, w, pointed, j),
{
    lemma_laid_out(body, w, pointed, j);
    lemma_first_is(body, 'e', 'E', j);
    let mantissa = mantissa_part(body);
    assert forall|i: int| 0 <= i < w implies mantissa[i] != '.' && mantissa[i] != '.' by {
        assert(mantissa[i] == body[i]);
    }
    if pointed {
        assert(mantissa[w] == body[w]);
    }
    lemma_first_is(mantissa, '.', '.', w);
    assert(whole_part(mantissa) =~= body.take(w));
    assert(fraction_part(mantissa) =~= places(body, w, pointed, j));
}

/// A body laid out so is not well formed where what stands at `j` is no
/// digit, no exponent mark, and no first decimal point.
proof fn lemma_stray(body: Seq<char>, w: int, pointed: bool, j: int)
    requires
        laid_out(body, w, pointed, j),
        j < body.len(),
        !is_digit(body[j]),
        body[j] != 'e' && body[j] != 'E',
        !pointed ==> body[j] != '.',
    ensures
        !well_formed(body),
{
    lemma_laid_out(body, w, pointed, j);
    lemma_first_beyond(body, 'e', 'E', j + 1);
    let mantissa = mantissa_part(body);
    assert forall|i: int| 0 <= i < w implies mantissa[i] != '.' && mantissa[i] != '.' by {
        assert(mantissa[i] == body[i]);
    }
    assert(mantissa[w] == body[w]);
    if pointed {
        lemma_first_is(mantissa, '.', '.', w);
        assert(fraction_part(mantissa)[j - w - 1] == body[j]);
    } else {
        assert forall|i: int| 0 <= i < w + 1 implies mantissa[i] != '.' && mantissa[i] != '.' by {}
        lemma_first_beyond(mantissa, '.', '.', w + 1);
        assert(whole_part(mantissa)[w] == body[w]);
    }
}

/// Reads the mantissa that `body` begins with, and moves its digits to
/// `digits`. Returns where the digits before the point end, whether a point
/// follows them, and where the mantissa ends.
fn read_mantissa(body: &[char], digits: &mut Vec<char>) -> (layout: (usize, bool, usize))
    requires
        old(digits)@.len() == 0,
    ensures
        laid_out(body@, layout.0 as int, layout.1, layout.2 as int),
        final(digits)@ == body@.take(layout.0 as int) + places(
            body@,
            layout.0 as int,
            layout.1,
            layout.2 as int,
        ),
        layout.2 < body@.len() ==> !is_digit(body@[layout.2 as int]),
        layout.2 < body@.len() && !layout.1 ==> body@[layout.2 as int] != '.',
{
    let n: usize = body.len();
    let whole_end: usize = scan_digits(body, 0, digits);
    assert(body@.subrange(0, whole_end as int) =~= body@.take(whole_end as int));
    assert(digits@ =~= body@.take(whole_end as int));
    if whole_end < n && body[whole_end] == '.' {
        let end: usize = scan_digits(body, whole_end + 1, digits);
        (whole_end, true, end)
    } else {
        assert(digits@ =~= body@.take(whole_end as int) + Seq::<char>::empty());
        (whole_end, false, whole_end)
    }
}

/// Reads the exponent that `body` holds from `start` to its end, a sign if
/// any and then digits, and moves the digits to `digits`. Returns whether
/// the sign is a minus, and `None` where no exponent is written there.
fn read_exponent(body: &[char], start: usize, digits: &mut Vec<char>) -> (negative: Option<bool>)
    requires
        start <= body@.len(),
        old(digits)@.len() == 0,
    ensures
        ({
            let written = unsigned_part(body@.skip(start as int));
            match negative {
                Some(minus) => {
                    &&& all_digits(written)
                    &&& written.len() > 0
                    &&& final(digits)@ == written
                    &&& minus == is_negative(body@.skip(start as int))
                },
                None => !(all_digits(written) && written.len() > 0),
            }
        }),
{
    let n: usize = body.len();
    let ghost text = body@.skip(start as int);
    if start < n {
        assert(text[0] == body@[start as int]);
    }
    let signed: bool = start < n && (body[start] == '+' || body[start] == '-');
    let minus: bool = start < n && body[start] == '-';
    let from: usize = if signed {
        start + 1
    } else {
        start
    };
    assert(unsigned_part(text) =~= body@.subrange(from as int, n as int));
    let end: usize = scan_digits(body, from, digits);
    assert(digits@ =~= body@.subrange(from as int, end as int));
    if end < n {
        assert(unsigned_part(text)[end - from] == body@[end as int]);
        None
    } else if end == from {
        None
    } else {
        Some(minus)
    }
}

/// Reads an unsigned number: the number of thousandths nearest to it.
fn parse_body(body: &[char]) -> (thousandths: Result<u128, NumberError>)
    ensures
        thousandths == (if names_no_finite_number(body@) {
            Err::<u128, NumberError>(NumberError::NotFinite)
        } else if !well_formed(body@) {
            Err(NumberError::Invalid)
        } else if magnitude_of(body@) > BOUND {
            Err(NumberError::OutOfRange)
        } else {
            Ok(magnitude_of(body@) as u128)
        }),
{
    let n: usize = body.len();
    assert(body@.subrange(0, n as int) =~= body@);
    if spells_word(body, 0, "inf", "INF") || spells_word(body, 0, "infinity", "INFINITY")
        || spells_word(body, 0, "nan", "NAN") {
        return Err(NumberError::NotFinite);
    }
    let mut digits: Vec<char> = Vec::new();
    let (whole_end, pointed, mantissa_end) = read_mantissa(body, &mut digits);
    if mantissa_end < n && body[mantissa_end] != 'e' && body[mantissa_end] != 'E' {
        proof {
            lemma_stray(body@, whole_end as int, pointed, mantissa_end as int);
        }
        return Err(NumberError::Invalid);
    }
    proof {
        lemma_parts(body@, whole_end as int, pointed, mantissa_end as int);
    }
    let mut exponent: Vec<char> = Vec::new();
    let mut exponent_negative: bool = false;
    if mantissa_end < n {
        match read_exponent(body, mantissa_end + 1, &mut exponent) {
            Some(minus) => {
                exponent_negative = minus;
            },
            None => {
                return Err(NumberError::Invalid);
            },
        }
    }
    if digits.len() == 0 {
        return Err(NumberError::Invalid);
    }
    let fraction_len: usize = if pointed {
        mantissa_end - (whole_end + 1)
    } else {
        0
    };
    match magnitude(&digits, fraction_len, exponent_negative, &exponent) {
        None => Err(NumberError::OutOfRange),
        Some(value) => Ok(value),
    }
}

/// Reads one height, in thousandths of a block.
fn parse_token(token: &[char]) -> (height: Result<i64, NumberError>)
    ensures
        height == height_of(token@),
{
    let n: usize = token.len();
    if n == 0 {
        return Err(NumberError::Empty);
    }
    let sign_len: usize = if token[0] == '+' || token[0] == '-' {
        1
    } else {
        0
    };
    let body = slice_subrange(token, sign_len, n);
    assert(body@ =~= unsigned_part(token@));
    match parse_body(body) {
        Err(cause) => Err(cause),
        Ok(value) => {
            if token[0] == '-' {
                Ok((0 - value as i128) as i64)
            } else if value > 0x7fff_ffff_ffff_ffff {
                Err(NumberError::OutOfRange)
            } else {
                Ok(value as i64)
            }
        },
    }
}

/// The characters of `input`, in order.
fn chars_of(input: &str) -> (chars: Vec<char>)
    ensures
        chars@ == input@,
{
    let mut chars: Vec<char> = Vec::new();
    for c in it: input.chars()
        invariant
            it.seq() == input@,
            chars@ == it.seq().take(it.index()),
    {
        chars.push(c);
        assert(it.seq().take(it.index() + 1) =~= it.seq().take(it.index()).push(c));
    }
    assert(chars@ =~= input@);
    chars
}

/// Where the tokens of `chars` begin and end.
fn token_ranges(chars: &Vec<char>) -> (ranges: Vec<(usize, usize)>)
    ensures
        ranges@.len() == tokens(chars@).len(),
        forall|k: int|
            0 <= k < ranges@.len() ==> {
                &&& (#[trigger] ranges@[k]).0 <= ranges@[k].1 <= chars@.len()
                &&& chars@.subrange(ranges@[k].0 as int, ranges@[k].1 as int) == tokens(chars@)[k]
            },
{
    let mut ranges: Vec<(usize, usize)> = Vec::new();
    let mut start: usize = 0;
    let mut i: usize = 0;
    assert(chars@.subrange(0, 0) =~= Seq::empty());
    while i < chars.len()
        invariant
            start <= i <= chars@.len(),
            ranges@.len() + 1 == tokens(chars@.take(i as int)).len(),
            tokens(chars@.take(i as int)).last() == chars@.subrange(start as int, i as int),
            forall|k: int|
                0 <= k < ranges@.len() ==> {
                    &&& (#[trigger] ranges@[k]).0 <= ranges@[k].1 <= chars@.len()
                    &&& chars@.subrange(ranges@[k].0 as int, ranges@[k].1 as int) == tokens(
                        chars@.take(i as int),
                    )[k]
                },
        decreases chars@.len() - i,
    {
        let ghost before = tokens(chars@.take(i as int));
        assert(chars@.take(i + 1).drop_last() =~= chars@.take(i as int));
        assert(chars@.take(i + 1).last() == chars@[i as int]);
        if chars[i] == ' ' || chars[i] == ',' {
            ranges.push((start, i));
            start = i + 1;
            assert(chars@.subrange(start as int, start as int) =~= Seq::empty());
        } else {
            assert(chars@.subrange(start as int, i + 1) =~= before.last().push(chars@[i as int]));
        }
        i += 1;
    }
    assert(chars@.take(i as int) =~= chars@);
    ranges.push((start, i));
    ranges
}

/// Reads a landscape: the heights of its segments from left to right, in
/// thousandths of a block. Every token has to be a height; the error holds
/// the first that is none.
pub fn parse_landscape(input: &str) -> (landscape: Result<Vec<i64>, ParseError>)
    ensures
        match landscape {
            Ok(heights) => reads_as(input@, heights@),
            Err(error) => fails_with(input@, error.token@, error.cause),
        },
{
    let chars = chars_of(input);
    let ranges = token_ranges(&chars);
    let mut heights: Vec<i64> = Vec::new();
    let mut k: usize = 0;
    while k < ranges.len()
        invariant
            k <= ranges@.len(),
            chars@ == input@,
            ranges@.len() == tokens(chars@).len(),
            forall|j: int|
                0 <= j < ranges@.len() ==> {
                    &&& (#[trigger] ranges@[j]).0 <= ranges@[j].1 <= chars@.len()
                    &&& chars@.subrange(ranges@[j].0 as int, ranges@[j].1 as int) == tokens(
                        chars@,
                    )[j]
                },
            heights@.len() == k,
            forall|j: int|
                0 <= j < k ==> height_of(#[trigger] tokens(chars@)[j]) == Ok::<i64, NumberError>(
                    heights@[j],
                ),
        decreases ranges@.len() - k,
    {
        let (from, to) = ranges[k];
        let token = slice_subrange(chars.as_slice(), from, to);
        match parse_token(token) {
            Ok(height) => {
                heights.push(height);
            },
            Err(cause) => {
                let written = input.substring_char(from, to);
                assert(tokens(input@)[k as int] == written@);
                return Err(ParseError { token: String::from_str(written), cause });
            },
        }
        k += 1;
    }
    Ok(heights)
}

/// Reads one height, in thousandths of a block: `"1.5"` is 1500.
pub fn parse_height(token: &str) -> (height: Result<i64, NumberError>)
    ensures
        height == height_of(token@),
{
    let chars = chars_of(token);
    parse_token(chars.as_slice())
}

} // verus!
