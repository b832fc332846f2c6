//! Plain decimal notation: which texts write a number, and which number.

use crate::decimal_value::{normalized, DecimalValue};
use crate::digits::{all_digits, digits_value};
use vstd::prelude::*;

verus! {

/// A character that writes a decimal digit.
pub open spec fn is_digit_char(c: char) -> bool {
    '0' <= c <= '9'
}

/// The digit that a character writes.
pub open spec fn digit_of(c: char) -> u8 {
    (c as u8 - 48) as u8
}

/// The digits that a text writes, character by character.
pub open spec fn digits_of(text: Seq<char>) -> Seq<u8> {
    Seq::new(text.len(), |i: int| digit_of(text[i]))
}

/// Every character writes a digit.
pub open spec fn all_digit_chars(text: Seq<char>) -> bool {
    forall|i: int| 0 <= i < text.len() ==> is_digit_char(#[trigger] text[i])
}

/// The text starts with a sign.
pub open spec fn has_sign(text: Seq<char>) -> bool {
    text.len() > 0 && (text[0] == '-' || text[0] == '+')
}

/// The text without its sign.
pub open spec fn unsigned_part(text: Seq<char>) -> Seq<char> {
    if has_sign(text) {
        text.skip(1)
    } else {
        text
    }
}

/// Where the first decimal point stands, or the length where there is none.
pub open spec fn point_at(body: Seq<char>) -> int
    decreases body.len(),
{
    if body.len() == 0 || body[0] == '.' {
        0
    } else {
        1 + point_at(body.skip(1))
    }
}

/// What stands before the decimal point.
pub open spec fn whole_text(body: Seq<char>) -> Seq<char> {
    body.take(point_at(body))
}

/// What stands after the decimal point.
pub open spec fn fraction_text(body: Seq<char>) -> Seq<char> {
    if point_at(body) < body.len() {
        body.skip(point_at(body) + 1)
    } else {
        Seq::empty()
    }
}

/// The text writes a number in plain decimal notation: an optional sign,
/// digits, and at most one decimal point, with a digit on at least one side
/// of it. Nothing else is part of the notation: no exponent, as in `1e3`,
/// no word for infinity or for what is no number, no blank and no separator
/// of thousands. An exact decimal has no value for the two words, and an
/// exponent can ask for more digits than can be held.
pub open spec fn is_decimal_text(text: Seq<char>) -> bool {
    let body = unsigned_part(text);
    &&& all_digit_chars(whole_text(body))
    &&& all_digit_chars(fraction_text(body))
    &&& whole_text(body).len() + fraction_text(body).len() > 0
}

/// The number that a text in decimal notation writes.
pub open spec fn decimal_text_value(text: Seq<char>) -> DecimalValue {
    let body = unsigned_part(text);
    normalized(
        has_sign(text) && text[0] == '-',
        digits_value(digits_of(whole_text(body) + fraction_text(body))),
        fraction_text(body).len(),
    )
}

/// What a field of a tick stands for: the number it writes in plain decimal
/// notation, or zero where it writes none in that notation.
pub open spec fn field_value(text: Seq<char>) -> DecimalValue {
    if is_decimal_text(text) {
        decimal_text_value(text)
    } else {
        DecimalValue::zero()
    }
}

/// The first decimal point is a decimal point, and none stands before it.
pub proof fn lemma_point_at(body: Seq<char>)
    ensures
        0 <= point_at(body) <= body.len(),
        point_at(body) < body.len() ==> body[point_at(body)] == '.',
        forall|j: int| 0 <= j < point_at(body) ==> body[j] != '.',
    decreases body.len(),
{
    if body.len() == 0 || body[0] == '.' {
    } else {
        let rest = body.skip(1);
        lemma_point_at(rest);
        assert forall|j: int| 0 <= j < point_at(body) implies body[j] != '.' by {
            if j > 0 {
                assert(rest[j - 1] == body[j]);
            }
        }
        if point_at(body) < body.len() {
            assert(rest[point_at(rest)] == body[point_at(body)]);
        }
    }
}

/// Text in decimal notation holds ASCII characters only.
pub proof fn lemma_decimal_text_is_ascii(text: Seq<char>)
    requires
        is_decimal_text(text),
    ensures
        vstd::utf8::is_ascii_chars(text),
{
    lemma_decimal_text_alphabet(text);
    assert forall|i: int| 0 <= i < text.len() implies '\0' <= #[trigger] text[i] <= '\u{7f}' by {
        assert(in_notation(text, i));
    }
}

/// The digits of a text with one more character.
pub proof fn lemma_digits_of_push(text: Seq<char>, c: char)
    ensures
        digits_of(text.push(c)) == digits_of(text).push(digit_of(c)),
{
    assert(digits_of(text.push(c)) =~= digits_of(text).push(digit_of(c)));
}

/// The digits of two texts, one after the other.
pub proof fn lemma_digits_of_concat(a: Seq<char>, b: Seq<char>)
    ensures
        digits_of(a + b) == digits_of(a) + digits_of(b),
{
    assert(digits_of(a + b) =~= digits_of(a) + digits_of(b));
}

/// The character that writes a digit.
pub open spec fn digit_char(d: u8) -> char {
    (d + 48) as char
}

/// The characters that write a sequence of digits.
pub open spec fn chars_of(digits: Seq<u8>) -> Seq<char> {
    Seq::new(digits.len(), |i: int| digit_char(digits[i]))
}

/// The text is the shortest that writes its number: no `+`, no needless
/// zero, a single `0` before the point where the whole part is zero, and a
/// point only where digits follow it.
pub open spec fn is_plain_form(text: Seq<char>) -> bool {
    let body = unsigned_part(text);
    let whole = whole_text(body);
    let fraction = fraction_text(body);
    &&& is_decimal_text(text)
    &&& has_sign(text) ==> text[0] == '-' && decimal_text_value(text).unscaled != 0
    &&& whole.len() > 0
    &&& whole.len() > 1 ==> whole[0] != '0'
    &&& fraction.len() > 0 ==> fraction.last() != '0'
    &&& point_at(body) < body.len() ==> fraction.len() > 0
}

/// Digits that are written and read back are the same digits, and what
/// writes them are digit characters.
pub proof fn lemma_digits_of_chars(digits: Seq<u8>)
    requires
        all_digits(digits),
    ensures
        digits_of(chars_of(digits)) == digits,
        all_digit_chars(chars_of(digits)),
        forall|j: int| 0 <= j < digits.len() ==> (#[trigger] chars_of(digits)[j]) != '.',
{
    assert forall|j: int| 0 <= j < digits.len() implies digit_of(#[trigger] chars_of(digits)[j])
        == digits[j] && is_digit_char(chars_of(digits)[j]) && chars_of(digits)[j] != '.' by {
        assert(digits[j] < 10);
    }
    assert(digits_of(chars_of(digits)) =~= digits);
}

/// A character of plain decimal notation at this place of a text: a digit,
/// the point, or a sign at the start.
pub open spec fn in_notation(text: Seq<char>, i: int) -> bool {
    ||| is_digit_char(text[i])
    ||| text[i] == '.'
    ||| i == 0 && (text[i] == '-' || text[i] == '+')
}

/// Plain decimal notation has digits, the point and a sign at the start,
/// and nothing else.
pub proof fn lemma_decimal_text_alphabet(text: Seq<char>)
    requires
        is_decimal_text(text),
    ensures
        forall|i: int| 0 <= i < text.len() ==> in_notation(text, i),
{
    let body = unsigned_part(text);
    let offset: int = if has_sign(text) { 1 } else { 0 };
    lemma_point_at(body);
    let p = point_at(body);
    assert forall|i: int| 0 <= i < text.len() implies in_notation(text, i) by {
        if i >= offset {
            let j = i - offset;
            assert(body[j] == text[i]);
            if j < p {
                assert(whole_text(body)[j] == body[j]);
            } else if j > p {
                assert(fraction_text(body)[j - p - 1] == body[j]);
            }
        }
    }
}

/// A field with any other character in it, such as the `e` of an exponent,
/// a letter or a blank, stands for zero.
pub proof fn lemma_other_notation_is_zero(text: Seq<char>, i: int)
    requires
        0 <= i < text.len(),
        !in_notation(text, i),
    ensures
        !is_decimal_text(text),
        field_value(text) == DecimalValue::zero(),
{
    if is_decimal_text(text) {
        lemma_decimal_text_alphabet(text);
    }
}

} // verus!
