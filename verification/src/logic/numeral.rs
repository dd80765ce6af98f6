//! Decimal numerals: reading a literal token as a [`Word`] and writing a
//! [`Word`] as text.

use crate::logic::arithmetic::saturate;
use crate::types::{DoubleWord, Word, WORD_MAX, WORD_MIN};
use vstd::prelude::*;
use vstd::string::*;

verus! {

/// An ASCII decimal digit.
pub open spec fn is_digit(c: char) -> bool {
    '0' <= c && c <= '9'
}

/// Every character of `text` is a decimal digit.
pub open spec fn all_digits(text: Seq<char>) -> bool {
    forall|i: int| 0 <= i < text.len() ==> is_digit(#[trigger] text[i])
}

/// A literal is one or more decimal digits, with at most one `-` in front.
pub open spec fn is_literal(token: Seq<char>) -> bool {
    ||| token.len() >= 1 && all_digits(token)
    ||| token.len() >= 2 && token[0] == '-' && all_digits(token.subrange(1, token.len() as int))
}

/// The number that a decimal digit stands for.
pub open spec fn digit_value(c: char) -> int {
    c as int - '0' as int
}

/// The number that a string of decimal digits stands for.
pub open spec fn decimal_value(digits: Seq<char>) -> int
    decreases digits.len(),
{
    if digits.len() == 0 {
        0
    } else {
        10 * decimal_value(digits.drop_last()) + digit_value(digits.last())
    }
}

/// The value of a literal: the number it stands for, saturated to
/// `[WORD_MIN, WORD_MAX]`.
pub open spec fn literal_value(token: Seq<char>) -> int {
    if token.len() > 0 && token[0] == '-' {
        saturate(-decimal_value(token.subrange(1, token.len() as int)))
    } else {
        saturate(decimal_value(token))
    }
}

/// The decimal digit for a number below ten.
pub open spec fn digit_char(digit: int) -> char {
    ('0' as int + digit) as char
}

/// The decimal digits of a natural number, without leading zeros.
pub open spec fn decimal_digits(n: nat) -> Seq<char>
    decreases n,
{
    if n < 10 {
        seq![digit_char(n as int)]
    } else {
        decimal_digits(n / 10).push(digit_char((n % 10) as int))
    }
}

/// The decimal text of an integer: its digits, after a `-` if it is negative.
pub open spec fn decimal_string(value: int) -> Seq<char> {
    if value < 0 {
        seq!['-'] + decimal_digits((-value) as nat)
    } else {
        decimal_digits(value as nat)
    }
}

/// Magnitudes are read up to this bound, one above `WORD_MAX`; what lies
/// beyond saturates either way.
const MAGNITUDE_LIMIT: DoubleWord = 2147483648;

/// `x` cut off at [`MAGNITUDE_LIMIT`].
spec fn limited(x: int) -> int {
    if x > MAGNITUDE_LIMIT {
        MAGNITUDE_LIMIT as int
    } else {
        x
    }
}

/// A string of digits stands for a number that is not negative.
proof fn lemma_decimal_value_nonnegative(digits: Seq<char>)
    requires
        all_digits(digits),
    ensures
        decimal_value(digits) >= 0,
    decreases digits.len(),
{
    if digits.len() > 0 {
        lemma_decimal_value_nonnegative(digits.drop_last());
        assert(is_digit(digits[digits.len() - 1]));
    }
}

/// Reads a literal as a [`Word`]. A literal too large for a `Word` gives
/// `WORD_MAX`, one too small `WORD_MIN`.
pub fn parse_literal(token: &str) -> (value: Word)
    requires
        is_literal(token@),
    ensures
        value == literal_value(token@),
{
    let mut magnitude: DoubleWord = 0;
    let mut negative: bool = false;
    for c in it: token.chars()
        invariant
            it.seq() == token@,
            is_literal(token@),
            negative == (it.index() > 0 && token@[0] == '-'),
            0 <= magnitude <= MAGNITUDE_LIMIT,
            magnitude == limited(
                decimal_value(
                    token@.subrange(
                        if negative {
                            1
                        } else {
                            0
                        },
                        it.index(),
                    ),
                ),
            ),
    {
        let ghost position: int = it.index();
        if c == '-' {
            assert(position == 0) by {
                if position > 0 {
                    if token@[0] == '-' {
                        assert(is_digit(token@.subrange(1, token@.len() as int)[position - 1]));
                    } else {
                        assert(is_digit(token@[position]));
                    }
                }
            }
            negative = true;
            assert(token@.subrange(1, 1).len() == 0);
        } else {
            let ghost start: int = if negative {
                1
            } else {
                0
            };
            assert(is_digit(c)) by {
                if token@[0] == '-' {
                    assert(position >= 1);
                    assert(is_digit(token@.subrange(1, token@.len() as int)[position - 1]));
                } else {
                    assert(is_digit(token@[position]));
                }
            }
            proof {
                let read = token@.subrange(start, position + 1);
                assert(read.drop_last() =~= token@.subrange(start, position));
                assert(read.last() == c);
                assert(all_digits(read.drop_last())) by {
                    assert forall|i: int| 0 <= i < read.drop_last().len() implies is_digit(
                        #[trigger] read.drop_last()[i],
                    ) by {
                        if token@[0] == '-' {
                            assert(is_digit(
                                token@.subrange(1, token@.len() as int)[start + i - 1],
                            ));
                        } else {
                            assert(is_digit(token@[start + i]));
                        }
                    }
                }
                lemma_decimal_value_nonnegative(read.drop_last());
            }
            let digit: DoubleWord = (c as u32 - '0' as u32) as DoubleWord;
            magnitude = magnitude * 10 + digit;
            if magnitude > MAGNITUDE_LIMIT {
                magnitude = MAGNITUDE_LIMIT;
            }
        }
    }
    proof {
        assert(token@.subrange(0, token@.len() as int) =~= token@);
    }
    if negative {
        if magnitude >= MAGNITUDE_LIMIT {
            WORD_MIN
        } else {
            (-magnitude) as Word
        }
    } else {
        if magnitude > WORD_MAX as DoubleWord {
            WORD_MAX
        } else {
            magnitude as Word
        }
    }
}

/// The text of one decimal digit.
fn digit_text(digit: u64) -> (text: &'static str)
    requires
        digit < 10,
    ensures
        text@ == seq![digit_char(digit as int)],
{
    proof {
        reveal_strlit("0");
        reveal_strlit("1");
        reveal_strlit("2");
        reveal_strlit("3");
        reveal_strlit("4");
        reveal_strlit("5");
        reveal_strlit("6");
        reveal_strlit("7");
        reveal_strlit("8");
        reveal_strlit("9");
    }
    let text: &'static str = if digit == 0 {
        "0"
    } else if digit == 1 {
        "1"
    } else if digit == 2 {
        "2"
    } else if digit == 3 {
        "3"
    } else if digit == 4 {
        "4"
    } else if digit == 5 {
        "5"
    } else if digit == 6 {
        "6"
    } else if digit == 7 {
        "7"
    } else if digit == 8 {
        "8"
    } else {
        "9"
    };
    assert(text@ =~= seq![digit_char(digit as int)]);
    text
}

/// Appends the decimal digits of `n` to `text`.
fn push_digits(n: u64, text: &mut String)
    ensures
        final(text)@ == old(text)@ + decimal_digits(n as nat),
    decreases n,
{
    if n >= 10 {
        push_digits(n / 10, text);
    }
    text.append(digit_text(n % 10));
    assert(text@ =~= old(text)@ + decimal_digits(n as nat));
}

/// The decimal text of a [`Word`].
pub fn word_to_string(value: Word) -> (text: String)
    ensures
        text@ == decimal_string(value as int),
{
    let mut text: String = String::new();
    let wide: DoubleWord = value as DoubleWord;
    if wide < 0 {
        proof {
            reveal_strlit("-");
        }
        text.append("-");
        push_digits((-wide) as u64, &mut text);
        assert(text@ =~= seq!['-'] + decimal_digits((-value) as nat));
    } else {
        push_digits(wide as u64, &mut text);
        assert(text@ =~= decimal_digits(value as nat));
    }
    text
}

/// The digits of a natural number are digits, at least one, and stand for
/// that number.
pub proof fn lemma_decimal_digits_value(n: nat)
    ensures
        decimal_digits(n).len() >= 1,
        all_digits(decimal_digits(n)),
        decimal_value(decimal_digits(n)) == n,
    decreases n,
{
    let digits = decimal_digits(n);
    if n < 10 {
        assert(digits.drop_last() =~= Seq::<char>::empty());
        assert(decimal_value(digits.drop_last()) == 0);
    } else {
        lemma_decimal_digits_value(n / 10);
        assert(digits.drop_last() =~= decimal_digits(n / 10));
        assert forall|i: int| 0 <= i < digits.len() implies is_digit(#[trigger] digits[i]) by {
            if i < digits.len() - 1 {
                assert(is_digit(decimal_digits(n / 10)[i]));
            }
        }
    }
}

/// The text of a `Word` is a literal, and reads back as that `Word`.
pub proof fn lemma_decimal_string_reads_back(value: Word)
    ensures
        is_literal(decimal_string(value as int)),
        literal_value(decimal_string(value as int)) == value,
{
    let text = decimal_string(value as int);
    if value < 0 {
        let digits = decimal_digits((-value) as nat);
        lemma_decimal_digits_value((-value) as nat);
        assert(text.subrange(1, text.len() as int) =~= digits);
        assert(text[0] == '-');
    } else {
        lemma_decimal_digits_value(value as nat);
        assert(is_digit(text[0]));
    }
}

} // verus!
