//! The token buffer behind the button grid: what a press of each button does
//! to the tokens on the screen.

use crate::logic::numeral::is_digit;
use crate::logic::parsing::{calculate, calculate_spec, tokens_of};
use vstd::prelude::*;
use vstd::string::*;
use vstd::utf8::encode_utf8;

verus! {

/// The buttons add nothing to a screen that holds this many bytes or more.
pub const MAX_OUTPUT_LENGTH: usize = 88;

/// What the screen shows where an expression has no value.
pub const ERROR_MSG: &'static str = "Malformed input";

/// Number of buttons in a row of the grid.
pub const GRID_COLUMNS: i32 = 4;

/// The space between two buttons, and between two rows.
pub const GRID_SPACING: i32 = 5;

/// A column's share of a measure: the measure over [`GRID_COLUMNS`],
/// rounded toward zero.
pub open spec fn column_share(measure: int) -> int {
    if measure >= 0 {
        measure / (GRID_COLUMNS as int)
    } else {
        -((-measure) / (GRID_COLUMNS as int))
    }
}

/// The side of a button in a window of this width: a column's share of the
/// width, less the spacing and a column's share of the margin.
pub fn button_size(window_width: i32, margin: i32) -> (size: i32)
    ensures
        size == column_share(window_width as int) - GRID_SPACING - column_share(margin as int),
{
    (window_width / GRID_COLUMNS) - GRID_SPACING - (margin / GRID_COLUMNS)
}

/// The label of the button that takes the last token back.
pub open spec fn clear_entry_label() -> Seq<char> {
    seq!['C', 'E']
}

/// The label of the button that evaluates the expression.
pub open spec fn equals_label() -> Seq<char> {
    seq!['=']
}

/// The screen shows the error message and nothing else.
pub open spec fn shows_error(tokens: Seq<Seq<char>>) -> bool {
    tokens.len() == 1 && tokens[0] == ERROR_MSG@
}

/// What [`clear_error_msg`] leaves: nothing of the error message, and any
/// other tokens as they are.
pub open spec fn clear_error_spec(tokens: Seq<Seq<char>>) -> Seq<Seq<char>> {
    if shows_error(tokens) {
        Seq::empty()
    } else {
        tokens
    }
}

/// The tokens that [`push_digit`] looks into, the last and the one before
/// it, are not empty.
pub open spec fn ends_visible(tokens: Seq<Seq<char>>) -> bool {
    &&& tokens.len() >= 1 ==> tokens[tokens.len() - 1].len() > 0
    &&& tokens.len() >= 2 ==> tokens[tokens.len() - 2].len() > 0
}

/// Whether a digit goes on writing the last token: the token ends in a
/// digit, or it ends in a `-` that stands first or behind a token that does
/// not end in a digit, and so is a sign.
pub open spec fn continues_last(tokens: Seq<Seq<char>>) -> bool {
    let n = tokens.len() as int;
    if n == 0 {
        false
    } else if n == 1 {
        tokens[0].last() == '-' || is_digit(tokens[0].last())
    } else {
        (!is_digit(tokens[n - 2].last()) && tokens[n - 1].last() == '-') || is_digit(
            tokens[n - 1].last(),
        )
    }
}

/// What [`push_digit`] leaves: the digit at the end of the last token where
/// it goes on writing it, and as a token of its own otherwise.
pub open spec fn push_digit_spec(tokens: Seq<Seq<char>>, digit: Seq<char>) -> Seq<Seq<char>> {
    if continues_last(tokens) {
        tokens.drop_last().push(tokens.last() + digit)
    } else {
        tokens.push(digit)
    }
}

/// The number of bytes that the tokens take as UTF-8 text.
pub open spec fn byte_length(tokens: Seq<Seq<char>>) -> nat
    decreases tokens.len(),
{
    if tokens.len() == 0 {
        0
    } else {
        byte_length(tokens.drop_last()) + encode_utf8(tokens.last()).len()
    }
}

/// Whether [`press`] can be asked for: the button has a label, and where
/// the label is a digit that the screen has room for, the tokens that
/// [`push_digit`] looks into are not empty.
pub open spec fn press_allowed(tokens: Seq<Seq<char>>, label: Seq<char>) -> bool {
    &&& label.len() > 0
    &&& is_digit(label[0]) && byte_length(tokens) < MAX_OUTPUT_LENGTH ==> ends_visible(
        clear_error_spec(tokens),
    )
}

/// What [`press`] leaves on the screen. `CE` takes the last token back. `=`
/// puts the result of the expression in its place. Any other button works
/// only while the screen holds fewer than [`MAX_OUTPUT_LENGTH`] bytes: it
/// first clears the error message; a digit then goes through
/// [`push_digit`], and every other label becomes a token of its own.
pub open spec fn press_spec(tokens: Seq<Seq<char>>, label: Seq<char>) -> Seq<Seq<char>> {
    if label == clear_entry_label() {
        if tokens.len() > 0 {
            tokens.drop_last()
        } else {
            tokens
        }
    } else if label == equals_label() {
        seq![calculate_spec(tokens, ERROR_MSG@)]
    } else if byte_length(tokens) >= MAX_OUTPUT_LENGTH {
        tokens
    } else if is_digit(label[0]) {
        push_digit_spec(clear_error_spec(tokens), label)
    } else {
        clear_error_spec(tokens).push(label)
    }
}

/// Whether the two texts are the same.
fn same_text(a: &str, b: &str) -> (same: bool)
    ensures
        same == (a@ == b@),
{
    String::from_str(a) == String::from_str(b)
}

/// The last character of a text.
fn last_char(text: &str) -> (last: char)
    requires
        text@.len() > 0,
    ensures
        last == text@.last(),
{
    text.get_char(text.unicode_len() - 1)
}

/// Whether the character is a decimal digit.
fn is_numeric(c: char) -> (numeric: bool)
    ensures
        numeric == is_digit(c),
{
    c >= '0' && c <= '9'
}

/// Takes the error message off the screen, if that is all it shows.
pub fn clear_error_msg(output: &mut Vec<String>)
    ensures
        tokens_of(final(output)@) == clear_error_spec(tokens_of(old(output)@)),
{
    if output.len() == 1 && same_text(output[0].as_str(), ERROR_MSG) {
        output.clear();
        assert(tokens_of(output@) =~= Seq::empty());
    }
}

/// Writes the digit at the end of the last token.
fn extend_last(output: &mut Vec<String>, digit: &str)
    requires
        old(output).len() > 0,
    ensures
        tokens_of(final(output)@) == tokens_of(old(output)@).drop_last().push(
            tokens_of(old(output)@).last() + digit@,
        ),
{
    let ghost before: Seq<Seq<char>> = tokens_of(output@);
    let mut last: String = output.pop().unwrap();
    last.append(digit);
    output.push(last);
    assert(tokens_of(output@) =~= before.drop_last().push(before.last() + digit@));
}

/// Puts a digit on the screen: at the end of the last token where that is a
/// number being written or a sign, and as a new token otherwise.
pub fn push_digit(output: &mut Vec<String>, digit: String)
    requires
        ends_visible(tokens_of(old(output)@)),
    ensures
        tokens_of(final(output)@) == push_digit_spec(tokens_of(old(output)@), digit@),
{
    let len: usize = output.len();
    if len > 0 {
        let last_last_char: char = last_char(output[len - 1].as_str());
        if len == 1 && (last_last_char == '-' || is_numeric(last_last_char)) {
            extend_last(output, digit.as_str());
            return ;
        } else if len > 1 {
            let second_last_last_char: char = last_char(output[len - 2].as_str());
            if (!is_numeric(second_last_last_char) && last_last_char == '-') || is_numeric(
                last_last_char,
            ) {
                extend_last(output, digit.as_str());
                return ;
            }
        }
    }
    let ghost before: Seq<Seq<char>> = tokens_of(output@);
    output.push(digit);
    assert(tokens_of(output@) =~= before.push(digit@));
}

/// The screen never takes fewer bytes than a part of it.
proof fn lemma_byte_length_grows(tokens: Seq<Seq<char>>, read: int)
    requires
        0 <= read <= tokens.len(),
    ensures
        byte_length(tokens.take(read)) <= byte_length(tokens),
    decreases tokens.len() - read,
{
    if read < tokens.len() {
        assert(tokens.take(read + 1).drop_last() =~= tokens.take(read));
        lemma_byte_length_grows(tokens, read + 1);
    } else {
        assert(tokens.take(read) =~= tokens);
    }
}

/// Whether the screen holds fewer than [`MAX_OUTPUT_LENGTH`] bytes.
pub fn has_room(output: &Vec<String>) -> (room: bool)
    ensures
        room == (byte_length(tokens_of(output@)) < MAX_OUTPUT_LENGTH),
{
    let ghost tokens: Seq<Seq<char>> = tokens_of(output@);
    let mut total: usize = 0;
    let mut index: usize = 0;
    assert(tokens.take(0) =~= Seq::empty());
    while index < output.len()
        invariant
            index <= output.len(),
            tokens == tokens_of(output@),
            total == byte_length(tokens.take(index as int)),
            total < MAX_OUTPUT_LENGTH,
        decreases output.len() - index,
    {
        let bytes: usize = output[index].as_str().as_bytes().len();
        proof {
            assert(tokens.take(index + 1).drop_last() =~= tokens.take(index as int));
            assert(tokens.take(index + 1).last() == output[index as int]@);
            lemma_byte_length_grows(tokens, index + 1);
        }
        if bytes >= MAX_OUTPUT_LENGTH - total {
            return false;
        }
        total += bytes;
        index += 1;
    }
    assert(tokens.take(index as int) =~= tokens);
    true
}

/// A copy of the tokens on the screen.
fn copy_tokens(output: &Vec<String>) -> (copy: Vec<String>)
    ensures
        copy@ == output@,
{
    let mut copy: Vec<String> = Vec::new();
    let mut index: usize = 0;
    while index < output.len()
        invariant
            index <= output.len(),
            copy@ == output@.take(index as int),
        decreases output.len() - index,
    {
        copy.push(output[index].clone());
        assert(copy@ =~= output@.take(index + 1));
        index += 1;
    }
    assert(output@.take(index as int) =~= output@);
    copy
}

/// Whether [`press`] can be asked for this label, with these tokens on the
/// screen.
pub fn press_is_allowed(output: &Vec<String>, label: &str) -> (allowed: bool)
    ensures
        allowed == press_allowed(tokens_of(output@), label@),
{
    if label.unicode_len() == 0 {
        return false;
    }
    if !is_numeric(label.get_char(0)) || !has_room(output) {
        return true;
    }
    let len: usize = output.len();
    if len == 1 && same_text(output[0].as_str(), ERROR_MSG) {
        return true;
    }
    (len < 1 || output[len - 1].as_str().unicode_len() > 0) && (len < 2 || output[len
        - 2].as_str().unicode_len() > 0)
}

/// What a press of the button with this label does to the tokens on the
/// screen.
pub fn press(output: &mut Vec<String>, label: &str)
    requires
        press_allowed(tokens_of(old(output)@), label@),
    ensures
        tokens_of(final(output)@) == press_spec(tokens_of(old(output)@), label@),
{
    let ghost before: Seq<Seq<char>> = tokens_of(output@);
    proof {
        reveal_strlit("CE");
        reveal_strlit("=");
        assert("CE"@ =~= clear_entry_label());
        assert("="@ =~= equals_label());
    }
    if same_text(label, "CE") {
        output.pop();
        assert(before.len() > 0 ==> tokens_of(output@) =~= before.drop_last());
    } else if same_text(label, "=") {
        let result: String = calculate(copy_tokens(output), ERROR_MSG);
        output.clear();
        output.push(result);
        assert(tokens_of(output@) =~= seq![calculate_spec(before, ERROR_MSG@)]);
    } else if has_room(output) {
        clear_error_msg(output);
        if is_numeric(label.get_char(0)) {
            push_digit(output, String::from_str(label));
        } else {
            let ghost cleared: Seq<Seq<char>> = tokens_of(output@);
            output.push(String::from_str(label));
            assert(tokens_of(output@) =~= cleared.push(label@));
        }
    }
}

} // verus!
