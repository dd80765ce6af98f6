//! The expression evaluator: infix tokens to postfix order by the
//! shunting-yard algorithm, postfix evaluation on the arithmetic engine, and
//! the result as text.

use crate::logic::arithmetic::{
    add_spec, divide, divide_spec, multiply, multiply_spec, power, power_spec, square_root,
    square_root_spec, subtract, subtract_spec,
};
use crate::logic::numeral::{
    all_digits, decimal_string, is_digit, is_literal, literal_value, parse_literal, word_to_string,
};
use crate::types::Word;
use vstd::pervasive::unreached;
use vstd::prelude::*;
use vstd::string::*;

verus! {

/// The operators of the calculator.
#[derive(Clone, Copy, Debug)]
pub enum Operator {
    /// `^`
    Power,
    /// `√`
    Root,
    /// `x`
    Times,
    /// `÷`
    Over,
    /// `+`
    Plus,
    /// `-`
    Minus,
}

/// An operator of equal precedence on the stack leaves before this one is
/// pushed.
pub const LEFT_ASSOCIATIVE: u8 = 0;

/// An operator of equal precedence on the stack stays when this one is
/// pushed.
pub const RIGHT_ASSOCIATIVE: u8 = 1;

impl Operator {
    /// The rank of the operator; a higher rank binds tighter.
    pub open spec fn precedence(self) -> u8 {
        match self {
            Operator::Power => 5,
            Operator::Root => 4,
            Operator::Times => 3,
            Operator::Over => 3,
            Operator::Plus => 2,
            Operator::Minus => 2,
        }
    }

    /// [`RIGHT_ASSOCIATIVE`] for `^` and `√`, [`LEFT_ASSOCIATIVE`] for the
    /// others.
    pub open spec fn associativity(self) -> u8 {
        match self {
            Operator::Power => RIGHT_ASSOCIATIVE,
            Operator::Root => RIGHT_ASSOCIATIVE,
            _ => LEFT_ASSOCIATIVE,
        }
    }

    /// The result of the operator on a left operand `a` and a right operand
    /// `b`. `√` has no use for `a`.
    pub open spec fn apply(self, a: Word, b: Word) -> Word {
        match self {
            Operator::Power => power_spec(a as int, b as int) as Word,
            Operator::Root => square_root_spec(b as int) as Word,
            Operator::Times => multiply_spec(a as int, b as int) as Word,
            Operator::Over => divide_spec(a as int, b as int) as Word,
            Operator::Plus => add_spec(a as int, b as int) as Word,
            Operator::Minus => subtract_spec(a as int, b as int) as Word,
        }
    }
}

/// The operator that a character is the symbol of.
pub open spec fn operator_of_char(symbol: char) -> Option<Operator> {
    if symbol == '^' {
        Some(Operator::Power)
    } else if symbol == '√' {
        Some(Operator::Root)
    } else if symbol == 'x' {
        Some(Operator::Times)
    } else if symbol == '÷' {
        Some(Operator::Over)
    } else if symbol == '+' {
        Some(Operator::Plus)
    } else if symbol == '-' {
        Some(Operator::Minus)
    } else {
        None
    }
}

/// The operator that a token is the symbol of: the token is that one
/// character.
pub open spec fn operator_of(token: Seq<char>) -> Option<Operator> {
    if token.len() == 1 {
        operator_of_char(token[0])
    } else {
        None
    }
}

/// The token `(`.
pub open spec fn left_paren() -> Seq<char> {
    seq!['(']
}

/// The token `)`.
pub open spec fn right_paren() -> Seq<char> {
    seq![')']
}

/// A token of the evaluator's alphabet: a literal, a parenthesis or an
/// operator.
pub open spec fn recognized(token: Seq<char>) -> bool {
    is_literal(token) || token == left_paren() || token == right_paren() || operator_of(token)
        is Some
}

/// Every token of the sequence is of the alphabet.
pub open spec fn all_recognized(tokens: Seq<Seq<char>>) -> bool {
    forall|i: int| 0 <= i < tokens.len() ==> recognized(#[trigger] tokens[i])
}

/// The tokens that a sequence of strings holds.
pub open spec fn tokens_of(strings: Seq<String>) -> Seq<Seq<char>> {
    strings.map_values(|s: String| s@)
}

/// The two sequences of the shunting-yard algorithm.
pub struct Yard {
    /// The tokens put out so far, in postfix order.
    pub output: Seq<Seq<char>>,
    /// The operators and opening parentheses that wait, the last on top.
    pub stack: Seq<Seq<char>>,
}

/// The yard with these strings in it.
pub open spec fn yard_of(output: Seq<String>, stack: Seq<String>) -> Yard {
    Yard { output: tokens_of(output), stack: tokens_of(stack) }
}

/// The yard after its top of stack has gone to the output.
pub open spec fn pop_to_output(yard: Yard) -> Yard {
    Yard { output: yard.output.push(yard.stack.last()), stack: yard.stack.drop_last() }
}

/// Whether `top`, on the stack, leaves before `incoming` is pushed: it is an
/// operator, and it binds tighter than `incoming`, or as tight where
/// `incoming` is left-associative.
pub open spec fn gives_way(incoming: Operator, top: Seq<char>) -> bool {
    match operator_of(top) {
        Some(above) => (incoming.associativity() == LEFT_ASSOCIATIVE && incoming.precedence()
            <= above.precedence()) || (incoming.associativity() == RIGHT_ASSOCIATIVE
            && incoming.precedence() < above.precedence()),
        None => false,
    }
}

/// Moves operators from the stack to the output for as long as the top gives
/// way to `incoming`.
pub open spec fn pop_operators(incoming: Operator, yard: Yard) -> Yard
    decreases yard.stack.len(),
{
    if yard.stack.len() > 0 && gives_way(incoming, yard.stack.last()) {
        pop_operators(incoming, pop_to_output(yard))
    } else {
        yard
    }
}

/// Moves the stack to the output down to the nearest `(`, which is dropped;
/// without one the whole stack goes.
pub open spec fn pop_to_paren(yard: Yard) -> Yard
    decreases yard.stack.len(),
{
    if yard.stack.len() == 0 {
        yard
    } else if yard.stack.last() == left_paren() {
        Yard { output: yard.output, stack: yard.stack.drop_last() }
    } else {
        pop_to_paren(pop_to_output(yard))
    }
}

/// The yard after one more token. A token outside the alphabet leaves it as
/// it is.
pub open spec fn yard_step(yard: Yard, token: Seq<char>) -> Yard {
    if is_literal(token) {
        Yard { output: yard.output.push(token), stack: yard.stack }
    } else if token == left_paren() {
        Yard { output: yard.output, stack: yard.stack.push(token) }
    } else if token == right_paren() {
        pop_to_paren(yard)
    } else {
        match operator_of(token) {
            Some(incoming) => {
                let popped = pop_operators(incoming, yard);
                Yard { output: popped.output, stack: popped.stack.push(token) }
            },
            None => yard,
        }
    }
}

/// The yard after all of `tokens`, from an empty one.
pub open spec fn yard_fold(tokens: Seq<Seq<char>>) -> Yard
    decreases tokens.len(),
{
    if tokens.len() == 0 {
        Yard { output: Seq::empty(), stack: Seq::empty() }
    } else {
        yard_step(yard_fold(tokens.drop_last()), tokens.last())
    }
}

/// What [`shunting_yard`] returns: the output after all tokens, followed by
/// what is left on the stack, from the top down.
pub open spec fn shunting_yard_spec(tokens: Seq<Seq<char>>) -> Seq<Seq<char>> {
    yard_fold(tokens).output + yard_fold(tokens).stack.reverse()
}

/// The top of the value stack, or 0 where the stack is empty.
pub open spec fn top_or_zero(stack: Seq<Word>) -> Word {
    if stack.len() > 0 {
        stack.last()
    } else {
        0
    }
}

/// The value stack without its top; an empty stack stays empty.
pub open spec fn without_top(stack: Seq<Word>) -> Seq<Word> {
    if stack.len() > 0 {
        stack.drop_last()
    } else {
        stack
    }
}

/// The value stack after one more postfix token: a literal is pushed; an
/// operator takes its right operand from the top and its left operand from
/// below it, 0 for each that is missing, and pushes its result. Any other
/// token ends the evaluation.
pub open spec fn rpn_step(stack: Seq<Word>, token: Seq<char>) -> Option<Seq<Word>> {
    if is_literal(token) {
        Some(stack.push(literal_value(token) as Word))
    } else {
        match operator_of(token) {
            Some(operator) => {
                let b = top_or_zero(stack);
                let a = top_or_zero(without_top(stack));
                Some(without_top(without_top(stack)).push(operator.apply(a, b)))
            },
            None => None,
        }
    }
}

/// The value stack after all of `tokens`, from an empty one.
pub open spec fn rpn_fold(tokens: Seq<Seq<char>>) -> Option<Seq<Word>>
    decreases tokens.len(),
{
    if tokens.len() == 0 {
        Some(Seq::empty())
    } else {
        match rpn_fold(tokens.drop_last()) {
            Some(stack) => rpn_step(stack, tokens.last()),
            None => None,
        }
    }
}

/// What [`evaluate_rpn`] returns: the top of the value stack after all
/// tokens. There is no value where there are fewer than two tokens, or where
/// one of them is neither a literal nor an operator.
pub open spec fn evaluate_rpn_spec(tokens: Seq<Seq<char>>) -> Option<Word> {
    if tokens.len() < 2 {
        None
    } else {
        match rpn_fold(tokens) {
            Some(stack) => Some(stack.last()),
            None => None,
        }
    }
}

/// What [`calculate`] returns.
pub open spec fn calculate_spec(tokens: Seq<Seq<char>>, error_msg: Seq<char>) -> Seq<char> {
    if tokens.len() == 0 {
        Seq::empty()
    } else if tokens.len() == 1 {
        tokens[0]
    } else if !all_recognized(tokens) {
        error_msg
    } else {
        match evaluate_rpn_spec(shunting_yard_spec(tokens)) {
            Some(value) => decimal_string(value as int),
            None => error_msg,
        }
    }
}

/// Whether the token is the one character `symbol`.
fn is_symbol(token: &str, symbol: char) -> (same: bool)
    ensures
        same == (token@ == seq![symbol]),
{
    if token.unicode_len() == 1 {
        let only: char = token.get_char(0);
        assert(token@ =~= seq![only]);
        only == symbol
    } else {
        false
    }
}

/// Looks an operator up by its symbol.
pub fn find_operator(symbol: &str) -> (found: Option<Operator>)
    ensures
        found == operator_of(symbol@),
{
    if symbol.unicode_len() != 1 {
        return None;
    }
    match symbol.get_char(0) {
        '^' => Some(Operator::Power),
        '√' => Some(Operator::Root),
        'x' => Some(Operator::Times),
        '÷' => Some(Operator::Over),
        '+' => Some(Operator::Plus),
        '-' => Some(Operator::Minus),
        _ => None,
    }
}

/// The precedence of an operator, by its symbol.
pub fn get_op_precedence(op: &str) -> (precedence: u8)
    requires
        operator_of(op@) is Some,
    ensures
        precedence == operator_of(op@)->0.precedence(),
{
    match find_operator(op) {
        Some(Operator::Power) => 5,
        Some(Operator::Root) => 4,
        Some(Operator::Times) => 3,
        Some(Operator::Over) => 3,
        Some(Operator::Plus) => 2,
        Some(Operator::Minus) => 2,
        None => unreached(),
    }
}

/// The associativity of an operator, by its symbol.
pub fn get_op_associativity(op: &str) -> (associativity: u8)
    requires
        operator_of(op@) is Some,
    ensures
        associativity == operator_of(op@)->0.associativity(),
{
    match find_operator(op) {
        Some(Operator::Power) => RIGHT_ASSOCIATIVE,
        Some(Operator::Root) => RIGHT_ASSOCIATIVE,
        Some(_) => LEFT_ASSOCIATIVE,
        None => unreached(),
    }
}

/// The result of an operator, by its symbol, on a left operand `a` and a
/// right operand `b`; none where the symbol is not that of an operator.
pub fn get_op_result(op: &str, a: Word, b: Word) -> (result: Option<Word>)
    ensures
        result == match operator_of(op@) {
            Some(operator) => Some(operator.apply(a, b)),
            None => None,
        },
{
    match find_operator(op) {
        Some(Operator::Power) => Some(power(a, b)),
        Some(Operator::Root) => Some(square_root(b)),
        Some(Operator::Times) => Some(multiply(a, b)),
        Some(Operator::Over) => Some(divide(a, b)),
        Some(Operator::Plus) => Some(crate::logic::arithmetic::add(a, b)),
        Some(Operator::Minus) => Some(subtract(a, b)),
        None => None,
    }
}

/// Whether a string is a literal: decimal digits, with at most one `-` in
/// front.
pub fn string_is_number(s: &str) -> (number: bool)
    ensures
        number == is_literal(s@),
{
    let mut first: bool = true;
    let mut negative: bool = false;
    let mut valid: bool = true;
    let mut seen_digit: bool = false;
    for c in it: s.chars()
        invariant
            it.seq() == s@,
            first == (it.index() == 0),
            negative == (it.index() > 0 && s@[0] == '-'),
            valid == (forall|i: int|
                (if negative {
                    1int
                } else {
                    0int
                }) <= i < it.index() ==> is_digit(s@[i])),
            seen_digit ==> it.index() > (if negative {
                1int
            } else {
                0int
            }),
            valid && it.index() > (if negative {
                1int
            } else {
                0int
            }) ==> seen_digit,
    {
        if first && c == '-' {
            negative = true;
        } else if c >= '0' && c <= '9' {
            seen_digit = true;
        } else {
            valid = false;
        }
        first = false;
    }
    proof {
        let rest = s@.subrange(1, s@.len() as int);
        if s@.len() >= 1 {
            if s@[0] == '-' {
                assert(!is_digit(s@[0]));
                if valid {
                    assert(all_digits(rest));
                }
                if s@.len() >= 2 && all_digits(rest) {
                    assert forall|i: int| 1 <= i < s@.len() implies is_digit(s@[i]) by {
                        assert(is_digit(rest[i - 1]));
                    }
                }
            }
        }
    }
    valid && seen_digit
}

/// Whether a string is a token of the evaluator's alphabet.
pub fn is_recognized(token: &str) -> (known: bool)
    ensures
        known == recognized(token@),
{
    string_is_number(token) || is_symbol(token, '(') || is_symbol(token, ')') || find_operator(
        token,
    ).is_some()
}

/// Whether every string is a token of the evaluator's alphabet.
pub fn tokens_recognized(input: &Vec<String>) -> (known: bool)
    ensures
        known == all_recognized(tokens_of(input@)),
{
    let mut index: usize = 0;
    while index < input.len()
        invariant
            index <= input.len(),
            forall|i: int| 0 <= i < index ==> recognized(#[trigger] tokens_of(input@)[i]),
        decreases input.len() - index,
    {
        if !is_recognized(input[index].as_str()) {
            assert(!recognized(tokens_of(input@)[index as int]));
            return false;
        }
        index += 1;
    }
    true
}

/// What the operator stack holds: opening parentheses and operators.
pub open spec fn held(stack: Seq<Seq<char>>) -> bool {
    forall|i: int|
        0 <= i < stack.len() ==> (#[trigger] stack[i]) == left_paren() || operator_of(stack[i])
            is Some
}

/// Converts an infix token sequence to postfix order.
///
/// Literals go to the output. `(` goes on the operator stack. `)` moves the
/// stack to the output down to the nearest `(` and drops that; without one
/// it empties the stack. An operator first moves to the output every
/// operator on top of the stack that gives way to it, then goes on the
/// stack. At the end the stack goes to the output, from the top down.
/// Parentheses are not checked for balance.
pub fn shunting_yard(input: Vec<String>) -> (postfix: Vec<String>)
    requires
        all_recognized(tokens_of(input@)),
    ensures
        tokens_of(postfix@) == shunting_yard_spec(tokens_of(input@)),
{
    let mut output_queue: Vec<String> = Vec::new();
    let mut operator_stack: Vec<String> = Vec::new();
    let ghost infix: Seq<Seq<char>> = tokens_of(input@);
    let mut index: usize = 0;
    assert(infix.take(0) =~= Seq::empty());
    assert(tokens_of(output_queue@) =~= Seq::empty());
    assert(tokens_of(operator_stack@) =~= Seq::empty());
    while index < input.len()
        invariant
            index <= input.len(),
            infix == tokens_of(input@),
            all_recognized(infix),
            held(tokens_of(operator_stack@)),
            yard_of(output_queue@, operator_stack@) == yard_fold(infix.take(index as int)),
        decreases input.len() - index,
    {
        let token: String = input[index].clone();
        let ghost before: Yard = yard_of(output_queue@, operator_stack@);
        proof {
            assert(infix.take(index + 1).drop_last() =~= infix.take(index as int));
            assert(infix.take(index + 1).last() == token@);
            assert(token@ == infix[index as int]);
            assert(recognized(token@));
        }
        if string_is_number(token.as_str()) {
            output_queue.push(token);
            assert(tokens_of(output_queue@) =~= before.output.push(token@));
        } else if is_symbol(token.as_str(), '(') {
            operator_stack.push(token);
            assert(tokens_of(operator_stack@) =~= before.stack.push(token@));
        } else if is_symbol(token.as_str(), ')') {
            loop
                invariant_except_break
                    held(tokens_of(operator_stack@)),
                    pop_to_paren(yard_of(output_queue@, operator_stack@)) == pop_to_paren(before),
                ensures
                    held(tokens_of(operator_stack@)),
                    yard_of(output_queue@, operator_stack@) == pop_to_paren(before),
                decreases operator_stack.len(),
            {
                let ghost current: Yard = yard_of(output_queue@, operator_stack@);
                match operator_stack.pop() {
                    Some(op) => {
                        assert(op@ == current.stack.last());
                        assert(tokens_of(operator_stack@) =~= current.stack.drop_last());
                        if is_symbol(op.as_str(), '(') {
                            break ;
                        } else {
                            output_queue.push(op);
                            assert(tokens_of(output_queue@) =~= current.output.push(op@));
                        }
                    },
                    None => {
                        break ;
                    },
                }
            }
        } else {
            let ghost incoming: Operator = operator_of(token@)->0;
            while operator_stack.len() > 0
                invariant_except_break
                    operator_of(token@) == Some(incoming),
                    held(tokens_of(operator_stack@)),
                    pop_operators(incoming, yard_of(output_queue@, operator_stack@))
                        == pop_operators(incoming, before),
                ensures
                    held(tokens_of(operator_stack@)),
                    yard_of(output_queue@, operator_stack@) == pop_operators(incoming, before),
                decreases operator_stack.len(),
            {
                let ghost current: Yard = yard_of(output_queue@, operator_stack@);
                let o2: &String = &operator_stack[operator_stack.len() - 1];
                assert(o2@ == current.stack.last());
                if is_symbol(o2.as_str(), '(') {
                    break ;
                }
                let o1: &str = token.as_str();
                if !((get_op_associativity(o1) == LEFT_ASSOCIATIVE && get_op_precedence(o1)
                    <= get_op_precedence(o2.as_str())) || (get_op_associativity(o1)
                    == RIGHT_ASSOCIATIVE && get_op_precedence(o1) < get_op_precedence(
                    o2.as_str(),
                ))) {
                    break ;
                }
                let op: String = operator_stack.pop().unwrap();
                output_queue.push(op);
                assert(tokens_of(operator_stack@) =~= current.stack.drop_last());
                assert(tokens_of(output_queue@) =~= current.output.push(op@));
            }
            let ghost popped: Yard = yard_of(output_queue@, operator_stack@);
            operator_stack.push(token);
            assert(tokens_of(operator_stack@) =~= popped.stack.push(token@));
        }
        index += 1;
    }
    assert(infix.take(index as int) =~= infix);
    let ghost last: Yard = yard_of(output_queue@, operator_stack@);
    loop
        invariant_except_break
            tokens_of(output_queue@) + tokens_of(operator_stack@).reverse() == last.output
                + last.stack.reverse(),
        ensures
            tokens_of(output_queue@) == last.output + last.stack.reverse(),
        decreases operator_stack.len(),
    {
        let ghost current: Yard = yard_of(output_queue@, operator_stack@);
        match operator_stack.pop() {
            Some(op) => {
                output_queue.push(op);
                assert(tokens_of(operator_stack@) =~= current.stack.drop_last());
                assert(tokens_of(output_queue@) =~= current.output.push(op@));
                assert(current.output.push(op@) + current.stack.drop_last().reverse()
                    =~= current.output + current.stack.reverse());
            },
            None => {
                assert(current.output + current.stack.reverse() =~= current.output);
                break ;
            },
        }
    }
    output_queue
}

/// Evaluates a token sequence in postfix order on a stack of values.
///
/// A literal is pushed, saturated to the range of a [`Word`]. An operator
/// takes two values off the stack, 0 in place of each that is missing,
/// and pushes its result. The value on top at the end is returned. There is
/// none where the sequence has fewer than two tokens, or holds a token that
/// is neither a literal nor an operator.
pub fn evaluate_rpn(rpn: Vec<String>) -> (value: Option<Word>)
    ensures
        value == evaluate_rpn_spec(tokens_of(rpn@)),
{
    if rpn.len() < 2 {
        return None;
    }
    let ghost postfix: Seq<Seq<char>> = tokens_of(rpn@);
    let mut stack: Vec<Word> = Vec::new();
    let mut index: usize = 0;
    assert(postfix.take(0) =~= Seq::empty());
    while index < rpn.len()
        invariant
            index <= rpn.len(),
            postfix == tokens_of(rpn@),
            rpn_fold(postfix.take(index as int)) == Some(stack@),
            index > 0 ==> stack.len() > 0,
        decreases rpn.len() - index,
    {
        let token: &str = rpn[index].as_str();
        let ghost before: Seq<Word> = stack@;
        proof {
            assert(postfix.take(index + 1).drop_last() =~= postfix.take(index as int));
            assert(postfix.take(index + 1).last() == token@);
        }
        if string_is_number(token) {
            stack.push(parse_literal(token));
        } else {
            let b: Word = match stack.pop() {
                Some(top) => top,
                None => 0,
            };
            let a: Word = match stack.pop() {
                Some(top) => top,
                None => 0,
            };
            assert(b == top_or_zero(before));
            assert(a == top_or_zero(without_top(before)));
            assert(stack@ =~= without_top(without_top(before)));
            match get_op_result(token, a, b) {
                Some(result) => {
                    stack.push(result);
                },
                None => {
                    proof {
                        lemma_rpn_fold_fails(postfix, index + 1);
                    }
                    return None;
                },
            }
        }
        index += 1;
    }
    assert(postfix.take(index as int) =~= postfix);
    stack.pop()
}

/// Once the evaluation has ended on a token, no later token brings it back.
pub proof fn lemma_rpn_fold_fails(tokens: Seq<Seq<char>>, read: int)
    requires
        0 <= read <= tokens.len(),
        rpn_fold(tokens.take(read)) is None,
    ensures
        rpn_fold(tokens) is None,
    decreases tokens.len() - read,
{
    if read < tokens.len() {
        assert(tokens.take(read + 1).drop_last() =~= tokens.take(read));
        lemma_rpn_fold_fails(tokens, read + 1);
    } else {
        assert(tokens.take(read) =~= tokens);
    }
}

/// The result of an expression in infix notation, as text.
///
/// No token gives the empty string, and a single token is returned as it is,
/// whatever it holds. Two or more tokens are put in postfix order and
/// evaluated; the result is the decimal text of the value, or `error_msg`
/// where a token is not of the alphabet or the evaluation has no value.
pub fn calculate(input: Vec<String>, error_msg: &str) -> (result: String)
    ensures
        result@ == calculate_spec(tokens_of(input@), error_msg@),
{
    if input.len() == 0 {
        return String::new();
    } else if input.len() == 1 {
        return input[0].clone();
    }
    if !tokens_recognized(&input) {
        return String::from_str(error_msg);
    }
    let rpn: Vec<String> = shunting_yard(input);
    match evaluate_rpn(rpn) {
        Some(value) => word_to_string(value),
        None => String::from_str(error_msg),
    }
}

} // verus!
