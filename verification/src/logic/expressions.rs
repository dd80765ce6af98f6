//! What the evaluator makes of expressions of a few shapes, proved of the
//! spec functions that its contracts use.

use crate::logic::numeral::{decimal_string, is_digit, is_literal, literal_value};
use crate::logic::parsing::{
    all_recognized, calculate_spec, evaluate_rpn_spec, gives_way, left_paren,
    lemma_rpn_fold_fails, operator_of, pop_operators, pop_to_output, pop_to_paren, recognized,
    right_paren, rpn_fold, rpn_step, shunting_yard_spec, without_top, yard_fold, yard_step, Yard,
};
use crate::types::Word;
use vstd::prelude::*;

verus! {

/// No token gives the empty string.
pub proof fn lemma_calculate_nothing(error_msg: Seq<char>)
    ensures
        calculate_spec(Seq::empty(), error_msg) == Seq::<char>::empty(),
{
}

/// A single token comes back unchanged, whether it is a literal or not.
pub proof fn lemma_single_token_passes_through(token: Seq<char>, error_msg: Seq<char>)
    ensures
        calculate_spec(seq![token], error_msg) == token,
{
}

/// Two or more tokens give the error message or the text of a `Word`, and
/// the error message where one of them is not of the alphabet.
pub proof fn lemma_calculate_result(tokens: Seq<Seq<char>>, error_msg: Seq<char>)
    requires
        tokens.len() >= 2,
    ensures
        calculate_spec(tokens, error_msg) == error_msg || exists|value: Word|
            calculate_spec(tokens, error_msg) == decimal_string(value as int),
        !all_recognized(tokens) ==> calculate_spec(tokens, error_msg) == error_msg,
{
    if all_recognized(tokens) {
        match evaluate_rpn_spec(shunting_yard_spec(tokens)) {
            Some(value) => {
                assert(calculate_spec(tokens, error_msg) == decimal_string(value as int));
            },
            None => {},
        }
    }
}

/// A postfix sequence that holds a token which is neither a literal nor an
/// operator has no value.
pub proof fn lemma_stray_token_has_no_value(tokens: Seq<Seq<char>>, at: int)
    requires
        0 <= at < tokens.len(),
        !is_literal(tokens[at]),
        operator_of(tokens[at]) is None,
    ensures
        evaluate_rpn_spec(tokens) is None,
{
    assert(tokens.take(at + 1).drop_last() =~= tokens.take(at));
    assert(tokens.take(at + 1).last() == tokens[at]);
    lemma_rpn_fold_fails(tokens, at + 1);
}

/// An expression with a parenthesis that is opened and never closed gives
/// the error message.
pub proof fn lemma_open_parenthesis_gives_error(tokens: Seq<Seq<char>>, error_msg: Seq<char>)
    requires
        tokens.len() >= 2,
        yard_fold(tokens).stack.contains(left_paren()),
    ensures
        calculate_spec(tokens, error_msg) == error_msg,
{
    let yard = yard_fold(tokens);
    let postfix = shunting_yard_spec(tokens);
    let depth = choose|i: int| 0 <= i < yard.stack.len() && yard.stack[i] == left_paren();
    let at = yard.output.len() + (yard.stack.len() - 1 - depth);
    assert(postfix[at] == yard.stack.reverse()[yard.stack.len() - 1 - depth]);
    assert(postfix[at] == left_paren());
    lemma_stray_token_has_no_value(postfix, at);
}

/// The kinds of tokens do not overlap: a literal is no parenthesis and no
/// operator, an operator is no parenthesis, and either is recognized.
pub proof fn lemma_token_kinds(token: Seq<char>)
    ensures
        is_literal(token) ==> token != left_paren() && token != right_paren() && operator_of(token)
            is None && recognized(token),
        operator_of(token) is Some ==> token != left_paren() && token != right_paren()
            && !is_literal(token) && recognized(token),
        left_paren() != right_paren(),
        !is_literal(left_paren()) && operator_of(left_paren()) is None,
        !is_literal(right_paren()) && operator_of(right_paren()) is None,
{
    if is_literal(token) {
        if token.len() == 1 {
            assert(is_digit(token[0]));
        }
    }
    assert(left_paren()[0] != right_paren()[0]);
    assert(!is_digit(left_paren()[0]));
    assert(!is_digit(right_paren()[0]));
}

/// The yard after one more token is a step from the yard before it.
pub proof fn lemma_yard_fold_push(tokens: Seq<Seq<char>>, token: Seq<char>)
    ensures
        yard_fold(tokens.push(token)) == yard_step(yard_fold(tokens), token),
{
    assert(tokens.push(token).drop_last() =~= tokens);
}

/// The value stack after one more token is a step from the stack before it.
pub proof fn lemma_rpn_fold_push(tokens: Seq<Seq<char>>, token: Seq<char>)
    ensures
        rpn_fold(tokens.push(token)) == match rpn_fold(tokens) {
            Some(stack) => rpn_step(stack, token),
            None => None,
        },
{
    assert(tokens.push(token).drop_last() =~= tokens);
}

/// The value stack after a literal and after an operator, on a stack of at
/// least two values.
proof fn lemma_rpn_steps(stack: Seq<Word>, a: Word, b: Word, token: Seq<char>)
    ensures
        is_literal(token) ==> rpn_step(stack, token) == Some(
            stack.push(literal_value(token) as Word),
        ),
        operator_of(token) is Some ==> rpn_step(stack.push(a).push(b), token) == Some(
            stack.push(operator_of(token)->0.apply(a, b)),
        ),
        operator_of(token) is Some ==> rpn_step(Seq::empty().push(b), token) == Some(
            Seq::empty().push(operator_of(token)->0.apply(0, b)),
        ),
{
    lemma_token_kinds(token);
    let two = stack.push(a).push(b);
    assert(without_top(two) =~= stack.push(a));
    assert(without_top(without_top(two)) =~= stack);
    let one = Seq::<Word>::empty().push(b);
    assert(without_top(one) =~= Seq::<Word>::empty());
    assert(without_top(without_top(one)) =~= Seq::<Word>::empty());
}

/// An operator in front of a literal works on 0 and the literal's value.
pub proof fn lemma_calculate_prefix(symbol: Seq<char>, right: Seq<char>, error_msg: Seq<char>)
    requires
        operator_of(symbol) is Some,
        is_literal(right),
    ensures
        calculate_spec(seq![symbol, right], error_msg) == decimal_string(
            operator_of(symbol)->0.apply(0, literal_value(right) as Word) as int,
        ),
{
    let b = literal_value(right) as Word;
    let nothing = Seq::<Seq<char>>::empty();
    let tokens = seq![symbol, right];
    lemma_token_kinds(symbol);
    lemma_token_kinds(right);
    assert(tokens =~= nothing.push(symbol).push(right));
    lemma_yard_fold_push(nothing, symbol);
    lemma_yard_fold_push(nothing.push(symbol), right);
    let first = yard_fold(nothing.push(symbol));
    assert(first.output =~= nothing && first.stack =~= seq![symbol]);
    let second = yard_fold(tokens);
    assert(second.output =~= seq![right] && second.stack =~= seq![symbol]);
    let postfix = shunting_yard_spec(tokens);
    assert(postfix =~= nothing.push(right).push(symbol));
    lemma_rpn_fold_push(nothing, right);
    lemma_rpn_fold_push(nothing.push(right), symbol);
    lemma_rpn_steps(Seq::empty(), 0, b, right);
    lemma_rpn_steps(Seq::empty(), 0, b, symbol);
    assert(all_recognized(tokens));
}

/// Two literals with an operator between them give the text of the
/// operator's result on their values.
pub proof fn lemma_calculate_binary(
    left: Seq<char>,
    symbol: Seq<char>,
    right: Seq<char>,
    error_msg: Seq<char>,
)
    requires
        is_literal(left),
        is_literal(right),
        operator_of(symbol) is Some,
    ensures
        calculate_spec(seq![left, symbol, right], error_msg) == decimal_string(
            operator_of(symbol)->0.apply(
                literal_value(left) as Word,
                literal_value(right) as Word,
            ) as int,
        ),
{
    let a = literal_value(left) as Word;
    let b = literal_value(right) as Word;
    let nothing = Seq::<Seq<char>>::empty();
    let tokens = seq![left, symbol, right];
    lemma_token_kinds(left);
    lemma_token_kinds(symbol);
    lemma_token_kinds(right);
    assert(tokens =~= nothing.push(left).push(symbol).push(right));
    lemma_yard_fold_push(nothing, left);
    lemma_yard_fold_push(nothing.push(left), symbol);
    lemma_yard_fold_push(nothing.push(left).push(symbol), right);
    let first = yard_fold(nothing.push(left));
    assert(first.output =~= seq![left] && first.stack =~= nothing);
    let second = yard_fold(nothing.push(left).push(symbol));
    assert(second.output =~= seq![left] && second.stack =~= seq![symbol]);
    let third = yard_fold(tokens);
    assert(third.output =~= seq![left, right] && third.stack =~= seq![symbol]);
    let postfix = shunting_yard_spec(tokens);
    assert(postfix =~= nothing.push(left).push(right).push(symbol));
    lemma_rpn_fold_push(nothing, left);
    lemma_rpn_fold_push(nothing.push(left), right);
    lemma_rpn_fold_push(nothing.push(left).push(right), symbol);
    lemma_rpn_steps(Seq::empty(), 0, 0, left);
    lemma_rpn_steps(Seq::empty().push(a), 0, 0, right);
    lemma_rpn_steps(Seq::empty(), a, b, symbol);
    assert(all_recognized(tokens));
}

/// Three literals with two operators between them. Where the first operator
/// gives way to the second, it is applied first, and the second works on its
/// result; otherwise the second is applied first, and the first works on its
/// result. So `x` is applied before `+` wherever the two stand, operators of
/// one rank go from left to right, and `^` goes from right to left.
pub proof fn lemma_calculate_two_operators(
    left: Seq<char>,
    first_symbol: Seq<char>,
    middle: Seq<char>,
    second_symbol: Seq<char>,
    right: Seq<char>,
    error_msg: Seq<char>,
)
    requires
        is_literal(left),
        is_literal(middle),
        is_literal(right),
        operator_of(first_symbol) is Some,
        operator_of(second_symbol) is Some,
    ensures
        calculate_spec(seq![left, first_symbol, middle, second_symbol, right], error_msg)
            == decimal_string(
            {
                let first = operator_of(first_symbol)->0;
                let second = operator_of(second_symbol)->0;
                let a = literal_value(left) as Word;
                let b = literal_value(middle) as Word;
                let c = literal_value(right) as Word;
                if gives_way(second, first_symbol) {
                    second.apply(first.apply(a, b), c)
                } else {
                    first.apply(a, second.apply(b, c))
                }
            } as int,
        ),
{
    let first = operator_of(first_symbol)->0;
    let second = operator_of(second_symbol)->0;
    let a = literal_value(left) as Word;
    let b = literal_value(middle) as Word;
    let c = literal_value(right) as Word;
    let nothing = Seq::<Seq<char>>::empty();
    let tokens = seq![left, first_symbol, middle, second_symbol, right];
    lemma_token_kinds(left);
    lemma_token_kinds(first_symbol);
    lemma_token_kinds(middle);
    lemma_token_kinds(second_symbol);
    lemma_token_kinds(right);
    let t1 = nothing.push(left);
    let t2 = t1.push(first_symbol);
    let t3 = t2.push(middle);
    let t4 = t3.push(second_symbol);
    assert(tokens =~= t4.push(right));
    lemma_yard_fold_push(nothing, left);
    lemma_yard_fold_push(t1, first_symbol);
    lemma_yard_fold_push(t2, middle);
    lemma_yard_fold_push(t3, second_symbol);
    lemma_yard_fold_push(t4, right);
    assert(yard_fold(t1).output =~= seq![left] && yard_fold(t1).stack =~= nothing);
    assert(yard_fold(t2).output =~= seq![left] && yard_fold(t2).stack =~= seq![first_symbol]);
    let third = yard_fold(t3);
    assert(third.output =~= seq![left, middle] && third.stack =~= seq![first_symbol]);
    let empty_values = Seq::<Word>::empty();
    if gives_way(second, first_symbol) {
        let popped = pop_to_output(third);
        assert(popped.output =~= seq![left, middle, first_symbol] && popped.stack =~= nothing);
        assert(pop_operators(second, popped) == popped);
        assert(pop_operators(second, third) == popped);
        let fourth = yard_fold(t4);
        assert(fourth.output =~= popped.output && fourth.stack =~= seq![second_symbol]);
        let fifth = yard_fold(tokens);
        assert(fifth.output =~= seq![left, middle, first_symbol, right] && fifth.stack =~= seq![
            second_symbol,
        ]);
        let postfix = shunting_yard_spec(tokens);
        let p1 = nothing.push(left);
        let p2 = p1.push(middle);
        let p3 = p2.push(first_symbol);
        let p4 = p3.push(right);
        assert(postfix =~= p4.push(second_symbol));
        lemma_rpn_fold_push(nothing, left);
        lemma_rpn_fold_push(p1, middle);
        lemma_rpn_fold_push(p2, first_symbol);
        lemma_rpn_fold_push(p3, right);
        lemma_rpn_fold_push(p4, second_symbol);
        lemma_rpn_steps(empty_values, 0, 0, left);
        lemma_rpn_steps(empty_values.push(a), 0, 0, middle);
        lemma_rpn_steps(empty_values, a, b, first_symbol);
        lemma_rpn_steps(empty_values.push(first.apply(a, b)), 0, 0, right);
        lemma_rpn_steps(empty_values, first.apply(a, b), c, second_symbol);
    } else {
        assert(pop_operators(second, third) == third);
        let fourth = yard_fold(t4);
        assert(fourth.output =~= third.output && fourth.stack =~= seq![
            first_symbol,
            second_symbol,
        ]);
        let fifth = yard_fold(tokens);
        assert(fifth.output =~= seq![left, middle, right] && fifth.stack =~= seq![
            first_symbol,
            second_symbol,
        ]);
        assert(fifth.stack.reverse() =~= seq![second_symbol, first_symbol]);
        let postfix = shunting_yard_spec(tokens);
        let p1 = nothing.push(left);
        let p2 = p1.push(middle);
        let p3 = p2.push(right);
        let p4 = p3.push(second_symbol);
        assert(postfix =~= p4.push(first_symbol));
        lemma_rpn_fold_push(nothing, left);
        lemma_rpn_fold_push(p1, middle);
        lemma_rpn_fold_push(p2, right);
        lemma_rpn_fold_push(p3, second_symbol);
        lemma_rpn_fold_push(p4, first_symbol);
        lemma_rpn_steps(empty_values, 0, 0, left);
        lemma_rpn_steps(empty_values.push(a), 0, 0, middle);
        lemma_rpn_steps(empty_values.push(a).push(b), 0, 0, right);
        lemma_rpn_steps(empty_values.push(a), b, c, second_symbol);
        lemma_rpn_steps(empty_values, a, second.apply(b, c), first_symbol);
    }
    assert(all_recognized(tokens));
}

/// Parentheses around the first two of three literals have their operator
/// applied first, whatever the rank of the operator behind them.
pub proof fn lemma_calculate_parenthesized(
    left: Seq<char>,
    first_symbol: Seq<char>,
    middle: Seq<char>,
    second_symbol: Seq<char>,
    right: Seq<char>,
    error_msg: Seq<char>,
)
    requires
        is_literal(left),
        is_literal(middle),
        is_literal(right),
        operator_of(first_symbol) is Some,
        operator_of(second_symbol) is Some,
    ensures
        calculate_spec(
            seq![left_paren(), left, first_symbol, middle, right_paren(), second_symbol, right],
            error_msg,
        ) == decimal_string(
            operator_of(second_symbol)->0.apply(
                operator_of(first_symbol)->0.apply(
                    literal_value(left) as Word,
                    literal_value(middle) as Word,
                ),
                literal_value(right) as Word,
            ) as int,
        ),
{
    let first = operator_of(first_symbol)->0;
    let second = operator_of(second_symbol)->0;
    let a = literal_value(left) as Word;
    let b = literal_value(middle) as Word;
    let c = literal_value(right) as Word;
    let nothing = Seq::<Seq<char>>::empty();
    let open = left_paren();
    let close = right_paren();
    let tokens = seq![open, left, first_symbol, middle, close, second_symbol, right];
    lemma_token_kinds(left);
    lemma_token_kinds(first_symbol);
    lemma_token_kinds(middle);
    lemma_token_kinds(second_symbol);
    lemma_token_kinds(right);
    let t1 = nothing.push(open);
    let t2 = t1.push(left);
    let t3 = t2.push(first_symbol);
    let t4 = t3.push(middle);
    let t5 = t4.push(close);
    let t6 = t5.push(second_symbol);
    assert(tokens =~= t6.push(right));
    lemma_yard_fold_push(nothing, open);
    lemma_yard_fold_push(t1, left);
    lemma_yard_fold_push(t2, first_symbol);
    lemma_yard_fold_push(t3, middle);
    lemma_yard_fold_push(t4, close);
    lemma_yard_fold_push(t5, second_symbol);
    lemma_yard_fold_push(t6, right);
    assert(yard_fold(t1).output =~= nothing && yard_fold(t1).stack =~= seq![open]);
    let y2 = yard_fold(t2);
    assert(y2.output =~= seq![left] && y2.stack =~= seq![open]);
    assert(pop_operators(first, y2) == y2);
    let y3 = yard_fold(t3);
    assert(y3.output =~= seq![left] && y3.stack =~= seq![open, first_symbol]);
    let y4 = yard_fold(t4);
    assert(y4.output =~= seq![left, middle] && y4.stack =~= seq![open, first_symbol]);
    let popped = pop_to_output(y4);
    assert(popped.output =~= seq![left, middle, first_symbol] && popped.stack =~= seq![open]);
    let closed = Yard { output: popped.output, stack: nothing };
    assert(popped.stack.drop_last() =~= nothing);
    assert(pop_to_paren(popped) == closed);
    assert(pop_to_paren(y4) == closed);
    let y5 = yard_fold(t5);
    assert(y5 == closed);
    assert(pop_operators(second, y5) == y5);
    let y6 = yard_fold(t6);
    assert(y6.output =~= closed.output && y6.stack =~= seq![second_symbol]);
    let y7 = yard_fold(tokens);
    assert(y7.output =~= seq![left, middle, first_symbol, right] && y7.stack =~= seq![
        second_symbol,
    ]);
    let postfix = shunting_yard_spec(tokens);
    let p1 = nothing.push(left);
    let p2 = p1.push(middle);
    let p3 = p2.push(first_symbol);
    let p4 = p3.push(right);
    assert(postfix =~= p4.push(second_symbol));
    let empty_values = Seq::<Word>::empty();
    lemma_rpn_fold_push(nothing, left);
    lemma_rpn_fold_push(p1, middle);
    lemma_rpn_fold_push(p2, first_symbol);
    lemma_rpn_fold_push(p3, right);
    lemma_rpn_fold_push(p4, second_symbol);
    lemma_rpn_steps(empty_values, 0, 0, left);
    lemma_rpn_steps(empty_values.push(a), 0, 0, middle);
    lemma_rpn_steps(empty_values, a, b, first_symbol);
    lemma_rpn_steps(empty_values.push(first.apply(a, b)), 0, 0, right);
    lemma_rpn_steps(empty_values, first.apply(a, b), c, second_symbol);
    assert(all_recognized(tokens)) by {
        assert(recognized(open) && recognized(close));
    }
}

} // verus!
