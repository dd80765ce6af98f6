use calculator::logic::numeral::{parse_literal, word_to_string};
use calculator::logic::parsing::{
    calculate, evaluate_rpn, find_operator, get_op_associativity, get_op_precedence,
    get_op_result, is_recognized, shunting_yard, string_is_number, tokens_recognized, Operator,
    LEFT_ASSOCIATIVE, RIGHT_ASSOCIATIVE,
};
use calculator::types::{WORD_MAX, WORD_MIN};

const ERROR: &str = "Malformed input";

fn tokens(items: &[&str]) -> Vec<String> {
    items.iter().map(|item| item.to_string()).collect()
}

fn evaluate(items: &[&str]) -> String {
    calculate(tokens(items), ERROR)
}

#[test]
fn precedence_binds_times_before_plus() {
    assert_eq!(evaluate(&["2", "+", "3", "x", "4"]), "14");
}

#[test]
fn power_is_right_associative() {
    assert_eq!(evaluate(&["2", "^", "3", "^", "2"]), "512");
}

#[test]
fn minus_and_over_are_left_associative() {
    assert_eq!(evaluate(&["10", "-", "3", "-", "2"]), "5");
    assert_eq!(evaluate(&["100", "÷", "10", "÷", "5"]), "2");
}

#[test]
fn parentheses_group() {
    assert_eq!(evaluate(&["(", "2", "+", "3", ")", "x", "4"]), "20");
    assert_eq!(evaluate(&["2", "x", "(", "3", "+", "4", ")"]), "14");
    assert_eq!(evaluate(&["(", "(", "2", ")", ")", "+", "1"]), "3");
}

#[test]
fn square_root_token_uses_its_right_operand() {
    assert_eq!(evaluate(&["√", "9"]), "3");
    assert_eq!(evaluate(&["√", "144"]), "12");
    assert_eq!(evaluate(&["√", "10"]), "3");
}

#[test]
fn square_root_discards_a_left_operand() {
    assert_eq!(evaluate(&["5", "√", "9"]), "3");
}

#[test]
fn empty_sequence_gives_empty_string() {
    assert_eq!(calculate(Vec::new(), ERROR), "");
}

#[test]
fn single_literal_is_returned() {
    assert_eq!(evaluate(&["7"]), "7");
    assert_eq!(evaluate(&["-7"]), "-7");
    assert_eq!(evaluate(&["007"]), "007");
    assert_eq!(evaluate(&["99999999999"]), "99999999999");
}

#[test]
fn single_token_passes_through_unchanged() {
    assert_eq!(evaluate(&["+"]), "+");
    assert_eq!(evaluate(&["("]), "(");
    assert_eq!(evaluate(&["abc"]), "abc");
    assert_eq!(evaluate(&[""]), "");
    assert_eq!(evaluate(&[ERROR]), ERROR);
}

#[test]
fn lone_operator_has_no_value() {
    assert_eq!(evaluate_rpn(tokens(&["+"])), None);
    assert_eq!(evaluate_rpn(tokens(&["7"])), None);
    assert_eq!(evaluate_rpn(Vec::new()), None);
}

#[test]
fn mismatched_parenthesis_gives_the_error_string() {
    assert_eq!(evaluate(&["2", ")"]), ERROR);
    assert_eq!(evaluate(&[")", "2"]), ERROR);
    assert_eq!(evaluate(&["(", "2"]), ERROR);
    assert_eq!(evaluate(&["2", "+", "(", "3"]), ERROR);
    assert_eq!(evaluate(&["(", ")"]), ERROR);
}

#[test]
fn closing_parenthesis_without_opening_drains_the_stack() {
    assert_eq!(evaluate(&["2", "+", "3", ")"]), "5");
    assert_eq!(evaluate(&["2", "+", "3", ")", "x", "4"]), "20");
}

#[test]
fn unknown_token_gives_the_error_string() {
    assert_eq!(evaluate(&["5", "abc"]), ERROR);
    assert_eq!(evaluate(&["2", "=", "3"]), ERROR);
    assert_eq!(evaluate(&["2", "+", ""]), ERROR);
    assert_eq!(evaluate(&["2", "*", "3"]), ERROR);
    assert_eq!(evaluate(&["2", "+", "--3"]), ERROR);
    assert_eq!(evaluate(&["2", "+", "3.5"]), ERROR);
    assert_eq!(evaluate(&["2", "+", "½"]), ERROR);
}

#[test]
fn error_string_is_the_one_given() {
    assert_eq!(calculate(tokens(&["2", ")"]), "no value"), "no value");
    assert_eq!(calculate(tokens(&["2", "?"]), ""), "");
}

#[test]
fn missing_operands_count_as_zero() {
    assert_eq!(evaluate(&["5", "+"]), "5");
    assert_eq!(evaluate(&["+", "5"]), "5");
    assert_eq!(evaluate(&["-", "5"]), "-5");
    assert_eq!(evaluate(&["5", "-"]), "-5");
    assert_eq!(evaluate(&["+", "+"]), "0");
    assert_eq!(evaluate(&["x", "5"]), "0");
    assert_eq!(evaluate(&["÷", "5"]), "0");
    assert_eq!(evaluate(&["5", "÷"]), "0");
    assert_eq!(evaluate(&["^", "5"]), "0");
}

#[test]
fn value_on_top_is_the_result() {
    assert_eq!(evaluate(&["2", "3"]), "3");
    assert_eq!(evaluate(&["2", "3", "+", "4"]), "7");
    assert_eq!(evaluate(&["1", "2", "3"]), "3");
}

#[test]
fn negative_results_and_literals() {
    assert_eq!(evaluate(&["2", "-", "5"]), "-3");
    assert_eq!(evaluate(&["-2", "x", "3"]), "-6");
    assert_eq!(evaluate(&["-2", "x", "-3"]), "6");
    assert_eq!(evaluate(&["2", "-", "-3"]), "5");
    assert_eq!(evaluate(&["-0", "+", "0"]), "0");
}

#[test]
fn literals_out_of_range_are_clamped() {
    assert_eq!(evaluate(&["99999999999", "+", "0"]), "2147483647");
    assert_eq!(evaluate(&["-99999999999", "+", "0"]), "-2147483648");
    assert_eq!(evaluate(&["2147483648", "-", "1"]), "2147483646");
    assert_eq!(evaluate(&["99999999999999999999999999999999", "÷", "1"]), "2147483647");
}

#[test]
fn results_saturate() {
    assert_eq!(evaluate(&["2147483647", "+", "1"]), "2147483647");
    assert_eq!(evaluate(&["-2147483648", "-", "1"]), "-2147483648");
    assert_eq!(evaluate(&["65536", "x", "65536"]), "2147483647");
    assert_eq!(evaluate(&["-65536", "x", "65536"]), "-2147483648");
    assert_eq!(evaluate(&["65536", "x", "-65536"]), "-2147483648");
    assert_eq!(evaluate(&["-2147483648", "÷", "2"]), "-1073741824");
    assert_eq!(evaluate(&["-2", "^", "31"]), "-2147483648");
    assert_eq!(evaluate(&["5", "÷", "0"]), "2147483647");
    assert_eq!(evaluate(&["2", "^", "40"]), "2147483647");
}

#[test]
fn longer_expressions() {
    assert_eq!(evaluate(&["1", "+", "2", "x", "3", "^", "2", "-", "4", "÷", "2"]), "17");
    assert_eq!(evaluate(&["(", "1", "+", "2", ")", "x", "(", "3", "+", "4", ")"]), "21");
    assert_eq!(evaluate(&["√", "(", "9", "+", "16", ")"]), "5");
    assert_eq!(evaluate(&["(", "√", "16", ")", "x", "2"]), "8");
}

#[test]
fn square_root_takes_the_value_below_its_operand_too() {
    assert_eq!(evaluate(&["2", "x", "√", "16"]), "0");
    assert_eq!(evaluate(&["2", "+", "√", "16"]), "4");
    assert_eq!(evaluate(&["2", "^", "√", "16"]), "4");
    assert_eq!(shunting_yard(tokens(&["2", "^", "√", "16"])), tokens(&["2", "^", "16", "√"]));
    assert_eq!(evaluate_rpn(tokens(&["2", "16", "√"])), Some(4));
}

#[test]
fn result_can_be_fed_back() {
    let first = evaluate(&["2", "-", "5"]);
    assert!(string_is_number(&first));
    assert_eq!(calculate(vec![first, "x".to_string(), "2".to_string()], ERROR), "-6");
}

#[test]
fn string_is_number_accepts_literals() {
    assert!(string_is_number("0"));
    assert!(string_is_number("5"));
    assert!(string_is_number("-5"));
    assert!(string_is_number("007"));
    assert!(string_is_number("-0"));
    assert!(string_is_number("1234567890"));
    assert!(string_is_number("99999999999999999999"));
}

#[test]
fn string_is_number_rejects_everything_else() {
    assert!(!string_is_number(""));
    assert!(!string_is_number("-"));
    assert!(!string_is_number("--5"));
    assert!(!string_is_number("5-"));
    assert!(!string_is_number("5-5"));
    assert!(!string_is_number("+5"));
    assert!(!string_is_number("12a"));
    assert!(!string_is_number("a12"));
    assert!(!string_is_number(" 5"));
    assert!(!string_is_number("5 "));
    assert!(!string_is_number("3.5"));
    assert!(!string_is_number("½"));
    assert!(!string_is_number("٣"));
    assert!(!string_is_number("²"));
    assert!(!string_is_number("x"));
    assert!(!string_is_number("("));
    assert!(!string_is_number("√"));
}

#[test]
fn operators_are_found_by_symbol() {
    assert!(matches!(find_operator("^"), Some(Operator::Power)));
    assert!(matches!(find_operator("√"), Some(Operator::Root)));
    assert!(matches!(find_operator("x"), Some(Operator::Times)));
    assert!(matches!(find_operator("÷"), Some(Operator::Over)));
    assert!(matches!(find_operator("+"), Some(Operator::Plus)));
    assert!(matches!(find_operator("-"), Some(Operator::Minus)));
    assert!(find_operator("").is_none());
    assert!(find_operator("*").is_none());
    assert!(find_operator("/").is_none());
    assert!(find_operator("X").is_none());
    assert!(find_operator("(").is_none());
    assert!(find_operator(")").is_none());
    assert!(find_operator("++").is_none());
    assert!(find_operator("-5").is_none());
    assert!(find_operator("5").is_none());
}

#[test]
fn operator_precedence_table() {
    assert_eq!(get_op_precedence("^"), 5);
    assert_eq!(get_op_precedence("√"), 4);
    assert_eq!(get_op_precedence("x"), 3);
    assert_eq!(get_op_precedence("÷"), 3);
    assert_eq!(get_op_precedence("+"), 2);
    assert_eq!(get_op_precedence("-"), 2);
}

#[test]
fn operator_associativity_table() {
    assert_eq!(LEFT_ASSOCIATIVE, 0);
    assert_eq!(RIGHT_ASSOCIATIVE, 1);
    assert_eq!(get_op_associativity("^"), RIGHT_ASSOCIATIVE);
    assert_eq!(get_op_associativity("√"), RIGHT_ASSOCIATIVE);
    assert_eq!(get_op_associativity("x"), LEFT_ASSOCIATIVE);
    assert_eq!(get_op_associativity("÷"), LEFT_ASSOCIATIVE);
    assert_eq!(get_op_associativity("+"), LEFT_ASSOCIATIVE);
    assert_eq!(get_op_associativity("-"), LEFT_ASSOCIATIVE);
}

#[test]
fn operator_results() {
    assert_eq!(get_op_result("^", 2, 5), Some(32));
    assert_eq!(get_op_result("√", 2, 25), Some(5));
    assert_eq!(get_op_result("x", 6, 7), Some(42));
    assert_eq!(get_op_result("÷", 42, 5), Some(8));
    assert_eq!(get_op_result("+", 2, 5), Some(7));
    assert_eq!(get_op_result("-", 2, 5), Some(-3));
}

#[test]
fn operator_result_of_unknown_symbol() {
    assert_eq!(get_op_result("", 2, 5), None);
    assert_eq!(get_op_result("(", 2, 5), None);
    assert_eq!(get_op_result(")", 2, 5), None);
    assert_eq!(get_op_result("*", 2, 5), None);
    assert_eq!(get_op_result("7", 2, 5), None);
}

#[test]
fn alphabet_of_the_evaluator() {
    for token in ["0", "-12", "(", ")", "^", "√", "x", "÷", "+", "-"] {
        assert!(is_recognized(token), "{}", token);
    }
    for token in ["", "*", "/", "=", "CE", "--1", "1.0", "((", "a"] {
        assert!(!is_recognized(token), "{}", token);
    }
    assert!(tokens_recognized(&tokens(&[])));
    assert!(tokens_recognized(&tokens(&["1", "+", "(", "-2", ")"])));
    assert!(!tokens_recognized(&tokens(&["1", "+", "two"])));
    assert!(!tokens_recognized(&tokens(&["=", "1"])));
}

#[test]
fn shunting_yard_orders_by_precedence() {
    assert_eq!(
        shunting_yard(tokens(&["2", "+", "3", "x", "4"])),
        tokens(&["2", "3", "4", "x", "+"])
    );
    assert_eq!(
        shunting_yard(tokens(&["2", "x", "3", "+", "4"])),
        tokens(&["2", "3", "x", "4", "+"])
    );
    assert_eq!(
        shunting_yard(tokens(&["2", "-", "3", "-", "4"])),
        tokens(&["2", "3", "-", "4", "-"])
    );
    assert_eq!(
        shunting_yard(tokens(&["2", "^", "3", "^", "2"])),
        tokens(&["2", "3", "2", "^", "^"])
    );
    assert_eq!(shunting_yard(tokens(&["√", "9"])), tokens(&["9", "√"]));
    assert_eq!(
        shunting_yard(tokens(&["2", "x", "√", "9", "+", "1"])),
        tokens(&["2", "9", "√", "x", "1", "+"])
    );
}

#[test]
fn shunting_yard_handles_parentheses() {
    assert_eq!(
        shunting_yard(tokens(&["(", "2", "+", "3", ")", "x", "4"])),
        tokens(&["2", "3", "+", "4", "x"])
    );
    assert_eq!(shunting_yard(tokens(&["(", "2"])), tokens(&["2", "("]));
    assert_eq!(shunting_yard(tokens(&["2", "+", "3", ")"])), tokens(&["2", "3", "+"]));
    assert_eq!(
        shunting_yard(tokens(&["(", "+", "(", "x"])),
        tokens(&["x", "(", "+", "("])
    );
    assert_eq!(shunting_yard(tokens(&[")", ")"])), tokens(&[]));
}

#[test]
fn shunting_yard_degenerate_sizes() {
    assert_eq!(shunting_yard(Vec::new()), tokens(&[]));
    assert_eq!(shunting_yard(tokens(&["7"])), tokens(&["7"]));
    assert_eq!(shunting_yard(tokens(&["+"])), tokens(&["+"]));
}

#[test]
fn evaluate_rpn_values() {
    assert_eq!(evaluate_rpn(tokens(&["2", "3", "4", "x", "+"])), Some(14));
    assert_eq!(evaluate_rpn(tokens(&["2", "3", "2", "^", "^"])), Some(512));
    assert_eq!(evaluate_rpn(tokens(&["9", "√"])), Some(3));
    assert_eq!(evaluate_rpn(tokens(&["2", "3"])), Some(3));
    assert_eq!(evaluate_rpn(tokens(&["5", "+"])), Some(5));
    assert_eq!(evaluate_rpn(tokens(&["+", "+"])), Some(0));
    assert_eq!(evaluate_rpn(tokens(&["7", "2", "-"])), Some(5));
    assert_eq!(evaluate_rpn(tokens(&["7", "2", "÷"])), Some(3));
}

#[test]
fn evaluate_rpn_stops_at_a_token_that_is_no_operator() {
    assert_eq!(evaluate_rpn(tokens(&["2", "("])), None);
    assert_eq!(evaluate_rpn(tokens(&["2", ")"])), None);
    assert_eq!(evaluate_rpn(tokens(&["2", "3", "?"])), None);
    assert_eq!(evaluate_rpn(tokens(&["?", "2", "3"])), None);
    assert_eq!(evaluate_rpn(tokens(&["", "2"])), None);
}

#[test]
fn parse_literal_values() {
    assert_eq!(parse_literal("0"), 0);
    assert_eq!(parse_literal("7"), 7);
    assert_eq!(parse_literal("-7"), -7);
    assert_eq!(parse_literal("007"), 7);
    assert_eq!(parse_literal("-0"), 0);
    assert_eq!(parse_literal("1234567890"), 1234567890);
    assert_eq!(parse_literal("2147483647"), WORD_MAX);
    assert_eq!(parse_literal("-2147483648"), WORD_MIN);
    assert_eq!(parse_literal("-2147483647"), -WORD_MAX);
}

#[test]
fn parse_literal_clamps() {
    assert_eq!(parse_literal("2147483648"), WORD_MAX);
    assert_eq!(parse_literal("-2147483649"), WORD_MIN);
    assert_eq!(parse_literal("21474836470"), WORD_MAX);
    assert_eq!(parse_literal("-21474836480"), WORD_MIN);
    assert_eq!(parse_literal("99999999999999999999999999999999999999"), WORD_MAX);
    assert_eq!(parse_literal("-99999999999999999999999999999999999999"), WORD_MIN);
    assert_eq!(parse_literal("000000000000000000000000000000000000012"), 12);
}

#[test]
fn parse_literal_agrees_with_the_standard_parser() {
    for text in ["0", "9", "10", "-10", "65536", "-46341", "2147483647", "-2147483648"] {
        assert_eq!(Ok(parse_literal(text)), text.parse::<i32>());
    }
}

#[test]
fn word_to_string_texts() {
    assert_eq!(word_to_string(0), "0");
    assert_eq!(word_to_string(7), "7");
    assert_eq!(word_to_string(-7), "-7");
    assert_eq!(word_to_string(10), "10");
    assert_eq!(word_to_string(100), "100");
    assert_eq!(word_to_string(-1005), "-1005");
    assert_eq!(word_to_string(WORD_MAX), "2147483647");
    assert_eq!(word_to_string(WORD_MIN), "-2147483648");
}

#[test]
fn word_to_string_agrees_with_the_standard_formatter() {
    for value in [0, 1, -1, 9, 10, 11, 99, 100, 101, 65536, -46341, WORD_MAX, WORD_MIN] {
        assert_eq!(word_to_string(value), format!("{}", value));
    }
}

#[test]
fn text_of_a_word_reads_back_as_the_word() {
    for value in [0, 1, -1, 9, 10, 12345, -12345, WORD_MAX, WORD_MIN, -WORD_MAX] {
        let text = word_to_string(value);
        assert!(string_is_number(&text));
        assert_eq!(parse_literal(&text), value);
    }
}
