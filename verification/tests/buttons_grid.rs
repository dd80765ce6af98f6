use calculator::components::buttons_grid::{
    button_size, clear_error_msg, has_room, press, press_is_allowed, push_digit, ERROR_MSG,
    GRID_COLUMNS, GRID_SPACING, MAX_OUTPUT_LENGTH,
};
use calculator::components::screen_textview::screen_text;

fn screen(items: &[&str]) -> Vec<String> {
    items.iter().map(|item| item.to_string()).collect()
}

fn pressed(items: &[&str], labels: &[&str]) -> Vec<String> {
    let mut output = screen(items);
    for label in labels {
        assert!(press_is_allowed(&output, label));
        press(&mut output, label);
    }
    output
}

#[test]
fn error_message_and_limit() {
    assert_eq!(ERROR_MSG, "Malformed input");
    assert_eq!(MAX_OUTPUT_LENGTH, 88);
}

#[test]
fn clear_error_msg_takes_the_message_away() {
    let mut output = screen(&[ERROR_MSG]);
    clear_error_msg(&mut output);
    assert_eq!(output, screen(&[]));
}

#[test]
fn clear_error_msg_leaves_other_screens() {
    for items in [
        vec![],
        vec!["7"],
        vec!["Malformed"],
        vec![ERROR_MSG, "7"],
        vec!["7", ERROR_MSG],
        vec![ERROR_MSG, ERROR_MSG],
    ] {
        let mut output = screen(&items);
        clear_error_msg(&mut output);
        assert_eq!(output, screen(&items));
    }
}

#[test]
fn push_digit_starts_a_number() {
    let mut output = screen(&[]);
    push_digit(&mut output, "7".to_string());
    assert_eq!(output, screen(&["7"]));
    let mut output = screen(&["2", "+"]);
    push_digit(&mut output, "7".to_string());
    assert_eq!(output, screen(&["2", "+", "7"]));
    let mut output = screen(&["("]);
    push_digit(&mut output, "7".to_string());
    assert_eq!(output, screen(&["(", "7"]));
}

#[test]
fn push_digit_goes_on_writing_a_number() {
    let mut output = screen(&["12"]);
    push_digit(&mut output, "3".to_string());
    assert_eq!(output, screen(&["123"]));
    let mut output = screen(&["2", "+", "12"]);
    push_digit(&mut output, "3".to_string());
    assert_eq!(output, screen(&["2", "+", "123"]));
    let mut output = screen(&["-4"]);
    push_digit(&mut output, "0".to_string());
    assert_eq!(output, screen(&["-40"]));
}

#[test]
fn push_digit_joins_a_sign() {
    let mut output = screen(&["-"]);
    push_digit(&mut output, "5".to_string());
    assert_eq!(output, screen(&["-5"]));
    let mut output = screen(&["2", "x", "-"]);
    push_digit(&mut output, "5".to_string());
    assert_eq!(output, screen(&["2", "x", "-5"]));
    let mut output = screen(&["(", "-"]);
    push_digit(&mut output, "5".to_string());
    assert_eq!(output, screen(&["(", "-5"]));
    let mut output = screen(&["2", ")", "-"]);
    push_digit(&mut output, "5".to_string());
    assert_eq!(output, screen(&["2", ")", "-5"]));
}

#[test]
fn push_digit_keeps_a_minus_after_a_number_apart() {
    let mut output = screen(&["2", "-"]);
    push_digit(&mut output, "5".to_string());
    assert_eq!(output, screen(&["2", "-", "5"]));
}

#[test]
fn push_digit_keeps_other_operators_apart() {
    for operator in ["+", "x", "÷", "^", "√", "(", ")"] {
        let mut output = screen(&[operator]);
        push_digit(&mut output, "5".to_string());
        assert_eq!(output, screen(&[operator, "5"]));
    }
}

#[test]
fn has_room_counts_bytes() {
    assert!(has_room(&screen(&[])));
    assert!(has_room(&screen(&["1", "+", "2"])));
    let long = "1".repeat(87);
    assert!(has_room(&screen(&[&long])));
    let full = "1".repeat(88);
    assert!(!has_room(&screen(&[&full])));
    assert!(!has_room(&screen(&[&long, "+"])));
    let roots = vec!["√"; 29];
    assert!(has_room(&screen(&roots)));
    let roots = vec!["√"; 30];
    assert!(!has_room(&screen(&roots)));
    let overs = vec!["÷"; 43];
    assert!(has_room(&screen(&overs)));
    let overs = vec!["÷"; 44];
    assert!(!has_room(&screen(&overs)));
}

#[test]
fn press_writes_an_expression() {
    assert_eq!(
        pressed(&[], &["1", "2", "+", "3", "x", "(", "-", "4", ")"]),
        screen(&["12", "+", "3", "x", "(", "-4", ")"])
    );
}

#[test]
fn press_equals_shows_the_result() {
    assert_eq!(pressed(&[], &["2", "+", "3", "x", "4", "="]), screen(&["14"]));
    assert_eq!(pressed(&[], &["2", "^", "3", "^", "2", "="]), screen(&["512"]));
    assert_eq!(pressed(&[], &["√", "9", "="]), screen(&["3"]));
    assert_eq!(pressed(&[], &["7", "="]), screen(&["7"]));
    assert_eq!(pressed(&[], &["+", "="]), screen(&["+"]));
    assert_eq!(pressed(&[], &["="]), screen(&[""]));
    assert_eq!(pressed(&[], &["(", "2", "="]), screen(&[ERROR_MSG]));
    assert_eq!(pressed(&[], &["2", ")", "="]), screen(&[ERROR_MSG]));
}

#[test]
fn press_goes_on_from_a_result() {
    assert_eq!(pressed(&[], &["2", "-", "5", "=", "x", "2", "="]), screen(&["-6"]));
    assert_eq!(pressed(&[], &["2", "+", "3", "=", "1"]), screen(&["51"]));
}

#[test]
fn press_clears_the_error_message_first() {
    assert_eq!(pressed(&[ERROR_MSG], &["7"]), screen(&["7"]));
    assert_eq!(pressed(&[ERROR_MSG], &["+"]), screen(&["+"]));
    assert_eq!(pressed(&[ERROR_MSG], &["CE"]), screen(&[]));
    assert_eq!(pressed(&[ERROR_MSG], &["="]), screen(&[ERROR_MSG]));
}

#[test]
fn press_clear_entry_takes_the_last_token() {
    assert_eq!(pressed(&["12", "+", "34"], &["CE"]), screen(&["12", "+"]));
    assert_eq!(pressed(&["12"], &["CE"]), screen(&[]));
    assert_eq!(pressed(&[], &["CE"]), screen(&[]));
}

#[test]
fn press_adds_nothing_to_a_full_screen() {
    let full = "1".repeat(88);
    assert_eq!(pressed(&[&full], &["1"]), screen(&[&full]));
    assert_eq!(pressed(&[&full], &["+"]), screen(&[&full]));
    assert_eq!(pressed(&[&full], &["CE"]), screen(&[]));
    assert_eq!(pressed(&[&full], &["="]), screen(&[&full]));
    let long = "1".repeat(87);
    let longer = "1".repeat(88);
    assert_eq!(pressed(&[&long], &["1", "1"]), screen(&[&longer]));
}

#[test]
fn press_is_allowed_wants_tokens_that_are_not_empty() {
    assert!(!press_is_allowed(&screen(&[]), ""));
    assert!(!press_is_allowed(&screen(&[""]), "1"));
    assert!(!press_is_allowed(&screen(&["", "+"]), "1"));
    assert!(!press_is_allowed(&screen(&["1", ""]), "1"));
    assert!(press_is_allowed(&screen(&["", "1", "+"]), "1"));
    assert!(press_is_allowed(&screen(&[""]), "+"));
    assert!(press_is_allowed(&screen(&[""]), "CE"));
    assert!(press_is_allowed(&screen(&[""]), "="));
    assert!(press_is_allowed(&screen(&[ERROR_MSG]), "1"));
    let full = "1".repeat(88);
    assert!(press_is_allowed(&screen(&[&full, ""]), "1"));
}

#[test]
fn button_size_of_the_window() {
    assert_eq!(GRID_COLUMNS, 4);
    assert_eq!(GRID_SPACING, 5);
    assert_eq!(button_size(300, 5), 69);
    assert_eq!(button_size(0, 0), -5);
    assert_eq!(button_size(400, 8), 93);
    assert_eq!(button_size(403, 7), 94);
    assert_eq!(button_size(-7, 0), -6);
    assert_eq!(button_size(0, -7), -4);
    assert_eq!(button_size(-300, -5), -79);
    assert_eq!(button_size(i32::MIN, i32::MAX), -1073741828);
    assert_eq!(button_size(i32::MAX, i32::MIN), 1073741818);
}

#[test]
fn screen_text_joins_the_tokens() {
    assert_eq!(screen_text(&screen(&[])), "");
    assert_eq!(screen_text(&screen(&["12"])), "12");
    assert_eq!(screen_text(&screen(&["12", "+", "3"])), "12 + 3");
    assert_eq!(screen_text(&screen(&["√", "(", "-4", ")"])), "√ ( -4 )");
    assert_eq!(screen_text(&screen(&["", ""])), " ");
    assert_eq!(screen_text(&screen(&[ERROR_MSG])), ERROR_MSG);
}
