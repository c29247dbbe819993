use rust_exercises::calculator::{calculation_completes, calculator_str, calculator_str_list};

#[test]
fn test_calculator_str() {
    assert_eq!(calculator_str("1 + 1"), 2);
    assert_eq!(calculator_str("2 * 2"), 4);
    assert_eq!(calculator_str("2 / 2"), 1);
    assert_eq!(calculator_str("2 - 2"), 0);
}

#[test]
fn test_calculator_str_list() {
    assert_eq!(calculator_str_list(&vec!["2", "*", "3"]), 6);
    assert_eq!(calculator_str_list(&vec!["2", "+", "3"]), 5);
    assert_eq!(calculator_str_list(&vec!["3", "-", "2"]), 1);
    assert_eq!(calculator_str_list(&vec!["6", "/", "3"]), 2);
}

#[test]
fn calculator_without_expression_gives_minus_one() {
    assert_eq!(calculator_str(""), -1);
    assert_eq!(calculator_str("abc"), -1);
    assert_eq!(calculator_str("12"), -1);
    assert_eq!(calculator_str("12 +"), -1);
}

#[test]
fn calculator_comma_and_dot_give_minus_one() {
    assert_eq!(calculator_str("3,4"), -1);
    assert_eq!(calculator_str("3.4"), -1);
}

#[test]
fn calculator_negative_numbers() {
    assert_eq!(calculator_str("-3 * 4"), -12);
    assert_eq!(calculator_str("5 - -3"), 8);
    assert_eq!(calculator_str("-7 / 2"), -3);
    assert_eq!(calculator_str("7 / -2"), -3);
}

#[test]
fn calculator_takes_leftmost_expression() {
    assert_eq!(calculator_str("x1+a 2+3"), 5);
    assert_eq!(calculator_str("10*2 and 3+3"), 20);
    assert_eq!(calculator_str("1 2 + 3"), 15);
}

#[test]
fn calculator_list_joins_pieces() {
    assert_eq!(calculator_str_list(&vec!["1", "2", "+", "3"]), 15);
    assert_eq!(calculator_str_list(&vec![]), -1);
}

#[test]
fn calculator_accepts_non_ascii_outside_the_expression() {
    assert_eq!(calculator_str("é 4 * 5"), 20);
    assert!(calculation_completes("é 4 * 5"));
    assert!(calculation_completes("½ 1+1"));
    assert_eq!(calculator_str("½ 1+1"), 2);
    assert!(calculation_completes("x\u{663}y1+1"));
    assert_eq!(calculator_str("x\u{663}y1+1"), 2);
}

#[test]
fn calculator_refuses_non_ascii_digits_in_the_expression() {
    assert!(!calculation_completes("\u{663}+1"));
    assert!(!calculation_completes("\u{663}1+1"));
    assert!(!calculation_completes("1+\u{663}"));
}

#[test]
fn calculation_completes_spots_overflow_and_zero_division() {
    assert!(calculation_completes("2147483647 + 0"));
    assert!(!calculation_completes("2147483647 + 1"));
    assert!(!calculation_completes("2147483648 - 1"));
    assert!(!calculation_completes("5 / 0"));
    assert!(!calculation_completes("-2147483648 / -1"));
    assert!(calculation_completes("-2147483648 / 1"));
    assert!(calculation_completes("65536 * 32767"));
    assert!(!calculation_completes("65536 * 32768"));
    assert!(calculation_completes("no expression"));
}
