use interpreter::parser::ParseError;
use interpreter::parser::Parser;
use interpreter::scanner::Scanner;
use interpreter::scanner::Token;

fn tokens_of(source: &str) -> Vec<Token> {
    let chars: Vec<char> = source.chars().collect();
    let mut scanner = Scanner::new(chars);
    scanner.scan_tokens();
    scanner.tokens
}

fn parse_and_print(source: &str) -> String {
    Parser::new(tokens_of(source)).pretty_print()
}

#[test]
fn multiplication_binds_tighter_than_addition() {
    assert_eq!(parse_and_print("1 + 2 * 3"), "(+ 1 (* 2 3))");
}

#[test]
fn grouping_overrides_precedence() {
    assert_eq!(parse_and_print("(1 + 2) * 3"), "(* (group (+ 1 2)) 3)");
}

#[test]
fn trailing_operator_is_a_parse_failure() {
    let parser = Parser::new(tokens_of("1 +"));
    assert!(parser.root.is_none());
    assert_eq!(parser.error, Some(ParseError::UnexpectedToken));
    assert_eq!(parser.pretty_print(), "Null Expression");
}

#[test]
fn empty_token_sequence_runs_out_of_tokens() {
    let parser = Parser::new(vec![]);
    assert!(parser.root.is_none());
    assert_eq!(parser.error, Some(ParseError::OutOfTokens));
}

#[test]
fn missing_closing_paren_is_a_parse_failure() {
    let parser = Parser::new(tokens_of("(1 + 2"));
    assert!(parser.root.is_none());
    assert_eq!(parser.error, Some(ParseError::MissingRightParen));
}

#[test]
fn keyword_literals_print_as_themselves() {
    assert_eq!(parse_and_print("true"), "true");
    assert_eq!(parse_and_print("false"), "false");
    assert_eq!(parse_and_print("nil"), "nil");
}

#[test]
fn string_and_number_literals_print_their_text() {
    assert_eq!(parse_and_print("\"hi\""), "hi");
    assert_eq!(parse_and_print("42"), "42");
    assert_eq!(parse_and_print("3.5"), "3.5");
}

#[test]
fn unary_operators_are_right_associative() {
    assert_eq!(parse_and_print("!true"), "(! true)");
    assert_eq!(parse_and_print("--1"), "(- (- 1))");
    assert_eq!(parse_and_print("!!false"), "(! (! false))");
}

#[test]
fn binary_operators_fold_left_associatively() {
    assert_eq!(parse_and_print("1 - 2 - 3"), "(- (- 1 2) 3)");
    assert_eq!(parse_and_print("8 / 2 / 2"), "(/ (/ 8 2) 2)");
}

#[test]
fn comparison_binds_tighter_than_equality() {
    assert_eq!(parse_and_print("1 < 2 == true"), "(== (< 1 2) true)");
    assert_eq!(parse_and_print("1 >= 2 != false"), "(!= (>= 1 2) false)");
}

#[test]
fn nested_groupings_print_nested_group_forms() {
    assert_eq!(parse_and_print("((1))"), "(group (group 1))");
}

#[test]
fn tokens_past_the_expression_are_left_unconsumed() {
    let parser = Parser::new(tokens_of("1 2"));
    assert!(parser.root.is_some());
    assert_eq!(parser.pretty_print(), "1");
}

#[test]
fn printing_is_deterministic() {
    let parser = Parser::new(tokens_of("-(1 + 2) * 3 <= 4 == true"));
    let first = parser.pretty_print();
    let second = parser.pretty_print();
    assert_eq!(first, second);
    let again = Parser::new(tokens_of("-(1 + 2) * 3 <= 4 == true")).pretty_print();
    assert_eq!(first, again);
}

#[test]
fn mixed_precedence_expression() {
    assert_eq!(
        parse_and_print("-(1 + 2) * 3 <= 4 == true"),
        "(== (<= (* (- (group (+ 1 2))) 3) 4) true)"
    );
}
