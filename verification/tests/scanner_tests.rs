use interpreter::scanner::LexError;
use interpreter::scanner::Scanner;
use interpreter::scanner::Token;

fn scan(source: &str) -> Scanner {
    let chars: Vec<char> = source.chars().collect();
    let mut scanner = Scanner::new(chars);
    scanner.scan_tokens();
    scanner
}

#[test]
fn punctuation_only_input_yields_matching_tokens() {
    let scanner = scan("(){},.-+;*");
    assert_eq!(
        scanner.tokens,
        vec![
            Token::LeftParen,
            Token::RightParen,
            Token::LeftBrace,
            Token::RightBrace,
            Token::Comma,
            Token::Period,
            Token::Minus,
            Token::Plus,
            Token::Semicolon,
            Token::Star,
            Token::EOF,
        ]
    );
    assert_eq!(scanner.errors, vec![]);
}

#[test]
fn arithmetic_expression_tokens() {
    let scanner = scan("1 + 2 * 3");
    assert_eq!(
        scanner.tokens,
        vec![
            Token::Number(String::from("1")),
            Token::Plus,
            Token::Number(String::from("2")),
            Token::Star,
            Token::Number(String::from("3")),
            Token::EOF,
        ]
    );
    assert_eq!(scanner.errors, vec![]);
}

#[test]
fn unterminated_string_reports_and_emits_no_token() {
    let scanner = scan("\"unterminated");
    assert_eq!(scanner.tokens, vec![Token::EOF]);
    assert_eq!(scanner.errors, vec![LexError::UnterminatedString { line: 1 }]);
}

#[test]
fn string_literal_carries_inner_text() {
    let scanner = scan("\"hello world\"");
    assert_eq!(
        scanner.tokens,
        vec![Token::String(String::from("hello world")), Token::EOF]
    );
    assert_eq!(scanner.errors, vec![]);
}

#[test]
fn string_spanning_lines_advances_line_count() {
    // The first string spans two lines; the unterminated one starts on
    // line 3.
    let scanner = scan("\"a\nb\"\n\"oops");
    assert_eq!(
        scanner.tokens,
        vec![Token::String(String::from("a\nb")), Token::EOF]
    );
    assert_eq!(scanner.errors, vec![LexError::UnterminatedString { line: 3 }]);
}

#[test]
fn one_and_two_character_operators() {
    let scanner = scan("!= == <= >= ! = < >");
    assert_eq!(
        scanner.tokens,
        vec![
            Token::BangEqual,
            Token::EqualEqual,
            Token::LessEqual,
            Token::GreaterEqual,
            Token::Bang,
            Token::Equal,
            Token::Less,
            Token::Greater,
            Token::EOF,
        ]
    );
    assert_eq!(scanner.errors, vec![]);
}

#[test]
fn comment_discards_rest_of_line() {
    let scanner = scan("1 // all of this is ignored ({\"\n2");
    assert_eq!(
        scanner.tokens,
        vec![
            Token::Number(String::from("1")),
            Token::Number(String::from("2")),
            Token::EOF,
        ]
    );
    assert_eq!(scanner.errors, vec![]);
}

#[test]
fn slash_alone_is_division() {
    let scanner = scan("8 / 2");
    assert_eq!(
        scanner.tokens,
        vec![
            Token::Number(String::from("8")),
            Token::Slash,
            Token::Number(String::from("2")),
            Token::EOF,
        ]
    );
}

#[test]
fn keywords_and_identifiers() {
    let scanner = scan("and orchid while foo_bar nil");
    assert_eq!(
        scanner.tokens,
        vec![
            Token::And,
            Token::Identifier(String::from("orchid")),
            Token::While,
            Token::Identifier(String::from("foo_bar")),
            Token::Nil,
            Token::EOF,
        ]
    );
}

#[test]
fn all_keywords_are_recognized() {
    let scanner = scan("and class else false for fun if nil or print return super this true var while");
    assert_eq!(
        scanner.tokens,
        vec![
            Token::And,
            Token::Class,
            Token::Else,
            Token::False,
            Token::For,
            Token::Fun,
            Token::If,
            Token::Nil,
            Token::Or,
            Token::Print,
            Token::Return,
            Token::Super,
            Token::This,
            Token::True,
            Token::Var,
            Token::While,
            Token::EOF,
        ]
    );
}

#[test]
fn fractional_number_is_one_token() {
    let scanner = scan("3.14");
    assert_eq!(
        scanner.tokens,
        vec![Token::Number(String::from("3.14")), Token::EOF]
    );
    assert_eq!(scanner.errors, vec![]);
}

#[test]
fn trailing_dot_is_invalid_number() {
    let scanner = scan("3.");
    assert_eq!(scanner.tokens, vec![Token::EOF]);
    assert_eq!(scanner.errors, vec![LexError::InvalidNumber { line: 1 }]);
}

#[test]
fn number_with_bad_terminator_is_invalid() {
    // The terminator set after a number is restrictive: `+` is not in
    // it, so `1+2` drops the `1`, then scans `+` and `2` normally.
    let scanner = scan("1+2");
    assert_eq!(
        scanner.tokens,
        vec![Token::Plus, Token::Number(String::from("2")), Token::EOF]
    );
    assert_eq!(scanner.errors, vec![LexError::InvalidNumber { line: 1 }]);
}

#[test]
fn fraction_with_bad_terminator_is_invalid() {
    let scanner = scan("1.5x");
    assert_eq!(
        scanner.tokens,
        vec![Token::Identifier(String::from("x")), Token::EOF]
    );
    assert_eq!(scanner.errors, vec![LexError::InvalidNumber { line: 1 }]);
}

#[test]
fn number_terminated_by_paren_comma_semicolon() {
    let scanner = scan("(1, 2.5; 3)");
    assert_eq!(
        scanner.tokens,
        vec![
            Token::LeftParen,
            Token::Number(String::from("1")),
            Token::Comma,
            Token::Number(String::from("2.5")),
            Token::Semicolon,
            Token::Number(String::from("3")),
            Token::RightParen,
            Token::EOF,
        ]
    );
    assert_eq!(scanner.errors, vec![]);
}

#[test]
fn unrecognized_character_is_reported() {
    let scanner = scan("@");
    assert_eq!(scanner.tokens, vec![Token::EOF]);
    assert_eq!(
        scanner.errors,
        vec![LexError::UnrecognizedChar { ch: '@', line: 1 }]
    );
}

#[test]
fn newlines_advance_the_line_counter() {
    let scanner = scan("\n\n@");
    assert_eq!(
        scanner.errors,
        vec![LexError::UnrecognizedChar { ch: '@', line: 3 }]
    );
}

#[test]
fn empty_input_yields_exactly_eof() {
    let scanner = scan("");
    assert_eq!(scanner.tokens, vec![Token::EOF]);
    assert_eq!(scanner.errors, vec![]);
}

#[test]
fn whitespace_is_ignored() {
    let scanner = scan(" \t\r\n ");
    assert_eq!(scanner.tokens, vec![Token::EOF]);
    assert_eq!(scanner.errors, vec![]);
}
