//! The lexical scanner: tokens, their mathematical model, and the
//! character-by-character scan that turns a source character sequence into
//! a token sequence with structured diagnostics.

use vstd::prelude::*;

verus! {

/// A lexical token. String, number and identifier tokens carry their
/// text; the token sequence produced by a scan always ends with `EOF`.
#[derive(Debug, Clone, PartialEq)]
pub enum Token {
    // Single-character tokens.
    LeftParen,
    RightParen,
    LeftBrace,
    RightBrace,
    Comma,
    Period,
    Minus,
    Plus,
    Semicolon,
    Star,
    // Operators, potentially two-character.
    Bang,
    BangEqual,
    Equal,
    EqualEqual,
    Less,
    LessEqual,
    Greater,
    GreaterEqual,
    // Division operator.
    Slash,
    // String literal carrying its inner text.
    String(String),
    // Number literal carrying the text of the literal.
    Number(String),
    // Keywords.
    And,
    Class,
    Else,
    False,
    For,
    Fun,
    If,
    Nil,
    Or,
    Print,
    Return,
    Super,
    This,
    True,
    Var,
    While,
    // User-defined identifier.
    Identifier(String),
    // Terminal end-of-input marker.
    EOF,
}

/// Mathematical model of a token: carried text is modelled as a character
/// sequence.
pub enum TokenModel {
    LeftParen,
    RightParen,
    LeftBrace,
    RightBrace,
    Comma,
    Period,
    Minus,
    Plus,
    Semicolon,
    Star,
    Bang,
    BangEqual,
    Equal,
    EqualEqual,
    Less,
    LessEqual,
    Greater,
    GreaterEqual,
    Slash,
    String(Seq<char>),
    Number(Seq<char>),
    And,
    Class,
    Else,
    False,
    For,
    Fun,
    If,
    Nil,
    Or,
    Print,
    Return,
    Super,
    This,
    True,
    Var,
    While,
    Identifier(Seq<char>),
    EOF,
}

impl View for Token {
    type V = TokenModel;

    open spec fn view(&self) -> TokenModel {
        match self {
            Token::LeftParen => TokenModel::LeftParen,
            Token::RightParen => TokenModel::RightParen,
            Token::LeftBrace => TokenModel::LeftBrace,
            Token::RightBrace => TokenModel::RightBrace,
            Token::Comma => TokenModel::Comma,
            Token::Period => TokenModel::Period,
            Token::Minus => TokenModel::Minus,
            Token::Plus => TokenModel::Plus,
            Token::Semicolon => TokenModel::Semicolon,
            Token::Star => TokenModel::Star,
            Token::Bang => TokenModel::Bang,
            Token::BangEqual => TokenModel::BangEqual,
            Token::Equal => TokenModel::Equal,
            Token::EqualEqual => TokenModel::EqualEqual,
            Token::Less => TokenModel::Less,
            Token::LessEqual => TokenModel::LessEqual,
            Token::Greater => TokenModel::Greater,
            Token::GreaterEqual => TokenModel::GreaterEqual,
            Token::Slash => TokenModel::Slash,
            Token::String(s) => TokenModel::String(s@),
            Token::Number(s) => TokenModel::Number(s@),
            Token::And => TokenModel::And,
            Token::Class => TokenModel::Class,
            Token::Else => TokenModel::Else,
            Token::False => TokenModel::False,
            Token::For => TokenModel::For,
            Token::Fun => TokenModel::Fun,
            Token::If => TokenModel::If,
            Token::Nil => TokenModel::Nil,
            Token::Or => TokenModel::Or,
            Token::Print => TokenModel::Print,
            Token::Return => TokenModel::Return,
            Token::Super => TokenModel::Super,
            Token::This => TokenModel::This,
            Token::True => TokenModel::True,
            Token::Var => TokenModel::Var,
            Token::While => TokenModel::While,
            Token::Identifier(s) => TokenModel::Identifier(s@),
            Token::EOF => TokenModel::EOF,
        }
    }
}

/// The models of a token sequence, token by token.
pub open spec fn tokens_model(ts: Seq<Token>) -> Seq<TokenModel> {
    ts.map_values(|t: Token| t@)
}

/// A lexical diagnostic. Lexical errors are not fatal to scanning: the
/// scanner records the diagnostic, emits no token for the malformed
/// construct and continues. Each diagnostic carries the line on which the
/// construct started; lines are counted from 1.
#[derive(Debug, Clone, Copy, PartialEq, Eq, Structural)]
pub enum LexError {
    UnterminatedString { line: usize },
    InvalidNumber { line: usize },
    UnrecognizedChar { ch: char, line: usize },
}

/// Mathematical model of a lexical diagnostic.
pub enum LexErrorModel {
    UnterminatedString { line: int },
    InvalidNumber { line: int },
    UnrecognizedChar { ch: char, line: int },
}

impl View for LexError {
    type V = LexErrorModel;

    open spec fn view(&self) -> LexErrorModel {
        match self {
            LexError::UnterminatedString { line } => LexErrorModel::UnterminatedString {
                line: *line as int,
            },
            LexError::InvalidNumber { line } => LexErrorModel::InvalidNumber { line: *line as int },
            LexError::UnrecognizedChar { ch, line } => LexErrorModel::UnrecognizedChar {
                ch: *ch,
                line: *line as int,
            },
        }
    }
}

/// The models of a diagnostic sequence, diagnostic by diagnostic.
pub open spec fn errors_model(es: Seq<LexError>) -> Seq<LexErrorModel> {
    es.map_values(|e: LexError| e@)
}

/// True of the characters that alone form a fixed single-character token.
pub open spec fn is_single_punct(c: char) -> bool {
    c == '(' || c == ')' || c == '{' || c == '}' || c == ',' || c == '.' || c == '-' || c == '+'
        || c == ';' || c == '*'
}

/// The token of a fixed single-character punctuation character.
pub open spec fn punct_token(c: char) -> TokenModel
    recommends
        is_single_punct(c),
{
    if c == '(' {
        TokenModel::LeftParen
    } else if c == ')' {
        TokenModel::RightParen
    } else if c == '{' {
        TokenModel::LeftBrace
    } else if c == '}' {
        TokenModel::RightBrace
    } else if c == ',' {
        TokenModel::Comma
    } else if c == '.' {
        TokenModel::Period
    } else if c == '-' {
        TokenModel::Minus
    } else if c == '+' {
        TokenModel::Plus
    } else if c == ';' {
        TokenModel::Semicolon
    } else {
        TokenModel::Star
    }
}

/// True of decimal digits.
pub open spec fn is_digit_char(c: char) -> bool {
    '0' <= c && c <= '9'
}

/// True of the characters that may stand in an identifier or keyword:
/// ASCII letters and the underscore.
pub open spec fn is_identifier_char(c: char) -> bool {
    ('a' <= c && c <= 'z') || ('A' <= c && c <= 'Z') || c == '_'
}

/// True of the characters that may validly follow a numeric literal:
/// ASCII whitespace, `,`, `)` or `;`.
pub open spec fn is_number_terminator(c: char) -> bool {
    c == ' ' || c == '\t' || c == '\n' || c == '\r' || c == '\u{000C}' || c == ',' || c == ')'
        || c == ';'
}

/// Length of the maximal run of decimal digits starting at `i`.
pub open spec fn digit_run(s: Seq<char>, i: int) -> int
    decreases s.len() - i,
    when 0 <= i <= s.len()
{
    if i == s.len() || !is_digit_char(s[i]) {
        0
    } else {
        1 + digit_run(s, i + 1)
    }
}

/// Length of the maximal run of identifier characters starting at `i`.
pub open spec fn identifier_run(s: Seq<char>, i: int) -> int
    decreases s.len() - i,
    when 0 <= i <= s.len()
{
    if i == s.len() || !is_identifier_char(s[i]) {
        0
    } else {
        1 + identifier_run(s, i + 1)
    }
}

/// Length of the maximal run of characters other than a newline starting
/// at `i`.
pub open spec fn non_newline_run(s: Seq<char>, i: int) -> int
    decreases s.len() - i,
    when 0 <= i <= s.len()
{
    if i == s.len() || s[i] == '\n' {
        0
    } else {
        1 + non_newline_run(s, i + 1)
    }
}

/// Length of the maximal run of characters other than a double quote
/// starting at `i`.
pub open spec fn non_quote_run(s: Seq<char>, i: int) -> int
    decreases s.len() - i,
    when 0 <= i <= s.len()
{
    if i == s.len() || s[i] == '"' {
        0
    } else {
        1 + non_quote_run(s, i + 1)
    }
}

pub proof fn lemma_digit_run_bounds(s: Seq<char>, i: int)
    requires
        0 <= i <= s.len(),
    ensures
        0 <= digit_run(s, i) <= s.len() - i,
    decreases s.len() - i,
{
    if i < s.len() && is_digit_char(s[i]) {
        lemma_digit_run_bounds(s, i + 1);
    }
}

pub proof fn lemma_identifier_run_bounds(s: Seq<char>, i: int)
    requires
        0 <= i <= s.len(),
    ensures
        0 <= identifier_run(s, i) <= s.len() - i,
    decreases s.len() - i,
{
    if i < s.len() && is_identifier_char(s[i]) {
        lemma_identifier_run_bounds(s, i + 1);
    }
}

pub proof fn lemma_non_newline_run_bounds(s: Seq<char>, i: int)
    requires
        0 <= i <= s.len(),
    ensures
        0 <= non_newline_run(s, i) <= s.len() - i,
    decreases s.len() - i,
{
    if i < s.len() && s[i] != '\n' {
        lemma_non_newline_run_bounds(s, i + 1);
    }
}

pub proof fn lemma_non_quote_run_bounds(s: Seq<char>, i: int)
    requires
        0 <= i <= s.len(),
    ensures
        0 <= non_quote_run(s, i) <= s.len() - i,
    decreases s.len() - i,
{
    if i < s.len() && s[i] != '"' {
        lemma_non_quote_run_bounds(s, i + 1);
    }
}

/// Number of newline characters in a character sequence.
pub open spec fn newline_count(s: Seq<char>) -> int
    decreases s.len(),
{
    if s.len() == 0 {
        0
    } else {
        newline_count(s.drop_last()) + (if s.last() == '\n' {
            1int
        } else {
            0int
        })
    }
}

pub proof fn lemma_newline_count_bounds(s: Seq<char>)
    ensures
        0 <= newline_count(s) <= s.len(),
    decreases s.len(),
{
    if s.len() > 0 {
        lemma_newline_count_bounds(s.drop_last());
    }
}

pub proof fn lemma_newline_count_concat(a: Seq<char>, b: Seq<char>)
    ensures
        newline_count(a + b) == newline_count(a) + newline_count(b),
    decreases b.len(),
{
    if b.len() == 0 {
        assert(a + b =~= a);
    } else {
        assert((a + b).drop_last() =~= a + b.drop_last());
        lemma_newline_count_concat(a, b.drop_last());
        assert((a + b).last() == b.last());
    }
}

/// The text of a keyword resolves to its keyword token; any other
/// identifier text resolves to an identifier token carrying the text.
pub open spec fn keyword_or_identifier(text: Seq<char>) -> TokenModel {
    if text == "and"@ {
        TokenModel::And
    } else if text == "class"@ {
        TokenModel::Class
    } else if text == "else"@ {
        TokenModel::Else
    } else if text == "false"@ {
        TokenModel::False
    } else if text == "for"@ {
        TokenModel::For
    } else if text == "fun"@ {
        TokenModel::Fun
    } else if text == "if"@ {
        TokenModel::If
    } else if text == "nil"@ {
        TokenModel::Nil
    } else if text == "or"@ {
        TokenModel::Or
    } else if text == "print"@ {
        TokenModel::Print
    } else if text == "return"@ {
        TokenModel::Return
    } else if text == "super"@ {
        TokenModel::Super
    } else if text == "this"@ {
        TokenModel::This
    } else if text == "true"@ {
        TokenModel::True
    } else if text == "var"@ {
        TokenModel::Var
    } else if text == "while"@ {
        TokenModel::While
    } else {
        TokenModel::Identifier(text)
    }
}

/// What one scan step yields on a non-empty remaining input: at most one
/// token, at most one diagnostic, and the number of characters consumed
/// (always at least one).
pub struct ScanStep {
    pub token: Option<TokenModel>,
    pub diag: Option<LexErrorModel>,
    pub used: int,
}

/// One scan step on a numeric literal: a maximal digit run, optionally
/// followed by a period and a further non-empty maximal digit run, is a
/// number token provided the literal is followed by a valid terminator or
/// the end of input; anything else is an invalid-numeric-literal
/// diagnostic that consumes the malformed prefix and no token.
pub open spec fn number_step(r: Seq<char>, line: int) -> ScanStep
    recommends
        r.len() > 0 && is_digit_char(r[0]),
{
    let d = digit_run(r, 0);
    if d == r.len() {
        ScanStep { token: Option::Some(TokenModel::Number(r.take(d))), diag: Option::None, used: d }
    } else if is_number_terminator(r[d]) {
        ScanStep { token: Option::Some(TokenModel::Number(r.take(d))), diag: Option::None, used: d }
    } else if r[d] == '.' {
        if d + 1 < r.len() && is_digit_char(r[d + 1]) {
            let f = digit_run(r, d + 1);
            let end = d + 1 + f;
            if end == r.len() || is_number_terminator(r[end]) {
                ScanStep {
                    token: Option::Some(TokenModel::Number(r.take(end))),
                    diag: Option::None,
                    used: end,
                }
            } else {
                ScanStep {
                    token: Option::None,
                    diag: Option::Some(LexErrorModel::InvalidNumber { line }),
                    used: end,
                }
            }
        } else {
            ScanStep {
                token: Option::None,
                diag: Option::Some(LexErrorModel::InvalidNumber { line }),
                used: d + 1,
            }
        }
    } else {
        ScanStep {
            token: Option::None,
            diag: Option::Some(LexErrorModel::InvalidNumber { line }),
            used: d,
        }
    }
}

/// One scan step: dispatch on the first remaining character, as the
/// scanner does on its current character.
pub open spec fn scan_step(r: Seq<char>, line: int) -> ScanStep
    recommends
        r.len() > 0,
{
    let c = r[0];
    if is_single_punct(c) {
        ScanStep { token: Option::Some(punct_token(c)), diag: Option::None, used: 1 }
    } else if c == '!' {
        if r.len() >= 2 && r[1] == '=' {
            ScanStep { token: Option::Some(TokenModel::BangEqual), diag: Option::None, used: 2 }
        } else {
            ScanStep { token: Option::Some(TokenModel::Bang), diag: Option::None, used: 1 }
        }
    } else if c == '=' {
        if r.len() >= 2 && r[1] == '=' {
            ScanStep { token: Option::Some(TokenModel::EqualEqual), diag: Option::None, used: 2 }
        } else {
            ScanStep { token: Option::Some(TokenModel::Equal), diag: Option::None, used: 1 }
        }
    } else if c == '<' {
        if r.len() >= 2 && r[1] == '=' {
            ScanStep { token: Option::Some(TokenModel::LessEqual), diag: Option::None, used: 2 }
        } else {
            ScanStep { token: Option::Some(TokenModel::Less), diag: Option::None, used: 1 }
        }
    } else if c == '>' {
        if r.len() >= 2 && r[1] == '=' {
            ScanStep { token: Option::Some(TokenModel::GreaterEqual), diag: Option::None, used: 2 }
        } else {
            ScanStep { token: Option::Some(TokenModel::Greater), diag: Option::None, used: 1 }
        }
    } else if c == '/' {
        if r.len() >= 2 && r[1] == '/' {
            // A comment: the rest of the line is discarded, together with
            // the newline that ends it.
            let n = non_newline_run(r, 0);
            ScanStep {
                token: Option::None,
                diag: Option::None,
                used: if n == r.len() {
                    n
                } else {
                    n + 1
                },
            }
        } else {
            ScanStep { token: Option::Some(TokenModel::Slash), diag: Option::None, used: 1 }
        }
    } else if c == '"' {
        let k = non_quote_run(r, 1);
        if 1 + k < r.len() {
            ScanStep {
                token: Option::Some(TokenModel::String(r.subrange(1, 1 + k))),
                diag: Option::None,
                used: k + 2,
            }
        } else {
            // No closing quote before the end of input: the rest of the
            // input is consumed and no string token is emitted.
            ScanStep {
                token: Option::None,
                diag: Option::Some(LexErrorModel::UnterminatedString { line }),
                used: r.len() as int,
            }
        }
    } else if is_digit_char(c) {
        number_step(r, line)
    } else if is_identifier_char(c) {
        let k = identifier_run(r, 0);
        ScanStep {
            token: Option::Some(keyword_or_identifier(r.take(k))),
            diag: Option::None,
            used: k,
        }
    } else if c == ' ' || c == '\t' || c == '\r' || c == '\n' {
        ScanStep { token: Option::None, diag: Option::None, used: 1 }
    } else {
        ScanStep {
            token: Option::None,
            diag: Option::Some(LexErrorModel::UnrecognizedChar { ch: c, line }),
            used: 1,
        }
    }
}

pub proof fn lemma_scan_step_bounds(r: Seq<char>, line: int)
    requires
        r.len() > 0,
    ensures
        1 <= scan_step(r, line).used <= r.len(),
{
    let c = r[0];
    if is_single_punct(c) {
    } else if c == '!' || c == '=' || c == '<' || c == '>' {
    } else if c == '/' {
        if r.len() >= 2 && r[1] == '/' {
            lemma_non_newline_run_bounds(r, 0);
        }
    } else if c == '"' {
        lemma_non_quote_run_bounds(r, 1);
    } else if is_digit_char(c) {
        lemma_digit_run_bounds(r, 0);
        lemma_digit_run_bounds(r, 1);
        let d = digit_run(r, 0);
        if d < r.len() && !is_number_terminator(r[d]) && r[d] == '.' && d + 1 < r.len()
            && is_digit_char(r[d + 1]) {
            lemma_digit_run_bounds(r, d + 1);
        }
    } else if is_identifier_char(c) {
        lemma_identifier_run_bounds(r, 0);
        lemma_identifier_run_bounds(r, 1);
    } else {
    }
}

/// What scanning all of a remaining input yields: the tokens in order,
/// ending with exactly one end-of-input token, and the diagnostics in
/// order. `line` is the current line count, counted from 1 at the start
/// of the input and advanced by each newline consumed.
pub struct ScanOut {
    pub tokens: Seq<TokenModel>,
    pub errors: Seq<LexErrorModel>,
}

/// The sequence an optional value contributes: one element or none.
pub open spec fn opt_seq<A>(o: Option<A>) -> Seq<A> {
    match o {
        Option::Some(a) => seq![a],
        Option::None => seq![],
    }
}

/// The complete scan of a remaining input: step after step until the
/// input is exhausted, then the end-of-input token.
pub open spec fn scan_chars(r: Seq<char>, line: int) -> ScanOut
    decreases r.len(),
    via scan_chars_decreases
{
    if r.len() == 0 {
        ScanOut { tokens: seq![TokenModel::EOF], errors: seq![] }
    } else {
        let st = scan_step(r, line);
        let rest = scan_chars(r.skip(st.used), line + newline_count(r.take(st.used)));
        ScanOut {
            tokens: opt_seq(st.token) + rest.tokens,
            errors: opt_seq(st.diag) + rest.errors,
        }
    }
}

#[via_fn]
proof fn scan_chars_decreases(r: Seq<char>, line: int) {
    if r.len() > 0 {
        lemma_scan_step_bounds(r, line);
    }
}

/// A scan step never yields the end-of-input token: that token is
/// appended exactly once, when the input is exhausted.
proof fn lemma_scan_step_not_eof(r: Seq<char>, line: int)
    requires
        r.len() > 0,
    ensures
        scan_step(r, line).token matches Option::Some(t) ==> t != TokenModel::EOF,
{
}

/// The token sequence of a complete scan ends with exactly one
/// end-of-input token: it is the last token, and no other.
pub proof fn lemma_scan_ends_with_one_eof(r: Seq<char>, line: int)
    ensures
        scan_chars(r, line).tokens.len() >= 1,
        scan_chars(r, line).tokens.last() == TokenModel::EOF,
        forall|i: int|
            0 <= i < scan_chars(r, line).tokens.len() - 1 ==> scan_chars(r, line).tokens[i]
                != TokenModel::EOF,
    decreases r.len(),
{
    if r.len() > 0 {
        let st = scan_step(r, line);
        lemma_scan_step_bounds(r, line);
        lemma_scan_step_not_eof(r, line);
        lemma_scan_ends_with_one_eof(r.skip(st.used), line + newline_count(r.take(st.used)));
    }
}

/// The tokens of a purely punctuation input: one per character.
pub open spec fn punct_tokens(cs: Seq<char>) -> Seq<TokenModel> {
    cs.map_values(|c: char| punct_token(c))
}

/// An input consisting solely of fixed single-character punctuation scans
/// to exactly its punctuation tokens in order, followed by the
/// end-of-input token, with no diagnostics and nothing dropped.
pub proof fn lemma_punctuation_scan(cs: Seq<char>, line: int)
    requires
        forall|i: int| 0 <= i < cs.len() ==> is_single_punct(#[trigger] cs[i]),
    ensures
        scan_chars(cs, line).tokens == punct_tokens(cs) + seq![TokenModel::EOF],
        scan_chars(cs, line).errors == Seq::<LexErrorModel>::empty(),
    decreases cs.len(),
{
    if cs.len() == 0 {
        assert(punct_tokens(cs) + seq![TokenModel::EOF] =~= seq![TokenModel::EOF]);
    } else {
        assert(is_single_punct(cs[0]));
        lemma_take_one_newlines(cs);
        let rest = cs.skip(1);
        assert(forall|i: int| 0 <= i < rest.len() ==> is_single_punct(#[trigger] rest[i]));
        lemma_punctuation_scan(rest, line);
        assert(scan_chars(cs, line).tokens =~= punct_tokens(cs) + seq![TokenModel::EOF]);
        assert(scan_chars(cs, line).errors =~= Seq::<LexErrorModel>::empty());
    }
}

proof fn lemma_tokens_model_push(ts: Seq<Token>, t: Token)
    ensures
        tokens_model(ts.push(t)) == tokens_model(ts) + seq![t@],
{
    assert(tokens_model(ts.push(t)) =~= tokens_model(ts) + seq![t@]);
}

proof fn lemma_errors_model_push(es: Seq<LexError>, e: LexError)
    ensures
        errors_model(es.push(e)) == errors_model(es) + seq![e@],
{
    assert(errors_model(es.push(e)) =~= errors_model(es) + seq![e@]);
}

proof fn lemma_advance_chars(chars: Seq<char>, p: int, n: int)
    requires
        0 <= p,
        0 <= n,
        p + n <= chars.len(),
    ensures
        newline_count(chars.take(p + n)) == newline_count(chars.take(p)) + newline_count(
            chars.skip(p).take(n),
        ),
{
    assert(chars.take(p + n) =~= chars.take(p) + chars.skip(p).take(n));
    lemma_newline_count_concat(chars.take(p), chars.skip(p).take(n));
}

proof fn lemma_newline_count_step(s: Seq<char>, p: int)
    requires
        0 <= p < s.len(),
    ensures
        newline_count(s.take(p + 1)) == newline_count(s.take(p)) + (if s[p] == '\n' {
            1int
        } else {
            0int
        }),
{
    assert(s.take(p + 1).drop_last() =~= s.take(p));
    assert(s.take(p + 1).last() == s[p]);
}

proof fn lemma_take_one_newlines(r: Seq<char>)
    requires
        r.len() >= 1,
    ensures
        newline_count(r.take(1)) == (if r[0] == '\n' {
            1int
        } else {
            0int
        }),
{
    assert(newline_count(Seq::<char>::empty()) == 0);
    assert(r.take(1).drop_last() =~= Seq::<char>::empty());
    assert(r.take(1).last() == r[0]);
}

proof fn lemma_take_two_newlines(r: Seq<char>)
    requires
        r.len() >= 2,
    ensures
        newline_count(r.take(2)) == (if r[0] == '\n' {
            1int
        } else {
            0int
        }) + (if r[1] == '\n' {
            1int
        } else {
            0int
        }),
{
    assert(r.take(2).drop_last() =~= r.take(1));
    assert(r.take(2).last() == r[1]);
    lemma_take_one_newlines(r);
}

/// Relies on `String::push`: appends the given character to the end of
/// the string.
#[verifier::external_body]
fn push_char(s: &mut String, c: char)
    ensures
        final(s)@ == old(s)@ + seq![c],
{
    s.push(c);
}

/// Resolves identifier text against the fixed keyword table: the matching
/// keyword token if the text is reserved, otherwise an identifier token
/// carrying the text.
fn identifier_or_keyword(text: String) -> (t: Token)
    ensures
        t@ == keyword_or_identifier(text@),
{
    if text == String::from_str("and") {
        Token::And
    } else if text == String::from_str("class") {
        Token::Class
    } else if text == String::from_str("else") {
        Token::Else
    } else if text == String::from_str("false") {
        Token::False
    } else if text == String::from_str("for") {
        Token::For
    } else if text == String::from_str("fun") {
        Token::Fun
    } else if text == String::from_str("if") {
        Token::If
    } else if text == String::from_str("nil") {
        Token::Nil
    } else if text == String::from_str("or") {
        Token::Or
    } else if text == String::from_str("print") {
        Token::Print
    } else if text == String::from_str("return") {
        Token::Return
    } else if text == String::from_str("super") {
        Token::Super
    } else if text == String::from_str("this") {
        Token::This
    } else if text == String::from_str("true") {
        Token::True
    } else if text == String::from_str("var") {
        Token::Var
    } else if text == String::from_str("while") {
        Token::While
    } else {
        Token::Identifier(text)
    }
}

fn is_digit_exec(c: char) -> (b: bool)
    ensures
        b == is_digit_char(c),
{
    let u = c as u32;
    48 <= u && u <= 57
}

fn is_identifier_char_exec(c: char) -> (b: bool)
    ensures
        b == is_identifier_char(c),
{
    let u = c as u32;
    (97 <= u && u <= 122) || (65 <= u && u <= 90) || c == '_'
}

fn is_number_terminator_exec(c: char) -> (b: bool)
    ensures
        b == is_number_terminator(c),
{
    c == ' ' || c == '\t' || c == '\n' || c == '\r' || c == '\u{000C}' || c == ',' || c == ')'
        || c == ';'
}

/// The lexical scanner: a cursor over the source characters, the tokens
/// and diagnostics accumulated so far, and a running line count for
/// diagnostics.
pub struct Scanner {
    pub tokens: Vec<Token>,
    pub errors: Vec<LexError>,
    pub chars: Vec<char>,
    pub pos: usize,
    pub current_line: usize,
}

impl Scanner {
    /// The characters not yet consumed.
    pub open spec fn remaining(&self) -> Seq<char> {
        self.chars@.skip(self.pos as int)
    }

    /// Well-formed: the cursor is within the source, the line count is 1
    /// plus the newlines consumed so far, and the source is short enough
    /// that the line count cannot overflow.
    pub open spec fn wf(&self) -> bool {
        &&& self.pos <= self.chars@.len()
        &&& self.chars@.len() < usize::MAX
        &&& self.current_line as int == 1 + newline_count(self.chars@.take(self.pos as int))
    }

    /// A scanner over the given characters, with nothing consumed yet and
    /// the line count at 1.
    pub fn new(chars: Vec<char>) -> (s: Scanner)
        requires
            chars@.len() < usize::MAX,
        ensures
            s.wf(),
            s.chars@ == chars@,
            s.pos == 0,
            s.current_line == 1,
            s.tokens@ == Seq::<Token>::empty(),
            s.errors@ == Seq::<LexError>::empty(),
    {
        let s = Scanner {
            tokens: Vec::new(),
            errors: Vec::new(),
            chars,
            pos: 0,
            current_line: 1,
        };
        proof {
            assert(s.chars@.take(0) =~= Seq::<char>::empty());
        }
        s
    }

    /// Scans the remaining input to its end: every token and diagnostic
    /// that the mathematical scan yields is appended in order, and exactly
    /// one end-of-input token is appended last, whether or not lexical
    /// errors occurred.
    pub fn scan_tokens(&mut self)
        requires
            old(self).wf(),
        ensures
            final(self).wf(),
            final(self).chars@ == old(self).chars@,
            final(self).pos == final(self).chars@.len(),
            tokens_model(final(self).tokens@) == tokens_model(old(self).tokens@) + scan_chars(
                old(self).remaining(),
                old(self).current_line as int,
            ).tokens,
            errors_model(final(self).errors@) == errors_model(old(self).errors@) + scan_chars(
                old(self).remaining(),
                old(self).current_line as int,
            ).errors,
    {
        while self.pos < self.chars.len()
            invariant
                self.wf(),
                self.chars@ == old(self).chars@,
                tokens_model(self.tokens@) + scan_chars(
                    self.remaining(),
                    self.current_line as int,
                ).tokens == tokens_model(old(self).tokens@) + scan_chars(
                    old(self).remaining(),
                    old(self).current_line as int,
                ).tokens,
                errors_model(self.errors@) + scan_chars(
                    self.remaining(),
                    self.current_line as int,
                ).errors == errors_model(old(self).errors@) + scan_chars(
                    old(self).remaining(),
                    old(self).current_line as int,
                ).errors,
            decreases self.chars@.len() - self.pos,
        {
            let ghost pre = *self;
            let ghost r = self.remaining();
            let ghost line = self.current_line as int;
            self.scan_token();
            proof {
                let st = scan_step(r, line);
                lemma_scan_step_bounds(r, line);
                assert(self.remaining() =~= r.skip(st.used));
                assert(r.take(st.used) =~= pre.chars@.subrange(
                    pre.pos as int,
                    pre.pos + st.used,
                ));
                assert(scan_chars(r, line).tokens =~= opt_seq(st.token) + scan_chars(
                    r.skip(st.used),
                    line + newline_count(r.take(st.used)),
                ).tokens);
                assert(scan_chars(r, line).errors =~= opt_seq(st.diag) + scan_chars(
                    r.skip(st.used),
                    line + newline_count(r.take(st.used)),
                ).errors);
                assert(tokens_model(self.tokens@) + scan_chars(
                    self.remaining(),
                    self.current_line as int,
                ).tokens =~= (tokens_model(pre.tokens@) + opt_seq(st.token)) + scan_chars(
                    r.skip(st.used),
                    line + newline_count(r.take(st.used)),
                ).tokens);
                assert((tokens_model(pre.tokens@) + opt_seq(st.token)) + scan_chars(
                    r.skip(st.used),
                    line + newline_count(r.take(st.used)),
                ).tokens =~= tokens_model(pre.tokens@) + scan_chars(r, line).tokens);
                assert(errors_model(self.errors@) + scan_chars(
                    self.remaining(),
                    self.current_line as int,
                ).errors =~= (errors_model(pre.errors@) + opt_seq(st.diag)) + scan_chars(
                    r.skip(st.used),
                    line + newline_count(r.take(st.used)),
                ).errors);
                assert((errors_model(pre.errors@) + opt_seq(st.diag)) + scan_chars(
                    r.skip(st.used),
                    line + newline_count(r.take(st.used)),
                ).errors =~= errors_model(pre.errors@) + scan_chars(r, line).errors);
            }
        }
        let ghost before_eof = *self;
        self.tokens.push(Token::EOF);
        proof {
            assert(before_eof.remaining().len() == 0);
            lemma_tokens_model_push(before_eof.tokens@, Token::EOF);
            assert(tokens_model(self.tokens@) =~= tokens_model(before_eof.tokens@) + scan_chars(
                before_eof.remaining(),
                before_eof.current_line as int,
            ).tokens);
            assert(scan_chars(before_eof.remaining(), before_eof.current_line as int).errors
                =~= Seq::<LexErrorModel>::empty());
            assert(errors_model(self.errors@) =~= errors_model(before_eof.errors@) + scan_chars(
                before_eof.remaining(),
                before_eof.current_line as int,
            ).errors);
        }
    }

    /// Appends one token to the token sequence.
    fn add_token(&mut self, token: Token)
        ensures
            final(self).tokens@ == old(self).tokens@.push(token),
            final(self).errors@ == old(self).errors@,
            final(self).chars@ == old(self).chars@,
            final(self).pos == old(self).pos,
            final(self).current_line == old(self).current_line,
    {
        self.tokens.push(token);
    }

    /// Appends one diagnostic to the diagnostic sequence.
    fn add_error(&mut self, error: LexError)
        ensures
            final(self).errors@ == old(self).errors@.push(error),
            final(self).tokens@ == old(self).tokens@,
            final(self).chars@ == old(self).chars@,
            final(self).pos == old(self).pos,
            final(self).current_line == old(self).current_line,
    {
        self.errors.push(error);
    }

    /// Discards characters to the end of the current line, together with
    /// the newline that ends it, or to the end of input if no newline
    /// follows.
    fn consume_rest_of_line(&mut self)
        requires
            old(self).wf(),
        ensures
            final(self).wf(),
            final(self).chars@ == old(self).chars@,
            final(self).tokens@ == old(self).tokens@,
            final(self).errors@ == old(self).errors@,
            ({
                let r = old(self).remaining();
                let n = non_newline_run(r, 0);
                final(self).pos as int == old(self).pos + (if n == r.len() {
                    n
                } else {
                    n + 1
                })
            }),
    {
        while self.pos < self.chars.len() && self.chars[self.pos] != '\n'
            invariant
                self.wf(),
                self.chars@ == old(self).chars@,
                self.tokens@ == old(self).tokens@,
                self.errors@ == old(self).errors@,
                self.current_line == old(self).current_line,
                old(self).pos <= self.pos <= self.chars@.len(),
                non_newline_run(old(self).remaining(), 0) == (self.pos - old(self).pos)
                    + non_newline_run(old(self).remaining(), self.pos - old(self).pos),
            decreases self.chars@.len() - self.pos,
        {
            proof {
                assert(old(self).remaining()[self.pos - old(self).pos] == self.chars@[self.pos as int]);
                lemma_newline_count_step(self.chars@, self.pos as int);
            }
            self.pos = self.pos + 1;
        }
        proof {
            assert(non_newline_run(old(self).remaining(), self.pos - old(self).pos) == 0);
        }
        if self.pos < self.chars.len() {
            proof {
                assert(old(self).remaining()[self.pos - old(self).pos] == self.chars@[self.pos as int]);
                lemma_newline_count_step(self.chars@, self.pos as int);
                lemma_newline_count_bounds(self.chars@.take(self.pos as int));
            }
            self.pos = self.pos + 1;
            self.current_line = self.current_line + 1;
        }
    }

    /// Reads a string literal; the opening quote is still the current
    /// character. On a matching closing quote, yields the raw inner text
    /// with both quotes consumed; when the input ends without a closing
    /// quote, consumes the rest of the input and yields nothing.
    fn get_string_literal(&mut self) -> (res: Option<String>)
        requires
            old(self).wf(),
            old(self).pos < old(self).chars@.len(),
            old(self).chars@[old(self).pos as int] == '"',
        ensures
            final(self).wf(),
            final(self).chars@ == old(self).chars@,
            final(self).tokens@ == old(self).tokens@,
            final(self).errors@ == old(self).errors@,
            ({
                let r = old(self).remaining();
                let k = non_quote_run(r, 1);
                match res {
                    Option::Some(s) => 1 + k < r.len() && s@ == r.subrange(1, 1 + k) && final(self).pos as int == old(self).pos + k + 2,
                    Option::None => 1 + k >= r.len() && final(self).pos == final(self).chars@.len(),
                }
            }),
    {
        proof {
            lemma_newline_count_step(self.chars@, self.pos as int);
        }
        self.pos = self.pos + 1;
        let mut text = String::new();
        while self.pos < self.chars.len() && self.chars[self.pos] != '"'
            invariant
                self.wf(),
                self.chars@ == old(self).chars@,
                self.tokens@ == old(self).tokens@,
                self.errors@ == old(self).errors@,
                old(self).pos + 1 <= self.pos <= self.chars@.len(),
                text@ == self.chars@.subrange(old(self).pos + 1, self.pos as int),
                non_quote_run(old(self).remaining(), 1) == (self.pos - old(self).pos - 1)
                    + non_quote_run(old(self).remaining(), self.pos - old(self).pos),
            decreases self.chars@.len() - self.pos,
        {
            let ch = self.chars[self.pos];
            proof {
                assert(old(self).remaining()[self.pos - old(self).pos] == ch);
                lemma_newline_count_step(self.chars@, self.pos as int);
                lemma_newline_count_bounds(self.chars@.take(self.pos as int));
            }
            if ch == '\n' {
                self.current_line = self.current_line + 1;
            }
            push_char(&mut text, ch);
            proof {
                assert(text@ =~= self.chars@.subrange(old(self).pos + 1, self.pos + 1));
            }
            self.pos = self.pos + 1;
        }
        proof {
            assert(non_quote_run(old(self).remaining(), self.pos - old(self).pos) == 0);
        }
        if self.pos < self.chars.len() {
            proof {
                assert(old(self).remaining()[self.pos - old(self).pos] == self.chars@[self.pos as int]);
                lemma_newline_count_step(self.chars@, self.pos as int);
                assert(text@ =~= old(self).remaining().subrange(
                    1,
                    1 + non_quote_run(old(self).remaining(), 1),
                ));
            }
            self.pos = self.pos + 1;
            Option::Some(text)
        } else {
            Option::None
        }
    }

    /// Reads a numeric literal; the first digit is still the current
    /// character. A maximal digit run, optionally followed by a period
    /// and a further non-empty digit run, yields the literal's raw text
    /// provided the next character is a valid terminator or the input
    /// ends; otherwise the malformed prefix is consumed and nothing is
    /// yielded.
    fn get_numeric_literal(&mut self) -> (res: Option<String>)
        requires
            old(self).wf(),
            old(self).pos < old(self).chars@.len(),
            is_digit_char(old(self).chars@[old(self).pos as int]),
        ensures
            final(self).wf(),
            final(self).chars@ == old(self).chars@,
            final(self).tokens@ == old(self).tokens@,
            final(self).errors@ == old(self).errors@,
            final(self).current_line == old(self).current_line,
            ({
                let r = old(self).remaining();
                let st = number_step(r, old(self).current_line as int);
                &&& final(self).pos as int == old(self).pos + st.used
                &&& match res {
                    Option::Some(s) => st.token == Option::Some(TokenModel::Number(s@))
                        && st.diag is None,
                    Option::None => st.token is None && st.diag == Option::Some(
                        LexErrorModel::InvalidNumber { line: old(self).current_line as int },
                    ),
                }
            }),
    {
        let ghost r = old(self).remaining();
        let mut text = String::new();
        while self.pos < self.chars.len() && is_digit_exec(self.chars[self.pos])
            invariant
                self.wf(),
                self.chars@ == old(self).chars@,
                self.tokens@ == old(self).tokens@,
                self.errors@ == old(self).errors@,
                self.current_line == old(self).current_line,
                old(self).pos <= self.pos <= self.chars@.len(),
                r == old(self).remaining(),
                text@ == self.chars@.subrange(old(self).pos as int, self.pos as int),
                digit_run(r, 0) == (self.pos - old(self).pos) + digit_run(
                    r,
                    self.pos - old(self).pos,
                ),
            decreases self.chars@.len() - self.pos,
        {
            let ch = self.chars[self.pos];
            proof {
                assert(r[self.pos - old(self).pos] == ch);
                lemma_newline_count_step(self.chars@, self.pos as int);
            }
            push_char(&mut text, ch);
            proof {
                assert(text@ =~= self.chars@.subrange(old(self).pos as int, self.pos + 1));
            }
            self.pos = self.pos + 1;
        }
        proof {
            assert(digit_run(r, self.pos - old(self).pos) == 0);
            assert(text@ =~= r.take(self.pos - old(self).pos));
        }
        let ghost d: int = self.pos - old(self).pos;
        if self.pos == self.chars.len() {
            return Option::Some(text);
        }
        let c1 = self.chars[self.pos];
        proof {
            assert(r[d] == c1);
        }
        if is_number_terminator_exec(c1) {
            return Option::Some(text);
        }
        if c1 != '.' {
            return Option::None;
        }
        // Consume the period; at least one digit must follow it.
        proof {
            lemma_newline_count_step(self.chars@, self.pos as int);
        }
        push_char(&mut text, '.');
        self.pos = self.pos + 1;
        if self.pos == self.chars.len() {
            return Option::None;
        }
        if !is_digit_exec(self.chars[self.pos]) {
            proof {
                assert(r[d + 1] == self.chars@[self.pos as int]);
            }
            return Option::None;
        }
        proof {
            assert(r[d + 1] == self.chars@[self.pos as int]);
            assert(text@ =~= self.chars@.subrange(old(self).pos as int, self.pos as int));
        }
        while self.pos < self.chars.len() && is_digit_exec(self.chars[self.pos])
            invariant
                self.wf(),
                self.chars@ == old(self).chars@,
                self.tokens@ == old(self).tokens@,
                self.errors@ == old(self).errors@,
                self.current_line == old(self).current_line,
                0 <= d,
                old(self).pos + d + 1 <= self.pos <= self.chars@.len(),
                r == old(self).remaining(),
                d == digit_run(r, 0),
                d + 1 < r.len() && r[d] == '.' && is_digit_char(r[d + 1]),
                text@ == self.chars@.subrange(old(self).pos as int, self.pos as int),
                digit_run(r, d + 1) == (self.pos - old(self).pos - d - 1) + digit_run(
                    r,
                    self.pos - old(self).pos,
                ),
            decreases self.chars@.len() - self.pos,
        {
            let ch = self.chars[self.pos];
            proof {
                assert(r[self.pos - old(self).pos] == ch);
                lemma_newline_count_step(self.chars@, self.pos as int);
            }
            push_char(&mut text, ch);
            proof {
                assert(text@ =~= self.chars@.subrange(old(self).pos as int, self.pos + 1));
            }
            self.pos = self.pos + 1;
        }
        proof {
            assert(digit_run(r, self.pos - old(self).pos) == 0);
            assert(text@ =~= r.take(self.pos - old(self).pos));
        }
        if self.pos == self.chars.len() {
            return Option::Some(text);
        }
        proof {
            assert(r[self.pos - old(self).pos] == self.chars@[self.pos as int]);
        }
        if is_number_terminator_exec(self.chars[self.pos]) {
            return Option::Some(text);
        }
        Option::None
    }

    /// Reads an identifier or keyword text; the first identifier
    /// character is still the current character. Consumes the maximal
    /// run of identifier characters and yields its text.
    fn get_identifier(&mut self) -> (text: String)
        requires
            old(self).wf(),
            old(self).pos < old(self).chars@.len(),
            is_identifier_char(old(self).chars@[old(self).pos as int]),
        ensures
            final(self).wf(),
            final(self).chars@ == old(self).chars@,
            final(self).tokens@ == old(self).tokens@,
            final(self).errors@ == old(self).errors@,
            final(self).current_line == old(self).current_line,
            ({
                let r = old(self).remaining();
                let k = identifier_run(r, 0);
                final(self).pos as int == old(self).pos + k && text@ == r.take(k)
            }),
    {
        let ghost r = old(self).remaining();
        let mut text = String::new();
        while self.pos < self.chars.len() && is_identifier_char_exec(self.chars[self.pos])
            invariant
                self.wf(),
                self.chars@ == old(self).chars@,
                self.tokens@ == old(self).tokens@,
                self.errors@ == old(self).errors@,
                self.current_line == old(self).current_line,
                old(self).pos <= self.pos <= self.chars@.len(),
                r == old(self).remaining(),
                text@ == self.chars@.subrange(old(self).pos as int, self.pos as int),
                identifier_run(r, 0) == (self.pos - old(self).pos) + identifier_run(
                    r,
                    self.pos - old(self).pos,
                ),
            decreases self.chars@.len() - self.pos,
        {
            let ch = self.chars[self.pos];
            proof {
                assert(r[self.pos - old(self).pos] == ch);
                lemma_newline_count_step(self.chars@, self.pos as int);
            }
            push_char(&mut text, ch);
            proof {
                assert(text@ =~= self.chars@.subrange(old(self).pos as int, self.pos + 1));
            }
            self.pos = self.pos + 1;
        }
        proof {
            assert(identifier_run(r, self.pos - old(self).pos) == 0);
            assert(text@ =~= r.take(self.pos - old(self).pos));
        }
        text
    }

    /// One scan step: dispatches on the current character, appends at
    /// most one token or diagnostic, and consumes exactly the characters
    /// of the step.
    fn scan_token(&mut self)
        requires
            old(self).wf(),
            old(self).pos < old(self).chars@.len(),
        ensures
            final(self).wf(),
            final(self).chars@ == old(self).chars@,
            ({
                let st = scan_step(old(self).remaining(), old(self).current_line as int);
                &&& final(self).pos as int == old(self).pos + st.used
                &&& final(self).current_line as int == old(self).current_line as int
                    + newline_count(old(self).remaining().take(st.used))
                &&& tokens_model(final(self).tokens@) == tokens_model(old(self).tokens@) + opt_seq(
                    st.token,
                )
                &&& errors_model(final(self).errors@) == errors_model(old(self).errors@) + opt_seq(
                    st.diag,
                )
            }),
    {
        let ghost r = old(self).remaining();
        let ghost line0 = old(self).current_line as int;
        let ghost st = scan_step(r, line0);
        let c = self.chars[self.pos];
        proof {
            assert(r[0] == c);
            lemma_scan_step_bounds(r, line0);
        }
        // Fixed single-character tokens.
        let punct: Option<Token> = if c == '(' {
            Option::Some(Token::LeftParen)
        } else if c == ')' {
            Option::Some(Token::RightParen)
        } else if c == '{' {
            Option::Some(Token::LeftBrace)
        } else if c == '}' {
            Option::Some(Token::RightBrace)
        } else if c == ',' {
            Option::Some(Token::Comma)
        } else if c == '.' {
            Option::Some(Token::Period)
        } else if c == '-' {
            Option::Some(Token::Minus)
        } else if c == '+' {
            Option::Some(Token::Plus)
        } else if c == ';' {
            Option::Some(Token::Semicolon)
        } else if c == '*' {
            Option::Some(Token::Star)
        } else {
            Option::None
        };
        match punct {
            Option::Some(tok) => {
                proof {
                    lemma_tokens_model_push(self.tokens@, tok);
                }
                self.tokens.push(tok);
                self.pos = self.pos + 1;
                proof {
                    lemma_take_one_newlines(r);
                    self.wf_from_line_delta(*old(self), 1);
                    assert(tokens_model(self.tokens@) =~= tokens_model(old(self).tokens@)
                        + opt_seq(st.token));
                    assert(errors_model(self.errors@) =~= errors_model(old(self).errors@)
                        + opt_seq(st.diag));
                }
                return;
            },
            Option::None => {},
        }
        // Operators with one character of lookahead.
        if c == '!' || c == '=' || c == '<' || c == '>' {
            let two = self.pos + 1 < self.chars.len() && self.chars[self.pos + 1] == '=';
            proof {
                if self.pos + 1 < self.chars@.len() {
                    assert(r[1] == self.chars@[self.pos + 1]);
                }
            }
            let tok = if c == '!' {
                if two {
                    Token::BangEqual
                } else {
                    Token::Bang
                }
            } else if c == '=' {
                if two {
                    Token::EqualEqual
                } else {
                    Token::Equal
                }
            } else if c == '<' {
                if two {
                    Token::LessEqual
                } else {
                    Token::Less
                }
            } else {
                if two {
                    Token::GreaterEqual
                } else {
                    Token::Greater
                }
            };
            proof {
                lemma_tokens_model_push(self.tokens@, tok);
            }
            self.tokens.push(tok);
            let n: usize = if two {
                2
            } else {
                1
            };
            self.pos = self.pos + n;
            proof {
                if two {
                    lemma_take_two_newlines(r);
                } else {
                    lemma_take_one_newlines(r);
                }
                self.wf_from_line_delta(*old(self), n as int);
                assert(tokens_model(self.tokens@) =~= tokens_model(old(self).tokens@) + opt_seq(
                    st.token,
                ));
                assert(errors_model(self.errors@) =~= errors_model(old(self).errors@) + opt_seq(
                    st.diag,
                ));
            }
            return;
        }
        // Either the start of a comment or the division operator.
        if c == '/' {
            let two = self.pos + 1 < self.chars.len() && self.chars[self.pos + 1] == '/';
            proof {
                if self.pos + 1 < self.chars@.len() {
                    assert(r[1] == self.chars@[self.pos + 1]);
                }
            }
            if two {
                self.consume_rest_of_line();
                proof {
                    self.line_delta_from_wf(*old(self), st.used);
                    assert(tokens_model(self.tokens@) =~= tokens_model(old(self).tokens@)
                        + opt_seq(st.token));
                    assert(errors_model(self.errors@) =~= errors_model(old(self).errors@)
                        + opt_seq(st.diag));
                }
            } else {
                proof {
                    lemma_tokens_model_push(self.tokens@, Token::Slash);
                }
                self.tokens.push(Token::Slash);
                self.pos = self.pos + 1;
                proof {
                    lemma_take_one_newlines(r);
                    self.wf_from_line_delta(*old(self), 1);
                    assert(tokens_model(self.tokens@) =~= tokens_model(old(self).tokens@)
                        + opt_seq(st.token));
                    assert(errors_model(self.errors@) =~= errors_model(old(self).errors@)
                        + opt_seq(st.diag));
                }
            }
            return;
        }
        // String literal.
        if c == '"' {
            let starting_line = self.current_line;
            match self.get_string_literal() {
                Option::Some(text) => {
                    let ghost pre = *self;
                    let tok = Token::String(text);
                    proof {
                        lemma_tokens_model_push(pre.tokens@, tok);
                    }
                    self.add_token(tok);
                    proof {
                        self.line_delta_from_wf(*old(self), st.used);
                        assert(tokens_model(self.tokens@) =~= tokens_model(old(self).tokens@)
                            + opt_seq(st.token));
                        assert(errors_model(self.errors@) =~= errors_model(old(self).errors@)
                            + opt_seq(st.diag));
                    }
                },
                Option::None => {
                    let ghost pre = *self;
                    let err = LexError::UnterminatedString { line: starting_line };
                    proof {
                        lemma_errors_model_push(pre.errors@, err);
                    }
                    self.add_error(err);
                    proof {
                        self.line_delta_from_wf(*old(self), st.used);
                        assert(tokens_model(self.tokens@) =~= tokens_model(old(self).tokens@)
                            + opt_seq(st.token));
                        assert(errors_model(self.errors@) =~= errors_model(old(self).errors@)
                            + opt_seq(st.diag));
                    }
                },
            }
            return;
        }
        // Numeric literal.
        if is_digit_exec(c) {
            let starting_line = self.current_line;
            match self.get_numeric_literal() {
                Option::Some(text) => {
                    let ghost pre = *self;
                    let tok = Token::Number(text);
                    proof {
                        lemma_tokens_model_push(pre.tokens@, tok);
                    }
                    self.add_token(tok);
                    proof {
                        self.line_delta_from_wf(*old(self), st.used);
                        assert(tokens_model(self.tokens@) =~= tokens_model(old(self).tokens@)
                            + opt_seq(st.token));
                        assert(errors_model(self.errors@) =~= errors_model(old(self).errors@)
                            + opt_seq(st.diag));
                    }
                },
                Option::None => {
                    let ghost pre = *self;
                    let err = LexError::InvalidNumber { line: starting_line };
                    proof {
                        lemma_errors_model_push(pre.errors@, err);
                    }
                    self.add_error(err);
                    proof {
                        self.line_delta_from_wf(*old(self), st.used);
                        assert(tokens_model(self.tokens@) =~= tokens_model(old(self).tokens@)
                            + opt_seq(st.token));
                        assert(errors_model(self.errors@) =~= errors_model(old(self).errors@)
                            + opt_seq(st.diag));
                    }
                },
            }
            return;
        }
        // Identifier or reserved word.
        if is_identifier_char_exec(c) {
            let text = self.get_identifier();
            let ghost pre = *self;
            let tok = identifier_or_keyword(text);
            proof {
                lemma_tokens_model_push(pre.tokens@, tok);
            }
            self.add_token(tok);
            proof {
                self.line_delta_from_wf(*old(self), st.used);
                assert(tokens_model(self.tokens@) =~= tokens_model(old(self).tokens@) + opt_seq(
                    st.token,
                ));
                assert(errors_model(self.errors@) =~= errors_model(old(self).errors@) + opt_seq(
                    st.diag,
                ));
            }
            return;
        }
        // Whitespace is ignored; a newline advances the line count.
        if c == ' ' || c == '\t' || c == '\r' {
            self.pos = self.pos + 1;
            proof {
                lemma_take_one_newlines(r);
                self.wf_from_line_delta(*old(self), 1);
                assert(tokens_model(self.tokens@) =~= tokens_model(old(self).tokens@) + opt_seq(
                    st.token,
                ));
                assert(errors_model(self.errors@) =~= errors_model(old(self).errors@) + opt_seq(
                    st.diag,
                ));
            }
            return;
        }
        if c == '\n' {
            proof {
                lemma_newline_count_bounds(self.chars@.take(self.pos as int));
            }
            self.pos = self.pos + 1;
            self.current_line = self.current_line + 1;
            proof {
                lemma_take_one_newlines(r);
                self.wf_from_line_delta(*old(self), 1);
                assert(tokens_model(self.tokens@) =~= tokens_model(old(self).tokens@) + opt_seq(
                    st.token,
                ));
                assert(errors_model(self.errors@) =~= errors_model(old(self).errors@) + opt_seq(
                    st.diag,
                ));
            }
            return;
        }
        // An unrecognized character: a structured diagnostic, no token.
        let err = LexError::UnrecognizedChar { ch: c, line: self.current_line };
        proof {
            lemma_errors_model_push(self.errors@, err);
        }
        self.add_error(err);
        self.pos = self.pos + 1;
        proof {
            lemma_take_one_newlines(r);
            self.wf_from_line_delta(*old(self), 1);
            assert(tokens_model(self.tokens@) =~= tokens_model(old(self).tokens@) + opt_seq(
                st.token,
            ));
            assert(errors_model(self.errors@) =~= errors_model(old(self).errors@) + opt_seq(
                st.diag,
            ));
        }
    }

    /// With the cursor advanced and the line count moved by exactly the
    /// newlines among the consumed characters, the scanner is again
    /// well-formed.
    proof fn wf_from_line_delta(&self, pre: Scanner, used: int)
        requires
            pre.wf(),
            self.chars@ == pre.chars@,
            0 <= used,
            pre.pos + used <= pre.chars@.len(),
            self.pos as int == pre.pos + used,
            self.current_line as int == pre.current_line as int + newline_count(
                pre.remaining().take(used),
            ),
        ensures
            self.wf(),
    {
        lemma_advance_chars(pre.chars@, pre.pos as int, used);
    }

    /// Two well-formed scanner states over the same source differ in
    /// their line counts by exactly the newlines between their cursors.
    proof fn line_delta_from_wf(&self, pre: Scanner, used: int)
        requires
            pre.wf(),
            self.wf(),
            self.chars@ == pre.chars@,
            0 <= used,
            self.pos as int == pre.pos + used,
        ensures
            self.current_line as int == pre.current_line as int + newline_count(
                pre.remaining().take(used),
            ),
    {
        lemma_advance_chars(pre.chars@, pre.pos as int, used);
    }
}

} // verus!
