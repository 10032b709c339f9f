//! The recursive-descent expression parser. A mathematical parser over
//! token models (`spec_expression` and its precedence levels) defines the
//! one correct outcome for every token sequence; the executable `Parser`
//! is proved to return exactly that outcome.

use vstd::prelude::*;

use crate::grammar::Binary;
use crate::grammar::BinaryOp;
use crate::grammar::Expression;
use crate::grammar::ExpressionModel;
use crate::grammar::Literal;
use crate::grammar::Unary;
use crate::grammar::UnaryOp;
use crate::scanner::Token;
use crate::scanner::TokenModel;
use crate::scanner::tokens_model;

verus! {

/// A fatal parse failure: the cursor ran past the end of the tokens while
/// an operand was still expected, a grouping was not closed, or a token
/// that cannot begin an operand stood in operand position.
#[derive(Clone, Copy, Debug, PartialEq, Eq, Structural)]
pub enum ParseError {
    OutOfTokens,
    MissingRightParen,
    UnexpectedToken,
}

/// Outcome of parsing one grammar rule at a position in a token sequence:
/// either the parsed expression together with the position just past the
/// tokens it consumed, or a fatal failure.
pub enum ParseOutcome {
    Parsed { expr: ExpressionModel, next: int },
    Failed { err: ParseError },
}

/// True of the operators of the `equality` rule.
pub open spec fn is_equality_op(t: TokenModel) -> bool {
    t is EqualEqual || t is BangEqual
}

pub open spec fn equality_op(t: TokenModel) -> BinaryOp {
    if t is EqualEqual {
        BinaryOp::EqualEqual
    } else {
        BinaryOp::BangEqual
    }
}

/// True of the operators of the `comparison` rule.
pub open spec fn is_comparison_op(t: TokenModel) -> bool {
    t is Greater || t is GreaterEqual || t is Less || t is LessEqual
}

pub open spec fn comparison_op(t: TokenModel) -> BinaryOp {
    if t is Greater {
        BinaryOp::Greater
    } else if t is GreaterEqual {
        BinaryOp::GreaterEqual
    } else if t is Less {
        BinaryOp::Less
    } else {
        BinaryOp::LessEqual
    }
}

/// True of the operators of the `term` rule.
pub open spec fn is_term_op(t: TokenModel) -> bool {
    t is Plus || t is Minus
}

pub open spec fn term_op(t: TokenModel) -> BinaryOp {
    if t is Plus {
        BinaryOp::Plus
    } else {
        BinaryOp::Minus
    }
}

/// True of the operators of the `factor` rule.
pub open spec fn is_factor_op(t: TokenModel) -> bool {
    t is Slash || t is Star
}

pub open spec fn factor_op(t: TokenModel) -> BinaryOp {
    if t is Slash {
        BinaryOp::Slash
    } else {
        BinaryOp::Star
    }
}

/// True of the operators of the `unary` rule.
pub open spec fn is_unary_op(t: TokenModel) -> bool {
    t is Bang || t is Minus
}

pub open spec fn unary_op(t: TokenModel) -> UnaryOp {
    if t is Bang {
        UnaryOp::Bang
    } else {
        UnaryOp::Minus
    }
}

// The grammar, by ascending precedence:
//   expression → equality
//   equality   → comparison ( ( "==" | "!=" ) comparison )*
//   comparison → term ( ( "<" | "<=" | ">" | ">=" ) term )*
//   term       → factor ( ( "+" | "-" ) factor )*
//   factor     → unary ( ( "*" | "/" ) unary )*
//   unary      → ( "!" | "-" ) unary | primary
//   primary    → NUMBER | STRING | "true" | "false" | "nil" | "(" expression ")"
// Each binary rule folds left-to-right: `a op b op c` parses as
// `((a op b) op c)`. The `*_rest` functions are the spec-level form of
// those folds; a successful parse of any rule consumes at least one token,
// which makes every position strictly increase, so the guards on the
// recursive calls below are always taken (`lemma_parse_progress`).

pub open spec fn spec_expression(t: Seq<TokenModel>, p: int) -> ParseOutcome
    decreases t.len() - p, 6int,
    when 0 <= p <= t.len()
{
    spec_equality(t, p)
}

pub open spec fn spec_equality(t: Seq<TokenModel>, p: int) -> ParseOutcome
    decreases t.len() - p, 5int,
    when 0 <= p <= t.len()
{
    match spec_comparison(t, p) {
        ParseOutcome::Failed { err } => ParseOutcome::Failed { err },
        ParseOutcome::Parsed { expr, next } => if p < next <= t.len() {
            spec_equality_rest(t, next, expr)
        } else {
            ParseOutcome::Parsed { expr, next }
        },
    }
}

pub open spec fn spec_equality_rest(t: Seq<TokenModel>, p: int, left: ExpressionModel) -> ParseOutcome
    decreases t.len() - p, 0int,
    when 0 <= p <= t.len()
{
    if p < t.len() && is_equality_op(t[p]) {
        let op = equality_op(t[p]);
        match spec_comparison(t, p + 1) {
            ParseOutcome::Failed { err } => ParseOutcome::Failed { err },
            ParseOutcome::Parsed { expr, next } => {
                let folded = ExpressionModel::Binary(op, Box::new(left), Box::new(expr));
                if p < next <= t.len() {
                    spec_equality_rest(t, next, folded)
                } else {
                    ParseOutcome::Parsed { expr: folded, next }
                }
            },
        }
    } else {
        ParseOutcome::Parsed { expr: left, next: p }
    }
}

pub open spec fn spec_comparison(t: Seq<TokenModel>, p: int) -> ParseOutcome
    decreases t.len() - p, 4int,
    when 0 <= p <= t.len()
{
    match spec_term(t, p) {
        ParseOutcome::Failed { err } => ParseOutcome::Failed { err },
        ParseOutcome::Parsed { expr, next } => if p < next <= t.len() {
            spec_comparison_rest(t, next, expr)
        } else {
            ParseOutcome::Parsed { expr, next }
        },
    }
}

pub open spec fn spec_comparison_rest(
    t: Seq<TokenModel>,
    p: int,
    left: ExpressionModel,
) -> ParseOutcome
    decreases t.len() - p, 0int,
    when 0 <= p <= t.len()
{
    if p < t.len() && is_comparison_op(t[p]) {
        let op = comparison_op(t[p]);
        match spec_term(t, p + 1) {
            ParseOutcome::Failed { err } => ParseOutcome::Failed { err },
            ParseOutcome::Parsed { expr, next } => {
                let folded = ExpressionModel::Binary(op, Box::new(left), Box::new(expr));
                if p < next <= t.len() {
                    spec_comparison_rest(t, next, folded)
                } else {
                    ParseOutcome::Parsed { expr: folded, next }
                }
            },
        }
    } else {
        ParseOutcome::Parsed { expr: left, next: p }
    }
}

pub open spec fn spec_term(t: Seq<TokenModel>, p: int) -> ParseOutcome
    decreases t.len() - p, 3int,
    when 0 <= p <= t.len()
{
    match spec_factor(t, p) {
        ParseOutcome::Failed { err } => ParseOutcome::Failed { err },
        ParseOutcome::Parsed { expr, next } => if p < next <= t.len() {
            spec_term_rest(t, next, expr)
        } else {
            ParseOutcome::Parsed { expr, next }
        },
    }
}

pub open spec fn spec_term_rest(t: Seq<TokenModel>, p: int, left: ExpressionModel) -> ParseOutcome
    decreases t.len() - p, 0int,
    when 0 <= p <= t.len()
{
    if p < t.len() && is_term_op(t[p]) {
        let op = term_op(t[p]);
        match spec_factor(t, p + 1) {
            ParseOutcome::Failed { err } => ParseOutcome::Failed { err },
            ParseOutcome::Parsed { expr, next } => {
                let folded = ExpressionModel::Binary(op, Box::new(left), Box::new(expr));
                if p < next <= t.len() {
                    spec_term_rest(t, next, folded)
                } else {
                    ParseOutcome::Parsed { expr: folded, next }
                }
            },
        }
    } else {
        ParseOutcome::Parsed { expr: left, next: p }
    }
}

pub open spec fn spec_factor(t: Seq<TokenModel>, p: int) -> ParseOutcome
    decreases t.len() - p, 2int,
    when 0 <= p <= t.len()
{
    match spec_unary(t, p) {
        ParseOutcome::Failed { err } => ParseOutcome::Failed { err },
        ParseOutcome::Parsed { expr, next } => if p < next <= t.len() {
            spec_factor_rest(t, next, expr)
        } else {
            ParseOutcome::Parsed { expr, next }
        },
    }
}

pub open spec fn spec_factor_rest(t: Seq<TokenModel>, p: int, left: ExpressionModel) -> ParseOutcome
    decreases t.len() - p, 0int,
    when 0 <= p <= t.len()
{
    if p < t.len() && is_factor_op(t[p]) {
        let op = factor_op(t[p]);
        match spec_unary(t, p + 1) {
            ParseOutcome::Failed { err } => ParseOutcome::Failed { err },
            ParseOutcome::Parsed { expr, next } => {
                let folded = ExpressionModel::Binary(op, Box::new(left), Box::new(expr));
                if p < next <= t.len() {
                    spec_factor_rest(t, next, folded)
                } else {
                    ParseOutcome::Parsed { expr: folded, next }
                }
            },
        }
    } else {
        ParseOutcome::Parsed { expr: left, next: p }
    }
}

pub open spec fn spec_unary(t: Seq<TokenModel>, p: int) -> ParseOutcome
    decreases t.len() - p, 1int,
    when 0 <= p <= t.len()
{
    if p < t.len() && is_unary_op(t[p]) {
        let op = unary_op(t[p]);
        match spec_unary(t, p + 1) {
            ParseOutcome::Failed { err } => ParseOutcome::Failed { err },
            ParseOutcome::Parsed { expr, next } => ParseOutcome::Parsed {
                expr: ExpressionModel::Unary(op, Box::new(expr)),
                next,
            },
        }
    } else {
        spec_primary(t, p)
    }
}

pub open spec fn spec_primary(t: Seq<TokenModel>, p: int) -> ParseOutcome
    decreases t.len() - p, 0int,
    when 0 <= p <= t.len()
{
    if p >= t.len() {
        ParseOutcome::Failed { err: ParseError::OutOfTokens }
    } else {
        match t[p] {
            TokenModel::False => ParseOutcome::Parsed {
                expr: ExpressionModel::Literal(crate::grammar::LiteralModel::False),
                next: p + 1,
            },
            TokenModel::True => ParseOutcome::Parsed {
                expr: ExpressionModel::Literal(crate::grammar::LiteralModel::True),
                next: p + 1,
            },
            TokenModel::Nil => ParseOutcome::Parsed {
                expr: ExpressionModel::Literal(crate::grammar::LiteralModel::Nil),
                next: p + 1,
            },
            TokenModel::Number(s) => ParseOutcome::Parsed {
                expr: ExpressionModel::Literal(crate::grammar::LiteralModel::Number(s)),
                next: p + 1,
            },
            TokenModel::String(s) => ParseOutcome::Parsed {
                expr: ExpressionModel::Literal(crate::grammar::LiteralModel::String(s)),
                next: p + 1,
            },
            TokenModel::LeftParen => match spec_expression(t, p + 1) {
                ParseOutcome::Failed { err } => ParseOutcome::Failed { err },
                ParseOutcome::Parsed { expr, next } => if p + 1 <= next < t.len() && t[next]
                    is RightParen {
                    ParseOutcome::Parsed { expr: ExpressionModel::Grouping(Box::new(expr)), next: next + 1 }
                } else {
                    ParseOutcome::Failed { err: ParseError::MissingRightParen }
                },
            },
            _ => ParseOutcome::Failed { err: ParseError::UnexpectedToken },
        }
    }
}

/// The outcome of parsing one expression from the start of a token
/// sequence.
pub open spec fn spec_parse(t: Seq<TokenModel>) -> ParseOutcome {
    spec_expression(t, 0)
}

/// The recursive-descent parser. Construction performs the parse eagerly:
/// on success `root` holds the single parsed expression, on failure `root`
/// is empty and `error` reports the failure. Partial trees never escape.
pub struct Parser {
    pub tokens: Vec<Token>,
    pub cursor: usize,
    // Root of the AST.
    pub root: Option<Expression>,
    pub error: Option<ParseError>,
}

impl Parser {
    /// Parses one expression from the given token sequence: `root` and
    /// `error` are exactly what the mathematical parser yields on the
    /// sequence's model. Tokens past the parsed expression are left
    /// unconsumed, as the grammar has no statement level yet.
    pub fn new(tokens: Vec<Token>) -> (parser: Parser)
        ensures
            parser.tokens@ == tokens@,
            match spec_parse(tokens_model(tokens@)) {
                ParseOutcome::Parsed { expr, next } => {
                    &&& parser.root matches Option::Some(root) && root@ == expr
                    &&& parser.error is None
                },
                ParseOutcome::Failed { err } => {
                    &&& parser.root is None
                    &&& parser.error == Option::Some(err)
                },
            },
    {
        let mut parser = Parser { tokens, cursor: 0, root: Option::None, error: Option::None };
        match parser.expression() {
            Result::Ok(e) => parser.root = Option::Some(e),
            Result::Err(pe) => parser.error = Option::Some(pe),
        }
        parser
    }

    fn expression(&mut self) -> (r: Result<Expression, ParseError>)
        requires
            old(self).cursor <= old(self).tokens@.len(),
        ensures
            final(self).tokens@ == old(self).tokens@,
            final(self).root == old(self).root,
            final(self).error == old(self).error,
            final(self).cursor <= final(self).tokens@.len(),
            match r {
                Result::Ok(e) => spec_expression(tokens_model(old(self).tokens@), old(self).cursor as int)
                    matches ParseOutcome::Parsed { expr, next } && e@ == expr && final(self).cursor as int
                    == next && old(self).cursor < final(self).cursor,
                Result::Err(pe) => spec_expression(tokens_model(old(self).tokens@), old(self).cursor as int)
                    matches ParseOutcome::Failed { err } && pe == err,
            },
        decreases self.tokens@.len() - self.cursor, 6int,
    {
        self.equality()
    }

    fn equality(&mut self) -> (r: Result<Expression, ParseError>)
        requires
            old(self).cursor <= old(self).tokens@.len(),
        ensures
            final(self).tokens@ == old(self).tokens@,
            final(self).root == old(self).root,
            final(self).error == old(self).error,
            final(self).cursor <= final(self).tokens@.len(),
            match r {
                Result::Ok(e) => spec_equality(tokens_model(old(self).tokens@), old(self).cursor as int)
                    matches ParseOutcome::Parsed { expr, next } && e@ == expr && final(self).cursor as int
                    == next && old(self).cursor < final(self).cursor,
                Result::Err(pe) => spec_equality(tokens_model(old(self).tokens@), old(self).cursor as int)
                    matches ParseOutcome::Failed { err } && pe == err,
            },
        decreases self.tokens@.len() - self.cursor, 5int,
    {
        let ghost t = tokens_model(self.tokens@);
        let ghost c0 = self.cursor as int;
        let mut expr = match self.comparison() {
            Result::Ok(e) => e,
            Result::Err(pe) => {
                return Result::Err(pe);
            },
        };
        let mut done = false;
        while !done
            invariant
                tokens_model(self.tokens@) == t,
                self.tokens@ == old(self).tokens@,
                self.root == old(self).root,
                self.error == old(self).error,
                c0 == old(self).cursor as int,
                c0 < self.cursor <= self.tokens@.len(),
                !done ==> spec_equality(t, c0) == spec_equality_rest(t, self.cursor as int, expr@),
                done ==> spec_equality(t, c0) == (ParseOutcome::Parsed {
                    expr: expr@,
                    next: self.cursor as int,
                }),
            decreases self.tokens@.len() - self.cursor + (if done { 0int } else { 1int }),
        {
            let op_opt: Option<BinaryOp> = if self.cursor < self.tokens.len() {
                match &self.tokens[self.cursor] {
                    Token::EqualEqual => Option::Some(BinaryOp::EqualEqual),
                    Token::BangEqual => Option::Some(BinaryOp::BangEqual),
                    _ => Option::None,
                }
            } else {
                Option::None
            };
            match op_opt {
                Option::Some(op) => {
                    self.cursor = self.cursor + 1;
                    match self.comparison() {
                        Result::Ok(right) => {
                            expr = Expression::Binary(Binary {
                                left: Box::new(expr),
                                operator: op,
                                right: Box::new(right),
                            });
                        },
                        Result::Err(pe) => {
                            return Result::Err(pe);
                        },
                    }
                },
                Option::None => {
                    done = true;
                },
            }
        }
        Result::Ok(expr)
    }

    fn comparison(&mut self) -> (r: Result<Expression, ParseError>)
        requires
            old(self).cursor <= old(self).tokens@.len(),
        ensures
            final(self).tokens@ == old(self).tokens@,
            final(self).root == old(self).root,
            final(self).error == old(self).error,
            final(self).cursor <= final(self).tokens@.len(),
            match r {
                Result::Ok(e) => spec_comparison(tokens_model(old(self).tokens@), old(self).cursor as int)
                    matches ParseOutcome::Parsed { expr, next } && e@ == expr && final(self).cursor as int
                    == next && old(self).cursor < final(self).cursor,
                Result::Err(pe) => spec_comparison(tokens_model(old(self).tokens@), old(self).cursor as int)
                    matches ParseOutcome::Failed { err } && pe == err,
            },
        decreases self.tokens@.len() - self.cursor, 4int,
    {
        let ghost t = tokens_model(self.tokens@);
        let ghost c0 = self.cursor as int;
        let mut expr = match self.term() {
            Result::Ok(e) => e,
            Result::Err(pe) => {
                return Result::Err(pe);
            },
        };
        let mut done = false;
        while !done
            invariant
                tokens_model(self.tokens@) == t,
                self.tokens@ == old(self).tokens@,
                self.root == old(self).root,
                self.error == old(self).error,
                c0 == old(self).cursor as int,
                c0 < self.cursor <= self.tokens@.len(),
                !done ==> spec_comparison(t, c0) == spec_comparison_rest(
                    t,
                    self.cursor as int,
                    expr@,
                ),
                done ==> spec_comparison(t, c0) == (ParseOutcome::Parsed {
                    expr: expr@,
                    next: self.cursor as int,
                }),
            decreases self.tokens@.len() - self.cursor + (if done { 0int } else { 1int }),
        {
            let op_opt: Option<BinaryOp> = if self.cursor < self.tokens.len() {
                match &self.tokens[self.cursor] {
                    Token::Greater => Option::Some(BinaryOp::Greater),
                    Token::GreaterEqual => Option::Some(BinaryOp::GreaterEqual),
                    Token::Less => Option::Some(BinaryOp::Less),
                    Token::LessEqual => Option::Some(BinaryOp::LessEqual),
                    _ => Option::None,
                }
            } else {
                Option::None
            };
            match op_opt {
                Option::Some(op) => {
                    self.cursor = self.cursor + 1;
                    match self.term() {
                        Result::Ok(right) => {
                            expr = Expression::Binary(Binary {
                                left: Box::new(expr),
                                operator: op,
                                right: Box::new(right),
                            });
                        },
                        Result::Err(pe) => {
                            return Result::Err(pe);
                        },
                    }
                },
                Option::None => {
                    done = true;
                },
            }
        }
        Result::Ok(expr)
    }

    fn term(&mut self) -> (r: Result<Expression, ParseError>)
        requires
            old(self).cursor <= old(self).tokens@.len(),
        ensures
            final(self).tokens@ == old(self).tokens@,
            final(self).root == old(self).root,
            final(self).error == old(self).error,
            final(self).cursor <= final(self).tokens@.len(),
            match r {
                Result::Ok(e) => spec_term(tokens_model(old(self).tokens@), old(self).cursor as int)
                    matches ParseOutcome::Parsed { expr, next } && e@ == expr && final(self).cursor as int
                    == next && old(self).cursor < final(self).cursor,
                Result::Err(pe) => spec_term(tokens_model(old(self).tokens@), old(self).cursor as int)
                    matches ParseOutcome::Failed { err } && pe == err,
            },
        decreases self.tokens@.len() - self.cursor, 3int,
    {
        let ghost t = tokens_model(self.tokens@);
        let ghost c0 = self.cursor as int;
        let mut expr = match self.factor() {
            Result::Ok(e) => e,
            Result::Err(pe) => {
                return Result::Err(pe);
            },
        };
        let mut done = false;
        while !done
            invariant
                tokens_model(self.tokens@) == t,
                self.tokens@ == old(self).tokens@,
                self.root == old(self).root,
                self.error == old(self).error,
                c0 == old(self).cursor as int,
                c0 < self.cursor <= self.tokens@.len(),
                !done ==> spec_term(t, c0) == spec_term_rest(t, self.cursor as int, expr@),
                done ==> spec_term(t, c0) == (ParseOutcome::Parsed {
                    expr: expr@,
                    next: self.cursor as int,
                }),
            decreases self.tokens@.len() - self.cursor + (if done { 0int } else { 1int }),
        {
            let op_opt: Option<BinaryOp> = if self.cursor < self.tokens.len() {
                match &self.tokens[self.cursor] {
                    Token::Plus => Option::Some(BinaryOp::Plus),
                    Token::Minus => Option::Some(BinaryOp::Minus),
                    _ => Option::None,
                }
            } else {
                Option::None
            };
            match op_opt {
                Option::Some(op) => {
                    self.cursor = self.cursor + 1;
                    match self.factor() {
                        Result::Ok(right) => {
                            expr = Expression::Binary(Binary {
                                left: Box::new(expr),
                                operator: op,
                                right: Box::new(right),
                            });
                        },
                        Result::Err(pe) => {
                            return Result::Err(pe);
                        },
                    }
                },
                Option::None => {
                    done = true;
                },
            }
        }
        Result::Ok(expr)
    }

    fn factor(&mut self) -> (r: Result<Expression, ParseError>)
        requires
            old(self).cursor <= old(self).tokens@.len(),
        ensures
            final(self).tokens@ == old(self).tokens@,
            final(self).root == old(self).root,
            final(self).error == old(self).error,
            final(self).cursor <= final(self).tokens@.len(),
            match r {
                Result::Ok(e) => spec_factor(tokens_model(old(self).tokens@), old(self).cursor as int)
                    matches ParseOutcome::Parsed { expr, next } && e@ == expr && final(self).cursor as int
                    == next && old(self).cursor < final(self).cursor,
                Result::Err(pe) => spec_factor(tokens_model(old(self).tokens@), old(self).cursor as int)
                    matches ParseOutcome::Failed { err } && pe == err,
            },
        decreases self.tokens@.len() - self.cursor, 2int,
    {
        let ghost t = tokens_model(self.tokens@);
        let ghost c0 = self.cursor as int;
        let mut expr = match self.unary() {
            Result::Ok(e) => e,
            Result::Err(pe) => {
                return Result::Err(pe);
            },
        };
        let mut done = false;
        while !done
            invariant
                tokens_model(self.tokens@) == t,
                self.tokens@ == old(self).tokens@,
                self.root == old(self).root,
                self.error == old(self).error,
                c0 == old(self).cursor as int,
                c0 < self.cursor <= self.tokens@.len(),
                !done ==> spec_factor(t, c0) == spec_factor_rest(t, self.cursor as int, expr@),
                done ==> spec_factor(t, c0) == (ParseOutcome::Parsed {
                    expr: expr@,
                    next: self.cursor as int,
                }),
            decreases self.tokens@.len() - self.cursor + (if done { 0int } else { 1int }),
        {
            let op_opt: Option<BinaryOp> = if self.cursor < self.tokens.len() {
                match &self.tokens[self.cursor] {
                    Token::Slash => Option::Some(BinaryOp::Slash),
                    Token::Star => Option::Some(BinaryOp::Star),
                    _ => Option::None,
                }
            } else {
                Option::None
            };
            match op_opt {
                Option::Some(op) => {
                    self.cursor = self.cursor + 1;
                    match self.unary() {
                        Result::Ok(right) => {
                            expr = Expression::Binary(Binary {
                                left: Box::new(expr),
                                operator: op,
                                right: Box::new(right),
                            });
                        },
                        Result::Err(pe) => {
                            return Result::Err(pe);
                        },
                    }
                },
                Option::None => {
                    done = true;
                },
            }
        }
        Result::Ok(expr)
    }

    fn unary(&mut self) -> (r: Result<Expression, ParseError>)
        requires
            old(self).cursor <= old(self).tokens@.len(),
        ensures
            final(self).tokens@ == old(self).tokens@,
            final(self).root == old(self).root,
            final(self).error == old(self).error,
            final(self).cursor <= final(self).tokens@.len(),
            match r {
                Result::Ok(e) => spec_unary(tokens_model(old(self).tokens@), old(self).cursor as int)
                    matches ParseOutcome::Parsed { expr, next } && e@ == expr && final(self).cursor as int
                    == next && old(self).cursor < final(self).cursor,
                Result::Err(pe) => spec_unary(tokens_model(old(self).tokens@), old(self).cursor as int)
                    matches ParseOutcome::Failed { err } && pe == err,
            },
        decreases self.tokens@.len() - self.cursor, 1int,
    {
        let op_opt: Option<UnaryOp> = if self.cursor < self.tokens.len() {
            match &self.tokens[self.cursor] {
                Token::Bang => Option::Some(UnaryOp::Bang),
                Token::Minus => Option::Some(UnaryOp::Minus),
                _ => Option::None,
            }
        } else {
            Option::None
        };
        match op_opt {
            Option::Some(op) => {
                self.cursor = self.cursor + 1;
                match self.unary() {
                    Result::Ok(right) => Result::Ok(
                        Expression::Unary(Unary { operator: op, expr: Box::new(right) }),
                    ),
                    Result::Err(pe) => Result::Err(pe),
                }
            },
            Option::None => self.primary(),
        }
    }

    fn primary(&mut self) -> (r: Result<Expression, ParseError>)
        requires
            old(self).cursor <= old(self).tokens@.len(),
        ensures
            final(self).tokens@ == old(self).tokens@,
            final(self).root == old(self).root,
            final(self).error == old(self).error,
            final(self).cursor <= final(self).tokens@.len(),
            match r {
                Result::Ok(e) => spec_primary(tokens_model(old(self).tokens@), old(self).cursor as int)
                    matches ParseOutcome::Parsed { expr, next } && e@ == expr && final(self).cursor as int
                    == next && old(self).cursor < final(self).cursor,
                Result::Err(pe) => spec_primary(tokens_model(old(self).tokens@), old(self).cursor as int)
                    matches ParseOutcome::Failed { err } && pe == err,
            },
        decreases self.tokens@.len() - self.cursor, 0int,
    {
        if self.cursor >= self.tokens.len() {
            return Result::Err(ParseError::OutOfTokens);
        }
        let c0 = self.cursor;
        let lparen: bool = match &self.tokens[c0] {
            Token::LeftParen => true,
            _ => false,
        };
        if lparen {
            self.cursor = c0 + 1;
            match self.expression() {
                Result::Err(pe) => Result::Err(pe),
                Result::Ok(e) => {
                    let closed: bool = if self.cursor < self.tokens.len() {
                        match &self.tokens[self.cursor] {
                            Token::RightParen => true,
                            _ => false,
                        }
                    } else {
                        false
                    };
                    if closed {
                        self.cursor = self.cursor + 1;
                        Result::Ok(Expression::Grouping(Box::new(e)))
                    } else {
                        Result::Err(ParseError::MissingRightParen)
                    }
                },
            }
        } else {
            self.cursor = c0 + 1;
            match &self.tokens[c0] {
                Token::False => Result::Ok(Expression::Literal(Literal::False)),
                Token::True => Result::Ok(Expression::Literal(Literal::True)),
                Token::Nil => Result::Ok(Expression::Literal(Literal::Nil)),
                Token::Number(val) => Result::Ok(Expression::Literal(Literal::Number(val.clone()))),
                Token::String(val) => Result::Ok(Expression::Literal(Literal::String(val.clone()))),
                _ => Result::Err(ParseError::UnexpectedToken),
            }
        }
    }
}

} // verus!
