//! The expression grammar: abstract syntax trees for the language's
//! expressions, their mathematical models, and the canonical parenthesized
//! rendering of a tree.

use vstd::prelude::*;

use crate::parser::Parser;

verus! {

/// Operator of a unary expression: `-` or `!`.
#[derive(Clone, Copy, Debug, PartialEq, Eq, Structural)]
pub enum UnaryOp {
    Minus,
    Bang,
}

/// Operator of a binary expression.
#[derive(Clone, Copy, Debug, PartialEq, Eq, Structural)]
pub enum BinaryOp {
    EqualEqual,
    BangEqual,
    Less,
    LessEqual,
    Greater,
    GreaterEqual,
    Plus,
    Minus,
    Star,
    Slash,
}

/// A literal expression. Number and string literals carry their source
/// text; numbers are not converted to numeric values by the front end.
#[derive(Debug)]
pub enum Literal {
    Number(String),
    String(String),
    True,
    False,
    Nil,
}

/// A unary expression: an operator applied to one owned operand.
#[derive(Debug)]
pub struct Unary {
    pub operator: UnaryOp,
    pub expr: Box<Expression>,
}

/// A binary expression: an operator with owned left and right operands.
#[derive(Debug)]
pub struct Binary {
    pub left: Box<Expression>,
    pub operator: BinaryOp,
    pub right: Box<Expression>,
}

/// An expression tree node. Ownership is strictly tree-shaped: every node
/// owns its children exclusively.
#[derive(Debug)]
pub enum Expression {
    Literal(Literal),
    Unary(Unary),
    Binary(Binary),
    Grouping(Box<Expression>),
}

/// Mathematical model of a literal: literal text is modelled as a
/// character sequence.
pub enum LiteralModel {
    Number(Seq<char>),
    String(Seq<char>),
    True,
    False,
    Nil,
}

/// Mathematical model of an expression tree.
pub enum ExpressionModel {
    Literal(LiteralModel),
    Unary(UnaryOp, Box<ExpressionModel>),
    Binary(BinaryOp, Box<ExpressionModel>, Box<ExpressionModel>),
    Grouping(Box<ExpressionModel>),
}

impl View for Literal {
    type V = LiteralModel;

    open spec fn view(&self) -> LiteralModel {
        match self {
            Literal::Number(s) => LiteralModel::Number(s@),
            Literal::String(s) => LiteralModel::String(s@),
            Literal::True => LiteralModel::True,
            Literal::False => LiteralModel::False,
            Literal::Nil => LiteralModel::Nil,
        }
    }
}

/// The model of an expression tree, literal by literal.
pub open spec fn expression_model(e: Expression) -> ExpressionModel
    decreases e,
{
    match e {
        Expression::Literal(l) => ExpressionModel::Literal(l@),
        Expression::Unary(u) => ExpressionModel::Unary(
            u.operator,
            Box::new(expression_model(*u.expr)),
        ),
        Expression::Binary(b) => ExpressionModel::Binary(
            b.operator,
            Box::new(expression_model(*b.left)),
            Box::new(expression_model(*b.right)),
        ),
        Expression::Grouping(inner) => ExpressionModel::Grouping(Box::new(expression_model(*inner))),
    }
}

impl View for Expression {
    type V = ExpressionModel;

    open spec fn view(&self) -> ExpressionModel {
        expression_model(*self)
    }
}

/// Source symbol of a unary operator.
pub open spec fn unary_op_text(op: UnaryOp) -> Seq<char> {
    match op {
        UnaryOp::Bang => "!"@,
        UnaryOp::Minus => "-"@,
    }
}

/// Source symbol of a binary operator.
pub open spec fn binary_op_text(op: BinaryOp) -> Seq<char> {
    match op {
        BinaryOp::EqualEqual => "=="@,
        BinaryOp::BangEqual => "!="@,
        BinaryOp::Less => "<"@,
        BinaryOp::LessEqual => "<="@,
        BinaryOp::Greater => ">"@,
        BinaryOp::GreaterEqual => ">="@,
        BinaryOp::Plus => "+"@,
        BinaryOp::Minus => "-"@,
        BinaryOp::Star => "*"@,
        BinaryOp::Slash => "/"@,
    }
}

/// Rendering of a literal: its text verbatim, or the fixed keyword.
pub open spec fn literal_text(l: LiteralModel) -> Seq<char> {
    match l {
        LiteralModel::Number(s) => s,
        LiteralModel::String(s) => s,
        LiteralModel::True => "true"@,
        LiteralModel::False => "false"@,
        LiteralModel::Nil => "nil"@,
    }
}

/// The canonical parenthesized rendering of an expression tree:
/// `(<op> <operand>)` for unary nodes, `(<op> <left> <right>)` for binary
/// nodes, `(group <inner>)` for groupings, and literal text verbatim.
pub open spec fn print_model(e: ExpressionModel) -> Seq<char>
    decreases e,
{
    match e {
        ExpressionModel::Literal(l) => literal_text(l),
        ExpressionModel::Unary(op, inner) => "("@ + unary_op_text(op) + " "@ + print_model(*inner)
            + ")"@,
        ExpressionModel::Binary(op, left, right) => "("@ + binary_op_text(op) + " "@ + print_model(
            *left,
        ) + " "@ + print_model(*right) + ")"@,
        ExpressionModel::Grouping(inner) => "(group "@ + print_model(*inner) + ")"@,
    }
}

/// Renders an expression tree as its canonical parenthesized string.
/// Printing is a pure function of the tree: the result is exactly
/// `print_model` of the tree's model, with no other dependence.
pub fn print_expression(e: &Expression) -> (r: String)
    ensures
        r@ == print_model(e@),
    decreases *e,
{
    match e {
        Expression::Literal(l) => {
            match l {
                Literal::Number(s) => s.clone(),
                Literal::String(s) => s.clone(),
                Literal::True => String::from_str("true"),
                Literal::False => String::from_str("false"),
                Literal::Nil => String::from_str("nil"),
            }
        },
        Expression::Unary(u) => {
            let operand = print_expression(&u.expr);
            let op: &str = match u.operator {
                UnaryOp::Bang => "!",
                UnaryOp::Minus => "-",
            };
            let r = String::from_str("(").concat(op).concat(" ").concat(operand.as_str()).concat(
                ")",
            );
            proof {
                assert(r@ =~= print_model(e@));
            }
            r
        },
        Expression::Binary(b) => {
            let left = print_expression(&b.left);
            let right = print_expression(&b.right);
            let op: &str = match b.operator {
                BinaryOp::EqualEqual => "==",
                BinaryOp::BangEqual => "!=",
                BinaryOp::Less => "<",
                BinaryOp::LessEqual => "<=",
                BinaryOp::Greater => ">",
                BinaryOp::GreaterEqual => ">=",
                BinaryOp::Plus => "+",
                BinaryOp::Minus => "-",
                BinaryOp::Star => "*",
                BinaryOp::Slash => "/",
            };
            let r = String::from_str("(").concat(op).concat(" ").concat(left.as_str()).concat(
                " ",
            ).concat(right.as_str()).concat(")");
            proof {
                assert(r@ =~= print_model(e@));
            }
            r
        },
        Expression::Grouping(inner) => {
            let printed = print_expression(inner);
            let r = String::from_str("(group ").concat(printed.as_str()).concat(")");
            proof {
                assert(r@ =~= print_model(e@));
            }
            r
        },
    }
}

impl Parser {
    /// Renders the parsed expression tree as its canonical parenthesized
    /// string, or the fixed sentinel text when the parse yielded no root.
    pub fn pretty_print(&self) -> (r: String)
        ensures
            self.root matches Option::Some(e) ==> r@ == print_model(e@),
            self.root is None ==> r@ == "Null Expression"@,
    {
        match &self.root {
            Option::Some(expression) => print_expression(expression),
            Option::None => String::from_str("Null Expression"),
        }
    }
}

} // verus!
