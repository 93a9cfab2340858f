//! The parser: from the tokens of one statement to its expression tree, by
//! recursive descent.
//!
//! From the loosest binding to the tightest: an assignment; a call of a
//! built-in function, or terms joined by `+` and `-`; factors joined by `*`,
//! `/` and `^`; a factor. Operators of one level associate to the left.

use vstd::prelude::*;
use crate::lexer::{token_views, Token, TokenView};
use crate::number::{widen, widened};

verus! {

/// One node of an expression tree.
#[derive(Debug, PartialEq)]
pub enum Expr {
    /// A number, as the bits of a double.
    Number(u64),
    /// A literal with a decimal point, as it was written.
    Decimal(String),
    String(String),
    Variable(String),
    FunctionCall { name: String, args: Vec<Expr> },
    Assignment { name: String, value: Box<Expr> },
    BinaryOp { left: Box<Expr>, op: char, right: Box<Expr> },
    ArrayAccess { array: Box<Expr>, index: Box<Expr> },
    Array(Vec<Expr>),
}

/// What an expression is, with text as sequences of characters.
pub enum ExprView {
    Number(u64),
    Decimal(Seq<char>),
    String(Seq<char>),
    Variable(Seq<char>),
    FunctionCall { name: Seq<char>, args: Seq<ExprView> },
    Assignment { name: Seq<char>, value: Box<ExprView> },
    BinaryOp { left: Box<ExprView>, op: char, right: Box<ExprView> },
    ArrayAccess { array: Box<ExprView>, index: Box<ExprView> },
    Array(Seq<ExprView>),
}

impl View for Expr {
    type V = ExprView;

    open spec fn view(&self) -> ExprView
        decreases self,
    {
        match self {
            Expr::Number(n) => ExprView::Number(*n),
            Expr::Decimal(text) => ExprView::Decimal(text@),
            Expr::String(text) => ExprView::String(text@),
            Expr::Variable(name) => ExprView::Variable(name@),
            Expr::FunctionCall { name, args } => ExprView::FunctionCall {
                name: name@,
                args: expr_views(args@),
            },
            Expr::Assignment { name, value } => ExprView::Assignment {
                name: name@,
                value: Box::new((**value)@),
            },
            Expr::BinaryOp { left, op, right } => ExprView::BinaryOp {
                left: Box::new((**left)@),
                op: *op,
                right: Box::new((**right)@),
            },
            Expr::ArrayAccess { array, index } => ExprView::ArrayAccess {
                array: Box::new((**array)@),
                index: Box::new((**index)@),
            },
            Expr::Array(items) => ExprView::Array(expr_views(items@)),
        }
    }
}

/// The views of a sequence of expressions, one for one.
pub open spec fn expr_views(exprs: Seq<Expr>) -> Seq<ExprView>
    decreases exprs,
{
    if exprs.len() == 0 {
        Seq::empty()
    } else {
        expr_views(exprs.drop_last()).push(exprs.last()@)
    }
}

/// The views are as many as the expressions, and each is the view of the
/// expression in its place.
pub proof fn lemma_expr_views(exprs: Seq<Expr>)
    ensures
        expr_views(exprs).len() == exprs.len(),
        forall|i: int| 0 <= i < exprs.len() ==> #[trigger] expr_views(exprs)[i] == exprs[i]@,
    decreases exprs.len(),
{
    if exprs.len() > 0 {
        let front = exprs.drop_last();
        lemma_expr_views(front);
        assert(expr_views(exprs) == expr_views(front).push(exprs.last()@));
        assert forall|i: int| 0 <= i < exprs.len() implies #[trigger] expr_views(exprs)[i]
            == exprs[i]@ by {
            if i < front.len() {
                assert(expr_views(front)[i] == front[i]@);
            }
        }
    }
}

/// Appending an expression appends its view.
pub proof fn lemma_expr_views_push(exprs: Seq<Expr>, expr: Expr)
    ensures
        expr_views(exprs.push(expr)) == expr_views(exprs).push(expr@),
{
    assert(exprs.push(expr).drop_last() =~= exprs);
}

/// Why a sequence of tokens is no expression.
#[derive(Debug, Clone, Copy, PartialEq, Eq, Structural)]
pub enum ParseError {
    /// Where an operand must begin there is no token, or one that begins
    /// none.
    ExpectedOperand,
    /// The name of a built-in function is not followed by `(`.
    ExpectedLeftParen,
    /// An index is not followed by `]`.
    ExpectedRightBracket,
}

/// An expression and the position of the first token after it.
pub struct Parsed {
    pub expr: ExprView,
    pub next: int,
}

pub open spec fn is_additive(t: TokenView) -> bool {
    t == TokenView::Operator('+') || t == TokenView::Operator('-')
}

pub open spec fn is_multiplicative(t: TokenView) -> bool {
    t == TokenView::Operator('*') || t == TokenView::Operator('/') || t == TokenView::Operator('^')
}

/// A parse that began at `pos` ended at `next`, further on and within the
/// `len` tokens. Every parse does; the grammar below asks it of each
/// sub-expression so that its recursion is well-founded.
pub open spec fn advances(pos: int, next: int, len: nat) -> bool {
    pos < next <= len
}

/// The factor that begins at `pos`: a literal, a variable, an indexed
/// variable, or an array literal.
pub open spec fn factor_at(t: Seq<TokenView>, pos: int) -> Result<Parsed, ParseError>
    decreases t.len() - pos, 1int,
{
    if pos < 0 || pos >= t.len() {
        Err(ParseError::ExpectedOperand)
    } else {
        match t[pos] {
            TokenView::Integer(n) => Ok(Parsed { expr: ExprView::Number(widened(n)), next: pos + 1 }),
            TokenView::Float(text) => Ok(Parsed { expr: ExprView::Decimal(text), next: pos + 1 }),
            TokenView::Str(text) => Ok(Parsed { expr: ExprView::String(text), next: pos + 1 }),
            TokenView::Identifier(name) => if pos + 1 < t.len() && t[pos + 1]
                == TokenView::LeftBracket {
                match expression_at(t, pos + 2) {
                    Err(e) => Err(e),
                    Ok(index) => if 0 <= index.next < t.len() && t[index.next]
                        == TokenView::RightBracket {
                        Ok(
                            Parsed {
                                expr: ExprView::ArrayAccess {
                                    array: Box::new(ExprView::Variable(name)),
                                    index: Box::new(index.expr),
                                },
                                next: index.next + 1,
                            },
                        )
                    } else {
                        Err(ParseError::ExpectedRightBracket)
                    },
                }
            } else {
                Ok(Parsed { expr: ExprView::Variable(name), next: pos + 1 })
            },
            TokenView::LeftBracket => elements_at(t, pos + 1, Seq::empty()),
            _ => Err(ParseError::ExpectedOperand),
        }
    }
}

/// The rest of an array literal from `pos` on, after the elements `done`:
/// expressions, each optionally followed by a comma, up to `]` or to the
/// last token.
pub open spec fn elements_at(t: Seq<TokenView>, pos: int, done: Seq<ExprView>) -> Result<
    Parsed,
    ParseError,
>
    decreases t.len() - pos, 4int,
{
    if pos < 0 || pos >= t.len() {
        Ok(Parsed { expr: ExprView::Array(done), next: pos })
    } else if t[pos] == TokenView::RightBracket {
        Ok(Parsed { expr: ExprView::Array(done), next: pos + 1 })
    } else {
        match expression_at(t, pos) {
            Err(e) => Err(e),
            Ok(element) => if !advances(pos, element.next, t.len()) {
                Err(ParseError::ExpectedOperand)
            } else {
                elements_at(
                    t,
                    if element.next < t.len() && t[element.next] == TokenView::Comma {
                        element.next + 1
                    } else {
                        element.next
                    },
                    done.push(element.expr),
                )
            },
        }
    }
}

/// The rest of a term from `pos` on, after the operand `left`.
pub open spec fn term_tail(t: Seq<TokenView>, left: ExprView, pos: int) -> Result<
    Parsed,
    ParseError,
>
    decreases t.len() - pos, 0int,
{
    if 0 <= pos < t.len() && is_multiplicative(t[pos]) {
        match factor_at(t, pos + 1) {
            Err(e) => Err(e),
            Ok(right) => if !advances(pos, right.next, t.len()) {
                Err(ParseError::ExpectedOperand)
            } else {
                term_tail(
                    t,
                    ExprView::BinaryOp {
                        left: Box::new(left),
                        op: t[pos]->Operator_0,
                        right: Box::new(right.expr),
                    },
                    right.next,
                )
            },
        }
    } else {
        Ok(Parsed { expr: left, next: pos })
    }
}

/// The term that begins at `pos`: factors joined by `*`, `/` and `^`.
pub open spec fn term_at(t: Seq<TokenView>, pos: int) -> Result<Parsed, ParseError>
    decreases t.len() - pos, 2int,
{
    match factor_at(t, pos) {
        Err(e) => Err(e),
        Ok(left) => if !advances(pos, left.next, t.len()) {
            Err(ParseError::ExpectedOperand)
        } else {
            term_tail(t, left.expr, left.next)
        },
    }
}

/// The rest of a sum from `pos` on, after the operand `left`.
pub open spec fn sum_tail(t: Seq<TokenView>, left: ExprView, pos: int) -> Result<
    Parsed,
    ParseError,
>
    decreases t.len() - pos, 0int,
{
    if 0 <= pos < t.len() && is_additive(t[pos]) {
        match term_at(t, pos + 1) {
            Err(e) => Err(e),
            Ok(right) => if !advances(pos, right.next, t.len()) {
                Err(ParseError::ExpectedOperand)
            } else {
                sum_tail(
                    t,
                    ExprView::BinaryOp {
                        left: Box::new(left),
                        op: t[pos]->Operator_0,
                        right: Box::new(right.expr),
                    },
                    right.next,
                )
            },
        }
    } else {
        Ok(Parsed { expr: left, next: pos })
    }
}

/// The rest of a call's arguments from `pos` on, after the arguments
/// `done`: expressions and commas up to `)` or to the last token.
pub open spec fn arguments_at(t: Seq<TokenView>, name: Seq<char>, pos: int, done: Seq<ExprView>)
    -> Result<Parsed, ParseError>
    decreases t.len() - pos, 4int,
{
    if pos < 0 || pos >= t.len() {
        Ok(Parsed { expr: ExprView::FunctionCall { name, args: done }, next: pos })
    } else if t[pos] == TokenView::RightParen {
        Ok(Parsed { expr: ExprView::FunctionCall { name, args: done }, next: pos + 1 })
    } else if t[pos] == TokenView::Comma {
        arguments_at(t, name, pos + 1, done)
    } else {
        match expression_at(t, pos) {
            Err(e) => Err(e),
            Ok(argument) => if !advances(pos, argument.next, t.len()) {
                Err(ParseError::ExpectedOperand)
            } else {
                arguments_at(t, name, argument.next, done.push(argument.expr))
            },
        }
    }
}

/// The expression that begins at `pos`: a call of a built-in function, or
/// terms joined by `+` and `-`.
pub open spec fn expression_at(t: Seq<TokenView>, pos: int) -> Result<Parsed, ParseError>
    decreases t.len() - pos, 3int,
{
    if 0 <= pos < t.len() && t[pos] is Functions {
        if pos + 1 < t.len() && t[pos + 1] == TokenView::LeftParen {
            arguments_at(t, t[pos]->Functions_0, pos + 2, Seq::empty())
        } else {
            Err(ParseError::ExpectedLeftParen)
        }
    } else {
        match term_at(t, pos) {
            Err(e) => Err(e),
            Ok(left) => if !advances(pos, left.next, t.len()) {
                Err(ParseError::ExpectedOperand)
            } else {
                sum_tail(t, left.expr, left.next)
            },
        }
    }
}

/// The statement that the tokens begin with: an assignment where they begin
/// with an identifier and `=`, else an expression. What follows the
/// statement is not looked at.
pub open spec fn statement(t: Seq<TokenView>) -> Result<ExprView, ParseError> {
    if t.len() >= 2 && t[0] is Identifier && t[1] == TokenView::Operator('=') {
        match expression_at(t, 2) {
            Err(e) => Err(e),
            Ok(value) => Ok(
                ExprView::Assignment { name: t[0]->Identifier_0, value: Box::new(value.expr) },
            ),
        }
    } else {
        match expression_at(t, 0) {
            Err(e) => Err(e),
            Ok(parsed) => Ok(parsed.expr),
        }
    }
}

/// The result `r` of a parser that began at `pos` is what the grammar
/// gives, and a parse that succeeded has advanced.
pub open spec fn agrees(
    r: Result<(Expr, usize), ParseError>,
    expected: Result<Parsed, ParseError>,
    pos: usize,
    len: nat,
) -> bool {
    match r {
        Ok((expr, next)) => expected == Ok::<Parsed, ParseError>(
            Parsed { expr: expr@, next: next as int },
        ) && advances(pos as int, next as int, len),
        Err(e) => expected == Err::<Parsed, ParseError>(e),
    }
}

/// Whether the token at `pos` is `kind`, a token without text or number.
fn is_token(tokens: &[Token], pos: usize, kind: &Token) -> (r: bool)
    requires
        !(kind is Integer) && !(kind is Float) && !(kind is Str) && !(kind is Identifier) && !(kind is Functions),
    ensures
        r == (pos < tokens.len() && token_views(tokens@)[pos as int] == kind@),
{
    if pos >= tokens.len() {
        return false;
    }
    match (&tokens[pos], kind) {
        (Token::Operator(a), Token::Operator(b)) => *a == *b,
        (Token::Semicolon, Token::Semicolon) => true,
        (Token::Comma, Token::Comma) => true,
        (Token::LeftParen, Token::LeftParen) => true,
        (Token::RightParen, Token::RightParen) => true,
        (Token::LeftBracket, Token::LeftBracket) => true,
        (Token::RightBracket, Token::RightBracket) => true,
        (Token::EOF, Token::EOF) => true,
        _ => false,
    }
}

/// The operator at `pos`, if there is one.
fn operator_at(tokens: &[Token], pos: usize) -> (r: Option<char>)
    ensures
        match r {
            Some(op) => pos < tokens.len() && token_views(tokens@)[pos as int]
                == TokenView::Operator(op),
            None => !(pos < tokens.len() && token_views(tokens@)[pos as int] is Operator),
        },
{
    if pos >= tokens.len() {
        return None;
    }
    match &tokens[pos] {
        Token::Operator(op) => Some(*op),
        _ => None,
    }
}

/// Parses the index that follows the variable `name` at `pos`.
fn parse_index(name: &String, tokens: &[Token], pos: usize) -> (r: Result<
    (Expr, usize),
    ParseError,
>)
    requires
        pos + 1 < tokens.len(),
        token_views(tokens@)[pos as int] == TokenView::Identifier(name@),
        token_views(tokens@)[pos + 1] == TokenView::LeftBracket,
    ensures
        agrees(r, factor_at(token_views(tokens@), pos as int), pos, tokens@.len()),
    decreases tokens.len() - pos, 0int,
{
    match parse_expression(tokens, pos + 2) {
        Err(e) => Err(e),
        Ok((index, next)) => {
            if is_token(tokens, next, &Token::RightBracket) {
                let variable = Expr::Variable(name.clone());
                assert(variable@ == ExprView::Variable(name@));
                let access = Expr::ArrayAccess {
                    array: Box::new(variable),
                    index: Box::new(index),
                };
                Ok((access, next + 1))
            } else {
                Err(ParseError::ExpectedRightBracket)
            }
        },
    }
}

/// Parses the array literal that begins with the `[` at `pos`.
fn parse_array(tokens: &[Token], pos: usize) -> (r: Result<(Expr, usize), ParseError>)
    requires
        pos < tokens.len(),
        token_views(tokens@)[pos as int] == TokenView::LeftBracket,
    ensures
        agrees(r, factor_at(token_views(tokens@), pos as int), pos, tokens@.len()),
    decreases tokens.len() - pos, 0int,
{
    let ghost t = token_views(tokens@);
    let mut elements: Vec<Expr> = Vec::new();
    let mut p: usize = pos + 1;
    while p < tokens.len()
        invariant
            pos < p <= tokens.len(),
            t == token_views(tokens@),
            factor_at(t, pos as int) == elements_at(t, p as int, expr_views(elements@)),
        decreases tokens.len() - p,
    {
        if is_token(tokens, p, &Token::RightBracket) {
            return Ok((Expr::Array(elements), p + 1));
        }
        match parse_expression(tokens, p) {
            Err(e) => {
                return Err(e);
            },
            Ok((element, next)) => {
                proof {
                    lemma_expr_views_push(elements@, element);
                }
                elements.push(element);
                p = if is_token(tokens, next, &Token::Comma) {
                    next + 1
                } else {
                    next
                };
            },
        }
    }
    Ok((Expr::Array(elements), p))
}

/// Parses the factor that begins at `pos`, and says where it ends.
pub fn parse_factor(tokens: &[Token], pos: usize) -> (r: Result<(Expr, usize), ParseError>)
    ensures
        agrees(r, factor_at(token_views(tokens@), pos as int), pos, tokens@.len()),
    decreases tokens.len() - pos, 1int,
{
    if pos >= tokens.len() {
        return Err(ParseError::ExpectedOperand);
    }
    match &tokens[pos] {
        Token::Integer(n) => Ok((Expr::Number(widen(*n)), pos + 1)),
        Token::Float(text) => Ok((Expr::Decimal(text.clone()), pos + 1)),
        Token::Str(text) => Ok((Expr::String(text.clone()), pos + 1)),
        Token::Identifier(name) => {
            if is_token(tokens, pos + 1, &Token::LeftBracket) {
                parse_index(name, tokens, pos)
            } else {
                Ok((Expr::Variable(name.clone()), pos + 1))
            }
        },
        Token::LeftBracket => parse_array(tokens, pos),
        _ => Err(ParseError::ExpectedOperand),
    }
}

/// Parses the term that begins at `pos`, and says where it ends.
fn parse_term(tokens: &[Token], pos: usize) -> (r: Result<(Expr, usize), ParseError>)
    ensures
        agrees(r, term_at(token_views(tokens@), pos as int), pos, tokens@.len()),
    decreases tokens.len() - pos, 2int,
{
    let ghost t = token_views(tokens@);
    let (mut left, mut p) = match parse_factor(tokens, pos) {
        Err(e) => {
            return Err(e);
        },
        Ok(first) => first,
    };
    loop
        invariant
            pos < p <= tokens.len(),
            t == token_views(tokens@),
            term_at(t, pos as int) == term_tail(t, left@, p as int),
        decreases tokens.len() - p,
    {
        let op = match operator_at(tokens, p) {
            Some(op) => op,
            None => {
                return Ok((left, p));
            },
        };
        if !(op == '*' || op == '/' || op == '^') {
            return Ok((left, p));
        }
        match parse_factor(tokens, p + 1) {
            Err(e) => {
                return Err(e);
            },
            Ok((right, next)) => {
                left = Expr::BinaryOp { left: Box::new(left), op, right: Box::new(right) };
                p = next;
            },
        }
    }
}

/// Parses the call of the function `name`, whose name stands before `pos`.
fn parse_function_call(name: String, tokens: &[Token], pos: usize) -> (r: Result<
    (Expr, usize),
    ParseError,
>)
    requires
        0 < pos <= tokens.len(),
        token_views(tokens@)[pos - 1] == TokenView::Functions(name@),
    ensures
        agrees(r, expression_at(token_views(tokens@), pos - 1), (pos - 1) as usize, tokens@.len()),
    decreases tokens.len() - pos, 5int,
{
    let ghost t = token_views(tokens@);
    if !is_token(tokens, pos, &Token::LeftParen) {
        return Err(ParseError::ExpectedLeftParen);
    }
    let mut args: Vec<Expr> = Vec::new();
    let mut p: usize = pos + 1;
    while p < tokens.len()
        invariant
            0 < pos < p <= tokens.len(),
            t == token_views(tokens@),
            expression_at(t, pos - 1) == arguments_at(t, name@, p as int, expr_views(args@)),
        decreases tokens.len() - p,
    {
        if is_token(tokens, p, &Token::RightParen) {
            return Ok((Expr::FunctionCall { name, args }, p + 1));
        }
        if is_token(tokens, p, &Token::Comma) {
            p = p + 1;
        } else {
            match parse_expression(tokens, p) {
                Err(e) => {
                    return Err(e);
                },
                Ok((argument, next)) => {
                    proof {
                        lemma_expr_views_push(args@, argument);
                    }
                    args.push(argument);
                    p = next;
                },
            }
        }
    }
    Ok((Expr::FunctionCall { name, args }, p))
}

/// Parses the expression that begins at `pos`, and says where it ends.
pub fn parse_expression(tokens: &[Token], pos: usize) -> (r: Result<(Expr, usize), ParseError>)
    ensures
        agrees(r, expression_at(token_views(tokens@), pos as int), pos, tokens@.len()),
    decreases tokens.len() - pos, 3int,
{
    let ghost t = token_views(tokens@);
    if pos < tokens.len() {
        if let Token::Functions(name) = &tokens[pos] {
            return parse_function_call(name.clone(), tokens, pos + 1);
        }
    }
    let (mut left, mut p) = match parse_term(tokens, pos) {
        Err(e) => {
            return Err(e);
        },
        Ok(first) => first,
    };
    loop
        invariant
            pos < p <= tokens.len(),
            t == token_views(tokens@),
            expression_at(t, pos as int) == sum_tail(t, left@, p as int),
        decreases tokens.len() - p,
    {
        let op = match operator_at(tokens, p) {
            Some(op) => op,
            None => {
                return Ok((left, p));
            },
        };
        if !(op == '+' || op == '-') {
            return Ok((left, p));
        }
        match parse_term(tokens, p + 1) {
            Err(e) => {
                return Err(e);
            },
            Ok((right, next)) => {
                left = Expr::BinaryOp { left: Box::new(left), op, right: Box::new(right) };
                p = next;
            },
        }
    }
}

/// Parses an assignment where the tokens begin with a name and `=`, else
/// an expression.
fn parse_assignment(tokens: &[Token]) -> (r: Result<Expr, ParseError>)
    ensures
        match r {
            Ok(expr) => statement(token_views(tokens@)) == Ok::<ExprView, ParseError>(expr@),
            Err(e) => statement(token_views(tokens@)) == Err::<ExprView, ParseError>(e),
        },
{
    if tokens.len() >= 2 {
        if let Token::Identifier(name) = &tokens[0] {
            if let Some(op) = operator_at(tokens, 1) {
                if op == '=' {
                    return match parse_expression(tokens, 2) {
                        Err(e) => Err(e),
                        Ok((value, _)) => Ok(
                            Expr::Assignment { name: name.clone(), value: Box::new(value) },
                        ),
                    };
                }
            }
        }
    }
    match parse_expression(tokens, 0) {
        Err(e) => Err(e),
        Ok((expr, _)) => Ok(expr),
    }
}

/// Parses the statement that the tokens begin with.
pub fn parse(tokens: &[Token]) -> (r: Result<Expr, ParseError>)
    ensures
        match r {
            Ok(expr) => statement(token_views(tokens@)) == Ok::<ExprView, ParseError>(expr@),
            Err(e) => statement(token_views(tokens@)) == Err::<ExprView, ParseError>(e),
        },
{
    parse_assignment(tokens)
}

} // verus!

