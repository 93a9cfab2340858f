//! What evaluation means: the value, the environment and the requests to
//! the host that an expression gives, as a function of the expression, the
//! environment before it, and the replies of the host.

use vstd::prelude::*;
use crate::host::{first_reply, ReplyView, RequestView};
use crate::lexer::{lex, print_name, write_name, LexError, TokenView};
use crate::number::offset_within;
use crate::parser::{statement, ExprView, ParseError};
use crate::text::trimmed;
use crate::value::ValueView;

verus! {

/// Why an expression has no value.
#[derive(Debug, PartialEq)]
pub enum EvalError {
    /// A variable that is not bound.
    UndefinedVariable(String),
    /// An index applied to what is no array.
    NotAnArray,
    /// An index that is no number.
    IndexNotANumber,
    /// An operand of an operator that is no number.
    NonNumericOperand,
    /// An operator other than `+ - * / ^`.
    UnsupportedOperator(char),
    /// An array as an argument of `print`.
    UnprintableArgument,
    /// An argument to `write`, which takes none.
    UnexpectedArguments,
    /// A function other than `print` and `write`.
    UnknownFunction(String),
    /// A decimal literal of which the host made no number.
    InvalidNumber,
    /// A reply of the host of another kind than the request asks for.
    UnexpectedReply,
}

/// Why an expression has no value, with text as sequences of characters.
pub enum EvalErrorView {
    UndefinedVariable(Seq<char>),
    NotAnArray,
    IndexNotANumber,
    NonNumericOperand,
    UnsupportedOperator(char),
    UnprintableArgument,
    UnexpectedArguments,
    UnknownFunction(Seq<char>),
    InvalidNumber,
    UnexpectedReply,
}

impl View for EvalError {
    type V = EvalErrorView;

    open spec fn view(&self) -> EvalErrorView {
        match self {
            EvalError::UndefinedVariable(name) => EvalErrorView::UndefinedVariable(name@),
            EvalError::NotAnArray => EvalErrorView::NotAnArray,
            EvalError::IndexNotANumber => EvalErrorView::IndexNotANumber,
            EvalError::NonNumericOperand => EvalErrorView::NonNumericOperand,
            EvalError::UnsupportedOperator(op) => EvalErrorView::UnsupportedOperator(*op),
            EvalError::UnprintableArgument => EvalErrorView::UnprintableArgument,
            EvalError::UnexpectedArguments => EvalErrorView::UnexpectedArguments,
            EvalError::UnknownFunction(name) => EvalErrorView::UnknownFunction(name@),
            EvalError::InvalidNumber => EvalErrorView::InvalidNumber,
            EvalError::UnexpectedReply => EvalErrorView::UnexpectedReply,
        }
    }
}

/// What an evaluation comes to.
pub struct Outcome {
    /// The value, or why there is none.
    pub result: Result<ValueView, EvalErrorView>,
    /// The environment afterwards.
    pub env: Map<Seq<char>, ValueView>,
    /// What was asked of the host, in order. Each request takes one reply.
    pub requests: Seq<RequestView>,
}

/// An evaluation that asks nothing of the host and leaves the environment
/// as it is.
pub open spec fn settled(
    result: Result<ValueView, EvalErrorView>,
    env: Map<Seq<char>, ValueView>,
) -> Outcome {
    Outcome { result, env, requests: Seq::empty() }
}

/// The operators that the host computes.
pub open spec fn is_arithmetic(op: char) -> bool {
    op == '+' || op == '-' || op == '*' || op == '/' || op == '^'
}

/// The number that a reply holds, or `otherwise` where it holds none.
pub open spec fn number_reply(reply: ReplyView, otherwise: EvalErrorView) -> Result<
    ValueView,
    EvalErrorView,
> {
    match reply {
        ReplyView::Number(bits) => Ok(ValueView::Number(bits)),
        _ => Err(otherwise),
    }
}

/// The item of `items` that the double `bits` addresses: the one at its
/// truncation toward zero, or the not-a-number where there is none.
pub open spec fn element_at(items: Seq<ValueView>, bits: u64) -> ValueView {
    match offset_within(bits, items.len()) {
        Some(k) => items[k as int],
        None => ValueView::Number(0x7ff8_0000_0000_0000),
    }
}

/// The value of a line that was read: the number that the host made of it
/// without the white space at its ends, or else that text.
pub open spec fn input_value(line: Seq<char>, reply: ReplyView) -> ValueView {
    match reply {
        ReplyView::Number(bits) => ValueView::Number(bits),
        _ => ValueView::String(trimmed(line)),
    }
}

/// What `write()` comes to: a line is asked for, then the number that it
/// writes.
pub open spec fn read_input(env: Map<Seq<char>, ValueView>, replies: Seq<ReplyView>) -> Outcome {
    match first_reply(replies) {
        ReplyView::Text(line) => Outcome {
            result: Ok(input_value(line, first_reply(replies.skip(1)))),
            env,
            requests: seq![RequestView::ReadLine, RequestView::ReadNumber(trimmed(line))],
        },
        _ => Outcome {
            result: Err(EvalErrorView::UnexpectedReply),
            env,
            requests: seq![RequestView::ReadLine],
        },
    }
}

/// What the evaluation of `expr` in `env` comes to, where the host answers
/// the requests with `replies`, in order.
pub open spec fn eval(
    expr: ExprView,
    env: Map<Seq<char>, ValueView>,
    replies: Seq<ReplyView>,
) -> Outcome
    decreases expr, 0int,
{
    match expr {
        ExprView::Number(bits) => settled(Ok(ValueView::Number(bits)), env),
        ExprView::Decimal(text) => Outcome {
            result: number_reply(first_reply(replies), EvalErrorView::InvalidNumber),
            env,
            requests: seq![RequestView::ReadNumber(text)],
        },
        ExprView::String(text) => settled(Ok(ValueView::String(text)), env),
        ExprView::Variable(name) => settled(
            if env.contains_key(name) {
                Ok(env[name])
            } else {
                Err(EvalErrorView::UndefinedVariable(name))
            },
            env,
        ),
        ExprView::Array(items) => eval_items(items, items.len() as int, env, replies),
        ExprView::ArrayAccess { array, index } => {
            let a = eval(*array, env, replies);
            match a.result {
                Err(_) => a,
                Ok(ValueView::Array(items)) => {
                    let i = eval(*index, a.env, replies.skip(a.requests.len() as int));
                    Outcome {
                        result: match i.result {
                            Err(e) => Err(e),
                            Ok(ValueView::Number(bits)) => Ok(element_at(items, bits)),
                            Ok(_) => Err(EvalErrorView::IndexNotANumber),
                        },
                        env: i.env,
                        requests: a.requests + i.requests,
                    }
                },
                Ok(_) => Outcome {
                    result: Err(EvalErrorView::NotAnArray),
                    env: a.env,
                    requests: a.requests,
                },
            }
        },
        ExprView::Assignment { name, value } => {
            let v = eval(*value, env, replies);
            match v.result {
                Err(_) => v,
                Ok(x) => Outcome { result: Ok(x), env: v.env.insert(name, x), requests: v.requests },
            }
        },
        ExprView::BinaryOp { left, op, right } => {
            let l = eval(*left, env, replies);
            match l.result {
                Err(_) => l,
                Ok(a) => {
                    let r = eval(*right, l.env, replies.skip(l.requests.len() as int));
                    let asked = l.requests + r.requests;
                    match r.result {
                        Err(e) => Outcome { result: Err(e), env: r.env, requests: asked },
                        Ok(b) => if !(a is Number && b is Number) {
                            Outcome {
                                result: Err(EvalErrorView::NonNumericOperand),
                                env: r.env,
                                requests: asked,
                            }
                        } else if !is_arithmetic(op) {
                            Outcome {
                                result: Err(EvalErrorView::UnsupportedOperator(op)),
                                env: r.env,
                                requests: asked,
                            }
                        } else {
                            Outcome {
                                result: number_reply(
                                    first_reply(replies.skip(asked.len() as int)),
                                    EvalErrorView::UnexpectedReply,
                                ),
                                env: r.env,
                                requests: asked.push(
                                    RequestView::Arithmetic {
                                        op,
                                        left: a->Number_0,
                                        right: b->Number_0,
                                    },
                                ),
                            }
                        },
                    }
                },
            }
        },
        ExprView::FunctionCall { name, args } => if name == print_name() {
            let shown = print_items(args, args.len() as int, env, replies);
            match shown.result {
                Err(_) => shown,
                Ok(_) => Outcome {
                    result: Ok(ValueView::Number(0)),
                    env: shown.env,
                    requests: shown.requests.push(RequestView::PrintEnd),
                },
            }
        } else if name == write_name() {
            if args.len() > 0 {
                settled(Err(EvalErrorView::UnexpectedArguments), env)
            } else {
                read_input(env, replies)
            }
        } else {
            settled(Err(EvalErrorView::UnknownFunction(name)), env)
        },
    }
}

/// What the evaluation of the first `upto` of `items` comes to, from left to
/// right: the array of their values, or the first error.
pub open spec fn eval_items(
    items: Seq<ExprView>,
    upto: int,
    env: Map<Seq<char>, ValueView>,
    replies: Seq<ReplyView>,
) -> Outcome
    decreases items, upto,
{
    if upto <= 0 || upto > items.len() {
        settled(Ok(ValueView::Array(Seq::empty())), env)
    } else {
        let before = eval_items(items, upto - 1, env, replies);
        match before.result {
            Ok(ValueView::Array(values)) => {
                let item = eval(
                    items[upto - 1],
                    before.env,
                    replies.skip(before.requests.len() as int),
                );
                Outcome {
                    result: match item.result {
                        Ok(v) => Ok(ValueView::Array(values.push(v))),
                        Err(e) => Err(e),
                    },
                    env: item.env,
                    requests: before.requests + item.requests,
                }
            },
            _ => before,
        }
    }
}

/// What printing the first `upto` of `args` comes to, from left to right:
/// each is evaluated and then, a number or a string, written; an array is
/// an error.
pub open spec fn print_items(
    args: Seq<ExprView>,
    upto: int,
    env: Map<Seq<char>, ValueView>,
    replies: Seq<ReplyView>,
) -> Outcome
    decreases args, upto,
{
    if upto <= 0 || upto > args.len() {
        settled(Ok(ValueView::Number(0)), env)
    } else {
        let before = print_items(args, upto - 1, env, replies);
        match before.result {
            Err(_) => before,
            Ok(_) => {
                let item = eval(
                    args[upto - 1],
                    before.env,
                    replies.skip(before.requests.len() as int),
                );
                let asked = before.requests + item.requests;
                match item.result {
                    Err(e) => Outcome { result: Err(e), env: item.env, requests: asked },
                    Ok(ValueView::Array(_)) => Outcome {
                        result: Err(EvalErrorView::UnprintableArgument),
                        env: item.env,
                        requests: asked,
                    },
                    Ok(v) => Outcome {
                        result: Ok(ValueView::Number(0)),
                        env: item.env,
                        requests: asked.push(RequestView::PrintItem(v)),
                    },
                }
            },
        }
    }
}

/// Why a statement was not carried out.
#[derive(Debug, PartialEq)]
pub enum Failure {
    /// Its text has no tokens.
    Lex(LexError),
    /// Its tokens are no expression.
    Parse(ParseError),
    /// Its expression has no value.
    Eval(EvalError),
}

/// Why a statement was not carried out, with text as sequences of
/// characters.
pub enum FailureModel {
    Lex(LexError),
    Parse(ParseError),
    Eval(EvalErrorView),
}

impl View for Failure {
    type V = FailureModel;

    open spec fn view(&self) -> FailureModel {
        match self {
            Failure::Lex(e) => FailureModel::Lex(*e),
            Failure::Parse(e) => FailureModel::Parse(*e),
            Failure::Eval(e) => FailureModel::Eval(e@),
        }
    }
}

/// What carrying out a statement comes to.
pub struct Run {
    /// Whether it was carried out, or why not.
    pub result: Result<(), FailureModel>,
    /// The environment afterwards.
    pub env: Map<Seq<char>, ValueView>,
    /// What was asked of the host, in order.
    pub requests: Seq<RequestView>,
}

/// The variable that keeps the last value of a kind that was not shown.
pub open spec fn slot_of(value: ValueView) -> Seq<char> {
    match value {
        ValueView::Number(_) => "_tnum_"@,
        ValueView::String(_) => "_tstr_"@,
        ValueView::Array(_) => "_tarr_"@,
    }
}

/// What carrying out the statement `input` in `env` comes to: its text is
/// split into tokens, parsed and evaluated. Where the text holds a `;` the
/// value is kept in the variable for its kind; else the host is asked to
/// show it.
pub open spec fn run(
    input: Seq<char>,
    env: Map<Seq<char>, ValueView>,
    replies: Seq<ReplyView>,
) -> Run {
    match lex(input) {
        Err(e) => Run { result: Err(FailureModel::Lex(e)), env, requests: Seq::empty() },
        Ok(tokens) => match statement(tokens) {
            Err(e) => Run { result: Err(FailureModel::Parse(e)), env, requests: Seq::empty() },
            Ok(expr) => {
                let outcome = eval(expr, env, replies);
                match outcome.result {
                    Err(e) => Run {
                        result: Err(FailureModel::Eval(e)),
                        env: outcome.env,
                        requests: outcome.requests,
                    },
                    Ok(value) => if tokens.contains(TokenView::Semicolon) {
                        Run {
                            result: Ok(()),
                            env: outcome.env.insert(slot_of(value), value),
                            requests: outcome.requests,
                        }
                    } else {
                        Run {
                            result: Ok(()),
                            env: outcome.env,
                            requests: outcome.requests.push(RequestView::Show(value)),
                        }
                    },
                }
            },
        },
    }
}

/// Once an item has failed, the items after it are not evaluated.
pub proof fn lemma_items_stop(
    items: Seq<ExprView>,
    failed: int,
    upto: int,
    env: Map<Seq<char>, ValueView>,
    replies: Seq<ReplyView>,
)
    requires
        0 <= failed <= upto <= items.len(),
        eval_items(items, failed, env, replies).result is Err,
    ensures
        eval_items(items, upto, env, replies) == eval_items(items, failed, env, replies),
    decreases upto - failed,
{
    if failed < upto {
        lemma_items_stop(items, failed, upto - 1, env, replies);
    }
}

/// Once an argument of `print` has failed, the arguments after it are not
/// evaluated.
pub proof fn lemma_print_stops(
    args: Seq<ExprView>,
    failed: int,
    upto: int,
    env: Map<Seq<char>, ValueView>,
    replies: Seq<ReplyView>,
)
    requires
        0 <= failed <= upto <= args.len(),
        print_items(args, failed, env, replies).result is Err,
    ensures
        print_items(args, upto, env, replies) == print_items(args, failed, env, replies),
    decreases upto - failed,
{
    if failed < upto {
        lemma_print_stops(args, failed, upto - 1, env, replies);
    }
}

} // verus!
