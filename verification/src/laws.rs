//! What holds of the language as a whole: laws that relate the tokenizer,
//! the parser and the meaning of evaluation.

use vstd::prelude::*;
use crate::host::{first_reply, ReplyView, RequestView};
use crate::lexer::{
    decimal_value, lemma_run_end, lex, lex_from, scan_at, CharClass, LexError, TokenView,
};
use crate::number::{is_finite, lemma_widened_exact, truncated, widened};
use crate::parser::{
    advances, arguments_at, elements_at, expression_at, factor_at, is_additive,
    is_multiplicative, statement, sum_tail, term_at, term_tail, ExprView, ParseError, Parsed,
};
use crate::semantics::{
    element_at, eval, eval_items, is_arithmetic, print_items, run, settled, slot_of, Outcome,
};
use crate::text::is_digit;
use crate::value::ValueView;

verus! {

/// The tokens of a text end with the end marker.
pub proof fn law_tokens_end_with_marker(s: Seq<char>, i: int)
    requires
        lex_from(s, i) is Ok,
    ensures
        lex_from(s, i)->Ok_0.len() > 0,
        lex_from(s, i)->Ok_0.last() == TokenView::EOF,
    decreases s.len() - i,
{
    if 0 <= i < s.len() {
        let step = scan_at(s, i)->Ok_0;
        if i < step.next <= s.len() {
            law_tokens_end_with_marker(s, step.next);
        }
    }
}

/// A text of decimal digits alone is one integer token: the number that
/// the digits write, where it is no more than the largest integer.
pub proof fn law_digits_are_an_integer(digits: Seq<char>)
    requires
        digits.len() > 0,
        forall|i: int| 0 <= i < digits.len() ==> is_digit(#[trigger] digits[i]),
        decimal_value(digits) <= i64::MAX,
    ensures
        lex(digits) == Ok::<Seq<TokenView>, LexError>(
            seq![TokenView::Integer(decimal_value(digits) as i64), TokenView::EOF],
        ),
{
    let len = digits.len() as int;
    lemma_run_end(digits, 0, CharClass::Digit);
    assert(digits.subrange(0, len) =~= digits);
    assert(is_digit(digits[0]));
    assert(lex_from(digits, len) == Ok::<Seq<TokenView>, LexError>(seq![TokenView::EOF]));
    assert(seq![TokenView::Integer(decimal_value(digits) as i64)] + seq![TokenView::EOF]
        =~= seq![TokenView::Integer(decimal_value(digits) as i64), TokenView::EOF]);
}

/// An integer literal up to 2^53 is a number whose integral part is the
/// integer that the literal writes: the statement that consists of the
/// digits is that number, it evaluates to itself without the host, and the
/// double is finite and truncates to the integer.
pub proof fn law_integer_literal(
    digits: Seq<char>,
    env: Map<Seq<char>, ValueView>,
    replies: Seq<ReplyView>,
)
    requires
        digits.len() > 0,
        forall|i: int| 0 <= i < digits.len() ==> is_digit(#[trigger] digits[i]),
        decimal_value(digits) <= 0x20_0000_0000_0000,
    ensures
        ({
            let n = decimal_value(digits) as i64;
            &&& lex(digits) is Ok
            &&& statement(lex(digits)->Ok_0) == Ok::<ExprView, ParseError>(
                ExprView::Number(widened(n)),
            )
            &&& eval(ExprView::Number(widened(n)), env, replies) == settled(
                Ok(ValueView::Number(widened(n))),
                env,
            )
            &&& is_finite(widened(n))
            &&& truncated(widened(n)) == decimal_value(digits)
        }),
{
    let n = decimal_value(digits) as i64;
    law_digits_are_an_integer(digits);
    lemma_widened_exact(n);
    let t = seq![TokenView::Integer(n), TokenView::EOF];
    assert(t[0] == TokenView::Integer(n));
    assert(t[1] == TokenView::EOF);
    assert(factor_at(t, 0) == Ok::<Parsed, ParseError>(
        Parsed { expr: ExprView::Number(widened(n)), next: 1 },
    ));
    assert(term_tail(t, ExprView::Number(widened(n)), 1) == Ok::<Parsed, ParseError>(
        Parsed { expr: ExprView::Number(widened(n)), next: 1 },
    ));
    assert(sum_tail(t, ExprView::Number(widened(n)), 1) == Ok::<Parsed, ParseError>(
        Parsed { expr: ExprView::Number(widened(n)), next: 1 },
    ));
    assert(term_at(t, 0) == Ok::<Parsed, ParseError>(
        Parsed { expr: ExprView::Number(widened(n)), next: 1 },
    ));
}

/// A factor ends after its beginning.
proof fn lemma_factor_advances(t: Seq<TokenView>, pos: int)
    requires
        factor_at(t, pos) is Ok,
    ensures
        advances(pos, factor_at(t, pos)->Ok_0.next, t.len()),
    decreases t.len() - pos, 1int,
{
    if 0 <= pos < t.len() {
        match t[pos] {
            TokenView::Identifier(name) => {
                if pos + 1 < t.len() && t[pos + 1] == TokenView::LeftBracket {
                    law_parse_advances(t, pos + 2);
                }
            },
            TokenView::LeftBracket => {
                lemma_elements_advance(t, pos + 1, Seq::empty());
            },
            _ => {},
        }
    }
}

/// The rest of an array literal ends at or after its beginning.
proof fn lemma_elements_advance(t: Seq<TokenView>, pos: int, done: Seq<ExprView>)
    requires
        0 <= pos <= t.len(),
        elements_at(t, pos, done) is Ok,
    ensures
        pos <= elements_at(t, pos, done)->Ok_0.next <= t.len(),
    decreases t.len() - pos, 4int,
{
    if pos < t.len() && t[pos] != TokenView::RightBracket {
        let element = expression_at(t, pos)->Ok_0;
        let next = if element.next < t.len() && t[element.next] == TokenView::Comma {
            element.next + 1
        } else {
            element.next
        };
        lemma_elements_advance(t, next, done.push(element.expr));
    }
}

/// The rest of a call's arguments ends at or after its beginning.
proof fn lemma_arguments_advance(
    t: Seq<TokenView>,
    name: Seq<char>,
    pos: int,
    done: Seq<ExprView>,
)
    requires
        0 <= pos <= t.len(),
        arguments_at(t, name, pos, done) is Ok,
    ensures
        pos <= arguments_at(t, name, pos, done)->Ok_0.next <= t.len(),
    decreases t.len() - pos, 4int,
{
    if pos < t.len() && t[pos] != TokenView::RightParen {
        if t[pos] == TokenView::Comma {
            lemma_arguments_advance(t, name, pos + 1, done);
        } else {
            let argument = expression_at(t, pos)->Ok_0;
            lemma_arguments_advance(t, name, argument.next, done.push(argument.expr));
        }
    }
}

/// The rest of a term ends at or after its beginning.
proof fn lemma_term_tail_advances(t: Seq<TokenView>, left: ExprView, pos: int)
    requires
        0 <= pos <= t.len(),
        term_tail(t, left, pos) is Ok,
    ensures
        pos <= term_tail(t, left, pos)->Ok_0.next <= t.len(),
    decreases t.len() - pos, 0int,
{
    if pos < t.len() && is_multiplicative(t[pos]) {
        let right = factor_at(t, pos + 1)->Ok_0;
        lemma_term_tail_advances(
            t,
            ExprView::BinaryOp {
                left: Box::new(left),
                op: t[pos]->Operator_0,
                right: Box::new(right.expr),
            },
            right.next,
        );
    }
}

/// The rest of a sum ends at or after its beginning.
proof fn lemma_sum_tail_advances(t: Seq<TokenView>, left: ExprView, pos: int)
    requires
        0 <= pos <= t.len(),
        sum_tail(t, left, pos) is Ok,
    ensures
        pos <= sum_tail(t, left, pos)->Ok_0.next <= t.len(),
    decreases t.len() - pos, 0int,
{
    if pos < t.len() && is_additive(t[pos]) {
        let right = term_at(t, pos + 1)->Ok_0;
        lemma_sum_tail_advances(
            t,
            ExprView::BinaryOp {
                left: Box::new(left),
                op: t[pos]->Operator_0,
                right: Box::new(right.expr),
            },
            right.next,
        );
    }
}

/// Every parse advances: a factor, a term or an expression that begins at
/// `pos` ends after `pos` and within the tokens. So the grammar never
/// refuses a sub-expression for want of progress.
pub proof fn law_parse_advances(t: Seq<TokenView>, pos: int)
    ensures
        factor_at(t, pos) is Ok ==> advances(pos, factor_at(t, pos)->Ok_0.next, t.len()),
        term_at(t, pos) is Ok ==> advances(pos, term_at(t, pos)->Ok_0.next, t.len()),
        expression_at(t, pos) is Ok ==> advances(pos, expression_at(t, pos)->Ok_0.next, t.len()),
    decreases t.len() - pos, 5int,
{
    if factor_at(t, pos) is Ok {
        lemma_factor_advances(t, pos);
    }
    if term_at(t, pos) is Ok {
        let left = factor_at(t, pos)->Ok_0;
        lemma_term_tail_advances(t, left.expr, left.next);
    }
    if expression_at(t, pos) is Ok {
        if 0 <= pos < t.len() && t[pos] is Functions {
            lemma_arguments_advance(t, t[pos]->Functions_0, pos + 2, Seq::empty());
        } else {
            let left = term_at(t, pos)->Ok_0;
            lemma_sum_tail_advances(t, left.expr, left.next);
        }
    }
}

/// What computes for the host in a law: the operators, and the reading of
/// decimal literals.
pub struct Arithmetic {
    pub compute: spec_fn(char, u64, u64) -> u64,
    pub read: spec_fn(Seq<char>) -> u64,
}

/// The expressions made of numeric literals and the five operators alone.
pub open spec fn is_arithmetic_tree(expr: ExprView) -> bool
    decreases expr,
{
    match expr {
        ExprView::Number(_) => true,
        ExprView::Decimal(_) => true,
        ExprView::BinaryOp { left, op, right } => is_arithmetic(op) && is_arithmetic_tree(*left)
            && is_arithmetic_tree(*right),
        _ => false,
    }
}

/// The number that such an expression stands for: each operator applied to
/// the numbers of its two operands.
pub open spec fn arithmetic_value(expr: ExprView, by: Arithmetic) -> u64
    decreases expr,
{
    match expr {
        ExprView::Number(bits) => bits,
        ExprView::Decimal(text) => (by.read)(text),
        ExprView::BinaryOp { left, op, right } => (by.compute)(
            op,
            arithmetic_value(*left, by),
            arithmetic_value(*right, by),
        ),
        _ => 0,
    }
}

/// What its evaluation asks of the host: the left operand's requests, the
/// right operand's, then the operator on their numbers.
pub open spec fn arithmetic_requests(expr: ExprView, by: Arithmetic) -> Seq<RequestView>
    decreases expr,
{
    match expr {
        ExprView::Decimal(text) => seq![RequestView::ReadNumber(text)],
        ExprView::BinaryOp { left, op, right } => (arithmetic_requests(*left, by)
            + arithmetic_requests(*right, by)).push(
            RequestView::Arithmetic {
                op,
                left: arithmetic_value(*left, by),
                right: arithmetic_value(*right, by),
            },
        ),
        _ => Seq::empty(),
    }
}

/// What a host that computes by `by` replies to those requests.
pub open spec fn arithmetic_replies(expr: ExprView, by: Arithmetic) -> Seq<ReplyView>
    decreases expr,
{
    match expr {
        ExprView::Decimal(text) => seq![ReplyView::Number((by.read)(text))],
        ExprView::BinaryOp { left, op, right } => (arithmetic_replies(*left, by)
            + arithmetic_replies(*right, by)).push(
            ReplyView::Number(arithmetic_value(expr, by)),
        ),
        _ => Seq::empty(),
    }
}

/// An expression of numeric literals and operators evaluates to the number
/// that it stands for: with a host that computes by `by`, whatever replies
/// follow, its value is that number, the environment is left as it was, and
/// the host is asked for each operator once, operands first and from left
/// to right.
pub proof fn law_arithmetic(
    expr: ExprView,
    by: Arithmetic,
    env: Map<Seq<char>, ValueView>,
    rest: Seq<ReplyView>,
)
    requires
        is_arithmetic_tree(expr),
    ensures
        arithmetic_replies(expr, by).len() == arithmetic_requests(expr, by).len(),
        eval(expr, env, arithmetic_replies(expr, by) + rest) == (Outcome {
            result: Ok(ValueView::Number(arithmetic_value(expr, by))),
            env,
            requests: arithmetic_requests(expr, by),
        }),
    decreases expr,
{
    match expr {
        ExprView::Number(_) => {
            assert(arithmetic_requests(expr, by) =~= Seq::<RequestView>::empty());
        },
        ExprView::Decimal(text) => {
            assert((arithmetic_replies(expr, by) + rest)[0] == ReplyView::Number((by.read)(text)));
        },
        ExprView::BinaryOp { left, op, right } => {
            let first = arithmetic_replies(*left, by);
            let second = arithmetic_replies(*right, by);
            let answer = ReplyView::Number(arithmetic_value(expr, by));
            let last = seq![answer] + rest;
            let tape = first + (second + last);
            assert(arithmetic_replies(expr, by) + rest =~= tape);
            law_arithmetic(*left, by, env, second + last);
            law_arithmetic(*right, by, env, last);
            assert(tape.skip(first.len() as int) =~= second + last);
            assert(tape.skip((first.len() + second.len()) as int) =~= last);
            assert(first_reply(last) == answer);
        },
        _ => {},
    }
}

/// The tokens that are numeric literals.
pub open spec fn is_literal(t: TokenView) -> bool {
    t is Integer || t is Float
}

/// The expression that a numeric literal is.
pub open spec fn literal(t: TokenView) -> ExprView {
    match t {
        TokenView::Integer(n) => ExprView::Number(widened(n)),
        TokenView::Float(text) => ExprView::Decimal(text),
        _ => ExprView::Number(0),
    }
}

/// The tokens `t[0]` to `t[2k]` are numeric literals with one of the five
/// operators between each two, and no such operator follows them.
pub open spec fn is_arithmetic_text(t: Seq<TokenView>, k: int) -> bool {
    &&& 0 <= k
    &&& 2 * k < t.len()
    &&& forall|j: int|
        0 <= j <= 2 * k ==> if j % 2 == 0 {
            is_literal(#[trigger] t[j])
        } else {
            is_additive(t[j]) || is_multiplicative(t[j])
        }
    &&& (2 * k + 1 < t.len() ==> !(is_additive(t[2 * k + 1]) || is_multiplicative(t[2 * k + 1])))
}

/// Where the term begins that holds the literal at `j`: at the first
/// literal from which only `*`, `/` and `^` lead to `j`.
pub open spec fn term_start(t: Seq<TokenView>, j: int) -> int
    decreases j,
{
    if 2 <= j < t.len() && is_multiplicative(t[j - 1]) {
        term_start(t, j - 2)
    } else {
        j
    }
}

/// The literals from `from` to `j` joined by the operators between them,
/// from left to right.
pub open spec fn product(t: Seq<TokenView>, from: int, j: int) -> ExprView
    decreases j - from,
{
    if j < from + 2 || j < 2 || j >= t.len() {
        literal(t[from])
    } else {
        ExprView::BinaryOp {
            left: Box::new(product(t, from, j - 2)),
            op: t[j - 1]->Operator_0,
            right: Box::new(literal(t[j])),
        }
    }
}

/// The expression that the literals up to `j` write by the usual
/// precedence: the terms, each the product of its literals, joined by the
/// `+` and `-` between them, from left to right.
pub open spec fn sum(t: Seq<TokenView>, j: int) -> ExprView
    decreases j,
{
    let start = term_start(t, j);
    if start < 2 || start > j || start > t.len() {
        product(t, start, j)
    } else {
        ExprView::BinaryOp {
            left: Box::new(sum(t, start - 2)),
            op: t[start - 1]->Operator_0,
            right: Box::new(product(t, start, j)),
        }
    }
}

/// Where the term ends that holds the literal at `j`.
pub open spec fn term_end(t: Seq<TokenView>, j: int, k: int) -> int
    decreases 2 * k - j,
{
    if 0 <= j && j + 2 <= 2 * k && j + 1 < t.len() && is_multiplicative(t[j + 1]) {
        term_end(t, j + 2, k)
    } else {
        j
    }
}

/// From the literal at `j` of a term that begins at `start`, the parser
/// takes the rest of the term, and has then the product of its literals.
proof fn lemma_term_tail(t: Seq<TokenView>, k: int, start: int, j: int)
    requires
        is_arithmetic_text(t, k),
        0 <= start <= j <= 2 * k,
        start % 2 == 0,
        j % 2 == 0,
        term_start(t, j) == start,
        is_arithmetic_tree(product(t, start, j)),
    ensures
        ({
            let end = term_end(t, j, k);
            &&& j <= end <= 2 * k
            &&& end % 2 == 0
            &&& term_start(t, end) == start
            &&& (end < 2 * k ==> is_additive(t[end + 1]))
            &&& is_arithmetic_tree(product(t, start, end))
            &&& term_tail(t, product(t, start, j), j + 1) == Ok::<Parsed, ParseError>(
                Parsed { expr: product(t, start, end), next: end + 1 },
            )
        }),
    decreases 2 * k - j,
{
    if j < 2 * k && is_multiplicative(t[j + 1]) {
        assert(is_literal(t[j + 2]));
        assert(factor_at(t, j + 2) == Ok::<Parsed, ParseError>(
            Parsed { expr: literal(t[j + 2]), next: j + 3 },
        ));
        assert(product(t, start, j + 2) == (ExprView::BinaryOp {
            left: Box::new(product(t, start, j)),
            op: t[j + 1]->Operator_0,
            right: Box::new(literal(t[j + 2])),
        }));
        assert(term_start(t, j + 2) == start);
        assert(is_arithmetic_tree(literal(t[j + 2])));
        assert(is_arithmetic(t[j + 1]->Operator_0));
        lemma_term_tail(t, k, start, j + 2);
    } else {
        if j < 2 * k {
            assert(!is_literal(t[j + 1])) by {
                assert(is_additive(t[j + 1]) || is_multiplicative(t[j + 1]));
            }
        }
    }
}

/// At the beginning of a term the parser takes the whole term, and has the
/// product of its literals.
proof fn lemma_term(t: Seq<TokenView>, k: int, start: int)
    requires
        is_arithmetic_text(t, k),
        0 <= start <= 2 * k,
        start % 2 == 0,
        start == 0 || is_additive(t[start - 1]),
    ensures
        ({
            let end = term_end(t, start, k);
            &&& start <= end <= 2 * k
            &&& end % 2 == 0
            &&& term_start(t, end) == start
            &&& (end < 2 * k ==> is_additive(t[end + 1]))
            &&& is_arithmetic_tree(product(t, start, end))
            &&& term_at(t, start) == Ok::<Parsed, ParseError>(
                Parsed { expr: product(t, start, end), next: end + 1 },
            )
        }),
{
    assert(is_literal(t[start]));
    assert(factor_at(t, start) == Ok::<Parsed, ParseError>(
        Parsed { expr: literal(t[start]), next: start + 1 },
    ));
    assert(product(t, start, start) == literal(t[start]));
    assert(is_arithmetic_tree(literal(t[start])));
    assert(term_start(t, start) == start);
    lemma_term_tail(t, k, start, start);
}

/// From the end of a term at `j`, the parser takes the terms that follow,
/// and has then the sum of all terms.
proof fn lemma_sum_tail(t: Seq<TokenView>, k: int, j: int)
    requires
        is_arithmetic_text(t, k),
        0 <= j <= 2 * k,
        j % 2 == 0,
        j < 2 * k ==> is_additive(t[j + 1]),
        is_arithmetic_tree(sum(t, j)),
    ensures
        is_arithmetic_tree(sum(t, 2 * k)),
        sum_tail(t, sum(t, j), j + 1) == Ok::<Parsed, ParseError>(
            Parsed { expr: sum(t, 2 * k), next: 2 * k + 1 },
        ),
    decreases 2 * k - j,
{
    if j < 2 * k {
        lemma_term(t, k, j + 2);
        let end = term_end(t, j + 2, k);
        assert(sum(t, end) == (ExprView::BinaryOp {
            left: Box::new(sum(t, j)),
            op: t[j + 1]->Operator_0,
            right: Box::new(product(t, j + 2, end)),
        }));
        assert(is_arithmetic(t[j + 1]->Operator_0));
        lemma_sum_tail(t, k, end);
    }
}

/// Precedence and association are the usual ones: a text of numeric
/// literals with operators between them is the expression in which `*`,
/// `/` and `^` bind tighter than `+` and `-`, and operators of one level
/// associate to the left. That expression is made of literals and
/// operators alone, so `law_arithmetic` gives its value.
pub proof fn law_precedence(t: Seq<TokenView>, k: int)
    requires
        is_arithmetic_text(t, k),
    ensures
        statement(t) == Ok::<ExprView, ParseError>(sum(t, 2 * k)),
        is_arithmetic_tree(sum(t, 2 * k)),
{
    lemma_term(t, k, 0);
    let end = term_end(t, 0, k);
    assert(sum(t, end) == product(t, 0, end));
    lemma_sum_tail(t, k, end);
    assert(is_literal(t[0]));
    assert(expression_at(t, 0) == Ok::<Parsed, ParseError>(
        Parsed { expr: sum(t, 2 * k), next: 2 * k + 1 },
    ));
}

/// A text of numeric literals and operators evaluates by the usual
/// precedence: it parses to the expression that `sum` describes, and with a
/// host that computes by `by` that expression has the value that
/// `arithmetic_value` gives it.
pub proof fn law_arithmetic_text(
    t: Seq<TokenView>,
    k: int,
    by: Arithmetic,
    env: Map<Seq<char>, ValueView>,
    rest: Seq<ReplyView>,
)
    requires
        is_arithmetic_text(t, k),
    ensures
        statement(t) == Ok::<ExprView, ParseError>(sum(t, 2 * k)),
        eval(sum(t, 2 * k), env, arithmetic_replies(sum(t, 2 * k), by) + rest) == (Outcome {
            result: Ok(ValueView::Number(arithmetic_value(sum(t, 2 * k), by))),
            env,
            requests: arithmetic_requests(sum(t, 2 * k), by),
        }),
{
    law_precedence(t, k);
    law_arithmetic(sum(t, 2 * k), by, env, rest);
}

/// An assignment is an expression: where the assigned expression has a
/// value, the assignment has the same value, binds the name to it in the
/// environment that the expression left, and asks of the host what the
/// expression asks. Where it has none, neither has the assignment.
pub proof fn law_assignment(
    name: Seq<char>,
    value: ExprView,
    env: Map<Seq<char>, ValueView>,
    replies: Seq<ReplyView>,
)
    ensures
        ({
            let inner = eval(value, env, replies);
            let whole = eval(ExprView::Assignment { name, value: Box::new(value) }, env, replies);
            match inner.result {
                Ok(v) => whole.result == inner.result && whole.env == inner.env.insert(name, v)
                    && whole.env.contains_key(name) && whole.env[name] == v && whole.requests
                    == inner.requests,
                Err(_) => whole == inner,
            }
        }),
{
}

/// Indexing is total: where the array expression gives an array and the
/// index expression a number, the index has a value, whatever the number.
/// It is the item at the number's truncation toward zero where the number
/// is finite and that offset lies within the array, and otherwise the
/// not-a-number.
pub proof fn law_index_is_total(
    array: ExprView,
    index: ExprView,
    env: Map<Seq<char>, ValueView>,
    replies: Seq<ReplyView>,
)
    requires
        eval(array, env, replies).result is Ok,
        eval(array, env, replies).result->Ok_0 is Array,
        ({
            let a = eval(array, env, replies);
            let i = eval(index, a.env, replies.skip(a.requests.len() as int));
            i.result is Ok && i.result->Ok_0 is Number
        }),
    ensures
        ({
            let a = eval(array, env, replies);
            let i = eval(index, a.env, replies.skip(a.requests.len() as int));
            let items = a.result->Ok_0->Array_0;
            let bits = i.result->Ok_0->Number_0;
            let whole = eval(
                ExprView::ArrayAccess { array: Box::new(array), index: Box::new(index) },
                env,
                replies,
            );
            &&& whole.result == Ok::<ValueView, crate::semantics::EvalErrorView>(
                element_at(items, bits),
            )
            &&& element_at(items, bits) == if is_finite(bits) && 0 <= truncated(bits)
                < items.len() {
                items[truncated(bits)]
            } else {
                ValueView::Number(0x7ff8_0000_0000_0000)
            }
        }),
{
}

/// An integer index finds the item at that offset, or the not-a-number:
/// for an integer `i` of magnitude up to 2^53, the double nearest to `i`
/// addresses item `i` of an array of `N` items where `0 <= i < N`, and the
/// not-a-number otherwise.
pub proof fn law_index_by_integer(items: Seq<ValueView>, i: i64)
    requires
        -0x20_0000_0000_0000 <= i <= 0x20_0000_0000_0000,
    ensures
        element_at(items, widened(i)) == if 0 <= i < items.len() {
            items[i as int]
        } else {
            ValueView::Number(0x7ff8_0000_0000_0000)
        },
{
    lemma_widened_exact(i);
}

/// None of the requests asks to show a value.
pub open spec fn shows_nothing(requests: Seq<RequestView>) -> bool {
    forall|i: int| 0 <= i < requests.len() ==> !(#[trigger] requests[i] is Show)
}

/// Evaluation never asks the host to show a value: only a statement does.
pub proof fn law_evaluation_shows_nothing(
    expr: ExprView,
    env: Map<Seq<char>, ValueView>,
    replies: Seq<ReplyView>,
)
    ensures
        shows_nothing(eval(expr, env, replies).requests),
    decreases expr, 0int,
{
    match expr {
        ExprView::Array(items) => {
            lemma_items_show_nothing(items, items.len() as int, env, replies);
        },
        ExprView::ArrayAccess { array, index } => {
            let a = eval(*array, env, replies);
            law_evaluation_shows_nothing(*array, env, replies);
            law_evaluation_shows_nothing(*index, a.env, replies.skip(a.requests.len() as int));
        },
        ExprView::Assignment { name, value } => {
            law_evaluation_shows_nothing(*value, env, replies);
        },
        ExprView::BinaryOp { left, op, right } => {
            let l = eval(*left, env, replies);
            law_evaluation_shows_nothing(*left, env, replies);
            law_evaluation_shows_nothing(*right, l.env, replies.skip(l.requests.len() as int));
        },
        ExprView::FunctionCall { name, args } => {
            lemma_print_shows_nothing(args, args.len() as int, env, replies);
        },
        _ => {},
    }
}

/// The items of an array literal never ask to show a value.
proof fn lemma_items_show_nothing(
    items: Seq<ExprView>,
    upto: int,
    env: Map<Seq<char>, ValueView>,
    replies: Seq<ReplyView>,
)
    ensures
        shows_nothing(eval_items(items, upto, env, replies).requests),
    decreases items, upto,
{
    if 0 < upto <= items.len() {
        let before = eval_items(items, upto - 1, env, replies);
        lemma_items_show_nothing(items, upto - 1, env, replies);
        law_evaluation_shows_nothing(
            items[upto - 1],
            before.env,
            replies.skip(before.requests.len() as int),
        );
    }
}

/// The arguments of `print` never ask to show a value.
proof fn lemma_print_shows_nothing(
    args: Seq<ExprView>,
    upto: int,
    env: Map<Seq<char>, ValueView>,
    replies: Seq<ReplyView>,
)
    ensures
        shows_nothing(print_items(args, upto, env, replies).requests),
    decreases args, upto,
{
    if 0 < upto <= args.len() {
        let before = print_items(args, upto - 1, env, replies);
        lemma_print_shows_nothing(args, upto - 1, env, replies);
        law_evaluation_shows_nothing(
            args[upto - 1],
            before.env,
            replies.skip(before.requests.len() as int),
        );
    }
}

/// A terminator suppresses the output: a statement whose text holds a `;`
/// and whose expression has a value asks the host to show nothing, and
/// binds the value to the variable for its kind, in the environment that
/// the evaluation left.
pub proof fn law_terminator_keeps_the_value(
    input: Seq<char>,
    env: Map<Seq<char>, ValueView>,
    replies: Seq<ReplyView>,
)
    requires
        lex(input) is Ok,
        lex(input)->Ok_0.contains(TokenView::Semicolon),
        statement(lex(input)->Ok_0) is Ok,
        eval(statement(lex(input)->Ok_0)->Ok_0, env, replies).result is Ok,
    ensures
        ({
            let outcome = eval(statement(lex(input)->Ok_0)->Ok_0, env, replies);
            let value = outcome.result->Ok_0;
            let done = run(input, env, replies);
            &&& done.result == Ok::<(), crate::semantics::FailureModel>(())
            &&& shows_nothing(done.requests)
            &&& done.requests == outcome.requests
            &&& done.env == outcome.env.insert(slot_of(value), value)
            &&& done.env[slot_of(value)] == value
        }),
{
    law_evaluation_shows_nothing(statement(lex(input)->Ok_0)->Ok_0, env, replies);
}

/// Without a terminator the value is shown and not kept: a statement whose
/// text holds no `;` and whose expression has a value asks the host, last
/// of all, to show that value, and leaves the environment as the evaluation
/// left it.
pub proof fn law_without_terminator_shows_the_value(
    input: Seq<char>,
    env: Map<Seq<char>, ValueView>,
    replies: Seq<ReplyView>,
)
    requires
        lex(input) is Ok,
        !lex(input)->Ok_0.contains(TokenView::Semicolon),
        statement(lex(input)->Ok_0) is Ok,
        eval(statement(lex(input)->Ok_0)->Ok_0, env, replies).result is Ok,
    ensures
        ({
            let outcome = eval(statement(lex(input)->Ok_0)->Ok_0, env, replies);
            let value = outcome.result->Ok_0;
            let done = run(input, env, replies);
            &&& done.result == Ok::<(), crate::semantics::FailureModel>(())
            &&& done.requests == outcome.requests.push(RequestView::Show(value))
            &&& done.env == outcome.env
        }),
{
}

} // verus!
