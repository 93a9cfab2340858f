//! The evaluator: a walk over an expression tree that reads and changes the
//! environment, and asks the host for what it does not do itself.

use vstd::prelude::*;
use vstd::pervasive::unreached;
use crate::host::{
    answered, ask, lemma_answered_join, lemma_logs_join, lemma_no_exchange, lemma_one_exchange,
    replies_of, requests_of, Exchange, Reply, ReplyView, Request, RequestView,
};
use crate::lexer::{print_name, token_views, tokenize, write_name, Token, TokenView};
use crate::number::{offset, NAN, ZERO};
use crate::parser::{expr_views, lemma_expr_views, parse, Expr, ExprView};
use crate::semantics::{
    eval, eval_items, lemma_items_stop, lemma_print_stops, print_items, run, EvalError,
    EvalErrorView, Failure, FailureModel, Outcome, Run,
};
use crate::text::{same_text, trim};
use crate::value::{
    lemma_value_views, lemma_value_views_push, value_views, Environment, Value, ValueView,
};

verus! {

/// What a result is, over views.
pub open spec fn result_view(r: Result<Value, EvalError>) -> Result<ValueView, EvalErrorView> {
    match r {
        Ok(v) => Ok(v@),
        Err(e) => Err(e@),
    }
}

/// With the replies of `log`, whatever replies might follow them, the
/// evaluation of `expr` in `before` gives `result`, leaves `after`, and asks
/// what `log` holds.
pub open spec fn explains(
    expr: ExprView,
    before: Map<Seq<char>, ValueView>,
    log: Seq<Exchange>,
    result: Result<ValueView, EvalErrorView>,
    after: Map<Seq<char>, ValueView>,
) -> bool {
    forall|rest: Seq<ReplyView>| #[trigger]
        eval(expr, before, replies_of(log) + rest) == (Outcome {
            result,
            env: after,
            requests: requests_of(log),
        })
}

/// The same of the first `upto` items of an array literal.
pub open spec fn explains_items(
    items: Seq<ExprView>,
    upto: int,
    before: Map<Seq<char>, ValueView>,
    log: Seq<Exchange>,
    values: Seq<ValueView>,
    after: Map<Seq<char>, ValueView>,
) -> bool {
    forall|rest: Seq<ReplyView>| #[trigger]
        eval_items(items, upto, before, replies_of(log) + rest) == (Outcome {
            result: Ok(ValueView::Array(values)),
            env: after,
            requests: requests_of(log),
        })
}

/// The same of the first `upto` arguments of `print`.
pub open spec fn explains_printed(
    args: Seq<ExprView>,
    upto: int,
    before: Map<Seq<char>, ValueView>,
    log: Seq<Exchange>,
    after: Map<Seq<char>, ValueView>,
) -> bool {
    forall|rest: Seq<ReplyView>| #[trigger]
        print_items(args, upto, before, replies_of(log) + rest) == (Outcome {
            result: Ok(ValueView::Number(0)),
            env: after,
            requests: requests_of(log),
        })
}

/// Evaluates a binary operation: both operands, then the operator.
fn evaluate_binary<H: Fn(Request) -> Reply>(
    expr: &Expr,
    variables: &mut Environment,
    host: &H,
) -> (r: (Result<Value, EvalError>, Ghost<Seq<Exchange>>))
    requires
        expr is BinaryOp,
        old(variables).wf(),
        forall|q: Request| host.requires((q,)),
    ensures
        final(variables).wf(),
        answered(host, r.1@),
        explains(expr@, old(variables)@, r.1@, result_view(r.0), final(variables)@),
    decreases expr, 0int,
{
    match expr {
        Expr::BinaryOp { left, op, right } => {
            let ghost before = variables@;
            let (l, first) = evaluate_in(left, variables, host);
            let ghost middle = variables@;
            let a = match l {
                Err(e) => {
                    proof {
                        assert forall|rest: Seq<ReplyView>| #[trigger]
                            eval(expr@, before, replies_of(first@) + rest) == (Outcome {
                                result: Err(e@),
                                env: middle,
                                requests: requests_of(first@),
                            }) by {
                            assert(eval((**left)@, before, replies_of(first@) + rest).result is Err);
                        }
                    }
                    return (Err(e), first);
                },
                Ok(a) => a,
            };
            let (r, second) = evaluate_in(right, variables, host);
            let ghost both = first@ + second@;
            let ghost after = variables@;
            let ghost rv = result_view(r);
            proof {
                lemma_answered_join(host, first@, second@);
            }
            let b = match r {
                Err(e) => {
                    proof {
                        assert forall|rest: Seq<ReplyView>| #[trigger]
                            eval(expr@, before, replies_of(both) + rest) == (Outcome {
                                result: Err(e@),
                                env: after,
                                requests: requests_of(both),
                            }) by {
                            lemma_logs_join(first@, second@, rest);
                            let tape = replies_of(first@) + (replies_of(second@) + rest);
                            assert(eval((**left)@, before, tape).result == Ok::<
                                ValueView,
                                EvalErrorView,
                            >(a@));
                            assert(eval((**right)@, middle, replies_of(second@) + rest).result
                                == rv);
                        }
                    }
                    return (Err(e), Ghost(both));
                },
                Ok(b) => b,
            };
            let ghost av = a@;
            let ghost bv = b@;
            match (a, b) {
                (Value::Number(x), Value::Number(y)) => {
                    let op = *op;
                    if !(op == '+' || op == '-' || op == '*' || op == '/' || op == '^') {
                        proof {
                            assert forall|rest: Seq<ReplyView>| #[trigger]
                                eval(expr@, before, replies_of(both) + rest) == (Outcome {
                                    result: Err(EvalErrorView::UnsupportedOperator(op)),
                                    env: after,
                                    requests: requests_of(both),
                                }) by {
                                lemma_logs_join(first@, second@, rest);
                                let tape = replies_of(first@) + (replies_of(second@) + rest);
                                assert(eval((**left)@, before, tape).result == Ok::<
                                    ValueView,
                                    EvalErrorView,
                                >(av));
                                assert(eval((**right)@, middle, replies_of(second@) + rest).result
                                    == rv);
                            }
                        }
                        return (Err(EvalError::UnsupportedOperator(op)), Ghost(both));
                    }
                    let (reply, third) = ask(host, Request::Arithmetic { op, left: x, right: y });
                    let ghost answer = reply@;
                    let result = match reply {
                        Reply::Number(bits) => Ok(Value::Number(bits)),
                        _ => Err(EvalError::UnexpectedReply),
                    };
                    let ghost all = both + seq![third@];
                    proof {
                        lemma_answered_join(host, both, seq![third@]);
                        assert forall|rest: Seq<ReplyView>| #[trigger]
                            eval(expr@, before, replies_of(all) + rest) == (Outcome {
                                result: result_view(result),
                                env: after,
                                requests: requests_of(all),
                            }) by {
                            let last = replies_of(seq![third@]) + rest;
                            lemma_logs_join(both, seq![third@], rest);
                            lemma_logs_join(first@, second@, last);
                            lemma_one_exchange(third@, rest);
                            let tape = replies_of(first@) + (replies_of(second@) + last);
                            assert(eval((**left)@, before, tape).result == Ok::<
                                ValueView,
                                EvalErrorView,
                            >(av));
                            assert(eval((**right)@, middle, replies_of(second@) + last).result
                                == rv);
                            assert(tape.skip((first@.len() + second@.len()) as int) =~= last);
                            assert(requests_of(both) + seq![third@.request@] =~= requests_of(
                                both,
                            ).push(third@.request@));
                        }
                    }
                    (result, Ghost(all))
                },
                _ => {
                    proof {
                        assert forall|rest: Seq<ReplyView>| #[trigger]
                            eval(expr@, before, replies_of(both) + rest) == (Outcome {
                                result: Err(EvalErrorView::NonNumericOperand),
                                env: after,
                                requests: requests_of(both),
                            }) by {
                            lemma_logs_join(first@, second@, rest);
                            let tape = replies_of(first@) + (replies_of(second@) + rest);
                            assert(eval((**left)@, before, tape).result == Ok::<
                                ValueView,
                                EvalErrorView,
                            >(av));
                            assert(eval((**right)@, middle, replies_of(second@) + rest).result
                                == rv);
                        }
                    }
                    (Err(EvalError::NonNumericOperand), Ghost(both))
                },
            }
        },
        _ => unreached(),
    }
}

/// Evaluates an index: the array, then the index, then the item.
fn evaluate_access<H: Fn(Request) -> Reply>(
    expr: &Expr,
    variables: &mut Environment,
    host: &H,
) -> (r: (Result<Value, EvalError>, Ghost<Seq<Exchange>>))
    requires
        expr is ArrayAccess,
        old(variables).wf(),
        forall|q: Request| host.requires((q,)),
    ensures
        final(variables).wf(),
        answered(host, r.1@),
        explains(expr@, old(variables)@, r.1@, result_view(r.0), final(variables)@),
    decreases expr, 0int,
{
    match expr {
        Expr::ArrayAccess { array, index } => {
            let ghost before = variables@;
            let (a, first) = evaluate_in(array, variables, host);
            let ghost middle = variables@;
            let ghost av = result_view(a);
            let items = match a {
                Ok(Value::Array(items)) => items,
                Ok(other) => {
                    proof {
                        assert forall|rest: Seq<ReplyView>| #[trigger]
                            eval(expr@, before, replies_of(first@) + rest) == (Outcome {
                                result: Err(EvalErrorView::NotAnArray),
                                env: middle,
                                requests: requests_of(first@),
                            }) by {
                            assert(eval((**array)@, before, replies_of(first@) + rest).result
                                == av);
                        }
                    }
                    return (Err(EvalError::NotAnArray), first);
                },
                Err(e) => {
                    proof {
                        assert forall|rest: Seq<ReplyView>| #[trigger]
                            eval(expr@, before, replies_of(first@) + rest) == (Outcome {
                                result: Err(e@),
                                env: middle,
                                requests: requests_of(first@),
                            }) by {
                            assert(eval((**array)@, before, replies_of(first@) + rest).result
                                == av);
                        }
                    }
                    return (Err(e), first);
                },
            };
            let ghost held = value_views(items@);
            let (i, second) = evaluate_in(index, variables, host);
            let ghost both = first@ + second@;
            let ghost after = variables@;
            let ghost iv = result_view(i);
            let result = match i {
                Err(e) => Err(e),
                Ok(Value::Number(bits)) => {
                    proof {
                        lemma_value_views(items@);
                    }
                    match offset(bits, items.len()) {
                        Some(k) => Ok(items[k].clone()),
                        None => Ok(Value::Number(NAN)),
                    }
                },
                Ok(_) => Err(EvalError::IndexNotANumber),
            };
            proof {
                lemma_answered_join(host, first@, second@);
                assert forall|rest: Seq<ReplyView>| #[trigger]
                    eval(expr@, before, replies_of(both) + rest) == (Outcome {
                        result: result_view(result),
                        env: after,
                        requests: requests_of(both),
                    }) by {
                    lemma_logs_join(first@, second@, rest);
                    let tape = replies_of(first@) + (replies_of(second@) + rest);
                    assert(eval((**array)@, before, tape).result == Ok::<ValueView, EvalErrorView>(
                        ValueView::Array(held),
                    ));
                    assert(eval((**index)@, middle, replies_of(second@) + rest).result == iv);
                }
            }
            (result, Ghost(both))
        },
        _ => unreached(),
    }
}

/// Evaluates an array literal: its items from left to right.
fn evaluate_array<H: Fn(Request) -> Reply>(
    expr: &Expr,
    variables: &mut Environment,
    host: &H,
) -> (r: (Result<Value, EvalError>, Ghost<Seq<Exchange>>))
    requires
        expr is Array,
        old(variables).wf(),
        forall|q: Request| host.requires((q,)),
    ensures
        final(variables).wf(),
        answered(host, r.1@),
        explains(expr@, old(variables)@, r.1@, result_view(r.0), final(variables)@),
    decreases expr, 0int,
{
    match expr {
        Expr::Array(elements) => {
            let ghost before = variables@;
            let ghost items = expr_views(elements@);
            let mut values: Vec<Value> = Vec::new();
            let ghost mut log: Seq<Exchange> = Seq::empty();
            let mut i: usize = 0;
            proof {
                lemma_no_exchange();
                lemma_expr_views(elements@);
            }
            while i < elements.len()
                invariant
                    i <= elements.len(),
                    *expr == Expr::Array(*elements),
                    before == old(variables)@,
                    items == expr_views(elements@),
                    items.len() == elements.len(),
                    variables.wf(),
                    forall|q: Request| host.requires((q,)),
                    answered(host, log),
                    explains_items(items, i as int, before, log, value_views(values@), variables@),
                decreases elements.len() - i,
            {
                let ghost here = variables@;
                let ghost so_far = value_views(values@);
                assert(decreases_to!(*expr => expr->Array_0));
                assert(decreases_to!(expr->Array_0 => expr->Array_0[i as int]));
                let (r, l) = evaluate_in(&elements[i], variables, host);
                let ghost longer = log + l@;
                let ghost rv = result_view(r);
                proof {
                    lemma_answered_join(host, log, l@);
                    lemma_expr_views(elements@);
                    assert forall|rest: Seq<ReplyView>| #[trigger]
                        eval_items(items, i + 1, before, replies_of(longer) + rest) == (Outcome {
                            result: match rv {
                                Ok(v) => Ok(ValueView::Array(so_far.push(v))),
                                Err(e) => Err(e),
                            },
                            env: variables@,
                            requests: requests_of(longer),
                        }) by {
                        lemma_logs_join(log, l@, rest);
                        let tape = replies_of(log) + (replies_of(l@) + rest);
                        assert(eval_items(items, i as int, before, tape).env == here);
                        assert(eval(items[i as int], here, replies_of(l@) + rest).result == rv);
                    }
                }
                match r {
                    Err(e) => {
                        proof {
                            assert forall|rest: Seq<ReplyView>| #[trigger]
                                eval(expr@, before, replies_of(longer) + rest) == (Outcome {
                                    result: Err(e@),
                                    env: variables@,
                                    requests: requests_of(longer),
                                }) by {
                                let tape = replies_of(longer) + rest;
                                assert(eval_items(items, i + 1, before, tape).result is Err);
                                lemma_items_stop(items, i + 1, items.len() as int, before, tape);
                            }
                        }
                        return (Err(e), Ghost(longer));
                    },
                    Ok(v) => {
                        proof {
                            lemma_value_views_push(values@, v);
                            log = longer;
                        }
                        values.push(v);
                    },
                }
                i += 1;
            }
            proof {
                assert forall|rest: Seq<ReplyView>| #[trigger]
                    eval(expr@, before, replies_of(log) + rest) == (Outcome {
                        result: Ok(ValueView::Array(value_views(values@))),
                        env: variables@,
                        requests: requests_of(log),
                    }) by {
                    assert(eval_items(items, i as int, before, replies_of(log) + rest).env
                        == variables@);
                }
            }
            (Ok(Value::Array(values)), Ghost(log))
        },
        _ => unreached(),
    }
}

/// Evaluates a call of `print`: each argument is evaluated and written,
/// then the line is ended.
fn evaluate_print<H: Fn(Request) -> Reply>(
    expr: &Expr,
    variables: &mut Environment,
    host: &H,
) -> (r: (Result<Value, EvalError>, Ghost<Seq<Exchange>>))
    requires
        expr is FunctionCall,
        expr->FunctionCall_name@ == print_name(),
        old(variables).wf(),
        forall|q: Request| host.requires((q,)),
    ensures
        final(variables).wf(),
        answered(host, r.1@),
        explains(expr@, old(variables)@, r.1@, result_view(r.0), final(variables)@),
    decreases expr, 0int,
{
    match expr {
        Expr::FunctionCall { name, args } => {
            let ghost before = variables@;
            let ghost items = expr_views(args@);
            let ghost mut log: Seq<Exchange> = Seq::empty();
            let mut i: usize = 0;
            proof {
                lemma_no_exchange();
                lemma_expr_views(args@);
            }
            while i < args.len()
                invariant
                    i <= args.len(),
                    *expr == (Expr::FunctionCall { name: *name, args: *args }),
                    name@ == print_name(),
                    before == old(variables)@,
                    items == expr_views(args@),
                    items.len() == args.len(),
                    variables.wf(),
                    forall|q: Request| host.requires((q,)),
                    answered(host, log),
                    explains_printed(items, i as int, before, log, variables@),
                decreases args.len() - i,
            {
                let ghost here = variables@;
                assert(decreases_to!(*expr => expr->FunctionCall_args));
                assert(decreases_to!(expr->FunctionCall_args => expr->FunctionCall_args[i as int]));
                let (r, l) = evaluate_in(&args[i], variables, host);
                let ghost longer = log + l@;
                let ghost rv = result_view(r);
                proof {
                    lemma_answered_join(host, log, l@);
                    lemma_expr_views(args@);
                }
                let shown = match r {
                    Ok(Value::Array(_)) => Err(EvalError::UnprintableArgument),
                    Ok(v) => Ok(v),
                    Err(e) => Err(e),
                };
                match shown {
                    Err(e) => {
                        proof {
                            assert forall|rest: Seq<ReplyView>| #[trigger]
                                eval(expr@, before, replies_of(longer) + rest) == (Outcome {
                                    result: Err(e@),
                                    env: variables@,
                                    requests: requests_of(longer),
                                }) by {
                                lemma_logs_join(log, l@, rest);
                                let tape = replies_of(log) + (replies_of(l@) + rest);
                                assert(print_items(items, i as int, before, tape).env == here);
                                assert(eval(items[i as int], here, replies_of(l@) + rest).result
                                    == rv);
                                assert(print_items(items, i + 1, before, tape).result is Err);
                                lemma_print_stops(items, i + 1, items.len() as int, before, tape);
                            }
                        }
                        return (Err(e), Ghost(longer));
                    },
                    Ok(v) => {
                        let ghost vv = v@;
                        let (_, x) = ask(host, Request::PrintItem(v));
                        let ghost all = longer + seq![x@];
                        proof {
                            lemma_answered_join(host, longer, seq![x@]);
                            assert forall|rest: Seq<ReplyView>| #[trigger]
                                print_items(items, i + 1, before, replies_of(all) + rest)
                                    == (Outcome {
                                    result: Ok(ValueView::Number(0)),
                                    env: variables@,
                                    requests: requests_of(all),
                                }) by {
                                let last = replies_of(seq![x@]) + rest;
                                lemma_logs_join(longer, seq![x@], rest);
                                lemma_logs_join(log, l@, last);
                                lemma_one_exchange(x@, rest);
                                let tape = replies_of(log) + (replies_of(l@) + last);
                                assert(print_items(items, i as int, before, tape).env == here);
                                assert(eval(items[i as int], here, replies_of(l@) + last).result
                                    == rv);
                                assert(requests_of(longer) + seq![x@.request@] =~= requests_of(
                                    longer,
                                ).push(RequestView::PrintItem(vv)));
                            }
                            log = all;
                        }
                    },
                }
                i += 1;
            }
            let (_, x) = ask(host, Request::PrintEnd);
            let ghost all = log + seq![x@];
            proof {
                lemma_answered_join(host, log, seq![x@]);
                assert forall|rest: Seq<ReplyView>| #[trigger]
                    eval(expr@, before, replies_of(all) + rest) == (Outcome {
                        result: Ok(ValueView::Number(0)),
                        env: variables@,
                        requests: requests_of(all),
                    }) by {
                    let last = replies_of(seq![x@]) + rest;
                    lemma_logs_join(log, seq![x@], rest);
                    lemma_one_exchange(x@, rest);
                    assert(print_items(items, i as int, before, replies_of(log) + last).env
                        == variables@);
                    assert(requests_of(log) + seq![x@.request@] =~= requests_of(log).push(
                        RequestView::PrintEnd,
                    ));
                }
            }
            (Ok(Value::Number(ZERO)), Ghost(all))
        },
        _ => unreached(),
    }
}

/// Evaluates a call of a function by its name.
fn evaluate_call<H: Fn(Request) -> Reply>(
    expr: &Expr,
    variables: &mut Environment,
    host: &H,
) -> (r: (Result<Value, EvalError>, Ghost<Seq<Exchange>>))
    requires
        expr is FunctionCall,
        old(variables).wf(),
        forall|q: Request| host.requires((q,)),
    ensures
        final(variables).wf(),
        answered(host, r.1@),
        explains(expr@, old(variables)@, r.1@, result_view(r.0), final(variables)@),
    decreases expr, 1int,
{
    match expr {
        Expr::FunctionCall { name, args } => {
            let ghost before = variables@;
            proof {
                reveal_strlit("print");
                reveal_strlit("write");
                assert("print"@ =~= print_name());
                assert("write"@ =~= write_name());
                lemma_no_exchange();
                lemma_expr_views(args@);
            }
            if same_text(name.as_str(), "print") {
                evaluate_print(expr, variables, host)
            } else if same_text(name.as_str(), "write") {
                if args.len() > 0 {
                    return (Err(EvalError::UnexpectedArguments), Ghost(Seq::empty()));
                }
                let (line, x) = ask(host, Request::ReadLine);
                let text = match line {
                    Reply::Text(line) => trim(line.as_str()),
                    _ => {
                        let ghost log = seq![x@];
                        proof {
                            assert forall|rest: Seq<ReplyView>| #[trigger]
                                eval(expr@, before, replies_of(log) + rest) == (Outcome {
                                    result: Err(EvalErrorView::UnexpectedReply),
                                    env: before,
                                    requests: requests_of(log),
                                }) by {
                                lemma_one_exchange(x@, rest);
                            }
                        }
                        return (Err(EvalError::UnexpectedReply), Ghost(log));
                    },
                };
                let (reply, y) = ask(host, Request::ReadNumber(text.clone()));
                let value = match reply {
                    Reply::Number(bits) => Value::Number(bits),
                    _ => Value::String(text),
                };
                let ghost log = seq![x@] + seq![y@];
                proof {
                    lemma_answered_join(host, seq![x@], seq![y@]);
                    assert forall|rest: Seq<ReplyView>| #[trigger]
                        eval(expr@, before, replies_of(log) + rest) == (Outcome {
                            result: Ok(value@),
                            env: before,
                            requests: requests_of(log),
                        }) by {
                        let last = replies_of(seq![y@]) + rest;
                        lemma_logs_join(seq![x@], seq![y@], rest);
                        lemma_one_exchange(x@, last);
                        lemma_one_exchange(y@, rest);
                        assert(requests_of(seq![x@]) + requests_of(seq![y@]) =~= seq![
                            x@.request@,
                            y@.request@,
                        ]);
                    }
                }
                (Ok(value), Ghost(log))
            } else {
                (Err(EvalError::UnknownFunction(name.clone())), Ghost(Seq::empty()))
            }
        },
        _ => unreached(),
    }
}

/// Evaluates `expr`, and says which exchanges with the host it made.
fn evaluate_in<H: Fn(Request) -> Reply>(expr: &Expr, variables: &mut Environment, host: &H) -> (r: (
    Result<Value, EvalError>,
    Ghost<Seq<Exchange>>,
))
    requires
        old(variables).wf(),
        forall|q: Request| host.requires((q,)),
    ensures
        final(variables).wf(),
        answered(host, r.1@),
        explains(expr@, old(variables)@, r.1@, result_view(r.0), final(variables)@),
    decreases expr, 2int,
{
    let ghost before = variables@;
    match expr {
        Expr::Number(bits) => {
            proof {
                lemma_no_exchange();
            }
            (Ok(Value::Number(*bits)), Ghost(Seq::empty()))
        },
        Expr::String(text) => {
            proof {
                lemma_no_exchange();
            }
            (Ok(Value::String(text.clone())), Ghost(Seq::empty()))
        },
        Expr::Variable(name) => {
            proof {
                lemma_no_exchange();
            }
            let found = match variables.get(name.as_str()) {
                Some(value) => Ok(value.clone()),
                None => Err(EvalError::UndefinedVariable(name.clone())),
            };
            (found, Ghost(Seq::empty()))
        },
        Expr::Decimal(text) => {
            let (reply, x) = ask(host, Request::ReadNumber(text.clone()));
            let result = match reply {
                Reply::Number(bits) => Ok(Value::Number(bits)),
                _ => Err(EvalError::InvalidNumber),
            };
            let ghost log = seq![x@];
            proof {
                assert forall|rest: Seq<ReplyView>| #[trigger]
                    eval(expr@, before, replies_of(seq![x@]) + rest) == (Outcome {
                        result: result_view(result),
                        env: before,
                        requests: requests_of(seq![x@]),
                    }) by {
                    lemma_one_exchange(x@, rest);
                }
            }
            (result, Ghost(log))
        },
        Expr::Assignment { name, value } => {
            let (r, log) = evaluate_in(value, variables, host);
            let ghost middle = variables@;
            let ghost rv = result_view(r);
            let result = match r {
                Ok(v) => {
                    variables.insert(name.clone(), v.clone());
                    Ok(v)
                },
                Err(e) => Err(e),
            };
            proof {
                assert forall|rest: Seq<ReplyView>| #[trigger]
                    eval(expr@, before, replies_of(log@) + rest) == (Outcome {
                        result: rv,
                        env: variables@,
                        requests: requests_of(log@),
                    }) by {
                    assert(eval((**value)@, before, replies_of(log@) + rest).env == middle);
                }
            }
            (result, log)
        },
        Expr::BinaryOp { .. } => evaluate_binary(expr, variables, host),
        Expr::ArrayAccess { .. } => evaluate_access(expr, variables, host),
        Expr::Array(_) => evaluate_array(expr, variables, host),
        Expr::FunctionCall { .. } => evaluate_call(expr, variables, host),
    }
}

/// The host gave replies with which the evaluation of `expr` in `before`
/// gives `result` and leaves `after`, the requests being what was asked of
/// it.
pub open spec fn evaluated<H: Fn(Request) -> Reply>(
    host: &H,
    expr: ExprView,
    before: Map<Seq<char>, ValueView>,
    result: Result<ValueView, EvalErrorView>,
    after: Map<Seq<char>, ValueView>,
) -> bool {
    exists|log: Seq<Exchange>| #[trigger]
        answered(host, log) && eval(expr, before, replies_of(log)) == (Outcome {
            result,
            env: after,
            requests: requests_of(log),
        })
}

/// Evaluates `expr` in the environment `variables`.
///
/// Literals give their value, a variable what it is bound to, an array
/// literal the array of its items' values from left to right, an index the
/// item at the truncated offset or the not-a-number, an assignment the value
/// that it binds. The host computes the operators, reads decimal literals,
/// writes for `print` and reads for `write`.
pub fn evaluate<H: Fn(Request) -> Reply>(expr: &Expr, variables: &mut Environment, host: &H) -> (r:
    Result<Value, EvalError>)
    requires
        old(variables).wf(),
        forall|q: Request| host.requires((q,)),
    ensures
        final(variables).wf(),
        evaluated(host, expr@, old(variables)@, result_view(r), final(variables)@),
{
    let ghost before = variables@;
    let (r, log) = evaluate_in(expr, variables, host);
    proof {
        assert(replies_of(log@) + Seq::<ReplyView>::empty() =~= replies_of(log@));
        assert(eval(expr@, before, replies_of(log@) + Seq::<ReplyView>::empty()).result
            == result_view(r));
        assert(answered(host, log@));
    }
    r
}

/// What a result of a statement is, over views.
pub open spec fn failure_view(r: Result<(), Failure>) -> Result<(), FailureModel> {
    match r {
        Ok(_) => Ok(()),
        Err(e) => Err(e@),
    }
}

/// With the replies of `log`, whatever replies might follow them, carrying
/// out `input` in `before` gives `result`, leaves `after`, and asks what
/// `log` holds.
pub open spec fn explains_run(
    input: Seq<char>,
    before: Map<Seq<char>, ValueView>,
    log: Seq<Exchange>,
    result: Result<(), FailureModel>,
    after: Map<Seq<char>, ValueView>,
) -> bool {
    forall|rest: Seq<ReplyView>| #[trigger]
        run(input, before, replies_of(log) + rest) == (Run {
            result,
            env: after,
            requests: requests_of(log),
        })
}

/// The host gave replies with which carrying out `input` in `before` gives
/// `result` and leaves `after`, the requests being what was asked of it.
pub open spec fn interpreted<H: Fn(Request) -> Reply>(
    host: &H,
    input: Seq<char>,
    before: Map<Seq<char>, ValueView>,
    result: Result<(), FailureModel>,
    after: Map<Seq<char>, ValueView>,
) -> bool {
    exists|log: Seq<Exchange>| #[trigger]
        answered(host, log) && run(input, before, replies_of(log)) == (Run {
            result,
            env: after,
            requests: requests_of(log),
        })
}

/// Whether one of the tokens is the terminator.
fn has_semicolon(tokens: &Vec<Token>) -> (r: bool)
    ensures
        r == token_views(tokens@).contains(TokenView::Semicolon),
{
    let mut i: usize = 0;
    while i < tokens.len()
        invariant
            i <= tokens.len(),
            forall|k: int| 0 <= k < i ==> token_views(tokens@)[k] != TokenView::Semicolon,
        decreases tokens.len() - i,
    {
        if let Token::Semicolon = tokens[i] {
            assert(token_views(tokens@)[i as int] == TokenView::Semicolon);
            return true;
        }
        i += 1;
    }
    false
}

/// Carries out one statement, and says which exchanges with the host it
/// made.
pub(crate) fn interpret_in<H: Fn(Request) -> Reply>(
    input: &str,
    variables: &mut Environment,
    host: &H,
) -> (r: (Result<(), Failure>, Ghost<Seq<Exchange>>))
    requires
        old(variables).wf(),
        forall|q: Request| host.requires((q,)),
    ensures
        final(variables).wf(),
        answered(host, r.1@),
        explains_run(input@, old(variables)@, r.1@, failure_view(r.0), final(variables)@),
{
    let ghost before = variables@;
    proof {
        lemma_no_exchange();
    }
    let tokens = match tokenize(input) {
        Ok(tokens) => tokens,
        Err(e) => {
            return (Err(Failure::Lex(e)), Ghost(Seq::empty()));
        },
    };
    let suppressed = has_semicolon(&tokens);
    let expr = match parse(tokens.as_slice()) {
        Ok(expr) => expr,
        Err(e) => {
            return (Err(Failure::Parse(e)), Ghost(Seq::empty()));
        },
    };
    let (r, log) = evaluate_in(&expr, variables, host);
    let ghost after = variables@;
    let ghost rv = result_view(r);
    match r {
        Err(e) => {
            proof {
                assert forall|rest: Seq<ReplyView>| #[trigger]
                    run(input@, before, replies_of(log@) + rest) == (Run {
                        result: Err(FailureModel::Eval(e@)),
                        env: after,
                        requests: requests_of(log@),
                    }) by {
                    assert(eval(expr@, before, replies_of(log@) + rest).result == rv);
                }
            }
            (Err(Failure::Eval(e)), log)
        },
        Ok(value) => {
            if suppressed {
                let slot = match &value {
                    Value::Number(_) => "_tnum_",
                    Value::String(_) => "_tstr_",
                    Value::Array(_) => "_tarr_",
                };
                variables.insert(slot.to_owned(), value);
                proof {
                    assert forall|rest: Seq<ReplyView>| #[trigger]
                        run(input@, before, replies_of(log@) + rest) == (Run {
                            result: Ok(()),
                            env: variables@,
                            requests: requests_of(log@),
                        }) by {
                        assert(eval(expr@, before, replies_of(log@) + rest).result == rv);
                    }
                }
                (Ok(()), log)
            } else {
                let ghost shown = value@;
                let (_, x) = ask(host, Request::Show(value));
                let ghost all = log@ + seq![x@];
                proof {
                    lemma_answered_join(host, log@, seq![x@]);
                    assert forall|rest: Seq<ReplyView>| #[trigger]
                        run(input@, before, replies_of(all) + rest) == (Run {
                            result: Ok(()),
                            env: after,
                            requests: requests_of(all),
                        }) by {
                        lemma_logs_join(log@, seq![x@], rest);
                        lemma_one_exchange(x@, rest);
                        assert(eval(
                            expr@,
                            before,
                            replies_of(log@) + (replies_of(seq![x@]) + rest),
                        ).result == rv);
                        assert(requests_of(log@) + seq![x@.request@] =~= requests_of(log@).push(
                            RequestView::Show(shown),
                        ));
                    }
                }
                (Ok(()), Ghost(all))
            }
        },
    }
}

/// Carries out one statement: splits `input` into tokens, parses them and
/// evaluates the expression in `variables`.
///
/// Where the text holds a `;`, the value is bound to `_tnum_`, `_tstr_` or
/// `_tarr_` by its kind and nothing is shown. Else the host is asked to show
/// the value, and no such variable is touched.
pub fn interpret<H: Fn(Request) -> Reply>(input: &str, variables: &mut Environment, host: &H) -> (r:
    Result<(), Failure>)
    requires
        old(variables).wf(),
        forall|q: Request| host.requires((q,)),
    ensures
        final(variables).wf(),
        interpreted(host, input@, old(variables)@, failure_view(r), final(variables)@),
{
    let ghost before = variables@;
    let (r, log) = interpret_in(input, variables, host);
    proof {
        assert(replies_of(log@) + Seq::<ReplyView>::empty() =~= replies_of(log@));
        assert(run(input@, before, replies_of(log@) + Seq::<ReplyView>::empty()).result
            == failure_view(r));
        assert(answered(host, log@));
    }
    r
}

} // verus!
