//! A program: statements one after the other, each ended by `;`.

use vstd::prelude::*;
use crate::host::{
    answered, lemma_answered_join, lemma_logs_join, lemma_no_exchange, replies_of, requests_of,
    Exchange, Reply, ReplyView, Request,
};
use crate::interpreter::{failure_view, interpret_in};
use crate::semantics::{run, Failure, FailureModel, Run};
use crate::text::{characters, string_of, trim, trimmed};
use crate::value::{Environment, ValueView};

verus! {

/// Where the piece that begins at `i` ends: after the first `;` from `i`
/// on, or at the end of the text.
pub open spec fn piece_end(s: Seq<char>, i: int) -> int
    decreases s.len() - i,
{
    if i < 0 || i >= s.len() {
        i
    } else if s[i] == ';' {
        i + 1
    } else {
        piece_end(s, i + 1)
    }
}

/// A piece that begins within the text ends after its beginning, and
/// within the text.
pub proof fn lemma_piece_end(s: Seq<char>, i: int)
    requires
        0 <= i < s.len(),
    ensures
        i < piece_end(s, i) <= s.len(),
    decreases s.len() - i,
{
    if s[i] != ';' {
        if i + 1 < s.len() {
            lemma_piece_end(s, i + 1);
        } else {
            assert(piece_end(s, i + 1) == i + 1);
        }
    }
}

/// The statements of the text from `i` on. (Each piece ends after its
/// beginning, by `lemma_piece_end`: the test of it below serves the
/// recursion alone.)
pub open spec fn statements_from(s: Seq<char>, i: int) -> Seq<Seq<char>>
    decreases s.len() - i,
{
    if i < 0 || i >= s.len() {
        Seq::empty()
    } else {
        let end = piece_end(s, i);
        if !(i < end <= s.len()) {
            Seq::empty()
        } else {
            let piece = trimmed(s.subrange(i, end));
            if piece.len() == 0 {
                statements_from(s, end)
            } else {
                seq![piece] + statements_from(s, end)
            }
        }
    }
}

/// The statements of a program: the text is cut after each `;`, each piece
/// loses the white space at its ends, and the pieces that are then empty are
/// dropped. A `;` within a string literal or a comment cuts as any other.
pub open spec fn statements(s: Seq<char>) -> Seq<Seq<char>> {
    statements_from(s, 0)
}

/// The texts of a sequence of strings, one for one.
pub open spec fn texts_of(strings: Seq<String>) -> Seq<Seq<char>> {
    strings.map_values(|s: String| s@)
}

/// The statements of a program, in order.
pub fn split_statements(text: &str) -> (r: Vec<String>)
    ensures
        texts_of(r@) == statements(text@),
{
    let chars = characters(text);
    let mut pieces: Vec<String> = Vec::new();
    let mut i: usize = 0;
    assert(texts_of(pieces@) + statements_from(chars@, 0) =~= statements(chars@));
    while i < chars.len()
        invariant
            i <= chars.len(),
            chars@ == text@,
            statements(chars@) == texts_of(pieces@) + statements_from(chars@, i as int),
        decreases chars.len() - i,
    {
        let mut end: usize = i;
        while end < chars.len() && chars[end] != ';'
            invariant
                i <= end <= chars.len(),
                piece_end(chars@, i as int) == piece_end(chars@, end as int),
            decreases chars.len() - end,
        {
            end += 1;
        }
        if end < chars.len() {
            end += 1;
        }
        let piece = string_of(&chars, i, end);
        let statement = trim(piece.as_str());
        let ghost rest = statements_from(chars@, end as int);
        if !statement.as_str().is_empty() {
            proof {
                assert(texts_of(pieces@.push(statement)) =~= texts_of(pieces@).push(statement@));
                assert(texts_of(pieces@).push(statement@) + rest =~= texts_of(pieces@) + (
                seq![statement@] + rest));
            }
            pieces.push(statement);
        }
        i = end;
    }
    assert(texts_of(pieces@) + Seq::<Seq<char>>::empty() =~= texts_of(pieces@));
    pieces
}

/// What carrying out the first `upto` of `texts` comes to, one after the
/// other in one environment, up to the first that fails.
pub open spec fn run_all(
    texts: Seq<Seq<char>>,
    upto: int,
    env: Map<Seq<char>, ValueView>,
    replies: Seq<ReplyView>,
) -> Run
    decreases upto,
{
    if upto <= 0 || upto > texts.len() {
        Run { result: Ok(()), env, requests: Seq::empty() }
    } else {
        let before = run_all(texts, upto - 1, env, replies);
        match before.result {
            Err(_) => before,
            Ok(_) => {
                let step = run(
                    texts[upto - 1],
                    before.env,
                    replies.skip(before.requests.len() as int),
                );
                Run {
                    result: step.result,
                    env: step.env,
                    requests: before.requests + step.requests,
                }
            },
        }
    }
}

/// What carrying out a program comes to: its statements one after the
/// other, up to the first that fails.
pub open spec fn run_program(
    text: Seq<char>,
    env: Map<Seq<char>, ValueView>,
    replies: Seq<ReplyView>,
) -> Run {
    run_all(statements(text), statements(text).len() as int, env, replies)
}

/// Once a statement has failed, the statements after it are not carried
/// out.
pub proof fn lemma_run_stops(
    texts: Seq<Seq<char>>,
    failed: int,
    upto: int,
    env: Map<Seq<char>, ValueView>,
    replies: Seq<ReplyView>,
)
    requires
        0 <= failed <= upto <= texts.len(),
        run_all(texts, failed, env, replies).result is Err,
    ensures
        run_all(texts, upto, env, replies) == run_all(texts, failed, env, replies),
    decreases upto - failed,
{
    if failed < upto {
        lemma_run_stops(texts, failed, upto - 1, env, replies);
    }
}

/// With the replies of `log`, whatever replies might follow them, the first
/// `upto` of `texts` are carried out, leave `after`, and ask what `log`
/// holds.
pub open spec fn explains_all(
    texts: Seq<Seq<char>>,
    upto: int,
    before: Map<Seq<char>, ValueView>,
    log: Seq<Exchange>,
    after: Map<Seq<char>, ValueView>,
) -> bool {
    forall|rest: Seq<ReplyView>| #[trigger]
        run_all(texts, upto, before, replies_of(log) + rest) == (Run {
            result: Ok(()),
            env: after,
            requests: requests_of(log),
        })
}

/// The host gave replies with which carrying out the program `text` in
/// `before` gives `result` and leaves `after`, the requests being what was
/// asked of it.
pub open spec fn executed<H: Fn(Request) -> Reply>(
    host: &H,
    text: Seq<char>,
    before: Map<Seq<char>, ValueView>,
    result: Result<(), FailureModel>,
    after: Map<Seq<char>, ValueView>,
) -> bool {
    exists|log: Seq<Exchange>| #[trigger]
        answered(host, log) && run_program(text, before, replies_of(log)) == (Run {
            result,
            env: after,
            requests: requests_of(log),
        })
}

/// Carries out a program: its statements one after the other in
/// `variables`, up to the first that fails.
pub fn execute<H: Fn(Request) -> Reply>(text: &str, variables: &mut Environment, host: &H) -> (r:
    Result<(), Failure>)
    requires
        old(variables).wf(),
        forall|q: Request| host.requires((q,)),
    ensures
        final(variables).wf(),
        executed(host, text@, old(variables)@, failure_view(r), final(variables)@),
{
    let ghost before = variables@;
    let pieces = split_statements(text);
    let ghost texts = statements(text@);
    let ghost mut log: Seq<Exchange> = Seq::empty();
    let mut i: usize = 0;
    proof {
        lemma_no_exchange();
    }
    while i < pieces.len()
        invariant
            i <= pieces.len(),
            before == old(variables)@,
            texts == statements(text@),
            texts == texts_of(pieces@),
            variables.wf(),
            forall|q: Request| host.requires((q,)),
            answered(host, log),
            explains_all(texts, i as int, before, log, variables@),
        decreases pieces.len() - i,
    {
        let ghost here = variables@;
        let (r, l) = interpret_in(pieces[i].as_str(), variables, host);
        let ghost longer = log + l@;
        let ghost rv = failure_view(r);
        proof {
            lemma_answered_join(host, log, l@);
            assert forall|rest: Seq<ReplyView>| #[trigger]
                run_all(texts, i + 1, before, replies_of(longer) + rest) == (Run {
                    result: rv,
                    env: variables@,
                    requests: requests_of(longer),
                }) by {
                lemma_logs_join(log, l@, rest);
                let tape = replies_of(log) + (replies_of(l@) + rest);
                assert(run_all(texts, i as int, before, tape).env == here);
                assert(run(texts[i as int], here, replies_of(l@) + rest).result == rv);
            }
        }
        match r {
            Err(e) => {
                proof {
                    let none = Seq::<ReplyView>::empty();
                    assert(replies_of(longer) + none =~= replies_of(longer));
                    assert(run_all(texts, i + 1, before, replies_of(longer) + none).result is Err);
                    lemma_run_stops(texts, i + 1, texts.len() as int, before, replies_of(longer));
                }
                return Err(e);
            },
            Ok(_) => {
                proof {
                    log = longer;
                }
            },
        }
        i += 1;
    }
    proof {
        let none = Seq::<ReplyView>::empty();
        assert(replies_of(log) + none =~= replies_of(log));
        assert(run_all(texts, i as int, before, replies_of(log) + none).env == variables@);
    }
    Ok(())
}

} // verus!
