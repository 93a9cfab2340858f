//! The host: what the evaluator asks of its caller.
//!
//! Arithmetic on doubles, the reading of decimal text, and the console are
//! not done here. The evaluator puts each such step to a host function as a
//! request, and goes on with the reply.

use vstd::prelude::*;
use crate::value::{Value, ValueView};

verus! {

/// What the evaluator asks of the host.
#[derive(Debug, PartialEq)]
pub enum Request {
    /// The result of `left op right`, where `op` is one of `+ - * / ^` and
    /// `^` is exponentiation. The reply is a number.
    Arithmetic { op: char, left: u64, right: u64 },
    /// The double that a decimal text writes. The reply is a number, or
    /// nothing where the text writes none.
    ReadNumber(String),
    /// One line from the console. The reply is a text.
    ReadLine,
    /// Write an argument of `print`: the text of the value, then a space.
    PrintItem(Value),
    /// End the line that `print` wrote.
    PrintEnd,
    /// Write the result of a statement on a line of its own.
    Show(Value),
}

/// What the host answers. Of the reply to a request to write, nothing is
/// read.
#[derive(Debug, PartialEq)]
pub enum Reply {
    Number(u64),
    Text(String),
    Nothing,
}

/// What a request is, with text as sequences of characters.
pub enum RequestView {
    Arithmetic { op: char, left: u64, right: u64 },
    ReadNumber(Seq<char>),
    ReadLine,
    PrintItem(ValueView),
    PrintEnd,
    Show(ValueView),
}

/// What a reply is, with text as sequences of characters.
pub enum ReplyView {
    Number(u64),
    Text(Seq<char>),
    Nothing,
}

impl View for Request {
    type V = RequestView;

    open spec fn view(&self) -> RequestView {
        match self {
            Request::Arithmetic { op, left, right } => RequestView::Arithmetic {
                op: *op,
                left: *left,
                right: *right,
            },
            Request::ReadNumber(text) => RequestView::ReadNumber(text@),
            Request::ReadLine => RequestView::ReadLine,
            Request::PrintItem(value) => RequestView::PrintItem(value@),
            Request::PrintEnd => RequestView::PrintEnd,
            Request::Show(value) => RequestView::Show(value@),
        }
    }
}

impl View for Reply {
    type V = ReplyView;

    open spec fn view(&self) -> ReplyView {
        match self {
            Reply::Number(bits) => ReplyView::Number(*bits),
            Reply::Text(text) => ReplyView::Text(text@),
            Reply::Nothing => ReplyView::Nothing,
        }
    }
}

/// A request together with the reply that the host gave to it.
pub struct Exchange {
    pub request: Request,
    pub reply: Reply,
}

/// The requests of a sequence of exchanges, in order.
pub open spec fn requests_of(log: Seq<Exchange>) -> Seq<RequestView> {
    log.map_values(|x: Exchange| x.request@)
}

/// The replies of a sequence of exchanges, in order.
pub open spec fn replies_of(log: Seq<Exchange>) -> Seq<ReplyView> {
    log.map_values(|x: Exchange| x.reply@)
}

/// Each reply in `log` is one that `host` gave to the request beside it.
pub open spec fn answered<H: Fn(Request) -> Reply>(host: &H, log: Seq<Exchange>) -> bool {
    forall|i: int| 0 <= i < log.len() ==> host.ensures((#[trigger] log[i].request,), log[i].reply)
}

/// The first of the replies; nothing where there is none.
pub open spec fn first_reply(replies: Seq<ReplyView>) -> ReplyView {
    if replies.len() > 0 {
        replies[0]
    } else {
        ReplyView::Nothing
    }
}

/// Puts one request to the host.
pub(crate) fn ask<H: Fn(Request) -> Reply>(host: &H, request: Request) -> (r: (Reply, Ghost<Exchange>))
    requires
        forall|q: Request| host.requires((q,)),
    ensures
        r.1@.request == request,
        r.1@.reply == r.0,
        answered(host, seq![r.1@]),
{
    let ghost asked = request;
    let reply = host(request);
    let ghost exchange = Exchange { request: asked, reply: reply };
    (reply, Ghost(exchange))
}

/// A log without exchanges holds no request, and adds no reply.
pub proof fn lemma_no_exchange()
    ensures
        requests_of(Seq::<Exchange>::empty()) == Seq::<RequestView>::empty(),
        forall|rest: Seq<ReplyView>| #[trigger]
            (replies_of(Seq::<Exchange>::empty()) + rest) == rest,
{
    assert(requests_of(Seq::<Exchange>::empty()) =~= Seq::<RequestView>::empty());
    assert forall|rest: Seq<ReplyView>| #[trigger]
        (replies_of(Seq::<Exchange>::empty()) + rest) == rest by {
        assert(replies_of(Seq::<Exchange>::empty()) + rest =~= rest);
    }
}

/// A log of one exchange holds its request, and its reply comes first.
pub proof fn lemma_one_exchange(x: Exchange, rest: Seq<ReplyView>)
    ensures
        requests_of(seq![x]) == seq![x.request@],
        (replies_of(seq![x]) + rest).len() > 0,
        (replies_of(seq![x]) + rest)[0] == x.reply@,
        (replies_of(seq![x]) + rest).skip(1) == rest,
{
    assert(requests_of(seq![x]) =~= seq![x.request@]);
    assert((replies_of(seq![x]) + rest).skip(1) =~= rest);
}

/// Two logs one after the other, followed by further replies: the replies
/// and the requests of the whole are those of the parts in order.
pub proof fn lemma_logs_join(first: Seq<Exchange>, second: Seq<Exchange>, rest: Seq<ReplyView>)
    ensures
        replies_of(first + second) + rest == replies_of(first) + (replies_of(second) + rest),
        (replies_of(first) + (replies_of(second) + rest)).skip(first.len() as int) == replies_of(
            second,
        ) + rest,
        requests_of(first + second) == requests_of(first) + requests_of(second),
        replies_of(first).len() == first.len(),
        requests_of(first).len() == first.len(),
{
    assert(replies_of(first + second) + rest =~= replies_of(first) + (replies_of(second) + rest));
    assert((replies_of(first) + (replies_of(second) + rest)).skip(first.len() as int)
        =~= replies_of(second) + rest);
    assert(requests_of(first + second) =~= requests_of(first) + requests_of(second));
}

/// Two logs that the host answered make one that it answered.
pub proof fn lemma_answered_join<H: Fn(Request) -> Reply>(
    host: &H,
    first: Seq<Exchange>,
    second: Seq<Exchange>,
)
    requires
        answered(host, first),
        answered(host, second),
    ensures
        answered(host, first + second),
{
    let whole = first + second;
    assert forall|i: int| 0 <= i < whole.len() implies host.ensures(
        (#[trigger] whole[i].request,),
        whole[i].reply,
    ) by {
        if i < first.len() {
            assert(whole[i] == first[i]);
        } else {
            assert(whole[i] == second[i - first.len()]);
        }
    }
}

} // verus!
