//! Drives a chain of stages with the datagrams that come in.
//!
//! The socket and the loop around it are the caller's: the server is handed
//! each datagram as it is received, and is told when none came for a while.

use crate::bytes::{find_byte, lemma_first_index, lemma_split_pieces, split, to_vec, NEWLINE};
use crate::middleware::upstream::{
    is_line, lemma_poll_keeps_lines, lemma_submit_adds_line, Upstream,
};
use crate::middleware::{Error, Middleware};
use crate::types::{lemma_parse, Metric, MetricView};
use vstd::prelude::*;
use vstd::slice::slice_subrange;

verus! {

/// The largest datagram that can be received.
pub const MAX_DATAGRAM: usize = 65535;

/// Whether the bytes are not empty.
pub open spec fn not_empty() -> spec_fn(Seq<u8>) -> bool {
    |line: Seq<u8>| line.len() > 0
}

/// The metric lines of a datagram: what stands between its line feeds,
/// without the empty lines.
pub open spec fn lines_of(datagram: Seq<u8>) -> Seq<Seq<u8>> {
    split(datagram, NEWLINE).filter(not_empty())
}

/// Every line of a datagram is a line: not empty, and without a line feed.
pub proof fn lemma_lines_of(datagram: Seq<u8>)
    ensures
        forall|i: int| 0 <= i < lines_of(datagram).len() ==> is_line(#[trigger] lines_of(datagram)[i]),
{
    let pieces = split(datagram, NEWLINE);
    let lines = lines_of(datagram);
    lemma_split_pieces(datagram, NEWLINE);
    assert forall|i: int| 0 <= i < lines.len() implies is_line(#[trigger] lines[i]) by {
        pieces.lemma_filter_pred(not_empty(), i);
        assert(lines.contains(lines[i]));
        pieces.lemma_filter_contains_rev(not_empty(), lines[i]);
        let k = choose|k: int| 0 <= k < pieces.len() && pieces[k] == lines[i];
        assert(pieces[k] == lines[i]);
    }
}

/// Of one piece, what is left is the piece, or nothing where it is empty.
proof fn lemma_filter_one(piece: Seq<u8>)
    ensures
        seq![piece].filter(not_empty()) == if piece.len() > 0 {
            seq![piece]
        } else {
            Seq::<Seq<u8>>::empty()
        },
        Seq::<Seq<u8>>::empty().filter(not_empty()) == Seq::<Seq<u8>>::empty(),
{
    reveal(Seq::filter);
    let none = Seq::<Seq<u8>>::empty();
    assert(none.filter(not_empty()) == none);
    crate::middleware::tag_rule::lemma_filter_push(none, piece, not_empty());
    assert(none.push(piece) =~= seq![piece]);
}

/// Whether a stage may get from `before` to `after` by being polled and
/// handed the metric of a line, for each of the lines in turn.
pub open spec fn driven<M: Middleware>(before: &M, lines: Seq<Seq<u8>>, after: &M) -> bool
    decreases lines.len(),
{
    if lines.len() == 0 {
        after == before
    } else {
        exists|mid: M, polled: M, left: MetricView|
            {
                &&& driven(before, lines.drop_last(), &mid)
                &&& #[trigger] mid.polled(&polled)
                &&& #[trigger] polled.submitted(MetricView::parse(lines.last()), after, left)
            }
    }
}

pub struct Server<M> {
    middleware: M,
}

impl<M> Server<M> where M: Middleware {
    /// The head of the chain.
    pub closed spec fn middleware(&self) -> &M {
        &self.middleware
    }

    pub fn new(middleware: M) -> (server: Self)
        ensures
            *server.middleware() == middleware,
    {
        Server { middleware }
    }

    /// Takes a datagram as it was received: each line that is not empty is
    /// read as a metric, and the chain is polled and handed the metric.
    pub fn handle_datagram(&mut self, datagram: &[u8])
        requires
            old(self).middleware().valid(),
        ensures
            final(self).middleware().valid(),
            driven(old(self).middleware(), lines_of(datagram@), final(self).middleware()),
    {
        let ghost lines = lines_of(datagram@);
        let ghost mut done: Seq<Seq<u8>> = Seq::empty();
        let mut rest = datagram;
        assert(done + lines_of(rest@) =~= lines);
        loop
            invariant_except_break
                lines == done + lines_of(rest@),
            invariant
                self.middleware().valid(),
                driven(old(self).middleware(), done, self.middleware()),
            ensures
                self.middleware().valid(),
                driven(old(self).middleware(), lines, self.middleware()),
            decreases rest@.len(),
        {
            let end = find_byte(rest, NEWLINE);
            let line = slice_subrange(rest, 0, end);
            let ghost tail = if end < rest@.len() {
                split(rest@.subrange(end + 1, rest@.len() as int), NEWLINE)
            } else {
                Seq::empty()
            };
            proof {
                lemma_first_index(rest@, NEWLINE);
                if end < rest@.len() {
                    assert(split(rest@, NEWLINE) =~= seq![line@] + tail);
                } else {
                    assert(line@ =~= rest@);
                    assert(split(rest@, NEWLINE) =~= seq![line@] + tail);
                }
                Seq::filter_distributes_over_add(seq![line@], tail, not_empty());
                lemma_filter_one(line@);
            }
            if line.len() > 0 {
                let mut metric = Metric::new(to_vec(line));
                let ghost mid = self.middleware;
                self.middleware.poll();
                let ghost polled = self.middleware;
                self.middleware.submit(&mut metric);
                proof {
                    let more = done.push(line@);
                    assert(more.drop_last() =~= done);
                    assert(mid.polled(&polled));
                    assert(polled.submitted(
                        MetricView::parse(more.last()),
                        self.middleware(),
                        metric@,
                    ));
                    assert(more + tail.filter(not_empty()) =~= done + (seq![line@] + tail.filter(
                        not_empty(),
                    )));
                    done = more;
                }
            } else {
                proof {
                    assert(done + tail.filter(not_empty()) =~= done + (Seq::<Seq<u8>>::empty()
                        + tail.filter(not_empty())));
                }
            }
            if end < rest.len() {
                rest = slice_subrange(rest, end + 1, rest.len());
            } else {
                proof {
                    assert(tail.filter(not_empty()) =~= Seq::<Seq<u8>>::empty());
                    assert(done + Seq::<Seq<u8>>::empty() =~= done);
                }
                break ;
            }
        }
    }

    /// Tells the chain that no datagram came for a while.
    pub fn idle(&mut self)
        requires
            old(self).middleware().valid(),
        ensures
            final(self).middleware().valid(),
            old(self).middleware().polled(final(self).middleware()),
    {
        self.middleware.poll();
    }

    /// Lets every stage deliver what it still holds.
    pub fn join(&mut self) -> (result: Result<(), Error>)
        requires
            old(self).middleware().valid(),
        ensures
            final(self).middleware().valid(),
            old(self).middleware().joined(final(self).middleware(), result is Ok),
    {
        self.middleware.join()
    }
}

/// With nothing between the server and the sender, a datagram that is
/// handled adds its lines, and nothing else, to the lines that are sent or
/// wait to be sent: in their order and bit for bit, however they are
/// gathered into datagrams on the way out.
pub proof fn lemma_identity_pipeline<S>(
    before: &Upstream<S>,
    datagram: Seq<u8>,
    after: &Upstream<S>,
) where S: FnMut(&[u8])
    requires
        before@.valid(),
        driven(before, lines_of(datagram), after),
    ensures
        after@.valid(),
        after@.lines() == before@.lines() + lines_of(datagram),
{
    lemma_lines_of(datagram);
    lemma_lines_pass(before, lines_of(datagram), after);
}

/// With nothing between the server and the sender, the lines that the
/// chain is driven with are added to the lines that are sent or wait to be
/// sent.
pub proof fn lemma_lines_pass<S>(
    before: &Upstream<S>,
    lines: Seq<Seq<u8>>,
    after: &Upstream<S>,
) where S: FnMut(&[u8])
    requires
        before@.valid(),
        forall|i: int| 0 <= i < lines.len() ==> is_line(#[trigger] lines[i]),
        driven(before, lines, after),
    ensures
        after@.valid(),
        after@.lines() == before@.lines() + lines,
    decreases lines.len(),
{
    if lines.len() == 0 {
        assert(before@.lines() + lines =~= before@.lines());
    } else {
        let (mid, polled, left) = choose|mid: Upstream<S>, polled: Upstream<S>, left: MetricView|
            {
                &&& driven(before, lines.drop_last(), &mid)
                &&& #[trigger] mid.polled(&polled)
                &&& #[trigger] polled.submitted(MetricView::parse(lines.last()), after, left)
            };
        assert forall|i: int| 0 <= i < lines.drop_last().len() implies is_line(
            #[trigger] lines.drop_last()[i],
        ) by {
            assert(lines.drop_last()[i] == lines[i]);
        }
        lemma_lines_pass(before, lines.drop_last(), &mid);
        let at = choose|now: u64| polled@ == mid@.poll(now);
        lemma_poll_keeps_lines(mid@, at);
        lemma_parse(lines.last());
        let then = choose|now: u64| after@ == polled@.submit(now, lines.last());
        assert(is_line(lines[lines.len() - 1]));
        lemma_submit_adds_line(polled@, then, lines.last());
        assert(before@.lines() + lines.drop_last().push(lines.last()) =~= (before@.lines()
            + lines.drop_last()).push(lines.last()));
        assert(lines.drop_last().push(lines.last()) =~= lines);
    }
}

} // verus!
