//! The end of the chain: gathers metrics into datagrams and hands them to
//! the sender.
//!
//! Metrics are joined with line feeds in a buffer of `BUFSIZE` bytes. The
//! buffer is sent when the next metric does not fit, when more than a
//! second has passed since the last send, and when the stage is joined. A
//! metric that is larger than the buffer is sent on its own.

use crate::bytes::{append, lemma_split_joined, lemma_split_one, split, NEWLINE};
use crate::clock::unix_seconds;
use crate::middleware::{Error, Middleware};
use crate::types::{Metric, MetricView};
use vstd::prelude::*;

verus! {

/// The size of the buffer, and so of the largest datagram that holds more
/// than one metric.
pub const BUFSIZE: usize = 8192;

/// Seconds after which a buffer that holds something is sent.
pub const IDLE_SECONDS: u64 = 1;

/// The stage as a plain value.
pub struct UpstreamView {
    /// The metrics that wait, with a line feed between each two.
    pub buffer: Seq<u8>,
    /// The second of the last flush.
    pub last_sent_at: u64,
    /// Every datagram handed to the sender so far, in order.
    pub sent: Seq<Seq<u8>>,
}

impl UpstreamView {
    /// The stage after a flush at second `now`: what waits is sent as one
    /// datagram.
    pub open spec fn flush(self, now: u64) -> UpstreamView {
        UpstreamView {
            buffer: Seq::empty(),
            last_sent_at: now,
            sent: if self.buffer.len() > 0 {
                self.sent.push(self.buffer)
            } else {
                self.sent
            },
        }
    }

    /// Whether a metric of `len` bytes does not fit behind what waits.
    pub open spec fn overflows(self, len: nat) -> bool {
        self.buffer.len() + 1 + len > BUFSIZE
    }

    /// The stage after a metric was submitted at second `now`.
    pub open spec fn submit(self, now: u64, raw: Seq<u8>) -> UpstreamView {
        let room = if self.overflows(raw.len()) {
            self.flush(now)
        } else {
            self
        };
        if raw.len() > BUFSIZE {
            UpstreamView {
                buffer: room.buffer,
                last_sent_at: room.last_sent_at,
                sent: room.sent.push(raw),
            }
        } else {
            UpstreamView {
                buffer: if room.buffer.len() > 0 {
                    room.buffer + seq![NEWLINE] + raw
                } else {
                    raw
                },
                last_sent_at: room.last_sent_at,
                sent: room.sent,
            }
        }
    }

    /// Whether a poll at second `now` flushes.
    pub open spec fn idle(self, now: u64) -> bool {
        now - self.last_sent_at > IDLE_SECONDS
    }

    /// The stage after a poll at second `now`.
    pub open spec fn poll(self, now: u64) -> UpstreamView {
        if self.idle(now) {
            self.flush(now)
        } else {
            self
        }
    }

    /// What waits is no more than the buffer holds.
    pub open spec fn valid(self) -> bool {
        self.buffer.len() <= BUFSIZE
    }

    /// The lines of the datagrams, in order.
    pub open spec fn lines_of(datagrams: Seq<Seq<u8>>) -> Seq<Seq<u8>>
        decreases datagrams.len(),
    {
        if datagrams.len() == 0 {
            Seq::empty()
        } else {
            Self::lines_of(datagrams.drop_last()) + split(datagrams.last(), NEWLINE)
        }
    }

    /// Every line that was sent or waits to be sent, in order.
    pub open spec fn lines(self) -> Seq<Seq<u8>> {
        if self.buffer.len() > 0 {
            Self::lines_of(self.sent) + split(self.buffer, NEWLINE)
        } else {
            Self::lines_of(self.sent)
        }
    }
}

/// Whether the bytes are a line: not empty, and without a line feed.
pub open spec fn is_line(raw: Seq<u8>) -> bool {
    raw.len() > 0 && forall|k: int| 0 <= k < raw.len() ==> raw[k] != NEWLINE
}

/// A flush changes no line, and leaves the buffer empty.
pub proof fn lemma_flush_keeps_lines(stage: UpstreamView, now: u64)
    ensures
        stage.flush(now).lines() == stage.lines(),
        stage.flush(now).buffer.len() == 0,
        stage.flush(now).valid(),
{
    if stage.buffer.len() > 0 {
        assert(stage.sent.push(stage.buffer).drop_last() =~= stage.sent);
    }
}

/// A poll changes no line.
pub proof fn lemma_poll_keeps_lines(stage: UpstreamView, now: u64)
    requires
        stage.valid(),
    ensures
        stage.poll(now).lines() == stage.lines(),
        stage.poll(now).valid(),
{
    lemma_flush_keeps_lines(stage, now);
}

/// A submitted line is the last of the lines, bit for bit, and all lines
/// before it stay.
pub proof fn lemma_submit_adds_line(stage: UpstreamView, now: u64, raw: Seq<u8>)
    requires
        stage.valid(),
        is_line(raw),
    ensures
        stage.submit(now, raw).lines() == stage.lines().push(raw),
        stage.submit(now, raw).valid(),
{
    lemma_flush_keeps_lines(stage, now);
    lemma_split_one(raw, NEWLINE);
    let room = if stage.overflows(raw.len()) {
        stage.flush(now)
    } else {
        stage
    };
    let after = stage.submit(now, raw);
    if raw.len() > BUFSIZE {
        assert(room.buffer.len() == 0);
        assert(after.sent.drop_last() =~= room.sent);
        assert(after.lines() =~= stage.lines().push(raw));
    } else if room.buffer.len() > 0 {
        lemma_split_joined(room.buffer, raw, NEWLINE);
        assert(after.lines() =~= stage.lines().push(raw));
    } else {
        assert(after.lines() =~= stage.lines().push(raw));
    }
}

/// A metric larger than the buffer is sent as a datagram of its own, behind
/// what waited, and nothing waits after it.
pub proof fn lemma_oversize_sent_alone(stage: UpstreamView, now: u64, raw: Seq<u8>)
    requires
        raw.len() > BUFSIZE,
    ensures
        stage.submit(now, raw).buffer.len() == 0,
        stage.submit(now, raw).sent == stage.flush(now).sent.push(raw),
{
}

/// A submit flushes exactly when the metric and a line feed do not fit
/// behind what waits; a poll, exactly when more than a second has passed
/// since the last flush. A flush sends what waits, if anything does, and
/// notes the second.
pub proof fn lemma_flush_exactly_when(stage: UpstreamView, now: u64, raw: Seq<u8>)
    ensures
        ({
            let flushes = stage.buffer.len() + 1 + raw.len() > BUFSIZE;
            let after = stage.submit(now, raw);
            &&& after.last_sent_at == if flushes {
                now
            } else {
                stage.last_sent_at
            }
            &&& raw.len() <= BUFSIZE ==> after.sent == if flushes {
                stage.flush(now).sent
            } else {
                stage.sent
            }
        }),
        ({
            let flushes = now - stage.last_sent_at > IDLE_SECONDS;
            let after = stage.poll(now);
            &&& after.last_sent_at == if flushes {
                now
            } else {
                stage.last_sent_at
            }
            &&& after.sent == if flushes {
                stage.flush(now).sent
            } else {
                stage.sent
            }
        }),
        stage.flush(now).sent == if stage.buffer.len() > 0 {
            stage.sent.push(stage.buffer)
        } else {
            stage.sent
        },
{
}

pub struct Upstream<S> {
    buffer: Vec<u8>,
    last_sent_at: u64,
    sent: Ghost<Seq<Seq<u8>>>,
    send: S,
}

impl<S> View for Upstream<S> {
    type V = UpstreamView;

    closed spec fn view(&self) -> UpstreamView {
        UpstreamView { buffer: self.buffer@, last_sent_at: self.last_sent_at, sent: self.sent@ }
    }
}

/// Whether the sender was called with these bytes.
pub open spec fn handed<S: FnMut(&[u8])>(send: S, bytes: Seq<u8>) -> bool {
    exists|datagram: &[u8]| datagram@ == bytes && #[trigger] call_ensures(send, (datagram,), ())
}

impl<S> Upstream<S> where S: FnMut(&[u8]) {
    /// The sender takes every datagram.
    pub open spec fn sender_valid() -> bool {
        forall|send: S, datagram: &[u8]| #[trigger] call_requires(send, (datagram,))
    }

    /// The sender.
    pub closed spec fn sender(&self) -> S {
        self.send
    }

    /// Whether every datagram that `after` has sent and this stage has not
    /// was handed to the sender.
    pub open spec fn delivered(&self, after: &Self) -> bool {
        &&& after.sender() == self.sender()
        &&& forall|i: int|
            self@.sent.len() <= i < after@.sent.len() ==> handed(
                self.sender(),
                #[trigger] after@.sent[i],
            )
    }

    /// A stage that hands its datagrams to `send`. Nothing waits, and
    /// nothing was sent.
    pub fn new(send: S) -> (stage: Self)
        ensures
            stage@ == (UpstreamView {
                buffer: Seq::empty(),
                last_sent_at: 0,
                sent: Seq::empty(),
            }),
            stage.sender() == send,
    {
        Upstream { buffer: Vec::new(), last_sent_at: 0, sent: Ghost(Seq::empty()), send }
    }

    /// Sends what waits.
    fn flush(&mut self, now: u64)
        requires
            Self::sender_valid(),
        ensures
            final(self)@ == old(self)@.flush(now),
            old(self).delivered(final(self)),
    {
        if self.buffer.len() > 0 {
            (self.send)(self.buffer.as_slice());
            assert(handed(old(self).sender(), self.buffer@));
            self.sent = Ghost(self.sent@.push(self.buffer@));
            self.buffer.clear();
        }
        assert(self.buffer@ =~= Seq::empty());
        self.last_sent_at = now;
    }

    /// Polls as of second `now`.
    pub fn poll_at(&mut self, now: u64)
        requires
            old(self).valid(),
        ensures
            final(self).valid(),
            final(self)@ == old(self)@.poll(now),
            old(self).delivered(final(self)),
    {
        if now > self.last_sent_at && now - self.last_sent_at > IDLE_SECONDS {
            self.flush(now);
        }
    }

    /// Submits a metric as of second `now`.
    pub fn submit_at(&mut self, now: u64, metric: &Metric)
        requires
            old(self).valid(),
        ensures
            final(self).valid(),
            final(self)@ == old(self)@.submit(now, metric@.raw),
            old(self).delivered(final(self)),
    {
        let raw = metric.bytes();
        let len = raw.len();
        if len >= BUFSIZE - self.buffer.len() {
            self.flush(now);
        }
        if len > BUFSIZE {
            (self.send)(raw);
            assert(handed(old(self).sender(), raw@));
            self.sent = Ghost(self.sent@.push(raw@));
        } else {
            if self.buffer.len() > 0 {
                self.buffer.push(NEWLINE);
            }
            append(&mut self.buffer, raw);
            assert(self.buffer@ =~= old(self)@.submit(now, metric@.raw).buffer);
        }
    }
}

impl<S> Middleware for Upstream<S> where S: FnMut(&[u8]) {
    open spec fn valid(&self) -> bool {
        &&& self@.valid()
        &&& Self::sender_valid()
    }

    /// A poll at some second of the clock.
    open spec fn polled(&self, after: &Self) -> bool {
        &&& self.delivered(after)
        &&& exists|now: u64| after@ == self@.poll(now)
    }

    /// A submit at some second of the clock. The metric stays as it is.
    open spec fn submitted(&self, metric: MetricView, after: &Self, left: MetricView) -> bool {
        &&& left == metric
        &&& self.delivered(after)
        &&& exists|now: u64| after@ == self@.submit(now, metric.raw)
    }

    /// A flush at some second of the clock. It cannot fail.
    open spec fn joined(&self, after: &Self, ok: bool) -> bool {
        &&& ok
        &&& self.delivered(after)
        &&& exists|now: u64| after@ == self@.flush(now)
    }

    fn join(&mut self) -> (result: Result<(), Error>) {
        let now = unix_seconds();
        self.flush(now);
        Ok(())
    }

    fn poll(&mut self) {
        let now = unix_seconds();
        self.poll_at(now);
    }

    fn submit(&mut self, metric: &mut Metric) {
        let now = unix_seconds();
        self.submit_at(now, metric);
    }
}

} // verus!
