//! Merges counters and gauges that differ in nothing but their value, and
//! sends one metric per bucket when the flush interval has passed.
//!
//! A bucket is known by the bytes of the metric without its value, and by
//! the place where the value stood: sample rate, tags and extensions stay
//! on the metric that is sent. Counters add up; of gauges the last one
//! counts. The sum itself is not computed here: the stage keeps the total of
//! each bucket as its decimal text and asks a function, handed to it at
//! construction, to add a value to it.

use crate::bytes::{append, same_bytes, PIPE};
use crate::clock::unix_seconds;
use crate::config::AggregateMetricsConfig;
use crate::middleware::{submitted_all, Error, Middleware};
use crate::types::{Metric, MetricView};
use vstd::prelude::*;
use vstd::slice::slice_subrange;

verus! {

/// `c`, the type of a counter.
pub const COUNTER: u8 = 99;

/// `g`, the type of a gauge.
pub const GAUGE: u8 = 103;

/// What a bucket holds: counters add up, of gauges the last one counts.
#[derive(Clone, Copy, Debug, PartialEq, Eq, Structural)]
pub enum BucketKind {
    Counter,
    Gauge,
}

/// The key of a bucket as a plain value.
pub struct KeyView {
    /// The bytes of the metric without its value.
    pub metric_bytes: Seq<u8>,
    /// Where in these bytes the value belongs.
    pub insert_value_at: int,
}

impl KeyView {
    /// The key of a metric: `None` where the metric has no value.
    pub open spec fn of(metric: MetricView) -> Option<KeyView> {
        match metric.value_pos() {
            Some((start, end)) => Some(
                KeyView {
                    metric_bytes: metric.raw.subrange(0, start) + metric.raw.subrange(
                        end,
                        metric.raw.len() as int,
                    ),
                    insert_value_at: start,
                },
            ),
            None => None,
        }
    }

    /// The place of the value lies in the bytes.
    pub open spec fn valid(self) -> bool {
        0 <= self.insert_value_at <= self.metric_bytes.len()
    }

    /// The line of a metric of this bucket with the given value.
    pub open spec fn render(self, value: Seq<u8>) -> Seq<u8> {
        self.metric_bytes.subrange(0, self.insert_value_at) + value + self.metric_bytes.subrange(
            self.insert_value_at,
            self.metric_bytes.len() as int,
        )
    }
}

/// The kind of bucket that a metric goes to: by its type, where that kind
/// is aggregated.
pub open spec fn kind_of(metric: MetricView, counters: bool, gauges: bool) -> Option<BucketKind> {
    match metric.ty() {
        Some(ty) => if ty == seq![COUNTER] && counters {
            Some(BucketKind::Counter)
        } else if ty == seq![GAUGE] && gauges {
            Some(BucketKind::Gauge)
        } else {
            None
        },
        None => None,
    }
}

/// Putting the value of a metric back into its key gives the metric.
pub proof fn lemma_render_own_value(metric: MetricView)
    requires
        metric.value() is Some,
    ensures
        KeyView::of(metric) is Some,
        KeyView::of(metric)->0.valid(),
        KeyView::of(metric)->0.render(metric.value()->0) == metric.raw,
{
    let (start, end) = metric.value_pos()->0;
    let key = KeyView::of(metric)->0;
    crate::bytes::lemma_first_index(metric.raw, crate::bytes::COLON);
    crate::bytes::lemma_first_index(metric.raw.subrange(start, metric.raw.len() as int), PIPE);
    assert(key.metric_bytes.subrange(0, start) =~= metric.raw.subrange(0, start));
    assert(key.metric_bytes.subrange(start, key.metric_bytes.len() as int) =~= metric.raw.subrange(
        end,
        metric.raw.len() as int,
    ));
    assert(key.render(metric.value()->0) =~= metric.raw);
}

/// Where the value of a metric starts; zero where it has none.
pub open spec fn value_start(metric: MetricView) -> int {
    match metric.value_pos() {
        Some((start, end)) => start,
        None => 0,
    }
}

/// Where the value of a metric ends; zero where it has none.
pub open spec fn value_end(metric: MetricView) -> int {
    match metric.value_pos() {
        Some((start, end)) => end,
        None => 0,
    }
}

/// Two metrics that differ in nothing but their value have the same key.
pub proof fn lemma_same_key(a: MetricView, b: MetricView)
    requires
        a.value_pos() is Some,
        b.value_pos() is Some,
        a.raw.subrange(0, value_start(a)) == b.raw.subrange(0, value_start(b)),
        a.raw.subrange(value_end(a), a.raw.len() as int) == b.raw.subrange(
            value_end(b),
            b.raw.len() as int,
        ),
    ensures
        KeyView::of(a) == KeyView::of(b),
{
    crate::bytes::lemma_first_index(a.raw, crate::bytes::COLON);
    crate::bytes::lemma_first_index(b.raw, crate::bytes::COLON);
    assert(a.raw.subrange(0, value_start(a)).len() == b.raw.subrange(0, value_start(b)).len());
}

/// A bucket as a plain value.
pub struct BucketView {
    pub key: KeyView,
    pub kind: BucketKind,
    /// The total so far, as decimal text.
    pub total: Seq<u8>,
}

/// The index of the bucket of this key and kind, where there is one.
pub open spec fn bucket_at(buckets: Seq<BucketView>, key: KeyView, kind: BucketKind, i: int) -> bool {
    0 <= i < buckets.len() && buckets[i].key == key && buckets[i].kind == kind
}

/// No two buckets have the same key and kind, and every key is valid.
pub open spec fn buckets_valid(buckets: Seq<BucketView>) -> bool {
    &&& forall|i: int| 0 <= i < buckets.len() ==> (#[trigger] buckets[i]).key.valid()
    &&& forall|i: int, j: int|
        0 <= i < j < buckets.len() ==> !(buckets[i].key == buckets[j].key && buckets[i].kind
            == buckets[j].kind)
}

/// The metrics that a flush sends: one per bucket, in the order in which the
/// buckets were opened, each read from its line like any metric.
pub open spec fn flushed(buckets: Seq<BucketView>) -> Seq<MetricView> {
    Seq::new(buckets.len(), |i: int| MetricView::parse(buckets[i].key.render(buckets[i].total)))
}

/// The second of the last bucket edge at or before `now`: `now` rounded down
/// to the flush interval, and shifted by the offset.
pub open spec fn bucket_edge(interval: u64, offset: i64, now: u64) -> int {
    (now / interval) * interval + offset
}

struct BucketKey {
    metric_bytes: Vec<u8>,
    insert_value_at: usize,
}

struct Bucket {
    key: BucketKey,
    kind: BucketKind,
    total: Vec<u8>,
}

impl View for Bucket {
    type V = BucketView;

    closed spec fn view(&self) -> BucketView {
        BucketView {
            key: KeyView {
                metric_bytes: self.key.metric_bytes@,
                insert_value_at: self.key.insert_value_at as int,
            },
            kind: self.kind,
            total: self.total@,
        }
    }
}

/// The buckets as plain values.
spec fn bucket_views(buckets: Seq<Bucket>) -> Seq<BucketView> {
    Seq::new(buckets.len(), |i: int| buckets[i]@)
}

pub struct AggregateMetrics<F, M> {
    aggregate_counters: bool,
    aggregate_gauges: bool,
    flush_interval: u64,
    flush_offset: i64,
    max_map_size: Option<usize>,
    buckets: Vec<Bucket>,
    last_flushed_at: u64,
    add: F,
    next: M,
}

impl<F, M> AggregateMetrics<F, M> {
    /// Whether counters are aggregated.
    pub closed spec fn counters(&self) -> bool {
        self.aggregate_counters
    }

    /// Whether gauges are aggregated.
    pub closed spec fn gauges(&self) -> bool {
        self.aggregate_gauges
    }

    /// Seconds between two flushes.
    pub closed spec fn interval(&self) -> u64 {
        self.flush_interval
    }

    /// Seconds by which the bucket edges are shifted.
    pub closed spec fn offset(&self) -> i64 {
        self.flush_offset
    }

    /// The number of buckets from which on no new one is opened.
    pub closed spec fn max_buckets(&self) -> Option<usize> {
        self.max_map_size
    }

    /// The buckets, in the order in which they were opened.
    pub closed spec fn buckets(&self) -> Seq<BucketView> {
        bucket_views(self.buckets@)
    }

    /// The bucket edge of the last flush.
    pub closed spec fn last_flushed_at(&self) -> u64 {
        self.last_flushed_at
    }

    /// The function that adds a value to a total.
    pub closed spec fn adder(&self) -> F {
        self.add
    }

    /// The stage that the metrics are handed to.
    pub closed spec fn next(&self) -> &M {
        &self.next
    }

    /// Whether the settings of the two are the same.
    pub open spec fn same_settings(&self, other: &Self) -> bool {
        &&& other.counters() == self.counters()
        &&& other.gauges() == self.gauges()
        &&& other.interval() == self.interval()
        &&& other.offset() == self.offset()
        &&& other.max_buckets() == self.max_buckets()
        &&& other.adder() == self.adder()
    }

    /// Whether `now` lies a flush interval or more behind the last flush,
    /// counted in bucket edges.
    pub open spec fn flush_due(&self, now: u64) -> bool {
        let edge = bucket_edge(self.interval(), self.offset(), now);
        0 <= edge <= u64::MAX && self.last_flushed_at() + self.interval() <= edge
    }
}

/// Whether a bucket of this key and kind is held.
pub open spec fn held(buckets: Seq<BucketView>, key: KeyView, kind: BucketKind) -> bool {
    exists|i: int| bucket_at(buckets, key, kind, i)
}

/// The index of the bucket of this key and kind.
pub open spec fn slot(buckets: Seq<BucketView>, key: KeyView, kind: BucketKind) -> int {
    choose|i: int| bucket_at(buckets, key, kind, i)
}

/// The total of the bucket of this key and kind, where one is held.
pub open spec fn total_of(buckets: Seq<BucketView>, key: KeyView, kind: BucketKind) -> Option<
    Seq<u8>,
> {
    if held(buckets, key, kind) {
        Some(buckets[slot(buckets, key, kind)].total)
    } else {
        None
    }
}

/// The buckets with the total of this key and kind set: in the bucket that
/// is held, or in a new one behind the others.
pub open spec fn put(buckets: Seq<BucketView>, key: KeyView, kind: BucketKind, total: Seq<u8>) -> Seq<
    BucketView,
> {
    if held(buckets, key, kind) {
        buckets.update(slot(buckets, key, kind), BucketView { key, kind, total })
    } else {
        buckets.push(BucketView { key, kind, total })
    }
}

/// In valid buckets a key and kind have one place at most.
pub proof fn lemma_slot(buckets: Seq<BucketView>, key: KeyView, kind: BucketKind, i: int)
    requires
        buckets_valid(buckets),
        bucket_at(buckets, key, kind, i),
    ensures
        held(buckets, key, kind),
        slot(buckets, key, kind) == i,
{
    let j = slot(buckets, key, kind);
    assert(bucket_at(buckets, key, kind, j));
    if i < j {
        assert(!(buckets[i].key == buckets[j].key && buckets[i].kind == buckets[j].kind));
    } else if j < i {
        assert(!(buckets[j].key == buckets[i].key && buckets[j].kind == buckets[i].kind));
    }
}

/// After a total is set, the bucket of that key and kind holds it, the
/// other buckets hold what they held, and no bucket is lost: metrics of one
/// key and kind meet in one bucket.
pub proof fn lemma_put_then_total(
    buckets: Seq<BucketView>,
    key: KeyView,
    kind: BucketKind,
    total: Seq<u8>,
    other_key: KeyView,
    other_kind: BucketKind,
)
    requires
        buckets_valid(buckets),
        key.valid(),
    ensures
        total_of(put(buckets, key, kind, total), key, kind) == Some(total),
        !(other_key == key && other_kind == kind) ==> total_of(
            put(buckets, key, kind, total),
            other_key,
            other_kind,
        ) == total_of(buckets, other_key, other_kind),
        put(buckets, key, kind, total).len() == if held(buckets, key, kind) {
            buckets.len()
        } else {
            buckets.len() + 1
        },
{
    let after = put(buckets, key, kind, total);
    lemma_put_valid(buckets, key, kind, total);
    let at = if held(buckets, key, kind) {
        slot(buckets, key, kind)
    } else {
        buckets.len() as int
    };
    if held(buckets, key, kind) {
        assert(bucket_at(buckets, key, kind, at));
    }
    assert(bucket_at(after, key, kind, at));
    lemma_slot(after, key, kind, at);
    if !(other_key == key && other_kind == kind) {
        if held(buckets, other_key, other_kind) {
            let i = slot(buckets, other_key, other_kind);
            assert(bucket_at(buckets, other_key, other_kind, i));
            assert(bucket_at(after, other_key, other_kind, i));
            lemma_slot(after, other_key, other_kind, i);
        } else if held(after, other_key, other_kind) {
            let i = slot(after, other_key, other_kind);
            assert(bucket_at(after, other_key, other_kind, i));
            assert(bucket_at(buckets, other_key, other_kind, i));
        }
    }
}

/// Setting a total leaves the buckets valid.
pub proof fn lemma_put_valid(
    buckets: Seq<BucketView>,
    key: KeyView,
    kind: BucketKind,
    total: Seq<u8>,
)
    requires
        buckets_valid(buckets),
        key.valid(),
    ensures
        buckets_valid(put(buckets, key, kind, total)),
{
    let after = put(buckets, key, kind, total);
    if held(buckets, key, kind) {
        let at = slot(buckets, key, kind);
        assert(bucket_at(buckets, key, kind, at));
        assert forall|i: int, j: int| 0 <= i < j < after.len() implies !(after[i].key
            == after[j].key && after[i].kind == after[j].kind) by {
            assert(after[i].key == buckets[i].key && after[i].kind == buckets[i].kind);
            assert(after[j].key == buckets[j].key && after[j].kind == buckets[j].kind);
        }
        assert forall|i: int| 0 <= i < after.len() implies (#[trigger] after[i]).key.valid() by {
            assert(buckets[i].key.valid());
        }
    } else {
        assert forall|i: int, j: int| 0 <= i < j < after.len() implies !(after[i].key
            == after[j].key && after[i].kind == after[j].kind) by {
            if j == buckets.len() {
                assert(!bucket_at(buckets, key, kind, i));
            }
        }
        assert forall|i: int| 0 <= i < after.len() implies (#[trigger] after[i]).key.valid() by {
            if i < buckets.len() {
                assert(buckets[i].key.valid());
            }
        }
    }
}

/// The bytes behind an optional slice.
pub open spec fn slice_view(bytes: Option<&[u8]>) -> Option<Seq<u8>> {
    match bytes {
        Some(bytes) => Some(bytes@),
        None => None,
    }
}

/// The bytes of an optional vector.
pub open spec fn vec_view(bytes: Option<Vec<u8>>) -> Option<Seq<u8>> {
    match bytes {
        Some(bytes) => Some(bytes@),
        None => None,
    }
}

/// Whether the function may answer `total` when it is asked for the sum of
/// `before` and `value`. `before` is `None` where there is nothing to add
/// to; an answer of `None` says that the value is no number.
pub open spec fn added<F>(
    add: F,
    before: Option<Seq<u8>>,
    value: Seq<u8>,
    total: Option<Seq<u8>>,
) -> bool where F: Fn(Option<&[u8]>, &[u8]) -> Option<Vec<u8>> {
    exists|held: Option<&[u8]>, bytes: &[u8], answer: Option<Vec<u8>>|
        {
            &&& #[trigger] call_ensures(add, (held, bytes), answer)
            &&& slice_view(held) == before
            &&& bytes@ == value
            &&& vec_view(answer) == total
        }
}

/// Whether the function may answer `total` when the values are added up one
/// after the other, the first to nothing. Of no values the total is `None`.
pub open spec fn added_up<F>(add: F, values: Seq<Seq<u8>>, total: Option<Seq<u8>>) -> bool where
    F: Fn(Option<&[u8]>, &[u8]) -> Option<Vec<u8>>,
 
    decreases values.len(),
{
    if values.len() == 0 {
        total is None
    } else {
        &&& total is Some
        &&& exists|before: Option<Seq<u8>>|
            added_up(add, values.drop_last(), before) && #[trigger] added(
                add,
                before,
                values.last(),
                total,
            )
    }
}

/// What a value is added to: the total of the bucket for a counter, nothing
/// for a gauge, of which the last value counts.
pub open spec fn base_of(buckets: Seq<BucketView>, key: KeyView, kind: BucketKind) -> Option<
    Seq<u8>,
> {
    match kind {
        BucketKind::Counter => total_of(buckets, key, kind),
        BucketKind::Gauge => None,
    }
}

impl<F, M> AggregateMetrics<F, M> where
    F: Fn(Option<&[u8]>, &[u8]) -> Option<Vec<u8>>,
    M: Middleware,
 {
    /// The flush interval is a second at least, the function takes every
    /// question, and the buckets are valid.
    pub open spec fn settings_valid(&self) -> bool {
        &&& self.interval() >= 1
        &&& forall|held: Option<&[u8]>, bytes: &[u8]| #[trigger]
            call_requires(self.adder(), (held, bytes))
        &&& buckets_valid(self.buckets())
    }

    /// Whether no new bucket is opened.
    pub open spec fn full(&self) -> bool {
        match self.max_buckets() {
            Some(max) => self.buckets().len() >= max,
            None => false,
        }
    }

    /// Valid settings stay valid while settings and buckets stay.
    proof fn lemma_settings_kept(&self, before: &Self)
        requires
            before.settings_valid(),
            before.same_settings(self),
            buckets_valid(self.buckets()),
        ensures
            self.settings_valid(),
    {
        assert forall|held: Option<&[u8]>, bytes: &[u8]| #[trigger]
            call_requires(self.adder(), (held, bytes)) by {
            assert(call_requires(before.adder(), (held, bytes)));
        }
    }

    /// A stage without buckets. `add` is asked for every total: see
    /// [`added`]. The flush interval is a second at least.
    pub fn new(config: AggregateMetricsConfig, add: F, next: M) -> (stage: Self)
        requires
            config.flush_interval >= 1,
        ensures
            stage.counters() == config.aggregate_counters,
            stage.gauges() == config.aggregate_gauges,
            stage.interval() == config.flush_interval,
            stage.offset() == config.flush_offset,
            stage.max_buckets() == config.max_map_size,
            stage.buckets() == Seq::<BucketView>::empty(),
            stage.last_flushed_at() == 0,
            stage.adder() == add,
            *stage.next() == next,
    {
        let stage = AggregateMetrics {
            aggregate_counters: config.aggregate_counters,
            aggregate_gauges: config.aggregate_gauges,
            flush_interval: config.flush_interval,
            flush_offset: config.flush_offset,
            max_map_size: config.max_map_size,
            buckets: Vec::new(),
            last_flushed_at: 0,
            add,
            next,
        };
        assert(stage.buckets() =~= Seq::<BucketView>::empty());
        stage
    }

    /// The kind of bucket that the metric goes to.
    fn kind_of(&self, metric: &Metric) -> (kind: Option<BucketKind>)
        ensures
            kind == kind_of(metric@, self.counters(), self.gauges()),
    {
        match metric.ty() {
            Some(ty) => {
                if ty.len() == 1 && ty[0] == COUNTER && self.aggregate_counters {
                    assert(ty@ =~= seq![COUNTER]);
                    Some(BucketKind::Counter)
                } else if ty.len() == 1 && ty[0] == GAUGE && self.aggregate_gauges {
                    assert(ty@ =~= seq![GAUGE]);
                    Some(BucketKind::Gauge)
                } else {
                    None
                }
            },
            None => None,
        }
    }

    /// The place of the bucket of this key and kind, or the number of
    /// buckets where none is held.
    fn find(&self, key: &BucketKey, kind: BucketKind) -> (at: usize)
        requires
            buckets_valid(self.buckets()),
        ensures
            at <= self.buckets().len(),
            at < self.buckets().len() ==> bucket_at(
                self.buckets(),
                KeyView {
                    metric_bytes: key.metric_bytes@,
                    insert_value_at: key.insert_value_at as int,
                },
                kind,
                at as int,
            ),
            at == self.buckets().len() ==> !held(
                self.buckets(),
                KeyView {
                    metric_bytes: key.metric_bytes@,
                    insert_value_at: key.insert_value_at as int,
                },
                kind,
            ),
    {
        let ghost want = KeyView {
            metric_bytes: key.metric_bytes@,
            insert_value_at: key.insert_value_at as int,
        };
        let mut i: usize = 0;
        while i < self.buckets.len()
            invariant
                i <= self.buckets@.len(),
                want == (KeyView {
                    metric_bytes: key.metric_bytes@,
                    insert_value_at: key.insert_value_at as int,
                }),
                forall|k: int| 0 <= k < i ==> !bucket_at(self.buckets(), want, kind, k),
            decreases self.buckets@.len() - i,
        {
            let bucket = &self.buckets[i];
            assert(self.buckets()[i as int] == bucket@);
            if bucket.kind == kind && bucket.key.insert_value_at == key.insert_value_at
                && same_bytes(bucket.key.metric_bytes.as_slice(), key.metric_bytes.as_slice()) {
                return i;
            }
            i += 1;
        }
        i
    }

    /// What `submit` does with a metric that it does not keep: the buckets
    /// stay, and the metric goes to the next stage as it is.
    pub open spec fn passed(&self, metric: MetricView, after: &Self, left: MetricView) -> bool {
        &&& after.buckets() == self.buckets()
        &&& self.next().submitted(metric, after.next(), left)
    }

    /// What `submit` does with a metric that it keeps: the bucket of its key
    /// and kind holds the new total, and nothing is handed on.
    pub open spec fn kept(
        &self,
        metric: MetricView,
        total: Seq<u8>,
        after: &Self,
        left: MetricView,
    ) -> bool {
        let key = KeyView::of(metric)->0;
        let kind = kind_of(metric, self.counters(), self.gauges())->0;
        &&& after.buckets() == put(self.buckets(), key, kind, total)
        &&& *after.next() == *self.next()
        &&& left == metric
    }

    /// Delivers every bucket to the next stage and empties the buckets.
    fn flush_metrics(&mut self)
        requires
            old(self).settings_valid(),
            old(self).next().valid(),
        ensures
            final(self).settings_valid(),
            final(self).next().valid(),
            old(self).same_settings(final(self)),
            final(self).last_flushed_at() == old(self).last_flushed_at(),
            final(self).buckets() == Seq::<BucketView>::empty(),
            exists|polled: M|
                #![trigger old(self).next().polled(&polled)]
                old(self).next().polled(&polled) && submitted_all(
                    &polled,
                    flushed(old(self).buckets()),
                    final(self).next(),
                ),
    {
        self.next.poll();
        let ghost polled = self.next;
        let ghost metrics = flushed(self.buckets());
        assert(metrics.subrange(0, 0) =~= Seq::<MetricView>::empty());
        let mut i: usize = 0;
        while i < self.buckets.len()
            invariant
                i <= self.buckets@.len(),
                self.buckets@ == old(self).buckets@,
                metrics == flushed(self.buckets()),
                old(self).same_settings(self),
                self.last_flushed_at() == old(self).last_flushed_at(),
                buckets_valid(self.buckets()),
                self.next().valid(),
                submitted_all(&polled, metrics.subrange(0, i as int), self.next()),
            decreases self.buckets@.len() - i,
        {
            let bucket = &self.buckets[i];
            assert(self.buckets()[i as int] == bucket@);
            assert(bucket@.key.valid());
            let key = bucket.key.metric_bytes.as_slice();
            let at = bucket.key.insert_value_at;
            let mut line: Vec<u8> = Vec::new();
            append(&mut line, slice_subrange(key, 0, at));
            append(&mut line, bucket.total.as_slice());
            append(&mut line, slice_subrange(key, at, key.len()));
            assert(line@ =~= bucket@.key.render(bucket@.total));
            let mut metric = Metric::new(line);
            let ghost before = self.next;
            self.next.submit(&mut metric);
            proof {
                let done = metrics.subrange(0, i + 1);
                assert(done.drop_last() =~= metrics.subrange(0, i as int));
                assert(done.last() == metrics[i as int]);
                assert(before.submitted(done.last(), self.next(), metric@));
            }
            i += 1;
        }
        assert(metrics.subrange(0, i as int) =~= metrics);
        self.buckets = Vec::new();
        assert(self.buckets() =~= Seq::<BucketView>::empty());
        assert(old(self).next().polled(&polled));
    }

    /// What a `poll` at second `now` may do: where the flush is due, the
    /// next stage is polled, handed one metric per bucket, and polled
    /// again, and the buckets are empty; else it is polled once.
    pub open spec fn polled_at(&self, now: u64, after: &Self) -> bool {
        &&& self.same_settings(after)
        &&& if self.flush_due(now) {
            &&& after.buckets() == Seq::<BucketView>::empty()
            &&& after.last_flushed_at() == bucket_edge(self.interval(), self.offset(), now)
            &&& exists|polled: M, fed: M|
                {
                    &&& #[trigger] self.next().polled(&polled)
                    &&& submitted_all(&polled, flushed(self.buckets()), &fed)
                    &&& #[trigger] fed.polled(after.next())
                }
        } else {
            &&& after.buckets() == self.buckets()
            &&& after.last_flushed_at() == self.last_flushed_at()
            &&& self.next().polled(after.next())
        }
    }

    /// Polls as of second `now`.
    pub fn poll_at(&mut self, now: u64)
        requires
            old(self).valid(),
        ensures
            final(self).valid(),
            old(self).polled_at(now, final(self)),
    {
        assert(now % self.flush_interval <= now) by (nonlinear_arith)
            requires
                self.flush_interval > 0,
        ;
        let rounded: u64 = now - now % self.flush_interval;
        proof {
            vstd::arithmetic::div_mod::lemma_fundamental_div_mod(
                now as int,
                self.flush_interval as int,
            );
            assert((now / self.flush_interval) * self.flush_interval == self.flush_interval * (now
                / self.flush_interval)) by (nonlinear_arith);
        }
        let edge: i128 = rounded as i128 + self.flush_offset as i128;
        if edge >= 0 && edge <= u64::MAX as i128 && self.last_flushed_at as i128
            + self.flush_interval as i128 <= edge {
            self.flush_metrics();
            self.last_flushed_at = edge as u64;
            let ghost fed = self.next;
            self.next.poll();
            proof {
                assert(fed.polled(self.next()));
                self.lemma_settings_kept(&*old(self));
            }
        } else {
            self.next.poll();
            proof {
                self.lemma_settings_kept(&*old(self));
            }
        }
    }
}

impl<F, M> Middleware for AggregateMetrics<F, M> where
    F: Fn(Option<&[u8]>, &[u8]) -> Option<Vec<u8>>,
    M: Middleware,
 {
    open spec fn valid(&self) -> bool {
        &&& self.settings_valid()
        &&& self.next().valid()
    }

    /// A poll at some second of the clock.
    open spec fn polled(&self, after: &Self) -> bool {
        exists|now: u64| self.polled_at(now, after)
    }

    /// A metric of a kind that is aggregated, with a value that is a number,
    /// is kept, unless it would open a bucket and no more are opened: a
    /// counter is added to the total of its bucket, a gauge takes its place.
    /// Every other metric goes to the next stage as it is.
    open spec fn submitted(&self, metric: MetricView, after: &Self, left: MetricView) -> bool {
        &&& self.same_settings(after)
        &&& after.last_flushed_at() == self.last_flushed_at()
        &&& match (KeyView::of(metric), kind_of(metric, self.counters(), self.gauges())) {
            (Some(key), Some(kind)) => {
                if !held(self.buckets(), key, kind) && self.full() {
                    self.passed(metric, after, left)
                } else {
                    exists|total: Option<Seq<u8>>|
                        {
                            &&& #[trigger] added(
                                self.adder(),
                                base_of(self.buckets(), key, kind),
                                metric.value()->0,
                                total,
                            )
                            &&& match total {
                                Some(total) => self.kept(metric, total, after, left),
                                None => self.passed(metric, after, left),
                            }
                        }
                }
            },
            _ => self.passed(metric, after, left),
        }
    }

    /// What is in the buckets is delivered first.
    open spec fn joined(&self, after: &Self, ok: bool) -> bool {
        &&& self.same_settings(after)
        &&& after.last_flushed_at() == self.last_flushed_at()
        &&& after.buckets() == Seq::<BucketView>::empty()
        &&& exists|polled: M, fed: M|
            {
                &&& #[trigger] self.next().polled(&polled)
                &&& submitted_all(&polled, flushed(self.buckets()), &fed)
                &&& #[trigger] fed.joined(after.next(), ok)
            }
    }

    fn join(&mut self) -> (result: Result<(), Error>) {
        self.flush_metrics();
        let ghost fed = self.next;
        let result = self.next.join();
        assert(fed.joined(self.next(), result is Ok));
        result
    }

    fn poll(&mut self) {
        let now = unix_seconds();
        self.poll_at(now);
    }

    fn submit(&mut self, metric: &mut Metric) {
        let kind = match self.kind_of(metric) {
            Some(kind) => kind,
            None => {
                self.next.submit(metric);
                proof {
                    self.lemma_settings_kept(&*old(self));
                }
                return ;
            },
        };
        let (start, end) = match metric.value_pos() {
            Some(pos) => pos,
            None => {
                self.next.submit(metric);
                proof {
                    self.lemma_settings_kept(&*old(self));
                }
                return ;
            },
        };
        let raw = metric.bytes();
        let mut metric_bytes: Vec<u8> = Vec::new();
        append(&mut metric_bytes, slice_subrange(raw, 0, start));
        append(&mut metric_bytes, slice_subrange(raw, end, raw.len()));
        let key = BucketKey { metric_bytes, insert_value_at: start };
        let ghost want = KeyView::of(metric@)->0;
        assert(want.metric_bytes =~= key.metric_bytes@);
        let at = self.find(&key, kind);
        let found = at < self.buckets.len();
        if !found {
            let full = match self.max_map_size {
                Some(max) => self.buckets.len() >= max,
                None => false,
            };
            if full {
                self.next.submit(metric);
                proof {
                    self.lemma_settings_kept(&*old(self));
                }
                return ;
            }
        }
        let value = slice_subrange(raw, start, end);
        let counter = match kind {
            BucketKind::Counter => true,
            BucketKind::Gauge => false,
        };
        let total = if found && counter {
            proof {
                lemma_slot(self.buckets(), want, kind, at as int);
                assert(self.buckets()[at as int] == self.buckets@[at as int]@);
            }
            let held = Some(self.buckets[at].total.as_slice());
            assert(call_requires(self.adder(), (held, value)));
            (self.add)(held, value)
        } else {
            assert(call_requires(self.adder(), (None::<&[u8]>, value)));
            (self.add)(None, value)
        };
        let ghost answer = vec_view(total);
        assert(added(
            self.adder(),
            base_of(self.buckets(), want, kind),
            metric@.value()->0,
            answer,
        ));
        match total {
            Some(total) => {
                let ghost before = self.buckets();
                proof {
                    lemma_put_valid(before, want, kind, total@);
                }
                if found {
                    self.buckets[at].total = total;
                    assert(self.buckets() =~= put(before, want, kind, total@));
                } else {
                    self.buckets.push(Bucket { key, kind, total });
                    assert(self.buckets() =~= put(before, want, kind, total@));
                }
            },
            None => {
                self.next.submit(metric);
            },
        }
        proof {
            self.lemma_settings_kept(&*old(self));
        }
    }
}

/// The values of the metrics, in order.
pub open spec fn values_of(metrics: Seq<MetricView>) -> Seq<Seq<u8>> {
    Seq::new(metrics.len(), |i: int| metrics[i].value()->0)
}

/// Whether handing metric `i` to stage `i` may give stage `i + 1`.
pub open spec fn handed<F, M>(
    stages: Seq<AggregateMetrics<F, M>>,
    metrics: Seq<MetricView>,
    i: int,
) -> bool where F: Fn(Option<&[u8]>, &[u8]) -> Option<Vec<u8>>, M: Middleware {
    exists|left: MetricView| #[trigger] stages[i].submitted(metrics[i], &stages[i + 1], left)
}

/// Counters that differ in nothing but their value add up: where a stage
/// that holds no bucket of their key is handed such counters one after the
/// other, each with a value that is a number, the bucket of the key holds
/// the total of all their values in the end.
pub proof fn lemma_counters_add_up<F, M>(
    stages: Seq<AggregateMetrics<F, M>>,
    metrics: Seq<MetricView>,
    key: KeyView,
) where F: Fn(Option<&[u8]>, &[u8]) -> Option<Vec<u8>>, M: Middleware
    requires
        stages.len() == metrics.len() + 1,
        buckets_valid(stages[0].buckets()),
        stages[0].counters(),
        stages[0].max_buckets() is None,
        !held(stages[0].buckets(), key, BucketKind::Counter),
        forall|i: int|
            0 <= i < metrics.len() ==> {
                &&& KeyView::of(#[trigger] metrics[i]) == Some(key)
                &&& metrics[i].ty() == Some(seq![COUNTER])
            },
        forall|i: int, before: Option<Seq<u8>>|
            0 <= i < metrics.len() ==> !#[trigger] added(
                stages[0].adder(),
                before,
                metrics[i].value()->0,
                None,
            ),
        forall|i: int| 0 <= i < metrics.len() ==> #[trigger] handed(stages, metrics, i),
    ensures
        buckets_valid(stages.last().buckets()),
        stages[0].same_settings(&stages.last()),
        added_up(
            stages[0].adder(),
            values_of(metrics),
            total_of(stages.last().buckets(), key, BucketKind::Counter),
        ),
    decreases metrics.len(),
{
    let kind = BucketKind::Counter;
    if metrics.len() > 0 {
        let n = metrics.len() as int;
        let head = stages.drop_last();
        let before = head.last();
        let after = stages.last();
        let metric = metrics.last();
        assert(head[0] == stages[0]);
        assert forall|i: int| 0 <= i < metrics.drop_last().len() implies {
            &&& KeyView::of(#[trigger] metrics.drop_last()[i]) == Some(key)
            &&& metrics.drop_last()[i].ty() == Some(seq![COUNTER])
        } by {
            assert(metrics.drop_last()[i] == metrics[i]);
        }
        assert forall|i: int, held: Option<Seq<u8>>|
            0 <= i < metrics.drop_last().len() implies !#[trigger] added(
            head[0].adder(),
            held,
            metrics.drop_last()[i].value()->0,
            None,
        ) by {
            assert(metrics.drop_last()[i] == metrics[i]);
            assert(!added(stages[0].adder(), held, metrics[i].value()->0, None));
        }
        assert forall|i: int| 0 <= i < metrics.drop_last().len() implies #[trigger] handed(
            head,
            metrics.drop_last(),
            i,
        ) by {
            assert(metrics.drop_last()[i] == metrics[i]);
            assert(head[i] == stages[i]);
            assert(head[i + 1] == stages[i + 1]);
            assert(handed(stages, metrics, i));
            let left = choose|left: MetricView| #[trigger]
                stages[i].submitted(metrics[i], &stages[i + 1], left);
            assert(head[i].submitted(metrics.drop_last()[i], &head[i + 1], left));
        }
        lemma_counters_add_up(head, metrics.drop_last(), key);
        assert(before == stages[n - 1]);
        assert(after == stages[n]);
        assert(handed(stages, metrics, n - 1));
        let left = choose|left: MetricView| #[trigger]
            stages[n - 1].submitted(metrics[n - 1], &stages[n], left);
        assert(before.submitted(metric, &after, left));
        assert(KeyView::of(metric) == Some(key));
        assert(kind_of(metric, before.counters(), before.gauges()) == Some(kind));
        assert(!before.full());
        let answer = choose|total: Option<Seq<u8>>|
            {
                &&& #[trigger] added(
                    before.adder(),
                    base_of(before.buckets(), key, kind),
                    metric.value()->0,
                    total,
                )
                &&& match total {
                    Some(total) => before.kept(metric, total, &after, left),
                    None => before.passed(metric, &after, left),
                }
            };
        assert(!added(
            stages[0].adder(),
            base_of(before.buckets(), key, kind),
            metrics[n - 1].value()->0,
            None,
        ));
        assert(answer is Some);
        lemma_render_own_value(metric);
        lemma_put_valid(before.buckets(), key, kind, answer->0);
        lemma_put_then_total(before.buckets(), key, kind, answer->0, key, kind);
        assert(values_of(metrics).drop_last() =~= values_of(metrics.drop_last()));
        assert(values_of(metrics).last() == metric.value()->0);
        assert(added(
            stages[0].adder(),
            total_of(before.buckets(), key, kind),
            values_of(metrics).last(),
            total_of(after.buckets(), key, kind),
        ));
    } else {
        assert(stages.last() == stages[0]);
    }
}

} // verus!
