//! Caps the number of distinct values that a tag may take.

use crate::bytes::{
    holds_bytes, join, lemma_split_join, lemma_split_pieces, same_bytes, to_vec, views, COMMA,
};
use crate::config::TagCardinalityLimitConfig;
use crate::middleware::tag_rule::{keeps_of, retain_tags, TagRule};
use crate::middleware::{Error, Middleware};
use crate::types::{
    lemma_set_tags_then_tags, tag_name, tag_value, Metric, MetricTag, MetricView,
};
use vstd::prelude::*;
use vstd::utf8::encode_utf8;

verus! {

/// `*`, the tag name that stands for every name.
pub const WILDCARD: u8 = 42;

/// A quota as a plain value.
pub struct TagQuota {
    /// The name of the tag that the quota is for, or `*`.
    pub tag: Seq<u8>,
    /// How many distinct values are let through.
    pub limit: u64,
    /// The values seen so far, each once, in the order in which they came.
    pub seen: Seq<Seq<u8>>,
}

impl TagQuota {
    /// Whether the quota is for tags of this name.
    pub open spec fn covers(self, name: Seq<u8>) -> bool {
        self.tag == seq![WILDCARD] || self.tag == name
    }

    /// Whether the quota is for this name, is used up, and has not seen the
    /// value.
    pub open spec fn rejects(self, name: Seq<u8>, value: Seq<u8>) -> bool {
        self.covers(name) && self.seen.len() >= self.limit && !self.seen.contains(value)
    }

    /// The quota after a tag of this name and value went through.
    pub open spec fn record(self, name: Seq<u8>, value: Seq<u8>) -> TagQuota {
        if self.covers(name) && !self.seen.contains(value) {
            TagQuota { tag: self.tag, limit: self.limit, seen: self.seen.push(value) }
        } else {
            self
        }
    }
}

/// Whether a tag goes through: it has no value, or no quota rejects it.
pub open spec fn fits(quotas: Seq<TagQuota>, tag: Seq<u8>) -> bool {
    match tag_value(tag) {
        Some(value) => forall|i: int|
            0 <= i < quotas.len() ==> !(#[trigger] quotas[i]).rejects(tag_name(tag)->0, value),
        None => true,
    }
}

/// The quotas after one tag went through.
pub open spec fn record_tag(quotas: Seq<TagQuota>, tag: Seq<u8>) -> Seq<TagQuota> {
    match tag_value(tag) {
        Some(value) => Seq::new(
            quotas.len(),
            |i: int| quotas[i].record(tag_name(tag)->0, value),
        ),
        None => quotas,
    }
}

/// The quotas after these tags went through, one after the other.
pub open spec fn record_tags(quotas: Seq<TagQuota>, tags: Seq<Seq<u8>>) -> Seq<TagQuota>
    decreases tags.len(),
{
    if tags.len() == 0 {
        quotas
    } else {
        record_tag(record_tags(quotas, tags.drop_last()), tags.last())
    }
}

/// No quota holds a value twice.
pub open spec fn distinct_values(quotas: Seq<TagQuota>) -> bool {
    forall|i: int| 0 <= i < quotas.len() ==> (#[trigger] quotas[i]).seen.no_duplicates()
}

/// Recording tags leaves the values of every quota distinct.
pub proof fn lemma_record_tags_distinct(quotas: Seq<TagQuota>, tags: Seq<Seq<u8>>)
    requires
        distinct_values(quotas),
    ensures
        distinct_values(record_tags(quotas, tags)),
    decreases tags.len(),
{
    if tags.len() > 0 {
        lemma_record_tags_distinct(quotas, tags.drop_last());
        let before = record_tags(quotas, tags.drop_last());
        let after = record_tag(before, tags.last());
        assert forall|i: int| 0 <= i < after.len() implies (
        #[trigger] after[i]).seen.no_duplicates() by {
            assert(before[i].seen.no_duplicates());
        }
    }
}

/// Counting the tags of the metric as it is left counts the tags that were
/// kept: rebuilding the tag list loses no tag that has a value.
pub proof fn lemma_counts_kept_tags(
    quotas: Seq<TagQuota>,
    metric: MetricView,
    keep: spec_fn(Seq<u8>) -> bool,
)
    requires
        metric.valid(),
    ensures
        record_tags(quotas, metric.retain_tags(keep).tag_list()) == record_tags(
            quotas,
            metric.tag_list().filter(keep),
        ),
{
    let list = metric.tag_list();
    let kept = list.filter(keep);
    let left = metric.retain_tags(keep);
    if forall|i: int| 0 <= i < list.len() ==> #[trigger] keep(list[i]) {
        lemma_filter_all(list, keep);
    } else {
        let joined = join(kept, COMMA);
        lemma_set_tags_then_tags(metric, joined);
        assert(metric.tags() is Some);
        lemma_split_pieces(metric.tags()->0, COMMA);
        assert forall|i: int, k: int|
            0 <= i < kept.len() && 0 <= k < kept[i].len() implies kept[i][k] != COMMA by {
            assert(kept.contains(kept[i]));
            list.lemma_filter_contains_rev(keep, kept[i]);
            let at = choose|at: int| 0 <= at < list.len() && list[at] == kept[i];
            assert(list[at][k] != COMMA);
        }
        if joined.len() > 0 {
            assert(kept.len() >= 1);
            lemma_split_join(kept, COMMA);
        } else {
            assert(left.tag_list() =~= Seq::<Seq<u8>>::empty());
            if kept.len() == 1 {
                assert(kept[0] =~= Seq::<u8>::empty());
                assert(kept.drop_last() =~= Seq::<Seq<u8>>::empty());
                assert(tag_value(kept.last()) is None);
                assert(record_tags(quotas, kept) == record_tags(quotas, kept.drop_last()));
            } else if kept.len() >= 2 {
                assert(join(kept, COMMA).len() > 0);
            }
        }
    }
}

/// Where the rule keeps every tag, filtering changes nothing.
proof fn lemma_filter_all(list: Seq<Seq<u8>>, keep: spec_fn(Seq<u8>) -> bool)
    requires
        forall|i: int| 0 <= i < list.len() ==> #[trigger] keep(list[i]),
    ensures
        list.filter(keep) == list,
    decreases list.len(),
{
    reveal(Seq::filter);
    if list.len() > 0 {
        let head = list.drop_last();
        assert forall|i: int| 0 <= i < head.len() implies #[trigger] keep(head[i]) by {
            assert(keep(list[i]));
        }
        lemma_filter_all(head, keep);
        assert(keep(list[list.len() - 1]));
        assert(head.push(list.last()) =~= list);
    }
}

struct Quota {
    tag: String,
    limit: u64,
    values_seen: Vec<Vec<u8>>,
}

impl View for Quota {
    type V = TagQuota;

    closed spec fn view(&self) -> TagQuota {
        TagQuota { tag: encode_utf8(self.tag@), limit: self.limit, seen: views(self.values_seen@) }
    }
}

impl Quota {
    fn covers(&self, name: &[u8]) -> (r: bool)
        ensures
            r == self@.covers(name@),
    {
        let tag = self.tag.as_str().as_bytes();
        if tag.len() == 1 && tag[0] == WILDCARD {
            assert(tag@ =~= seq![WILDCARD]);
            true
        } else {
            same_bytes(tag, name)
        }
    }

    fn rejects(&self, name: &[u8], value: &[u8]) -> (r: bool)
        ensures
            r == self@.rejects(name@, value@),
    {
        self.covers(name) && self.values_seen.len() as u64 >= self.limit && !holds_bytes(
            &self.values_seen,
            value,
        )
    }

    fn record(&mut self, name: &[u8], value: &[u8])
        ensures
            final(self)@ == old(self)@.record(name@, value@),
    {
        if self.covers(name) && !holds_bytes(&self.values_seen, value) {
            self.values_seen.push(to_vec(value));
            assert(views(self.values_seen@) =~= views(old(self).values_seen@).push(value@));
        }
    }
}

/// The quotas as plain values.
spec fn quota_views(quotas: Seq<Quota>) -> Seq<TagQuota> {
    Seq::new(quotas.len(), |i: int| quotas[i]@)
}

pub struct TagCardinalityLimit<M> {
    next: M,
    quotas: Vec<Quota>,
}

impl<M> TagCardinalityLimit<M> {
    /// The quotas, in the order in which they were configured.
    pub closed spec fn quotas(&self) -> Seq<TagQuota> {
        quota_views(self.quotas@)
    }

    /// The stage that the metrics are handed to.
    pub closed spec fn next(&self) -> &M {
        &self.next
    }
}

/// The quotas that a configuration asks for, with nothing seen yet.
pub open spec fn configured(config: TagCardinalityLimitConfig) -> Seq<TagQuota> {
    Seq::new(
        config.limits@.len(),
        |i: int|
            TagQuota {
                tag: encode_utf8(config.limits@[i].tag@),
                limit: config.limits@[i].limit,
                seen: Seq::empty(),
            },
    )
}

impl<M> TagCardinalityLimit<M> where M: Middleware {
    pub fn new(config: TagCardinalityLimitConfig, next: M) -> (stage: Self)
        ensures
            stage.quotas() == configured(config),
            *stage.next() == next,
            next.valid() ==> stage.valid(),
    {
        let mut quotas: Vec<Quota> = Vec::new();
        let mut n: usize = 0;
        while n < config.limits.len()
            invariant
                n <= config.limits@.len(),
                quota_views(quotas@) == configured(config).subrange(0, n as int),
            decreases config.limits@.len() - n,
        {
            let quota = Quota {
                tag: config.limits[n].tag.clone(),
                limit: config.limits[n].limit,
                values_seen: Vec::new(),
            };
            assert(quota@.seen =~= Seq::empty());
            assert(quota@ == configured(config)[n as int]);
            let ghost before = quota_views(quotas@);
            quotas.push(quota);
            assert(quota_views(quotas@) =~= before.push(configured(config)[n as int]));
            n += 1;
            assert(quota_views(quotas@) =~= configured(config).subrange(0, n as int));
        }
        assert(configured(config).subrange(0, n as int) =~= configured(config));
        assert(distinct_values(configured(config)));
        Self { next, quotas }
    }

    /// Counts the values of the tags of a metric that went through.
    fn record(&mut self, metric: &Metric)
        requires
            metric.valid(),
        ensures
            final(self).quotas() == record_tags(old(self).quotas(), metric@.tag_list()),
            *final(self).next() == *old(self).next(),
    {
        let ghost list = metric@.tag_list();
        let ghost mut done: Seq<Seq<u8>> = Seq::empty();
        let mut iter = metric.tags_iter();
        assert(done + iter.pending() =~= list);
        loop
            invariant
                list == done + iter.pending(),
                self.quotas() == record_tags(old(self).quotas(), done),
                *self.next() == *old(self).next(),
            ensures
                list == done,
                self.quotas() == record_tags(old(self).quotas(), done),
                *self.next() == *old(self).next(),
            decreases iter.pending().len(),
        {
            let ghost rest = iter.pending();
            let ghost before = self.quotas();
            match iter.next() {
                Some(tag) => {
                    proof {
                        assert(done.push(rest[0]) + rest.drop_first() =~= done + rest);
                        assert(done.push(rest[0]).drop_last() =~= done);
                    }
                    if let Some(value) = tag.value() {
                        let name = tag.name().unwrap();
                        let mut i: usize = 0;
                        while i < self.quotas.len()
                            invariant
                                i <= self.quotas@.len(),
                                self.quotas@.len() == before.len(),
                                *self.next() == *old(self).next(),
                                forall|k: int|
                                    0 <= k < i ==> (#[trigger] self.quotas()[k]) == before[k].record(
                                        name@,
                                        value@,
                                    ),
                                forall|k: int|
                                    i <= k < before.len() ==> (#[trigger] self.quotas()[k])
                                        == before[k],
                            decreases self.quotas@.len() - i,
                        {
                            let ghost prior = self.quotas();
                            let ghost prior_list = self.quotas@;
                            assert(prior[i as int] == before[i as int]);
                            self.quotas[i].record(name, value);
                            assert(self.quotas@.len() == prior_list.len());
                            assert(self.quotas()[i as int] == prior[i as int].record(name@, value@));
                            assert forall|k: int| 0 <= k < before.len() && k != i implies (
                            #[trigger] self.quotas()[k]) == prior[k] by {
                                assert(self.quotas@[k] == prior_list[k]);
                            }
                            i += 1;
                        }
                        assert(self.quotas() =~= record_tag(before, rest[0]));
                    }
                    proof {
                        done = done.push(rest[0]);
                    }
                },
                None => {
                    assert(done + rest =~= done);
                    break ;
                },
            }
        }
    }
}

impl<M> TagRule for TagCardinalityLimit<M> {
    open spec fn keeps(&self, tag: Seq<u8>) -> bool {
        fits(self.quotas(), tag)
    }

    fn keep(&self, tag: &MetricTag<'_>) -> (kept: bool) {
        match tag.value() {
            Some(value) => {
                let name = tag.name().unwrap();
                let mut i: usize = 0;
                while i < self.quotas.len()
                    invariant
                        i <= self.quotas@.len(),
                        tag_value(tag.raw@) == Some(value@),
                        tag_name(tag.raw@) == Some(name@),
                        forall|k: int|
                            0 <= k < i ==> !(#[trigger] self.quotas()[k]).rejects(name@, value@),
                    decreases self.quotas@.len() - i,
                {
                    assert(self.quotas()[i as int] == self.quotas@[i as int]@);
                    if self.quotas[i].rejects(name, value) {
                        assert(tag_name(tag.raw@)->0 == name@);
                        assert(self.quotas()[i as int].rejects(tag_name(tag.raw@)->0, value@));
                        assert(!fits(self.quotas(), tag.raw@));
                        return false;
                    }
                    i += 1;
                }
                assert(tag_name(tag.raw@)->0 == name@);
                true
            },
            None => true,
        }
    }
}

impl<M> Middleware for TagCardinalityLimit<M> where M: Middleware {
    /// No quota holds a value twice.
    open spec fn valid(&self) -> bool {
        &&& distinct_values(self.quotas())
        &&& self.next().valid()
    }

    open spec fn polled(&self, after: &Self) -> bool {
        &&& after.quotas() == self.quotas()
        &&& self.next().polled(after.next())
    }

    /// The metric loses the tags that do not fit, and the next stage is
    /// handed a copy of what is left. Then the values of the tags that are
    /// left are counted.
    open spec fn submitted(&self, metric: MetricView, after: &Self, left: MetricView) -> bool {
        &&& left == metric.retain_tags(keeps_of(self))
        &&& after.quotas() == record_tags(self.quotas(), left.tag_list())
        &&& exists|passed: MetricView| self.next().submitted(left, after.next(), passed)
    }

    open spec fn joined(&self, after: &Self, ok: bool) -> bool {
        &&& after.quotas() == self.quotas()
        &&& self.next().joined(after.next(), ok)
    }

    fn join(&mut self) -> (result: Result<(), Error>) {
        self.next.join()
    }

    fn poll(&mut self) {
        self.next.poll()
    }

    fn submit(&mut self, metric: &mut Metric) {
        retain_tags(metric, &*self);
        let mut copy = metric.clone();
        self.next.submit(&mut copy);
        let ghost passed = copy@;
        let ghost sent = *self.next();
        self.record(metric);
        proof {
            lemma_record_tags_distinct(old(self).quotas(), metric@.tag_list());
            assert(old(self).next().submitted(metric@, &sent, passed));
        }
    }
}

} // verus!
