//! Drops the tags whose name matches a pattern.
//!
//! Useful to keep tags of high cardinality, such as user ids, out of some
//! deployments without touching the code that emits the metrics.

use crate::bytes::{
    distinct, ends_with, has_prefix, has_suffix, lemma_distinct, same_bytes, starts_with,
};
use crate::config::DenyTagConfig;
use crate::middleware::tag_rule::{keeps_of, retain_tags, TagRule};
use crate::middleware::{Error, Middleware};
use crate::types::{tag_name, Metric, MetricTag, MetricView};
use vstd::prelude::*;
use vstd::utf8::encode_utf8;

verus! {

/// The ways in which the name of a tag can be matched.
#[derive(PartialEq, Eq, Hash, Clone, Debug)]
pub enum DenyType {
    /// The name starts with the string.
    StartsWith(String),
    /// The name ends with the string.
    EndsWith(String),
    /// The name is the string.
    Equals(String),
}

/// A pattern as a plain value.
pub enum Pattern {
    StartsWith(Seq<char>),
    EndsWith(Seq<char>),
    Equals(Seq<char>),
}

impl Pattern {
    /// Whether the pattern matches a name.
    pub open spec fn matches(self, name: Seq<u8>) -> bool {
        match self {
            Pattern::StartsWith(text) => starts_with(name, encode_utf8(text)),
            Pattern::EndsWith(text) => ends_with(name, encode_utf8(text)),
            Pattern::Equals(text) => encode_utf8(text) == name,
        }
    }
}

impl View for DenyType {
    type V = Pattern;

    open spec fn view(&self) -> Pattern {
        match self {
            DenyType::StartsWith(text) => Pattern::StartsWith(text@),
            DenyType::EndsWith(text) => Pattern::EndsWith(text@),
            DenyType::Equals(text) => Pattern::Equals(text@),
        }
    }
}

impl DenyType {
    /// Whether the pattern matches the name.
    pub fn matches(&self, value: &[u8]) -> (r: bool)
        ensures
            r == self@.matches(value@),
    {
        match self {
            DenyType::StartsWith(text) => has_prefix(value, text.as_str().as_bytes()),
            DenyType::EndsWith(text) => has_suffix(value, text.as_str().as_bytes()),
            DenyType::Equals(text) => same_bytes(text.as_str().as_bytes(), value),
        }
    }

    /// Whether the two are the same pattern.
    pub fn same(&self, other: &DenyType) -> (r: bool)
        ensures
            r == (self@ == other@),
    {
        match (self, other) {
            (DenyType::StartsWith(a), DenyType::StartsWith(b)) => {
                let r = *a == *b;
                assert(r == (a@ == b@));
                r
            },
            (DenyType::EndsWith(a), DenyType::EndsWith(b)) => {
                let r = *a == *b;
                assert(r == (a@ == b@));
                r
            },
            (DenyType::Equals(a), DenyType::Equals(b)) => {
                let r = *a == *b;
                assert(r == (a@ == b@));
                r
            },
            _ => false,
        }
    }
}

/// The patterns as plain values.
pub open spec fn patterns(filters: Seq<DenyType>) -> Seq<Pattern> {
    Seq::new(filters.len(), |i: int| filters[i]@)
}

/// The patterns that a configuration names: prefixes first, then suffixes,
/// then whole names.
pub open spec fn configured(config: DenyTagConfig) -> Seq<Pattern> {
    Seq::new(config.starts_with@.len(), |i: int| Pattern::StartsWith(config.starts_with@[i]@))
        + Seq::new(config.ends_with@.len(), |i: int| Pattern::EndsWith(config.ends_with@[i]@))
        + Seq::new(config.tags@.len(), |i: int| Pattern::Equals(config.tags@[i]@))
}

/// Whether a tag has a name that one of the patterns matches.
pub open spec fn denies(patterns: Seq<Pattern>, tag: Seq<u8>) -> bool {
    match tag_name(tag) {
        Some(name) => exists|i: int| 0 <= i < patterns.len() && #[trigger] patterns[i].matches(name),
        None => false,
    }
}

pub struct DenyTag<M> {
    filters: Vec<DenyType>,
    next: M,
}

/// Adds the pattern unless the list holds it.
fn push_unique(filters: &mut Vec<DenyType>, filter: DenyType)
    ensures
        patterns(final(filters)@) == if patterns(old(filters)@).contains(filter@) {
            patterns(old(filters)@)
        } else {
            patterns(old(filters)@).push(filter@)
        },
{
    let mut i: usize = 0;
    while i < filters.len()
        invariant
            i <= filters@.len(),
            filters@ == old(filters)@,
            forall|k: int| 0 <= k < i ==> patterns(filters@)[k] != filter@,
        decreases filters@.len() - i,
    {
        if filters[i].same(&filter) {
            assert(patterns(filters@)[i as int] == filter@);
            return ;
        }
        i += 1;
    }
    filters.push(filter);
    assert(patterns(filters@) =~= patterns(old(filters)@).push(filter@));
}

impl<M> DenyTag<M> {
    /// The patterns, each once.
    pub closed spec fn denied(&self) -> Seq<Pattern> {
        patterns(self.filters@)
    }

    /// The stage that the metrics are handed to.
    pub closed spec fn next(&self) -> &M {
        &self.next
    }

    /// The patterns of the stage.
    pub fn filters(&self) -> (filters: &Vec<DenyType>)
        ensures
            patterns(filters@) == self.denied(),
    {
        &self.filters
    }
}

impl<M> DenyTag<M> where M: Middleware {
    pub fn new(config: DenyTagConfig, next: M) -> (stage: Self)
        ensures
            stage.denied() == distinct(configured(config)),
            stage.denied().no_duplicates(),
            *stage.next() == next,
    {
        proof {
            lemma_distinct(configured(config));
        }
        let ghost starts = Seq::new(
            config.starts_with@.len(),
            |i: int| Pattern::StartsWith(config.starts_with@[i]@),
        );
        let ghost ends = Seq::new(
            config.ends_with@.len(),
            |i: int| Pattern::EndsWith(config.ends_with@[i]@),
        );
        let ghost wholes = Seq::new(
            config.tags@.len(),
            |i: int| Pattern::Equals(config.tags@[i]@),
        );
        let ghost all = configured(config);
        let mut filters: Vec<DenyType> = Vec::new();
        assert(patterns(filters@) =~= distinct(all.subrange(0, 0)));
        let mut n: usize = 0;
        while n < config.starts_with.len()
            invariant
                n <= config.starts_with@.len(),
                all == starts + ends + wholes,
                starts.len() == config.starts_with@.len(),
                forall|i: int| 0 <= i < starts.len() ==> starts[i] == Pattern::StartsWith(
                    config.starts_with@[i]@,
                ),
                patterns(filters@) == distinct(all.subrange(0, n as int)),
            decreases config.starts_with@.len() - n,
        {
            assert(all.subrange(0, n + 1).drop_last() =~= all.subrange(0, n as int));
            push_unique(&mut filters, DenyType::StartsWith(config.starts_with[n].clone()));
            n += 1;
        }
        let mut m: usize = 0;
        while m < config.ends_with.len()
            invariant
                m <= config.ends_with@.len(),
                n == starts.len(),
                all == starts + ends + wholes,
                ends.len() == config.ends_with@.len(),
                forall|i: int| 0 <= i < ends.len() ==> ends[i] == Pattern::EndsWith(
                    config.ends_with@[i]@,
                ),
                patterns(filters@) == distinct(all.subrange(0, n + m)),
            decreases config.ends_with@.len() - m,
        {
            assert(all.subrange(0, n + m + 1).drop_last() =~= all.subrange(0, n + m));
            push_unique(&mut filters, DenyType::EndsWith(config.ends_with[m].clone()));
            m += 1;
        }
        let mut k: usize = 0;
        while k < config.tags.len()
            invariant
                k <= config.tags@.len(),
                n == starts.len(),
                m == ends.len(),
                all == starts + ends + wholes,
                wholes.len() == config.tags@.len(),
                forall|i: int| 0 <= i < wholes.len() ==> wholes[i] == Pattern::Equals(
                    config.tags@[i]@,
                ),
                patterns(filters@) == distinct(all.subrange(0, n + m + k)),
            decreases config.tags@.len() - k,
        {
            assert(all.subrange(0, n + m + k + 1).drop_last() =~= all.subrange(0, n + m + k));
            push_unique(&mut filters, DenyType::Equals(config.tags[k].clone()));
            k += 1;
        }
        assert(all.subrange(0, n + m + k) =~= all);
        DenyTag { filters, next }
    }
}

impl<M> TagRule for DenyTag<M> {
    open spec fn keeps(&self, tag: Seq<u8>) -> bool {
        !denies(self.denied(), tag)
    }

    fn keep(&self, tag: &MetricTag<'_>) -> (kept: bool) {
        match tag.name() {
            Some(name) => {
                let mut i: usize = 0;
                while i < self.filters.len()
                    invariant
                        i <= self.filters@.len(),
                        tag_name(tag.raw@) == Some(name@),
                        forall|k: int| 0 <= k < i ==> !(#[trigger] self.denied()[k]).matches(name@),
                    decreases self.filters@.len() - i,
                {
                    if self.filters[i].matches(name) {
                        assert(self.denied()[i as int] == self.filters@[i as int]@);
                        assert(self.denied()[i as int].matches(name@));
                        assert(0 <= i < self.denied().len());
                        assert(tag_name(tag.raw@)->0 == name@);
                        assert(exists|k: int|
                            0 <= k < self.denied().len() && #[trigger] self.denied()[k].matches(
                                name@,
                            ));
                        assert(denies(self.denied(), tag.raw@));
                        return false;
                    }
                    assert(self.denied()[i as int] == self.filters@[i as int]@);
                    i += 1;
                }
                true
            },
            None => true,
        }
    }
}

/// Without patterns every metric goes through as it is: the stage hands it
/// on untouched.
pub proof fn lemma_deny_nothing<M: Middleware>(stage: &DenyTag<M>, metric: MetricView)
    requires
        stage.denied().len() == 0,
    ensures
        metric.retain_tags(keeps_of(stage)) == metric,
        forall|after: &DenyTag<M>, left: MetricView| #[trigger]
            stage.submitted(metric, after, left) <==> after.denied() == stage.denied()
                && stage.next().submitted(metric, after.next(), left),
{
    let list = metric.tag_list();
    assert forall|i: int| 0 <= i < list.len() implies #[trigger] keeps_of(stage)(list[i]) by {}
}

impl<M> Middleware for DenyTag<M> where M: Middleware {
    open spec fn valid(&self) -> bool {
        self.next().valid()
    }

    open spec fn polled(&self, after: &Self) -> bool {
        &&& after.denied() == self.denied()
        &&& self.next().polled(after.next())
    }

    /// The next stage is handed the metric without the tags that a pattern
    /// matches.
    open spec fn submitted(&self, metric: MetricView, after: &Self, left: MetricView) -> bool {
        &&& after.denied() == self.denied()
        &&& self.next().submitted(metric.retain_tags(keeps_of(self)), after.next(), left)
    }

    open spec fn joined(&self, after: &Self, ok: bool) -> bool {
        &&& after.denied() == self.denied()
        &&& self.next().joined(after.next(), ok)
    }

    fn join(&mut self) -> (result: Result<(), Error>) {
        self.next.join()
    }

    fn poll(&mut self) {
        self.next.poll()
    }

    fn submit(&mut self, metric: &mut Metric) {
        retain_tags(metric, &*self);
        self.next.submit(metric)
    }
}

} // verus!
