//! Filters out the tags whose name starts or ends with a given string.

use crate::bytes::{has_prefix, has_suffix};
use crate::config::StripTagConfig;
use crate::middleware::deny_tag::{denies, Pattern};
use crate::middleware::tag_rule::{keeps_of, retain_tags, TagRule};
use crate::middleware::{Error, Middleware};
use crate::types::{tag_name, Metric, MetricTag, MetricView};
use vstd::prelude::*;

verus! {

/// The ways in which the name of a tag can be matched.
pub enum FilterType {
    /// The name starts with the string.
    StartsWith(String),
    /// The name ends with the string.
    EndsWith(String),
}

impl View for FilterType {
    type V = Pattern;

    open spec fn view(&self) -> Pattern {
        match self {
            FilterType::StartsWith(text) => Pattern::StartsWith(text@),
            FilterType::EndsWith(text) => Pattern::EndsWith(text@),
        }
    }
}

impl FilterType {
    /// Whether the pattern matches the name.
    pub fn matches(&self, value: &[u8]) -> (r: bool)
        ensures
            r == self@.matches(value@),
    {
        match self {
            FilterType::StartsWith(text) => has_prefix(value, text.as_str().as_bytes()),
            FilterType::EndsWith(text) => has_suffix(value, text.as_str().as_bytes()),
        }
    }
}

/// The patterns as plain values.
pub open spec fn patterns(filters: Seq<FilterType>) -> Seq<Pattern> {
    Seq::new(filters.len(), |i: int| filters[i]@)
}

/// The patterns that a configuration names: prefixes first, then suffixes.
pub open spec fn configured(config: StripTagConfig) -> Seq<Pattern> {
    Seq::new(config.starts_with@.len(), |i: int| Pattern::StartsWith(config.starts_with@[i]@))
        + Seq::new(config.ends_with@.len(), |i: int| Pattern::EndsWith(config.ends_with@[i]@))
}

/// The patterns of a configuration, in its order.
pub fn filters_of(config: &StripTagConfig) -> (filters: Vec<FilterType>)
    ensures
        patterns(filters@) == configured(*config),
{
    let ghost all = configured(*config);
    let mut filters: Vec<FilterType> = Vec::new();
    let mut n: usize = 0;
    while n < config.starts_with.len()
        invariant
            n <= config.starts_with@.len(),
            all == configured(*config),
            patterns(filters@) =~= all.subrange(0, n as int),
        decreases config.starts_with@.len() - n,
    {
        let ghost before = patterns(filters@);
        filters.push(FilterType::StartsWith(config.starts_with[n].clone()));
        assert(all[n as int] == Pattern::StartsWith(config.starts_with@[n as int]@));
        assert(patterns(filters@) =~= before.push(all[n as int]));
        n += 1;
    }
    let mut m: usize = 0;
    while m < config.ends_with.len()
        invariant
            m <= config.ends_with@.len(),
            n == config.starts_with@.len(),
            all == configured(*config),
            patterns(filters@) =~= all.subrange(0, n + m),
        decreases config.ends_with@.len() - m,
    {
        let ghost before = patterns(filters@);
        filters.push(FilterType::EndsWith(config.ends_with[m].clone()));
        assert(all[n + m] == Pattern::EndsWith(config.ends_with@[m as int]@));
        assert(patterns(filters@) =~= before.push(all[n + m]));
        m += 1;
    }
    assert(all.subrange(0, n + m) =~= all);
    filters
}

/// Drops every tag whose name one of its patterns matches. A tag without a
/// name stays.
pub struct FilterTag<M> {
    filters: Vec<FilterType>,
    next: M,
}

impl<M> FilterTag<M> {
    /// The patterns, in the order given.
    pub closed spec fn filtered(&self) -> Seq<Pattern> {
        patterns(self.filters@)
    }

    /// The stage that the metrics are handed to.
    pub closed spec fn next(&self) -> &M {
        &self.next
    }
}

impl<M> FilterTag<M> where M: Middleware {
    pub fn new(filters: Vec<FilterType>, next: M) -> (stage: FilterTag<M>)
        ensures
            stage.filtered() == patterns(filters@),
            *stage.next() == next,
    {
        Self { filters, next }
    }
}

impl<M> TagRule for FilterTag<M> {
    open spec fn keeps(&self, tag: Seq<u8>) -> bool {
        !denies(self.filtered(), tag)
    }

    fn keep(&self, tag: &MetricTag<'_>) -> (kept: bool) {
        match tag.name() {
            Some(name) => {
                let mut i: usize = 0;
                while i < self.filters.len()
                    invariant
                        i <= self.filters@.len(),
                        tag_name(tag.raw@) == Some(name@),
                        forall|k: int|
                            0 <= k < i ==> !(#[trigger] self.filtered()[k]).matches(name@),
                    decreases self.filters@.len() - i,
                {
                    assert(self.filtered()[i as int] == self.filters@[i as int]@);
                    if self.filters[i].matches(name) {
                        assert(0 <= i < self.filtered().len());
                        assert(tag_name(tag.raw@)->0 == name@);
                        assert(exists|k: int|
                            0 <= k < self.filtered().len() && #[trigger] self.filtered()[k].matches(
                                name@,
                            ));
                        assert(denies(self.filtered(), tag.raw@));
                        return false;
                    }
                    i += 1;
                }
                true
            },
            None => true,
        }
    }
}

impl<M> Middleware for FilterTag<M> where M: Middleware {
    open spec fn valid(&self) -> bool {
        self.next().valid()
    }

    open spec fn polled(&self, after: &Self) -> bool {
        &&& after.filtered() == self.filtered()
        &&& self.next().polled(after.next())
    }

    /// The next stage is handed the metric without the tags that a pattern
    /// matches.
    open spec fn submitted(&self, metric: MetricView, after: &Self, left: MetricView) -> bool {
        &&& after.filtered() == self.filtered()
        &&& self.next().submitted(metric.retain_tags(keeps_of(self)), after.next(), left)
    }

    open spec fn joined(&self, after: &Self, ok: bool) -> bool {
        &&& after.filtered() == self.filtered()
        &&& self.next().joined(after.next(), ok)
    }

    fn join(&mut self) -> (result: Result<(), Error>) {
        self.next.join()
    }

    fn poll(&mut self) {
        self.next.poll()
    }

    fn submit(&mut self, metric: &mut Metric) {
        retain_tags(metric, &*self);
        self.next.submit(metric)
    }
}

} // verus!
