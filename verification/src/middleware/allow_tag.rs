//! Keeps only the tags whose name is on a list.

use crate::bytes::{distinct, distinct_texts, holds_bytes, lemma_distinct, texts, views};
use crate::config::AllowTagConfig;
use crate::middleware::tag_rule::{keeps_of, retain_tags, TagRule};
use crate::middleware::{Error, Middleware};
use crate::types::{tag_name, Metric, MetricTag, MetricView};
use vstd::prelude::*;

verus! {

/// Whether a tag has a name, and the name is among `allowed`.
pub open spec fn allows(allowed: Seq<Seq<u8>>, tag: Seq<u8>) -> bool {
    match tag_name(tag) {
        Some(name) => allowed.contains(name),
        None => false,
    }
}

pub struct AllowTag<M> {
    tags: Vec<Vec<u8>>,
    next: M,
}

impl<M> AllowTag<M> {
    /// The names of the tags that stay, each once.
    pub closed spec fn allowed(&self) -> Seq<Seq<u8>> {
        views(self.tags@)
    }

    /// The stage that the metrics are handed to.
    pub closed spec fn next(&self) -> &M {
        &self.next
    }
}

impl<M> AllowTag<M> where M: Middleware {
    pub fn new(config: AllowTagConfig, next: M) -> (stage: Self)
        ensures
            stage.allowed() == distinct(texts(config.tags@)),
            stage.allowed().no_duplicates(),
            *stage.next() == next,
    {
        proof {
            lemma_distinct(texts(config.tags@));
        }
        AllowTag { tags: distinct_texts(&config.tags), next }
    }
}

impl<M> TagRule for AllowTag<M> {
    open spec fn keeps(&self, tag: Seq<u8>) -> bool {
        allows(self.allowed(), tag)
    }

    fn keep(&self, tag: &MetricTag<'_>) -> (kept: bool) {
        match tag.name() {
            Some(name) => holds_bytes(&self.tags, name),
            None => false,
        }
    }
}

/// A metric of which every tag has a name that is allowed goes through as
/// it is: the stage hands it on untouched.
pub proof fn lemma_allow_all<M: Middleware>(stage: &AllowTag<M>, metric: MetricView)
    requires
        forall|i: int|
            0 <= i < metric.tag_list().len() ==> {
                &&& tag_name(#[trigger] metric.tag_list()[i]) is Some
                &&& stage.allowed().contains(tag_name(metric.tag_list()[i])->0)
            },
    ensures
        metric.retain_tags(keeps_of(stage)) == metric,
        forall|after: &AllowTag<M>, left: MetricView| #[trigger]
            stage.submitted(metric, after, left) <==> after.allowed() == stage.allowed()
                && stage.next().submitted(metric, after.next(), left),
{
    let list = metric.tag_list();
    assert forall|i: int| 0 <= i < list.len() implies #[trigger] keeps_of(stage)(list[i]) by {
        assert(tag_name(list[i]) is Some);
    }
}

impl<M> Middleware for AllowTag<M> where M: Middleware {
    open spec fn valid(&self) -> bool {
        self.next().valid()
    }

    open spec fn polled(&self, after: &Self) -> bool {
        &&& after.allowed() == self.allowed()
        &&& self.next().polled(after.next())
    }

    /// The next stage is handed the metric without the tags that are not
    /// allowed.
    open spec fn submitted(&self, metric: MetricView, after: &Self, left: MetricView) -> bool {
        &&& after.allowed() == self.allowed()
        &&& self.next().submitted(metric.retain_tags(keeps_of(self)), after.next(), left)
    }

    open spec fn joined(&self, after: &Self, ok: bool) -> bool {
        &&& after.allowed() == self.allowed()
        &&& self.next().joined(after.next(), ok)
    }

    fn join(&mut self) -> (result: Result<(), Error>) {
        self.next.join()
    }

    fn poll(&mut self) {
        self.next.poll()
    }

    fn submit(&mut self, metric: &mut Metric) {
        retain_tags(metric, &*self);
        self.next.submit(metric)
    }
}

} // verus!
