//! Adds a fixed list of tags to every metric.

use crate::bytes::{append, join, texts, COMMA};
use crate::config::AddTagConfig;
use crate::middleware::{Error, Middleware};
use crate::types::{Metric, MetricView};
use vstd::prelude::*;

verus! {

/// The metric with `extra` behind the tags it has, or as its tags where it
/// has none.
pub open spec fn add_tags(metric: MetricView, extra: Seq<u8>) -> MetricView {
    match metric.tags() {
        Some(tags) => metric.set_tags(tags + seq![COMMA] + extra),
        None => metric.set_tags(extra),
    }
}

pub struct AddTag<M> {
    tags: Vec<u8>,
    next: M,
}

impl<M> AddTag<M> where M: Middleware {
    /// The tags that are added, with a `,` between each two.
    pub closed spec fn tags(&self) -> Seq<u8> {
        self.tags@
    }

    /// The stage that the metrics are handed to.
    pub closed spec fn next(&self) -> &M {
        &self.next
    }

    pub fn new(config: AddTagConfig, next: M) -> (stage: Self)
        ensures
            stage.tags() == join(texts(config.tags@), COMMA),
            *stage.next() == next,
    {
        let mut tags: Vec<u8> = Vec::new();
        let mut n: usize = 0;
        while n < config.tags.len()
            invariant
                n <= config.tags@.len(),
                tags@ == join(texts(config.tags@).subrange(0, n as int), COMMA),
            decreases config.tags@.len() - n,
        {
            let ghost before = texts(config.tags@).subrange(0, n as int);
            let ghost after = texts(config.tags@).subrange(0, n + 1);
            if n > 0 {
                tags.push(COMMA);
            }
            append(&mut tags, config.tags[n].as_str().as_bytes());
            proof {
                assert(after.drop_last() =~= before);
                if n > 0 {
                    assert(tags@ =~= join(before, COMMA) + seq![COMMA] + after.last());
                } else {
                    assert(tags@ =~= after.last());
                }
            }
            n += 1;
        }
        assert(texts(config.tags@).subrange(0, n as int) =~= texts(config.tags@));
        AddTag { tags, next }
    }
}

impl<M> Middleware for AddTag<M> where M: Middleware {
    open spec fn valid(&self) -> bool {
        self.next().valid()
    }

    open spec fn polled(&self, after: &Self) -> bool {
        &&& after.tags() == self.tags()
        &&& self.next().polled(after.next())
    }

    /// The next stage is handed the metric with the tags added.
    open spec fn submitted(&self, metric: MetricView, after: &Self, left: MetricView) -> bool {
        &&& after.tags() == self.tags()
        &&& self.next().submitted(add_tags(metric, self.tags()), after.next(), left)
    }

    open spec fn joined(&self, after: &Self, ok: bool) -> bool {
        &&& after.tags() == self.tags()
        &&& self.next().joined(after.next(), ok)
    }

    fn join(&mut self) -> (result: Result<(), Error>) {
        self.next.join()
    }

    fn poll(&mut self) {
        self.next.poll()
    }

    fn submit(&mut self, metric: &mut Metric) {
        let mut joined: Vec<u8> = Vec::new();
        if let Some(tags) = metric.tags() {
            append(&mut joined, tags);
            joined.push(COMMA);
        }
        append(&mut joined, self.tags.as_slice());
        proof {
            match metric@.tags() {
                Some(tags) => {
                    assert(joined@ =~= tags + seq![COMMA] + self.tags());
                },
                None => {
                    assert(joined@ =~= self.tags());
                },
            }
        }
        metric.set_tags(joined.as_slice());
        self.next.submit(metric)
    }
}

} // verus!
