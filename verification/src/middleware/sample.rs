//! Lets a share of the metrics through.
//!
//! Which metric goes through is for the caller to say: the stage asks a
//! function, handed to it at construction, once for every metric.

use crate::middleware::{Error, Middleware};
use crate::types::{Metric, MetricView};
use vstd::prelude::*;

verus! {

pub struct Sample<D, M> {
    next: M,
    keep: D,
}

impl<D, M> Sample<D, M> {
    /// The stage that the metrics are handed to.
    pub closed spec fn next(&self) -> &M {
        &self.next
    }

    /// The function that is asked.
    pub closed spec fn keep(&self) -> D {
        self.keep
    }

    /// A stage that hands a metric on where `keep` answers `true`.
    pub fn new(keep: D, next: M) -> (stage: Self)
        ensures
            *stage.next() == next,
            stage.keep() == keep,
    {
        Sample { next, keep }
    }
}

impl<D, M> Middleware for Sample<D, M> where D: FnMut() -> bool, M: Middleware {
    /// The function can be asked at any time.
    open spec fn valid(&self) -> bool {
        &&& forall|keep: D| #[trigger] call_requires(keep, ())
        &&& self.next().valid()
    }

    open spec fn polled(&self, after: &Self) -> bool {
        self.next().polled(after.next())
    }

    /// Where the function answers `true` the metric is handed on as it is;
    /// else it is dropped, and the next stage hears nothing of it.
    open spec fn submitted(&self, metric: MetricView, after: &Self, left: MetricView) -> bool {
        exists|answer: bool|
            {
                &&& #[trigger] call_ensures(self.keep(), (), answer)
                &&& if answer {
                    self.next().submitted(metric, after.next(), left)
                } else {
                    after.next() == self.next() && left == metric
                }
            }
    }

    open spec fn joined(&self, after: &Self, ok: bool) -> bool {
        self.next().joined(after.next(), ok)
    }

    fn join(&mut self) -> (result: Result<(), Error>) {
        self.next.join()
    }

    fn poll(&mut self) {
        self.next.poll();
    }

    fn submit(&mut self, metric: &mut Metric) {
        let answer = (self.keep)();
        assert(call_ensures(old(self).keep(), (), answer));
        if answer {
            self.next.submit(metric);
        }
    }
}

} // verus!
