//! Hands every metric to two stages.

use crate::middleware::{Error, Middleware};
use crate::types::{Metric, MetricView};
use vstd::prelude::*;

verus! {

pub struct Mirror<M, M2> {
    next: M,
    next2: M2,
}

impl<M, M2> Mirror<M, M2> {
    /// The stage that is served first.
    pub closed spec fn next(&self) -> &M {
        &self.next
    }

    /// The stage that is served second.
    pub closed spec fn next2(&self) -> &M2 {
        &self.next2
    }

    pub fn new(next: M, next2: M2) -> (stage: Self)
        ensures
            *stage.next() == next,
            *stage.next2() == next2,
    {
        Mirror { next, next2 }
    }
}

impl<M, M2> Middleware for Mirror<M, M2> where M: Middleware, M2: Middleware {
    open spec fn valid(&self) -> bool {
        &&& self.next().valid()
        &&& self.next2().valid()
    }

    open spec fn polled(&self, after: &Self) -> bool {
        &&& self.next().polled(after.next())
        &&& self.next2().polled(after.next2())
    }

    /// The second stage is handed the metric as the first one left it.
    open spec fn submitted(&self, metric: MetricView, after: &Self, left: MetricView) -> bool {
        exists|between: MetricView|
            {
                &&& #[trigger] self.next().submitted(metric, after.next(), between)
                &&& self.next2().submitted(between, after.next2(), left)
            }
    }

    /// The second stage is joined if the first one could be.
    open spec fn joined(&self, after: &Self, ok: bool) -> bool {
        exists|first: bool|
            {
                &&& #[trigger] self.next().joined(after.next(), first)
                &&& if first {
                    self.next2().joined(after.next2(), ok)
                } else {
                    !ok && after.next2() == self.next2()
                }
            }
    }

    fn join(&mut self) -> (result: Result<(), Error>) {
        match self.next.join() {
            Ok(()) => {
                assert(old(self).next().joined(self.next(), true));
                self.next2.join()
            },
            Err(error) => {
                assert(old(self).next().joined(self.next(), false));
                Err(error)
            },
        }
    }

    fn poll(&mut self) {
        self.next.poll();
        self.next2.poll();
    }

    fn submit(&mut self, metric: &mut Metric) {
        self.next.submit(metric);
        let ghost between = metric@;
        self.next2.submit(metric);
        assert(old(self).next().submitted(old(metric)@, self.next(), between));
    }
}

} // verus!
