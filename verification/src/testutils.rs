//! A stage made of a closure, to end a chain with.

use crate::middleware::{Error, Middleware};
use crate::types::{Metric, MetricView};
use vstd::prelude::*;

verus! {

/// Hands a copy of every metric to the closure. Polling and joining do nothing.
pub struct FnStep<F>(pub F);

impl<F> Middleware for FnStep<F> where F: FnMut(&mut Metric) {
    /// The closure takes every valid metric.
    open spec fn valid(&self) -> bool {
        forall|f: F, metric: &mut Metric| metric.valid() ==> #[trigger] call_requires(f, (metric,))
    }

    open spec fn polled(&self, after: &Self) -> bool {
        after == self
    }

    /// The closure was called with a copy of the metric; the metric itself
    /// is left as it was.
    open spec fn submitted(&self, metric: MetricView, after: &Self, left: MetricView) -> bool {
        &&& left == metric
        &&& exists|copy: &mut Metric| copy@ == metric && #[trigger] call_ensures(self.0, (copy,), ())
    }

    open spec fn joined(&self, after: &Self, ok: bool) -> bool {
        ok && after == self
    }

    fn join(&mut self) -> (result: Result<(), Error>) {
        Ok(())
    }

    fn poll(&mut self) {
    }

    fn submit(&mut self, metric: &mut Metric) {
        let mut copy = metric.clone();
        (self.0)(&mut copy)
    }
}

} // verus!
