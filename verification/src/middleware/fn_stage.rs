//! A stage made of closures.

use crate::middleware::{Error, Middleware};
use crate::types::{Metric, MetricView};
use vstd::prelude::*;

verus! {

/// A stage made of three closures, one for each call. Stages of different
/// types can stand in one place behind it.
pub struct FnStage<S, P, J> {
    pub submit: S,
    pub poll: P,
    pub join: J,
}

impl<S, P, J> Middleware for FnStage<S, P, J> where
    S: FnMut(&mut Metric),
    P: FnMut(),
    J: FnMut() -> Result<(), Error>,
 {
    /// The closures can be called at any time, the first with every valid
    /// metric.
    open spec fn valid(&self) -> bool {
        &&& forall|f: S, metric: &mut Metric|
            metric.valid() ==> #[trigger] call_requires(f, (metric,))
        &&& forall|f: P| #[trigger] call_requires(f, ())
        &&& forall|f: J| #[trigger] call_requires(f, ())
    }

    /// The closure for polls was called.
    open spec fn polled(&self, after: &Self) -> bool {
        call_ensures(self.poll, (), ())
    }

    /// The closure for metrics was called with a copy of the metric; the
    /// metric itself is left as it was.
    open spec fn submitted(&self, metric: MetricView, after: &Self, left: MetricView) -> bool {
        &&& left == metric
        &&& exists|copy: &mut Metric|
            copy@ == metric && #[trigger] call_ensures(self.submit, (copy,), ())
    }

    /// The closure for joins was called, and what it answered is handed on.
    open spec fn joined(&self, after: &Self, ok: bool) -> bool {
        exists|result: Result<(), Error>|
            result is Ok == ok && #[trigger] call_ensures(self.join, (), result)
    }

    fn join(&mut self) -> (result: Result<(), Error>) {
        (self.join)()
    }

    fn poll(&mut self) {
        (self.poll)()
    }

    fn submit(&mut self, metric: &mut Metric) {
        let mut copy = metric.clone();
        (self.submit)(&mut copy)
    }
}

} // verus!
