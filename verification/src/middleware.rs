//! The stages of the pipeline and what they have in common.

pub use crate::middleware::upstream::Upstream;
use crate::types::{Metric, MetricView};
use vstd::prelude::*;

pub mod add_tag;
pub mod aggregate;
pub mod allow_tag;
pub mod cardinality_limit;
pub mod deny_tag;
pub mod filter_tag;
pub mod fn_stage;
pub mod mirror;
pub mod sample;
pub mod server;
pub mod tag_cardinality_limit;
pub mod tag_rule;
pub mod upstream;

verus! {

/// Why a stage could not hand on what it still held.
#[derive(Debug)]
pub struct Error {
    pub message: String,
}

/// One stage of the pipeline.
///
/// A stage is driven by three calls. What a call may do is given by a relation
/// between the stage before the call and the stage after it, so that a stage
/// which owns the next one can say exactly what it handed on: the next stage
/// made the step that belongs to that call.
pub trait Middleware {
    /// What holds of the stage, and of all that stands behind it, between calls.
    spec fn valid(&self) -> bool;

    /// Whether a `poll` may take the stage to `after`.
    spec fn polled(&self, after: &Self) -> bool;

    /// Whether a `submit` of `metric` may take the stage to `after` and
    /// leave the metric as `left`.
    spec fn submitted(&self, metric: MetricView, after: &Self, left: MetricView) -> bool;

    /// Whether a `join` may take the stage to `after`, succeeding or not.
    spec fn joined(&self, after: &Self, ok: bool) -> bool;

    /// Delivers what is pending, then joins the next stage.
    fn join(&mut self) -> (result: Result<(), Error>)
        requires
            old(self).valid(),
        ensures
            final(self).valid(),
            old(self).joined(final(self), result is Ok),
    ;

    /// Advances what depends on time, then polls the next stage.
    fn poll(&mut self)
        requires
            old(self).valid(),
        ensures
            final(self).valid(),
            old(self).polled(final(self)),
    ;

    /// Applies the stage to the metric, in place, and hands on what is to be
    /// handed on.
    fn submit(&mut self, metric: &mut Metric)
        requires
            old(self).valid(),
            old(metric).valid(),
        ensures
            final(self).valid(),
            final(metric).valid(),
            old(self).submitted(old(metric)@, final(self), final(metric)@),
    ;
}

/// Whether submitting the metrics one after the other may take a stage from
/// `before` to `after`.
pub open spec fn submitted_all<M: Middleware>(
    before: &M,
    metrics: Seq<MetricView>,
    after: &M,
) -> bool
    decreases metrics.len(),
{
    if metrics.len() == 0 {
        after == before
    } else {
        exists|mid: M, left: MetricView|
            submitted_all(before, metrics.drop_last(), &mid) && #[trigger] mid.submitted(
                metrics.last(),
                after,
                left,
            )
    }
}

} // verus!
