//! What each middleware is configured with.

use vstd::prelude::*;

verus! {

/// Tags to drop: by the start of their name, by its end, or by the whole name.
#[derive(Debug, Default, PartialEq)]
pub struct DenyTagConfig {
    pub starts_with: Vec<String>,
    pub ends_with: Vec<String>,
    pub tags: Vec<String>,
}

/// Names of the tags to keep.
#[derive(Debug, PartialEq)]
pub struct AllowTagConfig {
    pub tags: Vec<String>,
}

/// Tags to strip by the start or the end of their name.
#[derive(Debug, Default, PartialEq)]
pub struct StripTagConfig {
    pub starts_with: Vec<String>,
    pub ends_with: Vec<String>,
}

/// At most `limit` distinct metrics in any `window` seconds.
#[derive(Debug, PartialEq)]
pub struct LimitConfig {
    pub window: u16,
    pub limit: u64,
}

#[derive(Debug, PartialEq)]
pub struct CardinalityLimitConfig {
    pub limits: Vec<LimitConfig>,
}

/// At most `limit` distinct values of the tag named `tag`; `*` names every tag.
#[derive(Debug, Eq, Hash, PartialEq)]
pub struct TagLimitConfig {
    pub tag: String,
    pub limit: u64,
}

#[derive(Debug, PartialEq)]
pub struct TagCardinalityLimitConfig {
    pub limits: Vec<TagLimitConfig>,
}

/// Tags to add to every metric, in this order.
#[derive(Debug, PartialEq)]
pub struct AddTagConfig {
    pub tags: Vec<String>,
}

/// Which kinds of metric to aggregate, and when to flush the buckets.
#[derive(Debug, PartialEq)]
pub struct AggregateMetricsConfig {
    pub aggregate_counters: bool,
    pub aggregate_gauges: bool,
    /// Whole seconds between two flushes.
    pub flush_interval: u64,
    /// Seconds by which every bucket edge is shifted.
    pub flush_offset: i64,
    /// Above this many buckets, metrics that would open a new one pass
    /// through unaggregated.
    pub max_map_size: Option<usize>,
}

/// Counters and gauges are aggregated unless the configuration says
/// otherwise.
pub fn default_true() -> (on: bool)
    ensures
        on,
{
    true
}

/// Buckets are flushed every second.
pub fn default_flush_interval() -> (interval: u64)
    ensures
        interval == 1,
{
    1
}

/// Bucket edges are not shifted.
pub fn default_flush_offset() -> (offset: i64)
    ensures
        offset == 0,
{
    0
}

impl Default for AggregateMetricsConfig {
    fn default() -> (config: Self)
        ensures
            config.aggregate_counters,
            config.aggregate_gauges,
            config.flush_interval == 1,
            config.flush_offset == 0,
            config.max_map_size is None,
    {
        AggregateMetricsConfig {
            aggregate_counters: default_true(),
            aggregate_gauges: default_true(),
            flush_interval: default_flush_interval(),
            flush_offset: default_flush_offset(),
            max_map_size: None,
        }
    }
}

} // verus!
