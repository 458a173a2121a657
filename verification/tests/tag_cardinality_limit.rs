use statsdproxy::config::{TagCardinalityLimitConfig, TagLimitConfig};
use statsdproxy::middleware::tag_cardinality_limit::TagCardinalityLimit;
use statsdproxy::middleware::Middleware;
use statsdproxy::testutils::FnStep;
use statsdproxy::types::Metric;
use std::cell::RefCell;

#[test]
fn tag_cardinality_limit() {
    let config = TagCardinalityLimitConfig {
        limits: vec![TagLimitConfig {
            tag: "env".to_string(),
            limit: 1,
        }],
    };
    let results = RefCell::new(vec![]);
    let next = FnStep(|metric: &mut Metric| {
        results.borrow_mut().push(metric.clone());
    });

    let mut limiter = TagCardinalityLimit::new(config, next);
    limiter.submit(&mut Metric::new(b"users.online:1|c|#env:prod".to_vec()));
    assert_eq!(
        results.borrow()[0],
        Metric::new(b"users.online:1|c|#env:prod".to_vec())
    );
    limiter.submit(&mut Metric::new(b"users.online:1|c|#env:dev".to_vec()));
    // env was stripped from metric
    assert_eq!(
        results.borrow()[1],
        Metric::new(b"users.online:1|c".to_vec())
    );

    limiter.submit(&mut Metric::new(b"users.online:1|c|#env".to_vec()));
    // Tag without value is not limited
    assert_eq!(
        results.borrow()[2],
        Metric::new(b"users.online:1|c|#env".to_vec())
    );
}

#[test]
fn tag_cardinality_limit_wildcard_and_seen_values() {
    let config = TagCardinalityLimitConfig {
        limits: vec![
            TagLimitConfig {
                tag: "*".to_string(),
                limit: 3,
            },
            TagLimitConfig {
                tag: "env".to_string(),
                limit: 1,
            },
        ],
    };
    let results = RefCell::new(vec![]);
    let next = FnStep(|metric: &mut Metric| {
        results.borrow_mut().push(metric.clone());
    });
    let mut limiter = TagCardinalityLimit::new(config, next);

    // Both values are new to an empty quota: both go through and are counted.
    let mut metric = Metric::new(b"m:1|c|#env:a,env:b|T1".to_vec());
    limiter.submit(&mut metric);
    assert_eq!(results.borrow()[0].raw, b"m:1|c|#env:a,env:b|T1");
    assert_eq!(metric.raw, b"m:1|c|#env:a,env:b|T1");

    // `env` is over its limit now: a new value is dropped, a seen one stays.
    let mut metric = Metric::new(b"m:1|c|#env:c,env:b,zone:x|T1".to_vec());
    limiter.submit(&mut metric);
    assert_eq!(results.borrow()[1].raw, b"m:1|c|#env:b,zone:x|T1");
    assert_eq!(metric.raw, b"m:1|c|#env:b,zone:x|T1");

    // The wildcard quota has seen a, b and x: it is full for every name.
    limiter.submit(&mut Metric::new(b"m:1|c|#zone:y,zone:x,plain,".to_vec()));
    assert_eq!(results.borrow()[2].raw, b"m:1|c|#zone:x,plain,");

    // An empty tag list stays as it is.
    limiter.submit(&mut Metric::new(b"m:1|c|#".to_vec()));
    assert_eq!(results.borrow()[3].raw, b"m:1|c|#");
}
