use statsdproxy::config::{CardinalityLimitConfig, LimitConfig};
use statsdproxy::middleware::cardinality_limit::{CardinalityLimit, Quota};
use statsdproxy::middleware::Middleware;
use statsdproxy::testutils::FnStep;
use statsdproxy::types::Metric;
use std::cell::RefCell;

#[test]
fn cardinality_limit_basic() {
    let config = CardinalityLimitConfig {
        limits: vec![LimitConfig {
            limit: 2,
            window: 3600,
        }],
    };

    let results = RefCell::new(vec![]);
    let next = FnStep(|metric: &mut Metric| {
        results.borrow_mut().push(metric.clone());
    });
    let mut limiter = CardinalityLimit::new(config, next);
    let now = 1_700_000_000;

    limiter.submit_at(now, &mut Metric::new(b"users.online:1|c|#country:china".to_vec()));
    assert_eq!(results.borrow_mut().len(), 1);

    limiter.submit_at(now, &mut Metric::new(b"servers.online:1|c|#country:china".to_vec()));
    assert_eq!(results.borrow_mut().len(), 2);

    // we have already ingested two distinct timeseries, this one should be dropped.
    limiter.submit_at(now, &mut Metric::new(b"servers.online:1|c|#country:japan".to_vec()));
    assert_eq!(results.borrow_mut().len(), 2);

    // A metric with the same hash as an old one within `window` should pass through.
    limiter.submit_at(now, &mut Metric::new(b"users.online:1|c|#country:china".to_vec()));
    assert_eq!(results.borrow_mut().len(), 3);
}

#[test]
fn cardinality_limit_slides_with_the_clock() {
    let config = CardinalityLimitConfig {
        limits: vec![
            LimitConfig {
                limit: 2,
                window: 3600,
            },
            LimitConfig {
                limit: 1,
                window: 10,
            },
        ],
    };
    let results = RefCell::new(vec![]);
    let next = FnStep(|metric: &mut Metric| {
        results.borrow_mut().push(metric.clone());
    });
    let mut limiter = CardinalityLimit::new(config, next);
    let now = 1_700_000_000;

    limiter.submit_at(now, &mut Metric::new(b"a:1|c".to_vec()));
    assert_eq!(results.borrow().len(), 1);
    // The short quota is full for ten seconds.
    limiter.submit_at(now + 9, &mut Metric::new(b"b:1|c".to_vec()));
    assert_eq!(results.borrow().len(), 1);
    limiter.submit_at(now + 10, &mut Metric::new(b"b:1|c".to_vec()));
    assert_eq!(results.borrow().len(), 2);
    // The long one has seen two metrics now, and keeps them.
    limiter.submit_at(now + 30, &mut Metric::new(b"c:1|c".to_vec()));
    assert_eq!(results.borrow().len(), 2);
    limiter.submit_at(now + 30, &mut Metric::new(b"a:2|g".to_vec()));
    assert_eq!(results.borrow().len(), 3);
    // The short quota holds `a` now: `b` fits the long one only.
    limiter.submit_at(now + 31, &mut Metric::new(b"b:7|c".to_vec()));
    assert_eq!(results.borrow().len(), 3);
    // `c` was dropped by the long quota and counted nowhere: ten seconds
    // later the short one has room, and the long one is still full.
    limiter.submit_at(now + 41, &mut Metric::new(b"c:1|c".to_vec()));
    assert_eq!(results.borrow().len(), 3);
    limiter.submit_at(now + 41, &mut Metric::new(b"b:1|c".to_vec()));
    assert_eq!(results.borrow().len(), 4);
}

#[test]
fn cardinality_limit_by_the_clock() {
    let config = CardinalityLimitConfig {
        limits: vec![LimitConfig {
            limit: 1,
            window: 0,
        }],
    };
    let results = RefCell::new(vec![]);
    let next = FnStep(|metric: &mut Metric| {
        results.borrow_mut().push(metric.clone());
    });
    let mut limiter = CardinalityLimit::new(config, next);
    // A window of no seconds has no granule: everything fits.
    limiter.submit(&mut Metric::new(b"a:1|c".to_vec()));
    limiter.submit(&mut Metric::new(b"b:1|c".to_vec()));
    assert_eq!(results.borrow().len(), 2);
}

#[test]
fn hash_metric_is_crc32_of_name_and_tags() {
    let config = CardinalityLimitConfig { limits: vec![] };
    let limiter = CardinalityLimit::new(config, FnStep(|_metric: &mut Metric| {}));
    // CRC-32 of "123456789" is the check value of the algorithm.
    assert_eq!(
        limiter.hash_metric(&Metric::new(b"1234:1|c|#56789".to_vec())),
        0xcbf4_3926
    );
    assert_eq!(
        limiter.hash_metric(&Metric::new(b"123456789:1|c|@0.5".to_vec())),
        0xcbf4_3926
    );
    assert_eq!(
        limiter.hash_metric(&Metric::new(b"123456789".to_vec())),
        0xcbf4_3926
    );
    // The tag list is hashed as it stands: order counts.
    assert_ne!(
        limiter.hash_metric(&Metric::new(b"m:1|c|#a:1,b:2".to_vec())),
        limiter.hash_metric(&Metric::new(b"m:1|c|#b:2,a:1".to_vec()))
    );
}

#[test]
fn quota_granularity_follows_the_window() {
    // One granule per second up to five minutes.
    let mut quota = Quota::from(LimitConfig {
        window: 300,
        limit: 1,
    });
    quota.insert_metric(1000, 7);
    assert!(quota.does_metric_fit(1000, 7));
    assert!(!quota.does_metric_fit(1000, 8));
    assert!(!quota.does_metric_fit(1299, 8));
    assert!(quota.does_metric_fit(1300, 8));

    // One granule per minute up to half an hour: the hash is written to the
    // granules at 720, 780, ..., 960, and is found until the last of them
    // leaves the window.
    let mut quota = Quota::from(LimitConfig {
        window: 301,
        limit: 1,
    });
    quota.insert_metric(1000, 7);
    assert!(!quota.does_metric_fit(1000, 8));
    assert!(!quota.does_metric_fit(1005, 8));
    assert!(!quota.does_metric_fit(1261, 8));
    assert!(quota.does_metric_fit(1262, 8));

    // One granule per hour for longer windows: 3600 and 7200 here.
    let mut quota = Quota::from(LimitConfig {
        window: 7200,
        limit: 1,
    });
    quota.insert_metric(10_000, 7);
    assert!(!quota.does_metric_fit(10_000, 8));
    assert!(!quota.does_metric_fit(13_600, 8));
    assert!(!quota.does_metric_fit(14_400, 8));
    assert!(quota.does_metric_fit(14_401, 8));
}

#[test]
fn quota_evicts_what_is_older_than_the_window() {
    let mut quota = Quota::from(LimitConfig {
        window: 2,
        limit: 1,
    });
    quota.insert_metric(10, 1);
    quota.remove_old_keys(11);
    assert!(!quota.does_metric_fit(11, 2));
    quota.remove_old_keys(12);
    assert!(quota.does_metric_fit(12, 2));
    quota.insert_metric(12, 2);
    assert!(!quota.does_metric_fit(12, 1));
    assert!(quota.does_metric_fit(12, 2));
}

#[test]
fn quota_window_is_cut_off_at_second_zero() {
    let mut quota = Quota::from(LimitConfig {
        window: 100,
        limit: 1,
    });
    quota.insert_metric(5, 1);
    assert!(!quota.does_metric_fit(5, 2));
    assert!(!quota.does_metric_fit(104, 2));
    assert!(quota.does_metric_fit(105, 2));
    // At second zero the window is empty: nothing is written.
    let mut quota = Quota::from(LimitConfig {
        window: 100,
        limit: 1,
    });
    quota.insert_metric(0, 3);
    assert!(quota.does_metric_fit(0, 4));
    assert!(quota.does_metric_fit(1, 4));
}
