use statsdproxy::config::AggregateMetricsConfig;
use statsdproxy::middleware::aggregate::AggregateMetrics;
use statsdproxy::middleware::Middleware;
use statsdproxy::testutils::FnStep;
use statsdproxy::types::Metric;
use std::cell::RefCell;

fn number(bytes: &[u8]) -> Option<f64> {
    std::str::from_utf8(bytes).ok()?.parse().ok()
}

fn sum(held: Option<&[u8]>, value: &[u8]) -> Option<Vec<u8>> {
    let value = number(value)?;
    let total = match held {
        Some(held) => number(held)? + value,
        None => value,
    };
    Some(total.to_string().into_bytes())
}

fn config(flush_interval: u64) -> AggregateMetricsConfig {
    AggregateMetricsConfig {
        aggregate_counters: true,
        aggregate_gauges: true,
        flush_interval,
        flush_offset: 0,
        max_map_size: None,
    }
}

#[test]
fn aggregate_basic() {
    let config = AggregateMetricsConfig {
        aggregate_counters: true,
        aggregate_gauges: true,
        flush_interval: 10,
        flush_offset: 0,
        max_map_size: None,
    };
    let results = RefCell::new(vec![]);
    let next = FnStep(|metric: &mut Metric| {
        results.borrow_mut().push(metric.clone());
    });
    let mut aggregator = AggregateMetrics::new(config, sum, next);

    aggregator.poll_at(0);

    aggregator.submit(&mut Metric::new(
        b"users.online:1|c|@0.5|#country:china".to_vec(),
    ));

    aggregator.poll_at(1);

    aggregator.submit(&mut Metric::new(
        b"users.online:1|c|@0.5|#country:china".to_vec(),
    ));

    assert_eq!(results.borrow_mut().len(), 0);

    aggregator.poll_at(11);

    assert_eq!(
        results.borrow_mut().as_slice(),
        &[Metric::new(
            b"users.online:2|c|@0.5|#country:china".to_vec()
        )]
    );
}

#[test]
fn gauges() {
    let config = AggregateMetricsConfig {
        aggregate_counters: true,
        aggregate_gauges: true,
        flush_interval: 10,
        flush_offset: 0,
        max_map_size: None,
    };
    let results = RefCell::new(vec![]);
    let next = FnStep(|metric: &mut Metric| {
        results.borrow_mut().push(metric.clone());
    });
    let mut aggregator = AggregateMetrics::new(config, sum, next);

    aggregator.poll_at(0);

    aggregator.submit(&mut Metric::new(
        b"users.online:3|g|@0.5|#country:china".to_vec(),
    ));

    aggregator.poll_at(1);

    aggregator.submit(&mut Metric::new(
        b"users.online:2|g|@0.5|#country:china".to_vec(),
    ));

    assert_eq!(results.borrow_mut().len(), 0);

    aggregator.poll_at(11);

    assert_eq!(
        results.borrow_mut().as_slice(),
        &[Metric::new(
            b"users.online:2|g|@0.5|#country:china".to_vec()
        )]
    );
}

#[test]
fn aggregate_sums_counters_of_one_key() {
    let results = RefCell::new(vec![]);
    let next = FnStep(|metric: &mut Metric| {
        results.borrow_mut().push(metric.clone());
    });
    let mut aggregator = AggregateMetrics::new(config(10), sum, next);
    for value in ["1", "2.5", "-0.5", "1e1", "+3"] {
        let line = format!("a.b:{}|c|#x:1|T5", value);
        aggregator.submit(&mut Metric::new(line.into_bytes()));
    }
    // Another key: the tags differ.
    aggregator.submit(&mut Metric::new(b"a.b:7|c|#x:2|T5".to_vec()));
    // The same bytes without the value, but a gauge of another name.
    aggregator.submit(&mut Metric::new(b"a.c:1|g".to_vec()));
    aggregator.submit(&mut Metric::new(b"a.c:4|g".to_vec()));
    assert_eq!(results.borrow().len(), 0);
    aggregator.poll_at(10);
    let lines: Vec<Vec<u8>> = results.borrow().iter().map(|m| m.raw.clone()).collect();
    assert_eq!(
        lines,
        vec![
            b"a.b:16|c|#x:1|T5".to_vec(),
            b"a.b:7|c|#x:2|T5".to_vec(),
            b"a.c:4|g".to_vec(),
        ]
    );
    // The buckets are empty now: the next flush sends nothing.
    aggregator.poll_at(20);
    assert_eq!(results.borrow().len(), 3);
}

#[test]
fn aggregate_passes_on_what_it_cannot_merge() {
    let results = RefCell::new(vec![]);
    let next = FnStep(|metric: &mut Metric| {
        results.borrow_mut().push(metric.clone());
    });
    let mut aggregator = AggregateMetrics::new(
        AggregateMetricsConfig {
            aggregate_counters: true,
            aggregate_gauges: false,
            flush_interval: 10,
            flush_offset: 0,
            max_map_size: Some(1),
        },
        sum,
        next,
    );
    for line in [
        // no number
        "a:x|c",
        // no value at all
        "a|c",
        // a type that is not aggregated
        "a:1|ms",
        "a:1|h|@0.1",
        // gauges are switched off
        "a:1|g",
        // no type
        "a:1",
    ] {
        aggregator.submit(&mut Metric::new(line.as_bytes().to_vec()));
        assert_eq!(results.borrow().last().unwrap().raw, line.as_bytes());
    }
    assert_eq!(results.borrow().len(), 6);

    // One bucket is open; a metric that would open a second one passes.
    aggregator.submit(&mut Metric::new(b"a:1|c".to_vec()));
    assert_eq!(results.borrow().len(), 6);
    aggregator.submit(&mut Metric::new(b"b:1|c".to_vec()));
    assert_eq!(results.borrow().len(), 7);
    assert_eq!(results.borrow()[6].raw, b"b:1|c");
    // The bucket that is open still takes its metrics.
    aggregator.submit(&mut Metric::new(b"a:2|c".to_vec()));
    assert_eq!(results.borrow().len(), 7);
    aggregator.join().unwrap();
    assert_eq!(results.borrow()[7].raw, b"a:3|c");
}

#[test]
fn aggregate_flushes_on_bucket_edges() {
    let results = RefCell::new(vec![]);
    let next = FnStep(|metric: &mut Metric| {
        results.borrow_mut().push(metric.clone());
    });
    let mut aggregator = AggregateMetrics::new(
        AggregateMetricsConfig {
            aggregate_counters: true,
            aggregate_gauges: true,
            flush_interval: 10,
            flush_offset: 3,
            max_map_size: None,
        },
        sum,
        next,
    );
    // Edges at 3, 13, 23, ... are reached at seconds 0, 10, 20.
    aggregator.submit(&mut Metric::new(b"a:1|c".to_vec()));
    aggregator.poll_at(9);
    assert_eq!(results.borrow().len(), 0);
    aggregator.poll_at(10);
    assert_eq!(results.borrow().len(), 1);
    aggregator.submit(&mut Metric::new(b"a:1|c".to_vec()));
    aggregator.poll_at(19);
    assert_eq!(results.borrow().len(), 1);
    aggregator.poll_at(20);
    assert_eq!(results.borrow().len(), 2);
}

#[test]
fn aggregate_config_defaults() {
    let config = AggregateMetricsConfig::default();
    assert!(config.aggregate_counters);
    assert!(config.aggregate_gauges);
    assert_eq!(config.flush_interval, 1);
    assert_eq!(config.flush_offset, 0);
    assert_eq!(config.max_map_size, None);
    assert!(statsdproxy::config::default_true());
    assert_eq!(statsdproxy::config::default_flush_interval(), 1);
    assert_eq!(statsdproxy::config::default_flush_offset(), 0);
}

#[test]
fn aggregate_keeps_the_last_gauge() {
    let results = RefCell::new(vec![]);
    let next = FnStep(|metric: &mut Metric| {
        results.borrow_mut().push(metric.clone());
    });
    let asked = RefCell::new(Vec::<(Option<Vec<u8>>, Vec<u8>)>::new());
    let mut aggregator = AggregateMetrics::new(
        config(10),
        |held: Option<&[u8]>, value: &[u8]| {
            asked
                .borrow_mut()
                .push((held.map(|held| held.to_vec()), value.to_vec()));
            sum(held, value)
        },
        next,
    );
    aggregator.submit(&mut Metric::new(b"g:1.50|g".to_vec()));
    aggregator.submit(&mut Metric::new(b"g:7|g".to_vec()));
    aggregator.submit(&mut Metric::new(b"c:1.50|c".to_vec()));
    aggregator.submit(&mut Metric::new(b"c:7|c".to_vec()));
    // A gauge is added to nothing, a counter to what its bucket holds.
    assert_eq!(
        asked.borrow().as_slice(),
        &[
            (None, b"1.50".to_vec()),
            (None, b"7".to_vec()),
            (None, b"1.50".to_vec()),
            (Some(b"1.5".to_vec()), b"7".to_vec()),
        ]
    );
    aggregator.join().unwrap();
    let lines: Vec<Vec<u8>> = results.borrow().iter().map(|m| m.raw.clone()).collect();
    assert_eq!(lines, vec![b"g:7|g".to_vec(), b"c:8.5|c".to_vec()]);
}
