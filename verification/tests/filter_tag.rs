use statsdproxy::middleware::filter_tag::{FilterTag, FilterType};
use statsdproxy::middleware::Middleware;
use statsdproxy::testutils::FnStep;
use statsdproxy::types::Metric;
use std::cell::RefCell;

#[test]
fn filter_tag_test_filter_starts_with() {
    let results = RefCell::new(Vec::new());
    let next = FnStep(|metric: &mut Metric| {
        results.borrow_mut().push(metric.clone());
    });
    let mut filter = FilterTag::new(vec![FilterType::StartsWith("hc_".to_owned())], next);
    filter.submit(&mut Metric::new(
        b"foo.bar:1|c|#abc.tag:test,hc_project:1000".to_vec(),
    ));

    assert_eq!(
        results.borrow()[0],
        Metric::new(b"foo.bar:1|c|#abc.tag:test".to_vec())
    );
}

#[test]
fn filter_tag_test_filter_ends_with() {
    let results = RefCell::new(Vec::new());
    let next = FnStep(|metric: &mut Metric| {
        results.borrow_mut().push(metric.clone());
    });
    let mut filter = FilterTag::new(vec![FilterType::EndsWith("_hc".to_owned())], next);
    filter.submit(&mut Metric::new(
        b"foo.bar:1|c|#abc.tag:test,project_hc:1000".to_vec(),
    ));

    assert_eq!(
        results.borrow()[0],
        Metric::new(b"foo.bar:1|c|#abc.tag:test".to_vec())
    );
}

#[test]
fn filter_tag_test_multiple_filters() {
    let results = RefCell::new(Vec::new());
    let next = FnStep(|metric: &mut Metric| {
        results.borrow_mut().push(metric.clone());
    });
    let mut filter = FilterTag::new(
        vec![
            FilterType::StartsWith("hc_".to_owned()),
            FilterType::EndsWith("_with_ending".to_owned()),
        ],
        next,
    );
    filter.submit(&mut Metric::new(
        b"foo.bar:1|c|#abc.tag:test,hc_project:1000,metric_with_ending:12".to_vec(),
    ));

    assert_eq!(
        results.borrow()[0],
        Metric::new(b"foo.bar:1|c|#abc.tag:test".to_vec())
    );
}

#[test]
fn filter_tag_from_a_configuration() {
    let config = statsdproxy::config::StripTagConfig {
        starts_with: vec!["a_".to_owned(), "b_".to_owned()],
        ends_with: vec!["_z".to_owned()],
    };
    let filters = statsdproxy::middleware::filter_tag::filters_of(&config);
    assert_eq!(filters.len(), 3);
    assert!(matches!(&filters[0], FilterType::StartsWith(text) if text == "a_"));
    assert!(matches!(&filters[1], FilterType::StartsWith(text) if text == "b_"));
    assert!(matches!(&filters[2], FilterType::EndsWith(text) if text == "_z"));

    let results = RefCell::new(Vec::new());
    let next = FnStep(|metric: &mut Metric| {
        results.borrow_mut().push(metric.clone());
    });
    let mut filter = FilterTag::new(filters, next);
    filter.submit(&mut Metric::new(
        b"m:1|c|#a_x:1,x_a:2,b_:3,y_z:4,_z,plain".to_vec(),
    ));
    assert_eq!(results.borrow()[0].raw, b"m:1|c|#x_a:2,_z,plain");
}
