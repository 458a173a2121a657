use statsdproxy::config::AddTagConfig;
use statsdproxy::middleware::add_tag::AddTag;
use statsdproxy::middleware::Middleware;
use statsdproxy::testutils::FnStep;
use statsdproxy::types::Metric;
use std::cell::RefCell;

#[test]
fn add_tag() {
    let test_cases = [
        // Without tags
        ("users.online:1|c", "users.online:1|c|#env:prod"),
        // With tags
        (
            "users.online:1|c|#tag1:a",
            "users.online:1|c|#tag1:a,env:prod",
        ),
    ];

    for test_case in test_cases {
        let config = AddTagConfig {
            tags: vec!["env:prod".to_string()],
        };
        let results = RefCell::new(vec![]);
        let next = FnStep(|metric: &mut Metric| {
            results.borrow_mut().push(metric.clone());
        });

        let mut middleware = AddTag::new(config, next);
        let mut metric = Metric::new(test_case.0.as_bytes().to_vec());
        middleware.submit(&mut metric);
        assert_eq!(results.borrow().len(), 1);
        let updated_metric = Metric::new(results.borrow_mut()[0].raw.clone());
        assert_eq!(updated_metric.raw, test_case.1.as_bytes());
    }
}

#[test]
fn add_tag_joins_its_tags_with_commas() {
    let config = AddTagConfig {
        tags: vec!["env:prod".to_string(), "region:eu".to_string()],
    };
    let results = RefCell::new(vec![]);
    let next = FnStep(|metric: &mut Metric| {
        results.borrow_mut().push(metric.clone());
    });
    let mut middleware = AddTag::new(config, next);
    let mut metric = Metric::new(b"a:1|c|#x|T1".to_vec());
    middleware.submit(&mut metric);
    assert_eq!(results.borrow()[0].raw, b"a:1|c|#x,env:prod,region:eu|T1");
    assert_eq!(metric.raw, b"a:1|c|#x,env:prod,region:eu|T1");
}
