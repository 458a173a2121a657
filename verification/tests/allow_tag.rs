use statsdproxy::config::AllowTagConfig;
use statsdproxy::middleware::allow_tag::AllowTag;
use statsdproxy::middleware::Middleware;
use statsdproxy::testutils::FnStep;
use statsdproxy::types::Metric;
use std::cell::RefCell;

#[test]
fn allow_tag_basic() {
    let config = AllowTagConfig {
        tags: vec!["country".to_string(), "arch".to_string()],
    };

    let results = RefCell::new(vec![]);
    let next = FnStep(|metric: &mut Metric| {
        results.borrow_mut().push(metric.clone());
    });
    let mut tag_allower = AllowTag::new(config, next);

    tag_allower.submit(&mut Metric::new(
        b"servers.online:1|c|#country:china,arch:arm64".to_vec(),
    ));
    assert_eq!(
        results.borrow()[0],
        Metric::new(b"servers.online:1|c|#country:china,arch:arm64".to_vec())
    );

    tag_allower.submit(&mut Metric::new(
        b"servers.online:1|c|#machine_type:large,country:china,zone:a,arch:arm64,region:east"
            .to_vec(),
    ));
    assert_eq!(
        results.borrow()[1],
        Metric::new(b"servers.online:1|c|#country:china,arch:arm64".to_vec())
    );
}

#[test]
fn allow_tag_universe_is_a_no_op() {
    let config = AllowTagConfig {
        tags: vec!["a".to_string(), "b".to_string(), "a".to_string()],
    };
    let results = RefCell::new(vec![]);
    let next = FnStep(|metric: &mut Metric| {
        results.borrow_mut().push(metric.clone());
    });
    let mut stage = AllowTag::new(config, next);
    let mut metric = Metric::new(b"m:1|c|@0.5|#b:2,a:1,a:|T17".to_vec());
    stage.submit(&mut metric);
    assert_eq!(results.borrow()[0].raw, b"m:1|c|@0.5|#b:2,a:1,a:|T17");
    assert_eq!(metric.raw, b"m:1|c|@0.5|#b:2,a:1,a:|T17");
}

#[test]
fn allow_tag_drops_tags_without_a_name() {
    let config = AllowTagConfig {
        tags: vec!["a".to_string()],
    };
    let results = RefCell::new(vec![]);
    let next = FnStep(|metric: &mut Metric| {
        results.borrow_mut().push(metric.clone());
    });
    let mut stage = AllowTag::new(config, next);
    stage.submit(&mut Metric::new(b"m:1|c|#a,a:1,".to_vec()));
    assert_eq!(results.borrow()[0].raw, b"m:1|c|#a:1");
    stage.submit(&mut Metric::new(b"m:1|c|#|T17".to_vec()));
    assert_eq!(results.borrow()[1].raw, b"m:1|c|T17");
    stage.submit(&mut Metric::new(b"m:1|c".to_vec()));
    assert_eq!(results.borrow()[2].raw, b"m:1|c");
}
