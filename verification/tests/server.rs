use statsdproxy::middleware::mirror::Mirror;
use statsdproxy::middleware::sample::Sample;
use statsdproxy::middleware::server::Server;
use statsdproxy::middleware::{Error, Middleware};
use statsdproxy::middleware::fn_stage::FnStage;
use statsdproxy::testutils::FnStep;
use statsdproxy::types::Metric;
use std::cell::RefCell;

#[test]
fn server_polls_before_every_metric() {
    let calls = RefCell::new(Vec::<String>::new());
    let stage = FnStage {
        submit: |metric: &mut Metric| {
            calls
                .borrow_mut()
                .push(String::from_utf8(metric.raw.clone()).unwrap())
        },
        poll: || calls.borrow_mut().push("poll".to_string()),
        join: || {
            calls.borrow_mut().push("join".to_string());
            Ok(())
        },
    };
    let mut server = Server::new(stage);
    server.handle_datagram(b"a:1|c\n\nb:2|g|#x\n");
    server.idle();
    server.join().unwrap();
    assert_eq!(
        calls.borrow().as_slice(),
        &["poll", "a:1|c", "poll", "b:2|g|#x", "poll", "join"]
    );
}

#[test]
fn fn_stage_hands_on_what_join_says() {
    let mut stage = FnStage {
        submit: |_metric: &mut Metric| {},
        poll: || {},
        join: || {
            Err(Error {
                message: "no".to_string(),
            })
        },
    };
    assert_eq!(stage.join().unwrap_err().message, "no");
}

#[test]
fn mirror_serves_both_stages() {
    let first = RefCell::new(vec![]);
    let second = RefCell::new(vec![]);
    let mut mirror = Mirror::new(
        FnStep(|metric: &mut Metric| first.borrow_mut().push(metric.clone())),
        FnStep(|metric: &mut Metric| second.borrow_mut().push(metric.clone())),
    );
    mirror.poll();
    mirror.submit(&mut Metric::new(b"a:1|c|#x:y".to_vec()));
    mirror.join().unwrap();
    assert_eq!(first.borrow().as_slice(), &[Metric::new(b"a:1|c|#x:y".to_vec())]);
    assert_eq!(second.borrow().as_slice(), &[Metric::new(b"a:1|c|#x:y".to_vec())]);
}

#[test]
fn sample_asks_for_every_metric() {
    let results = RefCell::new(vec![]);
    let next = FnStep(|metric: &mut Metric| results.borrow_mut().push(metric.clone()));
    let mut turn = 0;
    let mut sample = Sample::new(
        move || {
            turn += 1;
            turn % 3 == 0
        },
        next,
    );
    for n in 1..=9 {
        sample.submit(&mut Metric::new(format!("m:{}|c", n).into_bytes()));
    }
    sample.poll();
    sample.join().unwrap();
    let lines: Vec<Vec<u8>> = results.borrow().iter().map(|m| m.raw.clone()).collect();
    assert_eq!(
        lines,
        vec![b"m:3|c".to_vec(), b"m:6|c".to_vec(), b"m:9|c".to_vec()]
    );
}
