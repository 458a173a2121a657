use statsdproxy::middleware::server::Server;
use statsdproxy::middleware::upstream::{Upstream, BUFSIZE};
use statsdproxy::middleware::Middleware;
use statsdproxy::types::Metric;
use std::cell::RefCell;

fn metric_of(len: usize, byte: u8) -> Metric {
    Metric::new(vec![byte; len])
}

#[test]
fn upstream_joins_metrics_with_line_feeds() {
    let sent = RefCell::new(Vec::<Vec<u8>>::new());
    let mut upstream = Upstream::new(|datagram: &[u8]| sent.borrow_mut().push(datagram.to_vec()));
    upstream.submit_at(0, &Metric::new(b"a:1|c".to_vec()));
    upstream.submit_at(0, &Metric::new(b"b:2|g|#x:y".to_vec()));
    assert_eq!(sent.borrow().len(), 0);
    upstream.join().unwrap();
    assert_eq!(sent.borrow().as_slice(), &[b"a:1|c\nb:2|g|#x:y".to_vec()]);
    // Nothing waits: joining again sends nothing.
    upstream.join().unwrap();
    assert_eq!(sent.borrow().len(), 1);
}

#[test]
fn upstream_flushes_when_the_metric_does_not_fit() {
    let sent = RefCell::new(Vec::<Vec<u8>>::new());
    let mut upstream = Upstream::new(|datagram: &[u8]| sent.borrow_mut().push(datagram.to_vec()));
    upstream.submit_at(0, &metric_of(4000, b'a'));
    // 4000 + 1 + 4191 = 8192: it fits.
    upstream.submit_at(0, &metric_of(4191, b'b'));
    assert_eq!(sent.borrow().len(), 0);
    // One byte waits for nothing: 8192 + 1 + 1 > 8192.
    upstream.submit_at(0, &metric_of(1, b'c'));
    assert_eq!(sent.borrow().len(), 1);
    assert_eq!(sent.borrow()[0].len(), BUFSIZE);
    assert_eq!(&sent.borrow()[0][..4000], vec![b'a'; 4000].as_slice());
    assert_eq!(sent.borrow()[0][4000], b'\n');
    assert_eq!(&sent.borrow()[0][4001..], vec![b'b'; 4191].as_slice());
    // 1 + 1 + 8191 > 8192: the single byte is sent before the next metric.
    upstream.submit_at(0, &metric_of(8191, b'd'));
    assert_eq!(sent.borrow().len(), 2);
    assert_eq!(sent.borrow()[1], b"c");
    upstream.join().unwrap();
    assert_eq!(sent.borrow()[2], vec![b'd'; 8191]);
}

#[test]
fn upstream_sends_an_oversize_metric_on_its_own() {
    let sent = RefCell::new(Vec::<Vec<u8>>::new());
    let mut upstream = Upstream::new(|datagram: &[u8]| sent.borrow_mut().push(datagram.to_vec()));
    upstream.submit_at(0, &Metric::new(b"a:1|c".to_vec()));
    upstream.submit_at(0, &metric_of(BUFSIZE + 1, b'x'));
    assert_eq!(
        sent.borrow().as_slice(),
        &[b"a:1|c".to_vec(), vec![b'x'; BUFSIZE + 1]]
    );
    upstream.join().unwrap();
    assert_eq!(sent.borrow().len(), 2);

    // A metric of exactly the size of the buffer is buffered.
    upstream.submit_at(0, &metric_of(BUFSIZE, b'y'));
    assert_eq!(sent.borrow().len(), 2);
    upstream.join().unwrap();
    assert_eq!(sent.borrow()[2], vec![b'y'; BUFSIZE]);
}

#[test]
fn upstream_flushes_after_more_than_a_second() {
    let sent = RefCell::new(Vec::<Vec<u8>>::new());
    let mut upstream = Upstream::new(|datagram: &[u8]| sent.borrow_mut().push(datagram.to_vec()));
    upstream.poll_at(100);
    upstream.submit_at(100, &Metric::new(b"a:1|c".to_vec()));
    upstream.poll_at(100);
    upstream.poll_at(101);
    // The clock may step back.
    upstream.poll_at(99);
    assert_eq!(sent.borrow().len(), 0);
    upstream.poll_at(102);
    assert_eq!(sent.borrow().as_slice(), &[b"a:1|c".to_vec()]);
    // The flush at 102 counts: one second later nothing is sent.
    upstream.submit_at(102, &Metric::new(b"b:1|c".to_vec()));
    upstream.poll_at(103);
    assert_eq!(sent.borrow().len(), 1);
    upstream.poll_at(104);
    assert_eq!(sent.borrow().len(), 2);
}

#[test]
fn upstream_by_the_clock() {
    let sent = RefCell::new(Vec::<Vec<u8>>::new());
    let mut upstream = Upstream::new(|datagram: &[u8]| sent.borrow_mut().push(datagram.to_vec()));
    upstream.poll();
    upstream.submit(&mut Metric::new(b"a:1|c".to_vec()));
    upstream.join().unwrap();
    assert_eq!(sent.borrow().as_slice(), &[b"a:1|c".to_vec()]);
}

#[test]
fn identity_pipeline_keeps_every_line() {
    let sent = RefCell::new(Vec::<Vec<u8>>::new());
    let upstream = Upstream::new(|datagram: &[u8]| sent.borrow_mut().push(datagram.to_vec()));
    let mut server = Server::new(upstream);
    let mut expected: Vec<Vec<u8>> = Vec::new();
    for round in 0..40u32 {
        let mut datagram = Vec::new();
        for n in 0..50u32 {
            let line = format!("metric.{}.{}:{}|c|@0.5|#tag:{},,x|T1", round, n, n * 7, round);
            datagram.extend_from_slice(line.as_bytes());
            datagram.extend_from_slice(b"\n\n");
            expected.push(line.into_bytes());
        }
        server.handle_datagram(&datagram);
    }
    server.handle_datagram(b"");
    server.handle_datagram(b"\n\n\n");
    server.handle_datagram(b"\nlast:1|g");
    expected.push(b"last:1|g".to_vec());
    server.join().unwrap();

    assert!(sent.borrow().len() > 1);
    let mut lines: Vec<Vec<u8>> = Vec::new();
    for datagram in sent.borrow().iter() {
        assert!(datagram.len() <= BUFSIZE);
        for line in datagram.split(|&b| b == b'\n') {
            lines.push(line.to_vec());
        }
    }
    assert_eq!(lines, expected);
}
