use p2psync::digest::hex_digest;
use p2psync::downloader::executor::{
    checked_total_size, total_size, Accepted, Attempt, ChunkSink, Dispatch, Dispatcher,
    DownloadError, DownloadURLs, Failover, BUFFER_SIZE,
};
use p2psync::downloader::planer::Action;
use std::sync::Arc;

fn download(size: usize) -> Action {
    Action::Download {
        peers: Arc::new(vec!["http://p".to_string()]),
        peer_id: 0,
        path: "./f".to_string(),
        md5: "d".to_string(),
        size,
    }
}

fn make_dir() -> Action {
    Action::MakeDir { path: "./d".to_string() }
}

#[test]
fn total_size_adds_the_sizes_of_downloads() {
    assert_eq!(total_size(&vec![]), 0);
    assert_eq!(total_size(&vec![make_dir()]), 0);
    let actions = vec![make_dir(), download(12), make_dir(), download(30), download(0)];
    assert_eq!(total_size(&actions), 42);
    assert_eq!(checked_total_size(&actions), Some(42));
}

#[test]
fn checked_total_size_notices_what_does_not_fit() {
    let fits = vec![download(usize::MAX - 1), make_dir(), download(1)];
    assert_eq!(checked_total_size(&fits), Some(usize::MAX));
    let too_much = vec![download(usize::MAX), download(1), download(5)];
    assert_eq!(checked_total_size(&too_much), None);
}

fn all_urls(peers: &Vec<String>, peer_id: usize, md5: &str) -> Vec<String> {
    let mut urls = DownloadURLs::new(md5, peers, peer_id);
    let mut out = Vec::new();
    while let Some(url) = urls.next() {
        out.push(url);
    }
    assert_eq!(urls.next(), None);
    out
}

#[test]
fn urls_rotate_from_the_starting_peer() {
    let peers = vec!["http://a".to_string(), "http://b".to_string(), "http://c".to_string()];
    assert_eq!(
        all_urls(&peers, 0, "x"),
        vec!["http://a/download?md5=x", "http://b/download?md5=x", "http://c/download?md5=x"]
    );
    assert_eq!(
        all_urls(&peers, 2, "x"),
        vec!["http://c/download?md5=x", "http://a/download?md5=x", "http://b/download?md5=x"]
    );
    assert_eq!(
        all_urls(&peers, 4, "y"),
        vec!["http://b/download?md5=y", "http://c/download?md5=y", "http://a/download?md5=y"]
    );
}

#[test]
fn urls_of_a_far_starting_peer_do_not_overflow() {
    let peers = vec!["a".to_string(), "b".to_string()];
    let first = usize::MAX % 2;
    let urls = all_urls(&peers, usize::MAX, "z");
    assert_eq!(urls.len(), 2);
    assert_eq!(urls[0], format!("{}/download?md5=z", peers[first]));
    assert_eq!(urls[1], format!("{}/download?md5=z", peers[1 - first]));
}

#[test]
fn urls_without_peers() {
    assert!(all_urls(&vec![], 3, "x").is_empty());
}

#[test]
fn every_peer_is_tried_exactly_once() {
    let peers: Vec<String> = (0..5).map(|i| format!("peer{}", i)).collect();
    for start in 0..11 {
        let mut urls = all_urls(&peers, start, "m");
        assert_eq!(urls[0], format!("peer{}/download?md5=m", start % 5));
        urls.sort();
        let expected: Vec<String> = peers.iter().map(|p| format!("{}/download?md5=m", p)).collect();
        assert_eq!(urls, expected);
    }
}

fn fetch_url(failover: &Failover) -> String {
    match failover.step() {
        Attempt::Fetch { url } => url,
        other => panic!("Expected a fetch, got {:?}", other),
    }
}

// What a peer delivers is checked as the executor checks it.
fn check(body: &[u8], expected: &str) -> Result<Accepted, DownloadError> {
    let (sink, _) = ChunkSink::new().push(body);
    sink.finish(expected).1
}

#[test]
fn peer_failover_retries_at_the_next_peer() {
    let peers = vec!["http://A".to_string(), "http://B".to_string()];
    let expected = hex_digest(b"hello world!");
    let failover = Failover::begin(&peers, 0, &expected);
    assert_eq!(fetch_url(&failover), format!("http://A/download?md5={}", expected));

    let failover = match check(b"HELLO WORLD!", &expected) {
        Ok(_) => panic!("Expected a digest mismatch"),
        Err(error) => {
            assert_eq!(error, DownloadError::DigestMismatch);
            failover.failed(error.message())
        }
    };
    assert_eq!(fetch_url(&failover), format!("http://B/download?md5={}", expected));

    let failover = match check(b"hello world!", &expected) {
        Ok(accepted) => {
            assert_eq!(accepted.md5(), &expected);
            failover.succeeded(accepted)
        }
        Err(error) => panic!("Expected the body to be accepted, got {:?}", error),
    };
    assert!(matches!(failover.step(), Attempt::Done));
}

#[test]
fn failure_is_reported_only_when_every_peer_failed() {
    let peers = vec!["http://A".to_string(), "http://B".to_string()];
    let failover = Failover::begin(&peers, 0, "d");
    let failover = failover.failed("digest mismatch".to_string());
    assert!(matches!(failover.step(), Attempt::Fetch { .. }));
    let failover = failover.failed("connection refused".to_string());
    match failover.step() {
        Attempt::Failed { errors } => {
            assert_eq!(
                errors.errors(),
                &["digest mismatch".to_string(), "connection refused".to_string()]
            );
            assert_eq!(
                errors.message(),
                "Multiple errors occurred (2): digest mismatch; connection refused"
            );
        }
        other => panic!("Expected a failure, got {:?}", other),
    }
    let evidence = check(b"late", &hex_digest(b"late")).unwrap();
    let failover = failover.failed("ignored".to_string()).succeeded(evidence);
    match failover.step() {
        Attempt::Failed { errors } => assert_eq!(errors.len(), 2),
        other => panic!("Expected a failure, got {:?}", other),
    }
}

#[test]
fn failover_starts_at_the_assigned_peer() {
    let peers = vec!["http://A".to_string(), "http://B".to_string(), "http://C".to_string()];
    let failover = Failover::begin(&peers, 1, "d");
    assert_eq!(fetch_url(&failover), "http://B/download?md5=d");
    let failover = failover.failed("e1".to_string());
    assert_eq!(fetch_url(&failover), "http://C/download?md5=d");
    let failover = failover.failed("e2".to_string());
    assert_eq!(fetch_url(&failover), "http://A/download?md5=d");
}

#[test]
fn failover_after_success_stays_done() {
    let peers = vec!["http://A".to_string(), "http://B".to_string()];
    let expected = hex_digest(b"body");
    let failover =
        Failover::begin(&peers, 0, &expected).succeeded(check(b"body", &expected).unwrap());
    let failover = failover
        .failed("late".to_string())
        .succeeded(check(b"body", &expected).unwrap());
    assert!(matches!(failover.step(), Attempt::Done));
}

#[test]
fn failover_counts_a_body_with_another_digest_as_a_failure() {
    let peers = vec!["http://A".to_string(), "http://B".to_string()];
    let expected = hex_digest(b"wanted");
    let other = check(b"other", &hex_digest(b"other")).unwrap();
    let failover = Failover::begin(&peers, 1, &expected).succeeded(other);
    assert_eq!(fetch_url(&failover), format!("http://A/download?md5={}", expected));
    let failover = failover.failed("refused".to_string());
    match failover.step() {
        Attempt::Failed { errors } => assert_eq!(
            errors.errors(),
            &["digest mismatch".to_string(), "refused".to_string()]
        ),
        other => panic!("Expected a failure, got {:?}", other),
    }
}

#[test]
fn failover_without_peers_fails_at_once() {
    let failover = Failover::begin(&vec![], 0, "d");
    match failover.step() {
        Attempt::Failed { errors } => assert!(errors.is_empty()),
        other => panic!("Expected a failure, got {:?}", other),
    }
}

#[test]
fn sink_buffers_small_chunks_until_the_end() {
    let sink = ChunkSink::new();
    let (sink, flush) = sink.push(b"hello ");
    assert_eq!(flush, None);
    let (sink, flush) = sink.push(b"");
    assert_eq!(flush, None);
    let (sink, flush) = sink.push(b"world!");
    assert_eq!(flush, None);
    let (rest, verdict) = sink.finish(&hex_digest(b"hello world!"));
    assert_eq!(rest, b"hello world!");
    assert_eq!(verdict.unwrap().md5(), &hex_digest(b"hello world!"));
}

#[test]
fn sink_rejects_bytes_with_another_digest() {
    let (sink, _) = ChunkSink::new().push(b"tampered");
    let (rest, verdict) = sink.finish(&hex_digest(b"untouched"));
    assert_eq!(rest, b"tampered");
    assert!(matches!(verdict, Err(DownloadError::DigestMismatch)));
    assert_eq!(DownloadError::DigestMismatch.message(), "digest mismatch");
}

#[test]
fn sink_of_an_empty_body() {
    let (rest, verdict) = ChunkSink::new().finish("d41d8cd98f00b204e9800998ecf8427e");
    assert!(rest.is_empty());
    assert!(verdict.is_ok());
    let (_, verdict) = ChunkSink::new().finish("");
    assert!(matches!(verdict, Err(DownloadError::DigestMismatch)));
}

#[test]
fn sink_hands_the_buffer_on_when_it_is_full() {
    assert_eq!(BUFFER_SIZE, 4 * 1024 * 1024);
    let first = vec![1u8; BUFFER_SIZE - 1];
    let second = vec![2u8; 1];
    let third = vec![3u8; 10];
    let mut whole = first.clone();
    whole.extend_from_slice(&second);
    whole.extend_from_slice(&third);

    let (sink, flush) = ChunkSink::new().push(&first);
    assert_eq!(flush, None);
    let (sink, flush) = sink.push(&second);
    let written = flush.unwrap();
    assert_eq!(written.len(), BUFFER_SIZE);
    assert_eq!(&written[..BUFFER_SIZE - 1], &first[..]);
    assert_eq!(written[BUFFER_SIZE - 1], 2);
    let (sink, flush) = sink.push(&third);
    assert_eq!(flush, None);
    let (rest, verdict) = sink.finish(&hex_digest(&whole));
    assert_eq!(rest, third);
    assert!(verdict.is_ok());
}

#[test]
fn sink_hands_on_a_chunk_larger_than_the_buffer() {
    let big = vec![7u8; BUFFER_SIZE + 5];
    let (sink, flush) = ChunkSink::new().push(b"ab");
    assert_eq!(flush, None);
    let (sink, flush) = sink.push(&big);
    let written = flush.unwrap();
    assert_eq!(written.len(), BUFFER_SIZE + 7);
    assert_eq!(&written[..2], b"ab");
    let mut whole = b"ab".to_vec();
    whole.extend_from_slice(&big);
    let (rest, verdict) = sink.finish(&hex_digest(&whole));
    assert!(rest.is_empty());
    assert!(verdict.is_ok());
}

// Runs a dispatcher against tasks that end as `fails` says, and returns the
// commands it gave with the largest number of tasks in flight.
fn run(
    total: usize,
    concurrency: usize,
    fails: &[usize],
) -> (Vec<String>, usize, Option<Vec<String>>) {
    let mut dispatcher = Dispatcher::new(total, concurrency);
    let mut log = Vec::new();
    let mut in_flight = std::collections::VecDeque::new();
    let mut most = 0;
    loop {
        match dispatcher.command() {
            Dispatch::Spawn { index } => {
                log.push(format!("spawn {}", index));
                in_flight.push_back(index);
                most = most.max(in_flight.len());
                dispatcher = dispatcher.spawned();
            }
            Dispatch::Await { index } => {
                log.push(format!("await {}", index));
                assert_eq!(in_flight.pop_front(), Some(index));
                let failure = if fails.contains(&index) {
                    Some(format!("task {} failed", index))
                } else {
                    None
                };
                dispatcher = dispatcher.joined(failure);
            }
            Dispatch::Finish { failure } => {
                assert!(in_flight.is_empty());
                return (log, most, failure.map(|errors| errors.into_errors()));
            }
        }
    }
}

#[test]
fn dispatch_keeps_the_bound_and_awaits_oldest_first() {
    let (log, most, failure) = run(5, 2, &[]);
    assert_eq!(
        log,
        vec![
            "spawn 0", "spawn 1", "spawn 2", "await 0", "spawn 3", "await 1", "spawn 4",
            "await 2", "await 3", "await 4"
        ]
    );
    assert_eq!(most, 3);
    assert_eq!(failure, None);
}

#[test]
fn dispatch_stops_starting_after_a_failure_but_drains() {
    let (log, _, failure) = run(6, 1, &[1, 2]);
    assert_eq!(
        log,
        vec!["spawn 0", "spawn 1", "await 0", "spawn 2", "await 1", "await 2"]
    );
    assert_eq!(
        failure,
        Some(vec!["task 1 failed".to_string(), "task 2 failed".to_string()])
    );
}

#[test]
fn dispatch_with_zero_concurrency_runs_one_at_a_time() {
    let (log, most, failure) = run(3, 0, &[]);
    assert_eq!(
        log,
        vec!["spawn 0", "await 0", "spawn 1", "await 1", "spawn 2", "await 2"]
    );
    assert_eq!(most, 1);
    assert_eq!(failure, None);
}

#[test]
fn dispatch_never_exceeds_the_bound() {
    for concurrency in 0..6 {
        for total in 0..9 {
            let (log, most, failure) = run(total, concurrency, &[]);
            assert!(most <= concurrency + 1);
            assert_eq!(log.len(), 2 * total);
            assert_eq!(failure, None);
        }
    }
    let (_, most, _) = run(3, usize::MAX, &[]);
    assert_eq!(most, 3);
}

#[test]
fn dispatch_of_an_empty_plan_finishes_at_once() {
    let (log, most, failure) = run(0, 10, &[]);
    assert!(log.is_empty());
    assert_eq!(most, 0);
    assert_eq!(failure, None);
}

#[test]
fn dispatch_ignores_reports_that_were_not_asked_for() {
    let dispatcher = Dispatcher::new(2, 5);
    let dispatcher = dispatcher.joined(Some("nothing was awaited".to_string()));
    assert!(matches!(dispatcher.command(), Dispatch::Spawn { index: 0 }));
    let dispatcher = dispatcher.spawned().spawned().spawned();
    assert!(matches!(dispatcher.command(), Dispatch::Await { index: 0 }));
    let dispatcher = dispatcher.joined(None).joined(None).joined(None).spawned();
    assert!(matches!(dispatcher.command(), Dispatch::Finish { failure: None }));
}
