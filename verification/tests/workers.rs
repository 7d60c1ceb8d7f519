use load_harness::blocking::BlockingRequest;
use load_harness::harness::{banner, workers, REPORT_INTERVAL_SECS, URL, WORKERS};
use load_harness::variant::Variant;
use load_harness::worker::{Action, Event, Phase, Worker, BACKOFF_MILLIS};

fn error(text: &str) -> Result<(), String> {
    Err(String::from(text))
}

/// Takes an event and gives back whether it was counted, and the line.
fn take(worker: &mut Worker, event: Event) -> (bool, Option<String>) {
    assert!(worker.accepts(&event));
    let effect = worker.step(event);
    (effect.counted, effect.log)
}

#[test]
fn streaming_worker_counts_a_body_once() {
    for variant in [Variant::ReqwestStreaming, Variant::ReqwestTweaks] {
        let mut worker = Worker::new(3, variant);
        assert_eq!(worker.action(), Action::Send);
        assert_eq!(take(&mut worker, Event::Sent(Ok(()))), (false, None));
        for _ in 0..4 {
            assert_eq!(worker.action(), Action::ReadChunk);
            assert_eq!(take(&mut worker, Event::ChunkRead(Some(Ok(())))), (false, None));
        }
        assert_eq!(take(&mut worker, Event::ChunkRead(None)), (true, None));
        assert_eq!(worker, Worker::new(3, variant));
    }
}

#[test]
fn empty_body_counts() {
    let mut worker = Worker::new(0, Variant::ReqwestStreaming);
    take(&mut worker, Event::Sent(Ok(())));
    assert_eq!(take(&mut worker, Event::ChunkRead(None)), (true, None));
}

#[test]
fn request_error_is_logged_and_slept_on() {
    let mut worker = Worker::new(11, Variant::ReqwestTweaks);
    assert_eq!(
        take(&mut worker, Event::Sent(error("connection refused"))),
        (false, Some(String::from("[worker 11] request error: connection refused")))
    );
    assert_eq!(worker.action(), Action::Sleep { millis: 100 });
    assert_eq!(take(&mut worker, Event::Rested), (false, None));
    assert_eq!(worker.action(), Action::Send);
}

#[test]
fn body_error_breaks_the_stream() {
    let mut worker = Worker::new(0, Variant::ReqwestStreaming);
    take(&mut worker, Event::Sent(Ok(())));
    take(&mut worker, Event::ChunkRead(Some(Ok(()))));
    assert_eq!(
        take(&mut worker, Event::ChunkRead(Some(error("reset")))),
        (false, Some(String::from("[worker 0] body error: reset")))
    );
    assert_eq!(worker.phase, Phase::BackingOff);
}

#[test]
fn collecting_worker() {
    let mut worker = Worker::new(15, Variant::ReqwestCollecting);
    take(&mut worker, Event::Sent(Ok(())));
    assert_eq!(worker.action(), Action::CollectBody);
    assert_eq!(take(&mut worker, Event::BodyCollected(Ok(()))), (true, None));
    assert_eq!(worker.action(), Action::Send);
    take(&mut worker, Event::Sent(Ok(())));
    assert_eq!(
        take(&mut worker, Event::BodyCollected(error("eof"))),
        (false, Some(String::from("[worker 15] body error: eof")))
    );
    assert_eq!(worker.action(), Action::Sleep { millis: BACKOFF_MILLIS });
}

#[test]
fn blocking_worker() {
    for variant in [Variant::UreqStreaming, Variant::UreqCollecting] {
        let mut worker = Worker::new(7, variant);
        assert_eq!(worker.action(), Action::RunBlocking);
        assert_eq!(take(&mut worker, Event::BlockingFinished(Ok(Ok(())))), (true, None));
        assert_eq!(worker.action(), Action::RunBlocking);
        assert_eq!(
            take(&mut worker, Event::BlockingFinished(Ok(error("timeout")))),
            (false, Some(String::from("[worker 7] request error: timeout")))
        );
        take(&mut worker, Event::Rested);
        assert_eq!(
            take(&mut worker, Event::BlockingFinished(Err(String::from("panicked")))),
            (false, Some(String::from("[worker 7] join error: panicked")))
        );
        assert_eq!(worker.action(), Action::Sleep { millis: 100 });
    }
}

#[test]
fn events_of_another_action_are_not_accepted() {
    let mut worker = Worker::new(0, Variant::ReqwestStreaming);
    assert!(!worker.accepts(&Event::Rested));
    assert!(!worker.accepts(&Event::ChunkRead(None)));
    assert!(!worker.accepts(&Event::BlockingFinished(Ok(Ok(())))));
    take(&mut worker, Event::Sent(Ok(())));
    assert!(!worker.accepts(&Event::Sent(Ok(()))));
    assert!(!worker.accepts(&Event::BodyCollected(Ok(()))));
    take(&mut worker, Event::ChunkRead(Some(error("x"))));
    assert!(!worker.accepts(&Event::Sent(Ok(()))));
    assert!(worker.accepts(&Event::Rested));
}

#[test]
fn requests_add_up() {
    let mut worker = Worker::new(1, Variant::ReqwestStreaming);
    let (mut started, mut counted, mut failed) = (1, 0, 0);
    for round in 0..200 {
        let event = match worker.action() {
            Action::Send => Event::Sent(if round % 7 == 0 { error("s") } else { Ok(()) }),
            Action::ReadChunk => Event::ChunkRead(match round % 5 {
                0 => None,
                1 => Some(error("c")),
                _ => Some(Ok(())),
            }),
            Action::Sleep { .. } => Event::Rested,
            _ => unreachable!(),
        };
        let (count, log) = take(&mut worker, event);
        counted += count as u32;
        failed += log.is_some() as u32;
        if worker.phase == Phase::Requesting {
            started += 1;
        }
        let in_flight = (worker.phase != Phase::BackingOff) as u32;
        assert_eq!(started, counted + failed + in_flight);
    }
    assert!(counted > 0 && failed > 0);
}

#[test]
fn settings_do_not_change_the_work() {
    let mut plain = Worker::new(2, Variant::ReqwestStreaming);
    let mut tuned = Worker::new(2, Variant::ReqwestTweaks);
    for event in [
        || Event::Sent(Ok(())),
        || Event::ChunkRead(Some(Ok(()))),
        || Event::ChunkRead(Some(Err(String::from("x")))),
        || Event::Rested,
        || Event::Sent(Err(String::from("y"))),
        || Event::Rested,
    ] {
        assert_eq!(plain.action(), tuned.action());
        assert_eq!(take(&mut plain, event()), take(&mut tuned, event()));
        assert_eq!(plain.phase, tuned.phase);
    }
}

#[test]
fn blocking_request_ends_with_its_first_error() {
    let drained = BlockingRequest::new().advance(Ok(())).advance(Ok(()));
    assert!(matches!(drained, BlockingRequest::Finished(Ok(()))));
    let called = BlockingRequest::new().advance(Ok(()));
    assert!(matches!(called, BlockingRequest::Draining));
    match BlockingRequest::new().advance(error("call")) {
        BlockingRequest::Finished(result) => assert_eq!(result, error("call")),
        _ => panic!("the call failed"),
    }
    match BlockingRequest::new().advance(Ok(())).advance(error("drain")) {
        BlockingRequest::Finished(result) => assert_eq!(result, error("drain")),
        _ => panic!("the body failed"),
    }
}

#[test]
fn sixteen_workers_from_zero() {
    let fleet = workers(Variant::UreqCollecting);
    assert_eq!(fleet.len(), WORKERS);
    assert_eq!(WORKERS, 16);
    for (id, worker) in fleet.iter().enumerate() {
        assert_eq!(*worker, Worker::new(id, Variant::UreqCollecting));
    }
}

#[test]
fn banner_text() {
    assert_eq!(REPORT_INTERVAL_SECS, 5);
    assert_eq!(
        URL,
        "https://dd6g9dllgm9fw.cloudfront.net/Parkour-loop-mp4/out_1/00000/out_1_00001.ts"
    );
    assert_eq!(
        banner(Variant::ReqwestTweaks),
        "[reqwest_tweaks] Started 16 workers against https://dd6g9dllgm9fw.cloudfront.net/Parkour-loop-mp4/out_1/00000/out_1_00001.ts\nReporting memory every 5s. Press Ctrl-C to stop."
    );
}

#[test]
fn the_load_is_fixed() {
    let mut fleet = workers(Variant::ReqwestCollecting);
    let (mut started, mut counted, mut failed) = (WORKERS, 0, 0);
    let mut x: usize = 1;
    for _ in 0..3000 {
        x = x.wrapping_mul(6364136223846793005).wrapping_add(1442695040888963407);
        let worker = &mut fleet[(x >> 40) % WORKERS];
        let outcome = if (x >> 50) % 4 == 0 { error("x") } else { Ok(()) };
        let event = match worker.action() {
            Action::Send => Event::Sent(outcome),
            Action::CollectBody => Event::BodyCollected(outcome),
            Action::Sleep { .. } => Event::Rested,
            _ => unreachable!(),
        };
        let before = counted;
        let (count, log) = take(worker, event);
        counted += count as usize;
        failed += log.is_some() as usize;
        started += (worker.phase == Phase::Requesting) as usize;
        let in_flight = fleet.iter().filter(|w| w.phase != Phase::BackingOff).count();
        assert!(in_flight <= WORKERS && before <= counted);
        assert_eq!(started, counted + failed + in_flight);
    }
    for (id, worker) in fleet.iter().enumerate() {
        assert_eq!((worker.id, worker.variant), (id, Variant::ReqwestCollecting));
    }
    assert!(counted > 0 && failed > 0);
}
