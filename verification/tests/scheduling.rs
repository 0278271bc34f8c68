use fwdl::orchestrate::{make_scheduler, NumChunks};
use fwdl::range::ByteRange;
use fwdl::scheduler::Scheduler;
use fwdl::state::DownloadState;
use fwdl::worker::{Worker, WorkerError};

const MIB: u64 = 1024 * 1024;

/// Drive one worker to completion over its current range, reporting every
/// fragment to the scheduler, with fragments of the given size.
fn run_worker(s: &mut Scheduler, task_id: usize, fragment: u64) {
    let mut w = Worker::new(s.range_of(task_id));
    while !w.done() {
        let consumed = w.on_fragment(fragment);
        let end = s.on_progress(task_id, consumed);
        w.on_reply(end);
    }
    assert!(w.check_eof().is_ok());
}

#[test]
fn single_range_happy_path() {
    // 4 MiB artifact, one connection: one task, no splits, nothing residual.
    let mut s = make_scheduler(None, 4 * MIB, NumChunks::new(1).unwrap(), 3).unwrap();
    assert_eq!(s.num_tasks(), 1);
    assert_eq!(s.range_of(0), ByteRange::new(0, 4 * MIB));
    run_worker(&mut s, 0, MIB);
    assert!(s.on_success(0).is_none());
    assert!(s.is_done());
    assert!(s.residual().is_empty());
}

#[test]
fn finisher_takes_half_of_largest() {
    // 40 MiB in 4 even chunks; worker 0 finishes first. The largest live
    // range (10 MiB) is split and the freed slot restarts on its second
    // half.
    let mut s = make_scheduler(None, 40 * MIB, NumChunks::new(4).unwrap(), 3).unwrap();
    assert_eq!(s.num_tasks(), 4);
    run_worker(&mut s, 0, MIB);
    let order = s.on_success(0).expect("a split order");
    assert_eq!(order.task_id, 0);
    assert_eq!(order.range, ByteRange::new(35 * MIB, 40 * MIB));
    assert_eq!(s.range_of(3), ByteRange::new(30 * MIB, 35 * MIB));
    assert_eq!(s.range_of(0), ByteRange::new(35 * MIB, 40 * MIB));

    // Drain everything; the download completes with nothing residual.
    run_worker(&mut s, 0, MIB);
    run_worker(&mut s, 1, MIB);
    run_worker(&mut s, 2, MIB);
    run_worker(&mut s, 3, MIB);
    while let Some(o) = s.on_success(0) {
        run_worker(&mut s, o.task_id, MIB);
    }
    assert!(s.is_done());
    assert!(s.residual().is_empty());
}

#[test]
fn transient_failure_resumes_from_offset() {
    // Worker 2 fails after 3 MiB of its 10 MiB range; under the retry cap
    // it is respawned on exactly the unfinished part.
    let mut s = make_scheduler(None, 40 * MIB, NumChunks::new(4).unwrap(), 3).unwrap();
    let _ = s.on_progress(2, 3 * MIB);
    let order = s.on_failure(2).expect("a retry order");
    assert_eq!(order.task_id, 2);
    assert_eq!(order.range, ByteRange::new(23 * MIB, 30 * MIB));
}

#[test]
fn retry_exhaustion_leaves_residual() {
    // Worker 2 keeps failing with a budget of 3: two respawns, then none.
    // Further splitting is suppressed; the other workers drain; the
    // residual is exactly worker 2's unfinished range.
    let mut s = make_scheduler(None, 40 * MIB, NumChunks::new(4).unwrap(), 3).unwrap();
    let _ = s.on_progress(2, 3 * MIB);
    assert!(s.on_failure(2).is_some());
    assert!(s.on_failure(2).is_some());
    assert!(s.on_failure(2).is_none());
    assert!(s.on_failure(2).is_none());

    run_worker(&mut s, 0, MIB);
    assert!(s.on_success(0).is_none());
    run_worker(&mut s, 1, MIB);
    assert!(s.on_success(1).is_none());
    run_worker(&mut s, 3, MIB);
    assert!(s.on_success(3).is_none());

    assert!(!s.is_done());
    let residual = s.residual();
    assert_eq!(residual, vec![ByteRange::new(23 * MIB, 30 * MIB)]);
}

#[test]
fn interrupt_persists_and_resumes() {
    // 17 MiB of a 40 MiB download are complete when the interrupt fires:
    // the residual sums to 23 MiB, survives the state file round trip, and
    // the resumed run finishes the remaining bytes.
    let mut s = make_scheduler(None, 40 * MIB, NumChunks::new(4).unwrap(), 3).unwrap();
    let _ = s.on_progress(0, 8 * MIB);
    let _ = s.on_progress(1, 5 * MIB);
    let _ = s.on_progress(2, 4 * MIB);
    assert_eq!(s.remaining(), 23 * MIB);

    let residual = s.residual();
    let total: u64 = residual.iter().map(|r| r.end - r.start).sum();
    assert_eq!(total, 23 * MIB);

    let saved = DownloadState::from_ranges(&residual).to_bytes();
    let loaded = DownloadState::parse(&saved).unwrap();
    let mut resumed =
        make_scheduler(Some(&loaded), 40 * MIB, NumChunks::new(4).unwrap(), 3).unwrap();
    assert_eq!(resumed.remaining(), 23 * MIB);
    let n = resumed.num_tasks();
    assert_eq!(n, residual.len());
    for t in 0..n {
        assert_eq!(resumed.range_of(t), residual[t]);
    }

    for t in 0..n {
        run_worker(&mut resumed, t, MIB);
    }
    assert!(resumed.is_done());
    assert!(resumed.residual().is_empty());
}

#[test]
fn progress_reply_carries_shrunken_end() {
    // After a split, the victim's worker learns the shorter end from its
    // next progress reply; ends only ever shrink.
    let mut s = make_scheduler(None, 40 * MIB, NumChunks::new(4).unwrap(), 3).unwrap();
    let mut w3 = Worker::new(s.range_of(3));
    run_worker(&mut s, 0, MIB);
    let _ = s.on_success(0); // splits slot 3 at 35 MiB
    let consumed = w3.on_fragment(MIB);
    let end = s.on_progress(3, consumed);
    assert_eq!(end, 35 * MIB);
    assert!(end <= w3.range.end);
    w3.on_reply(end);
    assert_eq!(w3.range.end, 35 * MIB);
}

#[test]
fn worker_caps_oversized_fragment() {
    let mut w = Worker::new(ByteRange::new(0, 10));
    let consumed = w.on_fragment(100);
    assert_eq!(consumed, 10);
    assert!(w.done());
}

#[test]
fn worker_premature_eof() {
    let w = Worker::new(ByteRange::new(0, 10));
    assert_eq!(w.check_eof(), Err(WorkerError::PrematureEof));
}

#[test]
fn success_with_unfinished_slot_hands_it_back() {
    // A completion for a slot that still records bytes: the slot is handed
    // straight back out rather than reassigned, so no byte is lost.
    let mut s = make_scheduler(None, 40 * MIB, NumChunks::new(4).unwrap(), 3).unwrap();
    let order = s.on_success(1).expect("an order");
    assert_eq!(order.task_id, 1);
    assert_eq!(order.range, ByteRange::new(10 * MIB, 20 * MIB));
    assert_eq!(s.range_of(1), ByteRange::new(10 * MIB, 20 * MIB));
}
