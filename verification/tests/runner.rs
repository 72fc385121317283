use cargo_registry::dispatch::JobRegistry;
use cargo_registry::event::Event;
use cargo_registry::event::FailedJobsError;
use cargo_registry::event::FetchError;
use cargo_registry::runner::jobs_to_queue;
use cargo_registry::runner::poll_step;
use cargo_registry::runner::run_claim_attempt;
use cargo_registry::runner::try_to_extract_panic_info;
use cargo_registry::runner::PollStep;
use cargo_registry::runner::Runner;
use cargo_registry::store::backoff_secs;
use cargo_registry::store::JobStore;

fn store_with_jobs(n: usize) -> (JobStore, Vec<u64>) {
    let mut store = JobStore::new();
    let mut ids = Vec::new();
    for _ in 0..n {
        ids.push(store.enqueue("Foo".to_string(), Vec::new(), 0));
    }
    (store, ids)
}

#[test]
fn jobs_are_locked_when_fetched() {
    let (mut store, ids) = store_with_jobs(2);
    let first = store.claim_next(100).unwrap();
    let second = store.claim_next(100).unwrap();
    assert_eq!(ids[0], first);
    assert_eq!(ids[1], second);
}

#[test]
fn jobs_are_deleted_when_successfully_run() {
    let (mut store, _) = store_with_jobs(1);
    let ev = run_claim_attempt(&mut store, 100, true);
    assert_eq!(Event::Working, ev);
    assert_eq!(0, store.len());
}

#[test]
fn failed_jobs_do_not_release_lock_before_updating_retry_time() {
    let (mut store, ids) = store_with_jobs(1);
    let claimed = store.claim_next(100).unwrap();
    assert_eq!(ids[0], claimed);

    // While the claim transaction is open, no other session can claim the
    // row, and its retry counter has not yet moved.
    assert_eq!(None, store.claim_next(100));
    assert_eq!(Some(0), store.retries_of(claimed));

    // The failure is recorded while the lock is still held; only the
    // commit releases the row, already carrying its updated counter.
    store.mark_failed(claimed, 100);
    store.release(claimed);
    assert_eq!(Some(1), store.retries_of(claimed));

    // Released but backing off: still not claimable at the same instant.
    assert_eq!(None, store.claim_next(100));
    assert_eq!(1, store.len());
}

#[test]
fn panicking_in_jobs_updates_retry_counter() {
    let (mut store, ids) = store_with_jobs(1);
    // A handler crash is isolated and recorded exactly like an error.
    let ev = run_claim_attempt(&mut store, 100, false);
    assert_eq!(Event::Working, ev);
    assert_eq!(Some(1), store.retries_of(ids[0]));
    assert_eq!(1, store.len());
}

#[test]
fn run_all_pending_jobs_on_empty_queue_returns_ok() {
    let runner = Runner::new(2, 10, 2);
    let mut store = JobStore::new();
    let outcomes: Vec<bool> = Vec::new();
    assert_eq!(Ok(()), runner.run_all_pending_jobs(&mut store, 100, &outcomes));
    assert_eq!(0, store.len());
}

#[test]
fn run_all_pending_jobs_resolves_every_job() {
    let runner = Runner::new(2, 10, 2);
    let (mut store, ids) = store_with_jobs(10);
    let outcomes = vec![
        true, true, false, true, true, true, false, true, true, true,
    ];
    assert_eq!(Ok(()), runner.run_all_pending_jobs(&mut store, 100, &outcomes));

    // The two failing jobs remain, each with exactly one recorded failure;
    // the eight successful ones are gone.
    assert_eq!(2, store.len());
    for (k, id) in ids.iter().enumerate() {
        if outcomes[k] {
            assert_eq!(None, store.retries_of(*id));
        } else {
            assert_eq!(Some(1), store.retries_of(*id));
        }
    }
}

#[test]
fn successful_jobs_are_never_observed_again() {
    let runner = Runner::new(1, 10, 2);
    let (mut store, _) = store_with_jobs(1);
    let outcomes = vec![true];
    assert_eq!(Ok(()), runner.run_all_pending_jobs(&mut store, 100, &outcomes));
    assert_eq!(0, store.len());
    assert_eq!(Ok(()), runner.run_all_pending_jobs(&mut store, 200, &outcomes));
    assert_eq!(0, store.len());
}

#[test]
fn dead_letter_threshold_is_crossed_only_by_repeated_failures() {
    let runner = Runner::new(1, 10, 2);
    let (mut store, ids) = store_with_jobs(1);
    let outcomes = vec![false];

    // First run: one failure; below the threshold of 2, so the health
    // check still reports success.
    assert_eq!(Ok(()), runner.run_all_pending_jobs(&mut store, 100, &outcomes));
    assert_eq!(Some(1), store.retries_of(ids[0]));
    assert_eq!(Ok(()), runner.check_for_failed_jobs(&store, 0));

    // Immediately afterwards the job is backing off and a run finds
    // nothing to claim.
    assert_eq!(Ok(()), runner.run_all_pending_jobs(&mut store, 100, &outcomes));
    assert_eq!(Some(1), store.retries_of(ids[0]));

    // Once the backoff has elapsed the job fails again and crosses the
    // threshold.
    assert_eq!(Ok(()), runner.run_all_pending_jobs(&mut store, 100 + 120, &outcomes));
    assert_eq!(Some(2), store.retries_of(ids[0]));
    assert_eq!(
        Err(FailedJobsError::JobsFailed(1)),
        runner.check_for_failed_jobs(&store, 0)
    );
}

#[test]
fn panicked_worker_threads_are_fatal() {
    let runner = Runner::new(2, 10, 2);
    let store = JobStore::new();
    assert_eq!(Ok(()), runner.wait_for_jobs(0));
    assert_eq!(
        Err(FailedJobsError::ThreadsPanicked(3)),
        runner.wait_for_jobs(3)
    );
    assert_eq!(
        Err(FailedJobsError::ThreadsPanicked(2)),
        runner.check_for_failed_jobs(&store, 2)
    );
}

#[test]
fn poll_step_reacts_to_each_event() {
    assert!(matches!(poll_step(Some(Event::Working)), PollStep::Continue));
    assert!(matches!(
        poll_step(Some(Event::NoJobAvailable)),
        PollStep::Finish(Ok(()))
    ));
    match poll_step(Some(Event::ErrorLoadingJob("bad row".to_string()))) {
        PollStep::Finish(Err(FetchError::FailedLoadingJob(e))) => assert_eq!("bad row", e),
        _ => panic!("claim errors must be fatal to the run"),
    }
    match poll_step(Some(Event::FailedToAcquireConnection("pool dry".to_string()))) {
        PollStep::Finish(Err(FetchError::NoDatabaseConnection(e))) => assert_eq!("pool dry", e),
        _ => panic!("connection failures must be fatal to the run"),
    }
    assert!(matches!(
        poll_step(None),
        PollStep::Finish(Err(FetchError::NoMessageReceived))
    ));
}

#[test]
fn jobs_to_queue_always_keeps_one_attempt_in_flight() {
    // Saturated pool, nothing outstanding: still one attempt.
    assert_eq!(1, jobs_to_queue(0, 5, 5));
    // Idle workers get one attempt each.
    assert_eq!(2, jobs_to_queue(0, 5, 3));
    // With attempts outstanding, only idle workers get new ones.
    assert_eq!(0, jobs_to_queue(3, 5, 5));
    assert_eq!(1, jobs_to_queue(2, 5, 4));
}

#[test]
fn panic_diagnostics_are_taken_in_preference_order() {
    assert_eq!(
        "job panicked: structured",
        try_to_extract_panic_info(
            Some("structured".to_string()),
            Some("static"),
            Some("owned".to_string())
        )
    );
    assert_eq!(
        "job panicked: static",
        try_to_extract_panic_info(None, Some("static"), Some("owned".to_string()))
    );
    assert_eq!(
        "job panicked: owned",
        try_to_extract_panic_info(None, None, Some("owned".to_string()))
    );
    assert_eq!("job panicked", try_to_extract_panic_info(None, None, None));
}

#[test]
fn registry_resolves_tags_to_their_first_slot() {
    let mut registry = JobRegistry::new();
    assert_eq!(0, registry.register("update_downloads".to_string()));
    assert_eq!(1, registry.register("sync_yanked".to_string()));
    assert_eq!(2, registry.register("sync_yanked".to_string()));
    assert_eq!(Some(0), registry.resolve(&"update_downloads".to_string()));
    assert_eq!(Some(1), registry.resolve(&"sync_yanked".to_string()));
    assert_eq!(None, registry.resolve(&"no_such_job".to_string()));
}

#[test]
fn claimed_jobs_carry_their_tag_and_payload() {
    let mut store = JobStore::new();
    store.enqueue("sync_yanked".to_string(), vec![1, 2, 3], 0);
    let job = store.claim_next_job(100).unwrap();
    assert_eq!("sync_yanked", job.job_type);
    assert_eq!(vec![1u8, 2, 3], job.data);

    let mut registry = JobRegistry::new();
    registry.register("sync_yanked".to_string());
    assert_eq!(Some(0), registry.resolve(&job.job_type));

    // The claimed row is locked until this transaction ends.
    assert_eq!(None, store.claim_next(100));
}

#[test]
fn backoff_starts_at_a_minute_and_doubles() {
    assert_eq!(60, backoff_secs(0));
    assert_eq!(120, backoff_secs(1));
    assert_eq!(480, backoff_secs(3));
    assert_eq!(60 * (1u64 << 58), backoff_secs(58));
}

#[test]
fn claims_skip_rows_that_are_backing_off() {
    let (mut store, ids) = store_with_jobs(2);
    // Fail the first job at time 100; it backs off for 120 seconds.
    let ev = run_claim_attempt(&mut store, 100, false);
    assert_eq!(Event::Working, ev);
    // The next claim at the same instant skips it and takes the second.
    assert_eq!(Some(ids[1]), store.claim_next(100));
    // At time 220 the first job is eligible again.
    store.release(ids[1]);
    assert_eq!(Some(ids[0]), store.claim_next(220));
}
