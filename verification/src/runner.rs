//! The runner: the polling-loop state machine, one worker claim attempt,
//! and the drain / failure-inspection operations.
//!
//! The polling loop issues claim attempts, counts the attempts whose status
//! it has not yet received, and reacts to each status event; a worker
//! attempt claims one row inside a transaction, executes the handler behind
//! a failure-isolation boundary, and either deletes the row or records the
//! failure before the transaction commits. The thread pool, the channel and
//! the transactions themselves run outside the library; every decision they
//! carry out is taken here.

use vstd::arithmetic::power2::lemma_pow2_pos;
use vstd::arithmetic::power2::pow2;
use vstd::prelude::*;
use vstd::string::*;

use crate::event::Event;
use crate::event::FailedJobsError;
use crate::event::FetchError;
use crate::store::JobRow;
use crate::store::JobStore;
use crate::store::backoff_spec;
use crate::store::contains_id;
use crate::store::count_failed_spec;
use crate::store::fail_row;
use crate::store::first_visible;
use crate::store::ids_sorted;
use crate::store::lemma_first_visible;
use crate::store::lemma_index_of_id_is;
use crate::store::lock_row;
use crate::store::row_visible;
use crate::store::unlock_row;

verus! {

/// What one polling-loop iteration does after receiving (or timing out on)
/// a status event.
pub enum PollStep {
    /// One attempt reported that it claimed a row; keep polling.
    Continue,
    /// The run is over, successfully or fatally.
    Finish(Result<(), FetchError>),
}

/// How many claim attempts one polling-loop iteration issues: every idle
/// worker gets one, but when no attempt is outstanding at least one is
/// issued, so the loop always has an event to wait for and can never block
/// forever on an empty channel.
pub fn jobs_to_queue(pending_messages: usize, max_threads: usize, active: usize) -> (n: usize)
    requires
        active <= max_threads,
    ensures
        n == if pending_messages == 0 && max_threads - active == 0 {
            1int
        } else {
            max_threads - active
        },
        pending_messages == 0 ==> n >= 1,
{
    let available = max_threads - active;
    if pending_messages == 0 && available == 0 {
        1
    } else {
        available
    }
}

/// The polling loop's reaction to one received status event, or to the
/// bounded receive timing out (`None`): a claimed row means keep going, an
/// empty queue means the run succeeded, and everything else is fatal to
/// this run.
pub fn poll_step(event: Option<Event>) -> (s: PollStep)
    ensures
        match event {
            Some(Event::Working) => s is Continue,
            Some(Event::NoJobAvailable) => s == PollStep::Finish(Ok::<(), FetchError>(())),
            Some(Event::ErrorLoadingJob(e)) => s == PollStep::Finish(
                Err::<(), FetchError>(FetchError::FailedLoadingJob(e)),
            ),
            Some(Event::FailedToAcquireConnection(e)) => s == PollStep::Finish(
                Err::<(), FetchError>(FetchError::NoDatabaseConnection(e)),
            ),
            None => s == PollStep::Finish(Err::<(), FetchError>(FetchError::NoMessageReceived)),
        },
{
    match event {
        Some(Event::Working) => PollStep::Continue,
        Some(Event::NoJobAvailable) => PollStep::Finish(Ok(())),
        Some(Event::ErrorLoadingJob(e)) => PollStep::Finish(
            Err(FetchError::FailedLoadingJob(e)),
        ),
        Some(Event::FailedToAcquireConnection(e)) => PollStep::Finish(
            Err(FetchError::NoDatabaseConnection(e)),
        ),
        None => PollStep::Finish(Err(FetchError::NoMessageReceived)),
    }
}

/// A row that has just recorded a failure is not visible again at the same
/// instant: its backoff is at least a minute.
pub proof fn lemma_failed_row_invisible(r: JobRow, now: u64)
    requires
        r.retries < u32::MAX,
    ensures
        !row_visible(fail_row(r, now), now),
        !row_visible(unlock_row(fail_row(r, now)), now),
{
    lemma_pow2_pos(((r.retries + 1) as u32) as nat);
    assert(backoff_spec((r.retries + 1) as u32) >= 60);
}

/// One worker claim attempt, as run on a pooled connection inside one
/// transaction: claim the next visible row, run its handler behind the
/// isolation boundary (its success or failure arrives here as
/// `handler_ok`), then delete the row or record the failure, and commit.
/// The returned event is what the worker reports to the polling loop.
pub fn run_claim_attempt(store: &mut JobStore, now: u64, handler_ok: bool) -> (ev: Event)
    requires
        old(store).wf(),
        first_visible(old(store)@, now) >= 0 ==> old(store)@[first_visible(
            old(store)@,
            now,
        )].retries < u32::MAX,
    ensures
        final(store).wf(),
        ({
            let fv = first_visible(old(store)@, now);
            if fv == -1 {
                ev == Event::NoJobAvailable && final(store)@ =~= old(store)@
            } else {
                &&& ev == Event::Working
                &&& handler_ok ==> final(store)@ =~= old(store)@.remove(fv)
                &&& !handler_ok ==> final(store)@ =~= old(store)@.update(
                    fv,
                    unlock_row(fail_row(old(store)@[fv], now)),
                )
            }
        }),
{
    let ghost s = old(store)@;
    let claim = store.claim_next(now);
    match claim {
        None => Event::NoJobAvailable,
        Some(id) => {
            let ghost fv = first_visible(s, now);
            proof {
                lemma_first_visible(s, now);
                assert(forall|k: int| 0 <= k < store@.len() ==> store@[k].id == s[k].id);
                assert forall|j: int| 0 <= j < fv implies store@[j].id != id by {
                    assert(s[j].id < s[fv].id);
                }
                lemma_index_of_id_is(store@, id, fv);
            }
            if handler_ok {
                store.delete_on_success(id);
                proof {
                    assert(store@ =~= s.remove(fv));
                }
            } else {
                store.mark_failed(id, now);
                let ghost s2 = s.update(fv, lock_row(s[fv])).update(
                    fv,
                    fail_row(lock_row(s[fv]), now),
                );
                proof {
                    assert(store@ =~= s2);
                    assert(forall|k: int| 0 <= k < store@.len() ==> store@[k].id == s[k].id);
                    assert forall|j: int| 0 <= j < fv implies store@[j].id != id by {
                        assert(s[j].id < s[fv].id);
                    }
                    lemma_index_of_id_is(store@, id, fv);
                }
                store.release(id);
                proof {
                    assert(store@ =~= s.update(fv, unlock_row(fail_row(s[fv], now))));
                }
            }
            Event::Working
        },
    }
}

/// How many rows are visible to claiming at time `now`.
pub open spec fn visible_count(s: Seq<JobRow>, now: u64) -> nat
    decreases s.len(),
{
    if s.len() == 0 {
        0
    } else {
        (if row_visible(s[0], now) {
            1nat
        } else {
            0nat
        }) + visible_count(s.drop_first(), now)
    }
}

/// The table after one full drain at time `now`: walking the rows in claim
/// order, each visible row is deleted when its handler succeeds (the next
/// entry of `outcomes`) and kept with one more recorded failure when it
/// fails; invisible rows are untouched.
pub open spec fn drained(s: Seq<JobRow>, now: u64, outcomes: Seq<bool>) -> Seq<JobRow>
    decreases s.len(),
{
    if s.len() == 0 {
        Seq::<JobRow>::empty()
    } else if row_visible(s[0], now) && outcomes.len() > 0 {
        if outcomes[0] {
            drained(s.drop_first(), now, outcomes.drop_first())
        } else {
            seq![unlock_row(fail_row(s[0], now))] + drained(
                s.drop_first(),
                now,
                outcomes.drop_first(),
            )
        }
    } else {
        seq![s[0]] + drained(s.drop_first(), now, outcomes)
    }
}

/// A table with nothing visible drains to itself.
proof fn lemma_drained_no_visible(s: Seq<JobRow>, now: u64, outcomes: Seq<bool>)
    requires
        forall|i: int| 0 <= i < s.len() ==> !row_visible(s[i], now),
    ensures
        drained(s, now, outcomes) =~= s,
    decreases s.len(),
{
    if s.len() > 0 {
        assert forall|i: int| 0 <= i < s.drop_first().len() implies !row_visible(
            s.drop_first()[i],
            now,
        ) by {
            assert(s.drop_first()[i] == s[i + 1]);
        }
        lemma_drained_no_visible(s.drop_first(), now, outcomes);
    }
}

/// Resolving the first visible row consumes exactly one outcome and one
/// unit of visible work.
proof fn lemma_drained_step(s: Seq<JobRow>, now: u64, outcomes: Seq<bool>)
    requires
        first_visible(s, now) >= 0,
        outcomes.len() > 0,
        s[first_visible(s, now)].retries < u32::MAX,
    ensures
        outcomes[0] ==> drained(s, now, outcomes) =~= drained(
            s.remove(first_visible(s, now)),
            now,
            outcomes.drop_first(),
        ),
        !outcomes[0] ==> drained(s, now, outcomes) =~= drained(
            s.update(first_visible(s, now), unlock_row(fail_row(s[first_visible(s, now)], now))),
            now,
            outcomes.drop_first(),
        ),
        visible_count(s.remove(first_visible(s, now)), now) == visible_count(s, now) - 1,
        visible_count(
            s.update(first_visible(s, now), unlock_row(fail_row(s[first_visible(s, now)], now))),
            now,
        ) == visible_count(s, now) - 1,
    decreases s.len(),
{
    let fv = first_visible(s, now);
    lemma_first_visible(s, now);
    if row_visible(s[0], now) {
        assert(fv == 0);
        lemma_failed_row_invisible(s[0], now);
        if !outcomes[0] {
            let s2 = s.update(0, unlock_row(fail_row(s[0], now)));
            assert(s2.drop_first() =~= s.drop_first());
            assert(drained(s2, now, outcomes.drop_first()) =~= seq![s2[0]] + drained(
                s.drop_first(),
                now,
                outcomes.drop_first(),
            ));
        } else {
            assert(s.remove(0) =~= s.drop_first());
        }
        let s2 = s.update(0, unlock_row(fail_row(s[0], now)));
        assert(s2.drop_first() =~= s.drop_first());
        assert(visible_count(s2, now) == visible_count(s.drop_first(), now));
        assert(visible_count(s.remove(0), now) == visible_count(s.drop_first(), now));
    } else {
        assert(fv >= 1);
        let rest = s.drop_first();
        assert(first_visible(rest, now) == fv - 1);
        assert(rest[fv - 1] == s[fv]);
        lemma_drained_step(rest, now, outcomes);
        let r1 = s.remove(fv);
        assert(r1[0] == s[0]);
        assert(r1.drop_first() =~= rest.remove(fv - 1));
        assert(drained(r1, now, outcomes.drop_first()) =~= seq![s[0]] + drained(
            rest.remove(fv - 1),
            now,
            outcomes.drop_first(),
        ));
        let u1 = s.update(fv, unlock_row(fail_row(s[fv], now)));
        assert(u1[0] == s[0]);
        assert(!row_visible(u1[0], now));
        assert(u1.drop_first() =~= rest.update(fv - 1, unlock_row(fail_row(rest[fv - 1], now))));
        assert(visible_count(r1, now) == visible_count(rest.remove(fv - 1), now));
        assert(visible_count(u1, now) == (if row_visible(s[0], now) {
            1nat
        } else {
            0nat
        }) + visible_count(u1.drop_first(), now));
    }
}

/// The runner: a fixed thread budget, the bounded wait for the next status
/// event, and the dead-letter threshold used by health checks.
pub struct Runner {
    /// Capacity of the worker thread pool.
    pub max_threads: usize,
    /// How long the polling loop waits for the next status event, in
    /// seconds, before it declares the run stuck.
    pub job_start_timeout_secs: u64,
    /// How many recorded failures flag a row for manual attention.
    pub dead_letter_threshold: u32,
}

impl Runner {
    /// A runner with the given thread budget, event timeout and dead-letter
    /// threshold.
    pub fn new(max_threads: usize, job_start_timeout_secs: u64, dead_letter_threshold: u32) -> (r:
        Runner)
        ensures
            r.max_threads == max_threads,
            r.job_start_timeout_secs == job_start_timeout_secs,
            r.dead_letter_threshold == dead_letter_threshold,
    {
        Runner { max_threads, job_start_timeout_secs, dead_letter_threshold }
    }

    /// Runs all pending jobs in the queue: claim attempts are issued and
    /// their status events consumed until some attempt observes an empty
    /// queue. Each claimed row's handler outcome arrives as the next entry
    /// of `outcomes`; the run returns success once claiming has been
    /// attempted exhaustively, with every row that was visible at `now`
    /// either deleted (success) or kept with exactly one more recorded
    /// failure, and every other row untouched.
    pub fn run_all_pending_jobs(&self, store: &mut JobStore, now: u64, outcomes: &Vec<bool>) -> (r:
        Result<(), FetchError>)
        requires
            old(store).wf(),
            outcomes@.len() >= visible_count(old(store)@, now),
            forall|i: int|
                0 <= i < old(store)@.len() && row_visible(old(store)@[i], now) ==> old(
                    store,
                )@[i].retries < u32::MAX,
        ensures
            final(store).wf(),
            r == Ok::<(), FetchError>(()),
            final(store)@ =~= drained(old(store)@, now, outcomes@),
    {
        let mut consumed: usize = 0;
        proof {
            assert(outcomes@.skip(0) =~= outcomes@);
        }
        loop
            invariant
                store.wf(),
                consumed <= outcomes@.len(),
                outcomes@.len() - consumed >= visible_count(store@, now),
                drained(old(store)@, now, outcomes@) =~= drained(
                    store@,
                    now,
                    outcomes@.skip(consumed as int),
                ),
                forall|i: int|
                    0 <= i < store@.len() && row_visible(store@[i], now) ==> store@[i].retries
                        < u32::MAX,
            decreases visible_count(store@, now),
        {
            let ghost pre = store@;
            let handler_ok = if consumed < outcomes.len() {
                outcomes[consumed]
            } else {
                true
            };
            proof {
                lemma_first_visible(pre, now);
                if first_visible(pre, now) >= 0 {
                    lemma_visible_count_at_least_one(pre, now);
                }
            }
            let ev = run_claim_attempt(store, now, handler_ok);
            match poll_step(Some(ev)) {
                PollStep::Continue => {
                    proof {
                        let fv = first_visible(pre, now);
                        lemma_drained_step(pre, now, outcomes@.skip(consumed as int));
                        assert(outcomes@.skip(consumed as int)[0] == outcomes@[consumed as int]);
                        assert(outcomes@.skip(consumed as int).drop_first() =~= outcomes@.skip(
                            consumed as int + 1,
                        ));
                        assert forall|i: int|
                            0 <= i < store@.len() && row_visible(store@[i], now) implies
                            store@[i].retries < u32::MAX by {
                            if handler_ok {
                                let pi = if i < fv {
                                    i
                                } else {
                                    i + 1
                                };
                                assert(store@[i] == pre[pi]);
                            } else {
                                if i != fv {
                                    assert(store@[i] == pre[i]);
                                } else {
                                    lemma_failed_row_invisible(pre[fv], now);
                                }
                            }
                        }
                    }
                    consumed = consumed + 1;
                },
                PollStep::Finish(r) => {
                    proof {
                        lemma_first_visible(pre, now);
                        lemma_drained_no_visible(store@, now, outcomes@.skip(consumed as int));
                    }
                    return r;
                },
            }
        }
    }

    /// The decision taken after the thread pool has been joined: any worker
    /// thread that terminated abnormally is a broken invariant, fatal to
    /// the process, not a per-job failure.
    pub fn wait_for_jobs(&self, panic_count: u64) -> (r: Result<(), FailedJobsError>)
        ensures
            r == if panic_count == 0 {
                Ok::<(), FailedJobsError>(())
            } else {
                Err::<(), FailedJobsError>(FailedJobsError::ThreadsPanicked(panic_count))
            },
    {
        if panic_count == 0 {
            Ok(())
        } else {
            Err(FailedJobsError::ThreadsPanicked(panic_count))
        }
    }

    /// Operational health check: after the pool has drained (with
    /// `panic_count` abnormal terminations), succeed exactly when no worker
    /// thread died and no row sits at or above the dead-letter threshold.
    pub fn check_for_failed_jobs(&self, store: &JobStore, panic_count: u64) -> (r: Result<
        (),
        FailedJobsError,
    >)
        ensures
            r == Ok::<(), FailedJobsError>(()) <==> panic_count == 0 && count_failed_spec(
                store@,
                self.dead_letter_threshold,
            ) == 0,
            panic_count != 0 ==> r == Err::<(), FailedJobsError>(
                FailedJobsError::ThreadsPanicked(panic_count),
            ),
            panic_count == 0 && count_failed_spec(store@, self.dead_letter_threshold) != 0 ==> r
                == Err::<(), FailedJobsError>(
                FailedJobsError::JobsFailed(
                    count_failed_spec(store@, self.dead_letter_threshold) as u64,
                ),
            ),
    {
        match self.wait_for_jobs(panic_count) {
            Err(e) => Err(e),
            Ok(()) => {
                let failed_jobs = store.count_failed(self.dead_letter_threshold);
                if failed_jobs == 0 {
                    Ok(())
                } else {
                    Err(FailedJobsError::JobsFailed(failed_jobs))
                }
            },
        }
    }
}

/// How many visible rows precede position `i` in claim order; the handler
/// outcome consumed for a visible row is the one at its rank.
pub open spec fn visible_rank(s: Seq<JobRow>, now: u64, i: int) -> nat {
    visible_count(s.take(i), now)
}

/// A visible row's rank lies below the total visible count.
pub proof fn lemma_visible_rank_lt(s: Seq<JobRow>, now: u64, i: int)
    requires
        0 <= i < s.len(),
        row_visible(s[i], now),
    ensures
        visible_rank(s, now, i) < visible_count(s, now),
    decreases s.len(),
{
    let rest = s.drop_first();
    if i == 0 {
        assert(s.take(0) =~= Seq::<JobRow>::empty());
    } else {
        assert(rest[i - 1] == s[i]);
        lemma_visible_rank_lt(rest, now, i - 1);
        assert(s.take(i).drop_first() =~= rest.take(i - 1));
        assert(s.take(i)[0] == s[0]);
    }
}

/// A drain invents no rows: every identity in the drained table was in the
/// table before.
proof fn lemma_drained_ids_subset(s: Seq<JobRow>, now: u64, outcomes: Seq<bool>, id: u64)
    requires
        contains_id(drained(s, now, outcomes), id),
    ensures
        contains_id(s, id),
    decreases s.len(),
{
    if s.len() > 0 {
        let d = drained(s, now, outcomes);
        let rest = s.drop_first();
        let j = choose|j: int| 0 <= j < d.len() && d[j].id == id;
        if row_visible(s[0], now) && outcomes.len() > 0 {
            if outcomes[0] {
                lemma_drained_ids_subset(rest, now, outcomes.drop_first(), id);
            } else {
                if j == 0 {
                    assert(s[0].id == id);
                } else {
                    assert(drained(rest, now, outcomes.drop_first())[j - 1].id == id);
                    lemma_drained_ids_subset(rest, now, outcomes.drop_first(), id);
                }
            }
        } else {
            if j == 0 {
                assert(s[0].id == id);
            } else {
                assert(drained(rest, now, outcomes)[j - 1].id == id);
                lemma_drained_ids_subset(rest, now, outcomes, id);
            }
        }
        if contains_id(rest, id) {
            let k = choose|k: int| 0 <= k < rest.len() && rest[k].id == id;
            assert(s[k + 1].id == id);
        }
    }
}

/// At-most-once completion across polling runs: an identity absent from
/// the table — a job already deleted — is still absent after any further
/// drain, so a completed job is never observed again.
pub proof fn lemma_completed_job_stays_gone(s: Seq<JobRow>, now: u64, outcomes: Seq<bool>, id: u64)
    requires
        !contains_id(s, id),
    ensures
        !contains_id(drained(s, now, outcomes), id),
{
    if contains_id(drained(s, now, outcomes), id) {
        lemma_drained_ids_subset(s, now, outcomes, id);
    }
}

/// Liveness of one full drain, row by row: a row that was visible at `now`
/// is gone when its handler succeeded and kept with exactly one more
/// recorded failure when it failed; a row that was not visible is kept
/// untouched.
pub proof fn lemma_drain_resolves_every_job(s: Seq<JobRow>, now: u64, outcomes: Seq<bool>, i: int)
    requires
        ids_sorted(s),
        outcomes.len() >= visible_count(s, now),
        0 <= i < s.len(),
    ensures
        !row_visible(s[i], now) ==> exists|j: int|
            0 <= j < drained(s, now, outcomes).len() && drained(s, now, outcomes)[j] == s[i],
        row_visible(s[i], now) && outcomes[visible_rank(s, now, i) as int] ==> !contains_id(
            drained(s, now, outcomes),
            s[i].id,
        ),
        row_visible(s[i], now) && !outcomes[visible_rank(s, now, i) as int] ==> exists|j: int|
            0 <= j < drained(s, now, outcomes).len() && drained(s, now, outcomes)[j] == unlock_row(
                fail_row(s[i], now),
            ),
    decreases s.len(),
{
    let d = drained(s, now, outcomes);
    let rest = s.drop_first();
    assert forall|p: int, q: int| 0 <= p < q < rest.len() implies rest[p].id < rest[q].id by {
        assert(rest[p] == s[p + 1] && rest[q] == s[q + 1]);
    }
    if row_visible(s[0], now) {
        assert(visible_count(s, now) >= 1);
        assert(outcomes.len() > 0);
        let oc2 = outcomes.drop_first();
        if i == 0 {
            assert(s.take(0) =~= Seq::<JobRow>::empty());
            assert(visible_rank(s, now, 0) == 0);
            if outcomes[0] {
                if contains_id(drained(rest, now, oc2), s[0].id) {
                    lemma_drained_ids_subset(rest, now, oc2, s[0].id);
                    let k = choose|k: int| 0 <= k < rest.len() && rest[k].id == s[0].id;
                    assert(s[k + 1].id == s[0].id);
                    assert(s[0].id < s[k + 1].id);
                }
            } else {
                assert(d[0] == unlock_row(fail_row(s[0], now)));
            }
        } else {
            assert(s.take(i).drop_first() =~= rest.take(i - 1));
            assert(s.take(i)[0] == s[0]);
            assert(visible_rank(s, now, i) == 1 + visible_rank(rest, now, i - 1));
            assert(rest[i - 1] == s[i]);
            lemma_drain_resolves_every_job(rest, now, oc2, i - 1);
            let d2 = drained(rest, now, oc2);
            if row_visible(s[i], now) {
                lemma_visible_rank_lt(s, now, i);
                assert(oc2[visible_rank(rest, now, i - 1) as int] == outcomes[visible_rank(
                    s,
                    now,
                    i,
                ) as int]);
            }
            if outcomes[0] {
                assert(d =~= d2);
            } else {
                assert(d =~= seq![unlock_row(fail_row(s[0], now))] + d2);
                if row_visible(s[i], now) && outcomes[visible_rank(s, now, i) as int] {
                    assert forall|j: int| 0 <= j < d.len() implies d[j].id != s[i].id by {
                        if j == 0 {
                            assert(d[0].id == s[0].id);
                            assert(s[0].id < s[i].id);
                        } else {
                            assert(d[j] == d2[j - 1]);
                        }
                    }
                } else if row_visible(s[i], now) {
                    let w = choose|j: int|
                        0 <= j < d2.len() && d2[j] == unlock_row(fail_row(s[i], now));
                    assert(d[w + 1] == d2[w]);
                } else {
                    let w = choose|j: int| 0 <= j < d2.len() && d2[j] == s[i];
                    assert(d[w + 1] == d2[w]);
                }
            }
        }
    } else {
        assert(d =~= seq![s[0]] + drained(rest, now, outcomes));
        let d2 = drained(rest, now, outcomes);
        if i == 0 {
            assert(d[0] == s[0]);
        } else {
            assert(s.take(i).drop_first() =~= rest.take(i - 1));
            assert(s.take(i)[0] == s[0]);
            assert(visible_rank(s, now, i) == visible_rank(rest, now, i - 1));
            assert(rest[i - 1] == s[i]);
            lemma_drain_resolves_every_job(rest, now, outcomes, i - 1);
            if row_visible(s[i], now) && outcomes[visible_rank(s, now, i) as int] {
                assert forall|j: int| 0 <= j < d.len() implies d[j].id != s[i].id by {
                    if j == 0 {
                        assert(d[0].id == s[0].id);
                        assert(s[0].id < s[i].id);
                    } else {
                        assert(d[j] == d2[j - 1]);
                    }
                }
            } else if row_visible(s[i], now) {
                let w = choose|j: int| 0 <= j < d2.len() && d2[j] == unlock_row(fail_row(s[i], now));
                assert(d[w + 1] == d2[w]);
            } else {
                let w = choose|j: int| 0 <= j < d2.len() && d2[j] == s[i];
                assert(d[w + 1] == d2[w]);
            }
        }
    }
}

/// Chooses the diagnostic recorded for a handler that terminated
/// abnormally. The isolation boundary hands over whichever diagnostic
/// forms it could extract from the termination payload; they are taken in
/// a fixed preference order — structured panic report, static text
/// message, owned text message — and with none of them the generic
/// message stands alone.
pub fn try_to_extract_panic_info(
    info: Option<String>,
    static_msg: Option<&str>,
    owned_msg: Option<String>,
) -> (m: String)
    ensures
        info matches Some(s) ==> m@ == "job panicked: "@ + s@,
        info is None ==> (static_msg matches Some(s) ==> m@ == "job panicked: "@ + s@),
        info is None && static_msg is None ==> (owned_msg matches Some(s) ==> m@
            == "job panicked: "@ + s@),
        info is None && static_msg is None && owned_msg is None ==> m@ == "job panicked"@,
{
    let prefix = String::from_str("job panicked: ");
    match info {
        Some(s) => prefix.concat(s.as_str()),
        None => match static_msg {
            Some(s) => prefix.concat(s),
            None => match owned_msg {
                Some(s) => prefix.concat(s.as_str()),
                None => String::from_str("job panicked"),
            },
        },
    }
}

/// A table whose first visible row exists has visible work.
proof fn lemma_visible_count_at_least_one(s: Seq<JobRow>, now: u64)
    requires
        first_visible(s, now) >= 0,
    ensures
        visible_count(s, now) >= 1,
    decreases s.len(),
{
    if s.len() > 0 && !row_visible(s[0], now) {
        lemma_visible_count_at_least_one(s.drop_first(), now);
    }
}

} // verus!
