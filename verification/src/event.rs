//! Status events and terminal errors of the polling loop.

use vstd::prelude::*;

verus! {

/// Status produced by exactly one worker claim attempt and consumed by
/// exactly one iteration of the polling loop.
#[derive(Clone, Debug, PartialEq, Eq)]
pub enum Event {
    /// A row was claimed; the worker is about to execute its handler.
    Working,
    /// A worker observed an empty (fully locked or drained) queue.
    NoJobAvailable,
    /// The claim query itself failed.
    ErrorLoadingJob(String),
    /// No database connection could be acquired for the attempt.
    FailedToAcquireConnection(String),
}

/// Terminal outcome of one polling run.
#[derive(Clone, Debug, PartialEq, Eq)]
pub enum FetchError {
    /// The claim query failed.
    FailedLoadingJob(String),
    /// No database connection could be acquired.
    NoDatabaseConnection(String),
    /// No status event arrived within the configured timeout.
    NoMessageReceived,
}

/// Failure state surfaced by the drain / health-check path.
#[derive(Clone, Debug, PartialEq, Eq)]
pub enum FailedJobsError {
    /// This many jobs sit at or above the dead-letter threshold.
    JobsFailed(u64),
    /// This many worker threads terminated abnormally; a bug, not a
    /// normal job failure, since handler crashes are already isolated.
    ThreadsPanicked(u64),
}

} // verus!
