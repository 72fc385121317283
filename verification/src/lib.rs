//! A background-job runtime for a package-registry service.
//!
//! Deferred work items live as rows in a relational table. A runner owns a
//! fixed-size thread pool and a polling loop; workers claim one unlocked row
//! each inside a transaction, execute the resolved handler, and report a
//! status event back to the loop. The claim/execute/report discipline, the
//! polling-loop state machine, and the failure bookkeeping are verified here
//! over an explicit model of the job table; the database, thread-pool, and
//! channel plumbing live outside the library.

pub mod config;
pub mod dispatch;
pub mod event;
pub mod runner;
pub mod store;
pub mod strutil;
pub mod yank;
