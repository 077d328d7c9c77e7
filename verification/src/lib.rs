//! A persistent registry of long-running worker tasks.
//!
//! Each task gets a globally parseable identity; its liveness is recorded
//! durably across process restarts and shared with sibling processes
//! through an active list, an append-only archive with rotation and
//! retention, and per-task log files.  The consolidation protocol keeps the
//! in-memory registry and the shared files consistent, recovering the
//! outcome of a task whose owning process died from that task's own log.
//! Cancellation is cooperative, with abort listeners that can never miss
//! their wakeup.
//!
//! All file contents are handled as byte strings; reading files, clocks,
//! processes and sockets is the embedding application's part, handed in as
//! plain values.

pub mod bytes;
pub mod hex;
pub mod task_state;
pub mod upid;
pub mod listinfo;
pub mod store;
pub mod timefmt;
pub mod task_log;
pub mod worker;
pub mod rate_limiter;
pub mod cli;
pub mod sendmail;
pub mod repository;
pub mod context;
