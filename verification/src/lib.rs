//! Verified core of a parallel, resumable, self-rebalancing range downloader
//! with a streaming checksum-and-decrypt pass.
//!
//! The modules here hold the logic that decides what the program does: how a
//! byte interval is partitioned into download tasks, how the coordinator
//! reacts to progress, completion, failure and interruption, how a worker
//! advances through its range, how the resumption state file is encoded and
//! decoded, and when the checksum comparison accepts a download. Network and file
//! I/O, the concurrent runtime and the command line live outside the library
//! and hand plain values in and out.

pub mod orchestrate;
pub mod paths;
pub mod pipeline;
pub mod range;
pub mod scheduler;
pub mod state;
pub mod worker;

pub use range::ByteRange;
