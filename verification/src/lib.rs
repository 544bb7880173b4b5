//! A session recorder library: an append-only log of timestamped slider
//! samples collected during one recording session, together with an export
//! pipeline that serializes the log to CSV, derives a collision-free file
//! name from the session start time, validates recording names, and bundles
//! a set of named CSV buffers into a single ZIP archive.

pub mod errors;
pub mod sample_log;
pub mod codec;
pub mod naming;
pub mod storage;
pub mod archive;
pub mod export;
