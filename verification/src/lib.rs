//! Speaker-attributed transcript assembly.
//!
//! The crate merges two time-ordered streams — speaker segments from recording
//! metadata and word tokens from an asynchronous transcription backend — into a
//! speaker-attributed transcript, and drives the decisions of the backend job
//! lifecycle (submit, poll, resolve). All timestamps are integer time units
//! (callers pick the resolution, e.g. milliseconds).

pub mod align;
pub mod assemble;
pub mod job;
pub mod json;
pub mod media;
