//! Verified core of a recurring media-library analysis pipeline.
//!
//! The pipeline scans configured libraries on a schedule, decodes each
//! audio file to raw samples, computes an acoustic fingerprint through a
//! fault-isolated analysis call, and persists the fingerprint in a durable
//! key/value cache so that later runs skip files already analyzed. Partial
//! failures — unreadable directories, undecodable files, analysis crashes,
//! cache errors — never abort a run: each degrades to "this file is not yet
//! cached" and the next scheduled run retries it.

pub mod analyzer;
pub mod cache;
pub mod control;
pub mod decoder;
pub mod orchestrator;
