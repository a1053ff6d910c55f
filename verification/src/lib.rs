//! Match-and-score engine for benchmarking static-analysis (SAST) tools.
//!
//! Given a set of ground-truth findings and a pool of tool-reported findings,
//! the library decides how well each tool finding corresponds to each expected
//! finding — using a CWE weakness-taxonomy partial order and a source-region
//! containment order — and aggregates the per-finding verdicts into
//! precision/recall-style statistics that can be rolled up over a directory
//! tree of benchmarks.
//!
//! All I/O (reading reports, writing cards) is left to callers: every function
//! here is a pure computation over in-memory values, and every public function
//! carries a contract checked by Verus.

pub mod compare;
pub mod config;
pub mod description;
pub mod directory;
pub mod metadata;
pub mod report_config;
pub mod summarize;
pub mod taxonomy;
pub mod truth;
