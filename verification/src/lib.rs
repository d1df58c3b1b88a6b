//! Orchestration core of a benchmarking harness for interchangeable execution
//! engines ("runners") and a fixed suite of workloads ("benchmarks").
//!
//! The crate holds the decisions of the harness and nothing that touches the
//! outside world: which arguments an isolated instance is started with, in
//! which order the steps of one execution follow each other, how the captured
//! output is read as a list of timings, how the pairs of the matrix are walked,
//! and how the recorded runs are turned into a comparative report. The
//! functions carry contracts, and Verus holds the code to them; the few
//! calls into other crates are described where they stand.

pub mod benchmarks;
pub mod coordinator;
pub mod driver;
pub mod hexadecimal;
pub mod metadata;
pub mod ranking;
pub mod results;
pub mod runners;
pub mod runs;
pub mod snapshots;
pub mod text;
pub mod time;
pub mod timing;

pub use benchmarks::Benchmark;
pub use runners::Runner;
pub use runs::Run;
