//! A continuous-testing engine for version-controlled source trees: the test
//! graph, the resource pool, the per-test-case scheduling rules, the result
//! cache's keys and records, the revision watcher's debounce and the status
//! display, each with its contract.
pub mod dag;
pub mod git;
pub mod watch;
pub mod util;
pub mod resource;
pub mod testspec;
pub mod digest;
pub mod pattern;
pub mod config;
pub mod scheduler;
pub mod cache;
pub mod status;
