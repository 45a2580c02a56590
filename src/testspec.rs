//! A test as the scheduler sees it, and the records that describe a run.
use vstd::prelude::*;
use crate::dag::GraphNode;
use crate::resource::ResourceKey;

verus! {

/// What identifies a test's result in the cache, beyond the test itself.
#[derive(Debug, Clone, Copy, PartialEq, Eq, Structural)]
pub enum CachePolicy {
    /// Never cached: every attempt runs.
    NoCache,
    /// Keyed by the commit hash.
    ByCommit,
    /// Keyed by the tree hash: commits with the same content share results.
    ByTree,
}

/// A test of the configuration, lowered for the scheduler.
#[derive(Debug, Clone)]
pub struct TestSpec {
    pub name: String,
    pub program: String,
    pub args: Vec<String>,
    /// For each key, how many tokens a job needs; keys are distinct.
    pub needs_resources: Vec<(ResourceKey, usize)>,
    pub shutdown_grace_period_s: u64,
    pub cache_policy: CachePolicy,
    /// Lowercase hex of the SHA3-256 digest of the test's configuration and
    /// of the hashes of its dependencies.
    pub config_hash: String,
    pub depends_on: Vec<String>,
    /// Exit codes that mean an error of the environment rather than a failure.
    pub error_exit_codes: Vec<i32>,
    pub separate_outputs: bool,
}

pub open spec fn texts(v: Seq<String>) -> Seq<Seq<char>> {
    v.map_values(|s: String| s@)
}

impl GraphNode for TestSpec {
    open spec fn spec_id(&self) -> Seq<char> {
        self.name@
    }

    open spec fn spec_child_ids(&self) -> Seq<Seq<char>> {
        texts(self.depends_on@)
    }

    fn id(&self) -> (r: &String) {
        &self.name
    }

    fn child_ids(&self) -> (r: &Vec<String>) {
        &self.depends_on
    }
}

} // verus!
