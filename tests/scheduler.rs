use limmat::cache::{decode_record, encode_record};
use limmat::dag::Dag;
use limmat::git::{Commit, CommitHash, TreeHash};
use limmat::resource::{token_env, Pools, ResourceKey};
use limmat::scheduler::{fingerprint, outcome_of_exit, Action, CaseState, JobOutcome, Scheduler, TestStatus, DEFAULT_MAX_RUNNING};
use limmat::testspec::{CachePolicy, TestSpec};

fn spec(name: &str, deps: &[&str], needs: Vec<(ResourceKey, usize)>, policy: CachePolicy, errs: Vec<i32>) -> TestSpec {
    TestSpec {
        name: name.to_string(),
        program: "true".to_string(),
        args: vec![],
        needs_resources: needs,
        shutdown_grace_period_s: 60,
        cache_policy: policy,
        config_hash: format!("hash-of-{name}"),
        depends_on: deps.iter().map(|d| d.to_string()).collect(),
        error_exit_codes: errs,
        separate_outputs: false,
    }
}

fn commit(h: &str, t: &str) -> Commit {
    Commit { hash: CommitHash::new(h.to_string()), tree: TreeHash::new(t.to_string()) }
}

fn pools_with(key: ResourceKey, tokens: &[&str]) -> Pools {
    let mut p = Pools::empty();
    assert!(p.insert(key, tokens.iter().map(|t| t.to_string()).collect()));
    p
}

fn started(actions: &[Action]) -> Vec<usize> {
    actions.iter().filter_map(|a| if let Action::Start(x) = a { Some(*x) } else { None }).collect()
}

#[test]
fn simple_success_is_cached() {
    let dag = Dag::new(vec![spec("t", &[], vec![], CachePolicy::ByCommit, vec![])]).unwrap();
    let mut s = Scheduler::new(dag, Pools::empty(), DEFAULT_MAX_RUNNING);
    let (actions, notes) = s.set_revisions(&vec![commit("c1", "t1")]);
    assert_eq!(actions, vec![Action::LookUpCache(0)]);
    assert!(matches!(notes[0].status, TestStatus::Enqueued));
    let n = s.on_cache_result(0, None);
    assert!(matches!(n.status, TestStatus::BlockedOnDep));
    let (actions, notes) = s.advance();
    assert_eq!(started(&actions), vec![0]);
    assert!(notes.iter().any(|n| matches!(n.status, TestStatus::Started)));
    let notes = s.on_exit(0, 0);
    assert!(matches!(notes[0].status, TestStatus::Completed(0)));
    assert_eq!(s.cases[0].state, CaseState::Completed(0));
    // The outcome is stored, and a second run finds it without starting.
    let outcome = outcome_of_exit(0, &vec![]);
    let record = encode_record(&outcome).expect("a success is cached");
    let dag = Dag::new(vec![spec("t", &[], vec![], CachePolicy::ByCommit, vec![])]).unwrap();
    let mut s = Scheduler::new(dag, Pools::empty(), DEFAULT_MAX_RUNNING);
    let (actions, _) = s.set_revisions(&vec![commit("c1", "t1")]);
    assert_eq!(actions, vec![Action::LookUpCache(0)]);
    let hit = match decode_record(&record) {
        Some(JobOutcome::Success) => Some(0),
        Some(JobOutcome::Failure(c)) => Some(c),
        _ => None,
    };
    let n = s.on_cache_result(0, hit);
    assert!(matches!(n.status, TestStatus::Completed(0)));
    let (actions, _) = s.advance();
    assert!(started(&actions).is_empty());
}

#[test]
fn dependency_failure_blocks_dependent() {
    let dag = Dag::new(vec![
        spec("A", &[], vec![], CachePolicy::ByCommit, vec![]),
        spec("B", &["A"], vec![], CachePolicy::ByCommit, vec![]),
    ])
    .unwrap();
    let mut s = Scheduler::new(dag, Pools::empty(), DEFAULT_MAX_RUNNING);
    let (actions, _) = s.set_revisions(&vec![commit("c1", "t1")]);
    assert_eq!(actions.len(), 2);
    let a = s.cases.iter().position(|c| c.test == 0).unwrap();
    let b = s.cases.iter().position(|c| c.test == 1).unwrap();
    s.on_cache_result(a, None);
    s.on_cache_result(b, None);
    let (actions, _) = s.advance();
    assert_eq!(started(&actions), vec![a]);
    assert_eq!(s.cases[b].state, CaseState::BlockedOnDep);
    s.on_exit(a, 1);
    let (actions, notes) = s.advance();
    assert!(started(&actions).is_empty());
    assert_eq!(s.cases[b].state, CaseState::Errored);
    let msg = notes.iter().find(|n| n.case == b).map(|n| n.status.clone());
    assert!(matches!(msg, Some(TestStatus::Error(m)) if m == "dependency failed"));
}

#[test]
fn resource_contention_runs_one_at_a_time() {
    let need = vec![(ResourceKey::UserToken("lock".to_string()), 1)];
    let dag = Dag::new(vec![
        spec("t1", &[], need.clone(), CachePolicy::ByCommit, vec![]),
        spec("t2", &[], need, CachePolicy::ByCommit, vec![]),
    ])
    .unwrap();
    let pools = pools_with(ResourceKey::UserToken("lock".to_string()), &["lock-0"]);
    let mut s = Scheduler::new(dag, pools, DEFAULT_MAX_RUNNING);
    s.set_revisions(&vec![commit("c1", "t1")]);
    s.on_cache_result(0, None);
    s.on_cache_result(1, None);
    let (actions, _) = s.advance();
    let first = started(&actions);
    assert_eq!(first.len(), 1);
    let other = 1 - first[0];
    assert_eq!(s.cases[other].state, CaseState::BlockedOnResource);
    let alloc = s.allocs[first[0]].as_ref().unwrap();
    assert_eq!(alloc.grants[0].tokens, vec!["lock-0".to_string()]);
    s.on_exit(first[0], 0);
    let (actions, _) = s.advance();
    assert_eq!(started(&actions), vec![other]);
    s.on_exit(other, 0);
    assert_eq!(s.cases[0].state, CaseState::Completed(0));
    assert_eq!(s.cases[1].state, CaseState::Completed(0));
}

#[test]
fn revision_churn_aborts_superseded_work() {
    let need = vec![(ResourceKey::Worktree, 1)];
    let dag = Dag::new(vec![spec("t", &[], need, CachePolicy::ByCommit, vec![])]).unwrap();
    let pools = pools_with(ResourceKey::Worktree, &["/tmp/wt0"]);
    let mut s = Scheduler::new(dag, pools, DEFAULT_MAX_RUNNING);
    s.set_revisions(&vec![commit("c1", "t1")]);
    s.on_cache_result(0, None);
    let (actions, _) = s.advance();
    assert_eq!(started(&actions), vec![0]);
    assert!(!s.pools.free[0][0]);
    let (actions, notes) = s.set_revisions(&vec![commit("c2", "t2")]);
    assert!(actions.contains(&Action::Kill(0)));
    assert!(actions.contains(&Action::LookUpCache(1)));
    assert_eq!(s.cases[0].state, CaseState::Aborted);
    assert!(notes.iter().any(|n| n.case == 0 && matches!(n.status, TestStatus::Aborted)));
    assert!(notes.iter().any(|n| n.case == 1 && matches!(n.status, TestStatus::Enqueued)));
    assert!(s.pools.free[0][0]);
    s.on_cache_result(1, None);
    let (actions, _) = s.advance();
    assert_eq!(started(&actions), vec![1]);
    let alloc = s.allocs[1].as_ref().unwrap();
    assert_eq!(alloc.grants[0].tokens, vec!["/tmp/wt0".to_string()]);
}

#[test]
fn by_tree_dedup_runs_one_job() {
    let dag = Dag::new(vec![spec("t", &[], vec![], CachePolicy::ByTree, vec![])]).unwrap();
    let mut s = Scheduler::new(dag, Pools::empty(), DEFAULT_MAX_RUNNING);
    let c1 = commit("c1", "same-tree");
    let c2 = commit("c2", "same-tree");
    s.set_revisions(&vec![c1.clone(), c2.clone()]);
    s.on_cache_result(0, None);
    s.on_cache_result(1, None);
    let (actions, _) = s.advance();
    assert_eq!(started(&actions).len(), 1);
    let runner = started(&actions)[0];
    let notes = s.on_exit(runner, 3);
    assert_eq!(notes.len(), 2);
    assert_eq!(s.cases[0].state, CaseState::Completed(3));
    assert_eq!(s.cases[1].state, CaseState::Completed(3));
    let t = s.dag.get(0);
    let f1 = fingerprint(t, &c1).unwrap();
    let f2 = fingerprint(t, &c2).unwrap();
    assert_eq!(limmat::cache::artifact_dir(&f1), limmat::cache::artifact_dir(&f2));
}

#[test]
fn error_exit_is_not_cached() {
    let dag = Dag::new(vec![spec("t", &[], vec![], CachePolicy::ByCommit, vec![42])]).unwrap();
    let mut s = Scheduler::new(dag, Pools::empty(), DEFAULT_MAX_RUNNING);
    s.set_revisions(&vec![commit("c1", "t1")]);
    s.on_cache_result(0, None);
    s.advance();
    let notes = s.on_exit(0, 42);
    assert!(matches!(notes[0].status, TestStatus::Error(_)));
    assert_eq!(s.cases[0].state, CaseState::Errored);
    let outcome = outcome_of_exit(42, &vec![42]);
    assert!(matches!(outcome, JobOutcome::Error(_)));
    assert!(encode_record(&outcome).is_none());
    // With nothing stored, a second run looks up, misses and starts again.
    let dag = Dag::new(vec![spec("t", &[], vec![], CachePolicy::ByCommit, vec![42])]).unwrap();
    let mut s = Scheduler::new(dag, Pools::empty(), DEFAULT_MAX_RUNNING);
    s.set_revisions(&vec![commit("c1", "t1")]);
    s.on_cache_result(0, None);
    let (actions, _) = s.advance();
    assert_eq!(started(&actions), vec![0]);
}

#[test]
fn spawn_failure_releases_tokens() {
    let need = vec![(ResourceKey::Worktree, 1)];
    let dag = Dag::new(vec![spec("t", &[], need, CachePolicy::NoCache, vec![])]).unwrap();
    let mut s = Scheduler::new(dag, pools_with(ResourceKey::Worktree, &["w"]), DEFAULT_MAX_RUNNING);
    s.set_revisions(&vec![commit("c1", "t1")]);
    s.on_cache_result(0, None);
    s.advance();
    assert!(!s.pools.free[0][0]);
    let n = s.on_spawn_failed(0);
    assert!(matches!(n.status, TestStatus::Error(_)));
    assert!(s.pools.free[0][0]);
}

#[test]
fn no_cache_has_no_fingerprint() {
    let t = spec("t", &[], vec![], CachePolicy::NoCache, vec![]);
    assert!(fingerprint(&t, &commit("c1", "t1")).is_none());
    let t = spec("t", &[], vec![], CachePolicy::ByCommit, vec![]);
    let f = fingerprint(&t, &commit("c1", "t1")).unwrap();
    assert_eq!((f.test_name.as_str(), f.config_hash.as_str(), f.cache_key.as_str()), ("t", "hash-of-t", "c1"));
    let t = spec("t", &[], vec![], CachePolicy::ByTree, vec![]);
    assert_eq!(fingerprint(&t, &commit("c1", "t1")).unwrap().cache_key, "t1");
}

#[test]
fn exit_codes_map_to_outcomes() {
    assert!(matches!(outcome_of_exit(0, &vec![0]), JobOutcome::Success));
    assert!(matches!(outcome_of_exit(1, &vec![42]), JobOutcome::Failure(1)));
    assert!(matches!(outcome_of_exit(42, &vec![7, 42]), JobOutcome::Error(_)));
}

#[test]
fn running_jobs_are_capped() {
    let dag = Dag::new(vec![
        spec("a", &[], vec![], CachePolicy::NoCache, vec![]),
        spec("b", &[], vec![], CachePolicy::NoCache, vec![]),
    ])
    .unwrap();
    let mut s = Scheduler::new(dag, Pools::empty(), 1);
    s.set_revisions(&vec![commit("c1", "t1")]);
    s.on_cache_result(0, None);
    s.on_cache_result(1, None);
    let (actions, _) = s.advance();
    assert_eq!(started(&actions).len(), 1);
    let first = started(&actions)[0];
    s.on_exit(first, 0);
    let (actions, _) = s.advance();
    assert_eq!(started(&actions), vec![1 - first]);
}

#[test]
fn tokens_are_exported_by_resource_and_position() {
    let need = vec![(ResourceKey::UserToken("lock".to_string()), 2), (ResourceKey::Worktree, 1)];
    let mut pools = pools_with(ResourceKey::UserToken("lock".to_string()), &["a", "b", "c"]);
    assert!(pools.insert(ResourceKey::Worktree, vec!["/w".to_string()]));
    let alloc = pools.acquire(&need).unwrap();
    let env = token_env(&alloc);
    assert_eq!(
        env,
        vec![
            ("LIMMAT_RESOURCE_lock_0".to_string(), "a".to_string()),
            ("LIMMAT_RESOURCE_lock_1".to_string(), "b".to_string()),
        ]
    );
    assert!(pools.acquire(&vec![(ResourceKey::UserToken("lock".to_string()), 2)]).is_none());
    pools.release(alloc);
    assert!(pools.free.iter().all(|row| row.iter().all(|f| *f)));
}
