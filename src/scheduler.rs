//! The scheduling core: one state machine per (test, commit), kept in one
//! place, deciding what starts, what waits, what is cancelled and what is
//! cached. The caller performs the actions it returns (cache lookups, process
//! starts and kills) and reports back with events.
use vstd::prelude::*;
use crate::dag::{Dag, has_id};
use crate::git::Commit;
use crate::dag::GraphNode;
use crate::resource::{Allocation, Grant, Pools, grants, holds, keys_distinct, released};
use crate::testspec::{CachePolicy, TestSpec, texts};

verus! {

/// Where a test case stands.
#[derive(Debug, Clone, Copy, PartialEq, Eq, Structural)]
pub enum CaseState {
    Enqueued,
    BlockedOnDep,
    BlockedOnResource,
    Running,
    Completed(i32),
    /// Ended without a result worth caching: a dependency failed, the
    /// process could not start, or it exited with an error code.
    Errored,
    Aborted,
}

impl CaseState {
    /// A state that no event changes.
    pub open spec fn terminal(self) -> bool {
        self is Completed || self is Errored || self is Aborted
    }

    pub fn is_terminal(&self) -> (r: bool)
        ensures
            r == self.terminal(),
    {
        match self {
            CaseState::Completed(_) | CaseState::Errored | CaseState::Aborted => true,
            _ => false,
        }
    }
}

/// The outcome of one job.
#[derive(Debug, Clone)]
pub enum JobOutcome {
    Success,
    Failure(i32),
    Error(String),
    Aborted,
}

/// A status as shown to the user, broadcast on every transition.
#[derive(Debug, Clone)]
pub enum TestStatus {
    Enqueued,
    BlockedOnDep,
    BlockedOnResource,
    Started,
    Completed(i32),
    Error(String),
    Aborted,
}

/// A test of the graph at one commit.
#[derive(Debug, Clone)]
pub struct Case {
    /// Position of the test in the graph's insertion order.
    pub test: usize,
    pub commit: String,
    pub tree: String,
    pub state: CaseState,
}

/// What the caller must do.
#[derive(Debug, Clone, Copy, PartialEq, Eq, Structural)]
pub enum Action {
    /// Look the case up in the result cache and report with `on_cache_result`.
    LookUpCache(usize),
    /// Start the case's job with its allocation; report with `on_exit` or
    /// `on_spawn_failed`.
    Start(usize),
    /// Terminate the case's job: soft first, hard after the grace period.
    Kill(usize),
}

/// A status change of a case.
#[derive(Debug, Clone)]
pub struct Notification {
    pub case: usize,
    pub status: TestStatus,
}

/// What a lookup in the result cache is keyed by, beyond the test: the commit
/// or the tree, or nothing for a test that is never cached.
pub open spec fn spec_cache_key(p: CachePolicy, commit: Seq<char>, tree: Seq<char>) -> Option<Seq<char>> {
    match p {
        CachePolicy::NoCache => None,
        CachePolicy::ByCommit => Some(commit),
        CachePolicy::ByTree => Some(tree),
    }
}

pub fn cache_key(p: CachePolicy, commit: &String, tree: &String) -> (r: Option<String>)
    ensures
        r is Some <==> spec_cache_key(p, commit@, tree@) is Some,
        r is Some ==> r->Some_0@ == spec_cache_key(p, commit@, tree@)->Some_0,
{
    match p {
        CachePolicy::NoCache => None,
        CachePolicy::ByCommit => Some(commit.clone()),
        CachePolicy::ByTree => Some(tree.clone()),
    }
}

/// Where a result is cached: the test's name, its configuration hash and the
/// cache key.
pub struct Fingerprint {
    pub test_name: String,
    pub config_hash: String,
    pub cache_key: String,
}

/// The fingerprint of a test at a commit; `None` for a test that is never cached.
pub fn fingerprint(t: &TestSpec, c: &Commit) -> (r: Option<Fingerprint>)
    ensures
        r is None <==> t.cache_policy == CachePolicy::NoCache,
        r is Some ==> r->Some_0.test_name@ == t.name@ && r->Some_0.config_hash@ == t.config_hash@
            && Some(r->Some_0.cache_key@) == spec_cache_key(t.cache_policy, c.hash@, c.tree@),
{
    let commit = String::from_str(c.hash.as_str());
    let tree = String::from_str(c.tree.as_str());
    match cache_key(t.cache_policy, &commit, &tree) {
        None => None,
        Some(k) => Some(Fingerprint { test_name: t.name.clone(), config_hash: t.config_hash.clone(), cache_key: k }),
    }
}

/// The outcome that an exit code gives.
pub fn outcome_of_exit(code: i32, error_codes: &Vec<i32>) -> (r: JobOutcome)
    ensures
        code == 0 ==> r is Success,
        code != 0 && error_codes@.contains(code) ==> r is Error,
        code != 0 && !error_codes@.contains(code) ==> r == JobOutcome::Failure(code),
{
    if code == 0 {
        return JobOutcome::Success;
    }
    let mut k: usize = 0;
    while k < error_codes.len()
        invariant
            code != 0,
            0 <= k <= error_codes@.len(),
            forall|c: int| 0 <= c < k ==> error_codes@[c] != code,
        decreases error_codes@.len() - k,
    {
        if error_codes[k] == code {
            assert(error_codes@[k as int] == code);
            return JobOutcome::Error(String::from_str("exit code listed as an error"));
        }
        k += 1;
    }
    JobOutcome::Failure(code)
}

/// Only successes and plain failures are cached.
pub open spec fn spec_cacheable(o: JobOutcome) -> bool {
    o is Success || o is Failure
}

pub fn is_cacheable(o: &JobOutcome) -> (r: bool)
    ensures
        r == spec_cacheable(*o),
{
    match o {
        JobOutcome::Success | JobOutcome::Failure(_) => true,
        _ => false,
    }
}

/// Some case of test `d` at commit `c` completed with exit code 0.
pub open spec fn done_ok(cases: Seq<Case>, d: int, c: Seq<char>) -> bool {
    exists|y: int| 0 <= y < cases.len() && cases[y].test == d && cases[y].commit@ == c
        && #[trigger] cases[y].state == CaseState::Completed(0)
}

/// Token `t` of key `ki` is held by some allocation.
pub open spec fn held(allocs: Seq<Option<Allocation>>, ki: int, t: int) -> bool {
    exists|x: int| 0 <= x < allocs.len() && allocs[x] is Some && #[trigger] holds(allocs[x]->Some_0.grants@, ki, t)
}

/// The scheduler's state: the test graph, the current revision set, every
/// case created so far, the allocation of each running case, and the pool.
pub struct Scheduler {
    pub dag: Dag<TestSpec>,
    /// For each test, the positions of its dependencies.
    pub deps: Vec<Vec<usize>>,
    /// The current revision set, newest first.
    pub commits: Vec<String>,
    pub cases: Vec<Case>,
    /// The tokens held by each case; only running cases hold any.
    pub allocs: Vec<Option<Allocation>>,
    pub pools: Pools,
    /// How many jobs may run at once.
    pub max_running: usize,
}

impl Scheduler {
    pub open spec fn nodes(&self) -> Seq<TestSpec> {
        self.dag.spec_nodes()
    }

    /// What makes two cases the same job: the test and the commit, or the
    /// tree for a test cached by tree.
    pub open spec fn dedup_key(&self, c: Case) -> Seq<char> {
        if self.nodes()[c.test as int].cache_policy == CachePolicy::ByTree {
            c.tree@
        } else {
            c.commit@
        }
    }

    /// The graph, the dependency positions and the case records agree.
    pub open spec fn wf_static(&self) -> bool {
        &&& self.dag.wf()
        &&& self.deps@.len() == self.nodes().len()
        &&& forall|i: int| 0 <= i < self.nodes().len() ==> #[trigger] self.deps@[i]@.len()
            == self.nodes()[i].depends_on@.len()
        &&& forall|i: int, k: int| 0 <= i < self.nodes().len() && 0 <= k < self.deps@[i]@.len()
            ==> #[trigger] self.deps@[i]@[k] < self.nodes().len()
            && self.nodes()[self.deps@[i]@[k] as int].name@ == self.nodes()[i].depends_on@[k]@
        &&& forall|i: int| 0 <= i < self.nodes().len() ==> keys_distinct(#[trigger] self.nodes()[i].needs_resources@)
        &&& self.allocs@.len() == self.cases@.len()
        &&& forall|x: int| 0 <= x < self.cases@.len() ==> (#[trigger] self.cases@[x]).test < self.nodes().len()
    }

    /// Exactly the running cases hold allocations, and the pool's free tokens
    /// are exactly those that no allocation holds; no token is held twice.
    pub open spec fn wf_tokens(&self) -> bool {
        &&& self.pools.wf()
        &&& forall|x: int| 0 <= x < self.cases@.len() ==> ((#[trigger] self.allocs@[x]) is Some
            <==> self.cases@[x].state == CaseState::Running)
        &&& tokens_agree(*self)
    }

    /// At most one job per test and key: no two running cases share both.
    pub open spec fn wf_one_job(&self) -> bool {
        forall|x: int, y: int| 0 <= x < self.cases@.len() && 0 <= y < self.cases@.len() && x != y
            && (#[trigger] self.cases@[x]).state == CaseState::Running && (#[trigger] self.cases@[y]).state
            == CaseState::Running && self.cases@[x].test == self.cases@[y].test ==> self.dedup_key(self.cases@[x])
            != self.dedup_key(self.cases@[y])
    }

    /// A case waits for resources or runs only once every dependency has
    /// completed successfully at the same commit.
    pub open spec fn wf_deps_done(&self) -> bool {
        forall|x: int, k: int| 0 <= x < self.cases@.len() && ((#[trigger] self.cases@[x]).state == CaseState::Running
            || self.cases@[x].state == CaseState::BlockedOnResource) && 0 <= k < self.deps@[self.cases@[x].test as int]@.len()
            ==> done_ok(self.cases@, #[trigger] self.deps@[self.cases@[x].test as int]@[k] as int, self.cases@[x].commit@)
    }

    /// Every case that is still live belongs to a commit of the revision set.
    pub open spec fn wf_live_in_set(&self) -> bool {
        forall|x: int| 0 <= x < self.cases@.len() && !(#[trigger] self.cases@[x]).state.terminal()
            ==> texts(self.commits@).contains(self.cases@[x].commit@)
    }

    pub open spec fn wf(&self) -> bool {
        &&& self.wf_static()
        &&& self.wf_tokens()
        &&& self.wf_one_job()
        &&& self.wf_deps_done()
        &&& self.wf_live_in_set()
    }

    /// A scheduler with no revision and no case; every token of the pool free.
    pub fn new(dag: Dag<TestSpec>, pools: Pools, max_running: usize) -> (r: Self)
        requires
            dag.wf(),
            pools.wf(),
            forall|ki: int, t: int| 0 <= ki < pools.keys@.len() && 0 <= t < pools.free@[ki]@.len()
                ==> #[trigger] pools.free@[ki]@[t],
            forall|i: int| 0 <= i < dag.spec_nodes().len() ==> keys_distinct(#[trigger] dag.spec_nodes()[i].needs_resources@),
        ensures
            r.wf(),
            r.dag == dag,
            r.pools == pools,
            r.max_running == max_running,
            r.cases@.len() == 0,
            r.commits@.len() == 0,
    {
        let n = dag.len();
        let mut deps: Vec<Vec<usize>> = Vec::new();
        let mut i: usize = 0;
        while i < n
            invariant
                dag.wf(),
                n == dag.spec_nodes().len(),
                0 <= i <= n,
                deps@.len() == i,
                forall|a: int| 0 <= a < i ==> #[trigger] deps@[a]@.len() == dag.spec_nodes()[a].depends_on@.len(),
                forall|a: int, k: int| 0 <= a < i && 0 <= k < deps@[a]@.len() ==> #[trigger] deps@[a]@[k] < n
                    && dag.spec_nodes()[deps@[a]@[k] as int].name@ == dag.spec_nodes()[a].depends_on@[k]@,
            decreases n - i,
        {
            let t = dag.get(i);
            let mut row: Vec<usize> = Vec::new();
            let mut k: usize = 0;
            while k < t.depends_on.len()
                invariant
                    dag.wf(),
                    n == dag.spec_nodes().len(),
                    0 <= i < n,
                    *t == dag.spec_nodes()[i as int],
                    0 <= k <= t.depends_on@.len(),
                    row@.len() == k,
                    forall|c: int| 0 <= c < k ==> #[trigger] row@[c] < n
                        && dag.spec_nodes()[row@[c] as int].name@ == t.depends_on@[c]@,
                decreases t.depends_on@.len() - k,
            {
                proof {
                    // Children of a node of a well-formed graph are present.
                    let ns = dag.spec_nodes();
                    assert(ns[i as int].spec_child_ids()[k as int] == t.depends_on@[k as int]@);
                    assert(has_id(ns, ns[i as int].spec_child_ids()[k as int]));
                }
                let j = dag.index_of(&t.depends_on[k]).unwrap();
                row.push(j);
                k += 1;
            }
            deps.push(row);
            i += 1;
        }
        let r = Scheduler { dag, deps, commits: Vec::new(), cases: Vec::new(), allocs: Vec::new(), pools, max_running };
        assert(tokens_agree(r));
        r
    }

    fn set_state(&mut self, x: usize, st: CaseState)
        requires
            x < old(self).cases@.len(),
        ensures
            final(self).cases@ == old(self).cases@.update(x as int, Case { state: st, ..old(self).cases@[x as int] }),
            final(self).max_running == old(self).max_running,
            final(self).dag == old(self).dag,
            final(self).deps == old(self).deps,
            final(self).commits == old(self).commits,
            final(self).allocs == old(self).allocs,
            final(self).pools == old(self).pools,
    {
        self.cases[x].state = st;
        assert(self.cases@ =~= old(self).cases@.update(x as int, Case { state: st, ..old(self).cases@[x as int] }));
    }

    /// Reports the cache lookup of an enqueued case: a hit completes it with
    /// the stored exit code; a miss makes it wait for its dependencies.
    pub fn on_cache_result(&mut self, x: usize, hit: Option<i32>) -> (r: Notification)
        requires
            old(self).wf(),
            x < old(self).cases@.len(),
            old(self).cases@[x as int].state == CaseState::Enqueued,
        ensures
            final(self).wf(),
            final(self).cases@ == old(self).cases@.update(x as int, Case {
                state: match hit {
                    Some(c) => CaseState::Completed(c),
                    None => CaseState::BlockedOnDep,
                },
                ..old(self).cases@[x as int]
            }),
            final(self).commits == old(self).commits,
            final(self).allocs == old(self).allocs,
            final(self).pools == old(self).pools,
            r.case == x,
            match hit {
                Some(c) => r.status == TestStatus::Completed(c),
                None => r.status is BlockedOnDep,
            },
    {
        let ghost o = *self;
        let (st, status) = match hit {
            Some(c) => (CaseState::Completed(c), TestStatus::Completed(c)),
            None => (CaseState::BlockedOnDep, TestStatus::BlockedOnDep),
        };
        self.set_state(x, st);
        proof {
            lemma_done_ok_kept(o.cases@, self.cases@, x as int);
            assert(self.wf_deps_done());
            assert(self.wf_one_job());
            assert(self.wf_live_in_set());
        }
        Notification { case: x, status }
    }

    /// Reports that the job of a running case could not be started.
    pub fn on_spawn_failed(&mut self, x: usize) -> (r: Notification)
        requires
            old(self).wf(),
            x < old(self).cases@.len(),
            old(self).cases@[x as int].state == CaseState::Running,
        ensures
            final(self).wf(),
            final(self).cases@ == old(self).cases@.update(x as int, Case { state: CaseState::Errored, ..old(self).cases@[x as int] }),
            final(self).commits == old(self).commits,
            final(self).allocs@ == old(self).allocs@.update(x as int, None),
            r.case == x,
            r.status is Error,
    {
        let ghost o = *self;
        self.release_alloc(x);
        self.set_state(x, CaseState::Errored);
        proof {
            lemma_done_ok_kept(o.cases@, self.cases@, x as int);
        }
        Notification { case: x, status: TestStatus::Error(String::from_str("could not start the job")) }
    }

    /// Cases `x` and `y` are the same job: same test and same key.
    pub open spec fn same_job(&self, x: int, y: int) -> bool {
        self.cases@[x].test == self.cases@[y].test && self.dedup_key(self.cases@[x]) == self.dedup_key(self.cases@[y])
    }

    fn is_same_job(&self, x: usize, y: usize) -> (r: bool)
        requires
            self.wf_static(),
            x < self.cases@.len(),
            y < self.cases@.len(),
        ensures
            r == self.same_job(x as int, y as int),
    {
        let cx = &self.cases[x];
        let cy = &self.cases[y];
        if cx.test != cy.test {
            return false;
        }
        if self.dag.get(cx.test).cache_policy == CachePolicy::ByTree {
            cx.tree.eq(&cy.tree)
        } else {
            cx.commit.eq(&cy.commit)
        }
    }

    /// `y` waits for resources as the same job as `x`.
    pub open spec fn is_peer(&self, x: int, y: int) -> bool {
        y != x && self.cases@[y].state == CaseState::BlockedOnResource && self.same_job(x, y)
    }

    /// Reports that the job of running case `x` exited with `code`. An exit
    /// code listed as an error ends the case in error; any other completes it,
    /// and completes with it every case waiting as the same job, which would
    /// find the result in the cache.
    pub fn on_exit(&mut self, x: usize, code: i32) -> (r: Vec<Notification>)
        requires
            old(self).wf(),
            x < old(self).cases@.len(),
            old(self).cases@[x as int].state == CaseState::Running,
        ensures
            final(self).wf(),
            final(self).commits == old(self).commits,
            final(self).cases@.len() == old(self).cases@.len(),
            final(self).allocs@ == old(self).allocs@.update(x as int, None),
            ({
                let errored = code != 0 && old(self).nodes()[old(self).cases@[x as int].test as int].error_exit_codes@.contains(code);
                &&& final(self).cases@[x as int] == (Case {
                    state: if errored { CaseState::Errored } else { CaseState::Completed(code) },
                    ..old(self).cases@[x as int]
                })
                &&& forall|y: int| 0 <= y < old(self).cases@.len() && y != x ==> #[trigger] final(self).cases@[y] == if !errored
                    && old(self).is_peer(x as int, y) {
                    Case { state: CaseState::Completed(code), ..old(self).cases@[y] }
                } else {
                    old(self).cases@[y]
                }
            }),
            r@.len() >= 1,
            r@[0].case == x,
            notes_match(r@, final(self).cases@),
            changes_noted(old(self).cases@, final(self).cases@, r@),
    {
        let ghost o = *self;
        let t = self.dag.get(self.cases[x].test);
        let outcome = outcome_of_exit(code, &t.error_exit_codes);
        let cacheable = is_cacheable(&outcome);
        let ghost errored = code != 0 && o.nodes()[o.cases@[x as int].test as int].error_exit_codes@.contains(code);
        assert(cacheable == !errored);
        let mut notes: Vec<Notification> = Vec::new();
        self.release_alloc(x);
        let ghost nb = notes@;
        let ghost before_x = self.cases@;
        let note = if cacheable {
            self.set_state(x, CaseState::Completed(code));
            Notification { case: x, status: TestStatus::Completed(code) }
        } else {
            self.set_state(x, CaseState::Errored);
            Notification { case: x, status: TestStatus::Error(String::from_str("exit code listed as an error")) }
        };
        proof {
            lemma_note_change(before_x, self.cases@, nb, note, x as int);
        }
        notes.push(note);
        proof {
            assert forall|y: int| 0 <= y < self.cases@.len() && (y >= o.cases@.len() || self.cases@[y].state != o.cases@[y].state)
                implies #[trigger] noted(notes@, y) by {
                if y != x {
                    assert(self.cases@[y] == o.cases@[y]);
                }
            }
        }
        proof {
            lemma_done_ok_kept(o.cases@, self.cases@, x as int);
        }
        if cacheable {
            let mut y: usize = 0;
            while y < self.cases.len()
                invariant
                    o.wf(),
                    x < o.cases@.len(),
                    !errored,
                    self.wf_static(),
                    self.wf_tokens(),
                    self.wf_one_job(),
                    self.wf_deps_done(),
                    self.wf_live_in_set(),
                    self.dag == o.dag,
                    self.deps == o.deps,
                    self.commits == o.commits,
                    self.allocs@ == o.allocs@.update(x as int, None),
                    self.cases@.len() == o.cases@.len(),
                    0 <= y <= self.cases@.len(),
                    self.cases@[x as int] == (Case { state: CaseState::Completed(code), ..o.cases@[x as int] }),
                    forall|z: int| 0 <= z < o.cases@.len() && z != x ==> #[trigger] self.cases@[z] == if z < y
                        && o.is_peer(x as int, z) {
                        Case { state: CaseState::Completed(code), ..o.cases@[z] }
                    } else {
                        o.cases@[z]
                    },
                    notes@.len() >= 1,
                    notes@[0].case == x,
                    notes_match(notes@, self.cases@),
                    forall|i: int| 0 <= i < notes@.len() ==> (#[trigger] notes@[i]).status == TestStatus::Completed(code),
                    forall|z: int| 0 <= z < self.cases@.len() && self.cases@[z].state != o.cases@[z].state ==> #[trigger] noted(notes@, z),
                decreases self.cases@.len() - y,
            {
                if y != x && self.cases[y].state == CaseState::BlockedOnResource && self.is_same_job(x, y) {
                    let ghost before = *self;
                    assert(o.is_peer(x as int, y as int));
                    self.set_state(y, CaseState::Completed(code));
                    proof {
                        lemma_done_ok_kept(before.cases@, self.cases@, y as int);
                        assert(self.wf_tokens());
                    }
                    let note = Notification { case: y, status: TestStatus::Completed(code) };
                    proof {
                        lemma_note_change(before.cases@, self.cases@, notes@, note, y as int);
                        assert forall|z: int| 0 <= z < self.cases@.len() && self.cases@[z].state != o.cases@[z].state implies #[trigger] noted(notes@.push(note), z) by {
                            if z != y {
                                assert(self.cases@[z] == before.cases@[z]);
                                assert(noted(notes@, z));
                            }
                        }
                    }
                    let ghost pn = notes@;
                    notes.push(note);
                    proof {
                        assert forall|i: int| 0 <= i < notes@.len() implies (#[trigger] notes@[i]).status == TestStatus::Completed(code) by {
                            if i < pn.len() {
                                assert(notes@[i] == pn[i]);
                            }
                        }
                    }
                } else {
                    proof {
                        if y != x {
                            assert(self.cases@[y as int] == o.cases@[y as int]);
                            assert(!o.is_peer(x as int, y as int));
                        }
                    }
                }
                y += 1;
            }
        }
        notes
    }

    /// Replaces the revision set. Every live case whose commit left the set is
    /// aborted, its job killed and its tokens released; every test at every
    /// commit of the set that has no case but aborted ones gets a new case,
    /// to be looked up in the cache.
    pub fn set_revisions(&mut self, revs: &Vec<Commit>) -> (r: (Vec<Action>, Vec<Notification>))
        requires
            old(self).wf(),
        ensures
            final(self).wf(),
            texts(final(self).commits@) == hashes(revs@),
            final(self).cases@.len() >= old(self).cases@.len(),
            forall|y: int| 0 <= y < old(self).cases@.len() ==> #[trigger] final(self).cases@[y] == if !old(self).cases@[y].state.terminal()
                && !hashes(revs@).contains(old(self).cases@[y].commit@) {
                Case { state: CaseState::Aborted, ..old(self).cases@[y] }
            } else {
                old(self).cases@[y]
            },
            forall|y: int| old(self).cases@.len() <= y < final(self).cases@.len() ==> (#[trigger] final(self).cases@[y]).state
                == CaseState::Enqueued && hashes(revs@).contains(final(self).cases@[y].commit@),
            forall|y: int| 0 <= y < old(self).cases@.len() && (#[trigger] old(self).cases@[y]).state == CaseState::Running
                && !hashes(revs@).contains(old(self).cases@[y].commit@) ==> r.0@.contains(Action::Kill(y as usize)),
            forall|i: int, j: int| 0 <= i < final(self).nodes().len() && 0 <= j < revs@.len() ==> #[trigger] has_case(
                final(self).cases@,
                i,
                revs@[j].hash@,
            ),
            notes_match(r.1@, final(self).cases@),
            changes_noted(old(self).cases@, final(self).cases@, r.1@),
    {
        let ghost o = *self;
        let mut actions: Vec<Action> = Vec::new();
        let mut notes: Vec<Notification> = Vec::new();
        let mut fresh: Vec<String> = Vec::new();
        let mut j: usize = 0;
        while j < revs.len()
            invariant
                0 <= j <= revs@.len(),
                texts(fresh@) =~= hashes(revs@).subrange(0, j as int),
            decreases revs@.len() - j,
        {
            let h = String::from_str(revs[j].hash.as_str());
            let ghost prev = fresh@;
            fresh.push(h);
            assert(texts(fresh@) =~= texts(prev).push(revs@[j as int].hash@));
            j += 1;
        }
        assert(hashes(revs@).subrange(0, revs@.len() as int) =~= hashes(revs@));
        let ghost hs = hashes(revs@);
        // Abort what left the set.
        let mut y: usize = 0;
        while y < self.cases.len()
            invariant
                self.wf(),
                self.commits == o.commits,
                self.dag == o.dag,
                texts(fresh@) == hs,
                hs == hashes(revs@),
                self.cases@.len() == o.cases@.len(),
                0 <= y <= self.cases@.len(),
                forall|z: int| 0 <= z < o.cases@.len() ==> #[trigger] self.cases@[z] == if z < y && !o.cases@[z].state.terminal()
                    && !hs.contains(o.cases@[z].commit@) {
                    Case { state: CaseState::Aborted, ..o.cases@[z] }
                } else {
                    o.cases@[z]
                },
                forall|z: int| 0 <= z < y && !(#[trigger] self.cases@[z]).state.terminal() ==> hs.contains(self.cases@[z].commit@),
                forall|z: int| 0 <= z < y && (#[trigger] o.cases@[z]).state == CaseState::Running
                    && !hs.contains(o.cases@[z].commit@) ==> actions@.contains(Action::Kill(z as usize)),
                notes_match(notes@, self.cases@),
                forall|i: int| 0 <= i < notes@.len() ==> (#[trigger] notes@[i]).status is Aborted,
                forall|z: int| 0 <= z < self.cases@.len() && self.cases@[z].state != o.cases@[z].state ==> #[trigger] noted(notes@, z),
            decreases self.cases@.len() - y,
        {
            if !self.cases[y].state.is_terminal() {
                let keep = contains_text(&fresh, &self.cases[y].commit);
                if !keep {
                    let ghost before = *self;
                    if self.cases[y].state == CaseState::Running {
                        self.release_alloc(y);
                        let ghost prev = actions@;
                        actions.push(Action::Kill(y));
                        proof {
                            lemma_push_keeps(prev, Action::Kill(y));
                        }
                    }
                    self.set_state(y, CaseState::Aborted);
                    proof {
                        lemma_done_ok_kept(before.cases@, self.cases@, y as int);
                    }
                    let note = Notification { case: y, status: TestStatus::Aborted };
                    proof {
                        lemma_note_change(before.cases@, self.cases@, notes@, note, y as int);
                        assert forall|z: int| 0 <= z < self.cases@.len() && self.cases@[z].state != o.cases@[z].state implies #[trigger] noted(notes@.push(note), z) by {
                            if z != y {
                                assert(self.cases@[z] == before.cases@[z]);
                                assert(noted(notes@, z));
                            }
                        }
                    }
                    let ghost pn = notes@;
                    notes.push(note);
                    proof {
                        assert forall|i: int| 0 <= i < notes@.len() implies (#[trigger] notes@[i]).status is Aborted by {
                            if i < pn.len() {
                                assert(notes@[i] == pn[i]);
                            }
                        }
                    }
                }
            }
            y += 1;
        }
        self.commits = fresh;
        // Enqueue what is new.
        let n = self.dag.len();
        let ghost mid = self.cases@.len();
        let mut j: usize = 0;
        while j < revs.len()
            invariant
                self.wf(),
                self.dag == o.dag,
                n == self.nodes().len(),
                texts(self.commits@) == hs,
                hs == hashes(revs@),
                mid == o.cases@.len(),
                self.cases@.len() >= mid,
                forall|z: int| 0 <= z < mid ==> #[trigger] self.cases@[z] == if !o.cases@[z].state.terminal()
                    && !hs.contains(o.cases@[z].commit@) {
                    Case { state: CaseState::Aborted, ..o.cases@[z] }
                } else {
                    o.cases@[z]
                },
                forall|z: int| mid <= z < self.cases@.len() ==> (#[trigger] self.cases@[z]).state == CaseState::Enqueued
                    && hs.contains(self.cases@[z].commit@),
                forall|z: int| 0 <= z < mid && (#[trigger] o.cases@[z]).state == CaseState::Running
                    && !hs.contains(o.cases@[z].commit@) ==> actions@.contains(Action::Kill(z as usize)),
                0 <= j <= revs@.len(),
                forall|i: int, j2: int| 0 <= i < n && 0 <= j2 < j ==> #[trigger] has_case(self.cases@, i, revs@[j2].hash@),
                notes_match(notes@, self.cases@),
                forall|z: int| 0 <= z < self.cases@.len() && (z >= o.cases@.len() || self.cases@[z].state != o.cases@[z].state) ==> #[trigger] noted(notes@, z),
            decreases revs@.len() - j,
        {
            let mut k: usize = 0;
            while k < n
                invariant
                    self.wf(),
                    self.dag == o.dag,
                    n == self.nodes().len(),
                    texts(self.commits@) == hs,
                    hs == hashes(revs@),
                    mid == o.cases@.len(),
                    self.cases@.len() >= mid,
                    forall|z: int| 0 <= z < mid ==> #[trigger] self.cases@[z] == if !o.cases@[z].state.terminal()
                        && !hs.contains(o.cases@[z].commit@) {
                        Case { state: CaseState::Aborted, ..o.cases@[z] }
                    } else {
                        o.cases@[z]
                    },
                    forall|z: int| mid <= z < self.cases@.len() ==> (#[trigger] self.cases@[z]).state == CaseState::Enqueued
                        && hs.contains(self.cases@[z].commit@),
                    forall|z: int| 0 <= z < mid && (#[trigger] o.cases@[z]).state == CaseState::Running
                        && !hs.contains(o.cases@[z].commit@) ==> actions@.contains(Action::Kill(z as usize)),
                    0 <= j < revs@.len(),
                    forall|i: int, j2: int| 0 <= i < n && 0 <= j2 < j ==> #[trigger] has_case(self.cases@, i, revs@[j2].hash@),
                    0 <= k <= n,
                    forall|k2: int| 0 <= k2 < k ==> #[trigger] has_case(self.cases@, self.dag.spec_order()[k2], revs@[j as int].hash@),
                    notes_match(notes@, self.cases@),
                    forall|z: int| 0 <= z < self.cases@.len() && (z >= o.cases@.len() || self.cases@[z].state != o.cases@[z].state) ==> #[trigger] noted(notes@, z),
                decreases n - k,
            {
                let i = self.dag.order_at(k);
                let commit = String::from_str(revs[j].hash.as_str());
                if !self.has_live_case(i, &commit) {
                    let ghost before = *self;
                    let x = self.cases.len();
                    assert(hs[j as int] == revs@[j as int].hash@);
                    self.cases.push(Case { test: i, commit, tree: String::from_str(revs[j].tree.as_str()), state: CaseState::Enqueued });
                    self.allocs.push(None);
                    proof {
                        lemma_push_case(before, *self);
                        assert(has_case(self.cases@, i as int, revs@[j as int].hash@));
                        assert forall|i2: int, j2: int| 0 <= i2 < n && 0 <= j2 < j implies #[trigger] has_case(self.cases@, i2, revs@[j2].hash@) by {
                            assert(has_case(before.cases@, i2, revs@[j2].hash@));
                        }
                        assert forall|k2: int| 0 <= k2 < k implies #[trigger] has_case(self.cases@, self.dag.spec_order()[k2], revs@[j as int].hash@) by {
                            assert(has_case(before.cases@, self.dag.spec_order()[k2], revs@[j as int].hash@));
                        }
                    }
                    let ghost prev = actions@;
                    actions.push(Action::LookUpCache(x));
                    proof {
                        lemma_push_keeps(prev, Action::LookUpCache(x));
                    }
                    let note = Notification { case: x, status: TestStatus::Enqueued };
                    proof {
                        lemma_note_new_case(before.cases@, self.cases@, notes@, note);
                        assert forall|z: int| 0 <= z < self.cases@.len() && (z >= o.cases@.len() || self.cases@[z].state != o.cases@[z].state) implies #[trigger] noted(notes@.push(note), z) by {
                            if z < x {
                                assert(self.cases@[z] == before.cases@[z]);
                                assert(noted(notes@, z));
                            }
                        }
                    }
                    notes.push(note);
                }
                k += 1;
            }
            proof {
                assert forall|i: int| 0 <= i < n implies #[trigger] has_case(self.cases@, i, revs@[j as int].hash@) by {
                    assert(crate::dag::appears(self.dag.spec_order(), i));
                    let k2 = choose|k2: int| 0 <= k2 < self.dag.spec_order().len() && #[trigger] self.dag.spec_order()[k2] == i;
                }
            }
            j += 1;
        }
        (actions, notes)
    }

    /// Some case of test `i` at `commit` is not aborted.
    fn has_live_case(&self, i: usize, commit: &String) -> (r: bool)
        ensures
            r == has_case(self.cases@, i as int, commit@),
    {
        let mut y: usize = 0;
        while y < self.cases.len()
            invariant
                0 <= y <= self.cases@.len(),
                forall|z: int| 0 <= z < y ==> !(#[trigger] self.cases@[z].test == i && self.cases@[z].commit@ == commit@
                    && self.cases@[z].state != CaseState::Aborted),
            decreases self.cases@.len() - y,
        {
            if self.cases[y].test == i && self.cases[y].state != CaseState::Aborted && self.cases[y].commit.eq(commit) {
                return true;
            }
            y += 1;
        }
        false
    }

    /// Every dependency of case `y` completed successfully at its commit.
    pub open spec fn deps_done(&self, y: int) -> bool {
        forall|k: int| 0 <= k < self.deps@[self.cases@[y].test as int]@.len() ==> done_ok(
            self.cases@,
            #[trigger] self.deps@[self.cases@[y].test as int]@[k] as int,
            self.cases@[y].commit@,
        )
    }

    /// Some dependency of case `y` failed or ended in error at its commit.
    pub open spec fn dep_failed(&self, y: int) -> bool {
        exists|k: int| 0 <= k < self.deps@[self.cases@[y].test as int]@.len() && failed_at(
            self.cases@,
            #[trigger] self.deps@[self.cases@[y].test as int]@[k] as int,
            self.cases@[y].commit@,
        )
    }

    /// Finds whether some case of test `d` at `commit` completed with 0, and
    /// whether some failed or ended in error.
    fn dep_status(&self, d: usize, commit: &String) -> (r: (bool, bool))
        ensures
            r.0 == done_ok(self.cases@, d as int, commit@),
            r.1 == failed_at(self.cases@, d as int, commit@),
    {
        let mut ok = false;
        let mut bad = false;
        let mut z: usize = 0;
        while z < self.cases.len()
            invariant
                0 <= z <= self.cases@.len(),
                ok == exists|w: int| 0 <= w < z && self.cases@[w].test == d && self.cases@[w].commit@ == commit@
                    && #[trigger] self.cases@[w].state == CaseState::Completed(0),
                bad == exists|w: int| 0 <= w < z && self.cases@[w].test == d && self.cases@[w].commit@ == commit@
                    && #[trigger] bad_state(self.cases@[w].state),
            decreases self.cases@.len() - z,
        {
            let c = &self.cases[z];
            if c.test == d && c.commit.eq(commit) {
                match c.state {
                    CaseState::Completed(code) => {
                        if code == 0 {
                            ok = true;
                        } else {
                            bad = true;
                        }
                    },
                    CaseState::Errored => {
                        bad = true;
                    },
                    _ => {},
                }
            }
            proof {
                if c.test == d && c.commit@ == commit@ && bad_state(c.state) {
                    assert(bad_state(self.cases@[z as int].state));
                }
            }
            z += 1;
        }
        (ok, bad)
    }

    /// Moves case `y`, if it waits for its dependencies, on: to waiting for
    /// resources once all completed successfully, to an error once one failed.
    fn resolve_case(&mut self, y: usize) -> (r: Option<Notification>)
        requires
            old(self).wf(),
            y < old(self).cases@.len(),
        ensures
            final(self).wf(),
            final(self).dag == old(self).dag,
            final(self).deps == old(self).deps,
            final(self).commits == old(self).commits,
            final(self).allocs == old(self).allocs,
            final(self).pools == old(self).pools,
            final(self).max_running == old(self).max_running,
            final(self).cases@ == old(self).cases@.update(y as int, Case {
                state: if old(self).cases@[y as int].state == CaseState::BlockedOnDep && old(self).deps_done(y as int) {
                    CaseState::BlockedOnResource
                } else if old(self).cases@[y as int].state == CaseState::BlockedOnDep && old(self).dep_failed(y as int) {
                    CaseState::Errored
                } else {
                    old(self).cases@[y as int].state
                },
                ..old(self).cases@[y as int]
            }),
            r is Some <==> final(self).cases@[y as int].state != old(self).cases@[y as int].state,
            r is Some ==> r->Some_0.case == y && describes(r->Some_0.status, final(self).cases@[y as int].state)
                && !(r->Some_0.status is BlockedOnDep),
            forall|d: int, c: Seq<char>| #[trigger] done_ok(final(self).cases@, d, c) == done_ok(old(self).cases@, d, c),
            forall|d: int, c: Seq<char>| #[trigger] failed_at(old(self).cases@, d, c) ==> failed_at(final(self).cases@, d, c),
    {
        let ghost o = *self;
        if self.cases[y].state != CaseState::BlockedOnDep {
            assert(self.cases@ =~= o.cases@.update(y as int, Case { state: o.cases@[y as int].state, ..o.cases@[y as int] }));
            return None;
        }
        let ti = self.cases[y].test;
        let nd = self.deps[ti].len();
        let mut all = true;
        let mut any_bad = false;
        let mut k: usize = 0;
        while k < nd
            invariant
                self.wf_static(),
                y < self.cases@.len(),
                ti == self.cases@[y as int].test,
                nd == self.deps@[ti as int]@.len(),
                0 <= k <= nd,
                all == forall|k2: int| 0 <= k2 < k ==> done_ok(self.cases@, #[trigger] self.deps@[ti as int]@[k2] as int, self.cases@[y as int].commit@),
                any_bad == exists|k2: int| 0 <= k2 < k && failed_at(self.cases@, #[trigger] self.deps@[ti as int]@[k2] as int, self.cases@[y as int].commit@),
            decreases nd - k,
        {
            let (ok, bad) = self.dep_status(self.deps[ti][k], &self.cases[y].commit);
            if !ok {
                all = false;
            }
            if bad {
                any_bad = true;
            }
            k += 1;
        }
        assert(all == self.deps_done(y as int));
        assert(any_bad == self.dep_failed(y as int));
        let r = if all {
            self.set_state(y, CaseState::BlockedOnResource);
            Some(Notification { case: y, status: TestStatus::BlockedOnResource })
        } else if any_bad {
            self.set_state(y, CaseState::Errored);
            Some(Notification { case: y, status: TestStatus::Error(String::from_str("dependency failed")) })
        } else {
            assert(self.cases@ =~= o.cases@.update(y as int, Case { state: o.cases@[y as int].state, ..o.cases@[y as int] }));
            None
        };
        proof {
            lemma_done_ok_kept(o.cases@, self.cases@, y as int);
            lemma_failed_kept(o.cases@, self.cases@, y as int);
            assert forall|d: int, c: Seq<char>| #[trigger] done_ok(self.cases@, d, c) == done_ok(o.cases@, d, c) by {
                if done_ok(self.cases@, d, c) {
                    let w = choose|w: int| 0 <= w < self.cases@.len() && self.cases@[w].test == d && self.cases@[w].commit@ == c
                        && #[trigger] self.cases@[w].state == CaseState::Completed(0);
                    assert(w != y);
                    assert(o.cases@[w] == self.cases@[w]);
                }
            }
            if all {
                assert forall|x: int, k2: int| 0 <= x < self.cases@.len() && ((#[trigger] self.cases@[x]).state == CaseState::Running
                    || self.cases@[x].state == CaseState::BlockedOnResource) && 0 <= k2 < self.deps@[self.cases@[x].test as int]@.len()
                    implies done_ok(self.cases@, #[trigger] self.deps@[self.cases@[x].test as int]@[k2] as int, self.cases@[x].commit@) by {
                    if x == y {
                        assert(done_ok(o.cases@, self.deps@[ti as int]@[k2] as int, o.cases@[y as int].commit@));
                    } else {
                        assert(self.cases@[x] == o.cases@[x]);
                        assert(done_ok(o.cases@, self.deps@[self.cases@[x].test as int]@[k2] as int, self.cases@[x].commit@));
                    }
                }
            }
        }
        r
    }

    /// Moves every case waiting for its dependencies on: to waiting for
    /// resources once all completed successfully, to an error once one failed.
    pub fn resolve_deps(&mut self) -> (r: Vec<Notification>)
        requires
            old(self).wf(),
        ensures
            final(self).wf(),
            final(self).dag == old(self).dag,
            final(self).commits == old(self).commits,
            final(self).allocs == old(self).allocs,
            final(self).pools == old(self).pools,
            final(self).max_running == old(self).max_running,
            final(self).cases@.len() == old(self).cases@.len(),
            forall|y: int| 0 <= y < old(self).cases@.len() ==> step_from_deps(*old(self), *final(self), y),
            notes_match(r@, final(self).cases@),
            changes_noted(old(self).cases@, final(self).cases@, r@),
    {
        let ghost o = *self;
        let mut notes: Vec<Notification> = Vec::new();
        let mut y: usize = 0;
        while y < self.cases.len()
            invariant
                o.wf(),
                self.wf(),
                self.dag == o.dag,
                self.deps == o.deps,
                self.commits == o.commits,
                self.allocs == o.allocs,
                self.pools == o.pools,
                self.max_running == o.max_running,
                self.cases@.len() == o.cases@.len(),
                0 <= y <= self.cases@.len(),
                forall|z: int| 0 <= z < y ==> step_from_deps(o, *self, z),
                forall|z: int| y <= z < o.cases@.len() ==> #[trigger] self.cases@[z] == o.cases@[z],
                forall|d: int, c: Seq<char>| #[trigger] done_ok(self.cases@, d, c) == done_ok(o.cases@, d, c),
                forall|d: int, c: Seq<char>| #[trigger] failed_at(o.cases@, d, c) ==> failed_at(self.cases@, d, c),
                notes_match(notes@, self.cases@),
                forall|i: int| 0 <= i < notes@.len() ==> !((#[trigger] notes@[i]).status is BlockedOnDep),
                forall|z: int| 0 <= z < y && self.cases@[z].state != o.cases@[z].state ==> #[trigger] noted(notes@, z),
            decreases self.cases@.len() - y,
        {
            let ghost before = *self;
            let ghost nb = notes@;
            let n = self.resolve_case(y);
            proof {
                lemma_resolve_step(o, before, *self, y as int);
            }
            match n {
                Some(n) => {
                    proof { lemma_noted_push(notes@, n); }
                    notes.push(n);
                },
                None => {},
            }
            proof {
                assert forall|i: int| 0 <= i < notes@.len() implies (#[trigger] notes@[i]).case < self.cases@.len() && describes(
                    notes@[i].status, self.cases@[notes@[i].case as int].state) by {
                    if i < nb.len() {
                        assert(notes@[i] == nb[i]);
                        if notes@[i].case == y {
                            assert(describes(nb[i].status, before.cases@[y as int].state));
                        } else {
                            assert(self.cases@[notes@[i].case as int] == before.cases@[notes@[i].case as int]);
                        }
                    }
                }
                assert forall|z: int| 0 <= z < y + 1 && self.cases@[z].state != o.cases@[z].state implies #[trigger] noted(notes@, z) by {
                    if z < y {
                        assert(self.cases@[z] == before.cases@[z]);
                        assert(noted(nb, z));
                    }
                }
            }
            y += 1;
        }
        notes
    }

    /// Case `y` cannot start now: the same job runs, the pool cannot meet its
    /// request, or as many jobs run as are allowed.
    pub open spec fn blocked(&self, y: int) -> bool {
        (exists|z: int| 0 <= z < self.cases@.len() && z != y && (#[trigger] self.cases@[z]).state == CaseState::Running
            && self.same_job(y, z)) || !self.pools.satisfiable(self.nodes()[self.cases@[y].test as int].needs_resources@)
            || running_count(self.cases@) >= self.max_running
    }

    fn count_running(&self) -> (r: usize)
        ensures
            r == running_count(self.cases@),
    {
        let mut c: usize = 0;
        let mut k: usize = 0;
        while k < self.cases.len()
            invariant
                0 <= k <= self.cases@.len(),
                c == running_count(self.cases@.subrange(0, k as int)),
                c <= k,
            decreases self.cases@.len() - k,
        {
            assert(self.cases@.subrange(0, k + 1).drop_last() =~= self.cases@.subrange(0, k as int));
            if self.cases[k].state == CaseState::Running {
                c += 1;
            }
            k += 1;
        }
        assert(self.cases@.subrange(0, self.cases@.len() as int) =~= self.cases@);
        c
    }

    fn has_running_peer(&self, y: usize) -> (r: bool)
        requires
            self.wf_static(),
            y < self.cases@.len(),
        ensures
            r == exists|z: int| 0 <= z < self.cases@.len() && z != y && (#[trigger] self.cases@[z]).state == CaseState::Running
                && self.same_job(y as int, z),
    {
        let mut z: usize = 0;
        while z < self.cases.len()
            invariant
                self.wf_static(),
                y < self.cases@.len(),
                0 <= z <= self.cases@.len(),
                forall|w: int| 0 <= w < z ==> !(w != y && (#[trigger] self.cases@[w]).state == CaseState::Running
                    && self.same_job(y as int, w)),
            decreases self.cases@.len() - z,
        {
            if z != y && self.cases[z].state == CaseState::Running && self.is_same_job(y, z) {
                return true;
            }
            z += 1;
        }
        false
    }

    /// Starts case `y`, waiting for resources, unless it is blocked.
    fn try_start(&mut self, y: usize) -> (r: bool)
        requires
            old(self).wf(),
            y < old(self).cases@.len(),
            old(self).cases@[y as int].state == CaseState::BlockedOnResource,
        ensures
            final(self).wf(),
            final(self).dag == old(self).dag,
            final(self).commits == old(self).commits,
            final(self).max_running == old(self).max_running,
            !r ==> *final(self) == *old(self) && old(self).blocked(y as int),
            r ==> final(self).cases@ == old(self).cases@.update(y as int, Case { state: CaseState::Running, ..old(self).cases@[y as int] }),
            final(self).pools.same_tokens(&old(self).pools),
            forall|ki: int, t: int| 0 <= ki < old(self).pools.keys@.len() && 0 <= t < old(self).pools.free@[ki]@.len()
                && #[trigger] final(self).pools.free@[ki]@[t] ==> old(self).pools.free@[ki]@[t],
    {
        if self.count_running() >= self.max_running || self.has_running_peer(y) {
            return false;
        }
        let ghost o = *self;
        if !self.acquire_for(y) {
            return false;
        }
        let ghost mid = *self;
        self.set_state(y, CaseState::Running);
        proof {
            lemma_done_ok_kept(mid.cases@, self.cases@, y as int);
            assert forall|x: int| 0 <= x < self.cases@.len() implies ((#[trigger] self.allocs@[x]) is Some
                <==> self.cases@[x].state == CaseState::Running) by {
                if x != y {
                    assert(self.cases@[x] == o.cases@[x]);
                    assert(self.allocs@[x] == o.allocs@[x]);
                }
            }
            assert forall|x: int, w: int| 0 <= x < self.cases@.len() && 0 <= w < self.cases@.len() && x != w
                && (#[trigger] self.cases@[x]).state == CaseState::Running && (#[trigger] self.cases@[w]).state
                == CaseState::Running && self.cases@[x].test == self.cases@[w].test implies self.dedup_key(self.cases@[x])
                != self.dedup_key(self.cases@[w]) by {
                if x == y {
                    assert(self.cases@[w] == o.cases@[w]);
                    assert(!(o.cases@[w].state == CaseState::Running && o.same_job(y as int, w)));
                } else if w == y {
                    assert(self.cases@[x] == o.cases@[x]);
                    assert(!(o.cases@[x].state == CaseState::Running && o.same_job(y as int, x)));
                } else {
                    assert(self.cases@[x] == o.cases@[x]);
                    assert(self.cases@[w] == o.cases@[w]);
                }
            }
            assert(self.wf_deps_done()) by {
                assert forall|x: int, k: int| 0 <= x < self.cases@.len() && ((#[trigger] self.cases@[x]).state == CaseState::Running
                    || self.cases@[x].state == CaseState::BlockedOnResource) && 0 <= k < self.deps@[self.cases@[x].test as int]@.len()
                    implies done_ok(self.cases@, #[trigger] self.deps@[self.cases@[x].test as int]@[k] as int, self.cases@[x].commit@) by {
                    assert(done_ok(o.cases@, o.deps@[o.cases@[x].test as int]@[k] as int, o.cases@[x].commit@));
                }
            }
            assert(self.wf_live_in_set()) by {
                assert forall|x: int| 0 <= x < self.cases@.len() && !(#[trigger] self.cases@[x]).state.terminal()
                    implies texts(self.commits@).contains(self.cases@[x].commit@) by {
                    assert(!o.cases@[x].state.terminal());
                }
            }
        }
        true
    }

    /// Starts waiting cases while resources allow: first in the graph's
    /// leaves-first order and, within a test, in the order of the revision
    /// set; then any case that order did not reach. Afterwards every case
    /// still waiting for resources is blocked.
    pub fn dispatch(&mut self) -> (r: (Vec<Action>, Vec<Notification>))
        requires
            old(self).wf(),
        ensures
            final(self).wf(),
            final(self).dag == old(self).dag,
            final(self).commits == old(self).commits,
            final(self).cases@.len() == old(self).cases@.len(),
            forall|y: int| 0 <= y < old(self).cases@.len() ==> #[trigger] final(self).cases@[y] == old(self).cases@[y]
                || (old(self).cases@[y].state == CaseState::BlockedOnResource && final(self).cases@[y] == (Case {
                    state: CaseState::Running,
                    ..old(self).cases@[y]
                })),
            forall|y: int| 0 <= y < final(self).cases@.len() && (#[trigger] final(self).cases@[y]).state
                == CaseState::BlockedOnResource ==> final(self).blocked(y),
            forall|y: int| 0 <= y < old(self).cases@.len() && old(self).cases@[y].state != CaseState::Running
                && (#[trigger] final(self).cases@[y]).state == CaseState::Running ==> r.0@.contains(Action::Start(y as usize)),
            dispatched(*old(self), *final(self)),
            notes_match(r.1@, final(self).cases@),
            forall|i: int| 0 <= i < r.1@.len() ==> (#[trigger] r.1@[i]).status is Started,
            changes_noted(old(self).cases@, final(self).cases@, r.1@),
    {
        let ghost o = *self;
        let mut actions: Vec<Action> = Vec::new();
        let mut notes: Vec<Notification> = Vec::new();
        let n = self.dag.len();
        let mut k: usize = 0;
        while k < n
            invariant
                notes_match(notes@, self.cases@),
                forall|i: int| 0 <= i < notes@.len() ==> (#[trigger] notes@[i]).status is Started,
                forall|z: int| 0 <= z < self.cases@.len() && self.cases@[z].state != o.cases@[z].state ==> #[trigger] noted(notes@, z),
                self.wf(),
                self.dag == o.dag,
                self.commits == o.commits,
                n == self.nodes().len(),
                self.cases@.len() == o.cases@.len(),
                0 <= k <= n,
                forall|y: int| 0 <= y < o.cases@.len() ==> #[trigger] self.cases@[y] == o.cases@[y]
                    || (o.cases@[y].state == CaseState::BlockedOnResource && self.cases@[y] == (Case {
                        state: CaseState::Running,
                        ..o.cases@[y]
                    })),
                forall|y: int| 0 <= y < o.cases@.len() && o.cases@[y].state != CaseState::Running
                    && (#[trigger] self.cases@[y]).state == CaseState::Running ==> actions@.contains(Action::Start(y as usize)),
            decreases n - k,
        {
            let ti = self.dag.order_at(k);
            let mut c: usize = 0;
            while c < self.commits.len()
                invariant
                    notes_match(notes@, self.cases@),
                    forall|i: int| 0 <= i < notes@.len() ==> (#[trigger] notes@[i]).status is Started,
                    forall|z: int| 0 <= z < self.cases@.len() && self.cases@[z].state != o.cases@[z].state ==> #[trigger] noted(notes@, z),
                    self.wf(),
                    self.dag == o.dag,
                    self.commits == o.commits,
                    self.cases@.len() == o.cases@.len(),
                    0 <= c <= self.commits@.len(),
                    forall|y: int| 0 <= y < o.cases@.len() ==> #[trigger] self.cases@[y] == o.cases@[y]
                        || (o.cases@[y].state == CaseState::BlockedOnResource && self.cases@[y] == (Case {
                            state: CaseState::Running,
                            ..o.cases@[y]
                        })),
                    forall|y: int| 0 <= y < o.cases@.len() && o.cases@[y].state != CaseState::Running
                        && (#[trigger] self.cases@[y]).state == CaseState::Running ==> actions@.contains(Action::Start(y as usize)),
                decreases self.commits@.len() - c,
            {
                let mut y: usize = 0;
                while y < self.cases.len()
                    invariant
                        notes_match(notes@, self.cases@),
                        forall|i: int| 0 <= i < notes@.len() ==> (#[trigger] notes@[i]).status is Started,
                        forall|z: int| 0 <= z < self.cases@.len() && self.cases@[z].state != o.cases@[z].state ==> #[trigger] noted(notes@, z),
                        self.wf(),
                        self.dag == o.dag,
                        self.commits == o.commits,
                        self.cases@.len() == o.cases@.len(),
                        0 <= c < self.commits@.len(),
                        0 <= y <= self.cases@.len(),
                        forall|y2: int| 0 <= y2 < o.cases@.len() ==> #[trigger] self.cases@[y2] == o.cases@[y2]
                            || (o.cases@[y2].state == CaseState::BlockedOnResource && self.cases@[y2] == (Case {
                                state: CaseState::Running,
                                ..o.cases@[y2]
                            })),
                        forall|y2: int| 0 <= y2 < o.cases@.len() && o.cases@[y2].state != CaseState::Running
                            && (#[trigger] self.cases@[y2]).state == CaseState::Running ==> actions@.contains(Action::Start(y2 as usize)),
                    decreases self.cases@.len() - y,
                {
                    if self.cases[y].test == ti && self.cases[y].state == CaseState::BlockedOnResource
                        && self.cases[y].commit.eq(&self.commits[c]) {
                        let ghost before = *self;
                        if self.try_start(y) {
                            let ghost prev = actions@;
                            actions.push(Action::Start(y));
                            proof {
                                lemma_push_keeps(prev, Action::Start(y));
                                assert forall|y2: int| 0 <= y2 < o.cases@.len() implies #[trigger] self.cases@[y2] == o.cases@[y2]
                                    || (o.cases@[y2].state == CaseState::BlockedOnResource && self.cases@[y2] == (Case {
                                        state: CaseState::Running,
                                        ..o.cases@[y2]
                                    })) by {
                                    if y2 != y {
                                        assert(self.cases@[y2] == before.cases@[y2]);
                                    } else {
                                        assert(before.cases@[y2] == o.cases@[y2]);
                                    }
                                }
                            }
                            let note = Notification { case: y, status: TestStatus::Started };
                    proof {
                        lemma_started_noted(o, before, *self, notes@, note, y as int);
                        lemma_noted_push(notes@, note);
                    }
                    notes.push(note);
                        }
                    }
                    y += 1;
                }
                c += 1;
            }
            k += 1;
        }
        // Any case that the ordered pass did not reach.
        let mut y: usize = 0;
        while y < self.cases.len()
            invariant
                notes_match(notes@, self.cases@),
                forall|i: int| 0 <= i < notes@.len() ==> (#[trigger] notes@[i]).status is Started,
                forall|z: int| 0 <= z < self.cases@.len() && self.cases@[z].state != o.cases@[z].state ==> #[trigger] noted(notes@, z),
                self.wf(),
                self.dag == o.dag,
                self.commits == o.commits,
                self.cases@.len() == o.cases@.len(),
                0 <= y <= self.cases@.len(),
                forall|y2: int| 0 <= y2 < o.cases@.len() ==> #[trigger] self.cases@[y2] == o.cases@[y2]
                    || (o.cases@[y2].state == CaseState::BlockedOnResource && self.cases@[y2] == (Case {
                        state: CaseState::Running,
                        ..o.cases@[y2]
                    })),
                forall|y2: int| 0 <= y2 < o.cases@.len() && o.cases@[y2].state != CaseState::Running
                    && (#[trigger] self.cases@[y2]).state == CaseState::Running ==> actions@.contains(Action::Start(y2 as usize)),
                forall|y2: int| 0 <= y2 < y && (#[trigger] self.cases@[y2]).state == CaseState::BlockedOnResource
                    ==> self.blocked(y2),
            decreases self.cases@.len() - y,
        {
            if self.cases[y].state == CaseState::BlockedOnResource {
                let ghost before = *self;
                if self.try_start(y) {
                    let ghost prev = actions@;
                    actions.push(Action::Start(y));
                    proof {
                        lemma_push_keeps(prev, Action::Start(y));
                        assert forall|y2: int| 0 <= y2 < o.cases@.len() implies #[trigger] self.cases@[y2] == o.cases@[y2]
                            || (o.cases@[y2].state == CaseState::BlockedOnResource && self.cases@[y2] == (Case {
                                state: CaseState::Running,
                                ..o.cases@[y2]
                            })) by {
                            if y2 != y {
                                assert(self.cases@[y2] == before.cases@[y2]);
                            } else {
                                assert(before.cases@[y2] == o.cases@[y2]);
                            }
                        }
                        assert forall|y2: int| 0 <= y2 < y && (#[trigger] self.cases@[y2]).state == CaseState::BlockedOnResource
                            implies self.blocked(y2) by {
                            assert(self.cases@[y2] == before.cases@[y2]);
                            assert(before.blocked(y2));
                            crate::resource::lemma_fewer_free(before.pools, self.pools, self.nodes()[self.cases@[y2].test as int].needs_resources@);
                            lemma_running_count_start(before.cases@, y as int, self.cases@);
                            if exists|z: int| 0 <= z < before.cases@.len() && z != y2 && (#[trigger] before.cases@[z]).state == CaseState::Running
                                && before.same_job(y2, z) {
                                let z = choose|z: int| 0 <= z < before.cases@.len() && z != y2 && (#[trigger] before.cases@[z]).state == CaseState::Running
                                    && before.same_job(y2, z);
                                assert(self.cases@[z] == before.cases@[z]);
                            }
                        }
                    }
                    let note = Notification { case: y, status: TestStatus::Started };
                    proof {
                        lemma_started_noted(o, before, *self, notes@, note, y as int);
                        lemma_noted_push(notes@, note);
                    }
                    notes.push(note);
                } else {
                    assert(self.blocked(y as int));
                }
            }
            y += 1;
        }
        (actions, notes)
    }

    /// Resolves dependencies, then dispatches.
    pub fn advance(&mut self) -> (r: (Vec<Action>, Vec<Notification>))
        requires
            old(self).wf(),
        ensures
            final(self).wf(),
            final(self).commits == old(self).commits,
            final(self).cases@.len() == old(self).cases@.len(),
            forall|y: int| 0 <= y < final(self).cases@.len() && (#[trigger] final(self).cases@[y]).state
                == CaseState::BlockedOnResource ==> final(self).blocked(y),
            exists|mid: Scheduler| #![trigger dispatched(mid, *final(self))] mid.cases@.len() == old(self).cases@.len()
                && (forall|y: int| 0 <= y < old(self).cases@.len() ==> step_from_deps(*old(self), mid, y))
                && dispatched(mid, *final(self)),
            changes_noted(old(self).cases@, final(self).cases@, r.1@),
            forall|i: int| 0 <= i < r.1@.len() ==> (#[trigger] r.1@[i]).case < final(self).cases@.len(),
    {
        let ghost o = *self;
        let mut notes = self.resolve_deps();
        let ghost mid = *self;
        let ghost first = notes@;
        let (actions, mut more) = self.dispatch();
        let ghost second = more@;
        notes.append(&mut more);
        proof {
            assert(notes@ == first + second);
            assert forall|y: int| 0 <= y < self.cases@.len() && (y >= o.cases@.len() || self.cases@[y].state != o.cases@[y].state)
                implies #[trigger] noted(notes@, y) by {
                if mid.cases@[y].state != o.cases@[y].state {
                    assert(noted(first, y));
                    let i = choose|i: int| 0 <= i < first.len() && first[i].case == y;
                    assert(notes@[i] == first[i]);
                } else {
                    assert(noted(second, y));
                    let i = choose|i: int| 0 <= i < second.len() && second[i].case == y;
                    assert(notes@[first.len() + i] == second[i]);
                }
            }
            assert forall|i: int| 0 <= i < notes@.len() implies (#[trigger] notes@[i]).case < self.cases@.len() by {
                if i < first.len() {
                    assert(notes@[i] == first[i]);
                } else {
                    assert(notes@[i] == second[i - first.len()]);
                }
            }
            assert(dispatched(mid, *self));
        }
        (actions, notes)
    }

    /// Hands the tokens of case `x` back to the pool.
    fn release_alloc(&mut self, x: usize)
        requires
            old(self).wf_static(),
            old(self).wf_tokens(),
            x < old(self).cases@.len(),
            old(self).allocs@[x as int] is Some,
        ensures
            final(self).wf_static(),
            final(self).pools.wf(),
            final(self).dag == old(self).dag,
            final(self).deps == old(self).deps,
            final(self).commits == old(self).commits,
            final(self).cases == old(self).cases,
            final(self).allocs@ == old(self).allocs@.update(x as int, None),
            final(self).max_running == old(self).max_running,
            final(self).pools.keys@ == old(self).pools.keys@,
            final(self).pools.tokens@ == old(self).pools.tokens@,
            forall|y: int| 0 <= y < final(self).cases@.len() && y != x ==> ((#[trigger] final(self).allocs@[y]) is Some
                <==> final(self).cases@[y].state == CaseState::Running),
            tokens_agree(*final(self)),
    {
        let mut taken: Option<Allocation> = None;
        self.allocs.set_and_swap(x, &mut taken);
        let ghost before = self.pools;
        let ghost olda = old(self).allocs@;
        let ghost newa = self.allocs@;
        assert(newa == olda.update(x as int, None));
        match taken {
            Some(a) => {
                let ghost g = a.grants@;
                assert(olda[x as int] == Some(a));
                self.pools.release(a);
                proof {
                    assert forall|ki: int, t: int| 0 <= ki < self.pools.keys@.len() && 0 <= t < self.pools.free@[ki]@.len()
                        implies (#[trigger] self.pools.free@[ki]@[t] <==> !held(newa, ki, t)) by {
                        assert(self.pools.free@[ki]@[t] == (before.free@[ki]@[t] || holds(g, ki, t)));
                        assert(before.free@[ki]@[t] <==> !held(olda, ki, t));
                        if held(newa, ki, t) {
                            let y = choose|y: int| 0 <= y < newa.len() && newa[y] is Some && #[trigger] holds(newa[y]->Some_0.grants@, ki, t);
                            assert(y != x);
                            assert(olda[y] == newa[y]);
                            assert(held(olda, ki, t));
                            if holds(g, ki, t) {
                                assert(holds(olda[x as int]->Some_0.grants@, ki, t));
                                assert(holds(olda[y]->Some_0.grants@, ki, t));
                            }
                        } else {
                            if held(olda, ki, t) {
                                let y = choose|y: int| 0 <= y < olda.len() && olda[y] is Some && #[trigger] holds(olda[y]->Some_0.grants@, ki, t);
                                if y != x {
                                    assert(newa[y] == olda[y]);
                                }
                            }
                        }
                    }
                    assert forall|y: int| 0 <= y < self.allocs@.len() && (#[trigger] self.allocs@[y]) is Some implies forall|e: int|
                        0 <= e < self.allocs@[y]->Some_0.grants@.len() ==> (#[trigger] self.allocs@[y]->Some_0.grants@[e]).key_index
                            < self.pools.keys@.len() && forall|m: int| 0 <= m < self.allocs@[y]->Some_0.grants@[e].indices@.len()
                            ==> #[trigger] self.allocs@[y]->Some_0.grants@[e].indices@[m]
                            < self.pools.tokens@[self.allocs@[y]->Some_0.grants@[e].key_index as int]@.len() by {
                        assert(olda[y] == newa[y]);
                    }
                    assert forall|y1: int, y2: int, ki: int, t: int| 0 <= y1 < newa.len() && 0 <= y2 < newa.len()
                        && newa[y1] is Some && newa[y2] is Some && #[trigger] holds(newa[y1]->Some_0.grants@, ki, t)
                        && #[trigger] holds(newa[y2]->Some_0.grants@, ki, t) implies y1 == y2 by {
                        assert(olda[y1] == newa[y1]);
                        assert(olda[y2] == newa[y2]);
                    }
                }
            },
            None => {
                assert(false);
            },
        }
    }

    /// Reserves the tokens that case `x` needs; `false`, and no change, where
    /// the pool cannot meet the request now.
    fn acquire_for(&mut self, x: usize) -> (r: bool)
        requires
            old(self).wf_static(),
            tokens_agree(*old(self)),
            old(self).pools.wf(),
            x < old(self).cases@.len(),
            old(self).allocs@[x as int] is None,
        ensures
            final(self).wf_static(),
            final(self).pools.wf(),
            tokens_agree(*final(self)),
            final(self).max_running == old(self).max_running,
            final(self).dag == old(self).dag,
            final(self).deps == old(self).deps,
            final(self).commits == old(self).commits,
            final(self).cases == old(self).cases,
            final(self).pools.keys@ == old(self).pools.keys@,
            final(self).pools.tokens@ == old(self).pools.tokens@,
            r <==> old(self).pools.satisfiable(old(self).nodes()[old(self).cases@[x as int].test as int].needs_resources@),
            !r ==> *final(self) == *old(self),
            final(self).pools.same_tokens(&old(self).pools),
            forall|ki: int, t: int| 0 <= ki < old(self).pools.keys@.len() && 0 <= t < old(self).pools.free@[ki]@.len()
                && #[trigger] final(self).pools.free@[ki]@[t] ==> old(self).pools.free@[ki]@[t],
            r ==> final(self).allocs@ == old(self).allocs@.update(x as int, final(self).allocs@[x as int])
                && final(self).allocs@[x as int] is Some,
    {
        let ti = self.cases[x].test;
        let t = self.dag.get(ti);
        let ghost before = self.pools;
        let ghost olda = self.allocs@;
        assert(keys_distinct(self.nodes()[ti as int].needs_resources@));
        match self.pools.acquire(&t.needs_resources) {
            None => false,
            Some(a) => {
                let ghost g = a.grants@;
                let ghost need = t.needs_resources@;
                let mut slot = Some(a);
                self.allocs.set_and_swap(x, &mut slot);
                let ghost newa = self.allocs@;
                proof {
                    assert(newa == olda.update(x as int, Some(a)));
                    assert forall|ki: int, t2: int| 0 <= ki < self.pools.keys@.len() && 0 <= t2 < self.pools.free@[ki]@.len()
                        implies (#[trigger] self.pools.free@[ki]@[t2] <==> !held(newa, ki, t2)) by {
                        assert(self.pools.free@[ki]@[t2] == (before.free@[ki]@[t2] && !holds(g, ki, t2)));
                        assert(before.free@[ki]@[t2] <==> !held(olda, ki, t2));
                        if held(newa, ki, t2) {
                            let y = choose|y: int| 0 <= y < newa.len() && newa[y] is Some && #[trigger] holds(newa[y]->Some_0.grants@, ki, t2);
                            if y != x {
                                assert(olda[y] == newa[y]);
                                assert(held(olda, ki, t2));
                            }
                        }
                        if held(olda, ki, t2) {
                            let y = choose|y: int| 0 <= y < olda.len() && olda[y] is Some && #[trigger] holds(olda[y]->Some_0.grants@, ki, t2);
                            assert(y != x);
                            assert(newa[y] == olda[y]);
                        }
                        if holds(g, ki, t2) {
                            assert(holds(newa[x as int]->Some_0.grants@, ki, t2));
                        }
                    }
                    assert forall|y: int| 0 <= y < newa.len() && (#[trigger] newa[y]) is Some implies forall|e: int|
                        0 <= e < newa[y]->Some_0.grants@.len() ==> (#[trigger] newa[y]->Some_0.grants@[e]).key_index
                            < self.pools.keys@.len() && forall|m: int| 0 <= m < newa[y]->Some_0.grants@[e].indices@.len()
                            ==> #[trigger] newa[y]->Some_0.grants@[e].indices@[m]
                            < self.pools.tokens@[newa[y]->Some_0.grants@[e].key_index as int]@.len() by {
                        if y != x {
                            assert(olda[y] == newa[y]);
                        } else {
                            assert forall|e: int| 0 <= e < g.len() implies (#[trigger] g[e]).key_index < self.pools.keys@.len()
                                && forall|m: int| 0 <= m < g[e].indices@.len() ==> #[trigger] g[e].indices@[m]
                                < self.pools.tokens@[g[e].key_index as int]@.len() by {
                                assert(crate::resource::grant_ok(before, g[e], need[e]));
                            }
                        }
                    }
                    assert forall|y1: int, y2: int, ki: int, t2: int| 0 <= y1 < newa.len() && 0 <= y2 < newa.len()
                        && newa[y1] is Some && newa[y2] is Some && #[trigger] holds(newa[y1]->Some_0.grants@, ki, t2)
                        && #[trigger] holds(newa[y2]->Some_0.grants@, ki, t2) implies y1 == y2 by {
                        if y1 != x && y2 != x {
                            assert(olda[y1] == newa[y1]);
                            assert(olda[y2] == newa[y2]);
                        } else {
                            // The new tokens were free, so no other case held them.
                            let (e, m) = choose|e: int, m: int| 0 <= e < g.len() && 0 <= m < g[e].indices@.len()
                                && g[e].key_index == ki && #[trigger] g[e].indices@[m] == t2;
                            assert(crate::resource::grant_ok(before, g[e], need[e]));
                            assert(before.free@[ki]@[t2]);
                            let other = if y1 == x { y2 } else { y1 };
                            if other != x {
                                assert(olda[other] == newa[other]);
                                assert(held(olda, ki, t2));
                            }
                        }
                    }
                }
                true
            },
        }
    }
}

proof fn lemma_push_keeps<A>(s: Seq<A>, a: A)
    ensures
        forall|b: A| s.contains(b) ==> #[trigger] s.push(a).contains(b),
        s.push(a).contains(a),
{
    assert forall|b: A| s.contains(b) implies #[trigger] s.push(a).contains(b) by {
        let i = choose|i: int| 0 <= i < s.len() && s[i] == b;
        assert(s.push(a)[i] == b);
    }
    assert(s.push(a)[s.len() as int] == a);
}

/// One step of `resolve_deps`, at case `y`, keeps its relation to the start.
proof fn lemma_resolve_step(o: Scheduler, before: Scheduler, after: Scheduler, y: int)
    requires
        o.wf(),
        before.wf_static(),
        before.deps == o.deps,
        before.cases@.len() == o.cases@.len(),
        0 <= y < o.cases@.len(),
        forall|z: int| 0 <= z < y ==> step_from_deps(o, before, z),
        forall|z: int| y <= z < o.cases@.len() ==> #[trigger] before.cases@[z] == o.cases@[z],
        forall|d: int, c: Seq<char>| #[trigger] done_ok(before.cases@, d, c) == done_ok(o.cases@, d, c),
        forall|d: int, c: Seq<char>| #[trigger] failed_at(o.cases@, d, c) ==> failed_at(before.cases@, d, c),
        after.deps == before.deps,
        after.cases@ == before.cases@.update(y, Case {
            state: if before.cases@[y].state == CaseState::BlockedOnDep && before.deps_done(y) {
                CaseState::BlockedOnResource
            } else if before.cases@[y].state == CaseState::BlockedOnDep && before.dep_failed(y) {
                CaseState::Errored
            } else {
                before.cases@[y].state
            },
            ..before.cases@[y]
        }),
        forall|d: int, c: Seq<char>| #[trigger] done_ok(after.cases@, d, c) == done_ok(before.cases@, d, c),
        forall|d: int, c: Seq<char>| #[trigger] failed_at(before.cases@, d, c) ==> failed_at(after.cases@, d, c),
    ensures
        forall|z: int| 0 <= z <= y ==> step_from_deps(o, after, z),
        forall|d: int, c: Seq<char>| #[trigger] failed_at(o.cases@, d, c) ==> failed_at(after.cases@, d, c),
{
    assert forall|d: int, c: Seq<char>| #[trigger] failed_at(o.cases@, d, c) implies failed_at(after.cases@, d, c) by {
        assert(failed_at(before.cases@, d, c));
    }
    assert forall|z: int| 0 <= z <= y && before.dep_failed(z) implies after.dep_failed(z) by {
        let t = before.cases@[z].test as int;
        let k2 = choose|k2: int| 0 <= k2 < before.deps@[t]@.len() && failed_at(before.cases@, #[trigger] before.deps@[t]@[k2] as int, before.cases@[z].commit@);
        assert(failed_at(after.cases@, after.deps@[after.cases@[z].test as int]@[k2] as int, after.cases@[z].commit@));
    }
    let t = o.cases@[y].test as int;
    if o.deps_done(y) {
        assert forall|k2: int| 0 <= k2 < before.deps@[t]@.len() implies done_ok(before.cases@, #[trigger] before.deps@[t]@[k2] as int, before.cases@[y].commit@) by {
            assert(done_ok(o.cases@, o.deps@[t]@[k2] as int, o.cases@[y].commit@));
        }
    }
    if o.dep_failed(y) {
        let k2 = choose|k2: int| 0 <= k2 < o.deps@[t]@.len() && failed_at(o.cases@, #[trigger] o.deps@[t]@[k2] as int, o.cases@[y].commit@);
        assert(failed_at(before.cases@, before.deps@[t]@[k2] as int, before.cases@[y].commit@));
    }
    if !o.deps_done(y) {
        if before.deps_done(y) {
            let k2 = choose|k2: int| 0 <= k2 < o.deps@[t]@.len() && !done_ok(o.cases@, #[trigger] o.deps@[t]@[k2] as int, o.cases@[y].commit@);
            assert(done_ok(before.cases@, before.deps@[t]@[k2] as int, before.cases@[y].commit@));
        }
    }
    assert(step_from_deps(o, after, y));
    assert forall|z: int| 0 <= z < y implies step_from_deps(o, after, z) by {
        assert(step_from_deps(o, before, z));
        assert(after.cases@[z] == before.cases@[z]);
    }
}

/// How `dispatch` moved the cases from `a` to `b`: some cases waiting for
/// resources started, nothing else changed, and every case still waiting
/// is blocked.
pub open spec fn dispatched(a: Scheduler, b: Scheduler) -> bool {
    &&& b.cases@.len() == a.cases@.len()
    &&& forall|y: int| 0 <= y < a.cases@.len() ==> #[trigger] b.cases@[y] == a.cases@[y] || (a.cases@[y].state
        == CaseState::BlockedOnResource && b.cases@[y] == (Case { state: CaseState::Running, ..a.cases@[y] }))
    &&& forall|y: int| 0 <= y < b.cases@.len() && (#[trigger] b.cases@[y]).state == CaseState::BlockedOnResource
        ==> b.blocked(y)
}

/// Noting a case that just started keeps the notes of a dispatch accurate.
proof fn lemma_started_noted(o: Scheduler, before: Scheduler, after: Scheduler, notes: Seq<Notification>, note: Notification, y: int)
    requires
        0 <= y < before.cases@.len(),
        before.cases@.len() == o.cases@.len(),
        before.cases@[y].state == CaseState::BlockedOnResource,
        after.cases@ == before.cases@.update(y, Case { state: CaseState::Running, ..before.cases@[y] }),
        note.case == y,
        note.status is Started,
        notes_match(notes, before.cases@),
        forall|i: int| 0 <= i < notes.len() ==> (#[trigger] notes[i]).status is Started,
        forall|z: int| 0 <= z < before.cases@.len() && before.cases@[z].state != o.cases@[z].state ==> #[trigger] noted(notes, z),
    ensures
        notes_match(notes.push(note), after.cases@),
        forall|i: int| 0 <= i < notes.push(note).len() ==> (#[trigger] notes.push(note)[i]).status is Started,
        forall|z: int| 0 <= z < after.cases@.len() && after.cases@[z].state != o.cases@[z].state ==> #[trigger] noted(notes.push(note), z),
{
    lemma_noted_push(notes, note);
    let np = notes.push(note);
    assert forall|i: int| 0 <= i < np.len() implies (#[trigger] np[i]).case < after.cases@.len() && describes(
        np[i].status, after.cases@[np[i].case as int].state) by {
        if i < notes.len() {
            assert(np[i] == notes[i]);
            assert(describes(notes[i].status, before.cases@[notes[i].case as int].state));
            if notes[i].case != y {
                assert(after.cases@[notes[i].case as int] == before.cases@[notes[i].case as int]);
            }
        }
    }
    assert forall|i: int| 0 <= i < np.len() implies (#[trigger] np[i]).status is Started by {
        if i < notes.len() {
            assert(np[i] == notes[i]);
        }
    }
    assert forall|z: int| 0 <= z < after.cases@.len() && after.cases@[z].state != o.cases@[z].state implies #[trigger] noted(np, z) by {
        if z != y {
            assert(after.cases@[z] == before.cases@[z]);
            assert(noted(notes, z));
        }
    }
}

/// Noting a change of case `y`, that no earlier note could describe.
proof fn lemma_note_change(before: Seq<Case>, after: Seq<Case>, notes: Seq<Notification>, note: Notification, y: int)
    requires
        0 <= y < before.len(),
        after.len() == before.len(),
        forall|z: int| 0 <= z < before.len() && z != y ==> #[trigger] after[z] == before[z],
        note.case == y,
        describes(note.status, after[y].state),
        notes_match(notes, before),
        forall|i: int| 0 <= i < notes.len() ==> !describes((#[trigger] notes[i]).status, before[y].state),
    ensures
        notes_match(notes.push(note), after),
        forall|z: int| #[trigger] noted(notes, z) ==> noted(notes.push(note), z),
        noted(notes.push(note), y),
{
    lemma_noted_push(notes, note);
    let np = notes.push(note);
    assert forall|i: int| 0 <= i < np.len() implies (#[trigger] np[i]).case < after.len() && describes(
        np[i].status, after[np[i].case as int].state) by {
        if i < notes.len() {
            assert(np[i] == notes[i]);
            assert(describes(notes[i].status, before[notes[i].case as int].state));
            if notes[i].case == y {
                assert(!describes(notes[i].status, before[y].state));
            }
        }
    }
}

/// Noting a new case appended to the list.
proof fn lemma_note_new_case(before: Seq<Case>, after: Seq<Case>, notes: Seq<Notification>, note: Notification)
    requires
        after.len() == before.len() + 1,
        forall|z: int| 0 <= z < before.len() ==> #[trigger] after[z] == before[z],
        note.case == before.len(),
        describes(note.status, after[before.len() as int].state),
        notes_match(notes, before),
    ensures
        notes_match(notes.push(note), after),
        forall|z: int| #[trigger] noted(notes, z) ==> noted(notes.push(note), z),
        noted(notes.push(note), before.len() as int),
{
    lemma_noted_push(notes, note);
    let np = notes.push(note);
    assert forall|i: int| 0 <= i < np.len() implies (#[trigger] np[i]).case < after.len() && describes(
        np[i].status, after[np[i].case as int].state) by {
        if i < notes.len() {
            assert(np[i] == notes[i]);
            assert(describes(notes[i].status, before[notes[i].case as int].state));
        }
    }
}

/// The status that a notification of a case in state `s` carries.
pub open spec fn describes(st: TestStatus, s: CaseState) -> bool {
    match s {
        CaseState::Enqueued => st is Enqueued,
        CaseState::BlockedOnDep => st is BlockedOnDep,
        CaseState::BlockedOnResource => st is BlockedOnResource,
        CaseState::Running => st is Started,
        CaseState::Completed(c) => st is Completed && st->Completed_0 == c,
        CaseState::Errored => st is Error,
        CaseState::Aborted => st is Aborted,
    }
}

/// Each notification names a case and describes its state.
pub open spec fn notes_match(notes: Seq<Notification>, cases: Seq<Case>) -> bool {
    forall|i: int| 0 <= i < notes.len() ==> (#[trigger] notes[i]).case < cases.len() && describes(
        notes[i].status,
        cases[notes[i].case as int].state,
    )
}

/// Some notification names case `y`.
pub open spec fn noted(notes: Seq<Notification>, y: int) -> bool {
    exists|i: int| 0 <= i < notes.len() && notes[i].case == y
}

/// Every case that is new in `b`, or whose state differs from `a`, is noted.
pub open spec fn changes_noted(a: Seq<Case>, b: Seq<Case>, notes: Seq<Notification>) -> bool {
    forall|y: int| 0 <= y < b.len() && (y >= a.len() || b[y].state != a[y].state) ==> #[trigger] noted(notes, y)
}

proof fn lemma_noted_push(notes: Seq<Notification>, n: Notification)
    ensures
        forall|y: int| #[trigger] noted(notes, y) ==> noted(notes.push(n), y),
        noted(notes.push(n), n.case as int),
{
    assert forall|y: int| #[trigger] noted(notes, y) implies noted(notes.push(n), y) by {
        let i = choose|i: int| 0 <= i < notes.len() && notes[i].case == y;
        assert(notes.push(n)[i].case == y);
    }
    assert(notes.push(n)[notes.len() as int].case == n.case);
}

/// A state that makes dependents fail.
pub open spec fn bad_state(s: CaseState) -> bool {
    (s is Completed && s != CaseState::Completed(0)) || s == CaseState::Errored
}

/// Some case of test `d` at commit `c` failed or ended in error.
pub open spec fn failed_at(cases: Seq<Case>, d: int, c: Seq<char>) -> bool {
    exists|y: int| 0 <= y < cases.len() && cases[y].test == d && cases[y].commit@ == c && #[trigger] bad_state(cases[y].state)
}

/// How `resolve_deps` moved case `y` from `a` to `b`: a case waiting for its
/// dependencies waits for resources if they had all completed successfully,
/// ends in error if one had failed, and otherwise may only take one of these
/// two steps; it ends in error only where a dependency failed (possibly in
/// the same pass, so the failure is stated of `b`); any other case is
/// untouched.
pub open spec fn step_from_deps(a: Scheduler, b: Scheduler, y: int) -> bool {
    let ca = a.cases@[y];
    let cb = b.cases@[y];
    &&& cb.test == ca.test && cb.commit == ca.commit && cb.tree == ca.tree
    &&& ca.state != CaseState::BlockedOnDep ==> cb == ca
    &&& ca.state == CaseState::BlockedOnDep ==> (cb.state == CaseState::BlockedOnDep || cb.state
        == CaseState::BlockedOnResource || cb.state == CaseState::Errored)
    &&& ca.state == CaseState::BlockedOnDep && a.deps_done(y) ==> cb.state == CaseState::BlockedOnResource
    &&& ca.state == CaseState::BlockedOnDep && !a.deps_done(y) && a.dep_failed(y) ==> cb.state == CaseState::Errored
    &&& ca.state == CaseState::BlockedOnDep && cb.state == CaseState::Errored ==> b.dep_failed(y)
}

proof fn lemma_failed_kept(a: Seq<Case>, b: Seq<Case>, x: int)
    requires
        0 <= x < a.len(),
        !bad_state(a[x].state),
        b.len() >= a.len(),
        forall|y: int| 0 <= y < a.len() && y != x ==> #[trigger] b[y] == a[y],
        b[x].test == a[x].test,
        b[x].commit == a[x].commit,
    ensures
        forall|d: int, c: Seq<char>| #[trigger] failed_at(a, d, c) ==> failed_at(b, d, c),
{
    assert forall|d: int, c: Seq<char>| #[trigger] failed_at(a, d, c) implies failed_at(b, d, c) by {
        let y = choose|y: int| 0 <= y < a.len() && a[y].test == d && a[y].commit@ == c && #[trigger] bad_state(a[y].state);
        assert(y != x);
        assert(b[y] == a[y]);
    }
}

/// At every state the scheduler reaches, at most one process runs per test
/// and cache key: two running cases of one test have different keys.
pub proof fn lemma_one_job_per_key(s: Scheduler, x: int, y: int)
    requires
        s.wf(),
        0 <= x < s.cases@.len(),
        0 <= y < s.cases@.len(),
        x != y,
        s.cases@[x].state == CaseState::Running,
        s.cases@[y].state == CaseState::Running,
        s.cases@[x].test == s.cases@[y].test,
    ensures
        s.dedup_key(s.cases@[x]) != s.dedup_key(s.cases@[y]),
{
}

/// A case runs only after every dependency completed with exit code 0 at
/// the same commit.
pub proof fn lemma_started_after_deps(s: Scheduler, x: int, k: int)
    requires
        s.wf(),
        0 <= x < s.cases@.len(),
        s.cases@[x].state == CaseState::Running,
        0 <= k < s.deps@[s.cases@[x].test as int]@.len(),
    ensures
        exists|y: int| 0 <= y < s.cases@.len() && s.cases@[y].test == s.deps@[s.cases@[x].test as int]@[k]
            && s.cases@[y].commit@ == s.cases@[x].commit@ && #[trigger] s.cases@[y].state == CaseState::Completed(0),
{
    assert(done_ok(s.cases@, s.deps@[s.cases@[x].test as int]@[k] as int, s.cases@[x].commit@));
}

/// No token leaks: every token that is not free is held by exactly one case,
/// which is running at a commit of the current revision set. After a change
/// of the revision set, the cases of commits that left it hold nothing.
pub proof fn lemma_tokens_held_by_live_cases(s: Scheduler, ki: int, t: int)
    requires
        s.wf(),
        0 <= ki < s.pools.keys@.len(),
        0 <= t < s.pools.free@[ki]@.len(),
        !s.pools.free@[ki]@[t],
    ensures
        exists|x: int| 0 <= x < s.cases@.len() && s.allocs@[x] is Some && #[trigger] holds(s.allocs@[x]->Some_0.grants@, ki, t)
            && s.cases@[x].state == CaseState::Running && texts(s.commits@).contains(s.cases@[x].commit@),
        forall|x: int, y: int| 0 <= x < s.cases@.len() && 0 <= y < s.cases@.len() && s.allocs@[x] is Some
            && s.allocs@[y] is Some && #[trigger] holds(s.allocs@[x]->Some_0.grants@, ki, t)
            && #[trigger] holds(s.allocs@[y]->Some_0.grants@, ki, t) ==> x == y,
{
    assert(held(s.allocs@, ki, t));
    let x = choose|x: int| 0 <= x < s.allocs@.len() && s.allocs@[x] is Some && #[trigger] holds(s.allocs@[x]->Some_0.grants@, ki, t);
    assert(s.cases@[x].state == CaseState::Running);
    assert(!s.cases@[x].state.terminal());
}

/// A test that is never cached has no cache key, so it is never looked up
/// and never stored.
pub proof fn lemma_no_cache_no_key(commit: Seq<char>, tree: Seq<char>)
    ensures
        spec_cache_key(CachePolicy::NoCache, commit, tree) is None,
{
}

/// How many cases run.
pub open spec fn running_count(cases: Seq<Case>) -> nat
    decreases cases.len(),
{
    if cases.len() == 0 {
        0
    } else {
        running_count(cases.drop_last()) + if cases.last().state == CaseState::Running {
            1nat
        } else {
            0nat
        }
    }
}

/// Starting one case that was not running adds one running case.
proof fn lemma_running_count_start(a: Seq<Case>, y: int, b: Seq<Case>)
    requires
        0 <= y < a.len(),
        a[y].state != CaseState::Running,
        b == a.update(y, Case { state: CaseState::Running, ..a[y] }),
    ensures
        running_count(b) == running_count(a) + 1,
    decreases a.len(),
{
    if y < a.len() - 1 {
        assert(b.drop_last() =~= a.drop_last().update(y, Case { state: CaseState::Running, ..a[y] }));
        lemma_running_count_start(a.drop_last(), y, b.drop_last());
    } else {
        assert(b.drop_last() =~= a.drop_last());
    }
}

/// The default limit of jobs that run at once.
pub const DEFAULT_MAX_RUNNING: usize = 64;

/// The commit hashes of a revision set.
pub open spec fn hashes(revs: Seq<Commit>) -> Seq<Seq<char>> {
    revs.map_values(|c: Commit| c.hash@)
}

/// Some case of test `i` at commit `c` is not aborted.
pub open spec fn has_case(cases: Seq<Case>, i: int, c: Seq<char>) -> bool {
    exists|y: int| 0 <= y < cases.len() && cases[y].test == i && cases[y].commit@ == c
        && cases[y].state != CaseState::Aborted
}

fn contains_text(v: &Vec<String>, s: &String) -> (r: bool)
    ensures
        r == texts(v@).contains(s@),
{
    let mut k: usize = 0;
    while k < v.len()
        invariant
            0 <= k <= v@.len(),
            forall|c: int| 0 <= c < k ==> v@[c]@ != s@,
        decreases v@.len() - k,
    {
        if v[k].eq(s) {
            assert(texts(v@)[k as int] == s@);
            return true;
        }
        k += 1;
    }
    false
}

/// Appending an enqueued case of a commit of the set, with no allocation,
/// keeps the invariant.
proof fn lemma_push_case(a: Scheduler, b: Scheduler)
    requires
        a.wf(),
        b.dag == a.dag,
        b.deps == a.deps,
        b.commits == a.commits,
        b.pools == a.pools,
        b.cases@.len() == a.cases@.len() + 1,
        b.allocs@ == a.allocs@.push(None),
        forall|y: int| 0 <= y < a.cases@.len() ==> #[trigger] b.cases@[y] == a.cases@[y],
        b.cases@.last().state == CaseState::Enqueued,
        b.cases@.last().test < a.nodes().len(),
        texts(a.commits@).contains(b.cases@.last().commit@),
    ensures
        b.wf(),
        forall|i: int, c: Seq<char>| #[trigger] has_case(a.cases@, i, c) ==> has_case(b.cases@, i, c),
{
    let n = a.cases@.len() as int;
    assert forall|d: int, c: Seq<char>| #[trigger] done_ok(a.cases@, d, c) implies done_ok(b.cases@, d, c) by {
        let y = choose|y: int| 0 <= y < a.cases@.len() && a.cases@[y].test == d && a.cases@[y].commit@ == c
            && #[trigger] a.cases@[y].state == CaseState::Completed(0);
        assert(b.cases@[y] == a.cases@[y]);
    }
    assert forall|i: int, c: Seq<char>| #[trigger] has_case(a.cases@, i, c) implies has_case(b.cases@, i, c) by {
        let y = choose|y: int| 0 <= y < a.cases@.len() && a.cases@[y].test == i && a.cases@[y].commit@ == c
            && a.cases@[y].state != CaseState::Aborted;
        assert(b.cases@[y] == a.cases@[y]);
    }
    assert forall|ki: int, t: int| #[trigger] held(b.allocs@, ki, t) == held(a.allocs@, ki, t) by {
        if held(b.allocs@, ki, t) {
            let y = choose|y: int| 0 <= y < b.allocs@.len() && b.allocs@[y] is Some && #[trigger] holds(b.allocs@[y]->Some_0.grants@, ki, t);
            assert(a.allocs@[y] == b.allocs@[y]);
        }
        if held(a.allocs@, ki, t) {
            let y = choose|y: int| 0 <= y < a.allocs@.len() && a.allocs@[y] is Some && #[trigger] holds(a.allocs@[y]->Some_0.grants@, ki, t);
            assert(a.allocs@[y] == b.allocs@[y]);
        }
    }
    assert forall|x: int| 0 <= x < b.cases@.len() implies ((#[trigger] b.allocs@[x]) is Some
        <==> b.cases@[x].state == CaseState::Running) by {
        if x < n {
            assert(b.cases@[x] == a.cases@[x]);
        }
    }
    assert(tokens_agree(b)) by {
        assert forall|x: int, y: int, ki: int, t: int| 0 <= x < b.allocs@.len() && 0 <= y < b.allocs@.len()
            && b.allocs@[x] is Some && b.allocs@[y] is Some && #[trigger] holds(b.allocs@[x]->Some_0.grants@, ki, t)
            && #[trigger] holds(b.allocs@[y]->Some_0.grants@, ki, t) implies x == y by {
            assert(a.allocs@[x] == b.allocs@[x]);
            assert(a.allocs@[y] == b.allocs@[y]);
        }
    }
    assert(b.wf_one_job());
    assert(b.wf_deps_done()) by {
        assert forall|x: int, k: int| 0 <= x < b.cases@.len() && ((#[trigger] b.cases@[x]).state == CaseState::Running
            || b.cases@[x].state == CaseState::BlockedOnResource) && 0 <= k < b.deps@[b.cases@[x].test as int]@.len()
            implies done_ok(b.cases@, #[trigger] b.deps@[b.cases@[x].test as int]@[k] as int, b.cases@[x].commit@) by {
            assert(x < n);
            assert(b.cases@[x] == a.cases@[x]);
            assert(done_ok(a.cases@, a.deps@[a.cases@[x].test as int]@[k] as int, a.cases@[x].commit@));
        }
    }
    assert(b.wf_live_in_set()) by {
        assert forall|x: int| 0 <= x < b.cases@.len() && !(#[trigger] b.cases@[x]).state.terminal()
            implies texts(b.commits@).contains(b.cases@[x].commit@) by {
            if x < n {
                assert(b.cases@[x] == a.cases@[x]);
            }
        }
    }
}

/// Changing one case that was not a successful completion keeps every
/// successful completion.
proof fn lemma_done_ok_kept(a: Seq<Case>, b: Seq<Case>, x: int)
    requires
        0 <= x < a.len(),
        a[x].state != CaseState::Completed(0),
        b.len() >= a.len(),
        forall|y: int| 0 <= y < a.len() && y != x ==> #[trigger] b[y] == a[y],
        b[x].test == a[x].test,
        b[x].commit == a[x].commit,
    ensures
        forall|d: int, c: Seq<char>| #[trigger] done_ok(a, d, c) ==> done_ok(b, d, c),
{
    assert forall|d: int, c: Seq<char>| #[trigger] done_ok(a, d, c) implies done_ok(b, d, c) by {
        let y = choose|y: int| 0 <= y < a.len() && a[y].test == d && a[y].commit@ == c
            && #[trigger] a[y].state == CaseState::Completed(0);
        assert(y != x);
        assert(b[y] == a[y]);
    }
}

/// The pool's free tokens are exactly those that no allocation holds, no
/// token is held twice, and every allocation names tokens of the pool.
pub open spec fn tokens_agree(s: Scheduler) -> bool {
    &&& forall|x: int| 0 <= x < s.allocs@.len() && (#[trigger] s.allocs@[x]) is Some ==> forall|e: int|
        0 <= e < s.allocs@[x]->Some_0.grants@.len() ==> (#[trigger] s.allocs@[x]->Some_0.grants@[e]).key_index
            < s.pools.keys@.len() && forall|m: int| 0 <= m < s.allocs@[x]->Some_0.grants@[e].indices@.len()
            ==> #[trigger] s.allocs@[x]->Some_0.grants@[e].indices@[m]
            < s.pools.tokens@[s.allocs@[x]->Some_0.grants@[e].key_index as int]@.len()
    &&& forall|ki: int, t: int| 0 <= ki < s.pools.keys@.len() && 0 <= t < s.pools.free@[ki]@.len()
        ==> (#[trigger] s.pools.free@[ki]@[t] <==> !held(s.allocs@, ki, t))
    &&& forall|x: int, y: int, ki: int, t: int| 0 <= x < s.allocs@.len() && 0 <= y < s.allocs@.len()
        && s.allocs@[x] is Some && s.allocs@[y] is Some && #[trigger] holds(s.allocs@[x]->Some_0.grants@, ki, t)
        && #[trigger] holds(s.allocs@[y]->Some_0.grants@, ki, t) ==> x == y
}

} // verus!
