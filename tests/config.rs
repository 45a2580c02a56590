use limmat::config::{
    default_cache_policy, default_num_worktrees, default_requires_worktree, default_separate_outputs,
    default_shutdown_grace_period, default_true, Command, Config, ConfigError, ParsedConfig, Resource, Test,
};
use limmat::dag::{Dag, DagError};
use limmat::digest::digest_hex;
use limmat::resource::ResourceKey;
use limmat::testspec::{CachePolicy, TestSpec};

fn raw(name: &str, deps: &[&str], run_by_default: bool) -> Test {
    Test {
        name: name.to_string(),
        command: Command::Raw(vec!["echo".to_string(), name.to_string()]),
        requires_worktree: default_requires_worktree(),
        run_by_default,
        resources: None,
        shutdown_grace_period_s: default_shutdown_grace_period(),
        cache: default_cache_policy(),
        depends_on: deps.iter().map(|d| d.to_string()).collect(),
        error_exit_codes: vec![],
        separate_outputs: default_separate_outputs(),
    }
}

fn config(tests: Vec<Test>, resources: Option<Vec<Resource>>) -> Config {
    Config { num_worktrees: default_num_worktrees(), resources, tests }
}

fn none() -> Vec<String> {
    Vec::new()
}

#[test]
fn defaults() {
    assert_eq!(default_num_worktrees(), 8);
    assert!(default_requires_worktree());
    assert!(default_true());
    assert!(!default_separate_outputs());
    assert_eq!(default_cache_policy(), CachePolicy::ByCommit);
    assert_eq!(default_shutdown_grace_period(), 60);
}

#[test]
fn default_filtering_keeps_default_tests() {
    let c = config(vec![raw("default_test", &[], true), raw("non_default_test", &[], false)], None);
    let parsed = ParsedConfig::new(c.clone(), "/fake".to_string(), &none(), &none()).unwrap();
    assert!(parsed.tests.node(&"default_test".to_string()).is_some());
    assert!(parsed.tests.node(&"non_default_test".to_string()).is_none());
    let parsed = ParsedConfig::new(c, "/fake".to_string(), &none(), &vec!["non_default_test".to_string()]).unwrap();
    assert!(parsed.tests.node(&"non_default_test".to_string()).is_some());
    assert_eq!(parsed.num_worktrees, 8);
    assert_eq!(parsed.source_path, "/fake");
}

#[test]
fn default_dependency_failure_needs_explicit_selection() {
    let c = config(vec![raw("A", &["B"], true), raw("B", &[], false)], None);
    let r = ParsedConfig::new(c.clone(), "/fake".to_string(), &none(), &none());
    assert!(matches!(r, Err(ConfigError::Graph(DagError::NoSuchChild))));
    let r = ParsedConfig::new(c.clone(), "/fake".to_string(), &none(), &vec!["A".to_string()]);
    assert!(r.is_err());
    let r = ParsedConfig::new(c, "/fake".to_string(), &none(), &vec!["A".to_string(), "B".to_string()]);
    assert!(r.is_ok());
}

#[test]
fn skip_filter_removes_tests() {
    let c = config(vec![raw("unit", &[], true), raw("lint", &[], true)], None);
    let parsed = ParsedConfig::new(c, "/fake".to_string(), &vec!["^li".to_string()], &none()).unwrap();
    assert!(parsed.tests.node(&"unit".to_string()).is_some());
    assert!(parsed.tests.node(&"lint".to_string()).is_none());
}

#[test]
fn bad_filter_is_refused() {
    let c = config(vec![raw("unit", &[], true)], None);
    let r = ParsedConfig::new(c, "/fake".to_string(), &vec!["(".to_string()], &none());
    assert!(matches!(r, Err(ConfigError::BadPattern(p)) if p == "("));
}

#[test]
fn resource_tokens_are_numbered_or_explicit() {
    let c = config(
        vec![],
        Some(vec![
            Resource::Bare("gpu".to_string()),
            Resource::Counted { name: "lock".to_string(), count: 3 },
            Resource::Explicit { name: "port".to_string(), tokens: vec!["8080".to_string(), "8081".to_string()] },
        ]),
    );
    let toks = c.parse_resource_tokens();
    assert_eq!(toks.len(), 3);
    assert!(matches!(&toks[0].0, ResourceKey::UserToken(n) if n == "gpu"));
    assert_eq!(toks[0].1, vec!["gpu-0".to_string()]);
    assert_eq!(toks[1].1, vec!["lock-0".to_string(), "lock-1".to_string(), "lock-2".to_string()]);
    assert_eq!(toks[2].1, vec!["8080".to_string(), "8081".to_string()]);
    let r = Resource::Counted { name: "x".to_string(), count: 12 };
    assert_eq!(r.name(), "x");
    assert_eq!(r.count(), 12);
    let parsed = ParsedConfig::new(c, "/f".to_string(), &none(), &none()).unwrap();
    assert_eq!(parsed.resource_pools.keys.len(), 3);
    assert!(parsed.resource_pools.free.iter().all(|row| row.iter().all(|f| *f)));
}

#[test]
fn counted_token_with_two_digits() {
    let c = config(vec![], Some(vec![Resource::Counted { name: "slot".to_string(), count: 11 }]));
    let toks = c.parse_resource_tokens();
    assert_eq!(toks[0].1[10], "slot-10");
}

#[test]
fn duplicate_declaration_is_refused() {
    let c = config(vec![], Some(vec![Resource::Bare("a".to_string()), Resource::Counted { name: "a".to_string(), count: 2 }]));
    let r = ParsedConfig::new(c, "/f".to_string(), &none(), &none());
    assert!(matches!(r, Err(ConfigError::DuplicateResourceDeclaration(n)) if n == "a"));
}

#[test]
fn undefined_and_duplicate_references_are_refused() {
    let mut t = raw("t", &[], true);
    t.resources = Some(vec![Resource::Bare("missing".to_string())]);
    let r = ParsedConfig::new(config(vec![t], None), "/f".to_string(), &none(), &none());
    assert!(matches!(r, Err(ConfigError::UndefinedResource { resource, test }) if resource == "missing" && test == "t"));
    let mut t = raw("t", &[], true);
    t.resources = Some(vec![Resource::Bare("a".to_string()), Resource::Bare("a".to_string())]);
    let r = ParsedConfig::new(config(vec![t], Some(vec![Resource::Bare("a".to_string())])), "/f".to_string(), &none(), &none());
    assert!(matches!(r, Err(ConfigError::DuplicateResourceReference(n)) if n == "a"));
}

#[test]
fn zero_error_exit_code_is_refused() {
    let mut t = raw("t", &[], true);
    t.error_exit_codes = vec![3, 0];
    let r = ParsedConfig::new(config(vec![t], None), "/f".to_string(), &none(), &none());
    assert!(matches!(r, Err(ConfigError::ZeroErrorExitCode)));
}

#[test]
fn cycle_is_refused() {
    let c = config(vec![raw("a", &["b"], true), raw("b", &["a"], true)], None);
    let r = ParsedConfig::new(c, "/f".to_string(), &none(), &none());
    assert!(matches!(r, Err(ConfigError::Graph(DagError::Cycle))));
}

#[test]
fn lowering_fills_needs_and_command() {
    let mut t = raw("t", &[], true);
    t.command = Command::Shell("make check".to_string());
    t.resources = Some(vec![Resource::Counted { name: "lock".to_string(), count: 2 }]);
    let c = config(vec![t], Some(vec![Resource::Counted { name: "lock".to_string(), count: 2 }]));
    let parsed = ParsedConfig::new(c, "/f".to_string(), &none(), &none()).unwrap();
    let s: &TestSpec = parsed.tests.node(&"t".to_string()).unwrap();
    assert_eq!(s.program, "bash");
    assert_eq!(s.args, vec!["-c".to_string(), "make check".to_string()]);
    assert_eq!(s.needs_resources.len(), 2);
    assert!(matches!(&s.needs_resources[0], (ResourceKey::UserToken(n), 2) if n == "lock"));
    assert!(matches!(&s.needs_resources[1], (ResourceKey::Worktree, 1)));
    assert_eq!(s.config_hash.len(), 64);
    assert!(s.config_hash.chars().all(|c| c.is_ascii_hexdigit() && !c.is_ascii_uppercase()));
}

#[test]
fn config_hash_covers_dependencies() {
    let a1 = raw("a", &[], true);
    let mut a2 = raw("a", &[], true);
    a2.shutdown_grace_period_s = 5;
    let b = raw("b", &["a"], true);
    let base = ParsedConfig::new(config(vec![a1.clone(), b.clone()], None), "/f".to_string(), &none(), &none()).unwrap();
    let edited = ParsedConfig::new(config(vec![a2, b.clone()], None), "/f".to_string(), &none(), &none()).unwrap();
    let again = ParsedConfig::new(config(vec![a1, b], None), "/f".to_string(), &none(), &none()).unwrap();
    let h = |p: &ParsedConfig, n: &str| p.tests.node(&n.to_string()).unwrap().config_hash.clone();
    assert_ne!(h(&base, "a"), h(&edited, "a"));
    assert_ne!(h(&base, "b"), h(&edited, "b"));
    assert_eq!(h(&base, "b"), h(&again, "b"));
}

#[test]
fn sha3_digest_of_empty_input() {
    assert_eq!(digest_hex(&vec![]), "a7ffc6f8bf1ed76651c14756a061d662f580ff4de43b49fa82d80a4b80f8434a");
}

#[test]
fn canonical_bytes_start_with_the_name() {
    let t = raw("ab", &[], true);
    let b = t.canonical_bytes();
    assert_eq!(&b[0..10], &[2, 0, 0, 0, 0, 0, 0, 0, b'a', b'b']);
}

fn dag_of(v: &[(&str, &[&str])]) -> Result<Dag<TestSpec>, DagError> {
    Dag::new(
        v.iter()
            .map(|(n, d)| TestSpec {
                name: n.to_string(),
                program: String::new(),
                args: vec![],
                needs_resources: vec![],
                shutdown_grace_period_s: 0,
                cache_policy: CachePolicy::NoCache,
                config_hash: String::new(),
                depends_on: d.iter().map(|x| x.to_string()).collect(),
                error_exit_codes: vec![],
                separate_outputs: false,
            })
            .collect(),
    )
}

#[test]
fn dag_errors() {
    assert!(matches!(dag_of(&[("a", &[]), ("a", &[])]), Err(DagError::Duplicate)));
    assert!(matches!(dag_of(&[("a", &["x"])]), Err(DagError::NoSuchChild)));
    assert!(matches!(dag_of(&[("a", &["a"])]), Err(DagError::Cycle)));
}

#[test]
fn dag_orders_leaves_first_and_roots_first() {
    let d = dag_of(&[("top", &["mid"]), ("mid", &["leaf"]), ("leaf", &[]), ("other", &[])]).unwrap();
    let names: Vec<&str> = d.bottom_up().iter().map(|t| t.name.as_str()).collect();
    assert_eq!(names, vec!["leaf", "other", "mid", "top"]);
    let names: Vec<&str> = d.top_down().iter().map(|t| t.name.as_str()).collect();
    assert_eq!(names, vec!["top", "mid", "other", "leaf"]);
    assert!(d.node(&"mid".to_string()).is_some());
    assert!(d.node(&"nope".to_string()).is_none());
}

#[test]
fn dag_with_node_needs_children_present() {
    let d = dag_of(&[("leaf", &[])]).unwrap();
    let extra = dag_of(&[("x", &["leaf"])]);
    assert!(extra.is_err());
    let mk = |n: &str, deps: &[&str]| TestSpec {
        name: n.to_string(),
        program: String::new(),
        args: vec![],
        needs_resources: vec![],
        shutdown_grace_period_s: 0,
        cache_policy: CachePolicy::NoCache,
        config_hash: String::new(),
        depends_on: deps.iter().map(|x| x.to_string()).collect(),
        error_exit_codes: vec![],
        separate_outputs: false,
    };
    let d = d.with_node(mk("x", &["leaf"])).unwrap();
    assert_eq!(d.len(), 2);
    assert!(matches!(d.with_node(mk("y", &["zzz"])), Err(DagError::NoSuchChild)));
    let d = dag_of(&[("leaf", &[])]).unwrap();
    assert!(matches!(d.with_node(mk("leaf", &[])), Err(DagError::Duplicate)));
}
