//! The configuration as written by the user, and its lowering into the test
//! graph that the scheduler runs.
use vstd::prelude::*;
use vstd::utf8::encode_utf8;
use crate::dag::{Dag, DagError, GraphNode, acyclic, appears, children_present, depends, has_id, ids_unique, is_topo_order};
use crate::pattern::{Pattern, regex_matches, regex_valid};
use crate::digest::{fits, lemma_u64_prefix, lemma_byte_prefix, lemma_str_prefix, lemma_strs_prefix, enc_bool, enc_str, enc_strs, hex_of, le64, sha3_256_of, digest_hex, push_bool, push_str, push_strs, push_u64};
use crate::resource::{Pools, ResourceKey, clone_key, same_key};
use crate::testspec::{CachePolicy, TestSpec, texts};
use crate::scheduler::spec_cache_key;
use crate::util::{text_lt, is_text_lt};
use crate::git::push_char;

verus! {

/// A resource that the configuration declares, or that a test asks for.
#[derive(Debug, Clone)]
pub enum Resource {
    /// One token, named like the resource.
    Bare(String),
    /// Tokens whose values do not matter: `name-0` to `name-(count-1)`.
    Counted { name: String, count: usize },
    /// Tokens with the given values.
    Explicit { name: String, tokens: Vec<String> },
}

impl Resource {
    pub open spec fn spec_name(&self) -> Seq<char> {
        match self {
            Resource::Bare(n) => n@,
            Resource::Counted { name, .. } => name@,
            Resource::Explicit { name, .. } => name@,
        }
    }

    pub open spec fn spec_count(&self) -> nat {
        match self {
            Resource::Bare(_) => 1,
            Resource::Counted { count, .. } => *count as nat,
            Resource::Explicit { tokens, .. } => tokens@.len(),
        }
    }

    pub fn name(&self) -> (r: &String)
        ensures
            r@ == self.spec_name(),
    {
        match self {
            Resource::Bare(n) => n,
            Resource::Counted { name, .. } => name,
            Resource::Explicit { name, .. } => name,
        }
    }

    pub fn count(&self) -> (r: usize)
        ensures
            r == self.spec_count(),
    {
        match self {
            Resource::Bare(_) => 1,
            Resource::Counted { count, .. } => *count,
            Resource::Explicit { tokens, .. } => tokens.len(),
        }
    }
}

/// How a test is run: a shell command line, or a program and its arguments.
#[derive(Debug, Clone)]
pub enum Command {
    Shell(String),
    Raw(Vec<String>),
}

impl Command {
    /// A raw command names at least its program.
    pub open spec fn runnable(&self) -> bool {
        match self {
            Command::Shell(_) => true,
            Command::Raw(v) => v@.len() > 0,
        }
    }

    pub open spec fn spec_program(&self) -> Seq<char> {
        match self {
            Command::Shell(_) => "bash"@,
            Command::Raw(v) => v@[0]@,
        }
    }

    pub open spec fn spec_args(&self) -> Seq<Seq<char>> {
        match self {
            Command::Shell(c) => seq!["-c"@, c@],
            Command::Raw(v) => texts(v@).drop_first(),
        }
    }

    pub fn program(&self) -> (r: String)
        requires
            self.runnable(),
        ensures
            r@ == self.spec_program(),
    {
        match self {
            Command::Shell(_) => {
                proof {
                    reveal_strlit("bash");
                }
                String::from_str("bash")
            },
            Command::Raw(v) => v[0].clone(),
        }
    }

    pub fn args(&self) -> (r: Vec<String>)
        requires
            self.runnable(),
        ensures
            texts(r@) == self.spec_args(),
    {
        match self {
            Command::Shell(c) => {
                let mut r: Vec<String> = Vec::new();
                r.push(String::from_str("-c"));
                r.push(c.clone());
                proof {
                    reveal_strlit("-c");
                }
                assert(texts(r@) =~= self.spec_args());
                r
            },
            Command::Raw(v) => {
                let mut r: Vec<String> = Vec::new();
                let mut k: usize = 1;
                while k < v.len()
                    invariant
                        1 <= k <= v@.len(),
                        texts(r@) =~= texts(v@).subrange(1, k as int),
                    decreases v@.len() - k,
                {
                    let t = v[k].clone();
                    assert(t@ == v@[k as int]@);
                    let ghost prev = r@;
                    r.push(t);
                    assert(texts(r@) =~= texts(prev).push(t@));
                    assert(texts(r@) =~= texts(v@).subrange(1, k + 1));
                    k += 1;
                }
                assert(texts(v@).drop_first() =~= texts(v@).subrange(1, v@.len() as int));
                r
            },
        }
    }
}

/// A test as the configuration declares it.
#[derive(Debug, Clone)]
pub struct Test {
    pub name: String,
    pub command: Command,
    /// Whether a job holds one worktree while it runs.
    pub requires_worktree: bool,
    /// Whether the test runs when no filter names it.
    pub run_by_default: bool,
    pub resources: Option<Vec<Resource>>,
    /// Between the soft and the hard termination of a job.
    pub shutdown_grace_period_s: u64,
    pub cache: CachePolicy,
    pub depends_on: Vec<String>,
    /// Exit codes that mean an error of the environment; 0 is refused.
    pub error_exit_codes: Vec<i32>,
    /// Whether stdout and stderr are kept apart.
    pub separate_outputs: bool,
}

impl<'a> GraphNode for &'a Test {
    open spec fn spec_id(&self) -> Seq<char> {
        self.name@
    }

    open spec fn spec_child_ids(&self) -> Seq<Seq<char>> {
        texts(self.depends_on@)
    }

    fn id(&self) -> (r: &String) {
        &self.name
    }

    fn child_ids(&self) -> (r: &Vec<String>) {
        &self.depends_on
    }
}

impl GraphNode for Test {
    open spec fn spec_id(&self) -> Seq<char> {
        self.name@
    }

    open spec fn spec_child_ids(&self) -> Seq<Seq<char>> {
        texts(self.depends_on@)
    }

    fn id(&self) -> (r: &String) {
        &self.name
    }

    fn child_ids(&self) -> (r: &Vec<String>) {
        &self.depends_on
    }
}

pub open spec fn enc_command(c: Command) -> Seq<u8> {
    match c {
        Command::Shell(s) => seq![0u8] + enc_str(s@),
        Command::Raw(v) => seq![1u8] + enc_strs(texts(v@)),
    }
}

pub open spec fn enc_resource(r: Resource) -> Seq<u8> {
    match r {
        Resource::Bare(n) => seq![0u8] + enc_str(n@),
        Resource::Counted { name, count } => seq![1u8] + enc_str(name@) + le64(count as u64),
        Resource::Explicit { name, tokens } => seq![2u8] + enc_str(name@) + enc_strs(texts(tokens@)),
    }
}

pub open spec fn enc_resource_items(v: Seq<Resource>) -> Seq<u8>
    decreases v.len(),
{
    if v.len() == 0 {
        Seq::empty()
    } else {
        enc_resource_items(v.drop_last()) + enc_resource(v.last())
    }
}

pub open spec fn enc_resources(o: Option<Vec<Resource>>) -> Seq<u8> {
    match o {
        None => seq![0u8],
        Some(v) => seq![1u8] + le64(v@.len() as u64) + enc_resource_items(v@),
    }
}

/// An exit code, offset to be non-negative.
pub open spec fn enc_code(c: i32) -> Seq<u8> {
    le64((c as int + 0x8000_0000) as u64)
}

pub open spec fn enc_code_items(v: Seq<i32>) -> Seq<u8>
    decreases v.len(),
{
    if v.len() == 0 {
        Seq::empty()
    } else {
        enc_code_items(v.drop_last()) + enc_code(v.last())
    }
}

pub open spec fn enc_cache(p: CachePolicy) -> Seq<u8> {
    match p {
        CachePolicy::NoCache => seq![0u8],
        CachePolicy::ByCommit => seq![1u8],
        CachePolicy::ByTree => seq![2u8],
    }
}

/// Every field of a test, in declaration order, each in a self-delimiting form.
pub open spec fn enc_test(t: Test) -> Seq<u8> {
    enc_str(t.name@) + enc_from_command(t)
}

pub open spec fn enc_from_command(t: Test) -> Seq<u8> {
    enc_command(t.command) + enc_from_worktree(t)
}

pub open spec fn enc_from_worktree(t: Test) -> Seq<u8> {
    enc_bool(t.requires_worktree) + enc_from_default(t)
}

pub open spec fn enc_from_default(t: Test) -> Seq<u8> {
    enc_bool(t.run_by_default) + enc_from_resources(t)
}

pub open spec fn enc_from_resources(t: Test) -> Seq<u8> {
    enc_resources(t.resources) + enc_from_grace(t)
}

pub open spec fn enc_from_grace(t: Test) -> Seq<u8> {
    le64(t.shutdown_grace_period_s) + enc_from_cache(t)
}

pub open spec fn enc_from_cache(t: Test) -> Seq<u8> {
    enc_cache(t.cache) + enc_from_deps(t)
}

pub open spec fn enc_from_deps(t: Test) -> Seq<u8> {
    enc_strs(texts(t.depends_on@)) + enc_from_codes(t)
}

pub open spec fn enc_from_codes(t: Test) -> Seq<u8> {
    le64(t.error_exit_codes@.len() as u64) + (enc_code_items(t.error_exit_codes@) + enc_bool(t.separate_outputs))
}

/// What a test's configuration hash is the digest of: the test's own fields,
/// then the hashes of its dependencies, in the order of their names.
pub open spec fn preimage(t: Test, dep_hashes: Seq<Seq<char>>) -> Seq<u8> {
    enc_test(t) + enc_strs(dep_hashes)
}

/// A text of the configuration, within the bounds of its length prefix.
pub open spec fn text_fits(s: Seq<char>) -> bool {
    encode_utf8(s).len() <= u64::MAX
}

/// A list of texts within the bounds of the length prefixes.
pub open spec fn list_fits(v: Seq<Seq<char>>) -> bool {
    v.len() <= u64::MAX && fits(v)
}

pub open spec fn resource_fits(r: Resource) -> bool {
    match r {
        Resource::Bare(n) => text_fits(n@),
        Resource::Counted { name, .. } => text_fits(name@),
        Resource::Explicit { name, tokens } => text_fits(name@) && list_fits(texts(tokens@)),
    }
}

/// Every text and list of the test within the bounds of the length prefixes.
pub open spec fn test_fits(t: Test) -> bool {
    &&& text_fits(t.name@)
    &&& match t.command {
        Command::Shell(c) => text_fits(c@),
        Command::Raw(v) => list_fits(texts(v@)),
    }
    &&& match t.resources {
        Some(v) => v@.len() <= u64::MAX && forall|i: int| 0 <= i < v@.len() ==> resource_fits(#[trigger] v@[i]),
        None => true,
    }
    &&& list_fits(texts(t.depends_on@))
    &&& t.error_exit_codes@.len() <= u64::MAX
}

/// What a resource declares, as plain values.
pub open spec fn resource_view(r: Resource) -> (u8, Seq<char>, nat, Seq<Seq<char>>) {
    match r {
        Resource::Bare(n) => (0u8, n@, 0nat, Seq::empty()),
        Resource::Counted { name, count } => (1u8, name@, count as nat, Seq::empty()),
        Resource::Explicit { name, tokens } => (2u8, name@, 0nat, texts(tokens@)),
    }
}

pub open spec fn command_view(c: Command) -> (bool, Seq<Seq<char>>) {
    match c {
        Command::Shell(s) => (true, seq![s@]),
        Command::Raw(v) => (false, texts(v@)),
    }
}

/// Two tests that declare the same configuration, field by field.
pub open spec fn same_config(a: Test, b: Test) -> bool {
    &&& a.name@ == b.name@
    &&& command_view(a.command) == command_view(b.command)
    &&& a.requires_worktree == b.requires_worktree
    &&& a.run_by_default == b.run_by_default
    &&& a.resources is Some == b.resources is Some
    &&& (a.resources is Some ==> a.resources->Some_0@.map_values(|r: Resource| resource_view(r))
        == b.resources->Some_0@.map_values(|r: Resource| resource_view(r)))
    &&& a.shutdown_grace_period_s == b.shutdown_grace_period_s
    &&& a.cache == b.cache
    &&& texts(a.depends_on@) == texts(b.depends_on@)
    &&& a.error_exit_codes@ == b.error_exit_codes@
    &&& a.separate_outputs == b.separate_outputs
}

proof fn lemma_bool_prefix(a: bool, b: bool, r1: Seq<u8>, r2: Seq<u8>)
    requires
        enc_bool(a) + r1 == enc_bool(b) + r2,
    ensures
        a == b,
        r1 == r2,
{
    lemma_byte_prefix(if a { 1u8 } else { 0u8 }, if b { 1u8 } else { 0u8 }, r1, r2);
}

proof fn lemma_command_prefix(a: Command, b: Command, r1: Seq<u8>, r2: Seq<u8>)
    requires
        enc_command(a) + r1 == enc_command(b) + r2,
        match a {
            Command::Shell(c) => text_fits(c@),
            Command::Raw(v) => list_fits(texts(v@)),
        },
        match b {
            Command::Shell(c) => text_fits(c@),
            Command::Raw(v) => list_fits(texts(v@)),
        },
    ensures
        command_view(a) == command_view(b),
        r1 == r2,
{
    let (ta, ra) = match a {
        Command::Shell(c) => (0u8, enc_str(c@) + r1),
        Command::Raw(v) => (1u8, enc_strs(texts(v@)) + r1),
    };
    let (tb, rb) = match b {
        Command::Shell(c) => (0u8, enc_str(c@) + r2),
        Command::Raw(v) => (1u8, enc_strs(texts(v@)) + r2),
    };
    assert(enc_command(a) + r1 =~= seq![ta] + ra);
    assert(enc_command(b) + r2 =~= seq![tb] + rb);
    lemma_byte_prefix(ta, tb, ra, rb);
    match (a, b) {
        (Command::Shell(x), Command::Shell(y)) => {
            lemma_str_prefix(x@, y@, r1, r2);
        },
        (Command::Raw(x), Command::Raw(y)) => {
            lemma_strs_prefix(texts(x@), texts(y@), r1, r2);
        },
        _ => {},
    }
}

proof fn lemma_resource_prefix(a: Resource, b: Resource, r1: Seq<u8>, r2: Seq<u8>)
    requires
        enc_resource(a) + r1 == enc_resource(b) + r2,
        resource_fits(a),
        resource_fits(b),
    ensures
        resource_view(a) == resource_view(b),
        r1 == r2,
{
    let (ta, ra) = match a {
        Resource::Bare(n) => (0u8, enc_str(n@) + r1),
        Resource::Counted { name, count } => (1u8, enc_str(name@) + (le64(count as u64) + r1)),
        Resource::Explicit { name, tokens } => (2u8, enc_str(name@) + (enc_strs(texts(tokens@)) + r1)),
    };
    let (tb, rb) = match b {
        Resource::Bare(n) => (0u8, enc_str(n@) + r2),
        Resource::Counted { name, count } => (1u8, enc_str(name@) + (le64(count as u64) + r2)),
        Resource::Explicit { name, tokens } => (2u8, enc_str(name@) + (enc_strs(texts(tokens@)) + r2)),
    };
    assert(enc_resource(a) + r1 =~= seq![ta] + ra);
    assert(enc_resource(b) + r2 =~= seq![tb] + rb);
    lemma_byte_prefix(ta, tb, ra, rb);
    match (a, b) {
        (Resource::Bare(x), Resource::Bare(y)) => {
            lemma_str_prefix(x@, y@, r1, r2);
        },
        (Resource::Counted { name: x, count: cx }, Resource::Counted { name: y, count: cy }) => {
            lemma_str_prefix(x@, y@, le64(cx as u64) + r1, le64(cy as u64) + r2);
            lemma_u64_prefix(cx as u64, cy as u64, r1, r2);
        },
        (Resource::Explicit { name: x, tokens: tx }, Resource::Explicit { name: y, tokens: ty }) => {
            lemma_str_prefix(x@, y@, enc_strs(texts(tx@)) + r1, enc_strs(texts(ty@)) + r2);
            lemma_strs_prefix(texts(tx@), texts(ty@), r1, r2);
        },
        _ => {},
    }
}

proof fn lemma_resource_items_front(v: Seq<Resource>)
    requires
        v.len() > 0,
    ensures
        enc_resource_items(v) == enc_resource(v[0]) + enc_resource_items(v.drop_first()),
    decreases v.len(),
{
    if v.len() == 1 {
        assert(v.drop_last() =~= Seq::<Resource>::empty());
        assert(v.drop_first() =~= Seq::<Resource>::empty());
        assert(enc_resource_items(v) =~= enc_resource(v[0]) + enc_resource_items(v.drop_first()));
    } else {
        lemma_resource_items_front(v.drop_last());
        assert(v.drop_last().drop_first() =~= v.drop_first().drop_last());
        assert(v.drop_first().last() == v.last());
        assert(enc_resource_items(v) =~= enc_resource(v[0]) + enc_resource_items(v.drop_first()));
    }
}

proof fn lemma_resource_items_prefix(v: Seq<Resource>, w: Seq<Resource>, r1: Seq<u8>, r2: Seq<u8>)
    requires
        v.len() == w.len(),
        enc_resource_items(v) + r1 == enc_resource_items(w) + r2,
        forall|i: int| 0 <= i < v.len() ==> resource_fits(#[trigger] v[i]),
        forall|i: int| 0 <= i < w.len() ==> resource_fits(#[trigger] w[i]),
    ensures
        v.map_values(|r: Resource| resource_view(r)) == w.map_values(|r: Resource| resource_view(r)),
        r1 == r2,
    decreases v.len(),
{
    if v.len() == 0 {
        assert(enc_resource_items(v) + r1 =~= r1);
        assert(enc_resource_items(w) + r2 =~= r2);
        assert(v.map_values(|r: Resource| resource_view(r)) =~= w.map_values(|r: Resource| resource_view(r)));
    } else {
        lemma_resource_items_front(v);
        lemma_resource_items_front(w);
        let dv = v.drop_first();
        let dw = w.drop_first();
        assert(enc_resource(v[0]) + (enc_resource_items(dv) + r1) =~= enc_resource_items(v) + r1);
        assert(enc_resource(w[0]) + (enc_resource_items(dw) + r2) =~= enc_resource_items(w) + r2);
        lemma_resource_prefix(v[0], w[0], enc_resource_items(dv) + r1, enc_resource_items(dw) + r2);
        assert forall|i: int| 0 <= i < dv.len() implies resource_fits(#[trigger] dv[i]) by {
            assert(dv[i] == v[i + 1]);
        }
        assert forall|i: int| 0 <= i < dw.len() implies resource_fits(#[trigger] dw[i]) by {
            assert(dw[i] == w[i + 1]);
        }
        lemma_resource_items_prefix(dv, dw, r1, r2);
        let mv = v.map_values(|r: Resource| resource_view(r));
        let mw = w.map_values(|r: Resource| resource_view(r));
        assert forall|i: int| 0 <= i < mv.len() implies mv[i] == mw[i] by {
            if i > 0 {
                assert(dv.map_values(|r: Resource| resource_view(r))[i - 1] == dw.map_values(|r: Resource| resource_view(r))[i - 1]);
            }
        }
        assert(mv =~= mw);
    }
}

proof fn lemma_code_items_front(v: Seq<i32>)
    requires
        v.len() > 0,
    ensures
        enc_code_items(v) == enc_code(v[0]) + enc_code_items(v.drop_first()),
    decreases v.len(),
{
    if v.len() == 1 {
        assert(v.drop_last() =~= Seq::<i32>::empty());
        assert(v.drop_first() =~= Seq::<i32>::empty());
        assert(enc_code_items(v) =~= enc_code(v[0]) + enc_code_items(v.drop_first()));
    } else {
        lemma_code_items_front(v.drop_last());
        assert(v.drop_last().drop_first() =~= v.drop_first().drop_last());
        assert(v.drop_first().last() == v.last());
        assert(enc_code_items(v) =~= enc_code(v[0]) + enc_code_items(v.drop_first()));
    }
}

proof fn lemma_code_items_prefix(v: Seq<i32>, w: Seq<i32>, r1: Seq<u8>, r2: Seq<u8>)
    requires
        v.len() == w.len(),
        enc_code_items(v) + r1 == enc_code_items(w) + r2,
    ensures
        v == w,
        r1 == r2,
    decreases v.len(),
{
    if v.len() == 0 {
        assert(enc_code_items(v) + r1 =~= r1);
        assert(enc_code_items(w) + r2 =~= r2);
        assert(v =~= w);
    } else {
        lemma_code_items_front(v);
        lemma_code_items_front(w);
        let dv = v.drop_first();
        let dw = w.drop_first();
        assert(enc_code(v[0]) + (enc_code_items(dv) + r1) =~= enc_code_items(v) + r1);
        assert(enc_code(w[0]) + (enc_code_items(dw) + r2) =~= enc_code_items(w) + r2);
        lemma_u64_prefix((v[0] as int + 0x8000_0000) as u64, (w[0] as int + 0x8000_0000) as u64, enc_code_items(dv) + r1, enc_code_items(dw) + r2);
        lemma_code_items_prefix(dv, dw, r1, r2);
        assert(v =~= seq![v[0]] + dv);
        assert(w =~= seq![w[0]] + dw);
    }
}

/// The cache fingerprint of a lowered test at a commit is the declared
/// test's name, the lowered configuration hash and the key that the declared
/// cache policy picks; a test that is never cached has no key.
pub proof fn lemma_lowered_fingerprint(t: Test, s: TestSpec, nodes: Seq<TestSpec>, commit: Seq<char>, tree: Seq<char>)
    requires
        lowers_to(t, s, nodes),
    ensures
        s.name@ == t.name@,
        s.config_hash@.len() == 64,
        spec_cache_key(s.cache_policy, commit, tree) == spec_cache_key(t.cache, commit, tree),
        t.cache == CachePolicy::NoCache ==> spec_cache_key(s.cache_policy, commit, tree) is None,
        t.cache == CachePolicy::ByCommit ==> spec_cache_key(s.cache_policy, commit, tree) == Some(commit),
        t.cache == CachePolicy::ByTree ==> spec_cache_key(s.cache_policy, commit, tree) == Some(tree),
{
}

proof fn lemma_assoc(x: Seq<u8>, y: Seq<u8>, z: Seq<u8>)
    ensures
        (x + y) + z == x + (y + z),
{
    assert((x + y) + z =~= x + (y + z));
}

/// A test's digest input determines the test's configuration and the hashes
/// of its dependencies: editing any field of a test, or any dependency's
/// hash, changes what is digested. (That the digest then changes rests on
/// SHA3-256 itself, which nothing here proves.)
pub proof fn lemma_preimage_determines_config(a: Test, b: Test, ha: Seq<Seq<char>>, hb: Seq<Seq<char>>)
    requires
        preimage(a, ha) == preimage(b, hb),
        test_fits(a),
        test_fits(b),
        list_fits(ha),
        list_fits(hb),
    ensures
        same_config(a, b),
        ha == hb,
{
    let (xa, xb) = (enc_strs(ha), enc_strs(hb));
    lemma_assoc(enc_str(a.name@), enc_from_command(a), xa);
    lemma_assoc(enc_str(b.name@), enc_from_command(b), xb);
    lemma_str_prefix(a.name@, b.name@, enc_from_command(a) + xa, enc_from_command(b) + xb);
    lemma_assoc(enc_command(a.command), enc_from_worktree(a), xa);
    lemma_assoc(enc_command(b.command), enc_from_worktree(b), xb);
    lemma_command_prefix(a.command, b.command, enc_from_worktree(a) + xa, enc_from_worktree(b) + xb);
    lemma_assoc(enc_bool(a.requires_worktree), enc_from_default(a), xa);
    lemma_assoc(enc_bool(b.requires_worktree), enc_from_default(b), xb);
    lemma_bool_prefix(a.requires_worktree, b.requires_worktree, enc_from_default(a) + xa, enc_from_default(b) + xb);
    lemma_assoc(enc_bool(a.run_by_default), enc_from_resources(a), xa);
    lemma_assoc(enc_bool(b.run_by_default), enc_from_resources(b), xb);
    lemma_bool_prefix(a.run_by_default, b.run_by_default, enc_from_resources(a) + xa, enc_from_resources(b) + xb);
    lemma_after_resources(a, b, ha, hb);
}

proof fn lemma_after_resources(a: Test, b: Test, ha: Seq<Seq<char>>, hb: Seq<Seq<char>>)
    requires
        enc_from_resources(a) + enc_strs(ha) == enc_from_resources(b) + enc_strs(hb),
        test_fits(a),
        test_fits(b),
        list_fits(ha),
        list_fits(hb),
    ensures
        a.resources is Some == b.resources is Some,
        a.resources is Some ==> a.resources->Some_0@.map_values(|r: Resource| resource_view(r))
            == b.resources->Some_0@.map_values(|r: Resource| resource_view(r)),
        a.shutdown_grace_period_s == b.shutdown_grace_period_s,
        a.cache == b.cache,
        texts(a.depends_on@) == texts(b.depends_on@),
        a.error_exit_codes@ == b.error_exit_codes@,
        a.separate_outputs == b.separate_outputs,
        ha == hb,
{
    let (xa, xb) = (enc_strs(ha), enc_strs(hb));
    lemma_assoc(enc_resources(a.resources), enc_from_grace(a), xa);
    lemma_assoc(enc_resources(b.resources), enc_from_grace(b), xb);
    lemma_resources_prefix(a.resources, b.resources, enc_from_grace(a) + xa, enc_from_grace(b) + xb);
    lemma_assoc(le64(a.shutdown_grace_period_s), enc_from_cache(a), xa);
    lemma_assoc(le64(b.shutdown_grace_period_s), enc_from_cache(b), xb);
    lemma_u64_prefix(a.shutdown_grace_period_s, b.shutdown_grace_period_s, enc_from_cache(a) + xa, enc_from_cache(b) + xb);
    lemma_assoc(enc_cache(a.cache), enc_from_deps(a), xa);
    lemma_assoc(enc_cache(b.cache), enc_from_deps(b), xb);
    let ta = match a.cache { CachePolicy::NoCache => 0u8, CachePolicy::ByCommit => 1u8, CachePolicy::ByTree => 2u8 };
    let tb = match b.cache { CachePolicy::NoCache => 0u8, CachePolicy::ByCommit => 1u8, CachePolicy::ByTree => 2u8 };
    assert(enc_cache(a.cache) == seq![ta]);
    assert(enc_cache(b.cache) == seq![tb]);
    lemma_byte_prefix(ta, tb, enc_from_deps(a) + xa, enc_from_deps(b) + xb);
    lemma_assoc(enc_strs(texts(a.depends_on@)), enc_from_codes(a), xa);
    lemma_assoc(enc_strs(texts(b.depends_on@)), enc_from_codes(b), xb);
    lemma_strs_prefix(texts(a.depends_on@), texts(b.depends_on@), enc_from_codes(a) + xa, enc_from_codes(b) + xb);
    lemma_after_codes(a, b, ha, hb);
}

proof fn lemma_after_codes(a: Test, b: Test, ha: Seq<Seq<char>>, hb: Seq<Seq<char>>)
    requires
        enc_from_codes(a) + enc_strs(ha) == enc_from_codes(b) + enc_strs(hb),
        a.error_exit_codes@.len() <= u64::MAX,
        b.error_exit_codes@.len() <= u64::MAX,
        list_fits(ha),
        list_fits(hb),
    ensures
        a.error_exit_codes@ == b.error_exit_codes@,
        a.separate_outputs == b.separate_outputs,
        ha == hb,
{
    let (xa, xb) = (enc_strs(ha), enc_strs(hb));
    let (ca, cb) = (a.error_exit_codes@, b.error_exit_codes@);
    let (sa, sb) = (enc_bool(a.separate_outputs), enc_bool(b.separate_outputs));
    lemma_assoc(le64(ca.len() as u64), enc_code_items(ca) + sa, xa);
    lemma_assoc(le64(cb.len() as u64), enc_code_items(cb) + sb, xb);
    lemma_u64_prefix(ca.len() as u64, cb.len() as u64, (enc_code_items(ca) + sa) + xa, (enc_code_items(cb) + sb) + xb);
    lemma_assoc(enc_code_items(ca), sa, xa);
    lemma_assoc(enc_code_items(cb), sb, xb);
    lemma_code_items_prefix(ca, cb, sa + xa, sb + xb);
    lemma_bool_prefix(a.separate_outputs, b.separate_outputs, xa, xb);
    assert(xa + Seq::<u8>::empty() =~= xa);
    assert(xb + Seq::<u8>::empty() =~= xb);
    lemma_strs_prefix(ha, hb, Seq::<u8>::empty(), Seq::<u8>::empty());
}

proof fn lemma_resources_prefix(a: Option<Vec<Resource>>, b: Option<Vec<Resource>>, r1: Seq<u8>, r2: Seq<u8>)
    requires
        enc_resources(a) + r1 == enc_resources(b) + r2,
        match a {
            Some(v) => v@.len() <= u64::MAX && forall|i: int| 0 <= i < v@.len() ==> resource_fits(#[trigger] v@[i]),
            None => true,
        },
        match b {
            Some(v) => v@.len() <= u64::MAX && forall|i: int| 0 <= i < v@.len() ==> resource_fits(#[trigger] v@[i]),
            None => true,
        },
    ensures
        a is Some == b is Some,
        a is Some ==> a->Some_0@.map_values(|r: Resource| resource_view(r)) == b->Some_0@.map_values(
            |r: Resource| resource_view(r),
        ),
        r1 == r2,
{
    let (ta, ra) = match a {
        None => (0u8, r1),
        Some(v) => (1u8, le64(v@.len() as u64) + (enc_resource_items(v@) + r1)),
    };
    let (tb, rb) = match b {
        None => (0u8, r2),
        Some(v) => (1u8, le64(v@.len() as u64) + (enc_resource_items(v@) + r2)),
    };
    assert(enc_resources(a) + r1 =~= seq![ta] + ra);
    assert(enc_resources(b) + r2 =~= seq![tb] + rb);
    lemma_byte_prefix(ta, tb, ra, rb);
    match (a, b) {
        (Some(x), Some(y)) => {
            lemma_u64_prefix(x@.len() as u64, y@.len() as u64, enc_resource_items(x@) + r1, enc_resource_items(y@) + r2);
            lemma_resource_items_prefix(x@, y@, r1, r2);
        },
        _ => {},
    }
}

fn push_command(out: &mut Vec<u8>, c: &Command)
    ensures
        final(out)@ == old(out)@ + enc_command(*c),
{
    match c {
        Command::Shell(s) => {
            out.push(0u8);
            push_str(out, s);
        },
        Command::Raw(v) => {
            out.push(1u8);
            push_strs(out, v);
        },
    }
    assert(out@ =~= old(out)@ + enc_command(*c));
}

fn push_resource(out: &mut Vec<u8>, r: &Resource)
    ensures
        final(out)@ == old(out)@ + enc_resource(*r),
{
    match r {
        Resource::Bare(n) => {
            out.push(0u8);
            push_str(out, n);
        },
        Resource::Counted { name, count } => {
            out.push(1u8);
            push_str(out, name);
            push_u64(out, *count as u64);
        },
        Resource::Explicit { name, tokens } => {
            out.push(2u8);
            push_str(out, name);
            push_strs(out, tokens);
        },
    }
    assert(out@ =~= old(out)@ + enc_resource(*r));
}

fn push_resources(out: &mut Vec<u8>, o: &Option<Vec<Resource>>)
    ensures
        final(out)@ == old(out)@ + enc_resources(*o),
{
    let ghost start = out@;
    match o {
        None => {
            out.push(0u8);
        },
        Some(v) => {
            out.push(1u8);
            push_u64(out, v.len() as u64);
            let ghost head = out@;
            let mut k: usize = 0;
            while k < v.len()
                invariant
                    0 <= k <= v@.len(),
                    out@ == head + enc_resource_items(v@.subrange(0, k as int)),
                decreases v@.len() - k,
            {
                push_resource(out, &v[k]);
                assert(v@.subrange(0, k + 1).drop_last() =~= v@.subrange(0, k as int));
                k += 1;
            }
            assert(v@.subrange(0, v@.len() as int) =~= v@);
        },
    }
    assert(out@ =~= start + enc_resources(*o));
}

fn push_codes(out: &mut Vec<u8>, v: &Vec<i32>)
    ensures
        final(out)@ == old(out)@ + le64(v@.len() as u64) + enc_code_items(v@),
{
    push_u64(out, v.len() as u64);
    let ghost head = out@;
    let mut k: usize = 0;
    while k < v.len()
        invariant
            0 <= k <= v@.len(),
            out@ == head + enc_code_items(v@.subrange(0, k as int)),
        decreases v@.len() - k,
    {
        push_u64(out, (v[k] as i64 + 0x8000_0000i64) as u64);
        assert(v@.subrange(0, k + 1).drop_last() =~= v@.subrange(0, k as int));
        k += 1;
    }
    assert(v@.subrange(0, v@.len() as int) =~= v@);
    assert(out@ =~= old(out)@ + le64(v@.len() as u64) + enc_code_items(v@));
}

fn push_cache(out: &mut Vec<u8>, p: CachePolicy)
    ensures
        final(out)@ == old(out)@ + enc_cache(p),
{
    match p {
        CachePolicy::NoCache => out.push(0u8),
        CachePolicy::ByCommit => out.push(1u8),
        CachePolicy::ByTree => out.push(2u8),
    }
    assert(out@ =~= old(out)@ + enc_cache(p));
}

/// Why a configuration is refused.
#[derive(Debug, Clone)]
pub enum ConfigError {
    /// A test names this resource twice.
    DuplicateResourceReference(String),
    /// The configuration declares this resource twice.
    DuplicateResourceDeclaration(String),
    /// A test lists 0 among its error exit codes.
    ZeroErrorExitCode,
    /// This test filter is not a valid regular expression.
    BadPattern(String),
    /// The selected tests do not form a dependency graph.
    Graph(DagError),
    /// A test asks for a resource that the configuration does not declare.
    UndefinedResource { resource: String, test: String },
}

pub open spec fn resources_of(t: Test) -> Seq<Resource> {
    match t.resources {
        Some(v) => v@,
        None => Seq::empty(),
    }
}

/// No two resources of the list share a name.
pub open spec fn resource_names_unique(rs: Seq<Resource>) -> bool {
    forall|i: int, j: int|
        0 <= i < rs.len() && 0 <= j < rs.len() && i != j ==> #[trigger] rs[i].spec_name()
            != #[trigger] rs[j].spec_name()
}

/// A test's declaration is acceptable on its own.
pub open spec fn test_valid(t: Test) -> bool {
    resource_names_unique(resources_of(t)) && !t.error_exit_codes@.contains(0i32)
}

/// The tokens a job of the test needs: its resources in order, then one
/// worktree if it requires one.
pub open spec fn needs_of(t: Test) -> Seq<(Option<Seq<char>>, usize)> {
    resources_of(t).map_values(|r: Resource| (Some(r.spec_name()), r.spec_count() as usize)) + if t.requires_worktree {
        seq![(None::<Seq<char>>, 1usize)]
    } else {
        Seq::empty()
    }
}

pub open spec fn needs_view(v: Seq<(ResourceKey, usize)>) -> Seq<(Option<Seq<char>>, usize)> {
    v.map_values(|p: (ResourceKey, usize)| (p.0@, p.1))
}

/// The configuration hash of the first node named `n`.
pub open spec fn hash_of_named(nodes: Seq<TestSpec>, n: Seq<char>) -> Seq<char>
    decreases nodes.len(),
{
    if nodes.len() == 0 {
        Seq::empty()
    } else if nodes[0].name@ == n {
        nodes[0].config_hash@
    } else {
        hash_of_named(nodes.drop_first(), n)
    }
}

proof fn lemma_hash_of_named(nodes: Seq<TestSpec>, i: int)
    requires
        ids_unique(nodes),
        0 <= i < nodes.len(),
    ensures
        hash_of_named(nodes, nodes[i].name@) == nodes[i].config_hash@,
    decreases nodes.len(),
{
    if i != 0 {
        assert(nodes[0].spec_id() != nodes[i].spec_id());
        let d = nodes.drop_first();
        assert(ids_unique(d)) by {
            assert forall|a: int, b: int| 0 <= a < d.len() && 0 <= b < d.len() && a != b implies
                #[trigger] d[a].spec_id() != #[trigger] d[b].spec_id() by {
                assert(d[a] == nodes[a + 1] && d[b] == nodes[b + 1]);
            }
        }
        lemma_hash_of_named(d, i - 1);
        assert(d[i - 1] == nodes[i]);
    }
}

/// Appending a node leaves the hash of a name that is present unchanged.
proof fn lemma_hash_of_named_push(nodes: Seq<TestSpec>, x: TestSpec, n: Seq<char>)
    requires
        has_id(nodes, n),
    ensures
        hash_of_named(nodes.push(x), n) == hash_of_named(nodes, n),
    decreases nodes.len(),
{
    if nodes[0].name@ != n {
        let j = choose|j: int| 0 <= j < nodes.len() && #[trigger] nodes[j].spec_id() == n;
        let d = nodes.drop_first();
        assert(d[j - 1] == nodes[j]);
        assert(has_id(d, n));
        lemma_hash_of_named_push(d, x, n);
        assert(nodes.push(x).drop_first() =~= d.push(x));
    }
}

pub open spec fn dep_hashes(nodes: Seq<TestSpec>, names: Seq<Seq<char>>) -> Seq<Seq<char>> {
    names.map_values(|n: Seq<char>| hash_of_named(nodes, n))
}

/// `x` inserted before the first entry that is not below it.
pub open spec fn insert_sorted(s: Seq<Seq<char>>, x: Seq<char>) -> Seq<Seq<char>>
    decreases s.len(),
{
    if s.len() == 0 {
        seq![x]
    } else if !text_lt(s[0], x) {
        seq![x] + s
    } else {
        seq![s[0]] + insert_sorted(s.drop_first(), x)
    }
}

/// The names in increasing order.
pub open spec fn sort_names(v: Seq<Seq<char>>) -> Seq<Seq<char>>
    decreases v.len(),
{
    if v.len() == 0 {
        Seq::empty()
    } else {
        insert_sorted(sort_names(v.drop_last()), v.last())
    }
}

/// Inserting at the first position whose entry is not below `x` is
/// `insert_sorted`.
proof fn lemma_insert_at(s: Seq<Seq<char>>, x: Seq<char>, k: int)
    requires
        0 <= k <= s.len(),
        forall|q: int| 0 <= q < k ==> text_lt(#[trigger] s[q], x),
        k < s.len() ==> !text_lt(s[k], x),
    ensures
        insert_sorted(s, x) == s.insert(k, x),
    decreases s.len(),
{
    if s.len() == 0 {
        assert(s.insert(k, x) =~= seq![x]);
    } else if k == 0 {
        assert(s.insert(0, x) =~= seq![x] + s);
    } else {
        let d = s.drop_first();
        assert forall|q: int| 0 <= q < k - 1 implies text_lt(#[trigger] d[q], x) by {
            assert(d[q] == s[q + 1]);
        }
        lemma_insert_at(d, x, k - 1);
        assert(s.insert(k, x) =~= seq![s[0]] + d.insert(k - 1, x));
    }
}

/// Sorting keeps the names: each sorted name is one of the list, and the
/// length is the same.
proof fn lemma_sort_members(v: Seq<Seq<char>>)
    ensures
        sort_names(v).len() == v.len(),
        forall|i: int| 0 <= i < v.len() ==> #[trigger] in_list(v, sort_names(v)[i]),
    decreases v.len(),
{
    if v.len() > 0 {
        let d = v.drop_last();
        lemma_sort_members(d);
        let s = sort_names(d);
        lemma_insert_members(s, v.last());
        assert forall|i: int| 0 <= i < v.len() implies #[trigger] in_list(v, sort_names(v)[i]) by {
            let y = sort_names(v)[i];
            assert(in_list(s, y) || y == v.last());
            if y == v.last() {
                assert(v[v.len() - 1] == y);
            } else {
                let j = choose|j: int| 0 <= j < s.len() && s[j] == y;
                assert(in_list(d, s[j]));
                let q = choose|q: int| 0 <= q < d.len() && d[q] == s[j];
                assert(v[q] == y);
            }
        }
    }
}

proof fn lemma_insert_members(s: Seq<Seq<char>>, x: Seq<char>)
    ensures
        insert_sorted(s, x).len() == s.len() + 1,
        forall|i: int| 0 <= i < s.len() + 1 ==> in_list(s, #[trigger] insert_sorted(s, x)[i]) || insert_sorted(s, x)[i] == x,
    decreases s.len(),
{
    if s.len() > 0 && text_lt(s[0], x) {
        let d = s.drop_first();
        lemma_insert_members(d, x);
        assert forall|i: int| 0 <= i < s.len() + 1 implies in_list(s, #[trigger] insert_sorted(s, x)[i]) || insert_sorted(s, x)[i] == x by {
            if i == 0 {
                assert(s[0] == insert_sorted(s, x)[0]);
            } else {
                let y = insert_sorted(d, x)[i - 1];
                assert(insert_sorted(s, x)[i] == y);
                if in_list(d, y) {
                    let j = choose|j: int| 0 <= j < d.len() && d[j] == y;
                    assert(s[j + 1] == y);
                }
            }
        }
    } else if s.len() > 0 {
        assert forall|i: int| 0 <= i < s.len() + 1 implies in_list(s, #[trigger] insert_sorted(s, x)[i]) || insert_sorted(s, x)[i] == x by {
            if i > 0 {
                assert(insert_sorted(s, x)[i] == s[i - 1]);
            }
        }
    }
}

/// `y` is an entry of `v`.
pub open spec fn in_list(v: Seq<Seq<char>>, y: Seq<char>) -> bool {
    exists|j: int| 0 <= j < v.len() && v[j] == y
}

/// `s` is the lowering of `t`, whose dependencies are among `nodes`.
pub open spec fn lowers_to(t: Test, s: TestSpec, nodes: Seq<TestSpec>) -> bool {
    &&& s.name@ == t.name@
    &&& s.program@ == t.command.spec_program()
    &&& texts(s.args@) == t.command.spec_args()
    &&& needs_view(s.needs_resources@) == needs_of(t)
    &&& s.shutdown_grace_period_s == t.shutdown_grace_period_s
    &&& s.cache_policy == t.cache
    &&& s.config_hash@ == hex_of(sha3_256_of(preimage(t, dep_hashes(nodes, sort_names(texts(t.depends_on@))))))
    &&& s.config_hash@.len() == 64
    &&& texts(s.depends_on@) == texts(t.depends_on@)
    &&& s.error_exit_codes@ == t.error_exit_codes@
    &&& s.separate_outputs == t.separate_outputs
}

fn clone_texts(v: &Vec<String>) -> (r: Vec<String>)
    ensures
        texts(r@) == texts(v@),
{
    let mut r: Vec<String> = Vec::new();
    let mut k: usize = 0;
    while k < v.len()
        invariant
            0 <= k <= v@.len(),
            texts(r@) =~= texts(v@).subrange(0, k as int),
        decreases v@.len() - k,
    {
        let t = v[k].clone();
        let ghost prev = r@;
        r.push(t);
        assert(texts(r@) =~= texts(prev).push(t@));
        k += 1;
    }
    assert(texts(v@).subrange(0, v@.len() as int) =~= texts(v@));
    r
}

fn clone_codes(v: &Vec<i32>) -> (r: Vec<i32>)
    ensures
        r@ == v@,
{
    let mut r: Vec<i32> = Vec::new();
    let mut k: usize = 0;
    while k < v.len()
        invariant
            0 <= k <= v@.len(),
            r@ =~= v@.subrange(0, k as int),
        decreases v@.len() - k,
    {
        r.push(v[k]);
        k += 1;
    }
    assert(v@.subrange(0, v@.len() as int) =~= v@);
    r
}

impl Test {
    /// The canonical bytes of this test's own fields.
    pub fn canonical_bytes(&self) -> (r: Vec<u8>)
        ensures
            r@ == enc_test(*self),
    {
        let ghost t = *self;
        let mut out: Vec<u8> = Vec::new();
        assert(out@ + enc_test(t) =~= enc_test(t));
        let ghost o = out@;
        push_str(&mut out, &self.name);
        proof { lemma_assoc(o, enc_str(t.name@), enc_from_command(t)); }
        let ghost o = out@;
        push_command(&mut out, &self.command);
        proof { lemma_assoc(o, enc_command(t.command), enc_from_worktree(t)); }
        let ghost o = out@;
        push_bool(&mut out, self.requires_worktree);
        proof { lemma_assoc(o, enc_bool(t.requires_worktree), enc_from_default(t)); }
        let ghost o = out@;
        push_bool(&mut out, self.run_by_default);
        proof { lemma_assoc(o, enc_bool(t.run_by_default), enc_from_resources(t)); }
        let ghost o = out@;
        push_resources(&mut out, &self.resources);
        proof { lemma_assoc(o, enc_resources(t.resources), enc_from_grace(t)); }
        let ghost o = out@;
        push_u64(&mut out, self.shutdown_grace_period_s);
        proof { lemma_assoc(o, le64(t.shutdown_grace_period_s), enc_from_cache(t)); }
        let ghost o = out@;
        push_cache(&mut out, self.cache);
        proof { lemma_assoc(o, enc_cache(t.cache), enc_from_deps(t)); }
        let ghost o = out@;
        push_strs(&mut out, &self.depends_on);
        proof { lemma_assoc(o, enc_strs(texts(t.depends_on@)), enc_from_codes(t)); }
        let ghost o = out@;
        push_codes(&mut out, &self.error_exit_codes);
        proof {
            let l = le64(t.error_exit_codes@.len() as u64);
            let i = enc_code_items(t.error_exit_codes@);
            let sep = enc_bool(t.separate_outputs);
            lemma_assoc(o, l, i + sep);
            lemma_assoc(o + l, i, sep);
        }
        let ghost o = out@;
        push_bool(&mut out, self.separate_outputs);
        assert(out@ =~= enc_test(t));
        out
    }

    /// Lowers the test for the scheduler. `other_tests` holds the lowered
    /// tests that this one depends on; its configuration hash covers theirs.
    pub fn parse(&self, other_tests: &Dag<TestSpec>) -> (r: Result<TestSpec, ConfigError>)
        requires
            other_tests.wf(),
            self.command.runnable(),
            forall|k: int| 0 <= k < self.depends_on@.len() ==> has_id(other_tests.spec_nodes(), #[trigger] self.depends_on@[k]@),
        ensures
            r is Err <==> !test_valid(*self),
            r is Err ==> match r->Err_0 {
                ConfigError::DuplicateResourceReference(n) => !resource_names_unique(resources_of(*self))
                    && exists|i: int| 0 <= i < resources_of(*self).len() && #[trigger] resources_of(*self)[i].spec_name() == n@,
                ConfigError::ZeroErrorExitCode => resource_names_unique(resources_of(*self))
                    && self.error_exit_codes@.contains(0i32),
                _ => false,
            },
            r is Ok ==> lowers_to(*self, r->Ok_0, other_tests.spec_nodes()),
    {
        let empty: Vec<Resource> = Vec::new();
        let rs: &Vec<Resource> = match &self.resources {
            Some(v) => v,
            None => &empty,
        };
        assert(rs@ == resources_of(*self));
        let mut i: usize = 0;
        while i < rs.len()
            invariant
                rs@ == resources_of(*self),
                0 <= i <= rs@.len(),
                forall|a: int, b: int| 0 <= a < i && 0 <= b < i && a != b ==> #[trigger] rs@[a].spec_name()
                    != #[trigger] rs@[b].spec_name(),
            decreases rs@.len() - i,
        {
            let mut j: usize = 0;
            while j < i
                invariant
                    rs@ == resources_of(*self),
                    0 <= j <= i < rs@.len(),
                    forall|a: int, b: int| 0 <= a < i && 0 <= b < i && a != b ==> #[trigger] rs@[a].spec_name()
                        != #[trigger] rs@[b].spec_name(),
                    forall|b: int| 0 <= b < j ==> #[trigger] rs@[b].spec_name() != rs@[i as int].spec_name(),
                decreases i - j,
            {
                if rs[i].name().eq(rs[j].name()) {
                    assert(rs@[j as int].spec_name() == rs@[i as int].spec_name());
                    return Err(ConfigError::DuplicateResourceReference(rs[i].name().clone()));
                }
                j += 1;
            }
            i += 1;
        }
        let mut needs: Vec<(ResourceKey, usize)> = Vec::new();
        let mut k: usize = 0;
        while k < rs.len()
            invariant
                0 <= k <= rs@.len(),
                needs_view(needs@) =~= rs@.subrange(0, k as int).map_values(
                    |r: Resource| (Some(r.spec_name()), r.spec_count() as usize),
                ),
            decreases rs@.len() - k,
        {
            let ghost prev = needs@;
            needs.push((ResourceKey::UserToken(rs[k].name().clone()), rs[k].count()));
            assert(needs_view(needs@) =~= needs_view(prev).push((Some(rs@[k as int].spec_name()), rs@[k as int].spec_count() as usize)));
            k += 1;
        }
        assert(rs@.subrange(0, rs@.len() as int) =~= rs@);
        if self.requires_worktree {
            let ghost prev = needs@;
            needs.push((ResourceKey::Worktree, 1));
            assert(needs_view(needs@) =~= needs_view(prev).push((None::<Seq<char>>, 1usize)));
        }
        assert(needs_view(needs@) =~= needs_of(*self));

        // The digest covers this test's fields and its dependencies' hashes,
        // taken in the order of the dependencies' names.
        let ghost deps = texts(self.depends_on@);
        let mut sorted: Vec<String> = Vec::new();
        let mut k: usize = 0;
        while k < self.depends_on.len()
            invariant
                deps == texts(self.depends_on@),
                0 <= k <= self.depends_on@.len(),
                texts(sorted@) == sort_names(deps.subrange(0, k as int)),
            decreases self.depends_on@.len() - k,
        {
            let x = &self.depends_on[k];
            let ghost sv = texts(sorted@);
            let mut p: usize = 0;
            while p < sorted.len() && is_text_lt(&sorted[p], x)
                invariant
                    sv == texts(sorted@),
                    0 <= p <= sorted@.len(),
                    forall|q: int| 0 <= q < p ==> text_lt(#[trigger] sv[q], x@),
                decreases sorted@.len() - p,
            {
                p += 1;
            }
            proof {
                lemma_insert_at(sv, x@, p as int);
                assert(deps.subrange(0, k + 1).drop_last() =~= deps.subrange(0, k as int));
            }
            sorted.insert(p, x.clone());
            assert(texts(sorted@) =~= sv.insert(p as int, x@));
            k += 1;
        }
        assert(deps.subrange(0, self.depends_on@.len() as int) =~= deps);
        let ghost names = sort_names(deps);
        proof {
            lemma_sort_members(deps);
        }
        let mut hashes: Vec<String> = Vec::new();
        let ghost nodes = other_tests.spec_nodes();
        let mut k: usize = 0;
        while k < sorted.len()
            invariant
                other_tests.wf(),
                nodes == other_tests.spec_nodes(),
                deps == texts(self.depends_on@),
                names == sort_names(deps),
                texts(sorted@) == names,
                names.len() == deps.len(),
                forall|i: int| 0 <= i < deps.len() ==> #[trigger] in_list(deps, names[i]),
                forall|c: int| 0 <= c < self.depends_on@.len() ==> has_id(nodes, #[trigger] self.depends_on@[c]@),
                0 <= k <= sorted@.len(),
                texts(hashes@) =~= dep_hashes(nodes, names.subrange(0, k as int)),
            decreases sorted@.len() - k,
        {
            proof {
                assert(in_list(deps, names[k as int]));
                let j = choose|j: int| 0 <= j < deps.len() && deps[j] == names[k as int];
                assert(has_id(nodes, self.depends_on@[j]@));
            }
            assert(sorted@[k as int]@ == names[k as int]);
            let dep = other_tests.node(&sorted[k]).unwrap();
            let h = dep.config_hash.clone();
            proof {
                let n = names[k as int];
                let i0 = choose|i: int| 0 <= i < nodes.len() && nodes[i] == *dep;
                assert(nodes[i0].name@ == n);
                lemma_hash_of_named(nodes, i0);
            }
            let ghost prev = hashes@;
            hashes.push(h);
            assert(texts(hashes@) =~= texts(prev).push(h@));
            assert(names.subrange(0, k + 1) =~= names.subrange(0, k as int).push(names[k as int]));
            k += 1;
        }
        assert(names.subrange(0, names.len() as int) =~= names);
        let mut bytes = self.canonical_bytes();
        push_strs(&mut bytes, &hashes);
        let config_hash = digest_hex(&bytes);

        let mut c: usize = 0;
        while c < self.error_exit_codes.len()
            invariant
                resource_names_unique(resources_of(*self)),
                0 <= c <= self.error_exit_codes@.len(),
                forall|b: int| 0 <= b < c ==> self.error_exit_codes@[b] != 0,
            decreases self.error_exit_codes@.len() - c,
        {
            if self.error_exit_codes[c] == 0 {
                assert(self.error_exit_codes@[c as int] == 0);
                return Err(ConfigError::ZeroErrorExitCode);
            }
            c += 1;
        }
        Ok(TestSpec {
            name: self.name.clone(),
            program: self.command.program(),
            args: self.command.args(),
            needs_resources: needs,
            shutdown_grace_period_s: self.shutdown_grace_period_s,
            cache_policy: self.cache,
            config_hash,
            depends_on: clone_texts(&self.depends_on),
            error_exit_codes: clone_codes(&self.error_exit_codes),
            separate_outputs: self.separate_outputs,
        })
    }
}


/// Some pattern of the list matches the name.
pub open spec fn any_match(pats: Seq<Seq<char>>, name: Seq<char>) -> bool {
    exists|k: int| 0 <= k < pats.len() && regex_matches(#[trigger] pats[k], name)
}

/// Every pattern of the list is a valid regular expression.
pub open spec fn all_valid(pats: Seq<Seq<char>>) -> bool {
    forall|k: int| 0 <= k < pats.len() ==> regex_valid(#[trigger] pats[k])
}

/// The filters keep the test: a filter in `only` names it, or there is none
/// and the test runs by default; and no pattern of `skip` names it.
pub open spec fn selected(t: Test, skip: Seq<Seq<char>>, only: Seq<Seq<char>>) -> bool {
    (if only.len() > 0 {
        any_match(only, t.name@)
    } else {
        t.run_by_default
    }) && !any_match(skip, t.name@)
}

/// The tests that the filters keep, in order.
pub open spec fn selection(tests: Seq<Test>, skip: Seq<Seq<char>>, only: Seq<Seq<char>>) -> Seq<Test>
    decreases tests.len(),
{
    if tests.len() == 0 {
        Seq::empty()
    } else {
        selection(tests.drop_last(), skip, only) + if selected(tests.last(), skip, only) {
            seq![tests.last()]
        } else {
            Seq::empty()
        }
    }
}

pub open spec fn derefs(s: Seq<&Test>) -> Seq<Test> {
    s.map_values(|t: &Test| *t)
}

/// A graph over references to tests has the properties of the graph over
/// the tests themselves.
proof fn lemma_derefs(refs: Seq<&Test>)
    ensures
        ids_unique(refs) == ids_unique(derefs(refs)),
        children_present(refs) == children_present(derefs(refs)),
        acyclic(refs) == acyclic(derefs(refs)),
{
    let d = derefs(refs);
    assert forall|i: int| 0 <= i < refs.len() implies #[trigger] (&refs[i]).spec_id() == d[i].spec_id()
        && (&refs[i]).spec_child_ids() == d[i].spec_child_ids() by {}
    assert forall|i: int, j: int| 0 <= i < refs.len() && 0 <= j < refs.len() implies
        #[trigger] depends(refs, i, j) == depends(d, i, j) by {
        assert((&refs[i]).spec_id() == d[i].spec_id() && (&refs[j]).spec_id() == d[j].spec_id());
        assert((&refs[i]).spec_child_ids() == d[i].spec_child_ids());
    }
    assert(ids_unique(refs) == ids_unique(d)) by {
        if ids_unique(refs) {
            assert forall|a: int, b: int| 0 <= a < d.len() && 0 <= b < d.len() && a != b implies
                #[trigger] d[a].spec_id() != #[trigger] d[b].spec_id() by {
                assert((&refs[a]).spec_id() != (&refs[b]).spec_id());
            }
        }
        if ids_unique(d) {
            assert forall|a: int, b: int| 0 <= a < refs.len() && 0 <= b < refs.len() && a != b implies
                #[trigger] (&refs[a]).spec_id() != #[trigger] (&refs[b]).spec_id() by {
                assert(d[a].spec_id() != d[b].spec_id());
            }
        }
    }
    assert(children_present(refs) == children_present(d)) by {
        if children_present(refs) {
            assert forall|i: int, k: int| 0 <= i < d.len() && 0 <= k < d[i].spec_child_ids().len() implies
                has_id(d, #[trigger] d[i].spec_child_ids()[k]) by {
                assert(has_id(refs, (&refs[i]).spec_child_ids()[k]));
                let j = choose|j: int| 0 <= j < refs.len() && #[trigger] (&refs[j]).spec_id() == (&refs[i]).spec_child_ids()[k];
                assert(d[j].spec_id() == (&refs[j]).spec_id());
            }
        }
        if children_present(d) {
            assert forall|i: int, k: int| 0 <= i < refs.len() && 0 <= k < (&refs[i]).spec_child_ids().len() implies
                has_id(refs, #[trigger] (&refs[i]).spec_child_ids()[k]) by {
                assert((&refs[i]).spec_child_ids() == d[i].spec_child_ids());
                assert(has_id(d, d[i].spec_child_ids()[k]));
                let j = choose|j: int| 0 <= j < d.len() && #[trigger] d[j].spec_id() == d[i].spec_child_ids()[k];
                assert(d[j].spec_id() == (&refs[j]).spec_id());
            }
        }
    }
    assert forall|o: Seq<int>| #[trigger] is_topo_order(refs, o) == is_topo_order(d, o) by {
        if is_topo_order(refs, o) {
            assert forall|k: int, j: int| 0 <= k < o.len() && 0 <= j < d.len() && #[trigger] depends(d, o[k], j)
                implies exists|k2: int| 0 <= k2 < k && #[trigger] o[k2] == j by {
                assert(depends(refs, o[k], j));
            }
        }
        if is_topo_order(d, o) {
            assert forall|k: int, j: int| 0 <= k < o.len() && 0 <= j < refs.len() && #[trigger] depends(refs, o[k], j)
                implies exists|k2: int| 0 <= k2 < k && #[trigger] o[k2] == j by {
                assert(depends(d, o[k], j));
            }
        }
    }
    if acyclic(refs) {
        let o = choose|o: Seq<int>| is_topo_order(refs, o);
        assert(is_topo_order(d, o));
    }
    if acyclic(d) {
        let o = choose|o: Seq<int>| is_topo_order(d, o);
        assert(is_topo_order(refs, o));
    }
}

pub open spec fn sources(ps: Seq<Pattern>) -> Seq<Seq<char>> {
    ps.map_values(|p: Pattern| p.spec_source())
}

/// Compiles each pattern; fails on the first that is not valid.
fn compile_all(pats: &Vec<String>) -> (r: Result<Vec<Pattern>, ConfigError>)
    ensures
        r is Ok <==> all_valid(texts(pats@)),
        r is Ok ==> sources(r->Ok_0@) == texts(pats@),
        r is Err ==> match r->Err_0 {
            ConfigError::BadPattern(p) => !regex_valid(p@),
            _ => false,
        },
{
    let mut out: Vec<Pattern> = Vec::new();
    let mut k: usize = 0;
    while k < pats.len()
        invariant
            0 <= k <= pats@.len(),
            sources(out@) =~= texts(pats@).subrange(0, k as int),
            forall|c: int| 0 <= c < k ==> regex_valid(#[trigger] texts(pats@)[c]),
        decreases pats@.len() - k,
    {
        match Pattern::new(&pats[k]) {
            Some(p) => {
                let ghost prev = out@;
                out.push(p);
                assert(sources(out@) =~= sources(prev).push(pats@[k as int]@));
            },
            None => {
                assert(texts(pats@)[k as int] == pats@[k as int]@);
                return Err(ConfigError::BadPattern(pats[k].clone()));
            },
        }
        k += 1;
    }
    assert(texts(pats@).subrange(0, pats@.len() as int) =~= texts(pats@));
    Ok(out)
}

fn matches_any(ps: &Vec<Pattern>, name: &String) -> (r: bool)
    ensures
        r == any_match(sources(ps@), name@),
{
    let mut k: usize = 0;
    while k < ps.len()
        invariant
            0 <= k <= ps@.len(),
            forall|c: int| 0 <= c < k ==> !regex_matches(#[trigger] sources(ps@)[c], name@),
        decreases ps@.len() - k,
    {
        if ps[k].is_match(name) {
            assert(regex_matches(sources(ps@)[k as int], name@));
            return true;
        }
        k += 1;
    }
    false
}

/// The tests that the filters keep, in order.
fn select<'a>(tests: &'a Vec<Test>, skip: &Vec<Pattern>, only: &Vec<Pattern>) -> (r: Vec<&'a Test>)
    ensures
        derefs(r@) == selection(tests@, sources(skip@), sources(only@)),
{
    let ghost sk = sources(skip@);
    let ghost on = sources(only@);
    let mut r: Vec<&Test> = Vec::new();
    let mut k: usize = 0;
    while k < tests.len()
        invariant
            sk == sources(skip@),
            on == sources(only@),
            0 <= k <= tests@.len(),
            derefs(r@) == selection(tests@.subrange(0, k as int), sk, on),
        decreases tests@.len() - k,
    {
        let t = &tests[k];
        let keep = if only.len() > 0 {
            matches_any(only, &t.name)
        } else {
            t.run_by_default
        } && !matches_any(skip, &t.name);
        assert(tests@.subrange(0, k + 1).drop_last() =~= tests@.subrange(0, k as int));
        let ghost prev = r@;
        if keep {
            r.push(t);
            assert(derefs(r@) =~= derefs(prev).push(*t));
        } else {
            assert(derefs(r@) =~= derefs(prev));
        }
        assert(derefs(r@) =~= selection(tests@.subrange(0, k + 1), sk, on));
        k += 1;
    }
    assert(tests@.subrange(0, tests@.len() as int) =~= tests@);
    r
}

/// Lowers every test of the graph, leaves first, each against the tests
/// lowered before it; fails on the first test that is not acceptable.
fn lower(raw: &Dag<&Test>) -> (r: Result<Dag<TestSpec>, ConfigError>)
    requires
        raw.wf(),
        forall|i: int| 0 <= i < raw.spec_nodes().len() ==> (#[trigger] raw.spec_nodes()[i]).command.runnable(),
    ensures
        r is Err <==> exists|i: int| 0 <= i < raw.spec_nodes().len() && !test_valid(*#[trigger] raw.spec_nodes()[i]),
        r is Err ==> match r->Err_0 {
            ConfigError::DuplicateResourceReference(_) => true,
            ConfigError::ZeroErrorExitCode => true,
            _ => false,
        },
        r is Ok ==> r->Ok_0.wf() && r->Ok_0.spec_nodes().len() == raw.spec_nodes().len()
            && forall|k: int| 0 <= k < raw.spec_nodes().len() ==> lowers_to(
                *#[trigger] raw.spec_bottom_up()[k],
                r->Ok_0.spec_nodes()[k],
                r->Ok_0.spec_nodes(),
            ),
{
    let bu = raw.bottom_up();
    let ghost rn = raw.spec_nodes();
    let ghost order = raw.spec_order();
    let ghost b = raw.spec_bottom_up();
    let mut parsed: Dag<TestSpec> = Dag::empty();
    let mut k: usize = 0;
    while k < bu.len()
        invariant
            raw.wf(),
            rn == raw.spec_nodes(),
            order == raw.spec_order(),
            b == raw.spec_bottom_up(),
            bu@.len() == b.len(),
            b.len() == rn.len(),
            forall|c: int| 0 <= c < bu@.len() ==> *#[trigger] bu@[c] == b[c],
            forall|i: int| 0 <= i < rn.len() ==> (#[trigger] rn[i]).command.runnable(),
            0 <= k <= bu@.len(),
            parsed.wf(),
            parsed.spec_nodes().len() == k,
            forall|c: int| 0 <= c < k ==> test_valid(*#[trigger] b[c]),
            forall|c: int| 0 <= c < k ==> (#[trigger] parsed.spec_nodes()[c]).name@ == b[c].name@,
            forall|c: int| 0 <= c < k ==> lowers_to(*#[trigger] b[c], parsed.spec_nodes()[c], parsed.spec_nodes()),
            forall|c: int, d: int| 0 <= c < k && 0 <= d < b[c].depends_on@.len() ==> has_id(
                parsed.spec_nodes(),
                #[trigger] b[c].depends_on@[d]@,
            ),
        decreases bu@.len() - k,
    {
        let t: &Test = *bu[k];
        let ghost pn = parsed.spec_nodes();
        proof {
            assert(b[k as int] == rn[order[k as int]]);
            assert(t.command.runnable());
            assert forall|d: int| 0 <= d < t.depends_on@.len() implies has_id(pn, #[trigger] t.depends_on@[d]@) by {
                let n = t.depends_on@[d]@;
                assert((&rn[order[k as int]]).spec_child_ids()[d] == n);
                assert(has_id(rn, (&rn[order[k as int]]).spec_child_ids()[d]));
                let j = choose|j: int| 0 <= j < rn.len() && #[trigger] (&rn[j]).spec_id() == n;
                assert(depends(rn, order[k as int], j));
                let k2 = choose|k2: int| 0 <= k2 < k && #[trigger] order[k2] == j;
                assert(b[k2] == rn[j]);
                assert(pn[k2].spec_id() == n);
            }
        }
        let spec = match t.parse(&parsed) {
            Ok(x) => x,
            Err(e) => {
                proof {
                    assert(0 <= order[k as int] < rn.len());
                    assert(!test_valid(*rn[order[k as int]]));
                }
                return Err(e);
            },
        };
        let ghost x = spec;
        proof {
            // The new name differs from those placed before.
            assert forall|c: int| 0 <= c < k implies #[trigger] pn[c].spec_id() != x.spec_id() by {
                assert(order[c] != order[k as int]);
                assert((&rn[order[c]]).spec_id() != (&rn[order[k as int]]).spec_id());
            }
        }
        proof {
            if has_id(pn, x.spec_id()) {
                let j = choose|j: int| 0 <= j < pn.len() && #[trigger] pn[j].spec_id() == x.spec_id();
                assert(pn[j].spec_id() != x.spec_id());
            }
            assert forall|c: int| 0 <= c < x.spec_child_ids().len() implies has_id(pn, #[trigger] x.spec_child_ids()[c]) by {
                assert(x.spec_child_ids()[c] == t.depends_on@[c]@);
            }
        }
        parsed = parsed.with_node(spec).unwrap();
        proof {
            let nn = parsed.spec_nodes();
            assert(nn == pn.push(x));
            assert forall|c: int, d: int| 0 <= c <= k && 0 <= d < b[c].depends_on@.len() implies has_id(
                nn, #[trigger] b[c].depends_on@[d]@) by {
                let n = b[c].depends_on@[d]@;
                if c < k {
                    let j = choose|j: int| 0 <= j < pn.len() && #[trigger] pn[j].spec_id() == n;
                    assert(nn[j] == pn[j]);
                } else {
                    assert(b[c] == *t);
                    let j = choose|j: int| 0 <= j < pn.len() && #[trigger] pn[j].spec_id() == n;
                    assert(nn[j] == pn[j]);
                }
            }
            assert forall|c: int| 0 <= c <= k implies lowers_to(*#[trigger] b[c], nn[c], nn) by {
                let deps = texts(b[c].depends_on@);
                let names = sort_names(deps);
                lemma_sort_members(deps);
                assert forall|d: int| 0 <= d < names.len() implies #[trigger] dep_hashes(nn, names)[d]
                    == dep_hashes(pn, names)[d] by {
                    assert(in_list(deps, names[d]));
                    let j = choose|j: int| 0 <= j < deps.len() && deps[j] == names[d];
                    assert(deps[j] == b[c].depends_on@[j]@);
                    lemma_hash_of_named_push(pn, x, names[d]);
                }
                assert(dep_hashes(nn, names) =~= dep_hashes(pn, names));
                if c < k {
                    assert(nn[c] == pn[c]);
                } else {
                    assert(b[c] == *t);
                }
            }
        }
        k += 1;
    }
    proof {
        assert forall|i: int| 0 <= i < rn.len() implies test_valid(*#[trigger] rn[i]) by {
            assert(appears(order, i));
            let c = choose|c: int| 0 <= c < order.len() && #[trigger] order[c] == i;
            assert(b[c] == rn[i]);
        }
    }
    Ok(parsed)
}

/// The user's configuration.
#[derive(Debug, Clone)]
pub struct Config {
    /// How many worktrees to create for jobs.
    pub num_worktrees: usize,
    pub resources: Option<Vec<Resource>>,
    pub tests: Vec<Test>,
}

/// The number of worktrees when the configuration gives none.
pub fn default_num_worktrees() -> (r: usize)
    ensures
        r == 8,
{
    8
}

/// Whether a job needs a worktree when the configuration does not say.
pub fn default_requires_worktree() -> (r: bool)
    ensures
        r,
{
    true
}

/// Whether a test runs when no filter names it, when the configuration does not say.
pub fn default_true() -> (r: bool)
    ensures
        r,
{
    true
}

/// Whether stdout and stderr are kept apart when the configuration does not say.
pub fn default_separate_outputs() -> (r: bool)
    ensures
        !r,
{
    false
}

/// The cache policy when the configuration gives none.
pub fn default_cache_policy() -> (r: CachePolicy)
    ensures
        r == CachePolicy::ByCommit,
{
    CachePolicy::ByCommit
}

/// Seconds between the soft and the hard termination when the configuration
/// gives none.
pub fn default_shutdown_grace_period() -> (r: u64)
    ensures
        r == 60,
{
    60
}

pub open spec fn dec_digit(d: nat) -> char {
    if d == 0 {
        '0'
    } else if d == 1 {
        '1'
    } else if d == 2 {
        '2'
    } else if d == 3 {
        '3'
    } else if d == 4 {
        '4'
    } else if d == 5 {
        '5'
    } else if d == 6 {
        '6'
    } else if d == 7 {
        '7'
    } else if d == 8 {
        '8'
    } else {
        '9'
    }
}

/// The decimal digits of `n`, most significant first.
pub open spec fn dec(n: nat) -> Seq<char>
    decreases n,
{
    if n < 10 {
        seq![dec_digit(n)]
    } else {
        dec(n / 10).push(dec_digit(n % 10))
    }
}

pub(crate) fn push_dec(s: &mut String, n: usize)
    ensures
        final(s)@ == old(s)@ + dec(n as nat),
    decreases n,
{
    if n >= 10 {
        push_dec(s, n / 10);
    }
    let d: u32 = (n % 10) as u32;
    let c = if d == 0 { '0' } else if d == 1 { '1' } else if d == 2 { '2' } else if d == 3 { '3' } else if d == 4 {
        '4'
    } else if d == 5 { '5' } else if d == 6 { '6' } else if d == 7 { '7' } else if d == 8 { '8' } else { '9' };
    push_char(s, c);
    assert(s@ =~= old(s)@ + dec(n as nat));
}

/// The value of the `i`-th token of a resource declared by count.
pub open spec fn counted_token(name: Seq<char>, i: nat) -> Seq<char> {
    name + seq!['-'] + dec(i)
}

/// The token values of a declared resource.
pub open spec fn resource_tokens(r: Resource) -> Seq<Seq<char>> {
    match r {
        Resource::Explicit { tokens, .. } => texts(tokens@),
        _ => Seq::new(r.spec_count(), |i: int| counted_token(r.spec_name(), i as nat)),
    }
}

pub open spec fn tokens_view(v: Seq<(ResourceKey, Vec<String>)>) -> Seq<(Option<Seq<char>>, Seq<Seq<char>>)> {
    v.map_values(|p: (ResourceKey, Vec<String>)| (p.0@, texts(p.1@)))
}

pub open spec fn config_resources(c: Config) -> Seq<Resource> {
    match c.resources {
        Some(v) => v@,
        None => Seq::empty(),
    }
}

/// Some declared resource has this name.
pub open spec fn declared(toks: Seq<(Option<Seq<char>>, Seq<Seq<char>>)>, n: Seq<char>) -> bool {
    exists|i: int| 0 <= i < toks.len() && #[trigger] toks[i].0 == Some(n)
}

/// Some selected test asks for a resource that is not declared.
pub open spec fn undefined_reference(sel: Seq<Test>, toks: Seq<(Option<Seq<char>>, Seq<Seq<char>>)>) -> bool {
    exists|i: int, j: int| 0 <= i < sel.len() && 0 <= j < resources_of(sel[i]).len()
        && !declared(toks, #[trigger] resources_of(sel[i])[j].spec_name())
}

/// `t` is a test of the list that the filters keep.
pub open spec fn kept_from(tests: Seq<Test>, t: Test, skip: Seq<Seq<char>>, only: Seq<Seq<char>>) -> bool {
    exists|a: int| 0 <= a < tests.len() && tests[a] == t && selected(tests[a], skip, only)
}

/// Every test that the filters keep is a test of the list, and every test of
/// the list that they keep is selected.
proof fn lemma_selection_members(tests: Seq<Test>, skip: Seq<Seq<char>>, only: Seq<Seq<char>>)
    ensures
        forall|i: int| 0 <= i < selection(tests, skip, only).len() ==> kept_from(tests, #[trigger] selection(tests, skip, only)[i], skip, only),
        forall|a: int| 0 <= a < tests.len() && selected(#[trigger] tests[a], skip, only) ==> exists|i: int|
            0 <= i < selection(tests, skip, only).len() && selection(tests, skip, only)[i] == tests[a],
    decreases tests.len(),
{
    if tests.len() > 0 {
        let d = tests.drop_last();
        lemma_selection_members(d, skip, only);
        let s0 = selection(d, skip, only);
        let s1 = selection(tests, skip, only);
        assert(s1 == s0 + if selected(tests.last(), skip, only) {
            seq![tests.last()]
        } else {
            Seq::empty()
        });
        assert forall|i: int| 0 <= i < s1.len() implies kept_from(tests, #[trigger] s1[i], skip, only) by {
            if i < s0.len() {
                assert(kept_from(d, s0[i], skip, only));
                let a = choose|a: int| 0 <= a < d.len() && d[a] == s0[i] && selected(d[a], skip, only);
                assert(tests[a] == d[a]);
                assert(s1[i] == s0[i]);
            } else {
                assert(selected(tests.last(), skip, only));
                assert(s1[i] == tests.last());
                let a = tests.len() - 1;
                assert(tests[a] == s1[i] && selected(tests[a], skip, only));
            }
        }
        assert forall|a: int| 0 <= a < tests.len() && selected(#[trigger] tests[a], skip, only) implies exists|i: int|
            0 <= i < s1.len() && s1[i] == tests[a] by {
            if a < d.len() {
                assert(d[a] == tests[a]);
                let i = choose|i: int| 0 <= i < s0.len() && s0[i] == d[a];
                assert(s1[i] == s0[i]);
            } else {
                assert(s1[s0.len() as int] == tests[a]);
            }
        }
    }
}

/// `x` is the lowering of some test of `sel`.
pub open spec fn lowered_from(sel: Seq<Test>, x: TestSpec, nodes: Seq<TestSpec>) -> bool {
    exists|i: int| 0 <= i < sel.len() && lowers_to(sel[i], x, nodes)
}

/// What parsing the tests of `c` gives: the first failing stage in order
/// (filters, graph, tests, resource references) decides the error.
pub open spec fn parse_outcome(
    c: Config,
    toks: Seq<(Option<Seq<char>>, Seq<Seq<char>>)>,
    skip: Seq<Seq<char>>,
    only: Seq<Seq<char>>,
    r: Result<Dag<TestSpec>, ConfigError>,
) -> bool {
    let sel = selection(c.tests@, skip, only);
    let valid = all_valid(skip) && all_valid(only);
    let graph_ok = ids_unique(sel) && children_present(sel) && acyclic(sel);
    let tests_ok = forall|i: int| 0 <= i < sel.len() ==> test_valid(#[trigger] sel[i]);
    &&& (r is Err && r->Err_0 is BadPattern) <==> !valid
    &&& (r is Err && r->Err_0 is Graph && r->Err_0->Graph_0 == DagError::Duplicate) <==> valid && !ids_unique(sel)
    &&& (r is Err && r->Err_0 is Graph && r->Err_0->Graph_0 == DagError::NoSuchChild) <==> valid && ids_unique(sel)
        && !children_present(sel)
    &&& (r is Err && r->Err_0 is Graph && r->Err_0->Graph_0 == DagError::Cycle) <==> valid && ids_unique(sel)
        && children_present(sel) && !acyclic(sel)
    &&& (r is Err && (r->Err_0 is DuplicateResourceReference || r->Err_0 is ZeroErrorExitCode)) <==> valid
        && graph_ok && !tests_ok
    &&& (r is Err && r->Err_0 is UndefinedResource) <==> valid && graph_ok && tests_ok && undefined_reference(sel, toks)
    &&& !(r is Err && r->Err_0 is DuplicateResourceDeclaration)
    &&& r is Ok ==> r->Ok_0.wf() && r->Ok_0.spec_nodes().len() == sel.len() && forall|k: int|
        0 <= k < sel.len() ==> lowered_from(sel, #[trigger] r->Ok_0.spec_nodes()[k], r->Ok_0.spec_nodes())
}

/// The filters compile, the selected tests form a graph, each is acceptable,
/// and `d` holds their lowering.
pub open spec fn lowered_ok(c: Config, skip: Seq<Seq<char>>, only: Seq<Seq<char>>, d: Dag<TestSpec>) -> bool {
    let sel = selection(c.tests@, skip, only);
    &&& all_valid(skip) && all_valid(only)
    &&& ids_unique(sel) && children_present(sel) && acyclic(sel)
    &&& forall|i: int| 0 <= i < sel.len() ==> test_valid(#[trigger] sel[i])
    &&& d.wf() && d.spec_nodes().len() == sel.len()
    &&& forall|k: int| 0 <= k < sel.len() ==> lowered_from(sel, #[trigger] d.spec_nodes()[k], d.spec_nodes())
}

impl Config {
    /// The tokens of each declared resource, in declaration order.
    pub fn parse_resource_tokens(&self) -> (r: Vec<(ResourceKey, Vec<String>)>)
        ensures
            tokens_view(r@) == config_resources(*self).map_values(
                |x: Resource| (Some(x.spec_name()), resource_tokens(x)),
            ),
    {
        let empty: Vec<Resource> = Vec::new();
        let rs: &Vec<Resource> = match &self.resources {
            Some(v) => v,
            None => &empty,
        };
        let ghost want = rs@.map_values(|x: Resource| (Some(x.spec_name()), resource_tokens(x)));
        let mut out: Vec<(ResourceKey, Vec<String>)> = Vec::new();
        let mut k: usize = 0;
        while k < rs.len()
            invariant
                want == rs@.map_values(|x: Resource| (Some(x.spec_name()), resource_tokens(x))),
                0 <= k <= rs@.len(),
                tokens_view(out@) =~= want.subrange(0, k as int),
            decreases rs@.len() - k,
        {
            let r = &rs[k];
            let toks: Vec<String> = match r {
                Resource::Explicit { tokens, .. } => clone_texts(tokens),
                _ => {
                    let n = r.count();
                    let mut v: Vec<String> = Vec::new();
                    let mut i: usize = 0;
                    while i < n
                        invariant
                            n == r.spec_count(),
                            0 <= i <= n,
                            texts(v@) =~= Seq::new(i as nat, |c: int| counted_token(r.spec_name(), c as nat)),
                        decreases n - i,
                    {
                        let mut tok = r.name().clone();
                        push_char(&mut tok, '-');
                        push_dec(&mut tok, i);
                        assert(tok@ =~= counted_token(r.spec_name(), i as nat));
                        let ghost prev = v@;
                        v.push(tok);
                        assert(texts(v@) =~= texts(prev).push(counted_token(r.spec_name(), i as nat)));
                        i += 1;
                    }
                    v
                },
            };
            assert(texts(toks@) == resource_tokens(*r));
            let ghost prev = out@;
            out.push((ResourceKey::UserToken(r.name().clone()), toks));
            assert(tokens_view(out@) =~= tokens_view(prev).push((Some(r.spec_name()), resource_tokens(*r))));
            k += 1;
        }
        assert(want.subrange(0, rs@.len() as int) =~= want);
        out
    }

    /// The selected tests, lowered into the graph that the scheduler runs.
    fn parse_tests(
        &self,
        resource_tokens: &Vec<(ResourceKey, Vec<String>)>,
        skip_tests: &Vec<String>,
        only_tests: &Vec<String>,
    ) -> (r: Result<Dag<TestSpec>, ConfigError>)
        requires
            forall|i: int| 0 <= i < self.tests@.len() ==> (#[trigger] self.tests@[i]).command.runnable(),
        ensures
            parse_outcome(*self, tokens_view(resource_tokens@), texts(skip_tests@), texts(only_tests@), r),
    {
        let skip = compile_all(skip_tests)?;
        let only = compile_all(only_tests)?;
        let ghost sel_spec = selection(self.tests@, texts(skip_tests@), texts(only_tests@));
        let sel = select(&self.tests, &skip, &only);
        proof {
            lemma_derefs(sel@);
            lemma_selection_members(self.tests@, texts(skip_tests@), texts(only_tests@));
        }
        let ghost sel_refs = sel@;
        let raw = match Dag::new(sel) {
            Ok(d) => d,
            Err(e) => {
                return Err(ConfigError::Graph(e));
            },
        };
        proof {
            assert forall|i: int| 0 <= i < raw.spec_nodes().len() implies (#[trigger] raw.spec_nodes()[i]).command.runnable() by {
                assert(*sel_refs[i] == sel_spec[i]);
            }
        }
        let ghost rn = raw.spec_nodes();
        assert(rn == sel_refs);
        let tests = match lower(&raw) {
            Ok(t) => t,
            Err(e) => {
                proof {
                    let i = choose|i: int| 0 <= i < rn.len() && !test_valid(*#[trigger] rn[i]);
                    assert(sel_spec[i] == *rn[i]);
                }
                return Err(e);
            },
        };
        proof {
            assert(is_topo_order(rn, raw.spec_order()));
            assert(acyclic(rn));
            assert forall|i: int| 0 <= i < sel_spec.len() implies test_valid(#[trigger] sel_spec[i]) by {
                assert(sel_spec[i] == *rn[i]);
                assert(test_valid(*rn[i]));
            }
            assert forall|k: int| 0 <= k < sel_spec.len() implies lowered_from(
                sel_spec, #[trigger] tests.spec_nodes()[k], tests.spec_nodes()) by {
                let b = raw.spec_bottom_up();
                assert(lowers_to(*b[k], tests.spec_nodes()[k], tests.spec_nodes()));
                let i = raw.spec_order()[k];
                assert(0 <= i < rn.len());
                assert(sel_spec[i] == *rn[i]);
            }
        }
        let ghost toks = tokens_view(resource_tokens@);
        assert(lowered_ok(*self, texts(skip_tests@), texts(only_tests@), tests));
        // Every resource that a selected test asks for must be declared.
        let mut i: usize = 0;
        while i < self.tests.len()
            invariant
                0 <= i <= self.tests@.len(),
                toks == tokens_view(resource_tokens@),
                forall|a: int, j: int| 0 <= a < i && 0 <= j < resources_of(self.tests@[a]).len()
                    && selected(self.tests@[a], texts(skip_tests@), texts(only_tests@))
                    ==> declared(toks, #[trigger] resources_of(self.tests@[a])[j].spec_name()),
                sources(skip@) == texts(skip_tests@),
                sources(only@) == texts(only_tests@),
                sel_spec == selection(self.tests@, texts(skip_tests@), texts(only_tests@)),
                lowered_ok(*self, texts(skip_tests@), texts(only_tests@), tests),
                forall|a: int| 0 <= a < self.tests@.len() && selected(#[trigger] self.tests@[a], texts(skip_tests@), texts(only_tests@))
                    ==> exists|idx: int| 0 <= idx < sel_spec.len() && sel_spec[idx] == self.tests@[a],
                forall|idx: int| 0 <= idx < sel_spec.len() ==> kept_from(self.tests@, #[trigger] sel_spec[idx], texts(skip_tests@), texts(only_tests@)),
            decreases self.tests@.len() - i,
        {
            let t = &self.tests[i];
            let keep = if only.len() > 0 {
                matches_any(&only, &t.name)
            } else {
                t.run_by_default
            } && !matches_any(&skip, &t.name);
            if keep {
                let ghost idx = choose|idx: int| 0 <= idx < sel_spec.len() && sel_spec[idx] == self.tests@[i as int];
                if let Some(rs) = &t.resources {
                    let mut j: usize = 0;
                    while j < rs.len()
                        invariant
                            0 <= idx < sel_spec.len(),
                            sel_spec[idx] == *t,
                            sel_spec == selection(self.tests@, texts(skip_tests@), texts(only_tests@)),
                            lowered_ok(*self, texts(skip_tests@), texts(only_tests@), tests),
                            0 <= j <= rs@.len(),
                            rs@ == resources_of(*t),
                            toks == tokens_view(resource_tokens@),
                            forall|c: int| 0 <= c < j ==> declared(toks, #[trigger] rs@[c].spec_name()),
                        decreases rs@.len() - j,
                    {
                        let name = rs[j].name();
                        let mut found = false;
                        let mut q: usize = 0;
                        while q < resource_tokens.len()
                            invariant
                                0 <= q <= resource_tokens@.len(),
                                toks == tokens_view(resource_tokens@),
                                found ==> declared(toks, name@),
                                !found ==> forall|c: int| 0 <= c < q ==> (#[trigger] toks[c]).0 != Some(name@),
                            decreases resource_tokens@.len() - q,
                        {
                            match &resource_tokens[q].0 {
                                ResourceKey::UserToken(n) => {
                                    if n.eq(name) {
                                        assert(toks[q as int].0 == Some(name@));
                                        found = true;
                                    }
                                },
                                ResourceKey::Worktree => {},
                            }
                            q += 1;
                        }
                        if !found {
                            proof {
                                assert(!declared(toks, name@));
                                assert(resources_of(sel_spec[idx])[j as int].spec_name() == name@);
                            }
                            return Err(ConfigError::UndefinedResource { resource: name.clone(), test: t.name.clone() });
                        }
                        j += 1;
                    }
                }
            }
            proof {
                if selected(self.tests@[i as int], texts(skip_tests@), texts(only_tests@)) {
                    assert(keep);
                }
            }
            i += 1;
        }
        proof {
            if undefined_reference(sel_spec, toks) {
                let (idx, j) = choose|idx: int, j: int| 0 <= idx < sel_spec.len() && 0 <= j < resources_of(sel_spec[idx]).len()
                    && !declared(toks, #[trigger] resources_of(sel_spec[idx])[j].spec_name());
                assert(kept_from(self.tests@, sel_spec[idx], texts(skip_tests@), texts(only_tests@)));
                let a = choose|a: int| 0 <= a < self.tests@.len() && self.tests@[a] == sel_spec[idx]
                    && selected(self.tests@[a], texts(skip_tests@), texts(only_tests@));
                assert(declared(toks, resources_of(self.tests@[a])[j].spec_name()));
            }
        }
        Ok(tests)
    }
}

/// A configuration that was accepted: its test graph and its resource pool.
/// The pool holds the declared resources only; `num_worktrees` says how many
/// worktree tokens to add.
pub struct ParsedConfig {
    pub source_path: String,
    pub num_worktrees: usize,
    pub resource_pools: Pools,
    pub tests: Dag<TestSpec>,
}

/// The tokens that the configuration declares, by resource.
pub open spec fn declared_tokens(c: Config) -> Seq<(Option<Seq<char>>, Seq<Seq<char>>)> {
    config_resources(c).map_values(|x: Resource| (Some(x.spec_name()), resource_tokens(x)))
}

/// `p` holds exactly the declared tokens, all free.
pub open spec fn pool_of(p: Pools, toks: Seq<(Option<Seq<char>>, Seq<Seq<char>>)>) -> bool {
    &&& p.wf()
    &&& p.keys@.len() == toks.len()
    &&& forall|i: int| 0 <= i < toks.len() ==> (#[trigger] p.spec_keys()[i]) == toks[i].0 && p.spec_tokens(i)
        == toks[i].1 && forall|t: int| 0 <= t < p.free@[i]@.len() ==> #[trigger] p.free@[i]@[t]
}

impl ParsedConfig {
    /// Checks and lowers a configuration: a resource declared twice is
    /// refused first; then the tests are parsed as `parse_outcome` says.
    pub fn new(
        config: Config,
        source_path: String,
        skip_tests: &Vec<String>,
        only_tests: &Vec<String>,
    ) -> (r: Result<Self, ConfigError>)
        requires
            forall|i: int| 0 <= i < config.tests@.len() ==> (#[trigger] config.tests@[i]).command.runnable(),
        ensures
            !resource_names_unique(config_resources(config)) ==> r is Err && r->Err_0 is DuplicateResourceDeclaration,
            resource_names_unique(config_resources(config)) ==> parse_outcome(
                config,
                declared_tokens(config),
                texts(skip_tests@),
                texts(only_tests@),
                match r {
                    Ok(p) => Ok(p.tests),
                    Err(e) => Err(e),
                },
            ),
            r is Ok ==> pool_of(r->Ok_0.resource_pools, declared_tokens(config))
                && r->Ok_0.num_worktrees == config.num_worktrees && r->Ok_0.source_path@ == source_path@,
    {
        let resource_tokens = config.parse_resource_tokens();
        let ghost toks = tokens_view(resource_tokens@);
        assert(toks == declared_tokens(config));
        let ghost rs = config_resources(config);
        assert(toks.len() == rs.len());
        assert forall|c: int| 0 <= c < rs.len() implies (#[trigger] toks[c]).0 == Some(rs[c].spec_name()) by {
            assert(declared_tokens(config)[c] == (Some(rs[c].spec_name()), crate::config::resource_tokens(rs[c])));
        }
        // A resource declared twice.
        let mut i: usize = 0;
        while i < resource_tokens.len()
            invariant
                toks == tokens_view(resource_tokens@),
                toks == declared_tokens(config),
                rs == config_resources(config),
                toks.len() == rs.len(),
                forall|c: int| 0 <= c < rs.len() ==> (#[trigger] toks[c]).0 == Some(rs[c].spec_name()),
                0 <= i <= resource_tokens@.len(),
                forall|a: int, b: int| 0 <= a < i && 0 <= b < i && a != b ==> #[trigger] rs[a].spec_name()
                    != #[trigger] rs[b].spec_name(),
            decreases resource_tokens@.len() - i,
        {
            let mut j: usize = 0;
            while j < i
                invariant
                    toks == tokens_view(resource_tokens@),
                    toks == declared_tokens(config),
                    rs == config_resources(config),
                    toks.len() == rs.len(),
                    forall|c: int| 0 <= c < rs.len() ==> (#[trigger] toks[c]).0 == Some(rs[c].spec_name()),
                    0 <= j <= i < resource_tokens@.len(),
                    forall|a: int, b: int| 0 <= a < i && 0 <= b < i && a != b ==> #[trigger] rs[a].spec_name()
                        != #[trigger] rs[b].spec_name(),
                    forall|b: int| 0 <= b < j ==> #[trigger] rs[b].spec_name() != rs[i as int].spec_name(),
                decreases i - j,
            {
                assert(toks[i as int].0 == resource_tokens@[i as int].0@);
                assert(toks[j as int].0 == resource_tokens@[j as int].0@);
                if same_key(&resource_tokens[i].0, &resource_tokens[j].0) {
                    assert(rs[j as int].spec_name() == rs[i as int].spec_name());
                    let name = match &resource_tokens[i].0 {
                        ResourceKey::UserToken(n) => n.clone(),
                        ResourceKey::Worktree => String::new(),
                    };
                    return Err(ConfigError::DuplicateResourceDeclaration(name));
                }
                j += 1;
            }
            i += 1;
        }
        assert(resource_names_unique(rs));
        let tests = match config.parse_tests(&resource_tokens, skip_tests, only_tests) {
            Ok(t) => t,
            Err(e) => {
                return Err(e);
            },
        };
        let mut pools = Pools::empty();
        let mut k: usize = 0;
        while k < resource_tokens.len()
            invariant
                toks == tokens_view(resource_tokens@),
                toks == declared_tokens(config),
                rs == config_resources(config),
                toks.len() == rs.len(),
                forall|c: int| 0 <= c < rs.len() ==> (#[trigger] toks[c]).0 == Some(rs[c].spec_name()),
                resource_names_unique(rs),
                0 <= k <= resource_tokens@.len(),
                pools.wf(),
                pools.keys@.len() == k,
                forall|c: int| 0 <= c < k ==> (#[trigger] pools.spec_keys()[c]) == toks[c].0 && pools.spec_tokens(c)
                    == toks[c].1 && forall|t: int| 0 <= t < pools.free@[c]@.len() ==> #[trigger] pools.free@[c]@[t],
            decreases resource_tokens@.len() - k,
        {
            let ghost before = pools;
            assert(toks[k as int].0 == resource_tokens@[k as int].0@);
            assert(toks[k as int].1 == texts(resource_tokens@[k as int].1@));
            proof {
                assert forall|ki: int| 0 <= ki < before.keys@.len() implies #[trigger] before.keys@[ki]@ != resource_tokens@[k as int].0@ by {
                    assert(before.spec_keys()[ki] == toks[ki].0);
                    assert(rs[ki].spec_name() != rs[k as int].spec_name());
                }
            }
            let toks_k = clone_texts(&resource_tokens[k].1);
            let added = pools.insert(clone_key(&resource_tokens[k].0), toks_k);
            proof {
                assert(added);
                assert forall|c: int| 0 <= c < k + 1 implies (#[trigger] pools.spec_keys()[c]) == toks[c].0 && pools.spec_tokens(c)
                    == toks[c].1 && forall|t: int| 0 <= t < pools.free@[c]@.len() ==> #[trigger] pools.free@[c]@[t] by {
                    if c < k {
                        assert(pools.keys@[c] == before.keys@[c]);
                        assert(pools.tokens@[c] == before.tokens@[c]);
                        assert(pools.free@[c] == before.free@[c]);
                        assert(before.spec_keys()[c] == toks[c].0);
                    } else {
                        assert(pools.keys@[c]@ == resource_tokens@[k as int].0@);
                        assert(pools.spec_keys()[c] == pools.keys@[c]@);
                        assert(pools.spec_tokens(c) == texts(pools.tokens@[c]@));
                        assert forall|t: int| 0 <= t < pools.free@[c]@.len() implies #[trigger] pools.free@[c]@[t] by {
                            assert(pools.free@[c]@.len() == pools.tokens@[c]@.len());
                        }
                    }
                }
            }
            k += 1;
        }
        Ok(ParsedConfig { source_path, num_worktrees: config.num_worktrees, resource_pools: pools, tests })
    }
}

} // verus!
