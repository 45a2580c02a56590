//! Named tokens and the pool that hands them out atomically.
use vstd::prelude::*;
use crate::testspec::texts;
use crate::config::{dec, push_dec};
use crate::git::push_char;

verus! {

/// What a token is for: a worktree, or a resource that the configuration
/// declares by name.
#[derive(Debug, Clone)]
pub enum ResourceKey {
    Worktree,
    UserToken(String),
}

impl View for ResourceKey {
    /// `None` for the worktree key, the name for a declared resource.
    type V = Option<Seq<char>>;

    open spec fn view(&self) -> Option<Seq<char>> {
        match self {
            ResourceKey::Worktree => None,
            ResourceKey::UserToken(n) => Some(n@),
        }
    }
}

/// Compares two keys.
pub fn same_key(a: &ResourceKey, b: &ResourceKey) -> (r: bool)
    ensures
        r == (a@ == b@),
{
    match (a, b) {
        (ResourceKey::Worktree, ResourceKey::Worktree) => true,
        (ResourceKey::UserToken(x), ResourceKey::UserToken(y)) => x.eq(y),
        _ => false,
    }
}

pub fn clone_key(k: &ResourceKey) -> (r: ResourceKey)
    ensures
        r@ == k@,
{
    match k {
        ResourceKey::Worktree => ResourceKey::Worktree,
        ResourceKey::UserToken(n) => ResourceKey::UserToken(n.clone()),
    }
}


/// How many entries are set.
pub open spec fn count_true(s: Seq<bool>) -> nat
    decreases s.len(),
{
    if s.len() == 0 {
        0
    } else {
        count_true(s.drop_last()) + if s.last() {
            1nat
        } else {
            0nat
        }
    }
}

proof fn lemma_count_true_set(s: Seq<bool>, t: int)
    requires
        0 <= t < s.len(),
        s[t],
    ensures
        count_true(s.update(t, false)) + 1 == count_true(s),
    decreases s.len(),
{
    if t < s.len() - 1 {
        lemma_count_true_set(s.drop_last(), t);
        assert(s.update(t, false).drop_last() =~= s.drop_last().update(t, false));
    } else {
        assert(s.update(t, false).drop_last() =~= s.drop_last());
    }
}

proof fn lemma_count_true_bound(s: Seq<bool>)
    ensures
        count_true(s) <= s.len(),
    decreases s.len(),
{
    if s.len() > 0 {
        lemma_count_true_bound(s.drop_last());
    }
}

proof fn lemma_count_true_prefix(s: Seq<bool>, k: int)
    requires
        0 <= k < s.len(),
    ensures
        count_true(s.subrange(0, k + 1)) == count_true(s.subrange(0, k)) + if s[k] {
            1nat
        } else {
            0nat
        },
{
    assert(s.subrange(0, k + 1).drop_last() =~= s.subrange(0, k));
}

/// A count of `n` at or above the sequence's count of set entries, over a
/// prefix: some set entry lies at or after `k` when the prefix has fewer.
proof fn lemma_count_true_rest(s: Seq<bool>, k: int)
    requires
        0 <= k <= s.len(),
        count_true(s.subrange(0, k)) < count_true(s),
    ensures
        exists|t: int| k <= t < s.len() && s[t],
    decreases s.len() - k,
{
    if k == s.len() {
        assert(s.subrange(0, k) =~= s);
    } else if !s[k] {
        lemma_count_true_prefix(s, k);
        lemma_count_true_rest(s, k + 1);
    }
}

proof fn lemma_count_true_mono(a: Seq<bool>, b: Seq<bool>)
    requires
        a.len() == b.len(),
        forall|t: int| 0 <= t < a.len() && #[trigger] a[t] ==> b[t],
    ensures
        count_true(a) <= count_true(b),
    decreases a.len(),
{
    if a.len() > 0 {
        lemma_count_true_mono(a.drop_last(), b.drop_last());
    }
}

/// With fewer free tokens, a request that cannot be met still cannot.
pub proof fn lemma_fewer_free(a: Pools, b: Pools, need: Seq<(ResourceKey, usize)>)
    requires
        a.wf(),
        b.wf(),
        b.same_tokens(&a),
        forall|ki: int, t: int| 0 <= ki < a.keys@.len() && 0 <= t < a.free@[ki]@.len() && #[trigger] b.free@[ki]@[t]
            ==> a.free@[ki]@[t],
    ensures
        b.satisfiable(need) ==> a.satisfiable(need),
{
    if b.satisfiable(need) {
        assert forall|e: int| 0 <= e < need.len() implies a.can_grant(#[trigger] need[e].0@, need[e].1) by {
            assert(b.can_grant(need[e].0@, need[e].1));
            let ki = choose|ki: int| 0 <= ki < b.keys@.len() && #[trigger] b.keys@[ki]@ == need[e].0@
                && count_true(b.free@[ki]@) >= need[e].1;
            assert(b.free@[ki]@.len() == a.free@[ki]@.len());
            lemma_count_true_mono(b.free@[ki]@, a.free@[ki]@);
            assert(a.keys@[ki]@ == need[e].0@);
        }
    }
}

/// The tokens of one key that one allocation holds.
pub struct Grant {
    pub key: ResourceKey,
    /// Position of the key in the pool.
    pub key_index: usize,
    /// Positions of the tokens among the key's tokens.
    pub indices: Vec<usize>,
    /// The tokens themselves, in the order of `indices`.
    pub tokens: Vec<String>,
}

/// Tokens held by one job; handed back with `Pools::release`.
pub struct Allocation {
    pub grants: Vec<Grant>,
}

/// `t` is an entry of `s`.
pub open spec fn in_idx(s: Seq<usize>, t: int) -> bool {
    exists|m: int| 0 <= m < s.len() && s[m] == t
}

/// Token `t` of key `ki` is among those of the allocation.
pub open spec fn holds(a: Seq<Grant>, ki: int, t: int) -> bool {
    exists|e: int, m: int|
        0 <= e < a.len() && 0 <= m < a[e].indices@.len() && a[e].key_index == ki
            && #[trigger] a[e].indices@[m] == t
}

proof fn lemma_holds_push(a: Seq<Grant>, g: Grant, ki: int, t: int)
    ensures
        holds(a.push(g), ki, t) == (holds(a, ki, t) || (g.key_index == ki && in_idx(g.indices@, t))),
{
    let b = a.push(g);
    if holds(a, ki, t) {
        let (e, m) = choose|e: int, m: int|
            0 <= e < a.len() && 0 <= m < a[e].indices@.len() && a[e].key_index == ki
                && #[trigger] a[e].indices@[m] == t;
        assert(b[e] == a[e]);
        assert(b[e].indices@[m] == t);
    }
    if g.key_index == ki && in_idx(g.indices@, t) {
        let m = choose|m: int| 0 <= m < g.indices@.len() && g.indices@[m] == t;
        assert(b[a.len() as int] == g);
        assert(b[a.len() as int].indices@[m] == t);
    }
    if holds(b, ki, t) {
        let (e, m) = choose|e: int, m: int|
            0 <= e < b.len() && 0 <= m < b[e].indices@.len() && b[e].key_index == ki
                && #[trigger] b[e].indices@[m] == t;
        if e < a.len() {
            assert(b[e] == a[e]);
            assert(a[e].indices@[m] == t);
        } else {
            assert(g.indices@[m] == t);
        }
    }
}

/// The keys of a request are distinct.
pub open spec fn keys_distinct(need: Seq<(ResourceKey, usize)>) -> bool {
    forall|a: int, b: int|
        0 <= a < need.len() && 0 <= b < need.len() && a != b ==> #[trigger] need[a].0@ != #[trigger] need[b].0@
}

/// `g` meets request `req` with tokens that were free in `p`.
pub open spec fn grant_ok(p: Pools, g: Grant, req: (ResourceKey, usize)) -> bool {
    &&& g.key@ == req.0@
    &&& g.key_index < p.keys@.len()
    &&& p.keys@[g.key_index as int]@ == req.0@
    &&& g.indices@.len() == req.1
    &&& g.tokens@.len() == req.1
    &&& forall|m: int| 0 <= m < g.indices@.len() ==> #[trigger] g.indices@[m] < p.tokens@[g.key_index as int]@.len()
        && p.free@[g.key_index as int]@[g.indices@[m] as int]
        && g.tokens@[m]@ == p.spec_tokens(g.key_index as int)[g.indices@[m] as int]
    &&& forall|m1: int, m2: int| 0 <= m1 < m2 < g.indices@.len() ==> #[trigger] g.indices@[m1] < #[trigger] g.indices@[m2]
}

/// `a` meets every request of `need` out of `before`, and `after` is
/// `before` with exactly the granted tokens taken.
pub open spec fn grants(before: Pools, after: Pools, need: Seq<(ResourceKey, usize)>, a: Seq<Grant>) -> bool {
    &&& after.same_tokens(&before)
    &&& a.len() == need.len()
    &&& forall|e: int| 0 <= e < a.len() ==> grant_ok(before, #[trigger] a[e], need[e])
    &&& forall|ki: int, t: int| 0 <= ki < before.keys@.len() && 0 <= t < before.free@[ki]@.len()
        ==> #[trigger] after.free@[ki]@[t] == (before.free@[ki]@[t] && !holds(a, ki, t))
}

/// `after` is `before` with the tokens of `a` free again.
pub open spec fn released(before: Pools, after: Pools, a: Seq<Grant>) -> bool {
    &&& after.same_tokens(&before)
    &&& forall|ki: int, t: int| 0 <= ki < before.keys@.len() && 0 <= t < before.free@[ki]@.len()
        ==> #[trigger] after.free@[ki]@[t] == (before.free@[ki]@[t] || holds(a, ki, t))
}

/// Every token of an allocation is one of the pool's own, and handing the
/// allocation back restores the pool: nothing leaks and nothing is invented.
pub proof fn lemma_acquire_release(
    initial: Pools,
    granted: Pools,
    returned: Pools,
    need: Seq<(ResourceKey, usize)>,
    a: Seq<Grant>,
)
    requires
        initial.wf(),
        granted.wf(),
        returned.wf(),
        grants(initial, granted, need, a),
        released(granted, returned, a),
    ensures
        forall|e: int, m: int| 0 <= e < a.len() && 0 <= m < a[e].tokens@.len() ==>
            initial.spec_tokens(a[e].key_index as int).contains(#[trigger] a[e].tokens@[m]@),
        returned.keys@ == initial.keys@,
        returned.tokens@ == initial.tokens@,
        forall|ki: int, t: int| 0 <= ki < initial.keys@.len() && 0 <= t < initial.free@[ki]@.len()
            ==> #[trigger] returned.free@[ki]@[t] == initial.free@[ki]@[t],
{
    assert forall|e: int, m: int| 0 <= e < a.len() && 0 <= m < a[e].tokens@.len() implies
        initial.spec_tokens(a[e].key_index as int).contains(#[trigger] a[e].tokens@[m]@) by {
        assert(grant_ok(initial, a[e], need[e]));
        let ki = a[e].key_index as int;
        let t = a[e].indices@[m] as int;
        assert(initial.spec_tokens(ki)[t] == a[e].tokens@[m]@);
    }
    assert forall|ki: int, t: int| 0 <= ki < initial.keys@.len() && 0 <= t < initial.free@[ki]@.len()
        implies #[trigger] returned.free@[ki]@[t] == initial.free@[ki]@[t] by {
        assert(granted.free@[ki]@[t] == (initial.free@[ki]@[t] && !holds(a, ki, t)));
        if holds(a, ki, t) {
            let (e, m) = choose|e: int, m: int|
                0 <= e < a.len() && 0 <= m < a[e].indices@.len() && a[e].key_index == ki
                    && #[trigger] a[e].indices@[m] == t;
            assert(grant_ok(initial, a[e], need[e]));
        }
    }
}

/// The name of the variable that exports the `n`-th token of a resource.
pub open spec fn env_name(name: Seq<char>, n: nat) -> Seq<char> {
    "LIMMAT_RESOURCE_"@ + name + seq!['_'] + dec(n)
}

/// The variables that export the tokens of one grant; worktrees export none.
pub open spec fn grant_env(g: Grant) -> Seq<(Seq<char>, Seq<char>)> {
    match g.key {
        ResourceKey::Worktree => Seq::empty(),
        ResourceKey::UserToken(name) => Seq::new(g.tokens@.len(), |n: int| (env_name(name@, n as nat), g.tokens@[n]@)),
    }
}

/// The variables that export the tokens of an allocation, grant by grant.
pub open spec fn alloc_env(gs: Seq<Grant>) -> Seq<(Seq<char>, Seq<char>)>
    decreases gs.len(),
{
    if gs.len() == 0 {
        Seq::empty()
    } else {
        alloc_env(gs.drop_last()) + grant_env(gs.last())
    }
}

pub open spec fn env_view(v: Seq<(String, String)>) -> Seq<(Seq<char>, Seq<char>)> {
    v.map_values(|p: (String, String)| (p.0@, p.1@))
}

/// The environment of a job: `LIMMAT_RESOURCE_<NAME>_<N>` for the `N`-th
/// token granted of each declared resource.
pub fn token_env(a: &Allocation) -> (r: Vec<(String, String)>)
    ensures
        env_view(r@) == alloc_env(a.grants@),
{
    let mut out: Vec<(String, String)> = Vec::new();
    let mut e: usize = 0;
    while e < a.grants.len()
        invariant
            0 <= e <= a.grants@.len(),
            env_view(out@) == alloc_env(a.grants@.subrange(0, e as int)),
        decreases a.grants@.len() - e,
    {
        let g = &a.grants[e];
        let ghost start = env_view(out@);
        match &g.key {
            ResourceKey::Worktree => {
                assert(grant_env(*g) =~= Seq::<(Seq<char>, Seq<char>)>::empty());
                assert(env_view(out@) =~= start + grant_env(*g));
            },
            ResourceKey::UserToken(name) => {
                let mut n: usize = 0;
                while n < g.tokens.len()
                    invariant
                        g.key == ResourceKey::UserToken(*name),
                        0 <= n <= g.tokens@.len(),
                        env_view(out@) =~= start + grant_env(*g).subrange(0, n as int),
                    decreases g.tokens@.len() - n,
                {
                    let mut var = String::from_str("LIMMAT_RESOURCE_").concat(name.as_str());
                    push_char(&mut var, '_');
                    push_dec(&mut var, n);
                    proof {
                        reveal_strlit("LIMMAT_RESOURCE_");
                    }
                    assert(var@ =~= env_name(name@, n as nat));
                    let ghost prev = env_view(out@);
                    out.push((var, g.tokens[n].clone()));
                    assert(env_view(out@) =~= prev.push((env_name(name@, n as nat), g.tokens@[n as int]@)));
                    n += 1;
                }
                assert(grant_env(*g).subrange(0, g.tokens@.len() as int) =~= grant_env(*g));
            },
        }
        assert(a.grants@.subrange(0, e + 1).drop_last() =~= a.grants@.subrange(0, e as int));
        e += 1;
    }
    assert(a.grants@.subrange(0, a.grants@.len() as int) =~= a.grants@);
    out
}

/// The pool: for each key its tokens, and which of them are free.
pub struct Pools {
    pub keys: Vec<ResourceKey>,
    pub tokens: Vec<Vec<String>>,
    pub free: Vec<Vec<bool>>,
}

impl Pools {
    pub open spec fn spec_keys(&self) -> Seq<Option<Seq<char>>> {
        self.keys@.map_values(|k: ResourceKey| k@)
    }

    /// The tokens of key `ki`, as they were given.
    pub open spec fn spec_tokens(&self, ki: int) -> Seq<Seq<char>> {
        texts(self.tokens@[ki]@)
    }

    /// Which tokens of key `ki` are free.
    pub open spec fn spec_free(&self, ki: int) -> Seq<bool> {
        self.free@[ki]@
    }

    pub open spec fn wf(&self) -> bool {
        &&& self.tokens@.len() == self.keys@.len()
        &&& self.free@.len() == self.keys@.len()
        &&& forall|ki: int| 0 <= ki < self.keys@.len() ==> #[trigger] self.free@[ki]@.len() == self.tokens@[ki]@.len()
        &&& forall|a: int, b: int| 0 <= a < self.keys@.len() && 0 <= b < self.keys@.len() && a != b
            ==> #[trigger] self.keys@[a]@ != #[trigger] self.keys@[b]@
    }

    /// The pool holds key `k`, with at least `n` free tokens.
    pub open spec fn can_grant(&self, k: Option<Seq<char>>, n: usize) -> bool {
        exists|ki: int| 0 <= ki < self.keys@.len() && #[trigger] self.keys@[ki]@ == k
            && count_true(self.free@[ki]@) >= n
    }

    /// Every request of `need` can be met at once.
    pub open spec fn satisfiable(&self, need: Seq<(ResourceKey, usize)>) -> bool {
        forall|e: int| 0 <= e < need.len() ==> self.can_grant(#[trigger] need[e].0@, need[e].1)
    }

    /// Same keys and tokens.
    pub open spec fn same_tokens(&self, o: &Pools) -> bool {
        &&& self.keys@ == o.keys@
        &&& self.tokens@ == o.tokens@
        &&& self.free@.len() == o.free@.len()
    }

    pub fn empty() -> (r: Pools)
        ensures
            r.wf(),
            r.keys@.len() == 0,
    {
        Pools { keys: Vec::new(), tokens: Vec::new(), free: Vec::new() }
    }

    /// Where key `k` stands in the pool.
    pub fn position(&self, k: &ResourceKey) -> (r: Option<usize>)
        requires
            self.wf(),
        ensures
            r is Some <==> exists|ki: int| 0 <= ki < self.keys@.len() && #[trigger] self.keys@[ki]@ == k@,
            r is Some ==> r->Some_0 < self.keys@.len() && self.keys@[r->Some_0 as int]@ == k@,
    {
        let mut i: usize = 0;
        while i < self.keys.len()
            invariant
                0 <= i <= self.keys@.len(),
                forall|b: int| 0 <= b < i ==> #[trigger] self.keys@[b]@ != k@,
            decreases self.keys@.len() - i,
        {
            if same_key(&self.keys[i], k) {
                return Some(i);
            }
            i += 1;
        }
        None
    }

    /// Adds a key with its tokens, all free; `false`, and no change, where the
    /// key is present.
    pub fn insert(&mut self, k: ResourceKey, toks: Vec<String>) -> (r: bool)
        requires
            old(self).wf(),
        ensures
            final(self).wf(),
            r <==> !exists|ki: int| 0 <= ki < old(self).keys@.len() && #[trigger] old(self).keys@[ki]@ == k@,
            !r ==> *final(self) == *old(self),
            r ==> final(self).keys@ == old(self).keys@.push(k) && final(self).tokens@ == old(self).tokens@.push(toks)
                && final(self).free@.len() == old(self).free@.len() + 1
                && (forall|ki: int| 0 <= ki < old(self).keys@.len() ==> #[trigger] final(self).free@[ki] == old(self).free@[ki])
                && forall|t: int| 0 <= t < toks@.len() ==> #[trigger] final(self).free@[old(self).keys@.len() as int]@[t],
    {
        if self.position(&k).is_some() {
            return false;
        }
        let mut row: Vec<bool> = Vec::new();
        let mut t: usize = 0;
        while t < toks.len()
            invariant
                0 <= t <= toks@.len(),
                row@.len() == t,
                forall|c: int| 0 <= c < t ==> #[trigger] row@[c],
            decreases toks@.len() - t,
        {
            row.push(true);
            t += 1;
        }
        let ghost o = *self;
        self.keys.push(k);
        self.tokens.push(toks);
        self.free.push(row);
        proof {
            let n = o.keys@.len() as int;
            assert forall|a: int, b: int| 0 <= a < self.keys@.len() && 0 <= b < self.keys@.len() && a != b
                implies #[trigger] self.keys@[a]@ != #[trigger] self.keys@[b]@ by {
                if a == n {
                    assert(self.keys@[b] == o.keys@[b]);
                } else if b == n {
                    assert(self.keys@[a] == o.keys@[a]);
                }
            }
            assert forall|ki: int| 0 <= ki < self.keys@.len() implies #[trigger] self.free@[ki]@.len() == self.tokens@[ki]@.len() by {
                if ki < n {
                    assert(self.free@[ki] == o.free@[ki]);
                    assert(self.tokens@[ki] == o.tokens@[ki]);
                }
            }
        }
        true
    }

    fn free_count(&self, ki: usize) -> (r: usize)
        requires
            self.wf(),
            ki < self.keys@.len(),
        ensures
            r == count_true(self.free@[ki as int]@),
    {
        let row = &self.free[ki];
        let mut c: usize = 0;
        let mut t: usize = 0;
        while t < row.len()
            invariant
                0 <= t <= row@.len(),
                c == count_true(row@.subrange(0, t as int)),
                c <= t,
            decreases row@.len() - t,
        {
            proof {
                lemma_count_true_prefix(row@, t as int);
            }
            if row[t] {
                c += 1;
            }
            t += 1;
        }
        assert(row@.subrange(0, row@.len() as int) =~= row@);
        c
    }

    /// Takes the first `count` free tokens of key `ki`.
    fn take(&mut self, ki: usize, count: usize) -> (r: (Vec<usize>, Vec<String>))
        requires
            old(self).wf(),
            ki < old(self).keys@.len(),
            count_true(old(self).free@[ki as int]@) >= count,
        ensures
            final(self).wf(),
            final(self).same_tokens(old(self)),
            forall|kj: int| 0 <= kj < old(self).keys@.len() && kj != ki ==> #[trigger] final(self).free@[kj] == old(self).free@[kj],
            r.0@.len() == count,
            r.1@.len() == count,
            forall|m: int| 0 <= m < count ==> #[trigger] r.0@[m] < old(self).tokens@[ki as int]@.len()
                && old(self).free@[ki as int]@[r.0@[m] as int]
                && r.1@[m]@ == old(self).spec_tokens(ki as int)[r.0@[m] as int],
            forall|m1: int, m2: int| 0 <= m1 < m2 < count ==> #[trigger] r.0@[m1] < #[trigger] r.0@[m2],
            forall|t: int| 0 <= t < old(self).free@[ki as int]@.len() ==> #[trigger] final(self).free@[ki as int]@[t]
                == (old(self).free@[ki as int]@[t] && !in_idx(r.0@, t)),
            // First fit: every token still free lies after every token taken.
            forall|t: int, m: int| 0 <= t < old(self).free@[ki as int]@.len() && 0 <= m < count
                && #[trigger] final(self).free@[ki as int]@[t] ==> #[trigger] r.0@[m] < t,
    {
        let ghost orig = self.free@[ki as int]@;
        let mut row: Vec<bool> = Vec::new();
        let mut t: usize = 0;
        while t < self.free[ki].len()
            invariant
                old(self).wf(),
                *self == *old(self),
                ki < self.keys@.len(),
                orig == self.free@[ki as int]@,
                0 <= t <= orig.len(),
                row@ =~= orig.subrange(0, t as int),
            decreases orig.len() - t,
        {
            row.push(self.free[ki][t]);
            t += 1;
        }
        let mut idx: Vec<usize> = Vec::new();
        let mut toks: Vec<String> = Vec::new();
        let rl = row.len();
        let mut t: usize = 0;
        while idx.len() < count
            invariant
                old(self).wf(),
                *self == *old(self),
                ki < self.keys@.len(),
                orig == self.free@[ki as int]@,
                count_true(orig) >= count,
                0 <= t <= orig.len(),
                row@.len() == orig.len(),
                rl == row@.len(),
                idx@.len() <= count,
                toks@.len() == idx@.len(),
                count_true(orig.subrange(0, t as int)) == idx@.len(),
                forall|x: int| 0 <= x < t ==> #[trigger] row@[x] == (orig[x] && !in_idx(idx@, x)),
                forall|x: int| 0 <= x < t ==> !#[trigger] row@[x],
                forall|x: int| t <= x < orig.len() ==> #[trigger] row@[x] == orig[x],
                forall|m: int| 0 <= m < idx@.len() ==> #[trigger] idx@[m] < t && orig[idx@[m] as int]
                    && toks@[m]@ == self.spec_tokens(ki as int)[idx@[m] as int],
                forall|m1: int, m2: int| 0 <= m1 < m2 < idx@.len() ==> #[trigger] idx@[m1] < #[trigger] idx@[m2],
            decreases orig.len() - t,
        {
            proof {
                lemma_count_true_rest(orig, t as int);
            }
            assert(t < row@.len());
            proof {
                lemma_count_true_prefix(orig, t as int);
            }
            if row[t] {
                let ghost old_idx = idx@;
                let ghost old_row = row@;
                row.set(t, false);
                idx.push(t);
                let tok = self.tokens[ki][t].clone();
                toks.push(tok);
                proof {
                    assert forall|x: int| 0 <= x < t + 1 implies #[trigger] row@[x] == (orig[x] && !in_idx(idx@, x)) by {
                        if x < t {
                            assert(row@[x] == old_row[x]);
                            if in_idx(old_idx, x) {
                                let m = choose|m: int| 0 <= m < old_idx.len() && old_idx[m] == x;
                                assert(idx@[m] == x);
                            }
                            if in_idx(idx@, x) {
                                let m = choose|m: int| 0 <= m < idx@.len() && idx@[m] == x;
                                if m < old_idx.len() {
                                    assert(old_idx[m] == x);
                                } else {
                                    assert(idx@[m] == t);
                                }
                            }
                        } else {
                            assert(idx@[idx@.len() - 1] == t);
                        }
                    }
                }
            } else {
                proof {
                    assert forall|x: int| 0 <= x < t + 1 implies #[trigger] row@[x] == (orig[x] && !in_idx(idx@, x)) by {
                        if x == t && in_idx(idx@, x) {
                            let m = choose|m: int| 0 <= m < idx@.len() && idx@[m] == x;
                        }
                    }
                }
            }
            t += 1;
        }
        proof {
            assert forall|x: int| t <= x < orig.len() implies #[trigger] row@[x] == (orig[x] && !in_idx(idx@, x)) by {
                if in_idx(idx@, x) {
                    let m = choose|m: int| 0 <= m < idx@.len() && idx@[m] == x;
                }
            }
        }
        let ghost o = *self;
        self.free.set(ki, row);
        proof {
            assert forall|kj: int| 0 <= kj < self.keys@.len() implies #[trigger] self.free@[kj]@.len() == self.tokens@[kj]@.len() by {
                if kj != ki {
                    assert(self.free@[kj] == o.free@[kj]);
                }
            }
        }
        (idx, toks)
    }

    /// Reserves every request of `need` at once, first fit in the order of each
    /// key's tokens; `None`, and no change, where some request cannot be met.
    pub fn acquire(&mut self, need: &Vec<(ResourceKey, usize)>) -> (r: Option<Allocation>)
        requires
            old(self).wf(),
            keys_distinct(need@),
        ensures
            final(self).wf(),
            r is Some <==> old(self).satisfiable(need@),
            r is None ==> *final(self) == *old(self),
            r is Some ==> grants(*old(self), *final(self), need@, r->Some_0.grants@),
    {
        let ghost orig = *self;
        let mut pos: Vec<usize> = Vec::new();
        let mut e: usize = 0;
        while e < need.len()
            invariant
                *self == orig,
                orig.wf(),
                0 <= e <= need@.len(),
                pos@.len() == e,
                forall|c: int| 0 <= c < e ==> #[trigger] pos@[c] < orig.keys@.len()
                    && orig.keys@[pos@[c] as int]@ == need@[c].0@
                    && count_true(orig.free@[pos@[c] as int]@) >= need@[c].1,
            decreases need@.len() - e,
        {
            match self.position(&need[e].0) {
                None => {
                    assert(!self.can_grant(need@[e as int].0@, need@[e as int].1));
                    return None;
                },
                Some(ki) => {
                    if self.free_count(ki) < need[e].1 {
                        proof {
                            if self.can_grant(need@[e as int].0@, need@[e as int].1) {
                                let kj = choose|kj: int| 0 <= kj < self.keys@.len() && #[trigger] self.keys@[kj]@ == need@[e as int].0@
                                    && count_true(self.free@[kj]@) >= need@[e as int].1;
                                assert(kj == ki as int);
                            }
                        }
                        return None;
                    }
                    pos.push(ki);
                },
            }
            e += 1;
        }
        assert(orig.satisfiable(need@)) by {
            assert forall|c: int| 0 <= c < need@.len() implies orig.can_grant(#[trigger] need@[c].0@, need@[c].1) by {
                assert(orig.keys@[pos@[c] as int]@ == need@[c].0@);
            }
        }
        let mut gs: Vec<Grant> = Vec::new();
        let mut e: usize = 0;
        while e < need.len()
            invariant
                self.wf(),
                orig.wf(),
                self.same_tokens(&orig),
                keys_distinct(need@),
                0 <= e <= need@.len(),
                pos@.len() == need@.len(),
                gs@.len() == e,
                forall|c: int| 0 <= c < need@.len() ==> #[trigger] pos@[c] < orig.keys@.len()
                    && orig.keys@[pos@[c] as int]@ == need@[c].0@
                    && count_true(orig.free@[pos@[c] as int]@) >= need@[c].1,
                forall|c: int| 0 <= c < e ==> grant_ok(orig, #[trigger] gs@[c], need@[c]) && gs@[c].key_index == pos@[c],
                forall|ki: int, t: int| 0 <= ki < orig.keys@.len() && 0 <= t < orig.free@[ki]@.len()
                    ==> #[trigger] self.free@[ki]@[t] == (orig.free@[ki]@[t] && !holds(gs@, ki, t)),
                forall|c: int| e <= c < need@.len() ==> self.free@[#[trigger] pos@[c] as int] == orig.free@[pos@[c] as int],
            decreases need@.len() - e,
        {
            let ki = pos[e];
            let ghost before = *self;
            let (idx, toks) = self.take(ki, need[e].1);
            let g = Grant { key: clone_key(&need[e].0), key_index: ki, indices: idx, tokens: toks };
            let ghost old_gs = gs@;
            gs.push(g);
            proof {
                assert(gs@ == old_gs.push(g));
                assert(grant_ok(orig, g, need@[e as int]));
                assert forall|ki2: int, t: int| 0 <= ki2 < orig.keys@.len() && 0 <= t < orig.free@[ki2]@.len()
                    implies #[trigger] self.free@[ki2]@[t] == (orig.free@[ki2]@[t] && !holds(gs@, ki2, t)) by {
                    lemma_holds_push(old_gs, g, ki2, t);
                    if ki2 == ki {
                        assert(before.free@[ki2] == orig.free@[ki2]);
                        assert(before.free@[ki2]@[t] == (orig.free@[ki2]@[t] && !holds(old_gs, ki2, t)));
                        if holds(old_gs, ki2, t) {
                            let (c, m) = choose|c: int, m: int|
                                0 <= c < old_gs.len() && 0 <= m < old_gs[c].indices@.len() && old_gs[c].key_index == ki2
                                    && #[trigger] old_gs[c].indices@[m] == t;
                            assert(pos@[c] == ki);
                            assert(need@[c].0@ == need@[e as int].0@);
                        }
                    } else {
                        assert(self.free@[ki2] == before.free@[ki2]);
                    }
                }
                assert forall|c: int| e + 1 <= c < need@.len() implies self.free@[#[trigger] pos@[c] as int] == orig.free@[pos@[c] as int] by {
                    assert(need@[c].0@ != need@[e as int].0@);
                    assert(pos@[c] != ki);
                    assert(self.free@[pos@[c] as int] == before.free@[pos@[c] as int]);
                }
            }
            e += 1;
        }
        Some(Allocation { grants: gs })
    }

    /// Hands the tokens of an allocation back.
    pub fn release(&mut self, a: Allocation)
        requires
            old(self).wf(),
            forall|e: int| 0 <= e < a.grants@.len() ==> (#[trigger] a.grants@[e]).key_index < old(self).keys@.len()
                && forall|m: int| 0 <= m < a.grants@[e].indices@.len() ==> #[trigger] a.grants@[e].indices@[m]
                    < old(self).tokens@[a.grants@[e].key_index as int]@.len(),
        ensures
            final(self).wf(),
            released(*old(self), *final(self), a.grants@),
    {
        let ghost orig = *self;
        let mut e: usize = 0;
        while e < a.grants.len()
            invariant
                self.wf(),
                orig.wf(),
                self.same_tokens(&orig),
                0 <= e <= a.grants@.len(),
                forall|c: int| 0 <= c < a.grants@.len() ==> (#[trigger] a.grants@[c]).key_index < orig.keys@.len()
                    && forall|m: int| 0 <= m < a.grants@[c].indices@.len() ==> #[trigger] a.grants@[c].indices@[m]
                        < orig.tokens@[a.grants@[c].key_index as int]@.len(),
                forall|ki: int, t: int| 0 <= ki < orig.keys@.len() && 0 <= t < orig.free@[ki]@.len()
                    ==> #[trigger] self.free@[ki]@[t] == (orig.free@[ki]@[t] || holds(a.grants@.subrange(0, e as int), ki, t)),
            decreases a.grants@.len() - e,
        {
            let g = &a.grants[e];
            let ki = g.key_index;
            let mut row: Vec<bool> = Vec::new();
            let mut t: usize = 0;
            while t < self.free[ki].len()
                invariant
                    self.wf(),
                    ki < self.keys@.len(),
                    0 <= t <= self.free@[ki as int]@.len(),
                    row@ =~= self.free@[ki as int]@.subrange(0, t as int),
                decreases self.free@[ki as int]@.len() - t,
            {
                row.push(self.free[ki][t]);
                t += 1;
            }
            assert(row@ =~= self.free@[ki as int]@);
            let ghost start_row = row@;
            let mut m: usize = 0;
            while m < g.indices.len()
                invariant
                    row@.len() == start_row.len(),
                    start_row.len() == orig.tokens@[ki as int]@.len(),
                    0 <= m <= g.indices@.len(),
                    forall|c: int| 0 <= c < g.indices@.len() ==> #[trigger] g.indices@[c] < start_row.len(),
                    forall|t2: int| 0 <= t2 < start_row.len() ==> #[trigger] row@[t2] == (start_row[t2]
                        || in_idx(g.indices@.subrange(0, m as int), t2)),
                decreases g.indices@.len() - m,
            {
                let ghost prev = row@;
                row.set(g.indices[m], true);
                proof {
                    assert forall|t2: int| 0 <= t2 < start_row.len() implies #[trigger] row@[t2] == (start_row[t2]
                        || in_idx(g.indices@.subrange(0, m + 1), t2)) by {
                        let s0 = g.indices@.subrange(0, m as int);
                        let s1 = g.indices@.subrange(0, m + 1);
                        assert(s1 =~= s0.push(g.indices@[m as int]));
                        if in_idx(s0, t2) {
                            let c = choose|c: int| 0 <= c < s0.len() && s0[c] == t2;
                            assert(s1[c] == t2);
                        }
                        if in_idx(s1, t2) && !in_idx(s0, t2) {
                            let c = choose|c: int| 0 <= c < s1.len() && s1[c] == t2;
                            if c < s0.len() {
                                assert(s0[c] == t2);
                            }
                        }
                        if t2 == g.indices@[m as int] {
                            assert(s1[m as int] == t2);
                        }
                    }
                }
                m += 1;
            }
            assert(g.indices@.subrange(0, g.indices@.len() as int) =~= g.indices@);
            let ghost before = *self;
            self.free.set(ki, row);
            proof {
                assert forall|kj: int| 0 <= kj < self.keys@.len() implies #[trigger] self.free@[kj]@.len() == self.tokens@[kj]@.len() by {
                    if kj != ki {
                        assert(self.free@[kj] == before.free@[kj]);
                    }
                }
                let s0 = a.grants@.subrange(0, e as int);
                let s1 = a.grants@.subrange(0, e + 1);
                assert(s1 =~= s0.push(*g));
                assert forall|ki2: int, t: int| 0 <= ki2 < orig.keys@.len() && 0 <= t < orig.free@[ki2]@.len()
                    implies #[trigger] self.free@[ki2]@[t] == (orig.free@[ki2]@[t] || holds(s1, ki2, t)) by {
                    lemma_holds_push(s0, *g, ki2, t);
                    if ki2 != ki {
                        assert(self.free@[ki2] == before.free@[ki2]);
                    }
                }
            }
            e += 1;
        }
        assert(a.grants@.subrange(0, a.grants@.len() as int) =~= a.grants@);
    }
} // impl Pools

} // verus!
