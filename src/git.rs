//! Object identifiers of the version-control system, and the parsing of what
//! its commands print.
use vstd::prelude::*;
use vstd::std_specs::iter::IteratorSpec;
use crate::testspec::texts;

verus! {

/// An object identifier: a commit or a tree, as the hex text that names it.
#[derive(Debug, Clone, PartialEq, Eq, Hash)]
pub struct Hash(pub String);

impl View for Hash {
    type V = Seq<char>;

    open spec fn view(&self) -> Seq<char> {
        self.0@
    }
}

impl Hash {
    pub fn new(s: String) -> (r: Self)
        ensures
            r@ == s@,
    {
        Hash(s)
    }

    /// The first twelve characters.
    pub fn abbrev(&self) -> (r: &str)
        requires
            self@.len() >= 12,
        ensures
            r@ == self@.subrange(0, 12),
    {
        self.0.as_str().substring_char(0, 12)
    }

    pub fn as_str(&self) -> (r: &str)
        ensures
            r@ == self@,
    {
        self.0.as_str()
    }
}

/// The identifier of a commit.
#[derive(Debug, Clone, PartialEq, Eq, Hash)]
pub struct CommitHash(pub Hash);

impl View for CommitHash {
    type V = Seq<char>;

    open spec fn view(&self) -> Seq<char> {
        self.0@
    }
}

impl CommitHash {
    pub fn new(s: String) -> (r: Self)
        ensures
            r@ == s@,
    {
        CommitHash(Hash::new(s))
    }

    pub fn as_str(&self) -> (r: &str)
        ensures
            r@ == self@,
    {
        self.0.as_str()
    }
}

/// The identifier of a tree: the content of a commit.
#[derive(Debug, Clone, PartialEq, Eq, Hash)]
pub struct TreeHash(pub Hash);

impl View for TreeHash {
    type V = Seq<char>;

    open spec fn view(&self) -> Seq<char> {
        self.0@
    }
}

impl TreeHash {
    pub fn new(s: String) -> (r: Self)
        ensures
            r@ == s@,
    {
        TreeHash(Hash::new(s))
    }

    pub fn as_str(&self) -> (r: &str)
        ensures
            r@ == self@,
    {
        self.0.as_str()
    }
}

/// A worktree that outlives the program: where git commands run, and the
/// git binary that runs them.
#[derive(Debug, Clone)]
pub struct PersistentWorktree {
    pub path: String,
    pub git_binary: String,
}

impl PersistentWorktree {
    pub fn path(&self) -> (r: &String)
        ensures
            r@ == self.path@,
    {
        &self.path
    }

    pub fn git_binary(&self) -> (r: &String)
        ensures
            r@ == self.git_binary@,
    {
        &self.git_binary
    }
}

/// A commit with the tree it records.
#[derive(Debug, Clone)]
pub struct Commit {
    pub hash: CommitHash,
    pub tree: TreeHash,
}

impl Commit {
    /// A fixed commit, for examples.
    pub fn arbitrary() -> (r: Self)
        ensures
            r.hash@ == "080b8ecbad3e34e55c5a035af80100f73b742a8d"@,
            r.tree@ == "6366d790125291272542a6b40f6fd3400e080821"@,
    {
        Commit {
            hash: CommitHash::new(String::from_str("080b8ecbad3e34e55c5a035af80100f73b742a8d")),
            tree: TreeHash::new(String::from_str("6366d790125291272542a6b40f6fd3400e080821")),
        }
    }
}

/// Whether a log shows the commit graph.
#[derive(Debug, Clone, Copy, PartialEq, Eq, Structural)]
pub enum LogStyle {
    WithGraph,
    NoGraph,
}

/// Why the output of a version-control command is refused.
#[derive(Debug, Clone, PartialEq, Eq, Structural)]
pub enum GitError {
    /// The command exited with this code.
    Failed(i32),
    /// The output is not in the expected shape.
    Unparsable,
}

/// The exit code with which the version-control binary reports a revision or
/// range that does not exist.
pub const NO_SUCH_REVISION: i32 = 128;

/// The pieces of `s` between newlines; there is one more piece than there are
/// newlines.
pub open spec fn split_newlines(s: Seq<char>) -> Seq<Seq<char>>
    decreases s.len(),
{
    if s.len() == 0 {
        seq![Seq::<char>::empty()]
    } else if s.last() == '\n' {
        split_newlines(s.drop_last()).push(Seq::<char>::empty())
    } else {
        let p = split_newlines(s.drop_last());
        p.update(p.len() - 1, p.last().push(s.last()))
    }
}

/// The lines of `s`: the pieces between newlines, without the empty piece
/// that a final newline leaves.
pub open spec fn lines_of(s: Seq<char>) -> Seq<Seq<char>> {
    let p = split_newlines(s);
    let q = Seq::new(p.len(), |i: int| if i < p.len() - 1 { strip_cr(p[i]) } else { p[i] });
    if p.last().len() == 0 {
        q.drop_last()
    } else {
        q
    }
}

/// A line without the carriage return of a `\r\n` ending.
pub open spec fn strip_cr(l: Seq<char>) -> Seq<char> {
    if l.len() > 0 && l.last() == '\r' {
        l.drop_last()
    } else {
        l
    }
}

fn strip_cr_text(l: &String) -> (r: String)
    ensures
        r@ == strip_cr(l@),
{
    let cs = chars_of(l.as_str());
    let n = cs.len();
    if n > 0 && cs[n - 1] == '\r' {
        let r = text_of(&cs.as_slice()[0..n - 1]);
        assert(r@ =~= l@.drop_last());
        r
    } else {
        l.clone()
    }
}

proof fn lemma_split_nonempty(s: Seq<char>)
    ensures
        split_newlines(s).len() >= 1,
    decreases s.len(),
{
    if s.len() > 0 {
        lemma_split_nonempty(s.drop_last());
    }
}

pub proof fn lemma_split_len(s: Seq<char>)
    ensures
        split_newlines(s).len() >= 1,
{
    lemma_split_nonempty(s);
}

/// Relies on std's `String::push`: appends one character.
#[verifier::external_body]
pub(crate) fn push_char(s: &mut String, c: char)
    ensures
        final(s)@ == old(s)@.push(c),
{
    s.push(c)
}

/// The characters of a text.
pub(crate) fn chars_of(s: &str) -> (r: Vec<char>)
    ensures
        r@ == s@,
{
    broadcast use vstd::string::axiom_spec_iter, vstd::string::next_postcondition;

    let n = s.unicode_len();
    let mut it = s.chars();
    let mut v: Vec<char> = Vec::new();
    while v.len() < n
        invariant
            n == s@.len(),
            it.obeys_prophetic_iter_laws(),
            v@ + it.remaining() == s@,
        decreases n - v@.len(),
    {
        assert(it.remaining().len() > 0);
        let c = it.next().unwrap();
        let ghost pv = v@;
        v.push(c);
        assert(v@ + it.remaining() =~= pv + (seq![c] + it.remaining()));
    }
    assert(v@ =~= s@);
    v
}

/// The text of these characters.
pub(crate) fn text_of(v: &[char]) -> (r: String)
    ensures
        r@ == v@,
{
    let mut s = String::new();
    let mut i: usize = 0;
    while i < v.len()
        invariant
            0 <= i <= v@.len(),
            s@ == v@.subrange(0, i as int),
        decreases v@.len() - i,
    {
        push_char(&mut s, v[i]);
        assert(s@ =~= v@.subrange(0, i + 1));
        i += 1;
    }
    assert(v@.subrange(0, v@.len() as int) =~= v@);
    s
}

/// Splits a text at its newlines.
pub fn split_lines(s: &str) -> (r: Vec<String>)
    ensures
        texts(r@) == split_newlines(s@),
{
    let cs = chars_of(s);
    let mut out: Vec<String> = Vec::new();
    let mut cur: Vec<char> = Vec::new();
    let mut i: usize = 0;
    while i < cs.len()
        invariant
            cs@ == s@,
            0 <= i <= cs@.len(),
            texts(out@).push(cur@) == split_newlines(cs@.subrange(0, i as int)),
        decreases cs@.len() - i,
    {
        let ghost pre = cs@.subrange(0, i as int);
        assert(cs@.subrange(0, i + 1).drop_last() =~= pre);
        proof {
            lemma_split_nonempty(pre);
        }
        if cs[i] == '\n' {
            let piece = text_of(cur.as_slice());
            let ghost prev = out@;
            out.push(piece);
            cur = Vec::new();
            assert(texts(out@) =~= texts(prev).push(piece@));
            assert(texts(out@).push(cur@) =~= split_newlines(cs@.subrange(0, i + 1)));
        } else {
            let ghost pc = cur@;
            cur.push(cs[i]);
            let ghost p = split_newlines(pre);
            assert(p.last() == pc);
            assert(texts(out@).push(cur@) =~= p.update(p.len() - 1, p.last().push(cs@[i as int])));
        }
        i += 1;
    }
    assert(cs@.subrange(0, cs@.len() as int) =~= cs@);
    let last = text_of(cur.as_slice());
    let ghost prev = out@;
    out.push(last);
    assert(texts(out@) =~= texts(prev).push(cur@));
    out
}

/// The lines of a text, as `lines_of` says.
pub fn lines(s: &str) -> (r: Vec<String>)
    ensures
        texts(r@) == lines_of(s@),
{
    let p = split_lines(s);
    proof {
        lemma_split_nonempty(s@);
    }
    let ghost pv = texts(p@);
    let last = p.len() - 1;
    let mut v: Vec<String> = Vec::new();
    let mut i: usize = 0;
    while i < last
        invariant
            pv == texts(p@),
            last == p@.len() - 1,
            0 <= i <= last,
            texts(v@) =~= Seq::new(i as nat, |j: int| strip_cr(pv[j])),
        decreases last - i,
    {
        let l = strip_cr_text(&p[i]);
        let ghost prev = v@;
        v.push(l);
        assert(texts(v@) =~= texts(prev).push(strip_cr(pv[i as int])));
        i += 1;
    }
    let ghost q = Seq::new(pv.len(), |j: int| if j < pv.len() - 1 { strip_cr(pv[j]) } else { pv[j] });
    if p[last].as_str().unicode_len() == 0 {
        assert(texts(v@) =~= q.drop_last());
    } else {
        let ghost prev = v@;
        let l = p[last].clone();
        v.push(l);
        assert(texts(v@) =~= texts(prev).push(pv[last as int]));
        assert(texts(v@) =~= q);
    }
    v
}

/// What `git rev-list` printed: a missing range gives no commit, another
/// failure an error, success one commit per line.
pub fn parse_rev_list(exit_code: i32, stdout: &String) -> (r: Result<Vec<CommitHash>, GitError>)
    ensures
        exit_code == NO_SUCH_REVISION ==> r is Ok && r->Ok_0@.len() == 0,
        exit_code != NO_SUCH_REVISION && exit_code != 0 ==> r == Err::<Vec<CommitHash>, GitError>(GitError::Failed(exit_code)),
        exit_code == 0 ==> r is Ok && r->Ok_0@.map_values(|h: CommitHash| h@) == lines_of(stdout@),
{
    if exit_code == NO_SUCH_REVISION {
        return Ok(Vec::new());
    }
    if exit_code != 0 {
        return Err(GitError::Failed(exit_code));
    }
    let ls = lines(stdout.as_str());
    let mut out: Vec<CommitHash> = Vec::new();
    let mut k: usize = 0;
    while k < ls.len()
        invariant
            0 <= k <= ls@.len(),
            out@.map_values(|h: CommitHash| h@) =~= texts(ls@).subrange(0, k as int),
        decreases ls@.len() - k,
    {
        let h = CommitHash::new(ls[k].clone());
        let ghost prev = out@;
        out.push(h);
        assert(out@.map_values(|h: CommitHash| h@) =~= prev.map_values(|h: CommitHash| h@).push(h@));
        k += 1;
    }
    assert(texts(ls@).subrange(0, ls@.len() as int) =~= texts(ls@));
    Ok(out)
}

/// White space as Unicode defines it, which `str::trim` removes.
pub open spec fn is_space(c: char) -> bool {
    ('\u{9}' <= c && c <= '\u{d}') || c == ' ' || c == '\u{85}' || c == '\u{a0}' || c == '\u{1680}'
        || ('\u{2000}' <= c && c <= '\u{200a}') || c == '\u{2028}' || c == '\u{2029}' || c == '\u{202f}'
        || c == '\u{205f}' || c == '\u{3000}'
}

/// `s` without leading and trailing white space, as the positions `lo..hi`.
pub open spec fn trimmed(s: Seq<char>, lo: int, hi: int) -> bool {
    &&& 0 <= lo <= hi <= s.len()
    &&& forall|i: int| 0 <= i < lo ==> is_space(#[trigger] s[i])
    &&& forall|i: int| hi <= i < s.len() ==> is_space(#[trigger] s[i])
    &&& lo < hi ==> !is_space(s[lo]) && !is_space(s[hi - 1])
}

/// What `git log -n1 --format='%H %T'` printed: a missing revision gives
/// nothing, another failure an error, success the commit and its tree, the
/// two words of the trimmed output split at the first space.
pub fn parse_rev_parse(exit_code: i32, stdout: &String) -> (r: Result<Option<Commit>, GitError>)
    ensures
        exit_code == NO_SUCH_REVISION ==> r == Ok::<Option<Commit>, GitError>(None),
        exit_code != NO_SUCH_REVISION && exit_code != 0 ==> r == Err::<Option<Commit>, GitError>(GitError::Failed(exit_code)),
        exit_code == 0 ==> (r is Ok <==> exists|lo: int, hi: int, sp: int| trimmed(stdout@, lo, hi) && lo <= sp < hi
            && stdout@[sp] == ' '),
        exit_code == 0 && r is Ok ==> r->Ok_0 is Some && exists|lo: int, hi: int, sp: int| trimmed(stdout@, lo, hi)
            && lo <= sp < hi && stdout@[sp] == ' ' && (forall|q: int| lo <= q < sp ==> stdout@[q] != ' ')
            && r->Ok_0->Some_0.hash@ == stdout@.subrange(lo, sp) && r->Ok_0->Some_0.tree@ == stdout@.subrange(sp + 1, hi),
        exit_code == 0 && r is Err ==> r == Err::<Option<Commit>, GitError>(GitError::Unparsable),
{
    if exit_code == NO_SUCH_REVISION {
        return Ok(None);
    }
    if exit_code != 0 {
        return Err(GitError::Failed(exit_code));
    }
    let cs = chars_of(stdout.as_str());
    let n = cs.len();
    let mut lo: usize = 0;
    while lo < n && is_space_char(cs[lo])
        invariant
            cs@ == stdout@,
            0 <= lo <= n == cs@.len(),
            forall|i: int| 0 <= i < lo ==> is_space(#[trigger] cs@[i]),
        decreases n - lo,
    {
        lo += 1;
    }
    let mut hi: usize = n;
    while hi > lo && is_space_char(cs[hi - 1])
        invariant
            cs@ == stdout@,
            0 <= lo <= hi <= n == cs@.len(),
            forall|i: int| hi <= i < n ==> is_space(#[trigger] cs@[i]),
        decreases hi,
    {
        hi -= 1;
    }
    assert(trimmed(stdout@, lo as int, hi as int));
    let mut sp: usize = lo;
    while sp < hi && cs[sp] != ' '
        invariant
            cs@ == stdout@,
            lo <= sp <= hi <= n == cs@.len(),
            forall|q: int| lo <= q < sp ==> cs@[q] != ' ',
        decreases hi - sp,
    {
        sp += 1;
    }
    if sp >= hi {
        proof {
            assert forall|lo2: int, hi2: int, sp2: int| trimmed(stdout@, lo2, hi2) && lo2 <= sp2 < hi2 implies stdout@[sp2] != ' ' by {
                lemma_trim_unique(stdout@, lo as int, hi as int, lo2, hi2);
            }
        }
        return Err(GitError::Unparsable);
    }
    let hash = text_of(&cs.as_slice()[lo..sp]);
    let tree = text_of(&cs.as_slice()[sp + 1..hi]);
    assert(hash@ == stdout@.subrange(lo as int, sp as int));
    Ok(Some(Commit { hash: CommitHash::new(hash), tree: TreeHash::new(tree) }))
}

proof fn lemma_trim_unique(s: Seq<char>, lo: int, hi: int, lo2: int, hi2: int)
    requires
        trimmed(s, lo, hi),
        trimmed(s, lo2, hi2),
        lo2 < hi2,
    ensures
        lo == lo2 && hi == hi2,
{
    if lo < lo2 {
        assert(is_space(s[lo]));
        if lo < hi {
            assert(!is_space(s[lo]));
        } else {
            assert(is_space(s[lo2]));
        }
    }
    if lo2 < lo {
        assert(is_space(s[lo2]));
    }
    if hi < hi2 {
        assert(is_space(s[hi2 - 1]));
    }
    if hi2 < hi {
        assert(is_space(s[hi2]));
        if lo < hi {
            assert(!is_space(s[hi - 1]));
        }
    }
}

fn is_space_char(c: char) -> (r: bool)
    ensures
        r == is_space(c),
{
    ('\u{9}' <= c && c <= '\u{d}') || c == ' ' || c == '\u{85}' || c == '\u{a0}' || c == '\u{1680}'
        || ('\u{2000}' <= c && c <= '\u{200a}') || c == '\u{2028}' || c == '\u{2029}' || c == '\u{202f}'
        || c == '\u{205f}' || c == '\u{3000}'
}

/// A path that `git rev-parse` printed: the output without its trailing newlines.
pub fn trim_trailing_newlines(b: &Vec<u8>) -> (r: Vec<u8>)
    ensures
        r@.len() <= b@.len(),
        r@ == b@.subrange(0, r@.len() as int),
        r@.len() == 0 || r@.last() != 10u8,
        forall|i: int| r@.len() <= i < b@.len() ==> b@[i] == 10u8,
{
    let mut n = b.len();
    while n > 0 && b[n - 1] == 10u8
        invariant
            0 <= n <= b@.len(),
            forall|i: int| n <= i < b@.len() ==> b@[i] == 10u8,
        decreases n,
    {
        n -= 1;
    }
    let mut r: Vec<u8> = Vec::new();
    let mut i: usize = 0;
    while i < n
        invariant
            0 <= i <= n <= b@.len(),
            r@ =~= b@.subrange(0, i as int),
        decreases n - i,
    {
        r.push(b[i]);
        i += 1;
    }
    r
}

/// The arguments of `git log` for a range, a format and a style.
pub fn log_args(range: &String, format: &String, style: LogStyle) -> (r: Vec<String>)
    ensures
        style == LogStyle::WithGraph ==> texts(r@) == seq!["log"@, "--graph"@, "--format="@ + format@, range@],
        style == LogStyle::NoGraph ==> texts(r@) == seq!["log"@, "--format="@ + format@, range@],
{
    let mut r: Vec<String> = Vec::new();
    r.push(String::from_str("log"));
    if style == LogStyle::WithGraph {
        r.push(String::from_str("--graph"));
    }
    let f = String::from_str("--format=").concat(format.as_str());
    r.push(f);
    r.push(range.clone());
    proof {
        reveal_strlit("log");
        reveal_strlit("--graph");
        reveal_strlit("--format=");
    }
    assert(texts(r@) =~= if style == LogStyle::WithGraph {
        seq!["log"@, "--graph"@, "--format="@ + format@, range@]
    } else {
        seq!["log"@, "--format="@ + format@, range@]
    });
    r
}

/// How many times creating a worktree is tried before giving up.
pub const WORKTREE_ADD_ATTEMPTS: u32 = 5;

/// What to do after an attempt to create a worktree.
#[derive(Debug, Clone, Copy, PartialEq, Eq, Structural)]
pub enum WorktreeStep {
    /// The worktree exists.
    Done,
    /// Try again; this is the number of the next attempt.
    Retry(u32),
    /// Give up: the last attempt failed.
    GiveUp,
    /// Cancelled: clean up and stop.
    Cancelled,
}

/// The decision after attempt number `attempt` (from 1) to create a worktree:
/// cancellation wins, success ends, a failure is retried until the fifth.
pub fn after_worktree_add(attempt: u32, cancelled: bool, succeeded: bool) -> (r: WorktreeStep)
    requires
        1 <= attempt <= WORKTREE_ADD_ATTEMPTS,
    ensures
        cancelled ==> r == WorktreeStep::Cancelled,
        !cancelled && succeeded ==> r == WorktreeStep::Done,
        !cancelled && !succeeded && attempt >= WORKTREE_ADD_ATTEMPTS ==> r == WorktreeStep::GiveUp,
        !cancelled && !succeeded && attempt < WORKTREE_ADD_ATTEMPTS ==> r == WorktreeStep::Retry((attempt + 1) as u32),
{
    if cancelled {
        WorktreeStep::Cancelled
    } else if succeeded {
        WorktreeStep::Done
    } else if attempt >= WORKTREE_ADD_ATTEMPTS {
        WorktreeStep::GiveUp
    } else {
        WorktreeStep::Retry(attempt + 1)
    }
}

} // verus!
