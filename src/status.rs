//! The live status display: the commit graph as the version-control binary
//! draws it, stretched to make room for each commit's description and the
//! statuses of its tests.
use vstd::prelude::*;
use ansi_control_codes::control_sequences::{CPL, ED};
use crate::git::{CommitHash, split_newlines, text_of, chars_of, split_lines};
use crate::testspec::texts;
use crate::config::dec;
use crate::util::{text_lt, is_text_lt, lemma_text_lt_total, lemma_text_lt_trans, lemma_text_lt_irrefl};
use crate::cache::{encode_record, spec_encode};
use crate::scheduler::{JobOutcome, TestStatus};

verus! {

/// A character of a commit hash as the graph log prints it.
pub open spec fn hash_char(c: char) -> bool {
    ('0' <= c && c <= '9') || ('a' <= c && c <= 'z')
}

/// The shortest run of hash characters that is taken for a commit hash.
pub const MIN_HASH_LEN: usize = 40;

/// `s[a..b]` is a maximal run of hash characters, long enough to be a hash.
pub open spec fn hash_run(s: Seq<char>, a: int, b: int) -> bool {
    &&& 0 <= a && a + (MIN_HASH_LEN as int) <= b && b <= s.len()
    &&& forall|i: int| a <= i < b ==> hash_char(#[trigger] s[i])
    &&& (a == 0 || !hash_char(s[a - 1]))
    &&& (b == s.len() || !hash_char(s[b]))
}

/// `s` holds exactly one commit hash, at `a..b`.
pub open spec fn only_hash(s: Seq<char>, a: int, b: int) -> bool {
    hash_run(s, a, b) && forall|a2: int, b2: int| #[trigger] hash_run(s, a2, b2) ==> a2 == a && b2 == b
}

fn is_hash_char(c: char) -> (r: bool)
    ensures
        r == hash_char(c),
{
    ('0' <= c && c <= '9') || ('a' <= c && c <= 'z')
}

/// No run of hash characters starts at or after `i` and before `j`, but the
/// one starting at `i` itself where `i..e` is maximal.
proof fn lemma_no_run_inside(s: Seq<char>, i: int, j: int, a: int, b: int)
    requires
        0 <= i < j <= s.len(),
        forall|q: int| i <= q < j ==> hash_char(#[trigger] s[q]),
        j == s.len() || !hash_char(s[j]),
        hash_run(s, a, b),
        i <= a < j,
    ensures
        a == i && b == j,
{
    if a > i {
        assert(hash_char(s[a - 1]));
    }
    if b < j {
        assert(hash_char(s[b]));
    }
    if b > j {
        assert(hash_char(s[j]));
    }
}

/// Finds the one commit hash of a line; `None` where there is none or more
/// than one.
pub fn find_hash(s: &Vec<char>) -> (r: Option<(usize, usize)>)
    ensures
        r is Some ==> only_hash(s@, r->Some_0.0 as int, r->Some_0.1 as int),
        r is None ==> forall|a: int, b: int| !only_hash(s@, a, b),
{
    let n = s.len();
    let mut found: Option<(usize, usize)> = None;
    let mut i: usize = 0;
    while i < n
        invariant
            n == s@.len(),
            0 <= i <= n,
            found is None ==> forall|a: int, b: int| #[trigger] hash_run(s@, a, b) ==> a >= i,
            found is Some ==> hash_run(s@, found->Some_0.0 as int, found->Some_0.1 as int) && found->Some_0.1 <= i
                && forall|a: int, b: int| #[trigger] hash_run(s@, a, b) && a < i ==> a == found->Some_0.0 && b
                    == found->Some_0.1,
        decreases n - i,
    {
        if is_hash_char(s[i]) && (i == 0 || !is_hash_char(s[i - 1])) {
            let mut j = i;
            while j < n && is_hash_char(s[j])
                invariant
                    n == s@.len(),
                    i <= j <= n,
                    forall|q: int| i <= q < j ==> hash_char(#[trigger] s@[q]),
                decreases n - j,
            {
                j += 1;
            }
            assert(j > i);
            if j - i >= MIN_HASH_LEN {
                assert(hash_run(s@, i as int, j as int));
                match found {
                    Some((fa, fb)) => {
                        proof {
                            assert forall|a: int, b: int| !only_hash(s@, a, b) by {
                                if only_hash(s@, a, b) {
                                    assert(hash_run(s@, fa as int, fb as int));
                                    assert(hash_run(s@, i as int, j as int));
                                }
                            }
                        }
                        return None;
                    },
                    None => {
                        found = Some((i, j));
                    },
                }
            }
            proof {
                assert forall|a: int, b: int| #[trigger] hash_run(s@, a, b) && i <= a < j implies a == i && b == j && j
                    - i >= MIN_HASH_LEN by {
                    lemma_no_run_inside(s@, i as int, j as int, a, b);
                }
            }
            i = j;
        } else {
            proof {
                assert forall|a: int, b: int| #[trigger] hash_run(s@, a, b) implies a != i by {
                    if a == i {
                        assert(hash_char(s@[a]));
                    }
                }
            }
            i += 1;
        }
    }
    match found {
        None => {
            proof {
                assert forall|a: int, b: int| !only_hash(s@, a, b) by {
                    if only_hash(s@, a, b) {
                        assert(hash_run(s@, a, b));
                    }
                }
            }
            None
        },
        Some((a, b)) => Some((a, b)),
    }
}


/// Why the graph log cannot be laid out.
#[derive(Debug, Clone, PartialEq, Eq, Structural)]
pub enum StatusError {
    /// The first line of a chunk does not hold exactly one commit hash.
    HashCount,
    /// The descriptions do not match the chunks one to one.
    InfoCount,
}

/// The graph's lines cut into chunks, each starting at a line that draws a
/// commit (`*`), except that the first line always opens the first chunk.
pub open spec fn chunks_of(lines: Seq<Seq<char>>) -> Seq<Seq<Seq<char>>>
    decreases lines.len(),
{
    if lines.len() == 0 {
        seq![Seq::<Seq<char>>::empty()]
    } else {
        let c = chunks_of(lines.drop_last());
        let l = lines.last();
        if l.contains('*') && c.last().len() > 0 {
            c.push(seq![l])
        } else {
            c.update(c.len() - 1, c.last().push(l))
        }
    }
}

proof fn lemma_chunks_nonempty(lines: Seq<Seq<char>>)
    ensures
        chunks_of(lines).len() >= 1,
        lines.len() > 0 ==> forall|i: int| 0 <= i < chunks_of(lines).len() ==> (#[trigger] chunks_of(lines)[i]).len() > 0,
    decreases lines.len(),
{
    if lines.len() > 0 {
        lemma_chunks_nonempty(lines.drop_last());
        let c = chunks_of(lines.drop_last());
        if lines.len() == 1 {
            assert(lines.drop_last().len() == 0);
        }
        assert forall|i: int| 0 <= i < chunks_of(lines).len() implies (#[trigger] chunks_of(lines)[i]).len() > 0 by {
            if lines.len() > 1 {
                if i < c.len() {
                    assert(c[i].len() > 0);
                }
            }
        }
    }
}

fn has_star(s: &String) -> (r: bool)
    ensures
        r == s@.contains('*'),
{
    let cs = chars_of(s.as_str());
    let mut k: usize = 0;
    while k < cs.len()
        invariant
            cs@ == s@,
            0 <= k <= cs@.len(),
            forall|q: int| 0 <= q < k ==> cs@[q] != '*',
        decreases cs@.len() - k,
    {
        if cs[k] == '*' {
            return true;
        }
        k += 1;
    }
    false
}

pub open spec fn chunk_texts(v: Seq<Vec<String>>) -> Seq<Seq<Seq<char>>> {
    v.map_values(|c: Vec<String>| texts(c@))
}

/// The graph log cut into chunks.
pub fn graph_chunks(graph: &String) -> (r: Vec<Vec<String>>)
    ensures
        chunk_texts(r@) == chunks_of(split_newlines(graph@)),
{
    let ls = split_lines(graph.as_str());
    let ghost lv = texts(ls@);
    let mut done: Vec<Vec<String>> = Vec::new();
    let mut cur: Vec<String> = Vec::new();
    let mut k: usize = 0;
    assert(lv.subrange(0, 0) =~= Seq::<Seq<char>>::empty());
    assert(texts(cur@) =~= Seq::<Seq<char>>::empty());
    assert(chunk_texts(done@) =~= Seq::<Seq<Seq<char>>>::empty());
    assert(chunk_texts(done@).push(texts(cur@)) =~= seq![Seq::<Seq<char>>::empty()]);
    while k < ls.len()
        invariant
            lv == texts(ls@),
            0 <= k <= ls@.len(),
            chunk_texts(done@).push(texts(cur@)) == chunks_of(lv.subrange(0, k as int)),
        decreases ls@.len() - k,
    {
        let ghost pre = lv.subrange(0, k as int);
        assert(lv.subrange(0, k + 1).drop_last() =~= pre);
        assert(lv.subrange(0, k + 1).last() == ls@[k as int]@);
        let star = has_star(&ls[k]);
        let line = ls[k].clone();
        if star && cur.len() > 0 {
            let ghost pd = done@;
            let ghost pc = cur@;
            done.push(cur);
            cur = Vec::new();
            cur.push(line);
            assert(chunk_texts(done@) =~= chunk_texts(pd).push(texts(pc)));
            assert(texts(cur@) =~= seq![ls@[k as int]@]);
            assert(chunk_texts(done@).push(texts(cur@)) =~= chunks_of(lv.subrange(0, k + 1)));
        } else {
            let ghost pc = cur@;
            cur.push(line);
            assert(texts(cur@) =~= texts(pc).push(ls@[k as int]@));
            assert(chunk_texts(done@).push(texts(cur@)) =~= chunks_of(lv.subrange(0, k + 1)));
        }
        k += 1;
    }
    assert(lv.subrange(0, ls@.len() as int) =~= lv);
    let ghost pd = done@;
    done.push(cur);
    assert(chunk_texts(done@) =~= chunk_texts(pd).push(texts(cur@)));
    done
}

/// A graph line with its diagonals and commit marks made vertical.
pub open spec fn verticals(l: Seq<char>) -> Seq<char> {
    l.map_values(|c: char| if c == '\\' || c == '/' || c == '*' { '|' } else { c })
}

/// A commit's description without its final newline.
pub open spec fn strip_nl(s: Seq<char>) -> Seq<char> {
    if s.len() > 0 && s.last() == '\n' {
        s.drop_last()
    } else {
        s
    }
}

/// The lines shown beside a commit: its description, then the line that
/// carries its tests' statuses.
pub open spec fn info_lines(info: Seq<char>) -> Seq<Seq<char>> {
    split_newlines(strip_nl(info)).push(Seq::<char>::empty())
}

/// The chunk's graph lines stretched to `m` lines: the first line repeated
/// with vertical connectors.
pub open spec fn stretched(g: Seq<Seq<char>>, m: int) -> Seq<Seq<char>> {
    seq![g[0]] + Seq::new((m - g.len()) as nat, |_i: int| verticals(g[0])) + g.drop_first()
}

/// The info lines padded with empty lines to `m` lines.
pub open spec fn padded(il: Seq<Seq<char>>, m: int) -> Seq<Seq<char>> {
    il + Seq::new((m - il.len()) as nat, |_i: int| Seq::<char>::empty())
}

/// A chunk laid out: as many lines as the longer of graph and info, each the
/// graph part followed by the info part.
pub open spec fn chunk_out(g: Seq<Seq<char>>, info: Seq<char>) -> Seq<Seq<char>> {
    let il = info_lines(info);
    let m = if g.len() >= il.len() { g.len() as int } else { il.len() as int };
    Seq::new(m as nat, |k: int| stretched(g, m)[k] + padded(il, m)[k])
}

/// The text without one final newline.
fn strip_newline(s: &String) -> (r: String)
    ensures
        r@ == strip_nl(s@),
{
    let cs = chars_of(s.as_str());
    let n = cs.len();
    if n > 0 && cs[n - 1] == '\n' {
        let r = text_of(&cs.as_slice()[0..n - 1]);
        assert(r@ =~= s@.drop_last());
        r
    } else {
        s.clone()
    }
}

fn make_vertical(l: &String) -> (r: String)
    ensures
        r@ == verticals(l@),
{
    let cs = chars_of(l.as_str());
    let mut out: Vec<char> = Vec::new();
    let mut k: usize = 0;
    while k < cs.len()
        invariant
            cs@ == l@,
            0 <= k <= cs@.len(),
            out@ =~= verticals(l@).subrange(0, k as int),
        decreases cs@.len() - k,
    {
        let c = cs[k];
        out.push(if c == '\\' || c == '/' || c == '*' { '|' } else { c });
        k += 1;
    }
    text_of(out.as_slice())
}

fn concat_text(a: &String, b: &String) -> (r: String)
    ensures
        r@ == a@ + b@,
{
    a.clone().concat(b.as_str())
}

/// Lays one chunk out beside its commit's description; also gives the
/// position, within the chunk, of the status line.
pub fn lay_out_chunk(g: &Vec<String>, info: &String) -> (r: (Vec<String>, usize))
    requires
        g@.len() > 0,
    ensures
        texts(r.0@) == chunk_out(texts(g@), info@),
        r.1 == info_lines(info@).len() - 1,
{
    let stripped = strip_newline(info);
    let mut il = split_lines(stripped.as_str());
    il.push(String::new());
    let ghost ilv = texts(il@);
    assert(ilv =~= info_lines(info@));
    let gl = g.len();
    let nl = il.len();
    let m = if gl >= nl { gl } else { nl };
    let ghost gv = texts(g@);
    let ext = make_vertical(&g[0]);
    let mut out: Vec<String> = Vec::new();
    let mut k: usize = 0;
    while k < m
        invariant
            gv == texts(g@),
            ilv == texts(il@),
            ilv == info_lines(info@),
            gl == g@.len(),
            nl == il@.len(),
            gl > 0,
            m == if gl >= nl { gl } else { nl },
            ext@ == verticals(g@[0]@),
            0 <= k <= m,
            texts(out@) =~= chunk_out(gv, info@).subrange(0, k as int),
        decreases m - k,
    {
        let d = m - gl;
        let left: &String = if k == 0 {
            &g[0]
        } else if k <= d {
            &ext
        } else {
            &g[k - d]
        };
        let empty = String::new();
        let right: &String = if k < nl {
            &il[k]
        } else {
            &empty
        };
        let line = concat_text(left, right);
        proof {
            let st = stretched(gv, m as int);
            let pd = padded(ilv, m as int);
            assert(st.len() == m);
            if k == 0 {
                assert(st[0] == gv[0]);
            } else if k <= d {
                assert(st[k as int] == verticals(gv[0]));
            } else {
                assert(st[k as int] == gv.drop_first()[k - d - 1]);
            }
            assert(left@ == st[k as int]);
            assert(right@ == pd[k as int]);
            assert(chunk_out(gv, info@)[k as int] == line@);
        }
        let ghost prev = out@;
        out.push(line);
        assert(texts(out@) =~= texts(prev).push(line@));
        k += 1;
    }
    (out, nl - 1)
}

/// The chunk's first line holds exactly one commit hash.
pub open spec fn has_hash(c: Seq<Seq<char>>) -> bool {
    c.len() > 0 && exists|p: (int, int)| only_hash(c[0], p.0, p.1)
}

/// Where the commit hash of a chunk's first line is.
pub open spec fn hash_at(c: Seq<Seq<char>>) -> (int, int) {
    choose|p: (int, int)| only_hash(c[0], p.0, p.1)
}

/// The chunk's graph: its first line cut before the hash.
pub open spec fn cut_chunk(c: Seq<Seq<char>>) -> Seq<Seq<char>> {
    c.update(0, c[0].subrange(0, hash_at(c).0))
}

/// The commit that the chunk draws.
pub open spec fn chunk_commit(c: Seq<Seq<char>>) -> Seq<char> {
    c[0].subrange(hash_at(c).0, hash_at(c).1)
}

/// The lines of the first `k` chunks laid out.
pub open spec fn lines_upto(cs: Seq<Seq<Seq<char>>>, infos: Seq<Seq<char>>, k: int) -> Seq<Seq<char>>
    decreases k,
{
    if k <= 0 {
        Seq::empty()
    } else {
        lines_upto(cs, infos, k - 1) + chunk_out(cut_chunk(cs[k - 1]), infos[k - 1])
    }
}

/// For the first `k` chunks, the line that carries each commit's statuses.
pub open spec fn marks_upto(cs: Seq<Seq<Seq<char>>>, infos: Seq<Seq<char>>, k: int) -> Seq<(int, Seq<char>)>
    decreases k,
{
    if k <= 0 {
        Seq::empty()
    } else {
        marks_upto(cs, infos, k - 1).push(
            (lines_upto(cs, infos, k - 1).len() + info_lines(infos[k - 1]).len() - 1, chunk_commit(cs[k - 1])),
        )
    }
}

/// Cuts a chunk's first line before its commit hash.
fn parse_chunk(c: &Vec<String>) -> (r: Option<(Vec<String>, CommitHash)>)
    requires
        c@.len() > 0,
    ensures
        r is Some <==> has_hash(texts(c@)),
        r is Some ==> texts(r->Some_0.0@) == cut_chunk(texts(c@)) && r->Some_0.1@ == chunk_commit(texts(c@)),
{
    let ghost cv = texts(c@);
    let first = chars_of(c[0].as_str());
    match find_hash(&first) {
        None => {
            proof {
                if has_hash(cv) {
                    let p = choose|p: (int, int)| only_hash(cv[0], p.0, p.1);
                    assert(only_hash(first@, p.0, p.1));
                }
            }
            None
        },
        Some((a, b)) => {
            proof {
                assert(only_hash(cv[0], a as int, b as int));
                let p = hash_at(cv);
                assert(only_hash(cv[0], p.0, p.1));
                assert(hash_run(cv[0], a as int, b as int));
            }
            let head = text_of(&first.as_slice()[0..a]);
            let hash = text_of(&first.as_slice()[a..b]);
            let mut g: Vec<String> = Vec::new();
            g.push(head);
            let mut k: usize = 1;
            while k < c.len()
                invariant
                    cv == texts(c@),
                    1 <= k <= c@.len(),
                    texts(g@) =~= cut_chunk(cv).subrange(0, k as int),
                decreases c@.len() - k,
            {
                let ghost prev = g@;
                let line = c[k].clone();
                g.push(line);
                assert(texts(g@) =~= texts(prev).push(line@));
                k += 1;
            }
            Some((g, CommitHash::new(hash)))
        },
    }
}

/// The display's static part: the laid-out lines, and for each commit the
/// line that carries its statuses.
pub struct OutputBuffer {
    pub lines: Vec<String>,
    pub status_commits: Vec<(usize, CommitHash)>,
}

pub open spec fn marks_view(v: Seq<(usize, CommitHash)>) -> Seq<(int, Seq<char>)> {
    v.map_values(|p: (usize, CommitHash)| (p.0 as int, p.1@))
}

impl OutputBuffer {
    pub fn empty() -> (r: Self)
        ensures
            r.lines@.len() == 0,
            r.status_commits@.len() == 0,
    {
        OutputBuffer { lines: Vec::new(), status_commits: Vec::new() }
    }

    /// The commits that the graph log draws, in order: the descriptions that
    /// `new` needs are theirs.
    pub fn graph_hashes(graph: &String) -> (r: Result<Vec<CommitHash>, StatusError>)
        ensures
            r is Ok <==> forall|i: int| 0 <= i < chunks_of(split_newlines(graph@)).len() ==> has_hash(
                #[trigger] chunks_of(split_newlines(graph@))[i],
            ),
            r is Ok ==> r->Ok_0@.len() == chunks_of(split_newlines(graph@)).len() && forall|i: int|
                0 <= i < r->Ok_0@.len() ==> #[trigger] r->Ok_0@[i]@ == chunk_commit(chunks_of(split_newlines(graph@))[i]),
    {
        let chunks = graph_chunks(graph);
        let ghost cs = chunk_texts(chunks@);
        proof {
            lemma_chunks_nonempty(split_newlines(graph@));
            crate::git::lemma_split_len(graph@);
        }
        let mut out: Vec<CommitHash> = Vec::new();
        let mut i: usize = 0;
        while i < chunks.len()
            invariant
                cs == chunk_texts(chunks@),
                cs == chunks_of(split_newlines(graph@)),
                forall|j: int| 0 <= j < cs.len() ==> (#[trigger] cs[j]).len() > 0,
                0 <= i <= chunks@.len(),
                out@.len() == i,
                forall|j: int| 0 <= j < i ==> has_hash(#[trigger] cs[j]),
                forall|j: int| 0 <= j < i ==> #[trigger] out@[j]@ == chunk_commit(cs[j]),
            decreases chunks@.len() - i,
        {
            assert(cs[i as int] == texts(chunks@[i as int]@));
            match parse_chunk(&chunks[i]) {
                None => {
                    return Err(StatusError::HashCount);
                },
                Some((_, h)) => {
                    out.push(h);
                },
            }
            i += 1;
        }
        Ok(out)
    }

    /// Lays the graph log out beside the commits' descriptions, one per
    /// chunk in order.
    pub fn new(graph: &String, infos: &Vec<String>) -> (r: Result<Self, StatusError>)
        ensures
            ({
                let cs = chunks_of(split_newlines(graph@));
                &&& r is Ok <==> infos@.len() == cs.len() && forall|i: int| 0 <= i < cs.len() ==> has_hash(#[trigger] cs[i])
                &&& r is Err && infos@.len() != cs.len() ==> r->Err_0 == StatusError::InfoCount
                &&& r is Ok ==> texts(r->Ok_0.lines@) == lines_upto(cs, texts(infos@), cs.len() as int) && marks_view(
                    r->Ok_0.status_commits@,
                ) == marks_upto(cs, texts(infos@), cs.len() as int)
            }),
    {
        let chunks = graph_chunks(graph);
        let ghost cs = chunk_texts(chunks@);
        let ghost iv = texts(infos@);
        proof {
            lemma_chunks_nonempty(split_newlines(graph@));
            crate::git::lemma_split_len(graph@);
        }
        if infos.len() != chunks.len() {
            return Err(StatusError::InfoCount);
        }
        let mut lines: Vec<String> = Vec::new();
        let mut marks: Vec<(usize, CommitHash)> = Vec::new();
        let mut i: usize = 0;
        while i < chunks.len()
            invariant
                cs == chunk_texts(chunks@),
                cs == chunks_of(split_newlines(graph@)),
                iv == texts(infos@),
                infos@.len() == chunks@.len(),
                forall|j: int| 0 <= j < cs.len() ==> (#[trigger] cs[j]).len() > 0,
                0 <= i <= chunks@.len(),
                forall|j: int| 0 <= j < i ==> has_hash(#[trigger] cs[j]),
                texts(lines@) == lines_upto(cs, iv, i as int),
                marks_view(marks@) == marks_upto(cs, iv, i as int),
            decreases chunks@.len() - i,
        {
            assert(cs[i as int] == texts(chunks@[i as int]@));
            match parse_chunk(&chunks[i]) {
                None => {
                    return Err(StatusError::HashCount);
                },
                Some((g, h)) => {
                    assert(texts(g@).len() == g@.len());
                    assert(g@.len() > 0);
                    let (out, st) = lay_out_chunk(&g, &infos[i]);
                    assert(texts(out@).len() == out@.len());
                    assert(st < out@.len());
                    let base = lines.len();
                    let ghost pl = lines@;
                    let mut k: usize = 0;
                    while k < out.len()
                        invariant
                            0 <= k <= out@.len(),
                            lines@.len() == pl.len() + k,
                            texts(lines@) =~= texts(pl) + texts(out@).subrange(0, k as int),
                        decreases out@.len() - k,
                    {
                        let ghost before = lines@;
                        lines.push(out[k].clone());
                        assert(texts(lines@) =~= texts(before).push(out@[k as int]@));
                        k += 1;
                    }
                    let total = lines.len();
                    assert(total == base + out@.len());
                    let ghost pm = marks@;
                    marks.push((base + st, h));
                    assert(marks_view(marks@) =~= marks_view(pm).push(((base + st) as int, h@)));
                    assert(texts(out@).subrange(0, out@.len() as int) =~= texts(out@));
                },
            }
            i += 1;
        }
        Ok(OutputBuffer { lines, status_commits: marks })
    }

    /// The display's lines, each followed by the statuses of the commit it
    /// carries.
    pub fn render(&self, statuses: &Vec<(String, Vec<(String, TestStatus)>)>) -> (r: Vec<Vec<Segment>>)
        ensures
            r@.len() == self.lines@.len(),
            forall|i: int| 0 <= i < r@.len() ==> seg_view(#[trigger] r@[i]@) == line_segs(
                texts(self.lines@),
                marks_view(self.status_commits@),
                statuses@,
                i,
            ),
    {
        let lines = &self.lines;
        let marks = &self.status_commits;
        let mut out: Vec<Vec<Segment>> = Vec::new();
        let mut i: usize = 0;
        while i < lines.len()
            invariant
                lines@ == self.lines@,
                marks@ == self.status_commits@,
                0 <= i <= lines@.len(),
                out@.len() == i,
                forall|j: int| 0 <= j < i ==> seg_view(#[trigger] out@[j]@) == line_segs(texts(lines@), marks_view(marks@), statuses@, j),
            decreases lines@.len() - i,
        {
            let mut segs: Vec<Segment> = Vec::new();
            segs.push(Segment { text: lines[i].clone(), style: Style::Plain });
            let ghost first = seg_view(segs@);
            assert(first =~= seq![(texts(lines@)[i as int], Style::Plain)]);
            match mark_lookup(marks, i) {
                Some(h) => {
                    match row_lookup(statuses, &h) {
                        Some(row) => {
                            push_statuses(&mut segs, row);
                        },
                        None => {},
                    }
                },
                None => {},
            }
            assert(seg_view(segs@) =~= line_segs(texts(lines@), marks_view(marks@), statuses@, i as int));
            out.push(segs);
            i += 1;
        }
        out
    }
}

/// How a piece of the display is drawn.
#[derive(Debug, Clone, Copy, PartialEq, Eq, Structural)]
pub enum Style {
    Plain,
    /// A test's name.
    Bold,
    Success,
    Failure,
    Error,
}

/// A piece of a display line.
pub struct Segment {
    pub text: String,
    pub style: Style,
}

/// The statuses of one commit's tests, by test name in increasing order.
pub open spec fn names_sorted(row: Seq<(String, TestStatus)>) -> bool {
    forall|i: int| 0 <= i < row.len() - 1 ==> text_lt(#[trigger] row[i].0@, row[i + 1].0@)
}

/// How a status reads.
pub open spec fn status_label(st: TestStatus) -> (Seq<char>, Style) {
    match st {
        TestStatus::Error(msg) => (msg@, Style::Error),
        TestStatus::Completed(c) => if c == 0 {
            ("success"@, Style::Success)
        } else {
            ("failed (status "@ + spec_encode(JobOutcome::Failure(c))->Some_0 + ")"@, Style::Failure)
        },
        TestStatus::Enqueued => ("Enqueued"@, Style::Plain),
        TestStatus::BlockedOnDep => ("BlockedOnDep"@, Style::Plain),
        TestStatus::BlockedOnResource => ("BlockedOnResource"@, Style::Plain),
        TestStatus::Started => ("Started"@, Style::Plain),
        TestStatus::Aborted => ("Aborted"@, Style::Plain),
    }
}

pub fn label(st: &TestStatus) -> (r: Segment)
    ensures
        (r.text@, r.style) == status_label(*st),
{
    proof {
        reveal_strlit("success");
        reveal_strlit("failed (status ");
        reveal_strlit(")");
        reveal_strlit("Enqueued");
        reveal_strlit("BlockedOnDep");
        reveal_strlit("BlockedOnResource");
        reveal_strlit("Started");
        reveal_strlit("Aborted");
    }
    match st {
        TestStatus::Error(msg) => Segment { text: msg.clone(), style: Style::Error },
        TestStatus::Completed(c) => {
            if *c == 0 {
                Segment { text: String::from_str("success"), style: Style::Success }
            } else {
                let code = match encode_record(&JobOutcome::Failure(*c)) {
                    Some(t) => t,
                    None => String::new(),
                };
                let t = String::from_str("failed (status ").concat(code.as_str()).concat(")");
                Segment { text: t, style: Style::Failure }
            }
        },
        TestStatus::Enqueued => Segment { text: String::from_str("Enqueued"), style: Style::Plain },
        TestStatus::BlockedOnDep => Segment { text: String::from_str("BlockedOnDep"), style: Style::Plain },
        TestStatus::BlockedOnResource => Segment { text: String::from_str("BlockedOnResource"), style: Style::Plain },
        TestStatus::Started => Segment { text: String::from_str("Started"), style: Style::Plain },
        TestStatus::Aborted => Segment { text: String::from_str("Aborted"), style: Style::Plain },
    }
}

/// Relies on ansi-control-codes' `CPL`, formatted: the control sequence
/// that moves the cursor to the start of the `n`-th line up.
#[verifier::external_body]
fn cursor_previous_line(n: u32) -> (r: String)
    ensures
        r@ == seq!['\x1b', '['] + dec(n as nat) + seq!['F'],
{
    format!("{}", CPL(Some(n)))
}

/// Relies on ansi-control-codes' `ED` with its default parameter, formatted:
/// the control sequence that erases from the cursor to the end of the screen.
#[verifier::external_body]
fn erase_display() -> (r: String)
    ensures
        r@ == seq!['\x1b', '[', '0', 'J'],
{
    format!("{}", ED(None))
}

/// Moves the cursor up `n` lines and erases what follows.
fn clear_sequence(n: u32) -> (r: String)
    ensures
        r@ == seq!['\x1b', '['] + dec(n as nat) + seq!['F', '\x1b', '[', '0', 'J'],
{
    let up = cursor_previous_line(n);
    let erase = erase_display();
    let r = up.concat(erase.as_str());
    assert(r@ =~= seq!['\x1b', '['] + dec(n as nat) + seq!['F', '\x1b', '[', '0', 'J']);
    r
}

pub open spec fn row_view(row: Seq<(String, TestStatus)>) -> Seq<(Seq<char>, TestStatus)> {
    row.map_values(|p: (String, TestStatus)| (p.0@, p.1))
}

/// The statuses recorded for commit `h`: the first row for it.
pub open spec fn row_for(st: Seq<(String, Vec<(String, TestStatus)>)>, h: Seq<char>) -> Option<Seq<(String, TestStatus)>>
    decreases st.len(),
{
    if st.len() == 0 {
        None
    } else if st[0].0@ == h {
        Some(st[0].1@)
    } else {
        row_for(st.drop_first(), h)
    }
}

/// The commit whose statuses go on line `i`: the first mark for it.
pub open spec fn mark_at(marks: Seq<(int, Seq<char>)>, i: int) -> Option<Seq<char>>
    decreases marks.len(),
{
    if marks.len() == 0 {
        None
    } else if marks[0].0 == i {
        Some(marks[0].1)
    } else {
        mark_at(marks.drop_first(), i)
    }
}

pub open spec fn seg_view(v: Seq<Segment>) -> Seq<(Seq<char>, Style)> {
    v.map_values(|g: Segment| (g.text@, g.style))
}

/// Each test of a row as its bold name, a colon, its status and a space.
pub open spec fn status_segs(row: Seq<(String, TestStatus)>) -> Seq<(Seq<char>, Style)>
    decreases row.len(),
{
    if row.len() == 0 {
        Seq::empty()
    } else {
        status_segs(row.drop_last()) + seq![
            (row.last().0@, Style::Bold),
            (": "@, Style::Plain),
            status_label(row.last().1),
            (" "@, Style::Plain),
        ]
    }
}

/// Line `i` of the display: the laid-out line, then the statuses of the
/// commit it carries, if any.
pub open spec fn line_segs(
    lines: Seq<Seq<char>>,
    marks: Seq<(int, Seq<char>)>,
    st: Seq<(String, Vec<(String, TestStatus)>)>,
    i: int,
) -> Seq<(Seq<char>, Style)> {
    seq![(lines[i], Style::Plain)] + match mark_at(marks, i) {
        Some(h) => match row_for(st, h) {
            Some(row) => status_segs(row),
            None => Seq::empty(),
        },
        None => Seq::empty(),
    }
}

/// The row `row` with `name` set to `st`: replaced where the name is
/// present, otherwise inserted so that the names stay in order.
pub open spec fn upserted(row: Seq<(Seq<char>, TestStatus)>, name: Seq<char>, st: TestStatus, new_row: Seq<(Seq<char>, TestStatus)>) -> bool {
    (exists|k: int| 0 <= k < row.len() && row[k].0 == name && new_row == row.update(k, (name, st)))
        || ((forall|k: int| 0 <= k < row.len() ==> #[trigger] row[k].0 != name) && exists|k: int| 0 <= k <= row.len()
        && new_row == row.insert(k, (name, st)))
}

/// Sets a test's status in a row ordered by name.
fn upsert(row: &mut Vec<(String, TestStatus)>, name: &String, st: TestStatus)
    requires
        names_sorted(old(row)@),
    ensures
        names_sorted(final(row)@),
        upserted(row_view(old(row)@), name@, st, row_view(final(row)@)),
{
    let ghost o = row_view(row@);
    let n = row.len();
    let mut k: usize = 0;
    while k < n && is_text_lt(&row[k].0, name)
        invariant
            n == row@.len(),
            0 <= k <= n,
            forall|q: int| 0 <= q < k ==> text_lt(#[trigger] row@[q].0@, name@),
        decreases n - k,
    {
        k += 1;
    }
    if k < n && row[k].0.eq(name) {
        let ghost prev = row@;
        row.set(k, (name.clone(), st));
        proof {
            assert(row_view(row@) =~= o.update(k as int, (name@, st)));
            assert forall|i: int| 0 <= i < row@.len() - 1 implies text_lt(#[trigger] row@[i].0@, row@[i + 1].0@) by {
                assert(text_lt(prev[i].0@, prev[i + 1].0@));
            }
        }
    } else {
        proof {
            // No entry carries the name: those before `k` are smaller, and the
            // names from `k` on are larger.
            if k < n {
                lemma_text_lt_total(row@[k as int].0@, name@);
                assert(text_lt(name@, row@[k as int].0@));
            }
            assert forall|q: int| 0 <= q < n implies #[trigger] o[q].0 != name@ by {
                if q >= k {
                    lemma_sorted_from(row@, k as int, q, name@);
                    lemma_text_lt_irrefl(name@);
                } else {
                    assert(text_lt(row@[q].0@, name@));
                    lemma_text_lt_irrefl(name@);
                }
            }
        }
        let ghost prev = row@;
        row.insert(k, (name.clone(), st));
        proof {
            assert(row_view(row@) =~= o.insert(k as int, (name@, st)));
            assert forall|i: int| 0 <= i < row@.len() - 1 implies text_lt(#[trigger] row@[i].0@, row@[i + 1].0@) by {
                if i + 1 < k {
                    assert(text_lt(prev[i].0@, prev[i + 1].0@));
                } else if i + 1 == k {
                    assert(text_lt(prev[i].0@, name@));
                } else if i == k {
                    assert(text_lt(name@, prev[k as int].0@));
                } else {
                    assert(text_lt(prev[i - 1].0@, prev[i].0@));
                }
            }
        }
    }
}

/// In a row ordered by name, every name from position `k` on is above a
/// name that is below the one at `k`.
proof fn lemma_sorted_from(row: Seq<(String, TestStatus)>, k: int, q: int, name: Seq<char>)
    requires
        names_sorted(row),
        0 <= k <= q < row.len(),
        text_lt(name, row[k].0@),
    ensures
        text_lt(name, row[q].0@),
    decreases q - k,
{
    if q > k {
        lemma_sorted_from(row, k, q - 1, name);
        assert(text_lt(row[q - 1].0@, row[q].0@));
        lemma_text_lt_trans(name, row[q - 1].0@, row[q].0@);
    }
}

/// The live display: the laid-out graph, the latest status of each test at
/// each commit, and how many lines the last frame drew.
pub struct Tracker {
    /// For each commit, its tests' statuses ordered by test name.
    pub statuses: Vec<(String, Vec<(String, TestStatus)>)>,
    pub output_buf: OutputBuffer,
    pub lines_to_clear: usize,
}

impl Tracker {
    pub open spec fn wf(&self) -> bool {
        forall|c: int| 0 <= c < self.statuses@.len() ==> names_sorted(#[trigger] self.statuses@[c].1@)
    }

    pub fn new() -> (r: Self)
        ensures
            r.wf(),
            r.statuses@.len() == 0,
            r.output_buf.lines@.len() == 0,
            r.lines_to_clear == 0,
    {
        Tracker { statuses: Vec::new(), output_buf: OutputBuffer::empty(), lines_to_clear: 0 }
    }

    /// Lays out a new graph log, as `OutputBuffer::new` does; on an error
    /// the display is unchanged.
    pub fn set_range(&mut self, graph: &String, infos: &Vec<String>) -> (r: Result<(), StatusError>)
        requires
            old(self).wf(),
        ensures
            final(self).wf(),
            final(self).statuses == old(self).statuses,
            final(self).lines_to_clear == old(self).lines_to_clear,
            ({
                let cs = chunks_of(split_newlines(graph@));
                &&& r is Ok <==> infos@.len() == cs.len() && forall|i: int| 0 <= i < cs.len() ==> has_hash(#[trigger] cs[i])
                &&& r is Err && infos@.len() != cs.len() ==> r->Err_0 == StatusError::InfoCount
                &&& r is Ok ==> texts(final(self).output_buf.lines@) == lines_upto(cs, texts(infos@), cs.len() as int)
                    && marks_view(final(self).output_buf.status_commits@) == marks_upto(cs, texts(infos@), cs.len() as int)
            }),
            r is Err ==> final(self).output_buf == old(self).output_buf,
    {
        match OutputBuffer::new(graph, infos) {
            Ok(b) => {
                self.output_buf = b;
                Ok(())
            },
            Err(e) => Err(e),
        }
    }

    /// Records the status of a test at a commit.
    pub fn update(&mut self, commit: &CommitHash, test_name: &String, status: TestStatus)
        requires
            old(self).wf(),
        ensures
            final(self).wf(),
            final(self).output_buf == old(self).output_buf,
            final(self).lines_to_clear == old(self).lines_to_clear,
            row_for(final(self).statuses@, commit@) is Some,
            upserted(
                match row_for(old(self).statuses@, commit@) {
                    Some(row) => row_view(row),
                    None => Seq::empty(),
                },
                test_name@,
                status,
                row_view(row_for(final(self).statuses@, commit@)->Some_0),
            ),
            forall|h: Seq<char>| h != commit@ ==> #[trigger] row_for(final(self).statuses@, h) == row_for(old(self).statuses@, h),
    {
        let key = String::from_str(commit.as_str());
        let n = self.statuses.len();
        let mut c: usize = 0;
        assert(self.statuses@.subrange(0, n as int) =~= self.statuses@);
        while c < n && !self.statuses[c].0.eq(&key)
            invariant
                n == self.statuses@.len(),
                0 <= c <= n,
                forall|q: int| 0 <= q < c ==> self.statuses@[q].0@ != key@,
                row_for(self.statuses@, key@) == row_for(self.statuses@.subrange(c as int, n as int), key@),
            decreases n - c,
        {
            assert(self.statuses@.subrange(c as int, n as int).drop_first() =~= self.statuses@.subrange(c + 1, n as int));
            c += 1;
        }
        let ghost o = self.statuses@;
        if c < n {
            assert(o[c as int].0@ == key@);
            assert(row_for(o, key@) == Some(o[c as int].1@)) by {
                assert(o.subrange(c as int, n as int)[0] == o[c as int]);
            }
            let entry = &mut self.statuses[c];
            upsert(&mut entry.1, test_name, status);
            proof {
                lemma_row_for_update(o, self.statuses@, c as int, key@);
            }
        } else {
            assert(o.subrange(c as int, n as int) =~= Seq::<(String, Vec<(String, TestStatus)>)>::empty());
            let mut row: Vec<(String, TestStatus)> = Vec::new();
            assert(row_view(row@) =~= Seq::<(Seq<char>, TestStatus)>::empty());
            upsert(&mut row, test_name, status);
            self.statuses.push((key, row));
            proof {
                lemma_row_for_push(o, self.statuses@, key@);
            }
        }
        proof {
            assert forall|q: int| 0 <= q < self.statuses@.len() implies names_sorted(#[trigger] self.statuses@[q].1@) by {
                if q != c {
                    assert(self.statuses@[q] == o[q]);
                }
            }
        }
    }

    /// The lines of the current frame.
    pub fn render(&self) -> (r: Vec<Vec<Segment>>)
        ensures
            r@.len() == self.output_buf.lines@.len(),
            forall|i: int| 0 <= i < r@.len() ==> seg_view(#[trigger] r@[i]@) == line_segs(
                texts(self.output_buf.lines@),
                marks_view(self.output_buf.status_commits@),
                self.statuses@,
                i,
            ),
    {
        self.output_buf.render(&self.statuses)
    }

    /// The frame to draw: the control sequence that erases the previous
    /// frame (empty for the first), then the frame's lines.
    pub fn repaint(&mut self) -> (r: (String, Vec<Vec<Segment>>))
        requires
            old(self).wf(),
        ensures
            final(self).wf(),
            final(self).statuses == old(self).statuses,
            final(self).output_buf == old(self).output_buf,
            final(self).lines_to_clear == old(self).output_buf.lines@.len(),
            old(self).lines_to_clear == 0 ==> r.0@.len() == 0,
            old(self).lines_to_clear != 0 && old(self).lines_to_clear <= u32::MAX ==> r.0@ == seq!['\x1b', '['] + dec(
                old(self).lines_to_clear as nat,
            ) + seq!['F', '\x1b', '[', '0', 'J'],
            r.1@.len() == old(self).output_buf.lines@.len(),
            forall|i: int| 0 <= i < r.1@.len() ==> seg_view(#[trigger] r.1@[i]@) == line_segs(
                texts(old(self).output_buf.lines@),
                marks_view(old(self).output_buf.status_commits@),
                old(self).statuses@,
                i,
            ),
    {
        let clear = if self.lines_to_clear == 0 {
            String::new()
        } else {
            let n: u32 = if self.lines_to_clear > 0xffff_ffff { 0xffff_ffff } else { self.lines_to_clear as u32 };
            clear_sequence(n)
        };
        let frame = self.render();
        self.lines_to_clear = self.output_buf.lines.len();
        (clear, frame)
    }
}

fn mark_lookup(marks: &Vec<(usize, CommitHash)>, i: usize) -> (r: Option<CommitHash>)
    ensures
        match mark_at(marks_view(marks@), i as int) {
            Some(h) => r is Some && r->Some_0@ == h,
            None => r is None,
        },
{
    let ghost mv = marks_view(marks@);
    let mut k: usize = 0;
    assert(mv.subrange(0, mv.len() as int) =~= mv);
    while k < marks.len()
        invariant
            mv == marks_view(marks@),
            0 <= k <= marks@.len(),
            mark_at(mv, i as int) == mark_at(mv.subrange(k as int, mv.len() as int), i as int),
        decreases marks@.len() - k,
    {
        assert(mv.subrange(k as int, mv.len() as int).drop_first() =~= mv.subrange(k + 1, mv.len() as int));
        assert(mv[k as int] == (marks@[k as int].0 as int, marks@[k as int].1@));
        if marks[k].0 == i {
            assert(mv.subrange(k as int, mv.len() as int)[0] == mv[k as int]);
            return Some(CommitHash::new(String::from_str(marks[k].1.as_str())));
        }
        k += 1;
    }
    assert(mv.subrange(k as int, mv.len() as int) =~= Seq::<(int, Seq<char>)>::empty());
    None
}

fn row_lookup<'a>(st: &'a Vec<(String, Vec<(String, TestStatus)>)>, h: &CommitHash) -> (r: Option<&'a Vec<(String, TestStatus)>>)
    ensures
        match row_for(st@, h@) {
            Some(row) => r is Some && r->Some_0@ == row,
            None => r is None,
        },
{
    let mut k: usize = 0;
    assert(st@.subrange(0, st@.len() as int) =~= st@);
    while k < st.len()
        invariant
            0 <= k <= st@.len(),
            row_for(st@, h@) == row_for(st@.subrange(k as int, st@.len() as int), h@),
        decreases st@.len() - k,
    {
        assert(st@.subrange(k as int, st@.len() as int).drop_first() =~= st@.subrange(k + 1, st@.len() as int));
        if st[k].0.eq(&h.0.0) {
            assert(st@.subrange(k as int, st@.len() as int)[0] == st@[k as int]);
            assert(st@[k as int].0@ == h@);
            let ghost sub = st@.subrange(k as int, st@.len() as int);
            assert(sub.len() > 0);
            assert(sub[0].0@ == h@);
            assert(row_for(sub, h@) == Some(sub[0].1@));
            return Some(&st[k].1);
        }
        k += 1;
    }
    assert(st@.subrange(k as int, st@.len() as int) =~= Seq::<(String, Vec<(String, TestStatus)>)>::empty());
    None
}

fn push_statuses(segs: &mut Vec<Segment>, row: &Vec<(String, TestStatus)>)
    ensures
        seg_view(final(segs)@) == seg_view(old(segs)@) + status_segs(row@),
{
    let ghost start = seg_view(segs@);
    let mut k: usize = 0;
    while k < row.len()
        invariant
            0 <= k <= row@.len(),
            seg_view(segs@) == start + status_segs(row@.subrange(0, k as int)),
        decreases row@.len() - k,
    {
        proof {
            reveal_strlit(": ");
            reveal_strlit(" ");
        }
        let ghost before = seg_view(segs@);
        let s1 = Segment { text: row[k].0.clone(), style: Style::Bold };
        let s2 = Segment { text: String::from_str(": "), style: Style::Plain };
        let s3 = label(&row[k].1);
        let s4 = Segment { text: String::from_str(" "), style: Style::Plain };
        let ghost four = seq![(row@[k as int].0@, Style::Bold), (": "@, Style::Plain), status_label(row@[k as int].1), (" "@, Style::Plain)];
        segs.push(s1);
        assert(seg_view(segs@) =~= before + four.subrange(0, 1));
        segs.push(s2);
        assert(seg_view(segs@) =~= before + four.subrange(0, 2));
        segs.push(s3);
        assert(seg_view(segs@) =~= before + four.subrange(0, 3));
        segs.push(s4);
        assert(seg_view(segs@) =~= before + four);
        assert(row@.subrange(0, k + 1).drop_last() =~= row@.subrange(0, k as int));
        assert(row@.subrange(0, k + 1).last() == row@[k as int]);
        assert(seg_view(segs@) =~= start + status_segs(row@.subrange(0, k + 1)));
        k += 1;
    }
    assert(row@.subrange(0, row@.len() as int) =~= row@);
}

proof fn lemma_row_for_update(
    o: Seq<(String, Vec<(String, TestStatus)>)>,
    n: Seq<(String, Vec<(String, TestStatus)>)>,
    c: int,
    key: Seq<char>,
)
    requires
        0 <= c < o.len(),
        n.len() == o.len(),
        o[c].0@ == key,
        n[c].0 == o[c].0,
        forall|q: int| 0 <= q < c ==> o[q].0@ != key,
        forall|q: int| 0 <= q < o.len() && q != c ==> #[trigger] n[q] == o[q],
    ensures
        row_for(n, key) == Some(n[c].1@),
        forall|h: Seq<char>| h != key ==> #[trigger] row_for(n, h) == row_for(o, h),
    decreases c,
{
    assert(n[0].0 == o[0].0);
    if c > 0 {
        assert(n[0] == o[0]);
        let nd = n.drop_first();
        let od = o.drop_first();
        assert forall|q: int| 0 <= q < od.len() && q != c - 1 implies #[trigger] nd[q] == od[q] by {
            assert(n[q + 1] == o[q + 1]);
        }
        lemma_row_for_update(od, nd, c - 1, key);
        assert forall|h: Seq<char>| h != key implies #[trigger] row_for(n, h) == row_for(o, h) by {
            assert(row_for(nd, h) == row_for(od, h));
        }
    } else {
        assert forall|h: Seq<char>| h != key implies #[trigger] row_for(n, h) == row_for(o, h) by {
            assert(n[0].0@ == key);
            assert(row_for(n, h) == row_for(n.drop_first(), h));
            assert(row_for(o, h) == row_for(o.drop_first(), h));
            assert(n.drop_first() =~= o.drop_first()) by {
                assert forall|q: int| 0 <= q < n.len() - 1 implies n.drop_first()[q] == o.drop_first()[q] by {
                    assert(n[q + 1] == o[q + 1]);
                }
            }
        }
    }
}

proof fn lemma_row_for_push(
    o: Seq<(String, Vec<(String, TestStatus)>)>,
    n: Seq<(String, Vec<(String, TestStatus)>)>,
    key: Seq<char>,
)
    requires
        n.len() == o.len() + 1,
        n.last().0@ == key,
        forall|q: int| 0 <= q < o.len() ==> #[trigger] n[q] == o[q],
        forall|q: int| 0 <= q < o.len() ==> o[q].0@ != key,
    ensures
        row_for(n, key) == Some(n.last().1@),
        forall|h: Seq<char>| h != key ==> #[trigger] row_for(n, h) == row_for(o, h),
    decreases o.len(),
{
    if o.len() > 0 {
        assert(n[0] == o[0]);
        lemma_row_for_push(o.drop_first(), n.drop_first(), key);
        assert forall|h: Seq<char>| h != key implies #[trigger] row_for(n, h) == row_for(o, h) by {
            assert(row_for(n.drop_first(), h) == row_for(o.drop_first(), h));
        }
    } else {
        assert forall|h: Seq<char>| h != key implies #[trigger] row_for(n, h) == row_for(o, h) by {
            assert(n[0] == n.last());
            assert(n.drop_first().len() == 0);
            assert(row_for(n.drop_first(), h) is None);
            assert(row_for(n, h) == row_for(n.drop_first(), h));
        }
    }
}

} // verus!
