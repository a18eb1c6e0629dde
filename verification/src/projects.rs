//! Ranking of recently confirmed projects against the paths a log mentions.
use vstd::prelude::*;
use crate::domain::{
    CandidateReason, ProjectCandidate, RecentProject, candidate_views, recent_views,
};
use crate::order;
use crate::patterns;
use crate::spans::{self, to_char_spans};
use crate::text::{self, chars_eq, chars_of, lex_less, slice_chars, string_of};

verus! {

pub const ABSOLUTE_PATH_SCORE: u16 = 300;
pub const RELATIVE_PATH_SCORE: u16 = 200;
pub const RECENT_PROJECT_SCORE: u16 = 100;
pub const MAX_RECENCY_BONUS: u16 = 99;

// ---------------------------------------------------------------------------
// Paths
// ---------------------------------------------------------------------------

/// A path with its trailing slashes removed, as `trim_end_matches('/')` does.
pub open spec fn trim_trailing_slashes(s: Seq<char>) -> Seq<char>
    decreases s.len(),
{
    if s.len() > 0 && s.last() == '/' {
        trim_trailing_slashes(s.drop_last())
    } else {
        s
    }
}

/// `path` is `project` or lies below it; every path lies within the root.
pub open spec fn path_within(path: Seq<char>, project: Seq<char>) -> bool {
    let p = trim_trailing_slashes(project);
    ||| p.len() == 0
    ||| path == p
    ||| (path.len() > p.len() && path.take(p.len() as int) == p && path[p.len() as int] == '/')
}

fn trim_trailing_slashes_chars(v: &Vec<char>) -> (r: Vec<char>)
    ensures
        r@ == trim_trailing_slashes(v@),
{
    let mut n = v.len();
    assert(v@.take(n as int) =~= v@);
    while n > 0 && v[n - 1] == '/'
        invariant
            n <= v.len(),
            trim_trailing_slashes(v@) == trim_trailing_slashes(v@.take(n as int)),
        decreases n,
    {
        assert(v@.take(n as int).drop_last() =~= v@.take(n as int - 1));
        n = n - 1;
    }
    proof {
        let t = v@.take(n as int);
        if t.len() > 0 {
            assert(t.last() == v@[n - 1]);
        }
    }
    slice_chars(v, 0, n)
}

/// Whether `path` is the project or lies below it.
pub fn is_path_within(path: &Vec<char>, project: &Vec<char>) -> (r: bool)
    ensures
        r == path_within(path@, project@),
{
    let p = trim_trailing_slashes_chars(project);
    if p.len() == 0 {
        return true;
    }
    if chars_eq(path, &p) {
        return true;
    }
    if path.len() > p.len() {
        let head = slice_chars(path, 0, p.len());
        assert(head@ =~= path@.take(p@.len() as int));
        return chars_eq(&head, &p) && path[p.len()] == '/';
    }
    false
}

/// The part of a text before its first `:`, as `split(':').next()` yields it.
pub open spec fn before_colon(s: Seq<char>) -> Seq<char>
    decreases s.len(),
{
    if s.len() == 0 {
        s
    } else if s[0] == ':' {
        Seq::empty()
    } else {
        seq![s[0]] + before_colon(s.drop_first())
    }
}

fn before_colon_chars(v: &Vec<char>) -> (r: Vec<char>)
    ensures
        r@ == before_colon(v@),
{
    let mut n: usize = 0;
    assert(v@.skip(0) =~= v@);
    assert(v@.take(0) + v@ =~= v@);
    while n < v.len() && v[n] != ':'
        invariant
            n <= v.len(),
            before_colon(v@) == v@.take(n as int) + before_colon(v@.skip(n as int)),
        decreases v.len() - n,
    {
        let ghost rest = v@.skip(n as int);
        assert(rest[0] == v@[n as int]);
        assert(rest.drop_first() =~= v@.skip(n as int + 1));
        assert(v@.take(n as int + 1) =~= v@.take(n as int) + seq![v@[n as int]]);
        n = n + 1;
    }
    proof {
        let rest = v@.skip(n as int);
        if n < v.len() {
            assert(rest[0] == v@[n as int]);
        } else {
            assert(rest.len() == 0);
        }
        assert(before_colon(rest) =~= Seq::<char>::empty());
        assert(v@.take(n as int) + Seq::<char>::empty() =~= v@.take(n as int));
    }
    slice_chars(v, 0, n)
}

/// The paths at the byte spans `m` of a text, each without its
/// `:line:column`.
pub open spec fn paths_at(t: Seq<char>, m: Seq<(usize, usize)>) -> Seq<Seq<char>> {
    let cs = spans::char_span_seq(t, m);
    Seq::new(m.len(), |i: int| before_colon(t.subrange(cs[i].0 as int, cs[i].1 as int)))
}

/// The absolute paths a text mentions, each without its `:line:column`.
pub open spec fn absolute_paths(t: Seq<char>) -> Seq<Seq<char>> {
    paths_at(t, patterns::absolute_path_matches(t))
}

fn paths_at_spans(input: &str, chars: &Vec<char>, m: &Vec<(usize, usize)>) -> (r: Vec<Vec<char>>)
    requires
        chars@ == input@,
        spans::spans_well_formed(input@, m@),
    ensures
        text::views(r@) == paths_at(input@, m@),
{
    let cs = to_char_spans(chars, m);
    let mut r: Vec<Vec<char>> = Vec::new();
    let mut i: usize = 0;
    while i < m.len()
        invariant
            i <= m.len(),
            chars@ == input@,
            cs@ == spans::char_span_seq(input@, m@),
            spans::char_spans_of(input@, m@, cs@),
            r@.len() == i,
            forall|k: int| 0 <= k < i ==> (#[trigger] r@[k])@ == paths_at(input@, m@)[k],
        decreases m.len() - i,
    {
        let (a, b) = cs[i];
        let matched = slice_chars(chars, a, b);
        r.push(before_colon_chars(&matched));
        i = i + 1;
    }
    assert(text::views(r@) =~= paths_at(input@, m@));
    r
}

// ---------------------------------------------------------------------------
// Recent projects in order
// ---------------------------------------------------------------------------

/// The latest confirmation time of `p` among the records, if it has one.
pub open spec fn latest(rs: Seq<(Seq<char>, i64)>, p: Seq<char>) -> Option<i64>
    decreases rs.len(),
{
    if rs.len() == 0 {
        None
    } else {
        let prev = latest(rs.drop_last(), p);
        if rs.last().0 == p {
            match prev {
                Some(t) => Some(if rs.last().1 > t { rs.last().1 } else { t }),
                None => Some(rs.last().1),
            }
        } else {
            prev
        }
    }
}

/// Project order: most recently confirmed first, then by path.
pub open spec fn project_before(a: (Seq<char>, i64), b: (Seq<char>, i64)) -> bool {
    a.1 > b.1 || (a.1 == b.1 && text::lex_lt(a.0, b.0))
}

/// `ps` holds each path of the records once, with its latest time, in project order.
pub open spec fn is_project_order(rs: Seq<(Seq<char>, i64)>, ps: Seq<(Seq<char>, i64)>) -> bool {
    &&& forall|i: int, j: int| 0 <= i < j < ps.len() ==> project_before(#[trigger] ps[i], #[trigger] ps[j])
    &&& forall|i: int| 0 <= i < ps.len() ==> latest(rs, (#[trigger] ps[i]).0) == Some(ps[i].1)
    &&& forall|j: int| 0 <= j < rs.len() ==> has_path(ps, #[trigger] rs[j].0)
}

pub proof fn lemma_project_order(a: (Seq<char>, i64), b: (Seq<char>, i64), c: (Seq<char>, i64))
    ensures
        !project_before(a, a),
        a == b || project_before(a, b) || project_before(b, a),
        !(project_before(a, b) && project_before(b, a)),
        project_before(a, b) && project_before(b, c) ==> project_before(a, c),
{
    text::lemma_lex_irreflexive(a.0);
    text::lemma_lex_total(a.0, b.0);
    if project_before(a, b) && project_before(b, c) && a.1 == b.1 && b.1 == c.1 {
        text::lemma_lex_transitive(a.0, b.0, c.0);
    }
}

fn project_less(a: &(Vec<char>, i64), b: &(Vec<char>, i64)) -> (r: bool)
    ensures
        r == project_before((a.0@, a.1), (b.0@, b.1)),
{
    if a.1 != b.1 {
        a.1 > b.1
    } else {
        lex_less(&a.0, &b.0)
    }
}

/// Some entry of `ps` has the path `p`.
pub open spec fn has_path(ps: Seq<(Seq<char>, i64)>, p: Seq<char>) -> bool {
    exists|i: int| 0 <= i < ps.len() && (#[trigger] ps[i]).0 == p
}

pub open spec fn pair_views(s: Seq<(Vec<char>, i64)>) -> Seq<(Seq<char>, i64)> {
    Seq::new(s.len(), |i: int| (s[i].0@, s[i].1))
}

proof fn lemma_latest_push(rs: Seq<(Seq<char>, i64)>, x: (Seq<char>, i64), p: Seq<char>)
    ensures
        latest(rs.push(x), p) == (if x.0 == p {
            match latest(rs, p) {
                Some(t) => Some(if x.1 > t { x.1 } else { t }),
                None => Some(x.1),
            }
        } else {
            latest(rs, p)
        }),
{
    assert(rs.push(x).drop_last() =~= rs);
}

proof fn lemma_latest_absent(rs: Seq<(Seq<char>, i64)>, p: Seq<char>)
    requires
        forall|j: int| 0 <= j < rs.len() ==> (#[trigger] rs[j]).0 != p,
    ensures
        latest(rs, p) is None,
    decreases rs.len(),
{
    if rs.len() > 0 {
        assert forall|j: int| 0 <= j < rs.drop_last().len() implies (#[trigger] rs.drop_last()[j]).0 != p by {
            assert(rs.drop_last()[j] == rs[j]);
        }
        lemma_latest_absent(rs.drop_last(), p);
    }
}

/// Each path of the records once, with its latest time, in order of first appearance.
fn latest_per_path(recent: &[RecentProject]) -> (r: Vec<(Vec<char>, i64)>)
    ensures
        forall|i: int, j: int| 0 <= i < j < r@.len() ==> (#[trigger] r@[i]).0@ != (#[trigger] r@[j]).0@,
        forall|i: int| 0 <= i < r@.len() ==> latest(recent_views(recent@), (#[trigger] r@[i]).0@) == Some(r@[i].1),
        forall|j: int| 0 <= j < recent@.len() ==> has_path(pair_views(r@), #[trigger] recent_views(recent@)[j].0),
{
    let ghost rs = recent_views(recent@);
    let mut r: Vec<(Vec<char>, i64)> = Vec::new();
    let mut n: usize = 0;
    while n < recent.len()
        invariant
            n <= recent@.len(),
            rs == recent_views(recent@),
            forall|i: int, j: int| 0 <= i < j < r@.len() ==> (#[trigger] r@[i]).0@ != (#[trigger] r@[j]).0@,
            forall|i: int| 0 <= i < r@.len() ==> latest(rs.take(n as int), (#[trigger] r@[i]).0@) == Some(r@[i].1),
            forall|j: int| 0 <= j < n ==> exists|i: int| 0 <= i < r@.len() && (#[trigger] r@[i]).0@ == (#[trigger] rs[j]).0,
        decreases recent@.len() - n,
    {
        let path = chars_of(recent[n].path.as_str());
        let time = recent[n].confirmed_at;
        let ghost x = rs[n as int];
        assert(x == (path@, time));
        let ghost t1 = rs.take(n as int + 1);
        assert(t1 =~= rs.take(n as int).push(x));
        let mut k: usize = 0;
        while k < r.len() && !chars_eq(&r[k].0, &path)
            invariant
                k <= r@.len(),
                forall|i: int| 0 <= i < k ==> (#[trigger] r@[i]).0@ != path@,
            decreases r@.len() - k,
        {
            k = k + 1;
        }
        let ghost old_r = r@;
        if k < r.len() {
            let (p, t) = r.remove(k);
            let newest = if time > t { time } else { t };
            r.insert(k, (p, newest));
            proof {
                assert forall|i: int| 0 <= i < r@.len() implies latest(t1, (#[trigger] r@[i]).0@) == Some(r@[i].1) by {
                    lemma_latest_push(rs.take(n as int), x, r@[i].0@);
                    if i != k {
                        assert(r@[i] == old_r[i]);
                        assert(old_r[i].0@ != old_r[k as int].0@);
                    }
                }
                assert forall|i: int, j: int| 0 <= i < j < r@.len() implies (#[trigger] r@[i]).0@ != (#[trigger] r@[j]).0@ by {
                    assert(r@[i].0@ == old_r[i].0@);
                    assert(r@[j].0@ == old_r[j].0@);
                }
                assert forall|j: int| 0 <= j < n + 1 implies exists|i: int| 0 <= i < r@.len() && (#[trigger] r@[i]).0@ == (#[trigger] rs[j]).0 by {
                    if j < n {
                        let i = choose|i: int| 0 <= i < old_r.len() && (#[trigger] old_r[i]).0@ == rs[j].0;
                        assert(r@[i].0@ == old_r[i].0@);
                    } else {
                        assert(r@[k as int].0@ == rs[j].0);
                    }
                }
            }
        } else {
            proof {
                assert forall|j: int| 0 <= j < n implies (#[trigger] rs.take(n as int)[j]).0 != path@ by {
                    let i = choose|i: int| 0 <= i < old_r.len() && (#[trigger] old_r[i]).0@ == rs[j].0;
                    assert(old_r[i].0@ != path@);
                }
                lemma_latest_absent(rs.take(n as int), path@);
            }
            r.push((path, time));
            proof {
                assert forall|i: int| 0 <= i < r@.len() implies latest(t1, (#[trigger] r@[i]).0@) == Some(r@[i].1) by {
                    lemma_latest_push(rs.take(n as int), x, r@[i].0@);
                    if i < old_r.len() {
                        assert(r@[i] == old_r[i]);
                    }
                }
                assert forall|j: int| 0 <= j < n + 1 implies exists|i: int| 0 <= i < r@.len() && (#[trigger] r@[i]).0@ == (#[trigger] rs[j]).0 by {
                    if j < n {
                        let i = choose|i: int| 0 <= i < old_r.len() && (#[trigger] old_r[i]).0@ == rs[j].0;
                        assert(r@[i] == old_r[i]);
                    } else {
                        assert(r@[old_r.len() as int].0@ == rs[j].0);
                    }
                }
            }
        }
        n = n + 1;
    }
    assert(rs.take(n as int) =~= rs);
    assert forall|j: int| 0 <= j < recent@.len() implies has_path(pair_views(r@), #[trigger] recent_views(recent@)[j].0) by {
        let i = choose|i: int| 0 <= i < r@.len() && (#[trigger] r@[i]).0@ == rs[j].0;
        assert(pair_views(r@)[i].0 == rs[j].0);
    }
    r
}

// ---------------------------------------------------------------------------
// Sorting
// ---------------------------------------------------------------------------

pub open spec fn project_order_fn() -> spec_fn((Seq<char>, i64), (Seq<char>, i64)) -> bool {
    |a: (Seq<char>, i64), b: (Seq<char>, i64)| project_before(a, b)
}

fn copy_chars(v: &Vec<char>) -> (r: Vec<char>)
    ensures
        r@ == v@,
{
    let r = slice_chars(v, 0, v.len());
    assert(v@.subrange(0, v@.len() as int) =~= v@);
    r
}

/// The entries in project order.
fn sort_projects(u: &Vec<(Vec<char>, i64)>) -> (r: Vec<(Vec<char>, i64)>)
    requires
        forall|i: int, j: int| 0 <= i < j < u@.len() ==> (#[trigger] u@[i]).0@ != (#[trigger] u@[j]).0@,
    ensures
        pair_views(r@).to_multiset() == pair_views(u@).to_multiset(),
        order::sorted_by(pair_views(r@), project_order_fn()),
{
    let ghost uv = pair_views(u@);
    let ghost before = project_order_fn();
    let mut out: Vec<(Vec<char>, i64)> = Vec::new();
    let mut k: usize = 0;
    proof {
        assert forall|a: (Seq<char>, i64), b: (Seq<char>, i64), c: (Seq<char>, i64)|
            #[trigger] before(a, b) && #[trigger] before(b, c) implies before(a, c) by {
            lemma_project_order(a, b, c);
        }
        assert(pair_views(out@) =~= uv.take(0));
    }
    while k < u.len()
        invariant
            k <= u@.len(),
            uv == pair_views(u@),
            before == project_order_fn(),
            forall|i: int, j: int| 0 <= i < j < u@.len() ==> (#[trigger] u@[i]).0@ != (#[trigger] u@[j]).0@,
            forall|a: (Seq<char>, i64), b: (Seq<char>, i64), c: (Seq<char>, i64)|
                #[trigger] before(a, b) && #[trigger] before(b, c) ==> before(a, c),
            pair_views(out@).to_multiset() == uv.take(k as int).to_multiset(),
            order::sorted_by(pair_views(out@), before),
        decreases u@.len() - k,
    {
        let e = (copy_chars(&u[k].0), u[k].1);
        let ghost ev = (e.0@, e.1);
        assert(ev == uv[k as int]);
        let mut pos: usize = 0;
        while pos < out.len() && project_less(&out[pos], &e)
            invariant
                pos <= out@.len(),
                before == project_order_fn(),
                ev == (e.0@, e.1),
                forall|i: int| 0 <= i < pos ==> before(#[trigger] pair_views(out@)[i], ev),
            decreases out@.len() - pos,
        {
            assert(pair_views(out@)[pos as int] == (out@[pos as int].0@, out@[pos as int].1));
            pos = pos + 1;
        }
        let ghost old_out = pair_views(out@);
        proof {
            if pos < out@.len() {
                let x = old_out[pos as int];
                assert(x == (out@[pos as int].0@, out@[pos as int].1));
                assert(!before(x, ev));
                assert(old_out.contains(x)) by {
                    assert(old_out[pos as int] == x);
                }
                vstd::seq_lib::to_multiset_contains(old_out, x);
                vstd::seq_lib::to_multiset_contains(uv.take(k as int), x);
                assert(uv.take(k as int).contains(x));
                let j = choose|j: int| 0 <= j < k && uv.take(k as int)[j] == x;
                assert(uv[j] == x);
                assert(u@[j].0@ != u@[k as int].0@);
                lemma_project_order(x, ev, ev);
                lemma_project_order(ev, x, x);
                assert(before(ev, x));
            }
        }
        out.insert(pos, e);
        proof {
            assert(pair_views(out@) =~= old_out.insert(pos as int, ev));
            order::lemma_insert_sorted(old_out, ev, pos as int, before);
            assert(uv.take(k as int + 1) =~= uv.take(k as int).push(ev));
            vstd::seq_lib::to_multiset_insert(old_out, pos as int, ev);
            vstd::seq_lib::to_multiset_build(uv.take(k as int), ev);
        }
        k = k + 1;
    }
    assert(uv.take(k as int) =~= uv);
    out
}

// ---------------------------------------------------------------------------
// Candidates
// ---------------------------------------------------------------------------

/// The recency bonus of the project at `index` in project order; the index is
/// taken as a 16-bit number.
pub open spec fn recency_bonus(index: int) -> int {
    let m = index % 65536;
    if m >= MAX_RECENCY_BONUS { 0 } else { MAX_RECENCY_BONUS - m }
}

/// Some absolute path lies within the project.
pub open spec fn mentioned(abs: Seq<Seq<char>>, project: Seq<char>) -> bool {
    exists|k: int| 0 <= k < abs.len() && path_within(#[trigger] abs[k], project)
}

/// The candidate for the project at `index` in project order.
pub open spec fn candidate_for(project: Seq<char>, index: int, abs: Seq<Seq<char>>, relative: bool) -> (Seq<char>, u16, CandidateReason) {
    let (base, reason) = if mentioned(abs, project) {
        (ABSOLUTE_PATH_SCORE, CandidateReason::AbsolutePath)
    } else if relative {
        (RELATIVE_PATH_SCORE, CandidateReason::RecentRelativePath)
    } else {
        (RECENT_PROJECT_SCORE, CandidateReason::RecentProject)
    };
    (project, (base + recency_bonus(index)) as u16, reason)
}

/// Candidate order: highest score first, then by path.
pub open spec fn candidate_before(a: (Seq<char>, u16, CandidateReason), b: (Seq<char>, u16, CandidateReason)) -> bool {
    a.1 > b.1 || (a.1 == b.1 && text::lex_lt(a.0, b.0))
}

pub open spec fn candidate_order_fn() -> spec_fn((Seq<char>, u16, CandidateReason), (Seq<char>, u16, CandidateReason)) -> bool {
    |a: (Seq<char>, u16, CandidateReason), b: (Seq<char>, u16, CandidateReason)| candidate_before(a, b)
}

/// The candidates of the projects `ps`, in project order.
pub open spec fn candidates_of(ps: Seq<(Seq<char>, i64)>, abs: Seq<Seq<char>>, relative: bool) -> Seq<(Seq<char>, u16, CandidateReason)> {
    Seq::new(ps.len(), |i: int| candidate_for(ps[i].0, i, abs, relative))
}

/// `out` is the ranking of the records `rs` for a log `input`: one candidate
/// per project, scored by where the project stands in project order and by
/// what the log mentions, highest score first and then by path.
pub open spec fn is_ranking(input: Seq<char>, rs: Seq<(Seq<char>, i64)>, out: Seq<(Seq<char>, u16, CandidateReason)>) -> bool {
    ranked_by(rs, out, absolute_paths(input), patterns::has_relative_path(input))
}

/// `out` is the ranking of the records `rs` for a log that mentions the
/// absolute paths `abs`, and a relative source path where `relative` holds.
pub open spec fn ranked_by(
    rs: Seq<(Seq<char>, i64)>,
    out: Seq<(Seq<char>, u16, CandidateReason)>,
    abs: Seq<Seq<char>>,
    relative: bool,
) -> bool {
    exists|ps: Seq<(Seq<char>, i64)>| #[trigger] is_project_order(rs, ps)
        && out.to_multiset() == candidates_of(ps, abs, relative).to_multiset()
        && order::sorted_by(out, candidate_order_fn())
}

proof fn lemma_candidate_order(a: (Seq<char>, u16, CandidateReason), b: (Seq<char>, u16, CandidateReason), c: (Seq<char>, u16, CandidateReason))
    ensures
        !candidate_before(a, a),
        a.0 == b.0 || candidate_before(a, b) || candidate_before(b, a),
        candidate_before(a, b) && candidate_before(b, c) ==> candidate_before(a, c),
{
    text::lemma_lex_irreflexive(a.0);
    text::lemma_lex_total(a.0, b.0);
    if candidate_before(a, b) && candidate_before(b, c) && a.1 == b.1 && b.1 == c.1 {
        text::lemma_lex_transitive(a.0, b.0, c.0);
    }
}

fn mentions_project(abs: &Vec<Vec<char>>, project: &Vec<char>) -> (r: bool)
    ensures
        r == mentioned(text::views(abs@), project@),
{
    let mut k: usize = 0;
    while k < abs.len()
        invariant
            k <= abs@.len(),
            forall|i: int| 0 <= i < k ==> !path_within(#[trigger] text::views(abs@)[i], project@),
        decreases abs@.len() - k,
    {
        if is_path_within(&abs[k], project) {
            assert(path_within(text::views(abs@)[k as int], project@));
            return true;
        }
        k = k + 1;
    }
    false
}

fn candidate_less(a: &(Vec<char>, u16, CandidateReason), b: &(Vec<char>, u16, CandidateReason)) -> (r: bool)
    ensures
        r == candidate_before((a.0@, a.1, a.2), (b.0@, b.1, b.2)),
{
    if a.1 != b.1 {
        a.1 > b.1
    } else {
        lex_less(&a.0, &b.0)
    }
}

pub open spec fn triple_views(s: Seq<(Vec<char>, u16, CandidateReason)>) -> Seq<(Seq<char>, u16, CandidateReason)> {
    Seq::new(s.len(), |i: int| (s[i].0@, s[i].1, s[i].2))
}


/// The candidates of the projects, in project order.
fn build_candidates(ps: &Vec<(Vec<char>, i64)>, abs: &Vec<Vec<char>>, relative: bool) -> (r: Vec<(Vec<char>, u16, CandidateReason)>)
    ensures
        triple_views(r@) == candidates_of(pair_views(ps@), text::views(abs@), relative),
{
    let ghost want = candidates_of(pair_views(ps@), text::views(abs@), relative);
    let mut r: Vec<(Vec<char>, u16, CandidateReason)> = Vec::new();
    let mut i: usize = 0;
    while i < ps.len()
        invariant
            i <= ps@.len(),
            r@.len() == i,
            want == candidates_of(pair_views(ps@), text::views(abs@), relative),
            forall|k: int| 0 <= k < i ==> #[trigger] triple_views(r@)[k] == want[k],
        decreases ps@.len() - i,
    {
        let path = copy_chars(&ps[i].0);
        let within = mentions_project(abs, &path);
        let (base, reason) = if within {
            (ABSOLUTE_PATH_SCORE, CandidateReason::AbsolutePath)
        } else if relative {
            (RELATIVE_PATH_SCORE, CandidateReason::RecentRelativePath)
        } else {
            (RECENT_PROJECT_SCORE, CandidateReason::RecentProject)
        };
        let step: u16 = (i % 65536) as u16;
        let bonus: u16 = if step >= MAX_RECENCY_BONUS { 0 } else { MAX_RECENCY_BONUS - step };
        assert(bonus == recency_bonus(i as int));
        let ghost before_push = r@;
        r.push((path, base + bonus, reason));
        assert forall|k: int| 0 <= k < i + 1 implies #[trigger] triple_views(r@)[k] == want[k] by {
            if k < i {
                assert(r@[k] == before_push[k]);
                assert(triple_views(before_push)[k] == want[k]);
            }
        }
        i = i + 1;
    }
    assert(triple_views(r@) =~= want);
    r
}

/// The candidates in candidate order.
fn sort_candidates(u: &Vec<(Vec<char>, u16, CandidateReason)>) -> (r: Vec<(Vec<char>, u16, CandidateReason)>)
    requires
        forall|i: int, j: int| 0 <= i < j < u@.len() ==> (#[trigger] u@[i]).0@ != (#[trigger] u@[j]).0@,
    ensures
        triple_views(r@).to_multiset() == triple_views(u@).to_multiset(),
        order::sorted_by(triple_views(r@), candidate_order_fn()),
{
    let ghost uv = triple_views(u@);
    let ghost before = candidate_order_fn();
    let mut out: Vec<(Vec<char>, u16, CandidateReason)> = Vec::new();
    let mut k: usize = 0;
    proof {
        assert forall|a: (Seq<char>, u16, CandidateReason), b: (Seq<char>, u16, CandidateReason), c: (Seq<char>, u16, CandidateReason)|
            #[trigger] before(a, b) && #[trigger] before(b, c) implies before(a, c) by {
            lemma_candidate_order(a, b, c);
        }
        assert(triple_views(out@) =~= uv.take(0));
    }
    while k < u.len()
        invariant
            k <= u@.len(),
            uv == triple_views(u@),
            before == candidate_order_fn(),
            forall|i: int, j: int| 0 <= i < j < u@.len() ==> (#[trigger] u@[i]).0@ != (#[trigger] u@[j]).0@,
            forall|a: (Seq<char>, u16, CandidateReason), b: (Seq<char>, u16, CandidateReason), c: (Seq<char>, u16, CandidateReason)|
                #[trigger] before(a, b) && #[trigger] before(b, c) ==> before(a, c),
            triple_views(out@).to_multiset() == uv.take(k as int).to_multiset(),
            order::sorted_by(triple_views(out@), before),
        decreases u@.len() - k,
    {
        let e = (copy_chars(&u[k].0), u[k].1, u[k].2);
        let ghost ev = (e.0@, e.1, e.2);
        assert(ev == uv[k as int]);
        let mut pos: usize = 0;
        while pos < out.len() && candidate_less(&out[pos], &e)
            invariant
                pos <= out@.len(),
                before == candidate_order_fn(),
                ev == (e.0@, e.1, e.2),
                forall|i: int| 0 <= i < pos ==> before(#[trigger] triple_views(out@)[i], ev),
            decreases out@.len() - pos,
        {
            assert(triple_views(out@)[pos as int] == (out@[pos as int].0@, out@[pos as int].1, out@[pos as int].2));
            pos = pos + 1;
        }
        let ghost old_out = triple_views(out@);
        proof {
            if pos < out@.len() {
                let x = old_out[pos as int];
                assert(x == (out@[pos as int].0@, out@[pos as int].1, out@[pos as int].2));
                assert(!before(x, ev));
                assert(old_out.contains(x)) by {
                    assert(old_out[pos as int] == x);
                }
                vstd::seq_lib::to_multiset_contains(old_out, x);
                vstd::seq_lib::to_multiset_contains(uv.take(k as int), x);
                let j = choose|j: int| 0 <= j < k && uv.take(k as int)[j] == x;
                assert(uv[j] == x);
                assert(u@[j].0@ != u@[k as int].0@);
                lemma_candidate_order(x, ev, ev);
                lemma_candidate_order(ev, x, x);
                assert(before(ev, x));
            }
        }
        out.insert(pos, e);
        proof {
            assert(triple_views(out@) =~= old_out.insert(pos as int, ev));
            order::lemma_insert_sorted(old_out, ev, pos as int, before);
            assert(uv.take(k as int + 1) =~= uv.take(k as int).push(ev));
            vstd::seq_lib::to_multiset_insert(old_out, pos as int, ev);
            vstd::seq_lib::to_multiset_build(uv.take(k as int), ev);
        }
        k = k + 1;
    }
    assert(uv.take(k as int) =~= uv);
    out
}

/// The paths of candidates, in order.
pub open spec fn candidate_paths(out: Seq<(Seq<char>, u16, CandidateReason)>) -> Seq<Seq<char>> {
    Seq::new(out.len(), |i: int| out[i].0)
}

/// The paths of records, in order.
pub open spec fn record_paths(rs: Seq<(Seq<char>, i64)>) -> Seq<Seq<char>> {
    Seq::new(rs.len(), |i: int| rs[i].0)
}

/// Ranks the supplied recent projects for a log. Each distinct project is
/// scored once, with the latest time it was confirmed: 300 when an absolute
/// path of the log lies within it, else 200 when the log mentions a relative
/// source path, else 100, plus a bonus of 99 less its place in project order
/// (most recent first, then by path). Highest score first, ties by path. No
/// directory is inspected.
pub fn rank_projects(input: &str, recent: &[RecentProject]) -> (r: Vec<ProjectCandidate>)
    ensures
        is_ranking(input@, recent_views(recent@), candidate_views(r@)),
        candidate_paths(candidate_views(r@)).no_duplicates(),
        candidate_paths(candidate_views(r@)).to_set() == record_paths(recent_views(recent@)).to_set(),
        forall|i: int, j: int| 0 <= i < j < r@.len() ==> candidate_before(
            #[trigger] candidate_views(r@)[i],
            #[trigger] candidate_views(r@)[j],
        ),
{
    let spans = patterns::find_absolute_paths(input);
    let relative = patterns::contains_relative_path(input);
    rank_among(input, recent, &spans, relative)
}

/// Ranks the supplied recent projects for a log whose absolute paths stand
/// at the byte spans `spans` (each with an optional `:line:column`) and that
/// mentions a relative source path where `relative` holds.
pub fn rank_among(input: &str, recent: &[RecentProject], path_spans: &Vec<(usize, usize)>, relative: bool) -> (r: Vec<ProjectCandidate>)
    requires
        spans::spans_well_formed(input@, path_spans@),
    ensures
        ranked_by(recent_views(recent@), candidate_views(r@), paths_at(input@, path_spans@), relative),
        candidate_paths(candidate_views(r@)).no_duplicates(),
        candidate_paths(candidate_views(r@)).to_set() == record_paths(recent_views(recent@)).to_set(),
        forall|i: int, j: int| 0 <= i < j < r@.len() ==> candidate_before(
            #[trigger] candidate_views(r@)[i],
            #[trigger] candidate_views(r@)[j],
        ),
{
    let chars = chars_of(input);
    let abs = paths_at_spans(input, &chars, path_spans);
    let u = latest_per_path(recent);
    let ps = sort_projects(&u);
    let ghost rs = recent_views(recent@);
    let ghost uv = pair_views(u@);
    let ghost pv = pair_views(ps@);
    proof {
        assert forall|i: int| 0 <= i < pv.len() implies latest(rs, (#[trigger] pv[i]).0) == Some(pv[i].1) by {
            assert(pv.contains(pv[i]));
            vstd::seq_lib::to_multiset_contains(pv, pv[i]);
            vstd::seq_lib::to_multiset_contains(uv, pv[i]);
            let j = choose|j: int| 0 <= j < uv.len() && uv[j] == pv[i];
            assert(uv[j] == (u@[j].0@, u@[j].1));
        }
        assert forall|j: int| 0 <= j < rs.len() implies has_path(pv, #[trigger] rs[j].0) by {
            assert(has_path(uv, rs[j].0));
            let i = choose|i: int| 0 <= i < uv.len() && (#[trigger] uv[i]).0 == rs[j].0;
            assert(uv.contains(uv[i]));
            vstd::seq_lib::to_multiset_contains(uv, uv[i]);
            vstd::seq_lib::to_multiset_contains(pv, uv[i]);
            let k = choose|k: int| 0 <= k < pv.len() && pv[k] == uv[i];
            assert(pv[k].0 == rs[j].0);
        }
        assert forall|i: int, j: int| 0 <= i < j < pv.len() implies project_before(#[trigger] pv[i], #[trigger] pv[j]) by {
            assert(project_order_fn()(pv[i], pv[j]));
        }
        assert(is_project_order(rs, pv));
    }
    let cs = build_candidates(&ps, &abs, relative);
    let ghost cv = triple_views(cs@);
    proof {
        assert forall|i: int, j: int| 0 <= i < j < cs@.len() implies (#[trigger] cs@[i]).0@ != (#[trigger] cs@[j]).0@ by {
            assert(cv == candidates_of(pv, text::views(abs@), relative));
            assert(cv.len() == pv.len());
            assert(cv[i].0 == pv[i].0);
            assert(cv[j].0 == pv[j].0);
            if pv[i].0 == pv[j].0 {
                text::lemma_lex_irreflexive(pv[i].0);
                assert(project_before(pv[i], pv[j]));
            }
        }
    }
    let sorted = sort_candidates(&cs);
    let mut out: Vec<ProjectCandidate> = Vec::new();
    let mut i: usize = 0;
    while i < sorted.len()
        invariant
            i <= sorted@.len(),
            out@.len() == i,
            candidate_views(out@) == triple_views(sorted@).take(i as int),
        decreases sorted@.len() - i,
    {
        let c = ProjectCandidate { path: string_of(&sorted[i].0), score: sorted[i].1, reason: sorted[i].2 };
        let ghost before_push = out@;
        out.push(c);
        assert forall|k: int| 0 <= k < i + 1 implies #[trigger] candidate_views(out@)[k] == triple_views(sorted@).take(i as int + 1)[k] by {
            if k < i {
                assert(out@[k] == before_push[k]);
                assert(candidate_views(before_push)[k] == triple_views(sorted@).take(i as int)[k]);
            }
        }
        assert(candidate_views(out@) =~= triple_views(sorted@).take(i as int + 1));
        i = i + 1;
    }
    proof {
        assert(triple_views(sorted@).take(i as int) =~= triple_views(sorted@));
        let ap = paths_at(input@, path_spans@);
        assert(text::views(abs@) == ap);
        assert(is_project_order(rs, pv));
        assert(ranked_by(rs, candidate_views(out@), ap, relative));
        lemma_ranking_facts(ap, relative, rs, candidate_views(out@));
    }
    out
}

// ---------------------------------------------------------------------------
// Laws
// ---------------------------------------------------------------------------

/// A path has a latest time only where some record has it.
proof fn lemma_latest_some(rs: Seq<(Seq<char>, i64)>, p: Seq<char>)
    requires
        latest(rs, p) is Some,
    ensures
        exists|j: int| 0 <= j < rs.len() && (#[trigger] rs[j]).0 == p,
    decreases rs.len(),
{
    if rs.last().0 == p {
        assert(rs[rs.len() - 1].0 == p);
    } else {
        lemma_latest_some(rs.drop_last(), p);
        let j = choose|j: int| 0 <= j < rs.drop_last().len() && (#[trigger] rs.drop_last()[j]).0 == p;
        assert(rs[j] == rs.drop_last()[j]);
    }
}

pub open spec fn candidate_path(c: (Seq<char>, u16, CandidateReason)) -> Seq<char> {
    c.0
}

/// The ranking holds exactly one candidate for each project among the
/// records, however often the records repeat it, and no other candidate.
pub proof fn lemma_one_candidate_per_project(abs: Seq<Seq<char>>, relative: bool, rs: Seq<(Seq<char>, i64)>, out: Seq<(Seq<char>, u16, CandidateReason)>)
    requires
        ranked_by(rs, out, abs, relative),
    ensures
        forall|j: int| 0 <= j < rs.len() ==> exists|i: int| 0 <= i < out.len() && (#[trigger] out[i]).0 == (#[trigger] rs[j]).0,
        forall|i: int| 0 <= i < out.len() ==> exists|j: int| 0 <= j < rs.len() && (#[trigger] out[i]).0 == (#[trigger] rs[j]).0,
        forall|i: int, j: int| 0 <= i < j < out.len() ==> (#[trigger] out[i]).0 != (#[trigger] out[j]).0,
{
    let ps = choose|ps: Seq<(Seq<char>, i64)>| #[trigger] is_project_order(rs, ps)
        && out.to_multiset() == candidates_of(ps, abs, relative).to_multiset()
        && order::sorted_by(out, candidate_order_fn());
    let cs = candidates_of(ps, abs, relative);
    assert forall|j: int| 0 <= j < rs.len() implies exists|i: int| 0 <= i < out.len() && (#[trigger] out[i]).0 == (#[trigger] rs[j]).0 by {
        assert(has_path(ps, rs[j].0));
        let m = choose|m: int| 0 <= m < ps.len() && (#[trigger] ps[m]).0 == rs[j].0;
        assert(cs[m].0 == rs[j].0);
        assert(cs.contains(cs[m]));
        vstd::seq_lib::to_multiset_contains(cs, cs[m]);
        vstd::seq_lib::to_multiset_contains(out, cs[m]);
        let i = choose|i: int| 0 <= i < out.len() && out[i] == cs[m];
        assert(out[i].0 == rs[j].0);
    }
    assert forall|i: int| 0 <= i < out.len() implies exists|j: int| 0 <= j < rs.len() && (#[trigger] out[i]).0 == (#[trigger] rs[j]).0 by {
        assert(out.contains(out[i]));
        vstd::seq_lib::to_multiset_contains(out, out[i]);
        vstd::seq_lib::to_multiset_contains(cs, out[i]);
        let m = choose|m: int| 0 <= m < cs.len() && cs[m] == out[i];
        assert(latest(rs, ps[m].0) == Some(ps[m].1));
        lemma_latest_some(rs, ps[m].0);
        let j = choose|j: int| 0 <= j < rs.len() && (#[trigger] rs[j]).0 == ps[m].0;
        assert(out[i].0 == rs[j].0);
    }
    let key = |c: (Seq<char>, u16, CandidateReason)| candidate_path(c);
    assert forall|i: int, j: int| 0 <= i < j < cs.len() implies key(#[trigger] cs[i]) != key(#[trigger] cs[j]) by {
        assert(project_before(ps[i], ps[j]));
        if ps[i].0 == ps[j].0 {
            text::lemma_lex_irreflexive(ps[i].0);
        }
    }
    order::lemma_distinct_keys_permutation(cs, out, key);
    assert forall|i: int, j: int| 0 <= i < j < out.len() implies (#[trigger] out[i]).0 != (#[trigger] out[j]).0 by {
        assert(key(out[i]) != key(out[j]));
    }
}

/// A project that an absolute path of the log lies within ranks above every
/// project that none does.
pub proof fn lemma_absolute_matches_rank_first(abs: Seq<Seq<char>>, relative: bool, rs: Seq<(Seq<char>, i64)>, out: Seq<(Seq<char>, u16, CandidateReason)>)
    requires
        ranked_by(rs, out, abs, relative),
    ensures
        forall|i: int, j: int| 0 <= i < j < out.len() && (#[trigger] out[j]).2 == CandidateReason::AbsolutePath
            ==> (#[trigger] out[i]).2 == CandidateReason::AbsolutePath,
{
    let ps = choose|ps: Seq<(Seq<char>, i64)>| #[trigger] is_project_order(rs, ps)
        && out.to_multiset() == candidates_of(ps, abs, relative).to_multiset()
        && order::sorted_by(out, candidate_order_fn());
    let cs = candidates_of(ps, abs, relative);
    assert forall|k: int| 0 <= k < out.len() implies ((#[trigger] out[k]).2 == CandidateReason::AbsolutePath) == (out[k].1 >= ABSOLUTE_PATH_SCORE) by {
        assert(out.contains(out[k]));
        vstd::seq_lib::to_multiset_contains(out, out[k]);
        vstd::seq_lib::to_multiset_contains(cs, out[k]);
        let m = choose|m: int| 0 <= m < cs.len() && cs[m] == out[k];
        assert(cs[m] == candidate_for(ps[m].0, m, abs, relative));
        assert(0 <= recency_bonus(m) <= MAX_RECENCY_BONUS);
    }
    assert forall|i: int, j: int| 0 <= i < j < out.len() && (#[trigger] out[j]).2 == CandidateReason::AbsolutePath
        implies (#[trigger] out[i]).2 == CandidateReason::AbsolutePath by {
        assert(candidate_order_fn()(out[i], out[j]));
        assert(out[i].1 >= out[j].1);
    }
}

/// Each candidate's reason says what the log mentions of its project, and
/// its score lies in the band of that reason: 300 to 399 when an absolute
/// path lies within the project, else 200 to 299 when the log holds a
/// relative source path, else 100 to 199.
pub proof fn lemma_reasons_and_score_bands(abs: Seq<Seq<char>>, relative: bool, rs: Seq<(Seq<char>, i64)>, out: Seq<(Seq<char>, u16, CandidateReason)>)
    requires
        ranked_by(rs, out, abs, relative),
    ensures
        forall|k: int| 0 <= k < out.len() ==> {
            let c = #[trigger] out[k];
            &&& (c.2 == CandidateReason::AbsolutePath) == mentioned(abs, c.0)
            &&& (c.2 == CandidateReason::RecentRelativePath) == (!mentioned(abs, c.0)
                && relative)
            &&& (c.2 == CandidateReason::RecentProject) == (!mentioned(abs, c.0)
                && !relative)
            &&& c.2 == CandidateReason::AbsolutePath ==> 300 <= c.1 <= 399
            &&& c.2 == CandidateReason::RecentRelativePath ==> 200 <= c.1 <= 299
            &&& c.2 == CandidateReason::RecentProject ==> 100 <= c.1 <= 199
        },
{
    let ps = choose|ps: Seq<(Seq<char>, i64)>| #[trigger] is_project_order(rs, ps)
        && out.to_multiset() == candidates_of(ps, abs, relative).to_multiset()
        && order::sorted_by(out, candidate_order_fn());
    let cs = candidates_of(ps, abs, relative);
    assert forall|k: int| 0 <= k < out.len() implies {
        let c = #[trigger] out[k];
        &&& (c.2 == CandidateReason::AbsolutePath) == mentioned(abs, c.0)
        &&& (c.2 == CandidateReason::RecentRelativePath) == (!mentioned(abs, c.0)
            && relative)
        &&& (c.2 == CandidateReason::RecentProject) == (!mentioned(abs, c.0)
            && !relative)
        &&& c.2 == CandidateReason::AbsolutePath ==> 300 <= c.1 <= 399
        &&& c.2 == CandidateReason::RecentRelativePath ==> 200 <= c.1 <= 299
        &&& c.2 == CandidateReason::RecentProject ==> 100 <= c.1 <= 199
    } by {
        assert(out.contains(out[k]));
        vstd::seq_lib::to_multiset_contains(out, out[k]);
        vstd::seq_lib::to_multiset_contains(cs, out[k]);
        let m = choose|m: int| 0 <= m < cs.len() && cs[m] == out[k];
        assert(cs[m] == candidate_for(ps[m].0, m, abs, relative));
        assert(0 <= recency_bonus(m) <= MAX_RECENCY_BONUS);
    }
}

proof fn lemma_latest_present(rs: Seq<(Seq<char>, i64)>, j: int)
    requires
        0 <= j < rs.len(),
    ensures
        latest(rs, rs[j].0) is Some,
    decreases rs.len(),
{
    if j < rs.len() - 1 {
        assert(rs.drop_last()[j] == rs[j]);
        lemma_latest_present(rs.drop_last(), j);
    }
}

/// The project order of the records is determined by the records.
proof fn lemma_project_order_unique(rs1: Seq<(Seq<char>, i64)>, rs2: Seq<(Seq<char>, i64)>, ps1: Seq<(Seq<char>, i64)>, ps2: Seq<(Seq<char>, i64)>)
    requires
        forall|p: Seq<char>| #[trigger] latest(rs1, p) == latest(rs2, p),
        is_project_order(rs1, ps1),
        is_project_order(rs2, ps2),
    ensures
        ps1 == ps2,
{
    assert forall|x: (Seq<char>, i64), y: (Seq<char>, i64)| #[trigger] project_order_fn()(x, y) implies !project_order_fn()(y, x) by {
        lemma_project_order(x, y, x);
    }
    assert forall|i: int, j: int| 0 <= i < ps1.len() && 0 <= j < ps1.len() && i != j implies ps1[i] != ps1[j] by {
        lemma_project_order(ps1[i], ps1[i], ps1[i]);
        if i < j { assert(project_before(ps1[i], ps1[j])); } else { assert(project_before(ps1[j], ps1[i])); }
    }
    assert forall|i: int, j: int| 0 <= i < ps2.len() && 0 <= j < ps2.len() && i != j implies ps2[i] != ps2[j] by {
        lemma_project_order(ps2[i], ps2[i], ps2[i]);
        if i < j { assert(project_before(ps2[i], ps2[j])); } else { assert(project_before(ps2[j], ps2[i])); }
    }
    assert forall|x: (Seq<char>, i64)| ps1.contains(x) implies ps2.contains(x) by {
        let i = choose|i: int| 0 <= i < ps1.len() && ps1[i] == x;
        assert(latest(rs1, ps1[i].0) == Some(ps1[i].1));
        lemma_latest_some(rs2, x.0);
        let j = choose|j: int| 0 <= j < rs2.len() && (#[trigger] rs2[j]).0 == x.0;
        assert(has_path(ps2, rs2[j].0));
        let k = choose|k: int| 0 <= k < ps2.len() && (#[trigger] ps2[k]).0 == rs2[j].0;
        assert(latest(rs2, ps2[k].0) == Some(ps2[k].1));
        assert(ps2[k] == x);
    }
    assert forall|x: (Seq<char>, i64)| ps2.contains(x) implies ps1.contains(x) by {
        let i = choose|i: int| 0 <= i < ps2.len() && ps2[i] == x;
        assert(latest(rs2, ps2[i].0) == Some(ps2[i].1));
        lemma_latest_some(rs1, x.0);
        let j = choose|j: int| 0 <= j < rs1.len() && (#[trigger] rs1[j]).0 == x.0;
        assert(has_path(ps1, rs1[j].0));
        let k = choose|k: int| 0 <= k < ps1.len() && (#[trigger] ps1[k]).0 == rs1[j].0;
        assert(latest(rs1, ps1[k].0) == Some(ps1[k].1));
        assert(ps1[k] == x);
    }
    order::lemma_same_elements_same_multiset(ps1, ps2);
    order::lemma_sorted_unique(ps1, ps2, project_order_fn());
}

/// The ranking depends only on the log and, of the records, on which paths
/// they hold and the latest time of each: records in another order, or with
/// repeated or older entries for the same paths, rank the same.
pub proof fn lemma_ranking_depends_on_latest_times(
    abs: Seq<Seq<char>>,
    relative: bool,
    rs1: Seq<(Seq<char>, i64)>,
    rs2: Seq<(Seq<char>, i64)>,
    out1: Seq<(Seq<char>, u16, CandidateReason)>,
    out2: Seq<(Seq<char>, u16, CandidateReason)>,
)
    requires
        forall|p: Seq<char>| #[trigger] latest(rs1, p) == latest(rs2, p),
        ranked_by(rs1, out1, abs, relative),
        ranked_by(rs2, out2, abs, relative),
    ensures
        out1 == out2,
{
    let rel = relative;
    let ps1 = choose|ps: Seq<(Seq<char>, i64)>| #[trigger] is_project_order(rs1, ps)
        && out1.to_multiset() == candidates_of(ps, abs, rel).to_multiset()
        && order::sorted_by(out1, candidate_order_fn());
    let ps2 = choose|ps: Seq<(Seq<char>, i64)>| #[trigger] is_project_order(rs2, ps)
        && out2.to_multiset() == candidates_of(ps, abs, rel).to_multiset()
        && order::sorted_by(out2, candidate_order_fn());
    lemma_project_order_unique(rs1, rs2, ps1, ps2);
    assert forall|x: (Seq<char>, u16, CandidateReason), y: (Seq<char>, u16, CandidateReason)|
        #[trigger] candidate_order_fn()(x, y) implies !candidate_order_fn()(y, x) by {
        lemma_candidate_order(x, y, x);
        lemma_candidate_order(y, x, y);
        if x.1 == y.1 {
            text::lemma_lex_total(x.0, y.0);
            if text::lex_lt(x.0, y.0) && text::lex_lt(y.0, x.0) {
                text::lemma_lex_transitive(x.0, y.0, x.0);
                text::lemma_lex_irreflexive(x.0);
            }
        }
    }
    order::lemma_sorted_unique(out1, out2, candidate_order_fn());
}

/// What a ranking says of its paths and order.
proof fn lemma_ranking_facts(
    ap: Seq<Seq<char>>,
    relative: bool,
    rs: Seq<(Seq<char>, i64)>,
    cv: Seq<(Seq<char>, u16, CandidateReason)>,
)
    requires
        ranked_by(rs, cv, ap, relative),
    ensures
        candidate_paths(cv).no_duplicates(),
        candidate_paths(cv).to_set() == record_paths(rs).to_set(),
        forall|i: int, j: int| 0 <= i < j < cv.len() ==> candidate_before(#[trigger] cv[i], #[trigger] cv[j]),
{
    lemma_one_candidate_per_project(ap, relative, rs, cv);
    let cp = candidate_paths(cv);
    let rp = record_paths(rs);
    assert forall|a: int, b: int| 0 <= a < cp.len() && 0 <= b < cp.len() && a != b implies cp[a] != cp[b] by {
        if a < b {
            assert(cv[a].0 != cv[b].0);
        } else {
            assert(cv[b].0 != cv[a].0);
        }
    }
    assert forall|x: Seq<char>| cp.contains(x) <==> rp.contains(x) by {
        if cp.contains(x) {
            let a = choose|a: int| 0 <= a < cp.len() && cp[a] == x;
            assert(cv[a].0 == x);
            let j = choose|j: int| 0 <= j < rs.len() && (#[trigger] cv[a]).0 == (#[trigger] rs[j]).0;
            assert(rp[j] == x);
        }
        if rp.contains(x) {
            let j = choose|j: int| 0 <= j < rp.len() && rp[j] == x;
            assert(rs[j].0 == x);
            let a = choose|a: int| 0 <= a < cv.len() && (#[trigger] cv[a]).0 == (#[trigger] rs[j]).0;
            assert(cp[a] == x);
        }
    }
    assert(cp.to_set() =~= rp.to_set());
    let ps = choose|ps: Seq<(Seq<char>, i64)>| #[trigger] is_project_order(rs, ps)
        && cv.to_multiset() == candidates_of(ps, ap, relative).to_multiset()
        && order::sorted_by(cv, candidate_order_fn());
    assert forall|a: int, b: int| 0 <= a < b < cv.len() implies candidate_before(#[trigger] cv[a], #[trigger] cv[b]) by {
        assert(candidate_order_fn()(cv[a], cv[b]));
    }
}

/// Every absolute path of the log counts, wherever it stands: a project
/// that any of them lies within is ranked for an absolute path, with a score
/// of at least 300; and a project ranked so has one of them within it.
pub proof fn lemma_every_absolute_path_counts(
    abs: Seq<Seq<char>>,
    relative: bool,
    rs: Seq<(Seq<char>, i64)>,
    out: Seq<(Seq<char>, u16, CandidateReason)>,
)
    requires
        ranked_by(rs, out, abs, relative),
    ensures
        forall|i: int, k: int| 0 <= i < out.len() && 0 <= k < abs.len() && path_within(#[trigger] abs[k], (#[trigger] out[i]).0)
            ==> out[i].2 == CandidateReason::AbsolutePath && out[i].1 >= 300,
        forall|i: int| 0 <= i < out.len() && (#[trigger] out[i]).2 == CandidateReason::AbsolutePath
            ==> exists|k: int| 0 <= k < abs.len() && path_within(#[trigger] abs[k], out[i].0),
{
    lemma_reasons_and_score_bands(abs, relative, rs, out);
    assert forall|i: int, k: int| 0 <= i < out.len() && 0 <= k < abs.len() && path_within(#[trigger] abs[k], (#[trigger] out[i]).0)
        implies out[i].2 == CandidateReason::AbsolutePath && out[i].1 >= 300 by {
        assert(mentioned(abs, out[i].0));
    }
    assert forall|i: int| 0 <= i < out.len() && (#[trigger] out[i]).2 == CandidateReason::AbsolutePath
        implies exists|k: int| 0 <= k < abs.len() && path_within(#[trigger] abs[k], out[i].0) by {
        assert(mentioned(abs, out[i].0));
    }
}

} // verus!
