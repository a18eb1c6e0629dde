//! The list of recently confirmed projects and where it is kept.
use vstd::prelude::*;
use crate::domain::{RecentProject, recent_views};
use crate::projects;
use crate::text::{append_str, chars_eq, chars_of, lex_less, string_of};

verus! {

/// The name of the file that holds the list, inside the store's directory.
pub const FILE_NAME: &'static str = "recent-projects.json";

/// How many records the list keeps.
pub const MAX_RECENT_PROJECTS: usize = 10;

/// Where the recent projects are kept: a file in a directory.
#[derive(Clone, Debug)]
pub struct RecentProjectStore {
    directory: String,
}

impl View for RecentProjectStore {
    type V = Seq<char>;

    closed spec fn view(&self) -> Seq<char> {
        self.directory@
    }
}

/// A file name joined to a directory, as `Path::join` does it for a relative
/// name: a `/` goes between them unless the directory is empty or already
/// ends with one.
pub open spec fn joined(directory: Seq<char>, name: Seq<char>) -> Seq<char> {
    if directory.len() == 0 || directory.last() == '/' {
        directory + name
    } else {
        directory + seq!['/'] + name
    }
}

impl RecentProjectStore {
    /// The store kept in `directory`.
    pub fn at(directory: &str) -> (r: RecentProjectStore)
        ensures
            r@ == directory@,
    {
        RecentProjectStore { directory: directory.to_owned() }
    }

    /// The directory of the store.
    pub fn directory(&self) -> (r: &str)
        ensures
            r@ == self@,
    {
        self.directory.as_str()
    }

    /// The path of the file that holds the list.
    pub fn path(&self) -> (r: String)
        ensures
            r@ == joined(self@, FILE_NAME@),
    {
        let dir = chars_of(self.directory.as_str());
        let mut out = dir.clone();
        let n = dir.len();
        if n > 0 && dir[n - 1] != '/' {
            out.push('/');
        }
        append_str(&mut out, FILE_NAME);
        proof {
            if n > 0 {
                assert(dir@.last() == dir@[n - 1]);
            }
        }
        string_of(&out)
    }
}

// ---------------------------------------------------------------------------
// Recording a confirmation
// ---------------------------------------------------------------------------

/// The records whose path is not `path`, in order.
pub open spec fn without_path(ps: Seq<(Seq<char>, i64)>, path: Seq<char>) -> Seq<(Seq<char>, i64)>
    decreases ps.len(),
{
    if ps.len() == 0 {
        Seq::empty()
    } else {
        let rest = without_path(ps.drop_last(), path);
        if ps.last().0 == path {
            rest
        } else {
            rest.push(ps.last())
        }
    }
}

/// `s` is ordered most recent first, then by path; equal records may stand
/// side by side.
pub open spec fn newest_first(s: Seq<(Seq<char>, i64)>) -> bool {
    forall|i: int, j: int| 0 <= i < j < s.len() ==> !projects::project_before(#[trigger] s[j], #[trigger] s[i])
}

/// `out` is the list after confirming `confirmed`: the other records and
/// the confirmation, most recent first and then by path, cut to the first
/// ten.
pub open spec fn is_recorded(ps: Seq<(Seq<char>, i64)>, confirmed: (Seq<char>, i64), out: Seq<(Seq<char>, i64)>) -> bool {
    exists|sorted: Seq<(Seq<char>, i64)>|
        {
            &&& #[trigger] newest_first(sorted)
            &&& sorted.to_multiset() == without_path(ps, confirmed.0).push(confirmed).to_multiset()
            &&& out == sorted.take(
                if sorted.len() <= MAX_RECENT_PROJECTS { sorted.len() as int } else { MAX_RECENT_PROJECTS as int },
            )
        }
}

/// No path occurs twice.
pub open spec fn unique_paths(s: Seq<(Seq<char>, i64)>) -> bool {
    forall|i: int, j: int| 0 <= i < j < s.len() ==> (#[trigger] s[i]).0 != (#[trigger] s[j]).0
}

fn recent_less(a: &RecentProject, b: &RecentProject) -> (r: bool)
    ensures
        r == projects::project_before(a@, b@),
{
    if a.confirmed_at != b.confirmed_at {
        a.confirmed_at > b.confirmed_at
    } else {
        lex_less(&chars_of(a.path.as_str()), &chars_of(b.path.as_str()))
    }
}

proof fn lemma_without_path_push(ps: Seq<(Seq<char>, i64)>, x: (Seq<char>, i64), path: Seq<char>)
    ensures
        without_path(ps.push(x), path) == (if x.0 == path {
            without_path(ps, path)
        } else {
            without_path(ps, path).push(x)
        }),
{
    assert(ps.push(x).drop_last() =~= ps);
}

proof fn lemma_without_path_members(ps: Seq<(Seq<char>, i64)>, path: Seq<char>)
    ensures
        forall|i: int| 0 <= i < without_path(ps, path).len() ==> (#[trigger] without_path(ps, path)[i]).0 != path,
        forall|i: int| 0 <= i < without_path(ps, path).len() ==> ps.contains(#[trigger] without_path(ps, path)[i]),
    decreases ps.len(),
{
    if ps.len() > 0 {
        lemma_without_path_members(ps.drop_last(), path);
        let rest = without_path(ps.drop_last(), path);
        assert forall|i: int| 0 <= i < without_path(ps, path).len() implies ps.contains(#[trigger] without_path(ps, path)[i]) by {
            if i < rest.len() {
                assert(without_path(ps, path)[i] == rest[i]);
                let k = choose|k: int| 0 <= k < ps.drop_last().len() && ps.drop_last()[k] == rest[i];
                assert(ps[k] == rest[i]);
            } else {
                assert(ps[ps.len() - 1] == without_path(ps, path)[i]);
            }
        }
    }
}

/// The records without those of the confirmed path.
fn others(projects: &Vec<RecentProject>, path: &Vec<char>) -> (r: Vec<RecentProject>)
    ensures
        recent_views(r@) == without_path(recent_views(projects@), path@),
{
    let ghost ps = recent_views(projects@);
    let mut r: Vec<RecentProject> = Vec::new();
    let mut i: usize = 0;
    while i < projects.len()
        invariant
            i <= projects@.len(),
            ps == recent_views(projects@),
            recent_views(r@) == without_path(ps.take(i as int), path@),
        decreases projects@.len() - i,
    {
        let p = projects[i].copy();
        proof {
            assert(ps.take(i as int + 1) =~= ps.take(i as int).push(ps[i as int]));
            lemma_without_path_push(ps.take(i as int), ps[i as int], path@);
        }
        let c = chars_of(p.path.as_str());
        if !chars_eq(&c, path) {
            let ghost before_push = r@;
            r.push(p);
            assert(recent_views(r@) =~= recent_views(before_push).push(ps[i as int]));
        }
        i = i + 1;
    }
    assert(ps.take(i as int) =~= ps);
    r
}


proof fn lemma_without_path_unique(ps: Seq<(Seq<char>, i64)>, path: Seq<char>)
    requires
        unique_paths(ps),
    ensures
        unique_paths(without_path(ps, path)),
    decreases ps.len(),
{
    if ps.len() > 0 {
        let d = ps.drop_last();
        assert forall|i: int, j: int| 0 <= i < j < d.len() implies (#[trigger] d[i]).0 != (#[trigger] d[j]).0 by {
            assert(d[i] == ps[i]);
            assert(d[j] == ps[j]);
        }
        lemma_without_path_unique(d, path);
        lemma_without_path_members(d, path);
        let rest = without_path(d, path);
        if ps.last().0 != path {
            let all = rest.push(ps.last());
            assert forall|i: int, j: int| 0 <= i < j < all.len() implies (#[trigger] all[i]).0 != (#[trigger] all[j]).0 by {
                assert(all[i] == rest[i]);
                if j == rest.len() {
                    assert(d.contains(rest[i]));
                    let k = choose|k: int| 0 <= k < d.len() && d[k] == rest[i];
                    assert(ps[k] == rest[i]);
                    assert(ps[ps.len() - 1] == all[j]);
                } else {
                    assert(all[j] == rest[j]);
                }
            }
        }
    }
}

/// Inserting `e` after everything that does not follow it, and before the
/// first entry that does, keeps a sequence ordered most recent first.
proof fn lemma_insert_newest_first(s: Seq<(Seq<char>, i64)>, e: (Seq<char>, i64), pos: int)
    requires
        0 <= pos <= s.len(),
        newest_first(s),
        forall|i: int| 0 <= i < pos ==> !projects::project_before(e, #[trigger] s[i]),
        pos < s.len() ==> projects::project_before(e, s[pos]),
    ensures
        newest_first(s.insert(pos, e)),
{
    let n = s.insert(pos, e);
    assert forall|i: int, j: int| 0 <= i < j < n.len() implies !projects::project_before(#[trigger] n[j], #[trigger] n[i]) by {
        if j == pos {
            assert(n[i] == s[i]);
        } else if i == pos {
            assert(n[j] == s[j - 1]);
            projects::lemma_project_order(s[j - 1], e, s[pos]);
            projects::lemma_project_order(e, s[pos], s[pos]);
            if j - 1 > pos {
                assert(!projects::project_before(s[j - 1], s[pos]));
            }
        } else {
            let oi = if i < pos { i } else { i - 1 };
            let oj = if j < pos { j } else { j - 1 };
            assert(n[i] == s[oi]);
            assert(n[j] == s[oj]);
        }
    }
}

/// The records in recent order; equal records keep their order.
fn newest_first_sort(v: &Vec<RecentProject>) -> (r: Vec<RecentProject>)
    ensures
        recent_views(r@).to_multiset() == recent_views(v@).to_multiset(),
        newest_first(recent_views(r@)),
{
    let ghost vv = recent_views(v@);
    let mut out: Vec<RecentProject> = Vec::new();
    let mut k: usize = 0;
    assert(recent_views(out@) =~= vv.take(0));
    while k < v.len()
        invariant
            k <= v@.len(),
            vv == recent_views(v@),
            recent_views(out@).to_multiset() == vv.take(k as int).to_multiset(),
            newest_first(recent_views(out@)),
        decreases v@.len() - k,
    {
        let e = v[k].copy();
        let mut pos: usize = 0;
        while pos < out.len() && !recent_less(&e, &out[pos])
            invariant
                pos <= out@.len(),
                forall|i: int| 0 <= i < pos ==> !projects::project_before(e@, #[trigger] recent_views(out@)[i]),
            decreases out@.len() - pos,
        {
            assert(recent_views(out@)[pos as int] == out@[pos as int]@);
            pos = pos + 1;
        }
        let ghost old_out = recent_views(out@);
        proof {
            if pos < out@.len() {
                assert(old_out[pos as int] == out@[pos as int]@);
            }
            lemma_insert_newest_first(old_out, e@, pos as int);
        }
        out.insert(pos, e);
        proof {
            assert(recent_views(out@) =~= old_out.insert(pos as int, vv[k as int]));
            assert(vv.take(k as int + 1) =~= vv.take(k as int).push(vv[k as int]));
            vstd::seq_lib::to_multiset_insert(old_out, pos as int, vv[k as int]);
            vstd::seq_lib::to_multiset_build(vv.take(k as int), vv[k as int]);
        }
        k = k + 1;
    }
    assert(vv.take(k as int) =~= vv);
    out
}

/// The list after the user confirms a project: any earlier record of the
/// same path is replaced by the confirmation, the records are ordered most
/// recent first and then by path, and only the first ten are kept. A list
/// whose paths were distinct stays so.
pub fn record_confirmation(projects: &Vec<RecentProject>, confirmed: RecentProject) -> (r: Vec<RecentProject>)
    ensures
        is_recorded(recent_views(projects@), confirmed@, recent_views(r@)),
        1 <= r@.len() <= MAX_RECENT_PROJECTS,
        unique_paths(recent_views(projects@)) ==> unique_paths(recent_views(r@)),
{
    let ghost ps = recent_views(projects@);
    let ghost c = confirmed@;
    let path = chars_of(confirmed.path.as_str());
    let mut kept = others(projects, &path);
    let ghost before_push = recent_views(kept@);
    kept.push(confirmed);
    assert(recent_views(kept@) =~= before_push.push(c));
    let mut sorted = newest_first_sort(&kept);
    let ghost sv = recent_views(sorted@);
    proof {
        vstd::seq_lib::to_multiset_len(sv);
        vstd::seq_lib::to_multiset_len(recent_views(kept@));
    }
    sorted.truncate(MAX_RECENT_PROJECTS);
    let ghost n: int = if sv.len() <= MAX_RECENT_PROJECTS { sv.len() as int } else { MAX_RECENT_PROJECTS as int };
    assert(recent_views(sorted@) =~= sv.take(n));
    assert(newest_first(sv));
    proof {
        if unique_paths(ps) {
            let w = without_path(ps, c.0);
            let all = w.push(c);
            lemma_without_path_unique(ps, c.0);
            lemma_without_path_members(ps, c.0);
            assert forall|i: int, j: int| 0 <= i < j < all.len() implies (#[trigger] all[i]).0 != (#[trigger] all[j]).0 by {
                assert(all[i] == w[i]);
                if j < w.len() {
                    assert(all[j] == w[j]);
                }
            }
            assert(recent_views(kept@) == all);
            let key = |p: (Seq<char>, i64)| p.0;
            assert forall|i: int, j: int| 0 <= i < j < all.len() implies key(#[trigger] all[i]) != key(#[trigger] all[j]) by {
                assert(all[i].0 != all[j].0);
            }
            crate::order::lemma_distinct_keys_permutation(all, sv, key);
            assert forall|i: int, j: int| 0 <= i < j < sv.take(n).len() implies (#[trigger] sv.take(n)[i]).0 != (#[trigger] sv.take(n)[j]).0 by {
                assert(sv.take(n)[i] == sv[i]);
                assert(sv.take(n)[j] == sv[j]);
                assert(key(sv[i]) != key(sv[j]));
            }
        }
    }
    sorted
}

/// A confirmation newer than every other record leads the list.
pub proof fn lemma_newest_confirmation_leads(ps: Seq<(Seq<char>, i64)>, confirmed: (Seq<char>, i64), out: Seq<(Seq<char>, i64)>)
    requires
        is_recorded(ps, confirmed, out),
        forall|i: int| 0 <= i < ps.len() && (#[trigger] ps[i]).0 != confirmed.0 ==> ps[i].1 < confirmed.1,
    ensures
        out.len() >= 1,
        out[0] == confirmed,
{
    let s = choose|sorted: Seq<(Seq<char>, i64)>|
        {
            &&& #[trigger] newest_first(sorted)
            &&& sorted.to_multiset() == without_path(ps, confirmed.0).push(confirmed).to_multiset()
            &&& out == sorted.take(
                if sorted.len() <= MAX_RECENT_PROJECTS { sorted.len() as int } else { MAX_RECENT_PROJECTS as int },
            )
        };
    let w = without_path(ps, confirmed.0);
    let all = w.push(confirmed);
    assert(all.contains(confirmed)) by {
        assert(all[w.len() as int] == confirmed);
    }
    vstd::seq_lib::to_multiset_contains(all, confirmed);
    vstd::seq_lib::to_multiset_contains(s, confirmed);
    let k = choose|k: int| 0 <= k < s.len() && s[k] == confirmed;
    if s[0] != confirmed {
        assert(s.contains(s[0]));
        vstd::seq_lib::to_multiset_contains(s, s[0]);
        vstd::seq_lib::to_multiset_contains(all, s[0]);
        let m = choose|m: int| 0 <= m < all.len() && all[m] == s[0];
        assert(m < w.len());
        assert(all[m] == w[m]);
        lemma_without_path_members(ps, confirmed.0);
        assert(ps.contains(w[m]));
        let x = choose|x: int| 0 <= x < ps.len() && ps[x] == w[m];
        assert(ps[x].0 != confirmed.0);
        assert(projects::project_before(confirmed, s[0]));
        assert(!projects::project_before(s[k], s[0]));
    }
}

} // verus!
