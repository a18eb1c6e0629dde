//! Merging of evidence drafts into evidence with stable identifiers.
use vstd::prelude::*;
use crate::model::{
    DraftView, Evidence, EvidenceDraft, EvidenceView, ProvenanceView, Sensitivity, draft_views,
    evidence_views, kind_order, kind_rank, provenance_views, sensitivity_order, sensitivity_rank,
};
use crate::text::{
    self, chars_eq, chars_of, is_whitespace, lex_less, lowercase_chars, string_of,
};

verus! {

// ---------------------------------------------------------------------------
// Whitespace collapsing
// ---------------------------------------------------------------------------

/// Scanning state of `words`: the finished words and the word being read.
pub open spec fn word_scan(s: Seq<char>) -> (Seq<Seq<char>>, Seq<char>)
    decreases s.len(),
{
    if s.len() == 0 {
        (Seq::empty(), Seq::empty())
    } else {
        let (ws, cur) = word_scan(s.drop_last());
        if text::white_space(s.last()) {
            if cur.len() > 0 {
                (ws.push(cur), Seq::empty())
            } else {
                (ws, Seq::empty())
            }
        } else {
            (ws, cur.push(s.last()))
        }
    }
}

/// The whitespace-separated words of a text, as `str::split_whitespace` yields them.
pub open spec fn words(s: Seq<char>) -> Seq<Seq<char>> {
    let (ws, cur) = word_scan(s);
    if cur.len() > 0 {
        ws.push(cur)
    } else {
        ws
    }
}

/// Words joined by single spaces.
pub open spec fn join_words(ws: Seq<Seq<char>>) -> Seq<char>
    decreases ws.len(),
{
    if ws.len() == 0 {
        Seq::empty()
    } else if ws.len() == 1 {
        ws[0]
    } else {
        join_words(ws.drop_last()) + seq![' '] + ws.last()
    }
}

/// A text with its whitespace runs collapsed to single spaces and its ends trimmed.
pub open spec fn collapse_whitespace(s: Seq<char>) -> Seq<char> {
    join_words(words(s))
}

/// The text with whitespace runs collapsed to single spaces and the ends trimmed.
pub fn collapse_whitespace_chars(v: &Vec<char>) -> (r: Vec<char>)
    ensures
        r@ == collapse_whitespace(v@),
{
    let mut out: Vec<char> = Vec::new();
    let mut cur: Vec<char> = Vec::new();
    let mut i: usize = 0;
    while i < v.len()
        invariant
            i <= v.len(),
            out@ == join_words(word_scan(v@.take(i as int)).0),
            cur@ == word_scan(v@.take(i as int)).1,
        decreases v.len() - i,
    {
        let ghost ws = word_scan(v@.take(i as int)).0;
        assert(v@.take(i as int + 1).drop_last() =~= v@.take(i as int));
        let c = v[i];
        if is_whitespace(c) {
            if cur.len() > 0 {
                if out.len() > 0 {
                    out.push(' ');
                }
                text::append_chars(&mut out, &cur);
                proof {
                    lemma_word_scan_nonempty(v@.take(i as int));
                    lemma_join_words_empty(ws);
                    let ws2 = ws.push(cur@);
                    assert(ws2.drop_last() =~= ws);
                    if ws.len() == 0 {
                        assert(out@ =~= cur@);
                    } else {
                        assert(out@ =~= join_words(ws) + seq![' '] + cur@);
                    }
                }
                cur = Vec::new();
            }
        } else {
            cur.push(c);
        }
        i = i + 1;
    }
    assert(v@.take(i as int) =~= v@);
    if cur.len() > 0 {
        let ghost ws = word_scan(v@).0;
        proof {
            lemma_word_scan_nonempty(v@);
            lemma_join_words_empty(ws);
        }
        if out.len() > 0 {
            out.push(' ');
        }
        text::append_chars(&mut out, &cur);
        proof {
            let ws2 = ws.push(cur@);
            assert(ws2.drop_last() =~= ws);
            if ws.len() == 0 {
                assert(out@ =~= cur@);
            } else {
                assert(out@ =~= join_words(ws) + seq![' '] + cur@);
            }
        }
    }
    out
}

proof fn lemma_word_scan_nonempty(s: Seq<char>)
    ensures
        forall|i: int|
            0 <= i < word_scan(s).0.len() ==> (#[trigger] word_scan(s).0[i]).len() > 0,
    decreases s.len(),
{
    if s.len() > 0 {
        lemma_word_scan_nonempty(s.drop_last());
        let (ws, cur) = word_scan(s.drop_last());
        if text::white_space(s.last()) && cur.len() > 0 {
            assert forall|i: int| 0 <= i < ws.push(cur).len() implies (#[trigger] ws.push(cur)[i]).len()
                > 0 by {
                if i < ws.len() {
                    assert(ws.push(cur)[i] == ws[i]);
                }
            }
        }
    }
}

/// Words are never empty, so the joined text is empty exactly when there are no words.
proof fn lemma_join_words_empty(ws: Seq<Seq<char>>)
    requires
        forall|i: int| 0 <= i < ws.len() ==> (#[trigger] ws[i]).len() > 0,
    ensures
        (join_words(ws).len() == 0) == (ws.len() == 0),
    decreases ws.len(),
{
    if ws.len() > 1 {
        lemma_join_words_empty(ws.drop_last());
    }
}


// ---------------------------------------------------------------------------
// Merging
// ---------------------------------------------------------------------------

/// The key under which drafts merge: the kind, and the lower-case value with
/// whitespace collapsed.
pub open spec fn draft_key(d: DraftView) -> (nat, Seq<char>) {
    (kind_rank(d.kind), text::lowercase(collapse_whitespace(d.value)))
}

/// The key of merged evidence.
pub open spec fn evidence_key(e: EvidenceView) -> (nat, Seq<char>) {
    (kind_rank(e.kind), text::lowercase(e.value))
}

/// Key order: by kind, then lexicographically by lower-case value.
pub open spec fn key_lt(a: (nat, Seq<char>), b: (nat, Seq<char>)) -> bool {
    a.0 < b.0 || (a.0 == b.0 && text::lex_lt(a.1, b.1))
}

pub proof fn lemma_key_order(a: (nat, Seq<char>), b: (nat, Seq<char>), c: (nat, Seq<char>))
    ensures
        !key_lt(a, a),
        a == b || key_lt(a, b) || key_lt(b, a),
        !(key_lt(a, b) && key_lt(b, a)),
        key_lt(a, b) && key_lt(b, c) ==> key_lt(a, c),
{
    text::lemma_lex_irreflexive(a.1);
    text::lemma_lex_total(a.1, b.1);
    if key_lt(a, b) && key_lt(b, c) && a.0 == b.0 && b.0 == c.0 {
        text::lemma_lex_transitive(a.1, b.1, c.1);
    }
}

/// The first draft with key `k`, if any.
pub open spec fn group_first(ds: Seq<DraftView>, k: (nat, Seq<char>)) -> Option<int>
    decreases ds.len(),
{
    if ds.len() == 0 {
        None
    } else {
        match group_first(ds.drop_last(), k) {
            Some(f) => Some(f),
            None => if draft_key(ds.last()) == k {
                Some(ds.len() - 1)
            } else {
                None
            },
        }
    }
}

/// The highest confidence among drafts with key `k` (0 where there is none).
pub open spec fn group_confidence(ds: Seq<DraftView>, k: (nat, Seq<char>)) -> u8
    decreases ds.len(),
{
    if ds.len() == 0 {
        0
    } else {
        let c = group_confidence(ds.drop_last(), k);
        if draft_key(ds.last()) == k && ds.last().confidence > c {
            ds.last().confidence
        } else {
            c
        }
    }
}

/// The highest sensitivity among drafts with key `k` (public where there is none).
pub open spec fn group_sensitivity(ds: Seq<DraftView>, k: (nat, Seq<char>)) -> Sensitivity
    decreases ds.len(),
{
    if ds.len() == 0 {
        Sensitivity::Public
    } else {
        let s = group_sensitivity(ds.drop_last(), k);
        if draft_key(ds.last()) == k && sensitivity_rank(ds.last().sensitivity) > sensitivity_rank(s) {
            ds.last().sensitivity
        } else {
            s
        }
    }
}

/// The distinct provenance records of drafts with key `k`, in order of first appearance.
pub open spec fn group_provenance(ds: Seq<DraftView>, k: (nat, Seq<char>)) -> Seq<ProvenanceView>
    decreases ds.len(),
{
    if ds.len() == 0 {
        Seq::empty()
    } else {
        let g = group_provenance(ds.drop_last(), k);
        if draft_key(ds.last()) == k && !g.contains(ds.last().provenance) {
            g.push(ds.last().provenance)
        } else {
            g
        }
    }
}

/// Evidence entry `i` of `es` merges the drafts of `ds` that share its key:
/// kind and collapsed value of the first of them, the highest confidence and
/// sensitivity, their distinct provenance, and identifier `i + 1`.
pub open spec fn merged_entry(ds: Seq<DraftView>, es: Seq<EvidenceView>, i: int) -> bool {
    let k = evidence_key(es[i]);
    &&& group_first(ds, k) matches Some(f) && es[i].kind == ds[f].kind && es[i].value
        == collapse_whitespace(ds[f].value)
    &&& es[i].confidence == group_confidence(ds, k)
    &&& es[i].sensitivity == group_sensitivity(ds, k)
    &&& es[i].provenance == group_provenance(ds, k)
    &&& es[i].id == i + 1
    &&& es[i].related.len() == 0
}

/// `es` is the merge of `ds`: one entry per distinct key, ordered by key.
pub open spec fn is_merge_of(ds: Seq<DraftView>, es: Seq<EvidenceView>) -> bool {
    &&& forall|i: int, j: int|
        0 <= i < j < es.len() ==> key_lt(evidence_key(#[trigger] es[i]), evidence_key(#[trigger] es[j]))
    &&& forall|j: int|
        0 <= j < ds.len() ==> exists|i: int|
            0 <= i < es.len() && evidence_key(#[trigger] es[i]) == draft_key(#[trigger] ds[j])
    &&& forall|i: int| 0 <= i < es.len() ==> #[trigger] merged_entry(ds, es, i)
}

proof fn lemma_group_first_key(ds: Seq<DraftView>, k: (nat, Seq<char>))
    ensures
        group_first(ds, k) matches Some(f) ==> 0 <= f < ds.len() && draft_key(ds[f]) == k,
    decreases ds.len(),
{
    if ds.len() > 0 {
        lemma_group_first_key(ds.drop_last(), k);
    }
}

proof fn lemma_group_absent(ds: Seq<DraftView>, k: (nat, Seq<char>))
    requires
        forall|j: int| 0 <= j < ds.len() ==> draft_key(#[trigger] ds[j]) != k,
    ensures
        group_first(ds, k) is None,
        group_confidence(ds, k) == 0,
        group_sensitivity(ds, k) == Sensitivity::Public,
        group_provenance(ds, k) == Seq::<ProvenanceView>::empty(),
    decreases ds.len(),
{
    if ds.len() > 0 {
        assert forall|j: int| 0 <= j < ds.drop_last().len() implies draft_key(
            #[trigger] ds.drop_last()[j],
        ) != k by {
            assert(ds.drop_last()[j] == ds[j]);
        }
        lemma_group_absent(ds.drop_last(), k);
    }
}

/// Merging state: the entry of group `i` in `gs` (identifiers not yet set).
pub open spec fn group_entry(ds: Seq<DraftView>, gs: Seq<EvidenceView>, i: int) -> bool {
    let k = evidence_key(gs[i]);
    &&& group_first(ds, k) matches Some(f) && gs[i].kind == ds[f].kind && gs[i].value
        == collapse_whitespace(ds[f].value)
    &&& gs[i].confidence == group_confidence(ds, k)
    &&& gs[i].sensitivity == group_sensitivity(ds, k)
    &&& gs[i].provenance == group_provenance(ds, k)
    &&& gs[i].related.len() == 0
}

pub open spec fn groups_inv(ds: Seq<DraftView>, gs: Seq<EvidenceView>) -> bool {
    &&& forall|i: int, j: int|
        0 <= i < j < gs.len() ==> key_lt(evidence_key(#[trigger] gs[i]), evidence_key(#[trigger] gs[j]))
    &&& forall|j: int|
        0 <= j < ds.len() ==> exists|i: int|
            0 <= i < gs.len() && evidence_key(#[trigger] gs[i]) == draft_key(#[trigger] ds[j])
    &&& forall|i: int| 0 <= i < gs.len() ==> #[trigger] group_entry(ds, gs, i)
}

/// Whether `(ra, ka)` comes before `(rb, kb)` in key order.
fn key_less(ra: u8, ka: &Vec<char>, rb: u8, kb: &Vec<char>) -> (r: bool)
    ensures
        r == key_lt((ra as nat, ka@), (rb as nat, kb@)),
{
    if ra != rb {
        ra < rb
    } else {
        lex_less(ka, kb)
    }
}

/// Whether `p` is among the provenance records.
fn has_provenance(v: &Vec<crate::model::Provenance>, p: &crate::model::Provenance) -> (r: bool)
    ensures
        r == provenance_views(v@).contains(p@),
{
    let mut i: usize = 0;
    while i < v.len()
        invariant
            i <= v.len(),
            forall|k: int| 0 <= k < i ==> (#[trigger] v@[k])@ != p@,
        decreases v.len() - i,
    {
        if v[i].same_as(p) {
            assert(provenance_views(v@)[i as int] == p@);
            return true;
        }
        i = i + 1;
    }
    proof {
        if provenance_views(v@).contains(p@) {
            let k = choose|k: int| 0 <= k < provenance_views(v@).len() && provenance_views(v@)[k] == p@;
            assert(v@[k]@ == p@);
        }
    }
    false
}


proof fn lemma_group_push(ds: Seq<DraftView>, x: DraftView, k: (nat, Seq<char>))
    ensures
        group_first(ds.push(x), k) == (match group_first(ds, k) {
            Some(f) => Some(f),
            None => if draft_key(x) == k {
                Some(ds.len() as int)
            } else {
                None
            },
        }),
        group_confidence(ds.push(x), k) == (if draft_key(x) == k && x.confidence > group_confidence(
            ds,
            k,
        ) {
            x.confidence
        } else {
            group_confidence(ds, k)
        }),
        group_sensitivity(ds.push(x), k) == (if draft_key(x) == k && sensitivity_rank(x.sensitivity)
            > sensitivity_rank(group_sensitivity(ds, k)) {
            x.sensitivity
        } else {
            group_sensitivity(ds, k)
        }),
        group_provenance(ds.push(x), k) == (if draft_key(x) == k && !group_provenance(
            ds,
            k,
        ).contains(x.provenance) {
            group_provenance(ds, k).push(x.provenance)
        } else {
            group_provenance(ds, k)
        }),
{
    assert(ds.push(x).drop_last() =~= ds);
}

/// Folding draft `n` into a group that already has its key.
proof fn lemma_merge_update(ds: Seq<DraftView>, gs: Seq<EvidenceView>, n: int, p: int, g: EvidenceView)
    requires
        0 <= n < ds.len(),
        groups_inv(ds.take(n), gs),
        0 <= p < gs.len(),
        evidence_key(gs[p]) == draft_key(ds[n]),
        g.kind == gs[p].kind,
        g.value == gs[p].value,
        g.related == gs[p].related,
        g.confidence == (if ds[n].confidence > gs[p].confidence {
            ds[n].confidence
        } else {
            gs[p].confidence
        }),
        g.sensitivity == (if sensitivity_rank(ds[n].sensitivity) > sensitivity_rank(gs[p].sensitivity) {
            ds[n].sensitivity
        } else {
            gs[p].sensitivity
        }),
        g.provenance == (if !gs[p].provenance.contains(ds[n].provenance) {
            gs[p].provenance.push(ds[n].provenance)
        } else {
            gs[p].provenance
        }),
    ensures
        groups_inv(ds.take(n + 1), gs.update(p, g)),
{
    let ds0 = ds.take(n);
    let ds1 = ds.take(n + 1);
    let x = ds[n];
    assert(ds1 =~= ds0.push(x));
    let gs1 = gs.update(p, g);
    let k = draft_key(x);
    assert(evidence_key(g) == evidence_key(gs[p]));
    assert forall|i: int| 0 <= i < gs1.len() implies evidence_key(#[trigger] gs1[i]) == evidence_key(
        gs[i],
    ) by {}
    assert forall|j: int| 0 <= j < ds1.len() implies exists|i: int|
        0 <= i < gs1.len() && evidence_key(#[trigger] gs1[i]) == draft_key(#[trigger] ds1[j]) by {
        if j < n {
            assert(ds1[j] == ds0[j]);
            let i = choose|i: int| 0 <= i < gs.len() && evidence_key(#[trigger] gs[i]) == draft_key(ds0[j]);
            assert(evidence_key(gs1[i]) == draft_key(ds1[j]));
        } else {
            assert(evidence_key(gs1[p]) == draft_key(ds1[j]));
        }
    }
    assert forall|i: int| 0 <= i < gs1.len() implies #[trigger] group_entry(ds1, gs1, i) by {
        let ki = evidence_key(gs1[i]);
        assert(group_entry(ds0, gs, i));
        lemma_group_push(ds0, x, ki);
        lemma_group_first_key(ds0, ki);
        if i != p {
            lemma_key_order(ki, k, k);
            if i < p {
                assert(key_lt(evidence_key(gs[i]), evidence_key(gs[p])));
            } else {
                assert(key_lt(evidence_key(gs[p]), evidence_key(gs[i])));
            }
        }
        if let Some(f) = group_first(ds0, ki) {
            assert(ds1[f] == ds0[f]);
        }
    }
    assert forall|i: int, j: int|
        0 <= i < j < gs1.len() implies key_lt(evidence_key(#[trigger] gs1[i]), evidence_key(
        #[trigger] gs1[j],
    )) by {
        assert(key_lt(evidence_key(gs[i]), evidence_key(gs[j])));
    }
}

/// Starting a new group for draft `n` at position `p`.
proof fn lemma_merge_insert(ds: Seq<DraftView>, gs: Seq<EvidenceView>, n: int, p: int, g: EvidenceView)
    requires
        0 <= n < ds.len(),
        groups_inv(ds.take(n), gs),
        0 <= p <= gs.len(),
        forall|i: int| 0 <= i < p ==> key_lt(evidence_key(#[trigger] gs[i]), draft_key(ds[n])),
        p < gs.len() ==> key_lt(draft_key(ds[n]), evidence_key(gs[p])),
        g.kind == ds[n].kind,
        g.value == collapse_whitespace(ds[n].value),
        g.related.len() == 0,
        g.confidence == ds[n].confidence,
        g.sensitivity == ds[n].sensitivity,
        g.provenance == seq![ds[n].provenance],
    ensures
        groups_inv(ds.take(n + 1), gs.insert(p, g)),
{
    let ds0 = ds.take(n);
    let ds1 = ds.take(n + 1);
    let x = ds[n];
    assert(ds1 =~= ds0.push(x));
    let gs1 = gs.insert(p, g);
    let k = draft_key(x);
    assert(evidence_key(g) == k);
    // No group has the new key, so no earlier draft has it.
    assert forall|i: int| 0 <= i < gs.len() implies evidence_key(#[trigger] gs[i]) != k by {
        if i < p {
            lemma_key_order(evidence_key(gs[i]), k, k);
        } else {
            lemma_key_order(k, evidence_key(gs[p]), evidence_key(gs[i]));
            if i > p {
                assert(key_lt(evidence_key(gs[p]), evidence_key(gs[i])));
                lemma_key_order(k, evidence_key(gs[p]), evidence_key(gs[i]));
                lemma_key_order(k, k, k);
            }
        }
    }
    assert forall|j: int| 0 <= j < ds0.len() implies draft_key(#[trigger] ds0[j]) != k by {
        let i = choose|i: int| 0 <= i < gs.len() && evidence_key(#[trigger] gs[i]) == draft_key(ds0[j]);
        assert(evidence_key(gs[i]) != k);
    }
    lemma_group_absent(ds0, k);
    assert forall|i: int| 0 <= i < gs1.len() implies evidence_key(#[trigger] gs1[i]) == (if i < p {
        evidence_key(gs[i])
    } else if i == p {
        k
    } else {
        evidence_key(gs[i - 1])
    }) by {}
    assert forall|j: int| 0 <= j < ds1.len() implies exists|i: int|
        0 <= i < gs1.len() && evidence_key(#[trigger] gs1[i]) == draft_key(#[trigger] ds1[j]) by {
        if j < n {
            assert(ds1[j] == ds0[j]);
            let i = choose|i: int| 0 <= i < gs.len() && evidence_key(#[trigger] gs[i]) == draft_key(ds0[j]);
            if i < p {
                assert(evidence_key(gs1[i]) == draft_key(ds1[j]));
            } else {
                assert(evidence_key(gs1[i + 1]) == draft_key(ds1[j]));
            }
        } else {
            assert(evidence_key(gs1[p]) == draft_key(ds1[j]));
        }
    }
    assert forall|i: int| 0 <= i < gs1.len() implies #[trigger] group_entry(ds1, gs1, i) by {
        let ki = evidence_key(gs1[i]);
        lemma_group_push(ds0, x, ki);
        if i != p {
            let oi = if i < p { i } else { i - 1 };
            assert(gs1[i] == gs[oi]);
            assert(group_entry(ds0, gs, oi));
            lemma_group_first_key(ds0, ki);
            assert(ki != k);
            if let Some(f) = group_first(ds0, ki) {
                assert(ds1[f] == ds0[f]);
            }
        } else {
            assert(gs1[i] == g);
            assert(ds1[n] == x);
            assert(seq![x.provenance] =~= Seq::<ProvenanceView>::empty().push(x.provenance));
        }
    }
    assert forall|i: int, j: int|
        0 <= i < j < gs1.len() implies key_lt(evidence_key(#[trigger] gs1[i]), evidence_key(
        #[trigger] gs1[j],
    )) by {
        if i < p && j < p {
            assert(key_lt(evidence_key(gs[i]), evidence_key(gs[j])));
        } else if i < p && j == p {
        } else if i < p {
            assert(key_lt(evidence_key(gs[i]), evidence_key(gs[j - 1])) || i == j - 1);
            if i != j - 1 {
                assert(key_lt(evidence_key(gs[i]), evidence_key(gs[j - 1])));
            }
            lemma_key_order(evidence_key(gs[i]), k, evidence_key(gs[p]));
            if j - 1 > p {
                assert(key_lt(evidence_key(gs[p]), evidence_key(gs[j - 1])));
                lemma_key_order(evidence_key(gs[i]), evidence_key(gs[p]), evidence_key(gs[j - 1]));
            }
        } else if i == p {
            if j - 1 > p {
                assert(key_lt(evidence_key(gs[p]), evidence_key(gs[j - 1])));
                lemma_key_order(k, evidence_key(gs[p]), evidence_key(gs[j - 1]));
            }
        } else {
            assert(key_lt(evidence_key(gs[i - 1]), evidence_key(gs[j - 1])));
        }
    }
}


/// Merges drafts that share a kind and a case- and whitespace-insensitive
/// value into one piece of evidence each, keeping every distinct source,
/// the highest confidence and the highest sensitivity; entries are ordered by
/// key and numbered from 1.
pub fn merge(drafts: Vec<EvidenceDraft>) -> (r: Vec<Evidence>)
    ensures
        is_merge_of(draft_views(drafts@), evidence_views(r@)),
{
    let ghost ds = draft_views(drafts@);
    let mut groups: Vec<Evidence> = Vec::new();
    let mut keys: Vec<Vec<char>> = Vec::new();
    let mut n: usize = 0;
    while n < drafts.len()
        invariant
            n <= drafts.len(),
            ds == draft_views(drafts@),
            keys@.len() == groups@.len(),
            forall|i: int| 0 <= i < keys@.len() ==> (#[trigger] keys@[i])@ == text::lowercase(groups@[i].value@),
            groups_inv(ds.take(n as int), evidence_views(groups@)),
        decreases drafts.len() - n,
    {
        let d = &drafts[n];
        let value_chars = chars_of(d.value.as_str());
        let normalized = collapse_whitespace_chars(&value_chars);
        let lowered = lowercase_chars(&normalized);
        let rank = kind_order(d.kind);
        let ghost gs = evidence_views(groups@);
        let ghost k = draft_key(ds[n as int]);
        assert(ds[n as int] == d@);
        assert(k == (rank as nat, lowered@));
        let mut p: usize = 0;
        while p < groups.len() && key_less(kind_order(groups[p].kind), &keys[p], rank, &lowered)
            invariant
                p <= groups@.len(),
                keys@.len() == groups@.len(),
                gs == evidence_views(groups@),
                forall|i: int| 0 <= i < keys@.len() ==> (#[trigger] keys@[i])@ == text::lowercase(groups@[i].value@),
                forall|i: int| 0 <= i < p ==> key_lt(evidence_key(#[trigger] gs[i]), k),
                k == (rank as nat, lowered@),
            decreases groups@.len() - p,
        {
            assert(evidence_key(gs[p as int]) == (kind_rank(groups@[p as int].kind), keys@[p as int]@));
            p = p + 1;
        }
        if p < groups.len() && kind_order(groups[p].kind) == rank && chars_eq(&keys[p], &lowered) {
            proof {
                assert(evidence_key(gs[p as int]) == k);
            }
            let mut g = groups[p].copy();
            if d.confidence > g.confidence {
                g.confidence = d.confidence;
            }
            if sensitivity_order(d.sensitivity) > sensitivity_order(g.sensitivity) {
                g.sensitivity = d.sensitivity;
            }
            if !has_provenance(&g.provenance, &d.provenance) {
                let ghost before = g.provenance@;
                g.provenance.push(d.provenance.copy());
                assert(provenance_views(g.provenance@) =~= provenance_views(before).push(d.provenance@));
            }
            proof {
                lemma_merge_update(ds, gs, n as int, p as int, g@);
            }
            groups.set(p, g);
            proof {
                assert(evidence_views(groups@) =~= gs.update(p as int, g@));
            }
        } else {
            proof {
                if p < groups.len() {
                    assert(evidence_key(gs[p as int]) == (kind_rank(groups@[p as int].kind), keys@[p as int]@));
                    lemma_key_order(evidence_key(gs[p as int]), k, k);
                }
            }
            let mut provenance = Vec::new();
            provenance.push(d.provenance.copy());
            let g = Evidence {
                id: 0,
                kind: d.kind,
                value: string_of(&normalized),
                confidence: d.confidence,
                sensitivity: d.sensitivity,
                provenance,
                related: Vec::new(),
            };
            proof {
                assert(provenance_views(g.provenance@) =~= seq![d.provenance@]);
                lemma_merge_insert(ds, gs, n as int, p as int, g@);
            }
            groups.insert(p, g);
            keys.insert(p, lowered);
            proof {
                assert(evidence_views(groups@) =~= gs.insert(p as int, g@));
            }
        }
        n = n + 1;
    }
    assert(ds.take(n as int) =~= ds);
    let ghost gs = evidence_views(groups@);
    let mut result: Vec<Evidence> = Vec::new();
    let mut i: usize = 0;
    while i < groups.len()
        invariant
            i <= groups@.len(),
            gs == evidence_views(groups@),
            groups_inv(ds, gs),
            result@.len() == i,
            forall|k: int| 0 <= k < i ==> (#[trigger] result@[k])@ == (EvidenceView { id: (k + 1) as u64, ..gs[k] }),
        decreases groups@.len() - i,
    {
        let mut e = groups[i].copy();
        e.id = (i + 1) as u64;
        result.push(e);
        i = i + 1;
    }
    proof {
        let es = evidence_views(result@);
        assert forall|a: int| 0 <= a < es.len() implies evidence_key(#[trigger] es[a]) == evidence_key(gs[a]) by {
            assert(es[a] == result@[a]@);
        }
        assert forall|a: int, b: int| 0 <= a < b < es.len() implies key_lt(evidence_key(#[trigger] es[a]), evidence_key(#[trigger] es[b])) by {
            assert(key_lt(evidence_key(gs[a]), evidence_key(gs[b])));
        }
        assert forall|j: int| 0 <= j < ds.len() implies exists|a: int|
            0 <= a < es.len() && evidence_key(#[trigger] es[a]) == draft_key(#[trigger] ds[j]) by {
            let a = choose|a: int| 0 <= a < gs.len() && evidence_key(#[trigger] gs[a]) == draft_key(ds[j]);
            assert(evidence_key(es[a]) == draft_key(ds[j]));
        }
        assert forall|a: int| 0 <= a < es.len() implies #[trigger] merged_entry(ds, es, a) by {
            assert(group_entry(ds, gs, a));
            assert(es[a] == result@[a]@);
        }
    }
    result
}

// ---------------------------------------------------------------------------
// Laws
// ---------------------------------------------------------------------------

proof fn lemma_group_provenance_has(ds: Seq<DraftView>, k: (nat, Seq<char>), j: int)
    requires
        0 <= j < ds.len(),
        draft_key(ds[j]) == k,
    ensures
        group_provenance(ds, k).contains(ds[j].provenance),
    decreases ds.len(),
{
    let g = group_provenance(ds.drop_last(), k);
    if j == ds.len() - 1 {
        if !g.contains(ds.last().provenance) {
            assert(g.push(ds.last().provenance)[g.len() as int] == ds[j].provenance);
        }
    } else {
        assert(ds.drop_last()[j] == ds[j]);
        lemma_group_provenance_has(ds.drop_last(), k, j);
        let x = choose|x: int| 0 <= x < g.len() && g[x] == ds[j].provenance;
        if draft_key(ds.last()) == k && !g.contains(ds.last().provenance) {
            assert(g.push(ds.last().provenance)[x] == ds[j].provenance);
        }
    }
}

proof fn lemma_group_provenance_from(ds: Seq<DraftView>, k: (nat, Seq<char>), q: ProvenanceView)
    requires
        group_provenance(ds, k).contains(q),
    ensures
        exists|j: int| 0 <= j < ds.len() && draft_key(#[trigger] ds[j]) == k && ds[j].provenance == q,
    decreases ds.len(),
{
    let g = group_provenance(ds.drop_last(), k);
    if g.contains(q) {
        lemma_group_provenance_from(ds.drop_last(), k, q);
        let j = choose|j: int| 0 <= j < ds.drop_last().len() && draft_key(#[trigger] ds.drop_last()[j]) == k
            && ds.drop_last()[j].provenance == q;
        assert(ds[j] == ds.drop_last()[j]);
    } else {
        let x = choose|x: int| 0 <= x < group_provenance(ds, k).len() && group_provenance(ds, k)[x] == q;
        assert(draft_key(ds.last()) == k && !g.contains(ds.last().provenance));
        assert(x == g.len());
        assert(draft_key(ds[ds.len() - 1]) == k);
    }
}

/// Merging keeps every source: each draft's provenance stays on the
/// evidence of its key, every evidence has at least one provenance record,
/// and each record is that of a draft merged into it.
pub proof fn lemma_merge_keeps_sources(ds: Seq<DraftView>, es: Seq<EvidenceView>)
    requires
        is_merge_of(ds, es),
    ensures
        forall|j: int| 0 <= j < ds.len() ==> exists|i: int|
            0 <= i < es.len() && evidence_key(es[i]) == draft_key(ds[j])
                && (#[trigger] es[i].provenance).contains((#[trigger] ds[j]).provenance),
        forall|i: int| 0 <= i < es.len() ==> (#[trigger] es[i]).provenance.len() >= 1,
        forall|i: int, p: int| 0 <= i < es.len() && 0 <= p < es[i].provenance.len() ==> exists|j: int|
            0 <= j < ds.len() && draft_key(#[trigger] ds[j]) == evidence_key(es[i])
                && ds[j].provenance == (#[trigger] es[i].provenance[p]),
{
    assert forall|j: int| 0 <= j < ds.len() implies exists|i: int|
        0 <= i < es.len() && evidence_key(es[i]) == draft_key(ds[j])
            && (#[trigger] es[i].provenance).contains((#[trigger] ds[j]).provenance) by {
        let i = choose|i: int| 0 <= i < es.len() && evidence_key(#[trigger] es[i]) == draft_key(ds[j]);
        assert(merged_entry(ds, es, i));
        lemma_group_provenance_has(ds, draft_key(ds[j]), j);
    }
    assert forall|i: int| 0 <= i < es.len() implies (#[trigger] es[i]).provenance.len() >= 1 by {
        assert(merged_entry(ds, es, i));
        let k = evidence_key(es[i]);
        lemma_group_first_key(ds, k);
        let f = group_first(ds, k)->0;
        lemma_group_provenance_has(ds, k, f);
    }
    assert forall|i: int, p: int| 0 <= i < es.len() && 0 <= p < es[i].provenance.len() implies exists|j: int|
        0 <= j < ds.len() && draft_key(#[trigger] ds[j]) == evidence_key(es[i])
            && ds[j].provenance == (#[trigger] es[i].provenance[p]) by {
        assert(merged_entry(ds, es, i));
        let k = evidence_key(es[i]);
        assert(group_provenance(ds, k).contains(es[i].provenance[p]));
        lemma_group_provenance_from(ds, k, es[i].provenance[p]);
    }
}

pub open spec fn keys_of(es: Seq<EvidenceView>) -> Seq<(nat, Seq<char>)> {
    Seq::new(es.len(), |i: int| evidence_key(es[i]))
}

pub open spec fn key_order_fn() -> spec_fn((nat, Seq<char>), (nat, Seq<char>)) -> bool {
    |a: (nat, Seq<char>), b: (nat, Seq<char>)| key_lt(a, b)
}

/// The merge of the drafts is determined by the drafts.
pub proof fn lemma_merge_unique(ds: Seq<DraftView>, a: Seq<EvidenceView>, b: Seq<EvidenceView>)
    requires
        is_merge_of(ds, a),
        is_merge_of(ds, b),
    ensures
        a == b,
{
    let ka = keys_of(a);
    let kb = keys_of(b);
    let f = key_order_fn();
    assert forall|x: (nat, Seq<char>), y: (nat, Seq<char>)| #[trigger] f(x, y) implies !f(y, x) by {
        lemma_key_order(x, y, x);
    }
    assert forall|i: int, j: int| 0 <= i < j < ka.len() implies f(#[trigger] ka[i], #[trigger] ka[j]) by {
        assert(key_lt(evidence_key(a[i]), evidence_key(a[j])));
    }
    assert forall|i: int, j: int| 0 <= i < j < kb.len() implies f(#[trigger] kb[i], #[trigger] kb[j]) by {
        assert(key_lt(evidence_key(b[i]), evidence_key(b[j])));
    }
    assert forall|i: int, j: int| 0 <= i < ka.len() && 0 <= j < ka.len() && i != j implies ka[i] != ka[j] by {
        lemma_key_order(ka[i], ka[i], ka[i]);
        if i < j { assert(f(ka[i], ka[j])); } else { assert(f(ka[j], ka[i])); }
    }
    assert forall|i: int, j: int| 0 <= i < kb.len() && 0 <= j < kb.len() && i != j implies kb[i] != kb[j] by {
        lemma_key_order(kb[i], kb[i], kb[i]);
        if i < j { assert(f(kb[i], kb[j])); } else { assert(f(kb[j], kb[i])); }
    }
    assert forall|k: (nat, Seq<char>)| ka.contains(k) implies kb.contains(k) by {
        let i = choose|i: int| 0 <= i < ka.len() && ka[i] == k;
        assert(merged_entry(ds, a, i));
        lemma_group_first_key(ds, k);
        let g = group_first(ds, k)->0;
        let j = choose|j: int| 0 <= j < b.len() && evidence_key(#[trigger] b[j]) == draft_key(ds[g]);
        assert(kb[j] == k);
    }
    assert forall|k: (nat, Seq<char>)| kb.contains(k) implies ka.contains(k) by {
        let i = choose|i: int| 0 <= i < kb.len() && kb[i] == k;
        assert(merged_entry(ds, b, i));
        lemma_group_first_key(ds, k);
        let g = group_first(ds, k)->0;
        let j = choose|j: int| 0 <= j < a.len() && evidence_key(#[trigger] a[j]) == draft_key(ds[g]);
        assert(ka[j] == k);
    }
    crate::order::lemma_same_elements_same_multiset(ka, kb);
    crate::order::lemma_sorted_unique(ka, kb, f);
    assert forall|i: int| 0 <= i < a.len() implies #[trigger] a[i] == b[i] by {
        assert(ka[i] == kb[i]);
        assert(merged_entry(ds, a, i));
        assert(merged_entry(ds, b, i));
        assert(a[i].related =~= b[i].related);
    }
    assert(a =~= b);
}

/// The shape of a merge: identifiers 1, 2, … in order, no relations, at
/// least one source each, keys strictly increasing so that no two entries
/// share one, and one entry for each distinct key of the drafts.
pub proof fn lemma_merge_shape(ds: Seq<DraftView>, es: Seq<EvidenceView>)
    requires
        is_merge_of(ds, es),
    ensures
        forall|i: int| 0 <= i < es.len() ==> (#[trigger] es[i]).id == i + 1 && es[i].related.len() == 0
            && es[i].provenance.len() >= 1,
        forall|i: int, j: int| 0 <= i < j < es.len() ==> key_lt(evidence_key(#[trigger] es[i]), evidence_key(#[trigger] es[j])),
        forall|i: int, j: int| 0 <= i < j < es.len() ==> evidence_key(#[trigger] es[i]) != evidence_key(#[trigger] es[j]),
        forall|i: int| 0 <= i < es.len() ==> exists|j: int| 0 <= j < ds.len() && #[trigger] draft_key(ds[j]) == evidence_key(#[trigger] es[i]),
        forall|j: int| 0 <= j < ds.len() ==> exists|i: int| 0 <= i < es.len() && #[trigger] evidence_key(es[i]) == #[trigger] draft_key(ds[j]),
{
    lemma_merge_keeps_sources(ds, es);
    assert forall|i: int| 0 <= i < es.len() implies (#[trigger] es[i]).id == i + 1 && es[i].related.len() == 0
        && es[i].provenance.len() >= 1 by {
        assert(merged_entry(ds, es, i));
    }
    assert forall|i: int, j: int| 0 <= i < j < es.len() implies evidence_key(#[trigger] es[i]) != evidence_key(#[trigger] es[j]) by {
        lemma_key_order(evidence_key(es[i]), evidence_key(es[j]), evidence_key(es[j]));
    }
    assert forall|i: int| 0 <= i < es.len() implies exists|j: int| 0 <= j < ds.len() && #[trigger] draft_key(ds[j]) == evidence_key(#[trigger] es[i]) by {
        assert(merged_entry(ds, es, i));
        let k = evidence_key(es[i]);
        lemma_group_first_key(ds, k);
        let f = group_first(ds, k)->0;
        assert(draft_key(ds[f]) == evidence_key(es[i]));
    }
}

proof fn lemma_group_confidence_bounds(ds: Seq<DraftView>, k: (nat, Seq<char>))
    ensures
        forall|j: int| 0 <= j < ds.len() && draft_key(#[trigger] ds[j]) == k ==> ds[j].confidence <= group_confidence(ds, k),
        group_confidence(ds, k) == 0 || exists|j: int| 0 <= j < ds.len() && draft_key(#[trigger] ds[j]) == k
            && ds[j].confidence == group_confidence(ds, k),
    decreases ds.len(),
{
    if ds.len() > 0 {
        let d = ds.drop_last();
        lemma_group_confidence_bounds(d, k);
        assert forall|j: int| 0 <= j < d.len() implies #[trigger] d[j] == ds[j] by {}
        if group_confidence(ds, k) != 0 && group_confidence(ds, k) == group_confidence(d, k) {
            let j = choose|j: int| 0 <= j < d.len() && draft_key(#[trigger] d[j]) == k && d[j].confidence == group_confidence(d, k);
            assert(ds[j] == d[j]);
        }
        if group_confidence(ds, k) != group_confidence(d, k) {
            assert(draft_key(ds[ds.len() - 1]) == k);
        }
        assert forall|j: int| 0 <= j < ds.len() && draft_key(#[trigger] ds[j]) == k implies ds[j].confidence <= group_confidence(ds, k) by {
            assert(group_confidence(d, k) <= group_confidence(ds, k));
            if j < d.len() {
                assert(draft_key(d[j]) == k);
            }
        }
    }
}

proof fn lemma_group_sensitivity_bounds(ds: Seq<DraftView>, k: (nat, Seq<char>))
    ensures
        forall|j: int| 0 <= j < ds.len() && draft_key(#[trigger] ds[j]) == k
            ==> sensitivity_rank(ds[j].sensitivity) <= sensitivity_rank(group_sensitivity(ds, k)),
        group_sensitivity(ds, k) == Sensitivity::Public || exists|j: int| 0 <= j < ds.len() && draft_key(#[trigger] ds[j]) == k
            && ds[j].sensitivity == group_sensitivity(ds, k),
    decreases ds.len(),
{
    if ds.len() > 0 {
        let d = ds.drop_last();
        lemma_group_sensitivity_bounds(d, k);
        assert forall|j: int| 0 <= j < d.len() implies #[trigger] d[j] == ds[j] by {}
        if group_sensitivity(ds, k) != Sensitivity::Public && group_sensitivity(ds, k) == group_sensitivity(d, k) {
            let j = choose|j: int| 0 <= j < d.len() && draft_key(#[trigger] d[j]) == k && d[j].sensitivity == group_sensitivity(d, k);
            assert(ds[j] == d[j]);
        }
        if group_sensitivity(ds, k) != group_sensitivity(d, k) {
            assert(draft_key(ds[ds.len() - 1]) == k);
        }
        assert forall|j: int| 0 <= j < ds.len() && draft_key(#[trigger] ds[j]) == k implies sensitivity_rank(ds[j].sensitivity)
            <= sensitivity_rank(group_sensitivity(ds, k)) by {
            assert(sensitivity_rank(group_sensitivity(d, k)) <= sensitivity_rank(group_sensitivity(ds, k)));
            if j < d.len() {
                assert(draft_key(d[j]) == k);
            }
        }
    }
}

/// Where a draft of one list stands, an equal draft stands in any
/// rearrangement of it.
proof fn lemma_draft_moves(ds1: Seq<DraftView>, ds2: Seq<DraftView>, j: int) -> (i: int)
    requires
        ds1.to_multiset() == ds2.to_multiset(),
        0 <= j < ds1.len(),
    ensures
        0 <= i < ds2.len(),
        ds2[i] == ds1[j],
{
    assert(ds1.contains(ds1[j]));
    vstd::seq_lib::to_multiset_contains(ds1, ds1[j]);
    vstd::seq_lib::to_multiset_contains(ds2, ds1[j]);
    choose|i: int| 0 <= i < ds2.len() && ds2[i] == ds1[j]
}

/// Merging drafts in another order gives, position by position, the same
/// identifier, kind, key (so the same lower-case value), confidence,
/// sensitivity and set of sources; only which spelling of the value is kept
/// and the order of the sources may differ.
pub proof fn lemma_merge_order_independent(ds1: Seq<DraftView>, ds2: Seq<DraftView>, a: Seq<EvidenceView>, b: Seq<EvidenceView>)
    requires
        ds1.to_multiset() == ds2.to_multiset(),
        is_merge_of(ds1, a),
        is_merge_of(ds2, b),
    ensures
        a.len() == b.len(),
        forall|i: int| 0 <= i < a.len() ==> {
            &&& (#[trigger] a[i]).id == b[i].id
            &&& a[i].kind == b[i].kind
            &&& evidence_key(a[i]) == evidence_key(b[i])
            &&& a[i].confidence == b[i].confidence
            &&& a[i].sensitivity == b[i].sensitivity
            &&& forall|q: ProvenanceView| a[i].provenance.contains(q) <==> b[i].provenance.contains(q)
        },
{
    let ka = keys_of(a);
    let kb = keys_of(b);
    let f = key_order_fn();
    assert forall|x: (nat, Seq<char>), y: (nat, Seq<char>)| #[trigger] f(x, y) implies !f(y, x) by {
        lemma_key_order(x, y, x);
    }
    assert forall|i: int, j: int| 0 <= i < j < ka.len() implies f(#[trigger] ka[i], #[trigger] ka[j]) by {
        assert(key_lt(evidence_key(a[i]), evidence_key(a[j])));
    }
    assert forall|i: int, j: int| 0 <= i < j < kb.len() implies f(#[trigger] kb[i], #[trigger] kb[j]) by {
        assert(key_lt(evidence_key(b[i]), evidence_key(b[j])));
    }
    assert forall|i: int, j: int| 0 <= i < ka.len() && 0 <= j < ka.len() && i != j implies ka[i] != ka[j] by {
        lemma_key_order(ka[i], ka[i], ka[i]);
        if i < j { assert(f(ka[i], ka[j])); } else { assert(f(ka[j], ka[i])); }
    }
    assert forall|i: int, j: int| 0 <= i < kb.len() && 0 <= j < kb.len() && i != j implies kb[i] != kb[j] by {
        lemma_key_order(kb[i], kb[i], kb[i]);
        if i < j { assert(f(kb[i], kb[j])); } else { assert(f(kb[j], kb[i])); }
    }
    assert forall|k: (nat, Seq<char>)| ka.contains(k) implies kb.contains(k) by {
        let i = choose|i: int| 0 <= i < ka.len() && ka[i] == k;
        assert(merged_entry(ds1, a, i));
        lemma_group_first_key(ds1, k);
        let g = group_first(ds1, k)->0;
        let g2 = lemma_draft_moves(ds1, ds2, g);
        let j = choose|j: int| 0 <= j < b.len() && evidence_key(#[trigger] b[j]) == draft_key(ds2[g2]);
        assert(kb[j] == k);
    }
    assert forall|k: (nat, Seq<char>)| kb.contains(k) implies ka.contains(k) by {
        let i = choose|i: int| 0 <= i < kb.len() && kb[i] == k;
        assert(merged_entry(ds2, b, i));
        lemma_group_first_key(ds2, k);
        let g = group_first(ds2, k)->0;
        let g1 = lemma_draft_moves(ds2, ds1, g);
        let j = choose|j: int| 0 <= j < a.len() && evidence_key(#[trigger] a[j]) == draft_key(ds1[g1]);
        assert(ka[j] == k);
    }
    crate::order::lemma_same_elements_same_multiset(ka, kb);
    crate::order::lemma_sorted_unique(ka, kb, f);
    assert forall|i: int| 0 <= i < a.len() implies {
        &&& (#[trigger] a[i]).id == b[i].id
        &&& a[i].kind == b[i].kind
        &&& evidence_key(a[i]) == evidence_key(b[i])
        &&& a[i].confidence == b[i].confidence
        &&& a[i].sensitivity == b[i].sensitivity
        &&& forall|q: ProvenanceView| a[i].provenance.contains(q) <==> b[i].provenance.contains(q)
    } by {
        assert(ka[i] == kb[i]);
        let k = evidence_key(a[i]);
        assert(merged_entry(ds1, a, i));
        assert(merged_entry(ds2, b, i));
        assert(kind_rank(a[i].kind) == kind_rank(b[i].kind));
        lemma_group_confidence_bounds(ds1, k);
        lemma_group_confidence_bounds(ds2, k);
        if group_confidence(ds1, k) != 0 {
            let j = choose|j: int| 0 <= j < ds1.len() && draft_key(#[trigger] ds1[j]) == k && ds1[j].confidence == group_confidence(ds1, k);
            let j2 = lemma_draft_moves(ds1, ds2, j);
            assert(draft_key(ds2[j2]) == k);
        }
        if group_confidence(ds2, k) != 0 {
            let j = choose|j: int| 0 <= j < ds2.len() && draft_key(#[trigger] ds2[j]) == k && ds2[j].confidence == group_confidence(ds2, k);
            let j1 = lemma_draft_moves(ds2, ds1, j);
            assert(draft_key(ds1[j1]) == k);
        }
        lemma_group_sensitivity_bounds(ds1, k);
        lemma_group_sensitivity_bounds(ds2, k);
        if group_sensitivity(ds1, k) != Sensitivity::Public {
            let j = choose|j: int| 0 <= j < ds1.len() && draft_key(#[trigger] ds1[j]) == k && ds1[j].sensitivity == group_sensitivity(ds1, k);
            let j2 = lemma_draft_moves(ds1, ds2, j);
            assert(draft_key(ds2[j2]) == k);
        }
        if group_sensitivity(ds2, k) != Sensitivity::Public {
            let j = choose|j: int| 0 <= j < ds2.len() && draft_key(#[trigger] ds2[j]) == k && ds2[j].sensitivity == group_sensitivity(ds2, k);
            let j1 = lemma_draft_moves(ds2, ds1, j);
            assert(draft_key(ds1[j1]) == k);
        }
        assert forall|q: ProvenanceView| a[i].provenance.contains(q) <==> b[i].provenance.contains(q) by {
            if a[i].provenance.contains(q) {
                lemma_group_provenance_from(ds1, k, q);
                let j = choose|j: int| 0 <= j < ds1.len() && draft_key(#[trigger] ds1[j]) == k && ds1[j].provenance == q;
                let j2 = lemma_draft_moves(ds1, ds2, j);
                lemma_group_provenance_has(ds2, k, j2);
            }
            if b[i].provenance.contains(q) {
                lemma_group_provenance_from(ds2, k, q);
                let j = choose|j: int| 0 <= j < ds2.len() && draft_key(#[trigger] ds2[j]) == k && ds2[j].provenance == q;
                let j1 = lemma_draft_moves(ds2, ds1, j);
                lemma_group_provenance_has(ds1, k, j1);
            }
        }
    }
}

proof fn lemma_scan_after_white(a: Seq<char>, w: Seq<char>)
    requires
        w.len() > 0,
        forall|i: int| 0 <= i < w.len() ==> text::white_space(#[trigger] w[i]),
    ensures
        word_scan(a + w) == (words(a), Seq::<char>::empty()),
    decreases w.len(),
{
    let s = a + w;
    if w.len() == 1 {
        assert(s.drop_last() =~= a);
        assert(s.last() == w[0]);
    } else {
        let w0 = w.drop_last();
        assert forall|i: int| 0 <= i < w0.len() implies text::white_space(#[trigger] w0[i]) by {
            assert(w0[i] == w[i]);
        }
        lemma_scan_after_white(a, w0);
        assert(s.drop_last() =~= a + w0);
        assert(s.last() == w[w.len() - 1]);
    }
}

proof fn lemma_scan_from_boundary(p: Seq<char>, b: Seq<char>)
    requires
        word_scan(p).1.len() == 0,
    ensures
        word_scan(p + b) == (word_scan(p).0 + word_scan(b).0, word_scan(b).1),
    decreases b.len(),
{
    if b.len() == 0 {
        assert(p + b =~= p);
        assert(word_scan(p).0 + Seq::<Seq<char>>::empty() =~= word_scan(p).0);
    } else {
        let b0 = b.drop_last();
        lemma_scan_from_boundary(p, b0);
        assert((p + b).drop_last() =~= p + b0);
        assert((p + b).last() == b.last());
        let (ws, cur) = word_scan(b0);
        if text::white_space(b.last()) && cur.len() > 0 {
            assert((word_scan(p).0 + ws).push(cur) =~= word_scan(p).0 + ws.push(cur));
        }
    }
}

proof fn lemma_words_of_white(w: Seq<char>)
    requires
        forall|i: int| 0 <= i < w.len() ==> text::white_space(#[trigger] w[i]),
    ensures
        word_scan(w) == (Seq::<Seq<char>>::empty(), Seq::<char>::empty()),
    decreases w.len(),
{
    if w.len() > 0 {
        let w0 = w.drop_last();
        assert forall|i: int| 0 <= i < w0.len() implies text::white_space(#[trigger] w0[i]) by {
            assert(w0[i] == w[i]);
        }
        lemma_words_of_white(w0);
        assert(text::white_space(w[w.len() - 1]));
    }
}

proof fn lemma_words_of_word(x: Seq<char>)
    requires
        forall|i: int| 0 <= i < x.len() ==> !text::white_space(#[trigger] x[i]),
    ensures
        word_scan(x) == (Seq::<Seq<char>>::empty(), x),
    decreases x.len(),
{
    if x.len() > 0 {
        let x0 = x.drop_last();
        assert forall|i: int| 0 <= i < x0.len() implies !text::white_space(#[trigger] x0[i]) by {
            assert(x0[i] == x[i]);
        }
        lemma_words_of_word(x0);
        assert(!text::white_space(x[x.len() - 1]));
        assert(x0.push(x.last()) =~= x);
    }
}

proof fn lemma_join_concat(x: Seq<Seq<char>>, y: Seq<Seq<char>>)
    requires
        x.len() > 0,
        y.len() > 0,
    ensures
        join_words(x + y) == join_words(x) + seq![' '] + join_words(y),
    decreases y.len(),
{
    if y.len() == 1 {
        assert((x + y).drop_last() =~= x);
        assert((x + y).last() == y[0]);
    } else {
        let y0 = y.drop_last();
        lemma_join_concat(x, y0);
        assert((x + y).drop_last() =~= x + y0);
        assert((x + y).last() == y.last());
        assert(join_words(x) + seq![' '] + join_words(y0) + seq![' '] + y.last()
            =~= join_words(x) + seq![' '] + (join_words(y0) + seq![' '] + y.last()));
    }
}

proof fn lemma_words_nonempty(s: Seq<char>)
    ensures
        forall|i: int| 0 <= i < words(s).len() ==> (#[trigger] words(s)[i]).len() > 0,
        (collapse_whitespace(s).len() == 0) == (words(s).len() == 0),
{
    lemma_word_scan_nonempty(s);
    let (ws, cur) = word_scan(s);
    assert forall|i: int| 0 <= i < words(s).len() implies (#[trigger] words(s)[i]).len() > 0 by {
        if i < ws.len() {
            assert(words(s)[i] == ws[i]);
        }
    }
    lemma_join_words_empty(words(s));
}

/// Collapsing white space, stated by how it acts on pieces of text: a run of
/// white space (as Unicode defines it) collapses to nothing; a word, which
/// holds none, stays as it is; and text split by a non-empty run of white
/// space collapses to its two sides joined by one space, where both sides
/// hold a word.
pub proof fn lemma_collapse_whitespace_laws(a: Seq<char>, w: Seq<char>, b: Seq<char>, x: Seq<char>)
    ensures
        (forall|i: int| 0 <= i < w.len() ==> text::white_space(#[trigger] w[i])) ==> collapse_whitespace(w)
            == Seq::<char>::empty(),
        (forall|i: int| 0 <= i < x.len() ==> !text::white_space(#[trigger] x[i])) ==> collapse_whitespace(x) == x,
        w.len() > 0 && (forall|i: int| 0 <= i < w.len() ==> text::white_space(#[trigger] w[i]))
            ==> collapse_whitespace(a + w + b) == if collapse_whitespace(a).len() == 0 {
                collapse_whitespace(b)
            } else if collapse_whitespace(b).len() == 0 {
                collapse_whitespace(a)
            } else {
                collapse_whitespace(a) + seq![' '] + collapse_whitespace(b)
            },
{
    if forall|i: int| 0 <= i < w.len() ==> text::white_space(#[trigger] w[i]) {
        lemma_words_of_white(w);
        if w.len() > 0 {
            lemma_scan_after_white(a, w);
            lemma_scan_from_boundary(a + w, b);
            lemma_words_nonempty(a);
            lemma_words_nonempty(b);
            let wa = words(a);
            let (bws, bcur) = word_scan(b);
            let all = words(a + w + b);
            assert(all == wa + words(b)) by {
                if bcur.len() > 0 {
                    assert((wa + bws).push(bcur) =~= wa + bws.push(bcur));
                }
            }
            if wa.len() == 0 {
                assert(wa + words(b) =~= words(b));
            } else if words(b).len() == 0 {
                assert(wa + words(b) =~= wa);
            } else {
                lemma_join_concat(wa, words(b));
            }
        }
    }
    if forall|i: int| 0 <= i < x.len() ==> !text::white_space(#[trigger] x[i]) {
        lemma_words_of_word(x);
        if x.len() > 0 {
            assert(words(x) == seq![x]);
        } else {
            assert(words(x) =~= Seq::<Seq<char>>::empty());
        }
    }
}

} // verus!
