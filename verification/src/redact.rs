//! Redaction of credentials, JSON web tokens and e-mail addresses in evidence values.
use vstd::prelude::*;
use crate::model::{
    Evidence, EvidenceView, Sensitivity, Transformation, TransformationView, evidence_views,
    transformation_views,
};
use crate::patterns;
use crate::spans::{self, splice_chars, to_char_spans};
use crate::text::{self, append_str, chars_eq, chars_of, string_of};

verus! {

/// The characters of an optional byte span of `v`.
pub open spec fn group_text(v: Seq<char>, g: Option<(usize, usize)>) -> Seq<char> {
    match g {
        Some(s) => v.subrange(spans::char_index(v, s.0 as int), spans::char_index(v, s.1 as int)),
        None => Seq::empty(),
    }
}

/// What each credential match is replaced by: its name and a marker.
pub open spec fn credential_replacements(v: Seq<char>, m: Seq<(usize, usize, Option<(usize, usize)>)>) -> Seq<
    Seq<char>,
> {
    Seq::new(m.len(), |i: int| group_text(v, m[i].2) + "=[REDACTED:CREDENTIAL]"@)
}

/// `v` with the credential assignments at `m` replaced by
/// `name=[REDACTED:CREDENTIAL]`.
pub open spec fn credentials_replaced(v: Seq<char>, m: Seq<(usize, usize, Option<(usize, usize)>)>) -> Seq<char> {
    spans::splice(
        v,
        spans::char_span_seq(v, patterns::outer_spans(m)),
        credential_replacements(v, m),
    )
}

/// `v` with each credential assignment replaced by `name=[REDACTED:CREDENTIAL]`.
pub open spec fn redact_credentials(v: Seq<char>) -> Seq<char> {
    credentials_replaced(v, patterns::credential_matches(v))
}

/// `n` copies of a replacement.
pub open spec fn constant_replacements(n: nat, rep: Seq<char>) -> Seq<Seq<char>> {
    Seq::new(n, |i: int| rep)
}

/// `v` with each span of `m` replaced by `rep`.
pub open spec fn spans_replaced(v: Seq<char>, m: Seq<(usize, usize)>, rep: Seq<char>) -> Seq<char> {
    spans::splice(v, spans::char_span_seq(v, m), constant_replacements(m.len(), rep))
}

/// `v` with each JSON web token replaced by `[REDACTED:JWT]`.
pub open spec fn redact_jwts(v: Seq<char>) -> Seq<char> {
    spans_replaced(v, patterns::jwt_matches(v), "[REDACTED:JWT]"@)
}

/// `v` with each e-mail address replaced by `[REDACTED:EMAIL]`.
pub open spec fn redact_emails(v: Seq<char>) -> Seq<char> {
    spans_replaced(v, patterns::email_matches(v), "[REDACTED:EMAIL]"@)
}

/// The three redactions in order: credentials, then tokens, then addresses.
pub open spec fn redacted_value(v: Seq<char>) -> Seq<char> {
    redact_emails(redact_jwts(redact_credentials(v)))
}

/// A piece of evidence after redaction: where its value changed, the new
/// value, marked secret.
pub open spec fn redacted_evidence(e: EvidenceView) -> EvidenceView {
    let r = redacted_value(e.value);
    if r != e.value {
        EvidenceView { value: r, sensitivity: Sensitivity::Secret, ..e }
    } else {
        e
    }
}

/// How many credentials, tokens and addresses the redaction of `v` replaces.
pub open spec fn redaction_counts(v: Seq<char>) -> (nat, nat, nat) {
    let c = redact_credentials(v);
    (
        patterns::credential_matches(v).len(),
        patterns::jwt_matches(c).len(),
        patterns::email_matches(redact_jwts(c)).len(),
    )
}

/// Totals of the counts over a sequence of evidence.
pub open spec fn redaction_totals(es: Seq<EvidenceView>) -> (nat, nat, nat)
    decreases es.len(),
{
    if es.len() == 0 {
        (0, 0, 0)
    } else {
        let t = redaction_totals(es.drop_last());
        let c = redaction_counts(es.last().value);
        (t.0 + c.0, t.1 + c.1, t.2 + c.2)
    }
}

/// A total as a `usize`, saturating at its maximum.
pub open spec fn saturate(n: nat) -> usize {
    if n > usize::MAX {
        usize::MAX
    } else {
        n as usize
    }
}

/// One transformation for each kind of redaction that replaced something.
pub open spec fn redaction_transformations(es: Seq<EvidenceView>) -> Seq<TransformationView> {
    let t = redaction_totals(es);
    let a = if t.0 > 0 {
        seq![
            TransformationView {
                kind: "credential_redacted"@,
                detail: "Credential-like values redacted"@,
                count: saturate(t.0),
            },
        ]
    } else {
        Seq::empty()
    };
    let b = if t.1 > 0 {
        seq![
            TransformationView {
                kind: "jwt_redacted"@,
                detail: "JWT-like values redacted"@,
                count: saturate(t.1),
            },
        ]
    } else {
        Seq::empty()
    };
    let c = if t.2 > 0 {
        seq![
            TransformationView {
                kind: "email_redacted"@,
                detail: "Email addresses redacted"@,
                count: saturate(t.2),
            },
        ]
    } else {
        Seq::empty()
    };
    a + b + c
}

/// The characters of the byte span `(s, e)` of `v`.
fn span_text(v: &Vec<char>, s: usize, e: usize) -> (r: Vec<char>)
    requires
        s <= e,
        spans::is_boundary(v@, s as int),
        spans::is_boundary(v@, e as int),
    ensures
        r@ == group_text(v@, Some((s, e))),
{
    let mut one: Vec<(usize, usize)> = Vec::new();
    one.push((s, e));
    assert(one@[0] == (s, e));
    assert(spans::spans_well_formed(v@, one@));
    let cs = to_char_spans(v, &one);
    assert(cs@[0] == spans::char_span_seq(v@, one@)[0]);
    proof {
        let ka = spans::char_index(v@, s as int);
        let kb = spans::char_index(v@, e as int);
        assert(0 <= ka <= v@.len());
        assert(0 <= kb <= v@.len());
        spans::lemma_boundary_unique(v@, cs@[0].0 as int, ka);
        spans::lemma_boundary_unique(v@, cs@[0].1 as int, kb);
    }
    let (a, b) = cs[0];
    text::slice_chars(v, a, b)
}

/// `v` with its credentials redacted, and how many there were.
fn redact_credential_chars(s: &String) -> (r: (Vec<char>, usize))
    ensures
        r.0@ == redact_credentials(s@),
        r.1 == patterns::credential_matches(s@).len(),
{
    let m = patterns::find_credentials(s.as_str());
    (replace_credentials(s.as_str(), &m), m.len())
}

/// A text with the credential assignments at the byte spans `m` (each with
/// the span of its name) replaced by `name=[REDACTED:CREDENTIAL]`.
pub fn replace_credentials(s: &str, m: &Vec<(usize, usize, Option<(usize, usize)>)>) -> (r: Vec<char>)
    requires
        spans::spans_well_formed(s@, patterns::outer_spans(m@)),
        patterns::groups_well_formed(s@, m@),
    ensures
        r@ == credentials_replaced(s@, m@),
{
    let v = chars_of(s);
    let mut outer: Vec<(usize, usize)> = Vec::new();
    let mut reps: Vec<Vec<char>> = Vec::new();
    let mut i: usize = 0;
    while i < m.len()
        invariant
            i <= m.len(),
            v@ == s@,
            spans::spans_well_formed(s@, patterns::outer_spans(m@)),
            patterns::groups_well_formed(s@, m@),
            outer@ == patterns::outer_spans(m@).take(i as int),
            reps@.len() == i,
            forall|k: int| 0 <= k < i ==> (#[trigger] reps@[k])@ == credential_replacements(s@, m@)[k],
        decreases m.len() - i,
    {
        let (a, b, g) = m[i];
        outer.push((a, b));
        assert(outer@ =~= patterns::outer_spans(m@).take(i as int + 1));
        assert(m@[i as int] == (a, b, g));
        let mut rep: Vec<char> = match g {
            Some((gs, ge)) => span_text(&v, gs, ge),
            None => Vec::new(),
        };
        append_str(&mut rep, "=[REDACTED:CREDENTIAL]");
        reps.push(rep);
        i = i + 1;
    }
    assert(patterns::outer_spans(m@).take(i as int) =~= patterns::outer_spans(m@));
    let cs = to_char_spans(&v, &outer);
    assert(text::views(reps@) =~= credential_replacements(s@, m@));
    splice_chars(&v, &cs, &reps)
}

/// `n` copies of a replacement.
fn constant_chars(n: usize, rep: &str) -> (r: Vec<Vec<char>>)
    ensures
        r@.len() == n,
        text::views(r@) == constant_replacements(n as nat, rep@),
{
    let mut r: Vec<Vec<char>> = Vec::new();
    let mut i: usize = 0;
    while i < n
        invariant
            i <= n,
            r@.len() == i,
            forall|k: int| 0 <= k < i ==> (#[trigger] r@[k])@ == rep@,
        decreases n - i,
    {
        r.push(chars_of(rep));
        i = i + 1;
    }
    assert(text::views(r@) =~= constant_replacements(n as nat, rep@));
    r
}

/// `s` with its JSON web tokens redacted, and how many there were.
fn redact_jwt_chars(s: &String) -> (r: (Vec<char>, usize))
    ensures
        r.0@ == redact_jwts(s@),
        r.1 == patterns::jwt_matches(s@).len(),
{
    let m = patterns::find_jwts(s.as_str());
    (replace_spans(s.as_str(), &m, "[REDACTED:JWT]"), m.len())
}

/// `s` with its e-mail addresses redacted, and how many there were.
fn redact_email_chars(s: &String) -> (r: (Vec<char>, usize))
    ensures
        r.0@ == redact_emails(s@),
        r.1 == patterns::email_matches(s@).len(),
{
    let m = patterns::find_emails(s.as_str());
    (replace_spans(s.as_str(), &m, "[REDACTED:EMAIL]"), m.len())
}

/// A text with each of the byte spans `m` replaced by `rep`.
pub fn replace_spans(s: &str, m: &Vec<(usize, usize)>, rep: &str) -> (r: Vec<char>)
    requires
        spans::spans_well_formed(s@, m@),
    ensures
        r@ == spans_replaced(s@, m@, rep@),
{
    let v = chars_of(s);
    let cs = to_char_spans(&v, m);
    let reps = constant_chars(m.len(), rep);
    splice_chars(&v, &cs, &reps)
}

proof fn lemma_saturating_step(total: nat, add: nat, acc: usize, a: usize)
    requires
        acc == saturate(total),
        a == add,
    ensures
        acc.saturating_add(a) == saturate(total + add),
{
}

/// Redacts credential assignments, JSON web tokens and e-mail addresses in
/// every evidence value, marks changed evidence secret, and reports one
/// transformation per kind of redaction that replaced something.
pub fn redact_evidence(evidence: &mut Vec<Evidence>) -> (r: Vec<Transformation>)
    ensures
        evidence_views(final(evidence)@) == Seq::new(
            old(evidence)@.len(),
            |i: int| redacted_evidence(old(evidence)@[i]@),
        ),
        transformation_views(r@) == redaction_transformations(evidence_views(old(evidence)@)),
{
    let ghost es = evidence_views(evidence@);
    let mut credentials: usize = 0;
    let mut jwts: usize = 0;
    let mut emails: usize = 0;
    let mut i: usize = 0;
    while i < evidence.len()
        invariant
            i <= evidence@.len(),
            evidence@.len() == es.len(),
            forall|k: int| 0 <= k < i ==> (#[trigger] evidence@[k])@ == redacted_evidence(es[k]),
            forall|k: int| i <= k < es.len() ==> (#[trigger] evidence@[k])@ == es[k],
            credentials == saturate(redaction_totals(es.take(i as int)).0),
            jwts == saturate(redaction_totals(es.take(i as int)).1),
            emails == saturate(redaction_totals(es.take(i as int)).2),
        decreases es.len() - i,
    {
        let ghost e = es[i as int];
        assert(evidence@[i as int]@ == e);
        let (c, nc) = redact_credential_chars(&evidence[i].value);
        let cs = string_of(&c);
        let (j, nj) = redact_jwt_chars(&cs);
        let js = string_of(&j);
        let (m, nm) = redact_email_chars(&js);
        proof {
            let t = es.take(i as int + 1);
            assert(t.drop_last() =~= es.take(i as int));
            assert(t.last() == e);
            lemma_saturating_step(redaction_totals(es.take(i as int)).0, nc as nat, credentials, nc);
            lemma_saturating_step(redaction_totals(es.take(i as int)).1, nj as nat, jwts, nj);
            lemma_saturating_step(redaction_totals(es.take(i as int)).2, nm as nat, emails, nm);
        }
        credentials = credentials.saturating_add(nc);
        jwts = jwts.saturating_add(nj);
        emails = emails.saturating_add(nm);
        let unredacted = chars_of(evidence[i].value.as_str());
        if !chars_eq(&m, &unredacted) {
            let mut item = evidence[i].copy();
            item.value = string_of(&m);
            item.sensitivity = Sensitivity::Secret;
            evidence.set(i, item);
        }
        i = i + 1;
    }
    assert(es.take(i as int) =~= es);
    let mut r: Vec<Transformation> = Vec::new();
    if credentials > 0 {
        r.push(
            Transformation {
                kind: "credential_redacted".to_owned(),
                detail: "Credential-like values redacted".to_owned(),
                count: credentials,
            },
        );
    }
    if jwts > 0 {
        r.push(
            Transformation {
                kind: "jwt_redacted".to_owned(),
                detail: "JWT-like values redacted".to_owned(),
                count: jwts,
            },
        );
    }
    if emails > 0 {
        r.push(
            Transformation {
                kind: "email_redacted".to_owned(),
                detail: "Email addresses redacted".to_owned(),
                count: emails,
            },
        );
    }
    assert(transformation_views(r@) =~= redaction_transformations(es));
    assert(evidence_views(evidence@) =~= Seq::new(es.len(), |k: int| redacted_evidence(es[k])));
    r
}

} // verus!
