//! A stable, case-insensitive fingerprint of the error evidence.
use vstd::prelude::*;
use vstd::utf8::encode_utf8;
use crate::compiler::{self, kind_name};
use crate::model::{Evidence, EvidenceKind, EvidenceView, evidence_views};
use crate::text::{self, append_chars, append_str, lowercase_chars, chars_of, string_of};

verus! {

/// The BLAKE3 digest of a byte sequence.
pub uninterp spec fn blake3_digest(data: Seq<u8>) -> Seq<u8>;

/// Trusted: `blake3::hash`, taken as its 32 bytes (`Hash::as_bytes`). Claims
/// the digest is the one named above and that it has 32 bytes, the length
/// `blake3` documents for `Hash`.
#[verifier::external_body]
pub(crate) fn blake3_hash(data: &[u8]) -> (r: Vec<u8>)
    ensures
        r@ == blake3_digest(data@),
        r@.len() == 32,
{
    blake3::hash(data).as_bytes().to_vec()
}

/// Whether evidence of a kind takes part in the fingerprint.
pub open spec fn fingerprinted_kind(kind: EvidenceKind) -> bool {
    kind == EvidenceKind::Error || kind == EvidenceKind::StackFrame || kind == EvidenceKind::LogExcerpt
}

/// `{kind:?}:{lower-case value}`.
pub open spec fn canonical_entry(e: EvidenceView) -> Seq<char> {
    compiler::kind_label(e.kind) + ":"@ + text::lowercase(e.value)
}

/// The entries of the fingerprinted evidence, joined by newlines.
pub open spec fn canonical_text(es: Seq<EvidenceView>) -> Seq<char>
    decreases es.len(),
{
    if es.len() == 0 {
        Seq::empty()
    } else {
        let before = canonical_text(es.drop_last());
        if !fingerprinted_kind(es.last().kind) {
            before
        } else if !has_fingerprinted(es.drop_last()) {
            canonical_entry(es.last())
        } else {
            before + "\n"@ + canonical_entry(es.last())
        }
    }
}

/// Whether some evidence of `es` takes part in the fingerprint.
pub open spec fn has_fingerprinted(es: Seq<EvidenceView>) -> bool {
    exists|i: int| 0 <= i < es.len() && fingerprinted_kind(#[trigger] es[i].kind)
}

/// The lower-case hexadecimal digit of a value below 16.
pub open spec fn hex_digit(n: nat) -> char {
    seq!['0', '1', '2', '3', '4', '5', '6', '7', '8', '9', 'a', 'b', 'c', 'd', 'e', 'f'][n as int]
}

/// Lower-case hexadecimal form of bytes, two digits each.
pub open spec fn hex_lower(bytes: Seq<u8>) -> Seq<char>
    decreases bytes.len(),
{
    if bytes.len() == 0 {
        Seq::empty()
    } else {
        hex_lower(bytes.drop_last()) + seq![hex_digit((bytes.last() / 16) as nat), hex_digit((bytes.last() % 16) as nat)]
    }
}

/// The fingerprint of evidence: the hexadecimal BLAKE3 digest of the UTF-8
/// bytes of its canonical text.
pub open spec fn fingerprint_of(es: Seq<EvidenceView>) -> Seq<char> {
    hex_lower(blake3_digest(encode_utf8(canonical_text(es))))
}

fn hex_char(n: u8) -> (c: char)
    requires
        n < 16,
    ensures
        c == hex_digit(n as nat),
{
    let digits: [char; 16] = ['0', '1', '2', '3', '4', '5', '6', '7', '8', '9', 'a', 'b', 'c', 'd', 'e', 'f'];
    assert(digits@ =~= seq!['0', '1', '2', '3', '4', '5', '6', '7', '8', '9', 'a', 'b', 'c', 'd', 'e', 'f']);
    digits[n as usize]
}

fn hex_of(bytes: &Vec<u8>) -> (r: Vec<char>)
    ensures
        r@ == hex_lower(bytes@),
        r@.len() == 2 * bytes@.len(),
{
    let mut out: Vec<char> = Vec::new();
    let mut i: usize = 0;
    while i < bytes.len()
        invariant
            i <= bytes.len(),
            out@ == hex_lower(bytes@.take(i as int)),
            out@.len() == 2 * i,
        decreases bytes.len() - i,
    {
        let b = bytes[i];
        out.push(hex_char(b / 16));
        out.push(hex_char(b % 16));
        proof {
            let t = bytes@.take(i as int + 1);
            assert(t.drop_last() =~= bytes@.take(i as int));
            assert(t.last() == b);
            assert(out@ =~= hex_lower(t));
        }
        i = i + 1;
    }
    assert(bytes@.take(i as int) =~= bytes@);
    out
}

/// The canonical text of the fingerprinted evidence.
fn canonical_of(evidence: &[Evidence]) -> (r: Vec<char>)
    ensures
        r@ == canonical_text(evidence_views(evidence@)),
{
    let ghost es = evidence_views(evidence@);
    let mut out: Vec<char> = Vec::new();
    let mut any = false;
    let mut i: usize = 0;
    while i < evidence.len()
        invariant
            i <= evidence.len(),
            es == evidence_views(evidence@),
            out@ == canonical_text(es.take(i as int)),
            any == has_fingerprinted(es.take(i as int)),
        decreases evidence.len() - i,
    {
        let e = &evidence[i];
        let ghost t = es.take(i as int + 1);
        proof {
            assert(t.drop_last() =~= es.take(i as int));
            assert(t.last() == e@);
        }
        let kind = e.kind;
        if kind == EvidenceKind::Error || kind == EvidenceKind::StackFrame || kind == EvidenceKind::LogExcerpt {
            let ghost before = out@;
            if any {
                append_str(&mut out, "\n");
            }
            append_str(&mut out, kind_name(kind));
            append_str(&mut out, ":");
            let value = chars_of(e.value.as_str());
            let lower = lowercase_chars(&value);
            append_chars(&mut out, &lower);
            proof {
                if any {
                    assert(out@ =~= before + "\n"@ + canonical_entry(e@));
                } else {
                    lemma_canonical_empty(es.take(i as int));
                    assert(out@ =~= canonical_entry(e@));
                }
                assert(has_fingerprinted(t)) by {
                    assert(fingerprinted_kind(t[i as int].kind));
                }
                if !any {
                    assert(!has_fingerprinted(es.take(i as int)));
                }
            }
            any = true;
        } else {
            proof {
                if has_fingerprinted(t) {
                    let k = choose|k: int| 0 <= k < t.len() && fingerprinted_kind(#[trigger] t[k].kind);
                    assert(k < i);
                    assert(t[k] == es.take(i as int)[k]);
                }
                if has_fingerprinted(es.take(i as int)) {
                    let k = choose|k: int| 0 <= k < i && fingerprinted_kind(#[trigger] es.take(i as int)[k].kind);
                    assert(t[k] == es.take(i as int)[k]);
                }
            }
        }
        i = i + 1;
    }
    assert(es.take(i as int) =~= es);
    out
}

proof fn lemma_canonical_empty(es: Seq<EvidenceView>)
    requires
        !has_fingerprinted(es),
    ensures
        canonical_text(es) == Seq::<char>::empty(),
    decreases es.len(),
{
    if es.len() > 0 {
        let p = es.drop_last();
        assert(!fingerprinted_kind(es[es.len() - 1].kind));
        if has_fingerprinted(p) {
            let k = choose|k: int| 0 <= k < p.len() && fingerprinted_kind(#[trigger] p[k].kind);
            assert(es[k] == p[k]);
        }
        lemma_canonical_empty(p);
    }
}

/// A stable fingerprint of the error, stack frame and excerpt evidence,
/// insensitive to letter case.
pub fn fingerprint(evidence: &[Evidence]) -> (r: String)
    ensures
        r@ == fingerprint_of(evidence_views(evidence@)),
        r@.len() == 64,
{
    let canonical = string_of(&canonical_of(evidence));
    let digest = blake3_hash(canonical.as_str().as_bytes());
    string_of(&hex_of(&digest))
}

/// Evidence lists that agree on kinds, and on values up to letter case, have
/// the same fingerprint.
pub proof fn lemma_fingerprint_ignores_case(a: Seq<EvidenceView>, b: Seq<EvidenceView>)
    requires
        a.len() == b.len(),
        forall|i: int| 0 <= i < a.len() ==> (#[trigger] a[i]).kind == b[i].kind,
        forall|i: int| 0 <= i < a.len() ==> text::lowercase((#[trigger] a[i]).value) == text::lowercase(b[i].value),
    ensures
        fingerprint_of(a) == fingerprint_of(b),
    decreases a.len(),
{
    lemma_canonical_agrees(a, b);
}

proof fn lemma_canonical_agrees(a: Seq<EvidenceView>, b: Seq<EvidenceView>)
    requires
        a.len() == b.len(),
        forall|i: int| 0 <= i < a.len() ==> (#[trigger] a[i]).kind == b[i].kind,
        forall|i: int| 0 <= i < a.len() ==> text::lowercase((#[trigger] a[i]).value) == text::lowercase(b[i].value),
    ensures
        canonical_text(a) == canonical_text(b),
        has_fingerprinted(a) == has_fingerprinted(b),
    decreases a.len(),
{
    if a.len() > 0 {
        let a0 = a.drop_last();
        let b0 = b.drop_last();
        assert forall|i: int| 0 <= i < a0.len() implies (#[trigger] a0[i]).kind == b0[i].kind by {
            assert(a0[i] == a[i] && b0[i] == b[i]);
        }
        assert forall|i: int| 0 <= i < a0.len() implies text::lowercase((#[trigger] a0[i]).value)
            == text::lowercase(b0[i].value) by {
            assert(a0[i] == a[i] && b0[i] == b[i]);
        }
        lemma_canonical_agrees(a0, b0);
        assert(a.last().kind == b.last().kind);
        assert(text::lowercase(a.last().value) == text::lowercase(b.last().value));
        if has_fingerprinted(a) {
            let k = choose|k: int| 0 <= k < a.len() && fingerprinted_kind(#[trigger] a[k].kind);
            assert(fingerprinted_kind(b[k].kind));
        }
        if has_fingerprinted(b) {
            let k = choose|k: int| 0 <= k < b.len() && fingerprinted_kind(#[trigger] b[k].kind);
            assert(fingerprinted_kind(a[k].kind));
        }
    }
}

proof fn lemma_canonical_insert_other(es: Seq<EvidenceView>, pos: int, e: EvidenceView)
    requires
        0 <= pos <= es.len(),
        !fingerprinted_kind(e.kind),
    ensures
        canonical_text(es.insert(pos, e)) == canonical_text(es),
        has_fingerprinted(es.insert(pos, e)) == has_fingerprinted(es),
    decreases es.len(),
{
    let n = es.insert(pos, e);
    if pos == es.len() {
        assert(n.drop_last() =~= es);
        assert(n.last() == e);
        if has_fingerprinted(n) {
            let i = choose|i: int| 0 <= i < n.len() && fingerprinted_kind(#[trigger] n[i].kind);
            assert(i < es.len());
            assert(n[i] == es[i]);
        }
        if has_fingerprinted(es) {
            let i = choose|i: int| 0 <= i < es.len() && fingerprinted_kind(#[trigger] es[i].kind);
            assert(n[i] == es[i]);
        }
    } else {
        let d = es.drop_last();
        lemma_canonical_insert_other(d, pos, e);
        assert(n.drop_last() =~= d.insert(pos, e));
        assert(n.last() == es.last());
        let nd = d.insert(pos, e);
        if has_fingerprinted(n) {
            let i = choose|i: int| 0 <= i < n.len() && fingerprinted_kind(#[trigger] n[i].kind);
            if i < pos {
                assert(n[i] == es[i]);
            } else if i > pos {
                assert(n[i] == es[i - 1]);
            }
        }
        if has_fingerprinted(es) {
            let i = choose|i: int| 0 <= i < es.len() && fingerprinted_kind(#[trigger] es[i].kind);
            if i < pos {
                assert(n[i] == es[i]);
            } else {
                assert(n[i + 1] == es[i]);
            }
        }
    }
}

/// Evidence of a kind that is not fingerprinted, wherever it stands, does
/// not change the fingerprint.
pub proof fn lemma_fingerprint_ignores_other_kinds(es: Seq<EvidenceView>, pos: int, e: EvidenceView)
    requires
        0 <= pos <= es.len(),
        !fingerprinted_kind(e.kind),
    ensures
        fingerprint_of(es.insert(pos, e)) == fingerprint_of(es),
{
    lemma_canonical_insert_other(es, pos, e);
}

/// Only the kind and value of each piece of evidence count: its identifier,
/// confidence, sensitivity, sources and relations do not change the
/// fingerprint.
pub proof fn lemma_fingerprint_ignores_other_fields(a: Seq<EvidenceView>, b: Seq<EvidenceView>)
    requires
        a.len() == b.len(),
        forall|i: int| 0 <= i < a.len() ==> (#[trigger] a[i]).kind == b[i].kind && a[i].value == b[i].value,
    ensures
        fingerprint_of(a) == fingerprint_of(b),
{
    lemma_canonical_agrees(a, b);
}

/// The canonical entry of a kind that takes part in the fingerprint, with
/// the kind written as `{:?}` prints it.
pub open spec fn printed_entry(kind: EvidenceKind, value: Seq<char>) -> Seq<char> {
    match kind {
        EvidenceKind::Error => "Error"@ + ":"@ + text::lowercase(value),
        EvidenceKind::StackFrame => "StackFrame"@ + ":"@ + text::lowercase(value),
        _ => "LogExcerpt"@ + ":"@ + text::lowercase(value),
    }
}

/// Errors, stack frames and excerpts each take part in the fingerprint: one
/// of them alone is fingerprinted as `{kind}:{lower-case value}`, two of them
/// as their entries on two lines; any other kind alone leaves the text
/// empty.
pub proof fn lemma_fingerprint_entries(e1: EvidenceView, e2: EvidenceView)
    ensures
        (e1.kind == EvidenceKind::Error || e1.kind == EvidenceKind::StackFrame || e1.kind == EvidenceKind::LogExcerpt)
            ==> fingerprint_of(seq![e1]) == hex_lower(blake3_digest(encode_utf8(printed_entry(e1.kind, e1.value)))),
        (e1.kind == EvidenceKind::FilePath || e1.kind == EvidenceKind::Runtime || e1.kind == EvidenceKind::Project)
            ==> fingerprint_of(seq![e1]) == hex_lower(blake3_digest(encode_utf8(Seq::<char>::empty()))),
        (e1.kind == EvidenceKind::Error || e1.kind == EvidenceKind::StackFrame || e1.kind == EvidenceKind::LogExcerpt)
            && (e2.kind == EvidenceKind::Error || e2.kind == EvidenceKind::StackFrame || e2.kind == EvidenceKind::LogExcerpt)
            ==> fingerprint_of(seq![e1, e2]) == hex_lower(blake3_digest(encode_utf8(
                printed_entry(e1.kind, e1.value) + "\n"@ + printed_entry(e2.kind, e2.value),
            ))),
{
    let one = seq![e1];
    assert(one.drop_last() =~= Seq::<EvidenceView>::empty());
    assert(one.last() == e1);
    assert(!has_fingerprinted(Seq::<EvidenceView>::empty()));
    let two = seq![e1, e2];
    assert(two.drop_last() =~= one);
    assert(two.last() == e2);
    assert(canonical_text(Seq::<EvidenceView>::empty()) == Seq::<char>::empty());
    assert(canonical_text(one.drop_last()) == Seq::<char>::empty());
    if fingerprinted_kind(e1.kind) {
        assert(one[0] == e1);
        assert(has_fingerprinted(one));
        assert(canonical_entry(e1) == printed_entry(e1.kind, e1.value));
        assert(canonical_text(one) == printed_entry(e1.kind, e1.value));
        if fingerprinted_kind(e2.kind) {
            assert(canonical_entry(e2) == printed_entry(e2.kind, e2.value));
            assert(canonical_text(two) == canonical_text(one) + "\n"@ + canonical_entry(e2));
        }
    } else {
        assert(canonical_text(one) == Seq::<char>::empty());
    }
}

} // verus!
