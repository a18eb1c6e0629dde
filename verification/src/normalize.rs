//! Input normalization: control sequences removed, line endings unified,
//! size bounded.
use vstd::prelude::*;
use crate::model::{Transformation, TransformationView, transformation_views};
use crate::patterns;
use crate::spans::{self, splice_chars, to_char_spans};
use crate::text::{self, chars_of, fitting_prefix_len, push_decimal, string_of};

verus! {

/// Largest accepted input, in bytes.
pub const MAX_INPUT_BYTES: usize = 1_000_000;

/// Normalized text and the transformations that produced it.
#[derive(Debug, Clone, PartialEq, Eq)]
pub struct NormalizedInput {
    pub text: String,
    pub transformations: Vec<Transformation>,
}

/// `s` with every `\r\n` replaced by `\n`, as `str::replace("\r\n", "\n")` does.
pub open spec fn replace_crlf(s: Seq<char>) -> Seq<char>
    decreases s.len(),
{
    if s.len() == 0 {
        s
    } else if s.len() >= 2 && s[0] == '\r' && s[1] == '\n' {
        seq!['\n'] + replace_crlf(s.skip(2))
    } else {
        seq![s[0]] + replace_crlf(s.drop_first())
    }
}

/// `s` with every `\r` replaced by `\n`, as `str::replace('\r', "\n")` does.
pub open spec fn replace_cr(s: Seq<char>) -> Seq<char> {
    Seq::new(s.len(), |i: int| if s[i] == '\r' { '\n' } else { s[i] })
}

/// `s` with the spans `m` (terminal control sequences) removed.
pub open spec fn without_spans(s: Seq<char>, m: Seq<(usize, usize)>) -> Seq<char> {
    spans::splice(s, spans::char_span_seq(s, m), Seq::new(m.len(), |i: int| Seq::<char>::empty()))
}

/// The normalized form of a text before the size bound, with the spans `m`
/// removed.
pub open spec fn unbounded_text_of(s: Seq<char>, m: Seq<(usize, usize)>) -> Seq<char> {
    replace_cr(replace_crlf(without_spans(s, m)))
}

/// Whether normalization has to cut the text, the spans `m` removed.
pub open spec fn needs_truncation_of(s: Seq<char>, m: Seq<(usize, usize)>) -> bool {
    text::utf8_len(unbounded_text_of(s, m)) > MAX_INPUT_BYTES
}

/// The normalized text with the spans `m` removed: line endings unified and,
/// where it is longer than `MAX_INPUT_BYTES` bytes, cut at the last
/// character boundary within that bound.
pub open spec fn normalized_text_of(s: Seq<char>, m: Seq<(usize, usize)>) -> Seq<char> {
    let t = unbounded_text_of(s, m);
    if needs_truncation_of(s, m) {
        t.take(text::fit_prefix_len(t, MAX_INPUT_BYTES as int))
    } else {
        t
    }
}

/// The normalized text: control sequences removed, line endings unified and,
/// where it is longer than `MAX_INPUT_BYTES` bytes, cut at the last character
/// boundary within that bound.
pub open spec fn normalized_text(s: Seq<char>) -> Seq<char> {
    normalized_text_of(s, patterns::ansi_escape_matches(s))
}

/// The transformations normalization records for a text whose control
/// sequences are the spans `m`.
pub open spec fn normalize_transformations_of(s: Seq<char>, m: Seq<(usize, usize)>) -> Seq<TransformationView> {
    let n = m.len();
    let ansi = if n > 0 {
        seq![
            TransformationView {
                kind: "ansi_removed"@,
                detail: "Removed terminal control sequences"@,
                count: n as usize,
            },
        ]
    } else {
        Seq::empty()
    };
    let cut = if needs_truncation_of(s, m) {
        seq![
            TransformationView {
                kind: "input_truncated"@,
                detail: "Input limited to "@ + text::decimal(MAX_INPUT_BYTES as nat) + " bytes"@,
                count: 1,
            },
        ]
    } else {
        Seq::empty()
    };
    ansi + cut
}

/// The transformations normalization records for a text.
pub open spec fn normalize_transformations(s: Seq<char>) -> Seq<TransformationView> {
    normalize_transformations_of(s, patterns::ansi_escape_matches(s))
}

fn replace_crlf_chars(v: &Vec<char>) -> (r: Vec<char>)
    ensures
        r@ == replace_crlf(v@),
{
    let mut out: Vec<char> = Vec::new();
    let mut i: usize = 0;
    assert(v@.skip(0) =~= v@);
    while i < v.len()
        invariant
            i <= v.len(),
            replace_crlf(v@) == out@ + replace_crlf(v@.skip(i as int)),
        decreases v.len() - i,
    {
        let ghost rest = v@.skip(i as int);
        assert(rest[0] == v@[i as int]);
        if v[i] == '\r' && i + 1 < v.len() && v[i + 1] == '\n' {
            assert(rest[1] == v@[i + 1]);
            assert(rest.skip(2) =~= v@.skip(i + 2));
            out.push('\n');
            i = i + 2;
        } else {
            assert(rest.drop_first() =~= v@.skip(i + 1));
            out.push(v[i]);
            i = i + 1;
        }
    }
    assert(v@.skip(i as int) =~= Seq::<char>::empty());
    assert(out@ + Seq::<char>::empty() =~= out@);
    out
}

fn replace_cr_chars(v: &Vec<char>) -> (r: Vec<char>)
    ensures
        r@ == replace_cr(v@),
{
    let mut out: Vec<char> = Vec::new();
    let mut i: usize = 0;
    while i < v.len()
        invariant
            i <= v.len(),
            out@ == replace_cr(v@).take(i as int),
        decreases v.len() - i,
    {
        if v[i] == '\r' {
            out.push('\n');
        } else {
            out.push(v[i]);
        }
        assert(out@ =~= replace_cr(v@).take(i as int + 1));
        i = i + 1;
    }
    assert(replace_cr(v@).take(i as int) =~= replace_cr(v@));
    out
}

fn empty_replacements(n: usize) -> (r: Vec<Vec<char>>)
    ensures
        r@.len() == n,
        text::views(r@) == Seq::new(n as nat, |i: int| Seq::<char>::empty()),
{
    let mut r: Vec<Vec<char>> = Vec::new();
    let mut i: usize = 0;
    while i < n
        invariant
            i <= n,
            r@.len() == i,
            forall|k: int| 0 <= k < i ==> (#[trigger] r@[k])@ == Seq::<char>::empty(),
        decreases n - i,
    {
        r.push(Vec::new());
        i = i + 1;
    }
    assert(text::views(r@) =~= Seq::new(n as nat, |i: int| Seq::<char>::empty()));
    r
}

/// Removes terminal control sequences, unifies line endings and bounds the
/// size of the input, recording what it changed.
pub fn normalize(input: &str) -> (r: NormalizedInput)
    ensures
        r.text@ == normalized_text(input@),
        transformation_views(r.transformations@) == normalize_transformations(input@),
        text::utf8_len(r.text@) <= MAX_INPUT_BYTES,
{
    let matches = patterns::find_ansi_escapes(input);
    normalize_without(input, &matches)
}

/// Normalizes a text whose terminal control sequences are the byte spans
/// `matches`: removes them, unifies line endings and bounds the size,
/// recording what it changed.
pub fn normalize_without(input: &str, matches: &Vec<(usize, usize)>) -> (r: NormalizedInput)
    requires
        spans::spans_well_formed(input@, matches@),
    ensures
        r.text@ == normalized_text_of(input@, matches@),
        transformation_views(r.transformations@) == normalize_transformations_of(input@, matches@),
        text::utf8_len(r.text@) <= MAX_INPUT_BYTES,
{
    let chars = chars_of(input);
    let ansi_count = matches.len();
    let cs = to_char_spans(&chars, matches);
    let reps = empty_replacements(ansi_count);
    let stripped = splice_chars(&chars, &cs, &reps);
    let crlf = replace_crlf_chars(&stripped);
    let unified = replace_cr_chars(&crlf);
    let mut transformations: Vec<Transformation> = Vec::new();
    if ansi_count > 0 {
        transformations.push(
            Transformation {
                kind: "ansi_removed".to_owned(),
                detail: "Removed terminal control sequences".to_owned(),
                count: ansi_count,
            },
        );
    }
    let keep = fitting_prefix_len(&unified, MAX_INPUT_BYTES);
    let mut kept = unified;
    if keep < kept.len() {
        proof {
            text::lemma_utf8_len_take_mono(kept@, keep as int + 1, kept@.len() as int);
            assert(kept@.take(kept@.len() as int) =~= kept@);
        }
        kept.truncate(keep);
        let mut detail = chars_of("Input limited to ");
        push_decimal(&mut detail, MAX_INPUT_BYTES);
        text::append_str(&mut detail, " bytes");
        transformations.push(
            Transformation { kind: "input_truncated".to_owned(), detail: string_of(&detail), count: 1 },
        );
    } else {
        proof {
            assert(kept@.take(kept@.len() as int) =~= kept@);
        }
    }
    let ghost t = unbounded_text_of(input@, matches@);
    assert(transformation_views(transformations@) =~= normalize_transformations_of(input@, matches@));
    NormalizedInput { text: string_of(&kept), transformations }
}

proof fn lemma_replace_crlf_identity(s: Seq<char>)
    requires
        forall|i: int| 0 <= i < s.len() ==> #[trigger] s[i] != '\r',
    ensures
        replace_crlf(s) == s,
    decreases s.len(),
{
    if s.len() > 0 {
        assert(s[0] != '\r');
        assert forall|i: int| 0 <= i < s.drop_first().len() implies #[trigger] s.drop_first()[i] != '\r' by {
            assert(s.drop_first()[i] == s[i + 1]);
        }
        lemma_replace_crlf_identity(s.drop_first());
        assert(seq![s[0]] + s.drop_first() =~= s);
    }
}

/// A text without control sequences, carriage returns or excess length
/// comes back unchanged, with nothing recorded.
pub proof fn lemma_clean_text_unchanged(s: Seq<char>)
    requires
        forall|i: int| 0 <= i < s.len() ==> #[trigger] s[i] != '\r',
        text::utf8_len(s) <= MAX_INPUT_BYTES,
    ensures
        normalized_text_of(s, Seq::empty()) == s,
        normalize_transformations_of(s, Seq::empty()) == Seq::<TransformationView>::empty(),
{
    let m = Seq::<(usize, usize)>::empty();
    assert(spans::char_span_seq(s, m) =~= Seq::<(usize, usize)>::empty());
    reveal(spans::splice);
    assert(without_spans(s, m) == s);
    lemma_replace_crlf_identity(s);
    assert(replace_cr(s) =~= s);
    assert(unbounded_text_of(s, m) == s);
    assert(normalize_transformations_of(s, m) =~= Seq::<TransformationView>::empty());
}

} // verus!
