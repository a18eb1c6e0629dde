//! The universal capability pack: primary error, sensitive candidates,
//! source locations and duplicate lines, for any kind of log.
use vstd::prelude::*;
use crate::model::{
    AnalysisDepth, DraftView, EvidenceDraft, EvidenceKind, Provenance, ProvenanceView, Sensitivity,
    SourceRange, Transformation, TransformationView, draft_views, transformation_views,
};
use crate::normalize::NormalizedInput;
use crate::pack::{CapabilityPack, PackDescriptor, PackError, PackOutput};
use crate::patterns;
use crate::spans::{self, to_char_spans};
use crate::text::{
    self, byte_len, chars_eq, chars_of, contains_char, contains_chars, lowercase_chars, split_lines,
    string_of, trim_chars,
};

verus! {

/// The pack that applies to every input.
pub struct UniversalPack;

/// Identifier of the universal pack.
pub open spec fn universal_id() -> Seq<char> {
    "official.universal"@
}

/// The markers of an error line, matched in lower case.
pub open spec fn error_markers() -> Seq<Seq<char>> {
    seq![
        "error"@,
        "exception"@,
        "panic"@,
        "fatal"@,
        "failed"@,
        "couldn't find"@,
        "cannot find"@,
    ]
}

/// The markers of a line that may hold a secret, matched in lower case.
pub open spec fn sensitive_markers() -> Seq<Seq<char>> {
    seq![
        "token="@,
        "token:"@,
        "secret="@,
        "secret:"@,
        "password="@,
        "password:"@,
        "passwd="@,
        "api_key="@,
        "api-key="@,
        "jwt="@,
    ]
}

/// Some marker occurs in `hay`.
pub open spec fn has_any_marker(hay: Seq<char>, markers: Seq<Seq<char>>) -> bool {
    exists|i: int| 0 <= i < markers.len() && text::has_substring(hay, #[trigger] markers[i])
}

/// An error line: its lower case holds an error marker, except Xcode's
/// "Showing All Errors Only" filter label.
pub open spec fn is_error_line(line: Seq<char>) -> bool {
    let lower = text::lowercase(line);
    if text::trim(lower) == "showing all errors only"@ {
        false
    } else {
        has_any_marker(lower, error_markers())
    }
}

/// A line that may hold a secret: a sensitive marker in its lower case, or an `@`.
pub open spec fn is_sensitive_line(line: Seq<char>) -> bool {
    has_any_marker(text::lowercase(line), sensitive_markers()) || line.contains('@')
}

fn any_marker(hay: &Vec<char>, markers: &Vec<&str>, Ghost(ms): Ghost<Seq<Seq<char>>>) -> (r: bool)
    requires
        markers@.len() == ms.len(),
        forall|i: int| 0 <= i < ms.len() ==> (#[trigger] markers@[i])@ == ms[i],
    ensures
        r == has_any_marker(hay@, ms),
{
    let mut i: usize = 0;
    while i < markers.len()
        invariant
            i <= markers.len(),
            markers@.len() == ms.len(),
            forall|k: int| 0 <= k < ms.len() ==> (#[trigger] markers@[k])@ == ms[k],
            forall|k: int| 0 <= k < i ==> !text::has_substring(hay@, #[trigger] ms[k]),
        decreases markers.len() - i,
    {
        let needle = chars_of(markers[i]);
        if contains_chars(hay, &needle) {
            assert(text::has_substring(hay@, ms[i as int]));
            return true;
        }
        i = i + 1;
    }
    false
}

/// Whether a line reads as an error.
pub fn looks_like_error(line: &Vec<char>) -> (r: bool)
    ensures
        r == is_error_line(line@),
{
    let lower = lowercase_chars(line);
    let trimmed = trim_chars(&lower);
    let label = chars_of("showing all errors only");
    if chars_eq(&trimmed, &label) {
        return false;
    }
    let markers: Vec<&str> = vec![
        "error",
        "exception",
        "panic",
        "fatal",
        "failed",
        "couldn't find",
        "cannot find",
    ];
    any_marker(&lower, &markers, Ghost(error_markers()))
}

/// Whether a line may hold a secret.
pub fn looks_like_sensitive_candidate(line: &Vec<char>) -> (r: bool)
    ensures
        r == is_sensitive_line(line@),
{
    let lower = lowercase_chars(line);
    let markers: Vec<&str> = vec![
        "token=",
        "token:",
        "secret=",
        "secret:",
        "password=",
        "password:",
        "passwd=",
        "api_key=",
        "api-key=",
        "jwt=",
    ];
    any_marker(&lower, &markers, Ghost(sensitive_markers())) || contains_char(line, '@')
}

/// Byte offset at which line `i` starts: each earlier line and its `\n`.
pub open spec fn line_start(ls: Seq<Seq<char>>, i: int) -> nat
    decreases i,
{
    if i <= 0 {
        0
    } else {
        line_start(ls, i - 1) + text::utf8_len(ls[i - 1]) + 1
    }
}

proof fn lemma_line_start_prefix(ls: Seq<Seq<char>>, x: Seq<char>, k: int)
    requires
        0 <= k <= ls.len(),
    ensures
        line_start(ls.push(x), k) == line_start(ls, k),
    decreases k,
{
    if k > 0 {
        lemma_line_start_prefix(ls, x, k - 1);
    }
}

proof fn lemma_line_start_mono(ls: Seq<Seq<char>>, i: int, j: int)
    requires
        0 <= i <= j,
    ensures
        line_start(ls, i) <= line_start(ls, j),
    decreases j - i,
{
    if i < j {
        lemma_line_start_mono(ls, i, j - 1);
    }
}

proof fn lemma_scan_len(s: Seq<char>)
    ensures
        line_start(text::line_scan(s).0, text::line_scan(s).0.len() as int) + text::utf8_len(
            text::line_scan(s).1,
        ) <= text::utf8_len(s),
    decreases s.len(),
{
    if s.len() > 0 {
        let p = s.drop_last();
        lemma_scan_len(p);
        let (d, c) = text::line_scan(p);
        assert(text::utf8_len(s) == text::utf8_len(p) + text::utf8_width(s.last()));
        if s.last() == '\n' {
            lemma_line_start_prefix(d, text::strip_cr(c), d.len() as int);
            let d2 = d.push(text::strip_cr(c));
            assert(line_start(d2, d2.len() as int) == line_start(d2, d.len() as int) + text::utf8_len(
                text::strip_cr(c),
            ) + 1);
            assert(text::utf8_len(text::strip_cr(c)) <= text::utf8_len(c));
            assert(text::utf8_len(Seq::<char>::empty()) == 0);
        } else {
            assert(c.push(s.last()).drop_last() =~= c);
            assert(text::utf8_len(c.push(s.last())) == text::utf8_len(c) + text::utf8_width(s.last()));
        }
    }
}

/// Every line of a text, with its start offset, lies within the text.
proof fn lemma_lines_within(s: Seq<char>, i: int)
    requires
        0 <= i < text::lines(s).len(),
    ensures
        line_start(text::lines(s), i) + text::utf8_len(text::lines(s)[i]) <= text::utf8_len(s),
{
    lemma_scan_len(s);
    let (d, c) = text::line_scan(s);
    let ls = text::lines(s);
    if c.len() == 0 {
        lemma_line_start_mono(ls, i + 1, ls.len() as int);
    } else {
        assert(ls == d.push(c));
        lemma_line_start_prefix(d, c, d.len() as int);
        lemma_line_start_mono(ls, i + 1, ls.len() as int);
    }
}

/// The index of the first error line, if any.
pub open spec fn first_error_line(ls: Seq<Seq<char>>) -> Option<int>
    decreases ls.len(),
{
    if ls.len() == 0 {
        None
    } else {
        match first_error_line(ls.drop_last()) {
            Some(i) => Some(i),
            None => if is_error_line(ls.last()) {
                Some(ls.len() - 1)
            } else {
                None
            },
        }
    }
}

/// The first line that is not blank, trimmed, if any.
pub open spec fn first_nonblank_line(ls: Seq<Seq<char>>) -> Option<Seq<char>>
    decreases ls.len(),
{
    if ls.len() == 0 {
        None
    } else {
        match first_nonblank_line(ls.drop_last()) {
            Some(l) => Some(l),
            None => if text::trim(ls.last()).len() > 0 {
                Some(text::trim(ls.last()))
            } else {
                None
            },
        }
    }
}

/// Provenance of evidence found in the normalized input.
pub open spec fn input_provenance(range: Option<SourceRange>) -> ProvenanceView {
    ProvenanceView { source_id: "normalized_input"@, range, capability_id: universal_id() }
}

/// The range of line `i`.
pub open spec fn line_range(ls: Seq<Seq<char>>, i: int) -> SourceRange {
    SourceRange {
        start: line_start(ls, i) as usize,
        end: (line_start(ls, i) + text::utf8_len(ls[i])) as usize,
    }
}

/// The primary evidence: the first error line, or else the first line with
/// text as an excerpt.
pub open spec fn primary_evidence(ls: Seq<Seq<char>>) -> Seq<DraftView> {
    match first_error_line(ls) {
        Some(e) => seq![
            DraftView {
                kind: EvidenceKind::Error,
                value: text::trim(ls[e]),
                confidence: 70,
                sensitivity: Sensitivity::Public,
                provenance: input_provenance(Some(line_range(ls, e))),
            },
        ],
        None => match first_nonblank_line(ls) {
            Some(l) => seq![
                DraftView {
                    kind: EvidenceKind::LogExcerpt,
                    value: l,
                    confidence: 30,
                    sensitivity: Sensitivity::Public,
                    provenance: input_provenance(None),
                },
            ],
            None => Seq::empty(),
        },
    }
}

/// One excerpt for each line that may hold a secret, in line order, kept
/// for the later redaction.
pub open spec fn sensitive_evidence(ls: Seq<Seq<char>>, n: int) -> Seq<DraftView>
    decreases n,
{
    if n <= 0 {
        Seq::empty()
    } else {
        let before = sensitive_evidence(ls, n - 1);
        if is_sensitive_line(ls[n - 1]) {
            before.push(
                DraftView {
                    kind: EvidenceKind::LogExcerpt,
                    value: text::trim(ls[n - 1]),
                    confidence: 60,
                    sensitivity: Sensitivity::Sensitive,
                    provenance: input_provenance(Some(line_range(ls, n - 1))),
                },
            )
        } else {
            before
        }
    }
}

/// One stack frame for each source location of the text.
pub open spec fn location_evidence(t: Seq<char>) -> Seq<DraftView> {
    frames_at(t, patterns::location_matches(t))
}

/// One stack frame for each of the byte spans `m` of the text.
pub open spec fn frames_at(t: Seq<char>, m: Seq<(usize, usize)>) -> Seq<DraftView> {
    let cs = spans::char_span_seq(t, m);
    Seq::new(
        m.len(),
        |i: int|
            DraftView {
                kind: EvidenceKind::StackFrame,
                value: t.subrange(cs[i].0 as int, cs[i].1 as int),
                confidence: 80,
                sensitivity: Sensitivity::Sensitive,
                provenance: input_provenance(Some(SourceRange { start: m[i].0, end: m[i].1 })),
            },
    )
}

/// All evidence the universal pack reports for a text.
pub open spec fn universal_evidence(t: Seq<char>) -> Seq<DraftView> {
    let ls = text::lines(t);
    primary_evidence(ls) + sensitive_evidence(ls, ls.len() as int) + location_evidence(t)
}

/// How many non-blank lines repeat an earlier line (both trimmed).
pub open spec fn duplicate_lines(ls: Seq<Seq<char>>) -> nat
    decreases ls.len(),
{
    if ls.len() == 0 {
        0
    } else {
        let t = text::trim(ls.last());
        let earlier = ls.drop_last();
        duplicate_lines(earlier) + if t.len() > 0 && exists|j: int|
            0 <= j < earlier.len() && text::trim(#[trigger] earlier[j]) == t {
            1nat
        } else {
            0nat
        }
    }
}

/// The transformations the universal pack reports for a text.
pub open spec fn universal_transformations(t: Seq<char>) -> Seq<TransformationView> {
    let d = duplicate_lines(text::lines(t));
    if d > 0 {
        seq![
            TransformationView {
                kind: "duplicate_lines_collapsed"@,
                detail: "Repeated identical lines were represented once"@,
                count: d as usize,
            },
        ]
    } else {
        Seq::empty()
    }
}

fn input_provenance_for(range: Option<SourceRange>) -> (r: Provenance)
    ensures
        r@ == input_provenance(range),
{
    Provenance {
        source_id: "normalized_input".to_owned(),
        range,
        capability_id: "official.universal".to_owned(),
    }
}

/// The trimmed form of every line.
fn trimmed_lines(ls: &Vec<Vec<char>>) -> (r: Vec<Vec<char>>)
    ensures
        r@.len() == ls@.len(),
        forall|i: int| 0 <= i < ls@.len() ==> (#[trigger] r@[i])@ == text::trim(ls@[i]@),
{
    let mut r: Vec<Vec<char>> = Vec::new();
    let mut i: usize = 0;
    while i < ls.len()
        invariant
            i <= ls.len(),
            r@.len() == i,
            forall|k: int| 0 <= k < i ==> (#[trigger] r@[k])@ == text::trim(ls@[k]@),
        decreases ls.len() - i,
    {
        r.push(trim_chars(&ls[i]));
        i = i + 1;
    }
    r
}

/// How many non-blank trimmed lines repeat an earlier one.
fn count_duplicates(ls: &Vec<Vec<char>>, trimmed: &Vec<Vec<char>>) -> (r: usize)
    requires
        trimmed@.len() == ls@.len(),
        forall|i: int| 0 <= i < ls@.len() ==> (#[trigger] trimmed@[i])@ == text::trim(ls@[i]@),
    ensures
        r == duplicate_lines(text::views(ls@)),
{
    let ghost lv = text::views(ls@);
    let mut count: usize = 0;
    let mut i: usize = 0;
    while i < trimmed.len()
        invariant
            i <= trimmed.len(),
            trimmed@.len() == ls@.len(),
            lv == text::views(ls@),
            forall|k: int| 0 <= k < ls@.len() ==> (#[trigger] trimmed@[k])@ == text::trim(ls@[k]@),
            count == duplicate_lines(lv.take(i as int)),
            count <= i,
        decreases trimmed.len() - i,
    {
        let mut seen = false;
        if trimmed[i].len() > 0 {
            let mut j: usize = 0;
            while j < i
                invariant
                    j <= i < trimmed.len(),
                    !seen ==> forall|k: int| 0 <= k < j ==> (#[trigger] trimmed@[k])@ != trimmed@[i as int]@,
                    seen ==> exists|k: int| 0 <= k < i && (#[trigger] trimmed@[k])@ == trimmed@[i as int]@,
                decreases i - j,
            {
                if !seen && chars_eq(&trimmed[j], &trimmed[i]) {
                    seen = true;
                }
                j = j + 1;
            }
        }
        proof {
            let p = lv.take(i as int + 1);
            assert(p.drop_last() =~= lv.take(i as int));
            assert(p.last() == ls@[i as int]@);
            let earlier = p.drop_last();
            assert forall|k: int| 0 <= k < earlier.len() implies #[trigger] earlier[k] == ls@[k]@ by {}
            if seen {
                let k = choose|k: int| 0 <= k < i && (#[trigger] trimmed@[k])@ == trimmed@[i as int]@;
                assert(text::trim(earlier[k]) == text::trim(p.last()));
            } else if trimmed@[i as int]@.len() > 0 {
                assert forall|k: int| 0 <= k < earlier.len() implies text::trim(#[trigger] earlier[k])
                    != text::trim(p.last()) by {
                    assert(trimmed@[k]@ != trimmed@[i as int]@);
                }
            }
        }
        if seen {
            count = count + 1;
        }
        i = i + 1;
    }
    assert(lv.take(i as int) =~= lv);
    count
}


/// One stack frame for each of the byte spans `matches` of the text, in order.
pub fn stack_frames(text: &str, matches: &Vec<(usize, usize)>) -> (r: Vec<EvidenceDraft>)
    requires
        spans::spans_well_formed(text@, matches@),
    ensures
        draft_views(r@) == frames_at(text@, matches@),
{
    let chars = chars_of(text);
    let cs = to_char_spans(&chars, matches);
    let ghost locs = frames_at(text@, matches@);
    let mut evidence: Vec<EvidenceDraft> = Vec::new();
    let mut k: usize = 0;
    while k < matches.len()
        invariant
            k <= matches.len(),
            chars@ == text@,
            cs@ == spans::char_span_seq(text@, matches@),
            spans::char_spans_of(text@, matches@, cs@),
            locs == frames_at(text@, matches@),
            draft_views(evidence@) == locs.take(k as int),
        decreases matches.len() - k,
    {
        let (bstart, bend) = matches[k];
        let (cstart, cend) = cs[k];
        let value = text::slice_chars(&chars, cstart, cend);
        let ghost before = draft_views(evidence@);
        evidence.push(
            EvidenceDraft {
                kind: EvidenceKind::StackFrame,
                value: string_of(&value),
                confidence: 80,
                sensitivity: Sensitivity::Sensitive,
                provenance: input_provenance_for(Some(SourceRange { start: bstart, end: bend })),
            },
        );
        proof {
            assert(cs@[k as int] == (cstart, cend));
            assert(matches@[k as int] == (bstart, bend));
            let expected = locs[k as int];
            assert(expected.value == text@.subrange(cstart as int, cend as int));
            assert(draft_views(evidence@).last() == expected);
            assert(draft_views(evidence@) =~= before.push(expected));
            assert(locs.take(k as int + 1) =~= locs.take(k as int).push(expected));
        }
        k = k + 1;
    }
    assert(locs.take(k as int) =~= locs);
    evidence
}

impl UniversalPack {
    /// The evidence and transformations of the universal pack for a text.
    pub fn analyze_text(&self, input: &NormalizedInput) -> (r: PackOutput)
        requires
            text::utf8_len(input.text@) < usize::MAX,
        ensures
            draft_views(r.evidence@) == universal_evidence(input.text@),
            transformation_views(r.transformations@) == universal_transformations(input.text@),
    {
        let chars = chars_of(input.text.as_str());
        let lines = split_lines(&chars);
        let ghost ls = text::lines(input.text@);
        let trimmed = trimmed_lines(&lines);
        let mut evidence: Vec<EvidenceDraft> = Vec::new();

        // Start offset and first error line, scanning in order.
        let mut offsets: Vec<usize> = Vec::new();
        let mut offset: usize = 0;
        let mut first_error: Option<usize> = None;
        let mut first_text: Option<usize> = None;
        let mut i: usize = 0;
        while i < lines.len()
            invariant
                i <= lines.len(),
                text::views(lines@) == ls,
                ls == text::lines(input.text@),
                text::utf8_len(input.text@) < usize::MAX,
                trimmed@.len() == lines@.len(),
                forall|k: int| 0 <= k < lines@.len() ==> (#[trigger] trimmed@[k])@ == text::trim(ls[k]),
                offsets@.len() == i,
                i < lines.len() ==> offset == line_start(ls, i as int),
                forall|k: int| 0 <= k < i ==> (#[trigger] offsets@[k]) == line_start(ls, k),
                first_error_line(ls.take(i as int)) == match first_error {
                    Some(e) => Some(e as int),
                    None => None::<int>,
                },
                first_error matches Some(e) ==> e < i,
                first_nonblank_line(ls.take(i as int)) == match first_text {
                    Some(t) => Some(trimmed@[t as int]@),
                    None => None::<Seq<char>>,
                },
                first_text matches Some(t) ==> t < i,
            decreases lines.len() - i,
        {
            proof {
                let p = ls.take(i as int + 1);
                assert(p.drop_last() =~= ls.take(i as int));
                assert(p.last() == ls[i as int]);
                assert(ls[i as int] == lines@[i as int]@);
                lemma_lines_within(input.text@, i as int);
            }
            offsets.push(offset);
            if first_error.is_none() && looks_like_error(&lines[i]) {
                first_error = Some(i);
            }
            if first_text.is_none() && trimmed[i].len() > 0 {
                first_text = Some(i);
            }
            let w = byte_len(&lines[i]);
            if i + 1 < lines.len() {
                proof {
                    lemma_lines_within(input.text@, i as int + 1);
                }
                offset = offset + w + 1;
            }
            i = i + 1;
        }
        proof {
            assert(ls.take(i as int) =~= ls);
        }

        // Primary evidence.
        match first_error {
            Some(e) => {
                proof {
                    lemma_lines_within(input.text@, e as int);
                    assert(lines@[e as int]@ == ls[e as int]);
                }
                let start = offsets[e];
                let len = byte_len(&lines[e]);
                evidence.push(
                    EvidenceDraft {
                        kind: EvidenceKind::Error,
                        value: string_of(&trimmed[e]),
                        confidence: 70,
                        sensitivity: Sensitivity::Public,
                        provenance: input_provenance_for(
                            Some(SourceRange { start, end: start + len }),
                        ),
                    },
                );
            },
            None => {
                match first_text {
                    Some(t) => {
                        evidence.push(
                            EvidenceDraft {
                                kind: EvidenceKind::LogExcerpt,
                                value: string_of(&trimmed[t]),
                                confidence: 30,
                                sensitivity: Sensitivity::Public,
                                provenance: input_provenance_for(None),
                            },
                        );
                    },
                    None => {},
                }
            },
        }
        assert(draft_views(evidence@) =~= primary_evidence(ls));
        let ghost primary = draft_views(evidence@);

        // Sensitive candidates.
        let mut j: usize = 0;
        while j < lines.len()
            invariant
                j <= lines.len(),
                text::views(lines@) == ls,
                ls == text::lines(input.text@),
                text::utf8_len(input.text@) < usize::MAX,
                trimmed@.len() == lines@.len(),
                forall|k: int| 0 <= k < lines@.len() ==> (#[trigger] trimmed@[k])@ == text::trim(ls[k]),
                offsets@.len() == lines@.len(),
                forall|k: int| 0 <= k < lines@.len() ==> (#[trigger] offsets@[k]) == line_start(ls, k),
                draft_views(evidence@) == primary + sensitive_evidence(ls, j as int),
            decreases lines.len() - j,
        {
            proof {
                assert(ls[j as int] == lines@[j as int]@);
            }
            if looks_like_sensitive_candidate(&lines[j]) {
                proof {
                    lemma_lines_within(input.text@, j as int);
                }
                let start = offsets[j];
                let len = byte_len(&lines[j]);
                let ghost before = draft_views(evidence@);
                evidence.push(
                    EvidenceDraft {
                        kind: EvidenceKind::LogExcerpt,
                        value: string_of(&trimmed[j]),
                        confidence: 60,
                        sensitivity: Sensitivity::Sensitive,
                        provenance: input_provenance_for(
                            Some(SourceRange { start, end: start + len }),
                        ),
                    },
                );
                assert(draft_views(evidence@) =~= before.push(draft_views(evidence@).last()));
            }
            j = j + 1;
        }
        let ghost with_sensitive = draft_views(evidence@);

        // Source locations.
        let matches = patterns::find_locations(input.text.as_str());
        let mut frames = stack_frames(input.text.as_str(), &matches);
        let ghost frame_seq = frames@;
        let ghost before_frames = evidence@;
        evidence.append(&mut frames);
        assert(draft_views(evidence@) =~= draft_views(before_frames) + draft_views(frame_seq));
        assert(draft_views(evidence@) =~= universal_evidence(input.text@));

        let duplicates = count_duplicates(&lines, &trimmed);
        let mut transformations: Vec<Transformation> = Vec::new();
        if duplicates > 0 {
            transformations.push(
                Transformation {
                    kind: "duplicate_lines_collapsed".to_owned(),
                    detail: "Repeated identical lines were represented once".to_owned(),
                    count: duplicates,
                },
            );
        }
        assert(transformation_views(transformations@) =~= universal_transformations(input.text@));
        PackOutput { evidence, transformations }
    }
}

impl CapabilityPack for UniversalPack {
    /// The universal pack applies to every input.
    open spec fn detects(&self, input: NormalizedInput) -> bool {
        true
    }

    open spec fn spec_descriptor(&self) -> PackDescriptor {
        PackDescriptor { id: "official.universal", depth: AnalysisDepth::Generic }
    }

    fn descriptor(&self) -> (r: PackDescriptor)
        ensures
            r.id@ == universal_id(),
            r.depth == AnalysisDepth::Generic,
    {
        PackDescriptor { id: "official.universal", depth: AnalysisDepth::Generic }
    }

    fn detect(&self, input: &NormalizedInput) -> (r: u8)
        ensures
            r == 1,
    {
        1
    }

    /// Always succeeds on a text whose byte length a `usize` holds, which is
    /// every text in memory.
    fn analyze(&self, input: &NormalizedInput) -> (r: Result<PackOutput, PackError>)
        ensures
            r is Ok <==> text::utf8_len(input.text@) < usize::MAX,
            r matches Ok(o) ==> draft_views(o.evidence@) == universal_evidence(input.text@)
                && transformation_views(o.transformations@) == universal_transformations(
                input.text@,
            ),
    {
        let chars = chars_of(input.text.as_str());
        if text::bounded_byte_len(&chars, usize::MAX - 1).is_some() {
            Ok(self.analyze_text(input))
        } else {
            Err(PackError::Analysis("input too large".to_owned()))
        }
    }
}

// ---------------------------------------------------------------------------
// Laws
// ---------------------------------------------------------------------------

proof fn lemma_first_nonblank_found(ls: Seq<Seq<char>>, i: int)
    requires
        0 <= i < ls.len(),
        text::trim(ls[i]).len() > 0,
    ensures
        first_nonblank_line(ls) is Some,
    decreases ls.len(),
{
    if i < ls.len() - 1 {
        assert(ls.drop_last()[i] == ls[i]);
        lemma_first_nonblank_found(ls.drop_last(), i);
    }
}

/// Input the pack knows nothing about still yields evidence: any text with
/// a non-blank line gives an error, or else an excerpt, first.
pub proof fn lemma_text_always_yields_evidence(t: Seq<char>, i: int)
    requires
        0 <= i < text::lines(t).len(),
        text::trim(text::lines(t)[i]).len() > 0,
    ensures
        universal_evidence(t).len() >= 1,
        universal_evidence(t)[0].kind == EvidenceKind::Error || universal_evidence(t)[0].kind
            == EvidenceKind::LogExcerpt,
{
    let ls = text::lines(t);
    lemma_first_nonblank_found(ls, i);
    let p = primary_evidence(ls);
    assert(p.len() == 1);
    assert(universal_evidence(t)[0] == p[0]);
}

proof fn lemma_sensitive_evidence_source(ls: Seq<Seq<char>>, n: int)
    ensures
        forall|k: int| 0 <= k < sensitive_evidence(ls, n).len() ==> (#[trigger] sensitive_evidence(ls, n)[k]).provenance.capability_id
            == universal_id() && sensitive_evidence(ls, n)[k].provenance.source_id == "normalized_input"@,
    decreases n,
{
    if n > 0 {
        lemma_sensitive_evidence_source(ls, n - 1);
        let before = sensitive_evidence(ls, n - 1);
        assert forall|k: int| 0 <= k < sensitive_evidence(ls, n).len() implies (#[trigger] sensitive_evidence(ls, n)[k]).provenance.capability_id
            == universal_id() && sensitive_evidence(ls, n)[k].provenance.source_id == "normalized_input"@ by {
            if k < before.len() {
                assert(sensitive_evidence(ls, n)[k] == before[k]);
            }
        }
    }
}

/// Every piece of evidence the pack reports names its source, the
/// normalized input, and the pack that found it.
pub proof fn lemma_evidence_names_its_source(t: Seq<char>)
    ensures
        forall|k: int| 0 <= k < universal_evidence(t).len() ==> (#[trigger] universal_evidence(t)[k]).provenance.capability_id
            == universal_id() && universal_evidence(t)[k].provenance.source_id == "normalized_input"@,
{
    let ls = text::lines(t);
    let p = primary_evidence(ls);
    let se = sensitive_evidence(ls, ls.len() as int);
    let le = location_evidence(t);
    lemma_sensitive_evidence_source(ls, ls.len() as int);
    assert forall|k: int| 0 <= k < universal_evidence(t).len() implies (#[trigger] universal_evidence(t)[k]).provenance.capability_id
        == universal_id() && universal_evidence(t)[k].provenance.source_id == "normalized_input"@ by {
        if k < p.len() {
            assert(universal_evidence(t)[k] == p[k]);
        } else if k < p.len() + se.len() {
            assert(universal_evidence(t)[k] == se[k - p.len()]);
        } else {
            assert(universal_evidence(t)[k] == le[k - p.len() - se.len()]);
        }
    }
}

proof fn lemma_first_error_line_is_first(ls: Seq<Seq<char>>)
    ensures
        first_error_line(ls) matches Some(e) ==> 0 <= e < ls.len() && is_error_line(ls[e])
            && forall|j: int| 0 <= j < e ==> !is_error_line(#[trigger] ls[j]),
        first_error_line(ls) is None ==> forall|j: int| 0 <= j < ls.len() ==> !is_error_line(#[trigger] ls[j]),
    decreases ls.len(),
{
    if ls.len() > 0 {
        let d = ls.drop_last();
        lemma_first_error_line_is_first(d);
        assert forall|j: int| 0 <= j < d.len() implies #[trigger] d[j] == ls[j] by {}
        match first_error_line(d) {
            Some(e) => {
                assert(first_error_line(ls) == Some(e));
                assert forall|j: int| 0 <= j < e implies !is_error_line(#[trigger] ls[j]) by {
                    assert(!is_error_line(d[j]));
                }
            },
            None => {
                assert forall|j: int| 0 <= j < d.len() implies !is_error_line(#[trigger] ls[j]) by {
                    assert(!is_error_line(d[j]));
                }
                if is_error_line(ls.last()) {
                    assert(first_error_line(ls) == Some(ls.len() - 1));
                } else {
                    assert(first_error_line(ls) is None);
                    assert forall|j: int| 0 <= j < ls.len() implies !is_error_line(#[trigger] ls[j]) by {
                        if j < d.len() {
                            assert(!is_error_line(d[j]));
                        }
                    }
                }
            },
        }
    }
}

proof fn lemma_sensitive_evidence_kind(ls: Seq<Seq<char>>, n: int)
    ensures
        forall|k: int| 0 <= k < sensitive_evidence(ls, n).len() ==> (#[trigger] sensitive_evidence(ls, n)[k]).kind
            == EvidenceKind::LogExcerpt,
    decreases n,
{
    if n > 0 {
        lemma_sensitive_evidence_kind(ls, n - 1);
        let before = sensitive_evidence(ls, n - 1);
        assert forall|k: int| 0 <= k < sensitive_evidence(ls, n).len() implies (#[trigger] sensitive_evidence(ls, n)[k]).kind
            == EvidenceKind::LogExcerpt by {
            if k < before.len() {
                assert(sensitive_evidence(ls, n)[k] == before[k]);
            }
        }
    }
}

/// The pack reports at most one error: the first line that looks like an
/// error, trimmed, when there is one. Without one, the first non-blank line,
/// trimmed, comes first as an excerpt.
pub proof fn lemma_single_primary_error(t: Seq<char>)
    ensures
        forall|i: int, j: int| 0 <= i < j < universal_evidence(t).len() ==> !((#[trigger] universal_evidence(t)[i]).kind
            == EvidenceKind::Error && (#[trigger] universal_evidence(t)[j]).kind == EvidenceKind::Error),
        (exists|i: int| 0 <= i < universal_evidence(t).len() && (#[trigger] universal_evidence(t)[i]).kind == EvidenceKind::Error)
            <==> (exists|j: int| 0 <= j < text::lines(t).len() && is_error_line(#[trigger] text::lines(t)[j])),
        forall|e: int| 0 <= e < text::lines(t).len() && is_error_line(text::lines(t)[e])
            && (forall|j: int| 0 <= j < e ==> !is_error_line(#[trigger] text::lines(t)[j]))
            ==> universal_evidence(t)[0].kind == EvidenceKind::Error
                && universal_evidence(t)[0].value == text::trim(#[trigger] text::lines(t)[e])
                && universal_evidence(t)[0].confidence == 70,
        (forall|j: int| 0 <= j < text::lines(t).len() ==> !is_error_line(#[trigger] text::lines(t)[j]))
            ==> match first_nonblank_line(text::lines(t)) {
                Some(l) => universal_evidence(t)[0].kind == EvidenceKind::LogExcerpt
                    && universal_evidence(t)[0].value == l && universal_evidence(t)[0].confidence == 30
                    && universal_evidence(t)[0].provenance.range is None,
                None => forall|i: int| 0 <= i < universal_evidence(t).len()
                    ==> (#[trigger] universal_evidence(t)[i]).kind != EvidenceKind::Error,
            },
{
    let ls = text::lines(t);
    let p = primary_evidence(ls);
    let se = sensitive_evidence(ls, ls.len() as int);
    let le = location_evidence(t);
    let ev = universal_evidence(t);
    lemma_first_error_line_is_first(ls);
    lemma_sensitive_evidence_kind(ls, ls.len() as int);
    assert forall|k: int| p.len() <= k < ev.len() implies (#[trigger] ev[k]).kind != EvidenceKind::Error by {
        if k < p.len() + se.len() {
            assert(ev[k] == se[k - p.len()]);
        } else {
            assert(ev[k] == le[k - p.len() - se.len()]);
        }
    }
    assert forall|k: int| 0 <= k < p.len() implies #[trigger] ev[k] == p[k] by {}
    if let Some(e) = first_error_line(ls) {
        assert(p.len() == 1);
        assert(ev[0].kind == EvidenceKind::Error);
        assert forall|e2: int| 0 <= e2 < ls.len() && is_error_line(ls[e2])
            && (forall|j: int| 0 <= j < e2 ==> !is_error_line(#[trigger] ls[j]))
            implies ev[0].kind == EvidenceKind::Error && ev[0].value == text::trim(#[trigger] ls[e2]) && ev[0].confidence == 70 by {
            if e2 < e {
                assert(!is_error_line(ls[e2]));
            } else if e < e2 {
                assert(!is_error_line(ls[e]));
            }
        }
        assert(is_error_line(ls[e]));
    } else {
        assert forall|i: int| 0 <= i < ev.len() implies (#[trigger] ev[i]).kind != EvidenceKind::Error by {
            if i < p.len() {
                assert(ev[i] == p[i]);
            }
        }
    }
}

/// A line is an error line exactly when its lower case holds one of the
/// markers `error`, `exception`, `panic`, `fatal`, `failed`, `couldn't find`
/// or `cannot find`, unless, trimmed, it is the label `showing all errors
/// only`. So when the first line of a text is one, the text's evidence
/// starts with that line, trimmed, as an error of confidence 70.
pub proof fn lemma_error_markers(t: Seq<char>, line: Seq<char>)
    ensures
        is_error_line(line) <==> {
            let lower = text::lowercase(line);
            &&& text::trim(lower) != "showing all errors only"@
            &&& {
                ||| text::has_substring(lower, "error"@)
                ||| text::has_substring(lower, "exception"@)
                ||| text::has_substring(lower, "panic"@)
                ||| text::has_substring(lower, "fatal"@)
                ||| text::has_substring(lower, "failed"@)
                ||| text::has_substring(lower, "couldn't find"@)
                ||| text::has_substring(lower, "cannot find"@)
            }
        },
        text::lines(t).len() > 0 && is_error_line(text::lines(t)[0]) ==> {
            &&& universal_evidence(t)[0].kind == EvidenceKind::Error
            &&& universal_evidence(t)[0].value == text::trim(text::lines(t)[0])
            &&& universal_evidence(t)[0].confidence == 70
        },
{
    let lower = text::lowercase(line);
    let ms = error_markers();
    if has_any_marker(lower, ms) {
        let i = choose|i: int| 0 <= i < ms.len() && text::has_substring(lower, #[trigger] ms[i]);
        assert(i == 0 || i == 1 || i == 2 || i == 3 || i == 4 || i == 5 || i == 6);
    }
    if text::has_substring(lower, "error"@) { assert(text::has_substring(lower, ms[0])); }
    if text::has_substring(lower, "exception"@) { assert(text::has_substring(lower, ms[1])); }
    if text::has_substring(lower, "panic"@) { assert(text::has_substring(lower, ms[2])); }
    if text::has_substring(lower, "fatal"@) { assert(text::has_substring(lower, ms[3])); }
    if text::has_substring(lower, "failed"@) { assert(text::has_substring(lower, ms[4])); }
    if text::has_substring(lower, "couldn't find"@) { assert(text::has_substring(lower, ms[5])); }
    if text::has_substring(lower, "cannot find"@) { assert(text::has_substring(lower, ms[6])); }
    lemma_single_primary_error(t);
    if text::lines(t).len() > 0 && is_error_line(text::lines(t)[0]) {
        let ls = text::lines(t);
        assert(forall|j: int| 0 <= j < 0 ==> !is_error_line(#[trigger] ls[j]));
        assert(0 <= 0 < ls.len() && is_error_line(ls[0]));
    }
}

} // verus!
