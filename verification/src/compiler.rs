//! Compilation of evidence into a budgeted context text.
use vstd::prelude::*;
use crate::model::{
    CompiledOutput, Evidence, EvidenceKind, EvidenceView, Transformation, TransformationView,
    evidence_views, transformation_views,
};
use crate::text::{self, append_chars, append_str, chars_of, fitting_prefix_len, push_decimal, string_of};

verus! {

/// How long the compiled output may be.
#[derive(Debug, Clone, Copy, PartialEq, Eq, Structural)]
pub enum OutputBudget {
    Compact,
    Standard,
    Detailed,
}

/// The token limit of a budget.
pub open spec fn token_limit_of(budget: OutputBudget) -> nat {
    match budget {
        OutputBudget::Compact => 500,
        OutputBudget::Standard => 1_500,
        OutputBudget::Detailed => 4_000,
    }
}

/// The byte limit of a budget: four bytes per token.
pub open spec fn byte_limit_of(budget: OutputBudget) -> nat {
    token_limit_of(budget) * 4
}

impl OutputBudget {
    pub fn token_limit(self) -> (r: usize)
        ensures
            r == token_limit_of(self),
    {
        match self {
            OutputBudget::Compact => 500,
            OutputBudget::Standard => 1_500,
            OutputBudget::Detailed => 4_000,
        }
    }
}

/// Output priority of an evidence kind: lower comes first.
pub open spec fn priority_of(kind: EvidenceKind) -> nat {
    match kind {
        EvidenceKind::Error => 0,
        EvidenceKind::StackFrame => 1,
        EvidenceKind::Runtime => 2,
        EvidenceKind::Project => 3,
        EvidenceKind::FilePath => 4,
        EvidenceKind::LogExcerpt => 5,
    }
}

pub fn priority(kind: EvidenceKind) -> (r: u8)
    ensures
        r == priority_of(kind),
{
    match kind {
        EvidenceKind::Error => 0,
        EvidenceKind::StackFrame => 1,
        EvidenceKind::Runtime => 2,
        EvidenceKind::Project => 3,
        EvidenceKind::FilePath => 4,
        EvidenceKind::LogExcerpt => 5,
    }
}

/// The output position key of a piece of evidence: by priority, then by
/// descending confidence, then by identifier.
pub open spec fn output_rank(e: EvidenceView) -> int {
    priority_of(e.kind) * 0x1_0000_0000_0000_0000_00 + (255 - e.confidence) * 0x1_0000_0000_0000_0000
        + e.id
}

/// `p` is a permutation of `0..n`.
pub open spec fn is_permutation(p: Seq<int>, n: nat) -> bool {
    &&& p.len() == n
    &&& forall|i: int| 0 <= i < n ==> 0 <= #[trigger] p[i] < n
    &&& forall|i: int, j: int| 0 <= i < j < n ==> p[i] != p[j]
}

/// `out` is `ev` stably sorted by `output_rank`, with `p` mapping positions
/// of `out` to positions of `ev`.
pub open spec fn stable_sort_by_rank(ev: Seq<EvidenceView>, out: Seq<EvidenceView>, p: Seq<int>) -> bool {
    &&& is_permutation(p, ev.len())
    &&& out.len() == ev.len()
    &&& forall|i: int| 0 <= i < out.len() ==> #[trigger] out[i] == ev[p[i]]
    &&& forall|i: int, j: int|
        0 <= i < j < out.len() ==> output_rank(#[trigger] out[i]) <= output_rank(#[trigger] out[j])
    &&& forall|i: int, j: int|
        0 <= i < j < out.len() && output_rank(#[trigger] out[i]) == output_rank(#[trigger] out[j])
            ==> p[i] < p[j]
}

/// `out` is the output order of `ev`, as a stable sort by
/// `(priority, Reverse(confidence), id)` gives it.
pub open spec fn output_order(ev: Seq<EvidenceView>, out: Seq<EvidenceView>) -> bool {
    exists|p: Seq<int>| stable_sort_by_rank(ev, out, p)
}

/// Whether `a` may precede `b` in the output order.
fn output_before(a: &Evidence, b: &Evidence) -> (r: bool)
    ensures
        r == (output_rank(a@) <= output_rank(b@)),
{
    let pa = priority(a.kind);
    let pb = priority(b.kind);
    if pa != pb {
        pa < pb
    } else if a.confidence != b.confidence {
        a.confidence > b.confidence
    } else {
        a.id <= b.id
    }
}

/// The evidence in output order.
fn sort_for_output(evidence: &[Evidence]) -> (r: Vec<Evidence>)
    ensures
        output_order(evidence_views(evidence@), evidence_views(r@)),
{
    let ghost ev = evidence_views(evidence@);
    let mut out: Vec<Evidence> = Vec::new();
    let ghost mut p: Seq<int> = Seq::empty();
    let mut k: usize = 0;
    while k < evidence.len()
        invariant
            k <= evidence.len(),
            ev == evidence_views(evidence@),
            stable_sort_by_rank(ev.take(k as int), evidence_views(out@), p),
        decreases evidence.len() - k,
    {
        let e = evidence[k].copy();
        let mut pos: usize = 0;
        while pos < out.len() && output_before(&out[pos], &e)
            invariant
                pos <= out.len(),
                forall|i: int| 0 <= i < pos ==> output_rank((#[trigger] out@[i])@) <= output_rank(e@),
            decreases out.len() - pos,
        {
            pos = pos + 1;
        }
        let ghost old_out = evidence_views(out@);
        let ghost old_p = p;
        out.insert(pos, e);
        proof {
            let new_out = evidence_views(out@);
            p = old_p.insert(pos as int, k as int);
            let evk = ev.take(k as int + 1);
            assert(new_out =~= old_out.insert(pos as int, ev[k as int]));
            assert(forall|i: int| 0 <= i < k ==> evk[i] == ev.take(k as int)[i]);
            assert forall|i: int| 0 <= i < new_out.len() implies #[trigger] new_out[i] == evk[p[i]] by {
                if i < pos {
                    assert(new_out[i] == old_out[i]);
                } else if i > pos {
                    assert(new_out[i] == old_out[i - 1]);
                }
            }
            assert forall|i: int, j: int|
                0 <= i < j < new_out.len() implies output_rank(#[trigger] new_out[i]) <= output_rank(
                #[trigger] new_out[j],
            ) by {
                if j == pos {
                    assert(new_out[i] == old_out[i]);
                } else if i == pos {
                    assert(new_out[j] == old_out[j - 1]);
                    if pos < old_out.len() {
                        assert(output_rank(old_out[pos as int]) > output_rank(ev[k as int]));
                        if j - 1 > pos {
                            assert(output_rank(old_out[pos as int]) <= output_rank(old_out[j - 1]));
                        }
                    }
                } else {
                    let oi = if i < pos { i } else { i - 1 };
                    let oj = if j < pos { j } else { j - 1 };
                    assert(new_out[i] == old_out[oi]);
                    assert(new_out[j] == old_out[oj]);
                }
            }
            assert forall|i: int, j: int|
                0 <= i < j < new_out.len() && output_rank(#[trigger] new_out[i]) == output_rank(
                    #[trigger] new_out[j],
                ) implies p[i] < p[j] by {
                if j == pos {
                    assert(p[j] == k);
                    assert(p[i] == old_p[i]);
                } else if i == pos {
                    assert(new_out[j] == old_out[j - 1]);
                    if pos < old_out.len() {
                        assert(output_rank(old_out[pos as int]) > output_rank(ev[k as int]));
                        if j - 1 > pos {
                            assert(output_rank(old_out[pos as int]) <= output_rank(old_out[j - 1]));
                        }
                    }
                } else {
                    let oi = if i < pos { i } else { i - 1 };
                    let oj = if j < pos { j } else { j - 1 };
                    assert(new_out[i] == old_out[oi]);
                    assert(new_out[j] == old_out[oj]);
                    assert(p[i] == old_p[oi]);
                    assert(p[j] == old_p[oj]);
                }
            }
            assert forall|i: int| 0 <= i < k + 1 implies 0 <= #[trigger] p[i] < k + 1 by {
                if i < pos {
                    assert(p[i] == old_p[i]);
                } else if i > pos {
                    assert(p[i] == old_p[i - 1]);
                }
            }
            assert forall|i: int, j: int| 0 <= i < j < k + 1 implies p[i] != p[j] by {
                let oi = if i < pos { i } else { i - 1 };
                let oj = if j < pos { j } else { j - 1 };
                if i != pos && j != pos {
                    assert(p[i] == old_p[oi]);
                    assert(p[j] == old_p[oj]);
                } else if i == pos {
                    assert(p[j] == old_p[oj]);
                } else {
                    assert(p[i] == old_p[oi]);
                }
            }
        }
        k = k + 1;
    }
    assert(ev.take(k as int) =~= ev);
    out
}

/// The name of a kind, as `{:?}` prints it.
pub open spec fn kind_label(kind: EvidenceKind) -> Seq<char> {
    match kind {
        EvidenceKind::Error => "Error"@,
        EvidenceKind::StackFrame => "StackFrame"@,
        EvidenceKind::FilePath => "FilePath"@,
        EvidenceKind::Runtime => "Runtime"@,
        EvidenceKind::Project => "Project"@,
        EvidenceKind::LogExcerpt => "LogExcerpt"@,
    }
}

pub(crate) fn kind_name(kind: EvidenceKind) -> (r: &'static str)
    ensures
        r@ == kind_label(kind),
{
    match kind {
        EvidenceKind::Error => "Error",
        EvidenceKind::StackFrame => "StackFrame",
        EvidenceKind::FilePath => "FilePath",
        EvidenceKind::Runtime => "Runtime",
        EvidenceKind::Project => "Project",
        EvidenceKind::LogExcerpt => "LogExcerpt",
    }
}

/// The closing request of every compiled context.
pub open spec fn request_text() -> Seq<char> {
    "## Request\nIdentify the most likely cause using only the facts above, then recommend the next diagnostic or repair step."@
}

/// The heading that opens every compiled context.
pub open spec fn facts_heading() -> Seq<char> {
    "## Facts\n"@
}

/// The line a piece of evidence contributes: `- {kind:?}: {value}\n`.
pub open spec fn fact_line(e: EvidenceView) -> Seq<char> {
    "- "@ + kind_label(e.kind) + ": "@ + e.value + "\n"@
}

/// Whether `line` may be added to `text` within `max` bytes, leaving room
/// for the request and its two separating characters.
pub open spec fn fits_with_request(text: Seq<char>, line: Seq<char>, max: int) -> bool {
    text::utf8_len(text) + text::utf8_len(line) + text::utf8_len(request_text()) + 2 <= max
}

/// The facts section for evidence in output order, and how many pieces of
/// evidence did not fit.
pub open spec fn facts_section(items: Seq<EvidenceView>, max: int) -> (Seq<char>, nat)
    decreases items.len(),
{
    if items.len() == 0 {
        (facts_heading(), 0)
    } else {
        let (text, omitted) = facts_section(items.drop_last(), max);
        let line = fact_line(items.last());
        if fits_with_request(text, line, max) {
            (text + line, omitted)
        } else {
            (text, omitted + 1)
        }
    }
}

/// `kind=count` for one transformation.
pub open spec fn transformation_entry(t: TransformationView) -> Seq<char> {
    t.kind + "="@ + text::decimal(t.count as nat)
}

/// The transformation entries joined by `, `.
pub open spec fn transformation_summary(ts: Seq<TransformationView>) -> Seq<char>
    decreases ts.len(),
{
    if ts.len() == 0 {
        Seq::empty()
    } else if ts.len() == 1 {
        transformation_entry(ts[0])
    } else {
        transformation_summary(ts.drop_last()) + ", "@ + transformation_entry(ts.last())
    }
}

/// The transformations section.
pub open spec fn transformations_line(ts: Seq<TransformationView>) -> Seq<char> {
    "\n## Transformations\n"@ + transformation_summary(ts) + "\n"@
}

/// The text before the final bound: facts, the transformations section where
/// there are transformations and it fits, then the request.
pub open spec fn assembled_text(
    items: Seq<EvidenceView>,
    ts: Seq<TransformationView>,
    max: int,
) -> Seq<char> {
    let facts = facts_section(items, max).0;
    let with_ts = if ts.len() > 0 && fits_with_request(facts, transformations_line(ts), max) {
        facts + transformations_line(ts)
    } else {
        facts
    };
    with_ts + "\n"@ + request_text()
}

/// The compiled text: the assembled text, cut to the byte limit where it
/// exceeds it.
pub open spec fn compiled_text(items: Seq<EvidenceView>, ts: Seq<TransformationView>, max: int) -> Seq<
    char,
> {
    let t = assembled_text(items, ts, max);
    if text::utf8_len(t) > max {
        t.take(text::fit_prefix_len(t, max))
    } else {
        t
    }
}

/// `out` is the compiled output of evidence `es` and transformations `ts`
/// for the budget: evidence in output order, the compiled text, the omitted
/// evidence, and the token estimate of the text.
pub open spec fn is_compiled_output(
    es: Seq<EvidenceView>,
    ts: Seq<TransformationView>,
    budget: OutputBudget,
    out: CompiledOutput,
) -> bool {
    &&& exists|order: Seq<EvidenceView>|
        {
            &&& output_order(es, order)
            &&& out.text@ == compiled_text(order, ts, byte_limit_of(budget) as int)
            &&& out.omitted_evidence == facts_section(order, byte_limit_of(budget) as int).1
        }
    &&& out.estimated_tokens == estimated_tokens_of(out.text@)
}

/// Tokens of a text, estimated at four characters each, rounded up.
pub open spec fn estimated_tokens_of(text: Seq<char>) -> nat {
    ((text.len() + 3) / 4) as nat
}

/// Whether `line` fits after `text` with room for the request.
fn fits(
    text_len: Option<usize>,
    line: &Vec<char>,
    request_len: Option<usize>,
    max: usize,
    Ghost(t): Ghost<Seq<char>>,
    Ghost(q): Ghost<Seq<char>>,
) -> (r: bool)
    requires
        max <= 16_000,
        match text_len {
            Some(n) => n == text::utf8_len(t) && n <= max,
            None => text::utf8_len(t) > max,
        },
        match request_len {
            Some(n) => n == text::utf8_len(q) && n <= max,
            None => text::utf8_len(q) > max,
        },
    ensures
        r == (text::utf8_len(t) + text::utf8_len(line@) + text::utf8_len(q) + 2 <= max),
{
    match (text_len, text::bounded_byte_len(line, max), request_len) {
        (Some(a), Some(b), Some(c)) => a + b + c + 2 <= max,
        _ => false,
    }
}

/// `- {kind:?}: {value}\n`.
fn line_for(e: &Evidence) -> (r: Vec<char>)
    ensures
        r@ == fact_line(e@),
{
    let mut line = chars_of("- ");
    append_str(&mut line, kind_name(e.kind));
    append_str(&mut line, ": ");
    append_str(&mut line, e.value.as_str());
    append_str(&mut line, "\n");
    line
}

/// The transformation entries joined by `, `.
fn summary_of(ts: &[Transformation]) -> (r: Vec<char>)
    ensures
        r@ == transformation_summary(transformation_views(ts@)),
{
    let ghost tv = transformation_views(ts@);
    let mut out: Vec<char> = Vec::new();
    let mut i: usize = 0;
    while i < ts.len()
        invariant
            i <= ts.len(),
            tv == transformation_views(ts@),
            out@ == transformation_summary(tv.take(i as int)),
        decreases ts.len() - i,
    {
        let ghost before = out@;
        if i > 0 {
            append_str(&mut out, ", ");
        }
        append_str(&mut out, ts[i].kind.as_str());
        append_str(&mut out, "=");
        push_decimal(&mut out, ts[i].count);
        proof {
            let tk = tv.take(i as int + 1);
            assert(tk.drop_last() =~= tv.take(i as int));
            assert(tk.last() == ts@[i as int]@);
            if i == 0 {
                assert(tk.len() == 1);
                assert(out@ =~= transformation_entry(tk[0]));
            } else {
                assert(out@ =~= before + ", "@ + transformation_entry(tk.last()));
            }
        }
        i = i + 1;
    }
    assert(tv.take(i as int) =~= tv);
    out
}

/// Compiles evidence and transformations into a context text within the
/// budget: facts in output order as long as they fit, the transformations
/// when they fit, and the request.
pub fn compile(
    evidence: &[Evidence],
    transformations: &[Transformation],
    budget: OutputBudget,
) -> (r: CompiledOutput)
    ensures
        is_compiled_output(evidence_views(evidence@), transformation_views(transformations@), budget, r),
        text::utf8_len(r.text@) <= byte_limit_of(budget),
        r.estimated_tokens <= token_limit_of(budget),
{
    let ordered = sort_for_output(evidence);
    let ghost order = evidence_views(ordered@);
    let max = budget.token_limit() * 4;
    let request = chars_of(
        "## Request\nIdentify the most likely cause using only the facts above, then recommend the next diagnostic or repair step.",
    );
    let request_len = text::bounded_byte_len(&request, max);
    let mut text = chars_of("## Facts\n");
    let mut text_len = text::bounded_byte_len(&text, max);
    let mut omitted: usize = 0;
    let mut i: usize = 0;
    while i < ordered.len()
        invariant
            max == byte_limit_of(budget),
            max <= 16_000,
            i <= ordered.len(),
            order == evidence_views(ordered@),
            request@ == request_text(),
            match request_len {
                Some(n) => n == text::utf8_len(request@) && n <= max,
                None => text::utf8_len(request@) > max,
            },
            match text_len {
                Some(n) => n == text::utf8_len(text@) && n <= max,
                None => text::utf8_len(text@) > max,
            },
            (text@, omitted as nat) == facts_section(order.take(i as int), max as int),
            omitted <= i,
        decreases ordered.len() - i,
    {
        let line = line_for(&ordered[i]);
        proof {
            assert(order.take(i as int + 1).drop_last() =~= order.take(i as int));
            assert(order.take(i as int + 1).last() == ordered@[i as int]@);
        }
        if fits(text_len, &line, request_len, max, Ghost(text@), Ghost(request@)) {
            proof {
                text::lemma_utf8_len_add(text@, line@);
            }
            append_chars(&mut text, &line);
            text_len = text::bounded_byte_len(&text, max);
        } else {
            omitted = omitted + 1;
        }
        i = i + 1;
    }
    assert(order.take(i as int) =~= order);
    let ghost facts = text@;
    if transformations.len() > 0 {
        let mut tline = chars_of("\n## Transformations\n");
        let summary = summary_of(transformations);
        append_chars(&mut tline, &summary);
        append_str(&mut tline, "\n");
        if fits(text_len, &tline, request_len, max, Ghost(text@), Ghost(request@)) {
            append_chars(&mut text, &tline);
        }
    }
    append_str(&mut text, "\n");
    append_chars(&mut text, &request);
    assert(text@ == assembled_text(order, transformation_views(transformations@), max as int));
    let keep = fitting_prefix_len(&text, max);
    let mut kept = text;
    proof {
        assert(kept@.take(kept@.len() as int) =~= kept@);
        if keep < kept.len() {
            text::lemma_utf8_len_take_mono(kept@, keep as int + 1, kept@.len() as int);
        }
    }
    kept.truncate(keep);
    proof {
        text::lemma_utf8_len_bounds(kept@);
    }
    let estimated_tokens = (kept.len() + 3) / 4;
    CompiledOutput { text: string_of(&kept), estimated_tokens, omitted_evidence: omitted }
}

/// Tokens of a text, estimated at four characters each, rounded up.
pub fn estimate_tokens(text: &str) -> (r: usize)
    requires
        text@.len() + 3 <= usize::MAX,
    ensures
        r == estimated_tokens_of(text@),
{
    let chars = chars_of(text);
    (chars.len() + 3) / 4
}

proof fn lemma_facts_section_layout(items: Seq<EvidenceView>, max: int)
    requires
        text::utf8_len(facts_heading()) + text::utf8_len(request_text()) + 2 <= max,
    ensures
        facts_section(items, max).0.take(facts_heading().len() as int) == facts_heading(),
        facts_heading().len() <= facts_section(items, max).0.len(),
        text::utf8_len(facts_section(items, max).0) + text::utf8_len(request_text()) + 2 <= max,
    decreases items.len(),
{
    if items.len() > 0 {
        lemma_facts_section_layout(items.drop_last(), max);
        let (t, _) = facts_section(items.drop_last(), max);
        let line = fact_line(items.last());
        if fits_with_request(t, line, max) {
            text::lemma_utf8_len_add(t, line);
            assert((t + line).take(facts_heading().len() as int) =~= t.take(facts_heading().len() as int));
        }
    }
}

/// Every compiled context opens with the facts heading and closes with the
/// request, and is never cut: the budget always leaves room for both.
pub proof fn lemma_compiled_layout(es: Seq<EvidenceView>, ts: Seq<TransformationView>, budget: OutputBudget, out: CompiledOutput)
    requires
        is_compiled_output(es, ts, budget, out),
    ensures
        out.text@.len() >= facts_heading().len() + 1 + request_text().len(),
        out.text@.take(facts_heading().len() as int) == facts_heading(),
        out.text@.skip(out.text@.len() - request_text().len() - 1) == "\n"@ + request_text(),
{
    let max = byte_limit_of(budget) as int;
    let order = choose|order: Seq<EvidenceView>|
        {
            &&& output_order(es, order)
            &&& out.text@ == compiled_text(order, ts, max)
            &&& out.omitted_evidence == facts_section(order, max).1
        };
    reveal_strlit("## Facts\n");
    reveal_strlit("## Request\nIdentify the most likely cause using only the facts above, then recommend the next diagnostic or repair step.");
    text::lemma_utf8_len_bounds(facts_heading());
    text::lemma_utf8_len_bounds(request_text());
    lemma_facts_section_layout(order, max);
    let facts = facts_section(order, max).0;
    let with_ts = if ts.len() > 0 && fits_with_request(facts, transformations_line(ts), max) {
        facts + transformations_line(ts)
    } else {
        facts
    };
    if ts.len() > 0 && fits_with_request(facts, transformations_line(ts), max) {
        text::lemma_utf8_len_add(facts, transformations_line(ts));
        assert(with_ts.take(facts_heading().len() as int) =~= facts.take(facts_heading().len() as int));
    }
    let nl = "\n"@;
    reveal_strlit("\n");
    let a = with_ts + nl + request_text();
    assert(a == assembled_text(order, ts, max));
    text::lemma_utf8_len_add(with_ts, nl);
    text::lemma_utf8_len_add(with_ts + nl, request_text());
    assert(text::utf8_len(nl) == 1) by {
        assert(nl.len() == 1 && nl[0] == '\n');
        assert(nl.drop_last() =~= Seq::<char>::empty());
        assert(text::utf8_len(Seq::<char>::empty()) == 0);
        assert(text::utf8_width('\n') == 1);
    }
    assert(out.text@ == a);
    assert(a.take(facts_heading().len() as int) =~= with_ts.take(facts_heading().len() as int));
    assert(a.skip(a.len() - request_text().len() - 1) =~= nl + request_text());
}

/// A permutation of `0..n` holds every position below `n`.
proof fn lemma_permutation_covers(p: Seq<int>, n: nat)
    requires
        is_permutation(p, n),
    ensures
        forall|k: int| 0 <= k < n ==> p.contains(k),
        p.no_duplicates(),
{
    assert forall|i: int, j: int| 0 <= i < p.len() && 0 <= j < p.len() && i != j implies p[i] != p[j] by {
        if i < j {
            assert(p[i] != p[j]);
        } else {
            assert(p[j] != p[i]);
        }
    }
    p.unique_seq_to_set();
    vstd::seq_lib::seq_to_set_is_finite(p);
    vstd::set_lib::lemma_int_range(0, n as int);
    let range = vstd::set_lib::set_int_range(0, n as int);
    assert forall|k: int| p.to_set().contains(k) implies range.contains(k) by {
        let i = choose|i: int| 0 <= i < p.len() && p[i] == k;
        assert(0 <= p[i] < n);
    }
    vstd::set_lib::lemma_subset_equality(p.to_set(), range);
    assert forall|k: int| 0 <= k < n implies p.contains(k) by {
        assert(range.contains(k));
        assert(p.to_set().contains(k));
    }
}

pub open spec fn position_order_fn(ev: Seq<EvidenceView>) -> spec_fn(int, int) -> bool {
    |a: int, b: int| output_rank(ev[a]) < output_rank(ev[b]) || (output_rank(ev[a]) == output_rank(ev[b]) && a < b)
}

/// The output order of the evidence is determined by the evidence.
pub proof fn lemma_output_order_unique(ev: Seq<EvidenceView>, a: Seq<EvidenceView>, b: Seq<EvidenceView>)
    requires
        output_order(ev, a),
        output_order(ev, b),
    ensures
        a == b,
{
    let pa = choose|p: Seq<int>| stable_sort_by_rank(ev, a, p);
    let pb = choose|p: Seq<int>| stable_sort_by_rank(ev, b, p);
    let n = ev.len();
    lemma_permutation_covers(pa, n);
    lemma_permutation_covers(pb, n);
    assert forall|k: int| pa.contains(k) <==> pb.contains(k) by {
        if pa.contains(k) {
            let i = choose|i: int| 0 <= i < pa.len() && pa[i] == k;
            assert(0 <= pa[i] < n);
        }
        if pb.contains(k) {
            let i = choose|i: int| 0 <= i < pb.len() && pb[i] == k;
            assert(0 <= pb[i] < n);
        }
    }
    crate::order::lemma_same_elements_same_multiset(pa, pb);
    let f = position_order_fn(ev);
    assert forall|x: int, y: int| #[trigger] f(x, y) implies !f(y, x) by {}
    assert forall|i: int, j: int| 0 <= i < j < pa.len() implies f(#[trigger] pa[i], #[trigger] pa[j]) by {
        assert(a[i] == ev[pa[i]]);
        assert(a[j] == ev[pa[j]]);
        assert(output_rank(a[i]) <= output_rank(a[j]));
    }
    assert forall|i: int, j: int| 0 <= i < j < pb.len() implies f(#[trigger] pb[i], #[trigger] pb[j]) by {
        assert(b[i] == ev[pb[i]]);
        assert(b[j] == ev[pb[j]]);
        assert(output_rank(b[i]) <= output_rank(b[j]));
    }
    crate::order::lemma_sorted_unique(pa, pb, f);
    assert forall|i: int| 0 <= i < a.len() implies #[trigger] a[i] == b[i] by {
        assert(a[i] == ev[pa[i]]);
        assert(b[i] == ev[pb[i]]);
    }
    assert(a =~= b);
}

/// The compiled output is determined by the evidence, the transformations
/// and the budget.
pub proof fn lemma_compiled_output_unique(
    es: Seq<EvidenceView>,
    ts: Seq<TransformationView>,
    budget: OutputBudget,
    a: CompiledOutput,
    b: CompiledOutput,
)
    requires
        is_compiled_output(es, ts, budget, a),
        is_compiled_output(es, ts, budget, b),
    ensures
        a.text@ == b.text@,
        a.estimated_tokens == b.estimated_tokens,
        a.omitted_evidence == b.omitted_evidence,
{
    let max = byte_limit_of(budget) as int;
    let oa = choose|order: Seq<EvidenceView>|
        {
            &&& output_order(es, order)
            &&& a.text@ == compiled_text(order, ts, max)
            &&& a.omitted_evidence == facts_section(order, max).1
        };
    let ob = choose|order: Seq<EvidenceView>|
        {
            &&& output_order(es, order)
            &&& b.text@ == compiled_text(order, ts, max)
            &&& b.omitted_evidence == facts_section(order, max).1
        };
    lemma_output_order_unique(es, oa, ob);
}

/// The total length of the `{kind}={count}` entries of transformations.
pub open spec fn entries_length(ts: Seq<TransformationView>) -> nat
    decreases ts.len(),
{
    if ts.len() == 0 {
        0
    } else {
        entries_length(ts.drop_last()) + ts.last().kind.len() + 1 + text::decimal(ts.last().count as nat).len()
    }
}

proof fn lemma_occurs_in_prefix(a: Seq<char>, b: Seq<char>, needle: Seq<char>, i: int)
    requires
        text::occurs_at(a, needle, i),
    ensures
        text::occurs_at(a + b, needle, i),
{
    assert((a + b).subrange(i, i + needle.len()) =~= a.subrange(i, i + needle.len()));
}

/// The transformations section names every transformation, in order of
/// input: each `{kind}={count}` occurs in the summary, and the summary is
/// exactly as long as those entries with `, ` between each two.
pub proof fn lemma_summary_names_every_transformation(ts: Seq<TransformationView>)
    ensures
        forall|i: int| 0 <= i < ts.len() ==> text::has_substring(
            transformation_summary(ts),
            (#[trigger] ts[i]).kind + "="@ + text::decimal(ts[i].count as nat),
        ),
        transformation_summary(ts).len() == entries_length(ts) + if ts.len() > 0 { 2 * (ts.len() - 1) } else { 0 },
    decreases ts.len(),
{
    reveal_strlit("=");
    reveal_strlit(", ");
    if ts.len() > 0 {
        let d = ts.drop_last();
        lemma_summary_names_every_transformation(d);
        let last = ts.last();
        let e = last.kind + "="@ + text::decimal(last.count as nat);
        assert(transformation_entry(last) == e);
        if ts.len() == 1 {
            assert(transformation_summary(ts) == e);
            assert forall|i: int| 0 <= i < ts.len() implies text::has_substring(
                transformation_summary(ts),
                (#[trigger] ts[i]).kind + "="@ + text::decimal(ts[i].count as nat),
            ) by {
                assert(ts[i] == last);
                assert(text::occurs_at(e, e, 0)) by {
                    assert(e.subrange(0, e.len() as int) =~= e);
                }
            }
        } else {
            let prefix = transformation_summary(d);
            assert(transformation_summary(ts) == prefix + ", "@ + e);
            assert forall|i: int| 0 <= i < ts.len() implies text::has_substring(
                transformation_summary(ts),
                (#[trigger] ts[i]).kind + "="@ + text::decimal(ts[i].count as nat),
            ) by {
                if i < d.len() {
                    assert(ts[i] == d[i]);
                    let n = ts[i].kind + "="@ + text::decimal(ts[i].count as nat);
                    assert(text::has_substring(prefix, n));
                    let k = choose|k: int| text::occurs_at(prefix, n, k);
                    lemma_occurs_in_prefix(prefix, ", "@ + e, n, k);
                    assert(prefix + (", "@ + e) =~= prefix + ", "@ + e);
                } else {
                    assert(ts[i] == last);
                    let whole = prefix + ", "@ + e;
                    let at: int = prefix.len() as int + 2;
                    assert(whole.subrange(at, at + e.len()) =~= e);
                    assert(text::occurs_at(whole, e, at));
                }
            }
        }
    }
}

} // verus!
