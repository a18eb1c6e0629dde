//! The analysis pipeline: normalize, run packs, merge, redact, fingerprint, compile.
use vstd::prelude::*;
use crate::compiler::{self, OutputBudget, compile};
use crate::fingerprint::{self, fingerprint};
use crate::graph::{self, merge};
use crate::model::{
    AnalysisDepth, DraftView, Evidence, EvidenceDraft, EvidenceView, IssueContext, SCHEMA_VERSION,
    Transformation, TransformationView, depth_order, depth_rank, draft_views, evidence_views,
    transformation_views,
};
use crate::normalize::{self, NormalizedInput, normalize};
use crate::pack::{self, CapabilityPack, OutputView, PackRun, RegistryOutput};
use crate::redact::{self, redact_evidence};
use crate::text::{self, append_str, chars_of, string_of};
use crate::universal::{self, UniversalPack};

verus! {

/// The deepest analysis among the pack outputs (generic where there is none).
pub open spec fn max_depth(outs: Seq<OutputView>) -> AnalysisDepth
    decreases outs.len(),
{
    if outs.len() == 0 {
        AnalysisDepth::Generic
    } else {
        let d = max_depth(outs.drop_last());
        if depth_rank(outs.last().depth) > depth_rank(d) {
            outs.last().depth
        } else {
            d
        }
    }
}

/// The evidence of all pack outputs, in order.
pub open spec fn all_evidence(outs: Seq<OutputView>) -> Seq<DraftView>
    decreases outs.len(),
{
    if outs.len() == 0 {
        Seq::empty()
    } else {
        all_evidence(outs.drop_last()) + outs.last().evidence
    }
}

/// The transformations of all pack outputs, in order.
pub open spec fn all_transformations(outs: Seq<OutputView>) -> Seq<TransformationView>
    decreases outs.len(),
{
    if outs.len() == 0 {
        Seq::empty()
    } else {
        all_transformations(outs.drop_last()) + outs.last().transformations
    }
}

/// One `capability_failed` transformation per failed pack.
pub open spec fn failure_transformations(fails: Seq<(Seq<char>, Seq<char>)>) -> Seq<TransformationView> {
    Seq::new(
        fails.len(),
        |i: int|
            TransformationView {
                kind: "capability_failed"@,
                detail: fails[i].0 + ": "@ + fails[i].1,
                count: 1,
            },
    )
}

/// Every piece of evidence redacted.
pub open spec fn redact_all(es: Seq<EvidenceView>) -> Seq<EvidenceView> {
    Seq::new(es.len(), |i: int| redact::redacted_evidence(es[i]))
}

/// `r` is the issue context of normalization transformations `nt`, pack
/// outputs `outs` and failures `fails` under `budget`.
pub open spec fn is_context_of(
    nt: Seq<TransformationView>,
    outs: Seq<OutputView>,
    fails: Seq<(Seq<char>, Seq<char>)>,
    budget: OutputBudget,
    r: IssueContext,
) -> bool {
    exists|merged: Seq<EvidenceView>|
        {
            &&& graph::is_merge_of(all_evidence(outs), merged)
            &&& r.schema_version == SCHEMA_VERSION
            &&& r.analysis_depth == max_depth(outs)
            &&& evidence_views(r.evidence@) == redact_all(merged)
            &&& transformation_views(r.transformations@) == nt + all_transformations(outs)
                + failure_transformations(fails) + redact::redaction_transformations(merged)
            &&& r.fingerprint@ == fingerprint::fingerprint_of(evidence_views(r.evidence@))
            &&& compiler::is_compiled_output(
                evidence_views(r.evidence@),
                transformation_views(r.transformations@),
                budget,
                r.output,
            )
        }
}

/// Builds the issue context from the normalized input and what the packs
/// produced: evidence merged and redacted, all transformations in order,
/// the fingerprint and the compiled output.
pub fn assemble_context(
    normalized: NormalizedInput,
    registry_output: RegistryOutput,
    budget: OutputBudget,
) -> (r: IssueContext)
    ensures
        is_context_of(
            transformation_views(normalized.transformations@),
            pack::output_views(registry_output.outputs@),
            pack::failure_views(registry_output.failures@),
            budget,
            r,
        ),
{
    let ghost outs = pack::output_views(registry_output.outputs@);
    let ghost fails = pack::failure_views(registry_output.failures@);
    let ghost nt = transformation_views(normalized.transformations@);
    let mut depth = AnalysisDepth::Generic;
    let mut transformations = normalized.transformations;
    let mut drafts: Vec<EvidenceDraft> = Vec::new();
    let mut i: usize = 0;
    while i < registry_output.outputs.len()
        invariant
            i <= registry_output.outputs@.len(),
            outs == pack::output_views(registry_output.outputs@),
            depth == max_depth(outs.take(i as int)),
            draft_views(drafts@) == all_evidence(outs.take(i as int)),
            transformation_views(transformations@) == nt + all_transformations(outs.take(i as int)),
        decreases registry_output.outputs@.len() - i,
    {
        let (descriptor, output) = &registry_output.outputs[i];
        proof {
            let t = outs.take(i as int + 1);
            assert(t.drop_last() =~= outs.take(i as int));
            assert(t.last() == pack::output_view(registry_output.outputs@[i as int]));
        }
        if depth_order(descriptor.depth) > depth_order(depth) {
            depth = descriptor.depth;
        }
        let mut j: usize = 0;
        let ghost before_drafts = draft_views(drafts@);
        while j < output.evidence.len()
            invariant
                j <= output.evidence@.len(),
                draft_views(drafts@) == before_drafts + draft_views(output.evidence@).take(j as int),
            decreases output.evidence@.len() - j,
        {
            let ghost prev = draft_views(drafts@);
            drafts.push(output.evidence[j].copy());
            assert(draft_views(drafts@) =~= prev.push(output.evidence@[j as int]@));
            assert(draft_views(output.evidence@).take(j as int + 1) =~= draft_views(output.evidence@).take(j as int).push(output.evidence@[j as int]@));
            assert(draft_views(drafts@) =~= before_drafts + draft_views(output.evidence@).take(j as int + 1));
            j = j + 1;
        }
        assert(draft_views(output.evidence@).take(j as int) =~= draft_views(output.evidence@));
        let mut j: usize = 0;
        let ghost before_ts = transformation_views(transformations@);
        while j < output.transformations.len()
            invariant
                j <= output.transformations@.len(),
                transformation_views(transformations@) == before_ts + transformation_views(output.transformations@).take(j as int),
            decreases output.transformations@.len() - j,
        {
            let ghost prev = transformation_views(transformations@);
            transformations.push(output.transformations[j].copy());
            assert(transformation_views(transformations@) =~= prev.push(output.transformations@[j as int]@));
            assert(transformation_views(output.transformations@).take(j as int + 1) =~= transformation_views(output.transformations@).take(j as int).push(output.transformations@[j as int]@));
            assert(transformation_views(transformations@) =~= before_ts + transformation_views(output.transformations@).take(j as int + 1));
            j = j + 1;
        }
        assert(transformation_views(output.transformations@).take(j as int) =~= transformation_views(output.transformations@));
        proof {
            let t = outs.take(i as int + 1);
            assert(draft_views(drafts@) =~= all_evidence(t));
            assert(transformation_views(transformations@) =~= nt + all_transformations(t));
        }
        i = i + 1;
    }
    assert(outs.take(i as int) =~= outs);
    let ghost before_failures = transformation_views(transformations@);
    let mut k: usize = 0;
    while k < registry_output.failures.len()
        invariant
            k <= registry_output.failures@.len(),
            fails == pack::failure_views(registry_output.failures@),
            transformation_views(transformations@) == before_failures + failure_transformations(fails).take(k as int),
        decreases registry_output.failures@.len() - k,
    {
        let failure = &registry_output.failures[k];
        let mut detail = chars_of(failure.capability_id.as_str());
        append_str(&mut detail, ": ");
        append_str(&mut detail, failure.message.as_str());
        let ghost prev = transformation_views(transformations@);
        let t = Transformation { kind: "capability_failed".to_owned(), detail: string_of(&detail), count: 1 };
        assert(t@ == failure_transformations(fails)[k as int]);
        transformations.push(t);
        assert(transformation_views(transformations@) =~= prev.push(failure_transformations(fails)[k as int]));
        assert(failure_transformations(fails).take(k as int + 1) =~= failure_transformations(fails).take(k as int).push(failure_transformations(fails)[k as int]));
        assert(transformation_views(transformations@) =~= before_failures + failure_transformations(fails).take(k as int + 1));
        k = k + 1;
    }
    assert(failure_transformations(fails).take(k as int) =~= failure_transformations(fails));
    let mut evidence = merge(drafts);
    let ghost merged = evidence_views(evidence@);
    let redactions = redact_evidence(&mut evidence);
    assert(evidence_views(evidence@) =~= redact_all(merged));
    let ghost before_redactions = transformation_views(transformations@);
    let mut m: usize = 0;
    while m < redactions.len()
        invariant
            m <= redactions@.len(),
            transformation_views(transformations@) == before_redactions + transformation_views(redactions@).take(m as int),
        decreases redactions@.len() - m,
    {
        let ghost prev = transformation_views(transformations@);
        transformations.push(redactions[m].copy());
        assert(transformation_views(transformations@) =~= prev.push(redactions@[m as int]@));
        assert(transformation_views(redactions@).take(m as int + 1) =~= transformation_views(redactions@).take(m as int).push(redactions@[m as int]@));
        assert(transformation_views(transformations@) =~= before_redactions + transformation_views(redactions@).take(m as int + 1));
        m = m + 1;
    }
    assert(transformation_views(redactions@).take(m as int) =~= transformation_views(redactions@));
    let fingerprint = fingerprint(evidence.as_slice());
    let output = compile(evidence.as_slice(), transformations.as_slice(), budget);
    let r = IssueContext {
        schema_version: SCHEMA_VERSION,
        analysis_depth: depth,
        evidence,
        transformations,
        fingerprint,
        output,
    };
    assert(graph::is_merge_of(all_evidence(outs), merged));
    r
}

/// The analysis pipeline with its default capability pack, the universal pack.
pub struct Pipeline {
    pack: UniversalPack,
}

impl Default for Pipeline {
    fn default() -> (r: Pipeline) {
        Pipeline { pack: UniversalPack }
    }
}

/// The pack output the universal pack contributes for a raw input.
pub open spec fn universal_output(raw: Seq<char>) -> OutputView {
    let t = normalize::normalized_text(raw);
    OutputView {
        id: universal::universal_id(),
        depth: AnalysisDepth::Generic,
        evidence: universal::universal_evidence(t),
        transformations: universal::universal_transformations(t),
    }
}

impl Pipeline {
    /// Analyzes raw input: normalizes it, runs the universal pack on it and
    /// assembles the context for the budget.
    pub fn analyze(&self, raw: &str, budget: OutputBudget) -> (r: IssueContext)
        ensures
            is_context_of(
                normalize::normalize_transformations(raw@),
                seq![universal_output(raw@)],
                Seq::empty(),
                budget,
                r,
            ),
    {
        let normalized = normalize(raw);
        let output = self.pack.analyze_text(&normalized);
        let descriptor = self.pack.descriptor();
        let mut registry_output = RegistryOutput::default();
        registry_output.record(descriptor, PackRun::Completed(Ok(output)));
        assert(pack::output_views(registry_output.outputs@) =~= seq![universal_output(raw@)]);
        assert(pack::failure_views(registry_output.failures@) =~= Seq::empty());
        assemble_context(normalized, registry_output, budget)
    }
}

/// A copy of a context is a context of the same inputs.
pub proof fn lemma_context_of_copy(
    nt: Seq<TransformationView>,
    outs: Seq<OutputView>,
    fails: Seq<(Seq<char>, Seq<char>)>,
    budget: OutputBudget,
    a: IssueContext,
    b: IssueContext,
)
    requires
        is_context_of(nt, outs, fails, budget, a),
        crate::model::same_context(a, b),
    ensures
        is_context_of(nt, outs, fails, budget, b),
{
    let merged = choose|merged: Seq<EvidenceView>|
        {
            &&& graph::is_merge_of(all_evidence(outs), merged)
            &&& a.schema_version == SCHEMA_VERSION
            &&& a.analysis_depth == max_depth(outs)
            &&& evidence_views(a.evidence@) == redact_all(merged)
            &&& transformation_views(a.transformations@) == nt + all_transformations(outs)
                + failure_transformations(fails) + redact::redaction_transformations(merged)
            &&& a.fingerprint@ == fingerprint::fingerprint_of(evidence_views(a.evidence@))
            &&& compiler::is_compiled_output(
                evidence_views(a.evidence@),
                transformation_views(a.transformations@),
                budget,
                a.output,
            )
        };
    let es = evidence_views(a.evidence@);
    let ts = transformation_views(a.transformations@);
    let lim = compiler::byte_limit_of(budget) as int;
    let order = choose|order: Seq<EvidenceView>|
        {
            &&& compiler::output_order(es, order)
            &&& a.output.text@ == compiler::compiled_text(order, ts, lim)
            &&& a.output.omitted_evidence == compiler::facts_section(order, lim).1
        };
    assert(compiler::is_compiled_output(es, ts, budget, b.output));
    assert(graph::is_merge_of(all_evidence(outs), merged));
}

/// Every piece of evidence in a context of the default pipeline keeps at
/// least one source, and each source names the normalized input and the
/// universal pack.
pub proof fn lemma_context_evidence_is_traceable(raw: Seq<char>, budget: OutputBudget, r: IssueContext)
    requires
        is_context_of(
            normalize::normalize_transformations(raw),
            seq![universal_output(raw)],
            Seq::empty(),
            budget,
            r,
        ),
    ensures
        forall|i: int| 0 <= i < r.evidence@.len() ==> (#[trigger] evidence_views(r.evidence@)[i]).provenance.len() >= 1,
        forall|i: int, p: int| 0 <= i < r.evidence@.len() && 0 <= p < evidence_views(r.evidence@)[i].provenance.len()
            ==> (#[trigger] evidence_views(r.evidence@)[i].provenance[p]).capability_id == universal::universal_id()
                && evidence_views(r.evidence@)[i].provenance[p].source_id == "normalized_input"@,
{
    let outs = seq![universal_output(raw)];
    let nt = normalize::normalize_transformations(raw);
    let fails = Seq::<(Seq<char>, Seq<char>)>::empty();
    let merged = choose|merged: Seq<EvidenceView>|
        {
            &&& graph::is_merge_of(all_evidence(outs), merged)
            &&& r.schema_version == SCHEMA_VERSION
            &&& r.analysis_depth == max_depth(outs)
            &&& evidence_views(r.evidence@) == redact_all(merged)
            &&& transformation_views(r.transformations@) == nt + all_transformations(outs)
                + failure_transformations(fails) + redact::redaction_transformations(merged)
            &&& r.fingerprint@ == fingerprint::fingerprint_of(evidence_views(r.evidence@))
            &&& compiler::is_compiled_output(
                evidence_views(r.evidence@),
                transformation_views(r.transformations@),
                budget,
                r.output,
            )
        };
    let ds = all_evidence(outs);
    let t = normalize::normalized_text(raw);
    assert(outs.drop_last() =~= Seq::<OutputView>::empty());
    assert(outs.last() == universal_output(raw));
    assert(all_evidence(outs.drop_last()) == Seq::<DraftView>::empty());
    assert(ds =~= Seq::<DraftView>::empty() + universal::universal_evidence(t));
    assert(ds =~= universal::universal_evidence(t));
    graph::lemma_merge_keeps_sources(ds, merged);
    universal::lemma_evidence_names_its_source(t);
    let ev = evidence_views(r.evidence@);
    assert forall|i: int| 0 <= i < r.evidence@.len() implies (#[trigger] evidence_views(r.evidence@)[i]).provenance.len() >= 1 by {
        assert(ev[i] == redact::redacted_evidence(merged[i]));
        assert(merged[i].provenance.len() >= 1);
    }
    assert forall|i: int, p: int| 0 <= i < r.evidence@.len() && 0 <= p < evidence_views(r.evidence@)[i].provenance.len()
        implies (#[trigger] evidence_views(r.evidence@)[i].provenance[p]).capability_id == universal::universal_id()
            && evidence_views(r.evidence@)[i].provenance[p].source_id == "normalized_input"@ by {
        assert(ev[i] == redact::redacted_evidence(merged[i]));
        assert(ev[i].provenance == merged[i].provenance);
        let j = choose|j: int| 0 <= j < ds.len() && graph::draft_key(#[trigger] ds[j]) == graph::evidence_key(merged[i])
            && ds[j].provenance == merged[i].provenance[p];
        assert(ds[j].provenance.capability_id == universal::universal_id());
    }
}

/// The budget changes only the compiled output: two contexts of the same
/// inputs under any budgets hold the same depth, evidence, transformations
/// and fingerprint, and each output is the compilation of that evidence and
/// those transformations under its own budget.
pub proof fn lemma_budget_changes_only_output(
    nt: Seq<TransformationView>,
    outs: Seq<OutputView>,
    fails: Seq<(Seq<char>, Seq<char>)>,
    b1: OutputBudget,
    b2: OutputBudget,
    r1: IssueContext,
    r2: IssueContext,
)
    requires
        is_context_of(nt, outs, fails, b1, r1),
        is_context_of(nt, outs, fails, b2, r2),
    ensures
        r1.schema_version == r2.schema_version,
        r1.analysis_depth == r2.analysis_depth,
        evidence_views(r1.evidence@) == evidence_views(r2.evidence@),
        transformation_views(r1.transformations@) == transformation_views(r2.transformations@),
        r1.fingerprint@ == r2.fingerprint@,
        compiler::is_compiled_output(evidence_views(r1.evidence@), transformation_views(r1.transformations@), b2, r2.output),
        b1 == b2 ==> r1.output.text@ == r2.output.text@ && r1.output.estimated_tokens == r2.output.estimated_tokens
            && r1.output.omitted_evidence == r2.output.omitted_evidence,
{
    let m1 = choose|merged: Seq<EvidenceView>|
        {
            &&& graph::is_merge_of(all_evidence(outs), merged)
            &&& r1.schema_version == SCHEMA_VERSION
            &&& r1.analysis_depth == max_depth(outs)
            &&& evidence_views(r1.evidence@) == redact_all(merged)
            &&& transformation_views(r1.transformations@) == nt + all_transformations(outs)
                + failure_transformations(fails) + redact::redaction_transformations(merged)
            &&& r1.fingerprint@ == fingerprint::fingerprint_of(evidence_views(r1.evidence@))
            &&& compiler::is_compiled_output(
                evidence_views(r1.evidence@),
                transformation_views(r1.transformations@),
                b1,
                r1.output,
            )
        };
    let m2 = choose|merged: Seq<EvidenceView>|
        {
            &&& graph::is_merge_of(all_evidence(outs), merged)
            &&& r2.schema_version == SCHEMA_VERSION
            &&& r2.analysis_depth == max_depth(outs)
            &&& evidence_views(r2.evidence@) == redact_all(merged)
            &&& transformation_views(r2.transformations@) == nt + all_transformations(outs)
                + failure_transformations(fails) + redact::redaction_transformations(merged)
            &&& r2.fingerprint@ == fingerprint::fingerprint_of(evidence_views(r2.evidence@))
            &&& compiler::is_compiled_output(
                evidence_views(r2.evidence@),
                transformation_views(r2.transformations@),
                b2,
                r2.output,
            )
        };
    graph::lemma_merge_unique(all_evidence(outs), m1, m2);
    if b1 == b2 {
        compiler::lemma_compiled_output_unique(
            evidence_views(r1.evidence@),
            transformation_views(r1.transformations@),
            b1,
            r1.output,
            r2.output,
        );
    }
}

/// A context of the default pipeline has schema version 1 and generic
/// depth, numbers its evidence 1, 2, … in order, and lists the
/// normalization's transformations first.
#[verifier::rlimit(40)]
pub proof fn lemma_default_context_shape(raw: Seq<char>, budget: OutputBudget, r: IssueContext)
    requires
        is_context_of(
            normalize::normalize_transformations(raw),
            seq![universal_output(raw)],
            Seq::empty(),
            budget,
            r,
        ),
    ensures
        r.schema_version == 1,
        r.analysis_depth == AnalysisDepth::Generic,
        forall|i: int| 0 <= i < r.evidence@.len() ==> (#[trigger] evidence_views(r.evidence@)[i]).id == i + 1,
        transformation_views(r.transformations@).take(normalize::normalize_transformations(raw).len() as int)
            == normalize::normalize_transformations(raw),
{
    let outs = seq![universal_output(raw)];
    let nt = normalize::normalize_transformations(raw);
    let fails = Seq::<(Seq<char>, Seq<char>)>::empty();
    let merged = choose|merged: Seq<EvidenceView>|
        {
            &&& graph::is_merge_of(all_evidence(outs), merged)
            &&& r.schema_version == SCHEMA_VERSION
            &&& r.analysis_depth == max_depth(outs)
            &&& evidence_views(r.evidence@) == redact_all(merged)
            &&& transformation_views(r.transformations@) == nt + all_transformations(outs)
                + failure_transformations(fails) + redact::redaction_transformations(merged)
            &&& r.fingerprint@ == fingerprint::fingerprint_of(evidence_views(r.evidence@))
            &&& compiler::is_compiled_output(
                evidence_views(r.evidence@),
                transformation_views(r.transformations@),
                budget,
                r.output,
            )
        };
    assert(r.analysis_depth == AnalysisDepth::Generic) by {
        assert(outs.drop_last() =~= Seq::<OutputView>::empty());
        assert(max_depth(outs.drop_last()) == AnalysisDepth::Generic);
        assert(outs.last().depth == AnalysisDepth::Generic);
    }
    assert forall|i: int| 0 <= i < r.evidence@.len() implies (#[trigger] evidence_views(r.evidence@)[i]).id == i + 1 by {
        graph::lemma_merge_shape(all_evidence(outs), merged);
        assert(evidence_views(r.evidence@)[i] == redact::redacted_evidence(merged[i]));
        assert(merged[i].id == i + 1);
    }
    assert(transformation_views(r.transformations@).take(nt.len() as int) == nt) by {
        let tv = transformation_views(r.transformations@);
        assert(tv.take(nt.len() as int) =~= nt);
    }
}

} // verus!
