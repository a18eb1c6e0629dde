//! The issue context model: evidence, provenance, transformations and output.
use vstd::prelude::*;

verus! {

pub const SCHEMA_VERSION: u16 = 1;

/// How deep the analysis that produced a context went.
#[derive(Debug, Clone, Copy, PartialEq, Eq, Structural, PartialOrd, Ord, Hash)]
pub enum AnalysisDepth {
    Generic,
    Structured,
    Deep,
}

/// What a piece of evidence is.
#[derive(Debug, Clone, Copy, PartialEq, Eq, Structural, PartialOrd, Ord, Hash)]
pub enum EvidenceKind {
    Error,
    StackFrame,
    FilePath,
    Runtime,
    Project,
    LogExcerpt,
}

/// How sensitive a piece of evidence is.
#[derive(Debug, Clone, Copy, PartialEq, Eq, Structural, PartialOrd, Ord, Hash)]
pub enum Sensitivity {
    Public,
    Sensitive,
    Secret,
}

/// Position of an enum value in its declaration order (the order `Ord` uses).
pub open spec fn depth_rank(d: AnalysisDepth) -> nat {
    match d {
        AnalysisDepth::Generic => 0,
        AnalysisDepth::Structured => 1,
        AnalysisDepth::Deep => 2,
    }
}

pub open spec fn kind_rank(k: EvidenceKind) -> nat {
    match k {
        EvidenceKind::Error => 0,
        EvidenceKind::StackFrame => 1,
        EvidenceKind::FilePath => 2,
        EvidenceKind::Runtime => 3,
        EvidenceKind::Project => 4,
        EvidenceKind::LogExcerpt => 5,
    }
}

pub open spec fn sensitivity_rank(s: Sensitivity) -> nat {
    match s {
        Sensitivity::Public => 0,
        Sensitivity::Sensitive => 1,
        Sensitivity::Secret => 2,
    }
}

pub fn depth_order(d: AnalysisDepth) -> (r: u8)
    ensures
        r == depth_rank(d),
{
    match d {
        AnalysisDepth::Generic => 0,
        AnalysisDepth::Structured => 1,
        AnalysisDepth::Deep => 2,
    }
}

pub fn kind_order(k: EvidenceKind) -> (r: u8)
    ensures
        r == kind_rank(k),
{
    match k {
        EvidenceKind::Error => 0,
        EvidenceKind::StackFrame => 1,
        EvidenceKind::FilePath => 2,
        EvidenceKind::Runtime => 3,
        EvidenceKind::Project => 4,
        EvidenceKind::LogExcerpt => 5,
    }
}

pub fn sensitivity_order(s: Sensitivity) -> (r: u8)
    ensures
        r == sensitivity_rank(s),
{
    match s {
        Sensitivity::Public => 0,
        Sensitivity::Sensitive => 1,
        Sensitivity::Secret => 2,
    }
}

/// Byte range of a piece of evidence in the normalized input.
#[derive(Debug, Clone, Copy, PartialEq, Eq, Structural)]
pub struct SourceRange {
    pub start: usize,
    pub end: usize,
}

/// Where a piece of evidence came from.
#[derive(Debug, Clone, PartialEq, Eq)]
pub struct Provenance {
    pub source_id: String,
    pub range: Option<SourceRange>,
    pub capability_id: String,
}

pub struct ProvenanceView {
    pub source_id: Seq<char>,
    pub range: Option<SourceRange>,
    pub capability_id: Seq<char>,
}

impl View for Provenance {
    type V = ProvenanceView;

    open spec fn view(&self) -> ProvenanceView {
        ProvenanceView {
            source_id: self.source_id@,
            range: self.range,
            capability_id: self.capability_id@,
        }
    }
}

/// Evidence as a capability pack reports it, before merging.
#[derive(Debug, Clone, PartialEq, Eq)]
pub struct EvidenceDraft {
    pub kind: EvidenceKind,
    pub value: String,
    pub confidence: u8,
    pub sensitivity: Sensitivity,
    pub provenance: Provenance,
}

pub struct DraftView {
    pub kind: EvidenceKind,
    pub value: Seq<char>,
    pub confidence: u8,
    pub sensitivity: Sensitivity,
    pub provenance: ProvenanceView,
}

impl View for EvidenceDraft {
    type V = DraftView;

    open spec fn view(&self) -> DraftView {
        DraftView {
            kind: self.kind,
            value: self.value@,
            confidence: self.confidence,
            sensitivity: self.sensitivity,
            provenance: self.provenance@,
        }
    }
}

/// A merged piece of evidence with a stable identifier.
#[derive(Debug, Clone, PartialEq, Eq)]
pub struct Evidence {
    pub id: u64,
    pub kind: EvidenceKind,
    pub value: String,
    pub confidence: u8,
    pub sensitivity: Sensitivity,
    pub provenance: Vec<Provenance>,
    pub related: Vec<u64>,
}

pub struct EvidenceView {
    pub id: u64,
    pub kind: EvidenceKind,
    pub value: Seq<char>,
    pub confidence: u8,
    pub sensitivity: Sensitivity,
    pub provenance: Seq<ProvenanceView>,
    pub related: Seq<u64>,
}

/// The views of a sequence of values.
pub open spec fn provenance_views(s: Seq<Provenance>) -> Seq<ProvenanceView> {
    Seq::new(s.len(), |i: int| s[i]@)
}

impl View for Evidence {
    type V = EvidenceView;

    open spec fn view(&self) -> EvidenceView {
        EvidenceView {
            id: self.id,
            kind: self.kind,
            value: self.value@,
            confidence: self.confidence,
            sensitivity: self.sensitivity,
            provenance: provenance_views(self.provenance@),
            related: self.related@,
        }
    }
}

pub open spec fn evidence_views(s: Seq<Evidence>) -> Seq<EvidenceView> {
    Seq::new(s.len(), |i: int| s[i]@)
}

pub open spec fn draft_views(s: Seq<EvidenceDraft>) -> Seq<DraftView> {
    Seq::new(s.len(), |i: int| s[i]@)
}

/// A change made to the input or the evidence, with how often it was made.
#[derive(Debug, Clone, PartialEq, Eq)]
pub struct Transformation {
    pub kind: String,
    pub detail: String,
    pub count: usize,
}

pub struct TransformationView {
    pub kind: Seq<char>,
    pub detail: Seq<char>,
    pub count: usize,
}

impl View for Transformation {
    type V = TransformationView;

    open spec fn view(&self) -> TransformationView {
        TransformationView { kind: self.kind@, detail: self.detail@, count: self.count }
    }
}

pub open spec fn transformation_views(s: Seq<Transformation>) -> Seq<TransformationView> {
    Seq::new(s.len(), |i: int| s[i]@)
}

/// The compiled context text and its budget accounting.
#[derive(Debug, Clone, PartialEq, Eq)]
pub struct CompiledOutput {
    pub text: String,
    pub estimated_tokens: usize,
    pub omitted_evidence: usize,
}

/// Everything one analysis produced.
#[derive(Debug, Clone, PartialEq, Eq)]
pub struct IssueContext {
    pub schema_version: u16,
    pub analysis_depth: AnalysisDepth,
    pub evidence: Vec<Evidence>,
    pub transformations: Vec<Transformation>,
    pub fingerprint: String,
    pub output: CompiledOutput,
}

/// A string equal to the given one.
pub fn copy_string(s: &String) -> (r: String)
    ensures
        r@ == s@,
{
    s.clone()
}

impl Provenance {
    pub fn copy(&self) -> (r: Provenance)
        ensures
            r@ == self@,
    {
        Provenance {
            source_id: copy_string(&self.source_id),
            range: self.range,
            capability_id: copy_string(&self.capability_id),
        }
    }

    /// Field-wise equality, as the derived `==` decides it.
    pub fn same_as(&self, other: &Provenance) -> (r: bool)
        ensures
            r == (self@ == other@),
    {
        self.source_id == other.source_id && self.range == other.range && self.capability_id
            == other.capability_id
    }
}

impl EvidenceDraft {
    pub fn copy(&self) -> (r: EvidenceDraft)
        ensures
            r@ == self@,
    {
        EvidenceDraft {
            kind: self.kind,
            value: copy_string(&self.value),
            confidence: self.confidence,
            sensitivity: self.sensitivity,
            provenance: self.provenance.copy(),
        }
    }
}

impl Transformation {
    pub fn copy(&self) -> (r: Transformation)
        ensures
            r@ == self@,
    {
        Transformation {
            kind: copy_string(&self.kind),
            detail: copy_string(&self.detail),
            count: self.count,
        }
    }
}

/// Copies of the provenance records.
pub fn copy_provenance(v: &Vec<Provenance>) -> (r: Vec<Provenance>)
    ensures
        provenance_views(r@) == provenance_views(v@),
{
    let mut r: Vec<Provenance> = Vec::new();
    let mut i: usize = 0;
    while i < v.len()
        invariant
            i <= v.len(),
            r@.len() == i,
            forall|k: int| 0 <= k < i ==> (#[trigger] r@[k])@ == v@[k]@,
        decreases v.len() - i,
    {
        r.push(v[i].copy());
        i = i + 1;
    }
    assert(provenance_views(r@) =~= provenance_views(v@));
    r
}

/// Copies of the identifiers.
pub fn copy_ids(v: &Vec<u64>) -> (r: Vec<u64>)
    ensures
        r@ == v@,
{
    let mut r: Vec<u64> = Vec::new();
    let mut i: usize = 0;
    while i < v.len()
        invariant
            i <= v.len(),
            r@ == v@.take(i as int),
        decreases v.len() - i,
    {
        r.push(v[i]);
        assert(v@.take(i as int + 1) =~= v@.take(i as int).push(v@[i as int]));
        i = i + 1;
    }
    assert(v@.take(v.len() as int) =~= v@);
    r
}

impl Evidence {
    pub fn copy(&self) -> (r: Evidence)
        ensures
            r@ == self@,
    {
        Evidence {
            id: self.id,
            kind: self.kind,
            value: copy_string(&self.value),
            confidence: self.confidence,
            sensitivity: self.sensitivity,
            provenance: copy_provenance(&self.provenance),
            related: copy_ids(&self.related),
        }
    }
}

pub fn copy_transformations(v: &Vec<Transformation>) -> (r: Vec<Transformation>)
    ensures
        transformation_views(r@) == transformation_views(v@),
{
    let mut r: Vec<Transformation> = Vec::new();
    let mut i: usize = 0;
    while i < v.len()
        invariant
            i <= v.len(),
            r@.len() == i,
            forall|k: int| 0 <= k < i ==> (#[trigger] r@[k])@ == v@[k]@,
        decreases v.len() - i,
    {
        r.push(v[i].copy());
        i = i + 1;
    }
    assert(transformation_views(r@) =~= transformation_views(v@));
    r
}

pub fn copy_evidence(v: &Vec<Evidence>) -> (r: Vec<Evidence>)
    ensures
        evidence_views(r@) == evidence_views(v@),
{
    let mut r: Vec<Evidence> = Vec::new();
    let mut i: usize = 0;
    while i < v.len()
        invariant
            i <= v.len(),
            r@.len() == i,
            forall|k: int| 0 <= k < i ==> (#[trigger] r@[k])@ == v@[k]@,
        decreases v.len() - i,
    {
        r.push(v[i].copy());
        i = i + 1;
    }
    assert(evidence_views(r@) =~= evidence_views(v@));
    r
}

/// Two contexts hold the same values.
pub open spec fn same_context(a: IssueContext, b: IssueContext) -> bool {
    &&& a.schema_version == b.schema_version
    &&& a.analysis_depth == b.analysis_depth
    &&& evidence_views(a.evidence@) == evidence_views(b.evidence@)
    &&& transformation_views(a.transformations@) == transformation_views(b.transformations@)
    &&& a.fingerprint@ == b.fingerprint@
    &&& a.output.text@ == b.output.text@
    &&& a.output.estimated_tokens == b.output.estimated_tokens
    &&& a.output.omitted_evidence == b.output.omitted_evidence
}

impl IssueContext {
    pub fn copy(&self) -> (r: IssueContext)
        ensures
            same_context(*self, r),
    {
        IssueContext {
            schema_version: self.schema_version,
            analysis_depth: self.analysis_depth,
            evidence: copy_evidence(&self.evidence),
            transformations: copy_transformations(&self.transformations),
            fingerprint: copy_string(&self.fingerprint),
            output: CompiledOutput {
                text: copy_string(&self.output.text),
                estimated_tokens: self.output.estimated_tokens,
                omitted_evidence: self.output.omitted_evidence,
            },
        }
    }
}

} // verus!
