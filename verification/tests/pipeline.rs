use devtriage::compiler::OutputBudget;
use devtriage::model::{AnalysisDepth, EvidenceKind, Sensitivity};
use devtriage::pipeline::Pipeline;

const JS_ERROR_LOG: &str = "TypeError: Cannot read properties of undefined (reading 'name')\n    at renderUser (src/pages/UserList.tsx:42:7)\n    at renderUser (src/pages/UserList.tsx:42:7)\n";
const MIXED_SECRETS_LOG: &str = "Fatal error for user=developer@example.com\ntoken=do-not-leak-this\n    at request (src/api/client.ts:18:3)\n";

#[test]
fn compiles_a_redacted_traceable_context() {
    let context = Pipeline::default().analyze(JS_ERROR_LOG, OutputBudget::Standard);
    assert_eq!(context.schema_version, 1);
    assert!(context.output.text.contains("TypeError"));
    assert!(context.output.text.contains("src/pages/UserList.tsx:42:7"));
    assert!(context
        .transformations
        .iter()
        .any(|item| item.kind == "duplicate_lines_collapsed"));
    assert_eq!(context.fingerprint.len(), 64);
}

#[test]
fn secrets_never_reach_compiled_output() {
    let context = Pipeline::default().analyze(MIXED_SECRETS_LOG, OutputBudget::Standard);
    assert!(!context.output.text.contains("do-not-leak-this"));
    assert!(!context.output.text.contains("developer@example.com"));
    assert!(context.output.text.contains("[REDACTED:CREDENTIAL]"));
}

#[test]
fn duplicate_frames_merge_into_one_evidence_with_sequential_ids() {
    let context = Pipeline::default().analyze(JS_ERROR_LOG, OutputBudget::Detailed);
    assert_eq!(context.analysis_depth, AnalysisDepth::Generic);
    let frames: Vec<_> = context
        .evidence
        .iter()
        .filter(|e| e.kind == EvidenceKind::StackFrame)
        .collect();
    assert_eq!(frames.len(), 1);
    assert_eq!(frames[0].provenance.len(), 2);
    for (index, item) in context.evidence.iter().enumerate() {
        assert_eq!(item.id, index as u64 + 1);
    }
}

#[test]
fn redacted_evidence_is_marked_secret_and_reported() {
    let context = Pipeline::default().analyze(MIXED_SECRETS_LOG, OutputBudget::Compact);
    assert!(context
        .evidence
        .iter()
        .all(|e| !e.value.contains("do-not-leak-this") && !e.value.contains("developer@example.com")));
    assert!(context
        .evidence
        .iter()
        .any(|e| e.sensitivity == Sensitivity::Secret));
    let kinds: Vec<&str> = context.transformations.iter().map(|t| t.kind.as_str()).collect();
    assert!(kinds.contains(&"credential_redacted"));
    assert!(kinds.contains(&"email_redacted"));
    assert!(context.output.estimated_tokens <= 500);
}

#[test]
fn analysis_is_deterministic() {
    let a = Pipeline::default().analyze(MIXED_SECRETS_LOG, OutputBudget::Standard);
    let b = Pipeline::default().analyze(MIXED_SECRETS_LOG, OutputBudget::Standard);
    assert_eq!(a, b);
}

#[test]
fn ansi_input_is_cleaned_before_analysis() {
    let context = Pipeline::default().analyze("\u{1b}[31merror: x\u{1b}[0m\r\n", OutputBudget::Standard);
    assert_eq!(context.transformations[0].kind, "ansi_removed");
    assert_eq!(context.transformations[0].count, 2);
    assert!(context.evidence.iter().any(|e| e.kind == EvidenceKind::Error && e.value == "error: x"));
}

#[test]
fn every_evidence_names_its_source_and_pack() {
    let context = Pipeline::default().analyze(MIXED_SECRETS_LOG, OutputBudget::Standard);
    assert!(!context.evidence.is_empty());
    for item in &context.evidence {
        assert!(!item.provenance.is_empty());
        for source in &item.provenance {
            assert_eq!(source.source_id, "normalized_input");
            assert_eq!(source.capability_id, "official.universal");
        }
    }
}
