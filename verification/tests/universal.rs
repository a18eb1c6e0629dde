use devtriage::model::{AnalysisDepth, EvidenceKind, Sensitivity, SourceRange};
use devtriage::normalize::NormalizedInput;
use devtriage::pack::CapabilityPack;
use devtriage::universal::{looks_like_error, looks_like_sensitive_candidate, UniversalPack};

fn input(text: &str) -> NormalizedInput {
    NormalizedInput { text: text.into(), transformations: vec![] }
}

fn chars(s: &str) -> Vec<char> {
    s.chars().collect()
}

#[test]
fn extracts_primary_error_and_source_location() {
    let input = input("TypeError: cannot read value\n  at render (src/UserList.tsx:42:7)");
    let output = UniversalPack.analyze(&input).unwrap();
    assert!(output.evidence.iter().any(|e| e.kind == EvidenceKind::Error));
    assert!(output
        .evidence
        .iter()
        .any(|e| e.kind == EvidenceKind::StackFrame && e.value == "src/UserList.tsx:42:7"));
}

#[test]
fn ignores_xcode_error_filter_labels_when_selecting_the_primary_error() {
    let input = input("Showing All Errors Only\nXcode couldn't find any iOS App Development provisioning profiles matching 'Netease.NeteaseMusicTests'.");
    let output = UniversalPack.analyze(&input).unwrap();
    let primary_error = output
        .evidence
        .iter()
        .find(|evidence| evidence.kind == EvidenceKind::Error)
        .expect("a provisioning failure should be classified as an error");
    assert_eq!(
        primary_error.value,
        "Xcode couldn't find any iOS App Development provisioning profiles matching 'Netease.NeteaseMusicTests'."
    );
}

#[test]
fn reports_duplicate_lines() {
    let output = UniversalPack.analyze(&input("warning: retry\nwarning: retry\nwarning: retry")).unwrap();
    assert_eq!(output.transformations[0].kind, "duplicate_lines_collapsed");
    assert_eq!(output.transformations[0].count, 2);
}

#[test]
fn unknown_text_still_produces_a_generic_excerpt() {
    let output = UniversalPack.analyze(&input("unexpected state while starting worker")).unwrap();
    assert!(output.evidence.iter().any(|e| e.kind == EvidenceKind::LogExcerpt));
}

#[test]
fn retains_sensitive_candidate_lines_for_later_redaction() {
    let output = UniversalPack.analyze(&input("Fatal error\ntoken=do-not-leak-this")).unwrap();
    assert!(output.evidence.iter().any(|e| e.value == "token=do-not-leak-this"));
}

#[test]
fn error_markers_are_found_case_insensitively() {
    assert!(looks_like_error(&chars("Build FAILED")));
    assert!(looks_like_error(&chars("thread 'main' panicked")));
    assert!(looks_like_error(&chars("Cannot find module")));
    assert!(!looks_like_error(&chars("  showing all errors only  ")));
    assert!(!looks_like_error(&chars("all good")));
}

#[test]
fn sensitive_markers_include_assignments_and_at_signs() {
    assert!(looks_like_sensitive_candidate(&chars("API_KEY=abc")));
    assert!(looks_like_sensitive_candidate(&chars("Password: hunter2")));
    assert!(looks_like_sensitive_candidate(&chars("mail me@example.com")));
    assert!(!looks_like_sensitive_candidate(&chars("token value")));
}

#[test]
fn universal_pack_describes_itself_and_always_detects() {
    let descriptor = UniversalPack.descriptor();
    assert_eq!(descriptor.id, "official.universal");
    assert_eq!(descriptor.depth, AnalysisDepth::Generic);
    assert_eq!(UniversalPack.detect(&input("")), 1);
}

#[test]
fn primary_error_records_its_line_range_and_trimmed_value() {
    let output = UniversalPack.analyze(&input("ok\n  Error: bad thing  \nnext")).unwrap();
    let error = &output.evidence[0];
    assert_eq!(error.kind, EvidenceKind::Error);
    assert_eq!(error.value, "Error: bad thing");
    assert_eq!(error.confidence, 70);
    assert_eq!(error.sensitivity, Sensitivity::Public);
    assert_eq!(error.provenance.source_id, "normalized_input");
    assert_eq!(error.provenance.capability_id, "official.universal");
    assert_eq!(error.provenance.range, Some(SourceRange { start: 3, end: 23 }));
    assert!(output.transformations.is_empty());
}

#[test]
fn excerpt_is_the_first_non_blank_line_without_a_range() {
    let output = UniversalPack.analyze(&input("\n   \n  first line \nsecond")).unwrap();
    assert_eq!(output.evidence.len(), 1);
    let excerpt = &output.evidence[0];
    assert_eq!(excerpt.kind, EvidenceKind::LogExcerpt);
    assert_eq!(excerpt.value, "first line");
    assert_eq!(excerpt.confidence, 30);
    assert_eq!(excerpt.provenance.range, None);
}

#[test]
fn empty_input_gives_no_evidence() {
    let output = UniversalPack.analyze(&input("")).unwrap();
    assert!(output.evidence.is_empty());
    assert!(output.transformations.is_empty());
}

#[test]
fn stack_frames_carry_their_byte_spans() {
    let output = UniversalPack.analyze(&input("界 at a/b.rs:3:4 and c.py:9")).unwrap();
    let frames: Vec<_> = output
        .evidence
        .iter()
        .filter(|e| e.kind == EvidenceKind::StackFrame)
        .collect();
    assert_eq!(frames.len(), 2);
    assert_eq!(frames[0].value, "a/b.rs:3:4");
    assert_eq!(frames[0].provenance.range, Some(SourceRange { start: 7, end: 17 }));
    assert_eq!(frames[1].value, "c.py:9");
    assert_eq!(frames[1].confidence, 80);
    assert_eq!(frames[1].sensitivity, Sensitivity::Sensitive);
}
