use devtriage::compiler::{compile, estimate_tokens, OutputBudget};
use devtriage::model::{Evidence, EvidenceKind, Provenance, Sensitivity, Transformation};

fn evidence(kind: EvidenceKind, value: &str) -> Evidence {
    Evidence {
        id: 1,
        kind,
        value: value.into(),
        confidence: 90,
        sensitivity: Sensitivity::Public,
        provenance: vec![Provenance {
            source_id: "clipboard".into(),
            range: None,
            capability_id: "test".into(),
        }],
        related: vec![],
    }
}

#[test]
fn standard_output_separates_facts_from_request() {
    let output = compile(
        &[
            evidence(EvidenceKind::Error, "TypeError: boom"),
            evidence(EvidenceKind::StackFrame, "src/a.ts:4:2"),
        ],
        &[],
        OutputBudget::Standard,
    );
    assert!(output.text.contains("## Facts"));
    assert!(output.text.contains("## Request"));
    assert!(output.text.contains("most likely cause"));
}

#[test]
fn compact_output_respects_estimated_budget() {
    let long = "x".repeat(10_000);
    let output = compile(&[evidence(EvidenceKind::Error, &long)], &[], OutputBudget::Compact);
    assert!(output.estimated_tokens <= 500);
    assert_eq!(output.omitted_evidence, 1);
}

#[test]
fn budgets_have_their_token_limits() {
    assert_eq!(OutputBudget::Compact.token_limit(), 500);
    assert_eq!(OutputBudget::Standard.token_limit(), 1_500);
    assert_eq!(OutputBudget::Detailed.token_limit(), 4_000);
}

#[test]
fn tokens_are_estimated_at_four_characters_rounded_up() {
    assert_eq!(estimate_tokens(""), 0);
    assert_eq!(estimate_tokens("abcd"), 1);
    assert_eq!(estimate_tokens("abcde"), 2);
    assert_eq!(estimate_tokens("界界界界界"), 2);
}

#[test]
fn facts_come_in_priority_order_and_list_transformations() {
    let output = compile(
        &[
            evidence(EvidenceKind::LogExcerpt, "excerpt"),
            evidence(EvidenceKind::Error, "TypeError: boom"),
        ],
        &[Transformation {
            kind: "ansi_removed".into(),
            detail: "Removed terminal control sequences".into(),
            count: 2,
        }],
        OutputBudget::Detailed,
    );
    let error_at = output.text.find("TypeError: boom").unwrap();
    let excerpt_at = output.text.find("excerpt").unwrap();
    assert!(error_at < excerpt_at);
    assert!(output.text.contains("ansi_removed"));
    assert_eq!(output.omitted_evidence, 0);
    assert_eq!(output.estimated_tokens, (output.text.chars().count() + 3) / 4);
}

#[test]
fn compiled_text_never_exceeds_the_budget() {
    let many: Vec<Evidence> = (0..600)
        .map(|i| evidence(EvidenceKind::LogExcerpt, &format!("line number {i} of a long log")))
        .collect();
    for budget in [OutputBudget::Compact, OutputBudget::Standard, OutputBudget::Detailed] {
        let output = compile(&many, &[], budget);
        assert!(output.estimated_tokens <= budget.token_limit());
        assert!(output.text.len() <= budget.token_limit() * 4);
        assert!(output.omitted_evidence > 0);
    }
}
