use devtriage::graph::merge;
use devtriage::model::{EvidenceDraft, EvidenceKind, Provenance, Sensitivity, SourceRange};

fn draft(capability_id: &str, confidence: u8) -> EvidenceDraft {
    EvidenceDraft {
        kind: EvidenceKind::Error,
        value: " TypeError: boom ".into(),
        confidence,
        sensitivity: Sensitivity::Public,
        provenance: Provenance {
            source_id: "clipboard".into(),
            range: None,
            capability_id: capability_id.into(),
        },
    }
}

#[test]
fn merges_equivalent_evidence_and_keeps_both_sources() {
    let graph = merge(vec![draft("generic", 70), draft("javascript", 95)]);
    assert_eq!(graph.len(), 1);
    assert_eq!(graph[0].id, 1);
    assert_eq!(graph[0].confidence, 95);
    assert_eq!(graph[0].provenance.len(), 2);
    assert_eq!(graph[0].value, "TypeError: boom");
}

#[test]
fn merge_keys_by_kind_and_lowercased_collapsed_value() {
    let mut a = draft("generic", 60);
    a.value = "Type\tError:   BOOM".into();
    a.sensitivity = Sensitivity::Sensitive;
    let mut b = draft("generic", 50);
    b.value = "typeerror: boom".into();
    let mut c = draft("generic", 40);
    c.kind = EvidenceKind::LogExcerpt;
    c.value = "typeerror: boom".into();
    let graph = merge(vec![a, b, c]);
    assert_eq!(graph.len(), 3);
    let error_values: Vec<&str> = graph
        .iter()
        .filter(|e| e.kind == EvidenceKind::Error)
        .map(|e| e.value.as_str())
        .collect();
    assert_eq!(error_values.len(), 2);
    let ids: Vec<u64> = graph.iter().map(|e| e.id).collect();
    assert_eq!(ids, vec![1, 2, 3]);
}

#[test]
fn merge_orders_groups_by_kind_then_key_and_keeps_strongest_values() {
    let mut excerpt = draft("generic", 10);
    excerpt.kind = EvidenceKind::LogExcerpt;
    excerpt.value = "zzz".into();
    let mut first = draft("generic", 20);
    first.value = "Boom".into();
    let mut second = draft("other", 80);
    second.value = "boom".into();
    second.sensitivity = Sensitivity::Secret;
    second.provenance.range = Some(SourceRange { start: 1, end: 4 });
    let mut again = draft("generic", 5);
    again.value = "BOOM".into();
    let graph = merge(vec![excerpt, first, second, again]);
    assert_eq!(graph.len(), 2);
    assert_eq!(graph[0].kind, EvidenceKind::Error);
    assert_eq!(graph[0].value, "Boom");
    assert_eq!(graph[0].confidence, 80);
    assert_eq!(graph[0].sensitivity, Sensitivity::Secret);
    assert_eq!(graph[0].provenance.len(), 2);
    assert_eq!(graph[1].kind, EvidenceKind::LogExcerpt);
    assert_eq!(graph[1].id, 2);
}

#[test]
fn merge_of_nothing_is_empty() {
    assert!(merge(vec![]).is_empty());
}
