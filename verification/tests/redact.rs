use devtriage::model::{Evidence, EvidenceKind, Provenance, Sensitivity};
use devtriage::redact::redact_evidence;

fn item(value: &str) -> Evidence {
    Evidence {
        id: 1,
        kind: EvidenceKind::Error,
        value: value.into(),
        confidence: 90,
        sensitivity: Sensitivity::Public,
        provenance: vec![Provenance {
            source_id: "clipboard".into(),
            range: None,
            capability_id: "test".into(),
        }],
        related: vec![],
    }
}

#[test]
fn redacts_assignments_jwts_and_emails_without_revealing_values() {
    let mut evidence = vec![item("token=supersecret user=a@example.com jwt=eyJabc.def.ghi")];
    let transformations = redact_evidence(&mut evidence);
    assert!(!evidence[0].value.contains("supersecret"));
    assert!(!evidence[0].value.contains("a@example.com"));
    assert!(!evidence[0].value.contains("eyJabc"));
    assert_eq!(transformations.iter().map(|item| item.count).sum::<usize>(), 3);
    assert_eq!(evidence[0].sensitivity, Sensitivity::Secret);
}

#[test]
fn redaction_keeps_the_key_and_reports_each_kind() {
    let mut evidence = vec![
        item("API-KEY : abc123, next"),
        item("nothing here"),
        item("mail x.y@host.org and z@host.io"),
    ];
    let transformations = redact_evidence(&mut evidence);
    assert_eq!(evidence[0].value, "API-KEY=[REDACTED:CREDENTIAL], next");
    assert_eq!(evidence[0].sensitivity, Sensitivity::Secret);
    assert_eq!(evidence[1].value, "nothing here");
    assert_eq!(evidence[1].sensitivity, Sensitivity::Public);
    assert_eq!(evidence[2].value, "mail [REDACTED:EMAIL] and [REDACTED:EMAIL]");
    assert_eq!(transformations.len(), 2);
    assert_eq!(transformations[0].kind, "credential_redacted");
    assert_eq!(transformations[0].detail, "Credential-like values redacted");
    assert_eq!(transformations[0].count, 1);
    assert_eq!(transformations[1].kind, "email_redacted");
    assert_eq!(transformations[1].detail, "Email addresses redacted");
    assert_eq!(transformations[1].count, 2);
}

#[test]
fn jwt_is_replaced_whole() {
    let mut evidence = vec![item("auth eyJhbGciOi.eyJzdWIi.c2lnbmF0dXJl done")];
    let transformations = redact_evidence(&mut evidence);
    assert_eq!(evidence[0].value, "auth [REDACTED:JWT] done");
    assert_eq!(transformations.len(), 1);
    assert_eq!(transformations[0].kind, "jwt_redacted");
    assert_eq!(transformations[0].detail, "JWT-like values redacted");
}

#[test]
fn clean_evidence_is_left_alone() {
    let mut evidence = vec![item("all quiet")];
    assert!(redact_evidence(&mut evidence).is_empty());
    assert_eq!(evidence[0].value, "all quiet");
    assert_eq!(evidence[0].sensitivity, Sensitivity::Public);
}
