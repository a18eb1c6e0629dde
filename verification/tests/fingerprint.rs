use devtriage::fingerprint::fingerprint;
use devtriage::model::{Evidence, EvidenceKind, Provenance, Sensitivity};

fn item(kind: EvidenceKind, value: &str) -> Evidence {
    Evidence {
        id: 1,
        kind,
        value: value.into(),
        confidence: 90,
        sensitivity: Sensitivity::Public,
        provenance: vec![Provenance {
            source_id: "clipboard".into(),
            range: None,
            capability_id: "test".into(),
        }],
        related: vec![],
    }
}

#[test]
fn fingerprint_is_stable_and_value_sensitive() {
    assert_eq!(
        fingerprint(&[item(EvidenceKind::Error, "Boom")]),
        fingerprint(&[item(EvidenceKind::Error, "boom")])
    );
    assert_ne!(
        fingerprint(&[item(EvidenceKind::Error, "Boom")]),
        fingerprint(&[item(EvidenceKind::Error, "Other")])
    );
}

#[test]
fn fingerprint_is_the_blake3_hex_of_the_canonical_text() {
    let expected = blake3::hash(b"Error:boom\nStackFrame:a.rs:1").to_hex().to_string();
    let got = fingerprint(&[
        item(EvidenceKind::Error, "BOOM"),
        item(EvidenceKind::Runtime, "node 20"),
        item(EvidenceKind::StackFrame, "a.rs:1"),
    ]);
    assert_eq!(got, expected);
    assert_eq!(got.len(), 64);
    assert!(got.chars().all(|c| c.is_ascii_hexdigit() && !c.is_ascii_uppercase()));
}

#[test]
fn fingerprint_ignores_kinds_outside_errors_frames_and_excerpts() {
    let empty = blake3::hash(b"").to_hex().to_string();
    assert_eq!(fingerprint(&[]), empty);
    assert_eq!(
        fingerprint(&[item(EvidenceKind::FilePath, "x"), item(EvidenceKind::Project, "y")]),
        empty
    );
}
