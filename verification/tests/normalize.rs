use devtriage::normalize::{normalize, MAX_INPUT_BYTES};

#[test]
fn strips_ansi_and_normalizes_newlines() {
    let result = normalize("\u{1b}[31mError\u{1b}[0m\r\nnext\rline");
    assert_eq!(result.text, "Error\nnext\nline");
    assert_eq!(result.transformations[0].kind, "ansi_removed");
}

#[test]
fn truncates_on_utf8_boundary() {
    let input = "界".repeat(MAX_INPUT_BYTES);
    let result = normalize(&input);
    assert!(result.text.len() <= MAX_INPUT_BYTES);
    assert!(result.text.is_char_boundary(result.text.len()));
    assert!(result
        .transformations
        .iter()
        .any(|item| item.kind == "input_truncated"));
}

#[test]
fn normalize_counts_ansi_sequences_and_records_truncation_detail() {
    let result = normalize("\u{1b}[1m\u{1b}[32mok\u{1b}[0m");
    assert_eq!(result.text, "ok");
    assert_eq!(result.transformations.len(), 1);
    assert_eq!(result.transformations[0].count, 3);
    assert_eq!(result.transformations[0].detail, "Removed terminal control sequences");

    let long = "a".repeat(MAX_INPUT_BYTES + 5);
    let cut = normalize(&long);
    assert_eq!(cut.text.len(), MAX_INPUT_BYTES);
    assert_eq!(cut.transformations[0].kind, "input_truncated");
    assert_eq!(cut.transformations[0].detail, "Input limited to 1000000 bytes");
    assert_eq!(cut.transformations[0].count, 1);
}

#[test]
fn normalize_keeps_plain_text_and_lone_carriage_returns_become_newlines() {
    let result = normalize("a\r\r\nb");
    assert_eq!(result.text, "a\n\nb");
    assert!(result.transformations.is_empty());
}
