use devtriage::domain::{CandidateReason, RecentProject};
use devtriage::model::{EvidenceKind, SourceRange};
use devtriage::normalize::normalize_without;
use devtriage::patterns::{
    find_absolute_paths, find_ansi_escapes, find_credentials, find_locations, ABSOLUTE_PATH,
    ANSI_ESCAPE, CREDENTIAL_ASSIGNMENT, EMAIL_ADDRESS, JSON_WEB_TOKEN, RELATIVE_PATH,
    SOURCE_LOCATION,
};
use devtriage::projects::rank_among;
use devtriage::redact::{replace_credentials, replace_spans};
use devtriage::universal::stack_frames;

#[test]
fn every_pattern_compiles() {
    for pattern in [
        ANSI_ESCAPE,
        SOURCE_LOCATION,
        CREDENTIAL_ASSIGNMENT,
        JSON_WEB_TOKEN,
        EMAIL_ADDRESS,
        ABSOLUTE_PATH,
        RELATIVE_PATH,
    ] {
        assert!(regex::Regex::new(pattern).is_ok(), "{pattern}");
    }
}

#[test]
fn pattern_spans_are_the_regex_matches() {
    assert_eq!(find_ansi_escapes("a\u{1b}[1mb\u{1b}[0m"), vec![(1, 5), (6, 10)]);
    assert_eq!(find_locations("at x/y.rs:3:4 and z.py:9"), vec![(3, 13), (18, 24)]);
    assert_eq!(find_absolute_paths("see /a/b.rs:1 (/c)"), vec![(4, 13), (15, 17)]);
    assert_eq!(find_credentials("token = abc"), vec![(0, 11, Some((0, 5)))]);
}

#[test]
fn normalizing_removes_exactly_the_given_spans() {
    let n = normalize_without("ab\u{1b}[1mc\r\nd", &vec![(2, 6)]);
    assert_eq!(n.text, "abc\nd");
    assert_eq!(n.transformations.len(), 1);
    assert_eq!(n.transformations[0].kind, "ansi_removed");
    assert_eq!(n.transformations[0].count, 1);
}

#[test]
fn clean_text_is_unchanged() {
    let n = normalize_without("plain text\nsecond line", &vec![]);
    assert_eq!(n.text, "plain text\nsecond line");
    assert!(n.transformations.is_empty());
}

#[test]
fn credentials_keep_their_name() {
    let out: String = replace_credentials("x token=abc y", &vec![(2, 11, Some((2, 7)))])
        .into_iter()
        .collect();
    assert_eq!(out, "x token=[REDACTED:CREDENTIAL] y");
}

#[test]
fn spans_are_replaced_by_the_marker() {
    let out: String = replace_spans("a界bc界d", &vec![(1, 4), (6, 9)], "[X]").into_iter().collect();
    assert_eq!(out, "a[X]bc[X]d");
}

#[test]
fn stack_frames_take_their_values_from_the_spans() {
    let frames = stack_frames("at a.rs:1 b.py:2", &vec![(3, 9), (10, 16)]);
    assert_eq!(frames.len(), 2);
    assert_eq!(frames[0].kind, EvidenceKind::StackFrame);
    assert_eq!(frames[0].value, "a.rs:1");
    assert_eq!(frames[1].provenance.range, Some(SourceRange { start: 10, end: 16 }));
}

#[test]
fn ranking_uses_the_given_paths_and_relative_flag() {
    let recent = vec![RecentProject::new("/w/a", 2), RecentProject::new("/w/b", 1)];
    let input = "x /w/b/src/m.rs:3";
    let ranked = rank_among(input, &recent, &vec![(2, 17)], false);
    assert_eq!(ranked[0].path, "/w/b");
    assert_eq!(ranked[0].reason, CandidateReason::AbsolutePath);
    assert_eq!(ranked[0].score, 398);
    assert_eq!(ranked[1].reason, CandidateReason::RecentProject);
    assert_eq!(ranked[1].score, 199);
    let none = rank_among(input, &recent, &vec![], true);
    assert_eq!(none[0].path, "/w/a");
    assert_eq!(none[0].reason, CandidateReason::RecentRelativePath);
}
