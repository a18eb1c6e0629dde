use devtriage::domain::{CandidateReason, RecentProject};
use devtriage::projects::{is_path_within, rank_projects};

fn chars(s: &str) -> Vec<char> {
    s.chars().collect()
}

#[test]
fn absolute_log_path_ranks_matching_recent_project_first() {
    let recent = vec![RecentProject::new("/work/app", 10)];
    let candidates = rank_projects("at run (/work/app/src/main.ts:4:2)", &recent);
    assert_eq!(candidates[0].path, "/work/app");
    assert_eq!(candidates[0].reason, CandidateReason::AbsolutePath);
}

#[test]
fn relative_log_paths_rank_before_plain_recent_projects() {
    let recent = vec![RecentProject::new("/work/older", 10), RecentProject::new("/work/newer", 20)];
    let candidates = rank_projects("at run (src/main.ts:4:2)", &recent);
    assert_eq!(candidates[0].reason, CandidateReason::RecentRelativePath);
    assert_eq!(candidates[0].path, "/work/newer");
    assert!(candidates[0].score > candidates[1].score);
}

#[test]
fn ties_sort_by_path() {
    let recent = vec![RecentProject::new("/work/zebra", 10), RecentProject::new("/work/alpha", 10)];
    let candidates = rank_projects("no path here", &recent);
    assert_eq!(
        candidates.iter().map(|candidate| &candidate.path).collect::<Vec<_>>(),
        vec!["/work/alpha", "/work/zebra"]
    );
}

#[test]
fn scores_add_a_recency_bonus_to_the_base() {
    let recent = vec![
        RecentProject::new("/a", 3),
        RecentProject::new("/b", 2),
        RecentProject::new("/c", 1),
    ];
    let candidates = rank_projects("crash at /b/x.rs:1", &recent);
    assert_eq!(candidates.len(), 3);
    assert_eq!(candidates[0].path, "/b");
    assert_eq!(candidates[0].score, 300 + 98);
    assert_eq!(candidates[0].reason, CandidateReason::AbsolutePath);
    // The absolute path also reads as a relative source path.
    assert_eq!(candidates[1].path, "/a");
    assert_eq!(candidates[1].score, 200 + 99);
    assert_eq!(candidates[1].reason, CandidateReason::RecentRelativePath);
    assert_eq!(candidates[2].path, "/c");
    assert_eq!(candidates[2].score, 200 + 97);
}

#[test]
fn duplicate_records_count_once_with_their_latest_time() {
    let recent = vec![
        RecentProject::new("/p", 1),
        RecentProject::new("/q", 5),
        RecentProject::new("/p", 9),
    ];
    let candidates = rank_projects("", &recent);
    assert_eq!(candidates.len(), 2);
    assert_eq!(candidates[0].path, "/p");
    assert_eq!(candidates[0].score, 199);
    assert_eq!(candidates[1].path, "/q");
    assert_eq!(candidates[1].score, 198);
}

#[test]
fn no_records_give_no_candidates() {
    assert!(rank_projects("at /x/y.rs:1", &[]).is_empty());
}

#[test]
fn the_bonus_runs_out_after_ninety_nine_projects() {
    let recent: Vec<RecentProject> = (0..120).map(|i| RecentProject::new(&format!("/p{i:03}"), 1000 - i)).collect();
    let candidates = rank_projects("", &recent);
    assert_eq!(candidates.len(), 120);
    assert_eq!(candidates[0].path, "/p000");
    assert_eq!(candidates[0].score, 199);
    assert_eq!(candidates[98].score, 101);
    assert_eq!(candidates[99].score, 100);
    assert_eq!(candidates[119].score, 100);
    assert_eq!(candidates[100].path, "/p100");
}

#[test]
fn a_path_lies_within_a_project_only_below_a_separator() {
    assert!(is_path_within(&chars("/work/app"), &chars("/work/app/")));
    assert!(is_path_within(&chars("/work/app/src/a.ts"), &chars("/work/app")));
    assert!(!is_path_within(&chars("/work/application"), &chars("/work/app")));
    assert!(is_path_within(&chars("/anything"), &chars("///")));
    assert!(!is_path_within(&chars("/work"), &chars("/work/app")));
}
