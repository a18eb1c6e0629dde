use devtriage::domain::RecentProject;
use devtriage::recent::{record_confirmation, RecentProjectStore, MAX_RECENT_PROJECTS};

#[test]
fn store_path_joins_the_file_name() {
    assert_eq!(RecentProjectStore::at("/data").path(), "/data/recent-projects.json");
    assert_eq!(RecentProjectStore::at("/data/").path(), "/data/recent-projects.json");
    assert_eq!(RecentProjectStore::at("").path(), "recent-projects.json");
    assert_eq!(RecentProjectStore::at("/data").directory(), "/data");
}

#[test]
fn confirming_replaces_an_earlier_record_of_the_same_path() {
    let list = vec![RecentProject::new("/a", 5), RecentProject::new("/b", 3)];
    let updated = record_confirmation(&list, RecentProject::new("/b", 7));
    assert_eq!(updated, vec![RecentProject::new("/b", 7), RecentProject::new("/a", 5)]);
}

#[test]
fn records_are_ordered_newest_first_then_by_path() {
    let list = vec![RecentProject::new("/z", 1), RecentProject::new("/m", 4)];
    let updated = record_confirmation(&list, RecentProject::new("/c", 1));
    assert_eq!(
        updated,
        vec![RecentProject::new("/m", 4), RecentProject::new("/c", 1), RecentProject::new("/z", 1)]
    );
}

#[test]
fn only_the_ten_most_recent_records_are_kept() {
    let mut list = Vec::new();
    for index in 0..11i64 {
        list = record_confirmation(&list, RecentProject::new(&format!("/project-{index}"), index));
    }
    list = record_confirmation(&list, RecentProject::new("/project-1", 20));
    assert_eq!(list.len(), MAX_RECENT_PROJECTS);
    assert_eq!(list[0], RecentProject::new("/project-1", 20));
    assert!(!list.iter().any(|record| record.path == "/project-0"));
    assert_eq!(list[1].path, "/project-10");
    assert_eq!(list[9].path, "/project-2");
}

#[test]
fn an_old_confirmation_can_fall_off_a_full_list() {
    let list: Vec<RecentProject> = (0..10).map(|i| RecentProject::new(&format!("/p{i}"), 100 + i)).collect();
    let updated = record_confirmation(&list, RecentProject::new("/old", 1));
    assert_eq!(updated.len(), 10);
    assert!(!updated.iter().any(|record| record.path == "/old"));
    assert_eq!(updated[0].path, "/p9");
}

#[test]
fn a_confirmed_project_is_a_candidate_for_later_analysis() {
    let list = record_confirmation(&Vec::new(), RecentProject::new("/home/me/project", 1_700_000_000));
    let candidates = devtriage::projects::rank_projects("error in src/main.rs:7", &list);
    assert_eq!(candidates.len(), 1);
    assert_eq!(candidates[0].path, "/home/me/project");
    assert_eq!(candidates[0].reason, devtriage::domain::CandidateReason::RecentRelativePath);
    assert_eq!(candidates[0].score, 299);
}
