use devtriage::compiler::OutputBudget;
use devtriage::desktop::{
    detail_window_label, should_show_main_on_reopen, tray_click_action, DesktopState, TrayAction,
    TrayButton,
};
use devtriage::recent::RecentProjectStore;

#[test]
fn detail_label_is_stable() {
    assert_eq!(detail_window_label(), "detail");
}

#[test]
fn tray_click_requests_main_window() {
    assert_eq!(tray_click_action(TrayButton::Left), TrayAction::ShowMain);
    assert_eq!(tray_click_action(TrayButton::Right), TrayAction::Ignore);
    assert_eq!(tray_click_action(TrayButton::Middle), TrayAction::Ignore);
}

#[test]
fn reopening_from_the_dock_restores_a_hidden_main_window() {
    assert!(should_show_main_on_reopen(false));
    assert!(!should_show_main_on_reopen(true));
}

#[test]
fn current_context_is_empty_before_analysis() {
    let mut state = DesktopState::with_recent_projects_at("/tmp/devtriage-state");
    assert!(state.current_context(OutputBudget::Compact).is_none());
}

#[test]
fn analyzed_secret_never_reaches_copy_ready_pipeline_output() {
    let mut state = DesktopState::new(RecentProjectStore::at("/tmp/devtriage-state"));
    let context = state.analyze("fatal token=hidden-value".into(), OutputBudget::Standard);
    assert!(context.output.text.contains("[REDACTED:CREDENTIAL]"));
    assert!(!context.output.text.contains("hidden-value"));
    let again = state.current_context(OutputBudget::Compact).unwrap();
    assert!(!again.output.text.contains("hidden-value"));
    assert!(again.output.estimated_tokens <= 500);
    assert_eq!(again.evidence, context.evidence);
    assert_eq!(state.recent_projects().directory(), "/tmp/devtriage-state");
}
