//! The desktop shell's in-memory state and its window decisions.
use vstd::prelude::*;
use crate::compiler::OutputBudget;
use crate::domain::ProjectCandidate;
use crate::model::IssueContext;
use crate::normalize;
use crate::pipeline::{self, Pipeline};
use crate::recent::RecentProjectStore;

verus! {

/// What an analysis hands back to the desktop view.
#[derive(Clone, Debug)]
pub struct AnalysisResponse {
    pub context: IssueContext,
    pub candidates: Vec<ProjectCandidate>,
}

/// The context the default pipeline builds for a raw input under a budget.
pub open spec fn analysis_of(raw: Seq<char>, budget: OutputBudget, r: IssueContext) -> bool {
    pipeline::is_context_of(
        normalize::normalize_transformations(raw),
        seq![pipeline::universal_output(raw)],
        Seq::empty(),
        budget,
        r,
    )
}

/// Application-local state. The raw log and its analysis live only in
/// memory; nothing of them is persisted.
pub struct DesktopState {
    raw_input: Option<String>,
    current_context: Option<IssueContext>,
    recent_projects: RecentProjectStore,
}

impl DesktopState {
    /// The raw input of the last analysis, if there was one.
    pub closed spec fn raw(&self) -> Option<Seq<char>> {
        match self.raw_input {
            Some(s) => Some(s@),
            None => None,
        }
    }

    /// The context the state holds, if any.
    pub closed spec fn context(&self) -> Option<IssueContext> {
        self.current_context
    }

    /// The directory of the recent-projects store.
    pub closed spec fn store(&self) -> Seq<char> {
        self.recent_projects@
    }

    /// A state with nothing analyzed yet.
    pub fn new(recent_projects: RecentProjectStore) -> (r: DesktopState)
        ensures
            r.raw() is None,
            r.context() is None,
            r.store() == recent_projects@,
    {
        DesktopState { raw_input: None, current_context: None, recent_projects }
    }

    /// A state whose recent projects are kept in `directory`.
    pub fn with_recent_projects_at(directory: &str) -> (r: DesktopState)
        ensures
            r.raw() is None,
            r.context() is None,
            r.store() == directory@,
    {
        DesktopState::new(RecentProjectStore::at(directory))
    }

    /// The store of recent projects.
    pub fn recent_projects(&self) -> (r: &RecentProjectStore)
        ensures
            r@ == self.store(),
    {
        &self.recent_projects
    }

    /// Analyzes only the supplied text, and keeps the text and its context
    /// in memory for this run.
    pub fn analyze(&mut self, input: String, budget: OutputBudget) -> (r: IssueContext)
        ensures
            analysis_of(input@, budget, r),
            final(self).raw() == Some(input@),
            final(self).context() matches Some(c) && crate::model::same_context(r, c) && analysis_of(input@, budget, c),
            final(self).store() == old(self).store(),
    {
        let context = Pipeline::default().analyze(input.as_str(), budget);
        let kept = context.copy();
        proof {
            pipeline::lemma_context_of_copy(
                normalize::normalize_transformations(input@),
                seq![pipeline::universal_output(input@)],
                Seq::empty(),
                budget,
                context,
                kept,
            );
        }
        self.raw_input = Some(input);
        self.current_context = Some(kept);
        context
    }

    /// Rebuilds the context for `budget` from the raw input in memory, and
    /// keeps it; there is none before the first analysis.
    pub fn current_context(&mut self, budget: OutputBudget) -> (r: Option<IssueContext>)
        ensures
            final(self).raw() == old(self).raw(),
            final(self).store() == old(self).store(),
            old(self).raw() is None ==> r is None && final(self).context() == old(self).context(),
            old(self).raw() matches Some(raw) ==> {
                &&& r matches Some(c) && analysis_of(raw, budget, c)
                &&& final(self).context() matches Some(k) && crate::model::same_context(r->0, k) && analysis_of(raw, budget, k)
            },
    {
        match &self.raw_input {
            None => None,
            Some(input) => {
                let context = Pipeline::default().analyze(input.as_str(), budget);
                let kept = context.copy();
                proof {
                    pipeline::lemma_context_of_copy(
                        normalize::normalize_transformations(input@),
                        seq![pipeline::universal_output(input@)],
                        Seq::empty(),
                        budget,
                        context,
                        kept,
                    );
                }
                self.current_context = Some(kept);
                Some(context)
            },
        }
    }
}

/// What a click on the tray icon does.
#[derive(Clone, Copy, Debug, PartialEq, Eq, Structural)]
pub enum TrayAction {
    ShowMain,
    Ignore,
}

/// The mouse button of a click on the tray icon.
#[derive(Clone, Copy, Debug, PartialEq, Eq, Structural)]
pub enum TrayButton {
    Left,
    Right,
    Middle,
}

/// The label of the detail window.
pub fn detail_window_label() -> (r: &'static str)
    ensures
        r@ == "detail"@,
{
    "detail"
}

/// A left click shows the main window; other buttons do nothing.
pub fn tray_click_action(button: TrayButton) -> (r: TrayAction)
    ensures
        r == (if button == TrayButton::Left { TrayAction::ShowMain } else { TrayAction::Ignore }),
{
    match button {
        TrayButton::Left => TrayAction::ShowMain,
        TrayButton::Right | TrayButton::Middle => TrayAction::Ignore,
    }
}

/// Reopening the app shows the main window when no window is visible.
pub fn should_show_main_on_reopen(has_visible_windows: bool) -> (r: bool)
    ensures
        r == !has_visible_windows,
{
    !has_visible_windows
}

} // verus!
