//! The decisions of the explorer's main loop, apart from the work it hands to
//! `bd`, the editor and the terminal: what each action asks to be done, and
//! what each outcome of that work does to the state.
use vstd::prelude::*;
use vstd::string::*;
use crate::app::{
    Action, ActionView, AddIssueDraftView, AddIssueField, App, AppView, ModeView, refreshed,
    duration_nanos, nanos_of, duration_from_nanos,
};
use std::time::Duration;
use crate::model::{
    AddIssueDraft, EditField, Issue, IssueGraph, IssueGraphView, IssueView, listed_without,
    context_after_close,
};
use crate::text::{push_text, push_int, int_text};

verus! {

/// The status line while a close is still running and another `bd` action
/// is asked for.
pub open spec fn waiting_message() -> Seq<char> {
    "waiting for the previous close to finish"@
}

/// What the loop does next for an action.
pub enum Step {
    Quit,
    Continue,
    /// Run `bd close` in the background; `rollback` is the graph to restore
    /// should it fail.
    Close { issue_id: String, rollback: IssueGraph },
    /// Run `bd edit` on the field of the issue, then reload the issue.
    Edit { field: EditField, issue_id: String },
    /// Open the editor on the text of a field of the add-issue flow.
    EditAddIssue { field: AddIssueField, initial: String },
    /// Run `bd create`.
    Create(AddIssueDraft),
    /// Run `bd update --status`.
    SetStatus { issue_id: String, status: &'static str },
    /// Run `bd update --priority`.
    SetPriority { issue_id: String, priority: i32 },
}

pub enum StepView {
    Quit,
    Continue,
    Close { issue_id: Seq<char>, rollback: IssueGraphView },
    Edit { field: EditField, issue_id: Seq<char> },
    EditAddIssue { field: AddIssueField, initial: Seq<char> },
    Create(AddIssueDraftView),
    SetStatus { issue_id: Seq<char>, status: Seq<char> },
    SetPriority { issue_id: Seq<char>, priority: i32 },
}

impl View for Step {
    type V = StepView;

    open spec fn view(&self) -> StepView {
        match self {
            Step::Quit => StepView::Quit,
            Step::Continue => StepView::Continue,
            Step::Close { issue_id, rollback } => StepView::Close {
                issue_id: issue_id@,
                rollback: rollback@,
            },
            Step::Edit { field, issue_id } => StepView::Edit { field: *field, issue_id: issue_id@ },
            Step::EditAddIssue { field, initial } => StepView::EditAddIssue {
                field: *field,
                initial: initial@,
            },
            Step::Create(draft) => StepView::Create(draft@),
            Step::SetStatus { issue_id, status } => StepView::SetStatus {
                issue_id: issue_id@,
                status: status@,
            },
            Step::SetPriority { issue_id, priority } => StepView::SetPriority {
                issue_id: issue_id@,
                priority: *priority,
            },
        }
    }
}

/// Whether an action hands work to `bd` or the editor.
pub open spec fn needs_outside_work(a: ActionView) -> bool {
    ||| a is CloseIssue
    ||| a is Edit
    ||| a is EditAddIssue
    ||| a is CreateIssue
    ||| a is SetStatus
    ||| a is SetPriority
}

/// The state once `issue_id` is closed in the view ahead of `bd`, over the
/// graph `g` that has it closed.
pub open spec fn closing(s: AppView, issue_id: Seq<char>, g: IssueGraphView) -> AppView {
    AppView {
        status: Some("Closing "@ + issue_id + "…"@),
        ..refreshed(
            AppView { history: seq![], mode: ModeView::Normal, chord_pending: false, ..s },
            g,
        )
    }
}

/// The text of a field of the add-issue flow, or nothing when no flow is open.
pub open spec fn flow_text(s: AppView, field: AddIssueField) -> Seq<char> {
    match s.mode {
        ModeView::AddIssue(f) => match field {
            AddIssueField::Title => f.title,
            AddIssueField::Description => f.description,
        },
        _ => seq![],
    }
}

fn text_of(s: &str) -> (r: String)
    ensures
        r@ == s@,
{
    let mut out = String::new();
    push_text(&mut out, s);
    out
}

/// Decides what the loop does with `action`. While a close is still running
/// (`close_pending`), every action that needs `bd` or the editor is turned
/// away with a status line. A close is applied to the view at once.
pub fn plan_step(app: &mut App, action: Action, close_pending: bool) -> (r: Step)
    requires
        old(app).inv(),
    ensures
        final(app).inv(),
        action@ is Quit ==> r@ == StepView::Quit && final(app)@ == old(app)@,
        action@ is NoOp ==> r@ == StepView::Continue && final(app)@ == old(app)@,
        needs_outside_work(action@) && close_pending ==> r@ == StepView::Continue && final(app)@
            == (AppView { status: Some(waiting_message()), ..old(app)@ }),
        !close_pending ==> match action@ {
            ActionView::CloseIssue(id) => r@ == (StepView::Close {
                issue_id: id,
                rollback: old(app)@.graph,
            }) && exists|g: IssueGraphView|
                g.built_from(
                    listed_without(old(app)@.graph.order, old(app)@.graph.issues, id),
                    context_after_close(old(app)@.graph, id),
                ) && final(app)@ == closing(old(app)@, id, g),
            ActionView::Edit(field) => final(app)@ == old(app)@ && match old(
                app,
            )@.current_issue() {
                Some(issue) => r@ == (StepView::Edit { field, issue_id: issue.id }),
                None => r@ == StepView::Continue,
            },
            ActionView::EditAddIssue(field) => final(app)@ == old(app)@ && r@ == (
            StepView::EditAddIssue { field, initial: flow_text(old(app)@, field) }),
            ActionView::CreateIssue(draft) => final(app)@ == old(app)@ && r@ == StepView::Create(
                draft,
            ),
            ActionView::SetStatus(id, status) => final(app)@ == old(app)@ && r@ == (
            StepView::SetStatus { issue_id: id, status }),
            ActionView::SetPriority(id, priority) => final(app)@ == old(app)@ && r@ == (
            StepView::SetPriority { issue_id: id, priority }),
            _ => true,
        },
{
    let busy = match &action {
        Action::NoOp | Action::Quit => false,
        _ => close_pending,
    };
    if busy {
        app.set_status(text_of("waiting for the previous close to finish"));
        return Step::Continue;
    }
    match action {
        Action::Quit => Step::Quit,
        Action::NoOp => Step::Continue,
        Action::CloseIssue(issue_id) => {
            let ghost s0 = app@;
            let rollback = app.close_optimistically(issue_id.as_str());
            let r = Step::Close { issue_id, rollback };
            proof {
                let g = choose|g: IssueGraphView|
                    g.built_from(
                        listed_without(s0.graph.order, s0.graph.issues, issue_id@),
                        context_after_close(s0.graph, issue_id@),
                    ) && app@ == (AppView {
                        status: Some("Closing "@ + issue_id@ + "…"@),
                        ..refreshed(
                            AppView {
                                history: seq![],
                                mode: ModeView::Normal,
                                chord_pending: false,
                                ..s0
                            },
                            g,
                        )
                    });
                assert(app@ == closing(s0, issue_id@, g));
            }
            r
        },
        Action::Edit(field) => {
            match app.current_issue() {
                Some(issue) => Step::Edit { field, issue_id: issue.id.clone() },
                None => Step::Continue,
            }
        },
        Action::EditAddIssue(field) => {
            let initial = match app.add_issue_field(field) {
                Some(text) => text_of(text),
                None => String::new(),
            };
            Step::EditAddIssue { field, initial }
        },
        Action::CreateIssue(draft) => Step::Create(draft),
        Action::SetStatus(issue_id, status) => Step::SetStatus { issue_id, status },
        Action::SetPriority(issue_id, priority) => Step::SetPriority { issue_id, priority },
    }
}

/// How a background `bd close` ended.
pub enum CloseOutcome {
    /// Closed, and the graph reloaded.
    Reloaded(IssueGraph),
    /// `bd close` failed with this message.
    CloseFailed(String),
    /// Closed, but reloading failed with this message.
    ReloadFailed(String),
    /// The worker went away without a word.
    WorkerLost,
}

/// Applies the end of a background close: the reloaded graph on success; the
/// `rollback` graph and the error when `bd` refused or the worker was lost; a
/// warning that the view may be stale when only the reload failed.
pub fn close_finished(app: &mut App, outcome: CloseOutcome, rollback: IssueGraph)
    requires
        old(app).inv(),
    ensures
        final(app).inv(),
        match outcome {
            CloseOutcome::Reloaded(g) => final(app)@ == (AppView {
                status: None,
                ..refreshed(old(app)@, g@)
            }),
            CloseOutcome::CloseFailed(message) => final(app)@ == (AppView {
                status: Some(message@),
                ..refreshed(old(app)@, rollback@)
            }),
            CloseOutcome::ReloadFailed(message) => final(app)@ == (AppView {
                status: Some(message@ + " · view may be stale"@),
                ..old(app)@
            }),
            CloseOutcome::WorkerLost => final(app)@ == (AppView {
                status: Some("close failed: background worker died"@),
                ..refreshed(old(app)@, rollback@)
            }),
        },
{
    match outcome {
        CloseOutcome::Reloaded(graph) => {
            app.refresh_graph(graph);
            app.clear_status();
        },
        CloseOutcome::CloseFailed(message) => {
            app.refresh_graph(rollback);
            app.set_status(message);
        },
        CloseOutcome::ReloadFailed(message) => {
            let mut text = message;
            push_text(&mut text, " · view may be stale");
            app.set_status(text);
        },
        CloseOutcome::WorkerLost => {
            app.refresh_graph(rollback);
            app.set_status(text_of("close failed: background worker died"));
        },
    }
}

/// How a `bd update` ended.
pub enum UpdateOutcome {
    /// `bd update` failed with this message.
    Failed(String),
    /// Updated, and the graph reloaded.
    Reloaded(IssueGraph),
    /// Updated, but reloading failed with this message.
    ReloadFailed(String),
}

/// Applies the end of a `bd update`: on success the whole graph is reloaded
/// (a status change can move an issue in or out of the tree) and `success`
/// shown.
pub fn update_finished(app: &mut App, outcome: UpdateOutcome, success: String)
    requires
        old(app).inv(),
    ensures
        final(app).inv(),
        match outcome {
            UpdateOutcome::Failed(message) => final(app)@ == (AppView {
                status: Some(message@),
                ..old(app)@
            }),
            UpdateOutcome::Reloaded(g) => final(app)@ == (AppView {
                status: Some(success@),
                ..refreshed(old(app)@, g@)
            }),
            UpdateOutcome::ReloadFailed(message) => final(app)@ == (AppView {
                status: Some(message@ + " · view may be stale"@),
                ..old(app)@
            }),
        },
{
    match outcome {
        UpdateOutcome::Failed(message) => app.set_status(message),
        UpdateOutcome::Reloaded(graph) => {
            app.refresh_graph(graph);
            app.set_status(success);
        },
        UpdateOutcome::ReloadFailed(message) => {
            let mut text = message;
            push_text(&mut text, " · view may be stale");
            app.set_status(text);
        },
    }
}

/// The status line after a status change: `Set <id> to <status>`.
pub fn status_set_message(issue_id: &str, status: &str) -> (r: String)
    ensures
        r@ == "Set "@ + issue_id@ + " to "@ + status@,
{
    let mut text = text_of("Set ");
    push_text(&mut text, issue_id);
    push_text(&mut text, " to ");
    push_text(&mut text, status);
    text
}

/// The status line after a priority change: `Set <id> to P<priority>`.
pub fn priority_set_message(issue_id: &str, priority: i32) -> (r: String)
    ensures
        r@ == "Set "@ + issue_id@ + " to P"@ + int_text(priority as int),
{
    let mut text = text_of("Set ");
    push_text(&mut text, issue_id);
    push_text(&mut text, " to P");
    push_int(&mut text, priority as i64);
    text
}

/// Applies the end of `bd edit` on an issue: the issue as `bd` shows it
/// afterwards, or the error.
pub fn edit_finished(app: &mut App, result: Result<Issue, String>)
    requires
        old(app).inv(),
    ensures
        final(app).inv(),
        match result {
            Ok(issue) => final(app)@ == (AppView { graph: final(app)@.graph, ..old(app)@ })
                && (forall|id: Seq<char>| #[trigger]
                final(app)@.graph.issue(id) == if id == issue@.id {
                    Some(issue@)
                } else {
                    old(app)@.graph.issue(id)
                }) && final(app)@.graph.order == old(app)@.graph.order
                && final(app)@.graph.parents == old(app)@.graph.parents
                && final(app)@.graph.child_lists == old(app)@.graph.child_lists
                && final(app)@.graph.roots == old(app)@.graph.roots,
            Err(message) => final(app)@ == (AppView { status: Some(message@), ..old(app)@ }),
        },
{
    match result {
        Ok(issue) => app.apply_edited_issue(issue),
        Err(message) => app.set_status(message),
    }
}

/// Applies the end of editing a field of the add-issue flow in the editor:
/// the new text, or the error.
pub fn add_issue_field_edited(app: &mut App, field: AddIssueField, result: Result<String, String>)
    requires
        old(app).inv(),
    ensures
        final(app).inv(),
        match result {
            Ok(text) => final(app)@ == crate::app::with_field_text(old(app)@, field, text@),
            Err(message) => final(app)@ == (AppView { status: Some(message@), ..old(app)@ }),
        },
{
    match result {
        Ok(text) => app.set_add_issue_field(field, text),
        Err(message) => app.set_status(message),
    }
}

/// How a `bd create` ended.
pub enum CreateOutcome {
    /// `bd create` failed with this message.
    Failed(String),
    /// Created the issue with this ID; then the graph reloaded, or reloading
    /// failed with a message.
    Created { issue_id: String, reload: Result<IssueGraph, String> },
}

/// What the status line says of a created issue.
pub open spec fn created_message(issue_id: Seq<char>, parent: Option<Seq<char>>) -> Seq<char> {
    match parent {
        Some(p) => "Created "@ + issue_id + " under "@ + p,
        None => "Created "@ + issue_id,
    }
}

/// Applies the end of `bd create` for a new issue under `parent_id`: on
/// success the flow closes and the graph is reloaded; on failure the flow
/// stays open with the error.
pub fn create_finished(app: &mut App, parent_id: Option<&str>, outcome: CreateOutcome)
    requires
        old(app).inv(),
    ensures
        old(app)@.mode !is Search ==> final(app).inv(),
        outcome is Failed ==> final(app).inv(),
        (outcome matches CreateOutcome::Created { reload, .. } && reload is Ok) ==> final(app).inv(),
        match outcome {
            CreateOutcome::Failed(message) => final(app)@ == (AppView {
                status: Some(message@),
                ..old(app)@
            }),
            CreateOutcome::Created { issue_id, reload } => match reload {
                Ok(g) => final(app)@ == (AppView {
                    status: Some(
                        created_message(
                            issue_id@,
                            match parent_id {
                                Some(p) => Some(p@),
                                None => None,
                            },
                        ),
                    ),
                    ..refreshed(AppView { mode: ModeView::Normal, ..old(app)@ }, g@)
                }),
                Err(message) => final(app)@ == (AppView {
                    status: Some(
                        "Created "@ + issue_id@ + ", but reload failed: "@ + message@
                            + " · view may be stale"@,
                    ),
                    mode: ModeView::Normal,
                    ..old(app)@
                }),
            },
        },
{
    match outcome {
        CreateOutcome::Failed(message) => app.set_status(message),
        CreateOutcome::Created { issue_id, reload } => {
            app.finish_add_issue();
            match reload {
                Ok(graph) => {
                    let mut created = text_of("Created ");
                    push_text(&mut created, issue_id.as_str());
                    if let Some(parent) = parent_id {
                        push_text(&mut created, " under ");
                        push_text(&mut created, parent);
                    }
                    app.refresh_graph(graph);
                    app.set_status(created);
                },
                Err(message) => {
                    let mut text = text_of("Created ");
                    push_text(&mut text, issue_id.as_str());
                    push_text(&mut text, ", but reload failed: ");
                    push_text(&mut text, message.as_str());
                    push_text(&mut text, " · view may be stale");
                    app.set_status(text);
                },
            }
        },
    }
}

/// How often the loop wakes while a close runs in the background, in
/// nanoseconds.
pub const CLOSE_POLL_NANOS: u64 = 50_000_000;

/// How long the loop waits for a key, given how long a pending `e` still
/// waits (`key_timeout`): as long as that, or, while a close runs in the
/// background, at most `CLOSE_POLL_NANOS` so that its end is noticed. `None`
/// waits for the next key however long it takes.
pub fn wake_timeout(key_timeout: Option<Duration>, close_pending: bool) -> (r: Option<Duration>)
    ensures
        !close_pending ==> r == key_timeout,
        close_pending ==> (r matches Some(d) && duration_nanos(d) == match key_timeout {
            Some(t) => if duration_nanos(t) <= CLOSE_POLL_NANOS {
                duration_nanos(t)
            } else {
                CLOSE_POLL_NANOS as u128
            },
            None => CLOSE_POLL_NANOS as u128,
        }),
{
    if !close_pending {
        return key_timeout;
    }
    match key_timeout {
        Some(t) => {
            if nanos_of(&t) <= CLOSE_POLL_NANOS as u128 {
                Some(t)
            } else {
                Some(duration_from_nanos(CLOSE_POLL_NANOS))
            }
        },
        None => Some(duration_from_nanos(CLOSE_POLL_NANOS)),
    }
}

/// Whether a pending `e` has waited its time out, given how long it still
/// waits: then it stands alone and edits the description.
pub fn chord_timed_out(remaining: Option<Duration>) -> (r: bool)
    ensures
        r == (remaining matches Some(d) && duration_nanos(d) == 0u128),
{
    match remaining {
        Some(d) => nanos_of(&d) == 0,
        None => false,
    }
}

} // verus!
